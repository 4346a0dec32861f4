//! What the two command-line front ends are told, and what they decide
//! from it.

use vstd::prelude::*;
use crate::model::should_aggregate;

verus! {

/// Bytes in one megabyte of writer buffer.
pub const BYTES_PER_MB: usize = 1_000_000;

/// How a corpus is loaded.
#[derive(Debug)]
pub struct LoadOptions {
    /// Size of the index writer's buffer, in megabytes; not zero.
    pub buffer_size: usize,
    /// How many recipes are ingested between two commits; not zero.
    pub commit_every: usize,
    /// How many worker threads parse and index; not zero.
    pub num_producers: usize,
    /// Where the store and the index are made; must not exist yet.
    pub output_dir: String,
}

/// How a loaded corpus is queried.
#[derive(Debug)]
pub struct QueryOptions {
    /// Where the store and the index are.
    pub base_path: String,
    /// Aggregate only where no more recipes were found than this.
    pub agg_threshold: Option<usize>,
}

/// Accepts an output directory only where nothing is at its path yet.
pub fn does_not_exist(path_exists: bool) -> (checked: Result<(), String>)
    ensures
        checked is Err <==> path_exists,
        checked is Err ==> checked->Err_0@ == "Path already exists"@,
{
    if path_exists {
        Err("Path already exists".to_owned())
    } else {
        Ok(())
    }
}

impl LoadOptions {
    /// Each of the three numbers is at least one.
    pub open spec fn valid(self) -> bool {
        self.buffer_size != 0 && self.commit_every != 0 && self.num_producers != 0
    }

    /// Options with the given numbers, or nothing where one of them is
    /// zero.
    pub fn new(buffer_size: usize, commit_every: usize, num_producers: usize, output_dir: String) -> (options: Option<LoadOptions>)
        ensures
            options is Some <==> (buffer_size != 0 && commit_every != 0 && num_producers != 0),
            options is Some ==> {
                &&& options->0.valid()
                &&& options->0.buffer_size == buffer_size
                &&& options->0.commit_every == commit_every
                &&& options->0.num_producers == num_producers
                &&& options->0.output_dir == output_dir
            },
    {
        if buffer_size == 0 || commit_every == 0 || num_producers == 0 {
            None
        } else {
            Some(LoadOptions { buffer_size, commit_every, num_producers, output_dir })
        }
    }

    /// The options used where the command line says nothing: a buffer of
    /// 1000 megabytes, a commit every 300000 recipes, four workers.
    pub fn with_defaults(output_dir: String) -> (options: LoadOptions)
        ensures
            options.valid(),
            options.buffer_size == 1000,
            options.commit_every == 300000,
            options.num_producers == 4,
            options.output_dir == output_dir,
    {
        LoadOptions { buffer_size: 1000, commit_every: 300000, num_producers: 4, output_dir }
    }

    /// The writer's buffer in bytes, or nothing where the number does not
    /// fit the machine.
    pub fn buffer_bytes(&self) -> (bytes: Option<usize>)
        ensures
            match bytes {
                Some(b) => b == self.buffer_size * 1_000_000,
                None => self.buffer_size * 1_000_000 > usize::MAX,
            },
    {
        self.buffer_size.checked_mul(BYTES_PER_MB)
    }

    /// Whether the index is committed after the `num_recipes`-th recipe:
    /// after every `commit_every`-th one.
    pub fn commit_due(&self, num_recipes: usize) -> (due: bool)
        requires
            self.valid(),
        ensures
            due == (num_recipes % self.commit_every == 0),
    {
        num_recipes % self.commit_every == 0
    }
}

impl QueryOptions {
    /// Whether a query that asked for an aggregation (`wanted`) and found
    /// `total_found` recipes gets one.
    pub fn aggregates(&self, wanted: bool, total_found: usize) -> (run: bool)
        ensures
            run == (wanted && match self.agg_threshold {
                Some(most) => total_found <= most,
                None => true,
            }),
    {
        should_aggregate(wanted, total_found, self.agg_threshold)
    }
}

} // verus!
