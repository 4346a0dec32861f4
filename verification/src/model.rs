//! What a caller asks of the search layer and gets back.

use vstd::prelude::*;

verus! {

/// The application-assigned identity of a recipe.
pub type RecipeId = u64;

/// How many items a page has where the query does not say.
pub const DEFAULT_NUM_ITEMS: u8 = 10;

/// The order in which results come: by relevance to the query text, or by
/// one of the sortable features. The larger value comes first.
#[derive(Clone, Copy, Debug, PartialEq, Eq, Structural)]
pub enum Sort {
    Relevance,
    NumIngredients,
    InstructionsLength,
    TotalTime,
    CookTime,
    PrepTime,
    Calories,
    FatContent,
    CarbContent,
    ProteinContent,
}

/// How the score of a sort order is carried in a cursor.
#[derive(Clone, Copy, Debug, PartialEq, Eq, Structural)]
pub enum ScoreKind {
    /// The bit pattern of a 32-bit float.
    Float32,
    /// The bit pattern of a 64-bit float.
    Float64,
    /// The number itself.
    Unsigned,
}

impl Sort {
    /// How the score of this sort order is carried in a cursor: relevance is
    /// a 32-bit float, the three nutrient contents are 64-bit floats, the
    /// others are unsigned numbers.
    pub fn score_kind(&self) -> (kind: ScoreKind)
        ensures
            kind == match *self {
                Sort::Relevance => ScoreKind::Float32,
                Sort::FatContent | Sort::CarbContent | Sort::ProteinContent => ScoreKind::Float64,
                _ => ScoreKind::Unsigned,
            },
    {
        match self {
            Sort::Relevance => ScoreKind::Float32,
            Sort::FatContent | Sort::CarbContent | Sort::ProteinContent => ScoreKind::Float64,
            _ => ScoreKind::Unsigned,
        }
    }
}

/// The place in a result list behind which the next page begins: the score
/// and the id of the last item handed out.
#[derive(Clone, Copy, Debug, PartialEq, Eq, Structural)]
pub struct SearchCursor(pub u64, pub RecipeId);

impl SearchCursor {
    /// The place before the first result.
    pub fn start() -> (cursor: SearchCursor)
        ensures
            cursor == SearchCursor(0, 0),
    {
        SearchCursor(0, 0)
    }

    /// The place behind the item with this score and id.
    pub fn new(score: u64, recipe_id: RecipeId) -> (cursor: SearchCursor)
        ensures
            cursor == SearchCursor(score, recipe_id),
    {
        SearchCursor(score, recipe_id)
    }

    /// Whether this is the place before the first result.
    pub fn is_start(&self) -> (start: bool)
        ensures
            start == (self.0 == 0 && self.1 == 0),
    {
        self.0 == 0 && self.1 == 0
    }

    /// The id of the last item handed out.
    pub fn recipe_id(&self) -> (id: RecipeId)
        ensures
            id == self.1,
    {
        self.1
    }

    /// The score of the last item handed out, as it is carried.
    pub fn score(&self) -> (score: u64)
        ensures
            score == self.0,
    {
        self.0
    }
}

impl Default for SearchCursor {
    fn default() -> (cursor: SearchCursor)
        ensures
            cursor == SearchCursor(0, 0),
    {
        SearchCursor(0, 0)
    }
}

/// One search: the text to match, the order of the results, the size of a
/// page and the place to go on from.
#[derive(Debug)]
pub struct SearchQuery {
    pub fulltext: Option<String>,
    pub sort: Option<Sort>,
    pub num_items: Option<u8>,
    pub after: Option<SearchCursor>,
}

impl SearchQuery {
    /// How many items the page may have: ten where the query does not say.
    pub fn limit(&self) -> (limit: usize)
        ensures
            limit == match self.num_items {
                Some(n) => n as usize,
                None => 10,
            },
    {
        match self.num_items {
            Some(n) => n as usize,
            None => DEFAULT_NUM_ITEMS as usize,
        }
    }

    /// The order of the results: by relevance where the query does not say.
    pub fn sort_order(&self) -> (sort: Sort)
        ensures
            sort == match self.sort {
                Some(s) => s,
                None => Sort::Relevance,
            },
    {
        match self.sort {
            Some(s) => s,
            None => Sort::Relevance,
        }
    }

    /// The place to go on from: the start where the query does not say.
    pub fn cursor(&self) -> (cursor: SearchCursor)
        ensures
            cursor == match self.after {
                Some(c) => c,
                None => SearchCursor(0, 0),
            },
    {
        match self.after {
            Some(c) => c,
            None => SearchCursor(0, 0),
        }
    }
}

impl Default for SearchQuery {
    fn default() -> (query: SearchQuery)
        ensures
            query.fulltext is None,
            query.sort is None,
            query.num_items is None,
            query.after is None,
    {
        SearchQuery { fulltext: None, sort: None, num_items: None, after: None }
    }
}

/// Whether a search that found `total_found` items is followed by an
/// aggregation: only where one was asked for, and only where no more items
/// were found than the threshold allows. Without a threshold every count is
/// allowed.
pub fn should_aggregate(wanted: bool, total_found: usize, agg_threshold: Option<usize>) -> (run:
    bool)
    ensures
        run == (wanted && match agg_threshold {
            Some(most) => total_found <= most,
            None => true,
        }),
{
    if wanted {
        match agg_threshold {
            Some(most) => total_found <= most,
            None => true,
        }
    } else {
        false
    }
}

} // verus!
