//! The fields and documents of the index, and paging through a sorted
//! result list with cursors.

use vstd::prelude::*;
use vstd::string::StringExecFns;
use crate::model::RecipeId;
use crate::search::top_collector::{
    admitted_docs, page_of, CollectionResult, ConditionalTopCollector, SearchMarker,
};

verus! {

/// The place in a result list behind which the next page begins: the score
/// and the id of the last item handed out.
#[derive(Clone, Copy, Debug, PartialEq, Eq, Structural)]
pub struct After(pub u64, pub RecipeId);

/// How the score of the last item handed out stands to the score of a
/// candidate.
#[derive(Clone, Copy, Debug, PartialEq, Eq, Structural)]
pub enum ScoreOrder {
    /// The last score is the smaller one.
    Less,
    /// The two scores are the same.
    Equal,
    /// The last score is the larger one.
    Greater,
    /// The two scores cannot be compared.
    Unordered,
}

/// How `last` stands to `score`, for scores that are unsigned numbers.
pub open spec fn score_order(last: u64, score: u64) -> ScoreOrder {
    if last < score {
        ScoreOrder::Less
    } else if last == score {
        ScoreOrder::Equal
    } else {
        ScoreOrder::Greater
    }
}

/// Whether a candidate comes behind the cursor: every candidate comes
/// behind the start; behind any other place come the candidates with a
/// smaller score, and those with the same score and a larger id.
pub open spec fn comes_after(after: After, order: ScoreOrder, recipe_id: RecipeId) -> bool {
    (after.0 == 0 && after.1 == 0) || match order {
        ScoreOrder::Greater => true,
        ScoreOrder::Equal => after.1 < recipe_id,
        _ => false,
    }
}

impl After {
    /// The place before the first result.
    pub fn start() -> (cursor: After)
        ensures
            cursor == After(0, 0),
    {
        After(0, 0)
    }

    /// The place behind the item with this score and id.
    pub fn new(score: u64, recipe_id: RecipeId) -> (after: After)
        ensures
            after == After(score, recipe_id),
    {
        After(score, recipe_id)
    }

    /// Whether this is the place before the first result.
    pub fn is_start(&self) -> (start: bool)
        ensures
            start == (self.0 == 0 && self.1 == 0),
    {
        self.0 == 0 && self.1 == 0
    }

    /// The id of the last item handed out.
    pub fn recipe_id(&self) -> (id: RecipeId)
        ensures
            id == self.1,
    {
        self.1
    }

    /// The score of the last item handed out, as it is carried.
    pub fn score(&self) -> (score: u64)
        ensures
            score == self.0,
    {
        self.0
    }

    /// Whether the candidate with id `recipe_id`, whose score stands to the
    /// cursor's as `order` says, belongs to what comes behind the cursor.
    pub fn admits(&self, order: ScoreOrder, recipe_id: RecipeId) -> (admitted: bool)
        ensures
            admitted == comes_after(*self, order, recipe_id),
    {
        if self.is_start() {
            return true;
        }
        match order {
            ScoreOrder::Greater => true,
            ScoreOrder::Equal => self.1 < recipe_id,
            _ => false,
        }
    }

    /// Whether the candidate with an unsigned score belongs to what comes
    /// behind the cursor.
    pub fn admits_unsigned(&self, score: u64, recipe_id: RecipeId) -> (admitted: bool)
        ensures
            admitted == comes_after(*self, score_order(self.0, score), recipe_id),
    {
        let order = if self.0 < score {
            ScoreOrder::Less
        } else if self.0 == score {
            ScoreOrder::Equal
        } else {
            ScoreOrder::Greater
        };
        self.admits(order, recipe_id)
    }
}

impl Default for After {
    fn default() -> (after: After)
        ensures
            after == After(0, 0),
    {
        After(0, 0)
    }
}

/// A field that an index must have and does not.
#[derive(Clone, Copy, Debug, PartialEq, Eq, Structural)]
pub enum SchemaError {
    MissingId,
    MissingFulltext,
    MissingFeatures,
}

/// The fields of the index, by their number in the schema: the stored id
/// of a recipe, its tokenized text, and its packed features.
#[derive(Clone, Copy, Debug, PartialEq, Eq, Structural)]
pub struct RecipeIndex {
    pub id: u32,
    pub fulltext: u32,
    pub features_bincode: u32,
}

/// What goes into the index for one recipe.
#[derive(Debug)]
pub struct IndexedRecipe {
    pub id: RecipeId,
    pub fulltext: String,
    pub features: Vec<u8>,
}

/// Name of the field that stores the id.
pub const FIELD_ID: &'static str = "id";

/// Name of the field that holds the tokenized text.
pub const FIELD_FULLTEXT: &'static str = "fulltext";

/// Name of the field that holds the packed features.
pub const FIELD_FEATURES_BINCODE: &'static str = "features_bincode";

/// The text of each string of `lines`.
pub open spec fn texts(lines: Seq<String>) -> Seq<Seq<char>> {
    Seq::new(lines.len(), |i: int| lines[i]@)
}

/// The lines with a line feed between each two.
pub open spec fn joined_lines(lines: Seq<Seq<char>>) -> Seq<char>
    decreases lines.len(),
{
    if lines.len() == 0 {
        Seq::empty()
    } else if lines.len() == 1 {
        lines[0]
    } else {
        joined_lines(lines.drop_last()) + seq!['\n'] + lines.last()
    }
}

/// The ids of `items`, in their order.
pub open spec fn ids_of(items: Seq<SearchMarker>) -> Seq<RecipeId> {
    Seq::new(items.len(), |i: int| items[i].id)
}

/// The cursor that a page hands out: the score and id of its last item
/// where more documents came behind the page's cursor than the page holds,
/// nothing where the page holds them all.
pub open spec fn next_cursor(visited: nat, items: Seq<SearchMarker>) -> Option<After> {
    if visited > items.len() && items.len() > 0 {
        Some(After(items.last().score, items.last().id))
    } else {
        None
    }
}

impl SchemaError {
    /// The error in words.
    pub fn message(&self) -> (text: String)
        ensures
            text@ == (match *self {
                SchemaError::MissingId => "Missing field id"@,
                SchemaError::MissingFulltext => "Missing field fulltext"@,
                SchemaError::MissingFeatures => "Missing field features_bincode"@,
            }),
    {
        match self {
            SchemaError::MissingId => "Missing field id".to_owned(),
            SchemaError::MissingFulltext => "Missing field fulltext".to_owned(),
            SchemaError::MissingFeatures => "Missing field features_bincode".to_owned(),
        }
    }
}

impl RecipeIndex {
    /// The index whose three fields have the given numbers; a field that
    /// the schema lacks is reported, the id first, then the text, then the
    /// features.
    pub fn try_from_fields(
        id: Option<u32>,
        fulltext: Option<u32>,
        features_bincode: Option<u32>,
    ) -> (index: Result<RecipeIndex, SchemaError>)
        ensures
            index == (match (id, fulltext, features_bincode) {
                (None, _, _) => Err::<RecipeIndex, SchemaError>(SchemaError::MissingId),
                (Some(_), None, _) => Err(SchemaError::MissingFulltext),
                (Some(_), Some(_), None) => Err(SchemaError::MissingFeatures),
                (Some(a), Some(b), Some(c)) => Ok(
                    RecipeIndex { id: a, fulltext: b, features_bincode: c },
                ),
            }),
    {
        let id = match id {
            Some(f) => f,
            None => {
                return Err(SchemaError::MissingId);
            },
        };
        let fulltext = match fulltext {
            Some(f) => f,
            None => {
                return Err(SchemaError::MissingFulltext);
            },
        };
        let features_bincode = match features_bincode {
            Some(f) => f,
            None => {
                return Err(SchemaError::MissingFeatures);
            },
        };
        Ok(RecipeIndex { id, fulltext, features_bincode })
    }

    /// What goes into the index for a recipe: its id, its packed features,
    /// and as text its name, its ingredients and its instructions, one per
    /// line.
    pub fn make_document(
        &self,
        recipe_id: RecipeId,
        name: &str,
        ingredients: &Vec<String>,
        instructions: &Vec<String>,
        features: Vec<u8>,
    ) -> (doc: IndexedRecipe)
        ensures
            doc.id == recipe_id,
            doc.features@ == features@,
            doc.fulltext@ == joined_lines(
                seq![name@] + texts(ingredients@) + texts(instructions@),
            ),
    {
        let mut fulltext = String::from_str(name);
        let ghost first = seq![name@];
        let mut i: usize = 0;
        while i < ingredients.len()
            invariant
                i <= ingredients@.len(),
                first == seq![name@],
                fulltext@ == joined_lines(first + texts(ingredients@).take(i as int)),
            decreases ingredients@.len() - i,
        {
            proof {
                reveal_strlit("\n");
                let lines = first + texts(ingredients@).take(i + 1);
                assert(lines.drop_last() =~= first + texts(ingredients@).take(i as int));
                assert(lines.last() == ingredients@[i as int]@);
            }
            fulltext.append("\n");
            fulltext.append(ingredients[i].as_str());
            i += 1;
            assert(fulltext@ =~= joined_lines(first + texts(ingredients@).take(i as int)));
        }
        let ghost head = first + texts(ingredients@);
        assert(texts(ingredients@).take(i as int) =~= texts(ingredients@));
        let mut j: usize = 0;
        while j < instructions.len()
            invariant
                j <= instructions@.len(),
                head.len() > 0,
                fulltext@ == joined_lines(head + texts(instructions@).take(j as int)),
            decreases instructions@.len() - j,
        {
            proof {
                reveal_strlit("\n");
                let lines = head + texts(instructions@).take(j + 1);
                assert(lines.drop_last() =~= head + texts(instructions@).take(j as int));
                assert(lines.last() == instructions@[j as int]@);
            }
            fulltext.append("\n");
            fulltext.append(instructions[j].as_str());
            j += 1;
            assert(fulltext@ =~= joined_lines(head + texts(instructions@).take(j as int)));
        }
        assert(texts(instructions@).take(j as int) =~= texts(instructions@));
        IndexedRecipe { id: recipe_id, fulltext, features }
    }

    /// The ids of the collected documents, in their order.
    pub fn addresses_to_ids(&self, addresses: &[SearchMarker]) -> (ids: Vec<RecipeId>)
        ensures
            ids@ == ids_of(addresses@),
    {
        let mut items: Vec<RecipeId> = Vec::with_capacity(addresses.len());
        let mut i: usize = 0;
        while i < addresses.len()
            invariant
                i <= addresses@.len(),
                items@ == ids_of(addresses@).take(i as int),
            decreases addresses@.len() - i,
        {
            items.push(addresses[i].id);
            i += 1;
            assert(items@ =~= ids_of(addresses@).take(i as int));
        }
        assert(ids_of(addresses@).take(i as int) =~= ids_of(addresses@));
        items
    }

    /// What a search hands out for what a collector found: how many
    /// documents matched, the ids of the page, and the cursor for the next
    /// page where there is one.
    pub fn page(&self, result: &CollectionResult) -> (page: (usize, Vec<RecipeId>, Option<After>))
        ensures
            page.0 == result.total,
            page.1@ == ids_of(result.items@),
            page.2 == next_cursor(result.visited as nat, result.items@),
    {
        let items = self.addresses_to_ids(result.items.as_slice());
        let num_items = items.len();
        let cursor = if result.visited > num_items && num_items > 0 {
            let last = result.items[num_items - 1];
            Some(After::new(last.score, last.id))
        } else {
            None
        };
        (result.total, items, cursor)
    }

    /// One page of a search over the matching documents `docs`, each with
    /// its score under the sort order: how many documents matched, the ids
    /// of the best `limit` among those behind the cursor, best first, and
    /// the cursor for the next page where there is one.
    pub fn search(&self, docs: &[SearchMarker], limit: usize, after: After) -> (page: (
        usize,
        Vec<RecipeId>,
        Option<After>,
    ))
        requires
            limit > 0,
        ensures
            page.0 == docs@.len(),
            page.1@ == ids_of(page_of(docs@, after, limit as nat)),
            page.2 == next_cursor(
                admitted_docs(docs@, after).len(),
                page_of(docs@, after, limit as nat),
            ),
    {
        let mut collector = ConditionalTopCollector::with_limit(limit, after);
        let mut i: usize = 0;
        while i < docs.len()
            invariant
                i <= docs@.len(),
                collector.wf(),
                collector.docs() == docs@.take(i as int),
                collector.cursor() == after,
                collector.capacity() == limit,
            decreases docs@.len() - i,
        {
            collector.collect(docs[i].score, docs[i].id);
            i += 1;
            assert(collector.docs() =~= docs@.take(i as int));
        }
        assert(docs@.take(i as int) =~= docs@);
        let result = collector.harvest();
        self.page(&result)
    }
}

} // verus!
