//! The query values shared by the indexes: candidate words and phrases.
use crate::codec::{encode3, three_byte_encode, WORD_ID_LIMIT};
use vstd::prelude::*;

verus! {

/// A candidate for one position of a query.
#[derive(Clone, Copy, Debug, PartialEq, Eq)]
pub enum QueryWord {
    /// A concrete word, with the edit distance at which it was found.
    Full { id: u32, edit_distance: u8 },
    /// Every word whose id lies in the inclusive range.
    Prefix { id_range: (u32, u32) },
}

impl QueryWord {
    pub fn new_full(id: u32, edit_distance: u8) -> (r: QueryWord)
        ensures
            r == (QueryWord::Full { id, edit_distance }),
    {
        QueryWord::Full { id, edit_distance }
    }

    pub fn new_prefix(id_range: (u32, u32)) -> (r: QueryWord)
        ensures
            r == (QueryWord::Prefix { id_range }),
    {
        QueryWord::Prefix { id_range }
    }

    /// Word ids fit in 24 bits, and a range is not empty.
    pub open spec fn wf(&self) -> bool {
        match *self {
            QueryWord::Full { id, .. } => id < WORD_ID_LIMIT,
            QueryWord::Prefix { id_range } => id_range.0 <= id_range.1 && id_range.1 < WORD_ID_LIMIT,
        }
    }

    /// The edit distance that choosing this word costs (nothing for a range).
    pub open spec fn cost(&self) -> int {
        match *self {
            QueryWord::Full { edit_distance, .. } => edit_distance as int,
            QueryWord::Prefix { .. } => 0,
        }
    }

    pub fn is_prefix(&self) -> (r: bool)
        ensures
            r == (*self is Prefix),
    {
        match self {
            QueryWord::Full { .. } => false,
            QueryWord::Prefix { .. } => true,
        }
    }

    /// The three-byte key of a full word.
    pub fn key(&self) -> (r: Vec<u8>)
        requires
            *self is Full,
        ensures
            r@ == encode3(self->Full_id as int),
    {
        match self {
            QueryWord::Full { id, .. } => three_byte_encode(*id as u64),
            QueryWord::Prefix { .. } => Vec::new(),
        }
    }
}

/// The key of a sequence of full words.
pub open spec fn query_key(words: Seq<QueryWord>) -> Seq<u8>
    decreases words.len(),
{
    if words.len() == 0 {
        Seq::empty()
    } else {
        query_key(words.drop_last()) + encode3(words.last()->Full_id as int)
    }
}

/// Every word is a full word.
pub open spec fn all_full(words: Seq<QueryWord>) -> bool {
    forall|i: int| 0 <= i < words.len() ==> (#[trigger] words[i]) is Full
}

/// A query phrase: non-empty, with a word range at most in last place.
pub open spec fn phrase_shape(words: Seq<QueryWord>) -> bool {
    &&& words.len() > 0
    &&& forall|i: int| 0 <= i < words.len() - 1 ==> (#[trigger] words[i]) is Full
}

/// Why a query phrase could not be formed.
#[derive(Clone, Copy, Debug, PartialEq, Eq, Structural)]
pub enum QueryPhraseError {
    Empty,
    PrefixNotLast,
}

/// An ordered, non-empty sequence of query words; only the last may be a
/// word range.
#[derive(Clone, Debug)]
pub struct QueryPhrase {
    pub words: Vec<QueryWord>,
    pub has_prefix: bool,
}

impl QueryPhrase {
    pub open spec fn wf(&self) -> bool {
        &&& phrase_shape(self.words@)
        &&& self.has_prefix == (self.words@.last() is Prefix)
    }

    pub fn new(words: &[QueryWord]) -> (r: Result<QueryPhrase, QueryPhraseError>)
        ensures
            words@.len() == 0 ==> r == Err::<QueryPhrase, QueryPhraseError>(QueryPhraseError::Empty),
            words@.len() > 0 && !phrase_shape(words@) ==> r == Err::<QueryPhrase, QueryPhraseError>(
                QueryPhraseError::PrefixNotLast,
            ),
            phrase_shape(words@) ==> (r matches Ok(p) && p.wf() && p.words@ == words@),
    {
        if words.len() == 0 {
            return Err(QueryPhraseError::Empty);
        }
        let mut i: usize = 0;
        while i + 1 < words.len()
            invariant
                words@.len() > 0,
                i < words@.len(),
                forall|j: int| 0 <= j < i ==> (#[trigger] words@[j]) is Full,
            decreases words@.len() - i,
        {
            if words[i].is_prefix() {
                return Err(QueryPhraseError::PrefixNotLast);
            }
            i = i + 1;
        }
        let has_prefix = words[words.len() - 1].is_prefix();
        let mut v: Vec<QueryWord> = Vec::new();
        let mut k: usize = 0;
        while k < words.len()
            invariant
                k <= words@.len(),
                v@ == words@.take(k as int),
            decreases words@.len() - k,
        {
            v.push(words[k]);
            k = k + 1;
            assert(v@ =~= words@.take(k as int));
        }
        assert(words@.take(k as int) =~= words@);
        Ok(QueryPhrase { words: v, has_prefix })
    }

    pub fn len(&self) -> (r: usize)
        ensures
            r == self.words@.len(),
    {
        self.words.len()
    }
}

} // verus!
