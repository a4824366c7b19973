//! An inverted index from word ids to the ids of the phrases that hold them.
use crate::codec::WORD_ID_LIMIT;
use crate::query::{all_full, QueryPhrase, QueryWord};
use vstd::prelude::*;

verus! {

/// Errors of the inverted index.
#[derive(Clone, Copy, Debug, PartialEq, Eq, Structural)]
pub enum InvertedIndexError {
    /// A word range where only full words are accepted.
    QueryShape,
    /// A phrase id that the phrase table does not hold.
    UnknownPhrase,
}

pub open spec fn ascending_u32(s: Seq<u32>) -> bool {
    forall|i: int, j: int| 0 <= i < j < s.len() ==> s[i] < s[j]
}

pub open spec fn sorted_u32(s: Seq<u32>) -> bool {
    forall|i: int, j: int| 0 <= i < j < s.len() ==> s[i] <= s[j]
}

/// The views of a sequence of id vectors.
pub open spec fn lists_view(v: Seq<Vec<u32>>) -> Seq<Seq<u32>> {
    v.map_values(|x: Vec<u32>| x@)
}

/// Relies on `slice::sort_unstable`: the ids are reordered into ascending order.
#[verifier::external_body]
fn sort_ids(v: &mut Vec<u32>)
    ensures
        final(v)@.len() == old(v)@.len(),
        forall|x: u32| #[trigger] final(v)@.contains(x) <==> old(v)@.contains(x),
        sorted_u32(final(v)@),
{
    v.sort_unstable()
}

/// The distinct ids of `v`, in ascending order.
fn sorted_distinct(v: &Vec<u32>) -> (r: Vec<u32>)
    ensures
        ascending_u32(r@),
        forall|x: u32| #[trigger] r@.contains(x) <==> v@.contains(x),
{
    let mut s = v.clone();
    sort_ids(&mut s);
    let mut r: Vec<u32> = Vec::new();
    let mut i: usize = 0;
    while i < s.len()
        invariant
            i <= s@.len(),
            sorted_u32(s@),
            ascending_u32(r@),
            r@.len() > 0 ==> i > 0 && r@.last() == s@[i - 1],
            i > 0 ==> r@.len() > 0,
            forall|x: u32| #[trigger] r@.contains(x) <==> s@.take(i as int).contains(x),
        decreases s@.len() - i,
    {
        let x = s[i];
        let ghost before = r@;
        let ghost t0 = s@.take(i as int);
        let ghost t1 = s@.take(i + 1);
        assert(t1 =~= t0.push(x));
        assert(forall|y: u32| #[trigger] before.contains(y) <==> t0.contains(y));
        if r.len() == 0 || r[r.len() - 1] != x {
            r.push(x);
            proof {
                assert(r@ =~= before.push(x));
                if before.len() > 0 {
                    assert(before.last() <= x);
                }
            }
        }
        proof {
            assert forall|y: u32| #[trigger] r@.contains(y) <==> t1.contains(y) by {
                if r@.contains(y) {
                    let q = choose|q: int| 0 <= q < r@.len() && r@[q] == y;
                    if q < before.len() {
                        assert(before[q] == y);
                        assert(before.contains(y));
                        assert(t0.contains(y));
                        let p = choose|p: int| 0 <= p < t0.len() && t0[p] == y;
                        assert(t1[p] == y);
                    } else {
                        assert(t1[i as int] == y);
                    }
                }
                if t1.contains(y) {
                    let p = choose|p: int| 0 <= p < t1.len() && t1[p] == y;
                    if p < i {
                        assert(t0[p] == y);
                        assert(t0.contains(y));
                        assert(before.contains(y));
                        let q = choose|q: int| 0 <= q < before.len() && before[q] == y;
                        assert(r@[q] == y);
                    } else if r@.len() > before.len() {
                        assert(r@[before.len() as int] == y);
                    } else {
                        assert(r@[r@.len() - 1] == y);
                    }
                }
            }
        }
        i = i + 1;
    }
    proof {
        assert(s@.take(i as int) =~= s@);
    }
    r
}

/// The list of word `w`, or an empty one past the end.
pub open spec fn padded(lists: Seq<Seq<u32>>, w: int) -> Seq<u32> {
    if 0 <= w < lists.len() {
        lists[w]
    } else {
        Seq::empty()
    }
}

/// `x`, `n` times.
pub open spec fn repeat(x: u32, n: nat) -> Seq<u32> {
    Seq::new(n, |i: int| x)
}

/// How many times `w` occurs in `s`.
pub open spec fn count_of(s: Seq<u32>, w: u32) -> nat
    decreases s.len(),
{
    if s.len() == 0 {
        0
    } else {
        count_of(s.drop_last(), w) + (if s.last() == w { 1nat } else { 0nat })
    }
}

proof fn lemma_count_absent(s: Seq<u32>, w: u32)
    requires
        forall|k: int| 0 <= k < s.len() ==> s[k] < w,
    ensures
        count_of(s, w) == 0,
    decreases s.len(),
{
    if s.len() > 0 {
        lemma_count_absent(s.drop_last(), w);
    }
}

/// `after` is `before` with `phrase_id` appended to the list of each word of
/// `words` once per occurrence, and the lists reach one past the greatest
/// word id.
pub open spec fn grown(before: Seq<Seq<u32>>, after: Seq<Seq<u32>>, words: Seq<u32>, phrase_id: u32) -> bool {
    &&& before.len() <= after.len() <= WORD_ID_LIMIT
    &&& forall|k: int| 0 <= k < words.len() ==> (#[trigger] words[k]) < after.len()
    &&& after.len() > before.len() ==> exists|k: int| 0 <= k < words.len() && #[trigger] words[k] == after.len() - 1
    &&& forall|w: int|
        0 <= w < after.len() ==> #[trigger] after[w] == padded(before, w) + repeat(phrase_id, count_of(words, w as u32))
}

/// Collects, for each word id, the ids of the phrases that hold it.
pub struct InvertedIndexBuilder {
    index: Vec<Vec<u32>>,
}

impl InvertedIndexBuilder {
    /// The phrase ids collected for each word id, up to the greatest word id seen.
    pub closed spec fn postings(&self) -> Seq<Seq<u32>> {
        lists_view(self.index@)
    }

    pub fn memory() -> (r: InvertedIndexBuilder)
        ensures
            r.postings() == Seq::<Seq<u32>>::empty(),
    {
        let r = InvertedIndexBuilder { index: Vec::new() };
        assert(r.postings() =~= Seq::<Seq<u32>>::empty());
        r
    }

    pub fn new() -> (r: InvertedIndexBuilder)
        ensures
            r.postings() == Seq::<Seq<u32>>::empty(),
    {
        InvertedIndexBuilder::memory()
    }

    /// Records that the phrase `phrase_id` holds each of `words`: the id is
    /// appended to the list of each word once for each time it occurs, and
    /// the lists grow to one past the greatest word id seen.
    pub fn insert(&mut self, phrase_id: u32, words: &[u32])
        requires
            forall|i: int| 0 <= i < words@.len() ==> (#[trigger] words@[i]) < WORD_ID_LIMIT,
            old(self).postings().len() <= WORD_ID_LIMIT,
        ensures
            grown(old(self).postings(), final(self).postings(), words@, phrase_id),
    {
        let ghost start = self.postings();
        let mut i: usize = 0;
        proof {
            assert forall|w: int| 0 <= w < start.len() implies #[trigger] lists_view(self.index@)[w] == padded(start, w) + repeat(
                phrase_id,
                count_of(words@.take(0), w as u32),
            ) by {
                assert(words@.take(0) =~= Seq::<u32>::empty());
                assert(padded(start, w) + repeat(phrase_id, 0) =~= padded(start, w));
            }
        }
        while i < words.len()
            invariant
                i <= words@.len(),
                forall|k: int| 0 <= k < words@.len() ==> (#[trigger] words@[k]) < WORD_ID_LIMIT,
                start.len() <= lists_view(self.index@).len() <= WORD_ID_LIMIT,
                forall|k: int| 0 <= k < i ==> (#[trigger] words@[k]) < lists_view(self.index@).len(),
                lists_view(self.index@).len() > start.len() ==> exists|k: int|
                    0 <= k < i && #[trigger] words@[k] == lists_view(self.index@).len() - 1,
                forall|w: int|
                    0 <= w < lists_view(self.index@).len() ==> #[trigger] lists_view(self.index@)[w] == padded(start, w)
                        + repeat(phrase_id, count_of(words@.take(i as int), w as u32)),
            decreases words@.len() - i,
        {
            let word = words[i] as usize;
            let ghost v0 = lists_view(self.index@);
            let ghost t0 = words@.take(i as int);
            while self.index.len() <= word
                invariant
                    word < WORD_ID_LIMIT,
                    v0.len() <= lists_view(self.index@).len(),
                    lists_view(self.index@).len() > v0.len() ==> lists_view(self.index@).len() <= word + 1,
                    v0.len() <= WORD_ID_LIMIT,
                    forall|w: int| 0 <= w < v0.len() ==> (#[trigger] lists_view(self.index@)[w]) == v0[w],
                    forall|w: int| v0.len() <= w < lists_view(self.index@).len() ==> (#[trigger] lists_view(self.index@)[w])
                        == Seq::<u32>::empty(),
                decreases WORD_ID_LIMIT - self.index@.len(),
            {
                let ghost b = lists_view(self.index@);
                self.index.push(Vec::new());
                proof {
                    assert(lists_view(self.index@) =~= b.push(Seq::<u32>::empty()));
                }
            }
            let ghost v1 = lists_view(self.index@);
            let mut list = Vec::new();
            std::mem::swap(&mut list, &mut self.index[word]);
            list.push(phrase_id);
            std::mem::swap(&mut list, &mut self.index[word]);
            proof {
                let v2 = lists_view(self.index@);
                assert(v2 =~= v1.update(word as int, v1[word as int].push(phrase_id)));
                let t1 = words@.take(i + 1);
                assert(t1.drop_last() =~= t0);
                assert(t1.last() == word as u32);
                assert forall|w: int| 0 <= w < v2.len() implies #[trigger] v2[w] == padded(start, w) + repeat(
                    phrase_id,
                    count_of(t1, w as u32),
                ) by {
                    let c0 = count_of(t0, w as u32);
                    if w >= v0.len() {
                        lemma_count_absent(t0, w as u32);
                        assert(v1[w] == Seq::<u32>::empty());
                        assert(padded(start, w) == Seq::<u32>::empty());
                    } else {
                        assert(v1[w] == v0[w]);
                    }
                    assert(v1[w] == padded(start, w) + repeat(phrase_id, c0)) by {
                        if w >= v0.len() {
                            assert(padded(start, w) + repeat(phrase_id, 0) =~= Seq::<u32>::empty());
                        }
                    }
                    if w == word {
                        assert(count_of(t1, w as u32) == c0 + 1);
                        assert(repeat(phrase_id, c0 + 1) =~= repeat(phrase_id, c0).push(phrase_id));
                        assert(padded(start, w) + repeat(phrase_id, c0 + 1) =~= (padded(start, w) + repeat(phrase_id, c0)).push(
                            phrase_id,
                        ));
                    } else {
                        assert(count_of(t1, w as u32) == c0);
                    }
                }
                if v2.len() > start.len() {
                    if v2.len() > v0.len() {
                        assert(words@[i as int] == v2.len() - 1);
                    } else {
                        let k = choose|k: int| 0 <= k < i && #[trigger] words@[k] == v0.len() - 1;
                        assert(words@[k] == v2.len() - 1);
                    }
                }
            }
            i = i + 1;
        }
        proof {
            assert(words@.take(i as int) =~= words@);
        }
    }

    /// The phrase ids of every word id up to the greatest one seen, each list
    /// sorted with repeats removed.
    pub fn finish(self) -> (r: Vec<Vec<u32>>)
        ensures
            r@.len() == self.postings().len(),
            forall|w: int| 0 <= w < r@.len() ==> ascending_u32(#[trigger] r@[w]@),
            forall|w: int, x: u32| 0 <= w < r@.len() ==> (#[trigger] r@[w]@.contains(x) <==> self.postings()[w].contains(x)),
    {
        let ghost p = self.postings();
        let index = self.index;
        let mut r: Vec<Vec<u32>> = Vec::new();
        let mut w: usize = 0;
        while w < index.len()
            invariant
                p == lists_view(index@),
                w <= index@.len(),
                r@.len() == w,
                forall|k: int| 0 <= k < w ==> ascending_u32(#[trigger] r@[k]@),
                forall|k: int, x: u32| 0 <= k < w ==> (#[trigger] r@[k]@.contains(x) <==> p[k].contains(x)),
            decreases index@.len() - w,
        {
            let list = sorted_distinct(&index[w]);
            assert(p[w as int] == index@[w as int]@);
            r.push(list);
            w = w + 1;
        }
        r
    }
}

/// The ids in both ascending lists, in ascending order.
pub fn intersect(a: &Vec<u32>, b: &Vec<u32>) -> (r: Vec<u32>)
    requires
        ascending_u32(a@),
        ascending_u32(b@),
    ensures
        ascending_u32(r@),
        forall|x: u32| #[trigger] r@.contains(x) <==> a@.contains(x) && b@.contains(x),
{
    let mut r: Vec<u32> = Vec::new();
    let mut i: usize = 0;
    let mut j: usize = 0;
    while i < a.len() && j < b.len()
        invariant
            ascending_u32(a@),
            ascending_u32(b@),
            i <= a@.len(),
            j <= b@.len(),
            ascending_u32(r@),
            forall|k: int| 0 <= k < r@.len() ==> (i < a@.len() ==> r@[k] < a@[i as int]) && (j < b@.len() ==> r@[k] < b@[j as int]),
            forall|x: u32| #[trigger] r@.contains(x) <==> (a@.take(i as int).contains(x) || b@.take(j as int).contains(x))
                && a@.contains(x) && b@.contains(x),
        decreases a@.len() - i + b@.len() - j,
    {
        let x = a[i];
        let y = b[j];
        let ghost ta = a@.take(i as int);
        let ghost tb = b@.take(j as int);
        let ghost before = r@;
        if x < y {
            i = i + 1;
        } else if y < x {
            j = j + 1;
        } else {
            r.push(x);
            i = i + 1;
            j = j + 1;
        }
        proof {
            assert(a@.take(i as int) =~= if i > ta.len() { ta.push(x) } else { ta });
            assert(b@.take(j as int) =~= if j > tb.len() { tb.push(y) } else { tb });
            assert forall|z: u32| #[trigger] r@.contains(z) <==> (a@.take(i as int).contains(z) || b@.take(j as int).contains(z))
                && a@.contains(z) && b@.contains(z) by {
                let na = a@.take(i as int);
                let nb = b@.take(j as int);
                if r@.contains(z) {
                    let q = choose|q: int| 0 <= q < r@.len() && r@[q] == z;
                    if q < before.len() {
                        assert(before[q] == z);
                        assert(before.contains(z));
                        if ta.contains(z) {
                            let p = choose|p: int| 0 <= p < ta.len() && ta[p] == z;
                            assert(na[p] == z);
                        } else {
                            let p = choose|p: int| 0 <= p < tb.len() && tb[p] == z;
                            assert(nb[p] == z);
                        }
                    } else {
                        assert(z == x);
                        assert(na[na.len() - 1] == z);
                        assert(a@[i - 1] == z);
                        assert(b@[j - 1] == z);
                    }
                }
                if (na.contains(z) || nb.contains(z)) && a@.contains(z) && b@.contains(z) {
                    let pa = choose|p: int| 0 <= p < a@.len() && a@[p] == z;
                    let pb = choose|p: int| 0 <= p < b@.len() && b@[p] == z;
                    if ta.contains(z) || tb.contains(z) {
                        assert(before.contains(z));
                        let q = choose|q: int| 0 <= q < before.len() && before[q] == z;
                        assert(r@[q] == z);
                    } else if na.contains(z) {
                        let p = choose|p: int| 0 <= p < na.len() && na[p] == z;
                        if p < ta.len() {
                            assert(ta[p] == z);
                        }
                        assert(z == x);
                        if x < y {
                            if pb < j {
                                assert(tb[pb] == z);
                            }
                            assert(b@[pb] >= y);
                        }
                        assert(r@[r@.len() - 1] == z);
                    } else {
                        let p = choose|p: int| 0 <= p < nb.len() && nb[p] == z;
                        if p < tb.len() {
                            assert(tb[p] == z);
                        }
                        assert(z == y);
                        if y < x {
                            if pa < i {
                                assert(ta[pa] == z);
                            }
                            assert(a@[pa] >= x);
                        }
                        assert(r@[r@.len() - 1] == z);
                    }
                }
            }
        }
    }
    proof {
        assert forall|z: u32| a@.contains(z) && b@.contains(z) implies #[trigger] r@.contains(z) by {
            let pa = choose|p: int| 0 <= p < a@.len() && a@[p] == z;
            let pb = choose|p: int| 0 <= p < b@.len() && b@[p] == z;
            if pa < i {
                assert(a@.take(i as int)[pa] == z);
            } else {
                assert(pb < j);
                assert(b@.take(j as int)[pb] == z);
            }
        }
    }
    r
}

/// The phrase ids of a word id (none past the end of the index).
pub open spec fn postings_of(entries: Seq<Seq<u32>>, w: int) -> Seq<u32> {
    if 0 <= w < entries.len() {
        entries[w]
    } else {
        Seq::empty()
    }
}

/// Phrase `p` holds every one of the word ids `ids`.
pub open spec fn holds_all(entries: Seq<Seq<u32>>, ids: Seq<u32>, p: u32) -> bool {
    forall|i: int| 0 <= i < ids.len() ==> #[trigger] postings_of(entries, ids[i] as int).contains(p)
}

/// The word ids of the full words of a query.
pub open spec fn full_ids(words: Seq<QueryWord>) -> Seq<u32> {
    words.map_values(|w: QueryWord| w->Full_id)
}

/// The word ids `ids` as full words at edit distance 0.
pub open spec fn as_full_words(ids: Seq<u32>) -> Seq<QueryWord> {
    ids.map_values(|w: u32| QueryWord::Full { id: w, edit_distance: 0 })
}

/// An index from word ids to the ascending ids of the phrases holding them,
/// with the word ids of each phrase.
pub struct InvertedIndex {
    entries: Vec<Vec<u32>>,
    phrases: Vec<Vec<u32>>,
}

impl InvertedIndex {
    pub closed spec fn entries(&self) -> Seq<Seq<u32>> {
        lists_view(self.entries@)
    }

    pub closed spec fn phrases(&self) -> Seq<Seq<u32>> {
        lists_view(self.phrases@)
    }

    pub open spec fn wf(&self) -> bool {
        forall|w: int| 0 <= w < self.entries().len() ==> ascending_u32(#[trigger] self.entries()[w])
    }

    /// An index over the posting lists `entries` (indexed by word id) and the
    /// word ids of each phrase.
    pub fn new(entries: Vec<Vec<u32>>, phrases: Vec<Vec<u32>>) -> (r: InvertedIndex)
        requires
            forall|w: int| 0 <= w < entries@.len() ==> ascending_u32(#[trigger] entries@[w]@),
        ensures
            r.wf(),
            r.entries() == lists_view(entries@),
            r.phrases() == lists_view(phrases@),
    {
        InvertedIndex { entries, phrases }
    }

    fn phrases_for_word(&self, word_id: u32) -> (r: Vec<u32>)
        requires
            self.wf(),
        ensures
            r@ == postings_of(self.entries(), word_id as int),
            ascending_u32(r@),
    {
        if (word_id as usize) < self.entries.len() {
            assert(self.entries()[word_id as int] == self.entries@[word_id as int]@);
            self.entries[word_id as usize].clone()
        } else {
            Vec::new()
        }
    }

    /// The ids of the phrases that hold every one of `ids` (none for no ids).
    fn get_intersection(&self, ids: &[u32]) -> (r: Vec<u32>)
        requires
            self.wf(),
        ensures
            ascending_u32(r@),
            forall|p: u32| #[trigger] r@.contains(p) <==> ids@.len() > 0 && holds_all(self.entries(), ids@, p),
    {
        if ids.len() == 0 {
            return Vec::new();
        }
        let mut matches = self.phrases_for_word(ids[0]);
        let mut i: usize = 1;
        proof {
            let t = ids@.take(1);
            assert(t[0] == ids@[0]);
            assert forall|p: u32| #[trigger] matches@.contains(p) <==> holds_all(self.entries(), t, p) by {
                if holds_all(self.entries(), t, p) {
                    assert(postings_of(self.entries(), t[0] as int).contains(p));
                }
            }
        }
        while i < ids.len()
            invariant
                self.wf(),
                1 <= i <= ids@.len(),
                ascending_u32(matches@),
                forall|p: u32| #[trigger] matches@.contains(p) <==> holds_all(self.entries(), ids@.take(i as int), p),
            decreases ids@.len() - i,
        {
            let phrases = self.phrases_for_word(ids[i]);
            let next = intersect(&matches, &phrases);
            proof {
                assert forall|p: u32| #[trigger] next@.contains(p) <==> holds_all(self.entries(), ids@.take(i + 1), p) by {
                    let t0 = ids@.take(i as int);
                    let t1 = ids@.take(i + 1);
                    if holds_all(self.entries(), t1, p) {
                        assert forall|k: int| 0 <= k < t0.len() implies #[trigger] postings_of(self.entries(), t0[k] as int).contains(p) by {
                            assert(t1[k] == t0[k]);
                        }
                        assert(t1[i as int] == ids@[i as int]);
                    }
                    if holds_all(self.entries(), t0, p) && phrases@.contains(p) {
                        assert forall|k: int| 0 <= k < t1.len() implies #[trigger] postings_of(self.entries(), t1[k] as int).contains(p) by {
                            if k < i {
                                assert(t1[k] == t0[k]);
                            }
                        }
                    }
                }
            }
            matches = next;
            i = i + 1;
        }
        proof {
            assert(ids@.take(i as int) =~= ids@);
        }
        matches
    }

    /// Whether some phrase holds every word of `phrase`, in any order; a word
    /// range is refused.
    pub fn contains(&self, phrase: &QueryPhrase) -> (r: Result<bool, InvertedIndexError>)
        requires
            self.wf(),
        ensures
            !all_full(phrase.words@) ==> r == Err::<bool, InvertedIndexError>(InvertedIndexError::QueryShape),
            all_full(phrase.words@) ==> r == Ok::<bool, InvertedIndexError>(
                phrase.words@.len() > 0 && exists|p: u32| holds_all(self.entries(), full_ids(phrase.words@), p),
            ),
    {
        let ids = match query_ids(phrase.words.as_slice()) {
            Some(ids) => ids,
            None => {
                return Err(InvertedIndexError::QueryShape);
            },
        };
        let intersection = self.get_intersection(ids.as_slice());
        proof {
            assert(ids@.len() == phrase.words@.len());
            if intersection@.len() > 0 {
                assert(intersection@.contains(intersection@[0]));
            }
            if phrase.words@.len() > 0 && exists|p: u32| holds_all(self.entries(), full_ids(phrase.words@), p) {
                let p = choose|p: u32| holds_all(self.entries(), full_ids(phrase.words@), p);
                assert(intersection@.contains(p));
            }
        }
        Ok(intersection.len() > 0)
    }

    /// The phrases that hold every word of `phrase`, as full words at edit
    /// distance 0, in ascending phrase id order; a word range is refused.
    pub fn match_substring(&self, phrase: &QueryPhrase) -> (r: Result<Vec<Vec<QueryWord>>, InvertedIndexError>)
        requires
            self.wf(),
        ensures
            !all_full(phrase.words@) ==> r == Err::<Vec<Vec<QueryWord>>, InvertedIndexError>(InvertedIndexError::QueryShape),
            all_full(phrase.words@) && (forall|p: u32|
                holds_all(self.entries(), full_ids(phrase.words@), p) && phrase.words@.len() > 0 ==> p
                    < self.phrases().len()) ==> r is Ok,
            r == Err::<Vec<Vec<QueryWord>>, InvertedIndexError>(InvertedIndexError::UnknownPhrase) ==> exists|p: u32|
                holds_all(self.entries(), full_ids(phrase.words@), p) && phrase.words@.len() > 0 && p >= self.phrases().len(),
            r matches Ok(out) ==> exists|ps: Seq<u32>|
                ascending_u32(ps) && (forall|p: u32|
                    #[trigger] ps.contains(p) <==> phrase.words@.len() > 0 && holds_all(self.entries(), full_ids(phrase.words@), p))
                    && out@.len() == ps.len() && forall|k: int|
                    0 <= k < out@.len() ==> (#[trigger] out@[k])@ == as_full_words(self.phrases()[ps[k] as int]),
    {
        let ids = match query_ids(phrase.words.as_slice()) {
            Some(ids) => ids,
            None => {
                return Err(InvertedIndexError::QueryShape);
            },
        };
        let intersection = self.get_intersection(ids.as_slice());
        proof {
            assert(ids@.len() == phrase.words@.len());
        }
        let mut out: Vec<Vec<QueryWord>> = Vec::new();
        let mut i: usize = 0;
        while i < intersection.len()
            invariant
                i <= intersection@.len(),
                all_full(phrase.words@),
                ids@ == full_ids(phrase.words@),
                ids@.len() == phrase.words@.len(),
                forall|p: u32| #[trigger] intersection@.contains(p) <==> ids@.len() > 0 && holds_all(self.entries(), ids@, p),
                out@.len() == i,
                forall|k: int|
                    0 <= k < i ==> (#[trigger] out@[k])@ == as_full_words(self.phrases()[intersection@[k] as int]),
            decreases intersection@.len() - i,
        {
            let p = intersection[i];
            if p as usize >= self.phrases.len() {
                proof {
                    assert(intersection@.contains(p));
                }
                return Err(InvertedIndexError::UnknownPhrase);
            }
            let words = &self.phrases[p as usize];
            let mut q: Vec<QueryWord> = Vec::new();
            let mut k: usize = 0;
            while k < words.len()
                invariant
                    k <= words@.len(),
                    q@ == as_full_words(words@.take(k as int)),
                decreases words@.len() - k,
            {
                q.push(QueryWord::new_full(words[k], 0));
                k = k + 1;
                proof {
                    assert(q@ =~= as_full_words(words@.take(k as int)));
                }
            }
            proof {
                assert(words@.take(k as int) =~= words@);
                assert(self.phrases()[p as int] == words@);
            }
            let ghost before = out@;
            out.push(q);
            proof {
                assert forall|m: int| 0 <= m < i + 1 implies (#[trigger] out@[m])@ == as_full_words(self.phrases()[intersection@[m] as int]) by {
                    if m < i {
                        assert(out@[m] == before[m]);
                    }
                }
            }
            i = i + 1;
        }
        proof {
            assert(ascending_u32(intersection@));
        }
        Ok(out)
    }
}

/// The word ids of a query's words; `None` where one is a word range.
fn query_ids(words: &[QueryWord]) -> (r: Option<Vec<u32>>)
    ensures
        r is None <==> !all_full(words@),
        r matches Some(ids) ==> ids@ == full_ids(words@),
{
    let mut ids: Vec<u32> = Vec::new();
    let mut i: usize = 0;
    while i < words.len()
        invariant
            i <= words@.len(),
            all_full(words@.take(i as int)),
            ids@ == full_ids(words@.take(i as int)),
        decreases words@.len() - i,
    {
        match words[i] {
            QueryWord::Full { id, .. } => {
                ids.push(id);
            },
            QueryWord::Prefix { .. } => {
                return None;
            },
        }
        i = i + 1;
        proof {
            assert(ids@ =~= full_ids(words@.take(i as int)));
        }
    }
    proof {
        assert(words@.take(i as int) =~= words@);
    }
    Some(ids)
}

} // verus!
