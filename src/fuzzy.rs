//! A fuzzy word index: every word and its deletion variants are keys of an
//! FST; a key shared by several words points into an overflow table of ids.
use crate::fst_store::{
    builder_entries, builder_insert, builder_into_fst, builder_memory, fst_bytes, fst_checked, fst_entries, fst_from_bytes,
    fst_get, fst_len, fst_to_bytes,
};
use crate::codec::bytes_lt;
use crate::variants::{get_variants, is_variant, lemma_empty_has_no_variants, string_views, variant_count};
use fst::raw::Fst;
use vstd::prelude::*;
use vstd::utf8::encode_utf8;

verus! {

/// Outputs from here on are indexes into the overflow table, offset by it.
pub const BIG_NUMBER: u64 = 0x4000_0000;

/// The Damerau-Levenshtein distance between two strings, as strsim computes it.
pub uninterp spec fn dl_distance(a: Seq<char>, b: Seq<char>) -> nat;

/// Relies on `strsim::damerau_levenshtein`: the distance depends on the two
/// strings alone.
#[verifier::external_body]
fn damerau_levenshtein(a: &str, b: &str) -> (r: usize)
    ensures
        r == dl_distance(a@, b@),
{
    strsim::damerau_levenshtein(a, b)
}

/// Errors of the fuzzy index.
#[derive(Clone, Copy, Debug, PartialEq, Eq, Structural)]
pub enum FuzzyMapError {
    /// More words, or more shared keys, than outputs below `BIG_NUMBER` allow.
    BuildCapacity,
    /// A key points past the end of the overflow table.
    Decode,
    /// An id that the word list given to `lookup` does not hold.
    UnknownId,
}

/// `id` is among the ids that `key` resolves to.
pub open spec fn resolves(entries: Map<Seq<u8>, u64>, table: Seq<Seq<usize>>, key: Seq<u8>, id: int) -> bool {
    &&& entries.contains_key(key)
    &&& if entries[key] < BIG_NUMBER {
        id == entries[key]
    } else {
        entries[key] - BIG_NUMBER < table.len() && table[entries[key] - BIG_NUMBER].contains(id as usize) && 0 <= id
            <= usize::MAX
    }
}

/// `key` points past the end of the overflow table.
pub open spec fn dangling(entries: Map<Seq<u8>, u64>, table: Seq<Seq<usize>>, key: Seq<u8>) -> bool {
    &&& entries.contains_key(key)
    &&& entries[key] >= BIG_NUMBER
    &&& entries[key] - BIG_NUMBER >= table.len()
}

/// The strings probed for a query: the query and its variants.
pub open spec fn candidate(query: Seq<char>, v: Seq<char>, d: int) -> bool {
    v == query || is_variant(query, v, d)
}

/// Some probed string resolves to `id`.
pub open spec fn hit(entries: Map<Seq<u8>, u64>, table: Seq<Seq<usize>>, query: Seq<char>, d: int, id: int) -> bool {
    exists|v: Seq<char>| candidate(query, v, d) && #[trigger] resolves(entries, table, encode_utf8(v), id)
}

/// Some probed string points past the end of the overflow table.
pub open spec fn any_dangling(entries: Map<Seq<u8>, u64>, table: Seq<Seq<usize>>, query: Seq<char>, d: int) -> bool {
    exists|v: Seq<char>| candidate(query, v, d) && #[trigger] dangling(entries, table, encode_utf8(v))
}

pub open spec fn strictly_ascending(s: Seq<usize>) -> bool {
    forall|i: int, j: int| 0 <= i < j < s.len() ==> s[i] < s[j]
}

/// The ids of a lookup's result.
pub open spec fn result_ids(r: Seq<(String, u64)>) -> Seq<u64> {
    r.map_values(|p: (String, u64)| p.1)
}

/// Inserts `x` into a strictly ascending vector, unless it is there.
fn insert_sorted(v: &mut Vec<usize>, x: usize)
    requires
        strictly_ascending(old(v)@),
    ensures
        strictly_ascending(final(v)@),
        forall|y: usize| #[trigger] final(v)@.contains(y) <==> old(v)@.contains(y) || y == x,
{
    let mut i: usize = 0;
    while i < v.len() && v[i] < x
        invariant
            i <= v@.len(),
            forall|k: int| 0 <= k < i ==> v@[k] < x,
        decreases v@.len() - i,
    {
        i = i + 1;
    }
    if i < v.len() && v[i] == x {
        return;
    }
    let ghost before = v@;
    v.insert(i, x);
    proof {
        assert(v@ =~= before.insert(i as int, x));
        assert forall|y: usize| #[trigger] v@.contains(y) <==> before.contains(y) || y == x by {
            if v@.contains(y) {
                let k = choose|k: int| 0 <= k < v@.len() && v@[k] == y;
                if k < i {
                    assert(before[k] == y);
                } else if k > i {
                    assert(before[k - 1] == y);
                }
            }
            if before.contains(y) {
                let k = choose|k: int| 0 <= k < before.len() && before[k] == y;
                if k < i {
                    assert(v@[k] == y);
                } else {
                    assert(v@[k + 1] == y);
                }
            }
            if y == x {
                assert(v@[i as int] == y);
            }
        }
    }
}

/// The overflow table of a fuzzy map: the ids of each key shared by several
/// words.
pub struct SerializableIdList(pub Vec<Vec<usize>>);

/// An index that maps words, and strings a few deletions away from them, to
/// word ids.
pub struct FuzzyMap {
    id_list: Vec<Vec<usize>>,
    fst: Fst<Vec<u8>>,
}

impl FuzzyMap {
    /// The keys with their outputs.
    pub closed spec fn entries(&self) -> Map<Seq<u8>, u64> {
        fst_entries(self.fst)
    }

    /// The overflow table.
    pub closed spec fn table(&self) -> Seq<Seq<usize>> {
        self.id_list@.map_values(|v: Vec<usize>| v@)
    }

    /// The map's FST has the layout that fst's `Builder` writes.
    pub open spec fn wf(&self) -> bool {
        fst_checked(self.spec_fst())
    }

    pub closed spec fn spec_fst(&self) -> Fst<Vec<u8>> {
        self.fst
    }

    /// Reads a map from the bytes of its FST and its overflow table: bytes
    /// of an FST that the builder wrote read back as that FST.
    pub fn from_bytes(bytes: Vec<u8>, id_list: SerializableIdList) -> (r: Result<FuzzyMap, FuzzyMapError>)
        ensures
            r matches Err(e) ==> e == FuzzyMapError::Decode && forall|g: Fst<Vec<u8>>|
                !(fst_checked(g) && bytes@ == #[trigger] fst_bytes(g)),
            r matches Ok(m) ==> m.table() == id_list.0@.map_values(|v: Vec<usize>| v@) && forall|g: Fst<Vec<u8>>|
                fst_checked(g) && bytes@ == #[trigger] fst_bytes(g) ==> m.wf() && m.entries() == fst_entries(g),
    {
        match fst_from_bytes(bytes) {
            Ok(fst) => Ok(FuzzyMap { id_list: id_list.0, fst }),
            Err(_) => Err(FuzzyMapError::Decode),
        }
    }

    /// The bytes of the map's FST.
    pub fn as_bytes(&self) -> (r: Vec<u8>)
        ensures
            r@ == fst_bytes(self.spec_fst()),
    {
        fst_to_bytes(&self.fst)
    }

    /// The overflow table.
    pub fn id_list(&self) -> (r: &Vec<Vec<usize>>)
        ensures
            r@.map_values(|v: Vec<usize>| v@) == self.table(),
    {
        &self.id_list
    }

    /// The FST of keys.
    pub fn as_fst(&self) -> (r: &Fst<Vec<u8>>)
        ensures
            fst_entries(*r) == self.entries(),
    {
        &self.fst
    }

    /// The output of a key, if it is a key.
    pub fn get(&self, key: &[u8]) -> (r: Option<u64>)
        requires
            self.wf(),
        ensures
            r == (if self.entries().contains_key(key@) {
                Some(self.entries()[key@])
            } else {
                None::<u64>
            }),
    {
        fst_get(&self.fst, key)
    }

    /// The number of keys.
    pub fn len(&self) -> (r: usize)
        requires
            self.wf(),
        ensures
            r == self.entries().dom().len(),
    {
        fst_len(&self.fst)
    }

    pub fn is_empty(&self) -> (r: bool)
        requires
            self.wf(),
        ensures
            r == (self.entries().dom().len() == 0),
    {
        fst_len(&self.fst) == 0
    }

    pub fn contains(&self, key: &[u8]) -> (r: bool)
        requires
            self.wf(),
        ensures
            r == self.entries().contains_key(key@),
    {
        fst_get(&self.fst, key).is_some()
    }

    /// Adds the ids that `key` resolves to; `false` where it points past the
    /// end of the overflow table.
    fn add_hits(&self, key: &[u8], ids: &mut Vec<usize>) -> (ok: bool)
        requires
            self.wf(),
            strictly_ascending(old(ids)@),
        ensures
            strictly_ascending(final(ids)@),
            ok == !dangling(self.entries(), self.table(), key@),
            ok ==> forall|y: usize|
                #[trigger] final(ids)@.contains(y) <==> old(ids)@.contains(y) || resolves(
                    self.entries(),
                    self.table(),
                    key@,
                    y as int,
                ),
    {
        match fst_get(&self.fst, key) {
            None => true,
            Some(o) => {
                if o < BIG_NUMBER {
                    insert_sorted(ids, o as usize);
                    true
                } else if o - BIG_NUMBER >= self.id_list.len() as u64 {
                    false
                } else {
                    let list = &self.id_list[(o - BIG_NUMBER) as usize];
                    assert(self.table()[(o - BIG_NUMBER) as int] == list@);
                    let ghost start = ids@;
                    let mut k: usize = 0;
                    while k < list.len()
                        invariant
                            k <= list@.len(),
                            strictly_ascending(ids@),
                            forall|y: usize| #[trigger] ids@.contains(y) <==> start.contains(y) || list@.take(k as int).contains(y),
                        decreases list@.len() - k,
                    {
                        insert_sorted(ids, list[k]);
                        proof {
                            let t1 = list@.take(k + 1);
                            let t0 = list@.take(k as int);
                            assert(t1 =~= t0.push(list@[k as int]));
                            assert forall|y: usize| #[trigger] ids@.contains(y) <==> start.contains(y) || t1.contains(y) by {
                                if t1.contains(y) {
                                    let p = choose|p: int| 0 <= p < t1.len() && t1[p] == y;
                                    if p < k {
                                        assert(t0[p] == y);
                                    }
                                }
                                if t0.contains(y) {
                                    let p = choose|p: int| 0 <= p < t0.len() && t0[p] == y;
                                    assert(t1[p] == y);
                                }
                                if y == list@[k as int] {
                                    assert(t1[k as int] == y);
                                }
                            }
                        }
                        k = k + 1;
                    }
                    assert(list@.take(k as int) =~= list@);
                    true
                }
            },
        }
    }

    /// The words within `edit_distance` of `query` (by Damerau-Levenshtein
    /// distance) among those that the query or one of its deletion variants
    /// resolves to, in ascending id order; `words` gives the word of each id.
    pub fn lookup(&self, query: &str, edit_distance: u64, words: &[String]) -> (r: Result<
        Vec<(String, u64)>,
        FuzzyMapError,
    >)
        requires
            self.wf(),
        ensures
            any_dangling(self.entries(), self.table(), query@, edit_distance as int) ==> r == Err::<
                Vec<(String, u64)>,
                FuzzyMapError,
            >(FuzzyMapError::Decode),
            !any_dangling(self.entries(), self.table(), query@, edit_distance as int) && (exists|id: int|
                #[trigger] hit(self.entries(), self.table(), query@, edit_distance as int, id) && id >= words@.len())
                ==> r == Err::<Vec<(String, u64)>, FuzzyMapError>(FuzzyMapError::UnknownId),
            !any_dangling(self.entries(), self.table(), query@, edit_distance as int) && (forall|id: int|
                #[trigger] hit(self.entries(), self.table(), query@, edit_distance as int, id) ==> id < words@.len())
                ==> r is Ok,
            r is Ok ==> !any_dangling(self.entries(), self.table(), query@, edit_distance as int) && forall|id: int|
                #[trigger] hit(self.entries(), self.table(), query@, edit_distance as int, id) ==> id < words@.len(),
            r matches Ok(out) ==> {
                &&& forall|i: int, j: int| 0 <= i < j < out@.len() ==> out@[i].1 < out@[j].1
                &&& forall|i: int|
                    0 <= i < out@.len() ==> out@[i].1 < words@.len() && (#[trigger] out@[i]).0@ == words@[out@[i].1 as int]@
                &&& forall|id: u64|
                    #[trigger] result_ids(out@).contains(id) <==> hit(
                        self.entries(),
                        self.table(),
                        query@,
                        edit_distance as int,
                        id as int,
                    ) && id < words@.len() && dl_distance(query@, words@[id as int]@) <= edit_distance
            },
    {
        let ghost entries = self.entries();
        let ghost table = self.table();
        let ghost d = edit_distance as int;
        let variants = get_variants(query, edit_distance);
        let mut ids: Vec<usize> = Vec::new();
        if !self.add_hits(query.as_bytes(), &mut ids) {
            proof {
                assert(candidate(query@, query@, d));
                assert(dangling(entries, table, encode_utf8(query@)));
            }
            return Err(FuzzyMapError::Decode);
        }
        let mut i: usize = 0;
        while i < variants.len()
            invariant
                self.wf(),
                i <= variants@.len(),
                entries == self.entries(),
                table == self.table(),
                d == edit_distance as int,
                forall|v: Seq<char>| #[trigger] string_views(variants@).contains(v) <==> is_variant(query@, v, d),
                strictly_ascending(ids@),
                !dangling(entries, table, encode_utf8(query@)),
                forall|k: int| 0 <= k < i ==> !#[trigger] dangling(entries, table, encode_utf8(variants@[k]@)),
                forall|y: usize|
                    #[trigger] ids@.contains(y) <==> resolves(entries, table, encode_utf8(query@), y as int) || exists|k: int|
                        0 <= k < i && #[trigger] resolves(entries, table, encode_utf8(variants@[k]@), y as int),
            decreases variants@.len() - i,
        {
            let ok = self.add_hits(variants[i].as_str().as_bytes(), &mut ids);
            if !ok {
                proof {
                    assert(string_views(variants@)[i as int] == variants@[i as int]@);
                    assert(string_views(variants@).contains(variants@[i as int]@));
                    assert(candidate(query@, variants@[i as int]@, d));
                }
                return Err(FuzzyMapError::Decode);
            }
            proof {
                assert forall|y: usize| #[trigger] ids@.contains(y) <==> resolves(entries, table, encode_utf8(query@), y as int)
                    || exists|k: int| 0 <= k < i + 1 && #[trigger] resolves(entries, table, encode_utf8(variants@[k]@), y as int) by {
                    if resolves(entries, table, encode_utf8(variants@[i as int]@), y as int) {
                    }
                }
            }
            i = i + 1;
        }
        // The ids gathered are exactly those of the probed strings.
        proof {
            assert forall|v: Seq<char>| candidate(query@, v, d) implies !#[trigger] dangling(entries, table, encode_utf8(v)) by {
                if v != query@ {
                    assert(string_views(variants@).contains(v));
                    let k = choose|k: int| 0 <= k < string_views(variants@).len() && string_views(variants@)[k] == v;
                    assert(variants@[k]@ == v);
                }
            }
            assert forall|id: int| #[trigger] hit(entries, table, query@, d, id) implies 0 <= id <= usize::MAX && ids@.contains(id as usize) by {
                let v = choose|v: Seq<char>| candidate(query@, v, d) && #[trigger] resolves(entries, table, encode_utf8(v), id);
                if v != query@ {
                    assert(string_views(variants@).contains(v));
                    let k = choose|k: int| 0 <= k < string_views(variants@).len() && string_views(variants@)[k] == v;
                    assert(variants@[k]@ == v);
                }
            }
            assert forall|y: usize| #[trigger] ids@.contains(y) implies hit(entries, table, query@, d, y as int) by {
                if !resolves(entries, table, encode_utf8(query@), y as int) {
                    let k = choose|k: int| 0 <= k < i && #[trigger] resolves(entries, table, encode_utf8(variants@[k]@), y as int);
                    assert(string_views(variants@)[k] == variants@[k]@);
                    assert(string_views(variants@).contains(variants@[k]@));
                    assert(candidate(query@, variants@[k]@, d));
                } else {
                    assert(candidate(query@, query@, d));
                }
            }
            assert(!any_dangling(entries, table, query@, d));
        }
        // Every id must name a word.
        let mut k: usize = 0;
        while k < ids.len()
            invariant
                entries == self.entries(),
                table == self.table(),
                d == edit_distance as int,
                !any_dangling(entries, table, query@, d),
                forall|id: int| #[trigger] hit(entries, table, query@, d, id) ==> 0 <= id <= usize::MAX && ids@.contains(id as usize),
                forall|y: usize| #[trigger] ids@.contains(y) ==> hit(entries, table, query@, d, y as int),
                k <= ids@.len(),
                forall|m: int| 0 <= m < k ==> ids@[m] < words@.len(),
            decreases ids@.len() - k,
        {
            if ids[k] >= words.len() {
                proof {
                    assert(ids@.contains(ids@[k as int]));
                    assert(hit(entries, table, query@, d, ids@[k as int] as int));
                }
                return Err(FuzzyMapError::UnknownId);
            }
            k = k + 1;
        }
        proof {
            assert forall|id: int| #[trigger] hit(entries, table, query@, d, id) implies id < words@.len() by {
                let m = choose|m: int| 0 <= m < ids@.len() && ids@[m] == id as usize;
            }
        }
        let mut out: Vec<(String, u64)> = Vec::new();
        let mut m: usize = 0;
        while m < ids.len()
            invariant
                entries == self.entries(),
                table == self.table(),
                d == edit_distance as int,
                !any_dangling(entries, table, query@, d),
                forall|id: int| #[trigger] hit(entries, table, query@, d, id) ==> 0 <= id <= usize::MAX && ids@.contains(id as usize),
                forall|y: usize| #[trigger] ids@.contains(y) ==> hit(entries, table, query@, d, y as int),
                m <= ids@.len(),
                strictly_ascending(ids@),
                forall|q: int| 0 <= q < ids@.len() ==> ids@[q] < words@.len(),
                forall|a: int, b: int| 0 <= a < b < out@.len() ==> out@[a].1 < out@[b].1,
                forall|a: int| 0 <= a < out@.len() ==> out@[a].1 < words@.len() && (#[trigger] out@[a]).0@
                    == words@[out@[a].1 as int]@,
                forall|a: int| #![trigger out@[a]] 0 <= a < out@.len() ==> exists|q: int| 0 <= q < m && out@[a].1 == #[trigger] ids@[q],
                forall|id: u64|
                    #[trigger] result_ids(out@).contains(id) <==> (exists|q: int| 0 <= q < m && ids@[q] == id) && dl_distance(
                        query@,
                        words@[id as int]@,
                    ) <= edit_distance,
            decreases ids@.len() - m,
        {
            let id = ids[m];
            let word = &words[id];
            let dist = damerau_levenshtein(query, word.as_str());
            let ghost before = out@;
            if dist as u64 <= edit_distance {
                let w = word.clone();
                let ghost wv = w@;
                out.push((w, id as u64));
                proof {
                    assert(out@.len() == before.len() + 1);
                    assert(out@[before.len() as int].0@ == wv);
                    assert(out@[before.len() as int].1 == id as u64);
                    assert forall|a: int| 0 <= a < before.len() implies out@[a] == before[a] by {
                    }
                }
            }
            proof {
                assert forall|a: int, b: int| 0 <= a < b < out@.len() implies out@[a].1 < out@[b].1 by {
                    if b == before.len() && out@.len() > before.len() {
                        let q = choose|q: int| 0 <= q < m && before[a].1 == ids@[q];
                    }
                }
                assert forall|a: int| #![trigger out@[a]] 0 <= a < out@.len() implies exists|q: int| 0 <= q < m + 1 && out@[a].1 == #[trigger] ids@[q] by {
                    if a < before.len() {
                        let q = choose|q: int| 0 <= q < m && before[a].1 == ids@[q];
                    } else {
                        assert(out@[a].1 == ids@[m as int]);
                    }
                }
                assert forall|x: u64| #[trigger] result_ids(out@).contains(x) <==> (exists|q: int| 0 <= q < m + 1 && ids@[q] == x)
                    && dl_distance(query@, words@[x as int]@) <= edit_distance by {
                    if result_ids(out@).contains(x) {
                        let p = choose|p: int| 0 <= p < result_ids(out@).len() && result_ids(out@)[p] == x;
                        if p < before.len() {
                            assert(result_ids(before)[p] == x);
                            assert(result_ids(before).contains(x));
                        }
                    }
                    if (exists|q: int| 0 <= q < m + 1 && ids@[q] == x) && dl_distance(query@, words@[x as int]@) <= edit_distance {
                        let q = choose|q: int| 0 <= q < m + 1 && ids@[q] == x;
                        if q < m {
                            assert(result_ids(before).contains(x));
                            let p = choose|p: int| 0 <= p < result_ids(before).len() && result_ids(before)[p] == x;
                            assert(result_ids(out@)[p] == x);
                        } else {
                            assert(result_ids(out@)[before.len() as int] == x);
                        }
                    }
                }
            }
            m = m + 1;
        }
        proof {
            assert forall|x: u64| #[trigger] result_ids(out@).contains(x) <==> hit(entries, table, query@, d, x as int) && x
                < words@.len() && dl_distance(query@, words@[x as int]@) <= edit_distance by {
                if hit(entries, table, query@, d, x as int) {
                    assert(ids@.contains(x as usize));
                    let q = choose|q: int| 0 <= q < ids@.len() && ids@[q] == x as usize;
                    assert(ids@[q] == x);
                }
                if exists|q: int| 0 <= q < m && ids@[q] == x {
                    let q = choose|q: int| 0 <= q < m && ids@[q] == x;
                    assert(ids@.contains(ids@[q]));
                }
            }
        }
        Ok(out)
    }
}

/// A key with an id, ordered by key bytes and then by id.
pub open spec fn pair_le(a: (Seq<u8>, usize), b: (Seq<u8>, usize)) -> bool {
    bytes_lt(a.0, b.0) || (a.0 == b.0 && a.1 <= b.1)
}

/// The views of key and id pairs.
pub open spec fn pair_views(v: Seq<(Vec<u8>, usize)>) -> Seq<(Seq<u8>, usize)> {
    v.map_values(|p: (Vec<u8>, usize)| (p.0@, p.1))
}

/// Relies on `slice::sort`: the pairs are reordered into ascending order,
/// which for a byte vector and an id is the byte order of the keys, then the
/// order of the ids.
#[verifier::external_body]
fn sort_pairs(v: &mut Vec<(Vec<u8>, usize)>)
    ensures
        final(v)@.len() == old(v)@.len(),
        forall|p: (Seq<u8>, usize)| #[trigger] pair_views(final(v)@).contains(p) <==> pair_views(old(v)@).contains(p),
        forall|i: int, j: int| 0 <= i < j < final(v)@.len() ==> pair_le(
            #[trigger] pair_views(final(v)@)[i],
            #[trigger] pair_views(final(v)@)[j],
        ),
{
    v.sort()
}

/// A copy of a byte slice.
fn copy_bytes(b: &[u8]) -> (r: Vec<u8>)
    ensures
        r@ == b@,
{
    let mut r: Vec<u8> = Vec::new();
    let mut i: usize = 0;
    while i < b.len()
        invariant
            i <= b@.len(),
            r@ == b@.take(i as int),
        decreases b@.len() - i,
    {
        r.push(b[i]);
        i = i + 1;
        assert(r@ =~= b@.take(i as int));
    }
    assert(b@.take(i as int) =~= b@);
    r
}

/// Exec equality of byte strings.
fn bytes_equal(a: &[u8], b: &[u8]) -> (r: bool)
    ensures
        r == (a@ == b@),
{
    if a.len() != b.len() {
        return false;
    }
    let mut i: usize = 0;
    while i < a.len()
        invariant
            a@.len() == b@.len(),
            i <= a@.len(),
            a@.take(i as int) == b@.take(i as int),
        decreases a@.len() - i,
    {
        if a[i] != b[i] {
            proof {
                assert(a@[i as int] != b@[i as int]);
            }
            return false;
        }
        proof {
            assert(a@.take(i + 1) =~= a@.take(i as int).push(a@[i as int]));
            assert(b@.take(i + 1) =~= b@.take(i as int).push(b@[i as int]));
        }
        i = i + 1;
    }
    proof {
        assert(a@.take(i as int) =~= a@);
        assert(b@.take(i as int) =~= b@);
    }
    true
}

/// Collects the keys of a word and of its deletion variants, each with the
/// word's id, and builds the fuzzy map from them.
pub struct FuzzyMapBuilder {
    word_variants: Vec<(Vec<u8>, usize)>,
    edit_distance: u64,
}

impl FuzzyMapBuilder {
    /// The keys collected so far, with their ids.
    pub closed spec fn pairs(&self) -> Seq<(Seq<u8>, usize)> {
        pair_views(self.word_variants@)
    }

    pub closed spec fn spec_edit_distance(&self) -> u64 {
        self.edit_distance
    }

    pub fn new(edit_distance: u64) -> (r: FuzzyMapBuilder)
        ensures
            r.pairs() == Seq::<(Seq<u8>, usize)>::empty(),
            r.spec_edit_distance() == edit_distance,
    {
        let r = FuzzyMapBuilder { word_variants: Vec::new(), edit_distance };
        assert(r.pairs() =~= Seq::<(Seq<u8>, usize)>::empty());
        r
    }

    /// Adds the word `key` and its deletion variants, each with `id`.
    pub fn insert(&mut self, key: &str, id: u64)
        requires
            id <= usize::MAX,
        ensures
            final(self).spec_edit_distance() == old(self).spec_edit_distance(),
            final(self).pairs().len() == old(self).pairs().len() + 1 + variant_count(
                key@.len(),
                old(self).spec_edit_distance() as nat,
            ),
            forall|p: (Seq<u8>, usize)|
                #[trigger] final(self).pairs().contains(p) <==> old(self).pairs().contains(p) || (p.1 == id && (p.0
                    == encode_utf8(key@) || exists|v: Seq<char>|
                    is_variant(key@, v, old(self).spec_edit_distance() as int) && p.0 == #[trigger] encode_utf8(v))),
    {
        let ghost start = self.pairs();
        let ghost d = self.edit_distance as int;
        let k = copy_bytes(key.as_bytes());
        assert(k@ == encode_utf8(key@));
        let ghost first_pair = (k@, id as usize);
        self.word_variants.push((k, id as usize));
        proof {
            assert(self.pairs() =~= start.push(first_pair));
            assert forall|p: (Seq<u8>, usize)| #[trigger] self.pairs().contains(p) <==> start.contains(p) || p == first_pair by {
                if self.pairs().contains(p) {
                    let q = choose|q: int| 0 <= q < self.pairs().len() && self.pairs()[q] == p;
                    if q < start.len() {
                        assert(start[q] == p);
                    }
                }
                if start.contains(p) {
                    let q = choose|q: int| 0 <= q < start.len() && start[q] == p;
                    assert(self.pairs()[q] == p);
                }
                if p == first_pair {
                    assert(self.pairs()[start.len() as int] == p);
                }
            }
        }
        let variants = get_variants(key, self.edit_distance);
        let mut i: usize = 0;
        while i < variants.len()
            invariant
                i <= variants@.len(),
                self.pairs().len() == start.len() + 1 + i,
                id <= usize::MAX,
                first_pair == (encode_utf8(key@), id as usize),
                d == self.edit_distance as int,
                forall|v: Seq<char>| #[trigger] string_views(variants@).contains(v) <==> is_variant(key@, v, d),
                forall|p: (Seq<u8>, usize)|
                    #[trigger] self.pairs().contains(p) <==> start.contains(p) || p == first_pair || (p.1 == id && exists|k: int|
                        0 <= k < i && p.0 == #[trigger] encode_utf8(variants@[k]@)),
            decreases variants@.len() - i,
        {
            let bytes = copy_bytes(variants[i].as_str().as_bytes());
            let ghost before = self.pairs();
            let ghost pv = (bytes@, id as usize);
            self.word_variants.push((bytes, id as usize));
            proof {
                assert(self.pairs() =~= before.push(pv));
                assert(self.pairs().len() == before.len() + 1);
                assert forall|p: (Seq<u8>, usize)| #[trigger] self.pairs().contains(p) <==> start.contains(p) || p == first_pair || (p.1
                    == id && exists|k: int| 0 <= k < i + 1 && p.0 == #[trigger] encode_utf8(variants@[k]@)) by {
                    if self.pairs().contains(p) {
                        let q = choose|q: int| 0 <= q < self.pairs().len() && self.pairs()[q] == p;
                        if q < before.len() {
                            assert(before[q] == p);
                        }
                    }
                    if before.contains(p) {
                        let q = choose|q: int| 0 <= q < before.len() && before[q] == p;
                        assert(self.pairs()[q] == p);
                    }
                    if p == pv {
                        assert(self.pairs()[before.len() as int] == p);
                    }
                    if p.1 == id && exists|k: int| 0 <= k < i + 1 && p.0 == #[trigger] encode_utf8(variants@[k]@) {
                        let k = choose|k: int| 0 <= k < i + 1 && p.0 == #[trigger] encode_utf8(variants@[k]@);
                        if k == i {
                            assert(p == pv);
                            assert(self.pairs()[before.len() as int] == p);
                        } else {
                            assert(before.contains(p));
                        }
                    }
                }
            }
            i = i + 1;
        }
        proof {
            assert forall|p: (Seq<u8>, usize)| #[trigger] self.pairs().contains(p) <==> start.contains(p) || (p.1 == id && (p.0
                == encode_utf8(key@) || exists|v: Seq<char>| is_variant(key@, v, d) && p.0 == #[trigger] encode_utf8(v))) by {
                if p.1 == id && exists|k: int| 0 <= k < i && p.0 == #[trigger] encode_utf8(variants@[k]@) {
                    let k = choose|k: int| 0 <= k < i && p.0 == #[trigger] encode_utf8(variants@[k]@);
                    assert(string_views(variants@)[k] == variants@[k]@);
                    assert(string_views(variants@).contains(variants@[k]@));
                }
                if p.1 == id && exists|v: Seq<char>| is_variant(key@, v, d) && p.0 == #[trigger] encode_utf8(v) {
                    let v = choose|v: Seq<char>| is_variant(key@, v, d) && p.0 == #[trigger] encode_utf8(v);
                    assert(string_views(variants@).contains(v));
                    let k = choose|k: int| 0 <= k < string_views(variants@).len() && string_views(variants@)[k] == v;
                    assert(variants@[k]@ == v);
                }
            }
        }
    }
}

/// Every id, and the number of keys collected, lie below `BIG_NUMBER`.
pub open spec fn within_capacity(pairs: Seq<(Seq<u8>, usize)>) -> bool {
    &&& forall|k: int| 0 <= k < pairs.len() ==> (#[trigger] pairs[k]).1 < BIG_NUMBER
    &&& pairs.len() < BIG_NUMBER
}

/// Every output at or above `BIG_NUMBER` indexes the overflow table.
pub open spec fn no_dangling(entries: Map<Seq<u8>, u64>, table: Seq<Seq<usize>>) -> bool {
    forall|key: Seq<u8>|
        #[trigger] entries.contains_key(key) && entries[key] >= BIG_NUMBER ==> entries[key] - BIG_NUMBER < table.len()
}

/// The views of the overflow table.
pub open spec fn table_views(t: Seq<Vec<usize>>) -> Seq<Seq<usize>> {
    t.map_values(|v: Vec<usize>| v@)
}

/// Every overflow list holds at least two ids, in strictly ascending order.
pub open spec fn table_wf(t: Seq<Seq<usize>>) -> bool {
    forall|k: int| 0 <= k < t.len() ==> (#[trigger] t[k]).len() > 1 && strictly_ascending(t[k])
}

impl FuzzyMapBuilder {
    /// Builds the map: each key resolves to exactly the ids it was inserted
    /// with; a key with one id maps to it, a key with several to its list in
    /// the overflow table.
    pub fn finish(self) -> (r: Result<FuzzyMap, FuzzyMapError>)
        ensures
            within_capacity(self.pairs()) ==> r is Ok,
            r matches Err(e) ==> e == FuzzyMapError::BuildCapacity,
            (exists|k: int| 0 <= k < self.pairs().len() && (#[trigger] self.pairs()[k]).1 >= BIG_NUMBER) ==> r is Err,
            r matches Ok(m) ==> table_wf(m.table()) && forall|key: Seq<u8>, id: usize|
                #[trigger] resolves(m.entries(), m.table(), key, id as int) <==> self.pairs().contains((key, id)),
            r matches Ok(m) ==> m.wf() && no_dangling(m.entries(), m.table()) && forall|key: Seq<u8>|
                #[trigger] m.entries().contains_key(key) <==> exists|id: usize| self.pairs().contains((key, id)),
    {
        proof {
            if exists|k: int| 0 <= k < self.pairs().len() && (#[trigger] self.pairs()[k]).1 >= BIG_NUMBER {
                let k = choose|k: int| 0 <= k < self.pairs().len() && (#[trigger] self.pairs()[k]).1 >= BIG_NUMBER;
                assert(self.word_variants@[k].1 == self.pairs()[k].1);
            }
        }
        let ghost pairs = self.pairs();
        let r = build_map(self.word_variants);
        proof {
            if r is Ok {
                let m = r->Ok_0;
                assert forall|key: Seq<u8>| #[trigger] m.entries().contains_key(key) <==> exists|id: usize|
                    pairs.contains((key, id)) by {
                    if exists|id: usize| pairs.contains((key, id)) {
                        let id = choose|id: usize| pairs.contains((key, id));
                        assert(pairs.contains((key, id)));
                    }
                }
            }
        }
        r
    }
}

/// Builds the map from keys with their ids.
fn build_map(word_variants: Vec<(Vec<u8>, usize)>) -> (r: Result<FuzzyMap, FuzzyMapError>)
    ensures
        within_capacity(pair_views(word_variants@)) ==> r is Ok,
        r matches Err(e) ==> e == FuzzyMapError::BuildCapacity,
        (exists|k: int| 0 <= k < word_variants@.len() && (#[trigger] word_variants@[k]).1 >= BIG_NUMBER) ==> r is Err,
        r matches Ok(m) ==> table_wf(m.table()) && forall|key: Seq<u8>, id: usize|
            #[trigger] resolves(m.entries(), m.table(), key, id as int) <==> pair_views(word_variants@).contains((key, id)),
        r matches Ok(m) ==> m.wf() && no_dangling(m.entries(), m.table()) && forall|key: Seq<u8>|
            #[trigger] m.entries().contains_key(key) <==> exists|id: usize| pair_views(word_variants@).contains((key, id)),
    {
        let ghost pairs = pair_views(word_variants@);
        let mut v = word_variants;
        sort_pairs(&mut v);
        let ghost sv = pair_views(v@);
        let mut builder = builder_memory();
        let mut table: Vec<Vec<usize>> = Vec::new();
        let n = v.len();
        let mut i: usize = 0;
        proof {
            assert forall|key: Seq<u8>, id: usize| #[trigger] resolves(builder_entries(builder), table_views(table@), key, id as int)
                <==> exists|p: int| 0 <= p < 0 && sv[p] == (key, id) by {
            }
            if (forall|k: int| 0 <= k < pairs.len() ==> (#[trigger] pairs[k]).1 < BIG_NUMBER) && pairs.len() < BIG_NUMBER {
                assert forall|k: int| 0 <= k < sv.len() implies (#[trigger] sv[k]).1 < BIG_NUMBER by {
                    assert(sv.contains(sv[k]));
                    assert(pairs.contains(sv[k]));
                    let q = choose|q: int| 0 <= q < pairs.len() && pairs[q] == sv[k];
                }
            }
        }
        while i < n
            invariant
                pairs == pair_views(word_variants@),
                n == v@.len(),
                sv == pair_views(v@),
                forall|x: (Seq<u8>, usize)| #[trigger] sv.contains(x) <==> pairs.contains(x),
                sv.len() == pairs.len(),
                forall|a: int, b: int| 0 <= a < b < sv.len() ==> pair_le(#[trigger] sv[a], #[trigger] sv[b]),
                i <= n,
                table@.len() <= i,
                table_wf(table_views(table@)),
                forall|k: Seq<u8>| #[trigger] builder_entries(builder).contains_key(k) && builder_entries(builder)[k] >= BIG_NUMBER
                    ==> builder_entries(builder)[k] - BIG_NUMBER < table@.len(),
                i < n ==> forall|p: int| 0 <= p < i ==> bytes_lt(#[trigger] sv[p].0, sv[i as int].0),
                forall|k: Seq<u8>| #[trigger] builder_entries(builder).contains_key(k) ==> exists|p: int| 0 <= p < i && sv[p].0 == k,
                forall|p: int| 0 <= p < i ==> builder_entries(builder).contains_key(#[trigger] sv[p].0),
                forall|p: int| 0 <= p < i ==> (#[trigger] sv[p]).1 < BIG_NUMBER,
                forall|key: Seq<u8>, id: usize|
                    #[trigger] resolves(builder_entries(builder), table_views(table@), key, id as int) <==> exists|p: int|
                        0 <= p < i && sv[p] == (key, id),
                (forall|k: int| 0 <= k < pairs.len() ==> (#[trigger] pairs[k]).1 < BIG_NUMBER) && pairs.len() < BIG_NUMBER
                    ==> forall|k: int| 0 <= k < sv.len() ==> (#[trigger] sv[k]).1 < BIG_NUMBER,
            decreases n - i,
        {
            let key = &v[i].0;
            let mut ids: Vec<usize> = Vec::new();
            ids.push(v[i].1);
            let mut j: usize = i + 1;
            assert(sv[i as int] == (key@, v@[i as int].1));
            proof {
                assert forall|id: usize| #[trigger] ids@.contains(id) <==> exists|p: int| i <= p < j && sv[p] == (key@, id) by {
                    if ids@.contains(id) {
                        let q = choose|q: int| 0 <= q < ids@.len() && ids@[q] == id;
                        assert(sv[i as int] == (key@, id));
                    }
                    if exists|p: int| i <= p < j && sv[p] == (key@, id) {
                        let p = choose|p: int| i <= p < j && sv[p] == (key@, id);
                        assert(p == i);
                        assert(ids@[0] == id);
                    }
                }
            }
            while j < n && bytes_equal(v[j].0.as_slice(), key.as_slice())
                invariant
                    n == v@.len(),
                    sv == pair_views(v@),
                    forall|a: int, b: int| 0 <= a < b < sv.len() ==> pair_le(#[trigger] sv[a], #[trigger] sv[b]),
                    i < j <= n,
                    key@ == sv[i as int].0,
                    forall|p: int| i <= p < j ==> (#[trigger] sv[p]).0 == key@,
                    ids@.len() >= 1,
                    strictly_ascending(ids@),
                    ids@.last() == sv[j - 1].1,
                    forall|id: usize| #[trigger] ids@.contains(id) <==> exists|p: int| i <= p < j && sv[p] == (key@, id),
                decreases n - j,
            {
                let id = v[j].1;
                assert(sv[j as int] == (key@, id));
                assert(pair_le(sv[j - 1], sv[j as int]));
                proof {
                    crate::phrase::lemma_bytes_lt_irrefl(key@);
                }
                let last = ids[ids.len() - 1];
                let ghost before = ids@;
                if id != last {
                    ids.push(id);
                    proof {
                        assert(ids@ =~= before.push(id));
                        assert forall|x: usize| #[trigger] ids@.contains(x) <==> before.contains(x) || x == id by {
                            if ids@.contains(x) {
                                let q = choose|q: int| 0 <= q < ids@.len() && ids@[q] == x;
                                if q < before.len() {
                                    assert(before[q] == x);
                                }
                            }
                            if before.contains(x) {
                                let q = choose|q: int| 0 <= q < before.len() && before[q] == x;
                                assert(ids@[q] == x);
                            }
                            if x == id {
                                assert(ids@[before.len() as int] == x);
                            }
                        }
                    }
                } else {
                    proof {
                        assert(before.contains(last));
                    }
                }
                proof {
                    assert forall|x: usize| #[trigger] ids@.contains(x) <==> exists|p: int| i <= p < j + 1 && sv[p] == (key@, x) by {
                        if x == id {
                            assert(sv[j as int] == (key@, x));
                        }
                        if exists|p: int| i <= p < j + 1 && sv[p] == (key@, x) {
                            let p = choose|p: int| i <= p < j + 1 && sv[p] == (key@, x);
                            if p < j {
                                assert(before.contains(x));
                            }
                        }
                    }
                }
                j = j + 1;
            }
            // Every key inserted so far is below this one, and the next group's key is above it.
            proof {
                crate::phrase::lemma_bytes_lt_irrefl(key@);
                if j < n {
                    assert(pair_le(sv[j - 1], sv[j as int]));
                    assert(sv[j as int].0 != key@);
                    assert(bytes_lt(key@, sv[j as int].0));
                }
            }
            let ghost old_entries = builder_entries(builder);
            let ghost old_table = table_views(table@);
            let greatest = ids[ids.len() - 1];
            if greatest as u64 >= BIG_NUMBER {
                proof {
                    assert(ids@.contains(greatest));
                    let p = choose|p: int| i <= p < j && sv[p] == (key@, greatest);
                    if (forall|k: int| 0 <= k < pairs.len() ==> (#[trigger] pairs[k]).1 < BIG_NUMBER) && pairs.len()
                        < BIG_NUMBER {
                        assert(sv[p].1 < BIG_NUMBER);
                        assert(false);
                    }
                    assert(!within_capacity(pairs));
                }
                return Err(FuzzyMapError::BuildCapacity);
            }
            proof {
                assert forall|x: usize| #[trigger] ids@.contains(x) implies x <= greatest by {
                    let q = choose|q: int| 0 <= q < ids@.len() && ids@[q] == x;
                }
                assert forall|p: int| i <= p < j implies (#[trigger] sv[p]).1 < BIG_NUMBER by {
                    assert(sv[p] == (key@, sv[p].1));
                    assert(ids@.contains(sv[p].1));
                }
            }
            if ids.len() == 1 {
                let id = ids[0];
                match builder_insert(&mut builder, key.as_slice(), id as u64) {
                    Ok(()) => {},
                    Err(_) => {
                        proof {
                            assert(!(forall|k: Seq<u8>| #[trigger] old_entries.contains_key(k) ==> bytes_lt(k, key@)));
                            let k = choose|k: Seq<u8>| #[trigger] old_entries.contains_key(k) && !bytes_lt(k, key@);
                            assert(old_entries.contains_key(k));
                            let p = choose|p: int| 0 <= p < i && sv[p].0 == k;
                            assert(bytes_lt(sv[p].0, sv[i as int].0));
                            assert(false);
                        }
                        return Err(FuzzyMapError::BuildCapacity);
                    },
                }
                proof {
                    assert(ids@[0] == id);
                    assert forall|x: usize| #[trigger] ids@.contains(x) <==> x == id by {
                        if ids@.contains(x) {
                            let q = choose|q: int| 0 <= q < ids@.len() && ids@[q] == x;
                        }
                        if x == id {
                            assert(ids@[0] == x);
                        }
                    }
                }
            } else {
                if table.len() as u64 >= BIG_NUMBER {
                    proof {
                        assert(sv.len() == v@.len());
                        assert(table@.len() <= i);
                        assert(pairs.len() == n);
                        assert(!within_capacity(pairs));
                    }
                    return Err(FuzzyMapError::BuildCapacity);
                }
                let out: u64 = BIG_NUMBER + table.len() as u64;
                match builder_insert(&mut builder, key.as_slice(), out) {
                    Ok(()) => {},
                    Err(_) => {
                        proof {
                            assert(!(forall|k: Seq<u8>| #[trigger] old_entries.contains_key(k) ==> bytes_lt(k, key@)));
                            let k = choose|k: Seq<u8>| #[trigger] old_entries.contains_key(k) && !bytes_lt(k, key@);
                            assert(old_entries.contains_key(k));
                            let p = choose|p: int| 0 <= p < i && sv[p].0 == k;
                            assert(bytes_lt(sv[p].0, sv[i as int].0));
                            assert(false);
                        }
                        return Err(FuzzyMapError::BuildCapacity);
                    },
                }
                let ghost idv = ids@;
                table.push(ids);
                proof {
                    assert(table_views(table@) =~= old_table.push(idv));
                }
            }
            proof {
                let new_entries = builder_entries(builder);
                let new_table = table_views(table@);
                assert forall|k: int| 0 <= k < old_table.len() implies new_table[k] == old_table[k] by {
                }
                assert forall|k2: Seq<u8>| #[trigger] new_entries.contains_key(k2) implies exists|p: int| 0 <= p < j && sv[p].0 == k2 by {
                    if k2 == key@ {
                        assert(sv[i as int].0 == k2);
                    } else {
                        assert(old_entries.contains_key(k2));
                    }
                }
                assert forall|k2: Seq<u8>, x: usize| #[trigger] resolves(new_entries, new_table, k2, x as int) <==> exists|p: int|
                    0 <= p < j && sv[p] == (k2, x) by {
                    if k2 != key@ {
                        if old_entries.contains_key(k2) {
                            assert(new_entries[k2] == old_entries[k2]);
                        }
                        if old_entries.contains_key(k2) && old_entries[k2] >= BIG_NUMBER {
                            assert(old_entries[k2] - BIG_NUMBER < old_table.len());
                        }
                        assert(resolves(new_entries, new_table, k2, x as int) == resolves(old_entries, old_table, k2, x as int));
                        if exists|p: int| 0 <= p < j && sv[p] == (k2, x) {
                            let p = choose|p: int| 0 <= p < j && sv[p] == (k2, x);
                            if p >= i {
                                assert(sv[p].0 == key@);
                            }
                        }
                    } else {
                        if old_entries.contains_key(key@) {
                            let p = choose|p: int| 0 <= p < i && sv[p].0 == key@;
                        }
                        if exists|p: int| 0 <= p < j && sv[p] == (k2, x) {
                            let p = choose|p: int| 0 <= p < j && sv[p] == (k2, x);
                            if p < i {
                                assert(bytes_lt(sv[p].0, sv[i as int].0));
                            }
                            assert(ids@.contains(x));
                        }
                        if resolves(new_entries, new_table, k2, x as int) {
                            assert(ids@.contains(x));
                        }
                    }
                }
                assert forall|p: int| 0 <= p < j implies new_entries.contains_key(#[trigger] sv[p].0) by {
                    if p >= i {
                        assert(sv[p].0 == key@);
                    } else {
                        assert(old_entries.contains_key(sv[p].0));
                    }
                }
                if j < n {
                    assert forall|p: int| 0 <= p < j implies bytes_lt(#[trigger] sv[p].0, sv[j as int].0) by {
                        if p < i {
                            crate::phrase::lemma_bytes_lt_trans(sv[p].0, key@, sv[j as int].0);
                        }
                    }
                }
            }
            i = j;
        }
        let fst = builder_into_fst(builder);
        let m = FuzzyMap { id_list: table, fst };
        proof {
            assert forall|key: Seq<u8>| #[trigger] m.entries().contains_key(key) <==> exists|id: usize| pairs.contains((key, id)) by {
                if m.entries().contains_key(key) {
                    let p = choose|p: int| 0 <= p < i && sv[p].0 == key;
                    assert(sv.contains(sv[p]));
                    assert(pairs.contains((key, sv[p].1)));
                }
                if exists|id: usize| pairs.contains((key, id)) {
                    let id = choose|id: usize| pairs.contains((key, id));
                    assert(sv.contains((key, id)));
                    let p = choose|p: int| 0 <= p < sv.len() && sv[p] == (key, id);
                    assert(builder_entries(builder).contains_key(sv[p].0));
                }
            }
            assert(no_dangling(m.entries(), m.table()));
            assert forall|k: int| 0 <= k < word_variants@.len() implies (#[trigger] word_variants@[k]).1 < BIG_NUMBER by {
                assert(pairs[k] == (word_variants@[k].0@, word_variants@[k].1));
                assert(pairs.contains(pairs[k]));
                assert(sv.contains(pairs[k]));
                let p = choose|p: int| 0 <= p < sv.len() && sv[p] == pairs[k];
            }
            assert(m.table() == table_views(table@));
            assert forall|key: Seq<u8>, id: usize| #[trigger] resolves(m.entries(), m.table(), key, id as int) <==> pairs.contains(
                (key, id),
            ) by {
                if resolves(m.entries(), m.table(), key, id as int) {
                    let p = choose|p: int| 0 <= p < i && sv[p] == (key, id);
                    assert(sv.contains((key, id)));
                }
                if pairs.contains((key, id)) {
                    assert(sv.contains((key, id)));
                    let p = choose|p: int| 0 <= p < sv.len() && sv[p] == (key, id);
                }
            }
        }
        Ok(m)
}

/// Where the empty string is not a key (no word is short enough to vanish
/// under the deletions), a lookup of the empty query probes nothing that
/// resolves, so it succeeds with no result.
pub proof fn lemma_empty_query(entries: Map<Seq<u8>, u64>, table: Seq<Seq<usize>>, d: int)
    requires
        !entries.contains_key(Seq::empty()),
    ensures
        !any_dangling(entries, table, Seq::empty(), d),
        forall|id: int| !#[trigger] hit(entries, table, Seq::empty(), d, id),
{
    let e = Seq::<char>::empty();
    assert(encode_utf8(e) =~= Seq::<u8>::empty());
    assert forall|v: Seq<char>| candidate(e, v, d) implies v == e by {
        lemma_empty_has_no_variants(v, d);
    }
}

/// How many keys (with repeats) the builder collects for `words`: each word
/// and each of its listed variants.
pub open spec fn keys_collected(words: Seq<Seq<char>>, d: nat) -> nat
    decreases words.len(),
{
    if words.len() == 0 {
        0
    } else {
        keys_collected(words.drop_last(), d) + 1 + variant_count(words.last().len(), d)
    }
}

proof fn lemma_collected_at_least(words: Seq<Seq<char>>, d: nat)
    ensures
        keys_collected(words, d) >= words.len(),
    decreases words.len(),
{
    if words.len() > 0 {
        lemma_collected_at_least(words.drop_last(), d);
    }
}

/// A map whose outputs all index its overflow table has no probed string
/// that points past it, so a lookup there fails only on an unknown id.
pub proof fn lemma_no_dangling(entries: Map<Seq<u8>, u64>, table: Seq<Seq<usize>>, query: Seq<char>, d: int)
    requires
        no_dangling(entries, table),
    ensures
        !any_dangling(entries, table, query, d),
{
    assert forall|v: Seq<char>| candidate(query, v, d) implies !#[trigger] dangling(entries, table, encode_utf8(v)) by {
        if entries.contains_key(encode_utf8(v)) {
        }
    }
}

/// A lookup's result holds no ids exactly when no probed string resolves to
/// a word within the distance.
pub proof fn lemma_empty_result(out: Seq<(String, u64)>)
    requires
        forall|id: u64| !#[trigger] result_ids(out).contains(id),
    ensures
        out.len() == 0,
{
    if out.len() > 0 {
        assert(result_ids(out)[0] == out[0].1);
        assert(result_ids(out).contains(out[0].1));
    }
}

impl FuzzyMapBuilder {
    /// Adds each word with its position as its id.
    pub fn extend_iter(&mut self, words: &[String])
        ensures
            final(self).spec_edit_distance() == old(self).spec_edit_distance(),
            final(self).pairs().len() == old(self).pairs().len() + keys_collected(
                string_views(words@),
                old(self).spec_edit_distance() as nat,
            ),
            forall|p: (Seq<u8>, usize)|
                #[trigger] final(self).pairs().contains(p) <==> old(self).pairs().contains(p) || (p.1 < words@.len() && (
                p.0 == encode_utf8(words@[p.1 as int]@) || exists|v: Seq<char>|
                    is_variant(words@[p.1 as int]@, v, old(self).spec_edit_distance() as int) && p.0 == #[trigger] encode_utf8(v))),
    {
        let ghost start = self.pairs();
        let ghost d = self.edit_distance as int;
        let mut i: usize = 0;
        while i < words.len()
            invariant
                i <= words@.len(),
                d == self.spec_edit_distance() as int,
                self.spec_edit_distance() == old(self).spec_edit_distance(),
                start == old(self).pairs(),
                self.pairs().len() == start.len() + keys_collected(string_views(words@.take(i as int)), d as nat),
                forall|p: (Seq<u8>, usize)|
                    #[trigger] self.pairs().contains(p) <==> start.contains(p) || (p.1 < i && (p.0 == encode_utf8(
                        words@[p.1 as int]@,
                    ) || exists|v: Seq<char>| is_variant(words@[p.1 as int]@, v, d) && p.0 == #[trigger] encode_utf8(v))),
            decreases words@.len() - i,
        {
            self.insert(words[i].as_str(), i as u64);
            proof {
                let t0 = string_views(words@.take(i as int));
                let t1 = string_views(words@.take(i + 1));
                assert(t1.drop_last() =~= t0);
                assert(t1.last() == words@[i as int]@);
            }
            i = i + 1;
        }
        proof {
            assert(words@.take(i as int) =~= words@);
        }
    }

    /// Builds the map of `words`, each word's id being its position.
    pub fn build_from_iter(words: &[String], edit_distance: u64) -> (r: Result<FuzzyMap, FuzzyMapError>)
        ensures
            keys_collected(string_views(words@), edit_distance as nat) < BIG_NUMBER ==> r is Ok,
            r matches Ok(m) ==> m.wf() && no_dangling(m.entries(), m.table()),
            r matches Err(e) ==> e == FuzzyMapError::BuildCapacity,
            r matches Ok(m) ==> table_wf(m.table()) && forall|key: Seq<u8>, id: usize|
                #[trigger] resolves(m.entries(), m.table(), key, id as int) <==> id < words@.len() && (key == encode_utf8(
                    words@[id as int]@,
                ) || exists|v: Seq<char>| is_variant(words@[id as int]@, v, edit_distance as int) && key == #[trigger] encode_utf8(v)),
    {
        let mut builder = FuzzyMapBuilder::new(edit_distance);
        builder.extend_iter(words);
        let ghost pairs = builder.pairs();
        proof {
            if keys_collected(string_views(words@), edit_distance as nat) < BIG_NUMBER {
                lemma_collected_at_least(string_views(words@), edit_distance as nat);
                assert forall|k: int| 0 <= k < pairs.len() implies (#[trigger] pairs[k]).1 < BIG_NUMBER by {
                    assert(pairs.contains(pairs[k]));
                }
                assert(within_capacity(pairs));
            }
        }
        let r = builder.finish();
        proof {
            if r is Ok {
                let m = r->Ok_0;
                assert forall|key: Seq<u8>, id: usize| #[trigger] resolves(m.entries(), m.table(), key, id as int) <==> id
                    < words@.len() && (key == encode_utf8(words@[id as int]@) || exists|v: Seq<char>|
                    is_variant(words@[id as int]@, v, edit_distance as int) && key == #[trigger] encode_utf8(v)) by {
                    assert(pairs.contains((key, id)) == (id < words@.len() && (key == encode_utf8(words@[id as int]@) || exists|v: Seq<char>|
                        is_variant(words@[id as int]@, v, edit_distance as int) && key == #[trigger] encode_utf8(v))));
                }
            }
        }
        r
    }
}

} // verus!
