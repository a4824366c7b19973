//! An immutable set of phrases, each phrase a sequence of word ids stored in
//! an FST as the concatenation of the words' three-byte keys.
use crate::codec::{bytes_lt, encode3, lemma_bytes_lt_common, lemma_bytes_lt_differ, three_byte_encode, word_ids_to_key, words_key, WORD_ID_LIMIT};
use crate::fst_store::{
    builder_entries, builder_insert, builder_into_fst, builder_memory, fst_entries, fst_from_bytes,
    continues, fst_bytes, fst_checked, fst_has_node, fst_root, fst_to_bytes, has_path, lemma_shifted_refl, lemma_shifted_trans, live,
    node_final_output, node_is_final, node_lang, node_len, node_step, shifted, walk,
};
use crate::query::{all_full, query_key, QueryPhrase, QueryWord};
use fst::raw::{Builder, Fst};
use vstd::prelude::*;

verus! {

/// Errors of the phrase set.
#[derive(Clone, Copy, Debug, PartialEq, Eq, Structural)]
pub enum PhraseSetError {
    /// A word range where the operation accepts only full words.
    QueryShape,
    /// A phrase inserted out of key order, or twice.
    BuildOrder,
    /// Bytes that do not hold an FST.
    Decode,
}

/// `a` is lexicographically at most `b`.
pub open spec fn bytes_le(a: Seq<u8>, b: Seq<u8>) -> bool {
    !bytes_lt(b, a)
}

pub proof fn lemma_bytes_lt_irrefl(a: Seq<u8>)
    ensures
        !bytes_lt(a, a),
    decreases a.len(),
{
    if a.len() > 0 {
        lemma_bytes_lt_irrefl(a.drop_first());
    }
}

pub proof fn lemma_bytes_lt_trans(a: Seq<u8>, b: Seq<u8>, c: Seq<u8>)
    requires
        bytes_lt(a, b),
        bytes_lt(b, c),
    ensures
        bytes_lt(a, c),
    decreases a.len(),
{
    if a.len() > 0 && b.len() > 0 && c.len() > 0 {
        if a[0] == b[0] && b[0] == c[0] {
            lemma_bytes_lt_trans(a.drop_first(), b.drop_first(), c.drop_first());
        }
    }
}

pub proof fn lemma_bytes_lt_total(a: Seq<u8>, b: Seq<u8>)
    ensures
        a == b || bytes_lt(a, b) || bytes_lt(b, a),
    decreases a.len(),
{
    if a.len() > 0 && b.len() > 0 && a[0] == b[0] {
        lemma_bytes_lt_total(a.drop_first(), b.drop_first());
        if a.drop_first() == b.drop_first() {
            assert(a =~= seq![a[0]] + a.drop_first());
            assert(b =~= seq![b[0]] + b.drop_first());
        }
    } else if a.len() == 0 && b.len() == 0 {
        assert(a =~= b);
    }
}

proof fn lemma_bytes_le_trans(a: Seq<u8>, b: Seq<u8>, c: Seq<u8>)
    requires
        bytes_le(a, b),
        bytes_le(b, c),
    ensures
        bytes_le(a, c),
{
    lemma_bytes_lt_total(a, b);
    if bytes_lt(c, a) {
        if bytes_lt(a, b) {
            lemma_bytes_lt_trans(c, a, b);
        }
    }
}

/// Comparing `[b] + x` with a non-empty `y` looks at the first byte, then at
/// the rest.
proof fn lemma_bytes_lt_cons(b: u8, x: Seq<u8>, y: Seq<u8>)
    requires
        y.len() > 0,
    ensures
        bytes_lt(seq![b] + x, y) == (if b != y[0] {
            b < y[0]
        } else {
            bytes_lt(x, y.drop_first())
        }),
        bytes_lt(y, seq![b] + x) == (if b != y[0] {
            y[0] < b
        } else {
            bytes_lt(y.drop_first(), x)
        }),
{
    assert((seq![b] + x)[0] == b);
    assert((seq![b] + x).drop_first() =~= x);
}

/// `[b] + (x + s)` is `([b] + x) + s`.
proof fn lemma_cons_assoc(b: u8, x: Seq<u8>, s: Seq<u8>)
    ensures
        seq![b] + (x + s) == (seq![b] + x) + s,
{
    assert(seq![b] + (x + s) =~= (seq![b] + x) + s);
}

/// A byte string `w` of `d` bytes that starts a key of `lang`, within the
/// lower bound `lo` when `tight`.
pub open spec fn lower_ok(lang: Map<Seq<u8>, u64>, d: int, lo: Seq<u8>, tight: bool, w: Seq<u8>) -> bool {
    &&& w.len() == d
    &&& has_path(lang, w)
    &&& tight ==> bytes_le(lo, w)
}

/// A byte string `w` of `d` bytes that starts a key of `lang`, within the
/// upper bound `hi` when `tight`.
pub open spec fn upper_ok(lang: Map<Seq<u8>, u64>, d: int, hi: Seq<u8>, tight: bool, w: Seq<u8>) -> bool {
    &&& w.len() == d
    &&& has_path(lang, w)
    &&& tight ==> bytes_le(w, hi)
}

/// Walking a non-empty `w` to a live node shows that a key starts with `w`.
proof fn lemma_path_of_shift(a: Map<Seq<u8>, u64>, w: Seq<u8>, c: Map<Seq<u8>, u64>, o: int)
    requires
        shifted(a, w, c, o),
        live(c),
    ensures
        has_path(a, w),
{
    let s = choose|s: Seq<u8>| c.contains_key(s);
    assert(a.contains_key(w + s));
}

/// A path from `n` that starts with byte `b` is a path from the target of
/// `b`'s transition.
proof fn lemma_path_step(a: Map<Seq<u8>, u64>, b: u8, c: Map<Seq<u8>, u64>, o: int, x: Seq<u8>)
    requires
        shifted(a, seq![b], c, o),
    ensures
        has_path(a, seq![b] + x) == has_path(c, x),
{
    if has_path(a, seq![b] + x) {
        let s = choose|s: Seq<u8>| a.contains_key((seq![b] + x) + s);
        lemma_cons_assoc(b, x, s);
        assert(c.contains_key(x + s));
    }
    if has_path(c, x) {
        let s = choose|s: Seq<u8>| c.contains_key(x + s);
        lemma_cons_assoc(b, x, s);
        assert(a.contains_key((seq![b] + x) + s));
    }
}

/// A non-empty byte string is its first byte followed by the rest.
proof fn lemma_split_first(w: Seq<u8>)
    requires
        w.len() > 0,
    ensures
        w == seq![w[0]] + w.drop_first(),
{
    assert(w =~= seq![w[0]] + w.drop_first());
}

/// Exec comparison of byte strings.
pub fn bytes_less(a: &[u8], b: &[u8]) -> (r: bool)
    ensures
        r == bytes_lt(a@, b@),
{
    let mut i: usize = 0;
    proof {
        assert(a@.skip(0) =~= a@);
        assert(b@.skip(0) =~= b@);
    }
    while i < a.len() && i < b.len() && a[i] == b[i]
        invariant
            i <= a@.len(),
            i <= b@.len(),
            a@.take(i as int) == b@.take(i as int),
            bytes_lt(a@, b@) == bytes_lt(a@.skip(i as int), b@.skip(i as int)),
        decreases a@.len() - i,
    {
        proof {
            let x = a@.skip(i as int);
            let y = b@.skip(i as int);
            assert(x.drop_first() =~= a@.skip(i + 1));
            assert(y.drop_first() =~= b@.skip(i + 1));
            assert(a@.take(i + 1) =~= a@.take(i as int).push(a@[i as int]));
            assert(b@.take(i + 1) =~= b@.take(i as int).push(b@[i as int]));
        }
        i = i + 1;
    }
    if i == a.len() {
        i < b.len()
    } else if i == b.len() {
        false
    } else {
        a[i] < b[i]
    }
}

/// The least `3 - level` byte path from `n` at or above `lo[level..]` (when
/// `tight`): the path, the node it reaches and its output.
fn least_path(f: &Fst<Vec<u8>>, n: usize, lo: &[u8], level: usize, tight: bool) -> (r: Option<
    (Vec<u8>, usize, u64),
>)
    requires
        fst_checked(*f),
        fst_has_node(*f, n),
        lo@.len() == 3,
        level <= 3,
    ensures
        r is None ==> forall|w: Seq<u8>|
            !#[trigger] lower_ok(node_lang(*f, n), 3 - level, lo@.skip(level as int), tight, w),
        r matches Some((w, t, o)) ==> {
            &&& fst_has_node(*f, t)
            &&& w@.len() == 3 - level
            &&& shifted(node_lang(*f, n), w@, node_lang(*f, t), o as int)
            &&& level < 3 ==> live(node_lang(*f, t))
            &&& tight ==> bytes_le(lo@.skip(level as int), w@)
            &&& forall|v: Seq<u8>|
                #[trigger] lower_ok(node_lang(*f, n), 3 - level, lo@.skip(level as int), tight, v)
                    ==> bytes_le(w@, v)
        },
    decreases 3 - level,
{
    let ghost bound = lo@.skip(level as int);
    if level == 3 {
        proof {
            lemma_shifted_refl(node_lang(*f, n));
            assert(bound.len() == 0);
            assert forall|v: Seq<u8>|
                lower_ok(node_lang(*f, n), 0, bound, tight, v) implies bytes_le(Seq::<u8>::empty(), v) by {
                assert(v.len() == 0);
            }
        }
        return Some((Vec::new(), n, 0));
    }
    let start: u16 = if tight { lo[level] as u16 } else { 0 };
    let mut b: u16 = start;
    while b <= 255
        invariant
            fst_checked(*f),
            fst_has_node(*f, n),
            lo@.len() == 3,
            level < 3,
            bound == lo@.skip(level as int),
            start <= b <= 256,
            tight ==> start == lo@[level as int],
            forall|v: Seq<u8>|
                #![trigger lower_ok(node_lang(*f, n), 3 - level, bound, tight, v)]
                lower_ok(node_lang(*f, n), 3 - level, bound, tight, v) ==> v[0] >= b,
        decreases 256 - b,
    {
        let byte: u8 = b as u8;
        match node_step(f, n, byte) {
            None => {
                proof {
                    assert forall|v: Seq<u8>|
                        lower_ok(node_lang(*f, n), 3 - level, bound, tight, v) implies v[0] >= b + 1 by {
                        if v[0] == byte {
                            lemma_split_first(v);
                            let s = choose|s: Seq<u8>| node_lang(*f, n).contains_key(v + s);
                            lemma_cons_assoc(byte, v.drop_first(), s);
                            assert(node_lang(*f, n).contains_key(seq![byte] + (v.drop_first() + s)));
                        }
                    }
                }
            },
            Some((n1, o1)) => {
                let tight1 = tight && byte == lo[level];
                let rec = least_path(f, n1, lo, level + 1, tight1);
                match rec {
                    Some((w1, t, o2)) => {
                        let ghost lang = node_lang(*f, n);
                        let ghost lang1 = node_lang(*f, n1);
                        let mut w: Vec<u8> = Vec::new();
                        w.push(byte);
                        let mut w1m = w1;
                        w.append(&mut w1m);
                        proof {
                            assert(w@ =~= seq![byte] + w1@);
                            lemma_shifted_trans(lang, seq![byte], lang1, o1 as int, w1@, node_lang(*f, t), o2 as int);
                            assert(bound.drop_first() =~= lo@.skip(level + 1));
                            assert(bound.len() > 0);
                            let sl = choose|s: Seq<u8>| lang1.contains_key(s);
                            if level + 1 < 3 {
                                let st = choose|s: Seq<u8>| node_lang(*f, t).contains_key(s);
                                assert(lang1.contains_key(w1@ + st));
                                assert(lang1[w1@ + st] == o2 + node_lang(*f, t)[st]);
                                assert(lang.contains_key(seq![byte] + (w1@ + st)));
                                assert(lang[seq![byte] + (w1@ + st)] == o1 + lang1[w1@ + st]);
                            } else {
                                assert(w1@ =~= Seq::<u8>::empty());
                                assert(lang1.contains_key(w1@ + sl));
                                assert(node_lang(*f, t).contains_key(sl));
                                assert(lang1[w1@ + sl] == o2 + node_lang(*f, t)[sl]);
                                assert(lang.contains_key(seq![byte] + sl));
                                assert(lang[seq![byte] + sl] == o1 + lang1[sl]);
                            }
                            assert(o1 + o2 <= u64::MAX);
                            lemma_bytes_lt_cons(byte, w1@, bound);
                            assert forall|v: Seq<u8>|
                                lower_ok(lang, 3 - level, bound, tight, v) implies bytes_le(w@, v) by {
                                lemma_split_first(v);
                                lemma_bytes_lt_cons(v[0], v.drop_first(), w@);
                                assert(w@[0] == byte);
                                assert(w@.drop_first() =~= w1@);
                                if v[0] == byte {
                                    lemma_path_step(lang, byte, lang1, o1 as int, v.drop_first());
                                    lemma_bytes_lt_cons(byte, v.drop_first(), bound);
                                    assert(lower_ok(lang1, 3 - (level + 1), lo@.skip(level + 1), tight1, v.drop_first()));
                                }
                            }
                        }
                        return Some((w, t, (o1 + o2) as u64));
                    },
                    None => {
                        proof {
                            let lang = node_lang(*f, n);
                            let lang1 = node_lang(*f, n1);
                            assert(bound.drop_first() =~= lo@.skip(level + 1));
                            assert forall|v: Seq<u8>|
                                lower_ok(lang, 3 - level, bound, tight, v) implies v[0] >= b + 1 by {
                                if v[0] == byte {
                                    lemma_split_first(v);
                                    lemma_path_step(lang, byte, lang1, o1 as int, v.drop_first());
                                    lemma_bytes_lt_cons(byte, v.drop_first(), bound);
                                    assert(!lower_ok(lang1, 3 - (level + 1), lo@.skip(level + 1), tight1, v.drop_first()));
                                }
                            }
                        }
                    },
                }
            },
        }
        b = b + 1;
    }
    proof {
        assert forall|v: Seq<u8>| !#[trigger] lower_ok(node_lang(*f, n), 3 - level, bound, tight, v) by {
            if lower_ok(node_lang(*f, n), 3 - level, bound, tight, v) {
                assert(v[0] >= 256);
            }
        }
    }
    None
}

/// The greatest `3 - level` byte path from `n` at or below `hi[level..]`
/// (when `tight`): the path, the node it reaches and its output.
fn greatest_path(f: &Fst<Vec<u8>>, n: usize, hi: &[u8], level: usize, tight: bool) -> (r: Option<
    (Vec<u8>, usize, u64),
>)
    requires
        fst_checked(*f),
        fst_has_node(*f, n),
        hi@.len() == 3,
        level <= 3,
    ensures
        r is None ==> forall|w: Seq<u8>|
            !#[trigger] upper_ok(node_lang(*f, n), 3 - level, hi@.skip(level as int), tight, w),
        r matches Some((w, t, o)) ==> {
            &&& fst_has_node(*f, t)
            &&& w@.len() == 3 - level
            &&& shifted(node_lang(*f, n), w@, node_lang(*f, t), o as int)
            &&& level < 3 ==> live(node_lang(*f, t))
            &&& tight ==> bytes_le(w@, hi@.skip(level as int))
            &&& forall|v: Seq<u8>|
                #[trigger] upper_ok(node_lang(*f, n), 3 - level, hi@.skip(level as int), tight, v)
                    ==> bytes_le(v, w@)
        },
    decreases 3 - level,
{
    let ghost bound = hi@.skip(level as int);
    if level == 3 {
        proof {
            lemma_shifted_refl(node_lang(*f, n));
            assert(bound.len() == 0);
            assert forall|v: Seq<u8>|
                upper_ok(node_lang(*f, n), 0, bound, tight, v) implies bytes_le(v, Seq::<u8>::empty()) by {
                assert(v.len() == 0);
            }
        }
        return Some((Vec::new(), n, 0));
    }
    let start: u16 = if tight { hi[level] as u16 } else { 255 };
    let mut k: u16 = start + 1;
    while k > 0
        invariant
            fst_checked(*f),
            fst_has_node(*f, n),
            hi@.len() == 3,
            level < 3,
            bound == hi@.skip(level as int),
            k <= start + 1,
            start <= 255,
            tight ==> start == hi@[level as int],
            forall|v: Seq<u8>|
                #![trigger upper_ok(node_lang(*f, n), 3 - level, bound, tight, v)]
                upper_ok(node_lang(*f, n), 3 - level, bound, tight, v) ==> v[0] < k,
        decreases k,
    {
        let byte: u8 = (k - 1) as u8;
        match node_step(f, n, byte) {
            None => {
                proof {
                    assert forall|v: Seq<u8>|
                        upper_ok(node_lang(*f, n), 3 - level, bound, tight, v) implies v[0] < k - 1 by {
                        if v[0] == byte {
                            lemma_split_first(v);
                            let s = choose|s: Seq<u8>| node_lang(*f, n).contains_key(v + s);
                            lemma_cons_assoc(byte, v.drop_first(), s);
                            assert(node_lang(*f, n).contains_key(seq![byte] + (v.drop_first() + s)));
                        }
                    }
                }
            },
            Some((n1, o1)) => {
                let tight1 = tight && byte == hi[level];
                let rec = greatest_path(f, n1, hi, level + 1, tight1);
                match rec {
                    Some((w1, t, o2)) => {
                        let ghost lang = node_lang(*f, n);
                        let ghost lang1 = node_lang(*f, n1);
                        let mut w: Vec<u8> = Vec::new();
                        w.push(byte);
                        let mut w1m = w1;
                        w.append(&mut w1m);
                        proof {
                            assert(w@ =~= seq![byte] + w1@);
                            lemma_shifted_trans(lang, seq![byte], lang1, o1 as int, w1@, node_lang(*f, t), o2 as int);
                            assert(bound.drop_first() =~= hi@.skip(level + 1));
                            assert(bound.len() > 0);
                            let sl = choose|s: Seq<u8>| lang1.contains_key(s);
                            if level + 1 < 3 {
                                let st = choose|s: Seq<u8>| node_lang(*f, t).contains_key(s);
                                assert(lang1.contains_key(w1@ + st));
                                assert(lang1[w1@ + st] == o2 + node_lang(*f, t)[st]);
                                assert(lang.contains_key(seq![byte] + (w1@ + st)));
                                assert(lang[seq![byte] + (w1@ + st)] == o1 + lang1[w1@ + st]);
                            } else {
                                assert(w1@ =~= Seq::<u8>::empty());
                                assert(lang1.contains_key(w1@ + sl));
                                assert(node_lang(*f, t).contains_key(sl));
                                assert(lang1[w1@ + sl] == o2 + node_lang(*f, t)[sl]);
                                assert(lang.contains_key(seq![byte] + sl));
                                assert(lang[seq![byte] + sl] == o1 + lang1[sl]);
                            }
                            assert(o1 + o2 <= u64::MAX);
                            lemma_bytes_lt_cons(byte, w1@, bound);
                            assert forall|v: Seq<u8>|
                                upper_ok(lang, 3 - level, bound, tight, v) implies bytes_le(v, w@) by {
                                lemma_split_first(v);
                                lemma_bytes_lt_cons(v[0], v.drop_first(), w@);
                                lemma_bytes_lt_cons(byte, w1@, v);
                                assert(w@[0] == byte);
                                assert(w@.drop_first() =~= w1@);
                                if v[0] == byte {
                                    lemma_path_step(lang, byte, lang1, o1 as int, v.drop_first());
                                    lemma_bytes_lt_cons(byte, v.drop_first(), bound);
                                    assert(upper_ok(lang1, 3 - (level + 1), hi@.skip(level + 1), tight1, v.drop_first()));
                                }
                            }
                        }
                        return Some((w, t, (o1 + o2) as u64));
                    },
                    None => {
                        proof {
                            let lang = node_lang(*f, n);
                            let lang1 = node_lang(*f, n1);
                            assert(bound.drop_first() =~= hi@.skip(level + 1));
                            assert forall|v: Seq<u8>|
                                upper_ok(lang, 3 - level, bound, tight, v) implies v[0] < k - 1 by {
                                if v[0] == byte {
                                    lemma_split_first(v);
                                    lemma_path_step(lang, byte, lang1, o1 as int, v.drop_first());
                                    lemma_bytes_lt_cons(byte, v.drop_first(), bound);
                                    assert(!upper_ok(lang1, 3 - (level + 1), hi@.skip(level + 1), tight1, v.drop_first()));
                                }
                            }
                        }
                    },
                }
            },
        }
        k = k - 1;
    }
    proof {
        assert forall|v: Seq<u8>| !#[trigger] upper_ok(node_lang(*f, n), 3 - level, bound, tight, v) by {
            if upper_ok(node_lang(*f, n), 3 - level, bound, tight, v) {
                assert(v[0] < 0);
            }
        }
    }
    None
}

/// `w` is a three-byte word key within `[lo, hi]` that continues `key` to a
/// prefix of some key of `entries`.
pub open spec fn word_in(entries: Map<Seq<u8>, u64>, key: Seq<u8>, lo: Seq<u8>, hi: Seq<u8>, w: Seq<u8>) -> bool {
    &&& w.len() == 3
    &&& has_path(entries, key + w)
    &&& bytes_le(lo, w)
    &&& bytes_le(w, hi)
}

/// A walk of `key` from the root that ends at `node` with output `output`.
pub open spec fn reached(f: Fst<Vec<u8>>, key: Seq<u8>, node: usize, output: u64) -> bool {
    &&& fst_checked(f)
    &&& fst_has_node(f, node)
    &&& shifted(fst_entries(f), key, node_lang(f, node), output as int)
}

/// The two ends of the word keys in a range that continue a phrase prefix.
pub struct WordPrefixMatchState {
    /// The node after the least word key in the range, and its output.
    pub min_prefix_node: usize,
    pub min_prefix_output: u64,
    /// The least word key in the range that continues the prefix.
    pub min_word: Vec<u8>,
    /// The node after the greatest word key in the range, and its output.
    pub max_prefix_node: usize,
    pub max_prefix_output: u64,
    /// The greatest word key in the range that continues the prefix.
    pub max_word: Vec<u8>,
    /// The key of the full words before the range.
    pub key: Ghost<Seq<u8>>,
}

impl WordPrefixMatchState {
    /// The state describes the word keys within `[lo, hi]` after its key.
    pub open spec fn describes(&self, f: Fst<Vec<u8>>, lo: Seq<u8>, hi: Seq<u8>) -> bool {
        let key = self.key@;
        &&& self.min_word@.len() == 3
        &&& self.max_word@.len() == 3
        &&& reached(f, key + self.min_word@, self.min_prefix_node, self.min_prefix_output)
        &&& reached(f, key + self.max_word@, self.max_prefix_node, self.max_prefix_output)
        &&& live(node_lang(f, self.min_prefix_node))
        &&& live(node_lang(f, self.max_prefix_node))
        &&& word_in(fst_entries(f), key, lo, hi, self.min_word@)
        &&& word_in(fst_entries(f), key, lo, hi, self.max_word@)
        &&& forall|w: Seq<u8>|
            #[trigger] word_in(fst_entries(f), key, lo, hi, w) ==> bytes_le(self.min_word@, w)
                && bytes_le(w, self.max_word@)
    }

    /// The state's nodes are nodes of `f` that keys pass through.
    pub open spec fn wf(&self, f: Fst<Vec<u8>>) -> bool {
        &&& reached(f, self.key@ + self.min_word@, self.min_prefix_node, self.min_prefix_output)
        &&& reached(f, self.key@ + self.max_word@, self.max_prefix_node, self.max_prefix_output)
        &&& live(node_lang(f, self.min_prefix_node))
        &&& live(node_lang(f, self.max_prefix_node))
    }
}

/// Walking `key` to a node shows which continuations of `key` are paths.
proof fn lemma_path_shift(a: Map<Seq<u8>, u64>, key: Seq<u8>, c: Map<Seq<u8>, u64>, o: int, x: Seq<u8>)
    requires
        shifted(a, key, c, o),
    ensures
        has_path(a, key + x) == has_path(c, x),
{
    if has_path(a, key + x) {
        let s = choose|s: Seq<u8>| a.contains_key((key + x) + s);
        assert((key + x) + s =~= key + (x + s));
        assert(c.contains_key(x + s));
    }
    if has_path(c, x) {
        let s = choose|s: Seq<u8>| c.contains_key(x + s);
        assert((key + x) + s =~= key + (x + s));
        assert(a.contains_key((key + x) + s));
    }
}

/// A walk from a node that `key` reached, composed into a walk from the root;
/// the output fits since the target is live.
proof fn lemma_reach_more(f: Fst<Vec<u8>>, key: Seq<u8>, n: usize, out: u64, w: Seq<u8>, t: usize, o: u64)
    requires
        reached(f, key, n, out),
        fst_has_node(f, t),
        shifted(node_lang(f, n), w, node_lang(f, t), o as int),
        live(node_lang(f, t)),
    ensures
        out + o <= u64::MAX,
        reached(f, key + w, t, (out + o) as u64),
{
    lemma_shifted_trans(fst_entries(f), key, node_lang(f, n), out as int, w, node_lang(f, t), o as int);
    let s = choose|s: Seq<u8>| node_lang(f, t).contains_key(s);
    assert(fst_entries(f).contains_key((key + w) + s));
}

/// Finds the least and the greatest word key within `[lo, hi]` that continue
/// the prefix which reached `start`.
fn matches_prefix_range(
    f: &Fst<Vec<u8>>,
    start: usize,
    start_output: u64,
    key: Ghost<Seq<u8>>,
    lo: &[u8],
    hi: &[u8],
) -> (r: Option<WordPrefixMatchState>)
    requires
        reached(*f, key@, start, start_output),
        lo@.len() == 3,
        hi@.len() == 3,
    ensures
        r is None ==> forall|w: Seq<u8>| !#[trigger] word_in(fst_entries(*f), key@, lo@, hi@, w),
        r matches Some(st) ==> st.describes(*f, lo@, hi@) && st.key@ == key@,
{
    let ghost entries = fst_entries(*f);
    let ghost lang = node_lang(*f, start);
    proof {
        assert(lo@.skip(0) =~= lo@);
        assert(hi@.skip(0) =~= hi@);
        assert forall|w: Seq<u8>| #[trigger] word_in(entries, key@, lo@, hi@, w) implies lower_ok(lang, 3, lo@, true, w)
            && upper_ok(lang, 3, hi@, true, w) by {
            lemma_path_shift(entries, key@, lang, start_output as int, w);
        }
    }
    match least_path(f, start, lo, 0, true) {
        None => None,
        Some((wmin, nmin, omin)) => {
            proof {
                lemma_reach_more(*f, key@, start, start_output, wmin@, nmin, omin);
                lemma_path_of_shift(lang, wmin@, node_lang(*f, nmin), omin as int);
                lemma_path_shift(entries, key@, lang, start_output as int, wmin@);
            }
            if bytes_less(hi, wmin.as_slice()) {
                proof {
                    assert forall|w: Seq<u8>| !#[trigger] word_in(entries, key@, lo@, hi@, w) by {
                        if word_in(entries, key@, lo@, hi@, w) {
                            assert(lower_ok(lang, 3, lo@, true, w));
                            lemma_bytes_lt_total(w, wmin@);
                            if w != wmin@ {
                                lemma_bytes_lt_trans(hi@, wmin@, w);
                            }
                        }
                    }
                }
                return None;
            }
            match greatest_path(f, start, hi, 0, true) {
                None => {
                    proof {
                        assert(upper_ok(lang, 3, hi@, true, wmin@));
                    }
                    None
                },
                Some((wmax, nmax, omax)) => {
                    proof {
                        lemma_reach_more(*f, key@, start, start_output, wmax@, nmax, omax);
                        lemma_path_of_shift(lang, wmax@, node_lang(*f, nmax), omax as int);
                        lemma_path_shift(entries, key@, lang, start_output as int, wmax@);
                        assert(upper_ok(lang, 3, hi@, true, wmin@));
                        lemma_bytes_le_trans(lo@, wmin@, wmax@);
                        assert(lower_ok(lang, 3, lo@, true, wmax@));
                        assert forall|w: Seq<u8>| #[trigger] word_in(entries, key@, lo@, hi@, w) implies bytes_le(wmin@, w)
                            && bytes_le(w, wmax@) by {
                            assert(lower_ok(lang, 3, lo@, true, w));
                            assert(upper_ok(lang, 3, hi@, true, w));
                        }
                    }
                    Some(
                        WordPrefixMatchState {
                            min_prefix_node: nmin,
                            min_prefix_output: start_output + omin,
                            min_word: wmin,
                            max_prefix_node: nmax,
                            max_prefix_output: start_output + omax,
                            max_word: wmax,
                            key,
                        },
                    )
                },
            }
        },
    }
}

/// `s` is the least key of `lang`.
pub open spec fn is_least_key(lang: Map<Seq<u8>, u64>, s: Seq<u8>) -> bool {
    &&& lang.contains_key(s)
    &&& forall|t: Seq<u8>| #[trigger] lang.contains_key(t) ==> bytes_le(s, t)
}

/// `s` is the greatest key of `lang`.
pub open spec fn is_greatest_key(lang: Map<Seq<u8>, u64>, s: Seq<u8>) -> bool {
    &&& lang.contains_key(s)
    &&& forall|t: Seq<u8>| #[trigger] lang.contains_key(t) ==> bytes_le(t, s)
}

/// A key of `a` that starts with `b` continues as a key of the transition's
/// target.
proof fn lemma_key_step(a: Map<Seq<u8>, u64>, b: u8, c: Map<Seq<u8>, u64>, o: int, s: Seq<u8>)
    requires
        shifted(a, seq![b], c, o),
        s.len() > 0,
        s[0] == b,
        a.contains_key(s),
    ensures
        c.contains_key(s.drop_first()),
        a[s] == o + c[s.drop_first()],
{
    lemma_split_first(s);
    let x = s.drop_first();
    assert(a.contains_key(seq![b] + x));
    assert(c.contains_key(x));
}

/// The output of the least key accepted from node `n`.
fn least_key_output(f: &Fst<Vec<u8>>, n: usize) -> (r: Option<u64>)
    requires
        fst_checked(*f),
        fst_has_node(*f, n),
    ensures
        r is None <==> !live(node_lang(*f, n)),
        r matches Some(v) ==> exists|s: Seq<u8>| is_least_key(node_lang(*f, n), s) && v == node_lang(*f, n)[s],
    decreases n,
{
    let ghost lang = node_lang(*f, n);
    if node_is_final(f, n) {
        let v = node_final_output(f, n);
        proof {
            assert forall|t: Seq<u8>| #[trigger] lang.contains_key(t) implies bytes_le(Seq::<u8>::empty(), t) by {
            }
            assert(is_least_key(lang, Seq::<u8>::empty()));
        }
        return Some(v);
    }
    let mut b: u16 = 0;
    proof {
        assert forall|t: Seq<u8>| #[trigger] lang.contains_key(t) implies t.len() > 0 by {
            if t.len() == 0 {
                assert(t =~= Seq::<u8>::empty());
            }
        }
    }
    while b <= 255
        invariant
            fst_checked(*f),
            fst_has_node(*f, n),
            lang == node_lang(*f, n),
            !lang.contains_key(Seq::<u8>::empty()),
            b <= 256,
            forall|t: Seq<u8>| #[trigger] lang.contains_key(t) ==> t.len() > 0 && t[0] >= b,
        decreases 256 - b,
    {
        let byte: u8 = b as u8;
        match node_step(f, n, byte) {
            None => {
                proof {
                    assert forall|t: Seq<u8>| #[trigger] lang.contains_key(t) implies t.len() > 0 && t[0] >= b + 1 by {
                        if t[0] == byte {
                            lemma_split_first(t);
                            assert(lang.contains_key(seq![byte] + t.drop_first()));
                        }
                    }
                }
            },
            Some((t, o)) => {
                let v = match least_key_output(f, t) {
                    Some(v) => v,
                    None => {
                        return None;
                    },
                };
                let ghost lt = node_lang(*f, t);
                proof {
                    let tail = choose|s: Seq<u8>| is_least_key(lt, s) && v == lt[s];
                    let s = seq![byte] + tail;
                    assert(lang.contains_key(seq![byte] + tail));
                    assert(lang[s] == o + lt[tail]);
                    assert forall|u: Seq<u8>| #[trigger] lang.contains_key(u) implies bytes_le(s, u) by {
                        lemma_bytes_lt_cons(byte, tail, u);
                        if u[0] == byte {
                            lemma_key_step(lang, byte, lt, o as int, u);
                        }
                    }
                    assert(is_least_key(lang, s));
                }
                return Some(o + v);
            },
        }
        b = b + 1;
    }
    proof {
        if live(lang) {
            let t = choose|t: Seq<u8>| lang.contains_key(t);
            assert(t[0] >= 256);
        }
    }
    None
}

/// The output of the greatest key accepted from node `n`.
fn greatest_key_output(f: &Fst<Vec<u8>>, n: usize) -> (r: Option<u64>)
    requires
        fst_checked(*f),
        fst_has_node(*f, n),
    ensures
        r is None <==> !live(node_lang(*f, n)),
        r matches Some(v) ==> exists|s: Seq<u8>| is_greatest_key(node_lang(*f, n), s) && v == node_lang(*f, n)[s],
    decreases n,
{
    let ghost lang = node_lang(*f, n);
    let mut k: u16 = 256;
    while k > 0
        invariant
            fst_checked(*f),
            fst_has_node(*f, n),
            lang == node_lang(*f, n),
            k <= 256,
            forall|t: Seq<u8>| #[trigger] lang.contains_key(t) && t.len() > 0 ==> t[0] < k,
        decreases k,
    {
        let byte: u8 = (k - 1) as u8;
        match node_step(f, n, byte) {
            None => {
                proof {
                    assert forall|t: Seq<u8>| #[trigger] lang.contains_key(t) && t.len() > 0 implies t[0] < k - 1 by {
                        if t[0] == byte {
                            lemma_split_first(t);
                            assert(lang.contains_key(seq![byte] + t.drop_first()));
                        }
                    }
                }
            },
            Some((t, o)) => {
                let v = match greatest_key_output(f, t) {
                    Some(v) => v,
                    None => {
                        return None;
                    },
                };
                let ghost lt = node_lang(*f, t);
                proof {
                    let tail = choose|s: Seq<u8>| is_greatest_key(lt, s) && v == lt[s];
                    let s = seq![byte] + tail;
                    assert(lang.contains_key(seq![byte] + tail));
                    assert(lang[s] == o + lt[tail]);
                    assert forall|u: Seq<u8>| #[trigger] lang.contains_key(u) implies bytes_le(u, s) by {
                        if u.len() > 0 {
                            lemma_bytes_lt_cons(byte, tail, u);
                            if u[0] == byte {
                                lemma_key_step(lang, byte, lt, o as int, u);
                            }
                        }
                    }
                    assert(is_greatest_key(lang, s));
                }
                return Some(o + v);
            },
        }
        k = k - 1;
    }
    if !node_is_final(f, n) {
        proof {
            if live(lang) {
                let t = choose|t: Seq<u8>| lang.contains_key(t);
                assert(t.len() == 0);
                assert(t =~= Seq::<u8>::empty());
            }
        }
        return None;
    }
    proof {
        assert forall|u: Seq<u8>| #[trigger] lang.contains_key(u) implies bytes_le(u, Seq::<u8>::empty()) by {
            assert(u.len() == 0);
        }
        assert(is_greatest_key(lang, Seq::<u8>::empty()));
    }
    Some(node_final_output(f, n))
}

/// What `lookup` finds: a key that starts with the full words' key, followed
/// by a word key within the trailing range when there is one.
pub open spec fn lookup_found(entries: Map<Seq<u8>, u64>, words: Seq<QueryWord>) -> bool {
    if words.len() > 0 && words.last() is Prefix {
        let (a, b) = words.last()->Prefix_id_range;
        exists|w: Seq<u8>|
            #[trigger] word_in(entries, query_key(words.drop_last()), encode3(a as int), encode3(b as int), w)
    } else {
        words.len() == 0 || has_path(entries, query_key(words))
    }
}

/// Keys with greater bytes have greater outputs, as `PhraseSetBuilder`
/// assigns them.
pub open spec fn ordered(entries: Map<Seq<u8>, u64>) -> bool {
    forall|a: Seq<u8>, b: Seq<u8>|
        #[trigger] entries.contains_key(a) && #[trigger] entries.contains_key(b) && bytes_lt(a, b)
            ==> entries[a] < entries[b]
}

/// The state that a successful lookup ends in.
pub enum PhraseSetMatchState {
    /// The lookup ended after a full word, at `node` with `output`.
    EndsInFullWord { node: usize, output: u64, key: Ghost<Seq<u8>> },
    /// The lookup ended with a word range.
    EndsInPrefix(WordPrefixMatchState),
}

impl PhraseSetMatchState {
    pub open spec fn wf(&self, f: Fst<Vec<u8>>) -> bool {
        match *self {
            PhraseSetMatchState::EndsInFullWord { node, output, key } => reached(f, key@, node, output),
            PhraseSetMatchState::EndsInPrefix(st) => st.wf(f),
        }
    }

    /// The node where the least continuation starts, and the key that led there.
    pub open spec fn low_node(&self) -> usize {
        match *self {
            PhraseSetMatchState::EndsInFullWord { node, .. } => node,
            PhraseSetMatchState::EndsInPrefix(st) => st.min_prefix_node,
        }
    }

    pub open spec fn low_key(&self) -> Seq<u8> {
        match *self {
            PhraseSetMatchState::EndsInFullWord { key, .. } => key@,
            PhraseSetMatchState::EndsInPrefix(st) => st.key@ + st.min_word@,
        }
    }

    /// The node where the greatest continuation starts, and the key that led there.
    pub open spec fn high_node(&self) -> usize {
        match *self {
            PhraseSetMatchState::EndsInFullWord { node, .. } => node,
            PhraseSetMatchState::EndsInPrefix(st) => st.max_prefix_node,
        }
    }

    pub open spec fn high_key(&self) -> Seq<u8> {
        match *self {
            PhraseSetMatchState::EndsInFullWord { key, .. } => key@,
            PhraseSetMatchState::EndsInPrefix(st) => st.key@ + st.max_word@,
        }
    }

    /// The outputs of the least and of the greatest key that continue the
    /// state: the least key after the low end and the greatest after the high
    /// end. Where no key continues a full word, its output is given for both.
    pub fn prefix_range(&self, fst: &Fst<Vec<u8>>) -> (r: (u64, u64))
        requires
            self.wf(*fst),
        ensures
            live(node_lang(*fst, self.low_node())) ==> exists|s: Seq<u8>|
                is_least_key(node_lang(*fst, self.low_node()), s) && r.0 == fst_entries(*fst)[self.low_key() + s],
            live(node_lang(*fst, self.high_node())) ==> exists|s: Seq<u8>|
                is_greatest_key(node_lang(*fst, self.high_node()), s) && r.1 == fst_entries(*fst)[self.high_key() + s],
    {
        let (min_node, min_output, max_node, max_output) = match self {
            PhraseSetMatchState::EndsInFullWord { node, output, .. } => (*node, *output, *node, *output),
            PhraseSetMatchState::EndsInPrefix(st) => (
                st.min_prefix_node,
                st.min_prefix_output,
                st.max_prefix_node,
                st.max_prefix_output,
            ),
        };
        let ghost entries = fst_entries(*fst);
        let low = match least_key_output(fst, min_node) {
            Some(v) => {
                proof {
                    let lang = node_lang(*fst, min_node);
                    let s = choose|s: Seq<u8>| is_least_key(lang, s) && v == lang[s];
                    assert(entries[self.low_key() + s] == min_output + lang[s]);
                }
                min_output + v
            },
            None => min_output,
        };
        let high = match greatest_key_output(fst, max_node) {
            Some(v) => {
                proof {
                    let lang = node_lang(*fst, max_node);
                    let s = choose|s: Seq<u8>| is_greatest_key(lang, s) && v == lang[s];
                    assert(entries[self.high_key() + s] == max_output + lang[s]);
                }
                max_output + v
            },
            None => max_output,
        };
        (low, high)
    }
}

/// The result of a lookup: not found, or found in the given FST.
pub enum PhraseSetLookupResult<'a> {
    NotFound,
    Found { fst: &'a Fst<Vec<u8>>, match_state: PhraseSetMatchState },
}

impl<'a> PhraseSetLookupResult<'a> {
    pub open spec fn wf(&self) -> bool {
        match *self {
            PhraseSetLookupResult::NotFound => true,
            PhraseSetLookupResult::Found { fst, match_state } => match_state.wf(*fst),
        }
    }

    pub fn found(&self) -> (r: bool)
        ensures
            r == (*self is Found),
    {
        match self {
            PhraseSetLookupResult::NotFound => false,
            PhraseSetLookupResult::Found { .. } => true,
        }
    }

    /// The lookup ended after a full word at the end of a phrase.
    pub fn found_final(&self) -> (r: bool)
        requires
            self.wf(),
        ensures
            r == (*self matches PhraseSetLookupResult::Found { fst, match_state } && match_state matches PhraseSetMatchState::EndsInFullWord { key, .. }
                && fst_entries(*fst).contains_key(key@)),
    {
        match self {
            PhraseSetLookupResult::NotFound => false,
            PhraseSetLookupResult::Found { fst, match_state } => match match_state {
                PhraseSetMatchState::EndsInFullWord { node, key, .. } => {
                    proof {
                        assert(key@ + Seq::<u8>::empty() =~= key@);
                    }
                    node_is_final(fst, *node)
                },
                PhraseSetMatchState::EndsInPrefix(..) => false,
            },
        }
    }

    /// The id of the phrase that the lookup ended on, if it ended at the end
    /// of a phrase after a full word.
    pub fn id(&self) -> (r: Option<u64>)
        requires
            self.wf(),
        ensures
            r == (if *self matches PhraseSetLookupResult::Found { fst, match_state } && match_state matches PhraseSetMatchState::EndsInFullWord { key, .. }
                && fst_entries(*fst).contains_key(key@) {
                Some(fst_entries(*self->fst)[self->match_state->key@])
            } else {
                None::<u64>
            }),
    {
        match self {
            PhraseSetLookupResult::NotFound => None,
            PhraseSetLookupResult::Found { fst, match_state } => match match_state {
                PhraseSetMatchState::EndsInFullWord { node, output, key } => {
                    proof {
                        assert(key@ + Seq::<u8>::empty() =~= key@);
                    }
                    if node_is_final(fst, *node) {
                        let v = node_final_output(fst, *node);
                        Some(*output + v)
                    } else {
                        None
                    }
                },
                PhraseSetMatchState::EndsInPrefix(..) => None,
            },
        }
    }

    /// The outputs of the least and greatest phrases that continue the lookup.
    pub fn range(&self) -> (r: Option<(u64, u64)>)
        requires
            self.wf(),
        ensures
            r is None <==> *self is NotFound,
            r matches Some(v) ==> {
                let f = *self->fst;
                let ms = self->match_state;
                &&& live(node_lang(f, ms.low_node())) ==> exists|s: Seq<u8>|
                    is_least_key(node_lang(f, ms.low_node()), s) && v.0 == fst_entries(f)[ms.low_key() + s]
                &&& live(node_lang(f, ms.high_node())) ==> exists|s: Seq<u8>|
                    is_greatest_key(node_lang(f, ms.high_node()), s) && v.1 == fst_entries(f)[ms.high_key() + s]
            },
    {
        match self {
            PhraseSetLookupResult::NotFound => None,
            PhraseSetLookupResult::Found { fst, match_state } => Some(match_state.prefix_range(fst)),
        }
    }

    /// Some phrase continues past where the lookup ended.
    pub fn has_continuations(&self) -> (r: bool)
        requires
            self.wf(),
        ensures
            r == (*self matches PhraseSetLookupResult::Found { fst, match_state } && match match_state {
                PhraseSetMatchState::EndsInFullWord { node, .. } => continues(node_lang(*fst, node)),
                PhraseSetMatchState::EndsInPrefix(st) => continues(node_lang(*fst, st.min_prefix_node))
                    || st.min_prefix_node != st.max_prefix_node,
            }),
    {
        match self {
            PhraseSetLookupResult::NotFound => false,
            PhraseSetLookupResult::Found { fst, match_state } => match match_state {
                PhraseSetMatchState::EndsInFullWord { node, .. } => node_len(fst, *node) > 0,
                PhraseSetMatchState::EndsInPrefix(st) => {
                    node_len(fst, st.min_prefix_node) > 0 || st.min_prefix_node != st.max_prefix_node
                },
            },
        }
    }
}

/// The key of a sequence of full words.
pub fn query_words_key(words: &[QueryWord]) -> (key: Vec<u8>)
    requires
        all_full(words@),
    ensures
        key@ == query_key(words@),
{
    let mut key: Vec<u8> = Vec::new();
    let mut i: usize = 0;
    while i < words.len()
        invariant
            i <= words@.len(),
            all_full(words@),
            key@ == query_key(words@.take(i as int)),
        decreases words@.len() - i,
    {
        let mut k = words[i].key();
        assert(words@.take(i + 1).drop_last() == words@.take(i as int));
        key.append(&mut k);
        i = i + 1;
    }
    assert(words@.take(i as int) == words@);
    key
}

/// A set of phrases over an FST whose keys are phrase keys and whose outputs
/// are phrase ids.
pub struct PhraseSet {
    fst: Fst<Vec<u8>>,
}

impl PhraseSet {
    pub closed spec fn spec_fst(&self) -> Fst<Vec<u8>> {
        self.fst
    }

    /// The phrase keys in the set, with their ids.
    pub open spec fn entries(&self) -> Map<Seq<u8>, u64> {
        fst_entries(self.spec_fst())
    }

    /// The set's FST has the layout that fst's `Builder` writes.
    pub open spec fn wf(&self) -> bool {
        fst_checked(self.spec_fst())
    }

    /// Reads a phrase set from bytes written by `PhraseSetBuilder`: bytes of
    /// a set that the builder wrote read back as that set.
    pub fn from_bytes(bytes: Vec<u8>) -> (r: Result<PhraseSet, PhraseSetError>)
        ensures
            r matches Err(e) ==> e == PhraseSetError::Decode && forall|g: Fst<Vec<u8>>|
                !(fst_checked(g) && bytes@ == #[trigger] fst_bytes(g)),
            r matches Ok(set) ==> forall|g: Fst<Vec<u8>>|
                fst_checked(g) && bytes@ == #[trigger] fst_bytes(g) ==> set.wf() && set.entries() == fst_entries(g),
    {
        match fst_from_bytes(bytes) {
            Ok(fst) => Ok(PhraseSet { fst }),
            Err(_) => Err(PhraseSetError::Decode),
        }
    }

    /// The bytes of the set's FST.
    pub fn as_bytes(&self) -> (r: Vec<u8>)
        ensures
            r@ == fst_bytes(self.spec_fst()),
    {
        fst_to_bytes(&self.fst)
    }

    /// Walks the full words of `phrase` from the root; a trailing word range
    /// is matched against the word keys that continue them.
    pub fn lookup(&self, phrase: &[QueryWord]) -> (r: PhraseSetLookupResult<'_>)
        requires
            self.wf(),
            forall|i: int| 0 <= i < phrase@.len() - 1 ==> (#[trigger] phrase@[i]) is Full,
        ensures
            r.wf(),
            r is NotFound <==> !lookup_found(self.entries(), phrase@),
            r matches PhraseSetLookupResult::Found { fst, match_state } ==> {
                &&& *fst == self.spec_fst()
                &&& if phrase@.len() > 0 && phrase@.last() is Prefix {
                    let (a, b) = phrase@.last()->Prefix_id_range;
                    match_state matches PhraseSetMatchState::EndsInPrefix(st) && st.describes(
                        *fst,
                        encode3(a as int),
                        encode3(b as int),
                    ) && st.key@ == query_key(phrase@.drop_last())
                } else {
                    match_state matches PhraseSetMatchState::EndsInFullWord { node, key, .. } && key@ == query_key(phrase@)
                        && (phrase@.len() > 0 ==> live(node_lang(*fst, node)))
                }
            },
    {
        let f = &self.fst;
        let ghost entries = fst_entries(*f);
        let mut node = fst_root(f);
        let mut output: u64 = 0;
        let mut i: usize = 0;
        proof {
            lemma_shifted_refl(entries);
            assert(phrase@.take(0) =~= Seq::<QueryWord>::empty());
        }
        while i < phrase.len()
            invariant
                i <= phrase@.len(),
                forall|j: int| 0 <= j < phrase@.len() - 1 ==> (#[trigger] phrase@[j]) is Full,
                f == &self.fst,
                entries == fst_entries(*f),
                reached(*f, query_key(phrase@.take(i as int)), node, output),
                i > 0 ==> live(node_lang(*f, node)),
                all_full(phrase@.take(i as int)),
            decreases phrase@.len() - i,
        {
            let ghost k = query_key(phrase@.take(i as int));
            match &phrase[i] {
                QueryWord::Full { .. } => {
                    let key = phrase[i].key();
                    match walk(f, node, key.as_slice()) {
                        None => {
                            proof {
                                if lookup_found(entries, phrase@) {
                                    assert(phrase@.take(i + 1).drop_last() == phrase@.take(i as int));
                                    assert(phrase@.take(i + 1).last() == phrase@[i as int]);
                                    assert(query_key(phrase@.take(i + 1)) == k + key@);
                                    if phrase@.len() > 0 && phrase@.last() is Prefix {
                                        let (a, b) = phrase@.last()->Prefix_id_range;
                                        let w = choose|w: Seq<u8>| #[trigger] word_in(entries, query_key(phrase@.drop_last()), encode3(a as int), encode3(b as int), w);
                                        assert(i + 1 <= phrase@.len() - 1);
                                        assert(phrase@.drop_last().take(i + 1) == phrase@.take(i + 1));
                                        lemma_key_prefix_path(entries, phrase@.drop_last(), i + 1, w);
                                    } else {
                                        assert(query_key(phrase@) + Seq::<u8>::empty() =~= query_key(phrase@));
                                        lemma_key_prefix_path(entries, phrase@, i + 1, Seq::empty());
                                    }
                                    lemma_path_shift(entries, k, node_lang(*f, node), output as int, key@);
                                }
                            }
                            return PhraseSetLookupResult::NotFound;
                        },
                        Some((t, o)) => {
                            proof {
                                lemma_reach_more(*f, k, node, output, key@, t, o);
                                assert(phrase@.take(i + 1).drop_last() == phrase@.take(i as int));
                                assert(all_full(phrase@.take(i + 1)));
                            }
                            node = t;
                            output = output + o;
                        },
                    }
                },
                QueryWord::Prefix { id_range } => {
                    let lo = three_byte_encode(id_range.0 as u64);
                    let hi = three_byte_encode(id_range.1 as u64);
                    assert(i == phrase@.len() - 1);
                    assert(phrase@.take(i as int) == phrase@.drop_last());
                    let res = matches_prefix_range(f, node, output, Ghost(k), lo.as_slice(), hi.as_slice());
                    match res {
                        Some(st) => {
                            return PhraseSetLookupResult::Found {
                                fst: f,
                                match_state: PhraseSetMatchState::EndsInPrefix(st),
                            };
                        },
                        None => {
                            return PhraseSetLookupResult::NotFound;
                        },
                    }
                },
            }
            i = i + 1;
        }
        proof {
            assert(phrase@.take(i as int) == phrase@);
            if phrase@.len() > 0 {
                lemma_path_of_shift(entries, query_key(phrase@), node_lang(*f, node), output as int);
            }
        }
        PhraseSetLookupResult::Found {
            fst: f,
            match_state: PhraseSetMatchState::EndsInFullWord { node, output, key: Ghost(query_key(phrase@)) },
        }
    }

    /// Whether the full words of `phrase` form a phrase of the set; a word
    /// range is refused.
    pub fn contains(&self, phrase: &QueryPhrase) -> (r: Result<bool, PhraseSetError>)
        requires
            self.wf(),
        ensures
            all_full(phrase.words@) ==> r == Ok::<bool, PhraseSetError>(
                self.entries().contains_key(query_key(phrase.words@)),
            ),
            !all_full(phrase.words@) ==> r == Err::<bool, PhraseSetError>(PhraseSetError::QueryShape),
    {
        let words = phrase.words.as_slice();
        let mut i: usize = 0;
        while i < words.len()
            invariant
                i <= words@.len(),
                words@ == phrase.words@,
                forall|j: int| 0 <= j < i ==> (#[trigger] words@[j]) is Full,
            decreases words@.len() - i,
        {
            if words[i].is_prefix() {
                return Err(PhraseSetError::QueryShape);
            }
            i = i + 1;
        }
        let key = query_words_key(words);
        let root = fst_root(&self.fst);
        match walk(&self.fst, root, key.as_slice()) {
            None => {
                proof {
                    assert(key@ + Seq::<u8>::empty() =~= key@);
                }
                Ok(false)
            },
            Some((t, _)) => {
                proof {
                    assert(key@ + Seq::<u8>::empty() =~= key@);
                }
                Ok(node_is_final(&self.fst, t))
            },
        }
    }

    /// Whether the words of `phrase` start some phrase of the set, a trailing
    /// word range standing for any word key within it.
    pub fn contains_prefix(&self, phrase: &QueryPhrase) -> (r: bool)
        requires
            self.wf(),
            phrase.wf(),
        ensures
            r == lookup_found(self.entries(), phrase.words@),
    {
        self.lookup(phrase.words.as_slice()).found()
    }
}

/// A phrase key that starts a key of `entries` has its word-aligned prefixes
/// start keys too.
proof fn lemma_key_prefix_path(entries: Map<Seq<u8>, u64>, words: Seq<QueryWord>, n: int, w: Seq<u8>)
    requires
        0 <= n <= words.len(),
        has_path(entries, query_key(words) + w),
    ensures
        has_path(entries, query_key(words.take(n))),
    decreases words.len(),
{
    if n < words.len() {
        let front = words.drop_last();
        let e = encode3(words.last()->Full_id as int);
        assert(query_key(words) + w =~= query_key(front) + (e + w));
        assert(front.take(n) == words.take(n));
        lemma_key_prefix_path(entries, front, n, e + w);
    } else {
        assert(words.take(n) == words);
        let s = choose|s: Seq<u8>| #[trigger] entries.contains_key((query_key(words) + w) + s);
        assert((query_key(words) + w) + s =~= query_key(words) + (w + s));
    }
}

/// Builds a phrase set in memory from phrases inserted in key order; the id
/// of each phrase is the number of phrases inserted before it.
pub struct PhraseSetBuilder {
    builder: Builder<Vec<u8>>,
    count: u64,
}

impl PhraseSetBuilder {
    /// The phrase keys inserted so far, with their ids.
    pub closed spec fn entries(&self) -> Map<Seq<u8>, u64> {
        builder_entries(self.builder)
    }

    /// The number of phrases inserted so far.
    pub closed spec fn count(&self) -> u64 {
        self.count
    }

    pub open spec fn wf(&self) -> bool {
        &&& ordered(self.entries())
        &&& forall|k: Seq<u8>| #[trigger] self.entries().contains_key(k) ==> self.entries()[k] < self.count()
    }

    pub fn memory() -> (r: PhraseSetBuilder)
        ensures
            r.wf(),
            r.entries().dom() == Set::<Seq<u8>>::empty(),
            r.count() == 0,
    {
        PhraseSetBuilder { builder: builder_memory(), count: 0 }
    }

    /// Inserts a phrase of word ids; it must come after every phrase
    /// inserted before it in key order.
    pub fn insert(&mut self, phrase: &[u32]) -> (r: Result<(), PhraseSetError>)
        requires
            old(self).wf(),
            forall|i: int| 0 <= i < phrase@.len() ==> (#[trigger] phrase@[i]) < WORD_ID_LIMIT,
            old(self).count() < u64::MAX,
        ensures
            final(self).wf(),
            r is Ok <==> (forall|k: Seq<u8>|
                #[trigger] old(self).entries().contains_key(k) ==> bytes_lt(k, words_key(phrase@))),
            r is Ok ==> final(self).entries() == old(self).entries().insert(words_key(phrase@), old(self).count())
                && final(self).count() == old(self).count() + 1,
            r is Err ==> r == Err::<(), PhraseSetError>(PhraseSetError::BuildOrder) && final(self).entries()
                == old(self).entries() && final(self).count() == old(self).count(),
    {
        let key = word_ids_to_key(phrase);
        let ghost before = builder_entries(self.builder);
        match builder_insert(&mut self.builder, key.as_slice(), self.count) {
            Ok(()) => {
                proof {
                    let after = builder_entries(self.builder);
                    assert forall|a: Seq<u8>, b: Seq<u8>|
                        #[trigger] after.contains_key(a) && #[trigger] after.contains_key(b) && bytes_lt(a, b)
                            implies after[a] < after[b] by {
                        if a == key@ {
                            if b != key@ {
                                lemma_bytes_lt_trans(b, a, b);
                                lemma_bytes_lt_irrefl(b);
                            } else {
                                lemma_bytes_lt_irrefl(a);
                            }
                        }
                    }
                }
                self.count = self.count + 1;
                Ok(())
            },
            Err(_) => Err(PhraseSetError::BuildOrder),
        }
    }

    /// The phrase set holding the inserted phrases.
    pub fn finish(self) -> (r: PhraseSet)
        ensures
            r.wf(),
            r.entries() == self.entries(),
            self.wf() ==> ordered(r.entries()),
    {
        PhraseSet { fst: builder_into_fst(self.builder) }
    }

    /// The bytes of the finished phrase set.
    pub fn into_inner(self) -> (r: Vec<u8>)
        ensures
            exists|g: Fst<Vec<u8>>|
                fst_checked(g) && fst_entries(g) == self.entries() && r@ == #[trigger] fst_bytes(g),
    {
        let ghost e = self.entries();
        let set = self.finish();
        let r = set.as_bytes();
        proof {
            assert(fst_checked(set.spec_fst()) && fst_entries(set.spec_fst()) == e && r@ == fst_bytes(set.spec_fst()));
        }
        r
    }
}

/// The total edit distance of a sequence of query words.
pub open spec fn cost_of(words: Seq<QueryWord>) -> int
    decreases words.len(),
{
    if words.len() == 0 {
        0
    } else {
        cost_of(words.drop_last()) + words.last().cost()
    }
}

/// `w` may be taken from `cands` with `r` of the budget left: it stands at
/// some place of `cands`, and no full word up to that place costs more than `r`.
pub open spec fn admitted(cands: Seq<QueryWord>, r: int, w: QueryWord) -> bool {
    exists|j: int|
        0 <= j < cands.len() && cands[j] == w && forall|k: int| 0 <= k <= j ==> (#[trigger] cands[k]).cost() <= r
}

/// Positions `from..c.len()` of `c` are full words taken from `poss` within
/// the budget.
#[verifier::opaque]
pub open spec fn chosen_from(poss: Seq<Seq<QueryWord>>, budget: int, c: Seq<QueryWord>, from: int) -> bool {
    forall|i: int|
        from <= i < c.len() ==> (#[trigger] c[i]) is Full && admitted(poss[i], budget - cost_of(c.take(i)), c[i])
}

/// A combination that `match_combinations` returns: one full word for each
/// position, within the budget, forming a phrase of the set.
pub open spec fn exact_combination(
    entries: Map<Seq<u8>, u64>,
    poss: Seq<Seq<QueryWord>>,
    budget: int,
    c: Seq<QueryWord>,
) -> bool {
    &&& c.len() == poss.len()
    &&& chosen_from(poss, budget, c, 0)
    &&& entries.contains_key(query_key(c))
}

/// `c` is an exact combination that extends `so_far` by a word taken from
/// place below `j` of the candidates at `position`, with `r` of the budget left.
#[verifier::opaque]
pub open spec fn made_by(
    entries: Map<Seq<u8>, u64>,
    poss: Seq<Seq<QueryWord>>,
    budget: int,
    so_far: Seq<QueryWord>,
    position: int,
    r: int,
    c: Seq<QueryWord>,
    j: int,
) -> bool {
    &&& c.take(position) == so_far
    &&& exact_combination(entries, poss, budget, c)
    &&& exists|jj: int|
        0 <= jj < j && poss[position][jj] == c[position] && forall|k: int|
            0 <= k <= jj ==> (#[trigger] poss[position][k]).cost() <= r
}

/// The values of a sequence of vectors.
pub open spec fn vec_views(v: Seq<Vec<QueryWord>>) -> Seq<Seq<QueryWord>> {
    v.map_values(|x: Vec<QueryWord>| x@)
}

/// Some position holds a word range.
pub open spec fn any_prefix(poss: Seq<Seq<QueryWord>>) -> bool {
    exists|i: int, j: int| 0 <= i < poss.len() && 0 <= j < poss[i].len() && (#[trigger] poss[i][j]) is Prefix
}

/// The views of the possibilities.
pub open spec fn poss_view(poss: Seq<Vec<QueryWord>>) -> Seq<Seq<QueryWord>> {
    poss.map_values(|x: Vec<QueryWord>| x@)
}

/// Finds whether any candidate is a word range.
fn has_prefix_candidate(poss: &[Vec<QueryWord>]) -> (r: bool)
    ensures
        r == any_prefix(poss_view(poss@)),
{
    let mut i: usize = 0;
    while i < poss.len()
        invariant
            i <= poss@.len(),
            forall|a: int, b: int| 0 <= a < i && 0 <= b < poss@[a]@.len() ==> !(#[trigger] poss@[a]@[b] is Prefix),
        decreases poss@.len() - i,
    {
        let cands = &poss[i];
        let mut j: usize = 0;
        while j < cands.len()
            invariant
                i < poss@.len(),
                cands == &poss@[i as int],
                j <= cands@.len(),
                forall|a: int, b: int| 0 <= a < i && 0 <= b < poss@[a]@.len() ==> !(#[trigger] poss@[a]@[b] is Prefix),
                forall|b: int| 0 <= b < j ==> !(#[trigger] cands@[b] is Prefix),
            decreases cands@.len() - j,
        {
            if cands[j].is_prefix() {
                proof {
                    assert(poss_view(poss@)[i as int][j as int] is Prefix);
                }
                return true;
            }
            j = j + 1;
        }
        i = i + 1;
    }
    proof {
        assert forall|a: int, b: int| 0 <= a < poss_view(poss@).len() && 0 <= b < poss_view(poss@)[a].len() implies !(#[trigger] poss_view(poss@)[a][b] is Prefix) by {
            assert(poss_view(poss@)[a] == poss@[a]@);
        }
    }
    false
}

impl PhraseSet {
    /// Every combination of one full word per position, taken from the
    /// candidates in order while their edit distances fit the budget left,
    /// that forms a phrase of the set. Candidates should be sorted by edit
    /// distance: the first one over the budget ends its position.
    pub fn match_combinations(&self, word_possibilities: &[Vec<QueryWord>], max_phrase_dist: u8) -> (r: Result<
        Vec<Vec<QueryWord>>,
        PhraseSetError,
    >)
        requires
            self.wf(),
        ensures
            any_prefix(poss_view(word_possibilities@)) ==> r == Err::<Vec<Vec<QueryWord>>, PhraseSetError>(
                PhraseSetError::QueryShape,
            ),
            !any_prefix(poss_view(word_possibilities@)) ==> r is Ok,
            r matches Ok(out) ==> vec_views(out@) == exact_list(
                self.entries(),
                poss_view(word_possibilities@),
                max_phrase_dist as int,
                Seq::empty(),
                0,
            ),
            r matches Ok(out) ==> forall|c: Seq<QueryWord>|
                #[trigger] vec_views(out@).contains(c) <==> word_possibilities@.len() > 0 && exact_combination(
                    self.entries(),
                    poss_view(word_possibilities@),
                    max_phrase_dist as int,
                    c,
                ),
    {
        if has_prefix_candidate(word_possibilities) {
            return Err(PhraseSetError::QueryShape);
        }
        let mut out: Vec<Vec<QueryWord>> = Vec::new();
        if word_possibilities.len() == 0 {
            proof {
                assert forall|c: Seq<QueryWord>| !(#[trigger] vec_views(out@).contains(c)) by {
                }
            }
            return Ok(out);
        }
        let root = fst_root(&self.fst);
        proof {
            lemma_shifted_refl(fst_entries(self.fst));
            assert(query_key(Seq::<QueryWord>::empty()) == Seq::<u8>::empty());
            reveal(chosen_from);
        }
        self.exact_recurse(word_possibilities, 0, root, Ghost(0), max_phrase_dist, Ghost(max_phrase_dist as int), Vec::new(), &mut out);
        proof {
            assert forall|c: Seq<QueryWord>| #[trigger] vec_views(out@).contains(c) <==> exact_combination(
                self.entries(),
                poss_view(word_possibilities@),
                max_phrase_dist as int,
                c,
            ) by {
                assert(c.take(0) =~= Seq::<QueryWord>::empty());
                reveal(exact_ext);
            }
        }
        Ok(out)
    }

    fn exact_recurse(
        &self,
        possibilities: &[Vec<QueryWord>],
        position: usize,
        node: usize,
        output: Ghost<u64>,
        budget_remaining: u8,
        budget: Ghost<int>,
        so_far: Vec<QueryWord>,
        out: &mut Vec<Vec<QueryWord>>,
    )
        requires
            !any_prefix(poss_view(possibilities@)),
            position < possibilities@.len(),
            so_far@.len() == position,
            chosen_from(poss_view(possibilities@), budget@, so_far@, 0),
            budget_remaining == budget@ - cost_of(so_far@),
            reached(self.fst, query_key(so_far@), node, output@),
        ensures
            forall|c: Seq<QueryWord>|
                #[trigger] vec_views(final(out)@).contains(c) <==> vec_views(old(out)@).contains(c)
                    || exact_ext(self.entries(), poss_view(possibilities@), budget@, so_far@, c),
            vec_views(final(out)@) == vec_views(old(out)@) + exact_list(
                self.entries(),
                poss_view(possibilities@),
                budget@,
                so_far@,
                position as int,
            ),
        decreases possibilities@.len() - position,
    {
        let ghost poss = poss_view(possibilities@);
        let ghost entries = fst_entries(self.fst);
        let ghost out0 = vec_views(out@);
        let ghost r = budget_remaining as int;
        let cands = &possibilities[position];
        assert(poss[position as int] == cands@);
        let mut j: usize = 0;
        let mut stop = false;
        proof {
            reveal(made_by);
        }
        while j < cands.len() && !stop
            invariant
                j <= cands@.len(),
                stop ==> j < cands@.len(),
                stop ==> forall|c: Seq<QueryWord>|
                    #[trigger] made_by(entries, poss, budget@, so_far@, position as int, r, c, cands@.len() as int)
                        ==> made_by(entries, poss, budget@, so_far@, position as int, r, c, j as int),
                cands@ == poss[position as int],
                poss == poss_view(possibilities@),
                !any_prefix(poss),
                entries == fst_entries(self.fst),
                position < possibilities@.len(),
                so_far@.len() == position,
                chosen_from(poss, budget@, so_far@, 0),
                budget_remaining == budget@ - cost_of(so_far@),
                r == budget_remaining as int,
                reached(self.fst, query_key(so_far@), node, output@),
                forall|k: int| 0 <= k < j ==> (#[trigger] cands@[k]).cost() <= r,
                stop ==> cands@[j as int].cost() > r,
                vec_views(out@) == out0 + exact_upto(entries, poss, budget@, so_far@, position as int, j as int),
                forall|c: Seq<QueryWord>|
                    #[trigger] vec_views(out@).contains(c) <==> out0.contains(c) || made_by(
                        entries,
                        poss,
                        budget@,
                        so_far@,
                        position as int,
                        r,
                        c,
                        j as int,
                    ),
            decreases cands@.len() - j + (if stop { 0int } else { 1int }),
        {
            let word = cands[j];
            assert(!(poss[position as int][j as int] is Prefix));
            let edit_distance = match word {
                QueryWord::Full { edit_distance, .. } => edit_distance,
                QueryWord::Prefix { .. } => 0,
            };
            if edit_distance > budget_remaining {
                proof {
                    assert forall|c: Seq<QueryWord>|
                        #[trigger] made_by(entries, poss, budget@, so_far@, position as int, r, c, cands@.len() as int)
                            implies made_by(entries, poss, budget@, so_far@, position as int, r, c, j as int) by {
                        lemma_made_break(entries, poss, budget@, so_far@, position as int, r, c, j as int);
                    }
                }
                stop = true;
            } else {
            let key = word.key();
            let mut child = so_far.clone();
            child.push(word);
            let ghost before = vec_views(out@);
            proof {
                assert(child@ =~= so_far@.push(word));
                lemma_child_chosen(poss, budget@, so_far@, position as int, r, j as int);
                assert forall|c: Seq<QueryWord>|
                    #[trigger] made_by(entries, poss, budget@, so_far@, position as int, r, c, j + 1) <==> made_by(
                        entries,
                        poss,
                        budget@,
                        so_far@,
                        position as int,
                        r,
                        c,
                        j as int,
                    ) || exact_ext(entries, poss, budget@, child@, c) by {
                    lemma_made_step(entries, poss, budget@, so_far@, position as int, r, c, j as int);
                }
            }
            match walk(&self.fst, node, key.as_slice()) {
                None => {
                    proof {
                        lemma_query_key_push(so_far@, word);
                        lemma_path_shift(entries, query_key(so_far@), node_lang(self.fst, node), output@ as int, key@);
                        assert forall|c: Seq<QueryWord>| !#[trigger] exact_ext(entries, poss, budget@, child@, c) by {
                            if exact_ext(entries, poss, budget@, child@, c) {
                                lemma_ext_needs_path(entries, poss, budget@, child@, c);
                            }
                        }
                        assert(cands@[j as int] == word);
                        assert(exact_item(entries, poss, budget@, so_far@, position as int, j as int) =~= Seq::<Seq<QueryWord>>::empty());
                        assert(vec_views(out@) =~= out0 + exact_upto(entries, poss, budget@, so_far@, position as int, j + 1));
                    }
                },
                Some((t, o)) => {
                    proof {
                        lemma_query_key_push(so_far@, word);
                        lemma_reach_more(self.fst, query_key(so_far@), node, output@, key@, t, o);
                        lemma_cost_push(so_far@, word);
                        lemma_path_of_shift(entries, query_key(child@), node_lang(self.fst, t), (output@ + o) as int);
                        assert(cands@[j as int] == word);
                    }
                    let ghost mid = vec_views(out@);
                    if position < possibilities.len() - 1 {
                        self.exact_recurse(
                            possibilities,
                            position + 1,
                            t,
                            Ghost((output@ + o) as u64),
                            budget_remaining - edit_distance,
                            budget,
                            child,
                            out,
                        );
                        proof {
                            assert(exact_upto(entries, poss, budget@, so_far@, position as int, j + 1) == exact_upto(entries, poss, budget@, so_far@, position as int, j as int) + exact_item(entries, poss, budget@, so_far@, position as int, j as int));
                            assert(so_far@.push(poss[position as int][j as int]) == child@);
                            assert(exact_item(entries, poss, budget@, so_far@, position as int, j as int) == exact_list(entries, poss, budget@, child@, position + 1));
                            assert(vec_views(out@) =~= out0 + exact_upto(entries, poss, budget@, so_far@, position as int, j + 1));
                        }
                    } else {
                        let fin = node_is_final(&self.fst, t);
                        proof {
                            assert(query_key(child@) + Seq::<u8>::empty() =~= query_key(child@));
                            assert forall|c: Seq<QueryWord>|
                                #[trigger] exact_ext(entries, poss, budget@, child@, c) <==> (c == child@ && fin) by {
                                lemma_ext_full(entries, poss, budget@, child@, c);
                            }
                        }
                        if fin {
                            let ghost out_before = out@;
                            let ghost cv = child@;
                            out.push(child);
                            proof {
                                assert(out@.drop_last() =~= out_before);
                                lemma_views_push(before, out@);
                                assert(vec_views(out@) =~= mid.push(cv));
                            }
                        }
                        proof {
                            assert(fin == entries.contains_key(query_key(child@)));
                            assert(exact_upto(entries, poss, budget@, so_far@, position as int, j + 1) == exact_upto(entries, poss, budget@, so_far@, position as int, j as int) + exact_item(entries, poss, budget@, so_far@, position as int, j as int));
                            assert(so_far@.push(poss[position as int][j as int]) == child@);
                            if fin {
                                assert(exact_item(entries, poss, budget@, so_far@, position as int, j as int) == seq![child@]);
                            } else {
                                assert(exact_item(entries, poss, budget@, so_far@, position as int, j as int) == Seq::<Seq<QueryWord>>::empty());
                            }
                            assert(vec_views(out@) =~= out0 + exact_upto(entries, poss, budget@, so_far@, position as int, j + 1));
                        }
                    }
                },
            }
            j = j + 1;
            }
        }
        proof {
            assert forall|c: Seq<QueryWord>|
                #[trigger] exact_ext(entries, poss, budget@, so_far@, c) <==> made_by(
                    entries,
                    poss,
                    budget@,
                    so_far@,
                    position as int,
                    r,
                    c,
                    j as int,
                ) by {
                lemma_made_all(entries, poss, budget@, so_far@, position as int, r, c);
                reveal(made_by);
                reveal(exact_ext);
            }
            lemma_cut(cands@, r, j as int);
        }
    }
}

/// How many leading candidates cost at most `r`: a position's candidates
/// are tried in order up to the first that costs more.
pub open spec fn cut(cands: Seq<QueryWord>, r: int) -> nat
    decreases cands.len(),
{
    if cands.len() == 0 {
        0
    } else if cands[0].cost() > r {
        0
    } else {
        1 + cut(cands.drop_first(), r)
    }
}

proof fn lemma_cut(cands: Seq<QueryWord>, r: int, j: int)
    requires
        0 <= j <= cands.len(),
        forall|k: int| 0 <= k < j ==> (#[trigger] cands[k]).cost() <= r,
        j == cands.len() || cands[j].cost() > r,
    ensures
        cut(cands, r) == j,
    decreases cands.len(),
{
    if cands.len() > 0 && j > 0 {
        let rest = cands.drop_first();
        assert forall|k: int| 0 <= k < j - 1 implies (#[trigger] rest[k]).cost() <= r by {
            assert(rest[k] == cands[k + 1]);
        }
        if j < cands.len() {
            assert(rest[j - 1] == cands[j]);
        }
        lemma_cut(rest, r, j - 1);
        assert(cands[0].cost() <= r);
    }
}

/// The combinations that `match_combinations` lists from position `pos` on
/// after `so_far`, in its order: candidates by place, the first over the
/// budget ending the position, each completion of a candidate's walk before
/// the next candidate.
pub open spec fn exact_list(
    entries: Map<Seq<u8>, u64>,
    poss: Seq<Seq<QueryWord>>,
    budget: int,
    so_far: Seq<QueryWord>,
    pos: int,
) -> Seq<Seq<QueryWord>>
    decreases poss.len() - pos, cut(poss[pos], budget - cost_of(so_far)) + 1,
{
    if pos < 0 || pos >= poss.len() {
        Seq::empty()
    } else {
        exact_upto(entries, poss, budget, so_far, pos, cut(poss[pos], budget - cost_of(so_far)) as int)
    }
}

/// What the first `j` candidates at `pos` contribute, in order.
pub open spec fn exact_upto(
    entries: Map<Seq<u8>, u64>,
    poss: Seq<Seq<QueryWord>>,
    budget: int,
    so_far: Seq<QueryWord>,
    pos: int,
    j: int,
) -> Seq<Seq<QueryWord>>
    decreases poss.len() - pos, j,
{
    if j <= 0 || pos < 0 || pos >= poss.len() {
        Seq::empty()
    } else {
        exact_upto(entries, poss, budget, so_far, pos, j - 1) + exact_item(entries, poss, budget, so_far, pos, j - 1)
    }
}

/// What candidate `j` at `pos` contributes: nothing where no phrase starts
/// with it, else the phrase itself at the last position, else what follows.
pub open spec fn exact_item(
    entries: Map<Seq<u8>, u64>,
    poss: Seq<Seq<QueryWord>>,
    budget: int,
    so_far: Seq<QueryWord>,
    pos: int,
    j: int,
) -> Seq<Seq<QueryWord>>
    decreases poss.len() - pos, j,
{
    if pos < 0 || pos >= poss.len() || j < 0 || j >= poss[pos].len() {
        Seq::empty()
    } else {
        let child = so_far.push(poss[pos][j]);
        if !has_path(entries, query_key(child)) {
            Seq::empty()
        } else if pos + 1 >= poss.len() {
            if entries.contains_key(query_key(child)) {
                seq![child]
            } else {
                Seq::empty()
            }
        } else {
            exact_list(entries, poss, budget, child, pos + 1)
        }
    }
}

/// The combinations that `match_combinations_as_prefixes` lists from
/// position `pos` on after `so_far`, in its order.
pub open spec fn prefix_list(
    entries: Map<Seq<u8>, u64>,
    poss: Seq<Seq<QueryWord>>,
    budget: int,
    so_far: Seq<QueryWord>,
    pos: int,
) -> Seq<Seq<QueryWord>>
    decreases poss.len() - pos, cut(poss[pos], budget - cost_of(so_far)) + 1,
{
    if pos < 0 || pos >= poss.len() {
        Seq::empty()
    } else {
        prefix_upto(entries, poss, budget, so_far, pos, cut(poss[pos], budget - cost_of(so_far)) as int)
    }
}

/// What the first `j` candidates at `pos` contribute, in order.
pub open spec fn prefix_upto(
    entries: Map<Seq<u8>, u64>,
    poss: Seq<Seq<QueryWord>>,
    budget: int,
    so_far: Seq<QueryWord>,
    pos: int,
    j: int,
) -> Seq<Seq<QueryWord>>
    decreases poss.len() - pos, j,
{
    if j <= 0 || pos < 0 || pos >= poss.len() {
        Seq::empty()
    } else {
        prefix_upto(entries, poss, budget, so_far, pos, j - 1) + prefix_item(entries, poss, budget, so_far, pos, j - 1)
    }
}

/// What candidate `j` at `pos` contributes: a full word that starts a
/// phrase gives itself at the last position and what follows elsewhere; a
/// word range gives itself when a word key within it continues the words
/// before it.
pub open spec fn prefix_item(
    entries: Map<Seq<u8>, u64>,
    poss: Seq<Seq<QueryWord>>,
    budget: int,
    so_far: Seq<QueryWord>,
    pos: int,
    j: int,
) -> Seq<Seq<QueryWord>>
    decreases poss.len() - pos, j,
{
    if pos < 0 || pos >= poss.len() || j < 0 || j >= poss[pos].len() {
        Seq::empty()
    } else {
        let child = so_far.push(poss[pos][j]);
        match poss[pos][j] {
            QueryWord::Full { .. } => if !has_path(entries, query_key(child)) {
                Seq::empty()
            } else if pos + 1 >= poss.len() {
                seq![child]
            } else {
                prefix_list(entries, poss, budget, child, pos + 1)
            },
            QueryWord::Prefix { id_range } => if exists|w: Seq<u8>|
                #[trigger] word_in(
                    entries,
                    query_key(so_far),
                    encode3(id_range.0 as int),
                    encode3(id_range.1 as int),
                    w,
                ) {
                seq![child]
            } else {
                Seq::empty()
            },
        }
    }
}

/// The windows that `match_combinations_as_windows` lists from position
/// `pos` on after `so_far`, in its order.
pub open spec fn window_list(
    entries: Map<Seq<u8>, u64>,
    poss: Seq<Seq<QueryWord>>,
    budget: int,
    eip: bool,
    so_far: Seq<QueryWord>,
    pos: int,
) -> Seq<(Seq<QueryWord>, bool)>
    decreases poss.len() - pos, cut(poss[pos], budget - cost_of(so_far)) + 1,
{
    if pos < 0 || pos >= poss.len() {
        Seq::empty()
    } else {
        window_upto(entries, poss, budget, eip, so_far, pos, cut(poss[pos], budget - cost_of(so_far)) as int)
    }
}

/// What the first `j` candidates at `pos` contribute, in order.
pub open spec fn window_upto(
    entries: Map<Seq<u8>, u64>,
    poss: Seq<Seq<QueryWord>>,
    budget: int,
    eip: bool,
    so_far: Seq<QueryWord>,
    pos: int,
    j: int,
) -> Seq<(Seq<QueryWord>, bool)>
    decreases poss.len() - pos, j,
{
    if j <= 0 || pos < 0 || pos >= poss.len() {
        Seq::empty()
    } else {
        window_upto(entries, poss, budget, eip, so_far, pos, j - 1) + window_item(entries, poss, budget, eip, so_far, pos, j - 1)
    }
}

/// What candidate `j` at `pos` contributes: a full word that starts a
/// phrase gives itself (tagged `false`) where it completes one before the
/// last position, then what follows; at the last position itself, tagged
/// `eip`, where it completes a phrase or `eip`; a word range gives itself
/// tagged `eip` when a word key within it continues the words before it.
pub open spec fn window_item(
    entries: Map<Seq<u8>, u64>,
    poss: Seq<Seq<QueryWord>>,
    budget: int,
    eip: bool,
    so_far: Seq<QueryWord>,
    pos: int,
    j: int,
) -> Seq<(Seq<QueryWord>, bool)>
    decreases poss.len() - pos, j,
{
    if pos < 0 || pos >= poss.len() || j < 0 || j >= poss[pos].len() {
        Seq::empty()
    } else {
        let child = so_far.push(poss[pos][j]);
        match poss[pos][j] {
            QueryWord::Full { .. } => if !has_path(entries, query_key(child)) {
                Seq::empty()
            } else if pos + 1 >= poss.len() {
                if entries.contains_key(query_key(child)) || eip {
                    seq![(child, eip)]
                } else {
                    Seq::empty()
                }
            } else {
                (if entries.contains_key(query_key(child)) {
                    seq![(child, false)]
                } else {
                    Seq::empty()
                }) + window_list(entries, poss, budget, eip, child, pos + 1)
            },
            QueryWord::Prefix { id_range } => if exists|w: Seq<u8>|
                #[trigger] word_in(
                    entries,
                    query_key(so_far),
                    encode3(id_range.0 as int),
                    encode3(id_range.1 as int),
                    w,
                ) {
                seq![(child, eip)]
            } else {
                Seq::empty()
            },
        }
    }
}

/// `c` is an exact combination that starts with `prefix`.
#[verifier::opaque]
pub open spec fn exact_ext(
    entries: Map<Seq<u8>, u64>,
    poss: Seq<Seq<QueryWord>>,
    budget: int,
    prefix: Seq<QueryWord>,
    c: Seq<QueryWord>,
) -> bool {
    &&& c.take(prefix.len() as int) == prefix
    &&& exact_combination(entries, poss, budget, c)
}

proof fn lemma_made_break(
    entries: Map<Seq<u8>, u64>,
    poss: Seq<Seq<QueryWord>>,
    budget: int,
    so_far: Seq<QueryWord>,
    position: int,
    r: int,
    c: Seq<QueryWord>,
    j: int,
)
    requires
        0 <= position < poss.len(),
        0 <= j < poss[position].len(),
        poss[position][j].cost() > r,
        made_by(entries, poss, budget, so_far, position, r, c, poss[position].len() as int),
    ensures
        made_by(entries, poss, budget, so_far, position, r, c, j),
{
    reveal(made_by);
    reveal(exact_ext);
    reveal(chosen_from);
    let jj = choose|jj: int|
        0 <= jj < poss[position].len() && poss[position][jj] == c[position] && forall|k: int|
            0 <= k <= jj ==> (#[trigger] poss[position][k]).cost() <= r;
    if jj >= j {
        assert(poss[position][j].cost() <= r);
    }
}

proof fn lemma_made_step(
    entries: Map<Seq<u8>, u64>,
    poss: Seq<Seq<QueryWord>>,
    budget: int,
    so_far: Seq<QueryWord>,
    position: int,
    r: int,
    c: Seq<QueryWord>,
    j: int,
)
    requires
        0 <= position < poss.len(),
        0 <= j < poss[position].len(),
        so_far.len() == position,
        forall|k: int| 0 <= k <= j ==> (#[trigger] poss[position][k]).cost() <= r,
    ensures
        made_by(entries, poss, budget, so_far, position, r, c, j + 1) <==> made_by(
            entries,
            poss,
            budget,
            so_far,
            position,
            r,
            c,
            j,
        ) || exact_ext(entries, poss, budget, so_far.push(poss[position][j]), c),
{
    reveal(made_by);
    reveal(exact_ext);
    reveal(chosen_from);
    let w = poss[position][j];
    let child = so_far.push(w);
    if made_by(entries, poss, budget, so_far, position, r, c, j + 1) && !made_by(entries, poss, budget, so_far, position, r, c, j) {
        let jj = choose|jj: int|
            0 <= jj < j + 1 && poss[position][jj] == c[position] && forall|k: int|
                0 <= k <= jj ==> (#[trigger] poss[position][k]).cost() <= r;
        assert(jj == j);
        assert(c.take(position + 1) =~= child);
    }
    if exact_ext(entries, poss, budget, child, c) {
        assert(c.take(position + 1) == child);
        assert(c.take(position) =~= child.take(position));
        assert(child.take(position) =~= so_far);
        assert(c[position] == c.take(position + 1)[position]);
        assert(made_by(entries, poss, budget, so_far, position, r, c, j + 1));
    }
}

proof fn lemma_made_all(
    entries: Map<Seq<u8>, u64>,
    poss: Seq<Seq<QueryWord>>,
    budget: int,
    so_far: Seq<QueryWord>,
    position: int,
    r: int,
    c: Seq<QueryWord>,
)
    requires
        0 <= position < poss.len(),
        so_far.len() == position,
        r == budget - cost_of(so_far),
    ensures
        exact_ext(entries, poss, budget, so_far, c) <==> made_by(
            entries,
            poss,
            budget,
            so_far,
            position,
            r,
            c,
            poss[position].len() as int,
        ),
{
    reveal(made_by);
    reveal(exact_ext);
    reveal(chosen_from);
    if exact_ext(entries, poss, budget, so_far, c) {
        assert(c[position] is Full && admitted(poss[position], budget - cost_of(c.take(position)), c[position]));
    }
}

proof fn lemma_child_chosen(poss: Seq<Seq<QueryWord>>, budget: int, so_far: Seq<QueryWord>, position: int, r: int, j: int)
    requires
        0 <= position < poss.len(),
        0 <= j < poss[position].len(),
        so_far.len() == position,
        poss[position][j] is Full,
        chosen_from(poss, budget, so_far, 0),
        r == budget - cost_of(so_far),
        forall|k: int| 0 <= k <= j ==> (#[trigger] poss[position][k]).cost() <= r,
    ensures
        chosen_from(poss, budget, so_far.push(poss[position][j]), 0),
{
    reveal(made_by);
    reveal(exact_ext);
    reveal(chosen_from);
    let child = so_far.push(poss[position][j]);
    assert forall|i: int| 0 <= i < child.len() implies (#[trigger] child[i]) is Full && admitted(
        poss[i],
        budget - cost_of(child.take(i)),
        child[i],
    ) by {
        if i < position {
            assert(child.take(i) =~= so_far.take(i));
            assert(child[i] == so_far[i]);
        } else {
            assert(child.take(i) =~= so_far);
        }
    }
}

proof fn lemma_query_key_push(words: Seq<QueryWord>, w: QueryWord)
    ensures
        query_key(words.push(w)) == query_key(words) + encode3(w->Full_id as int),
{
    assert(words.push(w).drop_last() =~= words);
}

proof fn lemma_cost_push(words: Seq<QueryWord>, w: QueryWord)
    ensures
        cost_of(words.push(w)) == cost_of(words) + w.cost(),
{
    assert(words.push(w).drop_last() =~= words);
}

/// An exact combination that starts with `prefix` has the key of `prefix`
/// starting a key of the set.
proof fn lemma_ext_needs_path(
    entries: Map<Seq<u8>, u64>,
    poss: Seq<Seq<QueryWord>>,
    budget: int,
    prefix: Seq<QueryWord>,
    c: Seq<QueryWord>,
)
    requires
        exact_ext(entries, poss, budget, prefix, c),
        prefix.len() <= poss.len(),
    ensures
        has_path(entries, query_key(prefix)),
{
    reveal(made_by);
    reveal(exact_ext);
    reveal(chosen_from);
    assert(query_key(c) + Seq::<u8>::empty() =~= query_key(c));
    lemma_key_prefix_path(entries, c, prefix.len() as int, Seq::empty());
}

proof fn lemma_ext_full(
    entries: Map<Seq<u8>, u64>,
    poss: Seq<Seq<QueryWord>>,
    budget: int,
    child: Seq<QueryWord>,
    c: Seq<QueryWord>,
)
    requires
        child.len() == poss.len(),
        chosen_from(poss, budget, child, 0),
    ensures
        exact_ext(entries, poss, budget, child, c) <==> (c == child && entries.contains_key(query_key(child))),
{
    reveal(made_by);
    reveal(exact_ext);
    reveal(chosen_from);
    if exact_ext(entries, poss, budget, child, c) {
        assert(c =~= child);
    }
    if c == child {
        assert(c.take(child.len() as int) =~= child);
    }
}

proof fn lemma_views_push(before: Seq<Seq<QueryWord>>, after: Seq<Vec<QueryWord>>)
    requires
        after.len() > 0,
        vec_views(after.drop_last()) == before,
    ensures
        forall|c: Seq<QueryWord>|
            #[trigger] vec_views(after).contains(c) <==> before.contains(c) || c == after.last()@,
{
    assert forall|c: Seq<QueryWord>| #[trigger] vec_views(after).contains(c) <==> before.contains(c) || c == after.last()@ by {
        if vec_views(after).contains(c) {
            let i = choose|i: int| 0 <= i < vec_views(after).len() && vec_views(after)[i] == c;
            if i < before.len() {
                assert(before[i] == c);
            }
        }
        if before.contains(c) {
            let i = choose|i: int| 0 <= i < before.len() && before[i] == c;
            assert(vec_views(after)[i] == c);
        }
        if c == after.last()@ {
            assert(vec_views(after)[after.len() - 1] == c);
        }
    }
}

/// A combination that `match_combinations_as_prefixes` returns: full words
/// taken within the budget, then either a last full word at the last
/// position, the whole starting some phrase of the set, or a word range
/// whose word keys continue the full words in some phrase.
#[verifier::opaque]
pub open spec fn prefix_combination(
    entries: Map<Seq<u8>, u64>,
    poss: Seq<Seq<QueryWord>>,
    budget: int,
    c: Seq<QueryWord>,
) -> bool {
    &&& 0 < c.len() <= poss.len()
    &&& chosen_from(poss, budget, c.drop_last(), 0)
    &&& admitted(poss[c.len() - 1], budget - cost_of(c.drop_last()), c.last())
    &&& match c.last() {
        QueryWord::Full { .. } => c.len() == poss.len() && has_path(entries, query_key(c)),
        QueryWord::Prefix { id_range } => exists|w: Seq<u8>|
            #[trigger] word_in(
                entries,
                query_key(c.drop_last()),
                encode3(id_range.0 as int),
                encode3(id_range.1 as int),
                w,
            ),
    }
}

/// `c` is a prefix combination that starts with `prefix`.
#[verifier::opaque]
pub open spec fn prefix_ext(
    entries: Map<Seq<u8>, u64>,
    poss: Seq<Seq<QueryWord>>,
    budget: int,
    prefix: Seq<QueryWord>,
    c: Seq<QueryWord>,
) -> bool {
    &&& prefix.len() <= c.len()
    &&& c.take(prefix.len() as int) == prefix
    &&& prefix_combination(entries, poss, budget, c)
}

/// `c` is a prefix combination longer than `so_far` that extends it by a
/// word taken from place below `j` of the candidates at `position`.
#[verifier::opaque]
pub open spec fn made_by_p(
    entries: Map<Seq<u8>, u64>,
    poss: Seq<Seq<QueryWord>>,
    budget: int,
    so_far: Seq<QueryWord>,
    position: int,
    r: int,
    c: Seq<QueryWord>,
    j: int,
) -> bool {
    &&& c.len() > position
    &&& prefix_ext(entries, poss, budget, so_far, c)
    &&& exists|jj: int|
        0 <= jj < j && poss[position][jj] == c[position] && forall|k: int|
            0 <= k <= jj ==> (#[trigger] poss[position][k]).cost() <= r
}

proof fn lemma_made_break_p(
    entries: Map<Seq<u8>, u64>,
    poss: Seq<Seq<QueryWord>>,
    budget: int,
    so_far: Seq<QueryWord>,
    position: int,
    r: int,
    c: Seq<QueryWord>,
    j: int,
)
    requires
        0 <= position < poss.len(),
        0 <= j < poss[position].len(),
        poss[position][j].cost() > r,
        made_by_p(entries, poss, budget, so_far, position, r, c, poss[position].len() as int),
    ensures
        made_by_p(entries, poss, budget, so_far, position, r, c, j),
{
    reveal(made_by_p);
    let jj = choose|jj: int|
        0 <= jj < poss[position].len() && poss[position][jj] == c[position] && forall|k: int|
            0 <= k <= jj ==> (#[trigger] poss[position][k]).cost() <= r;
    if jj >= j {
        assert(poss[position][j].cost() <= r);
    }
}

proof fn lemma_made_step_p(
    entries: Map<Seq<u8>, u64>,
    poss: Seq<Seq<QueryWord>>,
    budget: int,
    so_far: Seq<QueryWord>,
    position: int,
    r: int,
    c: Seq<QueryWord>,
    j: int,
)
    requires
        0 <= position < poss.len(),
        0 <= j < poss[position].len(),
        so_far.len() == position,
        forall|k: int| 0 <= k <= j ==> (#[trigger] poss[position][k]).cost() <= r,
    ensures
        made_by_p(entries, poss, budget, so_far, position, r, c, j + 1) <==> made_by_p(
            entries,
            poss,
            budget,
            so_far,
            position,
            r,
            c,
            j,
        ) || prefix_ext(entries, poss, budget, so_far.push(poss[position][j]), c),
{
    reveal(made_by_p);
    reveal(prefix_ext);
    let w = poss[position][j];
    let child = so_far.push(w);
    if made_by_p(entries, poss, budget, so_far, position, r, c, j + 1) && !made_by_p(entries, poss, budget, so_far, position, r, c, j) {
        let jj = choose|jj: int|
            0 <= jj < j + 1 && poss[position][jj] == c[position] && forall|k: int|
                0 <= k <= jj ==> (#[trigger] poss[position][k]).cost() <= r;
        assert(jj == j);
        assert(c.take(position + 1) =~= child);
    }
    if prefix_ext(entries, poss, budget, child, c) {
        assert(c.take(position + 1) == child);
        assert(c.take(position) =~= child.take(position));
        assert(child.take(position) =~= so_far);
        assert(c[position] == c.take(position + 1)[position]);
        assert(made_by_p(entries, poss, budget, so_far, position, r, c, j + 1));
    }
}

proof fn lemma_made_all_p(
    entries: Map<Seq<u8>, u64>,
    poss: Seq<Seq<QueryWord>>,
    budget: int,
    so_far: Seq<QueryWord>,
    position: int,
    r: int,
    c: Seq<QueryWord>,
)
    requires
        0 <= position < poss.len(),
        so_far.len() == position,
        r == budget - cost_of(so_far),
    ensures
        (c.len() > position && prefix_ext(entries, poss, budget, so_far, c)) <==> made_by_p(
            entries,
            poss,
            budget,
            so_far,
            position,
            r,
            c,
            poss[position].len() as int,
        ),
{
    reveal(made_by_p);
    reveal(prefix_ext);
    reveal(prefix_combination);
    reveal(chosen_from);
    if c.len() > position && prefix_ext(entries, poss, budget, so_far, c) {
        if position < c.len() - 1 {
            let d = c.drop_last();
            assert(d[position] is Full && admitted(poss[position], budget - cost_of(d.take(position)), d[position]));
            assert(d.take(position) =~= c.take(position));
        } else {
            assert(c.drop_last() =~= c.take(position));
        }
    }
}

proof fn lemma_prefix_child_inner(
    entries: Map<Seq<u8>, u64>,
    poss: Seq<Seq<QueryWord>>,
    budget: int,
    child: Seq<QueryWord>,
    c: Seq<QueryWord>,
)
    requires
        0 < child.len() < poss.len(),
        child.last() is Full,
    ensures
        prefix_ext(entries, poss, budget, child, c) <==> (c.len() > child.len() && prefix_ext(
            entries,
            poss,
            budget,
            child,
            c,
        )),
{
    reveal(prefix_ext);
    reveal(prefix_combination);
    if prefix_ext(entries, poss, budget, child, c) && c.len() == child.len() {
        assert(c =~= child);
    }
}

proof fn lemma_prefix_child_leaf(
    entries: Map<Seq<u8>, u64>,
    poss: Seq<Seq<QueryWord>>,
    budget: int,
    so_far: Seq<QueryWord>,
    w: QueryWord,
    r: int,
    c: Seq<QueryWord>,
)
    requires
        so_far.len() + 1 == poss.len(),
        chosen_from(poss, budget, so_far, 0),
        admitted(poss[so_far.len() as int], budget - cost_of(so_far), w),
        w is Full,
    ensures
        prefix_ext(entries, poss, budget, so_far.push(w), c) <==> (c == so_far.push(w) && has_path(
            entries,
            query_key(so_far.push(w)),
        )),
{
    reveal(prefix_ext);
    reveal(prefix_combination);
    let child = so_far.push(w);
    assert(child.drop_last() =~= so_far);
    if prefix_ext(entries, poss, budget, child, c) {
        assert(c =~= child);
    }
    if c == child {
        assert(c.take(child.len() as int) =~= child);
    }
}

proof fn lemma_prefix_child_range(
    entries: Map<Seq<u8>, u64>,
    poss: Seq<Seq<QueryWord>>,
    budget: int,
    so_far: Seq<QueryWord>,
    w: QueryWord,
    c: Seq<QueryWord>,
)
    requires
        so_far.len() < poss.len(),
        chosen_from(poss, budget, so_far, 0),
        admitted(poss[so_far.len() as int], budget - cost_of(so_far), w),
        w is Prefix,
    ensures
        prefix_ext(entries, poss, budget, so_far.push(w), c) <==> (c == so_far.push(w) && exists|v: Seq<u8>|
            #[trigger] word_in(
                entries,
                query_key(so_far),
                encode3(w->Prefix_id_range.0 as int),
                encode3(w->Prefix_id_range.1 as int),
                v,
            )),
{
    reveal(prefix_ext);
    reveal(prefix_combination);
    reveal(chosen_from);
    let child = so_far.push(w);
    assert(child.drop_last() =~= so_far);
    if prefix_ext(entries, poss, budget, child, c) {
        if c.len() > child.len() {
            assert(c.drop_last()[so_far.len() as int] == c[so_far.len() as int]);
            assert(c.take(child.len() as int)[so_far.len() as int] == c[so_far.len() as int]);
        }
        assert(c =~= child);
    }
    if c == child {
        assert(c.take(child.len() as int) =~= child);
    }
}

proof fn lemma_prefix_needs_path(
    entries: Map<Seq<u8>, u64>,
    poss: Seq<Seq<QueryWord>>,
    budget: int,
    child: Seq<QueryWord>,
    c: Seq<QueryWord>,
)
    requires
        prefix_ext(entries, poss, budget, child, c),
        child.len() > 0,
        child.last() is Full,
    ensures
        has_path(entries, query_key(child)),
{
    reveal(prefix_ext);
    reveal(prefix_combination);
    let n = child.len() as int;
    if c.last() is Full {
        assert(query_key(c) + Seq::<u8>::empty() =~= query_key(c));
        lemma_key_prefix_path(entries, c, n, Seq::empty());
    } else {
        assert(c.take(n)[n - 1] == c[n - 1]);
        assert(c.len() > n);
        let (a, b) = c.last()->Prefix_id_range;
        let v = choose|v: Seq<u8>| #[trigger] word_in(entries, query_key(c.drop_last()), encode3(a as int), encode3(b as int), v);
        assert(c.drop_last().take(n) =~= c.take(n));
        lemma_key_prefix_path(entries, c.drop_last(), n, v);
    }
}

impl PhraseSet {
    /// Every combination of full words, one per position and taken from the
    /// candidates in order while their edit distances fit the budget left,
    /// that starts some phrase of the set; a word range among the candidates
    /// ends a combination at its position when some word key within it
    /// continues the words before it.
    pub fn match_combinations_as_prefixes(&self, word_possibilities: &[Vec<QueryWord>], max_phrase_dist: u8) -> (r:
        Result<Vec<Vec<QueryWord>>, PhraseSetError>)
        requires
            self.wf(),
        ensures
            r matches Ok(out) && vec_views(out@) == prefix_list(
                self.entries(),
                poss_view(word_possibilities@),
                max_phrase_dist as int,
                Seq::empty(),
                0,
            ),
            r matches Ok(out) && forall|c: Seq<QueryWord>|
                #[trigger] vec_views(out@).contains(c) <==> prefix_combination(
                    self.entries(),
                    poss_view(word_possibilities@),
                    max_phrase_dist as int,
                    c,
                ),
    {
        let mut out: Vec<Vec<QueryWord>> = Vec::new();
        if word_possibilities.len() == 0 {
            proof {
                reveal(prefix_combination);
                assert forall|c: Seq<QueryWord>| !(#[trigger] vec_views(out@).contains(c)) by {
                }
            }
            return Ok(out);
        }
        let root = fst_root(&self.fst);
        proof {
            lemma_shifted_refl(fst_entries(self.fst));
            assert(query_key(Seq::<QueryWord>::empty()) == Seq::<u8>::empty());
            reveal(chosen_from);
        }
        self.prefix_recurse(word_possibilities, 0, root, 0, max_phrase_dist, Ghost(max_phrase_dist as int), Vec::new(), &mut out);
        proof {
            assert forall|c: Seq<QueryWord>| #[trigger] vec_views(out@).contains(c) <==> prefix_combination(
                self.entries(),
                poss_view(word_possibilities@),
                max_phrase_dist as int,
                c,
            ) by {
                reveal(prefix_ext);
                reveal(prefix_combination);
                assert(c.take(0) =~= Seq::<QueryWord>::empty());
            }
        }
        Ok(out)
    }

    fn prefix_recurse(
        &self,
        possibilities: &[Vec<QueryWord>],
        position: usize,
        node: usize,
        output: u64,
        budget_remaining: u8,
        budget: Ghost<int>,
        so_far: Vec<QueryWord>,
        out: &mut Vec<Vec<QueryWord>>,
    )
        requires
            position < possibilities@.len(),
            so_far@.len() == position,
            chosen_from(poss_view(possibilities@), budget@, so_far@, 0),
            budget_remaining == budget@ - cost_of(so_far@),
            reached(self.fst, query_key(so_far@), node, output),
        ensures
            forall|c: Seq<QueryWord>|
                #[trigger] vec_views(final(out)@).contains(c) <==> vec_views(old(out)@).contains(c) || (c.len()
                    > position && prefix_ext(self.entries(), poss_view(possibilities@), budget@, so_far@, c)),
            vec_views(final(out)@) == vec_views(old(out)@) + prefix_list(
                self.entries(),
                poss_view(possibilities@),
                budget@,
                so_far@,
                position as int,
            ),
        decreases possibilities@.len() - position,
    {
        let ghost poss = poss_view(possibilities@);
        let ghost entries = fst_entries(self.fst);
        let ghost out0 = vec_views(out@);
        let ghost r = budget_remaining as int;
        let cands = &possibilities[position];
        assert(poss[position as int] == cands@);
        let mut j: usize = 0;
        let mut stop = false;
        proof {
            reveal(made_by_p);
        }
        while j < cands.len() && !stop
            invariant
                j <= cands@.len(),
                stop ==> j < cands@.len(),
                stop ==> forall|c: Seq<QueryWord>|
                    #[trigger] made_by_p(entries, poss, budget@, so_far@, position as int, r, c, cands@.len() as int)
                        ==> made_by_p(entries, poss, budget@, so_far@, position as int, r, c, j as int),
                cands@ == poss[position as int],
                poss == poss_view(possibilities@),
                entries == fst_entries(self.fst),
                position < possibilities@.len(),
                so_far@.len() == position,
                chosen_from(poss, budget@, so_far@, 0),
                budget_remaining == budget@ - cost_of(so_far@),
                r == budget_remaining as int,
                reached(self.fst, query_key(so_far@), node, output),
                forall|k: int| 0 <= k < j ==> (#[trigger] cands@[k]).cost() <= r,
                stop ==> cands@[j as int].cost() > r,
                vec_views(out@) == out0 + prefix_upto(entries, poss, budget@, so_far@, position as int, j as int),
                forall|c: Seq<QueryWord>|
                    #[trigger] vec_views(out@).contains(c) <==> out0.contains(c) || made_by_p(
                        entries,
                        poss,
                        budget@,
                        so_far@,
                        position as int,
                        r,
                        c,
                        j as int,
                    ),
            decreases cands@.len() - j + (if stop { 0int } else { 1int }),
        {
            let word = cands[j];
            let edit_distance = match word {
                QueryWord::Full { edit_distance, .. } => edit_distance,
                QueryWord::Prefix { .. } => 0,
            };
            if edit_distance > budget_remaining {
                proof {
                    assert forall|c: Seq<QueryWord>|
                        #[trigger] made_by_p(entries, poss, budget@, so_far@, position as int, r, c, cands@.len() as int)
                            implies made_by_p(entries, poss, budget@, so_far@, position as int, r, c, j as int) by {
                        lemma_made_break_p(entries, poss, budget@, so_far@, position as int, r, c, j as int);
                    }
                }
                stop = true;
            } else {
                let mut child = so_far.clone();
                child.push(word);
                let ghost before = vec_views(out@);
                let ghost mid = vec_views(out@);
                proof {
                    assert(child@ =~= so_far@.push(word));
                    assert(cands@[j as int] == word);
                    assert(so_far@.push(poss[position as int][j as int]) == child@);
                    assert(admitted(poss[position as int], budget@ - cost_of(so_far@), word)) by {
                        assert(cands@[j as int] == word);
                    }
                    assert forall|c: Seq<QueryWord>|
                        #[trigger] made_by_p(entries, poss, budget@, so_far@, position as int, r, c, j + 1) <==> made_by_p(
                            entries,
                            poss,
                            budget@,
                            so_far@,
                            position as int,
                            r,
                            c,
                            j as int,
                        ) || prefix_ext(entries, poss, budget@, child@, c) by {
                        lemma_made_step_p(entries, poss, budget@, so_far@, position as int, r, c, j as int);
                    }
                }
                match word {
                    QueryWord::Full { .. } => {
                        let key = word.key();
                        match walk(&self.fst, node, key.as_slice()) {
                            None => {
                                proof {
                                    lemma_query_key_push(so_far@, word);
                                    lemma_path_shift(entries, query_key(so_far@), node_lang(self.fst, node), output as int, key@);
                                    assert forall|c: Seq<QueryWord>| !#[trigger] prefix_ext(entries, poss, budget@, child@, c) by {
                                        if prefix_ext(entries, poss, budget@, child@, c) {
                                            lemma_prefix_needs_path(entries, poss, budget@, child@, c);
                                        }
                                    }
                                    assert(prefix_item(entries, poss, budget@, so_far@, position as int, j as int) =~= Seq::<Seq<QueryWord>>::empty());
                                    assert(vec_views(out@) =~= mid + prefix_item(entries, poss, budget@, so_far@, position as int, j as int));
                                }
                            },
                            Some((t, o)) => {
                                proof {
                                    lemma_query_key_push(so_far@, word);
                                    lemma_reach_more(self.fst, query_key(so_far@), node, output, key@, t, o);
                                    lemma_cost_push(so_far@, word);
                                    lemma_child_chosen(poss, budget@, so_far@, position as int, r, j as int);
                                    lemma_path_of_shift(entries, query_key(child@), node_lang(self.fst, t), (output + o) as int);
                                }
                                if position < possibilities.len() - 1 {
                                    proof {
                                        assert forall|c: Seq<QueryWord>|
                                            #[trigger] prefix_ext(entries, poss, budget@, child@, c) <==> (c.len() > position + 1
                                                && prefix_ext(entries, poss, budget@, child@, c)) by {
                                            lemma_prefix_child_inner(entries, poss, budget@, child@, c);
                                        }
                                    }
                                    self.prefix_recurse(
                                        possibilities,
                                        position + 1,
                                        t,
                                        output + o,
                                        budget_remaining - edit_distance,
                                        budget,
                                        child,
                                        out,
                                    );
                                    proof {
                                        assert(prefix_item(entries, poss, budget@, so_far@, position as int, j as int) == prefix_list(entries, poss, budget@, child@, position + 1));
                                    }
                                } else {
                                    proof {
                                        lemma_path_of_shift(entries, query_key(child@), node_lang(self.fst, t), (output + o) as int);
                                        assert forall|c: Seq<QueryWord>|
                                            #[trigger] prefix_ext(entries, poss, budget@, child@, c) <==> c == child@ by {
                                            lemma_prefix_child_leaf(entries, poss, budget@, so_far@, word, r, c);
                                        }
                                    }
                                    let ghost out_before = out@;
                                    let ghost cv = child@;
                                    out.push(child);
                                    proof {
                                        assert(out@.drop_last() =~= out_before);
                                        lemma_views_push(before, out@);
                                        assert(prefix_item(entries, poss, budget@, so_far@, position as int, j as int) == seq![cv]);
                                        assert(vec_views(out@) =~= mid.push(cv));
                                    }
                                }
                            },
                        }
                    },
                    QueryWord::Prefix { id_range } => {
                        let lo = three_byte_encode(id_range.0 as u64);
                        let hi = three_byte_encode(id_range.1 as u64);
                        let found = matches_prefix_range(
                            &self.fst,
                            node,
                            output,
                            Ghost(query_key(so_far@)),
                            lo.as_slice(),
                            hi.as_slice(),
                        );
                        proof {
                            assert forall|c: Seq<QueryWord>|
                                #[trigger] prefix_ext(entries, poss, budget@, child@, c) <==> (c == child@ && found is Some) by {
                                lemma_prefix_child_range(entries, poss, budget@, so_far@, word, c);
                                if found is Some {
                                    let st = found->Some_0;
                                    assert(word_in(entries, query_key(so_far@), lo@, hi@, st.min_word@));
                                }
                            }
                        }
                        proof {
                            if found is Some {
                                let st = found->Some_0;
                                assert(word_in(entries, query_key(so_far@), lo@, hi@, st.min_word@));
                                assert(prefix_item(entries, poss, budget@, so_far@, position as int, j as int) == seq![child@]);
                            } else {
                                assert(prefix_item(entries, poss, budget@, so_far@, position as int, j as int) == Seq::<Seq<QueryWord>>::empty());
                            }
                        }
                        if found.is_some() {
                            let ghost out_before = out@;
                            let ghost cv = child@;
                            out.push(child);
                            proof {
                                assert(out@.drop_last() =~= out_before);
                                lemma_views_push(before, out@);
                                assert(vec_views(out@) =~= mid.push(cv));
                            }
                        } else {
                            proof {
                                assert(vec_views(out@) =~= mid + prefix_item(entries, poss, budget@, so_far@, position as int, j as int));
                            }
                        }
                    },
                }
                proof {
                    assert(prefix_upto(entries, poss, budget@, so_far@, position as int, j + 1) == prefix_upto(entries, poss, budget@, so_far@, position as int, j as int) + prefix_item(entries, poss, budget@, so_far@, position as int, j as int));
                    assert(vec_views(out@) =~= out0 + prefix_upto(entries, poss, budget@, so_far@, position as int, j + 1));
                }
                j = j + 1;
            }
        }
        proof {
            assert forall|c: Seq<QueryWord>|
                #[trigger] made_by_p(entries, poss, budget@, so_far@, position as int, r, c, j as int) <==> (c.len()
                    > position && prefix_ext(entries, poss, budget@, so_far@, c)) by {
                lemma_made_all_p(entries, poss, budget@, so_far@, position as int, r, c);
                reveal(made_by_p);
            }
            lemma_cut(cands@, r, j as int);
        }
    }
}

/// A result that `match_combinations_as_windows` returns: full words taken
/// within the budget, ending
/// - at a full word before the last position, on a complete phrase, tagged `false`;
/// - at a full word at the last position, tagged `ends_in_prefix`: on a
///   complete phrase, or (with `ends_in_prefix`) on the start of one;
/// - (with `ends_in_prefix`) at a word range whose word keys continue the
///   words before it in some phrase, tagged `true`.
#[verifier::opaque]
pub open spec fn window_combination(
    entries: Map<Seq<u8>, u64>,
    poss: Seq<Seq<QueryWord>>,
    budget: int,
    ends_in_prefix: bool,
    c: Seq<QueryWord>,
    tag: bool,
) -> bool {
    &&& 0 < c.len() <= poss.len()
    &&& chosen_from(poss, budget, c.drop_last(), 0)
    &&& admitted(poss[c.len() - 1], budget - cost_of(c.drop_last()), c.last())
    &&& match c.last() {
        QueryWord::Full { .. } => if c.len() < poss.len() {
            !tag && entries.contains_key(query_key(c))
        } else {
            tag == ends_in_prefix && (entries.contains_key(query_key(c)) || (ends_in_prefix && has_path(
                entries,
                query_key(c),
            )))
        },
        QueryWord::Prefix { id_range } => tag && ends_in_prefix && exists|w: Seq<u8>|
            #[trigger] word_in(
                entries,
                query_key(c.drop_last()),
                encode3(id_range.0 as int),
                encode3(id_range.1 as int),
                w,
            ),
    }
}

#[verifier::opaque]
pub open spec fn window_ext(
    entries: Map<Seq<u8>, u64>,
    poss: Seq<Seq<QueryWord>>,
    budget: int,
    eip: bool,
    prefix: Seq<QueryWord>,
    c: Seq<QueryWord>,
    tag: bool,
) -> bool {
    &&& prefix.len() <= c.len()
    &&& c.take(prefix.len() as int) == prefix
    &&& window_combination(entries, poss, budget, eip, c, tag)
}

#[verifier::opaque]
pub open spec fn made_by_w(
    entries: Map<Seq<u8>, u64>,
    poss: Seq<Seq<QueryWord>>,
    budget: int,
    eip: bool,
    so_far: Seq<QueryWord>,
    position: int,
    r: int,
    c: Seq<QueryWord>,
    tag: bool,
    j: int,
) -> bool {
    &&& c.len() > position
    &&& window_ext(entries, poss, budget, eip, so_far, c, tag)
    &&& exists|jj: int|
        0 <= jj < j && poss[position][jj] == c[position] && forall|k: int|
            0 <= k <= jj ==> (#[trigger] poss[position][k]).cost() <= r
}

/// The values of a sequence of tagged vectors.
pub open spec fn pair_views(v: Seq<(Vec<QueryWord>, bool)>) -> Seq<(Seq<QueryWord>, bool)> {
    v.map_values(|x: (Vec<QueryWord>, bool)| (x.0@, x.1))
}

proof fn lemma_pair_views_push(before: Seq<(Seq<QueryWord>, bool)>, after: Seq<(Vec<QueryWord>, bool)>)
    requires
        after.len() > 0,
        pair_views(after.drop_last()) == before,
    ensures
        forall|c: Seq<QueryWord>, t: bool|
            #[trigger] pair_views(after).contains((c, t)) <==> before.contains((c, t)) || (c, t) == (
                after.last().0@,
                after.last().1,
            ),
{
    assert forall|c: Seq<QueryWord>, t: bool| #[trigger] pair_views(after).contains((c, t)) <==> before.contains((c, t))
        || (c, t) == (after.last().0@, after.last().1) by {
        if pair_views(after).contains((c, t)) {
            let i = choose|i: int| 0 <= i < pair_views(after).len() && pair_views(after)[i] == (c, t);
            if i < before.len() {
                assert(before[i] == (c, t));
            }
        }
        if before.contains((c, t)) {
            let i = choose|i: int| 0 <= i < before.len() && before[i] == (c, t);
            assert(pair_views(after)[i] == (c, t));
        }
        if (c, t) == (after.last().0@, after.last().1) {
            assert(pair_views(after)[after.len() - 1] == (c, t));
        }
    }
}

proof fn lemma_made_break_w(
    entries: Map<Seq<u8>, u64>,
    poss: Seq<Seq<QueryWord>>,
    budget: int,
    eip: bool,
    so_far: Seq<QueryWord>,
    position: int,
    r: int,
    c: Seq<QueryWord>,
    tag: bool,
    j: int,
)
    requires
        0 <= position < poss.len(),
        0 <= j < poss[position].len(),
        poss[position][j].cost() > r,
        made_by_w(entries, poss, budget, eip, so_far, position, r, c, tag, poss[position].len() as int),
    ensures
        made_by_w(entries, poss, budget, eip, so_far, position, r, c, tag, j),
{
    reveal(made_by_w);
    let jj = choose|jj: int|
        0 <= jj < poss[position].len() && poss[position][jj] == c[position] && forall|k: int|
            0 <= k <= jj ==> (#[trigger] poss[position][k]).cost() <= r;
    if jj >= j {
        assert(poss[position][j].cost() <= r);
    }
}

proof fn lemma_made_step_w(
    entries: Map<Seq<u8>, u64>,
    poss: Seq<Seq<QueryWord>>,
    budget: int,
    eip: bool,
    so_far: Seq<QueryWord>,
    position: int,
    r: int,
    c: Seq<QueryWord>,
    tag: bool,
    j: int,
)
    requires
        0 <= position < poss.len(),
        0 <= j < poss[position].len(),
        so_far.len() == position,
        forall|k: int| 0 <= k <= j ==> (#[trigger] poss[position][k]).cost() <= r,
    ensures
        made_by_w(entries, poss, budget, eip, so_far, position, r, c, tag, j + 1) <==> made_by_w(
            entries,
            poss,
            budget,
            eip,
            so_far,
            position,
            r,
            c,
            tag,
            j,
        ) || window_ext(entries, poss, budget, eip, so_far.push(poss[position][j]), c, tag),
{
    reveal(made_by_w);
    reveal(window_ext);
    let w = poss[position][j];
    let child = so_far.push(w);
    if made_by_w(entries, poss, budget, eip, so_far, position, r, c, tag, j + 1) && !made_by_w(
        entries,
        poss,
        budget,
        eip,
        so_far,
        position,
        r,
        c,
        tag,
        j,
    ) {
        let jj = choose|jj: int|
            0 <= jj < j + 1 && poss[position][jj] == c[position] && forall|k: int|
                0 <= k <= jj ==> (#[trigger] poss[position][k]).cost() <= r;
        assert(jj == j);
        assert(c.take(position + 1) =~= child);
    }
    if window_ext(entries, poss, budget, eip, child, c, tag) {
        assert(c.take(position + 1) == child);
        assert(c.take(position) =~= child.take(position));
        assert(child.take(position) =~= so_far);
        assert(c[position] == c.take(position + 1)[position]);
        assert(made_by_w(entries, poss, budget, eip, so_far, position, r, c, tag, j + 1));
    }
}

proof fn lemma_made_all_w(
    entries: Map<Seq<u8>, u64>,
    poss: Seq<Seq<QueryWord>>,
    budget: int,
    eip: bool,
    so_far: Seq<QueryWord>,
    position: int,
    r: int,
    c: Seq<QueryWord>,
    tag: bool,
)
    requires
        0 <= position < poss.len(),
        so_far.len() == position,
        r == budget - cost_of(so_far),
    ensures
        (c.len() > position && window_ext(entries, poss, budget, eip, so_far, c, tag)) <==> made_by_w(
            entries,
            poss,
            budget,
            eip,
            so_far,
            position,
            r,
            c,
            tag,
            poss[position].len() as int,
        ),
{
    reveal(made_by_w);
    reveal(window_ext);
    reveal(window_combination);
    reveal(chosen_from);
    if c.len() > position && window_ext(entries, poss, budget, eip, so_far, c, tag) {
        if position < c.len() - 1 {
            let d = c.drop_last();
            assert(d[position] is Full && admitted(poss[position], budget - cost_of(d.take(position)), d[position]));
            assert(d.take(position) =~= c.take(position));
        } else {
            assert(c.drop_last() =~= c.take(position));
        }
    }
}

/// After a full word before the last position: the child itself when it is
/// a complete phrase, and the longer results.
proof fn lemma_window_child_inner(
    entries: Map<Seq<u8>, u64>,
    poss: Seq<Seq<QueryWord>>,
    budget: int,
    eip: bool,
    so_far: Seq<QueryWord>,
    w: QueryWord,
    c: Seq<QueryWord>,
    tag: bool,
)
    requires
        so_far.len() + 1 < poss.len(),
        chosen_from(poss, budget, so_far, 0),
        admitted(poss[so_far.len() as int], budget - cost_of(so_far), w),
        w is Full,
    ensures
        window_ext(entries, poss, budget, eip, so_far.push(w), c, tag) <==> ((c == so_far.push(w) && !tag
            && entries.contains_key(query_key(so_far.push(w)))) || (c.len() > so_far.len() + 1 && window_ext(
            entries,
            poss,
            budget,
            eip,
            so_far.push(w),
            c,
            tag,
        ))),
{
    reveal(window_ext);
    reveal(window_combination);
    let child = so_far.push(w);
    assert(child.drop_last() =~= so_far);
    if window_ext(entries, poss, budget, eip, child, c, tag) && c.len() == child.len() {
        assert(c =~= child);
    }
    if c == child {
        assert(c.take(child.len() as int) =~= child);
    }
}

proof fn lemma_window_child_leaf(
    entries: Map<Seq<u8>, u64>,
    poss: Seq<Seq<QueryWord>>,
    budget: int,
    eip: bool,
    so_far: Seq<QueryWord>,
    w: QueryWord,
    c: Seq<QueryWord>,
    tag: bool,
)
    requires
        so_far.len() + 1 == poss.len(),
        chosen_from(poss, budget, so_far, 0),
        admitted(poss[so_far.len() as int], budget - cost_of(so_far), w),
        w is Full,
        has_path(entries, query_key(so_far.push(w))),
    ensures
        window_ext(entries, poss, budget, eip, so_far.push(w), c, tag) <==> (c == so_far.push(w) && tag == eip
            && (entries.contains_key(query_key(so_far.push(w))) || eip)),
{
    reveal(window_ext);
    reveal(window_combination);
    let child = so_far.push(w);
    assert(child.drop_last() =~= so_far);
    if window_ext(entries, poss, budget, eip, child, c, tag) {
        assert(c =~= child);
    }
    if c == child {
        assert(c.take(child.len() as int) =~= child);
    }
}

proof fn lemma_window_child_range(
    entries: Map<Seq<u8>, u64>,
    poss: Seq<Seq<QueryWord>>,
    budget: int,
    eip: bool,
    so_far: Seq<QueryWord>,
    w: QueryWord,
    c: Seq<QueryWord>,
    tag: bool,
)
    requires
        so_far.len() < poss.len(),
        chosen_from(poss, budget, so_far, 0),
        admitted(poss[so_far.len() as int], budget - cost_of(so_far), w),
        w is Prefix,
    ensures
        window_ext(entries, poss, budget, eip, so_far.push(w), c, tag) <==> (c == so_far.push(w) && tag && eip
            && exists|v: Seq<u8>|
            #[trigger] word_in(
                entries,
                query_key(so_far),
                encode3(w->Prefix_id_range.0 as int),
                encode3(w->Prefix_id_range.1 as int),
                v,
            )),
{
    reveal(window_ext);
    reveal(window_combination);
    reveal(chosen_from);
    let child = so_far.push(w);
    assert(child.drop_last() =~= so_far);
    if window_ext(entries, poss, budget, eip, child, c, tag) {
        if c.len() > child.len() {
            assert(c.drop_last()[so_far.len() as int] == c[so_far.len() as int]);
            assert(c.take(child.len() as int)[so_far.len() as int] == c[so_far.len() as int]);
        }
        assert(c =~= child);
    }
    if c == child {
        assert(c.take(child.len() as int) =~= child);
    }
}

proof fn lemma_window_needs_path(
    entries: Map<Seq<u8>, u64>,
    poss: Seq<Seq<QueryWord>>,
    budget: int,
    eip: bool,
    child: Seq<QueryWord>,
    c: Seq<QueryWord>,
    tag: bool,
)
    requires
        window_ext(entries, poss, budget, eip, child, c, tag),
        child.len() > 0,
        child.last() is Full,
    ensures
        has_path(entries, query_key(child)),
{
    reveal(window_ext);
    reveal(window_combination);
    let n = child.len() as int;
    if c.last() is Full {
        assert(query_key(c) + Seq::<u8>::empty() =~= query_key(c));
        if entries.contains_key(query_key(c)) {
            assert(has_path(entries, query_key(c) + Seq::<u8>::empty()));
        }
        lemma_key_prefix_path(entries, c, n, Seq::empty());
    } else {
        assert(c.take(n)[n - 1] == c[n - 1]);
        assert(c.len() > n);
        let (a, b) = c.last()->Prefix_id_range;
        let v = choose|v: Seq<u8>| #[trigger] word_in(entries, query_key(c.drop_last()), encode3(a as int), encode3(b as int), v);
        assert(c.drop_last().take(n) =~= c.take(n));
        lemma_key_prefix_path(entries, c.drop_last(), n, v);
    }
}

impl PhraseSet {
    /// Every window of the candidates that is a complete phrase, tagged
    /// `false`, and at the last position also (with `ends_in_prefix`) the
    /// starts of phrases, tagged `ends_in_prefix`. Full words are taken from
    /// the candidates in order while their edit distances fit the budget left;
    /// a word range is refused unless `ends_in_prefix`, and ends a window at
    /// its position when some word key within it continues the words before it.
    pub fn match_combinations_as_windows(
        &self,
        word_possibilities: &[Vec<QueryWord>],
        max_phrase_dist: u8,
        ends_in_prefix: bool,
    ) -> (r: Result<Vec<(Vec<QueryWord>, bool)>, PhraseSetError>)
        requires
            self.wf(),
        ensures
            !ends_in_prefix && any_prefix(poss_view(word_possibilities@)) ==> r == Err::<
                Vec<(Vec<QueryWord>, bool)>,
                PhraseSetError,
            >(PhraseSetError::QueryShape),
            ends_in_prefix || !any_prefix(poss_view(word_possibilities@)) ==> r is Ok,
            r matches Ok(out) ==> pair_views(out@) == window_list(
                self.entries(),
                poss_view(word_possibilities@),
                max_phrase_dist as int,
                ends_in_prefix,
                Seq::empty(),
                0,
            ),
            r matches Ok(out) ==> forall|c: Seq<QueryWord>, tag: bool|
                #[trigger] pair_views(out@).contains((c, tag)) <==> window_combination(
                    self.entries(),
                    poss_view(word_possibilities@),
                    max_phrase_dist as int,
                    ends_in_prefix,
                    c,
                    tag,
                ),
    {
        if !ends_in_prefix && has_prefix_candidate(word_possibilities) {
            return Err(PhraseSetError::QueryShape);
        }
        let mut out: Vec<(Vec<QueryWord>, bool)> = Vec::new();
        if word_possibilities.len() == 0 {
            proof {
                reveal(window_combination);
                assert forall|c: Seq<QueryWord>, tag: bool| !(#[trigger] pair_views(out@).contains((c, tag))) by {
                }
            }
            return Ok(out);
        }
        let root = fst_root(&self.fst);
        proof {
            lemma_shifted_refl(fst_entries(self.fst));
            assert(query_key(Seq::<QueryWord>::empty()) == Seq::<u8>::empty());
            reveal(chosen_from);
        }
        self.window_recurse(
            word_possibilities,
            0,
            root,
            0,
            max_phrase_dist,
            Ghost(max_phrase_dist as int),
            ends_in_prefix,
            Vec::new(),
            &mut out,
        );
        proof {
            assert forall|c: Seq<QueryWord>, tag: bool| #[trigger] pair_views(out@).contains((c, tag)) <==> window_combination(
                self.entries(),
                poss_view(word_possibilities@),
                max_phrase_dist as int,
                ends_in_prefix,
                c,
                tag,
            ) by {
                reveal(window_ext);
                reveal(window_combination);
                assert(c.take(0) =~= Seq::<QueryWord>::empty());
            }
        }
        Ok(out)
    }

    fn window_recurse(
        &self,
        possibilities: &[Vec<QueryWord>],
        position: usize,
        node: usize,
        output: u64,
        budget_remaining: u8,
        budget: Ghost<int>,
        ends_in_prefix: bool,
        so_far: Vec<QueryWord>,
        out: &mut Vec<(Vec<QueryWord>, bool)>,
    )
        requires
            ends_in_prefix || !any_prefix(poss_view(possibilities@)),
            position < possibilities@.len(),
            so_far@.len() == position,
            chosen_from(poss_view(possibilities@), budget@, so_far@, 0),
            budget_remaining == budget@ - cost_of(so_far@),
            reached(self.fst, query_key(so_far@), node, output),
        ensures
            forall|c: Seq<QueryWord>, tag: bool|
                #[trigger] pair_views(final(out)@).contains((c, tag)) <==> pair_views(old(out)@).contains((c, tag)) || (
                c.len() > position && window_ext(
                    self.entries(),
                    poss_view(possibilities@),
                    budget@,
                    ends_in_prefix,
                    so_far@,
                    c,
                    tag,
                )),
            pair_views(final(out)@) == pair_views(old(out)@) + window_list(
                self.entries(),
                poss_view(possibilities@),
                budget@,
                ends_in_prefix,
                so_far@,
                position as int,
            ),
        decreases possibilities@.len() - position,
    {
        let ghost poss = poss_view(possibilities@);
        let ghost entries = fst_entries(self.fst);
        let ghost out0 = pair_views(out@);
        let ghost r = budget_remaining as int;
        let ghost eip = ends_in_prefix;
        let cands = &possibilities[position];
        assert(poss[position as int] == cands@);
        let mut j: usize = 0;
        let mut stop = false;
        proof {
            reveal(made_by_w);
        }
        while j < cands.len() && !stop
            invariant
                j <= cands@.len(),
                stop ==> j < cands@.len(),
                stop ==> forall|c: Seq<QueryWord>, tag: bool|
                    #[trigger] made_by_w(entries, poss, budget@, eip, so_far@, position as int, r, c, tag, cands@.len() as int)
                        ==> made_by_w(entries, poss, budget@, eip, so_far@, position as int, r, c, tag, j as int),
                cands@ == poss[position as int],
                poss == poss_view(possibilities@),
                eip == ends_in_prefix,
                eip || !any_prefix(poss),
                entries == fst_entries(self.fst),
                position < possibilities@.len(),
                so_far@.len() == position,
                chosen_from(poss, budget@, so_far@, 0),
                budget_remaining == budget@ - cost_of(so_far@),
                r == budget_remaining as int,
                reached(self.fst, query_key(so_far@), node, output),
                forall|k: int| 0 <= k < j ==> (#[trigger] cands@[k]).cost() <= r,
                stop ==> cands@[j as int].cost() > r,
                pair_views(out@) == out0 + window_upto(entries, poss, budget@, eip, so_far@, position as int, j as int),
                forall|c: Seq<QueryWord>, tag: bool|
                    #[trigger] pair_views(out@).contains((c, tag)) <==> out0.contains((c, tag)) || made_by_w(
                        entries,
                        poss,
                        budget@,
                        eip,
                        so_far@,
                        position as int,
                        r,
                        c,
                        tag,
                        j as int,
                    ),
            decreases cands@.len() - j + (if stop { 0int } else { 1int }),
        {
            let word = cands[j];
            let edit_distance = match word {
                QueryWord::Full { edit_distance, .. } => edit_distance,
                QueryWord::Prefix { .. } => 0,
            };
            if edit_distance > budget_remaining {
                proof {
                    assert forall|c: Seq<QueryWord>, tag: bool|
                        #[trigger] made_by_w(entries, poss, budget@, eip, so_far@, position as int, r, c, tag, cands@.len() as int)
                            implies made_by_w(entries, poss, budget@, eip, so_far@, position as int, r, c, tag, j as int) by {
                        lemma_made_break_w(entries, poss, budget@, eip, so_far@, position as int, r, c, tag, j as int);
                    }
                }
                stop = true;
            } else {
                let mut child = so_far.clone();
                child.push(word);
                let ghost mid = pair_views(out@);
                proof {
                    assert(child@ =~= so_far@.push(word));
                    assert(cands@[j as int] == word);
                    assert(so_far@.push(poss[position as int][j as int]) == child@);
                    assert(admitted(poss[position as int], budget@ - cost_of(so_far@), word)) by {
                        assert(cands@[j as int] == word);
                    }
                    assert forall|c: Seq<QueryWord>, tag: bool|
                        #[trigger] made_by_w(entries, poss, budget@, eip, so_far@, position as int, r, c, tag, j + 1)
                            <==> made_by_w(entries, poss, budget@, eip, so_far@, position as int, r, c, tag, j as int)
                            || window_ext(entries, poss, budget@, eip, child@, c, tag) by {
                        lemma_made_step_w(entries, poss, budget@, eip, so_far@, position as int, r, c, tag, j as int);
                    }
                }
                match word {
                    QueryWord::Full { .. } => {
                        let key = word.key();
                        match walk(&self.fst, node, key.as_slice()) {
                            None => {
                                proof {
                                    lemma_query_key_push(so_far@, word);
                                    lemma_path_shift(entries, query_key(so_far@), node_lang(self.fst, node), output as int, key@);
                                    assert forall|c: Seq<QueryWord>, tag: bool|
                                        !#[trigger] window_ext(entries, poss, budget@, eip, child@, c, tag) by {
                                        if window_ext(entries, poss, budget@, eip, child@, c, tag) {
                                            lemma_window_needs_path(entries, poss, budget@, eip, child@, c, tag);
                                        }
                                    }
                                    assert(window_item(entries, poss, budget@, eip, so_far@, position as int, j as int) =~= Seq::<(Seq<QueryWord>, bool)>::empty());
                                    assert(pair_views(out@) =~= mid + window_item(entries, poss, budget@, eip, so_far@, position as int, j as int));
                                }
                            },
                            Some((t, o)) => {
                                proof {
                                    lemma_query_key_push(so_far@, word);
                                    lemma_reach_more(self.fst, query_key(so_far@), node, output, key@, t, o);
                                    lemma_cost_push(so_far@, word);
                                    lemma_child_chosen(poss, budget@, so_far@, position as int, r, j as int);
                                    lemma_path_of_shift(entries, query_key(child@), node_lang(self.fst, t), (output + o) as int);
                                }
                                let fin = node_is_final(&self.fst, t);
                                proof {
                                    assert(query_key(child@) + Seq::<u8>::empty() =~= query_key(child@));
                                    assert(fin == entries.contains_key(query_key(child@)));
                                }
                                if position < possibilities.len() - 1 {
                                    let ghost before = pair_views(out@);
                                    if fin {
                                        let ghost out_before = out@;
                                        let copy = child.clone();
                                        assert(copy@ == child@);
                                        out.push((copy, false));
                                        proof {
                                            assert(out@.drop_last() =~= out_before);
                                            lemma_pair_views_push(before, out@);
                                            assert(pair_views(out@) =~= mid.push((child@, false)));
                                        }
                                    }
                                    let ghost first = if fin { seq![(child@, false)] } else { Seq::<(Seq<QueryWord>, bool)>::empty() };
                                    proof {
                                        assert(pair_views(out@) =~= mid + first);
                                    }
                                    proof {
                                        assert forall|c: Seq<QueryWord>, tag: bool|
                                            #[trigger] window_ext(entries, poss, budget@, eip, child@, c, tag) <==> ((c == child@
                                                && !tag && fin) || (c.len() > position + 1 && window_ext(
                                                entries,
                                                poss,
                                                budget@,
                                                eip,
                                                child@,
                                                c,
                                                tag,
                                            ))) by {
                                            lemma_window_child_inner(entries, poss, budget@, eip, so_far@, word, c, tag);
                                        }
                                    }
                                    self.window_recurse(
                                        possibilities,
                                        position + 1,
                                        t,
                                        output + o,
                                        budget_remaining - edit_distance,
                                        budget,
                                        ends_in_prefix,
                                        child,
                                        out,
                                    );
                                    proof {
                                        assert(window_item(entries, poss, budget@, eip, so_far@, position as int, j as int) == first + window_list(entries, poss, budget@, eip, child@, position + 1));
                                        assert(pair_views(out@) =~= mid + window_item(entries, poss, budget@, eip, so_far@, position as int, j as int));
                                    }
                                } else {
                                    proof {
                                        assert forall|c: Seq<QueryWord>, tag: bool|
                                            #[trigger] window_ext(entries, poss, budget@, eip, child@, c, tag) <==> (c == child@
                                                && tag == eip && (fin || eip)) by {
                                            lemma_window_child_leaf(entries, poss, budget@, eip, so_far@, word, c, tag);
                                        }
                                    }
                                    let ghost cv = child@;
                                    if fin || ends_in_prefix {
                                        let ghost before = pair_views(out@);
                                        let ghost out_before = out@;
                                        out.push((child, ends_in_prefix));
                                        proof {
                                            assert(out@.drop_last() =~= out_before);
                                            lemma_pair_views_push(before, out@);
                                            assert(pair_views(out@) =~= mid.push((cv, eip)));
                                            assert(window_item(entries, poss, budget@, eip, so_far@, position as int, j as int) == seq![(cv, eip)]);
                                        }
                                    } else {
                                        proof {
                                            assert(window_item(entries, poss, budget@, eip, so_far@, position as int, j as int) == Seq::<(Seq<QueryWord>, bool)>::empty());
                                        }
                                    }
                                    proof {
                                        assert(pair_views(out@) =~= mid + window_item(entries, poss, budget@, eip, so_far@, position as int, j as int));
                                    }
                                }
                            },
                        }
                    },
                    QueryWord::Prefix { id_range } => {
                        proof {
                            assert(eip) by {
                                if !eip {
                                    assert(poss[position as int][j as int] is Prefix);
                                }
                            }
                        }
                        let lo = three_byte_encode(id_range.0 as u64);
                        let hi = three_byte_encode(id_range.1 as u64);
                        let found = matches_prefix_range(
                            &self.fst,
                            node,
                            output,
                            Ghost(query_key(so_far@)),
                            lo.as_slice(),
                            hi.as_slice(),
                        );
                        proof {
                            assert forall|c: Seq<QueryWord>, tag: bool|
                                #[trigger] window_ext(entries, poss, budget@, eip, child@, c, tag) <==> (c == child@ && tag
                                    && found is Some) by {
                                lemma_window_child_range(entries, poss, budget@, eip, so_far@, word, c, tag);
                                if found is Some {
                                    let st = found->Some_0;
                                    assert(word_in(entries, query_key(so_far@), lo@, hi@, st.min_word@));
                                }
                            }
                        }
                        let ghost cv = child@;
                        proof {
                            if found is Some {
                                let st = found->Some_0;
                                assert(word_in(entries, query_key(so_far@), lo@, hi@, st.min_word@));
                                assert(window_item(entries, poss, budget@, eip, so_far@, position as int, j as int) == seq![(cv, eip)]);
                            } else {
                                assert(window_item(entries, poss, budget@, eip, so_far@, position as int, j as int) == Seq::<(Seq<QueryWord>, bool)>::empty());
                            }
                        }
                        if found.is_some() {
                            let ghost before = pair_views(out@);
                            let ghost out_before = out@;
                            out.push((child, ends_in_prefix));
                            proof {
                                assert(out@.drop_last() =~= out_before);
                                lemma_pair_views_push(before, out@);
                                assert(pair_views(out@) =~= mid.push((cv, eip)));
                            }
                        }
                        proof {
                            assert(pair_views(out@) =~= mid + window_item(entries, poss, budget@, eip, so_far@, position as int, j as int));
                        }
                    },
                }
                proof {
                    assert(window_upto(entries, poss, budget@, eip, so_far@, position as int, j + 1) == window_upto(entries, poss, budget@, eip, so_far@, position as int, j as int) + window_item(entries, poss, budget@, eip, so_far@, position as int, j as int));
                    assert(pair_views(out@) =~= out0 + window_upto(entries, poss, budget@, eip, so_far@, position as int, j + 1));
                }
                j = j + 1;
            }
        }
        proof {
            assert forall|c: Seq<QueryWord>, tag: bool|
                #[trigger] made_by_w(entries, poss, budget@, eip, so_far@, position as int, r, c, tag, j as int) <==> (
                c.len() > position && window_ext(entries, poss, budget@, eip, so_far@, c, tag)) by {
                lemma_made_all_w(entries, poss, budget@, eip, so_far@, position as int, r, c, tag);
                reveal(made_by_w);
            }
            lemma_cut(cands@, r, j as int);
        }
    }
}

/// The full words with the given ids, in order.
pub open spec fn words_with_ids(words: Seq<QueryWord>, ids: Seq<u32>) -> bool {
    &&& words.len() == ids.len()
    &&& forall|i: int| 0 <= i < words.len() ==> (#[trigger] words[i]) is Full && words[i]->Full_id == ids[i]
}

proof fn lemma_query_key_ids(words: Seq<QueryWord>, ids: Seq<u32>)
    requires
        words_with_ids(words, ids),
    ensures
        query_key(words) == words_key(ids),
    decreases words.len(),
{
    if words.len() > 0 {
        assert(words_with_ids(words.drop_last(), ids.drop_last()));
        lemma_query_key_ids(words.drop_last(), ids.drop_last());
    }
}

proof fn lemma_words_key_split(ids: Seq<u32>, n: int)
    requires
        0 <= n <= ids.len(),
    ensures
        words_key(ids) == words_key(ids.take(n)) + words_key(ids.skip(n)),
    decreases ids.len(),
{
    if n == ids.len() {
        assert(ids.take(n) =~= ids);
        assert(ids.skip(n) =~= Seq::<u32>::empty());
        assert(words_key(ids) + Seq::<u8>::empty() =~= words_key(ids));
    } else {
        lemma_words_key_split(ids.drop_last(), n);
        assert(ids.drop_last().take(n) =~= ids.take(n));
        assert(ids.skip(n).drop_last() =~= ids.drop_last().skip(n));
        assert(ids.skip(n).last() == ids.last());
        let a = words_key(ids.take(n));
        let b = words_key(ids.drop_last().skip(n));
        let e = encode3(ids.last() as int);
        assert((a + b) + e =~= a + (b + e));
    }
}

/// A phrase set holds a phrase of full words exactly when it holds the
/// phrase of their word ids, as `PhraseSetBuilder::insert` adds it; so an
/// inserted phrase is contained, and its reverse only if that was inserted too.
pub proof fn lemma_contains_inserted(set: PhraseSet, ids: Seq<u32>, words: Seq<QueryWord>)
    requires
        words_with_ids(words, ids),
    ensures
        set.entries().contains_key(query_key(words)) == set.entries().contains_key(words_key(ids)),
        set.entries().contains_key(query_key(words.reverse())) == set.entries().contains_key(words_key(ids.reverse())),
{
    lemma_query_key_ids(words, ids);
    assert(words_with_ids(words.reverse(), ids.reverse()));
    lemma_query_key_ids(words.reverse(), ids.reverse());
}

/// Every non-empty prefix of an inserted phrase starts a phrase of the set,
/// which is what `contains_prefix` reports for full words.
pub proof fn lemma_prefix_of_inserted(set: PhraseSet, ids: Seq<u32>, words: Seq<QueryWord>)
    requires
        set.entries().contains_key(words_key(ids)),
        0 < words.len() <= ids.len(),
        words_with_ids(words, ids.take(words.len() as int)),
    ensures
        lookup_found(set.entries(), words),
{
    let n = words.len() as int;
    lemma_query_key_ids(words, ids.take(n));
    lemma_words_key_split(ids, n);
    assert(set.entries().contains_key(query_key(words) + words_key(ids.skip(n))));
}

/// In a set whose ids follow key order, the ids that a word-range lookup
/// reports bound every phrase that continues its prefix with a word key in
/// the range, and the lower bound is at most the upper.
pub proof fn lemma_prefix_range_bounds(
    f: Fst<Vec<u8>>,
    st: WordPrefixMatchState,
    lo: Seq<u8>,
    hi: Seq<u8>,
    low_suffix: Seq<u8>,
    high_suffix: Seq<u8>,
    w: Seq<u8>,
    s: Seq<u8>,
)
    requires
        ordered(fst_entries(f)),
        st.describes(f, lo, hi),
        is_least_key(node_lang(f, st.min_prefix_node), low_suffix),
        is_greatest_key(node_lang(f, st.max_prefix_node), high_suffix),
        word_in(fst_entries(f), st.key@, lo, hi, w),
        fst_entries(f).contains_key(st.key@ + w + s),
    ensures
        fst_entries(f)[st.key@ + st.min_word@ + low_suffix] <= fst_entries(f)[st.key@ + w + s],
        fst_entries(f)[st.key@ + w + s] <= fst_entries(f)[st.key@ + st.max_word@ + high_suffix],
        fst_entries(f)[st.key@ + st.min_word@ + low_suffix] <= fst_entries(f)[st.key@ + st.max_word@ + high_suffix],
{
    let e = fst_entries(f);
    let k = st.key@;
    let lmin = node_lang(f, st.min_prefix_node);
    let lmax = node_lang(f, st.max_prefix_node);
    let kmin = k + st.min_word@ + low_suffix;
    let kmax = k + st.max_word@ + high_suffix;
    let kw = k + w + s;
    assert(e.contains_key(kmin));
    assert(e.contains_key(kmax));
    // The least key comes first.
    if st.min_word@ == w {
        assert(lmin.contains_key(s));
        assert(kmin =~= (k + w) + low_suffix);
        assert(kw =~= (k + w) + s);
        lemma_bytes_lt_common(k + w, s, low_suffix);
    } else {
        lemma_bytes_lt_total(st.min_word@, w);
        assert(kmin =~= k + (st.min_word@ + low_suffix));
        assert(kw =~= k + (w + s));
        lemma_bytes_lt_differ(st.min_word@, w, low_suffix, s);
        lemma_bytes_lt_common(k, w + s, st.min_word@ + low_suffix);
        lemma_bytes_lt_common(k, st.min_word@ + low_suffix, w + s);
    }
    lemma_bytes_lt_total(kmin, kw);
    // The greatest key comes last.
    if st.max_word@ == w {
        assert(lmax.contains_key(s));
        assert(kmax =~= (k + w) + high_suffix);
        assert(kw =~= (k + w) + s);
        lemma_bytes_lt_common(k + w, high_suffix, s);
    } else {
        lemma_bytes_lt_total(w, st.max_word@);
        assert(kmax =~= k + (st.max_word@ + high_suffix));
        assert(kw =~= k + (w + s));
        lemma_bytes_lt_differ(w, st.max_word@, s, high_suffix);
        lemma_bytes_lt_common(k, w + s, st.max_word@ + high_suffix);
        lemma_bytes_lt_common(k, st.max_word@ + high_suffix, w + s);
    }
    lemma_bytes_lt_total(kw, kmax);
}

/// A window tagged `false` is a complete phrase of full words; one tagged
/// `true` (only with `ends_in_prefix`) starts a phrase, through a word key of
/// its trailing range when it ends in one.
pub proof fn lemma_window_tags(
    entries: Map<Seq<u8>, u64>,
    poss: Seq<Seq<QueryWord>>,
    budget: int,
    ends_in_prefix: bool,
    c: Seq<QueryWord>,
    tag: bool,
)
    requires
        window_combination(entries, poss, budget, ends_in_prefix, c, tag),
    ensures
        !tag ==> all_full(c) && entries.contains_key(query_key(c)),
        tag ==> ends_in_prefix && lookup_found(entries, c),
{
    reveal(window_combination);
    reveal(chosen_from);
    assert(c =~= c.drop_last().push(c.last()));
    if c.last() is Full {
        assert forall|i: int| 0 <= i < c.len() implies (#[trigger] c[i]) is Full by {
            if i < c.len() - 1 {
                assert(c.drop_last()[i] == c[i]);
            }
        }
        if tag && entries.contains_key(query_key(c)) {
            assert(query_key(c) + Seq::<u8>::empty() =~= query_key(c));
        }
    }
}

/// In a set whose ids follow key order, the ids that a full-word lookup
/// reports bound every phrase that continues its key, and the lower bound is
/// at most the upper.
pub proof fn lemma_full_range_bounds(
    f: Fst<Vec<u8>>,
    key: Seq<u8>,
    node: usize,
    output: u64,
    low_suffix: Seq<u8>,
    high_suffix: Seq<u8>,
    s: Seq<u8>,
)
    requires
        ordered(fst_entries(f)),
        reached(f, key, node, output),
        is_least_key(node_lang(f, node), low_suffix),
        is_greatest_key(node_lang(f, node), high_suffix),
        fst_entries(f).contains_key(key + s),
    ensures
        fst_entries(f)[key + low_suffix] <= fst_entries(f)[key + s],
        fst_entries(f)[key + s] <= fst_entries(f)[key + high_suffix],
        fst_entries(f)[key + low_suffix] <= fst_entries(f)[key + high_suffix],
{
    let e = fst_entries(f);
    let lang = node_lang(f, node);
    assert(lang.contains_key(s));
    assert(e.contains_key(key + low_suffix));
    assert(e.contains_key(key + high_suffix));
    lemma_bytes_lt_common(key, s, low_suffix);
    lemma_bytes_lt_common(key, high_suffix, s);
    lemma_bytes_lt_total(key + low_suffix, key + s);
    lemma_bytes_lt_total(key + s, key + high_suffix);
}

} // verus!
