//! The three-byte codec between 24-bit word ids and big-endian key segments.
use vstd::prelude::*;

verus! {

/// Number of distinct word ids: ids are 24-bit.
pub const WORD_ID_LIMIT: u64 = 0x100_0000;

/// The three big-endian bytes of the low 24 bits of `id`.
pub open spec fn encode3(id: int) -> Seq<u8> {
    seq![((id / 0x1_0000) % 0x100) as u8, ((id / 0x100) % 0x100) as u8, (id % 0x100) as u8]
}

/// The integer that three big-endian bytes stand for.
pub open spec fn decode3(b0: u8, b1: u8, b2: u8) -> int {
    b0 as int * 0x1_0000 + b1 as int * 0x100 + b2 as int
}

/// The key of a phrase: the concatenation of the three-byte keys of its words.
pub open spec fn phrase_key(ids: Seq<u64>) -> Seq<u8>
    decreases ids.len(),
{
    if ids.len() == 0 {
        Seq::empty()
    } else {
        phrase_key(ids.drop_last()) + encode3(ids.last() as int)
    }
}

/// The key of a phrase of 32-bit word ids.
pub open spec fn words_key(ids: Seq<u32>) -> Seq<u8>
    decreases ids.len(),
{
    if ids.len() == 0 {
        Seq::empty()
    } else {
        words_key(ids.drop_last()) + encode3(ids.last() as int)
    }
}

/// The ids that the complete three-byte groups of `key` stand for.
pub open spec fn key_phrase(key: Seq<u8>) -> Seq<u64> {
    Seq::new(key.len() / 3, |i: int| decode3(key[3 * i], key[3 * i + 1], key[3 * i + 2]) as u64)
}

/// Strict lexicographic order on byte strings (a proper prefix comes first).
pub open spec fn bytes_lt(a: Seq<u8>, b: Seq<u8>) -> bool
    decreases a.len(),
{
    if a.len() == 0 {
        b.len() > 0
    } else if b.len() == 0 {
        false
    } else if a[0] != b[0] {
        a[0] < b[0]
    } else {
        bytes_lt(a.drop_first(), b.drop_first())
    }
}

/// Strict lexicographic order on sequences of ids.
pub open spec fn ids_lt(a: Seq<u64>, b: Seq<u64>) -> bool
    decreases a.len(),
{
    if a.len() == 0 {
        b.len() > 0
    } else if b.len() == 0 {
        false
    } else if a[0] != b[0] {
        a[0] < b[0]
    } else {
        ids_lt(a.drop_first(), b.drop_first())
    }
}

pub open spec fn all_word_ids(ids: Seq<u64>) -> bool {
    forall|i: int| 0 <= i < ids.len() ==> ids[i] < WORD_ID_LIMIT
}

proof fn lemma_decode_encode3(id: int)
    requires
        0 <= id < WORD_ID_LIMIT,
    ensures
        decode3(encode3(id)[0], encode3(id)[1], encode3(id)[2]) == id,
{
    let a = id / 0x1_0000;
    let r = id % 0x1_0000;
    assert(id == 0x1_0000 * a + r && 0 <= r < 0x1_0000 && 0 <= a < 0x100) by (nonlinear_arith)
        requires 0 <= id < 0x100_0000, a == id / 0x1_0000, r == id % 0x1_0000;
    assert((id / 0x100) % 0x100 == r / 0x100) by (nonlinear_arith)
        requires id == 0x1_0000 * a + r, 0 <= r < 0x1_0000, a >= 0;
    assert(id % 0x100 == r % 0x100) by (nonlinear_arith)
        requires id == 0x1_0000 * a + r, 0 <= r < 0x1_0000, a >= 0;
    assert(r == 0x100 * (r / 0x100) + r % 0x100) by (nonlinear_arith)
        requires 0 <= r;
}

/// Decoding the three-byte encoding of a word id gives the id back.
pub proof fn lemma_word_round_trip(id: u64)
    requires
        id < WORD_ID_LIMIT,
    ensures
        decode3(encode3(id as int)[0], encode3(id as int)[1], encode3(id as int)[2]) == id,
{
    lemma_decode_encode3(id as int);
}

proof fn lemma_phrase_key_index(ids: Seq<u64>)
    ensures
        phrase_key(ids).len() == 3 * ids.len(),
        forall|i: int, j: int|
            0 <= i < ids.len() && 0 <= j < 3 ==> #[trigger] phrase_key(ids)[3 * i + j]
                == encode3(ids[i] as int)[j],
    decreases ids.len(),
{
    if ids.len() > 0 {
        let front = ids.drop_last();
        lemma_phrase_key_index(front);
        assert forall|i: int, j: int| 0 <= i < ids.len() && 0 <= j < 3 implies #[trigger] phrase_key(
            ids,
        )[3 * i + j] == encode3(ids[i] as int)[j] by {
            if i < ids.len() - 1 {
                assert(front[i] == ids[i]);
                assert(phrase_key(ids)[3 * i + j] == phrase_key(front)[3 * i + j]);
            }
        }
    }
}

/// Decoding the key of a phrase of word ids gives the phrase back.
pub proof fn lemma_phrase_round_trip(ids: Seq<u64>)
    requires
        all_word_ids(ids),
    ensures
        key_phrase(phrase_key(ids)) == ids,
{
    lemma_phrase_key_index(ids);
    let k = phrase_key(ids);
    assert forall|i: int| 0 <= i < ids.len() implies #[trigger] key_phrase(k)[i] == ids[i] by {
        assert(k[3 * i + 0] == encode3(ids[i] as int)[0]);
        assert(k[3 * i + 1] == encode3(ids[i] as int)[1]);
        assert(k[3 * i + 2] == encode3(ids[i] as int)[2]);
        lemma_decode_encode3(ids[i] as int);
    }
    assert(key_phrase(k) =~= ids);
}

/// A smaller word id has a lexicographically smaller encoding.
pub proof fn lemma_word_order(a: u64, b: u64)
    requires
        a < b,
        b < WORD_ID_LIMIT,
    ensures
        bytes_lt(encode3(a as int), encode3(b as int)),
{
    lemma_decode_encode3(a as int);
    lemma_decode_encode3(b as int);
    let ea = encode3(a as int);
    let eb = encode3(b as int);
    reveal_with_fuel(bytes_lt, 4);
    assert(ea.drop_first() == seq![ea[1], ea[2]]);
    assert(eb.drop_first() == seq![eb[1], eb[2]]);
    assert(ea.drop_first().drop_first() == seq![ea[2]]);
    assert(eb.drop_first().drop_first() == seq![eb[2]]);
    assert(seq![ea[2]].drop_first() == Seq::<u8>::empty());
    assert(seq![eb[2]].drop_first() == Seq::<u8>::empty());
}

/// A common prefix does not change the order of two byte strings.
pub proof fn lemma_bytes_lt_common(e: Seq<u8>, s: Seq<u8>, t: Seq<u8>)
    ensures
        bytes_lt(e + s, e + t) == bytes_lt(s, t),
    decreases e.len(),
{
    if e.len() > 0 {
        assert((e + s).drop_first() == e.drop_first() + s);
        assert((e + t).drop_first() == e.drop_first() + t);
        lemma_bytes_lt_common(e.drop_first(), s, t);
    } else {
        assert(e + s == s);
        assert(e + t == t);
    }
}

/// Byte strings of one length that differ keep their order whatever follows them.
pub proof fn lemma_bytes_lt_differ(a: Seq<u8>, b: Seq<u8>, s: Seq<u8>, t: Seq<u8>)
    requires
        a.len() == b.len(),
        bytes_lt(a, b),
    ensures
        bytes_lt(a + s, b + t),
    decreases a.len(),
{
    assert((a + s)[0] == a[0]);
    assert((b + t)[0] == b[0]);
    if a[0] == b[0] {
        assert((a + s).drop_first() == a.drop_first() + s);
        assert((b + t).drop_first() == b.drop_first() + t);
        lemma_bytes_lt_differ(a.drop_first(), b.drop_first(), s, t);
    }
}

proof fn lemma_phrase_key_front(ids: Seq<u64>)
    requires
        ids.len() > 0,
    ensures
        phrase_key(ids) == encode3(ids[0] as int) + phrase_key(ids.drop_first()),
    decreases ids.len(),
{
    if ids.len() > 1 {
        lemma_phrase_key_front(ids.drop_last());
        assert(ids.drop_last().drop_first() == ids.drop_first().drop_last());
        assert(ids.drop_first().last() == ids.last());
    } else {
        assert(ids.drop_last() == Seq::<u64>::empty());
        assert(ids.drop_first() == Seq::<u64>::empty());
    }
}

/// Lexicographic order of phrases of word ids is the byte order of their keys.
pub proof fn lemma_phrase_order(a: Seq<u64>, b: Seq<u64>)
    requires
        all_word_ids(a),
        all_word_ids(b),
        ids_lt(a, b),
    ensures
        bytes_lt(phrase_key(a), phrase_key(b)),
    decreases a.len(),
{
    if a.len() == 0 {
        lemma_phrase_key_front(b);
    } else {
        lemma_phrase_key_front(a);
        lemma_phrase_key_front(b);
        let ea = encode3(a[0] as int);
        let eb = encode3(b[0] as int);
        if a[0] == b[0] {
            assert(all_word_ids(a.drop_first()));
            assert(all_word_ids(b.drop_first()));
            lemma_phrase_order(a.drop_first(), b.drop_first());
            lemma_bytes_lt_common(ea, phrase_key(a.drop_first()), phrase_key(b.drop_first()));
        } else {
            lemma_word_order(a[0], b[0]);
            lemma_bytes_lt_differ(ea, eb, phrase_key(a.drop_first()), phrase_key(b.drop_first()));
        }
    }
}

/// The eight big-endian bytes of `num`.
pub fn chop_int(num: u64) -> (r: Vec<u8>)
    ensures
        r@.len() == 8,
        forall|i: int| 0 <= i < 8 ==> r@[i] == ((num as int / pow256(7 - i)) % 0x100) as u8,
{
    let mut r: Vec<u8> = Vec::new();
    let mut k: usize = 0;
    while k < 8
        invariant
            k <= 8,
            r@.len() == k,
            forall|i: int| 0 <= i < k ==> r@[i] == ((num as int / pow256(7 - i)) % 0x100) as u8,
        decreases 8 - k,
    {
        let shift: u64 = (8 * (7 - k)) as u64;
        let b: u8 = ((num >> shift) % 0x100) as u8;
        proof {
            lemma_shift_byte(num, (7 - k) as nat);
        }
        r.push(b);
        k = k + 1;
    }
    r
}

/// 256 to the power `e`.
pub open spec fn pow256(e: int) -> int
    decreases e,
{
    if e <= 0 {
        1
    } else {
        256 * pow256(e - 1)
    }
}

proof fn lemma_shift_byte(num: u64, e: nat)
    requires
        e < 8,
    ensures
        ((num >> ((8 * e) as u64)) % 0x100) as u8 == ((num as int / pow256(e as int)) % 0x100) as u8,
{
    lemma_shift_div(num, e);
}

proof fn lemma_shift_div(num: u64, e: nat)
    requires
        e < 8,
    ensures
        (num >> ((8 * e) as u64)) as int == num as int / pow256(e as int),
    decreases e,
{
    if e == 0 {
        assert(num >> 0u64 == num) by (bit_vector);
    } else {
        lemma_shift_div(num, (e - 1) as nat);
        let s = (8 * (e - 1)) as u64;
        let a = num >> s;
        assert(num >> ((s + 8) as u64) == (num >> s) / 256) by (bit_vector)
            requires s < 56;
        assert(8 * e == 8 * (e - 1) + 8);
        let p = pow256(e - 1);
        assert(p > 0) by {
            lemma_pow256_pos(e - 1);
        }
        assert((num as int / p) / 256 == num as int / (p * 256)) by {
            vstd::arithmetic::div_mod::lemma_div_denominator(num as int, p, 256);
        }
    }
}

proof fn lemma_pow256_pos(e: int)
    ensures
        pow256(e) > 0,
    decreases e,
{
    if e > 0 {
        lemma_pow256_pos(e - 1);
    }
}

/// The three big-endian bytes of the low 24 bits of `num`.
pub fn three_byte_encode(num: u64) -> (r: Vec<u8>)
    ensures
        r@ == encode3(num as int),
{
    let low: u64 = num % 0x100_0000;
    proof {
        lemma_encode3_mod(num as int);
    }
    vec![((low / 0x1_0000) % 0x100) as u8, ((low / 0x100) % 0x100) as u8, (low % 0x100) as u8]
}

proof fn lemma_encode3_mod(n: int)
    requires
        n >= 0,
    ensures
        encode3(n) == encode3(n % 0x100_0000),
{
    let m = n % 0x100_0000;
    assert(n == 0x100_0000 * (n / 0x100_0000) + m) by {
        vstd::arithmetic::div_mod::lemma_fundamental_div_mod(n, 0x100_0000);
    }
    let q = n / 0x100_0000;
    assert((n / 0x1_0000) % 0x100 == (m / 0x1_0000) % 0x100) by (nonlinear_arith)
        requires n == 0x100_0000 * q + m, 0 <= m < 0x100_0000, q >= 0;
    assert((n / 0x100) % 0x100 == (m / 0x100) % 0x100) by (nonlinear_arith)
        requires n == 0x100_0000 * q + m, 0 <= m < 0x100_0000, q >= 0;
    assert(n % 0x100 == m % 0x100) by (nonlinear_arith)
        requires n == 0x100_0000 * q + m, 0 <= m < 0x100_0000, q >= 0;
}

/// The integer that a three-byte big-endian key segment stands for.
pub fn three_byte_decode(three_bytes: &[u8]) -> (r: u64)
    requires
        three_bytes@.len() == 3,
    ensures
        r == decode3(three_bytes@[0], three_bytes@[1], three_bytes@[2]),
{
    (three_bytes[0] as u64) * 0x1_0000 + (three_bytes[1] as u64) * 0x100 + three_bytes[2] as u64
}

/// The key of a phrase: each word id as three big-endian bytes, in order.
pub fn phrase_to_key(phrase: &[u64]) -> (key: Vec<u8>)
    requires
        3 * phrase@.len() <= usize::MAX,
    ensures
        key@ == phrase_key(phrase@),
{
    let mut key: Vec<u8> = Vec::new();
    let mut i: usize = 0;
    while i < phrase.len()
        invariant
            i <= phrase@.len(),
            key@ == phrase_key(phrase@.take(i as int)),
        decreases phrase@.len() - i,
    {
        let word = three_byte_encode(phrase[i]);
        assert(phrase@.take(i + 1).drop_last() == phrase@.take(i as int));
        key.append(&mut word.clone());
        i = i + 1;
    }
    assert(phrase@.take(i as int) == phrase@);
    key
}

/// The key of a phrase of 32-bit word ids.
pub fn word_ids_to_key(phrase: &[u32]) -> (key: Vec<u8>)
    ensures
        key@ == words_key(phrase@),
{
    let mut key: Vec<u8> = Vec::new();
    let mut i: usize = 0;
    while i < phrase.len()
        invariant
            i <= phrase@.len(),
            key@ == words_key(phrase@.take(i as int)),
        decreases phrase@.len() - i,
    {
        let mut word = three_byte_encode(phrase[i] as u64);
        assert(phrase@.take(i + 1).drop_last() == phrase@.take(i as int));
        key.append(&mut word);
        i = i + 1;
    }
    assert(phrase@.take(i as int) == phrase@);
    key
}

/// The word ids of a key, one for each complete three-byte group.
pub fn key_to_phrase(key: &[u8]) -> (phrase: Vec<u64>)
    ensures
        phrase@ == key_phrase(key@),
{
    let mut phrase: Vec<u64> = Vec::new();
    let len: usize = key.len();
    let n: usize = len / 3;
    let mut i: usize = 0;
    let mut j: usize = 0;
    while i < n
        invariant
            len == key@.len(),
            n == len / 3,
            i <= n,
            j == 3 * i,
            phrase@ == key_phrase(key@).take(i as int),
        decreases n - i,
    {
        assert(j + 3 <= len);
        let word = three_byte_decode(&[key[j], key[j + 1], key[j + 2]]);
        phrase.push(word);
        i = i + 1;
        j = j + 3;
        assert(phrase@ =~= key_phrase(key@).take(i as int));
    }
    assert(key_phrase(key@).take(n as int) =~= key_phrase(key@));
    phrase
}

} // verus!
