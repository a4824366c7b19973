//! Deletion variants of a word: the strings that deleting up to `d` of its
//! characters (Unicode scalar values) leaves.
use vstd::prelude::*;

verus! {

/// The strings that deleting one character of `u` leaves.
pub open spec fn one_deletion(u: Seq<char>) -> Set<Seq<char>> {
    Set::new(|v: Seq<char>| exists|i: int| 0 <= i < u.len() && v == u.remove(i))
}

/// The strings that deleting exactly `k` characters of `w`, one after the
/// other, leaves.
pub open spec fn deletions(w: Seq<char>, k: nat) -> Set<Seq<char>>
    decreases k,
{
    if k == 0 {
        set![w]
    } else {
        Set::new(|v: Seq<char>| exists|u: Seq<char>| #[trigger] deletions(w, (k - 1) as nat).contains(u) && one_deletion(u).contains(v))
    }
}

/// `v` comes from `w` by at least one and at most `d` deletions.
pub open spec fn is_variant(w: Seq<char>, v: Seq<char>, d: int) -> bool {
    exists|k: nat| 1 <= k <= d && #[trigger] deletions(w, k).contains(v)
}

/// `n (n-1) ... (n-k+1)`: the number of ways to delete `k` characters of
/// `n`, one after the other.
pub open spec fn falling(n: nat, k: nat) -> nat
    decreases k,
{
    if k == 0 {
        1
    } else if k > n {
        0
    } else {
        falling(n, (k - 1) as nat) * ((n - (k - 1)) as nat)
    }
}

/// How many strings (with repeats) `get_variants` lists for a word of `n`
/// characters and distance `d`.
pub open spec fn variant_count(n: nat, d: nat) -> nat
    decreases d,
{
    if d == 0 {
        0
    } else {
        variant_count(n, (d - 1) as nat) + falling(n, d)
    }
}

proof fn lemma_count_stops(n: nat, k: nat, d: nat)
    requires
        k <= d,
        falling(n, k) == 0,
    ensures
        variant_count(n, d) == variant_count(n, k),
    decreases d - k,
{
    if k < d {
        lemma_count_stops(n, k, (d - 1) as nat);
        lemma_falling_zero(n, k, d);
    }
}

proof fn lemma_falling_zero(n: nat, k: nat, j: nat)
    requires
        k <= j,
        falling(n, k) == 0,
    ensures
        falling(n, j) == 0,
    decreases j - k,
{
    if k < j {
        lemma_falling_zero(n, k, (j - 1) as nat);
        if j <= n {
            assert(falling(n, j) == falling(n, (j - 1) as nat) * ((n - (j - 1)) as nat));
        }
    }
}

/// The views of a sequence of character vectors.
pub open spec fn char_views(v: Seq<Vec<char>>) -> Seq<Seq<char>> {
    v.map_values(|x: Vec<char>| x@)
}

/// The views of a sequence of strings.
pub open spec fn string_views(v: Seq<String>) -> Seq<Seq<char>> {
    v.map_values(|x: String| x@)
}

/// Relies on `str::chars` (collected into a vector): the characters of `s`.
#[verifier::external_body]
pub fn str_chars(s: &str) -> (r: Vec<char>)
    ensures
        r@ == s@,
{
    s.chars().collect()
}

/// Relies on `String::from_iter` over characters: the string of `chars`.
#[verifier::external_body]
pub fn chars_to_string(chars: &[char]) -> (r: String)
    ensures
        r@ == chars@,
{
    chars.iter().collect()
}

/// The strings that one deletion of each string of `level` leaves.
fn delete_one_each(level: &Vec<Vec<char>>, m: Ghost<nat>) -> (next: Vec<Vec<char>>)
    requires
        forall|a: int| 0 <= a < level@.len() ==> (#[trigger] level@[a])@.len() == m@,
    ensures
        next@.len() == level@.len() * m@,
        forall|a: int| 0 <= a < next@.len() ==> (#[trigger] next@[a])@.len() == m@ - 1,
        forall|v: Seq<char>|
            #[trigger] char_views(next@).contains(v) <==> exists|u: Seq<char>|
                #[trigger] char_views(level@).contains(u) && one_deletion(u).contains(v),
{
    let mut next: Vec<Vec<char>> = Vec::new();
    let mut a: usize = 0;
    while a < level.len()
        invariant
            a <= level@.len(),
            forall|b: int| 0 <= b < level@.len() ==> (#[trigger] level@[b])@.len() == m@,
            next@.len() == a * m@,
            forall|b: int| 0 <= b < next@.len() ==> (#[trigger] next@[b])@.len() == m@ - 1,
            forall|v: Seq<char>|
                #[trigger] char_views(next@).contains(v) <==> exists|b: int|
                    0 <= b < a && #[trigger] one_deletion(level@[b]@).contains(v),
        decreases level@.len() - a,
    {
        let u = &level[a];
        let mut i: usize = 0;
        while i < u.len()
            invariant
                a < level@.len(),
                u@.len() == m@,
                next@.len() == a * m@ + i,
                forall|b: int| 0 <= b < next@.len() ==> (#[trigger] next@[b])@.len() == m@ - 1,
                u == &level@[a as int],
                i <= u@.len(),
                forall|v: Seq<char>|
                    #[trigger] char_views(next@).contains(v) <==> (exists|b: int|
                        0 <= b < a && #[trigger] one_deletion(level@[b]@).contains(v)) || (exists|k: int|
                        0 <= k < i && v == u@.remove(k)),
            decreases u@.len() - i,
        {
            let mut x = u.clone();
            x.remove(i);
            let ghost before = char_views(next@);
            next.push(x);
            proof {
                assert(next@[next@.len() - 1] == x);
                assert(char_views(next@) =~= before.push(x@));
                assert forall|v: Seq<char>| #[trigger] char_views(next@).contains(v) <==> before.contains(v) || v == x@ by {
                    if char_views(next@).contains(v) {
                        let p = choose|p: int| 0 <= p < char_views(next@).len() && char_views(next@)[p] == v;
                        if p < before.len() {
                            assert(before[p] == v);
                        }
                    }
                    if before.contains(v) {
                        let p = choose|p: int| 0 <= p < before.len() && before[p] == v;
                        assert(char_views(next@)[p] == v);
                    }
                    if v == x@ {
                        assert(char_views(next@)[before.len() as int] == v);
                    }
                }
            }
            i = i + 1;
        }
        proof {
            assert forall|v: Seq<char>| #[trigger] char_views(next@).contains(v) <==> exists|b: int|
                0 <= b < a + 1 && #[trigger] one_deletion(level@[b]@).contains(v) by {
                if exists|k: int| 0 <= k < i && v == u@.remove(k) {
                    assert(one_deletion(level@[a as int]@).contains(v));
                }
                if one_deletion(level@[a as int]@).contains(v) {
                    let k = choose|k: int| 0 <= k < u@.len() && v == u@.remove(k);
                }
            }
        }
        assert(next@.len() == (a + 1) * m@) by (nonlinear_arith)
            requires next@.len() == a * m@ + i, i == m@;
        a = a + 1;
    }
    proof {
        assert forall|v: Seq<char>| #[trigger] char_views(next@).contains(v) <==> exists|u: Seq<char>|
            #[trigger] char_views(level@).contains(u) && one_deletion(u).contains(v) by {
            if char_views(next@).contains(v) {
                let b = choose|b: int| 0 <= b < a && #[trigger] one_deletion(level@[b]@).contains(v);
                assert(char_views(level@)[b] == level@[b]@);
                assert(char_views(level@).contains(level@[b]@) && one_deletion(level@[b]@).contains(v));
            }
            if exists|u: Seq<char>| #[trigger] char_views(level@).contains(u) && one_deletion(u).contains(v) {
                let u = choose|u: Seq<char>| #[trigger] char_views(level@).contains(u) && one_deletion(u).contains(v);
                let b = choose|b: int| 0 <= b < char_views(level@).len() && char_views(level@)[b] == u;
                assert(level@[b]@ == u);
                assert(one_deletion(level@[b]@).contains(v));
            }
        }
    }
    next
}

/// Every string that deleting at least one and at most `edit_distance`
/// characters of `word` leaves (possibly more than once).
pub fn get_variants(word: &str, edit_distance: u64) -> (r: Vec<String>)
    ensures
        r@.len() == variant_count(word@.len(), edit_distance as nat),
        forall|v: Seq<char>| #[trigger] string_views(r@).contains(v) <==> is_variant(word@, v, edit_distance as int),
{
    let mut level: Vec<Vec<char>> = Vec::new();
    level.push(str_chars(word));
    let mut found: Vec<Vec<char>> = Vec::new();
    let mut k: u64 = 0;
    proof {
        assert forall|v: Seq<char>| #[trigger] char_views(level@).contains(v) <==> deletions(word@, 0).contains(v) by {
            if v == word@ {
                assert(char_views(level@)[0] == v);
            }
        }
    }
    let ghost n = word@.len();
    while k < edit_distance && level.len() > 0
        invariant
            n == word@.len(),
            k <= edit_distance,
            level@.len() == falling(n, k as nat),
            k <= n ==> forall|a: int| 0 <= a < level@.len() ==> (#[trigger] level@[a])@.len() == n - k,
            k > n ==> level@.len() == 0,
            found@.len() == variant_count(n, k as nat),
            forall|v: Seq<char>| #[trigger] char_views(level@).contains(v) <==> deletions(word@, k as nat).contains(v),
            forall|v: Seq<char>|
                #[trigger] char_views(found@).contains(v) <==> is_variant(word@, v, k as int),
        decreases edit_distance - k,
    {
        let mut next = delete_one_each(&level, Ghost((n - k) as nat));
        proof {
            assert(k <= n);
            if k + 1 > n {
                assert(falling(n, (k + 1) as nat) == 0);
                assert(next@.len() == 0) by (nonlinear_arith)
                    requires next@.len() == level@.len() * ((n - k) as nat), n - k == 0;
            } else {
                assert(falling(n, (k + 1) as nat) == falling(n, k as nat) * ((n - k) as nat));
            }
        }
        proof {
            lemma_deletions_step(word@, k as nat);
            assert forall|v: Seq<char>| #[trigger] char_views(next@).contains(v) <==> deletions(word@, (k + 1) as nat).contains(v) by {
                if char_views(next@).contains(v) {
                    let u = choose|u: Seq<char>| #[trigger] char_views(level@).contains(u) && one_deletion(u).contains(v);
                    assert(deletions(word@, k as nat).contains(u));
                }
                if deletions(word@, (k + 1) as nat).contains(v) {
                    let u = choose|u: Seq<char>| #[trigger] deletions(word@, k as nat).contains(u) && one_deletion(u).contains(v);
                    assert(char_views(level@).contains(u));
                }
            }
        }
        let ghost before = char_views(found@);
        let mut copy = next.clone();
        found.append(&mut copy);
        proof {
            assert(char_views(found@) =~= before + char_views(next@));
            assert forall|v: Seq<char>| #[trigger] char_views(found@).contains(v) <==> is_variant(word@, v, k + 1) by {
                if char_views(found@).contains(v) {
                    let p = choose|p: int| 0 <= p < char_views(found@).len() && char_views(found@)[p] == v;
                    if p < before.len() {
                        assert(before[p] == v);
                        assert(before.contains(v));
                        let kk = choose|kk: nat| 1 <= kk <= k && #[trigger] deletions(word@, kk).contains(v);
                    } else {
                        assert(char_views(next@)[p - before.len()] == v);
                        assert(char_views(next@).contains(v));
                        assert(deletions(word@, (k + 1) as nat).contains(v));
                    }
                }
                if is_variant(word@, v, k + 1) {
                    let kk = choose|kk: nat| 1 <= kk <= k + 1 && #[trigger] deletions(word@, kk).contains(v);
                    if kk <= k {
                        assert(is_variant(word@, v, k as int));
                        assert(before.contains(v));
                        let p = choose|p: int| 0 <= p < before.len() && before[p] == v;
                        assert(char_views(found@)[p] == v);
                    } else {
                        assert(char_views(next@).contains(v));
                        let p = choose|p: int| 0 <= p < char_views(next@).len() && char_views(next@)[p] == v;
                        assert(char_views(found@)[before.len() + p] == v);
                    }
                }
            }
        }
        level = next;
        k = k + 1;
        proof {
            assert(found@.len() == variant_count(n, k as nat));
        }
    }
    proof {
        if level.len() == 0 {
            lemma_count_stops(n, k as nat, edit_distance as nat);
        }
    }
    proof {
        if level.len() == 0 {
            assert forall|v: Seq<char>| !#[trigger] deletions(word@, k as nat).contains(v) by {
                if deletions(word@, k as nat).contains(v) {
                    assert(char_views(level@).contains(v));
                }
            }
            assert forall|v: Seq<char>| is_variant(word@, v, edit_distance as int) implies #[trigger] char_views(found@).contains(v) by {
                let kk = choose|kk: nat| 1 <= kk <= edit_distance && #[trigger] deletions(word@, kk).contains(v);
                if kk > k {
                    lemma_deletions_empty(word@, k as nat, kk);
                }
            }
        }
    }
    let mut r: Vec<String> = Vec::new();
    let mut i: usize = 0;
    while i < found.len()
        invariant
            i <= found@.len(),
            r@.len() == i,
            string_views(r@) == char_views(found@).take(i as int),
        decreases found@.len() - i,
    {
        let s = chars_to_string(found[i].as_slice());
        let ghost before = string_views(r@);
        r.push(s);
        assert(string_views(r@) =~= before.push(s@));
        i = i + 1;
        assert(string_views(r@) =~= char_views(found@).take(i as int));
    }
    proof {
        assert(char_views(found@).take(i as int) =~= char_views(found@));
    }
    r
}

/// Deleting `k + 1` characters is deleting `k`, then one more.
pub proof fn lemma_deletions_step(w: Seq<char>, k: nat)
    ensures
        forall|v: Seq<char>| #[trigger] deletions(w, k + 1).contains(v) <==> exists|u: Seq<char>|
            #[trigger] deletions(w, k).contains(u) && one_deletion(u).contains(v),
{
    let next = Set::new(|v: Seq<char>| exists|u: Seq<char>| #[trigger] deletions(w, k).contains(u) && one_deletion(u).contains(v));
    assert(((k + 1) as nat - 1) as nat == k);
    assert(deletions(w, k + 1) =~= next);
}

/// Nothing can be deleted from the empty string.
pub proof fn lemma_empty_has_no_variants(v: Seq<char>, d: int)
    ensures
        !is_variant(Seq::empty(), v, d),
{
    assert forall|k: nat| k >= 1 implies !#[trigger] deletions(Seq::<char>::empty(), k).contains(v) by {
        lemma_no_deletions_of_empty(k, v);
    }
}

proof fn lemma_no_deletions_of_empty(k: nat, v: Seq<char>)
    requires
        k >= 1,
    ensures
        !deletions(Seq::<char>::empty(), k).contains(v),
    decreases k,
{
    let e = Seq::<char>::empty();
    lemma_deletions_step(e, (k - 1) as nat);
    assert((k - 1) as nat + 1 == k);
    if deletions(e, k).contains(v) {
        let u = choose|u: Seq<char>| #[trigger] deletions(e, (k - 1) as nat).contains(u) && one_deletion(u).contains(v);
        if k == 1 {
            assert(u == e);
        } else {
            lemma_no_deletions_of_empty((k - 1) as nat, u);
        }
    }
}

/// Once no string is left after `k` deletions, none is left after more.
proof fn lemma_deletions_empty(w: Seq<char>, k: nat, m: nat)
    requires
        k <= m,
        forall|v: Seq<char>| !#[trigger] deletions(w, k).contains(v),
    ensures
        forall|v: Seq<char>| !#[trigger] deletions(w, m).contains(v),
    decreases m - k,
{
    if k < m {
        lemma_deletions_step(w, k);
        assert forall|v: Seq<char>| !#[trigger] deletions(w, (k + 1) as nat).contains(v) by {
            if deletions(w, (k + 1) as nat).contains(v) {
                let u = choose|u: Seq<char>| #[trigger] deletions(w, k).contains(u) && one_deletion(u).contains(v);
            }
        }
        lemma_deletions_empty(w, (k + 1) as nat, m);
    }
}

} // verus!
