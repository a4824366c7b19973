//! The finite-state transducers of the `fst` crate, as seen by the library.
//!
//! An FST maps byte strings to `u64` outputs. Its contents are named by
//! `fst_entries`; a node of it, addressed by a `CompiledAddr`, is described
//! by `node_lang`: the suffixes accepted from that node, each with the part of
//! its output that the path from the node onwards contributes.
use fst::raw::{Builder, Fst};
use vstd::prelude::*;

verus! {

#[verifier::external_type_specification]
#[verifier::external_body]
#[verifier::reject_recursive_types(D)]
pub struct ExFst<D>(fst::raw::Fst<D>);

#[verifier::external_type_specification]
#[verifier::external_body]
#[verifier::reject_recursive_types(W)]
pub struct ExBuilder<W>(fst::raw::Builder<W>);

#[verifier::external_type_specification]
#[verifier::external_body]
pub struct ExFstError(fst::Error);

/// The keys of an FST with their outputs.
pub uninterp spec fn fst_entries(f: Fst<Vec<u8>>) -> Map<Seq<u8>, u64>;

/// The keys inserted so far into an FST builder, with their outputs.
pub uninterp spec fn builder_entries(b: Builder<Vec<u8>>) -> Map<Seq<u8>, u64>;

/// The FST has the layout that fst's `Builder` writes: every node lies on
/// the path of some key, a node is written after the nodes its transitions
/// lead to, and the key count in its trailer is the number of keys.
pub uninterp spec fn fst_checked(f: Fst<Vec<u8>>) -> bool;

/// The bytes that hold an FST.
pub uninterp spec fn fst_bytes(f: Fst<Vec<u8>>) -> Seq<u8>;

/// Whether `addr` is the address of a node of the FST.
pub uninterp spec fn fst_has_node(f: Fst<Vec<u8>>, addr: usize) -> bool;

/// The suffixes accepted from the node at `addr`, each with the sum of the
/// transition outputs along its path and the final output where it ends.
pub uninterp spec fn node_lang(f: Fst<Vec<u8>>, addr: usize) -> Map<Seq<u8>, u64>;

/// Some suffix is accepted from a node with this language.
pub open spec fn live(lang: Map<Seq<u8>, u64>) -> bool {
    exists|s: Seq<u8>| lang.contains_key(s)
}

/// Some non-empty suffix is accepted from a node with this language.
pub open spec fn continues(lang: Map<Seq<u8>, u64>) -> bool {
    exists|s: Seq<u8>| #[trigger] lang.contains_key(s) && s.len() > 0
}

/// `small` is what `big` accepts after `key`, and `out` is the output of
/// `key` itself.
pub open spec fn shifted(
    big: Map<Seq<u8>, u64>,
    key: Seq<u8>,
    small: Map<Seq<u8>, u64>,
    out: int,
) -> bool {
    &&& forall|s: Seq<u8>| #[trigger] small.contains_key(s) <==> big.contains_key(key + s)
    &&& forall|s: Seq<u8>| #[trigger]
        small.contains_key(s) ==> big[key + s] == out + small[s]
}

/// No key of `big` starts with `key`.
pub open spec fn no_key_with_prefix(big: Map<Seq<u8>, u64>, key: Seq<u8>) -> bool {
    forall|s: Seq<u8>| !(#[trigger] big.contains_key(key + s))
}

/// Relies on `fst::raw::Builder::memory`: a new in-memory builder holds no key.
#[verifier::external_body]
pub fn builder_memory() -> (r: Builder<Vec<u8>>)
    ensures
        builder_entries(r).dom() == Set::<Seq<u8>>::empty(),
{
    Builder::memory()
}

/// Relies on `fst::raw::Builder::insert`: the key is added with its output
/// when it is greater than every key inserted before; otherwise an error is
/// returned and the builder is left as it was.
#[verifier::external_body]
pub fn builder_insert(b: &mut Builder<Vec<u8>>, key: &[u8], val: u64) -> (r: Result<
    (),
    fst::Error,
>)
    ensures
        r is Ok <==> (forall|k: Seq<u8>|
            #[trigger] builder_entries(*old(b)).contains_key(k) ==> crate::codec::bytes_lt(k, key@)),
        r is Ok ==> builder_entries(*final(b)) == builder_entries(*old(b)).insert(key@, val),
        r is Err ==> builder_entries(*final(b)) == builder_entries(*old(b)),
{
    b.insert(key, val)
}

/// Relies on `fst::raw::Builder::into_fst`: the finished FST holds exactly the
/// inserted keys with their outputs (an in-memory builder cannot fail to write).
#[verifier::external_body]
pub fn builder_into_fst(b: Builder<Vec<u8>>) -> (f: Fst<Vec<u8>>)
    ensures
        fst_entries(f) == builder_entries(b),
        fst_checked(f),
{
    b.into_fst()
}

/// Relies on `fst::raw::Fst::new`: reads an FST from its bytes. It checks
/// little more than the header, so only bytes of an FST that `Builder`
/// wrote are promised to read back as that FST.
#[verifier::external_body]
pub fn fst_from_bytes(bytes: Vec<u8>) -> (r: Result<Fst<Vec<u8>>, fst::Error>)
    ensures
        r is Err ==> forall|g: Fst<Vec<u8>>| !(fst_checked(g) && bytes@ == #[trigger] fst_bytes(g)),
        r matches Ok(h) ==> forall|g: Fst<Vec<u8>>|
            fst_checked(g) && bytes@ == #[trigger] fst_bytes(g) ==> fst_checked(h) && fst_entries(h) == fst_entries(g),
{
    Fst::new(bytes)
}

/// Relies on `fst::raw::Fst::as_bytes`: the serialized FST.
#[verifier::external_body]
pub fn fst_to_bytes(f: &Fst<Vec<u8>>) -> (r: Vec<u8>)
    ensures
        r@ == fst_bytes(*f),
{
    f.as_bytes().to_vec()
}

/// Relies on `fst::raw::Fst::get`: the output of a key, if it is in the FST.
#[verifier::external_body]
pub fn fst_get(f: &Fst<Vec<u8>>, key: &[u8]) -> (r: Option<u64>)
    requires
        fst_checked(*f),
    ensures
        r == (if fst_entries(*f).contains_key(key@) {
            Some(fst_entries(*f)[key@])
        } else {
            None::<u64>
        }),
{
    f.get(key).map(|o| o.value())
}

/// Relies on `fst::raw::Fst::len`: the number of keys.
#[verifier::external_body]
pub fn fst_len(f: &Fst<Vec<u8>>) -> (r: usize)
    requires
        fst_checked(*f),
    ensures
        r == fst_entries(*f).dom().len(),
{
    f.len()
}

/// Relies on `fst::raw::Fst::root`: the root node accepts exactly the keys.
#[verifier::external_body]
pub fn fst_root(f: &Fst<Vec<u8>>) -> (r: usize)
    requires
        fst_checked(*f),
    ensures
        fst_has_node(*f, r),
        node_lang(*f, r) == fst_entries(*f),
{
    f.root().addr()
}

/// Relies on `fst::raw::Node::is_final`: the node accepts the empty suffix.
#[verifier::external_body]
pub fn node_is_final(f: &Fst<Vec<u8>>, addr: usize) -> (r: bool)
    requires
        fst_checked(*f),
        fst_has_node(*f, addr),
    ensures
        r == node_lang(*f, addr).contains_key(Seq::empty()),
{
    f.node(addr).is_final()
}

/// Relies on `fst::raw::Node::final_output`: the output of the empty suffix
/// at a final node.
#[verifier::external_body]
pub fn node_final_output(f: &Fst<Vec<u8>>, addr: usize) -> (r: u64)
    requires
        fst_checked(*f),
        fst_has_node(*f, addr),
    ensures
        node_lang(*f, addr).contains_key(Seq::empty()) ==> r == node_lang(*f, addr)[Seq::empty()],
{
    f.node(addr).final_output().value()
}

/// Relies on `fst::raw::Node::find_input` and `fst::raw::Node::transition`:
/// the transition on byte `b`, as its target address and output. Nodes that
/// fst's `Builder` writes lie on the path of some key, and a node is written
/// after the nodes its transitions lead to, at a greater address.
#[verifier::external_body]
pub fn node_step(f: &Fst<Vec<u8>>, addr: usize, b: u8) -> (r: Option<(usize, u64)>)
    requires
        fst_checked(*f),
        fst_has_node(*f, addr),
    ensures
        r is None ==> no_key_with_prefix(node_lang(*f, addr), seq![b]),
        r matches Some((t, o)) ==> {
            &&& fst_has_node(*f, t)
            &&& t < addr
            &&& live(node_lang(*f, t))
            &&& shifted(node_lang(*f, addr), seq![b], node_lang(*f, t), o as int)
        },
{
    let node = f.node(addr);
    match node.find_input(b) {
        Some(i) => {
            let t = node.transition(i);
            Some((t.addr, t.out.value()))
        },
        None => None,
    }
}

/// Relies on `fst::raw::Node::len`: the node has a transition exactly when it
/// accepts a non-empty suffix (every node that fst's `Builder` writes lies on
/// the path of some key).
#[verifier::external_body]
pub fn node_len(f: &Fst<Vec<u8>>, addr: usize) -> (r: usize)
    requires
        fst_checked(*f),
        fst_has_node(*f, addr),
    ensures
        (r != 0) == continues(node_lang(*f, addr)),
{
    f.node(addr).len()
}

/// Walking zero bytes stays at the node.
pub proof fn lemma_shifted_refl(a: Map<Seq<u8>, u64>)
    ensures
        shifted(a, Seq::empty(), a, 0),
{
    assert forall|s: Seq<u8>| #[trigger] a.contains_key(s) <==> a.contains_key(Seq::<u8>::empty() + s) by {
        assert(Seq::<u8>::empty() + s =~= s);
    }
    assert forall|s: Seq<u8>| #[trigger] a.contains_key(s) implies a[Seq::<u8>::empty() + s] == 0 + a[s] by {
        assert(Seq::<u8>::empty() + s =~= s);
    }
}

/// Two walks in a row are one walk over the concatenated bytes.
pub proof fn lemma_shifted_trans(
    a: Map<Seq<u8>, u64>,
    k1: Seq<u8>,
    b: Map<Seq<u8>, u64>,
    o1: int,
    k2: Seq<u8>,
    c: Map<Seq<u8>, u64>,
    o2: int,
)
    requires
        shifted(a, k1, b, o1),
        shifted(b, k2, c, o2),
    ensures
        shifted(a, k1 + k2, c, o1 + o2),
{
    assert forall|s: Seq<u8>| #[trigger] c.contains_key(s) <==> a.contains_key((k1 + k2) + s) by {
        assert((k1 + k2) + s =~= k1 + (k2 + s));
        assert(b.contains_key(k2 + s) <==> a.contains_key(k1 + (k2 + s)));
    }
    assert forall|s: Seq<u8>| #[trigger] c.contains_key(s) implies a[(k1 + k2) + s] == (o1 + o2) + c[s] by {
        assert((k1 + k2) + s =~= k1 + (k2 + s));
        assert(b.contains_key(k2 + s));
    }
}

/// Some key of `a` starts with `w`.
pub open spec fn has_path(a: Map<Seq<u8>, u64>, w: Seq<u8>) -> bool {
    exists|s: Seq<u8>| #[trigger] a.contains_key(w + s)
}

/// Walks `key` from the node at `addr`: the node reached and the output of
/// the walk, or `None` where no key from `addr` starts with `key`.
pub fn walk(f: &Fst<Vec<u8>>, addr: usize, key: &[u8]) -> (r: Option<(usize, u64)>)
    requires
        fst_checked(*f),
        fst_has_node(*f, addr),
    ensures
        r is None ==> !has_path(node_lang(*f, addr), key@),
        r matches Some((t, o)) ==> {
            &&& fst_has_node(*f, t)
            &&& shifted(node_lang(*f, addr), key@, node_lang(*f, t), o as int)
            &&& key@.len() > 0 ==> live(node_lang(*f, t))
        },
{
    let mut node: usize = addr;
    let mut out: u64 = 0;
    let mut i: usize = 0;
    proof {
        lemma_shifted_refl(node_lang(*f, addr));
    }
    while i < key.len()
        invariant
            i <= key@.len(),
            fst_checked(*f),
            fst_has_node(*f, addr),
            fst_has_node(*f, node),
            shifted(node_lang(*f, addr), key@.take(i as int), node_lang(*f, node), out as int),
            i > 0 ==> live(node_lang(*f, node)),
        decreases key@.len() - i,
    {
        match node_step(f, node, key[i]) {
            None => {
                proof {
                    let k = key@.take(i as int);
                    assert forall|s: Seq<u8>| !(#[trigger] node_lang(*f, addr).contains_key(key@ + s)) by {
                        let rest = key@.skip(i as int + 1) + s;
                        assert(key@ + s =~= k + (seq![key@[i as int]] + rest));
                        assert(!node_lang(*f, node).contains_key(seq![key@[i as int]] + rest));
                    }
                }
                return None;
            },
            Some((t, o)) => {
                proof {
                    let lt = node_lang(*f, t);
                    let s0 = choose|s: Seq<u8>| lt.contains_key(s);
                    assert(node_lang(*f, node).contains_key(seq![key@[i as int]] + s0));
                    assert(node_lang(*f, node)[seq![key@[i as int]] + s0] == o + lt[s0]);
                    let k = key@.take(i as int);
                    assert(node_lang(*f, addr).contains_key(k + (seq![key@[i as int]] + s0)));
                    assert(node_lang(*f, addr)[k + (seq![key@[i as int]] + s0)] == out + (o + lt[s0]));
                    lemma_shifted_trans(
                        node_lang(*f, addr),
                        k,
                        node_lang(*f, node),
                        out as int,
                        seq![key@[i as int]],
                        lt,
                        o as int,
                    );
                    assert(key@.take(i + 1) =~= k + seq![key@[i as int]]);
                }
                node = t;
                out = out + o;
                i = i + 1;
            },
        }
    }
    proof {
        assert(key@.take(i as int) =~= key@);
        if has_path(node_lang(*f, addr), key@) {
        }
    }
    Some((node, out))
}

} // verus!
