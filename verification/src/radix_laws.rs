use vstd::prelude::*;
use crate::bytes::{lcp, lemma_lcp, lemma_lcp_unique, seq_le, seq_lt};
use crate::radx::{
    first_ins_hit, has_empty_label, ins_hit, label_index, shortest_label_prefix, leaf_model, model_delete, model_insert,
    model_locate, model_range, model_with_kvp, sorted_pos, split_model, RadixModel, emit_rev,
    range_below,
};

verus! {

/// Every edge but the first has a non-empty label, and the non-empty labels
/// start with strictly increasing bytes.
pub open spec fn edges_ordered(edges: Seq<(Seq<u8>, RadixModel)>) -> bool {
    forall|i: int, j: int|
        0 <= i < j < edges.len() ==> #[trigger] edges[j].0.len() > 0 && (#[trigger] edges[i].0.len() > 0
            ==> edges[i].0[0] < edges[j].0[0])
}

/// No edge has the empty label.
pub open spec fn labels_nonempty(edges: Seq<(Seq<u8>, RadixModel)>) -> bool {
    forall|i: int| 0 <= i < edges.len() ==> #[trigger] edges[i].0.len() > 0
}

/// A node below the root: its edges are ordered with non-empty labels, it
/// ends a key or has an edge, and so does every node below it.
pub open spec fn node_wf(t: RadixModel) -> bool
    decreases t,
{
    &&& edges_ordered(t.edges)
    &&& labels_nonempty(t.edges)
    &&& (t.is_end || t.edges.len() > 0)
    &&& forall|i: int| 0 <= i < t.edges.len() ==> node_wf(#[trigger] t.edges[i].1)
}

/// The root: its edges are ordered, it ends no key, an edge with the empty
/// label is its only edge and leads to a node that ends a key, and every node
/// below it is well formed.
pub open spec fn root_wf(t: RadixModel) -> bool {
    &&& edges_ordered(t.edges)
    &&& !t.is_end
    &&& (has_empty_label(t) ==> t.edges.len() == 1 && t.edges[0].1.is_end)
    &&& forall|i: int| 0 <= i < t.edges.len() ==> node_wf(#[trigger] t.edges[i].1)
}

/// Whether `w` leads from `t` along edges to a node that ends a key.
pub open spec fn stores(t: RadixModel, w: Seq<u8>) -> bool
    decreases t,
{
    ||| (w.len() == 0 && t.is_end)
    ||| exists|i: int|
        0 <= i < t.edges.len() && (#[trigger] t.edges[i]).0.is_prefix_of(w) && stores(
            t.edges[i].1,
            w.skip(t.edges[i].0.len() as int),
        )
}

/// Whether `w` leads from `t` through its edge `i` to a node that ends a key.
pub open spec fn stores_via(t: RadixModel, i: int, w: Seq<u8>) -> bool {
    0 <= i < t.edges.len() && t.edges[i].0.is_prefix_of(w) && stores(t.edges[i].1, w.skip(t.edges[i].0.len() as int))
}

/// Whether `w` leads from `t` through one of its edges to a node that ends a key.
pub open spec fn held_below(t: RadixModel, w: Seq<u8>) -> bool {
    exists|i: int| stores_via(t, i, w)
}

/// `w` is `k` followed by at least one more byte.
pub open spec fn extends(k: Seq<u8>, w: Seq<u8>) -> bool {
    k.is_prefix_of(w) && k.len() < w.len()
}

/// No key held below the edges of `t` extends `k`.
pub open spec fn no_extension_below(t: RadixModel, k: Seq<u8>) -> bool {
    forall|i: int, w: Seq<u8>| stores_via(t, i, w) ==> !extends(k, w)
}

/// The keys a tree holds.
pub open spec fn keys(t: RadixModel) -> Set<Seq<u8>> {
    Set::new(|w: Seq<u8>| stores(t, w))
}

proof fn lemma_stores_unfold(t: RadixModel, w: Seq<u8>)
    ensures
        stores(t, w) <==> ((w.len() == 0 && t.is_end) || held_below(t, w)),
{
    if stores(t, w) && !(w.len() == 0 && t.is_end) {
        let i = choose|i: int|
            0 <= i < t.edges.len() && (#[trigger] t.edges[i]).0.is_prefix_of(w) && stores(
                t.edges[i].1,
                w.skip(t.edges[i].0.len() as int),
            );
        assert(stores_via(t, i, w));
    }
    if exists|i: int| stores_via(t, i, w) {
        let i = choose|i: int| stores_via(t, i, w);
        assert(t.edges[i].0.is_prefix_of(w));
    }
}

proof fn lemma_stores_leaf(w: Seq<u8>)
    ensures
        stores(leaf_model(), w) <==> w.len() == 0,
{
    lemma_stores_unfold(leaf_model(), w);
}

/// A well-formed node below the root holds some key.
proof fn lemma_node_holds_key(t: RadixModel) -> (w: Seq<u8>)
    requires
        node_wf(t),
    ensures
        stores(t, w),
    decreases t,
{
    if t.is_end {
        Seq::empty()
    } else {
        assert(node_wf(t.edges[0].1));
        let w1 = lemma_node_holds_key(t.edges[0].1);
        let w = t.edges[0].0 + w1;
        assert(w.skip(t.edges[0].0.len() as int) =~= w1);
        assert(t.edges[0].0.is_prefix_of(w));
        assert(stores_via(t, 0, w));
        lemma_stores_unfold(t, w);
        w
    }
}

proof fn lemma_first_ins_hit(edges: Seq<(Seq<u8>, RadixModel)>, k: Seq<u8>, i: nat)
    requires
        i <= edges.len(),
    ensures
        i <= first_ins_hit(edges, k, i) <= edges.len(),
        first_ins_hit(edges, k, i) < edges.len() ==> ins_hit(edges[first_ins_hit(edges, k, i) as int].0, k),
        forall|j: int| i <= j < first_ins_hit(edges, k, i) ==> !ins_hit(#[trigger] edges[j].0, k),
    decreases edges.len() - i,
{
    if i < edges.len() && !ins_hit(edges[i as int].0, k) {
        lemma_first_ins_hit(edges, k, i + 1);
    }
}

proof fn lemma_sorted_pos(edges: Seq<(Seq<u8>, RadixModel)>, k: Seq<u8>, i: nat)
    requires
        i <= edges.len(),
    ensures
        i <= sorted_pos(edges, k, i) <= edges.len(),
        sorted_pos(edges, k, i) < edges.len() ==> !seq_lt(edges[sorted_pos(edges, k, i) as int].0, k),
        forall|j: int| i <= j < sorted_pos(edges, k, i) ==> seq_lt(#[trigger] edges[j].0, k),
    decreases edges.len() - i,
{
    if i < edges.len() && seq_lt(edges[i as int].0, k) {
        lemma_sorted_pos(edges, k, i + 1);
    }
}

/// For non-empty strings, sharing a first byte is having a common prefix.
proof fn lemma_first_byte(a: Seq<u8>, b: Seq<u8>)
    requires
        a.len() > 0,
        b.len() > 0,
    ensures
        (lcp(a, b) > 0) <==> (a[0] == b[0]),
        ins_hit(a, b) <==> (a[0] == b[0]),
        a[0] != b[0] ==> (seq_lt(a, b) <==> a[0] < b[0]),
{
    lemma_lcp(a, b);
}

proof fn lemma_node_wf_leaf()
    ensures
        node_wf(leaf_model()),
{
}

/// A prefix, followed by the rest, is the whole.
proof fn lemma_prefix_split(p: Seq<u8>, w: Seq<u8>)
    requires
        p.is_prefix_of(w),
    ensures
        w =~= p + w.skip(p.len() as int),
{
}

/// Replacing edge `i` by one that keeps its first byte and keys, and adds
/// only `k` or extensions of `k`, does the same to the keys held below the
/// edges.
proof fn lemma_replace_edge(t: RadixModel, t2: RadixModel, i: int, k: Seq<u8>)
    requires
        0 <= i < t.edges.len(),
        t2.edges == t.edges.update(i, t2.edges[i]),
        edges_ordered(t.edges),
        labels_nonempty(t.edges),
        forall|j: int| 0 <= j < t.edges.len() ==> node_wf(#[trigger] t.edges[j].1),
        t2.edges[i].0.len() > 0,
        t2.edges[i].0[0] == t.edges[i].0[0],
        node_wf(t2.edges[i].1),
        forall|w: Seq<u8>| stores_via(t, i, w) ==> stores_via(t2, i, w),
        forall|w: Seq<u8>| stores_via(t2, i, w) ==> stores_via(t, i, w) || w == k || extends(k, w),
    ensures
        t2.edges.len() == t.edges.len(),
        edges_ordered(t2.edges),
        labels_nonempty(t2.edges),
        forall|j: int| 0 <= j < t2.edges.len() ==> node_wf(#[trigger] t2.edges[j].1),
        forall|w: Seq<u8>| held_below(t, w) ==> #[trigger] held_below(t2, w),
        forall|w: Seq<u8>| #[trigger] held_below(t2, w) ==> held_below(t, w) || w == k || extends(k, w),
        stores_via(t2, i, k) ==> held_below(t2, k),
        (forall|w: Seq<u8>| stores_via(t2, i, w) ==> stores_via(t, i, w) || w == k)
            ==> (forall|w: Seq<u8>| #[trigger] held_below(t2, w) ==> held_below(t, w) || w == k),
{
    assert forall|j: int, w: Seq<u8>| j != i implies stores_via(t2, j, w) == stores_via(t, j, w) by {
        if 0 <= j < t.edges.len() {
            assert(t2.edges[j] == t.edges[j]);
        }
    }
    assert forall|w: Seq<u8>| held_below(t2, w) implies held_below(t, w) || w == k || extends(k, w) by {
        let j = choose|j: int| stores_via(t2, j, w);
        if j != i {
            assert(stores_via(t, j, w));
        }
    }
    assert forall|w: Seq<u8>| held_below(t, w) implies held_below(t2, w) by {
        let j = choose|j: int| stores_via(t, j, w);
        assert(stores_via(t2, j, w));
    }
    if forall|w: Seq<u8>| stores_via(t2, i, w) ==> stores_via(t, i, w) || w == k {
        assert forall|w: Seq<u8>| held_below(t2, w) implies held_below(t, w) || w == k by {
            let j = choose|j: int| stores_via(t2, j, w);
            if j != i {
                assert(stores_via(t, j, w));
            }
        }
    }
    assert forall|j: int| 0 <= j < t2.edges.len() implies node_wf(#[trigger] t2.edges[j].1) by {
        if j != i {
            assert(t2.edges[j] == t.edges[j]);
        }
    }
    assert forall|x: int, y: int| 0 <= x < y < t2.edges.len() implies #[trigger] t2.edges[y].0.len() > 0
        && (#[trigger] t2.edges[x].0.len() > 0 ==> t2.edges[x].0[0] < t2.edges[y].0[0]) by {
        assert(t.edges[x].0.len() > 0);
        assert(t.edges[y].0.len() > 0);
    }
}

/// A node with the same edges as `c` that ends a key holds what `c` holds and
/// the empty key.
proof fn lemma_marked(c: RadixModel, c2: RadixModel)
    requires
        c2.edges == c.edges,
        c2.is_end,
    ensures
        forall|x: Seq<u8>| stores(c2, x) == (stores(c, x) || x.len() == 0),
{
    assert forall|x: Seq<u8>| stores(c2, x) == (stores(c, x) || x.len() == 0) by {
        lemma_stores_unfold(c2, x);
        lemma_stores_unfold(c, x);
        assert forall|j: int| stores_via(c2, j, x) == stores_via(c, j, x) by {}
        if held_below(c2, x) {
            let j = choose|j: int| stores_via(c2, j, x);
            assert(stores_via(c, j, x));
        }
        if held_below(c, x) {
            let j = choose|j: int| stores_via(c, j, x);
            assert(stores_via(c2, j, x));
        }
    }
}

/// Insertion that stops at an edge whose label starts with the key.
proof fn lemma_insert_mark(t: RadixModel, k: Seq<u8>, i: int)
    requires
        0 <= i < t.edges.len(),
        labels_nonempty(t.edges),
        node_wf(t.edges[i].1),
        k.len() > 0,
        lcp(t.edges[i].0, k) == k.len(),
        model_insert(t, k).edges == t.edges.update(
            i,
            (t.edges[i].0, RadixModel { edges: t.edges[i].1.edges, is_end: true, kvp: t.edges[i].1.kvp }),
        ),
    ensures
        node_wf(model_insert(t, k).edges[i].1),
        forall|w: Seq<u8>| stores_via(t, i, w) ==> stores_via(model_insert(t, k), i, w),
        forall|w: Seq<u8>| stores_via(model_insert(t, k), i, w) ==> stores_via(t, i, w) || w == k || extends(k, w),
        no_extension_below(t, k) ==> stores_via(model_insert(t, k), i, k),
        no_extension_below(t, k) ==> (forall|w: Seq<u8>|
            stores_via(model_insert(t, k), i, w) ==> stores_via(t, i, w) || w == k),
{
    let t2 = model_insert(t, k);
    let label = t.edges[i].0;
    let c = t.edges[i].1;
    let c2 = t2.edges[i].1;
    lemma_lcp(label, k);
    lemma_marked(c, c2);
    assert(k =~= label.subrange(0, k.len() as int));
    assert forall|w: Seq<u8>| stores_via(t2, i, w) == (stores_via(t, i, w) || w == label) by {
        if label.is_prefix_of(w) && w.skip(label.len() as int).len() == 0 {
            assert(w =~= label);
        }
        if w == label {
            assert(w.skip(label.len() as int).len() == 0);
        }
    }
    if label.len() > k.len() {
        assert(extends(k, label));
        if no_extension_below(t, k) {
            let w1 = lemma_node_holds_key(c);
            let w = label + w1;
            assert(w.skip(label.len() as int) =~= w1);
            assert(label.is_prefix_of(w));
            assert(stores_via(t, i, w));
            assert(k =~= w.subrange(0, k.len() as int));
            assert(extends(k, w));
            assert(false);
        }
    } else {
        assert(label =~= k);
    }
}

/// Insertion that stops at an edge labelled by a proper prefix of the key and
/// goes on below it.
proof fn lemma_insert_descend(t: RadixModel, k: Seq<u8>, i: int)
    requires
        0 <= i < t.edges.len(),
        node_wf(t.edges[i].1),
        k.len() > 0,
        lcp(t.edges[i].0, k) == t.edges[i].0.len(),
        t.edges[i].0.len() < k.len(),
        model_insert(t, k).edges == t.edges.update(
            i,
            (t.edges[i].0, model_insert(t.edges[i].1, k.skip(t.edges[i].0.len() as int))),
        ),
    ensures
        node_wf(model_insert(t, k).edges[i].1),
        forall|w: Seq<u8>| stores_via(t, i, w) ==> stores_via(model_insert(t, k), i, w),
        forall|w: Seq<u8>| stores_via(model_insert(t, k), i, w) ==> stores_via(t, i, w) || w == k || extends(k, w),
        no_extension_below(t, k) ==> stores_via(model_insert(t, k), i, k),
        no_extension_below(t, k) ==> (forall|w: Seq<u8>|
            stores_via(model_insert(t, k), i, w) ==> stores_via(t, i, w) || w == k),
    decreases t, 0int,
{
    let t2 = model_insert(t, k);
    let label = t.edges[i].0;
    let c = t.edges[i].1;
    let l = label.len() as int;
    let k2 = k.skip(l);
    lemma_lcp(label, k);
    assert(label =~= k.subrange(0, l));
    assert(label.is_prefix_of(k));
    assert(k =~= label + k2);
    assert(decreases_to!(t => t.edges));
    assert(decreases_to!(t.edges => t.edges[i]));
    assert(decreases_to!(t.edges[i] => c));
    lemma_insert_below(c, k2);
    let c2 = model_insert(c, k2);
    assert forall|x: Seq<u8>| stores(c, x) implies stores(c2, x) by {
        lemma_stores_unfold(c2, x);
        lemma_stores_unfold(c, x);
    }
    assert forall|x: Seq<u8>| stores(c2, x) implies stores(c, x) || x == k2 || extends(k2, x) by {
        lemma_stores_unfold(c2, x);
        lemma_stores_unfold(c, x);
    }
    assert(node_wf(c2));
    if no_extension_below(t, k) {
        assert forall|j2: int, x: Seq<u8>| stores_via(c, j2, x) implies !extends(k2, x) by {
            lemma_stores_unfold(c, x);
            let w = label + x;
            assert(w.skip(l) =~= x);
            assert(label.is_prefix_of(w));
            assert(stores_via(t, i, w));
            if extends(k2, x) {
                assert(k =~= w.subrange(0, k.len() as int));
                assert(extends(k, w));
            }
        }
        lemma_stores_unfold(c2, k2);
        assert(stores_via(t2, i, k));
        assert forall|x: Seq<u8>| stores(c2, x) implies stores(c, x) || x == k2 by {
            lemma_stores_unfold(c2, x);
            lemma_stores_unfold(c, x);
        }
        assert forall|w: Seq<u8>| stores_via(t2, i, w) implies stores_via(t, i, w) || w == k by {
            let x = w.skip(l);
            lemma_prefix_split(label, w);
            if x == k2 {
                assert(w =~= k);
            }
        }
    }
    assert forall|w: Seq<u8>| stores_via(t2, i, w) implies stores_via(t, i, w) || w == k || extends(k, w) by {
        let x = w.skip(l);
        lemma_prefix_split(label, w);
        if x == k2 {
            assert(w =~= k);
        }
        if extends(k2, x) {
            assert(k =~= w.subrange(0, k.len() as int));
        }
    }
}

/// Insertion that stops in the middle of an edge and splits it.
proof fn lemma_insert_split(t: RadixModel, k: Seq<u8>, i: int)
    requires
        0 <= i < t.edges.len(),
        node_wf(t.edges[i].1),
        0 < lcp(t.edges[i].0, k) < t.edges[i].0.len(),
        lcp(t.edges[i].0, k) < k.len(),
        model_insert(t, k).edges == t.edges.update(
            i,
            (
                t.edges[i].0.take(lcp(t.edges[i].0, k) as int),
                split_model(
                    t.edges[i].0.skip(lcp(t.edges[i].0, k) as int),
                    t.edges[i].1,
                    k.skip(lcp(t.edges[i].0, k) as int),
                ),
            ),
        ),
    ensures
        node_wf(model_insert(t, k).edges[i].1),
        model_insert(t, k).edges[i].0.len() > 0,
        model_insert(t, k).edges[i].0[0] == t.edges[i].0[0],
        forall|w: Seq<u8>| stores_via(t, i, w) ==> stores_via(model_insert(t, k), i, w),
        forall|w: Seq<u8>| stores_via(model_insert(t, k), i, w) ==> stores_via(t, i, w) || w == k,
        stores_via(model_insert(t, k), i, k),
{
    let t2 = model_insert(t, k);
    let label = t.edges[i].0;
    let c = t.edges[i].1;
    let l = lcp(label, k) as int;
    lemma_lcp(label, k);
    let a = label.skip(l);
    let b = k.skip(l);
    let mid = split_model(a, c, b);
    assert(t2.edges[i] == (label.take(l), mid));
    assert(a[0] == label[l]);
    assert(b[0] == k[l]);
    lemma_first_byte(a, b);
    assert forall|x: Seq<u8>| stores(mid, x) == ((a.is_prefix_of(x) && stores(c, x.skip(a.len() as int))) || x == b) by {
        lemma_stores_unfold(mid, x);
        lemma_stores_leaf(x.skip(b.len() as int));
        let ia: int = if seq_lt(a, b) { 0 } else { 1 };
        let ib: int = 1 - ia;
        assert(mid.edges[ia] == (a, c));
        assert(mid.edges[ib] == (b, leaf_model()));
        if a.is_prefix_of(x) && stores(c, x.skip(a.len() as int)) {
            assert(stores_via(mid, ia, x));
        }
        if x == b {
            assert(stores_via(mid, ib, x));
        }
        if b.is_prefix_of(x) && x.skip(b.len() as int).len() == 0 {
            assert(x =~= b);
        }
    }
    lemma_node_wf_leaf();
    assert(node_wf(mid));
    let h = label.take(l);
    assert(h[0] == label[0]);
    assert forall|w: Seq<u8>| stores_via(t2, i, w) == (stores_via(t, i, w) || w == k) by {
        if h.is_prefix_of(w) {
            let r = w.skip(l);
            if a.is_prefix_of(r) {
                assert(r.skip(a.len() as int) =~= w.skip(label.len() as int));
                assert(label =~= h + a);
                assert(w =~= h + r);
                assert(r =~= a + r.skip(a.len() as int));
                assert(label.is_prefix_of(w));
            }
            if r == b {
                assert(w =~= h + r);
                assert(k =~= k.take(l) + b);
                assert(k.take(l) =~= h);
            }
        }
        if label.is_prefix_of(w) {
            assert(h =~= w.subrange(0, l));
            let r = w.skip(l);
            assert(a =~= r.subrange(0, a.len() as int));
            assert(r.skip(a.len() as int) =~= w.skip(label.len() as int));
        }
        if w == k {
            assert(h =~= w.subrange(0, l));
        }
    }
}

/// Insertion that stops at no edge and adds one labelled by the key.
proof fn lemma_insert_fresh(t: RadixModel, k: Seq<u8>)
    requires
        edges_ordered(t.edges),
        labels_nonempty(t.edges),
        forall|i: int| 0 <= i < t.edges.len() ==> node_wf(#[trigger] t.edges[i].1),
        k.len() > 0,
        forall|j: int| 0 <= j < t.edges.len() ==> !ins_hit(#[trigger] t.edges[j].0, k),
        model_insert(t, k).edges == t.edges.insert(sorted_pos(t.edges, k, 0) as int, (k, leaf_model())),
    ensures
        model_insert(t, k).edges.len() >= t.edges.len(),
        edges_ordered(model_insert(t, k).edges),
        labels_nonempty(model_insert(t, k).edges),
        forall|i: int| 0 <= i < model_insert(t, k).edges.len() ==> node_wf(#[trigger] model_insert(t, k).edges[i].1),
        forall|w: Seq<u8>| #[trigger] held_below(model_insert(t, k), w) <==> (held_below(t, w) || w == k),
{
    let t2 = model_insert(t, k);
    let p = sorted_pos(t.edges, k, 0);
    lemma_sorted_pos(t.edges, k, 0);
    assert forall|j: int| 0 <= j < t.edges.len() implies #[trigger] t.edges[j].0[0] != k[0] by {
        lemma_first_byte(t.edges[j].0, k);
    }
    assert forall|j: int| 0 <= j < p implies #[trigger] t.edges[j].0[0] < k[0] by {
        lemma_first_byte(t.edges[j].0, k);
    }
    if p < t.edges.len() {
        lemma_first_byte(t.edges[p as int].0, k);
        assert(t.edges[p as int].0[0] > k[0]);
    }
    assert forall|j: int| p <= j < t.edges.len() implies #[trigger] t.edges[j].0[0] > k[0] by {
        if j > p {
            assert(t.edges[p as int].0[0] < t.edges[j].0[0]);
        }
    }
    assert forall|x: int, y: int| 0 <= x < y < t2.edges.len() implies #[trigger] t2.edges[y].0.len() > 0
        && (#[trigger] t2.edges[x].0.len() > 0 ==> t2.edges[x].0[0] < t2.edges[y].0[0]) by {
        if y < p {
            assert(t.edges[x].0.len() > 0);
        } else if y == p {
        } else if x < p {
        } else if x == p {
            assert(t2.edges[y] == t.edges[y - 1]);
        } else {
            assert(t2.edges[y] == t.edges[y - 1]);
            assert(t2.edges[x] == t.edges[x - 1]);
            assert(t.edges[x - 1].0.len() > 0);
        }
    }
    lemma_node_wf_leaf();
    assert forall|j: int| 0 <= j < t2.edges.len() implies node_wf(#[trigger] t2.edges[j].1) by {
        if j > p {
            assert(t2.edges[j] == t.edges[j - 1]);
        }
    }
    assert forall|w: Seq<u8>| held_below(t2, w) <==> (held_below(t, w) || w == k) by {
        if held_below(t2, w) {
            let j = choose|j: int| stores_via(t2, j, w);
            if j < p {
                assert(stores_via(t, j, w));
            } else if j == p {
                lemma_stores_leaf(w.skip(k.len() as int));
                assert(w =~= k);
            } else {
                assert(t2.edges[j] == t.edges[j - 1]);
                assert(stores_via(t, j - 1, w));
            }
        }
        if w == k {
            lemma_stores_leaf(w.skip(k.len() as int));
            assert(stores_via(t2, p as int, w));
        }
        if held_below(t, w) {
            let j = choose|j: int| stores_via(t, j, w);
            if j < p {
                assert(stores_via(t2, j, w));
            } else {
                assert(t2.edges[j + 1] == t.edges[j]);
                assert(stores_via(t2, j + 1, w));
            }
        }
    }
}

/// What inserting a non-empty key does below the edges of a node whose edges
/// have non-empty labels: the edges stay well formed, every key held stays
/// held, the keys added are the key itself or extensions of it, and the key
/// itself is added when no key held extends it.
proof fn lemma_insert_below(t: RadixModel, k: Seq<u8>)
    requires
        edges_ordered(t.edges),
        labels_nonempty(t.edges),
        forall|i: int| 0 <= i < t.edges.len() ==> node_wf(#[trigger] t.edges[i].1),
        k.len() > 0,
    ensures
        model_insert(t, k).is_end == t.is_end,
        model_insert(t, k).kvp == t.kvp,
        model_insert(t, k).edges.len() >= t.edges.len(),
        edges_ordered(model_insert(t, k).edges),
        labels_nonempty(model_insert(t, k).edges),
        forall|i: int| 0 <= i < model_insert(t, k).edges.len() ==> node_wf(#[trigger] model_insert(t, k).edges[i].1),
        forall|w: Seq<u8>| held_below(t, w) ==> #[trigger] held_below(model_insert(t, k), w),
        forall|w: Seq<u8>| #[trigger] held_below(model_insert(t, k), w)
            ==> held_below(t, w) || w == k || extends(k, w),
        no_extension_below(t, k) ==> held_below(model_insert(t, k), k),
        no_extension_below(t, k) ==> (forall|w: Seq<u8>|
            #[trigger] held_below(model_insert(t, k), w) ==> held_below(t, w) || w == k),
    decreases t, 1int,
{
    let t2 = model_insert(t, k);
    let i = first_ins_hit(t.edges, k, 0);
    lemma_first_ins_hit(t.edges, k, 0);
    if i < t.edges.len() {
        let label = t.edges[i as int].0;
        let l = lcp(label, k) as int;
        lemma_lcp(label, k);
        lemma_first_byte(label, k);
        assert(node_wf(t.edges[i as int].1));
        if l == k.len() {
            lemma_insert_mark(t, k, i as int);
        } else if l == label.len() {
            lemma_insert_descend(t, k, i as int);
        } else {
            lemma_insert_split(t, k, i as int);
        }
        lemma_replace_edge(t, t2, i as int, k);
    } else {
        lemma_insert_fresh(t, k);
        assert(held_below(t2, k));
    }
}

proof fn lemma_label_index(edges: Seq<(Seq<u8>, RadixModel)>, label: Seq<u8>, i: nat)
    ensures
        label_index(edges, label, i) == -1 || (i <= label_index(edges, label, i) < edges.len()),
        label_index(edges, label, i) >= 0 ==> edges[label_index(edges, label, i)].0 == label,
        label_index(edges, label, i) >= 0 ==> forall|j: int|
            i <= j < label_index(edges, label, i) ==> #[trigger] edges[j].0 != label,
        label_index(edges, label, i) == -1 ==> forall|j: int| i <= j < edges.len() ==> #[trigger] edges[j].0 != label,
    decreases edges.len() - i,
{
    if i < edges.len() && edges[i as int].0 != label {
        lemma_label_index(edges, label, i + 1);
    }
}

/// Below a root that ends no key, a key is held exactly when it is held
/// below one of its edges.
proof fn lemma_stores_root(t: RadixModel)
    requires
        !t.is_end,
    ensures
        forall|w: Seq<u8>| #[trigger] stores(t, w) == held_below(t, w),
{
    assert forall|w: Seq<u8>| #[trigger] stores(t, w) == held_below(t, w) by {
        lemma_stores_unfold(t, w);
    }
}

/// At a root whose only edge has the empty label, the keys are those of the
/// node below that edge.
proof fn lemma_stores_through_empty(t: RadixModel)
    requires
        !t.is_end,
        t.edges.len() == 1,
        t.edges[0].0.len() == 0,
    ensures
        forall|w: Seq<u8>| #[trigger] stores(t, w) == stores(t.edges[0].1, w),
{
    lemma_stores_root(t);
    assert forall|w: Seq<u8>| #[trigger] stores(t, w) == stores(t.edges[0].1, w) by {
        assert(w.skip(0) =~= w);
        assert(t.edges[0].0.is_prefix_of(w));
        if stores(t.edges[0].1, w) {
            assert(stores_via(t, 0, w));
        }
    }
}

/// What inserting does at a well-formed root.
proof fn lemma_insert_root(t: RadixModel, k: Seq<u8>)
    requires
        root_wf(t),
    ensures
        root_wf(model_insert(t, k)),
        forall|w: Seq<u8>| stores(t, w) ==> #[trigger] stores(model_insert(t, k), w),
        forall|w: Seq<u8>| #[trigger] stores(model_insert(t, k), w) ==> stores(t, w) || w == k || extends(k, w),
        (forall|w: Seq<u8>| stores(t, w) ==> !extends(k, w)) ==> stores(model_insert(t, k), k),
        (forall|w: Seq<u8>| stores(t, w) ==> !extends(k, w)) ==> (forall|w: Seq<u8>|
            #[trigger] stores(model_insert(t, k), w) ==> stores(t, w) || w == k),
{
    let t2 = model_insert(t, k);
    lemma_label_index(t.edges, Seq::empty(), 0);
    lemma_stores_root(t);
    if has_empty_label(t) {
        let c = t.edges[0].1;
        assert(t.edges[0].0 =~= Seq::<u8>::empty());
        lemma_stores_through_empty(t);
        assert(node_wf(c));
        assert(ins_hit(t.edges[0].0, k));
        assert(first_ins_hit(t.edges, k, 0) == 0);
        if k.len() > 0 {
            assert(k.skip(0) =~= k);
            lemma_insert_below(c, k);
            let c2 = model_insert(c, k);
            assert(t2.edges =~= seq![(t.edges[0].0, c2)]);
            assert forall|w: Seq<u8>| #[trigger] stores(c2, w) == (held_below(c2, w) || (w.len() == 0 && c.is_end)) by {
                lemma_stores_unfold(c2, w);
            }
            assert forall|w: Seq<u8>| #[trigger] stores(c, w) == (held_below(c, w) || (w.len() == 0 && c.is_end)) by {
                lemma_stores_unfold(c, w);
            }
            assert(node_wf(c2));
            lemma_stores_through_empty(t2);
            lemma_label_index(t2.edges, Seq::empty(), 0);
            if forall|w: Seq<u8>| stores(t, w) ==> !extends(k, w) {
                assert forall|i: int, w: Seq<u8>| stores_via(c, i, w) implies !extends(k, w) by {
                    assert(held_below(c, w));
                }
            }
            assert(edges_ordered(t2.edges));
            assert(!t2.is_end);
            assert(has_empty_label(t2) ==> t2.edges.len() == 1 && t2.edges[0].1.is_end);
            assert(forall|i: int| 0 <= i < t2.edges.len() ==> node_wf(#[trigger] t2.edges[i].1));
        } else {
            let c2 = t2.edges[0].1;
            assert(t2.edges =~= seq![(t.edges[0].0, RadixModel { edges: c.edges, is_end: true, kvp: c.kvp })]);
            lemma_marked(c, c2);
            assert(c.is_end);
            assert(c2 == c);
            assert(t2.edges =~= t.edges);
            assert(t2 == t);
        }
    } else {
        assert forall|j: int| 0 <= j < t.edges.len() implies #[trigger] t.edges[j].0.len() > 0 by {
            if t.edges[j].0.len() == 0 {
                assert(t.edges[j].0 =~= Seq::<u8>::empty());
            }
        }
        assert(labels_nonempty(t.edges));
        if k.len() > 0 {
            lemma_insert_below(t, k);
            lemma_label_index(t2.edges, Seq::empty(), 0);
            lemma_stores_root(t2);
            assert(edges_ordered(t2.edges));
            assert(!t2.is_end);
            if has_empty_label(t2) {
                let r = label_index(t2.edges, Seq::empty(), 0);
                assert(t2.edges[r].0.len() > 0);
            }
            assert(forall|i: int| 0 <= i < t2.edges.len() ==> node_wf(#[trigger] t2.edges[i].1));
            if forall|w: Seq<u8>| stores(t, w) ==> !extends(k, w) {
                assert forall|i: int, w: Seq<u8>| stores_via(t, i, w) implies !extends(k, w) by {
                    assert(held_below(t, w));
                }
            }
        } else if t.edges.len() == 0 {
            assert(sorted_pos(t.edges, k, 0) == 0);
            assert(t2.edges =~= seq![(k, leaf_model())]);
            assert(k =~= Seq::<u8>::empty());
            lemma_node_wf_leaf();
            lemma_stores_through_empty(t2);
            lemma_label_index(t2.edges, Seq::empty(), 0);
            assert forall|w: Seq<u8>| #[trigger] stores(t2, w) == (w.len() == 0) by {
                lemma_stores_leaf(w);
            }
            assert forall|w: Seq<u8>| !#[trigger] held_below(t, w) by {}
            assert(edges_ordered(t2.edges));
            assert(!t2.is_end);
            assert(forall|i: int| 0 <= i < t2.edges.len() ==> node_wf(#[trigger] t2.edges[i].1));
        } else {
            let label = t.edges[0].0;
            let c = t.edges[0].1;
            assert(ins_hit(label, k));
            assert(first_ins_hit(t.edges, k, 0) == 0);
            assert(node_wf(c));
            let c2 = RadixModel { edges: c.edges, is_end: true, kvp: c.kvp };
            assert(t2.edges == t.edges.update(0, (label, c2)));
            lemma_marked(c, c2);
            assert(node_wf(c2));
            lemma_stores_root(t2);
            lemma_label_index(t2.edges, Seq::empty(), 0);
            assert forall|j: int, w: Seq<u8>| j != 0 implies stores_via(t2, j, w) == stores_via(t, j, w) by {
                if 0 <= j < t.edges.len() {
                    assert(t2.edges[j] == t.edges[j]);
                }
            }
            assert forall|w: Seq<u8>| stores_via(t2, 0, w) == (stores_via(t, 0, w) || w == label) by {
                if label.is_prefix_of(w) && w.skip(label.len() as int).len() == 0 {
                    assert(w =~= label);
                }
                if w == label {
                    assert(w.skip(label.len() as int).len() == 0);
                }
            }
            assert(k.is_prefix_of(label));
            assert(extends(k, label));
            assert forall|w: Seq<u8>| held_below(t2, w) implies held_below(t, w) || w == k || extends(k, w) by {
                let j = choose|j: int| stores_via(t2, j, w);
                if j != 0 {
                    assert(stores_via(t, j, w));
                }
            }
            assert forall|w: Seq<u8>| held_below(t, w) implies held_below(t2, w) by {
                let j = choose|j: int| stores_via(t, j, w);
                assert(stores_via(t2, j, w));
            }
            if forall|w: Seq<u8>| stores(t, w) ==> !extends(k, w) {
                let w1 = lemma_node_holds_key(c);
                let w = label + w1;
                assert(w.skip(label.len() as int) =~= w1);
                assert(label.is_prefix_of(w));
                assert(stores_via(t, 0, w));
                assert(held_below(t, w));
                assert(extends(k, w));
                assert(false);
            }
            assert forall|x: int, y: int| 0 <= x < y < t2.edges.len() implies #[trigger] t2.edges[y].0.len() > 0
                && (#[trigger] t2.edges[x].0.len() > 0 ==> t2.edges[x].0[0] < t2.edges[y].0[0]) by {
                assert(t2.edges[x].0 == t.edges[x].0);
                assert(t2.edges[y].0 == t.edges[y].0);
            }
            assert forall|j: int| 0 <= j < t2.edges.len() implies node_wf(#[trigger] t2.edges[j].1) by {
                if j != 0 {
                    assert(t2.edges[j] == t.edges[j]);
                }
            }
        }
    }
}

/// Insertion keeps a tree well formed.
pub proof fn law_insert_wf(t: RadixModel, k: Seq<u8>)
    requires
        root_wf(t),
    ensures
        root_wf(model_insert(t, k)),
{
    lemma_insert_root(t, k);
}

/// Insertion loses no key, and the keys it adds are the inserted key or keys
/// that extend it.
pub proof fn law_insert_keeps_keys(t: RadixModel, k: Seq<u8>)
    requires
        root_wf(t),
    ensures
        keys(t) <= keys(model_insert(t, k)),
        forall|w: Seq<u8>| #[trigger] keys(model_insert(t, k)).contains(w)
            ==> keys(t).contains(w) || w == k || extends(k, w),
{
    lemma_insert_root(t, k);
}

/// Insertion stops at the edge `i` when no edge before it stops it and it does.
proof fn lemma_first_ins_hit_at(edges: Seq<(Seq<u8>, RadixModel)>, k: Seq<u8>, s: nat, i: nat)
    requires
        s <= i <= edges.len(),
        forall|j: int| s <= j < i ==> !ins_hit(#[trigger] edges[j].0, k),
        i < edges.len() ==> ins_hit(edges[i as int].0, k),
    ensures
        first_ins_hit(edges, k, s) == i,
    decreases i - s,
{
    if s < i {
        lemma_first_ins_hit_at(edges, k, s + 1, i);
    }
}

/// A string shares its whole length with itself.
proof fn lemma_lcp_self(a: Seq<u8>)
    ensures
        lcp(a, a) == a.len(),
{
    lemma_lcp_unique(a, a, a.len());
}

/// Inserting a non-empty key keeps every label of the root non-empty; with
/// `law_insert_wf`, a tree whose root has no empty label keeps all its
/// labels non-empty.
pub proof fn law_insert_keeps_labels_nonempty(t: RadixModel, k: Seq<u8>)
    requires
        labels_nonempty(t.edges),
        k.len() > 0,
    ensures
        labels_nonempty(model_insert(t, k).edges),
{
    let i = first_ins_hit(t.edges, k, 0);
    let t1 = model_insert(t, k);
    lemma_first_ins_hit(t.edges, k, 0);
    if i < t.edges.len() {
        let label = t.edges[i as int].0;
        lemma_lcp(label, k);
        assert forall|j: int| 0 <= j < t1.edges.len() implies #[trigger] t1.edges[j].0.len() > 0 by {
            if j != i {
                assert(t1.edges[j] == t.edges[j]);
            }
        }
    } else {
        let p = sorted_pos(t.edges, k, 0);
        lemma_sorted_pos(t.edges, k, 0);
        assert forall|j: int| 0 <= j < t1.edges.len() implies #[trigger] t1.edges[j].0.len() > 0 by {
            if j < p {
                assert(t1.edges[j] == t.edges[j]);
            } else if j > p {
                assert(t1.edges[j] == t.edges[j - 1]);
            }
        }
    }
}

/// A node is live when it ends a key or has an edge, and so is every node
/// below it.
pub open spec fn node_live(t: RadixModel) -> bool
    decreases t,
{
    &&& (t.is_end || t.edges.len() > 0)
    &&& forall|i: int| 0 <= i < t.edges.len() ==> node_live(#[trigger] t.edges[i].1)
}

/// Every node below `t` is live.
pub open spec fn live_below(t: RadixModel) -> bool {
    forall|i: int| 0 <= i < t.edges.len() ==> node_live(#[trigger] t.edges[i].1)
}

/// Deletion, whatever its result, keeps every node below a node live when
/// they were: a child left with no key and no edge is cut off.
pub proof fn law_delete_keeps_nodes_live(t: RadixModel, k: Seq<u8>)
    requires
        live_below(t),
    ensures
        live_below(model_delete(t, k).0),
    decreases t,
{
    if k.len() > 0 {
        let n = shortest_label_prefix(t.edges, k, 0, k.len() as int);
        let j = label_index(t.edges, k.take(n), 0);
        if n >= 0 && 0 <= j < t.edges.len() {
            let child = t.edges[j].1;
            assert(node_live(child));
            assert(decreases_to!(t => t.edges));
            assert(decreases_to!(t.edges => t.edges[j]));
            assert(decreases_to!(t.edges[j] => t.edges[j].1));
            law_delete_keeps_nodes_live(child, k.skip(n));
            let (c, ok) = model_delete(child, k.skip(n));
            let t2 = model_delete(t, k).0;
            if c.edges.len() == 0 && !c.is_end {
                assert forall|x: int| 0 <= x < t2.edges.len() implies node_live(#[trigger] t2.edges[x].1) by {
                    if x < j {
                        assert(t2.edges[x] == t.edges[x]);
                    } else {
                        assert(t2.edges[x] == t.edges[x + 1]);
                    }
                }
            } else {
                assert(node_live(c));
                assert forall|x: int| 0 <= x < t2.edges.len() implies node_live(#[trigger] t2.edges[x].1) by {
                    if x != j {
                        assert(t2.edges[x] == t.edges[x]);
                    }
                }
            }
        }
    }
}

/// `label_index` finds the first edge with the label.
proof fn lemma_label_index_at(edges: Seq<(Seq<u8>, RadixModel)>, lab: Seq<u8>, i: nat, j: int)
    requires
        i <= j < edges.len(),
        edges[j].0 == lab,
        forall|x: int| i <= x < j ==> #[trigger] edges[x].0 != lab,
    ensures
        label_index(edges, lab, i) == j,
    decreases j - i,
{
    if i < j {
        lemma_label_index_at(edges, lab, i + 1, j);
    }
}

/// `label_index` finds nothing where no edge has the label.
proof fn lemma_label_index_none(edges: Seq<(Seq<u8>, RadixModel)>, lab: Seq<u8>, i: nat)
    requires
        forall|x: int| i <= x < edges.len() ==> #[trigger] edges[x].0 != lab,
    ensures
        label_index(edges, lab, i) == -1,
    decreases edges.len() - i,
{
    if i < edges.len() {
        lemma_label_index_none(edges, lab, i + 1);
    }
}

/// Removing edge `r` leaves labels that it did not first carry where they
/// were, shifted down past `r`.
proof fn lemma_label_index_remove(edges: Seq<(Seq<u8>, RadixModel)>, r: int, lab: Seq<u8>)
    requires
        0 <= r < edges.len(),
        label_index(edges, lab, 0) != r,
    ensures
        label_index(edges, lab, 0) == -1 ==> label_index(edges.remove(r), lab, 0) == -1,
        label_index(edges, lab, 0) >= 0 ==> label_index(edges.remove(r), lab, 0) == (if r < label_index(edges, lab, 0) {
            label_index(edges, lab, 0) - 1
        } else {
            label_index(edges, lab, 0)
        }),
{
    lemma_label_index(edges, lab, 0);
    let e2 = edges.remove(r);
    let j = label_index(edges, lab, 0);
    if j == -1 {
        assert forall|x: int| 0 <= x < e2.len() implies #[trigger] e2[x].0 != lab by {
            if x < r {
                assert(e2[x] == edges[x]);
            } else {
                assert(e2[x] == edges[x + 1]);
            }
        }
        lemma_label_index_none(e2, lab, 0);
    } else {
        let j2 = if r < j { j - 1 } else { j };
        assert(e2[j2] == edges[j]);
        assert forall|x: int| 0 <= x < j2 implies #[trigger] e2[x].0 != lab by {
            if x < r {
                assert(e2[x] == edges[x]);
            } else {
                assert(e2[x] == edges[x + 1]);
            }
        }
        lemma_label_index_at(e2, lab, 0, j2);
    }
}

/// `shortest_label_prefix` stops at `n` when no shorter prefix from `i` on
/// labels an edge and the prefix of length `n` does.
proof fn lemma_slp_at(edges: Seq<(Seq<u8>, RadixModel)>, k: Seq<u8>, i: nat, last: int, n: int)
    requires
        i <= n <= last,
        forall|m: int| i <= m < n ==> label_index(edges, #[trigger] k.take(m), 0) == -1,
        label_index(edges, k.take(n), 0) >= 0,
    ensures
        shortest_label_prefix(edges, k, i, last) == n,
    decreases n - i,
{
    if i < n {
        lemma_slp_at(edges, k, i + 1, last, n);
    }
}

/// Before the shortest prefix that labels an edge, no prefix does.
proof fn lemma_slp_before(edges: Seq<(Seq<u8>, RadixModel)>, k: Seq<u8>, i: nat, last: int)
    ensures
        shortest_label_prefix(edges, k, i, last) >= 0 ==> forall|m: int|
            i <= m < shortest_label_prefix(edges, k, i, last) ==> label_index(edges, #[trigger] k.take(m), 0) == -1,
    decreases last + 1 - i,
{
    lemma_label_index(edges, k.take(i as int), 0);
    if i <= last && label_index(edges, k.take(i as int), 0) < 0 {
        lemma_slp_before(edges, k, i + 1, last);
    }
}

/// A node with no edge that ends no key leads nowhere.
proof fn lemma_dead_locates_nothing(c: RadixModel, w: Seq<u8>)
    requires
        c.edges.len() == 0,
        !c.is_end,
    ensures
        model_locate(c, w) is None,
{
    lemma_shortest_label_prefix(c.edges, w, 0, w.len() as int);
}

/// Deleting a key leaves the pairs of every other key that leads somewhere
/// as they were: a key's field/value map survives deletes of other keys.
pub proof fn law_delete_keeps_other_pairs(t: RadixModel, k2: Seq<u8>, k: Seq<u8>)
    requires
        k != k2,
        model_locate(t, k) is Some,
    ensures
        model_locate(model_delete(t, k2).0, k) == model_locate(t, k),
    decreases t,
{
    let t2 = model_delete(t, k2).0;
    if k2.len() > 0 {
        let n2 = shortest_label_prefix(t.edges, k2, 0, k2.len() as int);
        let j2 = label_index(t.edges, k2.take(n2), 0);
        if n2 >= 0 && 0 <= j2 < t.edges.len() && !(k.len() == 0 && t.is_end) {
            lemma_shortest_label_prefix(t.edges, k2, 0, k2.len() as int);
            let n = shortest_label_prefix(t.edges, k, 0, k.len() as int);
            let j = label_index(t.edges, k.take(n), 0);
            lemma_shortest_label_prefix(t.edges, k, 0, k.len() as int);
            lemma_label_index(t.edges, k.take(n), 0);
            lemma_label_index(t.edges, k2.take(n2), 0);
            assert(n >= 0 && 0 <= j < t.edges.len());
            let c = t.edges[j2].1;
            let (c2, ok) = model_delete(c, k2.skip(n2));
            if j == j2 {
                assert(k.take(n).len() == n);
                assert(n == n2);
                assert(k.skip(n) != k2.skip(n)) by {
                    if k.skip(n) == k2.skip(n) {
                        assert(k =~= k.take(n) + k.skip(n));
                        assert(k2 =~= k2.take(n) + k2.skip(n));
                    }
                }
                assert(decreases_to!(t => t.edges));
                assert(decreases_to!(t.edges => t.edges[j]));
                assert(decreases_to!(t.edges[j] => t.edges[j].1));
                law_delete_keeps_other_pairs(c, k2.skip(n), k.skip(n));
                if c2.edges.len() == 0 && !c2.is_end {
                    lemma_dead_locates_nothing(c2, k.skip(n));
                    assert(false);
                }
            }
            if c2.edges.len() == 0 && !c2.is_end {
                assert(t2.edges == t.edges.remove(j2));
                lemma_slp_before(t.edges, k, 0, k.len() as int);
                assert forall|m: int| 0 <= m < n implies label_index(t2.edges, #[trigger] k.take(m), 0) == -1 by {
                    lemma_label_index_remove(t.edges, j2, k.take(m));
                }
                lemma_label_index_remove(t.edges, j2, k.take(n));
                lemma_slp_at(t2.edges, k, 0, k.len() as int, n);
                let jj = if j2 < j { j - 1 } else { j };
                assert(t2.edges[jj] == t.edges[j]);
            } else {
                assert(same_labels(t2.edges, t.edges));
                lemma_same_labels_prefix(t2.edges, t.edges, k, 0, k.len() as int);
                lemma_same_labels_index(t2.edges, t.edges, k.take(n), 0);
                if j != j2 {
                    assert(t2.edges[j] == t.edges[j]);
                }
            }
            assert(!(k.len() == 0 && t2.is_end));
            assert(model_locate(t2, k) == model_locate(t2.edges[label_index(t2.edges, k.take(n), 0)].1, k.skip(n)));
        } else if n2 >= 0 && 0 <= j2 < t.edges.len() {
            assert(t2.is_end == t.is_end && t2.kvp == t.kvp);
        } else {
            assert(t2 == t);
        }
    } else {
        assert(t2.edges == t.edges);
        if k.len() == 0 {
            assert(k =~= k2);
        }
        assert(k.len() > 0);
    }
}

/// Two nonempty labels of ordered edges at different positions start with
/// different bytes.
proof fn lemma_ordered_distinct(edges: Seq<(Seq<u8>, RadixModel)>, x: int, y: int)
    requires
        edges_ordered(edges),
        0 <= x < edges.len(),
        0 <= y < edges.len(),
        x != y,
        edges[x].0.len() > 0,
        edges[y].0.len() > 0,
    ensures
        edges[x].0[0] != edges[y].0[0],
{
    if x < y {
        assert(edges[y].0.len() > 0 && (edges[x].0.len() > 0 ==> edges[x].0[0] < edges[y].0[0]));
    } else {
        assert(edges[x].0.len() > 0 && (edges[y].0.len() > 0 ==> edges[y].0[0] < edges[x].0[0]));
    }
}

/// Marking a well-formed lower node as the end of a key changes what no key
/// finds there.
proof fn lemma_mark_keeps_pairs(c: RadixModel, w: Seq<u8>)
    requires
        node_wf(c),
        model_locate(c, w) is Some,
    ensures
        model_locate(RadixModel { edges: c.edges, is_end: true, kvp: c.kvp }, w) == model_locate(c, w),
{
    let c2 = RadixModel { edges: c.edges, is_end: true, kvp: c.kvp };
    if w.len() == 0 && !c.is_end {
        assert(w.take(0) =~= Seq::<u8>::empty());
        lemma_shortest_label_prefix(c.edges, w, 0, 0);
        let n = shortest_label_prefix(c.edges, w, 0, 0);
        lemma_label_index(c.edges, w.take(n), 0);
        assert(labels_nonempty(c.edges));
        if n >= 0 {
            let j = label_index(c.edges, w.take(n), 0);
            assert(c.edges[j].0.len() > 0);
            assert(false);
        }
    }
}

/// Inserting any key keeps the pairs of every key that leads somewhere in a
/// node whose edges are ordered and whose lower nodes are well formed.
proof fn lemma_insert_keeps_pairs(t: RadixModel, k2: Seq<u8>, k: Seq<u8>)
    requires
        edges_ordered(t.edges),
        forall|x: int| 0 <= x < t.edges.len() ==> node_wf(#[trigger] t.edges[x].1),
        model_locate(t, k) is Some,
    ensures
        model_locate(model_insert(t, k2), k) == model_locate(t, k),
    decreases t,
{
    let t1 = model_insert(t, k2);
    if k.len() == 0 && t.is_end {
        return;
    }
    let n = shortest_label_prefix(t.edges, k, 0, k.len() as int);
    let j = label_index(t.edges, k.take(n), 0);
    lemma_shortest_label_prefix(t.edges, k, 0, k.len() as int);
    lemma_slp_before(t.edges, k, 0, k.len() as int);
    lemma_label_index(t.edges, k.take(n), 0);
    assert(n >= 0 && 0 <= j < t.edges.len());
    let lab = k.take(n);
    assert(t.edges[j].0 == lab);
    assert(lab.len() == n);
    let cj = t.edges[j].1;
    assert(model_locate(t, k) == model_locate(cj, k.skip(n)));
    let i = first_ins_hit(t.edges, k2, 0);
    lemma_first_ins_hit(t.edges, k2, 0);
    if i < t.edges.len() {
        let big = t.edges[i as int].0;
        let c = t.edges[i as int].1;
        let l = lcp(big, k2) as int;
        lemma_lcp(big, k2);
        if l == k2.len() || l == big.len() {
            assert(same_labels(t1.edges, t.edges));
            lemma_same_labels_prefix(t1.edges, t.edges, k, 0, k.len() as int);
            lemma_same_labels_index(t1.edges, t.edges, lab, 0);
            if j == i {
                assert(node_wf(c));
                if l == k2.len() {
                    lemma_mark_keeps_pairs(c, k.skip(n));
                } else {
                    assert(decreases_to!(t => t.edges));
                    assert(decreases_to!(t.edges => t.edges[i as int]));
                    assert(decreases_to!(t.edges[i as int] => t.edges[i as int].1));
                    lemma_insert_keeps_pairs(c, k2.skip(l), k.skip(n));
                }
            } else {
                assert(t1.edges[j] == t.edges[j]);
            }
        } else {
            let head = big.take(l);
            let a = big.skip(l);
            let b = k2.skip(l);
            let mid = split_model(a, c, b);
            assert(t1.edges[i as int] == (head, mid));
            assert(head.len() > 0);
            if j == i {
                assert(big == lab);
                assert forall|m: int| 0 <= m < l implies label_index(t1.edges, #[trigger] k.take(m), 0) == -1 by {
                    assert(label_index(t.edges, k.take(m), 0) == -1);
                    lemma_label_index(t.edges, k.take(m), 0);
                    assert forall|x: int| 0 <= x < t1.edges.len() implies #[trigger] t1.edges[x].0 != k.take(m) by {
                        if x != i {
                            assert(t1.edges[x] == t.edges[x]);
                        }
                    }
                    lemma_label_index_none(t1.edges, k.take(m), 0);
                }
                assert(k.take(l) =~= head);
                assert forall|x: int| 0 <= x < i implies #[trigger] t1.edges[x].0 != head by {
                    assert(t1.edges[x] == t.edges[x]);
                    if t.edges[x].0 == head {
                        lemma_ordered_distinct(t.edges, x, i as int);
                    }
                }
                lemma_label_index_at(t1.edges, head, 0, i as int);
                lemma_slp_at(t1.edges, k, 0, k.len() as int, l);
                let w = k.skip(l);
                assert(w =~= a + k.skip(n));
                lemma_lcp(big, k2);
                assert(a[0] == big[l]);
                assert(b[0] == k2[l]);
                let ai: int = if seq_lt(a, b) { 0 } else { 1 };
                let bi: int = 1 - ai;
                assert(mid.edges[ai] == (a, c));
                assert(mid.edges[bi].0 == b);
                assert forall|m: int| 0 <= m < a.len() implies label_index(mid.edges, #[trigger] w.take(m), 0) == -1 by {
                    assert(w.take(m) != a);
                    if m == 0 {
                        assert(w.take(m).len() == 0);
                    } else {
                        assert(w.take(m)[0] == a[0]);
                    }
                    assert(w.take(m) != b);
                    assert forall|x: int| 0 <= x < mid.edges.len() implies #[trigger] mid.edges[x].0 != w.take(m) by {
                        assert(x == ai || x == bi);
                    }
                    lemma_label_index_none(mid.edges, w.take(m), 0);
                }
                assert(w.take(a.len() as int) =~= a);
                assert(a != b);
                assert forall|x: int| 0 <= x < ai implies #[trigger] mid.edges[x].0 != a by {
                    assert(x == bi);
                }
                lemma_label_index_at(mid.edges, a, 0, ai);
                lemma_slp_at(mid.edges, w, 0, w.len() as int, a.len() as int);
                assert(w.skip(a.len() as int) =~= k.skip(n));
                assert(model_locate(mid, w) == model_locate(c, k.skip(n)));
            } else {
                assert(t1.edges[j] == t.edges[j]);
                assert forall|m: int| 0 <= m < n implies label_index(t1.edges, #[trigger] k.take(m), 0) == -1 by {
                    assert(label_index(t.edges, k.take(m), 0) == -1);
                    lemma_label_index(t.edges, k.take(m), 0);
                    assert forall|x: int| 0 <= x < t1.edges.len() implies #[trigger] t1.edges[x].0 != k.take(m) by {
                        if x != i {
                            assert(t1.edges[x] == t.edges[x]);
                        } else if head == k.take(m) {
                            assert(lab[0] == k[0]);
                            assert(head[0] == k[0]);
                            assert(big[0] == head[0]);
                            lemma_ordered_distinct(t.edges, i as int, j);
                        }
                    }
                    lemma_label_index_none(t1.edges, k.take(m), 0);
                }
                assert forall|x: int| 0 <= x < j implies #[trigger] t1.edges[x].0 != lab by {
                    if x != i {
                        assert(t1.edges[x] == t.edges[x]);
                    } else if head == lab {
                        assert(big[0] == head[0]);
                        lemma_ordered_distinct(t.edges, i as int, j);
                    }
                }
                lemma_label_index_at(t1.edges, lab, 0, j);
                lemma_slp_at(t1.edges, k, 0, k.len() as int, n);
            }
        }
    } else {
        let p = sorted_pos(t.edges, k2, 0);
        lemma_sorted_pos(t.edges, k2, 0);
        assert(t1.edges == t.edges.insert(p as int, (k2, leaf_model())));
        if k2.len() == 0 {
            lemma_lcp(t.edges[0].0, k2);
            assert(ins_hit(t.edges[0].0, k2));
            assert(false);
        }
        assert forall|m: int| 0 <= m <= n implies #[trigger] k.take(m) != k2 by {
            if k.take(m) == k2 {
                assert(lab.len() > 0);
                assert(lab[0] == k2[0]);
                lemma_lcp(lab, k2);
                assert(ins_hit(lab, k2));
                assert(!ins_hit(t.edges[j].0, k2));
            }
        }
        let jj: int = if j < p { j } else { j + 1 };
        assert(t1.edges[jj] == t.edges[j]);
        assert forall|m: int| 0 <= m < n implies label_index(t1.edges, #[trigger] k.take(m), 0) == -1 by {
            assert(label_index(t.edges, k.take(m), 0) == -1);
            lemma_label_index(t.edges, k.take(m), 0);
            assert forall|x: int| 0 <= x < t1.edges.len() implies #[trigger] t1.edges[x].0 != k.take(m) by {
                if x < p {
                    assert(t1.edges[x] == t.edges[x]);
                } else if x > p {
                    assert(t1.edges[x] == t.edges[x - 1]);
                }
            }
            lemma_label_index_none(t1.edges, k.take(m), 0);
        }
        assert forall|x: int| 0 <= x < jj implies #[trigger] t1.edges[x].0 != lab by {
            if x < p {
                assert(t1.edges[x] == t.edges[x]);
            } else if x > p {
                assert(t1.edges[x] == t.edges[x - 1]);
            }
        }
        lemma_label_index_at(t1.edges, lab, 0, jj);
        lemma_slp_at(t1.edges, k, 0, k.len() as int, n);
    }
}

/// Inserting any key into a well-formed tree keeps the field/value pairs of
/// every key that leads somewhere: a key's map survives later inserts, also
/// ones that split the edge leading to it.
pub proof fn law_insert_keeps_pairs(t: RadixModel, k2: Seq<u8>, k: Seq<u8>)
    requires
        root_wf(t),
        model_locate(t, k) is Some,
    ensures
        model_locate(model_insert(t, k2), k) == model_locate(t, k),
{
    lemma_insert_keeps_pairs(t, k2, k);
}

/// Inserting a non-empty key at any node whose edges are ordered with
/// non-empty labels and whose lower nodes are well formed keeps it so; a
/// well-formed lower node stays well formed.
pub proof fn law_insert_inner_wf(t: RadixModel, k: Seq<u8>)
    requires
        inner_ok(t),
        k.len() > 0,
    ensures
        inner_ok(model_insert(t, k)),
        node_wf(t) ==> node_wf(model_insert(t, k)),
{
    lemma_insert_below(t, k);
}

/// A change made to a tree: inserting or deleting a key.
pub enum TreeOp {
    Insert(Seq<u8>),
    Delete(Seq<u8>),
}

/// The tree after the changes `ops`, in order.
pub open spec fn apply_ops(t: RadixModel, ops: Seq<TreeOp>) -> RadixModel
    decreases ops.len(),
{
    if ops.len() == 0 {
        t
    } else {
        let t1 = apply_ops(t, ops.drop_last());
        match ops.last() {
            TreeOp::Insert(k) => model_insert(t1, k),
            TreeOp::Delete(k) => model_delete(t1, k).0,
        }
    }
}

/// A key's field/value map survives any sequence of inserts (of any key,
/// the key itself included, also ones that split the edge leading to it)
/// and of deletes of other keys; the tree stays well formed. With
/// `law_pairs_read_after_write`: pairs written through the key's map are
/// read back after all of them.
pub proof fn law_pairs_survive_changes(t: RadixModel, k: Seq<u8>, m: Map<Seq<u8>, Seq<u8>>, ops: Seq<TreeOp>)
    requires
        root_wf(t),
        model_locate(t, k) is Some,
        forall|i: int| 0 <= i < ops.len() ==> !(#[trigger] ops[i] matches TreeOp::Delete(d) && d == k),
    ensures
        root_wf(apply_ops(t, ops)),
        model_locate(apply_ops(t, ops), k) == model_locate(t, k),
        root_wf(apply_ops(model_with_kvp(t, k, m), ops)),
        model_locate(apply_ops(model_with_kvp(t, k, m), ops), k) == Some(m),
    decreases ops.len(),
{
    law_pairs_read_after_write(t, k, m);
    if ops.len() > 0 {
        let rest = ops.drop_last();
        assert forall|i: int| 0 <= i < rest.len() implies !(#[trigger] rest[i] matches TreeOp::Delete(d) && d == k) by {
            assert(rest[i] == ops[i]);
        }
        law_pairs_survive_changes(t, k, m, rest);
        let t1 = apply_ops(t, rest);
        let u1 = apply_ops(model_with_kvp(t, k, m), rest);
        assert(!(ops[ops.len() - 1] matches TreeOp::Delete(d) && d == k));
        match ops.last() {
            TreeOp::Insert(k2) => {
                law_insert_wf(t1, k2);
                law_insert_keeps_pairs(t1, k2, k);
                law_insert_wf(u1, k2);
                law_insert_keeps_pairs(u1, k2, k);
            },
            TreeOp::Delete(k2) => {
                law_delete_wf(t1, k2);
                law_delete_keeps_other_pairs(t1, k2, k);
                law_delete_wf(u1, k2);
                law_delete_keeps_other_pairs(u1, k2, k);
            },
        }
    }
}

/// Inserting a key a second time changes nothing.
pub proof fn law_insert_twice(t: RadixModel, k: Seq<u8>)
    ensures
        model_insert(model_insert(t, k), k) == model_insert(t, k),
    decreases t,
{
    let i = first_ins_hit(t.edges, k, 0);
    let t1 = model_insert(t, k);
    lemma_first_ins_hit(t.edges, k, 0);
    if i < t.edges.len() {
        let label = t.edges[i as int].0;
        let child = t.edges[i as int].1;
        let l = lcp(label, k) as int;
        lemma_lcp(label, k);
        assert(t1.edges.len() == t.edges.len());
        assert forall|j: int| 0 <= j < i implies !ins_hit(#[trigger] t1.edges[j].0, k) by {
            assert(t1.edges[j] == t.edges[j]);
            assert(!ins_hit(t.edges[j].0, k));
        }
        if l == k.len() {
            lemma_first_ins_hit_at(t1.edges, k, 0, i);
            assert(t1.edges.update(i as int, t1.edges[i as int]) =~= t1.edges);
        } else if l == label.len() {
            lemma_first_ins_hit_at(t1.edges, k, 0, i);
            assert(decreases_to!(t => t.edges));
            assert(decreases_to!(t.edges => t.edges[i as int]));
            assert(decreases_to!(t.edges[i as int] => t.edges[i as int].1));
            law_insert_twice(child, k.skip(l));
            assert(t1.edges.update(i as int, t1.edges[i as int]) =~= t1.edges);
        } else {
            let head = label.take(l);
            let a = label.skip(l);
            let b = k.skip(l);
            let mid = split_model(a, child, b);
            assert(t1.edges[i as int] == (head, mid));
            lemma_lcp_unique(head, k, l as nat);
            assert(ins_hit(head, k));
            lemma_first_ins_hit_at(t1.edges, k, 0, i);
            assert(a[0] == label[l]);
            assert(b[0] == k[l]);
            lemma_lcp_unique(a, b, 0);
            lemma_lcp_self(b);
            assert(!ins_hit(a, b));
            assert(ins_hit(b, b));
            assert(k.skip(l) == b);
            let bi: nat = if seq_lt(a, b) { 1 } else { 0 };
            assert forall|j: int| 0 <= j < bi implies !ins_hit(#[trigger] mid.edges[j].0, b) by {
                assert(mid.edges[j].0 == a);
            }
            lemma_first_ins_hit_at(mid.edges, b, 0, bi);
            assert(mid.edges[bi as int] == (b, leaf_model()));
            let marked = RadixModel { edges: leaf_model().edges, is_end: true, kvp: leaf_model().kvp };
            assert(marked == leaf_model());
            assert(mid.edges.update(bi as int, (b, marked)) =~= mid.edges);
            assert(model_insert(mid, b) == mid);
            assert(t1.edges.update(i as int, (head, mid)) =~= t1.edges);
        }
    } else {
        let p = sorted_pos(t.edges, k, 0);
        lemma_sorted_pos(t.edges, k, 0);
        assert(t1.edges == t.edges.insert(p as int, (k, leaf_model())));
        assert forall|j: int| 0 <= j < p implies !ins_hit(#[trigger] t1.edges[j].0, k) by {
            assert(t1.edges[j] == t.edges[j]);
            assert(!ins_hit(t.edges[j].0, k));
        }
        lemma_lcp_self(k);
        assert(t1.edges[p as int] == (k, leaf_model()));
        assert(ins_hit(k, k));
        lemma_first_ins_hit_at(t1.edges, k, 0, p);
        let marked = RadixModel { edges: leaf_model().edges, is_end: true, kvp: leaf_model().kvp };
        assert(marked == leaf_model());
        assert(t1.edges.update(p as int, (k, marked)) =~= t1.edges);
    }
}

/// Where no key held extends `k`, inserting `k` adds exactly `k`.
pub proof fn law_insert_adds_key(t: RadixModel, k: Seq<u8>)
    requires
        root_wf(t),
        forall|w: Seq<u8>| #[trigger] keys(t).contains(w) ==> !extends(k, w),
    ensures
        keys(model_insert(t, k)) == keys(t).insert(k),
{
    assert(forall|w: Seq<u8>| stores(t, w) ==> !extends(k, w)) by {
        assert forall|w: Seq<u8>| stores(t, w) implies !extends(k, w) by {
            assert(keys(t).contains(w));
        }
    }
    lemma_insert_root(t, k);
    assert(keys(model_insert(t, k)) =~= keys(t).insert(k));
}

proof fn lemma_shortest_label_prefix(edges: Seq<(Seq<u8>, RadixModel)>, k: Seq<u8>, i: nat, last: int)
    ensures
        shortest_label_prefix(edges, k, i, last) == -1 || (i <= shortest_label_prefix(edges, k, i, last) <= last),
        shortest_label_prefix(edges, k, i, last) >= 0 ==> label_index(
            edges,
            k.take(shortest_label_prefix(edges, k, i, last)),
            0,
        ) >= 0,
        shortest_label_prefix(edges, k, i, last) == -1 ==> forall|n: int|
            i <= n <= last ==> label_index(edges, #[trigger] k.take(n), 0) == -1,
    decreases last + 1 - i,
{
    if i <= last {
        lemma_label_index(edges, k.take(i as int), 0);
        if label_index(edges, k.take(i as int), 0) < 0 {
            lemma_shortest_label_prefix(edges, k, i + 1, last);
        }
    }
}

/// Among edges with non-empty labels that start with distinct bytes, at most
/// one label is a prefix of a given string.
proof fn lemma_unique_prefix_edge(edges: Seq<(Seq<u8>, RadixModel)>, w: Seq<u8>, a: int, b: int)
    requires
        edges_ordered(edges),
        labels_nonempty(edges),
        0 <= a < edges.len(),
        0 <= b < edges.len(),
        edges[a].0.is_prefix_of(w),
        edges[b].0.is_prefix_of(w),
    ensures
        a == b,
{
    assert(edges[a].0.len() > 0);
    assert(edges[b].0.len() > 0);
    assert(edges[a].0[0] == w[0]);
    assert(edges[b].0[0] == w[0]);
    if a < b {
        assert(edges[a].0[0] < edges[b].0[0]);
    } else if b < a {
        assert(edges[b].0[0] < edges[a].0[0]);
    }
}

/// Where the labels of `t` are non-empty, the empty key is held at `t` only
/// when `t` ends a key.
proof fn lemma_empty_key_not_below(t: RadixModel)
    requires
        labels_nonempty(t.edges),
    ensures
        !held_below(t, Seq::empty()),
{
    if held_below(t, Seq::empty()) {
        let j = choose|j: int| stores_via(t, j, Seq::<u8>::empty());
        assert(t.edges[j].0.len() > 0);
    }
}

/// What deleting a non-empty key does below the edges of a node whose edges
/// have non-empty labels: it reports whether the key was held there, removes
/// exactly that key, and leaves the edges well formed.
proof fn lemma_delete_below(t: RadixModel, k: Seq<u8>)
    requires
        edges_ordered(t.edges),
        labels_nonempty(t.edges),
        forall|i: int| 0 <= i < t.edges.len() ==> node_wf(#[trigger] t.edges[i].1),
        k.len() > 0,
    ensures
        model_delete(t, k).0.is_end == t.is_end,
        model_delete(t, k).1 == held_below(t, k),
        edges_ordered(model_delete(t, k).0.edges),
        labels_nonempty(model_delete(t, k).0.edges),
        forall|i: int| 0 <= i < model_delete(t, k).0.edges.len() ==> node_wf(#[trigger] model_delete(t, k).0.edges[i].1),
        forall|w: Seq<u8>| #[trigger] held_below(model_delete(t, k).0, w) == (held_below(t, w) && w != k),
    decreases t, 0int,
{
    let (t2, ok) = model_delete(t, k);
    let n = shortest_label_prefix(t.edges, k, 0, k.len() as int);
    lemma_shortest_label_prefix(t.edges, k, 0, k.len() as int);
    if n < 0 {
        assert(t2 == t);
        if held_below(t, k) {
            let j = choose|j: int| stores_via(t, j, k);
            let lj = t.edges[j].0;
            assert(k.take(lj.len() as int) =~= lj);
            lemma_label_index(t.edges, lj, 0);
        }
    } else {
        let lab = k.take(n);
        let j = label_index(t.edges, lab, 0);
        lemma_label_index(t.edges, lab, 0);
        let c = t.edges[j].1;
        assert(t.edges[j].0 == lab);
        assert(lab.is_prefix_of(k));
        assert(node_wf(c));
        assert(decreases_to!(t => t.edges));
        assert(decreases_to!(t.edges => t.edges[j]));
        assert(decreases_to!(t.edges[j] => c));
        let k2 = k.skip(n);
        lemma_delete_node(c, k2);
        let (c2, ok2) = model_delete(c, k2);
        assert(ok == ok2);
        // The edge `j` is the only one through which `k` can be held.
        assert forall|w: Seq<u8>| stores_via(t, j, w) implies (w == k <==> w.skip(n) == k2) by {
            lemma_prefix_split(lab, w);
            lemma_prefix_split(lab, k);
        }
        assert(held_below(t, k) == stores(c, k2)) by {
            if held_below(t, k) {
                let i = choose|i: int| stores_via(t, i, k);
                lemma_unique_prefix_edge(t.edges, k, i, j);
            }
            if stores(c, k2) {
                assert(stores_via(t, j, k));
            }
        }
        if c2.edges.len() == 0 && !c2.is_end {
            assert(t2.edges == t.edges.remove(j));
            assert forall|x: Seq<u8>| !stores(c2, x) by {
                lemma_stores_unfold(c2, x);
            }
            assert forall|w: Seq<u8>| held_below(t2, w) == (held_below(t, w) && w != k) by {
                if held_below(t2, w) {
                    let i = choose|i: int| stores_via(t2, i, w);
                    let i0 = if i < j { i } else { i + 1 };
                    assert(t2.edges[i] == t.edges[i0]);
                    assert(stores_via(t, i0, w));
                    if w == k {
                        lemma_unique_prefix_edge(t.edges, k, i0, j);
                    }
                }
                if held_below(t, w) && w != k {
                    let i = choose|i: int| stores_via(t, i, w);
                    if i == j {
                        assert(stores(c2, w.skip(n)));
                    }
                    let i2 = if i < j { i } else { i - 1 };
                    assert(t2.edges[i2] == t.edges[i]);
                    assert(stores_via(t2, i2, w));
                }
            }
            assert forall|x: int, y: int| 0 <= x < y < t2.edges.len() implies #[trigger] t2.edges[y].0.len() > 0
                && (#[trigger] t2.edges[x].0.len() > 0 ==> t2.edges[x].0[0] < t2.edges[y].0[0]) by {
                let x0 = if x < j { x } else { x + 1 };
                let y0 = if y < j { y } else { y + 1 };
                assert(t2.edges[x] == t.edges[x0]);
                assert(t2.edges[y] == t.edges[y0]);
            }
            assert forall|i: int| 0 <= i < t2.edges.len() implies node_wf(#[trigger] t2.edges[i].1) by {
                let i0 = if i < j { i } else { i + 1 };
                assert(t2.edges[i] == t.edges[i0]);
            }
        } else {
            assert(t2.edges == t.edges.update(j, (lab, c2)));
            assert(node_wf(c2));
            assert forall|w: Seq<u8>| stores_via(t2, j, w) == (stores_via(t, j, w) && w != k) by {}
            assert forall|i: int, w: Seq<u8>| i != j implies stores_via(t2, i, w) == stores_via(t, i, w) by {
                if 0 <= i < t.edges.len() {
                    assert(t2.edges[i] == t.edges[i]);
                }
            }
            assert forall|w: Seq<u8>| held_below(t2, w) == (held_below(t, w) && w != k) by {
                if held_below(t2, w) {
                    let i = choose|i: int| stores_via(t2, i, w);
                    assert(stores_via(t, i, w));
                    if w == k && i != j {
                        lemma_unique_prefix_edge(t.edges, k, i, j);
                    }
                }
                if held_below(t, w) && w != k {
                    let i = choose|i: int| stores_via(t, i, w);
                    assert(stores_via(t2, i, w));
                }
            }
            assert forall|x: int, y: int| 0 <= x < y < t2.edges.len() implies #[trigger] t2.edges[y].0.len() > 0
                && (#[trigger] t2.edges[x].0.len() > 0 ==> t2.edges[x].0[0] < t2.edges[y].0[0]) by {
                assert(t2.edges[x].0 == t.edges[x].0);
                assert(t2.edges[y].0 == t.edges[y].0);
            }
            assert forall|i: int| 0 <= i < t2.edges.len() implies node_wf(#[trigger] t2.edges[i].1) by {
                if i != j {
                    assert(t2.edges[i] == t.edges[i]);
                }
            }
        }
    }
}

/// What deleting a key does at a well-formed node below the root: it reports
/// whether the key was held, removes exactly that key, and leaves a node that
/// is well formed unless it holds nothing at all.
proof fn lemma_delete_node(t: RadixModel, k: Seq<u8>)
    requires
        node_wf(t),
    ensures
        model_delete(t, k).1 == stores(t, k),
        forall|w: Seq<u8>| #[trigger] stores(model_delete(t, k).0, w) == (stores(t, w) && w != k),
        edges_ordered(model_delete(t, k).0.edges),
        labels_nonempty(model_delete(t, k).0.edges),
        forall|i: int| 0 <= i < model_delete(t, k).0.edges.len() ==> node_wf(#[trigger] model_delete(t, k).0.edges[i].1),
        (model_delete(t, k).0.is_end || model_delete(t, k).0.edges.len() > 0) ==> node_wf(model_delete(t, k).0),
    decreases t, 1int,
{
    let (t2, ok) = model_delete(t, k);
    lemma_empty_key_not_below(t);
    lemma_stores_unfold(t, k);
    if k.len() == 0 {
        assert(t2.edges == t.edges);
        assert forall|w: Seq<u8>| #[trigger] stores(t2, w) == (stores(t, w) && w != k) by {
            lemma_stores_unfold(t2, w);
            lemma_stores_unfold(t, w);
            assert forall|j: int| stores_via(t2, j, w) == stores_via(t, j, w) by {}
            if held_below(t2, w) {
                let j = choose|j: int| stores_via(t2, j, w);
                assert(stores_via(t, j, w));
            }
            if held_below(t, w) {
                let j = choose|j: int| stores_via(t, j, w);
                assert(stores_via(t2, j, w));
            }
            if w.len() == 0 {
                assert(w =~= k);
            }
        }
    } else {
        lemma_delete_below(t, k);
        assert forall|w: Seq<u8>| #[trigger] stores(t2, w) == (stores(t, w) && w != k) by {
            lemma_stores_unfold(t2, w);
            lemma_stores_unfold(t, w);
        }
    }
}

/// What deleting does at a well-formed root.
proof fn lemma_delete_root(t: RadixModel, k: Seq<u8>)
    requires
        root_wf(t),
    ensures
        root_wf(model_delete(t, k).0),
        model_delete(t, k).1 == (k.len() > 0 && stores(t, k)),
        forall|w: Seq<u8>| #[trigger] stores(model_delete(t, k).0, w) == (stores(t, w) && (w != k || k.len() == 0)),
{
    let (t2, ok) = model_delete(t, k);
    lemma_stores_root(t);
    lemma_label_index(t.edges, Seq::empty(), 0);
    if k.len() == 0 {
        assert(t2 == t);
    } else if has_empty_label(t) {
        let c = t.edges[0].1;
        assert(t.edges[0].0 =~= Seq::<u8>::empty());
        assert(k.take(0) =~= Seq::<u8>::empty());
        assert(shortest_label_prefix(t.edges, k, 0, k.len() as int) == 0);
        assert(label_index(t.edges, k.take(0), 0) == 0);
        assert(k.skip(0) =~= k);
        assert(node_wf(c));
        lemma_delete_node(c, k);
        let c2 = model_delete(c, k).0;
        assert(c2.is_end);
        assert(t2.edges =~= seq![(t.edges[0].0, c2)]);
        lemma_stores_through_empty(t);
        lemma_stores_through_empty(t2);
        lemma_label_index(t2.edges, Seq::empty(), 0);
    } else {
        assert forall|j: int| 0 <= j < t.edges.len() implies #[trigger] t.edges[j].0.len() > 0 by {
            if t.edges[j].0.len() == 0 {
                assert(t.edges[j].0 =~= Seq::<u8>::empty());
            }
        }
        lemma_delete_below(t, k);
        lemma_stores_root(t2);
        lemma_label_index(t2.edges, Seq::empty(), 0);
        if has_empty_label(t2) {
            let r = label_index(t2.edges, Seq::empty(), 0);
            assert(t2.edges[r].0.len() > 0);
        }
    }
}

/// Deletion keeps a tree well formed.
pub proof fn law_delete_wf(t: RadixModel, k: Seq<u8>)
    requires
        root_wf(t),
    ensures
        root_wf(model_delete(t, k).0),
{
    lemma_delete_root(t, k);
}

/// Deletion succeeds exactly for a non-empty key that the tree holds, and
/// removes exactly that key; the empty key is never deleted.
pub proof fn law_delete_removes_key(t: RadixModel, k: Seq<u8>)
    requires
        root_wf(t),
    ensures
        model_delete(t, k).1 == (k.len() > 0 && keys(t).contains(k)),
        keys(model_delete(t, k).0) == (if k.len() > 0 { keys(t).remove(k) } else { keys(t) }),
{
    lemma_delete_root(t, k);
    assert(keys(model_delete(t, k).0) =~= (if k.len() > 0 { keys(t).remove(k) } else { keys(t) }));
}

/// Below the edges of a node with non-empty ordered labels and well-formed
/// children, `key` leads to a node exactly when that node holds the key.
proof fn lemma_locate_below(t: RadixModel, k: Seq<u8>)
    requires
        edges_ordered(t.edges),
        labels_nonempty(t.edges),
        forall|i: int| 0 <= i < t.edges.len() ==> node_wf(#[trigger] t.edges[i].1),
        !(k.len() == 0 && t.is_end),
    ensures
        model_locate(t, k) is Some <==> held_below(t, k),
    decreases t, 0int,
{
    let n = shortest_label_prefix(t.edges, k, 0, k.len() as int);
    lemma_shortest_label_prefix(t.edges, k, 0, k.len() as int);
    if n < 0 {
        if held_below(t, k) {
            let j = choose|j: int| stores_via(t, j, k);
            let lj = t.edges[j].0;
            assert(k.take(lj.len() as int) =~= lj);
            lemma_label_index(t.edges, lj, 0);
        }
    } else {
        let lab = k.take(n);
        let j = label_index(t.edges, lab, 0);
        lemma_label_index(t.edges, lab, 0);
        let c = t.edges[j].1;
        assert(lab.is_prefix_of(k));
        assert(decreases_to!(t => t.edges));
        assert(decreases_to!(t.edges => t.edges[j]));
        assert(decreases_to!(t.edges[j] => c));
        lemma_locate_node(c, k.skip(n));
        if held_below(t, k) {
            let i = choose|i: int| stores_via(t, i, k);
            lemma_unique_prefix_edge(t.edges, k, i, j);
        }
        if stores(c, k.skip(n)) {
            assert(stores_via(t, j, k));
        }
    }
}

proof fn lemma_locate_node(t: RadixModel, k: Seq<u8>)
    requires
        node_wf(t),
    ensures
        model_locate(t, k) is Some <==> stores(t, k),
    decreases t, 1int,
{
    lemma_stores_unfold(t, k);
    if !(k.len() == 0 && t.is_end) {
        lemma_locate_below(t, k);
    }
}

/// In a well-formed tree, a key leads to a node exactly when the tree holds it.
pub proof fn law_locate_finds_keys(t: RadixModel, k: Seq<u8>)
    requires
        root_wf(t),
    ensures
        model_locate(t, k) is Some <==> keys(t).contains(k),
{
    lemma_stores_root(t);
    lemma_label_index(t.edges, Seq::empty(), 0);
    if has_empty_label(t) {
        let c = t.edges[0].1;
        assert(t.edges[0].0 =~= Seq::<u8>::empty());
        assert(k.take(0) =~= Seq::<u8>::empty());
        assert(shortest_label_prefix(t.edges, k, 0, k.len() as int) == 0);
        assert(label_index(t.edges, k.take(0), 0) == 0);
        assert(k.skip(0) =~= k);
        assert(node_wf(c));
        lemma_locate_node(c, k);
        lemma_stores_through_empty(t);
    } else {
        assert forall|j: int| 0 <= j < t.edges.len() implies #[trigger] t.edges[j].0.len() > 0 by {
            if t.edges[j].0.len() == 0 {
                assert(t.edges[j].0 =~= Seq::<u8>::empty());
            }
        }
        lemma_locate_below(t, k);
    }
}

/// Two edge lists with the same labels in the same order.
pub open spec fn same_labels(a: Seq<(Seq<u8>, RadixModel)>, b: Seq<(Seq<u8>, RadixModel)>) -> bool {
    a.len() == b.len() && forall|i: int| 0 <= i < a.len() ==> #[trigger] a[i].0 == b[i].0
}

proof fn lemma_same_labels_search(a: Seq<(Seq<u8>, RadixModel)>, b: Seq<(Seq<u8>, RadixModel)>, k: Seq<u8>)
    requires
        same_labels(a, b),
    ensures
        forall|lab: Seq<u8>, i: nat| #[trigger] label_index(a, lab, i) == label_index(b, lab, i),
        shortest_label_prefix(a, k, 0, k.len() as int) == shortest_label_prefix(b, k, 0, k.len() as int),
{
    assert forall|lab: Seq<u8>, i: nat| #[trigger] label_index(a, lab, i) == label_index(b, lab, i) by {
        lemma_same_labels_index(a, b, lab, i);
    }
    lemma_same_labels_prefix(a, b, k, 0, k.len() as int);
}

proof fn lemma_same_labels_index(a: Seq<(Seq<u8>, RadixModel)>, b: Seq<(Seq<u8>, RadixModel)>, lab: Seq<u8>, i: nat)
    requires
        same_labels(a, b),
    ensures
        label_index(a, lab, i) == label_index(b, lab, i),
    decreases a.len() - i,
{
    if i < a.len() {
        assert(a[i as int].0 == b[i as int].0);
        lemma_same_labels_index(a, b, lab, i + 1);
    }
}

proof fn lemma_same_labels_prefix(a: Seq<(Seq<u8>, RadixModel)>, b: Seq<(Seq<u8>, RadixModel)>, k: Seq<u8>, i: nat, last: int)
    requires
        same_labels(a, b),
    ensures
        shortest_label_prefix(a, k, i, last) == shortest_label_prefix(b, k, i, last),
    decreases last + 1 - i,
{
    if i <= last {
        lemma_same_labels_index(a, b, k.take(i as int), 0);
        lemma_same_labels_prefix(a, b, k, i + 1, last);
    }
}

proof fn lemma_same_labels_ordered(a: Seq<(Seq<u8>, RadixModel)>, b: Seq<(Seq<u8>, RadixModel)>)
    requires
        same_labels(a, b),
    ensures
        edges_ordered(b) ==> edges_ordered(a),
        labels_nonempty(b) ==> labels_nonempty(a),
{
    if edges_ordered(b) {
        assert forall|x: int, y: int| 0 <= x < y < a.len() implies #[trigger] a[y].0.len() > 0
            && (#[trigger] a[x].0.len() > 0 ==> a[x].0[0] < a[y].0[0]) by {
            assert(a[x].0 == b[x].0);
            assert(a[y].0 == b[y].0);
            assert(b[y].0.len() > 0);
        }
    }
    if labels_nonempty(b) {
        assert forall|x: int| 0 <= x < a.len() implies #[trigger] a[x].0.len() > 0 by {
            assert(a[x].0 == b[x].0);
        }
    }
}

/// Replacing the pairs at a node changes no edge label and no key ending, and a
/// later lookup of the same key finds the pairs written.
proof fn lemma_with_kvp(t: RadixModel, k: Seq<u8>, m: Map<Seq<u8>, Seq<u8>>)
    ensures
        same_labels(model_with_kvp(t, k, m).edges, t.edges),
        model_with_kvp(t, k, m).is_end == t.is_end,
        forall|w: Seq<u8>| #[trigger] stores(model_with_kvp(t, k, m), w) == stores(t, w),
        forall|i: int| 0 <= i < t.edges.len() ==> #[trigger] model_with_kvp(t, k, m).edges[i].1.is_end == t.edges[i].1.is_end,
        node_wf(t) ==> node_wf(model_with_kvp(t, k, m)),
        model_locate(t, k) is Some ==> model_locate(model_with_kvp(t, k, m), k) == Some(m),
    decreases t,
{
    let t2 = model_with_kvp(t, k, m);
    if key_here(t, k) {
        assert(t2.edges == t.edges);
        assert forall|w: Seq<u8>| #[trigger] stores(t2, w) == stores(t, w) by {
            lemma_stores_unfold(t2, w);
            lemma_stores_unfold(t, w);
            assert forall|j: int| stores_via(t2, j, w) == stores_via(t, j, w) by {}
            if held_below(t2, w) {
                let j = choose|j: int| stores_via(t2, j, w);
                assert(stores_via(t, j, w));
            }
            if held_below(t, w) {
                let j = choose|j: int| stores_via(t, j, w);
                assert(stores_via(t2, j, w));
            }
        }
    } else {
        let n = shortest_label_prefix(t.edges, k, 0, k.len() as int);
        let j = label_index(t.edges, k.take(n), 0);
        if n >= 0 && 0 <= j < t.edges.len() {
            let c = t.edges[j].1;
            assert(decreases_to!(t => t.edges));
            assert(decreases_to!(t.edges => t.edges[j]));
            assert(decreases_to!(t.edges[j] => c));
            lemma_with_kvp(c, k.skip(n), m);
            let c2 = model_with_kvp(c, k.skip(n), m);
            assert(t2.edges == t.edges.update(j, (t.edges[j].0, c2)));
            assert forall|i: int| 0 <= i < t.edges.len() implies #[trigger] t2.edges[i].0 == t.edges[i].0 by {}
            lemma_same_labels_search(t2.edges, t.edges, k);
            assert forall|i: int, w: Seq<u8>| stores_via(t2, i, w) == stores_via(t, i, w) by {
                if i != j && 0 <= i < t.edges.len() {
                    assert(t2.edges[i] == t.edges[i]);
                }
            }
            assert forall|w: Seq<u8>| #[trigger] stores(t2, w) == stores(t, w) by {
                lemma_stores_unfold(t2, w);
                lemma_stores_unfold(t, w);
                if held_below(t2, w) {
                    let i = choose|i: int| stores_via(t2, i, w);
                    assert(stores_via(t, i, w));
                }
                if held_below(t, w) {
                    let i = choose|i: int| stores_via(t, i, w);
                    assert(stores_via(t2, i, w));
                }
            }
            if node_wf(t) {
                assert(node_wf(c));
                assert forall|x: int, y: int| 0 <= x < y < t2.edges.len() implies #[trigger] t2.edges[y].0.len() > 0
                    && (#[trigger] t2.edges[x].0.len() > 0 ==> t2.edges[x].0[0] < t2.edges[y].0[0]) by {
                    assert(t2.edges[x].0 == t.edges[x].0);
                    assert(t2.edges[y].0 == t.edges[y].0);
                }
                assert forall|i: int| 0 <= i < t2.edges.len() implies node_wf(#[trigger] t2.edges[i].1) by {
                    if i != j {
                        assert(t2.edges[i] == t.edges[i]);
                    }
                }
                assert forall|i: int| 0 <= i < t2.edges.len() implies #[trigger] t2.edges[i].0.len() > 0 by {
                    assert(t2.edges[i].0 == t.edges[i].0);
                }
            }
        } else {
            assert forall|w: Seq<u8>| #[trigger] stores(t2, w) == stores(t, w) by {}
        }
    }
}

/// Whether `key` leads to `t` itself.
pub open spec fn key_here(t: RadixModel, k: Seq<u8>) -> bool {
    k.len() == 0 && t.is_end
}

/// Writing the pairs of the node that a key leads to keeps the tree well
/// formed and its keys unchanged, and a later lookup of that key gives back
/// the pairs written.
pub proof fn law_pairs_read_after_write(t: RadixModel, k: Seq<u8>, m: Map<Seq<u8>, Seq<u8>>)
    requires
        root_wf(t),
        model_locate(t, k) is Some,
    ensures
        root_wf(model_with_kvp(t, k, m)),
        keys(model_with_kvp(t, k, m)) == keys(t),
        model_locate(model_with_kvp(t, k, m), k) == Some(m),
{
    let t2 = model_with_kvp(t, k, m);
    lemma_with_kvp(t, k, m);
    assert(keys(t2) =~= keys(t));
    assert forall|i: int| 0 <= i < t.edges.len() implies #[trigger] t2.edges[i].0 == t.edges[i].0 by {}
    lemma_same_labels_index(t2.edges, t.edges, Seq::empty(), 0);
    lemma_same_labels_ordered(t2.edges, t.edges);
    assert forall|i: int| 0 <= i < t2.edges.len() implies node_wf(#[trigger] t2.edges[i].1) by {
        let n = shortest_label_prefix(t.edges, k, 0, k.len() as int);
        let j = label_index(t.edges, k.take(n), 0);
        if i == j && n >= 0 && !key_here(t, k) {
            assert(node_wf(t.edges[j].1));
            lemma_with_kvp(t.edges[j].1, k.skip(n), m);
        } else {
            assert(t2.edges[i] == t.edges[i]);
        }
    }
    if has_empty_label(t2) {
        assert(t2.edges[0].1.is_end == t.edges[0].1.is_end);
    }
    assert(edges_ordered(t2.edges));
    assert(!t2.is_end);
    assert(has_empty_label(t2) == has_empty_label(t));
    assert(has_empty_label(t2) ==> t2.edges.len() == 1 && t2.edges[0].1.is_end);
}

/// The root of a well-formed tree never ends a key, so `search` never finds
/// one; and its edge with the empty label is there exactly when the tree holds
/// the empty key.
pub proof fn law_search_finds_nothing(t: RadixModel, k: Seq<u8>)
    requires
        root_wf(t),
    ensures
        !(k.len() == 0 && t.is_end),
        has_empty_label(t) <==> keys(t).contains(Seq::empty()),
{
    lemma_stores_root(t);
    lemma_label_index(t.edges, Seq::empty(), 0);
    if has_empty_label(t) {
        assert(t.edges[0].0 =~= Seq::<u8>::empty());
        lemma_stores_through_empty(t);
        lemma_stores_unfold(t.edges[0].1, Seq::empty());
    } else {
        if held_below(t, Seq::empty()) {
            let j = choose|j: int| stores_via(t, j, Seq::<u8>::empty());
            assert(t.edges[j].0 =~= Seq::<u8>::empty());
        }
    }
}

/// The reported keys between `start` and `end`.
pub open spec fn in_range(g: Seq<u8>, start: Seq<u8>, end: Seq<u8>) -> bool {
    seq_le(start, g) && seq_le(g, end)
}

proof fn lemma_emit_rev(edges: Seq<(Seq<u8>, RadixModel)>, p: Seq<u8>, s: Seq<u8>, e: Seq<u8>, k: nat)
    requires
        k <= edges.len(),
    ensures
        forall|g: Seq<u8>| #[trigger] emit_rev(edges, p, s, e, k).contains(g) <==> exists|j: int|
            0 <= j < k && edges[j].1.is_end && g == p + (#[trigger] edges[j]).0 && in_range(g, s, e),
    decreases k,
{
    if k > 0 {
        lemma_emit_rev(edges, p, s, e, (k - 1) as nat);
        let g0 = p + edges[k - 1].0;
        let here = if edges[k - 1].1.is_end && seq_le(s, g0) && seq_le(g0, e) { seq![g0] } else { Seq::empty() };
        let rest = emit_rev(edges, p, s, e, (k - 1) as nat);
        assert forall|g: Seq<u8>| #[trigger] emit_rev(edges, p, s, e, k).contains(g) <==> exists|j: int|
            0 <= j < k && edges[j].1.is_end && g == p + (#[trigger] edges[j]).0 && in_range(g, s, e) by {
            assert((here + rest).contains(g) <==> here.contains(g) || rest.contains(g)) by {
                if (here + rest).contains(g) {
                    let x = choose|x: int| 0 <= x < (here + rest).len() && (here + rest)[x] == g;
                    if x >= here.len() {
                        assert(rest[x - here.len()] == g);
                    }
                }
                if here.contains(g) {
                    let x = choose|x: int| 0 <= x < here.len() && here[x] == g;
                    assert((here + rest)[x] == g);
                }
                if rest.contains(g) {
                    let x = choose|x: int| 0 <= x < rest.len() && rest[x] == g;
                    assert((here + rest)[x + here.len()] == g);
                }
            }
            if here.contains(g) {
                assert(here[0] == g);
            }
            if exists|j: int| 0 <= j < k && edges[j].1.is_end && g == p + (#[trigger] edges[j]).0 && in_range(g, s, e) {
                let j = choose|j: int| 0 <= j < k && edges[j].1.is_end && g == p + (#[trigger] edges[j]).0 && in_range(g, s, e);
                if j == k - 1 {
                    assert(here[0] == g);
                }
            }
        }
    }
}

proof fn lemma_concat_contains(a: Seq<Seq<u8>>, b: Seq<Seq<u8>>, g: Seq<u8>)
    ensures
        (a + b).contains(g) <==> a.contains(g) || b.contains(g),
{
    if (a + b).contains(g) {
        let x = choose|x: int| 0 <= x < (a + b).len() && (a + b)[x] == g;
        if x >= a.len() {
            assert(b[x - a.len()] == g);
        }
    }
    if a.contains(g) {
        let x = choose|x: int| 0 <= x < a.len() && a[x] == g;
        assert((a + b)[x] == g);
    }
    if b.contains(g) {
        let x = choose|x: int| 0 <= x < b.len() && b[x] == g;
        assert((a + b)[x + a.len()] == g);
    }
}

/// The keys `range` reports below `t`, reached by `prefix`, are `prefix`
/// followed by the keys held below the edges of `t`, when in range.
proof fn lemma_range_model(t: RadixModel, p: Seq<u8>, s: Seq<u8>, e: Seq<u8>)
    ensures
        forall|g: Seq<u8>| #[trigger] model_range(t, p, s, e).contains(g) <==> exists|w: Seq<u8>|
            held_below(t, w) && g == p + w && in_range(g, s, e),
    decreases t,
{
    lemma_emit_rev(t.edges, p, s, e, t.edges.len());
    lemma_range_below(t.edges, p, s, e);
    assert forall|g: Seq<u8>| #[trigger] model_range(t, p, s, e).contains(g) <==> exists|w: Seq<u8>|
        held_below(t, w) && g == p + w && in_range(g, s, e) by {
        let a = emit_rev(t.edges, p, s, e, t.edges.len());
        let b = range_below(t.edges, p, s, e);
        lemma_concat_contains(a, b, g);
        if a.contains(g) {
            let j = choose|j: int| 0 <= j < t.edges.len() && t.edges[j].1.is_end && g == p + (#[trigger] t.edges[j]).0 && in_range(g, s, e);
            let w = t.edges[j].0;
            assert(w.skip(w.len() as int) =~= Seq::<u8>::empty());
            lemma_stores_unfold(t.edges[j].1, Seq::empty());
            assert(w.is_prefix_of(w));
            assert(stores_via(t, j, w));
        }
        if b.contains(g) {
            let (j, x) = choose|j: int, x: Seq<u8>| 0 <= j < t.edges.len() && #[trigger] held_below(t.edges[j].1, x)
                && g == p + t.edges[j].0 + x && in_range(g, s, e);
            let w = t.edges[j].0 + x;
            assert(w.skip(t.edges[j].0.len() as int) =~= x);
            assert(t.edges[j].0.is_prefix_of(w));
            lemma_stores_unfold(t.edges[j].1, x);
            assert(stores_via(t, j, w));
            assert(g =~= p + w);
        }
        if exists|w: Seq<u8>| held_below(t, w) && g == p + w && in_range(g, s, e) {
            let w = choose|w: Seq<u8>| held_below(t, w) && g == p + w && in_range(g, s, e);
            let j = choose|j: int| stores_via(t, j, w);
            let lab = t.edges[j].0;
            let x = w.skip(lab.len() as int);
            lemma_prefix_split(lab, w);
            lemma_stores_unfold(t.edges[j].1, x);
            if x.len() == 0 && t.edges[j].1.is_end {
                assert(w =~= lab);
                assert(a.contains(g));
            } else {
                assert(g =~= p + lab + x);
                assert(b.contains(g));
            }
        }
    }
}

proof fn lemma_range_below(edges: Seq<(Seq<u8>, RadixModel)>, p: Seq<u8>, s: Seq<u8>, e: Seq<u8>)
    ensures
        forall|g: Seq<u8>| #[trigger] range_below(edges, p, s, e).contains(g) <==> exists|j: int, x: Seq<u8>|
            0 <= j < edges.len() && #[trigger] held_below(edges[j].1, x) && g == p + edges[j].0 + x
                && in_range(g, s, e),
    decreases edges,
{
    if edges.len() > 0 {
        let rest = edges.subrange(1, edges.len() as int);
        assert(decreases_to!(edges => edges[0]));
        assert(decreases_to!(edges[0] => edges[0].1));
        lemma_range_model(edges[0].1, p + edges[0].0, s, e);
        lemma_range_below(rest, p, s, e);
        assert forall|g: Seq<u8>| #[trigger] range_below(edges, p, s, e).contains(g) <==> exists|j: int, x: Seq<u8>|
            0 <= j < edges.len() && #[trigger] held_below(edges[j].1, x) && g == p + edges[j].0 + x
                && in_range(g, s, e) by {
            let a = model_range(edges[0].1, p + edges[0].0, s, e);
            let b = range_below(rest, p, s, e);
            lemma_concat_contains(a, b, g);
            if a.contains(g) {
                let x = choose|x: Seq<u8>| held_below(edges[0].1, x) && g == (p + edges[0].0) + x && in_range(g, s, e);
                assert(held_below(edges[0].1, x) && g == p + edges[0].0 + x);
            }
            if b.contains(g) {
                let (j, x) = choose|j: int, x: Seq<u8>| 0 <= j < rest.len() && #[trigger] held_below(rest[j].1, x)
                    && g == p + rest[j].0 + x && in_range(g, s, e);
                assert(rest[j] == edges[j + 1]);
            }
            if exists|j: int, x: Seq<u8>| 0 <= j < edges.len() && #[trigger] held_below(edges[j].1, x)
                && g == p + edges[j].0 + x && in_range(g, s, e) {
                let (j, x) = choose|j: int, x: Seq<u8>| 0 <= j < edges.len() && #[trigger] held_below(edges[j].1, x)
                    && g == p + edges[j].0 + x && in_range(g, s, e);
                if j == 0 {
                    assert(a.contains(g));
                } else {
                    assert(rest[j - 1] == edges[j]);
                    assert(b.contains(g));
                }
            }
        }
    } else {
        assert forall|g: Seq<u8>| !#[trigger] range_below(edges, p, s, e).contains(g) by {}
    }
}

/// `range` reports exactly the keys of the tree between `start` and `end`.
pub proof fn law_range_reports_keys_in_range(t: RadixModel, start: Seq<u8>, end: Seq<u8>)
    requires
        root_wf(t),
    ensures
        forall|g: Seq<u8>| #[trigger] model_range(t, Seq::empty(), start, end).contains(g)
            <==> keys(t).contains(g) && in_range(g, start, end),
{
    lemma_range_model(t, Seq::empty(), start, end);
    lemma_stores_root(t);
    assert forall|g: Seq<u8>| #[trigger] model_range(t, Seq::empty(), start, end).contains(g)
        <==> keys(t).contains(g) && in_range(g, start, end) by {
        assert(Seq::<u8>::empty() + g =~= g);
        if keys(t).contains(g) && in_range(g, start, end) {
            assert(held_below(t, g) && g == Seq::<u8>::empty() + g && in_range(g, start, end));
        }
    }
}

/// The edges of a node below the root: ordered, with non-empty labels, and
/// well-formed nodes below them.
pub open spec fn inner_ok(t: RadixModel) -> bool {
    &&& edges_ordered(t.edges)
    &&& labels_nonempty(t.edges)
    &&& forall|i: int| 0 <= i < t.edges.len() ==> node_wf(#[trigger] t.edges[i].1)
}

/// Two lists without repeats that share nothing make one without repeats.
proof fn lemma_nodup_concat(a: Seq<Seq<u8>>, b: Seq<Seq<u8>>)
    requires
        a.no_duplicates(),
        b.no_duplicates(),
        forall|x: Seq<u8>| a.contains(x) ==> !#[trigger] b.contains(x),
    ensures
        (a + b).no_duplicates(),
{
    let c = a + b;
    assert forall|i: int, j: int| 0 <= i < c.len() && 0 <= j < c.len() && i != j implies c[i] != c[j] by {
        if i < a.len() && j < a.len() {
            assert(c[i] == a[i] && c[j] == a[j]);
        } else if i >= a.len() && j >= a.len() {
            assert(b[i - a.len()] == c[i] && b[j - a.len()] == c[j]);
        } else {
            let (x, y) = if i < a.len() { (i, j) } else { (j, i) };
            assert(c[x] == a[x]);
            assert(b[y - a.len()] == c[y]);
            if c[x] == c[y] {
                assert(a.contains(c[x]));
                assert(b.contains(c[x]));
            }
        }
    }
}

/// The keys of the edges that `range` reports at a node are all different.
proof fn lemma_emit_nodup(edges: Seq<(Seq<u8>, RadixModel)>, p: Seq<u8>, s: Seq<u8>, e: Seq<u8>, k: nat)
    requires
        k <= edges.len(),
        edges_ordered(edges),
        labels_nonempty(edges),
    ensures
        emit_rev(edges, p, s, e, k).no_duplicates(),
    decreases k,
{
    if k > 0 {
        lemma_emit_nodup(edges, p, s, e, (k - 1) as nat);
        lemma_emit_rev(edges, p, s, e, (k - 1) as nat);
        let g0 = p + edges[k - 1].0;
        let here = if edges[k - 1].1.is_end && seq_le(s, g0) && seq_le(g0, e) { seq![g0] } else { Seq::empty() };
        let rest = emit_rev(edges, p, s, e, (k - 1) as nat);
        assert forall|x: Seq<u8>| here.contains(x) implies !#[trigger] rest.contains(x) by {
            assert(here[0] == x);
            if rest.contains(x) {
                let j = choose|j: int| 0 <= j < k - 1 && edges[j].1.is_end && x == p + (#[trigger] edges[j]).0 && in_range(x, s, e);
                assert(x[p.len() as int] == edges[j].0[0]);
                assert(x[p.len() as int] == edges[k - 1].0[0]);
                lemma_ordered_distinct(edges, j, k - 1);
            }
        }
        lemma_nodup_concat(here, rest);
    }
}

/// Below a node reached by `p`, `range` reports no key twice, and each key
/// it reports extends `p`.
proof fn lemma_range_nodup(t: RadixModel, p: Seq<u8>, s: Seq<u8>, e: Seq<u8>)
    requires
        inner_ok(t),
    ensures
        model_range(t, p, s, e).no_duplicates(),
        forall|x: Seq<u8>| #[trigger] model_range(t, p, s, e).contains(x) ==> x.len() > p.len() && x.subrange(0, p.len() as int) == p,
    decreases t,
{
    let a = emit_rev(t.edges, p, s, e, t.edges.len());
    let b = range_below(t.edges, p, s, e);
    lemma_emit_rev(t.edges, p, s, e, t.edges.len());
    lemma_emit_nodup(t.edges, p, s, e, t.edges.len());
    lemma_below_nodup(t.edges, p, s, e);
    assert forall|x: Seq<u8>| a.contains(x) implies !#[trigger] b.contains(x) by {
        let j = choose|j: int| 0 <= j < t.edges.len() && t.edges[j].1.is_end && x == p + (#[trigger] t.edges[j]).0 && in_range(x, s, e);
        if b.contains(x) {
            let j2 = choose|j2: int| 0 <= j2 < t.edges.len() && x.len() > p.len() + (#[trigger] t.edges[j2]).0.len()
                && x.subrange(0, (p.len() + t.edges[j2].0.len()) as int) == p + t.edges[j2].0;
            if j2 != j {
                assert(x[p.len() as int] == x.subrange(0, (p.len() + t.edges[j2].0.len()) as int)[p.len() as int]);
                lemma_ordered_distinct(t.edges, j, j2);
            }
        }
    }
    lemma_nodup_concat(a, b);
    assert forall|x: Seq<u8>| #[trigger] model_range(t, p, s, e).contains(x) implies x.len() > p.len() && x.subrange(0, p.len() as int) == p by {
        lemma_concat_contains(a, b, x);
        if a.contains(x) {
            let j = choose|j: int| 0 <= j < t.edges.len() && t.edges[j].1.is_end && x == p + (#[trigger] t.edges[j]).0 && in_range(x, s, e);
            assert(x.subrange(0, p.len() as int) =~= p);
        } else {
            let j2 = choose|j2: int| 0 <= j2 < t.edges.len() && x.len() > p.len() + (#[trigger] t.edges[j2]).0.len()
                && x.subrange(0, (p.len() + t.edges[j2].0.len()) as int) == p + t.edges[j2].0;
            assert(x.subrange(0, p.len() as int) =~= x.subrange(0, (p.len() + t.edges[j2].0.len()) as int).subrange(0, p.len() as int));
            assert((p + t.edges[j2].0).subrange(0, p.len() as int) =~= p);
        }
    }
}

/// Below the edges of a node reached by `p`, `range` reports no key twice,
/// and each key it reports extends `p` followed by the label of some edge.
proof fn lemma_below_nodup(edges: Seq<(Seq<u8>, RadixModel)>, p: Seq<u8>, s: Seq<u8>, e: Seq<u8>)
    requires
        edges_ordered(edges),
        labels_nonempty(edges),
        forall|i: int| 0 <= i < edges.len() ==> node_wf(#[trigger] edges[i].1),
    ensures
        range_below(edges, p, s, e).no_duplicates(),
        forall|x: Seq<u8>| #[trigger] range_below(edges, p, s, e).contains(x) ==> exists|j: int|
            0 <= j < edges.len() && x.len() > p.len() + (#[trigger] edges[j]).0.len()
                && x.subrange(0, (p.len() + edges[j].0.len()) as int) == p + edges[j].0,
    decreases edges,
{
    if edges.len() > 0 {
        let rest = edges.subrange(1, edges.len() as int);
        let c = edges[0].1;
        let q = p + edges[0].0;
        assert(decreases_to!(edges => edges[0]));
        assert(decreases_to!(edges[0] => edges[0].1));
        assert(node_wf(c));
        lemma_range_nodup(c, q, s, e);
        assert forall|i: int, j: int| 0 <= i < j < rest.len() implies #[trigger] rest[j].0.len() > 0 && (#[trigger] rest[i].0.len() > 0
            ==> rest[i].0[0] < rest[j].0[0]) by {
            assert(rest[i] == edges[i + 1] && rest[j] == edges[j + 1]);
        }
        assert forall|i: int| 0 <= i < rest.len() implies #[trigger] rest[i].0.len() > 0 && node_wf(rest[i].1) by {
            assert(rest[i] == edges[i + 1]);
        }
        lemma_below_nodup(rest, p, s, e);
        let a = model_range(c, q, s, e);
        let b = range_below(rest, p, s, e);
        assert forall|x: Seq<u8>| a.contains(x) implies !#[trigger] b.contains(x) by {
            if b.contains(x) {
                let j = choose|j: int| 0 <= j < rest.len() && x.len() > p.len() + (#[trigger] rest[j]).0.len()
                    && x.subrange(0, (p.len() + rest[j].0.len()) as int) == p + rest[j].0;
                assert(rest[j] == edges[j + 1]);
                assert(x[p.len() as int] == x.subrange(0, (p.len() + rest[j].0.len()) as int)[p.len() as int]);
                assert(x[p.len() as int] == x.subrange(0, q.len() as int)[p.len() as int]);
                lemma_ordered_distinct(edges, 0, j + 1);
            }
        }
        lemma_nodup_concat(a, b);
        assert forall|x: Seq<u8>| #[trigger] range_below(edges, p, s, e).contains(x) implies exists|j: int|
            0 <= j < edges.len() && x.len() > p.len() + (#[trigger] edges[j]).0.len()
                && x.subrange(0, (p.len() + edges[j].0.len()) as int) == p + edges[j].0 by {
            lemma_concat_contains(a, b, x);
            if a.contains(x) {
                assert(x.len() > p.len() + edges[0].0.len());
            } else {
                let j = choose|j: int| 0 <= j < rest.len() && x.len() > p.len() + (#[trigger] rest[j]).0.len()
                    && x.subrange(0, (p.len() + rest[j].0.len()) as int) == p + rest[j].0;
                assert(rest[j] == edges[j + 1]);
            }
        }
    }
}

/// `range` reports each key of a well-formed tree once.
pub proof fn law_range_reports_each_key_once(t: RadixModel, start: Seq<u8>, end: Seq<u8>)
    requires
        root_wf(t),
    ensures
        model_range(t, Seq::empty(), start, end).no_duplicates(),
{
    let p = Seq::<u8>::empty();
    lemma_label_index(t.edges, Seq::empty(), 0);
    if has_empty_label(t) {
        let c = t.edges[0].1;
        assert(t.edges[0].0 == Seq::<u8>::empty());
        assert(node_wf(c));
        lemma_range_nodup(c, p + t.edges[0].0, start, end);
        let a = emit_rev(t.edges, p, start, end, 1);
        assert(emit_rev(t.edges, p, start, end, 0) =~= Seq::<Seq<u8>>::empty());
        let b = range_below(t.edges, p, start, end);
        assert(t.edges.len() == 1);
        let r = t.edges.subrange(1, t.edges.len() as int);
        assert(r.len() == 0);
        assert(range_below(r, p, start, end) == Seq::<Seq<u8>>::empty());
        assert(b =~= model_range(c, p + t.edges[0].0, start, end) + Seq::<Seq<u8>>::empty());
        assert(a.len() <= 1);
        assert forall|x: Seq<u8>| a.contains(x) implies !#[trigger] b.contains(x) by {
            assert(x == a[0]);
            assert(x =~= p + t.edges[0].0);
            lemma_concat_contains(model_range(c, p + t.edges[0].0, start, end), Seq::<Seq<u8>>::empty(), x);
        }
        lemma_nodup_concat(a, b);
    } else {
        assert forall|i: int| 0 <= i < t.edges.len() implies #[trigger] t.edges[i].0.len() > 0 by {
            if t.edges[i].0.len() == 0 {
                assert(t.edges[i].0 =~= Seq::<u8>::empty());
            }
        }
        lemma_range_nodup(t, p, start, end);
    }
}

/// The empty tree holds no key.
pub proof fn lemma_empty_holds_nothing(w: Seq<u8>)
    ensures
        !keys(RadixModel { edges: Seq::empty(), is_end: false, kvp: Map::empty() }).contains(w),
{
    lemma_stores_unfold(RadixModel { edges: Seq::empty(), is_end: false, kvp: Map::empty() }, w);
}

} // verus!
