use vstd::prelude::*;
use crate::bytemap::ByteMap;
use crate::radix_laws::{in_range, law_range_reports_each_key_once, law_range_reports_keys_in_range, keys, law_delete_keeps_other_pairs, law_insert_keeps_pairs, law_delete_wf, law_insert_wf, law_locate_finds_keys, law_pairs_read_after_write, root_wf};
use crate::bytes::{bytes_eq, bytes_lt, common_prefix, lcp, lemma_lcp, seq_le, seq_lt};

verus! {

broadcast use vstd::std_specs::vec::group_vec_axioms;

/// The shape of a radix tree: labelled edges in order, whether the node ends
/// a stored key, and the field/value pairs kept at the node.
pub struct RadixModel {
    pub edges: Seq<(Seq<u8>, RadixModel)>,
    pub is_end: bool,
    pub kvp: Map<Seq<u8>, Seq<u8>>,
}

/// A node that ends a key and has nothing below it.
pub open spec fn leaf_model() -> RadixModel {
    RadixModel { edges: Seq::empty(), is_end: true, kvp: Map::empty() }
}

/// Whether insertion of `key` stops at an edge labelled `label`: the label
/// starts with the key, the key starts with the label, or the two share a
/// first byte.
pub open spec fn ins_hit(label: Seq<u8>, key: Seq<u8>) -> bool {
    let l = lcp(label, key);
    l == key.len() || l == label.len() || l > 0
}

/// The first edge at or after `i` at which insertion of `key` stops, or the
/// number of edges.
pub open spec fn first_ins_hit(edges: Seq<(Seq<u8>, RadixModel)>, key: Seq<u8>, i: nat) -> nat
    decreases edges.len() - i,
{
    if i >= edges.len() {
        edges.len()
    } else if ins_hit(edges[i as int].0, key) {
        i
    } else {
        first_ins_hit(edges, key, i + 1)
    }
}

/// The first edge at or after `i` whose label is not below `key`, or the
/// number of edges: where a new edge labelled `key` goes.
pub open spec fn sorted_pos(edges: Seq<(Seq<u8>, RadixModel)>, key: Seq<u8>, i: nat) -> nat
    decreases edges.len() - i,
{
    if i >= edges.len() {
        edges.len()
    } else if !seq_lt(edges[i as int].0, key) {
        i
    } else {
        sorted_pos(edges, key, i + 1)
    }
}

/// The node that a split puts in the middle of an edge: no key ends there, and
/// below it the old rest of the edge (`a`, to `child`) and the new rest of the
/// key (`b`, to a fresh leaf), in order.
pub open spec fn split_model(a: Seq<u8>, child: RadixModel, b: Seq<u8>) -> RadixModel {
    RadixModel {
        edges: if seq_lt(a, b) {
            seq![(a, child), (b, leaf_model())]
        } else {
            seq![(b, leaf_model()), (a, child)]
        },
        is_end: false,
        kvp: Map::empty(),
    }
}

/// The tree after inserting `key` below `t`.
pub open spec fn model_insert(t: RadixModel, key: Seq<u8>) -> RadixModel
    decreases t,
{
    let i = first_ins_hit(t.edges, key, 0);
    if i < t.edges.len() {
        let label = t.edges[i as int].0;
        let child = t.edges[i as int].1;
        let l = lcp(label, key) as int;
        if l == key.len() {
            let marked = RadixModel { edges: child.edges, is_end: true, kvp: child.kvp };
            RadixModel { edges: t.edges.update(i as int, (label, marked)), is_end: t.is_end, kvp: t.kvp }
        } else if l == label.len() {
            RadixModel {
                edges: t.edges.update(i as int, (label, model_insert(child, key.skip(l)))),
                is_end: t.is_end,
                kvp: t.kvp,
            }
        } else {
            RadixModel {
                edges: t.edges.update(
                    i as int,
                    (label.take(l), split_model(label.skip(l), child, key.skip(l))),
                ),
                is_end: t.is_end,
                kvp: t.kvp,
            }
        }
    } else {
        RadixModel {
            edges: t.edges.insert(sorted_pos(t.edges, key, 0) as int, (key, leaf_model())),
            is_end: t.is_end,
            kvp: t.kvp,
        }
    }
}

/// Position of the first edge at or after `i` labelled `label`, or -1.
pub open spec fn label_index(edges: Seq<(Seq<u8>, RadixModel)>, label: Seq<u8>, i: nat) -> int
    decreases edges.len() - i,
{
    if i >= edges.len() {
        -1
    } else if edges[i as int].0 == label {
        i as int
    } else {
        label_index(edges, label, i + 1)
    }
}

/// The least length `n` with `i <= n <= last` such that the first `n` bytes of
/// `key` label an edge, or -1.
pub open spec fn shortest_label_prefix(
    edges: Seq<(Seq<u8>, RadixModel)>,
    key: Seq<u8>,
    i: nat,
    last: int,
) -> int
    decreases last + 1 - i,
{
    if i > last {
        -1
    } else if label_index(edges, key.take(i as int), 0) >= 0 {
        i as int
    } else {
        shortest_label_prefix(edges, key, i + 1, last)
    }
}

/// The tree after deleting `key` below `t`, and whether a key was deleted.
/// The search follows the edge labelled by the shortest prefix of the key
/// that labels one; a child left with no key and no edge is cut off.
pub open spec fn model_delete(t: RadixModel, key: Seq<u8>) -> (RadixModel, bool)
    decreases t,
{
    if key.len() == 0 {
        if t.is_end {
            (RadixModel { edges: t.edges, is_end: false, kvp: t.kvp }, true)
        } else {
            (t, false)
        }
    } else {
        let n = shortest_label_prefix(t.edges, key, 0, key.len() as int);
        let j = label_index(t.edges, key.take(n), 0);
        if n >= 0 && 0 <= j < t.edges.len() {
            let (c, ok) = model_delete(t.edges[j].1, key.skip(n));
            if c.edges.len() == 0 && !c.is_end {
                (RadixModel { edges: t.edges.remove(j), is_end: t.is_end, kvp: t.kvp }, ok)
            } else {
                (RadixModel { edges: t.edges.update(j, (t.edges[j].0, c)), is_end: t.is_end, kvp: t.kvp }, ok)
            }
        } else {
            (t, false)
        }
    }
}

/// The field/value pairs of the node that `key` leads to from `t`, if any:
/// the node itself for an empty key when it ends a key, else the node found
/// below the edge labelled by the shortest prefix of the key that labels one.
pub open spec fn model_locate(t: RadixModel, key: Seq<u8>) -> Option<Map<Seq<u8>, Seq<u8>>>
    decreases t,
{
    if key.len() == 0 && t.is_end {
        Some(t.kvp)
    } else {
        let n = shortest_label_prefix(t.edges, key, 0, key.len() as int);
        let j = label_index(t.edges, key.take(n), 0);
        if n >= 0 && 0 <= j < t.edges.len() {
            model_locate(t.edges[j].1, key.skip(n))
        } else {
            None
        }
    }
}

/// `t` with the pairs of the node that `key` leads to replaced by `m`.
pub open spec fn model_with_kvp(t: RadixModel, key: Seq<u8>, m: Map<Seq<u8>, Seq<u8>>) -> RadixModel
    decreases t,
{
    if key.len() == 0 && t.is_end {
        RadixModel { edges: t.edges, is_end: t.is_end, kvp: m }
    } else {
        let n = shortest_label_prefix(t.edges, key, 0, key.len() as int);
        let j = label_index(t.edges, key.take(n), 0);
        if n >= 0 && 0 <= j < t.edges.len() {
            RadixModel {
                edges: t.edges.update(j, (t.edges[j].0, model_with_kvp(t.edges[j].1, key.skip(n), m))),
                is_end: t.is_end,
                kvp: t.kvp,
            }
        } else {
            t
        }
    }
}

/// Where `key` leads nowhere, replacing the pairs there changes nothing.
pub proof fn lemma_with_kvp_unlocated(t: RadixModel, key: Seq<u8>, m: Map<Seq<u8>, Seq<u8>>)
    requires
        model_locate(t, key) is None,
    ensures
        model_with_kvp(t, key, m) == t,
    decreases t,
{
    if key.len() == 0 && t.is_end {
    } else {
        let n = shortest_label_prefix(t.edges, key, 0, key.len() as int);
        let j = label_index(t.edges, key.take(n), 0);
        if n >= 0 && 0 <= j < t.edges.len() {
            lemma_with_kvp_unlocated(t.edges[j].1, key.skip(n), m);
            assert(t.edges.update(j, (t.edges[j].0, t.edges[j].1)) =~= t.edges);
        }
    }
}

/// Writing back the pairs that a key leads to changes nothing.
pub proof fn lemma_with_own_kvp(t: RadixModel, key: Seq<u8>)
    requires
        model_locate(t, key) is Some,
    ensures
        model_with_kvp(t, key, model_locate(t, key).unwrap()) == t,
    decreases t,
{
    if key.len() == 0 && t.is_end {
    } else {
        let n = shortest_label_prefix(t.edges, key, 0, key.len() as int);
        let j = label_index(t.edges, key.take(n), 0);
        if n >= 0 && 0 <= j < t.edges.len() {
            lemma_with_own_kvp(t.edges[j].1, key.skip(n));
            assert(t.edges.update(j, (t.edges[j].0, t.edges[j].1)) =~= t.edges);
        }
    }
}

/// The byte strings held by a list of vectors.
pub open spec fn views(s: Seq<Vec<u8>>) -> Seq<Seq<u8>> {
    s.map_values(|v: Vec<u8>| v@)
}

/// Whether some edge of `t` has the empty label.
pub open spec fn has_empty_label(t: RadixModel) -> bool {
    label_index(t.edges, Seq::empty(), 0) >= 0
}

/// The keys that `range` reports for the edges `edges[0..k]`, from the last
/// of them to the first: `prefix` followed by the label of each edge whose
/// child ends a key, when that lies between `start` and `end`.
pub open spec fn emit_rev(
    edges: Seq<(Seq<u8>, RadixModel)>,
    prefix: Seq<u8>,
    start: Seq<u8>,
    end: Seq<u8>,
    k: nat,
) -> Seq<Seq<u8>>
    decreases k,
{
    if k == 0 || k > edges.len() {
        Seq::empty()
    } else {
        let g = prefix + edges[k - 1].0;
        let here = if edges[k - 1].1.is_end && seq_le(start, g) && seq_le(g, end) {
            seq![g]
        } else {
            Seq::empty()
        };
        here + emit_rev(edges, prefix, start, end, (k - 1) as nat)
    }
}

/// What `range` reports below `t` reached by `prefix`: the keys of its own
/// edges, last edge first, then everything below each edge in edge order.
pub open spec fn model_range(t: RadixModel, prefix: Seq<u8>, start: Seq<u8>, end: Seq<u8>) -> Seq<Seq<u8>>
    decreases t,
{
    emit_rev(t.edges, prefix, start, end, t.edges.len()) + range_below(t.edges, prefix, start, end)
}

/// What `range` reports below each of `edges`, in order.
pub open spec fn range_below(
    edges: Seq<(Seq<u8>, RadixModel)>,
    prefix: Seq<u8>,
    start: Seq<u8>,
    end: Seq<u8>,
) -> Seq<Seq<u8>>
    decreases edges,
{
    if edges.len() == 0 {
        Seq::empty()
    } else {
        model_range(edges[0].1, prefix + edges[0].0, start, end)
            + range_below(edges.subrange(1, edges.len() as int), prefix, start, end)
    }
}

/// A node of the tree: its edges in label order, each to a child.
struct Node {
    children: Vec<(Vec<u8>, Node)>,
    is_end: bool,
    kvp: ByteMap<Vec<u8>>,
}

impl Node {
    /// The model of the subtree at this node.
    spec fn model(&self) -> RadixModel
        decreases self,
    {
        RadixModel {
            edges: Seq::new(
                self.children@.len(),
                |i: int|
                    if 0 <= i < self.children@.len() {
                        (self.children@[i].0@, self.children@[i].1.model())
                    } else {
                        (Seq::empty(), leaf_model())
                    },
            ),
            is_end: self.is_end,
            kvp: self.kvp@,
        }
    }

    /// A node with no edge, ending no key.
    fn new() -> (r: Node)
        ensures
            r.model() == (RadixModel { edges: Seq::empty(), is_end: false, kvp: Map::empty() }),
            r.children@.len() == 0,
    {
        let r = Node { children: Vec::new(), is_end: false, kvp: ByteMap::new() };
        assert(r.model().edges =~= Seq::<(Seq<u8>, RadixModel)>::empty());
        r
    }

    /// A node with no edge that ends a key.
    fn leaf() -> (r: Node)
        ensures
            r.model() == leaf_model(),
    {
        let r = Node { children: Vec::new(), is_end: true, kvp: ByteMap::new() };
        assert(r.model().edges =~= Seq::<(Seq<u8>, RadixModel)>::empty());
        r
    }

    /// Inserts `key` below this node. At the first edge whose label and the
    /// key share a first byte, or of which one begins the other, the edge's
    /// node is marked (the key begins the label), the rest of the key goes
    /// below (the label begins the key), or the edge is split; with no such
    /// edge, a new one goes in label order.
    fn insert(&mut self, key: &[u8])
        ensures
            final(self).model() == model_insert(old(self).model(), key@),
        decreases *old(self),
    {
        let ghost m = old(self).model();
        let ghost old_children = old(self).children@;
        let mut i: usize = 0;
        while i < self.children.len()
            invariant
                i <= self.children@.len(),
                self.children@ == old_children,
                old_children == old(self).children@,
                m == old(self).model(),
                m == self.model(),
                first_ins_hit(m.edges, key@, 0) == first_ins_hit(m.edges, key@, i as nat),
            decreases self.children@.len() - i,
        {
            let l = common_prefix(self.children[i].0.as_slice(), key);
            if l == key.len() || l == self.children[i].0.len() || l > 0 {
                assert(first_ins_hit(m.edges, key@, i as nat) == i);
                assert(m.edges[i as int] == (old_children[i as int].0@, old_children[i as int].1.model()));
                let (label, mut child) = self.children.remove(i);
                proof {
                    lemma_lcp(label@, key@);
                }
                if l == key.len() {
                    child.is_end = true;
                    assert(child.model().edges =~= m.edges[i as int].1.edges);
                } else if l == label.len() {
                    proof {
                        assert(i < old(self).children@.len());
                        assert(decreases_to!(*old(self) => old(self).children));
                        assert(decreases_to!(old(self).children => old(self).children[i as int]));
                        assert(decreases_to!(old(self).children[i as int] => old(self).children[i as int].1));
                    }
                    child.insert(slice_tail(key, l));
                } else {
                    let rest_label = slice_to_vec_range(label.as_slice(), l, label.len());
                    let rest_key = slice_to_vec_range(key, l, key.len());
                    let head = slice_to_vec_range(label.as_slice(), 0, l);
                    let ghost child_model = child.model();
                    assert(rest_label@ =~= label@.skip(l as int));
                    assert(rest_key@ =~= key@.skip(l as int));
                    let mut mid = Node::new();
                    let lf = Node::leaf();
                    assert(mid.children@.len() == 0);
                    if bytes_lt(rest_label.as_slice(), rest_key.as_slice()) {
                        mid.children.push((rest_label, child));
                        mid.children.push((rest_key, lf));
                    } else {
                        mid.children.push((rest_key, lf));
                        mid.children.push((rest_label, child));
                    }
                    assert(mid.model().edges =~= split_model(label@.skip(l as int), child_model, key@.skip(l as int)).edges);
                    assert(mid.model() == split_model(label@.skip(l as int), child_model, key@.skip(l as int)));
                    child = mid;
                    let label = head;
                    self.children.insert(i, (label, child));
                    assert(self.children@ =~= old_children.update(i as int, (label, child)));
                    assert(self.model().edges =~= model_insert(m, key@).edges);
                    return;
                }
                self.children.insert(i, (label, child));
                assert(self.children@ =~= old_children.update(i as int, (label, child)));
                assert(self.model().edges =~= model_insert(m, key@).edges);
                return;
            }
            i += 1;
        }
        let mut p: usize = 0;
        while p < self.children.len() && bytes_lt(self.children[p].0.as_slice(), key)
            invariant
                p <= self.children@.len(),
                self.children@ == old_children,
                m == self.model(),
                sorted_pos(m.edges, key@, 0) == sorted_pos(m.edges, key@, p as nat),
            decreases self.children@.len() - p,
        {
            assert(m.edges[p as int].0 == old_children[p as int].0@);
            p += 1;
        }
        if p < self.children.len() {
            assert(m.edges[p as int].0 == old_children[p as int].0@);
        }
        let fresh = (slice_to_vec_range(key, 0, key.len()), Node::leaf());
        self.children.insert(p, fresh);
        assert(key@.subrange(0, key@.len() as int) =~= key@);
        assert(self.children@ =~= old_children.insert(p as int, fresh));
        assert(self.model().edges =~= model_insert(m, key@).edges);
    }

    /// `n` is `o` with the pairs of the node that `key` leads to replaced by `fm`.
    spec fn kvp_moved(o: Node, n: Node, key: Seq<u8>, fm: ByteMap<Vec<u8>>) -> bool
        decreases o,
    {
        if key.len() == 0 && o.is_end {
            n == Node { children: o.children, is_end: o.is_end, kvp: fm }
        } else {
            let mo = o.model();
            let k = shortest_label_prefix(mo.edges, key, 0, key.len() as int);
            let j = label_index(mo.edges, key.take(k), 0);
            if k >= 0 && 0 <= j < o.children@.len() {
                &&& n.children@ == o.children@.update(j, (o.children@[j].0, n.children@[j].1))
                &&& n.is_end == o.is_end
                &&& n.kvp == o.kvp
                &&& Node::kvp_moved(o.children@[j].1, n.children@[j].1, key.skip(k), fm)
            } else {
                false
            }
        }
    }

    /// What `kvp_moved` means for the models.
    proof fn lemma_kvp_moved(o: Node, n: Node, key: Seq<u8>, fm: ByteMap<Vec<u8>>)
        requires
            Node::kvp_moved(o, n, key, fm),
        ensures
            n.model() == model_with_kvp(o.model(), key, fm@),
        decreases o,
    {
        if key.len() == 0 && o.is_end {
            assert(n.model().edges =~= o.model().edges);
        } else {
            let mo = o.model();
            let k = shortest_label_prefix(mo.edges, key, 0, key.len() as int);
            let j = label_index(mo.edges, key.take(k), 0);
            assert(decreases_to!(o => o.children));
            assert(decreases_to!(o.children => o.children[j]));
            assert(decreases_to!(o.children[j] => o.children[j].1));
            Node::lemma_kvp_moved(o.children@[j].1, n.children@[j].1, key.skip(k), fm);
            assert(n.model().edges =~= model_with_kvp(mo, key, fm@).edges);
        }
    }

    /// `lemma_kvp_moved` for all nodes.
    proof fn lemma_kvp_moved_all()
        ensures
            forall|o: Node, n: Node, key: Seq<u8>, fm: ByteMap<Vec<u8>>|
                #![trigger n.model(), model_with_kvp(o.model(), key, fm@)]
                Node::kvp_moved(o, n, key, fm) ==> n.model() == model_with_kvp(o.model(), key, fm@),
    {
        assert forall|o: Node, n: Node, key: Seq<u8>, fm: ByteMap<Vec<u8>>|
            Node::kvp_moved(o, n, key, fm) implies n.model() == model_with_kvp(o.model(), key, fm@) by {
            Node::lemma_kvp_moved(o, n, key, fm);
        }
    }

    /// `n` is `o` with nothing changed but, possibly, the identity of the
    /// nodes on the path that `key` follows.
    spec fn kept_along(o: Node, n: Node, key: Seq<u8>) -> bool
        decreases o,
    {
        let mo = o.model();
        let k = shortest_label_prefix(mo.edges, key, 0, key.len() as int);
        let j = label_index(mo.edges, key.take(k), 0);
        if !(key.len() == 0 && o.is_end) && k >= 0 && 0 <= j < o.children@.len() {
            &&& n.children@ == o.children@.update(j, (o.children@[j].0, n.children@[j].1))
            &&& n.is_end == o.is_end
            &&& n.kvp == o.kvp
            &&& Node::kept_along(o.children@[j].1, n.children@[j].1, key.skip(k))
        } else {
            n == o
        }
    }

    /// A node kept along a path has the same model.
    proof fn lemma_kept_along(o: Node, n: Node, key: Seq<u8>)
        requires
            Node::kept_along(o, n, key),
        ensures
            n.model() == o.model(),
        decreases o,
    {
        let mo = o.model();
        let k = shortest_label_prefix(mo.edges, key, 0, key.len() as int);
        let j = label_index(mo.edges, key.take(k), 0);
        if !(key.len() == 0 && o.is_end) && k >= 0 && 0 <= j < o.children@.len() {
            assert(decreases_to!(o => o.children));
            assert(decreases_to!(o.children => o.children[j]));
            assert(decreases_to!(o.children[j] => o.children[j].1));
            Node::lemma_kept_along(o.children@[j].1, n.children@[j].1, key.skip(k));
            assert(n.model().edges =~= mo.edges);
        }
    }

    /// `lemma_kept_along`, with the pairs replaced where the key leads nowhere.
    proof fn lemma_kept_along_all()
        ensures
            forall|o: Node, n: Node, key: Seq<u8>, m: Map<Seq<u8>, Seq<u8>>|
                #![trigger n.model(), model_with_kvp(o.model(), key, m)]
                Node::kept_along(o, n, key) && model_locate(o.model(), key) is None
                    ==> n.model() == model_with_kvp(o.model(), key, m),
    {
        assert forall|o: Node, n: Node, key: Seq<u8>, m: Map<Seq<u8>, Seq<u8>>|
            Node::kept_along(o, n, key) && model_locate(o.model(), key) is None
            implies n.model() == model_with_kvp(o.model(), key, m) by {
            Node::lemma_kept_along(o, n, key);
            lemma_with_kvp_unlocated(o.model(), key, m);
        }
    }

    /// The position of the edge labelled `label`, if any.
    fn find_label(&self, label: &[u8]) -> (r: Option<usize>)
        ensures
            match r {
                Some(j) => j == label_index(self.model().edges, label@, 0) && j < self.children@.len(),
                None => label_index(self.model().edges, label@, 0) == -1,
            },
    {
        let ghost m = self.model();
        let mut j: usize = 0;
        while j < self.children.len()
            invariant
                j <= self.children@.len(),
                m == self.model(),
                label_index(m.edges, label@, 0) == label_index(m.edges, label@, j as nat),
            decreases self.children@.len() - j,
        {
            assert(m.edges[j as int].0 == self.children@[j as int].0@);
            if bytes_eq(self.children[j].0.as_slice(), label) {
                return Some(j);
            }
            j += 1;
        }
        None
    }

    /// The least `n <= last` such that `key[0..n]` labels an edge, with the
    /// position of that edge.
    fn shortest_prefix(&self, key: &[u8], last: usize) -> (r: Option<(usize, usize)>)
        requires
            last <= key@.len(),
        ensures
            match r {
                Some((n, j)) => {
                    &&& n == shortest_label_prefix(self.model().edges, key@, 0, last as int)
                    &&& j == label_index(self.model().edges, key@.take(n as int), 0)
                    &&& n <= last
                    &&& j < self.children@.len()
                },
                None => shortest_label_prefix(self.model().edges, key@, 0, last as int) == -1,
            },
    {
        let ghost m = self.model();
        let mut i: usize = 0;
        loop
            invariant
                i <= last,
                last <= key@.len(),
                m == self.model(),
                shortest_label_prefix(m.edges, key@, 0, last as int)
                    == shortest_label_prefix(m.edges, key@, i as nat, last as int),
            decreases last - i,
        {
            let head = &key[0..i];
            assert(head@ =~= key@.take(i as int));
            match self.find_label(head) {
                Some(j) => {
                    return Some((i, j));
                },
                None => {},
            }
            if i == last {
                assert(shortest_label_prefix(m.edges, key@, (i + 1) as nat, last as int) == -1);
                return None;
            }
            i += 1;
        }
    }

    /// Deletes `key` below this node; `true` when a key was deleted.
    fn delete(&mut self, key: &[u8]) -> (r: bool)
        ensures
            (final(self).model(), r) == model_delete(old(self).model(), key@),
        decreases *old(self),
    {
        let ghost m = self.model();
        let ghost old_children = self.children@;
        if key.len() == 0 {
            if self.is_end {
                self.is_end = false;
                assert(self.model().edges =~= m.edges);
                return true;
            } else {
                return false;
            }
        }
        match self.shortest_prefix(key, key.len()) {
            None => false,
            Some((n, j)) => {
                assert(m.edges[j as int] == (old_children[j as int].0@, old_children[j as int].1.model()));
                let (label, mut child) = self.children.remove(j);
                proof {
                    assert(decreases_to!(*old(self) => old(self).children));
                    assert(decreases_to!(old(self).children => old(self).children[j as int]));
                    assert(decreases_to!(old(self).children[j as int] => old(self).children[j as int].1));
                }
                let ok = child.delete(slice_tail(key, n));
                if child.children.len() == 0 && !child.is_end {
                    assert(self.children@ =~= old_children.remove(j as int));
                    assert(self.model().edges =~= m.edges.remove(j as int));
                } else {
                    self.children.insert(j, (label, child));
                    assert(self.children@ =~= old_children.update(j as int, (label, child)));
                    assert(self.model().edges =~= model_delete(m, key@).0.edges);
                }
                ok
            },
        }
    }

    /// Whether this node ends `key`: the walk tries each prefix of the key
    /// but the last byte and goes on from this same node with the rest.
    fn search(&self, key: &[u8]) -> (r: bool)
        requires
            !(key@.len() >= 2 && has_empty_label(self.model())),
        ensures
            r == (key@.len() == 0 && self.model().is_end),
        decreases key@.len(),
    {
        if key.len() == 0 {
            return self.is_end;
        }
        if key.len() < 2 {
            return false;
        }
        match self.shortest_prefix(key, key.len() - 2) {
            None => false,
            Some((i, _j)) => {
                if i == 0 {
                    assert(key@.take(0) =~= Seq::<u8>::empty());
                }
                self.search(slice_tail(key, i))
            },
        }
    }

    /// The pairs of the node that `key` leads to, for update in place.
    fn iterator(&mut self, key: &[u8]) -> (r: Option<&mut ByteMap<Vec<u8>>>)
        ensures
            r is Some <==> model_locate(old(self).model(), key@) is Some,
            r matches Some(m) ==> {
                &&& Some(m@) == model_locate(old(self).model(), key@)
                &&& Node::kvp_moved(*old(self), *final(self), key@, *final(m))
                &&& final(self).model() == model_with_kvp(old(self).model(), key@, final(m)@)
            },
            r is None ==> Node::kept_along(*old(self), *final(self), key@),
            r is None ==> final(self).model() == model_with_kvp(old(self).model(), key@, Map::empty()),
        decreases *old(self),
    {
        proof {
            Node::lemma_kvp_moved_all();
            Node::lemma_kept_along_all();
        }
        if key.len() == 0 && self.is_end {
            return Some(&mut self.kvp);
        }
        match self.shortest_prefix(key, key.len()) {
            None => None,
            Some((n, j)) => {
                proof {
                    assert(decreases_to!(*old(self) => old(self).children));
                    assert(decreases_to!(old(self).children => old(self).children[j as int]));
                    assert(decreases_to!(old(self).children[j as int] => old(self).children[j as int].1));
                }
                let e = &mut self.children[j];
                e.1.iterator(slice_tail(key, n))
            },
        }
    }

    /// The keys below this node between `start` and `end`, each node's edges
    /// walked in order.
    fn range(&self, start: &[u8], end: &[u8]) -> (r: Vec<Vec<u8>>)
        ensures
            views(r@) == model_range(self.model(), Seq::empty(), start@, end@),
    {
        let mut out: Vec<Vec<u8>> = Vec::new();
        let empty: Vec<u8> = Vec::new();
        self.range_into(empty.as_slice(), start, end, &mut out);
        assert(views(Seq::<Vec<u8>>::empty()) + model_range(self.model(), Seq::empty(), start@, end@)
            =~= model_range(self.model(), Seq::empty(), start@, end@));
        out
    }

    /// Appends to `out` the keys below this node, reached by `prefix`, that
    /// lie between `start` and `end`.
    fn range_into(&self, prefix: &[u8], start: &[u8], end: &[u8], out: &mut Vec<Vec<u8>>)
        ensures
            views(final(out)@) == views(old(out)@) + model_range(self.model(), prefix@, start@, end@),
        decreases self,
    {
        let ghost m = self.model();
        let ghost out0 = views(out@);
        let n = self.children.len();
        let mut k = n;
        while k > 0
            invariant
                k <= n,
                n == self.children@.len(),
                m == self.model(),
                out0 == views(old(out)@),
                views(out@) + emit_rev(m.edges, prefix@, start@, end@, k as nat)
                    == out0 + emit_rev(m.edges, prefix@, start@, end@, n as nat),
            decreases k,
        {
            let j = k - 1;
            assert(m.edges[j as int] == (self.children@[j as int].0@, self.children@[j as int].1.model()));
            let g = concat_bytes(prefix, self.children[j].0.as_slice());
            let ghost before = views(out@);
            let ghost rest = emit_rev(m.edges, prefix@, start@, end@, j as nat);
            if self.children[j].1.is_end && !bytes_lt(g.as_slice(), start) && !bytes_lt(end, g.as_slice()) {
                out.push(g);
                assert(views(out@) =~= before.push(g@));
                assert(before.push(g@) + rest =~= before + (seq![g@] + rest));
            } else {
                assert(Seq::<Seq<u8>>::empty() + rest =~= rest);
            }
            k = j;
        }
        assert(emit_rev(m.edges, prefix@, start@, end@, 0) =~= Seq::<Seq<u8>>::empty());
        assert(views(out@) + Seq::<Seq<u8>>::empty() =~= views(out@));
        assert(m.edges.subrange(0, n as int) =~= m.edges);
        let mut i: usize = 0;
        while i < n
            invariant
                i <= n,
                n == self.children@.len(),
                m == self.model(),
                out0 == views(old(out)@),
                views(out@) + range_below(m.edges.subrange(i as int, n as int), prefix@, start@, end@)
                    == out0 + model_range(m, prefix@, start@, end@),
            decreases n - i,
        {
            assert(m.edges[i as int] == (self.children@[i as int].0@, self.children@[i as int].1.model()));
            let g = concat_bytes(prefix, self.children[i].0.as_slice());
            let ghost before = views(out@);
            let ghost sub = m.edges.subrange(i as int, n as int);
            assert(sub.subrange(1, sub.len() as int) =~= m.edges.subrange(i + 1, n as int));
            assert(sub[0] == m.edges[i as int]);
            self.children[i].1.range_into(g.as_slice(), start, end, out);
            let ghost below = range_below(m.edges.subrange(i + 1, n as int), prefix@, start@, end@);
            let ghost mid = model_range(m.edges[i as int].1, g@, start@, end@);
            assert(before + (mid + below) =~= (before + mid) + below);
            i += 1;
        }
        assert(m.edges.subrange(n as int, n as int) =~= Seq::<(Seq<u8>, RadixModel)>::empty());
        assert(views(out@) + Seq::<Seq<u8>>::empty() =~= views(out@));
    }
}

/// `a` followed by `b`.
fn concat_bytes(a: &[u8], b: &[u8]) -> (r: Vec<u8>)
    ensures
        r@ == a@ + b@,
{
    let mut r: Vec<u8> = Vec::new();
    let mut i: usize = 0;
    while i < a.len()
        invariant
            i <= a@.len(),
            r@ == a@.subrange(0, i as int),
        decreases a@.len() - i,
    {
        r.push(a[i]);
        i += 1;
        assert(r@ =~= a@.subrange(0, i as int));
    }
    let mut j: usize = 0;
    while j < b.len()
        invariant
            j <= b@.len(),
            r@ == a@ + b@.subrange(0, j as int),
        decreases b@.len() - j,
    {
        r.push(b[j]);
        j += 1;
        assert(r@ =~= a@ + b@.subrange(0, j as int));
    }
    assert(a@.subrange(0, a@.len() as int) =~= a@);
    assert(b@.subrange(0, b@.len() as int) =~= b@);
    r
}

/// The bytes of `s` from `from` on.
fn slice_tail(s: &[u8], from: usize) -> (r: &[u8])
    requires
        from <= s@.len(),
    ensures
        r@ == s@.skip(from as int),
{
    &s[from..s.len()]
}

/// A copy of the bytes of `s` from `from` up to `to`.
fn slice_to_vec_range(s: &[u8], from: usize, to: usize) -> (r: Vec<u8>)
    requires
        from <= to <= s@.len(),
    ensures
        r@ == s@.subrange(from as int, to as int),
{
    vstd::slice::slice_to_vec(&s[from..to])
}


/// `std::fmt::Error`, the error that `RadixT::delete` reports.
#[verifier::external_type_specification]
#[verifier::external_body]
pub struct ExFmtError(std::fmt::Error);

/// Makes a `std::fmt::Error` through its `Default` impl; nothing is claimed of
/// it, the type carrying no data.
#[verifier::external_body]
fn fmt_error() -> std::fmt::Error {
    std::fmt::Error::default()
}

/// A radix tree of byte-string keys; each node that ends a key also holds
/// field/value pairs.
pub struct RadixT {
    root: Node,
}

impl View for RadixT {
    type V = RadixModel;

    closed spec fn view(&self) -> RadixModel {
        self.root.model()
    }
}

impl RadixT {
    /// The tree is well formed (`root_wf`): every tree made by `new` and
    /// changed by `insert`, `delete` and `iterator` is.
    pub open spec fn wf(&self) -> bool {
        root_wf(self@)
    }

    /// An empty tree.
    pub fn new() -> (r: Self)
        ensures
            r@ == (RadixModel { edges: Seq::empty(), is_end: false, kvp: Map::empty() }),
            r.wf(),
    {
        let r = RadixT { root: Node::new() };
        assert(root_wf(r@));
        r
    }

    /// Inserts `key` as `model_insert` describes.
    pub fn insert(&mut self, key: &[u8])
        ensures
            final(self)@ == model_insert(old(self)@, key@),
            old(self).wf() ==> final(self).wf(),
            old(self).wf() ==> forall|k: Seq<u8>| #[trigger] model_locate(old(self)@, k) is Some
                ==> model_locate(final(self)@, k) == model_locate(old(self)@, k),
    {
        proof {
            if root_wf(self@) {
                law_insert_wf(self@, key@);
                assert forall|k: Seq<u8>| #[trigger] model_locate(self@, k) is Some
                    implies model_locate(model_insert(self@, key@), k) == model_locate(self@, k) by {
                    law_insert_keeps_pairs(self@, key@, k);
                }
            }
        }
        self.root.insert(key);
    }

    /// Whether the root ends the key reached by `key`: only an empty key can
    /// get there, the walk never leaving the root. Where the root has an edge
    /// with the empty label, a key of two bytes or more would make the walk
    /// recurse without end.
    pub fn search(&self, key: &[u8]) -> (r: bool)
        requires
            !(key@.len() >= 2 && has_empty_label(self@)),
        ensures
            r == (key@.len() == 0 && self@.is_end),
    {
        self.root.search(key)
    }

    /// Whether the root has an edge with the empty label.
    pub fn has_empty_edge(&self) -> (r: bool)
        ensures
            r == has_empty_label(self@),
    {
        let empty: Vec<u8> = Vec::new();
        self.root.find_label(empty.as_slice()).is_some()
    }

    /// The keys between `start` and `end`, in the order of `model_range`.
    pub fn range(&self, start: &[u8], end: &[u8]) -> (r: Vec<Vec<u8>>)
        ensures
            views(r@) == model_range(self@, Seq::empty(), start@, end@),
            self.wf() ==> views(r@).no_duplicates(),
            self.wf() ==> forall|g: Seq<u8>| #[trigger] views(r@).contains(g)
                <==> keys(self@).contains(g) && in_range(g, start@, end@),
    {
        proof {
            if root_wf(self@) {
                law_range_reports_each_key_once(self@, start@, end@);
                law_range_reports_keys_in_range(self@, start@, end@);
            }
        }
        self.root.range(start, end)
    }

    /// Deletes `key` as `model_delete` describes; `Ok` exactly when a key was
    /// deleted.
    pub fn delete(&mut self, key: &[u8]) -> (r: Result<(), std::fmt::Error>)
        ensures
            (final(self)@, r is Ok) == model_delete(old(self)@, key@),
            old(self).wf() ==> final(self).wf(),
            forall|k: Seq<u8>| k != key@ && #[trigger] model_locate(old(self)@, k) is Some
                ==> model_locate(final(self)@, k) == model_locate(old(self)@, k),
    {
        proof {
            if root_wf(self@) {
                law_delete_wf(self@, key@);
            }
            assert forall|k: Seq<u8>| k != key@ && #[trigger] model_locate(self@, k) is Some
                implies model_locate(model_delete(self@, key@).0, k) == model_locate(self@, k) by {
                law_delete_keeps_other_pairs(self@, key@, k);
            }
        }
        if self.root.delete(key) {
            Ok(())
        } else {
            Err(fmt_error())
        }
    }

    /// The field/value pairs of the node that `key` leads to, for update in
    /// place.
    pub fn iterator(&mut self, key: &[u8]) -> (r: Option<&mut ByteMap<Vec<u8>>>)
        ensures
            r is Some <==> model_locate(old(self)@, key@) is Some,
            r matches Some(m) ==> {
                &&& Some(m@) == model_locate(old(self)@, key@)
                &&& final(self)@ == model_with_kvp(old(self)@, key@, final(m)@)
            },
            r is None ==> final(self)@ == old(self)@,
            old(self).wf() ==> (r is Some <==> keys(old(self)@).contains(key@)),
            r matches Some(m) ==> (final(m)@ == m@ ==> final(self)@ == old(self)@),
            old(self).wf() ==> final(self).wf(),
    {
        proof {
            if root_wf(self@) {
                law_locate_finds_keys(self@, key@);
                assert forall|mm: Map<Seq<u8>, Seq<u8>>| model_locate(self@, key@) is Some
                    implies #[trigger] root_wf(model_with_kvp(self@, key@, mm)) by {
                    law_pairs_read_after_write(self@, key@, mm);
                }
            }
            if model_locate(self@, key@) is None {
                lemma_with_kvp_unlocated(self@, key@, Map::empty());
            } else {
                lemma_with_own_kvp(self@, key@);
            }
        }
        self.root.iterator(key)
    }
}

} // verus!
