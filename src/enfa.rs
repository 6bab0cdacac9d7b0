use vstd::multiset::Multiset;
use vstd::prelude::*;

use petgraph::stable_graph::{EdgeIndex, NodeIndex, StableDiGraph, StableGraph};
use petgraph::visit::EdgeRef;
use petgraph::{Directed, Direction};
use std::collections::VecDeque;

use crate::ast::{concat_langs, in_lang, lang, AstModel, AstNode, CharModel, Character};
use crate::re::{active, lemma_active_within, lemma_fragment_accepts, reached};

verus! {

#[verifier::external_type_specification]
#[verifier::external_body]
#[verifier::reject_recursive_types(N)]
#[verifier::reject_recursive_types(E)]
#[verifier::reject_recursive_types(Ty)]
#[verifier::reject_recursive_types(Ix)]
pub struct ExStableGraph<N, E, Ty, Ix>(StableGraph<N, E, Ty, Ix>);

#[verifier::external_type_specification]
#[verifier::external_body]
pub struct ExDirected(Directed);

/// The label of an automaton edge.
#[derive(Debug, Clone, PartialEq)]
pub enum Condition {
    Char(Character),
    Epsilon,
}

/// Number of nodes of a graph (its `node_count`).
pub uninterp spec fn graph_nodes(g: StableDiGraph<(), Condition>) -> nat;

/// The edges of a graph by edge index: source, target and weight.
pub uninterp spec fn graph_edges(g: StableDiGraph<(), Condition>) -> Seq<(nat, nat, Condition)>;

/// Whether a graph holds vacant node or edge slots left by removals.
pub uninterp spec fn graph_vacant(g: StableDiGraph<(), Condition>) -> bool;

/// Relies on `StableGraph::new`: an empty graph with no vacant slots.
#[verifier::external_body]
fn graph_new() -> (g: StableDiGraph<(), Condition>)
    ensures
        graph_nodes(g) == 0,
        graph_edges(g) == Seq::<(nat, nat, Condition)>::empty(),
        !graph_vacant(g),
{
    StableDiGraph::new()
}

/// Relies on `StableGraph::node_count`.
#[verifier::external_body]
fn graph_node_count(g: &StableDiGraph<(), Condition>) -> (r: usize)
    ensures
        r == graph_nodes(*g),
{
    g.node_count()
}

/// Relies on `StableGraph::add_node`: with no vacant slot the new node takes
/// the next index; it panics when that index is the index type's end marker.
#[verifier::external_body]
fn graph_add_node(g: &mut StableDiGraph<(), Condition>) -> (r: usize)
    requires
        !graph_vacant(*old(g)),
        graph_nodes(*old(g)) < 4294967295,
    ensures
        r == graph_nodes(*old(g)),
        graph_nodes(*final(g)) == graph_nodes(*old(g)) + 1,
        graph_edges(*final(g)) == graph_edges(*old(g)),
        !graph_vacant(*final(g)),
{
    g.add_node(()).index()
}

/// Relies on `StableGraph::add_edge`: with no vacant slot the edge takes the
/// next edge index; it panics on a missing endpoint or at the index type's end.
#[verifier::external_body]
fn graph_add_edge(g: &mut StableDiGraph<(), Condition>, a: usize, b: usize, w: Condition)
    requires
        !graph_vacant(*old(g)),
        a < graph_nodes(*old(g)),
        b < graph_nodes(*old(g)),
        graph_edges(*old(g)).len() < 4294967295,
    ensures
        graph_nodes(*final(g)) == graph_nodes(*old(g)),
        graph_edges(*final(g)) == graph_edges(*old(g)).push((a as nat, b as nat, w)),
        !graph_vacant(*final(g)),
{
    g.add_edge(NodeIndex::new(a), NodeIndex::new(b), w);
}

/// Relies on `StableGraph::edges_directed` with `Outgoing`: it yields the
/// edges whose source is `a`, each as its edge index and target.
#[verifier::external_body]
fn graph_out_edges(g: &StableDiGraph<(), Condition>, a: usize) -> (r: Vec<(usize, usize)>)
    requires
        !graph_vacant(*g),
        a < graph_nodes(*g),
    ensures
        forall|k: int|
            0 <= k < r@.len() ==> {
                &&& r@[k].0 < graph_edges(*g).len()
                &&& graph_edges(*g)[r@[k].0 as int].0 == a
                &&& graph_edges(*g)[r@[k].0 as int].1 == r@[k].1
            },
        forall|e: int|
            0 <= e < graph_edges(*g).len() && graph_edges(*g)[e].0 == a ==> exists|k: int|
                0 <= k < r@.len() && r@[k].0 == e,
{
    g.edges_directed(NodeIndex::new(a), Direction::Outgoing).map(
        |e| (e.id().index(), e.target().index()),
    ).collect()
}

/// Relies on indexing a `StableGraph` by an edge index: the edge's weight.
#[verifier::external_body]
fn graph_edge_weight(g: &StableDiGraph<(), Condition>, e: usize) -> (r: &Condition)
    requires
        !graph_vacant(*g),
        e < graph_edges(*g).len(),
    ensures
        *r == graph_edges(*g)[e as int].2,
{
    &g[EdgeIndex::new(e)]
}

/// Number of `false` entries of `s`.
pub open spec fn count_false(s: Seq<bool>) -> nat
    decreases s.len(),
{
    if s.len() == 0 {
        0
    } else {
        count_false(s.drop_last()) + if s.last() {
            0nat
        } else {
            1nat
        }
    }
}

proof fn lemma_count_false_set(s: Seq<bool>, i: int)
    requires
        0 <= i < s.len(),
        !s[i],
    ensures
        count_false(s.update(i, true)) + 1 == count_false(s),
    decreases s.len(),
{
    let t = s.update(i, true);
    if i < s.len() - 1 {
        assert(t.drop_last() =~= s.drop_last().update(i, true));
        lemma_count_false_set(s.drop_last(), i);
    } else {
        assert(t.drop_last() =~= s.drop_last());
    }
}

/// `n` entries, all `false`.
pub fn falses(n: usize) -> (r: Vec<bool>)
    ensures
        r@.len() == n,
        forall|b: int| 0 <= b < n ==> !r@[b],
{
    let mut r: Vec<bool> = Vec::new();
    let mut i: usize = 0;
    while i < n
        invariant
            i <= n,
            r@.len() == i,
            forall|b: int| 0 <= b < i ==> !r@[b],
        decreases n - i,
    {
        r.push(false);
        i = i + 1;
    }
    r
}

/// The union of two membership vectors of one length.
pub fn union_of(x: &Vec<bool>, y: &Vec<bool>) -> (r: Vec<bool>)
    requires
        x@.len() == y@.len(),
    ensures
        r@.len() == x@.len(),
        forall|b: int| 0 <= b < x@.len() ==> (r@[b] <==> (x@[b] || y@[b])),
{
    let mut r: Vec<bool> = Vec::new();
    let mut i: usize = 0;
    while i < x.len()
        invariant
            i <= x@.len(),
            x@.len() == y@.len(),
            r@.len() == i,
            forall|b: int| 0 <= b < i ==> (r@[b] <==> (x@[b] || y@[b])),
        decreases x.len() - i,
    {
        r.push(x[i] || y[i]);
        i = i + 1;
    }
    r
}

/// Extra nodes that compiling `a` allocates: one per concatenation, four per
/// alternation.
pub open spec fn extra_states(a: AstModel) -> nat
    decreases a,
{
    match a {
        AstModel::Leaf(_) => 0,
        AstModel::Concat(l, r) => 1 + extra_states(*l) + extra_states(*r),
        AstModel::Alternate(l, r) => 4 + extra_states(*l) + extra_states(*r),
    }
}

/// Edges that compiling `a` adds: one per leaf, four per alternation.
pub open spec fn edge_total(a: AstModel) -> nat
    decreases a,
{
    match a {
        AstModel::Leaf(_) => 1,
        AstModel::Concat(l, r) => edge_total(*l) + edge_total(*r),
        AstModel::Alternate(l, r) => 4 + edge_total(*l) + edge_total(*r),
    }
}

/// Non-epsilon edges that compiling `a` adds: one per leaf.
pub open spec fn leaf_total(a: AstModel) -> nat
    decreases a,
{
    match a {
        AstModel::Leaf(_) => 1,
        AstModel::Concat(l, r) => leaf_total(*l) + leaf_total(*r),
        AstModel::Alternate(l, r) => leaf_total(*l) + leaf_total(*r),
    }
}

pub open spec fn tree_size(a: AstModel) -> nat
    decreases a,
{
    match a {
        AstModel::Leaf(_) => 1,
        AstModel::Concat(l, r) => 1 + tree_size(*l) + tree_size(*r),
        AstModel::Alternate(l, r) => 1 + tree_size(*l) + tree_size(*r),
    }
}

/// The measure selected by `which` of a syntax tree: its extra nodes (0),
/// its edges (1), its leaves (3) or its size (otherwise).
pub open spec fn measure(a: AstModel, which: int) -> nat {
    if which == 0 {
        extra_states(a)
    } else if which == 1 {
        edge_total(a)
    } else if which == 3 {
        leaf_total(a)
    } else {
        tree_size(a)
    }
}

/// Number of edges of `s` labelled with a character condition.
pub open spec fn char_edge_count(s: Seq<(nat, nat, Condition)>) -> nat
    decreases s.len(),
{
    if s.len() == 0 {
        0
    } else {
        char_edge_count(s.drop_last()) + if s.last().2 is Char {
            1nat
        } else {
            0nat
        }
    }
}

proof fn lemma_char_edge_count_push(s: Seq<(nat, nat, Condition)>, x: (nat, nat, Condition))
    ensures
        char_edge_count(s.push(x)) == char_edge_count(s) + if x.2 is Char {
            1nat
        } else {
            0nat
        },
{
    assert(s.push(x).drop_last() =~= s);
}

/// Sum of a measure over the subtrees waiting in a construction queue.
pub open spec fn queue_sum(q: Seq<(&AstNode, usize, usize)>, which: int) -> nat
    decreases q.len(),
{
    if q.len() == 0 {
        0
    } else {
        queue_sum(q.drop_last(), which) + measure(q.last().0.model(), which)
    }
}

proof fn lemma_queue_sum_front(q: Seq<(&AstNode, usize, usize)>)
    requires
        q.len() > 0,
    ensures
        forall|which: int|
            #[trigger] queue_sum(q, which) == measure(q[0].0.model(), which) + queue_sum(
                q.drop_first(),
                which,
            ),
    decreases q.len(),
{
    assert forall|which: int|
        #[trigger] queue_sum(q, which) == measure(q[0].0.model(), which) + queue_sum(
            q.drop_first(),
            which,
        ) by {
        reveal_with_fuel(queue_sum, 2);
        if q.len() > 1 {
            lemma_queue_sum_front(q.drop_last());
            assert(q.drop_last().drop_first() =~= q.drop_first().drop_last());
            assert(q.drop_last()[0] == q[0]);
            assert(q.drop_first().last() == q.last());
            assert(queue_sum(q.drop_last(), which) == measure(q.drop_last()[0].0.model(), which)
                + queue_sum(q.drop_last().drop_first(), which));
        } else {
            assert(q.drop_first().len() == 0);
            assert(q.drop_last().len() == 0);
        }
    }
}

proof fn lemma_queue_sum_push(q: Seq<(&AstNode, usize, usize)>, x: (&AstNode, usize, usize))
    ensures
        forall|which: int|
            #[trigger] queue_sum(q.push(x), which) == queue_sum(q, which) + measure(
                x.0.model(),
                which,
            ),
{
    assert(q.push(x).drop_last() =~= q);
    assert(q.push(x).last() == x);
}

/// The conditions of the leaves of `a`, one per leaf.
pub open spec fn leaf_conditions(a: AstModel) -> Multiset<CharModel>
    decreases a,
{
    match a {
        AstModel::Leaf(c) => Multiset::singleton(c),
        AstModel::Concat(l, r) => leaf_conditions(*l).add(leaf_conditions(*r)),
        AstModel::Alternate(l, r) => leaf_conditions(*l).add(leaf_conditions(*r)),
    }
}

/// The conditions carried by the non-epsilon edges of `s`, one per edge.
pub open spec fn edge_conditions(s: Seq<(nat, nat, Condition)>) -> Multiset<CharModel>
    decreases s.len(),
{
    if s.len() == 0 {
        Multiset::empty()
    } else {
        match s.last().2 {
            Condition::Char(x) => edge_conditions(s.drop_last()).insert(x.model()),
            Condition::Epsilon => edge_conditions(s.drop_last()),
        }
    }
}

/// The leaf conditions of the subtrees waiting in a construction queue.
pub open spec fn queue_conditions(q: Seq<(&AstNode, usize, usize)>) -> Multiset<CharModel>
    decreases q.len(),
{
    if q.len() == 0 {
        Multiset::empty()
    } else {
        queue_conditions(q.drop_last()).add(leaf_conditions(q.last().0.model()))
    }
}

proof fn lemma_edge_conditions_push(s: Seq<(nat, nat, Condition)>, x: (nat, nat, Condition))
    ensures
        edge_conditions(s.push(x)) == match x.2 {
            Condition::Char(c) => edge_conditions(s).insert(c.model()),
            Condition::Epsilon => edge_conditions(s),
        },
{
    assert(s.push(x).drop_last() =~= s);
    assert(s.push(x).last() == x);
}

proof fn lemma_queue_conditions_front(q: Seq<(&AstNode, usize, usize)>)
    requires
        q.len() > 0,
    ensures
        queue_conditions(q) == leaf_conditions(q[0].0.model()).add(queue_conditions(q.drop_first())),
    decreases q.len(),
{
    reveal_with_fuel(queue_conditions, 2);
    if q.len() > 1 {
        lemma_queue_conditions_front(q.drop_last());
        assert(q.drop_last().drop_first() =~= q.drop_first().drop_last());
        assert(q.drop_last()[0] == q[0]);
        assert(q.drop_first().last() == q.last());
        assert(queue_conditions(q) =~= leaf_conditions(q[0].0.model()).add(
            queue_conditions(q.drop_first()),
        ));
    } else {
        assert(q.drop_first().len() == 0);
        assert(q.drop_last().len() == 0);
        assert(queue_conditions(q) =~= leaf_conditions(q[0].0.model()).add(
            queue_conditions(q.drop_first()),
        ));
    }
}

proof fn lemma_queue_conditions_push(q: Seq<(&AstNode, usize, usize)>, x: (&AstNode, usize, usize))
    ensures
        queue_conditions(q.push(x)) == queue_conditions(q).add(leaf_conditions(x.0.model())),
{
    assert(q.push(x).drop_last() =~= q);
    assert(q.push(x).last() == x);
}

/// Condition `cd` carries the character condition `c`.
pub open spec fn labelled(cd: Condition, c: CharModel) -> bool {
    match cd {
        Condition::Char(k) => k.model() == c,
        Condition::Epsilon => false,
    }
}

/// `edges` holds an epsilon edge from `a` to `b`.
pub open spec fn eps_in(edges: Seq<(nat, nat, Condition)>, a: int, b: int) -> bool {
    exists|e: int|
        0 <= e < edges.len() && (#[trigger] edges[e]).0 == a && edges[e].1 == b && edges[e].2 is Epsilon
}

/// The compilation of the obligation `ob` (a subtree with its entry and exit
/// nodes) has left its fragment in `edges`: a leaf its labelled edge, a
/// concatenation two obligations through a middle node, an alternation four
/// epsilon edges around two obligations. `all` lists the obligations made.
pub open spec fn frag_ok(
    edges: Seq<(nat, nat, Condition)>,
    all: Seq<(AstModel, int, int)>,
    ob: (AstModel, int, int),
) -> bool {
    let x = ob.1;
    let y = ob.2;
    match ob.0 {
        AstModel::Leaf(c) => exists|e: int|
            0 <= e < edges.len() && (#[trigger] edges[e]).0 == x && edges[e].1 == y && labelled(
                edges[e].2,
                c,
            ),
        AstModel::Concat(l, r) => exists|mid: int|
            #[trigger] all.contains((*l, x, mid)) && all.contains((*r, mid, y)),
        AstModel::Alternate(l, r) => exists|x1: int, x2: int, y1: int, y2: int|
            eps_in(edges, x, x1) && eps_in(edges, x, y1) && eps_in(edges, x2, y) && eps_in(
                edges,
                y2,
                y,
            ) && #[trigger] all.contains((*l, x1, x2)) && #[trigger] all.contains((*r, y1, y2)),
    }
}

proof fn lemma_frag_grow(
    e0: Seq<(nat, nat, Condition)>,
    e1: Seq<(nat, nat, Condition)>,
    a0: Seq<(AstModel, int, int)>,
    a1: Seq<(AstModel, int, int)>,
    ob: (AstModel, int, int),
)
    requires
        e0.len() <= e1.len(),
        forall|i: int| 0 <= i < e0.len() ==> #[trigger] e1[i] == e0[i],
        a0.len() <= a1.len(),
        forall|i: int| 0 <= i < a0.len() ==> #[trigger] a1[i] == a0[i],
        frag_ok(e0, a0, ob),
    ensures
        frag_ok(e1, a1, ob),
{
    assert forall|z: (AstModel, int, int)| a0.contains(z) implies #[trigger] a1.contains(z) by {
        let i = choose|i: int| 0 <= i < a0.len() && a0[i] == z;
        assert(a1[i] == z);
    }
    assert forall|a: int, b: int| eps_in(e0, a, b) implies #[trigger] eps_in(e1, a, b) by {
        let e = choose|e: int|
            0 <= e < e0.len() && (#[trigger] e0[e]).0 == a && e0[e].1 == b && e0[e].2 is Epsilon;
        assert(e1[e] == e0[e]);
    }
    let x = ob.1;
    let y = ob.2;
    match ob.0 {
        AstModel::Leaf(c) => {
            let e = choose|e: int|
                0 <= e < e0.len() && (#[trigger] e0[e]).0 == x && e0[e].1 == y && labelled(
                    e0[e].2,
                    c,
                );
            assert(e1[e] == e0[e]);
        },
        AstModel::Concat(l, r) => {
            let mid = choose|mid: int| #[trigger] a0.contains((*l, x, mid)) && a0.contains((*r, mid, y));
            assert(a1.contains((*l, x, mid)) && a1.contains((*r, mid, y)));
        },
        AstModel::Alternate(l, r) => {
            let (x1, x2, y1, y2) = choose|x1: int, x2: int, y1: int, y2: int|
                eps_in(e0, x, x1) && eps_in(e0, x, y1) && eps_in(e0, x2, y) && eps_in(e0, y2, y)
                    && #[trigger] a0.contains((*l, x1, x2)) && #[trigger] a0.contains((*r, y1, y2));
            assert(eps_in(e1, x, x1) && eps_in(e1, x, y1) && eps_in(e1, x2, y) && eps_in(e1, y2, y));
            assert(a1.contains((*l, x1, x2)) && a1.contains((*r, y1, y2)));
        },
    }
}

/// Edge `ed` respects the word sets `pre` (one per node): an epsilon edge
/// keeps every word of its source's set, a character edge extends each of
/// them by any character its condition accepts.
pub open spec fn edge_respects(pre: Seq<Set<Seq<char>>>, ed: (nat, nat, Condition)) -> bool {
    match ed.2 {
        Condition::Epsilon => pre[ed.0 as int].subset_of(pre[ed.1 as int]),
        Condition::Char(k) => forall|u: Seq<char>, c: char|
            pre[ed.0 as int].contains(u) && k.model().accepts(c) ==> #[trigger] pre[ed.1 as int].contains(
                u.push(c),
            ),
    }
}

proof fn lemma_concat_mono(a: Set<Seq<char>>, a2: Set<Seq<char>>, b: Set<Seq<char>>, b2: Set<Seq<char>>)
    requires
        a.subset_of(a2),
        b.subset_of(b2),
    ensures
        concat_langs(a, b).subset_of(concat_langs(a2, b2)),
{
    assert forall|w: Seq<char>| concat_langs(a, b).contains(w) implies concat_langs(a2, b2).contains(w) by {
        let k = choose|k: int| 0 <= k <= w.len() && #[trigger] a.contains(w.take(k)) && b.contains(w.skip(k));
        assert(a2.contains(w.take(k)) && b2.contains(w.skip(k)));
    }
}

pub proof fn lemma_concat_assoc(a: Set<Seq<char>>, b: Set<Seq<char>>, c: Set<Seq<char>>)
    ensures
        concat_langs(concat_langs(a, b), c).subset_of(concat_langs(a, concat_langs(b, c))),
{
    assert forall|w: Seq<char>| concat_langs(concat_langs(a, b), c).contains(w) implies concat_langs(
        a,
        concat_langs(b, c),
    ).contains(w) by {
        let k = choose|k: int|
            0 <= k <= w.len() && #[trigger] concat_langs(a, b).contains(w.take(k)) && c.contains(w.skip(k));
        let v = w.take(k);
        let j = choose|j: int| 0 <= j <= v.len() && #[trigger] a.contains(v.take(j)) && b.contains(v.skip(j));
        let z = w.skip(j);
        assert(w.take(j) =~= v.take(j));
        assert(z.take(k - j) =~= v.skip(j));
        assert(z.skip(k - j) =~= w.skip(k));
        assert(b.contains(z.take(k - j)) && c.contains(z.skip(k - j)));
        assert(concat_langs(b, c).contains(z));
        assert(a.contains(w.take(j)));
    }
}

proof fn lemma_concat_leaf(a: Set<Seq<char>>, m: CharModel, u: Seq<char>, ch: char)
    requires
        a.contains(u),
        m.accepts(ch),
    ensures
        concat_langs(a, lang(AstModel::Leaf(m))).contains(u.push(ch)),
{
    let w = u.push(ch);
    assert(w.take(u.len() as int) =~= u);
    assert(w.skip(u.len() as int) =~= seq![ch]);
    assert(lang(AstModel::Leaf(m)).contains(seq![ch]));
}

proof fn lemma_concat_empty(a: Set<Seq<char>>, x: Set<Seq<char>>)
    requires
        a.subset_of(Set::empty().insert(Seq::<char>::empty())),
    ensures
        concat_langs(a, x).subset_of(x),
{
    assert forall|w: Seq<char>| concat_langs(a, x).contains(w) implies x.contains(w) by {
        let k = choose|k: int| 0 <= k <= w.len() && #[trigger] a.contains(w.take(k)) && x.contains(w.skip(k));
        assert(w.take(k).len() == 0);
        assert(w.skip(k) =~= w);
    }
}

proof fn lemma_respects_grow(pre0: Seq<Set<Seq<char>>>, pre1: Seq<Set<Seq<char>>>, ed: (nat, nat, Condition))
    requires
        pre0.len() <= pre1.len(),
        forall|i: int| 0 <= i < pre0.len() ==> #[trigger] pre1[i] == pre0[i],
        ed.0 < pre0.len(),
        ed.1 < pre0.len(),
        edge_respects(pre0, ed),
    ensures
        edge_respects(pre1, ed),
{
    assert(pre1[ed.0 as int] == pre0[ed.0 as int]);
    assert(pre1[ed.1 as int] == pre0[ed.1 as int]);
}

pub proof fn lemma_concat_assoc_rev(a: Set<Seq<char>>, b: Set<Seq<char>>, c: Set<Seq<char>>)
    ensures
        concat_langs(a, concat_langs(b, c)).subset_of(concat_langs(concat_langs(a, b), c)),
{
    assert forall|w: Seq<char>| concat_langs(a, concat_langs(b, c)).contains(w) implies concat_langs(
        concat_langs(a, b),
        c,
    ).contains(w) by {
        let j = choose|j: int|
            0 <= j <= w.len() && #[trigger] a.contains(w.take(j)) && concat_langs(b, c).contains(w.skip(j));
        let z = w.skip(j);
        let i = choose|i: int| 0 <= i <= z.len() && #[trigger] b.contains(z.take(i)) && c.contains(z.skip(i));
        let v = w.take(j + i);
        assert(v.take(j) =~= w.take(j));
        assert(v.skip(j) =~= z.take(i));
        assert(w.skip(j + i) =~= z.skip(i));
        assert(a.contains(v.take(j)) && b.contains(v.skip(j)));
        assert(concat_langs(a, b).contains(v));
        assert(c.contains(w.skip(j + i)));
    }
}

/// An automaton with epsilon transitions: a directed graph whose edges carry
/// a character condition or epsilon, with a start node and an accept node.
#[derive(Debug)]
pub struct Nfa {
    graph: StableDiGraph<(), Condition>,
    root: usize,
    final_state: usize,
}

impl Nfa {
    /// Number of nodes.
    pub closed spec fn nodes(&self) -> nat {
        graph_nodes(self.graph)
    }

    /// The edges by index: source, target and label.
    pub closed spec fn edges(&self) -> Seq<(nat, nat, Condition)> {
        graph_edges(self.graph)
    }

    pub closed spec fn start(&self) -> nat {
        self.root as nat
    }

    pub closed spec fn accept(&self) -> nat {
        self.final_state as nat
    }

    pub closed spec fn graph_ok(&self) -> bool {
        !graph_vacant(self.graph)
    }

    /// Well-formed: start, accept and every edge endpoint are nodes, and the
    /// node count stays under the graph's index limit.
    pub open spec fn wf(&self) -> bool {
        &&& self.graph_ok()
        &&& self.start() < self.nodes()
        &&& self.accept() < self.nodes()
        &&& self.nodes() < 4294967295
        &&& self.edges().len() < 4294967295
        &&& forall|e: int|
            0 <= e < self.edges().len() ==> #[trigger] self.edges()[e].0 < self.nodes()
                && self.edges()[e].1 < self.nodes()
    }

    /// Edge `e` is an epsilon edge.
    pub open spec fn is_epsilon(&self, e: int) -> bool {
        self.edges()[e].2 is Epsilon
    }

    /// Edge `e` carries a condition that the character `c` satisfies.
    pub open spec fn fires(&self, e: int, c: char) -> bool {
        match self.edges()[e].2 {
            Condition::Char(x) => x.model().accepts(c),
            Condition::Epsilon => false,
        }
    }

    /// An epsilon edge leads from `a` to `b`.
    pub open spec fn eps_edge(&self, a: int, b: int) -> bool {
        exists|e: int|
            0 <= e < self.edges().len() && #[trigger] self.edges()[e].0 == a && self.edges()[e].1
                == b && self.is_epsilon(e)
    }

    /// `p` is a walk along epsilon edges.
    pub open spec fn eps_path(&self, p: Seq<int>) -> bool {
        &&& p.len() >= 1
        &&& forall|i: int| 0 <= i < p.len() - 1 ==> self.eps_edge(#[trigger] p[i], p[i + 1])
    }

    /// `b` is in the epsilon closure of `a`: reachable by zero or more epsilon edges.
    pub open spec fn eps_reaches(&self, a: int, b: int) -> bool {
        exists|p: Seq<int>| self.eps_path(p) && p[0] == a && p.last() == b
    }

    /// `b` is reached from `a` by one edge that `c` satisfies, then epsilon edges.
    pub open spec fn steps_to(&self, a: int, c: char, b: int) -> bool {
        exists|e: int|
            0 <= e < self.edges().len() && #[trigger] self.edges()[e].0 == a && self.fires(e, c)
                && self.eps_reaches(self.edges()[e].1 as int, b)
    }

    /// Every epsilon successor of `b` is marked in `seen`.
    pub open spec fn closed_at(&self, seen: Seq<bool>, b: int) -> bool {
        forall|e: int|
            0 <= e < self.edges().len() && #[trigger] self.edges()[e].0 == b && self.is_epsilon(
                e,
            ) ==> seen[self.edges()[e].1 as int]
    }

    /// `b` is reached by an edge among the first `k` of `out` that `c`
    /// satisfies, then epsilon edges.
    pub open spec fn via_out(&self, out: Seq<(usize, usize)>, k: int, c: char, b: int) -> bool {
        exists|j: int|
            0 <= j < k && self.fires(#[trigger] out[j].0 as int, c) && self.eps_reaches(
                out[j].1 as int,
                b,
            )
    }

    pub proof fn lemma_reaches_self(&self, a: int)
        ensures
            self.eps_reaches(a, a),
    {
        let p = seq![a];
        assert(self.eps_path(p) && p[0] == a && p.last() == a);
    }

    pub proof fn lemma_reaches_extend(&self, a: int, v: int, t: int)
        requires
            self.eps_reaches(a, v),
            self.eps_edge(v, t),
        ensures
            self.eps_reaches(a, t),
    {
        let p = choose|p: Seq<int>| self.eps_path(p) && p[0] == a && p.last() == v;
        let q = p.push(t);
        assert forall|i: int| 0 <= i < q.len() - 1 implies self.eps_edge(
            #[trigger] q[i],
            q[i + 1],
        ) by {
            if i < p.len() - 1 {
                assert(q[i] == p[i] && q[i + 1] == p[i + 1]);
            } else {
                assert(q[i] == v && q[i + 1] == t);
            }
        }
        assert(self.eps_path(q) && q[0] == a && q.last() == t);
    }

    /// A set closed under epsilon edges holds every node on an epsilon walk
    /// from one of its members.
    proof fn lemma_closed_covers(&self, seen: Seq<bool>, p: Seq<int>)
        requires
            self.wf(),
            seen.len() == self.nodes(),
            self.eps_path(p),
            0 <= p[0] < self.nodes(),
            seen[p[0]],
            forall|b: int| 0 <= b < seen.len() && seen[b] ==> self.closed_at(seen, b),
        ensures
            0 <= p.last() < self.nodes(),
            seen[p.last()],
        decreases p.len(),
    {
        if p.len() > 1 {
            let q = p.drop_last();
            assert forall|i: int| 0 <= i < q.len() - 1 implies self.eps_edge(
                #[trigger] q[i],
                q[i + 1],
            ) by {
                assert(q[i] == p[i] && q[i + 1] == p[i + 1]);
            }
            self.lemma_closed_covers(seen, q);
            let i = p.len() - 2;
            assert(self.eps_edge(p[i], p[i + 1]));
            let e = choose|e: int|
                0 <= e < self.edges().len() && #[trigger] self.edges()[e].0 == p[i]
                    && self.edges()[e].1 == p[i + 1] && self.is_epsilon(e);
            assert(q.last() == p[i]);
            assert(self.closed_at(seen, p[i]));
        }
    }

    /// The epsilon closure of `node`, as a membership vector over the nodes:
    /// every node reachable from `node` by zero or more epsilon edges.
    pub fn get_null_closure(&self, node: usize) -> (r: Vec<bool>)
        requires
            self.wf(),
            node < self.nodes(),
        ensures
            r@.len() == self.nodes(),
            forall|b: int| 0 <= b < self.nodes() ==> (r@[b] <==> self.eps_reaches(node as int, b)),
    {
        let n = self.node_count();
        let mut seen = falses(n);
        proof {
            lemma_count_false_set(seen@, node as int);
            self.lemma_reaches_self(node as int);
        }
        seen.set(node, true);
        let mut stack: Vec<usize> = Vec::new();
        stack.push(node);
        proof {
            assert(stack@[0] == node);
            assert forall|b: int|
                0 <= b < n && seen@[b] && !stack@.contains(b as usize) implies self.closed_at(
                seen@,
                b,
            ) by {
                assert(b == node as int);
            }
        }
        while stack.len() > 0
            invariant
                self.wf(),
                n == self.nodes(),
                node < n,
                seen@.len() == n,
                seen@[node as int],
                forall|k: int| 0 <= k < stack@.len() ==> #[trigger] stack@[k] < n && seen@[stack@[k] as int],
                forall|b: int| 0 <= b < n && seen@[b] ==> self.eps_reaches(node as int, b),
                forall|b: int|
                    0 <= b < n && seen@[b] && !stack@.contains(b as usize) ==> self.closed_at(
                        seen@,
                        b,
                    ),
            decreases 2 * count_false(seen@) + stack@.len(),
        {
            let ghost m0 = 2 * count_false(seen@) + stack@.len();
            let ghost s0 = stack@;
            let v = stack.pop().unwrap();
            assert(s0 == stack@.push(v));
            assert(v < n && seen@[v as int]) by {
                assert(s0[s0.len() - 1] == v);
            }
            let out = graph_out_edges(&self.graph, v);
            let mut k: usize = 0;
            while k < out.len()
                invariant
                    self.wf(),
                    n == self.nodes(),
                    node < n,
                    v < n,
                    seen@.len() == n,
                    seen@[node as int],
                    seen@[v as int],
                    forall|j: int|
                        0 <= j < out@.len() ==> {
                            &&& (#[trigger] out@[j]).0 < self.edges().len()
                            &&& self.edges()[out@[j].0 as int].0 == v
                            &&& self.edges()[out@[j].0 as int].1 == out@[j].1
                        },
                    forall|k: int| 0 <= k < stack@.len() ==> #[trigger] stack@[k] < n && seen@[stack@[k] as int],
                    forall|b: int| 0 <= b < n && seen@[b] ==> self.eps_reaches(node as int, b),
                    forall|b: int|
                        0 <= b < n && seen@[b] && !stack@.contains(b as usize) && b != v
                            ==> self.closed_at(seen@, b),
                    forall|j: int|
                        0 <= j < k && self.is_epsilon(out@[j].0 as int) ==> seen@[(#[trigger] out@[j]).1 as int],
                    2 * count_false(seen@) + stack@.len() < m0,
                decreases out.len() - k,
            {
                let (e, t) = out[k];
                assert(out@[k as int] == (e, t));
                let w = graph_edge_weight(&self.graph, e);
                match w {
                    Condition::Epsilon => {
                        if !seen[t] {
                            let ghost seen0 = seen@;
                            let ghost st0 = stack@;
                            proof {
                                assert(self.edges()[e as int].0 == v);
                                assert(self.is_epsilon(e as int));
                                assert(self.eps_edge(v as int, t as int));
                                self.lemma_reaches_extend(node as int, v as int, t as int);
                                lemma_count_false_set(seen@, t as int);
                            }
                            seen.set(t, true);
                            stack.push(t);
                            proof {
                                assert forall|b: int|
                                    0 <= b < n && seen@[b] && !stack@.contains(b as usize) && b
                                        != v implies self.closed_at(seen@, b) by {
                                    assert(b != t) by {
                                        assert(stack@[stack@.len() - 1] == t);
                                    }
                                    assert(!st0.contains(b as usize)) by {
                                        if st0.contains(b as usize) {
                                            let x = choose|x: int| 0 <= x < st0.len() && st0[x] == b as usize;
                                            assert(stack@[x] == st0[x]);
                                        }
                                    }
                                    assert(seen0[b]);
                                    assert(self.closed_at(seen0, b));
                                }
                                assert forall|j: int|
                                    0 <= j < k && self.is_epsilon(out@[j].0 as int) implies seen@[(#[trigger] out@[j]).1 as int] by {
                                    assert(seen0[out@[j].1 as int]);
                                }
                            }
                        }
                    },
                    Condition::Char(_) => {},
                }
                k = k + 1;
            }
            proof {
                assert forall|e: int|
                    0 <= e < self.edges().len() && #[trigger] self.edges()[e].0 == v as int
                        && self.is_epsilon(e) implies seen@[self.edges()[e].1 as int] by {
                    let j = choose|j: int| 0 <= j < out@.len() && out@[j].0 == e;
                    assert(out@[j].0 == e);
                }
                assert(self.closed_at(seen@, v as int));
            }
        }
        proof {
            assert forall|b: int| 0 <= b < n implies (seen@[b] <==> self.eps_reaches(node as int, b)) by {
                if self.eps_reaches(node as int, b) {
                    let p = choose|p: Seq<int>| self.eps_path(p) && p[0] == node as int && p.last() == b;
                    assert forall|x: int| 0 <= x < seen@.len() && seen@[x] implies self.closed_at(seen@, x) by {
                        assert(!stack@.contains(x as usize));
                    }
                    self.lemma_closed_covers(seen@, p);
                }
            }
        }
        seen
    }

    /// The nodes reached from `node` by one edge that `condition` satisfies,
    /// followed by the epsilon closure of its target.
    pub fn get_transition(&self, node: usize, condition: char) -> (r: Vec<bool>)
        requires
            self.wf(),
            node < self.nodes(),
        ensures
            r@.len() == self.nodes(),
            forall|b: int| 0 <= b < self.nodes() ==> (r@[b] <==> self.steps_to(node as int, condition, b)),
    {
        let n = self.node_count();
        let out = graph_out_edges(&self.graph, node);
        let mut next = falses(n);
        let mut k: usize = 0;
        while k < out.len()
            invariant
                self.wf(),
                n == self.nodes(),
                node < n,
                k <= out@.len(),
                next@.len() == n,
                forall|j: int|
                    0 <= j < out@.len() ==> {
                        &&& (#[trigger] out@[j]).0 < self.edges().len()
                        &&& self.edges()[out@[j].0 as int].0 == node
                        &&& self.edges()[out@[j].0 as int].1 == out@[j].1
                    },
                forall|b: int| 0 <= b < n ==> (next@[b] <==> self.via_out(out@, k as int, condition, b)),
                forall|e: int|
                    0 <= e < self.edges().len() && self.edges()[e].0 == node ==> exists|j: int|
                        0 <= j < out@.len() && out@[j].0 == e,
            decreases out.len() - k,
        {
            let (e, t) = out[k];
            assert(out@[k as int] == (e, t));
            let w = graph_edge_weight(&self.graph, e);
            let fired = match w {
                Condition::Char(x) => x.matches(condition),
                Condition::Epsilon => false,
            };
            assert(fired == self.fires(e as int, condition));
            let ghost next0 = next@;
            if fired {
                let cl = self.get_null_closure(t);
                next = union_of(&next, &cl);
            }
            proof {
                assert forall|b: int| 0 <= b < n implies (next@[b] <==> self.via_out(
                    out@,
                    k + 1,
                    condition,
                    b,
                )) by {
                    if self.via_out(out@, k as int, condition, b) {
                        let j = choose|j: int|
                            0 <= j < k && self.fires(#[trigger] out@[j].0 as int, condition)
                                && self.eps_reaches(out@[j].1 as int, b);
                        assert(0 <= j < k + 1);
                    }
                    if fired && self.eps_reaches(t as int, b) {
                        assert(self.fires(out@[k as int].0 as int, condition));
                    }
                    if self.via_out(out@, k + 1, condition, b) {
                        let j = choose|j: int|
                            0 <= j < k + 1 && self.fires(#[trigger] out@[j].0 as int, condition)
                                && self.eps_reaches(out@[j].1 as int, b);
                        if j < k {
                            assert(self.via_out(out@, k as int, condition, b));
                        }
                    }
                }
            }
            k = k + 1;
        }
        proof {
            assert forall|b: int| 0 <= b < n implies (next@[b] <==> self.steps_to(
                node as int,
                condition,
                b,
            )) by {
                if self.via_out(out@, out@.len() as int, condition, b) {
                    let j = choose|j: int|
                        0 <= j < out@.len() && self.fires(#[trigger] out@[j].0 as int, condition)
                            && self.eps_reaches(out@[j].1 as int, b);
                    let e = out@[j].0 as int;
                    assert(self.edges()[e].0 == node as int);
                    assert(self.edges()[e].1 == out@[j].1);
                    assert(self.fires(e, condition));
                }
                if self.steps_to(node as int, condition, b) {
                    let e = choose|e: int|
                        0 <= e < self.edges().len() && #[trigger] self.edges()[e].0 == node as int
                            && self.fires(e, condition) && self.eps_reaches(self.edges()[e].1 as int, b);
                    let j = choose|j: int| 0 <= j < out@.len() && out@[j].0 == e;
                    assert(out@[j].0 == e);
                    assert(self.fires(out@[j].0 as int, condition));
                }
            }
        }
        next
    }

    /// What compiling the tree `m` guarantees of the automaton: it is
    /// well-formed with start 0 and accept 1; it has one extra node per
    /// concatenation and four per alternation; each leaf gives one edge that
    /// carries its own condition, each alternation four epsilon edges; no edge
    /// enters the start or leaves the accept node; and the accept node is not
    /// in the start's epsilon closure, so the empty word is never accepted;
    /// and a word leads from the start to the accept node exactly when it
    /// belongs to the language of `m`.
    pub open spec fn compiled_from(&self, m: AstModel) -> bool {
        &&& self.wf()
        &&& self.start() == 0
        &&& self.accept() == 1
        &&& self.nodes() == 2 + extra_states(m)
        &&& self.edges().len() == edge_total(m)
        &&& char_edge_count(self.edges()) == leaf_total(m)
        &&& edge_conditions(self.edges()) == leaf_conditions(m)
        &&& forall|e: int|
            0 <= e < self.edges().len() ==> #[trigger] self.edges()[e].1 != self.start()
                && self.edges()[e].0 != self.accept()
        &&& !self.eps_reaches(self.start() as int, self.accept() as int)
        &&& forall|w: Seq<char>| #[trigger] reached(*self, w, self.accept() as int) <==> in_lang(m, w)
    }

    /// Every epsilon edge leaving a member of `entries` ends in a member,
    /// the start node is a member, the accept node is not, and every member is a node.
    pub open spec fn entry_closed(&self, entries: Set<int>) -> bool {
        &&& entries.contains(0)
        &&& !entries.contains(1)
        &&& forall|v: int| #[trigger] entries.contains(v) ==> 0 <= v < self.nodes()
        &&& forall|e: int|
            0 <= e < self.edges().len() && self.is_epsilon(e) && entries.contains(
                #[trigger] self.edges()[e].0 as int,
            ) ==> entries.contains(self.edges()[e].1 as int)
    }

    /// `entry_closed` survives growing the graph, given that the members added
    /// are fresh nodes and each new epsilon edge from a member ends in a member.
    proof fn lemma_entry_closed_grow(&self, e0: Seq<(nat, nat, Condition)>, n0: nat, s0: Set<int>, s1: Set<int>)
        requires
            self.wf(),
            n0 <= self.nodes(),
            e0.len() <= self.edges().len(),
            forall|e: int| 0 <= e < e0.len() ==> #[trigger] self.edges()[e] == e0[e],
            forall|e: int| 0 <= e < e0.len() ==> #[trigger] e0[e].0 < n0,
            s0.contains(0),
            !s1.contains(1),
            forall|v: int| #[trigger] s0.contains(v) ==> 0 <= v < n0,
            forall|v: int| #[trigger] s1.contains(v) ==> 0 <= v < self.nodes(),
            forall|v: int| #[trigger] s1.contains(v) && v < n0 ==> s0.contains(v),
            s0.subset_of(s1),
            forall|e: int|
                0 <= e < e0.len() && e0[e].2 is Epsilon && s0.contains(#[trigger] e0[e].0 as int)
                    ==> s0.contains(e0[e].1 as int),
            forall|e: int|
                e0.len() <= e < self.edges().len() && self.is_epsilon(e) && s1.contains(
                    #[trigger] self.edges()[e].0 as int,
                ) ==> s1.contains(self.edges()[e].1 as int),
        ensures
            self.entry_closed(s1),
    {
        assert forall|e: int|
            0 <= e < self.edges().len() && self.is_epsilon(e) && s1.contains(
                #[trigger] self.edges()[e].0 as int,
            ) implies s1.contains(self.edges()[e].1 as int) by {
            if e < e0.len() {
                assert(self.edges()[e] == e0[e]);
                assert(e0[e].0 < n0);
                assert(s0.contains(e0[e].0 as int));
                assert(s0.contains(e0[e].1 as int));
            }
        }
    }

    /// An epsilon walk that starts in an `entry_closed` set stays in it.
    proof fn lemma_entries_keep(&self, entries: Set<int>, p: Seq<int>)
        requires
            self.wf(),
            self.entry_closed(entries),
            self.eps_path(p),
            entries.contains(p[0]),
        ensures
            entries.contains(p.last()),
        decreases p.len(),
    {
        if p.len() > 1 {
            let q = p.drop_last();
            assert forall|i: int| 0 <= i < q.len() - 1 implies self.eps_edge(
                #[trigger] q[i],
                q[i + 1],
            ) by {
                assert(q[i] == p[i] && q[i + 1] == p[i + 1]);
            }
            self.lemma_entries_keep(entries, q);
            let i = p.len() - 2;
            assert(self.eps_edge(p[i], p[i + 1]));
            let e = choose|e: int|
                0 <= e < self.edges().len() && #[trigger] self.edges()[e].0 == p[i]
                    && self.edges()[e].1 == p[i + 1] && self.is_epsilon(e);
            assert(q.last() == p[i]);
        }
    }

    /// A graph with only a start node and an accept node.
    pub fn new() -> (r: Self)
        ensures
            r.wf(),
            r.nodes() == 2,
            r.edges().len() == 0,
            r.start() == 0,
            r.accept() == 1,
    {
        let mut graph = graph_new();
        let root = graph_add_node(&mut graph);
        let final_state = graph_add_node(&mut graph);
        Nfa { graph, root, final_state }
    }

    pub fn get_root(&self) -> (r: usize)
        ensures
            r == self.start(),
    {
        self.root
    }

    pub fn get_final_state(&self) -> (r: usize)
        ensures
            r == self.accept(),
    {
        self.final_state
    }

    pub fn node_count(&self) -> (r: usize)
        ensures
            r == self.nodes(),
    {
        graph_node_count(&self.graph)
    }

    /// Adds a fresh node and returns its index.
    pub fn add_node(&mut self) -> (r: usize)
        requires
            old(self).wf(),
            old(self).nodes() + 1 < 4294967295,
        ensures
            final(self).wf(),
            r == old(self).nodes(),
            final(self).nodes() == old(self).nodes() + 1,
            final(self).edges() == old(self).edges(),
            final(self).start() == old(self).start(),
            final(self).accept() == old(self).accept(),
    {
        graph_add_node(&mut self.graph)
    }

    /// Adds an edge from `a` to `b` labelled `condition`.
    pub fn add_edge(&mut self, a: usize, b: usize, condition: Condition)
        requires
            old(self).wf(),
            a < old(self).nodes(),
            b < old(self).nodes(),
            old(self).edges().len() + 1 < 4294967295,
        ensures
            final(self).wf(),
            final(self).nodes() == old(self).nodes(),
            final(self).edges() == old(self).edges().push((a as nat, b as nat, condition)),
            final(self).start() == old(self).start(),
            final(self).accept() == old(self).accept(),
    {
        graph_add_edge(&mut self.graph, a, b, condition);
        proof {
            assert forall|e: int| 0 <= e < self.edges().len() implies #[trigger] self.edges()[e].0
                < self.nodes() && self.edges()[e].1 < self.nodes() by {
                if e < old(self).edges().len() {
                    assert(self.edges()[e] == old(self).edges()[e]);
                }
            }
        }
    }

    /// Compiles a syntax tree: each leaf becomes one labelled edge, each
    /// concatenation one intermediate node, each alternation four nodes joined
    /// by epsilon edges. Subtrees are handled in breadth-first order from a queue.
    #[verifier::rlimit(100)]
    #[verifier::spinoff_prover]
    pub fn from_ast(ast: &AstNode) -> (r: Self)
        requires
            extra_states(ast.model()) + 3 < 4294967295,
            edge_total(ast.model()) + 1 < 4294967295,
        ensures
            r.compiled_from(ast.model()),
    {
        let mut nfa = Self::new();
        let root = nfa.root;
        let accept = nfa.final_state;
        let mut queue: VecDeque<(&AstNode, usize, usize)> = VecDeque::new();
        queue.push_back((ast, root, accept));
        let ghost mut entries: Set<int> = Set::empty().insert(0);
        let ghost mut all: Seq<(AstModel, int, int)> = seq![(ast.model(), 0int, 1int)];
        let ghost mut done: int = 0;
        let ghost mut pre: Seq<Set<Seq<char>>> = seq![
            Set::empty().insert(Seq::<char>::empty()),
            lang(ast.model()),
        ];
        proof {
            lemma_concat_empty(pre[0], lang(ast.model()));
        }
        proof {
            lemma_queue_sum_push(Seq::empty(), (ast, root, accept));
            lemma_queue_conditions_push(Seq::empty(), (ast, root, accept));
            assert(edge_conditions(nfa.edges()) =~= Multiset::empty());
            assert(edge_conditions(nfa.edges()).add(queue_conditions(queue@)) =~= leaf_conditions(
                ast.model(),
            ));
            assert(Seq::<(&AstNode, usize, usize)>::empty().push((ast, root, accept)) == queue@);
        }
        while queue.len() > 0
            invariant
                nfa.wf(),
                nfa.start() == 0,
                nfa.accept() == 1,
                extra_states(ast.model()) + 3 < 4294967295,
                edge_total(ast.model()) + 1 < 4294967295,
                nfa.nodes() + queue_sum(queue@, 0) == 2 + extra_states(ast.model()),
                nfa.edges().len() + queue_sum(queue@, 1) == edge_total(ast.model()),
                char_edge_count(nfa.edges()) + queue_sum(queue@, 3) == leaf_total(ast.model()),
                edge_conditions(nfa.edges()).add(queue_conditions(queue@)) == leaf_conditions(
                    ast.model(),
                ),
                forall|k: int|
                    0 <= k < queue@.len() ==> {
                        &&& (#[trigger] queue@[k]).1 < nfa.nodes()
                        &&& queue@[k].2 < nfa.nodes()
                        &&& queue@[k].1 != 1
                        &&& queue@[k].2 != 0
                        &&& entries.contains(queue@[k].1 as int)
                    },
                forall|e: int|
                    0 <= e < nfa.edges().len() ==> #[trigger] nfa.edges()[e].1 != 0
                        && nfa.edges()[e].0 != 1,
                nfa.entry_closed(entries),
                0 <= done,
                all.len() == done + queue@.len(),
                all.len() > 0,
                all[0] == (ast.model(), 0int, 1int),
                forall|k: int|
                    0 <= k < queue@.len() ==> all[done + k] == (
                        (#[trigger] queue@[k]).0.model(),
                        queue@[k].1 as int,
                        queue@[k].2 as int,
                    ),
                forall|k: int| 0 <= k < done ==> frag_ok(nfa.edges(), all, #[trigger] all[k]),
                pre.len() == nfa.nodes(),
                pre[0] == Set::empty().insert(Seq::<char>::empty()),
                pre[1] == lang(ast.model()),
                forall|k: int|
                    0 <= k < queue@.len() ==> concat_langs(
                        pre[(#[trigger] queue@[k]).1 as int],
                        lang(queue@[k].0.model()),
                    ).subset_of(pre[queue@[k].2 as int]),
                forall|e: int| 0 <= e < nfa.edges().len() ==> edge_respects(pre, #[trigger] nfa.edges()[e]),
            decreases queue_sum(queue@, 2),
        {
            let ghost q0 = queue@;
            let ghost n0 = nfa.nodes();
            let ghost e0 = nfa.edges();
            let ghost a0 = all;
            let ghost pre0 = pre;
            proof {
                assert(concat_langs(pre0[q0[0].1 as int], lang(q0[0].0.model())).subset_of(
                    pre0[q0[0].2 as int],
                ));
                assert(a0[done] == (q0[0].0.model(), q0[0].1 as int, q0[0].2 as int));
                lemma_queue_sum_front(q0);
                lemma_queue_conditions_front(q0);
            }
            let (node, a, b) = queue.pop_front().unwrap();
            assert(queue@ == q0.drop_first());
            assert(a != 1 && b != 0 && a < n0 && b < n0 && entries.contains(a as int)) by {
                assert(q0[0] == (node, a, b));
            }
            match node {
                AstNode::Character(character) => {
                    nfa.add_edge(a, b, Condition::Char(character.duplicate()));
                    proof {
                        lemma_char_edge_count_push(e0, nfa.edges().last());
                        assert(nfa.edges() == e0.push(nfa.edges().last()));
                        lemma_edge_conditions_push(e0, nfa.edges().last());
                        assert(edge_conditions(nfa.edges()).add(queue_conditions(queue@))
                            =~= edge_conditions(e0).add(queue_conditions(q0)));
                        nfa.lemma_entry_closed_grow(e0, n0, entries, entries);
                        let e = e0.len() as int;
                        assert(nfa.edges()[e].0 == a && nfa.edges()[e].1 == b);
                        assert(labelled(nfa.edges()[e].2, character.model()));
                        assert(frag_ok(nfa.edges(), all, all[done]));
                        let c = character.model();
                        assert(node.model() == AstModel::Leaf(c));
                        assert forall|u: Seq<char>, ch: char|
                            pre[a as int].contains(u) && c.accepts(ch) implies #[trigger] pre[b as int].contains(
                                u.push(ch),
                            ) by {
                            lemma_concat_leaf(pre[a as int], c, u, ch);
                        }
                        assert(edge_respects(pre, nfa.edges()[e]));
                        assert forall|f: int| 0 <= f < nfa.edges().len() implies edge_respects(
                            pre,
                            #[trigger] nfa.edges()[f],
                        ) by {
                            if f < e {
                                assert(nfa.edges()[f] == e0[f]);
                            }
                        }
                    }
                },
                AstNode::Concat(first, second) => {
                    let intermediate = nfa.add_node();
                    let ghost old_entries = entries;
                    proof {
                        pre = pre.push(concat_langs(pre0[a as int], lang(first.model())));
                        entries = entries.insert(intermediate as int);
                        nfa.lemma_entry_closed_grow(e0, n0, old_entries, entries);
                    }
                    let ghost q1 = queue@;
                    queue.push_back((first, a, intermediate));
                    let ghost q2 = queue@;
                    queue.push_back((second, intermediate, b));
                    proof {
                        lemma_queue_sum_push(q1, (first, a, intermediate));
                        lemma_queue_sum_push(q2, (second, intermediate, b));
                        lemma_queue_conditions_push(q1, (first, a, intermediate));
                        lemma_queue_conditions_push(q2, (second, intermediate, b));
                        all = all.push((first.model(), a as int, intermediate as int)).push(
                            (second.model(), intermediate as int, b as int),
                        );
                        assert(all[a0.len() as int] == (first.model(), a as int, intermediate as int));
                        assert(all[a0.len() as int + 1] == (second.model(), intermediate as int, b as int));
                        assert(all.contains((first.model(), a as int, intermediate as int)));
                        assert(all.contains((second.model(), intermediate as int, b as int)));
                        assert(node.model() == AstModel::Concat(
                            Box::new(first.model()),
                            Box::new(second.model()),
                        ));
                        assert(edge_conditions(nfa.edges()).add(queue_conditions(queue@))
                            =~= edge_conditions(e0).add(queue_conditions(q0)));
                        lemma_concat_assoc(pre0[a as int], lang(first.model()), lang(second.model()));
                        assert(pre[intermediate as int] == concat_langs(pre0[a as int], lang(first.model())));
                        assert(concat_langs(pre[intermediate as int], lang(second.model())).subset_of(
                            pre[b as int],
                        ));
                        assert forall|f: int| 0 <= f < nfa.edges().len() implies edge_respects(
                            pre,
                            #[trigger] nfa.edges()[f],
                        ) by {
                            assert(nfa.edges()[f] == e0[f]);
                            lemma_respects_grow(pre0, pre, e0[f]);
                        }
                        assert forall|k: int| 0 <= k < queue@.len() implies concat_langs(
                            pre[(#[trigger] queue@[k]).1 as int],
                            lang(queue@[k].0.model()),
                        ).subset_of(pre[queue@[k].2 as int]) by {
                            if k < q0.len() - 1 {
                                assert(queue@[k] == q0[k + 1]);
                                assert(pre[q0[k + 1].1 as int] == pre0[q0[k + 1].1 as int]);
                                assert(pre[q0[k + 1].2 as int] == pre0[q0[k + 1].2 as int]);
                            } else if k == q0.len() - 1 {
                                assert(queue@[k].1 == a && queue@[k].2 == intermediate && queue@[k].0.model() == first.model());
                                assert(pre[a as int] == pre0[a as int]);
                            } else {
                                assert(queue@[k].1 == intermediate && queue@[k].2 == b && queue@[k].0.model() == second.model());
                                assert(pre[b as int] == pre0[b as int]);
                            }
                        }
                    }
                },
                AstNode::Alternate(first, second) => {
                    let x1 = nfa.add_node();
                    let x2 = nfa.add_node();
                    let y1 = nfa.add_node();
                    let y2 = nfa.add_node();
                    let ghost old_entries = entries;
                    proof {
                        entries = entries.insert(x1 as int).insert(y1 as int);
                        pre = pre.push(pre0[a as int]).push(
                            concat_langs(pre0[a as int], lang(first.model())),
                        ).push(pre0[a as int]).push(concat_langs(pre0[a as int], lang(second.model())));
                    }
                    let ghost f0 = nfa.edges();
                    nfa.add_edge(a, x1, Condition::Epsilon);
                    let ghost f1 = nfa.edges();
                    nfa.add_edge(x2, b, Condition::Epsilon);
                    let ghost f2 = nfa.edges();
                    nfa.add_edge(a, y1, Condition::Epsilon);
                    let ghost f3 = nfa.edges();
                    nfa.add_edge(y2, b, Condition::Epsilon);
                    proof {
                        lemma_char_edge_count_push(f0, f1.last());
                        lemma_char_edge_count_push(f1, f2.last());
                        lemma_char_edge_count_push(f2, f3.last());
                        lemma_char_edge_count_push(f3, nfa.edges().last());
                        assert(f1 == f0.push(f1.last()));
                        assert(f2 == f1.push(f2.last()));
                        assert(f3 == f2.push(f3.last()));
                        assert(nfa.edges() == f3.push(nfa.edges().last()));
                        assert(f0 == e0);
                        lemma_edge_conditions_push(f0, f1.last());
                        lemma_edge_conditions_push(f1, f2.last());
                        lemma_edge_conditions_push(f2, f3.last());
                        lemma_edge_conditions_push(f3, nfa.edges().last());
                        nfa.lemma_entry_closed_grow(e0, n0, old_entries, entries);
                    }
                    let ghost q1 = queue@;
                    queue.push_back((first, x1, x2));
                    let ghost q2 = queue@;
                    queue.push_back((second, y1, y2));
                    proof {
                        lemma_queue_sum_push(q1, (first, x1, x2));
                        lemma_queue_sum_push(q2, (second, y1, y2));
                        lemma_queue_conditions_push(q1, (first, x1, x2));
                        lemma_queue_conditions_push(q2, (second, y1, y2));
                        all = all.push((first.model(), x1 as int, x2 as int)).push(
                            (second.model(), y1 as int, y2 as int),
                        );
                        assert(all[a0.len() as int] == (first.model(), x1 as int, x2 as int));
                        assert(all[a0.len() as int + 1] == (second.model(), y1 as int, y2 as int));
                        assert(all.contains((first.model(), x1 as int, x2 as int)));
                        assert(all.contains((second.model(), y1 as int, y2 as int)));
                        let el = e0.len() as int;
                        assert(nfa.edges()[el] == (a as nat, x1 as nat, Condition::Epsilon));
                        assert(nfa.edges()[el + 1] == (x2 as nat, b as nat, Condition::Epsilon));
                        assert(nfa.edges()[el + 2] == (a as nat, y1 as nat, Condition::Epsilon));
                        assert(nfa.edges()[el + 3] == (y2 as nat, b as nat, Condition::Epsilon));
                        assert(eps_in(nfa.edges(), a as int, x1 as int));
                        assert(eps_in(nfa.edges(), a as int, y1 as int));
                        assert(eps_in(nfa.edges(), x2 as int, b as int));
                        assert(eps_in(nfa.edges(), y2 as int, b as int));
                        assert(pre[x1 as int] == pre0[a as int]);
                        assert(pre[y1 as int] == pre0[a as int]);
                        assert(pre[x2 as int] == concat_langs(pre0[a as int], lang(first.model())));
                        assert(pre[y2 as int] == concat_langs(pre0[a as int], lang(second.model())));
                        assert(pre[a as int] == pre0[a as int]);
                        assert(pre[b as int] == pre0[b as int]);
                        assert(lang(node.model()) == lang(first.model()).union(lang(second.model())));
                        lemma_concat_mono(pre0[a as int], pre0[a as int], lang(first.model()), lang(node.model()));
                        lemma_concat_mono(pre0[a as int], pre0[a as int], lang(second.model()), lang(node.model()));
                        assert forall|f: int| 0 <= f < nfa.edges().len() implies edge_respects(
                            pre,
                            #[trigger] nfa.edges()[f],
                        ) by {
                            if f < el {
                                assert(nfa.edges()[f] == e0[f]);
                                lemma_respects_grow(pre0, pre, e0[f]);
                            }
                        }
                        assert forall|k: int| 0 <= k < queue@.len() implies concat_langs(
                            pre[(#[trigger] queue@[k]).1 as int],
                            lang(queue@[k].0.model()),
                        ).subset_of(pre[queue@[k].2 as int]) by {
                            if k < q0.len() - 1 {
                                assert(queue@[k] == q0[k + 1]);
                                assert(pre[q0[k + 1].1 as int] == pre0[q0[k + 1].1 as int]);
                                assert(pre[q0[k + 1].2 as int] == pre0[q0[k + 1].2 as int]);
                            } else if k == q0.len() - 1 {
                                assert(queue@[k].1 == x1 && queue@[k].2 == x2 && queue@[k].0.model() == first.model());
                            } else {
                                assert(queue@[k].1 == y1 && queue@[k].2 == y2 && queue@[k].0.model() == second.model());
                            }
                        }
                        assert(node.model() == AstModel::Alternate(
                            Box::new(first.model()),
                            Box::new(second.model()),
                        ));
                        assert(edge_conditions(nfa.edges()).add(queue_conditions(queue@))
                            =~= edge_conditions(e0).add(queue_conditions(q0)));
                    }
                },
            }
            proof {
                assert(all[done] == a0[done]);
                assert(frag_ok(nfa.edges(), all, all[done]));
                assert forall|k: int| 0 <= k < done + 1 implies frag_ok(
                    nfa.edges(),
                    all,
                    #[trigger] all[k],
                ) by {
                    if k < done {
                        assert(all[k] == a0[k]);
                        lemma_frag_grow(e0, nfa.edges(), a0, all, a0[k]);
                    }
                }
                assert forall|k: int| 0 <= k < queue@.len() implies all[done + 1 + k] == (
                    (#[trigger] queue@[k]).0.model(),
                    queue@[k].1 as int,
                    queue@[k].2 as int,
                ) by {
                    if k < q0.len() - 1 {
                        assert(queue@[k] == q0[k + 1]);
                        assert(all[done + 1 + k] == a0[done + 1 + k]);
                    }
                }
                done = done + 1;
            }
        }
        proof {
            assert(queue@.len() == 0);
            assert(edge_conditions(nfa.edges()) =~= edge_conditions(nfa.edges()).add(
                queue_conditions(queue@),
            ));
            if nfa.eps_reaches(0, 1) {
                let p = choose|p: Seq<int>| nfa.eps_path(p) && p[0] == 0 && p.last() == 1;
                nfa.lemma_entries_keep(entries, p);
            }
            assert(all.contains((ast.model(), 0int, 1int))) by {
                assert(all[0] == (ast.model(), 0int, 1int));
            }
            assert forall|w: Seq<char>| #[trigger] reached(nfa, w, 1) <==> in_lang(ast.model(), w) by {
                if in_lang(ast.model(), w) {
                    nfa.lemma_reaches_self(0);
                    assert(active(nfa, Seq::<char>::empty()).contains(0));
                    lemma_fragment_accepts(nfa, all, ast.model(), 0, 1, Seq::<char>::empty(), w);
                    assert(Seq::<char>::empty() + w =~= w);
                }
                if reached(nfa, w, 1) {
                    lemma_active_within(nfa, pre, w, 1);
                }
            }
        }
        nfa
    }
}

impl Default for Nfa {
    fn default() -> (r: Self)
        ensures
            r.wf(),
            r.nodes() == 2,
            r.edges().len() == 0,
            r.start() == 0,
            r.accept() == 1,
    {
        Self::new()
    }
}

} // verus!
