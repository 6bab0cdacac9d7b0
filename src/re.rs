use vstd::prelude::*;

use crate::ast::{
    chars_of, concat_langs, in_lang, lang, lemma_sequence_stops, lemma_unit_advances, parse, parse_alternation,
    parse_sequence, parse_unit, AstModel, AstNode,
};
use crate::enfa::{edge_respects, edge_total, eps_in, extra_states, falses, frag_ok, labelled, union_of, Nfa};
use crate::error::Error;

verus! {

/// The nodes reached from a member of `cur` by one step on `c`.
pub open spec fn step_set(nfa: Nfa, cur: Set<int>, c: char) -> Set<int> {
    Set::new(
        |b: int|
            exists|a: int| 0 <= a < nfa.nodes() && #[trigger] cur.contains(a) && nfa.steps_to(a, c, b),
    )
}

/// The active nodes after the automaton has read all of `s`, starting from
/// the epsilon closure of its start node.
pub open spec fn active(nfa: Nfa, s: Seq<char>) -> Set<int>
    decreases s.len(),
{
    if s.len() == 0 {
        Set::new(|b: int| nfa.eps_reaches(nfa.start() as int, b))
    } else {
        step_set(nfa, active(nfa, s.drop_last()), s.last())
    }
}

/// `b` is active after reading `s`.
pub open spec fn reached(nfa: Nfa, s: Seq<char>, b: int) -> bool {
    active(nfa, s).contains(b)
}

/// The automaton accepts some prefix of `s` (the empty prefix included).
pub open spec fn matches_prefix(nfa: Nfa, s: Seq<char>) -> bool {
    exists|k: int| 0 <= k <= s.len() && reached(nfa, #[trigger] s.take(k), nfa.accept() as int)
}

/// `r` is the leftmost offset of `s` from which a prefix matches, or `None`
/// when no offset (the end of `s` included) has one.
pub open spec fn leftmost_match(nfa: Nfa, s: Seq<char>, r: Option<usize>) -> bool {
    match r {
        Some(i) => i <= s.len() && matches_prefix(nfa, s.skip(i as int)) && forall|j: int|
            0 <= j < i ==> !matches_prefix(nfa, #[trigger] s.skip(j)),
        None => forall|j: int| 0 <= j <= s.len() ==> !matches_prefix(nfa, #[trigger] s.skip(j)),
    }
}

proof fn lemma_reached_step(nfa: Nfa, s: Seq<char>, b: int)
    requires
        s.len() > 0,
    ensures
        reached(nfa, s, b) <==> exists|a: int|
            0 <= a < nfa.nodes() && #[trigger] reached(nfa, s.drop_last(), a) && nfa.steps_to(
                a,
                s.last(),
                b,
            ),
{
    let cur = active(nfa, s.drop_last());
    assert(active(nfa, s) == step_set(nfa, cur, s.last()));
    if reached(nfa, s, b) {
        let a = choose|a: int|
            0 <= a < nfa.nodes() && #[trigger] cur.contains(a) && nfa.steps_to(a, s.last(), b);
        assert(reached(nfa, s.drop_last(), a));
    }
    if exists|a: int|
        0 <= a < nfa.nodes() && #[trigger] reached(nfa, s.drop_last(), a) && nfa.steps_to(
            a,
            s.last(),
            b,
        ) {
        let a = choose|a: int|
            0 <= a < nfa.nodes() && #[trigger] reached(nfa, s.drop_last(), a) && nfa.steps_to(
                a,
                s.last(),
                b,
            );
        assert(cur.contains(a));
        assert(step_set(nfa, cur, s.last()).contains(b));
    }
}

proof fn lemma_concat_split(l: AstModel, r: AstModel, w: Seq<char>) -> (k: int)
    requires
        in_lang(AstModel::Concat(Box::new(l), Box::new(r)), w),
    ensures
        0 <= k <= w.len(),
        in_lang(l, w.take(k)),
        in_lang(r, w.skip(k)),
{
    assert(lang(AstModel::Concat(Box::new(l), Box::new(r))) == concat_langs(lang(l), lang(r)));
    choose|k: int| 0 <= k <= w.len() && #[trigger] lang(l).contains(w.take(k)) && lang(r).contains(w.skip(k))
}

/// A word in the set of an epsilon walk's first node is in the set of its last.
proof fn lemma_path_within(nfa: Nfa, pre: Seq<Set<Seq<char>>>, p: Seq<int>, u: Seq<char>)
    requires
        nfa.wf(),
        pre.len() == nfa.nodes(),
        forall|e: int| 0 <= e < nfa.edges().len() ==> edge_respects(pre, #[trigger] nfa.edges()[e]),
        nfa.eps_path(p),
        pre[p[0]].contains(u),
    ensures
        pre[p.last()].contains(u),
    decreases p.len(),
{
    if p.len() > 1 {
        let q = p.drop_last();
        assert forall|i: int| 0 <= i < q.len() - 1 implies nfa.eps_edge(#[trigger] q[i], q[i + 1]) by {
            assert(q[i] == p[i] && q[i + 1] == p[i + 1]);
        }
        lemma_path_within(nfa, pre, q, u);
        let i = p.len() - 2;
        assert(nfa.eps_edge(p[i], p[i + 1]));
        let e = choose|e: int|
            0 <= e < nfa.edges().len() && #[trigger] nfa.edges()[e].0 == p[i] && nfa.edges()[e].1
                == p[i + 1] && nfa.is_epsilon(e);
        assert(q.last() == p[i]);
        assert(edge_respects(pre, nfa.edges()[e]));
    }
}

/// Given word sets that every edge respects, with the empty word in the
/// start node's set, every word that makes a node active is in its set.
pub proof fn lemma_active_within(nfa: Nfa, pre: Seq<Set<Seq<char>>>, u: Seq<char>, v: int)
    requires
        nfa.wf(),
        pre.len() == nfa.nodes(),
        pre[nfa.start() as int].contains(Seq::<char>::empty()),
        forall|e: int| 0 <= e < nfa.edges().len() ==> edge_respects(pre, #[trigger] nfa.edges()[e]),
        active(nfa, u).contains(v),
    ensures
        pre[v].contains(u),
    decreases u.len(),
{
    if u.len() == 0 {
        let p = choose|p: Seq<int>| nfa.eps_path(p) && p[0] == nfa.start() as int && p.last() == v;
        assert(u =~= Seq::<char>::empty());
        lemma_path_within(nfa, pre, p, u);
    } else {
        let prev = active(nfa, u.drop_last());
        let c = u.last();
        let a = choose|a: int| 0 <= a < nfa.nodes() && #[trigger] prev.contains(a) && nfa.steps_to(a, c, v);
        lemma_active_within(nfa, pre, u.drop_last(), a);
        let e = choose|e: int|
            0 <= e < nfa.edges().len() && #[trigger] nfa.edges()[e].0 == a && nfa.fires(e, c)
                && nfa.eps_reaches(nfa.edges()[e].1 as int, v);
        assert(edge_respects(pre, nfa.edges()[e]));
        assert(u.drop_last().push(c) =~= u);
        let t = nfa.edges()[e].1 as int;
        assert(pre[t].contains(u));
        let p = choose|p: Seq<int>| nfa.eps_path(p) && p[0] == t && p.last() == v;
        lemma_path_within(nfa, pre, p, u);
    }
}

/// The active set is closed under epsilon edges.
proof fn lemma_active_eps_closed(nfa: Nfa, u: Seq<char>, v: int, t: int)
    requires
        active(nfa, u).contains(v),
        nfa.eps_edge(v, t),
    ensures
        active(nfa, u).contains(t),
{
    if u.len() == 0 {
        nfa.lemma_reaches_extend(nfa.start() as int, v, t);
    } else {
        let prev = active(nfa, u.drop_last());
        let a = choose|a: int|
            0 <= a < nfa.nodes() && #[trigger] prev.contains(a) && nfa.steps_to(a, u.last(), v);
        let e = choose|e: int|
            0 <= e < nfa.edges().len() && #[trigger] nfa.edges()[e].0 == a && nfa.fires(e, u.last())
                && nfa.eps_reaches(nfa.edges()[e].1 as int, v);
        nfa.lemma_reaches_extend(nfa.edges()[e].1 as int, v, t);
        assert(nfa.steps_to(a, u.last(), t));
        assert(step_set(nfa, prev, u.last()).contains(t));
    }
}

/// A word of an obligation's language leads, through the fragment the
/// obligation left in the graph, from its entry node to its exit node.
#[verifier::rlimit(40)]
pub proof fn lemma_fragment_accepts(
    nfa: Nfa,
    all: Seq<(AstModel, int, int)>,
    t: AstModel,
    x: int,
    y: int,
    u: Seq<char>,
    w: Seq<char>,
)
    requires
        nfa.wf(),
        forall|k: int| 0 <= k < all.len() ==> frag_ok(nfa.edges(), all, #[trigger] all[k]),
        all.contains((t, x, y)),
        in_lang(t, w),
        active(nfa, u).contains(x),
    ensures
        active(nfa, u + w).contains(y),
    decreases t,
{
    let k0 = choose|k: int| 0 <= k < all.len() && all[k] == (t, x, y);
    assert(frag_ok(nfa.edges(), all, all[k0]));
    match t {
        AstModel::Leaf(c) => {
            let e = choose|e: int|
                0 <= e < nfa.edges().len() && (#[trigger] nfa.edges()[e]).0 == x && nfa.edges()[e].1
                    == y && labelled(nfa.edges()[e].2, c);
            let uw = u + w;
            assert(uw.drop_last() =~= u);
            assert(uw.last() == w[0]);
            assert(nfa.edges()[e].0 < nfa.nodes());
            nfa.lemma_reaches_self(y);
            assert(nfa.fires(e, w[0]));
            assert(nfa.steps_to(x, w[0], y));
            assert(step_set(nfa, active(nfa, u), w[0]).contains(y));
        },
        AstModel::Concat(l, r) => {
            let k = lemma_concat_split(*l, *r, w);
            let mid = choose|mid: int| #[trigger] all.contains((*l, x, mid)) && all.contains((*r, mid, y));
            lemma_fragment_accepts(nfa, all, *l, x, mid, u, w.take(k));
            lemma_fragment_accepts(nfa, all, *r, mid, y, u + w.take(k), w.skip(k));
            assert((u + w.take(k)) + w.skip(k) =~= u + w);
        },
        AstModel::Alternate(l, r) => {
            let (x1, x2, y1, y2) = choose|x1: int, x2: int, y1: int, y2: int|
                eps_in(nfa.edges(), x, x1) && eps_in(nfa.edges(), x, y1) && eps_in(nfa.edges(), x2, y)
                    && eps_in(nfa.edges(), y2, y) && #[trigger] all.contains((*l, x1, x2))
                    && #[trigger] all.contains((*r, y1, y2));
            assert forall|a: int, b: int| eps_in(nfa.edges(), a, b) implies #[trigger] nfa.eps_edge(a, b) by {
                let e = choose|e: int|
                    0 <= e < nfa.edges().len() && (#[trigger] nfa.edges()[e]).0 == a
                        && nfa.edges()[e].1 == b && nfa.edges()[e].2 is Epsilon;
                assert(nfa.edges()[e].0 == a);
            }
            assert(lang(t) == lang(*l).union(lang(*r)));
            if in_lang(*l, w) {
                lemma_active_eps_closed(nfa, u, x, x1);
                lemma_fragment_accepts(nfa, all, *l, x1, x2, u, w);
                lemma_active_eps_closed(nfa, u + w, x2, y);
            } else {
                lemma_active_eps_closed(nfa, u, x, y1);
                lemma_fragment_accepts(nfa, all, *r, y1, y2, u, w);
                lemma_active_eps_closed(nfa, u + w, y2, y);
            }
        },
    }
}

proof fn lemma_sequence_counts(p: Seq<char>, i: int)
    requires
        0 <= i < p.len(),
    ensures
        parse_sequence(p, i) matches Ok((m, j)) ==> extra_states(m) + 1 <= 4 * (j - i)
            && edge_total(m) + 1 <= 5 * (j - i),
    decreases p.len() - i,
{
    lemma_unit_advances(p, i);
    lemma_sequence_stops(p, i);
    if let Ok((u, j)) = parse_unit(p, i) {
        assert(u is Leaf);
        assert(extra_states(u) == 0 && edge_total(u) == 1);
        if j < p.len() && p[j] != '|' {
            lemma_sequence_counts(p, j);
            lemma_sequence_stops(p, j);
            if let Ok((r, k)) = parse_sequence(p, j) {
                let m = AstModel::Concat(Box::new(u), Box::new(r));
                assert(parse_sequence(p, i) == Ok::<(AstModel, int), Error>((m, k)));
                assert(extra_states(m) == 1 + extra_states(r));
                assert(edge_total(m) == 1 + edge_total(r));
            }
        }
    }
}

proof fn lemma_alternation_counts(p: Seq<char>, i: int)
    requires
        0 <= i <= p.len(),
    ensures
        parse_alternation(p, i) matches Ok(m) ==> extra_states(m) + 1 <= 4 * (p.len() - i)
            && edge_total(m) + 1 <= 5 * (p.len() - i),
    decreases p.len() - i,
{
    if i < p.len() && p[i] != '|' {
        lemma_sequence_counts(p, i);
        lemma_sequence_stops(p, i);
        if let Ok((l, j)) = parse_sequence(p, i) {
            if j < p.len() {
                lemma_alternation_counts(p, j + 1);
            }
        }
    }
}

/// A compiled pattern, ready to search haystacks.
#[derive(Debug)]
pub struct RegEx {
    nfa: Nfa,
}

impl RegEx {
    /// The automaton that the matcher simulates.
    pub closed spec fn automaton(&self) -> Nfa {
        self.nfa
    }

    pub closed spec fn wf(&self) -> bool {
        self.nfa.wf()
    }

    /// A matcher around an automaton.
    pub fn from_nfa(nfa: Nfa) -> (r: Self)
        requires
            nfa.wf(),
        ensures
            r.wf(),
            r.automaton() == nfa,
    {
        RegEx { nfa }
    }

    /// Parses `regex` and compiles it. The length bound keeps the automaton
    /// within the graph's index range.
    pub fn from_pattern(regex: &str) -> (r: Result<Self, Error>)
        requires
            regex@.len() < 800000000,
        ensures
            match (r, parse(regex@)) {
                (Ok(re), Ok(m)) => re.wf() && re.automaton().compiled_from(m),
                (Err(e), Err(f)) => e == f,
                _ => false,
            },
    {
        let ast = match AstNode::from_regex(regex) {
            Ok(a) => a,
            Err(e) => return Err(e),
        };
        proof {
            lemma_alternation_counts(regex@, 0);
        }
        let nfa = Nfa::from_ast(&ast);
        Ok(Self::from_nfa(nfa))
    }

    /// Whether the automaton accepts a prefix of `s` read from offset `from`.
    fn recognise_from(&self, s: &Vec<char>, from: usize) -> (r: bool)
        requires
            self.wf(),
            from <= s@.len(),
        ensures
            r == matches_prefix(self.automaton(), s@.skip(from as int)),
    {
        let ghost t = s@.skip(from as int);
        let ghost nfa = self.nfa;
        let n = self.nfa.node_count();
        let accept = self.nfa.get_final_state();
        let mut current = self.nfa.get_null_closure(self.nfa.get_root());
        proof {
            assert(t.take(0) =~= Seq::<char>::empty());
        }
        if current[accept] {
            assert(reached(nfa, t.take(0), accept as int));
            return true;
        }
        let mut i: usize = from;
        while i < s.len()
            invariant
                nfa == self.nfa,
                nfa.wf(),
                t == s@.skip(from as int),
                n == nfa.nodes(),
                accept == nfa.accept(),
                from <= i <= s@.len(),
                current@.len() == n,
                forall|b: int| 0 <= b < n ==> (current@[b] <==> reached(nfa, t.take(i - from), b)),
                forall|k: int| 0 <= k <= i - from ==> !reached(nfa, #[trigger] t.take(k), accept as int),
            decreases s@.len() - i,
        {
            let c = s[i];
            let ghost u = t.take(i - from + 1);
            proof {
                assert(u.len() == i - from + 1);
                assert(u.drop_last() =~= t.take(i - from));
                assert(u.last() == c);
            }
            let mut next = falses(n);
            let mut a: usize = 0;
            while a < n
                invariant
                    nfa == self.nfa,
                    nfa.wf(),
                    n == nfa.nodes(),
                    a <= n,
                    t == s@.skip(from as int),
                    from <= i < s@.len(),
                    c == s@[i as int],
                    u == t.take(i - from + 1),
                    accept == nfa.accept(),
                    current@.len() == n,
                    forall|b: int| 0 <= b < n ==> (current@[b] <==> reached(nfa, t.take(i - from), b)),
                    forall|k: int| 0 <= k <= i - from ==> !reached(nfa, #[trigger] t.take(k), accept as int),
                    next@.len() == n,
                    forall|b: int|
                        0 <= b < n ==> (next@[b] <==> exists|x: int|
                            0 <= x < a && #[trigger] current@[x] && nfa.steps_to(x, c, b)),
                decreases n - a,
            {
                let ghost next0 = next@;
                if current[a] {
                    let step = self.nfa.get_transition(a, c);
                    next = union_of(&next, &step);
                }
                proof {
                    assert forall|b: int| 0 <= b < n implies (next@[b] <==> exists|x: int|
                        0 <= x < a + 1 && #[trigger] current@[x] && nfa.steps_to(x, c, b)) by {
                        if exists|x: int| 0 <= x < a && #[trigger] current@[x] && nfa.steps_to(x, c, b) {
                            let x = choose|x: int|
                                0 <= x < a && #[trigger] current@[x] && nfa.steps_to(x, c, b);
                            assert(0 <= x < a + 1);
                        }
                        if exists|x: int| 0 <= x < a + 1 && #[trigger] current@[x] && nfa.steps_to(x, c, b) {
                            let x = choose|x: int|
                                0 <= x < a + 1 && #[trigger] current@[x] && nfa.steps_to(x, c, b);
                            if x < a {
                                assert(next0[b]);
                            }
                        }
                    }
                }
                a = a + 1;
            }
            proof {
                assert(u.len() == i - from + 1);
                assert(u.drop_last() =~= t.take(i - from));
                assert(u.last() == c);
                assert forall|b: int| 0 <= b < n implies (next@[b] <==> reached(nfa, u, b)) by {
                    lemma_reached_step(nfa, u, b);
                    if next@[b] {
                        let x = choose|x: int| 0 <= x < n && #[trigger] current@[x] && nfa.steps_to(x, c, b);
                        assert(reached(nfa, u.drop_last(), x));
                    }
                    if reached(nfa, u, b) {
                        let x = choose|x: int|
                            0 <= x < nfa.nodes() && #[trigger] reached(nfa, u.drop_last(), x) && nfa.steps_to(
                                x,
                                u.last(),
                                b,
                            );
                        assert(current@[x]);
                    }
                }
            }
            if next[accept] {
                return true;
            }
            current = next;
            i = i + 1;
            proof {
                assert forall|k: int| 0 <= k <= i - from implies !reached(
                    nfa,
                    #[trigger] t.take(k),
                    accept as int,
                ) by {
                    if k == i - from {
                        assert(t.take(k) == u);
                    }
                }
            }
        }
        proof {
            assert forall|k: int| 0 <= k <= t.len() implies !reached(
                nfa,
                #[trigger] t.take(k),
                accept as int,
            ) by {}
        }
        false
    }

    /// Whether the automaton accepts a prefix of `string`.
    pub fn recognise(&self, string: &str) -> (r: bool)
        requires
            self.wf(),
        ensures
            r == matches_prefix(self.automaton(), string@),
    {
        let s = chars_of(string);
        proof {
            assert(s@.skip(0) =~= s@);
        }
        self.recognise_from(&s, 0)
    }

    /// The leftmost character offset of `haystack` from which a prefix
    /// matches, trying the offsets left to right up to the end.
    pub fn search(&self, haystack: &str) -> (r: Option<usize>)
        requires
            self.wf(),
        ensures
            leftmost_match(self.automaton(), haystack@, r),
    {
        let s = chars_of(haystack);
        let mut i: usize = 0;
        loop
            invariant
                self.wf(),
                s@ == haystack@,
                i <= s@.len(),
                forall|j: int| 0 <= j < i ==> !matches_prefix(self.automaton(), #[trigger] s@.skip(j)),
            decreases s@.len() - i,
        {
            if self.recognise_from(&s, i) {
                return Some(i);
            }
            if i == s.len() {
                return None;
            }
            i = i + 1;
        }
    }
}

} // verus!
