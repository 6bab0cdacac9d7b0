use vstd::prelude::*;

use crate::ast::{parse, result_model, AstModel, AstNode};
use crate::ast::{concat_langs, in_lang, lang};
use crate::enfa::{lemma_concat_assoc, lemma_concat_assoc_rev, Nfa};
use crate::error::Error;
use crate::re::{leftmost_match, matches_prefix, reached};

verus! {

/// Parsing is deterministic: two successful or failed parses of one pattern
/// yield structurally equal trees, or equal errors.
pub proof fn parse_deterministic(p: Seq<char>, r1: Result<AstNode, Error>, r2: Result<AstNode, Error>)
    requires
        result_model(r1) == parse(p),
        result_model(r2) == parse(p),
    ensures
        result_model(r1) == result_model(r2),
{
}

/// Epsilon closure is transitive: a node two or more epsilon edges away is in
/// the closure, so `get_null_closure` marks it.
pub proof fn eps_chain_reaches(nfa: Nfa, a: int, b: int, c: int, d: int)
    requires
        nfa.eps_edge(a, b),
        nfa.eps_edge(b, c),
        nfa.eps_edge(c, d),
    ensures
        nfa.eps_reaches(a, c),
        nfa.eps_reaches(a, d),
{
    let p = seq![a, b, c, d];
    assert forall|i: int| 0 <= i < p.len() - 1 implies nfa.eps_edge(#[trigger] p[i], p[i + 1]) by {
        if i == 0 {
            assert(p[0] == a && p[1] == b);
        } else if i == 1 {
            assert(p[1] == b && p[2] == c);
        } else {
            assert(p[2] == c && p[3] == d);
        }
    }
    assert(nfa.eps_path(p) && p[0] == a && p.last() == d);
    let q = seq![a, b, c];
    assert forall|i: int| 0 <= i < q.len() - 1 implies nfa.eps_edge(#[trigger] q[i], q[i + 1]) by {
        if i == 0 {
            assert(q[0] == a && q[1] == b);
        } else {
            assert(q[1] == b && q[2] == c);
        }
    }
    assert(nfa.eps_path(q) && q[0] == a && q.last() == c);
}

/// On an empty haystack, a search finds nothing unless the automaton accepts
/// the empty input (its accept node lies in the start node's closure).
pub proof fn empty_haystack_finds_nothing(nfa: Nfa, r: Option<usize>)
    requires
        leftmost_match(nfa, Seq::<char>::empty(), r),
        !nfa.eps_reaches(nfa.start() as int, nfa.accept() as int),
    ensures
        r is None,
{
    let s = Seq::<char>::empty();
    if let Some(i) = r {
        assert(i == 0);
        assert(s.skip(0) =~= s);
        let k = choose|k: int| 0 <= k <= s.len() && reached(nfa, #[trigger] s.take(k), nfa.accept() as int);
        assert(s.take(k) =~= s);
    }
}

/// A compiled pattern never accepts the empty word, so `recognise("")` is
/// false for every matcher that `from_pattern` builds.
pub proof fn compiled_rejects_empty_word(nfa: Nfa, m: AstModel)
    requires
        nfa.compiled_from(m),
    ensures
        !matches_prefix(nfa, Seq::<char>::empty()),
{
    let s = Seq::<char>::empty();
    if matches_prefix(nfa, s) {
        let k = choose|k: int| 0 <= k <= s.len() && reached(nfa, #[trigger] s.take(k), nfa.accept() as int);
        assert(s.take(k) =~= s);
    }
}

/// Searching an empty haystack with a compiled pattern finds nothing.
pub proof fn compiled_empty_haystack(nfa: Nfa, m: AstModel, r: Option<usize>)
    requires
        nfa.compiled_from(m),
        leftmost_match(nfa, Seq::<char>::empty(), r),
    ensures
        r is None,
{
    empty_haystack_finds_nothing(nfa, r);
}

/// A compiled pattern matches a prefix of `s` exactly when some prefix of
/// `s` (the whole of it included) belongs to the pattern's language.
pub proof fn compiled_prefix_match(nfa: Nfa, m: AstModel, s: Seq<char>)
    requires
        nfa.compiled_from(m),
    ensures
        matches_prefix(nfa, s) <==> exists|k: int| 0 <= k <= s.len() && #[trigger] in_lang(m, s.take(k)),
{
    if matches_prefix(nfa, s) {
        let k = choose|k: int| 0 <= k <= s.len() && reached(nfa, #[trigger] s.take(k), nfa.accept() as int);
        assert(in_lang(m, s.take(k)));
    }
    if exists|k: int| 0 <= k <= s.len() && #[trigger] in_lang(m, s.take(k)) {
        let k = choose|k: int| 0 <= k <= s.len() && #[trigger] in_lang(m, s.take(k));
        assert(reached(nfa, s.take(k), nfa.accept() as int));
    }
}

/// Concatenation is sequencing: the automata compiled from `x (y z)` and
/// `(x y) z` give the same search result on every haystack.
pub proof fn concat_shape_irrelevant(
    n1: Nfa,
    n2: Nfa,
    x: AstModel,
    y: AstModel,
    z: AstModel,
    s: Seq<char>,
    r: Option<usize>,
)
    requires
        n1.compiled_from(AstModel::Concat(Box::new(x), Box::new(AstModel::Concat(Box::new(y), Box::new(z))))),
        n2.compiled_from(AstModel::Concat(Box::new(AstModel::Concat(Box::new(x), Box::new(y))), Box::new(z))),
        leftmost_match(n1, s, r),
    ensures
        leftmost_match(n2, s, r),
{
    let m1 = AstModel::Concat(Box::new(x), Box::new(AstModel::Concat(Box::new(y), Box::new(z))));
    let m2 = AstModel::Concat(Box::new(AstModel::Concat(Box::new(x), Box::new(y))), Box::new(z));
    lemma_concat_assoc(lang(x), lang(y), lang(z));
    lemma_concat_assoc_rev(lang(x), lang(y), lang(z));
    let yz = AstModel::Concat(Box::new(y), Box::new(z));
    let xy = AstModel::Concat(Box::new(x), Box::new(y));
    assert(lang(yz) == concat_langs(lang(y), lang(z)));
    assert(lang(xy) == concat_langs(lang(x), lang(y)));
    assert(lang(m1) == concat_langs(lang(x), lang(yz)));
    assert(lang(m2) == concat_langs(lang(xy), lang(z)));
    assert(lang(m1) =~= lang(m2));
    assert forall|t: Seq<char>| #[trigger] matches_prefix(n1, t) <==> matches_prefix(n2, t) by {
        compiled_prefix_match(n1, m1, t);
        compiled_prefix_match(n2, m2, t);
        assert forall|k: int| #[trigger] in_lang(m1, t.take(k)) <==> in_lang(m2, t.take(k)) by {}
    }
}

} // verus!
