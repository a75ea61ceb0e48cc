//! Properties of the library that span its functions.
use vstd::prelude::*;

use crate::creole::{creole_of, disagreeing_of, shared_of, ternary_average};
use crate::drift::{drift_of, is_first_at, value_at_distance};
use crate::grammar::{
    apply_rules, is_first_match, is_stable_ranking, lemma_first_match_unique, ranked_by_fitness,
    top, Grammar, GrammarRule,
};
use crate::negotiation::{agents_meaning, agree_on, is_consensus, with_proposal};
use crate::proto::{carries, clamped_sum, ProtoLanguage};
use crate::ternary::{ternary_of, ternary_value, Ternary};

verus! {

/// Converting a ternary value to its integer and back gives the same value.
pub proof fn law_ternary_round_trip(t: Ternary)
    ensures
        ternary_of(ternary_value(t)) == Some(t),
        -1 <= ternary_value(t) <= 1,
{
}

/// Merging does not depend on which dialect is A and which is B.
pub proof fn law_merge_symmetric(a: Map<Seq<char>, Ternary>, b: Map<Seq<char>, Ternary>)
    ensures
        creole_of(a, b) == creole_of(b, a),
{
    assert(creole_of(a, b) =~= creole_of(b, a));
}

/// The creole holds exactly the signals of either dialect; a signal on whose
/// value both dialects agree keeps that value, and a signal of one dialect only is
/// adopted as it is.
pub proof fn law_merge_keeps_agreement(a: Map<Seq<char>, Ternary>, b: Map<Seq<char>, Ternary>)
    ensures
        creole_of(a, b).dom() == a.dom().union(b.dom()),
        forall|k: Seq<char>|
            a.contains_key(k) && b.contains_key(k) && a[k] == b[k] ==> #[trigger] creole_of(a, b)[k]
                == a[k],
        forall|k: Seq<char>|
            a.contains_key(k) && !b.contains_key(k) ==> #[trigger] creole_of(a, b)[k] == a[k],
        forall|k: Seq<char>|
            !a.contains_key(k) && b.contains_key(k) ==> #[trigger] creole_of(a, b)[k] == b[k],
{
    assert(creole_of(a, b).dom() =~= a.dom().union(b.dom()));
}

/// Merging a dialect with itself gives that dialect back.
pub proof fn law_merge_with_itself(a: Map<Seq<char>, Ternary>)
    ensures
        creole_of(a, a) == a,
{
    assert(creole_of(a, a) =~= a);
}

/// The average of two opposite values is zero, and the average never leaves the
/// range spanned by its two values.
pub proof fn law_average_between(x: Ternary, y: Ternary)
    ensures
        ternary_value(x) == -ternary_value(y) ==> ternary_average(x, y) == Ternary::Zero,
        ternary_average(x, y) == ternary_average(y, x),
        ternary_value(x) <= ternary_value(y) ==> ternary_value(x) <= ternary_value(
            ternary_average(x, y),
        ) <= ternary_value(y),
{
}

/// Signals on which the dialects disagree are among the shared ones.
pub proof fn law_disagreement_within_shared(
    a: Map<Seq<char>, Ternary>,
    b: Map<Seq<char>, Ternary>,
)
    requires
        a.dom().finite(),
    ensures
        disagreeing_of(a, b).subset_of(shared_of(a, b)),
        disagreeing_of(a, b).len() <= shared_of(a, b).len(),
{
    a.dom().lemma_len_filter(|k: Seq<char>| b.contains_key(k));
    vstd::set_lib::lemma_len_subset(disagreeing_of(a, b), shared_of(a, b));
}

/// A valid proto-language has at least three signals, as many as the minimal one.
pub proof fn law_valid_language_size(p: &ProtoLanguage)
    requires
        p.wf(),
        carries(p@, Ternary::Neg),
        carries(p@, Ternary::Zero),
        carries(p@, Ternary::Pos),
    ensures
        p@.len() >= 3,
{
    let m = p@;
    let kn = choose|k: Seq<char>| #[trigger] m.contains_key(k) && m[k] == Ternary::Neg;
    let kz = choose|k: Seq<char>| #[trigger] m.contains_key(k) && m[k] == Ternary::Zero;
    let kp = choose|k: Seq<char>| #[trigger] m.contains_key(k) && m[k] == Ternary::Pos;
    let three = Set::<Seq<char>>::empty().insert(kn).insert(kz).insert(kp);
    assert(three.subset_of(m.dom()));
    assert(three.len() == 3);
    vstd::set_lib::lemma_len_subset(three, m.dom());
}

/// Composing signals does not depend on their order, and composing with a zero
/// signal gives the other signal's value.
pub proof fn law_compose_symmetric(x: Ternary, y: Ternary)
    ensures
        clamped_sum(x, y) == clamped_sum(y, x),
        clamped_sum(x, Ternary::Zero) == x,
{
}

/// Two agents that propose the same meaning for a signal agree on it, whatever
/// they proposed before; agreement does not depend on the order of the agents.
pub proof fn law_same_proposal_agrees(
    v: Map<Seq<char>, Map<Seq<char>, Seq<char>>>,
    a: Seq<char>,
    b: Seq<char>,
    signal: Seq<char>,
    meaning: Seq<char>,
)
    ensures
        agree_on(with_proposal(with_proposal(v, a, signal, meaning), b, signal, meaning), a, b, signal),
        agree_on(v, a, b, signal) == agree_on(v, b, a, signal),
{
}

/// The consensus on a signal is one number: two values that both meet its
/// definition are equal.
pub proof fn law_consensus_unique(
    v: Map<Seq<char>, Map<Seq<char>, Seq<char>>>,
    signal: Seq<char>,
    r1: int,
    r2: int,
)
    requires
        is_consensus(v, signal, r1),
        is_consensus(v, signal, r2),
    ensures
        r1 == r2,
{
    if r1 != 0 {
        let m = choose|m: Seq<char>| #[trigger] agents_meaning(v, signal, m).len() == r1;
        assert(agents_meaning(v, signal, m).len() <= r2);
    }
    if r2 != 0 {
        let m = choose|m: Seq<char>| #[trigger] agents_meaning(v, signal, m).len() == r2;
        assert(agents_meaning(v, signal, m).len() <= r1);
    }
}

/// The consensus on a signal is at most the number of agents, and at least one
/// when some agent gives the signal a meaning.
pub proof fn law_consensus_bounds(
    v: Map<Seq<char>, Map<Seq<char>, Seq<char>>>,
    signal: Seq<char>,
    r: int,
)
    requires
        v.dom().finite(),
        is_consensus(v, signal, r),
    ensures
        0 <= r <= v.len(),
        (exists|a: Seq<char>| v.contains_key(a) && #[trigger] v[a].contains_key(signal)) ==> r >= 1,
{
    if r != 0 {
        let m = choose|m: Seq<char>| #[trigger] agents_meaning(v, signal, m).len() == r;
        assert(agents_meaning(v, signal, m).subset_of(v.dom()));
        vstd::set_lib::lemma_len_subset(agents_meaning(v, signal, m), v.dom());
    }
    if exists|a: Seq<char>| v.contains_key(a) && #[trigger] v[a].contains_key(signal) {
        let a = choose|a: Seq<char>| v.contains_key(a) && #[trigger] v[a].contains_key(signal);
        let m = v[a][signal];
        let s = agents_meaning(v, signal, m);
        v.dom().lemma_len_filter(|x: Seq<char>| v[x].contains_key(signal) && v[x][signal] == m);
        assert(s.contains(a));
        assert(s.len() <= r);
        if s.len() == 0 {
            assert(s =~= Set::<Seq<char>>::empty());
        }
    }
}

/// Recording a value at a distance where none was recorded makes it the value
/// at that distance; where one was, the first one recorded stays.
pub proof fn law_record_then_value_at(h: Seq<(u32, Ternary)>, d: u32, v: Ternary)
    ensures
        value_at_distance(h, d) is None ==> value_at_distance(h.push((d, v)), d) == Some(v),
        value_at_distance(h, d) is Some ==> value_at_distance(h.push((d, v)), d)
            == value_at_distance(h, d),
{
    let h2 = h.push((d, v));
    if exists|i: int| 0 <= i < h.len() && #[trigger] h[i].0 == d {
        let i0 = choose|i: int| 0 <= i < h.len() && #[trigger] h[i].0 == d;
        let f = first_at_exists(h, d, i0);
        assert(is_first_at(h2, d, f)) by {
            assert(h2[f] == h[f]);
            assert forall|j: int| 0 <= j < f implies #[trigger] h2[j].0 != d by {
                assert(h2[j] == h[j]);
            }
        }
        assert(h2[i0].0 == d);
        let c1 = choose|c: int| is_first_at(h, d, c);
        let c2 = choose|c: int| is_first_at(h2, d, c);
        crate::drift::lemma_first_at_unique(h, d, f, c1);
        crate::drift::lemma_first_at_unique(h2, d, f, c2);
    } else {
        let n = h.len() as int;
        assert(is_first_at(h2, d, n)) by {
            assert forall|j: int| 0 <= j < n implies #[trigger] h2[j].0 != d by {
                assert(h2[j] == h[j]);
            }
        }
        assert(h2[n].0 == d);
        let c2 = choose|c: int| is_first_at(h2, d, c);
        crate::drift::lemma_first_at_unique(h2, d, n, c2);
    }
}

/// Where some value was recorded at distance `d`, there is a first one.
proof fn first_at_exists(h: Seq<(u32, Ternary)>, d: u32, i: int) -> (f: int)
    requires
        0 <= i < h.len(),
        h[i].0 == d,
    ensures
        is_first_at(h, d, f),
    decreases i,
{
    if exists|j: int| 0 <= j < i && #[trigger] h[j].0 == d {
        let j = choose|j: int| 0 <= j < i && #[trigger] h[j].0 == d;
        first_at_exists(h, d, j)
    } else {
        i
    }
}

/// A drift lies between -2 and 2, and a history recorded at one distance only
/// has not drifted from its first value when that distance is 0.
pub proof fn law_drift_bounds(h: Seq<(u32, Ternary)>)
    ensures
        -2 <= drift_of(h) <= 2,
        h.len() == 1 && h[0].0 == 0 ==> drift_of(h) == 0,
{
    if h.len() == 1 && h[0].0 == 0 {
        assert(crate::drift::is_last_farthest(h, 0));
        let c = choose|c: int| crate::drift::is_last_farthest(h, c);
        crate::drift::lemma_last_farthest_unique(h, 0, c);
        assert(is_first_at(h, 0, 0));
        let f = choose|c: int| is_first_at(h, 0, c);
        crate::drift::lemma_first_at_unique(h, 0, 0, f);
    }
}

/// A rule added after the others only decides inputs that no earlier rule matches.
pub proof fn law_earlier_rules_win(rules: Seq<GrammarRule>, rule: GrammarRule, x: Seq<Ternary>)
    ensures
        apply_rules(rules, x) is Some ==> apply_rules(rules.push(rule), x) == apply_rules(rules, x),
        apply_rules(rules, x) is None && rule.inputs@ == x ==> apply_rules(rules.push(rule), x)
            == Some(rule.output),
        apply_rules(rules, x) is None && rule.inputs@ != x ==> apply_rules(rules.push(rule), x)
            is None,
{
    let r2 = rules.push(rule);
    if exists|i: int| 0 <= i < rules.len() && #[trigger] rules[i].inputs@ == x {
        let i0 = choose|i: int| 0 <= i < rules.len() && #[trigger] rules[i].inputs@ == x;
        let f = first_match_exists(rules, x, i0);
        assert(is_first_match(r2, x, f)) by {
            assert(r2[f] == rules[f]);
            assert forall|j: int| 0 <= j < f implies #[trigger] r2[j].inputs@ != x by {
                assert(r2[j] == rules[j]);
            }
        }
        assert(r2[i0].inputs@ == x);
        let c1 = choose|c: int| is_first_match(rules, x, c);
        let c2 = choose|c: int| is_first_match(r2, x, c);
        lemma_first_match_unique(rules, x, f, c1);
        lemma_first_match_unique(r2, x, f, c2);
    } else {
        let n = rules.len() as int;
        if rule.inputs@ == x {
            assert(is_first_match(r2, x, n)) by {
                assert forall|j: int| 0 <= j < n implies #[trigger] r2[j].inputs@ != x by {
                    assert(r2[j] == rules[j]);
                }
            }
            assert(r2[n].inputs@ == x);
            let c2 = choose|c: int| is_first_match(r2, x, c);
            lemma_first_match_unique(r2, x, n, c2);
        } else {
            assert forall|j: int| 0 <= j < r2.len() implies #[trigger] r2[j].inputs@ != x by {
                if j < n {
                    assert(r2[j] == rules[j]);
                }
            }
        }
    }
}

/// Where some rule matches, there is a first one.
proof fn first_match_exists(rules: Seq<GrammarRule>, x: Seq<Ternary>, i: int) -> (f: int)
    requires
        0 <= i < rules.len(),
        rules[i].inputs@ == x,
    ensures
        is_first_match(rules, x, f),
    decreases i,
{
    if exists|j: int| 0 <= j < i && #[trigger] rules[j].inputs@ == x {
        let j = choose|j: int| 0 <= j < i && #[trigger] rules[j].inputs@ == x;
        first_match_exists(rules, x, j)
    } else {
        i
    }
}

/// Two stable rankings of the same grammars agree at every position up to `k`.
proof fn rankings_agree_upto(
    old: Seq<Grammar>,
    r1: Seq<Grammar>,
    r2: Seq<Grammar>,
    p1: Seq<int>,
    p2: Seq<int>,
    k: int,
)
    requires
        is_stable_ranking(old, r1, p1),
        is_stable_ranking(old, r2, p2),
        0 <= k < old.len(),
    ensures
        forall|j: int| 0 <= j <= k ==> #[trigger] p1[j] == p2[j],
    decreases k,
{
    if k > 0 {
        rankings_agree_upto(old, r1, r2, p1, p2, k - 1);
    }
    if p1[k] != p2[k] {
        let i1 = p1[k];
        let i2 = p2[k];
        assert(crate::grammar::hits(p2, i1));
        let k1 = choose|j: int| 0 <= j < p2.len() && #[trigger] p2[j] == i1;
        assert(crate::grammar::hits(p1, i2));
        let k2 = choose|j: int| 0 <= j < p1.len() && #[trigger] p1[j] == i2;
        if k1 < k {
            assert(p1[k1] == p2[k1]);
        }
        if k2 < k {
            assert(p1[k2] == p2[k2]);
        }
        assert(k1 > k && k2 > k);
        assert(r1[k] == old[i1] && r1[k2] == old[i2]);
        assert(r2[k] == old[i2] && r2[k1] == old[i1]);
        assert(r1[k].fitness_key() >= r1[k2].fitness_key());
        assert(r2[k].fitness_key() >= r2[k1].fitness_key());
        assert(p1[k] < p1[k2]);
        assert(p2[k] < p2[k1]);
    }
}

/// The ranking of a list of grammars by fitness is unique, so selection is
/// determined by the grammars and their order.
pub proof fn law_ranking_unique(old: Seq<Grammar>, r1: Seq<Grammar>, r2: Seq<Grammar>)
    requires
        ranked_by_fitness(old, r1),
        ranked_by_fitness(old, r2),
    ensures
        r1 == r2,
{
    let p1 = choose|p: Seq<int>| is_stable_ranking(old, r1, p);
    let p2 = choose|p: Seq<int>| is_stable_ranking(old, r2, p);
    if old.len() > 0 {
        rankings_agree_upto(old, r1, r2, p1, p2, old.len() - 1);
        assert forall|k: int| 0 <= k < r1.len() implies r1[k] == r2[k] by {
            assert(p1[k] == p2[k]);
        }
    }
    assert(r1 =~= r2);
}

/// Selection keeps the fittest: every grammar kept is at least as fit as every
/// grammar left out, no more than `n` are kept, and all are kept when there are
/// no more than `n`.
pub proof fn law_selection_keeps_fittest(old: Seq<Grammar>, ranked: Seq<Grammar>, n: usize)
    requires
        ranked_by_fitness(old, ranked),
    ensures
        top(ranked, n).len() == if n < old.len() {
            n as int
        } else {
            old.len() as int
        },
        forall|a: int, b: int|
            0 <= a < top(ranked, n).len() <= b < ranked.len() ==> #[trigger] ranked[a].fitness_key()
                >= #[trigger] ranked[b].fitness_key(),
        forall|j: int| 0 <= j < old.len() ==> #[trigger] ranked.contains(old[j]),
        forall|k: int| 0 <= k < ranked.len() ==> #[trigger] old.contains(ranked[k]),
{
    let p = choose|p: Seq<int>| is_stable_ranking(old, ranked, p);
    assert forall|j: int| 0 <= j < old.len() implies #[trigger] ranked.contains(old[j]) by {
        assert(crate::grammar::hits(p, j));
        let k = choose|k: int| 0 <= k < p.len() && #[trigger] p[k] == j;
        assert(ranked[k] == old[p[k]]);
    }
    assert forall|k: int| 0 <= k < ranked.len() implies #[trigger] old.contains(ranked[k]) by {
        assert(ranked[k] == old[p[k]]);
    }
}

/// The meaning that `agent` gives `signal` in `v`, if any.
pub open spec fn meaning_in(
    v: Map<Seq<char>, Map<Seq<char>, Seq<char>>>,
    agent: Seq<char>,
    signal: Seq<char>,
) -> Option<Seq<char>> {
    if v.contains_key(agent) && v[agent].contains_key(signal) {
        Some(v[agent][signal])
    } else {
        None
    }
}

/// A proposal sets the proposing agent's meaning for that one signal and leaves
/// every other meaning, of that agent and of every other agent, as it was.
pub proof fn law_propose_touches_one_meaning(
    v: Map<Seq<char>, Map<Seq<char>, Seq<char>>>,
    agent: Seq<char>,
    signal: Seq<char>,
    meaning: Seq<char>,
    a: Seq<char>,
    s: Seq<char>,
)
    ensures
        meaning_in(with_proposal(v, agent, signal, meaning), agent, signal) == Some(meaning),
        a != agent || s != signal ==> meaning_in(with_proposal(v, agent, signal, meaning), a, s)
            == meaning_in(v, a, s),
        with_proposal(v, agent, signal, meaning).dom() == v.dom().insert(agent),
{
    assert(with_proposal(v, agent, signal, meaning).dom() =~= v.dom().insert(agent));
}

/// Two agents agree on a signal exactly when both gave it a meaning and the two
/// meanings are the same text; agents that gave different meanings never agree.
pub proof fn law_agree_means_same_meaning(
    v: Map<Seq<char>, Map<Seq<char>, Seq<char>>>,
    a: Seq<char>,
    b: Seq<char>,
    signal: Seq<char>,
)
    ensures
        agree_on(v, a, b, signal) <==> (meaning_in(v, a, signal) is Some && meaning_in(
            v,
            a,
            signal,
        ) == meaning_in(v, b, signal)),
        meaning_in(v, a, signal) != meaning_in(v, b, signal) ==> !agree_on(v, a, b, signal),
        agree_on(v, a, a, signal) <==> meaning_in(v, a, signal) is Some,
{
}

/// A signal counts as a disagreement exactly when both dialects have it and
/// their two values differ; the count does not depend on which dialect is A.
pub proof fn law_disagreement_is_differing_shared(
    a: Map<Seq<char>, Ternary>,
    b: Map<Seq<char>, Ternary>,
    k: Seq<char>,
)
    ensures
        disagreeing_of(a, b).contains(k) <==> (a.contains_key(k) && b.contains_key(k) && a[k]
            != b[k]),
        disagreeing_of(a, b) == disagreeing_of(b, a),
        disagreeing_of(a, b).len() == disagreeing_of(b, a).len(),
        a.contains_key(k) && b.contains_key(k) && a[k] == b[k] ==> !disagreeing_of(a, b).contains(k),
{
    assert(disagreeing_of(a, b) =~= disagreeing_of(b, a));
}

/// Selection keeps a prefix of the ranking: the `n` fittest (all of them when
/// there are no more), in ranked order, each at least as fit as every grammar
/// of the ranking that is left out.
pub proof fn law_selection_is_prefix(ranked: Seq<Grammar>, n: usize)
    ensures
        top(ranked, n).len() == if n < ranked.len() {
            n as int
        } else {
            ranked.len() as int
        },
        forall|k: int| 0 <= k < top(ranked, n).len() ==> #[trigger] top(ranked, n)[k] == ranked[k],
{
}

/// Over a ranking, the kept grammars are the fittest: each is at least as fit
/// as every grammar left out.
pub proof fn law_kept_are_fittest(old: Seq<Grammar>, ranked: Seq<Grammar>, n: usize)
    requires
        ranked_by_fitness(old, ranked),
    ensures
        forall|a: int, b: int|
            0 <= a < top(ranked, n).len() && top(ranked, n).len() <= b < ranked.len()
                ==> #[trigger] top(ranked, n)[a].fitness_key() >= #[trigger] ranked[b].fitness_key(),
{
    let p = choose|p: Seq<int>| is_stable_ranking(old, ranked, p);
    assert forall|a: int, b: int|
        0 <= a < top(ranked, n).len() && top(ranked, n).len() <= b < ranked.len() implies #[trigger] top(
        ranked,
        n,
    )[a].fitness_key() >= #[trigger] ranked[b].fitness_key() by {
        assert(top(ranked, n)[a] == ranked[a]);
    }
}

} // verus!
