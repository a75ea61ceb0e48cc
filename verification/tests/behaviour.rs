use ternary_language_evolution::{
    Creolization, Grammar, GrammarEvolution, MeaningNegotiation, ProtoLanguage,
    ProtocolEvolution, Signal, SignalDrift, SignalPool, Ternary,
};

fn fitness_key(f: f64) -> u64 {
    let f = if f == 0.0 { 0.0 } else { f };
    let b = f.to_bits();
    if b >> 63 == 0 { b | (1u64 << 63) } else { !b }
}

fn graded(name: &str, f: f64) -> Grammar {
    let mut g = Grammar::new(name);
    g.set_fitness(fitness_key(f));
    g
}

const ALL: [Ternary; 3] = [Ternary::Neg, Ternary::Zero, Ternary::Pos];

#[test]
fn ternary_round_trip_and_range() {
    for t in ALL {
        assert_eq!(Ternary::from_i8(t.to_i8()), Some(t));
    }
    assert_eq!(Ternary::Neg.to_i8(), -1);
    assert_eq!(Ternary::Zero.to_i8(), 0);
    assert_eq!(Ternary::Pos.to_i8(), 1);
    assert_eq!(Ternary::from_i8(-2), None);
    assert_eq!(Ternary::from_i8(i8::MIN), None);
    assert_eq!(Ternary::from_i8(i8::MAX), None);
}

#[test]
fn signal_new_keeps_fields() {
    let s = Signal::new("alert", Ternary::Pos);
    assert_eq!(s.name, "alert");
    assert_eq!(s.value, Ternary::Pos);
}

#[test]
fn pool_add_replaces_and_names_once() {
    let mut pool = SignalPool::new();
    pool.add("a", Ternary::Pos);
    pool.add("b", Ternary::Zero);
    pool.add("a", Ternary::Neg);
    assert_eq!(pool.len(), 2);
    assert_eq!(pool.get("a").unwrap().value, Ternary::Neg);
    assert_eq!(pool.get("a").unwrap().name, "a");
    let mut names = pool.names();
    names.sort();
    assert_eq!(names, vec!["a", "b"]);
    assert!(pool.get("c").is_none());
    assert_eq!(pool.generation(), 0);
}

#[test]
fn pool_add_then_remove_forgets() {
    let mut pool = SignalPool::default();
    pool.add("x", Ternary::Pos);
    assert!(pool.remove("x"));
    assert!(pool.get("x").is_none());
    assert!(!pool.remove("missing"));
    assert!(pool.is_empty());
    assert!(pool.names().is_empty());
}

#[test]
fn pool_mutate_missing_changes_nothing() {
    let mut pool = SignalPool::new();
    pool.add("x", Ternary::Pos);
    assert!(!pool.mutate("y", Ternary::Neg));
    assert_eq!(pool.generation(), 0);
    assert_eq!(pool.get("x").unwrap().value, Ternary::Pos);
    assert!(pool.mutate("x", Ternary::Zero));
    assert!(pool.mutate("x", Ternary::Zero));
    assert_eq!(pool.generation(), 2);
    pool.evolve();
    assert_eq!(pool.generation(), 3);
}

#[test]
fn negotiation_same_proposal_agrees_both_ways() {
    let mut mn = MeaningNegotiation::new();
    mn.propose("a", "s", "food");
    mn.propose("b", "s", "danger");
    assert!(!mn.agrees("a", "b", "s"));
    mn.propose("b", "s", "food");
    assert!(mn.agrees("a", "b", "s"));
    assert!(mn.agrees("b", "a", "s"));
    assert!(!mn.agrees("a", "c", "s"));
    assert!(!mn.agrees("a", "b", "other"));
    assert_eq!(mn.meaning("b", "s"), Some("food"));
    assert_eq!(mn.meaning("b", "other"), None);
    assert_eq!(mn.meaning("nobody", "s"), None);
}

#[test]
fn negotiation_consensus_edges() {
    let mut mn = MeaningNegotiation::default();
    assert_eq!(mn.consensus_count("s"), 0);
    assert_eq!(mn.agent_count(), 0);
    mn.propose("a", "t", "x");
    assert_eq!(mn.consensus_count("s"), 0);
    mn.propose("a", "s", "x");
    assert_eq!(mn.consensus_count("s"), 1);
    mn.propose("b", "s", "y");
    mn.propose("c", "s", "y");
    mn.propose("d", "s", "y");
    mn.propose("e", "s", "x");
    assert_eq!(mn.consensus_count("s"), 3);
    mn.propose("d", "s", "x");
    assert_eq!(mn.consensus_count("s"), 3);
    assert_eq!(mn.agent_count(), 5);
    mn.propose("a", "u", "z");
    assert_eq!(mn.agent_count(), 5);
}

#[test]
fn grammar_earlier_rule_wins() {
    let mut g = Grammar::new("g");
    g.add_rule(vec![Ternary::Pos], Ternary::Neg, "first");
    g.add_rule(vec![Ternary::Pos], Ternary::Pos, "second");
    g.add_rule(vec![Ternary::Pos, Ternary::Pos], Ternary::Zero, "pair");
    g.add_rule(vec![], Ternary::Pos, "empty");
    assert_eq!(g.rule_count(), 4);
    assert_eq!(g.apply(&[Ternary::Pos]), Some(Ternary::Neg));
    assert_eq!(g.apply(&[Ternary::Pos, Ternary::Pos]), Some(Ternary::Zero));
    assert_eq!(g.apply(&[Ternary::Pos, Ternary::Neg]), None);
    assert_eq!(g.apply(&[]), Some(Ternary::Pos));
    assert_eq!(g.name, "g");
}

#[test]
fn selection_ranks_stably() {
    let mut ge = GrammarEvolution::default();
    ge.add(graded("a", 0.5));
    ge.add(graded("b", 0.9));
    ge.add(graded("c", 0.5));
    ge.add(graded("d", -1.0));
    ge.add(graded("e", 0.9));
    ge.select(10);
    let names: Vec<&str> = ge.grammars().iter().map(|g| g.name.as_str()).collect();
    assert_eq!(names, vec!["b", "e", "a", "c", "d"]);
    assert_eq!(ge.generation(), 1);
    ge.select(3);
    let names: Vec<&str> = ge.grammars().iter().map(|g| g.name.as_str()).collect();
    assert_eq!(names, vec!["b", "e", "a"]);
    assert_eq!(ge.generation(), 2);
    // the last of the equally fittest
    assert_eq!(ge.fittest().unwrap().name, "e");
    ge.select(0);
    assert_eq!(ge.count(), 0);
    assert!(ge.fittest().is_none());
    assert_eq!(ge.generation(), 3);
}

#[test]
fn selection_orders_negative_and_zero_fitness() {
    let mut ge = GrammarEvolution::new();
    ge.add(graded("neg", -0.5));
    ge.add(graded("zero", 0.0));
    ge.add(graded("negzero", -0.0));
    ge.add(graded("big", 2.0));
    ge.select(4);
    let names: Vec<&str> = ge.grammars().iter().map(|g| g.name.as_str()).collect();
    assert_eq!(names, vec!["big", "zero", "negzero", "neg"]);
}

#[test]
fn drift_first_value_and_farthest_last() {
    let mut sd = SignalDrift::default();
    sd.record("s", 0, Ternary::Neg);
    sd.record("s", 0, Ternary::Pos);
    sd.record("s", 5, Ternary::Zero);
    sd.record("s", 5, Ternary::Pos);
    sd.record("s", 2, Ternary::Neg);
    assert_eq!(sd.value_at("s", 0), Some(Ternary::Neg));
    assert_eq!(sd.value_at("s", 5), Some(Ternary::Zero));
    assert_eq!(sd.value_at("s", 4), None);
    assert_eq!(sd.value_at("t", 0), None);
    // farthest: the last value at distance 5 (Pos); base: first at 0 (Neg)
    assert_eq!(sd.total_drift("s"), 2);
    assert_eq!(sd.signal_count(), 1);
    sd.record("t", 3, Ternary::Neg);
    assert_eq!(sd.signal_count(), 2);
    // no value at distance 0: the base is 0
    assert_eq!(sd.total_drift("t"), -1);
}

#[test]
fn drift_single_record_at_zero_is_zero() {
    let mut sd = SignalDrift::new();
    sd.record("s", 0, Ternary::Pos);
    assert_eq!(sd.total_drift("s"), 0);
}

#[test]
fn creole_average_rounds_toward_zero() {
    let cases = [
        (Ternary::Pos, Ternary::Pos, Ternary::Pos),
        (Ternary::Neg, Ternary::Neg, Ternary::Neg),
        (Ternary::Pos, Ternary::Neg, Ternary::Zero),
        (Ternary::Pos, Ternary::Zero, Ternary::Zero),
        (Ternary::Neg, Ternary::Zero, Ternary::Zero),
        (Ternary::Zero, Ternary::Zero, Ternary::Zero),
    ];
    for (a, b, expected) in cases {
        let mut c = Creolization::new();
        c.add_a("s", a);
        c.add_b("s", b);
        c.merge();
        assert_eq!(c.get("s"), Some(expected));
    }
}

#[test]
fn creole_merge_is_symmetric() {
    let mut c1 = Creolization::new();
    let mut c2 = Creolization::new();
    let a = [("x", Ternary::Pos), ("y", Ternary::Neg), ("z", Ternary::Zero)];
    let b = [("y", Ternary::Pos), ("z", Ternary::Zero), ("w", Ternary::Neg)];
    for (n, v) in a {
        c1.add_a(n, v);
        c2.add_b(n, v);
    }
    for (n, v) in b {
        c1.add_b(n, v);
        c2.add_a(n, v);
    }
    c1.merge();
    c2.merge();
    assert_eq!(c1.creole_size(), 4);
    assert_eq!(c2.creole_size(), 4);
    for n in ["x", "y", "z", "w", "v"] {
        assert_eq!(c1.get(n), c2.get(n));
    }
    assert_eq!(c1.get("y"), Some(Ternary::Zero));
    assert_eq!(c1.get("v"), None);
}

#[test]
fn creole_merge_with_itself_and_remerge() {
    let mut c = Creolization::default();
    c.add_a("x", Ternary::Neg);
    c.add_b("x", Ternary::Neg);
    assert_eq!(c.get("x"), None);
    assert_eq!(c.creole_size(), 0);
    c.merge();
    assert_eq!(c.get("x"), Some(Ternary::Neg));
    c.add_a("x", Ternary::Pos);
    c.merge();
    assert_eq!(c.get("x"), Some(Ternary::Zero));
    assert_eq!(c.creole_size(), 1);
}

#[test]
fn creole_disagreement_within_shared() {
    let mut c = Creolization::new();
    c.add_a("x", Ternary::Pos);
    c.add_a("y", Ternary::Pos);
    c.add_a("only_a", Ternary::Pos);
    c.add_b("x", Ternary::Neg);
    c.add_b("y", Ternary::Zero);
    c.add_b("only_b", Ternary::Neg);
    assert_eq!(c.disagreement_count(), 2);
    let mut shared = c.shared_signals();
    shared.sort();
    assert_eq!(shared, vec!["x", "y"]);
    assert!(c.disagreement_count() <= c.shared_signals().len());
}

#[test]
fn proto_compose_symmetric_and_missing() {
    let pl = ProtoLanguage::minimal();
    for a in ["neg", "zero", "pos"] {
        for b in ["neg", "zero", "pos"] {
            assert_eq!(pl.compose(a, b), pl.compose(b, a));
        }
        assert_eq!(pl.compose(a, "zero"), pl.get(a));
    }
    assert_eq!(pl.compose("neg", "neg"), Some(Ternary::Neg));
    assert_eq!(pl.compose("pos", "missing"), None);
    assert_eq!(pl.compose("missing", "pos"), None);
    assert_eq!(pl.get("pos"), Some(Ternary::Pos));
    assert_eq!(pl.get("zero"), Some(Ternary::Zero));
}

#[test]
fn proto_validity_needs_all_three() {
    let mut pl = ProtoLanguage::default();
    assert!(!pl.is_valid());
    assert_eq!(pl.signal_count(), 0);
    pl.add("a", Ternary::Neg);
    pl.add("b", Ternary::Zero);
    assert!(!pl.is_valid());
    pl.add("c", Ternary::Pos);
    assert!(pl.is_valid());
    pl.add("c", Ternary::Zero);
    assert!(!pl.is_valid());
    assert_eq!(pl.signal_count(), 3);
}

#[test]
fn protocol_evolution_parts() {
    let mut pe = ProtocolEvolution::default();
    assert_eq!(pe.generation(), 0);
    pe.negotiation_mut().propose("alice", "beep", "danger");
    pe.drift_mut().record("beep", 0, Ternary::Pos);
    pe.grammars_mut().add(Grammar::new("g"));
    pe.pool_mut().add("beep", Ternary::Pos);
    pe.advance();
    pe.advance();
    assert_eq!(pe.generation(), 2);
    assert_eq!(pe.pool().generation(), 2);
    assert_eq!(pe.negotiation().meaning("alice", "beep"), Some("danger"));
    assert_eq!(pe.drift().value_at("beep", 0), Some(Ternary::Pos));
    assert_eq!(pe.grammars().count(), 1);
    assert_eq!(pe.grammars().generation(), 2);
    assert_eq!(pe.pool().len(), 1);
}

#[test]
fn protocol_advance_ranks_grammars_keeping_all() {
    let mut pe = ProtocolEvolution::new();
    pe.grammars_mut().add(graded("low", 0.1));
    pe.grammars_mut().add(graded("high", 0.8));
    pe.grammars_mut().add(graded("mid", 0.4));
    pe.advance();
    let names: Vec<&str> = pe.grammars().grammars().iter().map(|g| g.name.as_str()).collect();
    assert_eq!(names, vec!["high", "mid", "low"]);
    assert_eq!(pe.grammars().generation(), 1);
    assert_eq!(pe.generation(), 1);
    assert_eq!(pe.pool().generation(), 1);
}

#[test]
fn sizes_follow_insertions_and_removals() {
    let mut pool = SignalPool::new();
    pool.add("a", Ternary::Pos);
    pool.add("a", Ternary::Neg);
    assert_eq!(pool.len(), 1);
    assert!(!pool.remove("b"));
    assert_eq!(pool.len(), 1);
    let mut mn = MeaningNegotiation::new();
    mn.propose("x", "s", "m");
    mn.propose("x", "t", "m");
    assert_eq!(mn.agent_count(), 1);
    let mut sd = SignalDrift::new();
    sd.record("s", 1, Ternary::Pos);
    sd.record("s", 2, Ternary::Pos);
    assert_eq!(sd.signal_count(), 1);
    let mut pl = ProtoLanguage::minimal();
    pl.add("pos", Ternary::Zero);
    assert_eq!(pl.signal_count(), 3);
    pl.add("extra", Ternary::Zero);
    assert_eq!(pl.signal_count(), 4);
}

#[test]
fn grammar_name_getter() {
    let g = ternary_language_evolution::Grammar::new("basic");
    assert_eq!(g.name(), "basic");
    assert_eq!(g.name, "basic");
}
