use ternary_language_evolution::{
    Creolization, Grammar, GrammarEvolution, MeaningNegotiation, ProtoLanguage,
    ProtocolEvolution, SignalDrift, SignalPool, Ternary,
};

/// The order key of a fitness value, as the library holds it.
fn key(f: f64) -> u64 {
    let f = if f == 0.0 { 0.0 } else { f };
    let b = f.to_bits();
    if b >> 63 == 0 { b | (1u64 << 63) } else { !b }
}

/// The fitness value an order key stands for.
fn value(k: u64) -> f64 {
    let b = if k >> 63 == 1 { k & !(1u64 << 63) } else { !k };
    f64::from_bits(b)
}

#[test]
fn test_ternary_from_i8() {
    assert_eq!(Ternary::from_i8(-1), Some(Ternary::Neg));
    assert_eq!(Ternary::from_i8(0), Some(Ternary::Zero));
    assert_eq!(Ternary::from_i8(1), Some(Ternary::Pos));
    assert_eq!(Ternary::from_i8(2), None);
}

#[test]
fn test_signal_pool_add_get() {
    let mut pool = SignalPool::new();
    pool.add("danger", Ternary::Neg);
    pool.add("safe", Ternary::Pos);
    assert_eq!(pool.get("danger").unwrap().value, Ternary::Neg);
    assert_eq!(pool.get("safe").unwrap().value, Ternary::Pos);
    assert_eq!(pool.len(), 2);
}

#[test]
fn test_signal_pool_remove() {
    let mut pool = SignalPool::new();
    pool.add("x", Ternary::Zero);
    assert!(pool.remove("x"));
    assert!(!pool.remove("x"));
    assert!(pool.is_empty());
}

#[test]
fn test_signal_pool_mutate() {
    let mut pool = SignalPool::new();
    pool.add("sig", Ternary::Pos);
    assert!(pool.mutate("sig", Ternary::Neg));
    assert_eq!(pool.get("sig").unwrap().value, Ternary::Neg);
    assert_eq!(pool.generation(), 1); // mutate increments
}

#[test]
fn test_signal_pool_evolve() {
    let mut pool = SignalPool::new();
    assert_eq!(pool.generation(), 0);
    pool.evolve();
    assert_eq!(pool.generation(), 1);
}

#[test]
fn test_meaning_negotiation_propose() {
    let mut mn = MeaningNegotiation::new();
    mn.propose("alice", "beep", "danger");
    mn.propose("bob", "beep", "danger");
    assert_eq!(mn.meaning("alice", "beep"), Some("danger"));
    assert!(mn.agrees("alice", "bob", "beep"));
}

#[test]
fn test_meaning_negotiation_disagree() {
    let mut mn = MeaningNegotiation::new();
    mn.propose("alice", "beep", "danger");
    mn.propose("bob", "beep", "food");
    assert!(!mn.agrees("alice", "bob", "beep"));
}

#[test]
fn test_meaning_consensus_count() {
    let mut mn = MeaningNegotiation::new();
    mn.propose("alice", "beep", "danger");
    mn.propose("bob", "beep", "danger");
    mn.propose("carol", "beep", "food");
    assert_eq!(mn.consensus_count("beep"), 2);
}

#[test]
fn test_grammar_apply_match() {
    let mut g = Grammar::new("basic");
    g.add_rule(vec![Ternary::Pos, Ternary::Neg], Ternary::Zero, "cancel");
    assert_eq!(g.apply(&[Ternary::Pos, Ternary::Neg]), Some(Ternary::Zero));
}

#[test]
fn test_grammar_apply_no_match() {
    let g = Grammar::new("empty");
    assert_eq!(g.apply(&[Ternary::Pos]), None);
}

#[test]
fn test_grammar_fitness() {
    let mut g = Grammar::new("f");
    assert_eq!(value(g.fitness()), 0.5);
    g.set_fitness(key(0.9));
    assert_eq!(value(g.fitness()), 0.9);
}

#[test]
fn test_grammar_evolution_select() {
    let mut ge = GrammarEvolution::new();
    let mut g1 = Grammar::new("weak");
    g1.set_fitness(key(0.2));
    let mut g2 = Grammar::new("strong");
    g2.set_fitness(key(0.9));
    let mut g3 = Grammar::new("mid");
    g3.set_fitness(key(0.5));
    ge.add(g1);
    ge.add(g2);
    ge.add(g3);
    ge.select(2);
    assert_eq!(ge.count(), 2);
    assert_eq!(ge.fittest().unwrap().name, "strong");
}

#[test]
fn test_signal_drift_record_and_value() {
    let mut sd = SignalDrift::new();
    sd.record("beep", 0, Ternary::Pos);
    sd.record("beep", 3, Ternary::Neg);
    assert_eq!(sd.value_at("beep", 0), Some(Ternary::Pos));
    assert_eq!(sd.value_at("beep", 3), Some(Ternary::Neg));
    assert_eq!(sd.total_drift("beep"), -2);
}

#[test]
fn test_signal_drift_no_drift() {
    let sd = SignalDrift::new();
    assert_eq!(sd.total_drift("nonexistent"), 0);
}

#[test]
fn test_creolization_merge_agreed() {
    let mut c = Creolization::new();
    c.add_a("beep", Ternary::Pos);
    c.add_b("beep", Ternary::Pos);
    c.merge();
    assert_eq!(c.get("beep"), Some(Ternary::Pos)); // avg of 1+1/2 = 1
}

#[test]
fn test_creolization_merge_disagreed() {
    let mut c = Creolization::new();
    c.add_a("beep", Ternary::Pos);
    c.add_b("beep", Ternary::Neg);
    c.merge();
    assert_eq!(c.get("beep"), Some(Ternary::Zero)); // avg of 1+(-1)/2 = 0
}

#[test]
fn test_creolization_unique_signals() {
    let mut c = Creolization::new();
    c.add_a("a_only", Ternary::Pos);
    c.add_b("b_only", Ternary::Neg);
    c.add_a("shared", Ternary::Zero);
    c.add_b("shared", Ternary::Zero);
    c.merge();
    assert_eq!(c.creole_size(), 3);
    assert_eq!(c.get("a_only"), Some(Ternary::Pos));
    assert_eq!(c.get("b_only"), Some(Ternary::Neg));
}

#[test]
fn test_creolization_disagreement() {
    let mut c = Creolization::new();
    c.add_a("x", Ternary::Pos);
    c.add_b("x", Ternary::Neg);
    c.add_a("y", Ternary::Zero);
    c.add_b("y", Ternary::Zero);
    assert_eq!(c.disagreement_count(), 1);
    assert_eq!(c.shared_signals().len(), 2);
}

#[test]
fn test_proto_language_minimal() {
    let pl = ProtoLanguage::minimal();
    assert!(pl.is_valid());
    assert_eq!(pl.signal_count(), 3);
    assert_eq!(pl.get("neg"), Some(Ternary::Neg));
}

#[test]
fn test_proto_language_compose() {
    let pl = ProtoLanguage::minimal();
    assert_eq!(pl.compose("pos", "neg"), Some(Ternary::Zero));
    assert_eq!(pl.compose("pos", "pos"), Some(Ternary::Pos));
    assert!(pl.compose("neg", "neg").is_some()); // -2 clamped to -1
}

#[test]
fn test_proto_language_invalid() {
    let mut pl = ProtoLanguage::new();
    pl.add("only_pos", Ternary::Pos);
    assert!(!pl.is_valid());
}

#[test]
fn test_protocol_evolution_advance() {
    let mut pe = ProtocolEvolution::new();
    pe.pool_mut().add("sig", Ternary::Pos);
    pe.advance();
    assert_eq!(pe.generation(), 1);
    assert_eq!(pe.pool().generation(), 1);
}
