//! The whole of a protocol's evolution: vocabulary, meanings, grammars and drift.
use vstd::prelude::*;

use crate::drift::SignalDrift;
use crate::grammar::{ranked_by_fitness, GrammarEvolution};
use crate::negotiation::MeaningNegotiation;
use crate::signal::SignalPool;

verus! {

/// Tracks the evolution of a protocol across generations.
#[derive(Debug, Clone)]
pub struct ProtocolEvolution {
    pool: SignalPool,
    negotiation: MeaningNegotiation,
    grammars: GrammarEvolution,
    drift: SignalDrift,
    generation: u64,
}

impl ProtocolEvolution {
    /// The signal pool.
    pub closed spec fn pool_part(&self) -> SignalPool {
        self.pool
    }

    /// The meaning negotiation.
    pub closed spec fn negotiation_part(&self) -> MeaningNegotiation {
        self.negotiation
    }

    /// The competing grammars.
    pub closed spec fn grammars_part(&self) -> GrammarEvolution {
        self.grammars
    }

    /// The signal drift.
    pub closed spec fn drift_part(&self) -> SignalDrift {
        self.drift
    }

    /// The generation reached.
    pub closed spec fn gen(&self) -> u64 {
        self.generation
    }

    /// Each part is well formed.
    pub open spec fn wf(&self) -> bool {
        &&& self.pool_part().wf()
        &&& self.negotiation_part().wf()
        &&& self.drift_part().wf()
    }

    /// Every part empty, generation 0.
    pub fn new() -> (r: Self)
        ensures
            r.wf(),
            r.pool_part().values() == Map::<Seq<char>, crate::ternary::Ternary>::empty(),
            r.pool_part().gen() == 0,
            r.negotiation_part()@ == Map::<Seq<char>, Map<Seq<char>, Seq<char>>>::empty(),
            r.grammars_part().grammar_list() == Seq::<crate::grammar::Grammar>::empty(),
            r.grammars_part().gen() == 0,
            r.drift_part()@ == Map::<Seq<char>, Seq<(u32, crate::ternary::Ternary)>>::empty(),
            r.gen() == 0,
    {
        ProtocolEvolution {
            pool: SignalPool::new(),
            negotiation: MeaningNegotiation::new(),
            grammars: GrammarEvolution::new(),
            drift: SignalDrift::new(),
            generation: 0,
        }
    }

    /// The signal pool.
    pub fn pool(&self) -> (r: &SignalPool)
        ensures
            *r == self.pool_part(),
    {
        &self.pool
    }

    /// The signal pool, to change.
    pub fn pool_mut(&mut self) -> (r: &mut SignalPool)
        ensures
            *r == old(self).pool_part(),
            final(self).pool_part() == *final(r),
            final(self).negotiation_part() == old(self).negotiation_part(),
            final(self).grammars_part() == old(self).grammars_part(),
            final(self).drift_part() == old(self).drift_part(),
            final(self).gen() == old(self).gen(),
    {
        &mut self.pool
    }

    /// The meaning negotiation.
    pub fn negotiation(&self) -> (r: &MeaningNegotiation)
        ensures
            *r == self.negotiation_part(),
    {
        &self.negotiation
    }

    /// The meaning negotiation, to change.
    pub fn negotiation_mut(&mut self) -> (r: &mut MeaningNegotiation)
        ensures
            *r == old(self).negotiation_part(),
            final(self).negotiation_part() == *final(r),
            final(self).pool_part() == old(self).pool_part(),
            final(self).grammars_part() == old(self).grammars_part(),
            final(self).drift_part() == old(self).drift_part(),
            final(self).gen() == old(self).gen(),
    {
        &mut self.negotiation
    }

    /// The competing grammars.
    pub fn grammars(&self) -> (r: &GrammarEvolution)
        ensures
            *r == self.grammars_part(),
    {
        &self.grammars
    }

    /// The competing grammars, to change.
    pub fn grammars_mut(&mut self) -> (r: &mut GrammarEvolution)
        ensures
            *r == old(self).grammars_part(),
            final(self).grammars_part() == *final(r),
            final(self).pool_part() == old(self).pool_part(),
            final(self).negotiation_part() == old(self).negotiation_part(),
            final(self).drift_part() == old(self).drift_part(),
            final(self).gen() == old(self).gen(),
    {
        &mut self.grammars
    }

    /// The signal drift.
    pub fn drift(&self) -> (r: &SignalDrift)
        ensures
            *r == self.drift_part(),
    {
        &self.drift
    }

    /// The signal drift, to change.
    pub fn drift_mut(&mut self) -> (r: &mut SignalDrift)
        ensures
            *r == old(self).drift_part(),
            final(self).drift_part() == *final(r),
            final(self).pool_part() == old(self).pool_part(),
            final(self).negotiation_part() == old(self).negotiation_part(),
            final(self).grammars_part() == old(self).grammars_part(),
            final(self).gen() == old(self).gen(),
    {
        &mut self.drift
    }

    /// Advances one generation: the pool evolves, the grammars go through one
    /// selection round that keeps all of them (so they are re-ranked from the
    /// fittest down, equally fit ones keeping their order), and the generation
    /// counter grows.
    pub fn advance(&mut self)
        requires
            old(self).wf(),
            old(self).pool_part().gen() < u64::MAX,
            old(self).grammars_part().gen() < u64::MAX,
            old(self).gen() < u64::MAX,
        ensures
            final(self).wf(),
            final(self).pool_part().values() == old(self).pool_part().values(),
            final(self).pool_part().gen() == old(self).pool_part().gen() + 1,
            ranked_by_fitness(
                old(self).grammars_part().grammar_list(),
                final(self).grammars_part().grammar_list(),
            ),
            final(self).grammars_part().gen() == old(self).grammars_part().gen() + 1,
            final(self).negotiation_part() == old(self).negotiation_part(),
            final(self).drift_part() == old(self).drift_part(),
            final(self).gen() == old(self).gen() + 1,
    {
        self.pool.evolve();
        let keep = self.grammars.count();
        self.grammars.select(keep);
        self.generation = self.generation + 1;
    }

    /// The generation reached.
    pub fn generation(&self) -> (r: u64)
        ensures
            r == self.gen(),
    {
        self.generation
    }
}

impl Default for ProtocolEvolution {
    fn default() -> (r: Self)
        ensures
            r.wf(),
            r.pool_part().values() == Map::<Seq<char>, crate::ternary::Ternary>::empty(),
            r.pool_part().gen() == 0,
            r.negotiation_part()@ == Map::<Seq<char>, Map<Seq<char>, Seq<char>>>::empty(),
            r.grammars_part().grammar_list() == Seq::<crate::grammar::Grammar>::empty(),
            r.grammars_part().gen() == 0,
            r.drift_part()@ == Map::<Seq<char>, Seq<(u32, crate::ternary::Ternary)>>::empty(),
            r.gen() == 0,
    {
        Self::new()
    }
}

} // verus!
