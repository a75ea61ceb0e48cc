//! Agents proposing meanings for signals, and how far they agree.
use vstd::prelude::*;

use crate::assoc::{
    assoc_find, assoc_get, assoc_insert, count_where, keys_distinct, keys_where,
    lemma_count_where, lemma_map_of, lemma_map_of_push, lemma_map_of_update, map_of,
};

verus! {

/// The meanings that one agent assigns, from signal names to meanings.
pub open spec fn meanings_view(inner: Vec<(String, String)>) -> Map<Seq<char>, Seq<char>> {
    map_of(inner@).map_values(|m: String| m@)
}

/// The agents that give `signal` the meaning `m`.
pub open spec fn agents_meaning(
    v: Map<Seq<char>, Map<Seq<char>, Seq<char>>>,
    signal: Seq<char>,
    m: Seq<char>,
) -> Set<Seq<char>> {
    v.dom().filter(|a: Seq<char>| v[a].contains_key(signal) && v[a][signal] == m)
}

/// The consensus on `signal`: the greatest number of agents that give it one and
/// the same meaning, 0 when no agent gives it any.
pub open spec fn is_consensus(
    v: Map<Seq<char>, Map<Seq<char>, Seq<char>>>,
    signal: Seq<char>,
    r: int,
) -> bool {
    &&& forall|m: Seq<char>| #[trigger] agents_meaning(v, signal, m).len() <= r
    &&& (r == 0 || exists|m: Seq<char>| #[trigger] agents_meaning(v, signal, m).len() == r)
}

/// Whether an agent's list of meanings gives `signal` the meaning `m`.
pub open spec fn gives_meaning(signal: Seq<char>, m: Seq<char>) -> spec_fn(
    Seq<char>,
    Vec<(String, String)>,
) -> bool {
    |a: Seq<char>, inner: Vec<(String, String)>|
        meanings_view(inner).contains_key(signal) && meanings_view(inner)[signal] == m
}

/// The meanings after `agent` proposes `meaning` for `signal`.
pub open spec fn with_proposal(
    v: Map<Seq<char>, Map<Seq<char>, Seq<char>>>,
    agent: Seq<char>,
    signal: Seq<char>,
    meaning: Seq<char>,
) -> Map<Seq<char>, Map<Seq<char>, Seq<char>>> {
    v.insert(
        agent,
        if v.contains_key(agent) {
            v[agent]
        } else {
            Map::<Seq<char>, Seq<char>>::empty()
        }.insert(signal, meaning),
    )
}

/// Both agents gave `signal` a meaning, and the same one.
pub open spec fn agree_on(
    v: Map<Seq<char>, Map<Seq<char>, Seq<char>>>,
    agent_a: Seq<char>,
    agent_b: Seq<char>,
    signal: Seq<char>,
) -> bool {
    &&& v.contains_key(agent_a) && v[agent_a].contains_key(signal)
    &&& v.contains_key(agent_b) && v[agent_b].contains_key(signal)
    &&& v[agent_a][signal] == v[agent_b][signal]
}

/// For each agent, the meaning it assigns to each signal it has spoken of.
#[derive(Debug, Clone)]
pub struct MeaningNegotiation {
    meanings: Vec<(String, Vec<(String, String)>)>,
}

impl View for MeaningNegotiation {
    type V = Map<Seq<char>, Map<Seq<char>, Seq<char>>>;

    closed spec fn view(&self) -> Map<Seq<char>, Map<Seq<char>, Seq<char>>> {
        map_of(self.meanings@).map_values(|inner: Vec<(String, String)>| meanings_view(inner))
    }
}

impl MeaningNegotiation {
    /// Finitely many agents, each of which has proposed a meaning for at least one
    /// signal and for finitely many; and the representation is sound.
    pub open spec fn wf(&self) -> bool {
        &&& self.inv()
        &&& self@.dom().finite()
        &&& forall|a: Seq<char>|
            #[trigger] self@.contains_key(a) ==> self@[a].dom().finite() && self@[a].len() > 0
    }

    /// No agent occurs twice, no signal twice for one agent, and every agent has
    /// proposed something.
    pub closed spec fn inv(&self) -> bool {
        &&& keys_distinct(self.meanings@)
        &&& forall|i: int|
            0 <= i < self.meanings@.len() ==> keys_distinct(#[trigger] self.meanings@[i].1@)
                && self.meanings@[i].1@.len() > 0
    }

    /// What the representation says of the view.
    proof fn lemma_view_facts(&self)
        requires
            self.inv(),
        ensures
            self@.dom().finite(),
            forall|a: Seq<char>|
                #[trigger] self@.contains_key(a) ==> self@[a].dom().finite() && self@[a].len() > 0,
    {
        lemma_map_of(self.meanings@);
        assert(self@.dom() =~= map_of(self.meanings@).dom());
        assert forall|a: Seq<char>| #[trigger] self@.contains_key(a) implies self@[a].dom().finite()
            && self@[a].len() > 0 by {
            let i = choose|i: int| 0 <= i < self.meanings@.len() && self.meanings@[i].0@ == a;
            assert(self.meanings@[i] == self.meanings@[i]);
            let inner = self.meanings@[i].1;
            lemma_map_of(inner@);
            assert(meanings_view(inner).dom() =~= map_of(inner@).dom());
        }
    }

    /// Counting the agents of the list that give `signal` the meaning `m`.
    proof fn lemma_count_meaning(&self, signal: Seq<char>, m: Seq<char>)
        requires
            self.wf(),
        ensures
            agents_meaning(self@, signal, m).finite(),
            count_where(self.meanings@, gives_meaning(signal, m)) == agents_meaning(
                self@,
                signal,
                m,
            ).len(),
    {
        let p = gives_meaning(signal, m);
        lemma_count_where(self.meanings@, p);
        assert(keys_where(map_of(self.meanings@), p) =~= agents_meaning(self@, signal, m));
    }

    /// No agent has proposed anything.
    pub fn new() -> (r: Self)
        ensures
            r.wf(),
            r@ == Map::<Seq<char>, Map<Seq<char>, Seq<char>>>::empty(),
    {
        let r = MeaningNegotiation { meanings: Vec::new() };
        assert(r@ =~= Map::<Seq<char>, Map<Seq<char>, Seq<char>>>::empty());
        proof {
            r.lemma_view_facts();
        }
        r
    }

    /// `agent` proposes `meaning` for `signal`, replacing what it proposed before.
    pub fn propose(&mut self, agent: &str, signal: &str, meaning: &str)
        requires
            old(self).wf(),
        ensures
            final(self).wf(),
            final(self)@ == with_proposal(old(self)@, agent@, signal@, meaning@),
            final(self)@.len() == old(self)@.len() + if old(self)@.contains_key(agent@) {
                0int
            } else {
                1int
            },
    {
        let agent_key = agent.to_string();
        let ghost old_entries = self.meanings@;
        proof {
            lemma_map_of(old_entries);
        }
        match assoc_find(&self.meanings, &agent_key) {
            Some(i) => {
                let ghost old_inner = self.meanings@[i as int].1;
                assert(keys_distinct(old_inner@));
                assoc_insert(&mut self.meanings[i].1, signal.to_string(), meaning.to_string());
                proof {
                    let e = self.meanings@[i as int];
                    assert(self.meanings@ =~= old_entries.update(i as int, e));
                    lemma_map_of_update(old_entries, i as int, e);
                    assert(old_entries[i as int] == old_entries[i as int]);
                    assert forall|j: int| 0 <= j < self.meanings@.len() implies keys_distinct(
                        #[trigger] self.meanings@[j].1@,
                    ) by {
                        if j != i {
                            assert(self.meanings@[j] == old_entries[j]);
                        }
                    }
                    assert(meanings_view(e.1) =~= meanings_view(old_inner).insert(
                        signal@,
                        meaning@,
                    ));
                    assert(self@ =~= old(self)@.insert(
                        agent@,
                        old(self)@[agent@].insert(signal@, meaning@),
                    ));
                    self.lemma_view_facts();
                }
            },
            None => {
                let mut inner: Vec<(String, String)> = Vec::new();
                inner.push((signal.to_string(), meaning.to_string()));
                let e = (agent_key, inner);
                proof {
                    lemma_map_of_push(old_entries, e);
                    lemma_map_of_push(Seq::<(String, String)>::empty(), e.1@[0]);
                    assert(e.1@ =~= Seq::<(String, String)>::empty().push(e.1@[0]));
                }
                self.meanings.push(e);
                proof {
                    assert forall|a: int, b: int|
                        0 <= a < self.meanings@.len() && 0 <= b < self.meanings@.len() && a
                            != b implies #[trigger] self.meanings@[a].0@
                        != #[trigger] self.meanings@[b].0@ by {
                        if a < old_entries.len() {
                            assert(self.meanings@[a] == old_entries[a]);
                        }
                        if b < old_entries.len() {
                            assert(self.meanings@[b] == old_entries[b]);
                        }
                    }
                    assert forall|j: int| 0 <= j < self.meanings@.len() implies keys_distinct(
                        #[trigger] self.meanings@[j].1@,
                    ) by {
                        if j < old_entries.len() {
                            assert(self.meanings@[j] == old_entries[j]);
                        }
                    }
                    assert(!old(self)@.contains_key(agent@));
                    assert(meanings_view(e.1) =~= Map::<Seq<char>, Seq<char>>::empty().insert(
                        signal@,
                        meaning@,
                    ));
                    assert(self@ =~= old(self)@.insert(
                        agent@,
                        Map::<Seq<char>, Seq<char>>::empty().insert(signal@, meaning@),
                    ));
                    self.lemma_view_facts();
                }
            },
        }
    }

    /// The meaning `agent` gives `signal`, as the stored string.
    fn meaning_string(&self, agent: &str, signal: &str) -> (r: Option<&String>)
        requires
            self.wf(),
        ensures
            r is Some <==> self@.contains_key(agent@) && self@[agent@].contains_key(signal@),
            r matches Some(s) ==> s@ == self@[agent@][signal@],
    {
        proof {
            lemma_map_of(self.meanings@);
        }
        match assoc_find(&self.meanings, &agent.to_string()) {
            Some(i) => {
                let inner = &self.meanings[i].1;
                assert(self.meanings@[i as int] == self.meanings@[i as int]);
                assert(keys_distinct(inner@));
                assoc_get(inner, &signal.to_string())
            },
            None => None,
        }
    }

    /// The meaning `agent` gives `signal`, if it proposed one.
    pub fn meaning(&self, agent: &str, signal: &str) -> (r: Option<&str>)
        requires
            self.wf(),
        ensures
            r is Some <==> self@.contains_key(agent@) && self@[agent@].contains_key(signal@),
            r matches Some(s) ==> s@ == self@[agent@][signal@],
    {
        match self.meaning_string(agent, signal) {
            Some(s) => Some(s.as_str()),
            None => None,
        }
    }

    /// Both agents proposed a meaning for `signal`, and the same one.
    pub fn agrees(&self, agent_a: &str, agent_b: &str, signal: &str) -> (r: bool)
        requires
            self.wf(),
        ensures
            r == agree_on(self@, agent_a@, agent_b@, signal@),
    {
        match (self.meaning_string(agent_a, signal), self.meaning_string(agent_b, signal)) {
            (Some(a), Some(b)) => *a == *b,
            _ => false,
        }
    }

    /// The greatest number of agents that give `signal` one and the same meaning.
    pub fn consensus_count(&self, signal: &str) -> (r: usize)
        requires
            self.wf(),
        ensures
            is_consensus(self@, signal@, r as int),
    {
        let key = signal.to_string();
        let n = self.meanings.len();
        proof {
            lemma_map_of(self.meanings@);
        }
        let mut best: usize = 0;
        let mut i: usize = 0;
        while i < n
            invariant
                self.wf(),
                n == self.meanings@.len(),
                i <= n,
                key@ == signal@,
                best <= n,
                forall|j: int|
                    #![trigger self.meanings@[j]]
                    0 <= j < i && meanings_view(self.meanings@[j].1).contains_key(signal@)
                        ==> agents_meaning(self@, signal@, meanings_view(self.meanings@[j].1)[signal@]).len()
                        <= best,
                best == 0 || exists|m: Seq<char>| #[trigger] agents_meaning(self@, signal@, m).len() == best,
                forall|j: int|
                    #![trigger self.meanings@[j]]
                    0 <= j < n ==> map_of(self.meanings@).contains_key(self.meanings@[j].0@)
                        && map_of(self.meanings@)[self.meanings@[j].0@] == self.meanings@[j].1,
            decreases n - i,
        {
            assert(self.meanings@[i as int] == self.meanings@[i as int]);
            let inner = &self.meanings[i].1;
            assert(keys_distinct(inner@));
            match assoc_get(inner, &key) {
                Some(m) => {
                    let ghost p = gives_meaning(signal@, m@);
                    // the agents that give `signal` the meaning `m`
                    let mut count: usize = 0;
                    let mut j: usize = 0;
                    while j < n
                        invariant
                            self.wf(),
                            n == self.meanings@.len(),
                            j <= n,
                            key@ == signal@,
                            p == gives_meaning(signal@, m@),
                            count == count_where(self.meanings@.take(j as int), p),
                            count <= j,
                        decreases n - j,
                    {
                        let ghost before = count;
                        assert(self.meanings@.take(j + 1).drop_last() =~= self.meanings@.take(
                            j as int,
                        ));
                        assert(self.meanings@.take(j + 1).last() == self.meanings@[j as int]);
                        let other = &self.meanings[j].1;
                        assert(keys_distinct(other@));
                        match assoc_get(other, &key) {
                            Some(m2) => {
                                if *m2 == *m {
                                    count = count + 1;
                                }
                            },
                            None => {},
                        }
                        assert(count == before + if p(self.meanings@[j as int].0@, *other) {
                            1nat
                        } else {
                            0nat
                        });
                        j = j + 1;
                    }
                    proof {
                        assert(self.meanings@.take(n as int) =~= self.meanings@);
                        self.lemma_count_meaning(signal@, m@);
                        assert(meanings_view(self.meanings@[i as int].1)[signal@] == m@);
                    }
                    if count > best {
                        best = count;
                    }
                },
                None => {},
            }
            i = i + 1;
        }
        proof {
            assert forall|m: Seq<char>| #[trigger] agents_meaning(self@, signal@, m).len()
                <= best by {
                self.lemma_count_meaning(signal@, m);
                let s = agents_meaning(self@, signal@, m);
                if s.len() > 0 {
                    let a = s.choose();
                    assert(s.contains(a));
                    let j = choose|j: int|
                        0 <= j < self.meanings@.len() && self.meanings@[j].0@ == a;
                    assert(self.meanings@[j] == self.meanings@[j]);
                }
            }
        }
        best
    }

    /// The number of agents that have proposed something.
    pub fn agent_count(&self) -> (r: usize)
        requires
            self.wf(),
        ensures
            r == self@.len(),
    {
        proof {
            lemma_map_of(self.meanings@);
            assert(self@.dom() =~= map_of(self.meanings@).dom());
        }
        self.meanings.len()
    }
}

impl Default for MeaningNegotiation {
    fn default() -> (r: Self)
        ensures
            r.wf(),
            r@ == Map::<Seq<char>, Map<Seq<char>, Seq<char>>>::empty(),
    {
        Self::new()
    }
}

} // verus!
