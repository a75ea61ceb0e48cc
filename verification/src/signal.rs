//! Signals and the pool of signals that agents can use.
use vstd::prelude::*;

use crate::assoc::{
    assoc_find, assoc_get, assoc_insert, assoc_remove, keys_distinct, lemma_map_of,
    lemma_map_of_update, map_of, str_views,
};
use crate::ternary::Ternary;

verus! {

/// A named signal carrying a ternary value.
#[derive(Debug, Clone, PartialEq, Eq, Hash)]
pub struct Signal {
    pub name: String,
    pub value: Ternary,
}

impl Signal {
    /// A signal with the given name and value.
    pub fn new(name: &str, value: Ternary) -> (r: Self)
        ensures
            r.name@ == name@,
            r.value == value,
    {
        Signal { name: name.to_string(), value }
    }
}

/// The vocabulary of signals, by name, with a generation counter.
#[derive(Debug, Clone)]
pub struct SignalPool {
    signals: Vec<(String, Signal)>,
    generation: u64,
}

impl SignalPool {
    /// The pool holds finitely many signals, and its representation is sound.
    pub open spec fn wf(&self) -> bool {
        &&& self.inv()
        &&& self.values().dom().finite()
    }

    /// No name occurs twice, and each signal is stored under its own name.
    pub closed spec fn inv(&self) -> bool {
        &&& keys_distinct(self.signals@)
        &&& forall|i: int|
            0 <= i < self.signals@.len() ==> #[trigger] self.signals@[i].1.name@
                == self.signals@[i].0@
    }

    /// The signals of the pool, from their names to their values.
    pub closed spec fn values(&self) -> Map<Seq<char>, Ternary> {
        map_of(self.signals@).map_values(|s: Signal| s.value)
    }

    /// The generation the pool has reached.
    pub closed spec fn gen(&self) -> u64 {
        self.generation
    }

    /// Each stored signal is stored under its own name.
    proof fn lemma_names(&self)
        requires
            self.inv(),
        ensures
            self.values().dom().finite(),
            forall|k: Seq<char>|
                #[trigger] map_of(self.signals@).contains_key(k) ==> map_of(self.signals@)[k].name@
                    == k,
            self.values().dom() == map_of(self.signals@).dom(),
    {
        lemma_map_of(self.signals@);
        assert forall|k: Seq<char>| #[trigger] map_of(self.signals@).contains_key(k) implies map_of(
            self.signals@,
        )[k].name@ == k by {
            let i = choose|i: int| 0 <= i < self.signals@.len() && self.signals@[i].0@ == k;
            assert(self.signals@[i] == self.signals@[i]);
        }
        assert(self.values().dom() =~= map_of(self.signals@).dom());
    }

    /// An empty pool at generation 0.
    pub fn new() -> (r: Self)
        ensures
            r.wf(),
            r.values() == Map::<Seq<char>, Ternary>::empty(),
            r.gen() == 0,
    {
        let r = SignalPool { signals: Vec::new(), generation: 0 };
        assert(r.values() =~= Map::<Seq<char>, Ternary>::empty());
        proof {
            r.lemma_names();
        }
        r
    }

    /// Adds a signal, replacing any signal of the same name.
    pub fn add(&mut self, name: &str, value: Ternary)
        requires
            old(self).wf(),
        ensures
            final(self).wf(),
            final(self).values() == old(self).values().insert(name@, value),
            final(self).values().len() == old(self).values().len() + if old(
                self,
            ).values().contains_key(name@) {
                0int
            } else {
                1int
            },
            final(self).gen() == old(self).gen(),
    {
        let ghost old_entries = self.signals@;
        let sig = Signal::new(name, value);
        assoc_insert(&mut self.signals, name.to_string(), sig);
        proof {
            lemma_map_of(self.signals@);
            lemma_map_of(old_entries);
            assert forall|i: int| 0 <= i < self.signals@.len() implies #[trigger] self.signals@[i].1.name@
                == self.signals@[i].0@ by {
                let k = self.signals@[i].0@;
                assert(map_of(self.signals@)[k] == self.signals@[i].1);
                if k != name@ {
                    let j = choose|j: int| 0 <= j < old_entries.len() && old_entries[j].0@ == k;
                    assert(old_entries[j] == old_entries[j]);
                }
            }
            assert(self.values() =~= old(self).values().insert(name@, value));
            self.lemma_names();
        }
    }

    /// Removes a signal; says whether it was there.
    pub fn remove(&mut self, name: &str) -> (r: bool)
        requires
            old(self).wf(),
        ensures
            final(self).wf(),
            r == old(self).values().contains_key(name@),
            final(self).values() == old(self).values().remove(name@),
            final(self).values().len() == old(self).values().len() - if r {
                1int
            } else {
                0int
            },
            final(self).gen() == old(self).gen(),
    {
        let ghost old_entries = self.signals@;
        proof {
            self.lemma_names();
        }
        let r = assoc_remove(&mut self.signals, &name.to_string());
        proof {
            lemma_map_of(self.signals@);
            lemma_map_of(old_entries);
            assert forall|i: int| 0 <= i < self.signals@.len() implies #[trigger] self.signals@[i].1.name@
                == self.signals@[i].0@ by {
                let k = self.signals@[i].0@;
                assert(map_of(self.signals@)[k] == self.signals@[i].1);
                let j = choose|j: int| 0 <= j < old_entries.len() && old_entries[j].0@ == k;
                assert(old_entries[j] == old_entries[j]);
            }
            assert(self.values() =~= old(self).values().remove(name@));
            self.lemma_names();
        }
        r
    }

    /// The signal of the given name, if the pool has one.
    pub fn get(&self, name: &str) -> (r: Option<&Signal>)
        requires
            self.wf(),
        ensures
            r is Some <==> self.values().contains_key(name@),
            r matches Some(s) ==> s.name@ == name@ && s.value == self.values()[name@],
    {
        proof {
            self.lemma_names();
        }
        assoc_get(&self.signals, &name.to_string())
    }

    /// The names of all signals, each once, in no particular order.
    pub fn names(&self) -> (r: Vec<&str>)
        requires
            self.wf(),
        ensures
            str_views(r@).no_duplicates(),
            str_views(r@).to_set() == self.values().dom(),
    {
        proof {
            self.lemma_names();
            lemma_map_of(self.signals@);
        }
        let mut r: Vec<&str> = Vec::new();
        let n = self.signals.len();
        let mut i: usize = 0;
        while i < n
            invariant
                self.wf(),
                n == self.signals@.len(),
                i <= n,
                str_views(r@).len() == i,
                forall|j: int| 0 <= j < i ==> #[trigger] str_views(r@)[j] == self.signals@[j].0@,
            decreases n - i,
        {
            let ghost before = str_views(r@);
            r.push(self.signals[i].0.as_str());
            assert(str_views(r@) =~= before.push(self.signals@[i as int].0@));
            i = i + 1;
        }
        let ghost out = str_views(r@);
        assert forall|a: int, b: int| 0 <= a < out.len() && 0 <= b < out.len() && a != b implies out[a]
            != out[b] by {
            assert(out[a] == self.signals@[a].0@ && out[b] == self.signals@[b].0@);
        }
        assert forall|k: Seq<char>| #[trigger] out.to_set().contains(k) <==> self.values().dom().contains(k) by {
            if out.contains(k) {
                let j = choose|j: int| 0 <= j < out.len() && out[j] == k;
                assert(self.signals@[j] == self.signals@[j]);
            }
            if self.values().dom().contains(k) {
                let j = choose|j: int| 0 <= j < self.signals@.len() && self.signals@[j].0@ == k;
                assert(out[j] == k);
            }
        }
        assert(out.to_set() =~= self.values().dom());
        r
    }

    /// The number of signals.
    pub fn len(&self) -> (r: usize)
        requires
            self.wf(),
        ensures
            r == self.values().len(),
    {
        proof {
            self.lemma_names();
            lemma_map_of(self.signals@);
        }
        self.signals.len()
    }

    /// The pool has no signal.
    pub fn is_empty(&self) -> (r: bool)
        requires
            self.wf(),
        ensures
            r == (self.values().len() == 0),
    {
        proof {
            self.lemma_names();
            lemma_map_of(self.signals@);
        }
        self.signals.len() == 0
    }

    /// Advances to the next generation.
    pub fn evolve(&mut self)
        requires
            old(self).wf(),
            old(self).gen() < u64::MAX,
        ensures
            final(self).wf(),
            final(self).values() == old(self).values(),
            final(self).gen() == old(self).gen() + 1,
    {
        self.generation = self.generation + 1;
    }

    /// The current generation.
    pub fn generation(&self) -> (r: u64)
        ensures
            r == self.gen(),
    {
        self.generation
    }

    /// Gives an existing signal a new value and advances the generation; a
    /// name that is not in the pool changes nothing.
    pub fn mutate(&mut self, name: &str, new_value: Ternary) -> (r: bool)
        requires
            old(self).wf(),
            old(self).values().contains_key(name@) ==> old(self).gen() < u64::MAX,
        ensures
            final(self).wf(),
            r == old(self).values().contains_key(name@),
            final(self).values() == if r {
                old(self).values().insert(name@, new_value)
            } else {
                old(self).values()
            },
            final(self).gen() == if r {
                old(self).gen() + 1
            } else {
                old(self).gen() as int
            },
    {
        let ghost old_entries = self.signals@;
        proof {
            self.lemma_names();
            lemma_map_of(old_entries);
        }
        match assoc_find(&self.signals, &name.to_string()) {
            Some(i) => {
                self.signals[i].1.value = new_value;
                self.generation = self.generation + 1;
                proof {
                    let e = self.signals@[i as int];
                    assert(self.signals@ =~= old_entries.update(i as int, e));
                    lemma_map_of_update(old_entries, i as int, e);
                    assert(old_entries[i as int] == old_entries[i as int]);
                    assert forall|j: int| 0 <= j < self.signals@.len() implies #[trigger] self.signals@[j].1.name@
                        == self.signals@[j].0@ by {
                        if j != i {
                            assert(self.signals@[j] == old_entries[j]);
                        } else {
                            assert(old_entries[j] == old_entries[j]);
                        }
                    }
                    assert(self.values() =~= old(self).values().insert(name@, new_value));
                    self.lemma_names();
                }
                true
            },
            None => false,
        }
    }
}

impl Default for SignalPool {
    fn default() -> (r: Self)
        ensures
            r.wf(),
            r.values() == Map::<Seq<char>, Ternary>::empty(),
            r.gen() == 0,
    {
        Self::new()
    }
}

} // verus!
