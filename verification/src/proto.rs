//! The minimal communication system that all languages evolve from.
use vstd::prelude::*;

use crate::assoc::{assoc_get, assoc_insert, keys_distinct, lemma_map_of, map_of};
use crate::ternary::{ternary_value, Ternary};

verus! {

/// The ternary value of a sum, clamped to the range -1..=1.
pub open spec fn clamped_sum(x: Ternary, y: Ternary) -> Ternary {
    let sum = ternary_value(x) + ternary_value(y);
    if sum >= 1 {
        Ternary::Pos
    } else if sum <= -1 {
        Ternary::Neg
    } else {
        Ternary::Zero
    }
}

/// Some signal of `m` carries the value `t`.
pub open spec fn carries(m: Map<Seq<char>, Ternary>, t: Ternary) -> bool {
    exists|k: Seq<char>| #[trigger] m.contains_key(k) && m[k] == t
}

/// A set of named signals.
#[derive(Debug, Clone)]
pub struct ProtoLanguage {
    signals: Vec<(String, Ternary)>,
}

impl View for ProtoLanguage {
    type V = Map<Seq<char>, Ternary>;

    closed spec fn view(&self) -> Map<Seq<char>, Ternary> {
        map_of(self.signals@)
    }
}

impl ProtoLanguage {
    /// Finitely many signals, and the representation is sound.
    pub open spec fn wf(&self) -> bool {
        &&& self.inv()
        &&& self@.dom().finite()
    }

    /// No name occurs twice.
    pub closed spec fn inv(&self) -> bool {
        keys_distinct(self.signals@)
    }

    /// The minimal proto-language: one signal per ternary value.
    pub fn minimal() -> (r: Self)
        ensures
            r.wf(),
            r@ == Map::<Seq<char>, Ternary>::empty().insert("neg"@, Ternary::Neg).insert(
                "zero"@,
                Ternary::Zero,
            ).insert("pos"@, Ternary::Pos),
            r@.len() == 3,
    {
        let mut signals: Vec<(String, Ternary)> = Vec::new();
        assoc_insert(&mut signals, "neg".to_string(), Ternary::Neg);
        assoc_insert(&mut signals, "zero".to_string(), Ternary::Zero);
        assoc_insert(&mut signals, "pos".to_string(), Ternary::Pos);
        proof {
            reveal_strlit("neg");
            reveal_strlit("zero");
            reveal_strlit("pos");
            assert("neg"@[0] != "zero"@[0] && "neg"@[0] != "pos"@[0] && "zero"@[0] != "pos"@[0]);
        }
        ProtoLanguage { signals }
    }

    /// A language with no signal.
    pub fn new() -> (r: Self)
        ensures
            r.wf(),
            r@ == Map::<Seq<char>, Ternary>::empty(),
    {
        ProtoLanguage { signals: Vec::new() }
    }

    /// Adds a signal, replacing any signal of the same name.
    pub fn add(&mut self, name: &str, value: Ternary)
        requires
            old(self).wf(),
        ensures
            final(self).wf(),
            final(self)@ == old(self)@.insert(name@, value),
            final(self)@.len() == old(self)@.len() + if old(self)@.contains_key(name@) {
                0int
            } else {
                1int
            },
    {
        assoc_insert(&mut self.signals, name.to_string(), value);
    }

    /// The value of the signal of the given name.
    pub fn get(&self, name: &str) -> (r: Option<Ternary>)
        requires
            self.wf(),
        ensures
            r == (if self@.contains_key(name@) {
                Some(self@[name@])
            } else {
                None::<Ternary>
            }),
    {
        match assoc_get(&self.signals, &name.to_string()) {
            Some(v) => Some(*v),
            None => None,
        }
    }

    /// The number of signals.
    pub fn signal_count(&self) -> (r: usize)
        requires
            self.wf(),
        ensures
            r == self@.len(),
    {
        proof {
            lemma_map_of(self.signals@);
        }
        self.signals.len()
    }

    /// Whether some signal carries `t`.
    fn has_value(&self, t: Ternary) -> (r: bool)
        requires
            self.wf(),
        ensures
            r == carries(self@, t),
    {
        proof {
            lemma_map_of(self.signals@);
        }
        let n = self.signals.len();
        let mut i: usize = 0;
        while i < n
            invariant
                self.wf(),
                n == self.signals@.len(),
                i <= n,
                forall|j: int| 0 <= j < i ==> #[trigger] self.signals@[j].1 != t,
            decreases n - i,
        {
            if self.signals[i].1 == t {
                proof {
                    lemma_map_of(self.signals@);
                    assert(self.signals@[i as int] == self.signals@[i as int]);
                    assert(self@.contains_key(self.signals@[i as int].0@));
                }
                return true;
            }
            i = i + 1;
        }
        proof {
            lemma_map_of(self.signals@);
            if carries(self@, t) {
                let k = choose|k: Seq<char>| #[trigger] self@.contains_key(k) && self@[k] == t;
                let j = choose|j: int| 0 <= j < self.signals@.len() && self.signals@[j].0@ == k;
                assert(self.signals@[j] == self.signals@[j]);
            }
        }
        false
    }

    /// A valid proto-language has at least one signal for each ternary value.
    pub fn is_valid(&self) -> (r: bool)
        requires
            self.wf(),
        ensures
            r == (carries(self@, Ternary::Neg) && carries(self@, Ternary::Zero) && carries(
                self@,
                Ternary::Pos,
            )),
    {
        let has_neg = self.has_value(Ternary::Neg);
        let has_zero = self.has_value(Ternary::Zero);
        let has_pos = self.has_value(Ternary::Pos);
        has_neg && has_zero && has_pos
    }

    /// Composes two signals: the sum of their values, clamped to -1..=1; `None`
    /// when either signal is missing.
    pub fn compose(&self, a: &str, b: &str) -> (r: Option<Ternary>)
        requires
            self.wf(),
        ensures
            r == (if self@.contains_key(a@) && self@.contains_key(b@) {
                Some(clamped_sum(self@[a@], self@[b@]))
            } else {
                None::<Ternary>
            }),
    {
        let va = match assoc_get(&self.signals, &a.to_string()) {
            Some(v) => v,
            None => return None,
        };
        let vb = match assoc_get(&self.signals, &b.to_string()) {
            Some(v) => v,
            None => return None,
        };
        let sum = va.to_i8() + vb.to_i8();
        let clamped: i8 = if sum < -1 {
            -1
        } else if sum > 1 {
            1
        } else {
            sum
        };
        Ternary::from_i8(clamped)
    }
}

impl Default for ProtoLanguage {
    fn default() -> (r: Self)
        ensures
            r.wf(),
            r@ == Map::<Seq<char>, Ternary>::empty(),
    {
        Self::new()
    }
}

} // verus!
