//! Merging two dialects into a creole.
use vstd::prelude::*;

use crate::assoc::{
    assoc_contains, assoc_get, assoc_insert, count_where, keys_distinct, keys_where,
    lemma_count_where, lemma_map_of, map_of, str_views,
};
use crate::ternary::{ternary_value, Ternary};

verus! {

/// The average of two ternary values, rounded toward zero: the two values
/// agree, or one of them is zero and the other is kept only when they agree.
pub open spec fn ternary_average(x: Ternary, y: Ternary) -> Ternary {
    let sum = ternary_value(x) + ternary_value(y);
    let half = if sum >= 0 {
        sum / 2
    } else {
        -((-sum) / 2)
    };
    if half == 1 {
        Ternary::Pos
    } else if half == -1 {
        Ternary::Neg
    } else {
        Ternary::Zero
    }
}

/// The creole of two dialects: a signal of both takes the average of its two
/// values; a signal of one dialect only keeps its value.
pub open spec fn creole_of(a: Map<Seq<char>, Ternary>, b: Map<Seq<char>, Ternary>) -> Map<
    Seq<char>,
    Ternary,
> {
    Map::new(
        |k: Seq<char>| a.contains_key(k) || b.contains_key(k),
        |k: Seq<char>|
            if a.contains_key(k) && b.contains_key(k) {
                ternary_average(a[k], b[k])
            } else if a.contains_key(k) {
                a[k]
            } else {
                b[k]
            },
    )
}

/// The signals that both dialects have.
pub open spec fn shared_of(a: Map<Seq<char>, Ternary>, b: Map<Seq<char>, Ternary>) -> Set<
    Seq<char>,
> {
    a.dom().filter(|k: Seq<char>| b.contains_key(k))
}

/// The signals that both dialects have with different values.
pub open spec fn disagreeing_of(a: Map<Seq<char>, Ternary>, b: Map<Seq<char>, Ternary>) -> Set<
    Seq<char>,
> {
    a.dom().filter(|k: Seq<char>| b.contains_key(k) && b[k] != a[k])
}

/// Whether a signal of one dialect has a different value in dialect `b`.
pub open spec fn differs_in(b: Map<Seq<char>, Ternary>) -> spec_fn(Seq<char>, Ternary) -> bool {
    |k: Seq<char>, v: Ternary| b.contains_key(k) && b[k] != v
}

/// Two dialects, A and B, and the creole last merged from them.
#[derive(Debug, Clone)]
pub struct Creolization {
    dialect_a: Vec<(String, Ternary)>,
    dialect_b: Vec<(String, Ternary)>,
    creole: Vec<(String, Ternary)>,
}

impl Creolization {
    /// The two dialects and the creole each hold finitely many signals, and the
    /// representation is sound.
    pub open spec fn wf(&self) -> bool {
        &&& self.inv()
        &&& self.dialect_a().dom().finite()
        &&& self.dialect_b().dom().finite()
        &&& self.creole().dom().finite()
    }

    /// No name occurs twice in any of the three lists.
    pub closed spec fn inv(&self) -> bool {
        &&& keys_distinct(self.dialect_a@)
        &&& keys_distinct(self.dialect_b@)
        &&& keys_distinct(self.creole@)
    }

    /// Dialect A, as a map from signal names to values.
    pub closed spec fn dialect_a(&self) -> Map<Seq<char>, Ternary> {
        map_of(self.dialect_a@)
    }

    /// Dialect B, as a map from signal names to values.
    pub closed spec fn dialect_b(&self) -> Map<Seq<char>, Ternary> {
        map_of(self.dialect_b@)
    }

    /// The creole, as a map from signal names to values.
    pub closed spec fn creole(&self) -> Map<Seq<char>, Ternary> {
        map_of(self.creole@)
    }

    /// Two empty dialects and an empty creole.
    pub fn new() -> (r: Self)
        ensures
            r.wf(),
            r.dialect_a() == Map::<Seq<char>, Ternary>::empty(),
            r.dialect_b() == Map::<Seq<char>, Ternary>::empty(),
            r.creole() == Map::<Seq<char>, Ternary>::empty(),
    {
        Creolization { dialect_a: Vec::new(), dialect_b: Vec::new(), creole: Vec::new() }
    }

    /// Adds (or replaces) a signal of dialect A.
    pub fn add_a(&mut self, name: &str, value: Ternary)
        requires
            old(self).wf(),
        ensures
            final(self).wf(),
            final(self).dialect_a() == old(self).dialect_a().insert(name@, value),
            final(self).dialect_b() == old(self).dialect_b(),
            final(self).creole() == old(self).creole(),
    {
        assoc_insert(&mut self.dialect_a, name.to_string(), value);
    }

    /// Adds (or replaces) a signal of dialect B.
    pub fn add_b(&mut self, name: &str, value: Ternary)
        requires
            old(self).wf(),
        ensures
            final(self).wf(),
            final(self).dialect_b() == old(self).dialect_b().insert(name@, value),
            final(self).dialect_a() == old(self).dialect_a(),
            final(self).creole() == old(self).creole(),
    {
        assoc_insert(&mut self.dialect_b, name.to_string(), value);
    }

    /// Merges the two dialects: the creole becomes exactly the merge of A and B,
    /// whatever it held before.
    pub fn merge(&mut self)
        requires
            old(self).wf(),
        ensures
            final(self).wf(),
            final(self).creole() == creole_of(old(self).dialect_a(), old(self).dialect_b()),
            final(self).dialect_a() == old(self).dialect_a(),
            final(self).dialect_b() == old(self).dialect_b(),
    {
        let ghost ma = map_of(self.dialect_a@);
        let ghost mb = map_of(self.dialect_b@);
        let ghost target = creole_of(ma, mb);
        proof {
            lemma_map_of(self.dialect_a@);
            lemma_map_of(self.dialect_b@);
        }
        let mut creole: Vec<(String, Ternary)> = Vec::new();
        let na = self.dialect_a.len();
        let mut i: usize = 0;
        while i < na
            invariant
                self.wf(),
                na == self.dialect_a@.len(),
                i <= na,
                ma == map_of(self.dialect_a@),
                mb == map_of(self.dialect_b@),
                target == creole_of(ma, mb),
                keys_distinct(creole@),
                forall|k: Seq<char>|
                    #[trigger] map_of(creole@).contains_key(k) <==> exists|j: int|
                        0 <= j < i && self.dialect_a@[j].0@ == k,
                forall|j: int|
                    #![trigger self.dialect_a@[j]]
                    0 <= j < i ==> map_of(creole@)[self.dialect_a@[j].0@]
                        == target[self.dialect_a@[j].0@],
                forall|j: int|
                    #![trigger self.dialect_a@[j]]
                    0 <= j < na ==> ma.contains_key(self.dialect_a@[j].0@) && ma[self.dialect_a@[j].0@]
                        == self.dialect_a@[j].1,
            decreases na - i,
        {
            let name = &self.dialect_a[i].0;
            let val_a = self.dialect_a[i].1;
            let ghost k = name@;
            let value = match assoc_get(&self.dialect_b, name) {
                Some(val_b) => {
                    let avg = (val_a.to_i8() as i32 + val_b.to_i8() as i32) / 2;
                    let rounded = Ternary::from_i8(avg as i8).unwrap_or(Ternary::Zero);
                    assert(rounded == ternary_average(val_a, *val_b));
                    rounded
                },
                None => val_a,
            };
            assert(value == target[k]);
            let ghost before = creole@;
            assoc_insert(&mut creole, name.clone(), value);
            assert forall|kk: Seq<char>|
                #[trigger] map_of(creole@).contains_key(kk) <==> exists|j: int|
                    0 <= j < i + 1 && self.dialect_a@[j].0@ == kk by {
                if kk == k {
                    assert(self.dialect_a@[i as int].0@ == kk);
                } else if map_of(before).contains_key(kk) {
                    let j = choose|j: int| 0 <= j < i && self.dialect_a@[j].0@ == kk;
                    assert(0 <= j < i + 1 && self.dialect_a@[j].0@ == kk);
                } else if exists|j: int| 0 <= j < i + 1 && self.dialect_a@[j].0@ == kk {
                    let j = choose|j: int| 0 <= j < i + 1 && self.dialect_a@[j].0@ == kk;
                    assert(j != i);
                }
            }
            i = i + 1;
        }
        let nb = self.dialect_b.len();
        let mut i: usize = 0;
        while i < nb
            invariant
                self.wf(),
                nb == self.dialect_b@.len(),
                i <= nb,
                ma == map_of(self.dialect_a@),
                mb == map_of(self.dialect_b@),
                target == creole_of(ma, mb),
                keys_distinct(creole@),
                forall|k: Seq<char>|
                    #[trigger] map_of(creole@).contains_key(k) <==> ma.contains_key(k) || exists|
                        j: int,
                    | 0 <= j < i && self.dialect_b@[j].0@ == k,
                forall|k: Seq<char>|
                    #[trigger] map_of(creole@).contains_key(k) ==> map_of(creole@)[k] == target[k],
                forall|j: int|
                    #![trigger self.dialect_b@[j]]
                    0 <= j < nb ==> mb.contains_key(self.dialect_b@[j].0@) && mb[self.dialect_b@[j].0@]
                        == self.dialect_b@[j].1,
            decreases nb - i,
        {
            let name = &self.dialect_b[i].0;
            let val_b = self.dialect_b[i].1;
            let ghost k = name@;
            let ghost before = creole@;
            if !assoc_contains(&self.dialect_a, name) {
                assert(target[k] == val_b);
                assoc_insert(&mut creole, name.clone(), val_b);
            }
            assert forall|kk: Seq<char>|
                #[trigger] map_of(creole@).contains_key(kk) <==> ma.contains_key(kk) || exists|
                    j: int,
                | 0 <= j < i + 1 && self.dialect_b@[j].0@ == kk by {
                if kk == k {
                    assert(self.dialect_b@[i as int].0@ == kk);
                } else if exists|j: int| 0 <= j < i + 1 && self.dialect_b@[j].0@ == kk {
                    let j = choose|j: int| 0 <= j < i + 1 && self.dialect_b@[j].0@ == kk;
                    assert(j != i);
                    assert(0 <= j < i && self.dialect_b@[j].0@ == kk);
                }
            }
            i = i + 1;
        }
        proof {
            assert forall|k: Seq<char>| #[trigger] target.contains_key(k) implies map_of(
                creole@,
            ).contains_key(k) by {
                if !ma.contains_key(k) {
                    let j = choose|j: int|
                        0 <= j < self.dialect_b@.len() && self.dialect_b@[j].0@ == k;
                    assert(self.dialect_b@[j] == self.dialect_b@[j]);
                }
            }
            assert(map_of(creole@) =~= target);
            assert(target.dom() =~= ma.dom().union(mb.dom()));
        }
        self.creole = creole;
    }

    /// The value of a signal in the creole.
    pub fn get(&self, name: &str) -> (r: Option<Ternary>)
        requires
            self.wf(),
        ensures
            r == (if self.creole().contains_key(name@) {
                Some(self.creole()[name@])
            } else {
                None::<Ternary>
            }),
    {
        match assoc_get(&self.creole, &name.to_string()) {
            Some(v) => Some(*v),
            None => None,
        }
    }

    /// The number of signals in the creole.
    pub fn creole_size(&self) -> (r: usize)
        requires
            self.wf(),
        ensures
            r == self.creole().len(),
    {
        proof {
            lemma_map_of(self.creole@);
        }
        self.creole.len()
    }

    /// The names of the signals that both dialects have, each once.
    pub fn shared_signals(&self) -> (r: Vec<&str>)
        requires
            self.wf(),
        ensures
            str_views(r@).no_duplicates(),
            str_views(r@).to_set() == shared_of(self.dialect_a(), self.dialect_b()),
    {
        let ghost ma = map_of(self.dialect_a@);
        let ghost mb = map_of(self.dialect_b@);
        proof {
            lemma_map_of(self.dialect_a@);
        }
        let mut r: Vec<&str> = Vec::new();
        let na = self.dialect_a.len();
        let mut i: usize = 0;
        while i < na
            invariant
                self.wf(),
                na == self.dialect_a@.len(),
                i <= na,
                ma == map_of(self.dialect_a@),
                mb == map_of(self.dialect_b@),
                str_views(r@).no_duplicates(),
                forall|k: Seq<char>|
                    #[trigger] str_views(r@).contains(k) <==> exists|j: int|
                        0 <= j < i && self.dialect_a@[j].0@ == k && mb.contains_key(k),
            decreases na - i,
        {
            let name = &self.dialect_a[i].0;
            let ghost k = name@;
            let ghost before = str_views(r@);
            if assoc_contains(&self.dialect_b, name) {
                r.push(name.as_str());
                assert(str_views(r@) =~= before.push(k));
                assert(!before.contains(k)) by {
                    if before.contains(k) {
                        let j = choose|j: int|
                            0 <= j < i && self.dialect_a@[j].0@ == k && mb.contains_key(k);
                        assert(self.dialect_a@[j].0@ != self.dialect_a@[i as int].0@);
                    }
                }
            }
            let ghost after = str_views(r@);
            assert forall|kk: Seq<char>|
                #[trigger] after.contains(kk) <==> exists|j: int|
                    0 <= j < i + 1 && self.dialect_a@[j].0@ == kk && mb.contains_key(kk) by {
                if kk == k {
                    assert(self.dialect_a@[i as int].0@ == kk);
                    if mb.contains_key(kk) {
                        assert(after[after.len() - 1] == kk);
                    } else {
                        assert(after == before);
                        assert(!before.contains(kk));
                    }
                } else if exists|j: int|
                    0 <= j < i + 1 && self.dialect_a@[j].0@ == kk && mb.contains_key(kk) {
                    let j = choose|j: int|
                        0 <= j < i + 1 && self.dialect_a@[j].0@ == kk && mb.contains_key(kk);
                    assert(j != i);
                    assert(before.contains(kk));
                    let m = choose|m: int| 0 <= m < before.len() && before[m] == kk;
                    assert(after[m] == kk);
                } else if after.contains(kk) {
                    let m = choose|m: int| 0 <= m < after.len() && after[m] == kk;
                    assert(m < before.len());
                    assert(before[m] == kk);
                    assert(before.contains(kk));
                }
            }
            i = i + 1;
        }
        let ghost out = str_views(r@);
        assert forall|k: Seq<char>| #[trigger] out.to_set().contains(k) <==> shared_of(
            ma,
            mb,
        ).contains(k) by {
            if ma.contains_key(k) && mb.contains_key(k) {
                let j = choose|j: int| 0 <= j < self.dialect_a@.len() && self.dialect_a@[j].0@ == k;
            }
        }
        assert(out.to_set() =~= shared_of(ma, mb));
        r
    }

    /// The number of signals that both dialects have with different values.
    pub fn disagreement_count(&self) -> (r: usize)
        requires
            self.wf(),
        ensures
            r == disagreeing_of(self.dialect_a(), self.dialect_b()).len(),
    {
        let ghost ma = map_of(self.dialect_a@);
        let ghost mb = map_of(self.dialect_b@);
        let ghost p = differs_in(mb);
        let mut count: usize = 0;
        let na = self.dialect_a.len();
        let mut i: usize = 0;
        while i < na
            invariant
                self.wf(),
                na == self.dialect_a@.len(),
                i <= na,
                mb == map_of(self.dialect_b@),
                p == differs_in(mb),
                count == count_where(self.dialect_a@.take(i as int), p),
                count <= i,
            decreases na - i,
        {
            let name = &self.dialect_a[i].0;
            let val_a = self.dialect_a[i].1;
            assert(self.dialect_a@.take(i + 1).drop_last() =~= self.dialect_a@.take(i as int));
            assert(self.dialect_a@.take(i + 1).last() == self.dialect_a@[i as int]);
            let ghost before = count;
            match assoc_get(&self.dialect_b, name) {
                Some(val_b) => {
                    if *val_b != val_a {
                        count = count + 1;
                    }
                },
                None => {},
            }
            assert(count == before + if p(name@, val_a) {
                1nat
            } else {
                0nat
            });
            i = i + 1;
        }
        proof {
            assert(self.dialect_a@.take(na as int) =~= self.dialect_a@);
            lemma_count_where(self.dialect_a@, p);
            assert(keys_where(ma, p) =~= disagreeing_of(ma, mb));
        }
        count
    }
}

impl Default for Creolization {
    fn default() -> (r: Self)
        ensures
            r.wf(),
            r.dialect_a() == Map::<Seq<char>, Ternary>::empty(),
            r.dialect_b() == Map::<Seq<char>, Ternary>::empty(),
            r.creole() == Map::<Seq<char>, Ternary>::empty(),
    {
        Self::new()
    }
}

} // verus!
