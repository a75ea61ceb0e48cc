//! How the value of a signal changes with the distance it travels.
use vstd::prelude::*;

use crate::assoc::{
    assoc_find, assoc_get, keys_distinct, lemma_map_of, lemma_map_of_push, lemma_map_of_update,
    map_of,
};
use crate::ternary::{ternary_value, Ternary};

verus! {

/// `i` is the first position of `s` recorded at distance `d`.
pub open spec fn is_first_at(s: Seq<(u32, Ternary)>, d: u32, i: int) -> bool {
    &&& 0 <= i < s.len()
    &&& s[i].0 == d
    &&& forall|j: int| 0 <= j < i ==> #[trigger] s[j].0 != d
}

/// The value first recorded at distance `d`, if any value was.
pub open spec fn value_at_distance(s: Seq<(u32, Ternary)>, d: u32) -> Option<Ternary> {
    if exists|i: int| 0 <= i < s.len() && #[trigger] s[i].0 == d {
        Some(s[choose|i: int| is_first_at(s, d, i)].1)
    } else {
        None
    }
}

/// `i` is the last position of `s` among those at the greatest distance.
pub open spec fn is_last_farthest(s: Seq<(u32, Ternary)>, i: int) -> bool {
    &&& 0 <= i < s.len()
    &&& forall|j: int| 0 <= j < s.len() ==> #[trigger] s[j].0 <= s[i].0
    &&& forall|j: int| i < j < s.len() ==> #[trigger] s[j].0 < s[i].0
}

/// How far a history has drifted: the value at the greatest distance (the last
/// one recorded there) less the value first recorded at distance 0 (0 if none was).
pub open spec fn drift_of(s: Seq<(u32, Ternary)>) -> int {
    if s.len() == 0 {
        0
    } else {
        let base = match value_at_distance(s, 0) {
            Some(v) => ternary_value(v),
            None => 0,
        };
        ternary_value(s[choose|i: int| is_last_farthest(s, i)].1) - base
    }
}

/// There is only one first position at a distance.
pub proof fn lemma_first_at_unique(s: Seq<(u32, Ternary)>, d: u32, i: int, j: int)
    requires
        is_first_at(s, d, i),
        is_first_at(s, d, j),
    ensures
        i == j,
{
    if i < j {
        assert(s[i].0 != d);
    } else if j < i {
        assert(s[j].0 != d);
    }
}

/// There is only one last position at the greatest distance.
pub proof fn lemma_last_farthest_unique(s: Seq<(u32, Ternary)>, i: int, j: int)
    requires
        is_last_farthest(s, i),
        is_last_farthest(s, j),
    ensures
        i == j,
{
    assert(s[i].0 <= s[j].0 && s[j].0 <= s[i].0);
}

/// For each signal, the values recorded for it with their distances, in the
/// order they were recorded.
#[derive(Debug, Clone)]
pub struct SignalDrift {
    drift_map: Vec<(String, Vec<(u32, Ternary)>)>,
}

impl View for SignalDrift {
    type V = Map<Seq<char>, Seq<(u32, Ternary)>>;

    closed spec fn view(&self) -> Map<Seq<char>, Seq<(u32, Ternary)>> {
        map_of(self.drift_map@).map_values(|h: Vec<(u32, Ternary)>| h@)
    }
}

impl SignalDrift {
    /// Finitely many signals, each with at least one recorded value; and the
    /// representation is sound.
    pub open spec fn wf(&self) -> bool {
        &&& self.inv()
        &&& self@.dom().finite()
        &&& forall|k: Seq<char>| #[trigger] self@.contains_key(k) ==> self@[k].len() > 0
    }

    /// No signal occurs twice, and every history holds a value.
    pub closed spec fn inv(&self) -> bool {
        &&& keys_distinct(self.drift_map@)
        &&& forall|i: int| 0 <= i < self.drift_map@.len() ==> #[trigger] self.drift_map@[i].1@.len() > 0
    }

    /// What the representation says of the view.
    proof fn lemma_view_facts(&self)
        requires
            self.inv(),
        ensures
            self@.dom().finite(),
            forall|k: Seq<char>| #[trigger] self@.contains_key(k) ==> self@[k].len() > 0,
    {
        lemma_map_of(self.drift_map@);
        assert(self@.dom() =~= map_of(self.drift_map@).dom());
        assert forall|k: Seq<char>| #[trigger] self@.contains_key(k) implies self@[k].len() > 0 by {
            let i = choose|i: int| 0 <= i < self.drift_map@.len() && self.drift_map@[i].0@ == k;
            assert(self.drift_map@[i] == self.drift_map@[i]);
        }
    }

    /// Tracks no signal.
    pub fn new() -> (r: Self)
        ensures
            r.wf(),
            r@ == Map::<Seq<char>, Seq<(u32, Ternary)>>::empty(),
    {
        let r = SignalDrift { drift_map: Vec::new() };
        assert(r@ =~= Map::<Seq<char>, Seq<(u32, Ternary)>>::empty());
        proof {
            r.lemma_view_facts();
        }
        r
    }

    /// Appends `(distance, value)` to the history of `signal`.
    pub fn record(&mut self, signal: &str, distance: u32, value: Ternary)
        requires
            old(self).wf(),
        ensures
            final(self).wf(),
            final(self)@ == old(self)@.insert(
                signal@,
                if old(self)@.contains_key(signal@) {
                    old(self)@[signal@]
                } else {
                    Seq::<(u32, Ternary)>::empty()
                }.push((distance, value)),
            ),
            final(self)@.len() == old(self)@.len() + if old(self)@.contains_key(signal@) {
                0int
            } else {
                1int
            },
    {
        let key = signal.to_string();
        let ghost old_entries = self.drift_map@;
        proof {
            lemma_map_of(old_entries);
        }
        match assoc_find(&self.drift_map, &key) {
            Some(i) => {
                let ghost old_hist = self.drift_map@[i as int].1;
                self.drift_map[i].1.push((distance, value));
                proof {
                    let e = self.drift_map@[i as int];
                    assert(self.drift_map@ =~= old_entries.update(i as int, e));
                    lemma_map_of_update(old_entries, i as int, e);
                    assert(old_entries[i as int] == old_entries[i as int]);
                    assert(self@ =~= old(self)@.insert(signal@, old(self)@[signal@].push((distance, value))));
                    assert forall|j: int| 0 <= j < self.drift_map@.len() implies #[trigger] self.drift_map@[j].1@.len() > 0 by {
                        if j != i {
                            assert(self.drift_map@[j] == old_entries[j]);
                        }
                    }
                    self.lemma_view_facts();
                }
            },
            None => {
                let mut hist: Vec<(u32, Ternary)> = Vec::new();
                hist.push((distance, value));
                let e = (key, hist);
                proof {
                    lemma_map_of_push(old_entries, e);
                }
                self.drift_map.push(e);
                proof {
                    assert forall|a: int, b: int|
                        0 <= a < self.drift_map@.len() && 0 <= b < self.drift_map@.len() && a != b implies #[trigger] self.drift_map@[a].0@
                        != #[trigger] self.drift_map@[b].0@ by {
                        if a < old_entries.len() {
                            assert(self.drift_map@[a] == old_entries[a]);
                        }
                        if b < old_entries.len() {
                            assert(self.drift_map@[b] == old_entries[b]);
                        }
                    }
                    assert(!old(self)@.contains_key(signal@));
                    assert(hist@ =~= Seq::<(u32, Ternary)>::empty().push((distance, value)));
                    assert(self@ =~= old(self)@.insert(signal@, Seq::<(u32, Ternary)>::empty().push((distance, value))));
                    assert forall|j: int| 0 <= j < self.drift_map@.len() implies #[trigger] self.drift_map@[j].1@.len() > 0 by {
                        if j < old_entries.len() {
                            assert(self.drift_map@[j] == old_entries[j]);
                        }
                    }
                    self.lemma_view_facts();
                }
            },
        }
    }

    /// The value first recorded for `signal` at exactly `distance`.
    pub fn value_at(&self, signal: &str, distance: u32) -> (r: Option<Ternary>)
        requires
            self.wf(),
        ensures
            r == (if self@.contains_key(signal@) {
                value_at_distance(self@[signal@], distance)
            } else {
                None::<Ternary>
            }),
    {
        match assoc_get(&self.drift_map, &signal.to_string()) {
            Some(entries) => {
                assert(self@.contains_key(signal@) && self@[signal@] == entries@);
                let n = entries.len();
                let mut i: usize = 0;
                while i < n
                    invariant
                        n == entries@.len(),
                        i <= n,
                        self@.contains_key(signal@) && self@[signal@] == entries@,
                        forall|j: int| 0 <= j < i ==> #[trigger] entries@[j].0 != distance,
                    decreases n - i,
                {
                    if entries[i].0 == distance {
                        proof {
                            let s = entries@;
                            assert(is_first_at(s, distance, i as int));
                            assert(s[i as int].0 == distance);
                            let c = choose|c: int| is_first_at(s, distance, c);
                            lemma_first_at_unique(s, distance, i as int, c);
                        }
                        return Some(entries[i].1);
                    }
                    i = i + 1;
                }
                None
            },
            None => None,
        }
    }

    /// How much `signal` has drifted between distance 0 and its farthest distance;
    /// 0 for a signal with no history.
    pub fn total_drift(&self, signal: &str) -> (r: i32)
        requires
            self.wf(),
        ensures
            r == (if self@.contains_key(signal@) {
                drift_of(self@[signal@])
            } else {
                0
            }),
    {
        match assoc_get(&self.drift_map, &signal.to_string()) {
            Some(entries) => {
                let n = entries.len();
                if n == 0 {
                    return 0;
                }
                let ghost s = entries@;
                // the value first recorded at distance 0
                let mut base: i8 = 0;
                let mut i: usize = 0;
                while i < n
                    invariant_except_break
                        base == 0,
                    invariant
                        n == s.len(),
                        s == entries@,
                        i <= n,
                        forall|j: int| 0 <= j < i ==> #[trigger] s[j].0 != 0,
                    ensures
                        i < n ==> is_first_at(s, 0, i as int) && base == ternary_value(s[i as int].1),
                        i == n ==> base == 0,
                    decreases n - i,
                {
                    if entries[i].0 == 0 {
                        base = entries[i].1.to_i8();
                        break;
                    }
                    i = i + 1;
                }
                proof {
                    if i < n {
                        let c = choose|c: int| is_first_at(s, 0, c);
                        lemma_first_at_unique(s, 0, i as int, c);
                    }
                }
                assert(base == match value_at_distance(s, 0) {
                    Some(v) => ternary_value(v),
                    None => 0,
                });
                // the last of the values at the greatest distance
                let mut far: usize = 0;
                let mut k: usize = 1;
                while k < n
                    invariant
                        n == s.len(),
                        s == entries@,
                        1 <= k <= n,
                        far < k,
                        forall|j: int| 0 <= j < k ==> #[trigger] s[j].0 <= s[far as int].0,
                        forall|j: int| far < j < k ==> #[trigger] s[j].0 < s[far as int].0,
                    decreases n - k,
                {
                    if entries[k].0 >= entries[far].0 {
                        far = k;
                    }
                    k = k + 1;
                }
                proof {
                    assert(is_last_farthest(s, far as int));
                    let c = choose|c: int| is_last_farthest(s, c);
                    lemma_last_farthest_unique(s, far as int, c);
                }
                let farthest = entries[far].1.to_i8();
                (farthest - base) as i32
            },
            None => 0,
        }
    }

    /// The number of signals tracked.
    pub fn signal_count(&self) -> (r: usize)
        requires
            self.wf(),
        ensures
            r == self@.len(),
    {
        proof {
            lemma_map_of(self.drift_map@);
            assert(self@.dom() =~= map_of(self.drift_map@).dom());
        }
        self.drift_map.len()
    }
}

impl Default for SignalDrift {
    fn default() -> (r: Self)
        ensures
            r.wf(),
            r@ == Map::<Seq<char>, Seq<(u32, Ternary)>>::empty(),
    {
        Self::new()
    }
}

} // verus!
