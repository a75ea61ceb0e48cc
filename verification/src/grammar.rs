//! Grammars of signal-combination rules, and their competition.
//!
//! A grammar's fitness is held as an order key: a `u64` whose order is the
//! order of the fitness values it stands for, so that ranking grammars needs
//! no arithmetic on fractions. The key of a non-negative fitness is its IEEE-754
//! bit pattern with the top bit set; the key of a negative one is its bit pattern
//! with every bit flipped.
use vstd::prelude::*;

use crate::ternary::Ternary;

verus! {

/// The order key of the fitness 0.5, the fitness of a new grammar.
pub const DEFAULT_FITNESS: u64 = 0xBFE0_0000_0000_0000u64;

/// A rule: a sequence of ternary inputs and the output it produces.
#[derive(Debug, Clone)]
pub struct GrammarRule {
    pub inputs: Vec<Ternary>,
    pub output: Ternary,
    pub description: String,
}

/// `i` is the first rule of `rules` whose inputs are exactly `inputs`.
pub open spec fn is_first_match(rules: Seq<GrammarRule>, inputs: Seq<Ternary>, i: int) -> bool {
    &&& 0 <= i < rules.len()
    &&& rules[i].inputs@ == inputs
    &&& forall|j: int| 0 <= j < i ==> #[trigger] rules[j].inputs@ != inputs
}

/// The output of the first rule whose inputs are exactly `inputs`, if any rule's are.
pub open spec fn apply_rules(rules: Seq<GrammarRule>, inputs: Seq<Ternary>) -> Option<Ternary> {
    if exists|i: int| 0 <= i < rules.len() && #[trigger] rules[i].inputs@ == inputs {
        Some(rules[choose|i: int| is_first_match(rules, inputs, i)].output)
    } else {
        None
    }
}

/// There is only one first matching rule.
pub proof fn lemma_first_match_unique(rules: Seq<GrammarRule>, inputs: Seq<Ternary>, i: int, j: int)
    requires
        is_first_match(rules, inputs, i),
        is_first_match(rules, inputs, j),
    ensures
        i == j,
{
    if i < j {
        assert(rules[i].inputs@ != inputs);
    } else if j < i {
        assert(rules[j].inputs@ != inputs);
    }
}

/// A named set of rules with a fitness.
#[derive(Debug, Clone)]
pub struct Grammar {
    pub name: String,
    rules: Vec<GrammarRule>,
    fitness: u64,
}

impl Grammar {
    /// The name.
    pub closed spec fn name_view(&self) -> Seq<char> {
        self.name@
    }

    /// The rules, in the order they were added.
    pub closed spec fn rule_list(&self) -> Seq<GrammarRule> {
        self.rules@
    }

    /// The fitness, as an order key.
    pub closed spec fn fitness_key(&self) -> u64 {
        self.fitness
    }

    /// A grammar with no rules and fitness 0.5.
    pub fn new(name: &str) -> (r: Self)
        ensures
            r.name_view() == name@,
            r.rule_list() == Seq::<GrammarRule>::empty(),
            r.fitness_key() == DEFAULT_FITNESS,
    {
        Grammar { name: name.to_string(), rules: Vec::new(), fitness: DEFAULT_FITNESS }
    }

    /// The name.
    pub fn name(&self) -> (r: &str)
        ensures
            r@ == self.name_view(),
    {
        self.name.as_str()
    }

    /// Adds a rule after the existing ones.
    pub fn add_rule(&mut self, inputs: Vec<Ternary>, output: Ternary, description: &str)
        ensures
            final(self).name_view() == old(self).name_view(),
            final(self).fitness_key() == old(self).fitness_key(),
            final(self).rule_list().len() == old(self).rule_list().len() + 1,
            final(self).rule_list().drop_last() == old(self).rule_list(),
            final(self).rule_list().last().inputs@ == inputs@,
            final(self).rule_list().last().output == output,
            final(self).rule_list().last().description@ == description@,
    {
        let ghost before = self.rules@;
        self.rules.push(GrammarRule { inputs, output, description: description.to_string() });
        assert(self.rules@.drop_last() =~= before);
    }

    /// The output of the first rule whose inputs are exactly `inputs`, or `None`.
    pub fn apply(&self, inputs: &[Ternary]) -> (r: Option<Ternary>)
        ensures
            r == apply_rules(self.rule_list(), inputs@),
    {
        let n = self.rules.len();
        let mut i: usize = 0;
        while i < n
            invariant
                n == self.rules@.len(),
                i <= n,
                forall|j: int| 0 <= j < i ==> #[trigger] self.rules@[j].inputs@ != inputs@,
            decreases n - i,
        {
            let rule = &self.rules[i];
            if same_inputs(&rule.inputs, inputs) {
                proof {
                    let s = self.rules@;
                    assert(s[i as int].inputs@ == inputs@);
                    assert(is_first_match(s, inputs@, i as int));
                    let c = choose|c: int| is_first_match(s, inputs@, c);
                    lemma_first_match_unique(s, inputs@, i as int, c);
                }
                return Some(rule.output);
            }
            i = i + 1;
        }
        None
    }

    /// The number of rules.
    pub fn rule_count(&self) -> (r: usize)
        ensures
            r == self.rule_list().len(),
    {
        self.rules.len()
    }

    /// The fitness, as an order key.
    pub fn fitness(&self) -> (r: u64)
        ensures
            r == self.fitness_key(),
    {
        self.fitness
    }

    /// Sets the fitness, given as an order key.
    pub fn set_fitness(&mut self, f: u64)
        ensures
            final(self).fitness_key() == f,
            final(self).name_view() == old(self).name_view(),
            final(self).rule_list() == old(self).rule_list(),
    {
        self.fitness = f;
    }
}

/// Whether two sequences of ternary values are the same.
fn same_inputs(a: &Vec<Ternary>, b: &[Ternary]) -> (r: bool)
    ensures
        r == (a@ == b@),
{
    if a.len() != b.len() {
        return false;
    }
    let n = a.len();
    let mut i: usize = 0;
    while i < n
        invariant
            n == a@.len(),
            n == b@.len(),
            i <= n,
            forall|j: int| 0 <= j < i ==> a@[j] == b@[j],
        decreases n - i,
    {
        if a[i] != b[i] {
            return false;
        }
        i = i + 1;
    }
    assert(a@ =~= b@);
    true
}

} // verus!

verus! {

/// Some position of `perm` holds `j`.
pub open spec fn hits(perm: Seq<int>, j: int) -> bool {
    exists|k: int| 0 <= k < perm.len() && #[trigger] perm[k] == j
}

/// `new` is `old` rearranged by `perm` (`new[k]` is `old[perm[k]]`), in order of
/// decreasing fitness, grammars of equal fitness keeping their order.
pub open spec fn is_stable_ranking(old: Seq<Grammar>, new: Seq<Grammar>, perm: Seq<int>) -> bool {
    &&& new.len() == old.len()
    &&& perm.len() == old.len()
    &&& forall|k: int| 0 <= k < perm.len() ==> 0 <= #[trigger] perm[k] < old.len()
    &&& forall|a: int, b: int|
        0 <= a < perm.len() && 0 <= b < perm.len() && a != b ==> #[trigger] perm[a]
            != #[trigger] perm[b]
    &&& forall|j: int| 0 <= j < old.len() ==> #[trigger] hits(perm, j)
    &&& forall|k: int| 0 <= k < new.len() ==> #[trigger] new[k] == old[perm[k]]
    &&& forall|a: int, b: int|
        0 <= a < b < new.len() ==> #[trigger] new[a].fitness_key() >= #[trigger] new[b].fitness_key()
    &&& forall|a: int, b: int|
        0 <= a < b < new.len() && new[a].fitness_key() == new[b].fitness_key() ==> #[trigger] perm[a]
            < #[trigger] perm[b]
}

/// `new` is the grammars of `old` from the fittest down, ties in their old order.
pub open spec fn ranked_by_fitness(old: Seq<Grammar>, new: Seq<Grammar>) -> bool {
    exists|perm: Seq<int>| is_stable_ranking(old, new, perm)
}

/// Sorts the grammars by decreasing fitness, keeping the order of equally fit ones.
fn rank_by_fitness(v: &mut Vec<Grammar>)
    ensures
        ranked_by_fitness(old(v)@, final(v)@),
{
    let ghost orig = v@;
    let n = v.len();
    let ghost mut perm: Seq<int> = Seq::new(n as nat, |k: int| k);
    assert forall|j: int| 0 <= j < n implies #[trigger] hits(perm, j) by {
        assert(perm[j] == j);
    }
    let mut i: usize = 0;
    while i < n
        invariant
            n == orig.len(),
            n == v@.len(),
            i <= n,
            perm.len() == n,
            forall|k: int| 0 <= k < n ==> 0 <= #[trigger] perm[k] < n,
            forall|a: int, b: int|
                0 <= a < n && 0 <= b < n && a != b ==> #[trigger] perm[a] != #[trigger] perm[b],
            forall|j: int| 0 <= j < n ==> #[trigger] hits(perm, j),
            forall|k: int| 0 <= k < n ==> #[trigger] v@[k] == orig[perm[k]],
            forall|k: int| i <= k < n ==> #[trigger] perm[k] == k,
            forall|k: int| 0 <= k < i ==> #[trigger] perm[k] < i,
            forall|a: int, b: int|
                0 <= a < b < i ==> #[trigger] v@[a].fitness_key() >= #[trigger] v@[b].fitness_key(),
            forall|a: int, b: int|
                0 <= a < b < i && v@[a].fitness_key() == v@[b].fitness_key() ==> #[trigger] perm[a]
                    < #[trigger] perm[b],
        decreases n - i,
    {
        let ghost v0 = v@;
        let ghost perm0 = perm;
        let g = v.remove(i);
        let kg = g.fitness;
        // the first position of the ranked prefix that is less fit than `g`
        let mut p: usize = 0;
        while p < i && v[p].fitness >= kg
            invariant
                i < n,
                v0.len() == n,
                p <= i,
                v@ == v0.remove(i as int),
                kg == v0[i as int].fitness_key(),
                forall|k: int| 0 <= k < p ==> #[trigger] v0[k].fitness_key() >= kg,
            decreases i - p,
        {
            assert(v@[p as int] == v0[p as int]);
            p = p + 1;
        }
        proof {
            if p < i {
                assert(v@[p as int] == v0[p as int]);
            }
            assert forall|k: int| p <= k < i implies #[trigger] v0[k].fitness_key() < kg by {
                assert(v0[p as int].fitness_key() < kg);
                if k > p {
                    assert(v0[p as int].fitness_key() >= v0[k].fitness_key());
                }
            }
        }
        v.insert(p, g);
        proof {
            let src = |k: int|
                if k < p {
                    k
                } else if k == p {
                    i as int
                } else if k <= i {
                    k - 1
                } else {
                    k
                };
            let perm2 = perm0.remove(i as int).insert(p as int, i as int);
            assert forall|k: int| 0 <= k < n implies #[trigger] v@[k] == v0[src(k)] && perm2[k]
                == perm0[src(k)] by {}
            assert forall|k: int| 0 <= k < n implies 0 <= #[trigger] perm2[k] < n by {
                assert(perm2[k] == perm0[src(k)]);
            }
            assert forall|a: int, b: int|
                0 <= a < n && 0 <= b < n && a != b implies #[trigger] perm2[a]
                != #[trigger] perm2[b] by {
                assert(perm2[a] == perm0[src(a)] && perm2[b] == perm0[src(b)]);
            }
            assert forall|j: int| 0 <= j < n implies #[trigger] hits(perm2, j) by {
                assert(hits(perm0, j));
                let k0 = choose|k: int| 0 <= k < n && #[trigger] perm0[k] == j;
                let k = if k0 < p {
                    k0
                } else if k0 == i {
                    p as int
                } else if k0 < i {
                    k0 + 1
                } else {
                    k0
                };
                assert(src(k) == k0);
                assert(perm2[k] == perm0[src(k)]);
            }
            assert forall|k: int| 0 <= k < n implies #[trigger] v@[k] == orig[perm2[k]] by {
                assert(v@[k] == v0[src(k)] && perm2[k] == perm0[src(k)]);
            }
            assert forall|k: int| i + 1 <= k < n implies #[trigger] perm2[k] == k by {
                assert(perm2[k] == perm0[src(k)]);
            }
            assert forall|k: int| 0 <= k < i + 1 implies #[trigger] perm2[k] < i + 1 by {
                assert(perm2[k] == perm0[src(k)]);
            }
            assert forall|a: int, b: int| 0 <= a < b < i + 1 implies #[trigger] v@[a].fitness_key()
                >= #[trigger] v@[b].fitness_key() by {
                assert(v@[a] == v0[src(a)] && v@[b] == v0[src(b)]);
            }
            assert forall|a: int, b: int|
                0 <= a < b < i + 1 && v@[a].fitness_key() == v@[b].fitness_key() implies #[trigger] perm2[a]
                < #[trigger] perm2[b] by {
                assert(v@[a] == v0[src(a)] && v@[b] == v0[src(b)]);
                assert(perm2[a] == perm0[src(a)] && perm2[b] == perm0[src(b)]);
            }
            perm = perm2;
        }
        i = i + 1;
    }
    assert(is_stable_ranking(orig, v@, perm));
}

} // verus!

verus! {

/// `i` is the last position of `s` among the fittest grammars.
pub open spec fn is_last_fittest(s: Seq<Grammar>, i: int) -> bool {
    &&& 0 <= i < s.len()
    &&& forall|j: int| 0 <= j < s.len() ==> #[trigger] s[j].fitness_key() <= s[i].fitness_key()
    &&& forall|j: int| i < j < s.len() ==> #[trigger] s[j].fitness_key() < s[i].fitness_key()
}

/// There is only one last position among the fittest.
pub proof fn lemma_last_fittest_unique(s: Seq<Grammar>, i: int, j: int)
    requires
        is_last_fittest(s, i),
        is_last_fittest(s, j),
    ensures
        i == j,
{
    assert(s[i].fitness_key() <= s[j].fitness_key() && s[j].fitness_key() <= s[i].fitness_key());
}

/// The first `n` of a ranking, or all of it if it is shorter.
pub open spec fn top(ranked: Seq<Grammar>, n: usize) -> Seq<Grammar> {
    if n < ranked.len() {
        ranked.take(n as int)
    } else {
        ranked
    }
}

/// Competing grammars and the number of selection rounds run.
#[derive(Debug, Clone)]
pub struct GrammarEvolution {
    grammars: Vec<Grammar>,
    generation: u64,
}

impl GrammarEvolution {
    /// The competing grammars, in their current order.
    pub closed spec fn grammar_list(&self) -> Seq<Grammar> {
        self.grammars@
    }

    /// The number of selection rounds run.
    pub closed spec fn gen(&self) -> u64 {
        self.generation
    }

    /// No grammar, generation 0.
    pub fn new() -> (r: Self)
        ensures
            r.grammar_list() == Seq::<Grammar>::empty(),
            r.gen() == 0,
    {
        GrammarEvolution { grammars: Vec::new(), generation: 0 }
    }

    /// Adds a grammar after the existing ones.
    pub fn add(&mut self, grammar: Grammar)
        ensures
            final(self).grammar_list() == old(self).grammar_list().push(grammar),
            final(self).gen() == old(self).gen(),
    {
        self.grammars.push(grammar);
    }

    /// One round of selection: ranks the grammars from the fittest down (equally
    /// fit ones keeping their order), keeps the first `top_n` and advances the
    /// generation.
    pub fn select(&mut self, top_n: usize)
        requires
            old(self).gen() < u64::MAX,
        ensures
            exists|ranked: Seq<Grammar>|
                ranked_by_fitness(old(self).grammar_list(), ranked) && final(self).grammar_list()
                    == top(ranked, top_n),
            final(self).gen() == old(self).gen() + 1,
    {
        let ghost before = self.grammars@;
        rank_by_fitness(&mut self.grammars);
        let ghost ranked = self.grammars@;
        self.grammars.truncate(top_n);
        self.generation = self.generation + 1;
        assert(self.grammars@ == top(ranked, top_n)) by {
            if top_n < ranked.len() {
                assert(ranked.take(top_n as int) =~= ranked.subrange(0, top_n as int));
            }
        }
    }

    /// The competing grammars.
    pub fn grammars(&self) -> (r: &[Grammar])
        ensures
            r@ == self.grammar_list(),
    {
        self.grammars.as_slice()
    }

    /// The number of selection rounds run.
    pub fn generation(&self) -> (r: u64)
        ensures
            r == self.gen(),
    {
        self.generation
    }

    /// The number of competing grammars.
    pub fn count(&self) -> (r: usize)
        ensures
            r == self.grammar_list().len(),
    {
        self.grammars.len()
    }

    /// The fittest grammar (the last one, among equally fit); `None` when there is
    /// no grammar.
    pub fn fittest(&self) -> (r: Option<&Grammar>)
        ensures
            r is None <==> self.grammar_list().len() == 0,
            r matches Some(g) ==> *g == self.grammar_list()[choose|i: int|
                is_last_fittest(self.grammar_list(), i)],
    {
        let n = self.grammars.len();
        if n == 0 {
            return None;
        }
        let ghost s = self.grammars@;
        let mut best: usize = 0;
        let mut k: usize = 1;
        while k < n
            invariant
                n == s.len(),
                s == self.grammars@,
                1 <= k <= n,
                best < k,
                forall|j: int| 0 <= j < k ==> #[trigger] s[j].fitness_key() <= s[best as int].fitness_key(),
                forall|j: int| best < j < k ==> #[trigger] s[j].fitness_key() < s[best as int].fitness_key(),
            decreases n - k,
        {
            if self.grammars[k].fitness >= self.grammars[best].fitness {
                best = k;
            }
            k = k + 1;
        }
        proof {
            assert(is_last_fittest(s, best as int));
            let c = choose|c: int| is_last_fittest(s, c);
            lemma_last_fittest_unique(s, best as int, c);
        }
        Some(&self.grammars[best])
    }
}

impl Default for GrammarEvolution {
    fn default() -> (r: Self)
        ensures
            r.grammar_list() == Seq::<Grammar>::empty(),
            r.gen() == 0,
    {
        Self::new()
    }
}

} // verus!
