//! Association lists keyed by strings: a vector of `(key, value)` pairs in
//! which no key occurs twice, read as a finite map from keys to values.
use vstd::prelude::*;

verus! {

/// No key occurs twice in `s`.
pub open spec fn keys_distinct<V>(s: Seq<(String, V)>) -> bool {
    forall|i: int, j: int|
        0 <= i < s.len() && 0 <= j < s.len() && i != j ==> #[trigger] s[i].0@ != #[trigger] s[j].0@
}

/// The map that an association list stands for; a later pair overrides an earlier
/// one with the same key.
pub open spec fn map_of<V>(s: Seq<(String, V)>) -> Map<Seq<char>, V>
    decreases s.len(),
{
    if s.len() == 0 {
        Map::empty()
    } else {
        map_of(s.drop_last()).insert(s.last().0@, s.last().1)
    }
}

/// Every pair of the list is in its map, and every key of the map comes from a pair.
pub proof fn lemma_map_of<V>(s: Seq<(String, V)>)
    requires
        keys_distinct(s),
    ensures
        forall|i: int|
            #![trigger s[i]]
            0 <= i < s.len() ==> map_of(s).contains_key(s[i].0@) && map_of(s)[s[i].0@] == s[i].1,
        forall|k: Seq<char>|
            #[trigger] map_of(s).contains_key(k) ==> exists|i: int| 0 <= i < s.len() && s[i].0@ == k,
        map_of(s).dom().finite(),
        map_of(s).dom().len() == s.len(),
    decreases s.len(),
{
    if s.len() > 0 {
        let t = s.drop_last();
        assert forall|i: int, j: int|
            0 <= i < t.len() && 0 <= j < t.len() && i != j implies #[trigger] t[i].0@
            != #[trigger] t[j].0@ by {
            assert(t[i] == s[i] && t[j] == s[j]);
        }
        lemma_map_of(t);
        let last = s.last();
        assert(!map_of(t).contains_key(last.0@)) by {
            if map_of(t).contains_key(last.0@) {
                let i = choose|i: int| 0 <= i < t.len() && t[i].0@ == last.0@;
                assert(s[i] == t[i]);
                assert(s[s.len() - 1] == last);
            }
        }
        assert forall|i: int| 0 <= i < s.len() implies map_of(s).contains_key(s[i].0@) && map_of(
            s,
        )[s[i].0@] == s[i].1 by {
            if i < s.len() - 1 {
                assert(s[i] == t[i]);
                assert(s[i].0@ != s[s.len() - 1].0@);
            }
        }
        assert forall|k: Seq<char>| #[trigger] map_of(s).contains_key(k) implies exists|i: int|
            0 <= i < s.len() && s[i].0@ == k by {
            if k == last.0@ {
                assert(s[s.len() - 1].0@ == k);
            } else {
                let i = choose|i: int| 0 <= i < t.len() && t[i].0@ == k;
                assert(s[i] == t[i]);
            }
        }
    }
}

/// Appending a pair inserts it into the map.
pub proof fn lemma_map_of_push<V>(s: Seq<(String, V)>, e: (String, V))
    ensures
        map_of(s.push(e)) == map_of(s).insert(e.0@, e.1),
{
    assert(s.push(e).drop_last() =~= s);
}

/// Replacing the pair at `i` by one with the same key updates that key's value.
pub proof fn lemma_map_of_update<V>(s: Seq<(String, V)>, i: int, e: (String, V))
    requires
        keys_distinct(s),
        0 <= i < s.len(),
        e.0@ == s[i].0@,
    ensures
        keys_distinct(s.update(i, e)),
        map_of(s.update(i, e)) == map_of(s).insert(e.0@, e.1),
{
    let u = s.update(i, e);
    assert forall|a: int, b: int|
        0 <= a < u.len() && 0 <= b < u.len() && a != b implies #[trigger] u[a].0@
        != #[trigger] u[b].0@ by {
        assert(u[a].0@ == s[a].0@ && u[b].0@ == s[b].0@);
    }
    lemma_map_of(s);
    lemma_map_of(u);
    let m = map_of(s).insert(e.0@, e.1);
    assert forall|k: Seq<char>| #[trigger] map_of(u).contains_key(k) <==> m.contains_key(k) by {
        if map_of(u).contains_key(k) {
            let j = choose|j: int| 0 <= j < u.len() && u[j].0@ == k;
            assert(u[j].0@ == s[j].0@);
            assert(s[j] == s[j]);
        }
        if k == e.0@ {
            assert(u[i] == e);
        }
        if m.contains_key(k) && k != e.0@ {
            let j = choose|j: int| 0 <= j < s.len() && s[j].0@ == k;
            assert(u[j].0@ == k);
        }
    }
    assert forall|k: Seq<char>| #[trigger] map_of(u).contains_key(k) implies map_of(u)[k]
        == m[k] by {
        let j = choose|j: int| 0 <= j < u.len() && u[j].0@ == k;
        assert(u[j] == u[j]);
        if j != i {
            assert(s[j] == u[j]);
        }
    }
    assert(map_of(u) =~= m);
}

/// Removing the pair at `i` removes its key from the map.
pub proof fn lemma_map_of_remove<V>(s: Seq<(String, V)>, i: int)
    requires
        keys_distinct(s),
        0 <= i < s.len(),
    ensures
        keys_distinct(s.remove(i)),
        map_of(s.remove(i)) == map_of(s).remove(s[i].0@),
{
    let u = s.remove(i);
    assert forall|a: int, b: int|
        0 <= a < u.len() && 0 <= b < u.len() && a != b implies #[trigger] u[a].0@
        != #[trigger] u[b].0@ by {
        let a2 = if a < i { a } else { a + 1 };
        let b2 = if b < i { b } else { b + 1 };
        assert(u[a] == s[a2] && u[b] == s[b2]);
    }
    lemma_map_of(s);
    lemma_map_of(u);
    let m = map_of(s).remove(s[i].0@);
    assert forall|k: Seq<char>| #[trigger] map_of(u).contains_key(k) <==> m.contains_key(k) by {
        if map_of(u).contains_key(k) {
            let j = choose|j: int| 0 <= j < u.len() && u[j].0@ == k;
            let j2 = if j < i { j } else { j + 1 };
            assert(u[j] == s[j2]);
            assert(s[j2] == s[j2]);
        }
        if m.contains_key(k) {
            let j = choose|j: int| 0 <= j < s.len() && s[j].0@ == k;
            assert(j != i);
            let j2 = if j < i { j } else { j - 1 };
            assert(u[j2] == s[j]);
        }
    }
    assert forall|k: Seq<char>| #[trigger] map_of(u).contains_key(k) implies map_of(u)[k]
        == m[k] by {
        let j = choose|j: int| 0 <= j < u.len() && u[j].0@ == k;
        let j2 = if j < i { j } else { j + 1 };
        assert(u[j] == s[j2]);
        assert(s[j2] == s[j2]);
    }
    assert(map_of(u) =~= m);
}

/// The character sequences of a list of string slices.
pub open spec fn str_views(s: Seq<&str>) -> Seq<Seq<char>> {
    s.map_values(|x: &str| x@)
}

/// How many pairs of the list satisfy `p`.
pub open spec fn count_where<V>(s: Seq<(String, V)>, p: spec_fn(Seq<char>, V) -> bool) -> nat
    decreases s.len(),
{
    if s.len() == 0 {
        0
    } else {
        count_where(s.drop_last(), p) + if p(s.last().0@, s.last().1) {
            1nat
        } else {
            0nat
        }
    }
}

/// The keys of `m` whose entry satisfies `p`.
pub open spec fn keys_where<V>(m: Map<Seq<char>, V>, p: spec_fn(Seq<char>, V) -> bool) -> Set<
    Seq<char>,
> {
    m.dom().filter(|k: Seq<char>| p(k, m[k]))
}

/// Counting the pairs that satisfy `p` counts the keys of the map that do.
pub proof fn lemma_count_where<V>(s: Seq<(String, V)>, p: spec_fn(Seq<char>, V) -> bool)
    requires
        keys_distinct(s),
    ensures
        keys_where(map_of(s), p).finite(),
        count_where(s, p) == keys_where(map_of(s), p).len(),
    decreases s.len(),
{
    lemma_map_of(s);
    map_of(s).dom().lemma_len_filter(|k: Seq<char>| p(k, map_of(s)[k]));
    if s.len() > 0 {
        let t = s.drop_last();
        assert forall|i: int, j: int|
            0 <= i < t.len() && 0 <= j < t.len() && i != j implies #[trigger] t[i].0@
            != #[trigger] t[j].0@ by {
            assert(t[i] == s[i] && t[j] == s[j]);
        }
        lemma_count_where(t, p);
        lemma_map_of(t);
        let last = s.last();
        let k = last.0@;
        assert(!map_of(t).contains_key(k)) by {
            if map_of(t).contains_key(k) {
                let i = choose|i: int| 0 <= i < t.len() && t[i].0@ == k;
                assert(s[i] == t[i]);
                assert(s[s.len() - 1] == last);
            }
        }
        let old_keys = keys_where(map_of(t), p);
        let new_keys = keys_where(map_of(s), p);
        if p(k, last.1) {
            assert(new_keys =~= old_keys.insert(k));
        } else {
            assert(new_keys =~= old_keys);
        }
    }
}

/// The position of `key` in the list, if it is there.
pub(crate) fn assoc_find<V>(entries: &Vec<(String, V)>, key: &String) -> (r: Option<usize>)
    ensures
        r matches Some(i) ==> i < entries@.len() && entries@[i as int].0@ == key@,
        r is None ==> forall|i: int| 0 <= i < entries@.len() ==> entries@[i].0@ != key@,
{
    let n = entries.len();
    let mut i: usize = 0;
    while i < n
        invariant
            n == entries@.len(),
            i <= n,
            forall|j: int| 0 <= j < i ==> entries@[j].0@ != key@,
        decreases n - i,
    {
        if entries[i].0 == *key {
            return Some(i);
        }
        i = i + 1;
    }
    None
}

/// Whether `key` is in the list, stated over its map.
pub(crate) fn assoc_contains<V>(entries: &Vec<(String, V)>, key: &String) -> (r: bool)
    requires
        keys_distinct(entries@),
    ensures
        r == map_of(entries@).contains_key(key@),
{
    proof {
        lemma_map_of(entries@);
    }
    match assoc_find(entries, key) {
        Some(i) => {
            assert(entries@[i as int] == entries@[i as int]);
            true
        },
        None => false,
    }
}

/// The value stored under `key`, if any.
pub(crate) fn assoc_get<'a, V>(entries: &'a Vec<(String, V)>, key: &String) -> (r: Option<&'a V>)
    requires
        keys_distinct(entries@),
    ensures
        r is Some <==> map_of(entries@).contains_key(key@),
        r matches Some(v) ==> *v == map_of(entries@)[key@],
{
    proof {
        lemma_map_of(entries@);
    }
    match assoc_find(entries, key) {
        Some(i) => {
            assert(entries@[i as int] == entries@[i as int]);
            Some(&entries[i].1)
        },
        None => None,
    }
}

/// Stores `value` under `key`, replacing what was stored there.
pub(crate) fn assoc_insert<V>(entries: &mut Vec<(String, V)>, key: String, value: V)
    requires
        keys_distinct(old(entries)@),
    ensures
        keys_distinct(final(entries)@),
        map_of(final(entries)@) == map_of(old(entries)@).insert(key@, value),
        final(entries)@.len() > 0,
{
    let ghost k = key@;
    match assoc_find(entries, &key) {
        Some(i) => {
            proof {
                lemma_map_of_update(entries@, i as int, (key, value));
            }
            entries[i] = (key, value);
        },
        None => {
            proof {
                lemma_map_of_push(entries@, (key, value));
            }
            let ghost before = entries@;
            entries.push((key, value));
            assert forall|a: int, b: int|
                0 <= a < entries@.len() && 0 <= b < entries@.len() && a != b implies #[trigger] entries@[a].0@
                != #[trigger] entries@[b].0@ by {
                if a < before.len() {
                    assert(entries@[a] == before[a]);
                }
                if b < before.len() {
                    assert(entries@[b] == before[b]);
                }
            }
        },
    }
}

/// Removes `key`; says whether it was there.
pub(crate) fn assoc_remove<V>(entries: &mut Vec<(String, V)>, key: &String) -> (r: bool)
    requires
        keys_distinct(old(entries)@),
    ensures
        keys_distinct(final(entries)@),
        r == map_of(old(entries)@).contains_key(key@),
        map_of(final(entries)@) == map_of(old(entries)@).remove(key@),
{
    proof {
        lemma_map_of(entries@);
    }
    match assoc_find(entries, key) {
        Some(i) => {
            proof {
                lemma_map_of_remove(entries@, i as int);
            }
            assert(entries@[i as int] == entries@[i as int]);
            entries.remove(i);
            true
        },
        None => {
            assert(map_of(entries@).remove(key@) =~= map_of(entries@));
            false
        },
    }
}

} // verus!
