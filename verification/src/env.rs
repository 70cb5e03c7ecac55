//! The environment of a uevent: its `KEY=value` fields, kept as a list of
//! pairs in which no key occurs twice.
use vstd::prelude::*;

verus! {

/// The map that the pairs `pairs` describe, a later pair for a key replacing an
/// earlier one.
pub open spec fn env_map(pairs: Seq<(String, String)>) -> Map<Seq<char>, Seq<char>>
    decreases pairs.len(),
{
    if pairs.len() == 0 {
        Map::empty()
    } else {
        env_map(pairs.drop_last()).insert(pairs.last().0@, pairs.last().1@)
    }
}

/// No key occurs twice among `pairs`.
pub open spec fn keys_unique(pairs: Seq<(String, String)>) -> bool {
    forall|i: int, j: int|
        0 <= i < pairs.len() && 0 <= j < pairs.len() && i != j ==> #[trigger] pairs[i].0@
            != #[trigger] pairs[j].0@
}

/// A key is in the map exactly when some pair holds it.
pub proof fn lemma_env_map_dom(pairs: Seq<(String, String)>, k: Seq<char>)
    ensures
        env_map(pairs).dom().contains(k) <==> exists|i: int|
            0 <= i < pairs.len() && #[trigger] pairs[i].0@ == k,
    decreases pairs.len(),
{
    if pairs.len() > 0 {
        let init = pairs.drop_last();
        lemma_env_map_dom(init, k);
        if env_map(pairs).dom().contains(k) {
            if pairs.last().0@ != k {
                let i = choose|i: int| 0 <= i < init.len() && #[trigger] init[i].0@ == k;
                assert(pairs[i].0@ == k);
            } else {
                assert(pairs[pairs.len() - 1].0@ == k);
            }
        }
        if exists|i: int| 0 <= i < pairs.len() && #[trigger] pairs[i].0@ == k {
            let i = choose|i: int| 0 <= i < pairs.len() && #[trigger] pairs[i].0@ == k;
            if i < pairs.len() - 1 {
                assert(init[i].0@ == k);
            }
        }
    }
}

/// With unique keys, the map sends the key of each pair to its value.
pub proof fn lemma_env_map_index(pairs: Seq<(String, String)>, i: int)
    requires
        keys_unique(pairs),
        0 <= i < pairs.len(),
    ensures
        env_map(pairs).dom().contains(pairs[i].0@),
        env_map(pairs)[pairs[i].0@] == pairs[i].1@,
    decreases pairs.len(),
{
    let init = pairs.drop_last();
    if i < pairs.len() - 1 {
        assert(init[i] == pairs[i]);
        assert(pairs[i].0@ != pairs[pairs.len() - 1].0@);
        lemma_env_map_index(init, i);
    }
}

/// Replacing, in a list with unique keys, the pair at `i` by one with the same key
/// sets that key's value in the map.
proof fn lemma_env_map_update(pairs: Seq<(String, String)>, i: int, p: (String, String))
    requires
        keys_unique(pairs),
        0 <= i < pairs.len(),
        pairs[i].0@ == p.0@,
    ensures
        env_map(pairs.update(i, p)) =~= env_map(pairs).insert(p.0@, p.1@),
    decreases pairs.len(),
{
    let n = pairs.len() - 1;
    let init = pairs.drop_last();
    let updated = pairs.update(i, p);
    if i == n {
        assert(updated.drop_last() =~= init);
    } else {
        assert(updated.drop_last() =~= init.update(i, p));
        assert(pairs[i].0@ != pairs[n].0@);
        lemma_env_map_update(init, i, p);
    }
}

/// Sets `key` to `value` in the environment `env`: the pair that holds `key`
/// gets the new value where there is one, else the pair is appended.
pub fn env_insert(env: &mut Vec<(String, String)>, key: String, value: String)
    requires
        keys_unique(old(env)@),
    ensures
        keys_unique(final(env)@),
        env_map(final(env)@) == env_map(old(env)@).insert(key@, value@),
{
    let mut i: usize = 0;
    while i < env.len()
        invariant
            i <= env@.len(),
            env@ == old(env)@,
            keys_unique(env@),
            forall|j: int| 0 <= j < i ==> (#[trigger] env@[j]).0@ != key@,
        decreases env@.len() - i,
    {
        if env[i].0 == key {
            let ghost before = env@;
            let p = (key, value);
            proof {
                lemma_env_map_update(before, i as int, p);
            }
            env.set(i, p);
            assert(env@ == before.update(i as int, p));
            assert(keys_unique(env@)) by {
                assert forall|a: int, b: int|
                    0 <= a < env@.len() && 0 <= b < env@.len() && a != b implies #[trigger] env@[a].0@
                    != #[trigger] env@[b].0@ by {
                    if a != i && b != i {
                        assert(env@[a] == before[a] && env@[b] == before[b]);
                    } else if a == i {
                        assert(env@[b] == before[b]);
                        assert(before[a].0@ != before[b].0@);
                    } else {
                        assert(env@[a] == before[a]);
                        assert(before[a].0@ != before[b].0@);
                    }
                }
            }
            return;
        }
        i = i + 1;
    }
    let ghost before = env@;
    let ghost k = key@;
    let ghost v = value@;
    env.push((key, value));
    assert(env@.drop_last() =~= before);
    assert(env@.last().0@ == k && env@.last().1@ == v);
    assert(keys_unique(env@)) by {
        assert forall|a: int, b: int|
            0 <= a < env@.len() && 0 <= b < env@.len() && a != b implies #[trigger] env@[a].0@
            != #[trigger] env@[b].0@ by {
            if a < before.len() && b < before.len() {
                assert(env@[a] == before[a] && env@[b] == before[b]);
            } else if a < before.len() {
                assert(env@[a] == before[a]);
                assert(before[a].0@ != k);
            } else {
                assert(env@[b] == before[b]);
                assert(before[b].0@ != k);
            }
        }
    }
}

/// Some pair of `env` holds the key `k` with the value `v`.
pub open spec fn holds_pair(env: Seq<(String, String)>, k: Seq<char>, v: Seq<char>) -> bool {
    exists|j: int| 0 <= j < env.len() && #[trigger] env[j].0@ == k && env[j].1@ == v
}

/// Each pair of `a` is held by `b`.
pub open spec fn pairs_within(a: Seq<(String, String)>, b: Seq<(String, String)>) -> bool {
    forall|i: int| 0 <= i < a.len() ==> holds_pair(b, (#[trigger] a[i]).0@, a[i].1@)
}

/// Whether some pair of `env` holds `k` with `v`.
pub fn env_holds(env: &Vec<(String, String)>, k: &String, v: &String) -> (r: bool)
    ensures
        r == holds_pair(env@, k@, v@),
{
    let mut j: usize = 0;
    while j < env.len()
        invariant
            j <= env@.len(),
            forall|i: int| 0 <= i < j ==> !(#[trigger] env@[i].0@ == k@ && env@[i].1@ == v@),
        decreases env@.len() - j,
    {
        if env[j].0 == *k && env[j].1 == *v {
            return true;
        }
        j = j + 1;
    }
    false
}

/// Whether each pair of `a` is held by `b`.
pub fn env_within(a: &Vec<(String, String)>, b: &Vec<(String, String)>) -> (r: bool)
    ensures
        r == pairs_within(a@, b@),
{
    let mut i: usize = 0;
    while i < a.len()
        invariant
            i <= a@.len(),
            forall|x: int| 0 <= x < i ==> holds_pair(b@, (#[trigger] a@[x]).0@, a@[x].1@),
        decreases a@.len() - i,
    {
        if !env_holds(b, &a[i].0, &a[i].1) {
            return false;
        }
        i = i + 1;
    }
    true
}

/// With unique keys on both sides, holding the same pairs is having the same map.
pub proof fn lemma_same_pairs_same_map(a: Seq<(String, String)>, b: Seq<(String, String)>)
    requires
        keys_unique(a),
        keys_unique(b),
    ensures
        (pairs_within(a, b) && pairs_within(b, a)) <==> env_map(a) == env_map(b),
{
    if pairs_within(a, b) && pairs_within(b, a) {
        lemma_within_map(a, b);
        lemma_within_map(b, a);
        assert(env_map(a) =~= env_map(b));
    }
    if env_map(a) == env_map(b) {
        lemma_map_within(a, b);
        lemma_map_within(b, a);
    }
}

/// Where `b` holds each pair of `a`, the map of `b` agrees with that of `a` on its keys.
proof fn lemma_within_map(a: Seq<(String, String)>, b: Seq<(String, String)>)
    requires
        keys_unique(a),
        keys_unique(b),
        pairs_within(a, b),
    ensures
        forall|k: Seq<char>|
            #[trigger] env_map(a).dom().contains(k) ==> env_map(b).dom().contains(k)
                && env_map(b)[k] == env_map(a)[k],
{
    assert forall|k: Seq<char>| #[trigger] env_map(a).dom().contains(k) implies env_map(
        b,
    ).dom().contains(k) && env_map(b)[k] == env_map(a)[k] by {
        lemma_env_map_dom(a, k);
        let i = choose|i: int| 0 <= i < a.len() && #[trigger] a[i].0@ == k;
        lemma_env_map_index(a, i);
        assert(holds_pair(b, a[i].0@, a[i].1@));
        let j = choose|j: int| 0 <= j < b.len() && #[trigger] b[j].0@ == k && b[j].1@ == a[i].1@;
        lemma_env_map_index(b, j);
    }
}

/// Where the maps of `a` and `b` are equal, `b` holds each pair of `a`.
proof fn lemma_map_within(a: Seq<(String, String)>, b: Seq<(String, String)>)
    requires
        keys_unique(a),
        keys_unique(b),
        env_map(a) == env_map(b),
    ensures
        pairs_within(a, b),
{
    assert forall|i: int| 0 <= i < a.len() implies holds_pair(b, (#[trigger] a[i]).0@, a[i].1@) by {
        let k = a[i].0@;
        lemma_env_map_index(a, i);
        lemma_env_map_dom(b, k);
        let j = choose|j: int| 0 <= j < b.len() && #[trigger] b[j].0@ == k;
        lemma_env_map_index(b, j);
        assert(b[j].0@ == k && b[j].1@ == a[i].1@);
    }
}

} // verus!
