//! Grouping items by a key, and ordering a key-value grouping by key.
use crate::text::{chars_lt, lemma_chars_lt_total, lemma_chars_lt_transitive, str_lt};
use vstd::prelude::*;
use vstd::std_specs::hash::obeys_key_model;
use vstd::std_specs::iter::IteratorSpec;
use std::collections::HashMap;
use std::hash::Hash;

verus! {

/// `f` can be called on every item and gives one key for each.
pub open spec fn is_key_function<'a, T: 'a, K, F: Fn(&'a T) -> K>(f: F) -> bool {
    &&& forall|x: &'a T| #[trigger] f.requires((x,))
    &&& forall|x: &'a T, k1: K, k2: K|
        #![trigger f.ensures((x,), k1), f.ensures((x,), k2)]
        f.ensures((x,), k1) && f.ensures((x,), k2) ==> k1 == k2
}

/// `f` was asked about `x` and gave a key.
pub open spec fn answers<'a, T: 'a, K, F: Fn(&'a T) -> K>(f: F, x: &'a T) -> bool {
    exists|k: K| #[trigger] f.ensures((x,), k)
}

/// The items to which `f` gives the key `k`, in their order.
pub open spec fn with_key<'a, T: 'a, K, F: Fn(&'a T) -> K>(items: Seq<&'a T>, f: F, k: K) -> Seq<
    &'a T,
> {
    items.filter(|x: &'a T| f.ensures((x,), k))
}

/// `groups` holds, for each key that `f` gives to one of `items`, the items
/// with that key in their order, and no other key.
pub open spec fn groups_by<'a, T: 'a, K, F: Fn(&'a T) -> K>(
    groups: Map<K, Vec<&'a T>>,
    items: Seq<&'a T>,
    f: F,
) -> bool {
    &&& forall|i: int| 0 <= i < items.len() ==> answers(f, #[trigger] items[i])
    &&& forall|i: int, k: K|
        0 <= i < items.len() && #[trigger] f.ensures((items[i],), k) ==> groups.contains_key(k)
    &&& forall|k: K|
        #[trigger] groups.contains_key(k) ==> exists|i: int|
            0 <= i < items.len() && f.ensures((items[i],), k)
    &&& forall|k: K| #[trigger] groups.contains_key(k) ==> groups[k]@ == with_key(items, f, k)
}

/// A sequence with no element satisfying `p` filters to nothing.
pub proof fn lemma_filter_none<A>(s: Seq<A>, p: spec_fn(A) -> bool)
    requires
        forall|i: int| 0 <= i < s.len() ==> !p(#[trigger] s[i]),
    ensures
        s.filter(p) == Seq::<A>::empty(),
    decreases s.len(),
{
    reveal(Seq::filter);
    if s.len() > 0 {
        let t = s.drop_last();
        assert forall|i: int| 0 <= i < t.len() implies !p(#[trigger] t[i]) by {
            assert(t[i] == s[i]);
        }
        lemma_filter_none(t, p);
        assert(!p(s[s.len() - 1]));
    }
}

/// Groups `items` by the key that `grouper` gives each; each group keeps
/// the items in their order.
pub fn group_by_owned<'a, T: 'a, K: Eq + Hash, F: Fn(&'a T) -> K>(items: &[&'a T], grouper: F) -> (r:
    HashMap<K, Vec<&'a T>>)
    requires
        is_key_function(grouper),
    ensures
        obeys_key_model::<K>() ==> groups_by(r@, items@, grouper),
{
    let mut map: HashMap<K, Vec<&'a T>> = HashMap::new();
    let mut i: usize = 0;
    while i < items.len()
        invariant
            is_key_function(grouper),
            i <= items@.len(),
            obeys_key_model::<K>() ==> groups_by(map@, items@.subrange(0, i as int), grouper),
        decreases items@.len() - i,
    {
        let item: &'a T = items[i];
        let k = grouper(item);
        let ghost prefix = items@.subrange(0, i as int);
        let ghost next = items@.subrange(0, i as int + 1);
        let ghost old_map = map@;
        let mut group: Vec<&'a T> = match map.remove(&k) {
            Some(g) => g,
            None => Vec::new(),
        };
        group.push(item);
        map.insert(k, group);
        proof {
            if obeys_key_model::<K>() {
                broadcast use vstd::std_specs::hash::group_hash_axioms;

                reveal(Seq::filter);
                assert(next.drop_last() == prefix);
                assert(next.last() == item);
                assert forall|j: int| 0 <= j < next.len() implies answers(grouper, #[trigger] next[j]) by {
                    if j < i {
                        assert(next[j] == prefix[j]);
                        assert(answers(grouper, prefix[j]));
                    } else {
                        assert(grouper.ensures((next[j],), k));
                    }
                }
                assert forall|j: int, k2: K|
                    0 <= j < next.len() && #[trigger] grouper.ensures((next[j],), k2) implies map@.contains_key(k2) by {
                    if j < i {
                        assert(next[j] == prefix[j]);
                    }
                }
                assert forall|k2: K| #[trigger] map@.contains_key(k2) implies exists|j: int|
                    0 <= j < next.len() && grouper.ensures((next[j],), k2) by {
                    if k2 == k {
                        assert(grouper.ensures((next[i as int],), k2));
                    } else {
                        assert(old_map.contains_key(k2));
                        let j = choose|j: int|
                            0 <= j < prefix.len() && grouper.ensures((prefix[j],), k2);
                        assert(next[j] == prefix[j]);
                    }
                }
                assert forall|k2: K| #[trigger] map@.contains_key(k2) implies map@[k2]@
                    == with_key(next, grouper, k2) by {
                    if k2 == k {
                        if !old_map.contains_key(k) {
                            assert forall|j: int| 0 <= j < prefix.len() implies !(|x: &'a T|
                                grouper.ensures((x,), k))(#[trigger] prefix[j]) by {
                                if grouper.ensures((prefix[j],), k) {
                                    assert(old_map.contains_key(k));
                                }
                            }
                            lemma_filter_none(prefix, |x: &'a T| grouper.ensures((x,), k));
                        }
                    } else {
                        assert(!grouper.ensures((item,), k2));
                    }
                }
                assert(groups_by(map@, next, grouper));
            }
        }
        i = i + 1;
    }
    proof {
        assert(items@.subrange(0, items@.len() as int) == items@);
    }
    map
}

/// Groups `items` by a key that `grouper` borrows from each; each group
/// keeps the items in their order. What the map holds is stated, as for
/// every `HashMap`, where its key type obeys the hash-table key model; the
/// standard library's model covers integer and `bool` keys, not references,
/// so a caller that needs the grouping proved uses `group_by_owned` with a
/// copied key.
pub fn group_by<'a, T: 'a, K: Eq + Hash, F: Fn(&'a T) -> &'a K>(items: &[&'a T], grouper: F) -> (r:
    HashMap<&'a K, Vec<&'a T>>)
    requires
        is_key_function(grouper),
    ensures
        obeys_key_model::<&'a K>() ==> groups_by(r@, items@, grouper),
{
    group_by_owned(items, grouper)
}

/// `keys` ascends strictly.
pub open spec fn strictly_ascending(keys: Seq<usize>) -> bool {
    forall|i: int, j: int| 0 <= i < j < keys.len() ==> keys[i] < keys[j]
}

/// Inserts `k` into the strictly ascending `keys`, unless it is there.
fn insert_sorted(keys: &mut Vec<usize>, k: usize)
    requires
        strictly_ascending(old(keys)@),
    ensures
        strictly_ascending(final(keys)@),
        forall|x: usize| final(keys)@.contains(x) <==> (old(keys)@.contains(x) || x == k),
{
    let mut i: usize = 0;
    while i < keys.len() && keys[i] < k
        invariant
            i <= keys@.len(),
            forall|j: int| 0 <= j < i ==> keys@[j] < k,
        decreases keys@.len() - i,
    {
        i = i + 1;
    }
    if i < keys.len() && keys[i] == k {
        proof {
            assert(keys@[i as int] == k);
        }
        return;
    }
    let ghost before = keys@;
    assert(before == old(keys)@);
    keys.insert(i, k);
    proof {
        assert(keys@ == before.insert(i as int, k));
        assert forall|x: usize| keys@.contains(x) <==> (before.contains(x) || x == k) by {
            if keys@.contains(x) {
                let j = choose|j: int| 0 <= j < keys@.len() && keys@[j] == x;
                if j < i {
                    assert(before[j] == x);
                } else if j > i {
                    assert(before[j - 1] == x);
                }
            }
            if before.contains(x) {
                let j = choose|j: int| 0 <= j < before.len() && before[j] == x;
                if j < i {
                    assert(keys@[j] == x);
                } else {
                    assert(keys@[j + 1] == x);
                }
            }
            if x == k {
                assert(keys@[i as int] == x);
            }
        }
        assert(forall|x: usize| keys@.contains(x) <==> (old(keys)@.contains(x) || x == k));
    }
}

/// The entries of `map`, in ascending order of key.
pub fn sort_map<V>(map: HashMap<usize, V>) -> (r: Vec<(usize, V)>)
    ensures
        r@.len() == map@.dom().len(),
        forall|i: int, j: int| 0 <= i < j < r@.len() ==> r@[i].0 < r@[j].0,
        forall|i: int| 0 <= i < r@.len() ==> map@.contains_key(#[trigger] r@[i].0) && map@[r@[i].0] == r@[i].1,
        forall|k: usize| #[trigger] map@.contains_key(k) ==> exists|i: int| 0 <= i < r@.len() && r@[i].0 == k,
{
    broadcast use vstd::std_specs::hash::group_hash_axioms;

    let mut keys: Vec<usize> = Vec::new();
    let ghost all = vstd::std_specs::hash::spec_keys_iter(&map).remaining();
    let ghost mut seen: int = 0;
    for k in it: map.keys()
        invariant
            all == vstd::std_specs::hash::spec_keys_iter(&map).remaining(),
            it.seq() == all,
            seen == it.index(),
            strictly_ascending(keys@),
            forall|x: usize| keys@.contains(x) <==> all.subrange(0, seen).contains(&x),
    {
        let ghost before = keys@;
        insert_sorted(&mut keys, *k);
        proof {
            let p = all.subrange(0, seen);
            let s = all.subrange(0, seen + 1);
            assert(s == p.push(k));
            assert forall|x: usize| keys@.contains(x) <==> s.contains(&x) by {
                if p.contains(&x) {
                    let j = choose|j: int| 0 <= j < p.len() && p[j] == &x;
                    assert(s[j] == &x);
                }
                if s.contains(&x) {
                    let j = choose|j: int| 0 <= j < s.len() && s[j] == &x;
                    if j < p.len() {
                        assert(p[j] == &x);
                    }
                }
                if x == *k {
                    assert(s[seen] == &x);
                }
            }
            seen = seen + 1;
        }
    }
    proof {
        assert(all.subrange(0, all.len() as int) == all);
        assert(all.unref().to_set() == map@.dom());
        assert forall|x: usize| keys@.contains(x) <==> map@.dom().contains(x) by {
            if all.contains(&x) {
                let j = choose|j: int| 0 <= j < all.len() && all[j] == &x;
                assert(all.unref()[j] == x);
                assert(all.unref().to_set().contains(x));
            }
            if map@.dom().contains(x) {
                assert(all.unref().to_set().contains(x));
                let j = choose|j: int| 0 <= j < all.unref().len() && all.unref()[j] == x;
                assert(all[j] == &x);
            }
        }
        assert(keys@.no_duplicates());
        assert(keys@.to_set() == map@.dom());
        keys@.unique_seq_to_set();
    }
    let ghost orig = map@;
    let mut map = map;
    let mut out: Vec<(usize, V)> = Vec::new();
    let mut i: usize = 0;
    while i < keys.len()
        invariant
            i <= keys@.len(),
            strictly_ascending(keys@),
            keys@.len() == orig.dom().len(),
            forall|x: usize| keys@.contains(x) <==> orig.dom().contains(x),
            out@.len() == i,
            forall|j: int| 0 <= j < i ==> #[trigger] out@[j].0 == keys@[j] && out@[j].1 == orig[keys@[j]],
            forall|j: int| i <= j < keys@.len() ==> #[trigger] map@.contains_key(keys@[j]) && map@[keys@[j]] == orig[keys@[j]],
        decreases keys@.len() - i,
    {
        let k = keys[i];
        proof {
            assert(keys@.contains(k));
            assert(map@.contains_key(keys@[i as int]));
        }
        let ghost map_before = map@;
        let v = map.remove(&k);
        match v {
            Some(v) => {
                proof {
                    assert(v == map_before[k]);
                    assert(v == orig[keys@[i as int]]);
                }
                let ghost out_before = out@;
                out.push((k, v));
                proof {
                    assert forall|j: int| 0 <= j < i + 1 implies #[trigger] out@[j].0 == keys@[j]
                        && out@[j].1 == orig[keys@[j]] by {
                        if j < i {
                            assert(out@[j] == out_before[j]);
                        }
                    }
                }
            },
            None => {
                assert(false);
            },
        }
        proof {
            assert forall|j: int| i + 1 <= j < keys@.len() implies #[trigger] map@.contains_key(keys@[j]) && map@[keys@[j]] == orig[keys@[j]] by {
                assert(keys@[j] != k);
            }
        }
        i = i + 1;
    }
    proof {
        assert forall|k: usize| #[trigger] orig.contains_key(k) implies exists|i: int| 0 <= i < out@.len() && out@[i].0 == k by {
            assert(keys@.contains(k));
            let j = choose|j: int| 0 <= j < keys@.len() && keys@[j] == k;
            assert(out@[j].0 == k);
        }
        assert forall|i: int| 0 <= i < out@.len() implies orig.contains_key(#[trigger] out@[i].0) && orig[out@[i].0] == out@[i].1 by {
            assert(keys@.contains(keys@[i]));
        }
    }
    out
}

/// The names of `entries` ascend strictly in code-point order.
pub open spec fn names_ascending(entries: Seq<(String, usize)>) -> bool {
    forall|i: int, j: int| 0 <= i < j < entries.len() ==> chars_lt(entries[i].0@, entries[j].0@)
}

/// The entries of a name-value grouping with distinct names, in ascending
/// order of name.
pub fn sort_by_name(entries: &Vec<(String, usize)>) -> (r: Vec<(String, usize)>)
    requires
        forall|i: int, j: int|
            0 <= i < j < entries@.len() ==> entries@[i].0@ != entries@[j].0@,
    ensures
        r@.len() == entries@.len(),
        names_ascending(r@),
        forall|x: (String, usize)| r@.contains(x) <==> entries@.contains(x),
{
    let mut out: Vec<(String, usize)> = Vec::new();
    let mut i: usize = 0;
    while i < entries.len()
        invariant
            i <= entries@.len(),
            forall|a: int, b: int|
                0 <= a < b < entries@.len() ==> entries@[a].0@ != entries@[b].0@,
            out@.len() == i,
            names_ascending(out@),
            forall|x: (String, usize)|
                out@.contains(x) <==> entries@.subrange(0, i as int).contains(x),
        decreases entries@.len() - i,
    {
        let e: (String, usize) = (entries[i].0.clone(), entries[i].1);
        let mut p: usize = 0;
        while p < out.len() && str_lt(out[p].0.as_str(), e.0.as_str())
            invariant
                p <= out@.len(),
                forall|q: int| 0 <= q < p ==> chars_lt(out@[q].0@, e.0@),
            decreases out@.len() - p,
        {
            p = p + 1;
        }
        let ghost before = out@;
        proof {
            assert(e == entries@[i as int]);
            if p < before.len() {
                assert(before.contains(before[p as int]));
                assert(entries@.subrange(0, i as int).contains(before[p as int]));
                let k = choose|k: int| 0 <= k < i && entries@.subrange(0, i as int)[k] == before[p as int];
                assert(entries@[k] == before[p as int]);
                lemma_chars_lt_total(before[p as int].0@, e.0@);
            }
        }
        out.insert(p, e);
        proof {
            assert forall|a: int, b: int| 0 <= a < b < out@.len() implies chars_lt(
                out@[a].0@,
                out@[b].0@,
            ) by {
                if a < p && b == p {
                } else if a < p && b > p {
                    assert(out@[b] == before[b - 1]);
                    assert(out@[a] == before[a]);
                } else if a == p {
                    assert(out@[b] == before[b - 1]);
                    if b - 1 > p {
                        lemma_chars_lt_transitive(e.0@, before[p as int].0@, before[b - 1].0@);
                    }
                } else if a > p {
                    assert(out@[b] == before[b - 1]);
                    assert(out@[a] == before[a - 1]);
                } else {
                    assert(out@[b] == before[b]);
                    assert(out@[a] == before[a]);
                }
            }
            let next = entries@.subrange(0, i as int + 1);
            assert(next == entries@.subrange(0, i as int).push(e));
            assert forall|x: (String, usize)| out@.contains(x) <==> next.contains(x) by {
                if out@.contains(x) {
                    let k = choose|k: int| 0 <= k < out@.len() && out@[k] == x;
                    if k == p {
                        assert(next[i as int] == x);
                    } else {
                        let k2 = if k < p {
                            k
                        } else {
                            k - 1
                        };
                        assert(before[k2] == x);
                        assert(before.contains(x));
                        assert(entries@.subrange(0, i as int).contains(x));
                        let m = choose|m: int|
                            0 <= m < i && entries@.subrange(0, i as int)[m] == x;
                        assert(next[m] == x);
                    }
                }
                if next.contains(x) {
                    let k = choose|k: int| 0 <= k < next.len() && next[k] == x;
                    if k < i {
                        assert(entries@.subrange(0, i as int)[k] == x);
                        assert(before.contains(x));
                        let m = choose|m: int| 0 <= m < before.len() && before[m] == x;
                        if m < p {
                            assert(out@[m] == x);
                        } else {
                            assert(out@[m + 1] == x);
                        }
                    } else {
                        assert(out@[p as int] == x);
                    }
                }
            }
        }
        i = i + 1;
    }
    proof {
        assert(entries@.subrange(0, entries@.len() as int) == entries@);
    }
    out
}

} // verus!
