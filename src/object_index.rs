use std::collections::HashMap;

use vstd::prelude::*;

use crate::node::{compare_keys, key_le, Key};

verus! {

broadcast use vstd::std_specs::hash::group_hash_axioms;

/// `s`, a list of positions into `keys`, with position `x` inserted after
/// every position whose key does not sort after that of `x`, counted from
/// the end: a stable insertion.
pub open spec fn insert_by_key(keys: Seq<Key>, s: Seq<usize>, x: usize) -> Seq<usize>
    decreases s.len(),
{
    if s.len() == 0 {
        seq![x]
    } else if key_le(keys[s.last() as int], keys[x as int]) {
        s.push(x)
    } else {
        insert_by_key(keys, s.drop_last(), x).push(s.last())
    }
}

/// `s` sorted stably by the keys its positions have in `keys`.
pub open spec fn sort_by_key(keys: Seq<Key>, s: Seq<usize>) -> Seq<usize>
    decreases s.len(),
{
    if s.len() == 0 {
        seq![]
    } else {
        insert_by_key(keys, sort_by_key(keys, s.drop_last()), s.last())
    }
}

/// The positions below `n` whose key has object id `o`, ascending.
pub open spec fn positions_of(keys: Seq<Key>, o: u64, n: int) -> Seq<usize>
    decreases n,
{
    if n <= 0 {
        seq![]
    } else {
        let rest = positions_of(keys, o, n - 1);
        if keys[n - 1].object_id == o {
            rest.push((n - 1) as usize)
        } else {
            rest
        }
    }
}

/// Whether `m` maps each object id that has items to the positions of its
/// items, sorted stably by key, and holds no other object id.
pub open spec fn is_object_index(keys: Seq<Key>, m: Map<u64, Vec<usize>>) -> bool {
    &&& forall|o: u64| #[trigger] m.contains_key(o) <==> positions_of(keys, o, keys.len() as int).len() > 0
    &&& forall|o: u64|
        #[trigger] m.contains_key(o) ==> m[o]@ == sort_by_key(keys, positions_of(keys, o, keys.len() as int))
}

/// Whether the positions `s` are in ascending order of key.
pub open spec fn sorted_by_key(keys: Seq<Key>, s: Seq<usize>) -> bool {
    forall|i: int, j: int| 0 <= i < j < s.len() ==> key_le(keys[s[i] as int], keys[s[j] as int])
}

proof fn lemma_insert_by_key(keys: Seq<Key>, s: Seq<usize>, x: usize)
    requires
        sorted_by_key(keys, s),
    ensures
        sorted_by_key(keys, insert_by_key(keys, s, x)),
        insert_by_key(keys, s, x).to_multiset() == s.to_multiset().insert(x),
    decreases s.len(),
{
    broadcast use vstd::seq_lib::group_to_multiset_ensures;

    let r = insert_by_key(keys, s, x);
    if s.len() == 0 {
        assert(r =~= Seq::<usize>::empty().push(x));
    } else if key_le(keys[s.last() as int], keys[x as int]) {
        assert forall|i: int, j: int| 0 <= i < j < r.len() implies key_le(keys[r[i] as int], keys[r[j] as int]) by {
            if j == r.len() - 1 && i < s.len() - 1 {
                assert(key_le(keys[s[i] as int], keys[s[s.len() - 1] as int]));
            }
        }
    } else {
        let f = s.drop_last();
        assert(sorted_by_key(keys, f));
        lemma_insert_by_key(keys, f, x);
        let g = insert_by_key(keys, f, x);
        assert(s =~= f.push(s.last()));
        assert forall|i: int| 0 <= i < g.len() implies key_le(keys[g[i] as int], keys[s.last() as int]) by {
            assert(g.to_multiset().count(g[i]) > 0);
            if g[i] != x {
                assert(f.to_multiset().count(g[i]) > 0);
                let k = choose|k: int| 0 <= k < f.len() && f[k] == g[i];
                assert(s[k] == f[k]);
            }
        }
    }
}

/// Sorting by key gives ascending keys and the same positions.
pub proof fn lemma_sort_by_key(keys: Seq<Key>, s: Seq<usize>)
    ensures
        sorted_by_key(keys, sort_by_key(keys, s)),
        sort_by_key(keys, s).to_multiset() == s.to_multiset(),
    decreases s.len(),
{
    broadcast use vstd::seq_lib::group_to_multiset_ensures;

    if s.len() > 0 {
        lemma_sort_by_key(keys, s.drop_last());
        lemma_insert_by_key(keys, sort_by_key(keys, s.drop_last()), s.last());
        assert(s =~= s.drop_last().push(s.last()));
    }
}

/// Inserts position `x` into `v` as `insert_by_key` says.
fn insert_position(keys: &Vec<Key>, v: &mut Vec<usize>, x: usize, bound: usize)
    requires
        x < bound <= keys.len(),
        forall|i: int| 0 <= i < old(v).len() ==> old(v)@[i] < bound,
    ensures
        final(v)@ == insert_by_key(keys@, old(v)@, x),
        forall|i: int| 0 <= i < final(v).len() ==> final(v)@[i] < bound,
{
    let ghost s = v@;
    let mut p: usize = v.len();
    assert(s.take(p as int) =~= s);
    assert(s.take(p as int) + s.skip(p as int) =~= s);
    while p > 0 && !compare_keys(&keys[v[p - 1]], &keys[x])
        invariant
            p <= v.len(),
            s == v@,
            x < bound <= keys.len(),
            forall|i: int| 0 <= i < v.len() ==> v@[i] < bound,
            insert_by_key(keys@, s, x) == insert_by_key(keys@, s.take(p as int), x) + s.skip(p as int),
        decreases p,
    {
        let ghost t = s.take(p as int);
        assert(t.drop_last() =~= s.take(p as int - 1));
        assert(t.last() == s[p as int - 1]);
        assert(s.skip(p as int - 1) =~= seq![s[p as int - 1]] + s.skip(p as int));
        assert(insert_by_key(keys@, t, x) == insert_by_key(keys@, s.take(p as int - 1), x).push(t.last()));
        assert(insert_by_key(keys@, s.take(p as int - 1), x).push(t.last()) + s.skip(p as int) =~= insert_by_key(
            keys@,
            s.take(p as int - 1),
            x,
        ) + s.skip(p as int - 1));
        p = p - 1;
    }
    let ghost t = s.take(p as int);
    assert(insert_by_key(keys@, t, x) == t.push(x)) by {
        if p > 0 {
            assert(t.last() == s[p as int - 1]);
        } else {
            assert(t =~= Seq::<usize>::empty());
        }
    }
    v.insert(p, x);
    assert(v@ =~= t.push(x) + s.skip(p as int));
}

/// For each object id, the positions in `keys` of its items, sorted stably
/// by key.
pub fn build_object_index(keys: &Vec<Key>) -> (r: HashMap<u64, Vec<usize>>)
    ensures
        is_object_index(keys@, r@),
{
    let mut m: HashMap<u64, Vec<usize>> = HashMap::new();
    let mut i: usize = 0;
    while i < keys.len()
        invariant
            i <= keys.len(),
            forall|o: u64| #[trigger] m@.contains_key(o) <==> positions_of(keys@, o, i as int).len() > 0,
            forall|o: u64|
                #[trigger] m@.contains_key(o) ==> m@[o]@ == sort_by_key(keys@, positions_of(keys@, o, i as int)),
            forall|o: u64, k: int|
                m@.contains_key(o) && 0 <= k < m@[o]@.len() ==> #[trigger] m@[o]@[k] < i,
        decreases keys.len() - i,
    {
        let o = keys[i].object_id;
        let ghost before = m@;
        let mut list: Vec<usize> = match m.remove(&o) {
            Some(v) => v,
            None => Vec::new(),
        };
        assert(list@ == sort_by_key(keys@, positions_of(keys@, o, i as int))) by {
            if !before.contains_key(o) {
                assert(positions_of(keys@, o, i as int) =~= Seq::<usize>::empty());
                assert(list@ =~= Seq::<usize>::empty());
            }
        }
        assert forall|k: int| 0 <= k < list.len() implies list@[k] < i + 1 by {
            assert(before[o]@[k] < i);
        }
        insert_position(keys, &mut list, i, i + 1);
        let ghost after_list = list@;
        m.insert(o, list);
        assert(positions_of(keys@, o, i as int + 1).drop_last() =~= positions_of(keys@, o, i as int));
        assert forall|q: u64| #[trigger] m@.contains_key(q) <==> positions_of(keys@, q, i as int + 1).len() > 0 by {
            if q != o {
                assert(m@.contains_key(q) == before.contains_key(q));
            }
        }
        assert forall|q: u64| #[trigger] m@.contains_key(q) implies m@[q]@ == sort_by_key(
            keys@,
            positions_of(keys@, q, i as int + 1),
        ) by {
            if q != o {
                assert(m@[q] == before[q]);
            }
        }
        assert forall|q: u64, k: int| m@.contains_key(q) && 0 <= k < m@[q]@.len() implies #[trigger] m@[q]@[k] < i + 1 by {
            if q != o {
                assert(m@[q] == before[q]);
                assert(before[q]@[k] < i);
            } else {
                assert(m@[q]@ == after_list);
            }
        }
        i = i + 1;
    }
    m
}

proof fn lemma_positions_below(keys: Seq<Key>, o: u64, n: int)
    requires
        n <= keys.len() <= usize::MAX,
    ensures
        forall|k: int|
            0 <= k < positions_of(keys, o, n).len() ==> #[trigger] positions_of(keys, o, n)[k] < n
                && keys[positions_of(keys, o, n)[k] as int].object_id == o,
    decreases n,
{
    if n > 0 {
        lemma_positions_below(keys, o, n - 1);
        let rest = positions_of(keys, o, n - 1);
        let all = positions_of(keys, o, n);
        assert forall|k: int| 0 <= k < all.len() implies #[trigger] all[k] < n && keys[all[k] as int].object_id == o by {
            if k < rest.len() {
                assert(all[k] == rest[k]);
            } else {
                assert(all[k] == (n - 1) as usize);
            }
        }
    }
}

/// The positions that an object index lists for an object are exactly the
/// positions of that object's items, in ascending order of key.
pub proof fn lemma_object_index_sorted(keys: Seq<Key>, m: Map<u64, Vec<usize>>, o: u64)
    requires
        is_object_index(keys, m),
        m.contains_key(o),
        keys.len() <= usize::MAX,
    ensures
        sorted_by_key(keys, m[o]@),
        m[o]@.to_multiset() == positions_of(keys, o, keys.len() as int).to_multiset(),
        forall|k: int| 0 <= k < m[o]@.len() ==> #[trigger] keys[m[o]@[k] as int].object_id == o,
{
    broadcast use vstd::seq_lib::group_to_multiset_ensures;

    lemma_sort_by_key(keys, positions_of(keys, o, keys.len() as int));
    lemma_positions_below(keys, o, keys.len() as int);
    let p = positions_of(keys, o, keys.len() as int);
    assert forall|k: int| 0 <= k < m[o]@.len() implies #[trigger] keys[m[o]@[k] as int].object_id == o by {
        let x = m[o]@[k];
        assert(m[o]@.to_multiset().count(x) > 0);
        assert(p.to_multiset().count(x) > 0);
        assert(p.contains(x));
        let j = choose|j: int| 0 <= j < p.len() && p[j] == x;
        assert(keys[p[j] as int].object_id == o);
    }
}

} // verus!
