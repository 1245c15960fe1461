use vstd::prelude::*;

verus! {

/// Entry `a` of `order` comes before entry `b`: a smaller key, or the same key
/// and an earlier position in the input.
pub open spec fn precedes(keys: Seq<u64>, a: usize, b: usize) -> bool {
    keys[a as int] < keys[b as int] || (keys[a as int] == keys[b as int] && a < b)
}

/// `order` lists every position of `keys` once.
pub open spec fn is_permutation(order: Seq<usize>, n: nat) -> bool {
    &&& order.len() == n
    &&& forall|i: int| 0 <= i < order.len() ==> (#[trigger] order[i]) < n
    &&& order.no_duplicates()
}

/// `order` lists the positions of `keys` by ascending key, positions with equal
/// keys in their input order.
pub open spec fn is_stable_order(keys: Seq<u64>, order: Seq<usize>) -> bool {
    &&& is_permutation(order, keys.len())
    &&& forall|a: int, b: int| 0 <= a < b < order.len() ==> precedes(keys, #[trigger] order[a], #[trigger] order[b])
}

/// The positions of `keys` in ascending order of key; equal keys keep their
/// input order. The keys therefore come out nondecreasing.
pub fn sort_order(keys: &Vec<u64>) -> (r: Vec<usize>)
    ensures
        is_stable_order(keys@, r@),
        forall|a: int, b: int| 0 <= a <= b < r.len() ==> keys@[r@[a] as int] <= keys@[r@[b] as int],
{
    let n = keys.len();
    let mut order: Vec<usize> = Vec::new();
    let mut i: usize = 0;
    while i < n
        invariant
            n == keys.len(),
            i <= n,
            is_permutation(order@, i as nat),
            forall|a: int, b: int| 0 <= a < b < order.len() ==> precedes(keys@, #[trigger] order@[a], #[trigger] order@[b]),
        decreases n - i,
    {
        let k = keys[i];
        let mut j: usize = 0;
        while j < order.len() && keys[order[j]] <= k
            invariant
                n == keys.len(),
                i < n,
                k == keys@[i as int],
                j <= order.len(),
                is_permutation(order@, i as nat),
                forall|q: int| 0 <= q < j ==> keys@[#[trigger] order@[q] as int] <= k,
            decreases order.len() - j,
        {
            j = j + 1;
        }
        let ghost old_order = order@;
        proof {
            if j < old_order.len() {
                assert forall|q: int| j <= q < old_order.len() implies keys@[#[trigger] old_order[q] as int] > k by {
                    if q > j {
                        assert(precedes(keys@, old_order[j as int], old_order[q]));
                    }
                }
            }
        }
        order.insert(j, i);
        proof {
            let o = order@;
            assert(o == old_order.insert(j as int, i));
            assert forall|q: int| 0 <= q < o.len() implies (#[trigger] o[q]) < i + 1 by {
                if q < j {
                    assert(o[q] == old_order[q]);
                } else if q > j {
                    assert(o[q] == old_order[q - 1]);
                }
            }
            assert forall|a: int, b: int| 0 <= a < o.len() && 0 <= b < o.len() && a != b implies o[a] != o[b] by {
                if a != j && b != j {
                    let a2 = if a < j { a } else { a - 1 };
                    let b2 = if b < j { b } else { b - 1 };
                    assert(o[a] == old_order[a2] && o[b] == old_order[b2]);
                } else if a == j {
                    let b2 = if b < j { b } else { b - 1 };
                    assert(o[b] == old_order[b2]);
                    assert(old_order[b2] < i);
                } else {
                    let a2 = if a < j { a } else { a - 1 };
                    assert(o[a] == old_order[a2]);
                    assert(old_order[a2] < i);
                }
            }
            assert forall|a: int, b: int| 0 <= a < b < o.len() implies precedes(keys@, #[trigger] o[a], #[trigger] o[b]) by {
                if a < j && b < j {
                    assert(o[a] == old_order[a] && o[b] == old_order[b]);
                } else if a < j && b == j {
                    assert(o[a] == old_order[a]);
                    assert(keys@[old_order[a] as int] <= k);
                    assert(old_order[a] < i);
                } else if a < j {
                    assert(o[a] == old_order[a] && o[b] == old_order[b - 1]);
                } else if a == j {
                    assert(o[b] == old_order[b - 1]);
                    assert(keys@[old_order[b - 1] as int] > k);
                } else {
                    assert(o[a] == old_order[a - 1] && o[b] == old_order[b - 1]);
                }
            }
        }
        i = i + 1;
    }
    proof {
        assert forall|a: int, b: int| 0 <= a <= b < order.len() implies keys@[order@[a] as int] <= keys@[order@[b] as int] by {
            if a < b {
                assert(precedes(keys@, order@[a], order@[b]));
            }
        }
    }
    order
}

/// The first position whose key is at least `bound`, if any.
pub fn first_at_least(keys: &Vec<u64>, bound: u64) -> (r: Option<usize>)
    ensures
        match r {
            Some(p) => p < keys.len() && keys@[p as int] >= bound && forall|q: int| 0 <= q < p ==> keys@[q] < bound,
            None => forall|q: int| 0 <= q < keys.len() ==> keys@[q] < bound,
        },
{
    let mut p: usize = 0;
    while p < keys.len()
        invariant
            p <= keys.len(),
            forall|q: int| 0 <= q < p ==> keys@[q] < bound,
        decreases keys.len() - p,
    {
        if keys[p] >= bound {
            return Some(p);
        }
        p = p + 1;
    }
    None
}

} // verus!
