//! Which particles a despawn request removes.
//!
//! Each particle is ranked by a key that orders as its kinetic energy does
//! (`|velocity|²`). A request for `count` removals takes away `count`
//! particles whose keys are at least those of every particle that stays, and
//! is rejected when `count` exceeds the number of particles.
use vstd::prelude::*;
use vstd::set_lib::{lemma_int_range, lemma_subset_equality, lemma_set_difference_len, set_int_range};

verus! {

/// Why a population request was rejected.
#[derive(Clone, Copy, Debug, PartialEq, Eq, Structural)]
pub enum PopulationError {
    /// More particles were to be removed than there are.
    DespawnCountTooLarge { count: usize, available: usize },
}

/// How many entries of `s` are `true`.
pub open spec fn count_true(s: Seq<bool>) -> nat
    decreases s.len(),
{
    if s.len() == 0 {
        0
    } else {
        count_true(s.drop_last()) + if s.last() {
            1nat
        } else {
            0nat
        }
    }
}

/// `kept` lists, in increasing order, the indices of the particles that stay
/// when `count` of those ranked by `keys` are removed: as many stay as are not
/// removed, and no particle that stays has a higher key than one removed.
pub open spec fn is_despawn_plan(keys: Seq<u32>, count: int, kept: Seq<usize>) -> bool {
    &&& kept.len() + count == keys.len()
    &&& forall|a: int, b: int| 0 <= a < b < kept.len() ==> kept[a] < kept[b]
    &&& forall|a: int| 0 <= a < kept.len() ==> kept[a] < keys.len()
    &&& forall|j: usize, m: usize|
        j < keys.len() && !#[trigger] kept.contains(j) && #[trigger] kept.contains(m) ==> keys[j as int]
            >= keys[m as int]
}

proof fn lemma_count_true_update(s: Seq<bool>, i: int)
    requires
        0 <= i < s.len(),
        !s[i],
    ensures
        count_true(s.update(i, true)) == count_true(s) + 1,
    decreases s.len(),
{
    let u = s.update(i, true);
    if i == s.len() - 1 {
        assert(u.drop_last() == s.drop_last());
    } else {
        assert(u.drop_last() == s.drop_last().update(i, true));
        lemma_count_true_update(s.drop_last(), i);
    }
}

proof fn lemma_count_true_all_false(s: Seq<bool>)
    requires
        forall|i: int| 0 <= i < s.len() ==> !s[i],
    ensures
        count_true(s) == 0,
    decreases s.len(),
{
    if s.len() > 0 {
        lemma_count_true_all_false(s.drop_last());
    }
}

/// Fewer `true` entries than entries leaves a `false` one.
proof fn lemma_count_true_has_false(s: Seq<bool>)
    requires
        count_true(s) < s.len(),
    ensures
        exists|i: int| 0 <= i < s.len() && !s[i],
    decreases s.len(),
{
    if s.last() {
        lemma_count_true_has_false(s.drop_last());
        let i = choose|i: int| 0 <= i < s.drop_last().len() && !s.drop_last()[i];
        assert(!s[i]);
    } else {
        assert(!s[s.len() - 1]);
    }
}

proof fn lemma_count_true_take(s: Seq<bool>, i: int)
    requires
        0 <= i < s.len(),
    ensures
        count_true(s.take(i + 1)) == count_true(s.take(i)) + if s[i] {
            1nat
        } else {
            0nat
        },
{
    assert(s.take(i + 1).drop_last() == s.take(i));
}

/// The indices that `kept` lists, as a set.
pub open spec fn kept_set(kept: Seq<usize>) -> Set<int> {
    kept.map_values(|v: usize| v as int).to_set()
}

/// The indices below `n` that `kept` does not list: the particles removed.
pub open spec fn removed_set(n: int, kept: Seq<usize>) -> Set<int> {
    set_int_range(0, n).difference(kept_set(kept))
}

proof fn lemma_kept_set_contains(kept: Seq<usize>, j: usize)
    ensures
        kept_set(kept).contains(j as int) == kept.contains(j),
{
    let s = kept.map_values(|v: usize| v as int);
    if kept.contains(j) {
        let a = choose|a: int| 0 <= a < kept.len() && kept[a] == j;
        assert(s[a] == j as int);
    }
    if kept_set(kept).contains(j as int) {
        let a = choose|a: int| 0 <= a < s.len() && s[a] == j as int;
        assert(kept[a] == j);
    }
}

proof fn lemma_kept_set_len(keys: Seq<u32>, count: int, kept: Seq<usize>)
    requires
        is_despawn_plan(keys, count, kept),
    ensures
        kept_set(kept).finite(),
        kept_set(kept).len() == kept.len(),
        kept_set(kept).subset_of(set_int_range(0, keys.len() as int)),
{
    let s = kept.map_values(|v: usize| v as int);
    assert forall|a: int, b: int| 0 <= a < s.len() && 0 <= b < s.len() && a != b implies s[a] != s[b] by {
        if a < b {
            assert(kept[a] < kept[b]);
        } else {
            assert(kept[b] < kept[a]);
        }
    }
    s.unique_seq_to_set();
    assert forall|x: int| kept_set(kept).contains(x) implies set_int_range(0, keys.len() as int).contains(x) by {
        let a = choose|a: int| 0 <= a < s.len() && s[a] == x;
        assert(kept[a] < keys.len());
    }
}

/// With distinct keys, a despawn plan removes exactly the `count` particles
/// with the highest keys: each one removed has a strictly higher key than
/// each one that stays, `count` are removed, and the rest stay.
pub proof fn lemma_despawn_removes_highest(keys: Seq<u32>, count: int, kept: Seq<usize>)
    requires
        keys.no_duplicates(),
        is_despawn_plan(keys, count, kept),
    ensures
        forall|j: usize, m: usize|
            j < keys.len() && !#[trigger] kept.contains(j) && #[trigger] kept.contains(m) ==> keys[j as int]
                > keys[m as int],
        removed_set(keys.len() as int, kept).len() == count,
        kept.len() == keys.len() - count,
{
    assert forall|j: usize, m: usize|
        j < keys.len() && !#[trigger] kept.contains(j) && #[trigger] kept.contains(m) implies keys[j as int]
            > keys[m as int] by {
        let a = choose|a: int| 0 <= a < kept.len() && kept[a] == m;
        assert(keys[j as int] >= keys[m as int]);
        assert(j != m);
    }
    let n = keys.len() as int;
    lemma_int_range(0, n);
    lemma_kept_set_len(keys, count, kept);
    let r = set_int_range(0, n);
    let k = kept_set(kept);
    lemma_set_difference_len(r, k);
    assert(r.intersect(k) == k);
}

/// With distinct keys, two despawn plans of the same count keep the same
/// particles.
pub proof fn lemma_despawn_plan_unique(keys: Seq<u32>, count: int, kept1: Seq<usize>, kept2: Seq<usize>)
    requires
        keys.no_duplicates(),
        is_despawn_plan(keys, count, kept1),
        is_despawn_plan(keys, count, kept2),
    ensures
        forall|j: usize| kept1.contains(j) <==> kept2.contains(j),
{
    lemma_despawn_removes_highest(keys, count, kept1);
    lemma_despawn_removes_highest(keys, count, kept2);
    lemma_kept_set_len(keys, count, kept1);
    lemma_kept_set_len(keys, count, kept2);
    let k1 = kept_set(kept1);
    let k2 = kept_set(kept2);
    if !k2.subset_of(k1) {
        let x = choose|x: int| k2.contains(x) && !k1.contains(x);
        let xu = x as usize;
        assert(0 <= x < keys.len());
        lemma_kept_set_contains(kept1, xu);
        lemma_kept_set_contains(kept2, xu);
        assert forall|m: int| k1.contains(m) implies k2.contains(m) by {
            assert(0 <= m < keys.len());
            let mu = m as usize;
            lemma_kept_set_contains(kept1, mu);
            lemma_kept_set_contains(kept2, mu);
            if !kept2.contains(mu) {
                assert(keys[m] > keys[x]);
                assert(keys[x] > keys[m]);
            }
        }
        lemma_subset_equality(k1, k2);
    } else {
        lemma_subset_equality(k2, k1);
    }
    assert forall|j: usize| kept1.contains(j) <==> kept2.contains(j) by {
        lemma_kept_set_contains(kept1, j);
        lemma_kept_set_contains(kept2, j);
    }
}

/// Plans a despawn of `count` particles ranked by `keys`: the indices of the
/// particles that stay, in increasing order, or an error when `count`
/// exceeds the number of particles. Between equal keys the lower index
/// leaves first.
pub fn plan_despawn(keys: &Vec<u32>, count: usize) -> (r: Result<Vec<usize>, PopulationError>)
    ensures
        r is Err <==> count > keys.len(),
        r is Err ==> r == Err::<Vec<usize>, PopulationError>(
            PopulationError::DespawnCountTooLarge { count, available: keys.len() },
        ),
        r matches Ok(kept) ==> is_despawn_plan(keys@, count as int, kept@),
        r matches Ok(kept) ==> forall|j: usize, m: usize|
            j < keys.len() && !#[trigger] kept@.contains(j) && #[trigger] kept@.contains(m) && keys[j as int]
                == keys[m as int] ==> j < m,
{
    let n = keys.len();
    if count > n {
        return Err(PopulationError::DespawnCountTooLarge { count, available: n });
    }
    let mut removed: Vec<bool> = Vec::new();
    while removed.len() < n
        invariant
            removed.len() <= n,
            n == keys.len(),
            forall|i: int| 0 <= i < removed.len() ==> !removed[i],
        decreases n - removed.len(),
    {
        removed.push(false);
    }
    proof {
        lemma_count_true_all_false(removed@);
    }
    let mut t: usize = 0;
    while t < count
        invariant
            t <= count <= n,
            n == keys.len(),
            removed.len() == n,
            count_true(removed@) == t,
            forall|j: int, m: int|
                0 <= j < n && 0 <= m < n && #[trigger] removed[j] && !#[trigger] removed[m]
                    ==> keys[j] > keys[m] || (keys[j] == keys[m] && j < m),
        decreases count - t,
    {
        proof {
            lemma_count_true_has_false(removed@);
        }
        let mut best: usize = n;
        let mut i: usize = 0;
        while i < n
            invariant
                i <= n,
                n == keys.len(),
                removed.len() == n,
                best == n || (best < i && !removed[best as int]),
                best == n ==> forall|m: int| 0 <= m < i ==> removed[m],
                best < n ==> forall|m: int|
                    0 <= m < i && !#[trigger] removed[m] ==> keys[best as int] > keys[m] || (keys[best as int]
                        == keys[m] && best <= m),
            decreases n - i,
        {
            if !removed[i] && (best == n || keys[i] > keys[best]) {
                best = i;
            }
            i += 1;
        }
        proof {
            lemma_count_true_update(removed@, best as int);
        }
        removed.set(best, true);
        t += 1;
    }

    let mut kept: Vec<usize> = Vec::new();
    let mut i: usize = 0;
    while i < n
        invariant
            i <= n,
            n == keys.len(),
            removed.len() == n,
            count_true(removed@) == count,
            kept.len() + count_true(removed@.take(i as int)) == i,
            forall|a: int, b: int| 0 <= a < b < kept.len() ==> kept[a] < kept[b],
            forall|a: int| 0 <= a < kept.len() ==> kept[a] < i,
            forall|m: int| 0 <= m < n ==> (kept@.contains(m as usize) <==> (m < i && !removed[m])),
        decreases n - i,
    {
        proof {
            lemma_count_true_take(removed@, i as int);
        }
        let ghost before = kept@;
        if !removed[i] {
            kept.push(i);
        }
        proof {
            assert forall|m: int| 0 <= m < n implies (kept@.contains(m as usize) <==> (m < i + 1
                && !removed[m])) by {
                if before.contains(m as usize) {
                    let a = choose|a: int| 0 <= a < before.len() && before[a] == m as usize;
                    assert(kept@[a] == m as usize);
                }
                if m == i && !removed[m] {
                    assert(kept@[kept.len() - 1] == m as usize);
                }
            }
        }
        i += 1;
    }
    proof {
        assert(removed@.take(n as int) == removed@);
        assert forall|j: usize, m: usize|
            j < keys.len() && !#[trigger] kept@.contains(j) && #[trigger] kept@.contains(m) implies keys@[j as int]
                >= keys@[m as int] by {
            let a = choose|a: int| 0 <= a < kept.len() && kept@[a] == m;
            assert(removed[j as int]);
            assert(!removed[m as int]);
        }
        assert forall|j: usize, m: usize|
            j < keys.len() && !#[trigger] kept@.contains(j) && #[trigger] kept@.contains(m) && keys[j as int]
                == keys[m as int] implies j < m by {
            let a = choose|a: int| 0 <= a < kept.len() && kept@[a] == m;
            assert(removed[j as int]);
            assert(!removed[m as int]);
        }
    }
    Ok(kept)
}

/// The items at the indices `kept` lists, in that order.
pub fn retain_kept<T: Copy>(items: &Vec<T>, kept: &Vec<usize>) -> (r: Vec<T>)
    requires
        forall|a: int| 0 <= a < kept.len() ==> kept[a] < items.len(),
    ensures
        r@.len() == kept@.len(),
        forall|a: int| 0 <= a < kept.len() ==> r@[a] == items@[kept[a] as int],
{
    let mut r: Vec<T> = Vec::new();
    let mut a: usize = 0;
    while a < kept.len()
        invariant
            a <= kept.len(),
            r@.len() == a,
            forall|k: int| 0 <= k < kept.len() ==> kept[k] < items.len(),
            forall|b: int| 0 <= b < a ==> r@[b] == items@[kept[b] as int],
        decreases kept.len() - a,
    {
        r.push(items[kept[a]]);
        a += 1;
    }
    r
}

} // verus!
