use vstd::prelude::*;

verus! {

/// Number of children an asteroid breaks into when hit: none at stage 0,
/// two at stage 1, four from stage 2 on.
pub open spec fn child_count_spec(split_stage: u8) -> nat {
    if split_stage == 0 {
        0
    } else if split_stage >= 2 {
        4
    } else {
        2
    }
}

/// Split stages of the children of an asteroid at `split_stage`, in spawn order.
pub open spec fn child_stages_spec(split_stage: u8) -> Seq<u8> {
    Seq::new(child_count_spec(split_stage), |k: int| (split_stage - 1) as u8)
}

/// Number of children an asteroid at `split_stage` breaks into.
pub fn child_count(split_stage: u8) -> (n: usize)
    ensures
        n == child_count_spec(split_stage),
{
    if split_stage == 0 {
        0
    } else if split_stage >= 2 {
        4
    } else {
        2
    }
}

/// Split stage of each child of an asteroid at `split_stage`: one less than
/// the parent's, for each child in spawn order.
pub fn child_stages(split_stage: u8) -> (r: Vec<u8>)
    ensures
        r@ == child_stages_spec(split_stage),
{
    let n = child_count(split_stage);
    let mut r: Vec<u8> = Vec::new();
    let mut k: usize = 0;
    while k < n
        invariant
            n == child_count_spec(split_stage),
            n > 0 ==> split_stage > 0,
            k <= n,
            r@ == Seq::new(k as nat, |j: int| (split_stage - 1) as u8),
        decreases n - k,
    {
        r.push(split_stage - 1);
        k = k + 1;
        assert(r@ =~= Seq::new(k as nat, |j: int| (split_stage - 1) as u8));
    }
    assert(r@ =~= child_stages_spec(split_stage));
    r
}

/// Splitting never raises the stage: a stage-2 asteroid yields four children
/// at stage 1, a stage-1 asteroid two children at stage 0, and a stage-0
/// asteroid none.
pub proof fn lemma_split_conservation(split_stage: u8)
    ensures
        split_stage == 2 ==> child_stages_spec(split_stage) == seq![1u8, 1u8, 1u8, 1u8],
        split_stage == 1 ==> child_stages_spec(split_stage) == seq![0u8, 0u8],
        split_stage == 0 ==> child_stages_spec(split_stage).len() == 0,
        forall|k: int|
            0 <= k < child_stages_spec(split_stage).len() ==> #[trigger] child_stages_spec(
                split_stage,
            )[k] < split_stage,
{
    if split_stage == 2 {
        assert(child_stages_spec(split_stage) =~= seq![1u8, 1u8, 1u8, 1u8]);
    }
    if split_stage == 1 {
        assert(child_stages_spec(split_stage) =~= seq![0u8, 0u8]);
    }
}

/// Asteroid `a` was already destroyed by one of the first `p` projectiles.
pub open spec fn claimed(hit: Seq<Option<usize>>, p: int, a: int) -> bool {
    exists|q: int| 0 <= q < p && hit[q] == Some(a as usize)
}

/// Projectile `p`'s outcome is the first asteroid, in list order, that it
/// touches and that no earlier projectile destroyed; none if there is no such.
pub open spec fn first_live_hit(hits: Seq<Vec<bool>>, hit: Seq<Option<usize>>, p: int, n: int) -> bool {
    match hit[p] {
        Some(a) => {
            &&& a < n
            &&& hits[p]@[a as int]
            &&& !claimed(hit, p, a as int)
            &&& forall|b: int| 0 <= b < a && #[trigger] hits[p]@[b] ==> claimed(hit, p, b)
        },
        None => forall|b: int| 0 <= b < n && #[trigger] hits[p]@[b] ==> claimed(hit, p, b),
    }
}

/// What a sweep of the projectiles over the asteroids decided.
pub struct HitSweep {
    /// For each projectile, the asteroid it destroyed, if any.
    pub hit: Vec<Option<usize>>,
    /// For each asteroid, whether it survives the sweep.
    pub asteroid_alive: Vec<bool>,
    /// For each projectile, whether it survives the sweep.
    pub projectile_alive: Vec<bool>,
}

/// Sweeps the projectiles in order over the asteroids in order, where
/// `hits[p][a]` tells whether projectile `p` touches asteroid `a`: each
/// projectile destroys the first still-live asteroid it touches and is spent;
/// it destroys at most one.
pub fn sweep_projectile_hits(hits: &Vec<Vec<bool>>, n_asteroids: usize) -> (r: HitSweep)
    requires
        forall|p: int| 0 <= p < hits@.len() ==> #[trigger] hits@[p]@.len() == n_asteroids,
    ensures
        r.hit@.len() == hits@.len(),
        r.asteroid_alive@.len() == n_asteroids,
        r.projectile_alive@.len() == hits@.len(),
        forall|p: int|
            0 <= p < hits@.len() ==> #[trigger] first_live_hit(
                hits@,
                r.hit@,
                p,
                n_asteroids as int,
            ),
        forall|p: int|
            0 <= p < hits@.len() ==> #[trigger] r.projectile_alive@[p] == (r.hit@[p] is None),
        forall|a: int|
            0 <= a < n_asteroids ==> #[trigger] r.asteroid_alive@[a] == !claimed(
                r.hit@,
                hits@.len() as int,
                a,
            ),
{
    let mut alive: Vec<bool> = Vec::new();
    let mut a: usize = 0;
    while a < n_asteroids
        invariant
            a <= n_asteroids,
            alive@ == Seq::new(a as nat, |j: int| true),
        decreases n_asteroids - a,
    {
        alive.push(true);
        a = a + 1;
        assert(alive@ =~= Seq::new(a as nat, |j: int| true));
    }
    let mut hit: Vec<Option<usize>> = Vec::new();
    let mut proj_alive: Vec<bool> = Vec::new();
    let mut p: usize = 0;
    while p < hits.len()
        invariant
            forall|q: int| 0 <= q < hits@.len() ==> #[trigger] hits@[q]@.len() == n_asteroids,
            p <= hits@.len(),
            hit@.len() == p,
            proj_alive@.len() == p,
            alive@.len() == n_asteroids,
            forall|q: int| 0 <= q < p ==> #[trigger] first_live_hit(hits@, hit@, q, n_asteroids as int),
            forall|q: int| 0 <= q < p ==> #[trigger] proj_alive@[q] == (hit@[q] is None),
            forall|b: int| 0 <= b < n_asteroids ==> #[trigger] alive@[b] == !claimed(hit@, p as int, b),
        decreases hits@.len() - p,
    {
        let row = &hits[p];
        let ghost prev = hit@;
        let mut found: Option<usize> = None;
        let mut a: usize = 0;
        while a < n_asteroids
            invariant_except_break
                found is None,
            invariant
                row@ == hits@[p as int]@,
                row@.len() == n_asteroids,
                p < hits@.len(),
                alive@.len() == n_asteroids,
                hit@ == prev,
                prev.len() == p,
                forall|b: int| 0 <= b < n_asteroids ==> #[trigger] alive@[b] == !claimed(prev, p as int, b),
                a <= n_asteroids,
                forall|b: int| 0 <= b < a && #[trigger] hits@[p as int]@[b] ==> claimed(prev, p as int, b),
            ensures
                match found {
                    Some(x) => x < n_asteroids && hits@[p as int]@[x as int] && !claimed(prev, p as int, x as int)
                        && forall|b: int| 0 <= b < x && #[trigger] hits@[p as int]@[b] ==> claimed(prev, p as int, b),
                    None => forall|b: int| 0 <= b < n_asteroids && #[trigger] hits@[p as int]@[b] ==> claimed(prev, p as int, b),
                },
            decreases n_asteroids - a,
        {
            if alive[a] && row[a] {
                found = Some(a);
                break;
            }
            a = a + 1;
        }
        hit.push(found);
        proof {
            assert forall|q: int| 0 <= q < p implies first_live_hit(hits@, hit@, q, n_asteroids as int) by {
                assert(first_live_hit(hits@, prev, q, n_asteroids as int));
                assert forall|b: int| claimed(prev, q, b) == claimed(hit@, q, b) by {
                    if claimed(prev, q, b) {
                        let w = choose|w: int| 0 <= w < q && prev[w] == Some(b as usize);
                        assert(hit@[w] == prev[w]);
                    }
                    if claimed(hit@, q, b) {
                        let w = choose|w: int| 0 <= w < q && hit@[w] == Some(b as usize);
                        assert(hit@[w] == prev[w]);
                    }
                }
            }
            assert forall|b: int| claimed(prev, p as int, b) == claimed(hit@, p as int, b) by {
                if claimed(prev, p as int, b) {
                    let w = choose|w: int| 0 <= w < p && prev[w] == Some(b as usize);
                    assert(hit@[w] == prev[w]);
                }
                if claimed(hit@, p as int, b) {
                    let w = choose|w: int| 0 <= w < p && hit@[w] == Some(b as usize);
                    assert(hit@[w] == prev[w]);
                }
            }
            assert(first_live_hit(hits@, hit@, p as int, n_asteroids as int));
        }
        match found {
            Some(x) => {
                alive.set(x, false);
                proj_alive.push(false);
            },
            None => {
                proj_alive.push(true);
            },
        }
        proof {
            assert forall|b: int| 0 <= b < n_asteroids implies #[trigger] alive@[b] == !claimed(
                hit@,
                (p + 1) as int,
                b,
            ) by {
                if claimed(hit@, (p + 1) as int, b) && !claimed(prev, p as int, b) {
                    let w = choose|w: int| 0 <= w < p + 1 && hit@[w] == Some(b as usize);
                    if w < p {
                        assert(hit@[w] == prev[w]);
                        assert(claimed(prev, p as int, b));
                    }
                }
                if claimed(prev, p as int, b) {
                    let w = choose|w: int| 0 <= w < p && prev[w] == Some(b as usize);
                    assert(hit@[w] == prev[w]);
                    assert(claimed(hit@, (p + 1) as int, b));
                }
                if found == Some(b as usize) {
                    assert(hit@[p as int] == Some(b as usize));
                    assert(claimed(hit@, (p + 1) as int, b));
                }
            }
        }
        p = p + 1;
    }
    HitSweep { hit, asteroid_alive: alive, projectile_alive: proj_alive }
}

/// The items of `s` whose flag in `keep` is set, in their order.
pub open spec fn kept<T>(s: Seq<T>, keep: Seq<bool>) -> Seq<T>
    decreases s.len(),
{
    if s.len() == 0 {
        Seq::empty()
    } else {
        let rest = kept(s.drop_last(), keep.take(s.len() - 1));
        if keep[s.len() - 1] {
            rest.push(s.last())
        } else {
            rest
        }
    }
}

/// Keeps the items whose flag is set, in their order.
pub fn retain_flagged<T: Copy>(items: &Vec<T>, keep: &Vec<bool>) -> (r: Vec<T>)
    requires
        keep@.len() == items@.len(),
    ensures
        r@ == kept(items@, keep@),
{
    let mut r: Vec<T> = Vec::new();
    let mut i: usize = 0;
    while i < items.len()
        invariant
            keep@.len() == items@.len(),
            i <= items@.len(),
            r@ == kept(items@.take(i as int), keep@.take(i as int)),
        decreases items@.len() - i,
    {
        let ghost before = r@;
        proof {
            let s = items@.take(i + 1);
            let k = keep@.take(i + 1);
            assert(s.drop_last() =~= items@.take(i as int));
            assert(k.take(s.len() - 1) =~= keep@.take(i as int));
        }
        if keep[i] {
            r.push(items[i]);
        }
        i = i + 1;
    }
    assert(items@.take(items@.len() as int) =~= items@);
    assert(keep@.take(keep@.len() as int) =~= keep@);
    r
}

/// The asteroid list after a sweep: the survivors in their order, then the
/// newly spawned children.
pub fn rebuild_with_children<T: Copy>(items: &Vec<T>, alive: &Vec<bool>, children: &Vec<T>) -> (r: Vec<T>)
    requires
        alive@.len() == items@.len(),
    ensures
        r@ == kept(items@, alive@) + children@,
{
    let mut r = retain_flagged(items, alive);
    let mut k: usize = 0;
    let ghost base = r@;
    while k < children.len()
        invariant
            k <= children@.len(),
            r@ == base + children@.take(k as int),
        decreases children@.len() - k,
    {
        r.push(children[k]);
        k = k + 1;
        assert(r@ =~= base + children@.take(k as int));
    }
    assert(children@.take(children@.len() as int) =~= children@);
    r
}

/// The pairs (i, j) with i < j < n whose first index is `i`, by ascending `j`.
pub open spec fn pairs_of(i: nat, n: nat) -> Seq<(usize, usize)> {
    Seq::new((n - i - 1) as nat, |k: int| (i as usize, (i + 1 + k) as usize))
}

/// All pairs (i, j) with i < j < n and i below `m`, in ascending order of
/// i, then j.
pub open spec fn pairs_below(m: nat, n: nat) -> Seq<(usize, usize)>
    decreases m,
{
    if m == 0 {
        Seq::empty()
    } else {
        pairs_below((m - 1) as nat, n) + pairs_of((m - 1) as nat, n)
    }
}

/// The order in which pairs of `n` asteroids are resolved each tick: every
/// pair once, by ascending first index, then ascending second index.
pub fn collision_pairs(n: usize) -> (r: Vec<(usize, usize)>)
    ensures
        r@ == pairs_below(n as nat, n as nat),
{
    let mut r: Vec<(usize, usize)> = Vec::new();
    let mut i: usize = 0;
    while i < n
        invariant
            i <= n,
            r@ == pairs_below(i as nat, n as nat),
        decreases n - i,
    {
        let ghost base = r@;
        let mut j: usize = i + 1;
        while j < n
            invariant
                i < n,
                i + 1 <= j <= n,
                r@ == base + pairs_of(i as nat, n as nat).take(j - i - 1),
            decreases n - j,
        {
            r.push((i, j));
            j = j + 1;
            assert(r@ =~= base + pairs_of(i as nat, n as nat).take(j - i - 1));
        }
        assert(pairs_of(i as nat, n as nat).take(n - i - 1) =~= pairs_of(i as nat, n as nat));
        i = i + 1;
    }
    r
}

/// Each pair of distinct asteroids is resolved exactly once per tick: every
/// listed pair has i < j < n, and each such pair stands at exactly one place.
pub proof fn lemma_each_pair_once(n: nat, i: nat, j: nat)
    requires
        i < j < n <= usize::MAX,
    ensures
        forall|k: int|
            0 <= k < pairs_below(n, n).len() ==> #[trigger] pairs_below(n, n)[k].0 < pairs_below(
                n,
                n,
            )[k].1 < n,
        exists|k: int|
            0 <= k < pairs_below(n, n).len() && #[trigger] pairs_below(n, n)[k] == (
                i as usize,
                j as usize,
            ),
        forall|k: int, l: int|
            0 <= k < l < pairs_below(n, n).len() ==> #[trigger] pairs_below(n, n)[k]
                != #[trigger] pairs_below(n, n)[l],
{
    lemma_pairs_below(n, n);
    lemma_pair_index(i, j, n, n);
    let k = pair_index(i, j, n);
    assert(pairs_below(n, n)[k] == (i as usize, j as usize));
}

/// Position of pair (i, j) in the resolution order.
spec fn pair_index(i: nat, j: nat, n: nat) -> int {
    pairs_below(i, n).len() + (j - i - 1)
}

/// Every entry of `pairs_below(m, n)` is an ordered pair below `n` whose
/// first index is below `m`, and entries are ordered lexicographically.
proof fn lemma_pairs_below(m: nat, n: nat)
    requires
        m <= n <= usize::MAX,
    ensures
        forall|k: int|
            0 <= k < pairs_below(m, n).len() ==> #[trigger] pairs_below(m, n)[k].0 < pairs_below(
                m,
                n,
            )[k].1 < n && pairs_below(m, n)[k].0 < m,
        forall|k: int, l: int|
            0 <= k < l < pairs_below(m, n).len() ==> #[trigger] pairs_below(m, n)[k]
                != #[trigger] pairs_below(m, n)[l],
    decreases m,
{
    if m > 0 {
        lemma_pairs_below((m - 1) as nat, n);
        let a = pairs_below((m - 1) as nat, n);
        let b = pairs_of((m - 1) as nat, n);
        assert forall|k: int| 0 <= k < pairs_below(m, n).len() implies #[trigger] pairs_below(m, n)[k].0
            < pairs_below(m, n)[k].1 < n && pairs_below(m, n)[k].0 < m by {
            assert(pairs_below(m, n) == a + b);
            if k >= a.len() {
                assert(pairs_below(m, n)[k] == b[k - a.len()]);
                assert(b[k - a.len()].0 == m - 1);
                assert(b[k - a.len()].1 == m + (k - a.len()));
            } else {
                assert(pairs_below(m, n)[k] == a[k]);
                assert(a[k].0 < a[k].1 < n);
                assert(a[k].0 < m - 1);
            }
        }
        assert forall|k: int, l: int| 0 <= k < l < pairs_below(m, n).len() implies #[trigger] pairs_below(m, n)[k]
            != #[trigger] pairs_below(m, n)[l] by {
            if l < a.len() {
                assert(pairs_below(m, n)[k] == a[k]);
                assert(pairs_below(m, n)[l] == a[l]);
            } else if k >= a.len() {
                assert(pairs_below(m, n)[k] == b[k - a.len()]);
                assert(pairs_below(m, n)[l] == b[l - a.len()]);
            } else {
                assert(pairs_below(m, n)[k] == a[k]);
                assert(a[k].0 < m - 1);
                assert(pairs_below(m, n)[l] == b[l - a.len()]);
            }
        }
    }
}

/// Pair (i, j) stands at `pair_index(i, j, n)` in `pairs_below(m, n)` for every m > i.
proof fn lemma_pair_index(i: nat, j: nat, n: nat, m: nat)
    requires
        i < j < n <= usize::MAX,
        i < m <= n,
    ensures
        0 <= pair_index(i, j, n) < pairs_below(m, n).len(),
        pairs_below(m, n)[pair_index(i, j, n)] == (i as usize, j as usize),
    decreases m,
{
    let a = pairs_below((m - 1) as nat, n);
    if m - 1 == i {
        assert(pairs_below(m, n)[a.len() + (j - i - 1)] == pairs_of(i, n)[j - i - 1]);
    } else {
        lemma_pair_index(i, j, n, (m - 1) as nat);
        assert(pairs_below(m, n)[pair_index(i, j, n)] == a[pair_index(i, j, n)]);
    }
}

} // verus!
