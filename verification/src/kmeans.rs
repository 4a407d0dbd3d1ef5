//! Work sharing, nearest-centre grouping and centre selection.
//!
//! Distances never enter this module as such: each one is handed over as an
//! order key, an unsigned integer whose order is the order of the distances.
//! The key `FAR_KEY` stands for the largest finite distance, the bound that
//! every search for a nearest centre starts from.

use rand::Rng;
use vstd::prelude::*;

verus! {

/// The order key of the largest finite distance.
pub const FAR_KEY: u64 = 0x7fef_ffff_ffff_ffff;

/// First index of the share of worker `num` among `max` workers over `total` items.
pub open spec fn share_start(total: nat, num: nat, max: nat) -> nat
    recommends
        max > 0,
{
    (total / max) * num
}

/// Number of items in the share of worker `num`: an equal part, and the rest
/// of the items for the last worker.
pub open spec fn share_len(total: nat, num: nat, max: nat) -> nat
    recommends
        max > 0,
{
    if num + 1 == max {
        (total - share_start(total, num, max)) as nat
    } else {
        total / max
    }
}

/// The share of a worker lies within the items.
pub proof fn lemma_share_start_bound(total: nat, num: nat, max: nat)
    requires
        max > 0,
        num < max,
    ensures
        share_start(total, num, max) + total / max <= total,
        num + 1 == max ==> share_start(total, num, max) <= total,
        share_start(total, num, max) + share_len(total, num, max) <= total,
{
    let q = total / max;
    assert(q * num + q <= q * max) by (nonlinear_arith)
        requires
            num < max,
    ;
    assert(q * max <= total) by (nonlinear_arith)
        requires
            max > 0,
            q == total / max,
    ;
}

/// The range of items that worker `num` of `max` handles: its first index and
/// its length.
pub fn work_range(total: usize, num: usize, max: usize) -> (r: (usize, usize))
    requires
        max > 0,
        share_start(total as nat, num as nat, max as nat) + share_len(
            total as nat,
            num as nat,
            max as nat,
        ) <= usize::MAX,
    ensures
        r.0 == share_start(total as nat, num as nat, max as nat),
        r.1 == share_len(total as nat, num as nat, max as nat),
{
    let range = total / max;
    proof {
        assert(range * num == share_start(total as nat, num as nat, max as nat));
        if num + 1 != max {
            assert(range * num + range <= usize::MAX);
        } else {
            lemma_share_start_bound(total as nat, num as nat, max as nat);
        }
        assert(range * num <= usize::MAX) by (nonlinear_arith)
            requires
                range * num + range <= usize::MAX || (num + 1 == max && range * num <= total),
                total <= usize::MAX,
        ;
    }
    let start = range * num;
    if num == max - 1 {
        proof {
            lemma_share_start_bound(total as nat, num as nat, max as nat);
        }
        (start, total - start)
    } else {
        (start, range)
    }
}

/// The range of items of worker `num` of `max`, or `None` where there are
/// no workers or the range would end beyond `usize::MAX`.
pub fn checked_work_range(total: usize, num: usize, max: usize) -> (r: Option<(usize, usize)>)
    ensures
        r is Some <==> (max > 0 && share_start(total as nat, num as nat, max as nat) + share_len(
            total as nat,
            num as nat,
            max as nat,
        ) <= usize::MAX),
        r matches Some(p) ==> p.0 == share_start(total as nat, num as nat, max as nat) && p.1
            == share_len(total as nat, num as nat, max as nat),
{
    if max == 0 {
        return None;
    }
    if num == max - 1 {
        proof {
            lemma_share_start_bound(total as nat, num as nat, max as nat);
        }
        return Some(work_range(total, num, max));
    }
    let q = total / max;
    match q.checked_mul(num) {
        None => {
            proof {
                assert(q * num <= q * num + q);
            }
            None
        },
        Some(start) => match start.checked_add(q) {
            None => None,
            Some(_) => Some(work_range(total, num, max)),
        },
    }
}

/// `j` is the nearest centre of a point whose distances to the centres have
/// the order keys `keys`: the first centre of least key, provided that key is
/// below `FAR_KEY`.
pub open spec fn is_nearest(keys: Seq<u64>, j: int) -> bool {
    &&& 0 <= j < keys.len()
    &&& keys[j] < FAR_KEY
    &&& forall|i: int| 0 <= i < j ==> keys[j] < #[trigger] keys[i]
    &&& forall|i: int| j < i < keys.len() ==> keys[j] <= #[trigger] keys[i]
}

/// The nearest centre, if some distance is below the bound.
pub open spec fn nearest_index(keys: Seq<u64>) -> Option<int> {
    if exists|j: int| is_nearest(keys, j) {
        Some(choose|j: int| is_nearest(keys, j))
    } else {
        None
    }
}

/// The centre a point joins: its nearest one, or the first when no distance
/// is below the bound.
pub open spec fn center_of(keys: Seq<u64>) -> int {
    match nearest_index(keys) {
        Some(j) => j,
        None => 0,
    }
}

/// At most one centre is the nearest.
pub proof fn lemma_nearest_unique(keys: Seq<u64>, j1: int, j2: int)
    requires
        is_nearest(keys, j1),
        is_nearest(keys, j2),
    ensures
        j1 == j2,
{
    if j1 < j2 {
        assert(keys[j2] < keys[j1]);
    } else if j2 < j1 {
        assert(keys[j1] < keys[j2]);
    }
}

/// A nearest centre exists exactly when some key is below the bound.
pub proof fn lemma_nearest_exists(keys: Seq<u64>)
    ensures
        (exists|j: int| is_nearest(keys, j)) <==> (exists|i: int|
            0 <= i < keys.len() && #[trigger] keys[i] < FAR_KEY),
{
    if exists|i: int| 0 <= i < keys.len() && #[trigger] keys[i] < FAR_KEY {
        let i0 = choose|i: int| 0 <= i < keys.len() && #[trigger] keys[i] < FAR_KEY;
        let j = first_minimum(keys, keys.len() as int);
        lemma_first_minimum(keys, keys.len() as int);
        assert(keys[j] <= keys[i0]);
        assert(is_nearest(keys, j));
    }
}

/// Index of the first least key among the first `n` keys.
spec fn first_minimum(keys: Seq<u64>, n: int) -> int
    decreases n,
{
    if n <= 1 {
        0
    } else {
        let j = first_minimum(keys, n - 1);
        if keys[n - 1] < keys[j] {
            n - 1
        } else {
            j
        }
    }
}

proof fn lemma_first_minimum(keys: Seq<u64>, n: int)
    requires
        0 < n <= keys.len(),
    ensures
        0 <= first_minimum(keys, n) < n,
        forall|i: int| 0 <= i < first_minimum(keys, n) ==> keys[first_minimum(keys, n)] < #[trigger] keys[i],
        forall|i: int| first_minimum(keys, n) < i < n ==> keys[first_minimum(keys, n)] <= #[trigger] keys[i],
    decreases n,
{
    if n > 1 {
        lemma_first_minimum(keys, n - 1);
    }
}

/// The nearest centre of a point, from the order keys of its distances to
/// the centres: centres are scanned in order, and one replaces the best so
/// far only when its key is strictly smaller, starting from `FAR_KEY`.
pub fn nearest(keys: &Vec<u64>) -> (r: Option<usize>)
    ensures
        r == (match nearest_index(keys@) {
            Some(j) => Some(j as usize),
            None => None::<usize>,
        }),
{
    let mut mid: u64 = FAR_KEY;
    let mut flag: Option<usize> = None;
    let n = keys.len();
    for j in 0..n
        invariant
            n == keys@.len(),
            flag is None ==> mid == FAR_KEY && forall|i: int| 0 <= i < j ==> #[trigger] keys@[i] >= FAR_KEY,
            flag matches Some(f) ==> {
                &&& f < j
                &&& mid == keys@[f as int]
                &&& mid < FAR_KEY
                &&& forall|i: int| 0 <= i < f ==> mid < #[trigger] keys@[i]
                &&& forall|i: int| f < i < j ==> mid <= #[trigger] keys@[i]
            },
    {
        if keys[j] < mid {
            mid = keys[j];
            flag = Some(j);
        }
    }
    proof {
        match flag {
            Some(f) => {
                assert(is_nearest(keys@, f as int));
                let c = choose|c: int| is_nearest(keys@, c);
                lemma_nearest_unique(keys@, c, f as int);
            },
            None => {
                if exists|c: int| is_nearest(keys@, c) {
                    let c = choose|c: int| is_nearest(keys@, c);
                    assert(keys@[c] >= FAR_KEY);
                }
            },
        }
    }
    flag
}

/// The points of centre `j`, in increasing order, among the points
/// `start, start + 1, ...` whose distance keys are `keys`.
pub open spec fn group(keys: Seq<Seq<u64>>, start: int, j: int) -> Seq<usize>
    decreases keys.len(),
{
    if keys.len() == 0 {
        Seq::empty()
    } else {
        let before = group(keys.drop_last(), start, j);
        if center_of(keys.last()) == j {
            before.push((start + keys.len() - 1) as usize)
        } else {
            before
        }
    }
}

/// `seed_num` empty groups.
pub(crate) fn empty_groups(seed_num: usize) -> (team: Vec<Vec<usize>>)
    ensures
        team@.len() == seed_num,
        forall|j: int| 0 <= j < seed_num ==> (#[trigger] team@[j])@ == Seq::<usize>::empty(),
{
    let mut team: Vec<Vec<usize>> = Vec::new();
    for j in 0..seed_num
        invariant
            team@.len() == j,
            forall|i: int| 0 <= i < j ==> (#[trigger] team@[i])@ == Seq::<usize>::empty(),
    {
        team.push(Vec::new());
    }
    team
}

/// Groups the points of worker `num`'s share of the `dot_num` points around
/// their nearest centres. `keys[t][j]` is the order key of the distance from
/// the share's point `t` to centre `j`. Group `j` of the result lists, in
/// increasing order, the points whose centre is `j`.
pub fn cluster(keys: &Vec<Vec<u64>>, dot_num: usize, seed_num: usize, num: usize, max: usize) -> (team:
    Vec<Vec<usize>>)
    requires
        max > 0,
        share_start(dot_num as nat, num as nat, max as nat) + share_len(
            dot_num as nat,
            num as nat,
            max as nat,
        ) <= usize::MAX,
        keys@.len() == share_len(dot_num as nat, num as nat, max as nat),
        forall|t: int| 0 <= t < keys@.len() ==> (#[trigger] keys@[t])@.len() == seed_num,
        keys@.len() > 0 ==> seed_num > 0,
    ensures
        team@.len() == seed_num,
        forall|j: int|
            0 <= j < seed_num ==> (#[trigger] team@[j])@ == group(
                keys.deep_view(),
                share_start(dot_num as nat, num as nat, max as nat) as int,
                j,
            ),
{
    let (start, len) = work_range(dot_num, num, max);
    let mut team = empty_groups(seed_num);
    let ghost all = keys.deep_view();
    for t in 0..len
        invariant
            len == keys@.len(),
            all == keys.deep_view(),
            start + len <= usize::MAX,
            team@.len() == seed_num,
            forall|u: int| 0 <= u < keys@.len() ==> (#[trigger] keys@[u])@.len() == seed_num,
            keys@.len() > 0 ==> seed_num > 0,
            forall|j: int|
                0 <= j < seed_num ==> (#[trigger] team@[j])@ == group(all.take(t as int), start as int, j),
    {
        let f = match nearest(&keys[t]) {
            Some(c) => c,
            None => 0,
        };
        proof {
            assert(all[t as int] == keys@[t as int]@);
            assert(all.take(t + 1).drop_last() =~= all.take(t as int));
            assert(all.take(t + 1).last() == all[t as int]);
        }
        team[f].push(start + t);
        proof {
            assert forall|j: int| 0 <= j < seed_num implies (#[trigger] team@[j])@ == group(
                all.take(t + 1),
                start as int,
                j,
            ) by {
                assert(all.take(t + 1).len() == t + 1);
            }
        }
    }
    proof {
        assert(all.take(len as int) =~= all);
    }
    team
}

/// The new centre of a cluster: the member nearest to the cluster's mean,
/// where `keys[p]` is the order key of the distance from member `p` to the
/// mean; the point 0 when no distance is below the bound.
pub open spec fn new_center(members: Seq<usize>, keys: Seq<u64>) -> usize {
    match nearest_index(keys) {
        Some(p) => members[p],
        None => 0,
    }
}

/// The new centres of the clusters `start, start + 1, ...`, where `keys[t]`
/// holds the distance keys of the members of cluster `start + t`; an empty
/// cluster gives no centre.
pub open spec fn new_centers(team: Seq<Seq<usize>>, keys: Seq<Seq<u64>>, start: int) -> Seq<usize>
    decreases keys.len(),
{
    if keys.len() == 0 {
        Seq::empty()
    } else {
        let before = new_centers(team, keys.drop_last(), start);
        let members = team[start + keys.len() - 1];
        if members.len() == 0 {
            before
        } else {
            before.push(new_center(members, keys.last()))
        }
    }
}

/// New centres for worker `num`'s share of the clusters of `team`.
/// `keys[t][p]` is the order key of the distance from member `p` of cluster
/// `start + t` to that cluster's mean, `start` being the first cluster of the
/// share.
pub fn re_seed(team: &Vec<Vec<usize>>, keys: &Vec<Vec<u64>>, num: usize, max: usize) -> (k_num: Vec<
    usize,
>)
    requires
        max > 0,
        share_start(team@.len(), num as nat, max as nat) + share_len(
            team@.len(),
            num as nat,
            max as nat,
        ) <= team@.len(),
        keys@.len() == share_len(team@.len(), num as nat, max as nat),
        forall|t: int|
            0 <= t < keys@.len() ==> (#[trigger] keys@[t])@.len() == team@[share_start(
                team@.len(),
                num as nat,
                max as nat,
            ) + t]@.len(),
    ensures
        k_num@ == new_centers(
            team.deep_view(),
            keys.deep_view(),
            share_start(team@.len(), num as nat, max as nat) as int,
        ),
{
    let (start, len) = work_range(team.len(), num, max);
    let ghost all_keys = keys.deep_view();
    let ghost all_team = team.deep_view();
    let mut k_num: Vec<usize> = Vec::new();
    for t in 0..len
        invariant
            len == keys@.len(),
            all_keys == keys.deep_view(),
            all_team == team.deep_view(),
            max > 0,
            start == share_start(team@.len(), num as nat, max as nat),
            start + len <= team.len(),
            forall|u: int|
                0 <= u < keys@.len() ==> (#[trigger] keys@[u])@.len() == team@[start + u]@.len(),
            k_num@ == new_centers(all_team, all_keys.take(t as int), start as int),
    {
        let members = &team[start + t];
        if members.len() > 0 {
            let pick = match nearest(&keys[t]) {
                Some(p) => members[p],
                None => 0,
            };
            k_num.push(pick);
        }
        proof {
            assert(all_keys[t as int] == keys@[t as int]@);
            assert(all_team[start + t] == team@[start + t]@);
            assert(all_keys.take(t + 1).drop_last() =~= all_keys.take(t as int));
            assert(all_keys.take(t + 1).last() == all_keys[t as int]);
        }
    }
    proof {
        assert(all_keys.take(len as int) =~= all_keys);
    }
    k_num
}

/// `rand::thread_rng().gen_range(lo..hi)`: a value that the thread-local
/// generator draws from `lo..hi` (rand panics on an empty range, hence the
/// `requires`). The value depends on the generator's state; all that is
/// claimed is that it lies in the range.
#[verifier::external_body]
pub(crate) fn draw_in_range(lo: usize, hi: usize) -> (r: usize)
    requires
        lo < hi,
    ensures
        lo <= r < hi,
{
    rand::thread_rng().gen_range(lo..hi)
}

/// The indices `0 .. n`.
fn all_indices(n: usize) -> (pool: Vec<usize>)
    ensures
        pool@ == Seq::new(n as nat, |x: int| x as usize),
{
    let mut pool: Vec<usize> = Vec::new();
    for i in 0..n
        invariant
            pool@ == Seq::new(i as nat, |x: int| x as usize),
    {
        pool.push(i);
        proof {
            assert(pool@ =~= Seq::new((i + 1) as nat, |x: int| x as usize));
        }
    }
    pool
}

/// The undrawn indices and the indices drawn, after drawing positions
/// `draws` from the pool `0 .. dot_num`: each draw takes the index at its
/// position in the pool, and the pool's last index fills that position.
pub open spec fn draw_state(dot_num: nat, draws: Seq<usize>) -> (Seq<usize>, Seq<usize>)
    decreases draws.len(),
{
    if draws.len() == 0 {
        (Seq::new(dot_num, |x: int| x as usize), Seq::empty())
    } else {
        let before = draw_state(dot_num, draws.drop_last());
        let pool = before.0;
        let r = draws.last() as int;
        (pool.update(r, pool.last()).drop_last(), before.1.push(pool[r]))
    }
}

/// Each draw is a position in the pool as it then is: draw `t` is below
/// `dot_num - t`.
pub open spec fn valid_draws(dot_num: nat, draws: Seq<usize>) -> bool {
    &&& draws.len() <= dot_num
    &&& forall|t: int| 0 <= t < draws.len() ==> #[trigger] draws[t] < dot_num - t
}

/// The initial centres that the pool positions `draws` select among the
/// indices `0 .. dot_num`.
pub fn pick_centers(dot_num: usize, draws: &Vec<usize>) -> (k_num: Vec<usize>)
    requires
        valid_draws(dot_num as nat, draws@),
    ensures
        k_num@ == draw_state(dot_num as nat, draws@).1,
        k_num@.len() == draws@.len(),
        k_num@.no_duplicates(),
        forall|i: int| 0 <= i < k_num@.len() ==> #[trigger] k_num@[i] < dot_num,
{
    let seed_num = draws.len();
    let mut pool = all_indices(dot_num);
    let mut k_num: Vec<usize> = Vec::new();
    proof {
        assert(draws@.take(0) =~= Seq::<usize>::empty());
    }
    for t in 0..seed_num
        invariant
            seed_num == draws@.len(),
            valid_draws(dot_num as nat, draws@),
            seed_num <= dot_num,
            (pool@, k_num@) == draw_state(dot_num as nat, draws@.take(t as int)),
            pool@.len() + k_num@.len() == dot_num,
            k_num@.len() == t,
            pool@.no_duplicates(),
            k_num@.no_duplicates(),
            forall|i: int| 0 <= i < pool@.len() ==> #[trigger] pool@[i] < dot_num,
            forall|i: int| 0 <= i < k_num@.len() ==> #[trigger] k_num@[i] < dot_num,
            forall|i: int, l: int|
                0 <= i < pool@.len() && 0 <= l < k_num@.len() ==> #[trigger] pool@[i]
                    != #[trigger] k_num@[l],
    {
        let r = draws[t];
        proof {
            assert(draws@.take(t + 1).drop_last() =~= draws@.take(t as int));
            assert(draws@.take(t + 1).last() == r);
        }
        let ghost before = pool@;
        let ghost chosen = k_num@;
        let picked = pool.swap_remove(r);
        proof {
            assert forall|i: int| 0 <= i < pool@.len() implies #[trigger] pool@[i] != picked
                && exists|m: int| 0 <= m < before.len() && m != r && before[m] == pool@[i] by {
                if i == r {
                    assert(pool@[i] == before[before.len() - 1]);
                } else {
                    assert(pool@[i] == before[i]);
                }
            }
            assert forall|i: int, m: int|
                0 <= i < pool@.len() && 0 <= m < pool@.len() && i != m implies pool@[i]
                != pool@[m] by {
                let ii = if i == r { before.len() - 1 } else { i };
                let mm = if m == r { before.len() - 1 } else { m };
                assert(pool@[i] == before[ii]);
                assert(pool@[m] == before[mm]);
            }
        }
        k_num.push(picked);
        proof {
            assert forall|i: int, l: int|
                0 <= i < pool@.len() && 0 <= l < k_num@.len() implies #[trigger] pool@[i]
                != #[trigger] k_num@[l] by {
                if l < t {
                    let m = choose|m: int| 0 <= m < before.len() && m != r && before[m] == pool@[i];
                    assert(before[m] != k_num@[l]);
                }
            }
            assert forall|i: int, l: int|
                0 <= i < k_num@.len() && 0 <= l < k_num@.len() && i != l implies k_num@[i]
                != k_num@[l] by {
                if i < t && l < t {
                    assert(k_num@[i] == chosen[i] && k_num@[l] == chosen[l]);
                } else if i == t {
                    assert(k_num@[l] == chosen[l]);
                    assert(before[r as int] == picked);
                } else {
                    assert(k_num@[i] == chosen[i]);
                    assert(before[r as int] == picked);
                }
            }
        }
    }
    proof {
        assert(draws@.take(seed_num as int) =~= draws@);
    }
    k_num
}

/// Draws `seed_num` distinct point indices below `dot_num` as the initial
/// centres, each one uniformly among the indices not drawn yet: draw `t` is
/// a position in the pool of the `dot_num - t` indices not drawn yet.
pub fn random_center(seed_num: usize, dot_num: usize) -> (k_num: Vec<usize>)
    requires
        seed_num <= dot_num,
    ensures
        k_num@.len() == seed_num,
        k_num@.no_duplicates(),
        forall|i: int| 0 <= i < seed_num ==> #[trigger] k_num@[i] < dot_num,
        exists|draws: Seq<usize>|
            #![trigger draw_state(dot_num as nat, draws)]
            valid_draws(dot_num as nat, draws) && draws.len() == seed_num && k_num@ == draw_state(
                dot_num as nat,
                draws,
            ).1,
{
    let mut draws: Vec<usize> = Vec::new();
    for t in 0..seed_num
        invariant
            seed_num <= dot_num,
            draws@.len() == t,
            valid_draws(dot_num as nat, draws@),
    {
        let r = draw_in_range(0, dot_num - t);
        draws.push(r);
    }
    let k_num = pick_centers(dot_num, &draws);
    proof {
        assert(valid_draws(dot_num as nat, draws@) && draws@.len() == seed_num && k_num@ == draw_state(
            dot_num as nat,
            draws@,
        ).1);
    }
    k_num
}

/// The shares of workers `0 .. max` tile the items `0 .. total`: the first
/// starts at 0, each starts where the previous one ends, and the last ends
/// at `total`.
pub proof fn lemma_shares_tile(total: nat, max: nat)
    requires
        max > 0,
    ensures
        share_start(total, 0, max) == 0,
        forall|num: nat|
            num + 1 < max ==> share_start(total, num, max) + share_len(total, num, max)
                == #[trigger] share_start(total, num + 1, max),
        share_start(total, (max - 1) as nat, max) + share_len(total, (max - 1) as nat, max) == total,
{
    assert forall|num: nat| num + 1 < max implies share_start(total, num, max) + share_len(
        total,
        num,
        max,
    ) == #[trigger] share_start(total, num + 1, max) by {
        let q = total / max;
        assert(q * num + q == q * (num + 1)) by (nonlinear_arith);
    }
    lemma_share_start_bound(total, (max - 1) as nat, max);
    assert(share_start(total, 0, max) == 0) by (nonlinear_arith)
        requires
            share_start(total, 0, max) == (total / max) * 0,
    {
    }
}

/// A point always joins one of the centres it was measured against.
pub proof fn lemma_center_in_range(keys: Seq<u64>)
    requires
        keys.len() > 0,
    ensures
        0 <= center_of(keys) < keys.len(),
{
    if let Some(j) = nearest_index(keys) {
        let w = choose|w: int| is_nearest(keys, w);
        assert(is_nearest(keys, w));
    }
}

/// Group `j` holds exactly the points whose centre is `j`, in strictly
/// increasing order.
pub proof fn lemma_group_members(keys: Seq<Seq<u64>>, start: int, j: int)
    requires
        0 <= start,
        start + keys.len() <= usize::MAX,
    ensures
        forall|x: usize|
            #[trigger] group(keys, start, j).contains(x) <==> (start <= x < start + keys.len()
                && center_of(keys[x - start]) == j),
        forall|a: int, b: int|
            0 <= a < b < group(keys, start, j).len() ==> #[trigger] group(keys, start, j)[a]
                < #[trigger] group(keys, start, j)[b],
        forall|a: int|
            0 <= a < group(keys, start, j).len() ==> start <= #[trigger] group(keys, start, j)[a]
                < start + keys.len(),
    decreases keys.len(),
{
    if keys.len() > 0 {
        let rest = keys.drop_last();
        lemma_group_members(rest, start, j);
        let g = group(keys, start, j);
        let before = group(rest, start, j);
        let last = (start + keys.len() - 1) as usize;
        assert forall|x: usize| #[trigger] g.contains(x) <==> (start <= x < start + keys.len()
            && center_of(keys[x - start]) == j) by {
            if start <= x < start + rest.len() {
                assert(keys[x - start] == rest[x - start]);
            }
            if center_of(keys.last()) == j {
                assert(g == before.push(last));
                if g.contains(x) {
                    let i = choose|i: int| 0 <= i < g.len() && g[i] == x;
                    if i < before.len() {
                        assert(before.contains(x));
                    }
                }
                if before.contains(x) {
                    let i = choose|i: int| 0 <= i < before.len() && before[i] == x;
                    assert(g[i] == x);
                }
                if x == last {
                    assert(g[before.len() as int] == x);
                }
            } else {
                assert(g == before);
            }
        }
        if center_of(keys.last()) == j {
            assert(g[before.len() as int] == last);
        }
    }
}

/// The groups of consecutive points split where the points split: the
/// groups over `keys` are those over its first `a` points followed by those
/// over the rest.
pub proof fn lemma_group_split(keys: Seq<Seq<u64>>, start: int, a: int, j: int)
    requires
        0 <= a <= keys.len(),
    ensures
        group(keys, start, j) == group(keys.take(a), start, j) + group(keys.skip(a), start + a, j),
    decreases keys.len(),
{
    if a == keys.len() {
        assert(keys.take(a) =~= keys);
        assert(keys.skip(a).len() == 0);
        assert(group(keys, start, j) + Seq::<usize>::empty() =~= group(keys, start, j));
    } else {
        let dl = keys.drop_last();
        lemma_group_split(dl, start, a, j);
        assert(dl.take(a) =~= keys.take(a));
        assert(keys.skip(a).drop_last() =~= dl.skip(a));
        assert(keys.skip(a).last() == keys.last());
        let front = group(keys.take(a), start, j);
        let back = group(dl.skip(a), start + a, j);
        if center_of(keys.last()) == j {
            assert(front + back.push((start + keys.len() - 1) as usize) =~= (front + back).push(
                (start + keys.len() - 1) as usize,
            ));
        }
    }
}

/// Where the first `n` workers' shares end.
pub open spec fn shares_end(total: nat, n: nat, max: nat) -> nat {
    if n == 0 {
        0
    } else {
        share_start(total, (n - 1) as nat, max) + share_len(total, (n - 1) as nat, max)
    }
}

/// The new centres that worker `w` of `max` chooses on its share of the
/// clusters `team`, where `keys[c]` holds the distance keys of the members
/// of cluster `c` to its mean.
pub open spec fn worker_centers(team: Seq<Seq<usize>>, keys: Seq<Seq<u64>>, w: nat, max: nat) -> Seq<
    usize,
> {
    let start = share_start(team.len(), w, max);
    let len = share_len(team.len(), w, max);
    new_centers(team, keys.subrange(start as int, (start + len) as int), start as int)
}

/// The new centres of consecutive clusters split where the clusters split.
pub proof fn lemma_new_centers_split(team: Seq<Seq<usize>>, keys: Seq<Seq<u64>>, start: int, a: int)
    requires
        0 <= a <= keys.len(),
    ensures
        new_centers(team, keys, start) == new_centers(team, keys.take(a), start) + new_centers(
            team,
            keys.skip(a),
            start + a,
        ),
    decreases keys.len(),
{
    if a == keys.len() {
        assert(keys.take(a) =~= keys);
        assert(keys.skip(a).len() == 0);
        assert(new_centers(team, keys, start) + Seq::<usize>::empty() =~= new_centers(team, keys, start));
    } else {
        let dl = keys.drop_last();
        lemma_new_centers_split(team, dl, start, a);
        assert(dl.take(a) =~= keys.take(a));
        assert(keys.skip(a).drop_last() =~= dl.skip(a));
        assert(keys.skip(a).last() == keys.last());
        let front = new_centers(team, keys.take(a), start);
        let back = new_centers(team, dl.skip(a), start + a);
        let members = team[start + keys.len() - 1];
        if members.len() != 0 {
            let c = new_center(members, keys.last());
            assert(front + back.push(c) =~= (front + back).push(c));
        }
    }
}

proof fn lemma_worker_centers_prefix(team: Seq<Seq<usize>>, keys: Seq<Seq<u64>>, max: nat, n: nat)
    requires
        max > 0,
        n <= max,
        keys.len() == team.len(),
    ensures
        shares_end(team.len(), n, max) <= team.len(),
        Seq::new(max, |w: int| worker_centers(team, keys, w as nat, max)).take(n as int).flatten_alt()
            == new_centers(team, keys.take(shares_end(team.len(), n, max) as int), 0),
    decreases n,
{
    let total = team.len();
    let all = Seq::new(max, |w: int| worker_centers(team, keys, w as nat, max));
    lemma_shares_tile(total, max);
    if n == 0 {
        assert(all.take(0).flatten_alt() =~= Seq::<usize>::empty());
        assert(new_centers(team, keys.take(0), 0) == Seq::<usize>::empty());
    } else {
        let w = (n - 1) as nat;
        lemma_worker_centers_prefix(team, keys, max, w);
        let start = share_start(total, w, max);
        let len = share_len(total, w, max);
        if w > 0 {
            assert(share_start(total, (w - 1) as nat, max) + share_len(total, (w - 1) as nat, max)
                == share_start(total, ((w - 1) + 1) as nat, max));
        }
        assert(shares_end(total, w, max) == start);
        lemma_share_start_bound(total, w, max);
        let end = start + len;
        let upto = keys.take(end as int);
        lemma_new_centers_split(team, upto, 0, start as int);
        assert(upto.take(start as int) =~= keys.take(start as int));
        assert(upto.skip(start as int) =~= keys.subrange(start as int, end as int));
        assert(all.take(n as int).drop_last() =~= all.take(w as int));
        assert(all.take(n as int).last() == worker_centers(team, keys, w, max));
    }
}

/// The new centres that the workers choose on their shares of the clusters,
/// joined in the order of the workers, are the new centres that a single
/// worker chooses on all clusters.
pub proof fn lemma_worker_centers_are_global(team: Seq<Seq<usize>>, keys: Seq<Seq<u64>>, max: nat)
    requires
        max > 0,
        keys.len() == team.len(),
    ensures
        Seq::new(max, |w: int| worker_centers(team, keys, w as nat, max)).flatten() == new_centers(
            team,
            keys,
            0,
        ),
{
    let all = Seq::new(max, |w: int| worker_centers(team, keys, w as nat, max));
    lemma_worker_centers_prefix(team, keys, max, max);
    lemma_shares_tile(team.len(), max);
    assert(all.take(max as int) =~= all);
    assert(keys.take(team.len() as int) =~= keys);
    all.lemma_flatten_and_flatten_alt_are_equivalent();
}


/// A point that is itself centre `j`, at distance key 0 from it and at a
/// positive key from every other centre, has centre `j`.
pub proof fn lemma_center_point_center(keys: Seq<u64>, j: int)
    requires
        0 <= j < keys.len(),
        keys[j] == 0,
        forall|i: int| 0 <= i < keys.len() && i != j ==> #[trigger] keys[i] > 0,
    ensures
        center_of(keys) == j,
{
    assert(is_nearest(keys, j));
    let w = choose|w: int| is_nearest(keys, w);
    lemma_nearest_unique(keys, w, j);
}

/// The new centres of clusters that all have members, each with some
/// distance to its mean below the bound: one centre per cluster, each a
/// member of its cluster, and no two alike when no point is in two clusters.
pub proof fn lemma_new_centers_members(team: Seq<Seq<usize>>, keys: Seq<Seq<u64>>)
    requires
        keys.len() <= team.len(),
        forall|c: int| 0 <= c < keys.len() ==> (#[trigger] team[c]).len() > 0,
        forall|c: int| 0 <= c < keys.len() ==> (#[trigger] keys[c]).len() == team[c].len(),
        forall|c: int| 0 <= c < keys.len() ==> has_near_key(#[trigger] keys[c]),
    ensures
        new_centers(team, keys, 0).len() == keys.len(),
        forall|c: int| 0 <= c < keys.len() ==> team[c].contains(#[trigger] new_centers(team, keys, 0)[c]),
        (forall|c1: int, c2: int, x: usize|
            0 <= c1 < c2 < keys.len() ==> !(#[trigger] team[c1].contains(x) && #[trigger] team[c2].contains(x)))
            ==> new_centers(team, keys, 0).no_duplicates(),
    decreases keys.len(),
{
    if keys.len() > 0 {
        let dl = keys.drop_last();
        let n = keys.len() - 1;
        assert forall|c: int| 0 <= c < dl.len() implies has_near_key(#[trigger] dl[c]) by {
            assert(dl[c] == keys[c]);
        }
        lemma_new_centers_members(team, dl);
        assert(keys[n] == keys.last());
        lemma_new_center_is_member(team[n], keys[n]);
        let r = new_centers(team, keys, 0);
        let before = new_centers(team, dl, 0);
        assert(r == before.push(new_center(team[n], keys.last())));
        assert forall|c: int| 0 <= c < keys.len() implies team[c].contains(#[trigger] r[c]) by {
            if c < n {
                assert(r[c] == before[c]);
                assert(dl[c] == keys[c]);
            }
        }
        if forall|c1: int, c2: int, x: usize|
            0 <= c1 < c2 < keys.len() ==> !(#[trigger] team[c1].contains(x) && #[trigger] team[c2].contains(x)) {
            assert forall|a: int, b: int| 0 <= a < r.len() && 0 <= b < r.len() && a != b implies r[a]
                != r[b] by {
                assert(team[a].contains(r[a]));
                assert(team[b].contains(r[b]));
                if a < b {
                    if r[a] == r[b] {
                        assert(team[a].contains(r[a]) && team[b].contains(r[a]));
                    }
                } else {
                    if r[a] == r[b] {
                        assert(team[b].contains(r[b]) && team[a].contains(r[b]));
                    }
                }
            }
        }
    }
}

/// One round keeps the centres: when each centre `k[j]` is a point at key 0
/// from itself and at a positive key from the other centres, grouping the
/// points around the centres and choosing a member nearest to each mean
/// (some distance to each mean being below the bound) gives one new centre
/// per old one, each in the group of its old centre, no two alike.
pub proof fn lemma_round_keeps_centers(keys: Seq<Seq<u64>>, k: Seq<usize>, mean_keys: Seq<Seq<u64>>)
    requires
        keys.len() <= usize::MAX,
        forall|t: int| 0 <= t < keys.len() ==> (#[trigger] keys[t]).len() == k.len(),
        forall|j: int| 0 <= j < k.len() ==> #[trigger] k[j] < keys.len(),
        forall|j: int| 0 <= j < k.len() ==> keys[#[trigger] k[j] as int][j] == 0,
        forall|j: int, i: int|
            0 <= j < k.len() && 0 <= i < k.len() && i != j ==> #[trigger] keys[k[j] as int][i] > 0,
        mean_keys.len() == k.len(),
        forall|c: int|
            0 <= c < k.len() ==> (#[trigger] mean_keys[c]).len() == group(keys, 0, c).len(),
        forall|c: int| 0 <= c < k.len() ==> has_near_key(#[trigger] mean_keys[c]),
    ensures
        ({
            let team = Seq::new(k.len(), |j: int| group(keys, 0, j));
            let next = new_centers(team, mean_keys, 0);
            &&& next.len() == k.len()
            &&& forall|j: int| 0 <= j < k.len() ==> team[j].contains(#[trigger] next[j])
            &&& next.no_duplicates()
        }),
{
    let team = Seq::new(k.len(), |j: int| group(keys, 0, j));
    assert forall|j: int| 0 <= j < k.len() implies #[trigger] group(keys, 0, j).contains(k[j]) by {
        let p = k[j] as int;
        assert forall|i: int| 0 <= i < keys[p].len() && i != j implies #[trigger] keys[p][i] > 0 by {
            assert(keys[k[j] as int][i] > 0);
        }
        lemma_center_point_center(keys[p], j);
        lemma_group_members(keys, 0, j);
        assert((k[j] - 0) as int == p);
    }
    assert forall|c: int| 0 <= c < mean_keys.len() implies (#[trigger] team[c]).len() > 0 by {
        assert(group(keys, 0, c).contains(k[c]));
    }
    assert forall|c1: int, c2: int, x: usize|
        0 <= c1 < c2 < mean_keys.len() implies !(#[trigger] team[c1].contains(x) && #[trigger] team[c2].contains(x)) by {
        lemma_group_members(keys, 0, c1);
        lemma_group_members(keys, 0, c2);
    }
    lemma_new_centers_members(team, mean_keys);
}


/// There are at most as many new centres as clusters.
pub proof fn lemma_new_centers_len(team: Seq<Seq<usize>>, keys: Seq<Seq<u64>>, start: int)
    ensures
        new_centers(team, keys, start).len() <= keys.len(),
    decreases keys.len(),
{
    if keys.len() > 0 {
        lemma_new_centers_len(team, keys.drop_last(), start);
    }
}


/// Every index below `dot_num` can be the first centre: the draw of
/// position `i` first selects index `i`, and any later draws are valid.
pub proof fn lemma_any_index_can_be_drawn_first(dot_num: nat, seed_num: nat, i: usize)
    requires
        i < dot_num,
        1 <= seed_num <= dot_num,
    ensures
        valid_draws(dot_num, Seq::new(seed_num, |t: int| if t == 0 { i } else { 0usize })),
        draw_state(dot_num, Seq::new(seed_num, |t: int| if t == 0 { i } else { 0usize })).1[0] == i,
{
    let d = Seq::new(seed_num, |t: int| if t == 0 { i } else { 0usize });
    lemma_draw_state_prefix(dot_num, d, 1);
    assert(d.take(1).drop_last() =~= Seq::<usize>::empty());
    assert(d.take(1).last() == i);
    assert(draw_state(dot_num, Seq::<usize>::empty()).0[i as int] == i);
    assert(draw_state(dot_num, d.take(1)).1 =~= seq![i]);
    assert(draw_state(dot_num, d).1.take(1)[0] == draw_state(dot_num, d).1[0]);
}

/// Later draws keep the centres drawn before.
proof fn lemma_draw_state_prefix(dot_num: nat, draws: Seq<usize>, n: int)
    requires
        0 <= n <= draws.len(),
    ensures
        draw_state(dot_num, draws).1.len() == draws.len(),
        draw_state(dot_num, draws).1.take(n) == draw_state(dot_num, draws.take(n)).1,
    decreases draws.len(),
{
    if n == draws.len() {
        assert(draws.take(n) =~= draws);
        if draws.len() > 0 {
            lemma_draw_state_prefix(dot_num, draws.drop_last(), 0);
        }
        assert(draw_state(dot_num, draws).1.take(n) =~= draw_state(dot_num, draws).1);
    } else {
        let d = draws.drop_last();
        lemma_draw_state_prefix(dot_num, d, n);
        assert(d.take(n) =~= draws.take(n));
        assert(draw_state(dot_num, draws).1.take(n) =~= draw_state(dot_num, d).1.take(n));
    }
}

/// Every point of a share lies in exactly one group of `cluster`: the group
/// of its centre.
pub proof fn lemma_cluster_partitions(keys: Seq<Seq<u64>>, start: int, seed_num: int)
    requires
        0 <= start,
        start + keys.len() <= usize::MAX,
        forall|t: int| 0 <= t < keys.len() ==> (#[trigger] keys[t]).len() == seed_num,
        keys.len() > 0 ==> seed_num > 0,
    ensures
        forall|t: int, j: int|
            0 <= t < keys.len() && 0 <= j < seed_num ==> (#[trigger] group(keys, start, j).contains(
                (start + t) as usize,
            ) <==> j == center_of(keys[t])),
        forall|t: int|
            0 <= t < keys.len() ==> 0 <= #[trigger] center_of(keys[t]) < seed_num,
{
    assert forall|t: int| 0 <= t < keys.len() implies 0 <= #[trigger] center_of(keys[t]) < seed_num by {
        lemma_center_in_range(keys[t]);
    }
    assert forall|t: int, j: int| 0 <= t < keys.len() && 0 <= j < seed_num implies (
    #[trigger] group(keys, start, j).contains((start + t) as usize) <==> j == center_of(keys[t])) by {
        lemma_group_members(keys, start, j);
        assert(((start + t) as usize) - start == t);
    }
}

/// Some key is below the bound.
pub open spec fn has_near_key(keys: Seq<u64>) -> bool {
    exists|i: int| 0 <= i < keys.len() && #[trigger] keys[i] < FAR_KEY
}

/// The new centre of a cluster is one of its members, unless no distance
/// to the mean is below the bound.
pub proof fn lemma_new_center_is_member(members: Seq<usize>, keys: Seq<u64>)
    requires
        keys.len() == members.len(),
        has_near_key(keys),
    ensures
        members.contains(new_center(members, keys)),
{
    lemma_nearest_exists(keys);
    let w = choose|w: int| is_nearest(keys, w);
    assert(members[w] == new_center(members, keys));
}

} // verus!
