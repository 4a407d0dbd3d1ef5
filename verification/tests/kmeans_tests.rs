use kmeans::kmeans::{
    checked_work_range, cluster, nearest, pick_centers, random_center, re_seed, work_range, FAR_KEY,
};

fn key(a: (f64, f64), b: (f64, f64)) -> u64 {
    ((b.0 - a.0).powf(2.0) + (b.1 - a.1).powf(2.0)).powf(0.5).to_bits()
}

fn points() -> Vec<(f64, f64)> {
    vec![(1.0, 2.0), (3.0, 4.0), (5.0, 6.0), (8.0, 8.0)]
}

fn cluster_keys(p: &[(f64, f64)], k_num: &[usize], start: usize, len: usize) -> Vec<Vec<u64>> {
    (start..start + len).map(|i| k_num.iter().map(|&c| key(p[i], p[c])).collect()).collect()
}

fn seed_keys(p: &[(f64, f64)], team: &[Vec<usize>], start: usize, len: usize) -> Vec<Vec<u64>> {
    (start..start + len)
        .map(|c| {
            let members = &team[c];
            if members.is_empty() {
                return Vec::new();
            }
            let n = members.len() as f64;
            let mean = (
                members.iter().map(|&i| p[i].0).sum::<f64>() / n,
                members.iter().map(|&i| p[i].1).sum::<f64>() / n,
            );
            members.iter().map(|&i| key(p[i], mean)).collect()
        })
        .collect()
}

#[test]
fn cluster_groups_points_around_nearest_centre() {
    let p = points();
    let k_num = vec![2, 3];
    let (start, len) = work_range(p.len(), 0, 1);
    let keys = cluster_keys(&p, &k_num, start, len);
    assert_eq!(cluster(&keys, p.len(), k_num.len(), 0, 1), vec![vec![0, 1, 2], vec![3]]);
}

#[test]
fn re_seed_picks_member_nearest_to_mean() {
    let p = points();
    let team = vec![vec![0, 1, 2], vec![3]];
    let (start, len) = work_range(team.len(), 0, 1);
    let keys = seed_keys(&p, &team, start, len);
    assert_eq!(re_seed(&team, &keys, 0, 1), vec![1, 3]);
}

#[test]
fn re_seed_skips_empty_clusters_and_takes_its_share() {
    let team = vec![vec![4], vec![], vec![7, 9]];
    // worker 1 of 2 takes the last two clusters
    let keys = vec![vec![], vec![5, 3]];
    assert_eq!(re_seed(&team, &keys, 1, 2), vec![9]);
    // worker 0 of 2 takes the first cluster
    assert_eq!(re_seed(&team, &vec![vec![1]], 0, 2), vec![4]);
}

#[test]
fn re_seed_gives_point_zero_when_no_distance_is_below_bound() {
    let team = vec![vec![6, 7]];
    let keys = vec![vec![FAR_KEY, u64::MAX]];
    assert_eq!(re_seed(&team, &keys, 0, 1), vec![0]);
}

#[test]
fn work_range_shares_and_last_worker_takes_the_rest() {
    assert_eq!(work_range(10, 0, 3), (0, 3));
    assert_eq!(work_range(10, 1, 3), (3, 3));
    assert_eq!(work_range(10, 2, 3), (6, 4));
    assert_eq!(work_range(2, 0, 3), (0, 0));
    assert_eq!(work_range(2, 2, 3), (0, 2));
}

#[test]
fn shares_tile_the_items() {
    for total in 0..40usize {
        for max in 1..7usize {
            let mut next = 0;
            for num in 0..max {
                let (start, len) = work_range(total, num, max);
                assert_eq!(start, next);
                next = start + len;
            }
            assert_eq!(next, total);
        }
    }
}

#[test]
fn checked_work_range_refuses_zero_workers_and_overflow() {
    assert_eq!(checked_work_range(10, 0, 0), None);
    assert_eq!(checked_work_range(usize::MAX, usize::MAX, 2), None);
    assert_eq!(checked_work_range(10, 1, 2), Some((5, 5)));
    assert_eq!(checked_work_range(3, 7, 4), Some((0, 0)));
}

#[test]
fn nearest_takes_first_least_key_below_bound() {
    assert_eq!(nearest(&vec![5, 3, 3, 9]), Some(1));
    assert_eq!(nearest(&vec![]), None);
    assert_eq!(nearest(&vec![FAR_KEY, FAR_KEY + 1]), None);
    assert_eq!(nearest(&vec![FAR_KEY, FAR_KEY - 1]), Some(1));
}

#[test]
fn cluster_without_distance_below_bound_joins_first_centre() {
    let keys = vec![vec![FAR_KEY, FAR_KEY], vec![7, 2]];
    assert_eq!(cluster(&keys, 2, 2, 0, 1), vec![vec![0], vec![1]]);
}

#[test]
fn cluster_partitions_a_worker_share() {
    // worker 1 of 2 over 5 points takes points 2, 3, 4
    let keys = vec![vec![1, 2, 3], vec![9, 2, 2], vec![4, 4, 0]];
    let team = cluster(&keys, 5, 3, 1, 2);
    assert_eq!(team, vec![vec![2], vec![3], vec![4]]);
    let mut all: Vec<usize> = team.concat();
    all.sort();
    assert_eq!(all, vec![2, 3, 4]);
}

#[test]
fn random_center_draws_distinct_indices() {
    for _ in 0..20 {
        let k = random_center(5, 10);
        assert_eq!(k.len(), 5);
        let mut sorted = k.clone();
        sorted.sort();
        sorted.dedup();
        assert_eq!(sorted.len(), 5);
        assert!(k.iter().all(|&i| i < 10));
    }
}

#[test]
fn random_center_of_all_points_is_a_permutation() {
    let mut k = random_center(6, 6);
    k.sort();
    assert_eq!(k, vec![0, 1, 2, 3, 4, 5]);
    assert_eq!(random_center(0, 0), Vec::<usize>::new());
}

#[test]
fn sharing_the_work_gives_the_groups_of_a_single_node() {
    let p: Vec<(f64, f64)> = (0..11).map(|i| ((i * 37 % 19) as f64, (i * 11 % 7) as f64)).collect();
    let k_num = vec![0, 4, 9];
    let single = cluster(&cluster_keys(&p, &k_num, 0, p.len()), p.len(), 3, 0, 1);
    for max in 1..5 {
        let mut merged: Vec<Vec<usize>> = vec![Vec::new(); 3];
        for num in 0..max {
            let (start, len) = work_range(p.len(), num, max);
            let team = cluster(&cluster_keys(&p, &k_num, start, len), p.len(), 3, num, max);
            for j in 0..3 {
                merged[j].extend(&team[j]);
            }
        }
        assert_eq!(merged, single);
    }
}

#[test]
fn random_center_draws_vary() {
    let first = random_center(5, 1000);
    assert!((0..20).any(|_| random_center(5, 1000) != first));
}

#[test]
fn pick_centers_takes_pool_positions() {
    // pool 0..5: position 0 takes 0 and 4 fills it; then 4; then 3 (moved in)
    assert_eq!(pick_centers(5, &vec![0, 0, 0]), vec![0, 4, 3]);
    assert_eq!(pick_centers(4, &vec![3, 1, 1, 0]), vec![3, 1, 2, 0]);
    assert_eq!(pick_centers(3, &vec![]), Vec::<usize>::new());
}

#[test]
fn sharing_the_clusters_gives_the_centres_of_a_single_node() {
    let p: Vec<(f64, f64)> = (0..13).map(|i| ((i * 29 % 17) as f64, (i * 7 % 11) as f64)).collect();
    let team = vec![vec![0, 3, 5], vec![], vec![1, 2], vec![4, 6, 7, 8], vec![9, 10, 11, 12]];
    let single = re_seed(&team, &seed_keys(&p, &team, 0, team.len()), 0, 1);
    for max in 1..6 {
        let mut joined = Vec::new();
        for num in 0..max {
            let (start, len) = work_range(team.len(), num, max);
            joined.extend(re_seed(&team, &seed_keys(&p, &team, start, len), num, max));
        }
        assert_eq!(joined, single);
    }
}

#[test]
fn a_round_keeps_one_centre_per_centre() {
    let p = points();
    let k_num = vec![0, 3];
    let team = cluster(&cluster_keys(&p, &k_num, 0, p.len()), p.len(), 2, 0, 1);
    let next = re_seed(&team, &seed_keys(&p, &team, 0, team.len()), 0, 1);
    assert_eq!(next.len(), k_num.len());
    for j in 0..2 {
        assert!(team[j].contains(&next[j]));
    }
    assert_ne!(next[0], next[1]);
}
