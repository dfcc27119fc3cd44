use rewindmap::simple::{bisect_left, BuildError, FractionalCascade};

fn next_random(state: &mut u64) -> u64 {
    *state = state.wrapping_mul(6364136223846793005).wrapping_add(1442695040888963407);
    *state >> 33
}

fn random_family(state: &mut u64, max_levels: u64, min_len: u64, max_len: u64, key_range: u64) -> Vec<Vec<u64>> {
    let k: u64 = 1 + next_random(state) % max_levels;
    let mut family: Vec<Vec<u64>> = Vec::new();
    for _ in 0..k {
        let m: u64 = min_len + next_random(state) % (max_len - min_len + 1);
        let mut level: Vec<u64> = Vec::new();
        for _ in 0..m {
            level.push(next_random(state) % key_range);
        }
        level.sort();
        family.push(level);
    }
    family
}

fn count_below(a: &[u64], q: u64) -> usize {
    a.iter().filter(|&&x| x < q).count()
}

fn expected(family: &[Vec<u64>], q: u64) -> Vec<usize> {
    family.iter().map(|l| count_below(l, q)).collect()
}

#[test]
fn single_level_key_above_all() {
    let f = FractionalCascade::new(vec![vec![1, 2, 3]]);
    assert_eq!(f.bisect_left(4), vec![3]);
    assert_eq!(f.bisect_left_naive(4), vec![3]);
}

#[test]
fn single_level_key_below_all() {
    let f = FractionalCascade::new(vec![vec![1, 2, 3]]);
    assert_eq!(f.bisect_left(0), vec![0]);
    assert_eq!(f.bisect_left_naive(0), vec![0]);
}

#[test]
fn single_level_key_present() {
    let f = FractionalCascade::new(vec![vec![1, 2, 3]]);
    assert_eq!(f.bisect_left(2), vec![1]);
    assert_eq!(f.bisect_left_naive(2), vec![1]);
}

#[test]
fn two_interleaved_levels() {
    let f = FractionalCascade::new(vec![vec![1, 3, 5], vec![2, 4, 6]]);
    assert_eq!(f.bisect_left(4), vec![2, 1]);
    assert_eq!(f.bisect_left_naive(4), vec![2, 1]);
    assert_eq!(f.bisect_left(5), vec![2, 2]);
    assert_eq!(f.bisect_left_naive(5), vec![2, 2]);
}

#[test]
fn three_levels_of_different_lengths() {
    let f = FractionalCascade::new(vec![vec![10, 20], vec![5, 15, 25], vec![1, 30]]);
    assert_eq!(f.bisect_left(15), vec![1, 1, 1]);
    assert_eq!(f.bisect_left_naive(15), vec![1, 1, 1]);
}

#[test]
fn all_keys_equal() {
    let f = FractionalCascade::new(vec![vec![0, 0, 0], vec![0, 0]]);
    assert_eq!(f.bisect_left(0), vec![0, 0]);
    assert_eq!(f.bisect_left_naive(0), vec![0, 0]);
    assert_eq!(f.bisect_left(1), vec![3, 2]);
    assert_eq!(f.bisect_left_naive(1), vec![3, 2]);
}

#[test]
fn number_of_levels_is_kept() {
    let f = FractionalCascade::new(vec![vec![10, 20], vec![5, 15, 25], vec![1, 30]]);
    assert_eq!(f.bisect_left_naive(7).len(), 3);
    assert_eq!(f.bisect_left(7).len(), 3);
}

#[test]
fn build_rejects_empty_family() {
    let r = FractionalCascade::<u64>::build(Vec::new());
    assert!(matches!(r, Err(BuildError::EmptyIndex)));
}

#[test]
fn build_accepts_one_list() {
    let r = FractionalCascade::build(vec![vec![4, 8]]);
    match r {
        Ok(f) => {
            assert_eq!(f.bisect_left(8), vec![1]);
            assert_eq!(f.bisect_left(9), vec![2]);
        }
        Err(e) => panic!("unexpected {:?}", e),
    }
}

#[test]
fn empty_lists_report_zero() {
    let f = FractionalCascade::new(vec![vec![], vec![3, 4], vec![], vec![], vec![1, 2, 9]]);
    assert_eq!(f.bisect_left(0), vec![0, 0, 0, 0, 0]);
    assert_eq!(f.bisect_left(4), vec![0, 1, 0, 0, 2]);
    assert_eq!(f.bisect_left(10), vec![0, 2, 0, 0, 3]);
    assert_eq!(f.bisect_left_naive(4), vec![0, 1, 0, 0, 2]);
    let g = FractionalCascade::new(vec![vec![]]);
    assert_eq!(g.bisect_left(5), vec![0]);
    assert_eq!(g.bisect_left_naive(5), vec![0]);
}

#[test]
fn key_below_every_key_gives_zeros() {
    let family: Vec<Vec<u64>> = vec![vec![3, 9, 27], vec![2, 4, 8, 16], vec![5], vec![7, 7]];
    let f = FractionalCascade::new(family);
    assert_eq!(f.bisect_left(1), vec![0, 0, 0, 0]);
    assert_eq!(f.bisect_left(0), vec![0, 0, 0, 0]);
}

#[test]
fn key_above_every_key_gives_lengths() {
    let family: Vec<Vec<u64>> = vec![vec![3, 9, 27], vec![2, 4, 8, 16], vec![5], vec![7, 7]];
    let f = FractionalCascade::new(family);
    assert_eq!(f.bisect_left(28), vec![3, 4, 1, 2]);
    assert_eq!(f.bisect_left(u64::MAX), vec![3, 4, 1, 2]);
}

#[test]
fn step_back_at_end_of_even_level() {
    // The level below has even length, so its last slot casts no shadow and
    // a walk that arrives past its end has to look one slot back.
    let f = FractionalCascade::new(vec![vec![1], vec![2, 8]]);
    assert_eq!(f.bisect_left(5), vec![1, 1]);
    assert_eq!(f.bisect_left(8), vec![1, 1]);
    assert_eq!(f.bisect_left(9), vec![1, 2]);
}

#[test]
fn no_step_back_at_end_of_odd_level() {
    let f = FractionalCascade::new(vec![vec![1], vec![2, 8, 9]]);
    assert_eq!(f.bisect_left(9), vec![1, 2]);
    assert_eq!(f.bisect_left(10), vec![1, 3]);
    assert_eq!(f.bisect_left(3), vec![1, 1]);
}

#[test]
fn own_keys_come_before_shadows_on_ties() {
    let f = FractionalCascade::new(vec![vec![4, 4], vec![4, 4, 4], vec![4]]);
    assert_eq!(f.bisect_left(4), vec![0, 0, 0]);
    assert_eq!(f.bisect_left(5), vec![2, 3, 1]);
    assert_eq!(f.bisect_left(3), vec![0, 0, 0]);
}

#[test]
fn repeated_queries_give_the_same_answer() {
    let f = FractionalCascade::new(vec![vec![1, 3, 5], vec![2, 4, 6], vec![0, 9]]);
    let first = f.bisect_left(4);
    let _other = f.bisect_left(1);
    let _naive = f.bisect_left_naive(6);
    let second = f.bisect_left(4);
    assert_eq!(first, second);
    assert_eq!(first, vec![2, 1, 1]);
}

#[test]
fn answers_split_each_list() {
    let family: Vec<Vec<u64>> = vec![vec![1, 3, 5, 7], vec![2, 2, 6], vec![0, 4, 4, 8, 9]];
    let f = FractionalCascade::new(family.clone());
    for q in 0..11u64 {
        let out = f.bisect_left(q);
        for (i, ix) in out.into_iter().enumerate() {
            for key in &family[i][0..ix] {
                assert!(*key < q);
            }
            for key in &family[i][ix..] {
                assert!(q <= *key);
            }
        }
    }
}

#[test]
fn fc_bisect_left_invariants() {
    let mut state: u64 = 7;
    for _ in 0..200 {
        let family = random_family(&mut state, 8, 1, 64, 256);
        let key: u64 = next_random(&mut state) % 256;
        let f = FractionalCascade::new(family.clone());
        for (i, ix) in f.bisect_left(key).into_iter().enumerate() {
            for e in &family[i][0..ix] {
                assert!(*e < key);
            }
        }
    }
}

#[test]
fn cascade_agrees_with_naive_and_with_counting() {
    let mut state: u64 = 42;
    for round in 0..300 {
        let key_range: u64 = if round % 2 == 0 { 256 } else { 1 << 32 };
        let family = random_family(&mut state, 8, 1, 64, key_range);
        let f = FractionalCascade::new(family.clone());
        let mut queries: Vec<u64> = Vec::new();
        for _ in 0..16 {
            queries.push(next_random(&mut state) % key_range);
        }
        let lo: u64 = family.iter().map(|l| l[0]).min().unwrap();
        let hi: u64 = family.iter().map(|l| l[l.len() - 1]).max().unwrap();
        queries.push(lo);
        queries.push(hi);
        queries.push(lo.saturating_sub(1));
        queries.push(hi + 1);
        for q in queries {
            let fast = f.bisect_left(q);
            let naive = f.bisect_left_naive(q);
            assert_eq!(fast, naive);
            assert_eq!(fast, expected(&family, q));
        }
    }
}

#[test]
fn cascade_with_empty_and_short_lists_agrees_with_counting() {
    let mut state: u64 = 2024;
    for _ in 0..300 {
        let family = random_family(&mut state, 6, 0, 5, 8);
        let f = FractionalCascade::new(family.clone());
        for q in 0..10u64 {
            assert_eq!(f.bisect_left(q), expected(&family, q));
            assert_eq!(f.bisect_left_naive(q), expected(&family, q));
        }
    }
}

#[test]
fn cascade_agrees_with_search_in_each_list() {
    let family: Vec<Vec<u64>> = vec![vec![10, 20, 30, 40], vec![15, 25], vec![5, 35, 45]];
    let f = FractionalCascade::new(family.clone());
    for q in 0..50u64 {
        let each: Vec<usize> = family.iter().map(|l| bisect_left(l, q)).collect();
        assert_eq!(f.bisect_left(q), each);
    }
}

#[test]
fn keys_of_other_types() {
    let bytes: Vec<Vec<u8>> = vec![vec![0, 128, 255], vec![1, 2, 254, 255]];
    let f = FractionalCascade::new(bytes);
    assert_eq!(f.bisect_left(255), vec![2, 3]);
    assert_eq!(f.bisect_left(0), vec![0, 0]);
    assert_eq!(f.bisect_left(3), vec![1, 2]);

    let signed: Vec<Vec<i32>> = vec![vec![-5, 0, 5], vec![-7, -5, -5, 9]];
    let g = FractionalCascade::new(signed);
    assert_eq!(g.bisect_left(-5), vec![0, 1]);
    assert_eq!(g.bisect_left(-4), vec![1, 3]);
    assert_eq!(g.bisect_left_naive(-4), vec![1, 3]);

    let letters: Vec<Vec<char>> = vec![vec!['b', 'd'], vec!['a', 'c', 'e']];
    let h = FractionalCascade::new(letters);
    assert_eq!(h.bisect_left('c'), vec![1, 1]);
    assert_eq!(h.bisect_left('z'), vec![2, 3]);

    let pairs: Vec<Vec<(u8, u8)>> = vec![vec![(0, 1), (1, 0)], vec![(0, 0), (0, 2), (1, 1)]];
    let p = FractionalCascade::new(pairs);
    assert_eq!(p.bisect_left((0, 2)), vec![1, 1]);
    assert_eq!(p.bisect_left((1, 1)), vec![2, 2]);
}

#[test]
fn unsorted_lists_build_and_give_one_index_per_list() {
    let family: Vec<Vec<u64>> = vec![vec![3, 1, 2], vec![9, 0], vec![], vec![5, 5, 4, 6, 1]];
    let f = FractionalCascade::new(family.clone());
    for q in 0..11u64 {
        let fast = f.bisect_left(q);
        let naive = f.bisect_left_naive(q);
        assert_eq!(fast.len(), 4);
        assert_eq!(naive.len(), 4);
        for (i, ix) in fast.into_iter().enumerate() {
            assert!(ix <= family[i].len());
        }
    }
    assert!(FractionalCascade::build(vec![vec![2u8, 1], vec![7, 3, 5]]).is_ok());
}

#[test]
fn unsorted_random_families_never_fail() {
    let mut state: u64 = 99;
    for _ in 0..300 {
        let k: u64 = 1 + next_random(&mut state) % 6;
        let mut family: Vec<Vec<u64>> = Vec::new();
        for _ in 0..k {
            let m: u64 = next_random(&mut state) % 9;
            let mut level: Vec<u64> = Vec::new();
            for _ in 0..m {
                level.push(next_random(&mut state) % 16);
            }
            family.push(level);
        }
        let f = FractionalCascade::new(family.clone());
        for q in 0..17u64 {
            let out = f.bisect_left(q);
            assert_eq!(out.len(), family.len());
            for (i, ix) in out.into_iter().enumerate() {
                assert!(ix <= family[i].len());
            }
            assert_eq!(f.bisect_left_naive(q).len(), family.len());
        }
    }
}
