use tsp_grid::solver::{solve_tsp, SolveError, MAX_CITIES};

fn tour_cost(d: &Vec<Vec<u32>>, t: &[usize]) -> u64 {
    t.windows(2).map(|w| d[w[0]][w[1]] as u64).sum()
}

fn check_tour(t: &[usize], n: usize) {
    assert_eq!(t.len(), n + 1);
    assert_eq!(t[0], 0);
    assert_eq!(t[n], 0);
    let mut seen = vec![false; n];
    for &c in &t[..n] {
        assert!(c < n);
        assert!(!seen[c]);
        seen[c] = true;
    }
    assert!(seen.iter().all(|&s| s));
}

fn brute_force(d: &Vec<Vec<u32>>) -> u64 {
    let n = d.len();
    let mut rest: Vec<usize> = (1..n).collect();
    let mut best = u64::MAX;
    permute(d, &mut rest, 0, &mut best);
    best
}

fn permute(d: &Vec<Vec<u32>>, rest: &mut Vec<usize>, k: usize, best: &mut u64) {
    if k == rest.len() {
        let mut t = vec![0];
        t.extend(rest.iter().copied());
        t.push(0);
        let c = tour_cost(d, &t);
        if c < *best {
            *best = c;
        }
        return;
    }
    for i in k..rest.len() {
        rest.swap(k, i);
        permute(d, rest, k + 1, best);
        rest.swap(k, i);
    }
}

fn pseudo_matrix(n: usize, seed: u64) -> Vec<Vec<u32>> {
    let mut s = seed;
    let mut d = vec![vec![0u32; n]; n];
    for i in 0..n {
        for j in 0..n {
            s = s.wrapping_mul(6364136223846793005).wrapping_add(1442695040888963407);
            if i != j {
                d[i][j] = ((s >> 33) % 1000) as u32;
            }
        }
    }
    d
}

#[test]
fn four_cities_scenario() {
    let d = vec![
        vec![0, 10, 15, 20],
        vec![10, 0, 35, 25],
        vec![15, 35, 0, 30],
        vec![20, 25, 30, 0],
    ];
    let (c, t) = solve_tsp(&d).unwrap();
    assert_eq!(c, 80);
    check_tour(&t, 4);
    assert_eq!(tour_cost(&d, &t), 80);
    assert!(t == vec![0, 1, 3, 2, 0] || t == vec![0, 2, 3, 1, 0]);
}

#[test]
fn single_city_is_trivial() {
    let (c, t) = solve_tsp(&vec![vec![0]]).unwrap();
    assert_eq!(c, 0);
    assert_eq!(t, vec![0, 0]);
}

#[test]
fn two_cities_asymmetric() {
    let d = vec![vec![0, 3], vec![7, 0]];
    let (c, t) = solve_tsp(&d).unwrap();
    assert_eq!(c, 10);
    assert_eq!(t, vec![0, 1, 0]);
}

#[test]
fn uniform_costs_give_n_times_cost() {
    for n in 2..8usize {
        let d: Vec<Vec<u32>> = (0..n)
            .map(|i| (0..n).map(|j| if i == j { 0 } else { 1 }).collect())
            .collect();
        let (c, t) = solve_tsp(&d).unwrap();
        assert_eq!(c, n as u64);
        check_tour(&t, n);
    }
}

#[test]
fn ties_go_to_lowest_index() {
    let d: Vec<Vec<u32>> = (0..4)
        .map(|i| (0..4).map(|j| if i == j { 0 } else { 1 }).collect())
        .collect();
    let (_, t) = solve_tsp(&d).unwrap();
    assert_eq!(t, vec![0, 3, 2, 1, 0]);
}

#[test]
fn matches_brute_force() {
    for n in 2..=8usize {
        for seed in 0..3u64 {
            let d = pseudo_matrix(n, seed * 31 + n as u64);
            let (c, t) = solve_tsp(&d).unwrap();
            check_tour(&t, n);
            assert_eq!(tour_cost(&d, &t), c);
            assert_eq!(c, brute_force(&d));
        }
    }
}

#[test]
fn solving_twice_gives_same_result() {
    let d = pseudo_matrix(7, 99);
    let a = solve_tsp(&d).unwrap();
    let b = solve_tsp(&d).unwrap();
    assert_eq!(a, b);
}

#[test]
fn empty_matrix_is_invalid() {
    assert_eq!(solve_tsp(&vec![]), Err(SolveError::InvalidInput));
}

#[test]
fn ragged_matrix_is_invalid() {
    let d = vec![vec![0, 1, 2], vec![1, 0], vec![2, 1, 0]];
    assert_eq!(solve_tsp(&d), Err(SolveError::InvalidInput));
}

#[test]
fn too_many_cities_is_invalid() {
    let n = MAX_CITIES + 1;
    let d = vec![vec![1u32; n]; n];
    assert_eq!(solve_tsp(&d), Err(SolveError::InvalidInput));
}

#[test]
fn large_costs_do_not_overflow() {
    let n = 6;
    let d = vec![vec![u32::MAX; n]; n];
    let (c, t) = solve_tsp(&d).unwrap();
    assert_eq!(c, 6 * u32::MAX as u64);
    check_tour(&t, n);
}
