use belt_router::{Cloud, Position, Strategy};

fn collinear_cloud(ids_and_x: &[(i32, i64)]) -> Cloud {
    let mut cloud = Cloud::new();
    for (n, (id, x)) in ids_and_x.iter().enumerate() {
        let name = format!("System I - Asteroid Belt {}", n + 1);
        cloud.add(id, &name, &Position::new(*x, 0, 0));
    }
    cloud
}

#[test]
fn test_two_points_route() {
    let cloud = collinear_cloud(&[(1, 0), (2, 1)]);
    let (d, route) = cloud.get_best_route();
    assert_eq!(d, 1);
    assert!(route == vec![1, 2] || route == vec![2, 1]);
}

#[test]
fn test_collinear_exact() {
    // unit spacing at x = 0, 1, 2, 3, inserted out of spatial order
    let cloud = collinear_cloud(&[(3, 2), (1, 0), (4, 3), (2, 1)]);
    let (d, route) = cloud.get_best_route();
    assert_eq!(d, 3);
    assert!(route == vec![1, 2, 3, 4] || route == vec![4, 3, 2, 1]);
}

#[test]
fn test_collinear_heuristic() {
    // the nearest-neighbor walker is optimal on a line
    let cloud = collinear_cloud(&[(1, 0), (2, 1), (3, 2), (4, 3)]);
    let (d, route) = cloud.lazzy_walker(&vec![1, 2, 3, 4]);
    assert_eq!(d, 3);
    assert!(route == vec![1, 2, 3, 4] || route == vec![4, 3, 2, 1]);
}

#[test]
fn test_collinear_insertion_order_irrelevant() {
    let a = collinear_cloud(&[(1, 0), (2, 1), (3, 2), (4, 3)]);
    let b = collinear_cloud(&[(4, 3), (2, 1), (1, 0), (3, 2)]);
    assert_eq!(a.get_best_route().0, 3);
    assert_eq!(b.get_best_route().0, 3);
}

/// Fixed pseudo-random coordinates, same on every run.
fn scattered_cloud(n: usize) -> (Cloud, Vec<i32>) {
    let mut cloud = Cloud::new();
    let mut ids = Vec::new();
    let mut seed: i64 = 0x2545F4914F6CDD1D;
    for k in 0..n {
        let id = (k as i32) + 1;
        let mut coord = [0i64; 3];
        for c in coord.iter_mut() {
            seed = seed.wrapping_mul(6364136223846793005).wrapping_add(1442695040888963407);
            *c = (seed >> 40) % 10_000;
        }
        let name = format!("System I - Asteroid Belt {}", k + 1);
        cloud.add(&id, &name, &Position::new(coord[0], coord[1], coord[2]));
        ids.push(id);
    }
    (cloud, ids)
}

#[test]
fn test_heuristic_never_beats_exact() {
    for n in 3..=9 {
        let (cloud, ids) = scattered_cloud(n);
        let ((exact_d, _), _evals) = cloud.brute_force(&ids);
        let (heur_d, _) = cloud.lazzy_walker(&ids);
        assert!(heur_d >= exact_d, "n = {}", n);
    }
}

#[test]
fn test_exact_scoring_evaluations() {
    // one scoring evaluation per reversal class: exactly n!/2
    for n in 2..=8u64 {
        let (cloud, ids) = scattered_cloud(n as usize);
        let ((_, _), evals) = cloud.brute_force(&ids);
        let mut factorial: u64 = 1;
        for m in 1..=n {
            factorial *= m;
        }
        assert!(evals <= factorial / 2, "n = {}", n);
        assert_eq!(2 * evals, factorial, "n = {}", n);
    }
}

#[test]
fn test_exact_matches_selector() {
    let (cloud, ids) = scattered_cloud(6);
    let ((exact_d, _), _) = cloud.brute_force(&ids);
    assert_eq!(cloud.get_best_route().0, exact_d);
}

#[test]
fn test_heuristic_above_threshold() {
    // ten points: the selector switches to the heuristic
    let (cloud, ids) = scattered_cloud(10);
    let (walker_d, walker_route) = cloud.lazzy_walker(&ids);
    let (best_d, best_route) = cloud.get_best_route();
    assert_eq!(best_d, walker_d);
    assert_eq!(best_route, walker_route);
    let mut sorted = best_route.clone();
    sorted.sort();
    assert_eq!(sorted, ids);
}

#[test]
fn test_heuristic_deterministic() {
    // from the middle point both neighbors are equally far; the walker's
    // answer (start, tie-breaks and all) is fully determined
    let cloud = collinear_cloud(&[(1, 0), (2, 1), (3, -1)]);
    let (d, route) = cloud.lazzy_walker(&vec![1, 2, 3]);
    assert_eq!(d, 2);
    assert_eq!(route, vec![2, 1, 3]);
}

#[test]
fn test_exact_tie_break_deterministic() {
    // all points coincide, every ordering scores 0: the id-ascending seed
    // itself is returned
    let cloud = collinear_cloud(&[(2, 0), (4, 0), (1, 0), (3, 0)]);
    assert_eq!(cloud.get_best_route(), (0, vec![1, 2, 3, 4]));
    // when the seed is itself optimal it is returned exactly
    let line = collinear_cloud(&[(1, 0), (2, 1), (3, 2), (4, 3)]);
    assert_eq!(line.get_best_route(), (3, vec![1, 2, 3, 4]));
}

#[test]
fn test_compute_route_auto() {
    let cloud = collinear_cloud(&[(1, 0), (2, 1), (3, 2), (4, 3)]);
    let r = cloud.compute_route(Strategy::Auto).unwrap();
    assert_eq!(r.0, 3);
}

#[test]
fn test_route_scoring_fail_soft() {
    // scoring a route that mentions an unknown id treats the missing legs as 0
    let cloud = collinear_cloud(&[(1, 0), (2, 5)]);
    assert_eq!(cloud.route_distance(&vec![1, 99, 2]), 0);
    assert_eq!(cloud.route_distance(&vec![1, 2, 99]), 5);
    assert_eq!(cloud.route_distance(&vec![]), 0);
    assert_eq!(cloud.route_distance(&vec![1]), 0);
}
