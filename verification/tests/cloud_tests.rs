use belt_router::{Cloud, Position};

#[test]
fn test_cloud() {
    let mut cloud = Cloud::new();
    assert_eq!(cloud.distance_between(&0, &1), None);

    cloud.add(
        &1,
        &String::from("System I - Asteroid Belt 1"),
        &Position::new(0, 0, 0),
    );
    cloud.add(
        &2,
        &String::from("System I - Asteroid Belt 2"),
        &Position::new(1, 0, 0),
    );

    assert_eq!(cloud.distance_between(&1, &2), Some(1));
    assert_eq!(cloud.distance_between(&2, &1), Some(1));
}

#[test]
fn test_cloud_get_best_route() {
    let mut cloud = Cloud::new();
    assert_eq!((0, vec![]), cloud.get_best_route());

    cloud.add(
        &1,
        &String::from("System I - Asteroid Belt 1"),
        &Position::new(0, 0, 0),
    );
    assert_eq!((0, vec![1]), cloud.get_best_route());

    cloud.add(
        &2,
        &String::from("System I - Asteroid Belt 2"),
        &Position::new(1, 0, 0),
    );
    assert_eq!(1, cloud.get_best_route().0);

    cloud.add(
        &3,
        &String::from("System I - Asteroid Belt 3"),
        &Position::new(2, 0, 0),
    );
    assert_eq!(2, cloud.get_best_route().0);

    cloud.add(
        &4,
        &String::from("System I - Asteroid Belt 4"),
        &Position::new(3, 0, 0),
    );
    assert_eq!(3, cloud.get_best_route().0);
}

#[test]
fn test_distance_symmetric() {
    let a = Position::new(1, 2, 3);
    let b = Position::new(-4, 5, -6);
    assert_eq!(Position::distance(&a, &b), Position::distance(&b, &a));
    let mut cloud = Cloud::new();
    cloud.add(&7, &String::from("System I - Asteroid Belt 1"), &a);
    cloud.add(&9, &String::from("System I - Asteroid Belt 2"), &b);
    assert_eq!(cloud.distance_between(&7, &9), cloud.distance_between(&9, &7));
}

#[test]
fn test_distance_self_zero() {
    let a = Position::new(123, -456, 789);
    assert_eq!(Position::distance(&a, &a), 0);
    // the cache stores distances only between distinct points, so a
    // self-pair was never computed and answers None
    let mut cloud = Cloud::new();
    cloud.add(&5, &String::from("System I - Asteroid Belt 1"), &a);
    assert_eq!(cloud.distance_between(&5, &5), None);
}

#[test]
fn test_distance_values() {
    // a 3-4-5 right triangle, exactly
    let a = Position::new(0, 0, 0);
    let b = Position::new(3, 4, 0);
    assert_eq!(Position::distance(&a, &b), 5);
    // sqrt(2) rounds down to 1
    let c = Position::new(1, 1, 0);
    assert_eq!(Position::distance(&a, &c), 1);
}

#[test]
fn test_add_replaces_existing_id() {
    let mut cloud = Cloud::new();
    let replaced_new = cloud.add(
        &1,
        &String::from("System I - Asteroid Belt 1"),
        &Position::new(0, 0, 0),
    );
    assert!(!replaced_new);
    cloud.add(
        &2,
        &String::from("System I - Asteroid Belt 2"),
        &Position::new(10, 0, 0),
    );
    assert_eq!(cloud.distance_between(&1, &2), Some(10));
    // re-adding id 1 moves it; distances are refreshed both ways
    let replaced = cloud.add(
        &1,
        &String::from("System I - Asteroid Belt 9"),
        &Position::new(7, 0, 0),
    );
    assert!(replaced);
    assert_eq!(cloud.distance_between(&1, &2), Some(3));
    assert_eq!(cloud.distance_between(&2, &1), Some(3));
    assert_eq!(
        cloud.get_name(&1),
        Some(String::from("System I - Asteroid Belt 9"))
    );
}

#[test]
fn test_get_name() {
    let mut cloud = Cloud::new();
    assert_eq!(cloud.get_name(&1), None);
    cloud.add(
        &1,
        &String::from("System I - Asteroid Belt 1"),
        &Position::new(0, 0, 0),
    );
    assert_eq!(
        cloud.get_name(&1),
        Some(String::from("System I - Asteroid Belt 1"))
    );
    assert_eq!(cloud.get_name(&2), None);
}
