use belt_router::{parse_label, Cloud, LabelError, LabelKey, Position, Strategy};

#[test]
fn test_parse_label_basic() {
    assert_eq!(
        parse_label("System I - Asteroid Belt 1"),
        Ok(LabelKey { cloud_number: 1, belt_number: 1 })
    );
    assert_eq!(
        parse_label("System XIV - Asteroid Belt 12"),
        Ok(LabelKey { cloud_number: 14, belt_number: 12 })
    );
}

#[test]
fn test_parse_label_five_tokens() {
    assert_eq!(
        parse_label("System I - Asteroid Belt"),
        Err(LabelError::MalformedLabel)
    );
    assert_eq!(
        parse_label("System I - Asteroid Belt 1 extra"),
        Err(LabelError::MalformedLabel)
    );
}

#[test]
fn test_parse_label_bad_ordinal() {
    assert_eq!(
        parse_label("System Q - Asteroid Belt 1"),
        Err(LabelError::InvalidOrdinal)
    );
}

#[test]
fn test_parse_label_sub_index_default() {
    // an unparseable sub-index falls back to 0
    assert_eq!(
        parse_label("System I - Asteroid Belt X"),
        Ok(LabelKey { cloud_number: 1, belt_number: 0 })
    );
    assert_eq!(
        parse_label("System II - Asteroid Belt 99999999999999999999"),
        Ok(LabelKey { cloud_number: 2, belt_number: 0 })
    );
}

#[test]
fn test_parse_label_empty_and_plus() {
    assert_eq!(parse_label(""), Err(LabelError::MalformedLabel));
    // u32 parsing accepts one leading plus sign
    assert_eq!(
        parse_label("System I - Asteroid Belt +7"),
        Ok(LabelKey { cloud_number: 1, belt_number: 7 })
    );
}

#[test]
fn test_parse_label_unicode_whitespace() {
    // a no-break space separates tokens just as char::is_whitespace does
    assert_eq!(
        parse_label("System\u{00A0}II - Asteroid Belt 4"),
        Ok(LabelKey { cloud_number: 2, belt_number: 4 })
    );
}

#[test]
fn test_parse_label_overlong_ordinal() {
    // a second token past the length bound is rejected before the Roman
    // parser ever sees it
    let name = format!("System {} - Asteroid Belt 1", "M".repeat(4001));
    assert_eq!(parse_label(&name), Err(LabelError::InvalidOrdinal));
}

#[test]
fn test_parse_label_whitespace_runs() {
    assert_eq!(
        parse_label("  System\tII  -  Asteroid Belt  3 "),
        Ok(LabelKey { cloud_number: 2, belt_number: 3 })
    );
}

#[test]
fn test_ordinal_route_sorts_by_label() {
    let mut cloud = Cloud::new();
    cloud.add(
        &10,
        &String::from("System II - Asteroid Belt 1"),
        &Position::new(0, 0, 0),
    );
    cloud.add(
        &11,
        &String::from("System I - Asteroid Belt 2"),
        &Position::new(5, 0, 0),
    );
    cloud.add(
        &12,
        &String::from("System I - Asteroid Belt 1"),
        &Position::new(9, 0, 0),
    );
    let (d, route) = cloud.get_ordinal_route().unwrap();
    assert_eq!(route, vec![12, 11, 10]);
    // 9 -> 5 -> 0
    assert_eq!(d, 9);
}

#[test]
fn test_ordinal_route_reports_first_bad_label() {
    let mut cloud = Cloud::new();
    cloud.add(
        &1,
        &String::from("System I - Asteroid Belt 1"),
        &Position::new(0, 0, 0),
    );
    cloud.add(&2, &String::from("not six tokens"), &Position::new(1, 0, 0));
    cloud.add(
        &3,
        &String::from("System Z - Asteroid Belt 1"),
        &Position::new(2, 0, 0),
    );
    assert_eq!(cloud.get_ordinal_route(), Err(LabelError::MalformedLabel));
    assert_eq!(
        cloud.compute_route(Strategy::Baseline),
        Err(LabelError::MalformedLabel)
    );
    // the optimizing route never consults a label
    assert_eq!(cloud.get_best_route().0, 2);
    assert_eq!(cloud.compute_route(Strategy::Auto).unwrap().0, 2);
}

#[test]
fn test_compute_route_baseline() {
    let mut cloud = Cloud::new();
    cloud.add(
        &1,
        &String::from("System I - Asteroid Belt 2"),
        &Position::new(4, 0, 0),
    );
    cloud.add(
        &2,
        &String::from("System I - Asteroid Belt 1"),
        &Position::new(0, 0, 0),
    );
    let (d, route) = cloud.compute_route(Strategy::Baseline).unwrap();
    assert_eq!(route, vec![2, 1]);
    assert_eq!(d, 4);
}
