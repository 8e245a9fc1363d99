use solver::amount::Fl;
use solver::id_map::IdMap;
use solver::recipe::checked_per_minute;

#[test]
fn id_map_keeps_keys_in_order() {
    let mut m: IdMap<u32> = IdMap::new();
    m.insert(5, 50);
    m.insert(1, 10);
    m.insert(3, 30);
    m.insert(1, 11);
    assert_eq!(m.len(), 3);
    assert_eq!(m.entries(), &[(1, 11), (3, 30), (5, 50)]);
    assert_eq!(m.get(3), Some(&30));
    assert_eq!(m.get(4), None);
    assert!(m.contains_key(5));
    assert!(!m.contains_key(2));
    assert_eq!(m.remove(3), Some(30));
    assert_eq!(m.remove(3), None);
    assert_eq!(m.entries(), &[(1, 11), (5, 50)]);
}

#[test]
fn fixed_point_product_rounds_down() {
    // 1.5 * 2 = 3
    assert_eq!(Fl(15000).checked_mul(Fl(20000)), Some(Fl(30000)));
    // 0.0001 * 0.5 = 0.00005, rounded down to 0
    assert_eq!(Fl(1).checked_mul(Fl(5000)), Some(Fl(0)));
    // -0.0001 * 0.5 = -0.00005, rounded down to -0.0001
    assert_eq!(Fl(-1).checked_mul(Fl(5000)), Some(Fl(-1)));
    assert_eq!(Fl(i64::MAX).checked_mul(Fl(20000)), None);
}

#[test]
fn fixed_point_quotient() {
    // 60 / 2 = 30
    assert_eq!(Fl(600000).checked_div(Fl(20000)), Some(Fl(300000)));
    // 1 / 3 = 0.3333
    assert_eq!(Fl(10000).checked_div(Fl(30000)), Some(Fl(3333)));
    assert_eq!(Fl(10000).checked_div(Fl(0)), None);
    assert_eq!(Fl(i64::MAX).checked_div(Fl(1)), None);
}

#[test]
fn runs_per_minute() {
    // 1.75 buildings running a 2 s recipe make 52.5 runs per minute
    assert_eq!(checked_per_minute(Fl(20000), Fl(17500)), Some(Fl(525000)));
    // 1.75 buildings running a 6 s recipe make 17.5 runs per minute
    assert_eq!(checked_per_minute(Fl(60000), Fl(17500)), Some(Fl(175000)));
    assert_eq!(checked_per_minute(Fl(0), Fl(17500)), None);
    assert_eq!(checked_per_minute(Fl(1), Fl(i64::MAX)), None);
}
