use automata3d::rule::{NeighborMethod, Rule, RuleValue};

fn matching(v: &RuleValue) -> Vec<u8> {
    (0u8..=255).filter(|c| v.matches(*c)).collect()
}

#[test]
fn from_range_matches_exactly_its_range() {
    let v = RuleValue::from_range(4, 6);
    for c in 0u8..=255 {
        assert_eq!(v.matches(c), (4..=6).contains(&c), "count {}", c);
    }
}

#[test]
fn count_27_never_matches() {
    let built = [
        RuleValue::new(&[27]),
        RuleValue::new(&[0, 26, 27, 28, 31, 255]),
        RuleValue::from_range(0, 255),
        RuleValue::from_range(20, 40),
        RuleValue::from_range(0, 26).or(RuleValue::new(&[27, 30])),
    ];
    for v in built.iter() {
        assert!(!v.matches(27));
        assert!(!v.matches(31));
        assert!(!v.matches(255));
    }
}

#[test]
fn from_range_caps_at_26() {
    let v = RuleValue::from_range(20, 200);
    assert_eq!(matching(&v), vec![20, 21, 22, 23, 24, 25, 26]);
}

#[test]
fn from_range_empty_when_min_above_max() {
    assert_eq!(matching(&RuleValue::from_range(7, 3)), Vec::<u8>::new());
    assert_eq!(matching(&RuleValue::from_range(30, 40)), Vec::<u8>::new());
}

#[test]
fn new_keeps_listed_counts_and_ignores_large_ones() {
    let v = RuleValue::new(&[3, 0, 26, 27, 100, 3]);
    assert_eq!(matching(&v), vec![0, 3, 26]);
    assert_eq!(matching(&RuleValue::new(&[])), Vec::<u8>::new());
}

#[test]
fn or_is_union() {
    let v = RuleValue::from_range(13, 14).or(RuleValue::from_range(17, 19));
    assert_eq!(matching(&v), vec![13, 14, 17, 18, 19]);
}

#[test]
fn neighborhood_sizes() {
    assert_eq!(NeighborMethod::Moore.max_neighbors(), 26);
    assert_eq!(NeighborMethod::VonNeumann.max_neighbors(), 6);
}

#[test]
fn moore_offsets_are_the_cube_without_center_in_order() {
    let offsets = NeighborMethod::Moore.get_neighbors();
    let mut expected = Vec::new();
    for z in -1..=1 {
        for y in -1..=1 {
            for x in -1..=1 {
                if (x, y, z) != (0, 0, 0) {
                    expected.push((x, y, z));
                }
            }
        }
    }
    let got: Vec<(i32, i32, i32)> = offsets.iter().map(|o| (o.x, o.y, o.z)).collect();
    assert_eq!(got, expected);
}

#[test]
fn von_neumann_offsets_in_order() {
    let got: Vec<(i32, i32, i32)> =
        NeighborMethod::VonNeumann.get_neighbors().iter().map(|o| (o.x, o.y, o.z)).collect();
    assert_eq!(
        got,
        vec![(1, 0, 0), (-1, 0, 0), (0, 1, 0), (0, -1, 0), (0, 0, 1), (0, 0, -1)]
    );
}

fn check(rule: &Rule, survival: &[u8], birth: &[u8], states: u8) {
    assert_eq!(matching(&rule.survival), survival.to_vec());
    assert_eq!(matching(&rule.birth), birth.to_vec());
    assert_eq!(rule.states, states);
    assert_eq!(rule.neighbor_method, NeighborMethod::Moore);
    for c in 0u8..=30 {
        assert_eq!(rule.should_survive(c), survival.contains(&c));
        assert_eq!(rule.should_birth(c), birth.contains(&c));
    }
}

fn span(lo: u8, hi: u8) -> Vec<u8> {
    (lo..=hi).collect()
}

#[test]
fn preset_rules() {
    check(&Rule::rule_445(), &[4], &[4], 5);
    check(&Rule::builder(), &[2, 6, 9], &[4, 6, 8, 9, 10], 10);
    check(
        &Rule::fancy_snancy(),
        &[0, 1, 2, 3, 7, 8, 9, 11, 13, 18, 21, 22, 24, 26],
        &[4, 13, 17, 20, 21, 22, 23, 24, 26],
        4,
    );
    check(&Rule::pretty_crystals(), &[5, 6, 7, 8], &[6, 7, 9], 10);
    check(&Rule::expanding_blob(), &span(9, 26), &[5, 6, 7, 12, 13, 15], 20);
    check(&Rule::clouds_1(), &span(13, 26), &[13, 14, 17, 18, 19], 2);
    check(&Rule::amoeba(), &span(9, 26), &[5, 6, 7, 12, 13, 15], 5);
    check(&Rule::architecture(), &[4, 5, 6], &[3], 2);
    check(&Rule::brain(), &[4], &[2], 3);
    check(&Rule::builder_2(), &[5, 6, 7], &[1], 2);
    check(&Rule::coral(), &[5, 6, 7, 8], &[6, 7, 9, 12], 8);
    check(&Rule::crystal_growth_1(), &span(0, 6), &[1, 3], 2);
    check(&Rule::diamond_growth(), &[5, 6], &[7, 8], 10);
    check(&Rule::pulse_waves(), &span(3, 8), &span(3, 7), 3);
    check(&Rule::pyroclastic(), &span(4, 7), &[6, 7, 8], 10);
    check(&Rule::spiky_growth(), &[5, 6], &[4], 3);
    check(&Rule::shells(), &[4, 5], &[3], 3);
}

#[test]
fn custom_rules() {
    let r = Rule::new(&[1, 2, 40], &[3], 7, NeighborMethod::VonNeumann);
    assert_eq!(matching(&r.survival), vec![1, 2]);
    assert_eq!(matching(&r.birth), vec![3]);
    assert_eq!(r.states, 7);
    assert_eq!(r.neighbor_method, NeighborMethod::VonNeumann);

    let r = Rule::from_ranges(4, 6, 5, 6, 11, NeighborMethod::Moore);
    assert_eq!(matching(&r.survival), vec![4, 5, 6]);
    assert_eq!(matching(&r.birth), vec![5, 6]);
    assert_eq!(r.states, 11);
    assert_eq!(r.neighbor_method, NeighborMethod::Moore);
}
