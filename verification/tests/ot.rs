use flowy_ot::attributes::AttrEntry;
use flowy_ot::attributes::Attributes;
use flowy_ot::attributes::AttributesData;
use flowy_ot::attributes::AttrsBuilder;
use flowy_ot::attributes::AttributesDataRule;
use flowy_ot::attributes::AttributesRule;
use flowy_ot::attributes::compose_attributes;
use flowy_ot::attributes::invert_attributes;
use flowy_ot::attributes::transform_attributes;
use flowy_ot::delta::Delta;
use flowy_ot::interval::Interval;
use flowy_ot::operation::Insert;
use flowy_ot::operation::Operation;
use flowy_ot::operation::Retain;

fn attrs_of(pairs: &[(&str, &str)]) -> Attributes {
    let mut d = AttributesData::new();
    for (k, v) in pairs {
        d.insert(k.to_string(), v.to_string());
    }
    Attributes::Custom(d)
}

fn op_is_insert(op: &Operation, text: &str) -> bool {
    match op {
        Operation::Insert(i) => i.s == text,
        _ => false,
    }
}

fn op_is_retain(op: &Operation, n: u64) -> bool {
    match op {
        Operation::Retain(r) => r.n == n,
        _ => false,
    }
}

fn op_is_delete(op: &Operation, n: u64) -> bool {
    match op {
        Operation::Delete(m) => *m == n,
        _ => false,
    }
}

#[test]
fn insert_length_counts_scalar_values() {
    let op = Operation::Insert(Insert { s: "日本語".to_string(), attributes: Attributes::Empty });
    assert_eq!(op.length(), 3);
}

#[test]
fn empty_delta_on_empty_string() {
    let d = Delta::default();
    assert_eq!(d.apply("").unwrap(), "");
    assert!(d.is_empty());
    assert!(d.is_noop());
}

#[test]
fn apply_length_mismatch_is_error() {
    let mut d = Delta::default();
    d.retain(2, Attributes::Empty);
    assert!(d.apply("abc").is_err());
    assert!(d.apply("ab").is_ok());
}

#[test]
fn compose_length_mismatch_is_error() {
    let mut a = Delta::default();
    a.insert("ab", Attributes::Empty);
    let mut b = Delta::default();
    b.retain(3, Attributes::Empty);
    assert!(a.compose(&b).is_err());
}

#[test]
fn delete_then_insert_canonicalizes() {
    let mut d = Delta::default();
    d.delete(3);
    d.insert("ab", Attributes::Empty);
    assert_eq!(d.ops.len(), 2);
    assert!(op_is_insert(&d.ops[0], "ab"));
    assert!(op_is_delete(&d.ops[1], 3));
}

#[test]
fn equal_attr_inserts_coalesce() {
    let mut d = Delta::default();
    d.insert("ab", attrs_of(&[("bold", "true")]));
    d.insert("cd", attrs_of(&[("bold", "true")]));
    assert_eq!(d.ops.len(), 1);
    assert!(op_is_insert(&d.ops[0], "abcd"));
}

#[test]
fn unequal_attr_inserts_stay_apart() {
    let mut d = Delta::default();
    d.insert("ab", attrs_of(&[("bold", "true")]));
    d.insert("cd", attrs_of(&[("italic", "true")]));
    assert_eq!(d.ops.len(), 2);
    assert!(op_is_insert(&d.ops[0], "ab"));
    assert!(op_is_insert(&d.ops[1], "cd"));
}

#[test]
fn adjacent_deletes_and_retains_coalesce() {
    let mut d = Delta::default();
    d.retain(2, Attributes::Empty);
    d.retain(3, Attributes::Empty);
    d.delete(1);
    d.delete(4);
    assert_eq!(d.ops.len(), 2);
    assert!(op_is_retain(&d.ops[0], 5));
    assert!(op_is_delete(&d.ops[1], 5));
}

#[test]
fn zero_length_steps_are_dropped() {
    let mut d = Delta::default();
    d.retain(0, Attributes::Empty);
    d.delete(0);
    d.insert("", Attributes::Empty);
    assert!(d.is_empty());
    assert_eq!(d.base_len, 0);
    assert_eq!(d.target_len, 0);
}

#[test]
fn basic_insert_applies() {
    let mut d = Delta::default();
    d.retain(5, Attributes::Empty);
    d.insert(" World", Attributes::Empty);
    assert_eq!(d.apply("Hello").unwrap(), "Hello World");
}

#[test]
fn delete_and_insert_apply() {
    let mut d = Delta::default();
    d.retain(1, Attributes::Empty);
    d.delete(4);
    d.insert("i", Attributes::Empty);
    assert_eq!(d.ops.len(), 3);
    assert!(op_is_retain(&d.ops[0], 1));
    assert!(op_is_insert(&d.ops[1], "i"));
    assert!(op_is_delete(&d.ops[2], 4));
    assert_eq!(d.apply("Hello").unwrap(), "Hi");
}

#[test]
fn apply_compose_agrees_with_sequential_apply() {
    let mut a = Delta::default();
    a.retain(1, Attributes::Empty);
    a.insert("xy", Attributes::Empty);
    a.delete(2);
    let mut b = Delta::default();
    b.delete(1);
    b.retain(2, Attributes::Empty);
    b.insert("z", Attributes::Empty);
    let s = "abc";
    let step = b.apply(&a.apply(s).unwrap()).unwrap();
    let joined = a.compose(&b).unwrap().apply(s).unwrap();
    assert_eq!(step, joined);
    assert_eq!(step, "xyz");
}

#[test]
fn transform_converges_on_concurrent_inserts() {
    let mut a = Delta::default();
    a.insert("X", Attributes::Empty);
    a.retain(3, Attributes::Empty);
    let mut b = Delta::default();
    b.retain(1, Attributes::Empty);
    b.insert("Y", Attributes::Empty);
    b.retain(2, Attributes::Empty);
    let (a_prime, b_prime) = a.transform(&b).unwrap();
    let left = b_prime.apply(&a.apply("abc").unwrap()).unwrap();
    let right = a_prime.apply(&b.apply("abc").unwrap()).unwrap();
    assert_eq!(left, right);
    assert_eq!(left, "XaYbc");
}

#[test]
fn transform_length_mismatch_is_error() {
    let mut a = Delta::default();
    a.retain(2, Attributes::Empty);
    let mut b = Delta::default();
    b.retain(3, Attributes::Empty);
    assert!(a.transform(&b).is_err());
}

#[test]
fn invert_round_trip_restores_base() {
    let mut d = Delta::default();
    d.retain(2, Attributes::Empty);
    d.insert("XY", Attributes::Empty);
    d.delete(2);
    d.retain(1, Attributes::Empty);
    let base = "abcde";
    let target = d.apply(base).unwrap();
    let undo = d.invert(base);
    assert_eq!(undo.apply(&target).unwrap(), base);
}

#[test]
fn invert_on_deletes_reinserts_text() {
    let mut d = Delta::default();
    d.delete(5);
    let undo = d.invert("Hello");
    assert_eq!(undo.apply("").unwrap(), "Hello");
}

#[test]
fn compose_remove_marker_collapses() {
    let mut a = Delta::default();
    a.retain(2, attrs_of(&[("bold", "true")]));
    let mut b = Delta::default();
    b.retain(2, attrs_of(&[("bold", "")]));
    let c = a.compose(&b).unwrap();
    assert_eq!(c.ops.len(), 1);
    match &c.ops[0] {
        Operation::Retain(r) => {
            assert_eq!(r.n, 2);
            assert!(matches!(r.attributes, Attributes::Empty));
        },
        _ => panic!("expected a retain"),
    }
}

#[test]
fn compose_overlays_attributes_right_wins() {
    let left = Some(Operation::Retain(Retain {
        n: 1,
        attributes: attrs_of(&[("bold", "true"), ("italic", "true")]),
    }));
    let right = Some(Operation::Retain(Retain { n: 1, attributes: attrs_of(&[("bold", "x")]) }));
    let composed = compose_attributes(&left, &right);
    match composed {
        Attributes::Custom(d) => {
            assert_eq!(d.get(&"bold".to_string()), Some("x".to_string()));
            assert_eq!(d.get(&"italic".to_string()), Some("true".to_string()));
        },
        _ => panic!("expected custom attributes"),
    }
}

#[test]
fn transform_attributes_priority_drops_conflicts() {
    let l = Some(attrs_of(&[("bold", "true")]));
    let r = Some(attrs_of(&[("bold", "false"), ("italic", "true")]));
    let out = transform_attributes(l, r, true);
    match out {
        Attributes::Custom(d) => {
            assert_eq!(d.get(&"bold".to_string()), None);
            assert_eq!(d.get(&"italic".to_string()), Some("true".to_string()));
        },
        _ => panic!("expected custom attributes"),
    }
}

#[test]
fn transform_attributes_without_priority_right_wins() {
    let l = Some(attrs_of(&[("bold", "true")]));
    let r = Some(attrs_of(&[("bold", "false")]));
    let out = transform_attributes(l, r, false);
    match out {
        Attributes::Custom(d) => {
            assert_eq!(d.get(&"bold".to_string()), Some("false".to_string()));
        },
        _ => panic!("expected custom attributes"),
    }
}

#[test]
fn invert_attributes_restores_overridden_value() {
    let attr = attrs_of(&[("bold", "true")]);
    let base = attrs_of(&[("bold", "")]);
    let out = invert_attributes(attr, base);
    match out {
        Attributes::Custom(d) => {
            assert_eq!(d.get(&"bold".to_string()), Some("".to_string()));
        },
        _ => panic!("expected custom attributes"),
    }
}

#[test]
fn invert_attributes_of_two_blanks_is_empty() {
    let out = invert_attributes(Attributes::Empty, Attributes::Follow);
    assert!(matches!(out, Attributes::Empty));
}

#[test]
fn rebuilding_a_delta_reproduces_it() {
    let mut d = Delta::default();
    d.insert("ab", attrs_of(&[("bold", "true")]));
    d.retain(2, Attributes::Empty);
    d.insert("c", Attributes::Empty);
    d.delete(1);
    let mut r = Delta::default();
    for op in &d.ops {
        r.add(op.duplicate());
    }
    assert_eq!(r.ops.len(), d.ops.len());
    assert_eq!(r.base_len, d.base_len);
    assert_eq!(r.target_len, d.target_len);
    for (x, y) in r.ops.iter().zip(d.ops.iter()) {
        match (x, y) {
            (Operation::Delete(m), Operation::Delete(n)) => assert_eq!(m, n),
            (Operation::Retain(a), Operation::Retain(b)) => {
                assert_eq!(a.n, b.n);
                assert!(a.attributes.equals(&b.attributes));
            },
            (Operation::Insert(a), Operation::Insert(b)) => {
                assert_eq!(a.s, b.s);
                assert!(a.attributes.equals(&b.attributes));
            },
            _ => panic!("rebuilt operation changed its kind"),
        }
    }
}

#[test]
fn builder_attrs_coalesce_via_model_equality() {
    let mut d = Delta::default();
    let mut left = AttributesData::new();
    left.insert("a".to_string(), "1".to_string());
    left.insert("b".to_string(), "2".to_string());
    let mut right = AttributesData::new();
    right.insert("b".to_string(), "2".to_string());
    right.insert("a".to_string(), "1".to_string());
    d.retain(1, Attributes::Custom(left));
    d.retain(2, Attributes::Custom(right));
    assert_eq!(d.ops.len(), 1);
    assert!(op_is_retain(&d.ops[0], 3));
}

#[test]
fn ops_in_interval_returns_overlapping_ops_whole() {
    let mut d = Delta::default();
    d.retain(2, Attributes::Empty);
    d.insert("xy", Attributes::Empty);
    d.delete(3);
    let all = d.ops_in_interval(Interval::new(0, 7));
    assert_eq!(all.len(), 3);
    let mid = d.ops_in_interval(Interval::new(2, 4));
    assert_eq!(mid.len(), 1);
    assert!(op_is_insert(&mid[0], "xy"));
    let straddle = d.ops_in_interval(Interval::new(1, 3));
    assert_eq!(straddle.len(), 2);
    let none = d.ops_in_interval(Interval::new(7, 7));
    assert_eq!(none.len(), 0);
}

#[test]
fn attributes_in_interval_merges_contained_inserts() {
    let mut d = Delta::default();
    d.insert("ab", attrs_of(&[("bold", "true")]));
    d.insert("cd", attrs_of(&[("italic", "true")]));
    let got = d.attributes_in_interval(Interval::new(0, 4));
    match got {
        Attributes::Custom(data) => {
            assert_eq!(data.get(&"bold".to_string()), Some("true".to_string()));
            assert_eq!(data.get(&"italic".to_string()), Some("true".to_string()));
        },
        _ => panic!("expected custom attributes"),
    }
    let outside = d.attributes_in_interval(Interval::new(3, 4));
    assert!(matches!(outside, Attributes::Empty));
}

#[test]
fn invert_delta_over_matching_delta() {
    let mut prior = Delta::default();
    prior.retain(3, attrs_of(&[("bold", "")]));
    let mut this = Delta::default();
    this.retain(3, attrs_of(&[("bold", "true")]));
    let inverted = this.invert_delta(&prior);
    assert_eq!(inverted.ops.len(), 1);
    match &inverted.ops[0] {
        Operation::Retain(r) => {
            assert_eq!(r.n, 3);
            match &r.attributes {
                Attributes::Custom(d) => {
                    assert_eq!(d.get(&"bold".to_string()), Some("true".to_string()));
                },
                _ => panic!("expected custom attributes"),
            }
        },
        _ => panic!("expected a retain"),
    }
}

#[test]
fn invert_delta_plain_retain_inverts_other_attributes() {
    let mut prior = Delta::default();
    prior.retain(3, attrs_of(&[("bold", "x")]));
    let mut this = Delta::default();
    this.retain(3, Attributes::Empty);
    let inverted = this.invert_delta(&prior);
    assert_eq!(inverted.ops.len(), 1);
    match &inverted.ops[0] {
        Operation::Retain(r) => {
            assert_eq!(r.n, 3);
            match &r.attributes {
                Attributes::Custom(d) => assert!(d.is_empty()),
                _ => panic!("expected an inverted custom set"),
            }
        },
        _ => panic!("expected a retain"),
    }
}

#[test]
fn invert_delta_of_empty_other_is_empty() {
    let mut this = Delta::default();
    this.retain(3, Attributes::Empty);
    let inverted = this.invert_delta(&Delta::default());
    assert!(inverted.is_empty());
}

#[test]
fn attrs_builder_builds_custom_sets() {
    let a = AttrsBuilder::new().bold(true).italic(false).build();
    match a {
        Attributes::Custom(d) => {
            assert_eq!(d.get(&"bold".to_string()), Some("true".to_string()));
            assert_eq!(d.get(&"italic".to_string()), Some("".to_string()));
            assert!(!d.is_empty());
        },
        _ => panic!("expected custom attributes"),
    }
}

#[test]
fn attributes_data_merge_and_normalize() {
    let mut m = AttributesData::new();
    m.insert("bold".to_string(), "".to_string());
    m.insert("italic".to_string(), "true".to_string());
    let mut o = AttributesData::new();
    o.insert("bold".to_string(), "true".to_string());
    o.insert("size".to_string(), "12".to_string());
    m.merge(Some(o));
    assert_eq!(m.get(&"bold".to_string()), None);
    assert_eq!(m.get(&"italic".to_string()), Some("true".to_string()));
    assert_eq!(m.get(&"size".to_string()), Some("12".to_string()));
    let mut e = AttributesData::new();
    e.insert("bold".to_string(), "".to_string());
    assert!(e.is_empty());
    e.apply_rule();
    assert_eq!(e.get(&"bold".to_string()), None);
}

#[test]
fn apply_rule_collapses_blank_custom_sets() {
    let a = attrs_of(&[("bold", "")]).apply_rule();
    assert!(matches!(a, Attributes::Empty));
    let b = attrs_of(&[("bold", "true"), ("x", "")]).apply_rule();
    match b {
        Attributes::Custom(d) => {
            assert_eq!(d.get(&"bold".to_string()), Some("true".to_string()));
            assert_eq!(d.get(&"x".to_string()), None);
        },
        _ => panic!("expected custom attributes"),
    }
}

#[test]
fn attr_entry_fields_are_plain_strings() {
    let e = AttrEntry { key: "bold".to_string(), value: "true".to_string() };
    assert_eq!(e.key, "bold");
    assert_eq!(e.value, "true");
}

#[test]
fn compose_identity_right_rebuilds_delta() {
    let mut a = Delta::default();
    a.retain(2, Attributes::Empty);
    a.insert("xy", Attributes::Empty);
    a.delete(1);
    let mut id = Delta::default();
    id.retain(a.target_len as u64, Attributes::Empty);
    let c = a.compose(&id).unwrap();
    assert_eq!(c.ops.len(), a.ops.len());
    assert!(op_is_retain(&c.ops[0], 2));
    assert!(op_is_insert(&c.ops[1], "xy"));
    assert!(op_is_delete(&c.ops[2], 1));
}

#[test]
fn compose_identity_left_rebuilds_delta() {
    let mut b = Delta::default();
    b.retain(1, attrs_of(&[("bold", "true")]));
    b.insert("q", attrs_of(&[("italic", "true")]));
    b.delete(2);
    let mut id = Delta::default();
    id.retain(b.base_len as u64, Attributes::Empty);
    let c = id.compose(&b).unwrap();
    assert_eq!(c.ops.len(), b.ops.len());
    match (&c.ops[0], &b.ops[0]) {
        (Operation::Retain(x), Operation::Retain(y)) => {
            assert_eq!(x.n, y.n);
            assert!(x.attributes.equals(&y.attributes));
        },
        _ => panic!("expected retains"),
    }
    assert!(op_is_insert(&c.ops[1], "q"));
    assert!(op_is_delete(&c.ops[2], 2));
}

#[test]
fn is_noop_on_single_retain() {
    let mut d = Delta::default();
    d.retain(4, Attributes::Empty);
    assert!(d.is_noop());
    d.insert("x", Attributes::Empty);
    assert!(!d.is_noop());
}

#[test]
fn from_text_is_a_pure_insert() {
    let d = Delta::from_text("hola");
    assert_eq!(d.base_len, 0);
    assert_eq!(d.target_len, 4);
    assert_eq!(d.apply("").unwrap(), "hola");
}
