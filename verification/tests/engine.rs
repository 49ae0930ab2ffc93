//! The diff / apply / merge engine exercised on concrete trees.

use ota_yaml::mode::edit::{Data, Operation, PathKey};
use ota_yaml::mode::merge::Data as Merge;
use ota_yaml::value::{deep_copy, value_eq, Num, Value};

fn txt(s: &str) -> Value {
    Value::Text(s.to_string())
}

fn num(i: i64) -> Value {
    Value::Number(Num::Int(i))
}

fn mapping(entries: Vec<(Value, Value)>) -> Value {
    Value::Mapping(entries)
}

fn sequence(items: Vec<Value>) -> Value {
    Value::Sequence(items)
}

/// A mapping element `{name: <name>, v: <v>}` as named sequences hold them.
fn named(name: &str, v: i64) -> Value {
    mapping(vec![(txt("name"), txt(name)), (txt("v"), num(v))])
}

fn diff(a: &Value, b: &Value) -> Vec<Operation> {
    Data::diff(a, b).expect("diff always succeeds")
}

#[test]
fn empty_diff_for_equal_trees() {
    let a = mapping(vec![
        (txt("k"), num(1)),
        (txt("s"), sequence(vec![num(1), txt("two"), Value::Null])),
    ]);
    assert_eq!(diff(&a, &a).len(), 0);
    assert_eq!(diff(&Value::Null, &Value::Null).len(), 0);
}

#[test]
fn empty_diff_for_reordered_mapping() {
    let a = mapping(vec![(txt("a"), num(1)), (txt("b"), num(2))]);
    let b = mapping(vec![(txt("b"), num(2)), (txt("a"), num(1))]);
    assert!(value_eq(&a, &b));
    assert_eq!(diff(&a, &b).len(), 0);
}

#[test]
fn variant_change_is_whole_subtree_mod() {
    let a = mapping(vec![(txt("a"), num(1))]);
    let b = txt("now a string");
    let ops = diff(&a, &b);
    assert_eq!(ops.len(), 1);
    assert_eq!(ops[0], Operation::Mod(vec![], txt("now a string")));
    let r = Data::apply(&a, &ops).unwrap();
    assert_eq!(r, b);
}

#[test]
fn scalar_change_is_mod() {
    let ops = diff(&num(1), &num(2));
    assert_eq!(ops, vec![Operation::Mod(vec![], num(2))]);
}

#[test]
fn mapping_diff_adds_and_deletes_keys() {
    let a = mapping(vec![(txt("keep"), num(1)), (txt("gone"), num(2))]);
    let b = mapping(vec![(txt("keep"), num(1)), (txt("fresh"), num(3))]);
    let ops = diff(&a, &b);
    assert_eq!(
        ops,
        vec![
            Operation::Add(vec![PathKey::Key(txt("fresh"))], num(3)),
            Operation::Del(vec![PathKey::Key(txt("gone"))], num(2)),
        ]
    );
    let r = Data::apply(&a, &ops).unwrap();
    assert!(value_eq(&r, &b));
}

#[test]
fn named_sequence_reconciliation() {
    // Reordered elements with one changed value: exactly one Mod under the
    // element's identity, no Add and no Del.
    let a = sequence(vec![named("x", 1), named("y", 2)]);
    let b = sequence(vec![named("y", 3), named("x", 1)]);
    let ops = diff(&a, &b);
    assert_eq!(
        ops,
        vec![Operation::Mod(
            vec![
                PathKey::NameIndex("y".to_string()),
                PathKey::Key(txt("v")),
            ],
            num(3),
        )]
    );
    // Replay updates the matched element in place: element order stays
    // the old sequence's order, only the value changes.
    let r = Data::apply(&a, &ops).unwrap();
    assert_eq!(r, sequence(vec![named("x", 1), named("y", 3)]));
    assert!(value_eq(&r, &sequence(vec![named("x", 1), named("y", 3)])));
    assert!(!value_eq(&r, &b));
}

#[test]
fn positional_fallback() {
    // Scalar elements: matched by position, no identity lookups; the spare
    // old element is deleted, the changed one modified.
    let a = sequence(vec![num(1), num(2), num(3)]);
    let b = sequence(vec![num(1), num(9)]);
    let ops = diff(&a, &b);
    assert_eq!(
        ops,
        vec![
            Operation::Del(vec![PathKey::Index(2)], num(3)),
            Operation::Mod(vec![PathKey::Index(1)], num(9)),
        ]
    );
    let r = Data::apply(&a, &ops).unwrap();
    assert!(value_eq(&r, &b));
}

#[test]
fn positional_growth_adds_from_highest_index() {
    let a = sequence(vec![num(1)]);
    let b = sequence(vec![num(1), num(2), num(3)]);
    let ops = diff(&a, &b);
    assert_eq!(
        ops,
        vec![
            Operation::Add(vec![PathKey::Index(2)], num(3)),
            Operation::Add(vec![PathKey::Index(1)], num(2)),
        ]
    );
    let r = Data::apply(&a, &ops).unwrap();
    assert!(value_eq(&r, &b));
}

#[test]
fn round_trip_mixed_document() {
    let a = mapping(vec![
        (txt("title"), txt("one")),
        (txt("items"), sequence(vec![named("x", 1), named("y", 2)])),
        (txt("flags"), sequence(vec![num(1), num(2), num(3)])),
        (txt("gone"), Value::Bool(true)),
    ]);
    let b = mapping(vec![
        (txt("title"), txt("two")),
        (txt("items"), sequence(vec![named("y", 5), named("z", 6)])),
        (txt("flags"), sequence(vec![num(1), num(9)])),
        (txt("fresh"), Value::Null),
    ]);
    let ops = diff(&a, &b);
    let r = Data::apply(&a, &ops).unwrap();
    assert!(value_eq(&r, &b));
    // Replaying the same list against the produced tree is a no-op.
    let r2 = Data::apply(&r, &ops).unwrap();
    assert!(value_eq(&r2, &r));
}

#[test]
fn round_trip_same_keys_nested() {
    // Values changed under an unchanged key set, nested mappings and a
    // positional sequence below: replay reproduces the new tree, and a
    // second replay is a no-op.
    let a = mapping(vec![
        (txt("name"), txt("cfg")),
        (
            txt("limits"),
            mapping(vec![(txt("low"), num(1)), (txt("high"), num(10))]),
        ),
        (txt("steps"), sequence(vec![num(1), num(2)])),
    ]);
    let b = mapping(vec![
        (txt("name"), txt("cfg")),
        (
            txt("limits"),
            mapping(vec![(txt("low"), num(2)), (txt("high"), num(20))]),
        ),
        (txt("steps"), sequence(vec![num(3), num(4)])),
    ]);
    let ops = diff(&a, &b);
    let r = Data::apply(&a, &ops).unwrap();
    assert!(value_eq(&r, &b));
    let r2 = Data::apply(&r, &ops).unwrap();
    assert_eq!(r2, r);
}

#[test]
fn apply_overwrites_diverged_structure() {
    // Best effort on a tree that diverged from the one the list was made
    // from: conflicting structure is overwritten, not merged.
    let ops = vec![Operation::Mod(vec![PathKey::Key(txt("a"))], num(7))];
    let diverged = mapping(vec![(txt("a"), txt("text now"))]);
    let r = Data::apply(&diverged, &ops).unwrap();
    assert_eq!(r, mapping(vec![(txt("a"), num(7))]));
}

#[test]
fn apply_creates_missing_mapping_entries() {
    let ops = vec![Operation::Add(
        vec![PathKey::Key(txt("outer")), PathKey::Key(txt("inner"))],
        num(1),
    )];
    let empty = mapping(vec![]);
    let r = Data::apply(&empty, &ops).unwrap();
    assert_eq!(
        r,
        mapping(vec![(txt("outer"), mapping(vec![(txt("inner"), num(1))]))])
    );
    // A null node is turned into a mapping on the way down as well.
    let r2 = Data::apply(&Value::Null, &ops).unwrap();
    assert_eq!(
        r2,
        mapping(vec![(txt("outer"), mapping(vec![(txt("inner"), num(1))]))])
    );
}

#[test]
fn apply_extends_sequence_for_high_index() {
    let a = sequence(vec![num(1)]);
    let ops = vec![Operation::Add(vec![PathKey::Index(3)], num(9))];
    let r = Data::apply(&a, &ops).unwrap();
    assert_eq!(r, sequence(vec![num(1), Value::Null, Value::Null, num(9)]));
}

#[test]
fn apply_materializes_named_element() {
    let a = sequence(vec![named("x", 1)]);
    let ops = vec![Operation::Add(
        vec![PathKey::NameIndex("z".to_string())],
        named("z", 9),
    )];
    let r = Data::apply(&a, &ops).unwrap();
    assert_eq!(r, sequence(vec![named("x", 1), named("z", 9)]));
}

#[test]
fn apply_del_removes_by_identity() {
    let a = sequence(vec![named("x", 1), named("y", 2)]);
    let ops = vec![Operation::Del(
        vec![PathKey::NameIndex("x".to_string())],
        named("x", 1),
    )];
    let r = Data::apply(&a, &ops).unwrap();
    assert_eq!(r, sequence(vec![named("y", 2)]));
}

#[test]
fn apply_del_of_absent_targets_is_noop() {
    let a = mapping(vec![(txt("a"), num(1))]);
    let ops = vec![Operation::Del(vec![PathKey::Key(txt("zz"))], num(0))];
    let r = Data::apply(&a, &ops).unwrap();
    assert_eq!(r, a);

    let s = sequence(vec![num(1)]);
    let ops2 = vec![Operation::Del(vec![PathKey::Index(5)], num(0))];
    let r2 = Data::apply(&s, &ops2).unwrap();
    assert_eq!(r2, s);

    let n = sequence(vec![named("x", 1)]);
    let ops3 = vec![Operation::Del(
        vec![PathKey::NameIndex("nobody".to_string())],
        num(0),
    )];
    let r3 = Data::apply(&n, &ops3).unwrap();
    assert_eq!(r3, n);
}

#[test]
fn apply_fails_on_wrong_shape() {
    // A mapping step against a sequence cannot be resolved.
    let a = sequence(vec![num(1)]);
    let ops = vec![Operation::Mod(vec![PathKey::Key(txt("a"))], num(2))];
    let e = Data::apply(&a, &ops).unwrap_err();
    assert_eq!(e.op_index, 0);
    assert_eq!(e.depth, 0);
    assert_eq!(e.segment, Some(PathKey::Key(txt("a"))));
}

#[test]
fn apply_fails_deep_with_resolved_depth() {
    let a = mapping(vec![(txt("a"), num(1))]);
    let ops = vec![Operation::Mod(
        vec![PathKey::Key(txt("a")), PathKey::Index(0)],
        num(2),
    )];
    let e = Data::apply(&a, &ops).unwrap_err();
    assert_eq!(e.op_index, 0);
    assert_eq!(e.depth, 1);
    assert_eq!(e.segment, Some(PathKey::Index(0)));
}

#[test]
fn apply_fails_on_empty_delete_path() {
    let a = num(1);
    let ops = vec![Operation::Del(vec![], num(1))];
    let e = Data::apply(&a, &ops).unwrap_err();
    assert_eq!(e.op_index, 0);
    assert_eq!(e.depth, 0);
    assert_eq!(e.segment, None);
}

#[test]
fn apply_fails_deleting_by_name_without_identities() {
    // A diverged tree whose elements lack the expected field: a recoverable
    // error, not a panic.
    let a = sequence(vec![named("x", 1), num(5)]);
    let ops = vec![Operation::Del(
        vec![PathKey::NameIndex("x".to_string())],
        named("x", 1),
    )];
    let e = Data::apply(&a, &ops).unwrap_err();
    assert_eq!(e.op_index, 0);
    assert_eq!(e.depth, 0);
    assert_eq!(e.segment, Some(PathKey::NameIndex("x".to_string())));
}

#[test]
fn apply_reports_failing_operation_index() {
    let a = mapping(vec![(txt("a"), num(1))]);
    let ops = vec![
        Operation::Mod(vec![PathKey::Key(txt("a"))], num(2)),
        Operation::Mod(vec![PathKey::Key(txt("a")), PathKey::Index(1)], num(3)),
    ];
    let e = Data::apply(&a, &ops).unwrap_err();
    assert_eq!(e.op_index, 1);
    assert_eq!(e.depth, 1);
}

#[test]
fn diff_reports_passed_over_elements() {
    // In a sequence diffed by identity, elements without one are passed
    // over, the rest still diffs; the report lists them, new side first.
    let a = sequence(vec![named("x", 1), num(5)]);
    let b = sequence(vec![named("x", 2), num(7)]);
    let (ops, unnamed) = Data::diff_reported(&a, &b).unwrap();
    assert_eq!(ops, diff(&a, &b));
    assert_eq!(unnamed, vec![num(7), num(5)]);
    // The condition is found below mapping keys as well.
    let outer_a = mapping(vec![(txt("items"), a)]);
    let outer_b = mapping(vec![(txt("items"), b)]);
    assert_eq!(Data::unnamed(&outer_a, &outer_b), vec![num(7), num(5)]);
}

#[test]
fn diff_reports_nothing_for_plain_pairs() {
    // Positional pairs and equal pairs leave nothing unaddressed.
    let a = sequence(vec![num(1), num(2)]);
    let b = sequence(vec![num(1), num(9)]);
    assert_eq!(Data::unnamed(&a, &b), vec![]);
    let c = sequence(vec![named("x", 1), num(5)]);
    assert_eq!(Data::unnamed(&c, &c), vec![]);
}

#[test]
fn merge_identity_on_wellformed_tree() {
    let a = mapping(vec![
        (txt("k"), num(1)),
        (txt("items"), sequence(vec![named("x", 1), named("y", 2)])),
    ]);
    let r = Merge::merge_yaml(&a, &a);
    assert_eq!(r, a);
}

#[test]
fn merge_new_wins_on_variant_change_and_scalars() {
    assert_eq!(Merge::merge_yaml(&num(1), &txt("s")), txt("s"));
    assert_eq!(Merge::merge_yaml(&num(1), &num(2)), num(2));
    assert_eq!(Merge::merge_yaml(&Value::Null, &Value::Null), Value::Null);
}

#[test]
fn merge_mapping_recurses_and_inserts() {
    let a = mapping(vec![(txt("a"), num(1)), (txt("b"), num(2))]);
    let b = mapping(vec![(txt("b"), num(20)), (txt("c"), num(30))]);
    let r = Merge::merge_yaml(&a, &b);
    assert_eq!(
        r,
        mapping(vec![(txt("a"), num(1)), (txt("b"), num(20)), (txt("c"), num(30))])
    );
}

#[test]
fn merge_positional_sequence_is_replaced() {
    let a = sequence(vec![num(1), num(2)]);
    let b = sequence(vec![num(9)]);
    assert_eq!(Merge::merge_yaml(&a, &b), b);
}

#[test]
fn merge_empty_sequence_keeps_the_other_side() {
    let a = sequence(vec![num(1)]);
    let empty = sequence(vec![]);
    assert_eq!(Merge::merge_yaml(&a, &empty), a);
    assert_eq!(Merge::merge_yaml(&empty, &a), a);
}

#[test]
fn merge_does_not_extend_named_sequences() {
    // The documented asymmetry: elements present only in the new sequence
    // are dropped, matching elements are updated.
    let a = sequence(vec![named("x", 1)]);
    let b = sequence(vec![named("x", 2), named("z", 9)]);
    let r = Merge::merge_yaml(&a, &b);
    assert_eq!(r, sequence(vec![named("x", 2)]));
}

#[test]
fn merge_named_mode_decided_by_either_side() {
    // The old side's first element has no identity, the new side's first
    // does: the pair is still reconciled by identity, not replaced. The
    // identity-less old element is kept as-is, and elements present only
    // in the new sequence are not appended.
    let a = sequence(vec![mapping(vec![(txt("v"), num(1))])]);
    let b = sequence(vec![named("x", 2), named("z", 9)]);
    let r = Merge::merge_yaml(&a, &b);
    assert_eq!(r, a);
}

#[test]
fn merge_keeps_old_only_named_elements() {
    let a = sequence(vec![named("x", 1), named("only-old", 7)]);
    let b = sequence(vec![named("x", 2)]);
    let r = Merge::merge_yaml(&a, &b);
    assert_eq!(r, sequence(vec![named("x", 2), named("only-old", 7)]));
}

#[test]
fn variant_eq_compares_tags_only() {
    assert!(Merge::variant_eq(&num(1), &num(99)));
    assert!(Merge::variant_eq(&mapping(vec![]), &mapping(vec![(txt("a"), num(1))])));
    assert!(!Merge::variant_eq(&num(1), &txt("1")));
}

#[test]
fn value_eq_ignores_mapping_order_only() {
    let a = mapping(vec![(txt("a"), num(1)), (txt("b"), num(2))]);
    let b = mapping(vec![(txt("b"), num(2)), (txt("a"), num(1))]);
    assert!(value_eq(&a, &b));
    // Sequence order stays significant.
    let s1 = sequence(vec![num(1), num(2)]);
    let s2 = sequence(vec![num(2), num(1)]);
    assert!(!value_eq(&s1, &s2));
    // Number representations are compared exactly.
    assert!(!value_eq(&num(1), &Value::Number(Num::Uint(1))));
}

#[test]
fn deep_copy_is_structural() {
    let a = mapping(vec![
        (txt("k"), sequence(vec![num(1), Value::Bool(false)])),
        (num(7), Value::Null),
    ]);
    let c = deep_copy(&a);
    assert_eq!(c, a);
}

#[test]
fn edit_state_starts_without_a_capture() {
    let d = Data::new();
    assert!(d.diff.is_none());
}
