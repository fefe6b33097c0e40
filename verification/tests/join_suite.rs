use frame_join::join::{
    AsofOptions, AsofStrategy, JoinError, JoinSpec, JoinType, ValidationMode,
};
use frame_join::table::{Column, ColumnData, Table};

fn int_col(name: &str, values: Vec<Option<i64>>) -> Column {
    Column { name: String::from(name), data: ColumnData::Ints(values) }
}

fn str_col(name: &str, values: Vec<Option<&str>>) -> Column {
    Column {
        name: String::from(name),
        data: ColumnData::Strs(values.into_iter().map(|v| v.map(String::from)).collect()),
    }
}

fn cat_col(name: &str, codes: Vec<Option<usize>>, dict: Vec<&str>) -> Column {
    Column {
        name: String::from(name),
        data: ColumnData::Cats { codes, dict: dict.into_iter().map(String::from).collect() },
    }
}

fn table(columns: Vec<Column>) -> Table {
    Table::try_new(columns).unwrap()
}

fn ints(t: &Table, k: usize) -> Vec<Option<i64>> {
    match &t.columns[k].data {
        ColumnData::Ints(v) => v.clone(),
        _ => panic!("not an integer column"),
    }
}

fn names(t: &Table) -> Vec<String> {
    t.columns.iter().map(|c| c.name.clone()).collect()
}

fn scenario_left() -> Table {
    table(vec![
        int_col("id", vec![Some(1), Some(2), Some(2), Some(3)]),
        int_col("lv", vec![Some(10), Some(20), Some(21), Some(30)]),
    ])
}

fn scenario_right() -> Table {
    table(vec![
        int_col("id", vec![Some(2), Some(2), Some(4)]),
        int_col("rv", vec![Some(200), Some(201), Some(400)]),
    ])
}

fn on(name: &str) -> Vec<String> {
    vec![String::from(name)]
}

#[test]
fn inner_join_scenario() {
    let l = scenario_left();
    let r = scenario_right();
    let out = l.inner_join(&r, &on("id"), &on("id")).unwrap();
    assert_eq!(out.height, 4);
    assert_eq!(names(&out), vec!["id", "lv", "rv"]);
    assert_eq!(ints(&out, 0), vec![Some(2), Some(2), Some(2), Some(2)]);
    assert_eq!(ints(&out, 1), vec![Some(20), Some(20), Some(21), Some(21)]);
    assert_eq!(ints(&out, 2), vec![Some(200), Some(201), Some(200), Some(201)]);
}

#[test]
fn left_join_scenario() {
    let l = scenario_left();
    let r = scenario_right();
    let out = l.left_join(&r, &on("id"), &on("id")).unwrap();
    assert_eq!(out.height, 6);
    assert_eq!(ints(&out, 0), vec![Some(1), Some(2), Some(2), Some(2), Some(2), Some(3)]);
    assert_eq!(
        ints(&out, 2),
        vec![None, Some(200), Some(201), Some(200), Some(201), None]
    );
}

#[test]
fn semi_join_scenario() {
    let l = scenario_left();
    let r = scenario_right();
    let out = l
        .join(&r, &on("id"), &on("id"), JoinSpec::new(JoinType::Semi))
        .unwrap();
    assert_eq!(out.height, 2);
    assert_eq!(names(&out), vec!["id", "lv"]);
    assert_eq!(ints(&out, 0), vec![Some(2), Some(2)]);
    assert_eq!(ints(&out, 1), vec![Some(20), Some(21)]);
}

#[test]
fn anti_join_scenario() {
    let l = scenario_left();
    let r = scenario_right();
    let out = l
        .join(&r, &on("id"), &on("id"), JoinSpec::new(JoinType::Anti))
        .unwrap();
    assert_eq!(out.height, 2);
    assert_eq!(ints(&out, 0), vec![Some(1), Some(3)]);
}

#[test]
fn one_to_one_validation_fails_on_scenario() {
    let l = scenario_left();
    let r = scenario_right();
    let mut sp = JoinSpec::new(JoinType::Inner);
    sp.validation = ValidationMode::OneToOne;
    let e = l.join(&r, &on("id"), &on("id"), sp).unwrap_err();
    assert!(matches!(e, JoinError::ValidationError { left_side: true }));
}

#[test]
fn many_to_one_validation_names_right_side() {
    let l = scenario_left();
    let r = scenario_right();
    let mut sp = JoinSpec::new(JoinType::Inner);
    sp.validation = ValidationMode::ManyToOne;
    let e = l.join(&r, &on("id"), &on("id"), sp).unwrap_err();
    assert!(matches!(e, JoinError::ValidationError { left_side: false }));
}

#[test]
fn one_to_many_validation_passes_with_unique_left() {
    let l = table(vec![int_col("id", vec![Some(1), Some(2)])]);
    let r = table(vec![int_col("id", vec![Some(2), Some(2)])]);
    let mut sp = JoinSpec::new(JoinType::Inner);
    sp.validation = ValidationMode::OneToMany;
    let out = l.join(&r, &on("id"), &on("id"), sp).unwrap();
    assert_eq!(out.height, 2);
}

#[test]
fn null_keys_match_nothing_by_default() {
    let l = table(vec![int_col("id", vec![None, Some(1)])]);
    let r = table(vec![int_col("id", vec![None, Some(9)])]);
    let out = l
        .join(&r, &on("id"), &on("id"), JoinSpec::new(JoinType::Inner))
        .unwrap();
    assert_eq!(out.height, 0);
}

#[test]
fn null_keys_match_under_null_equality() {
    let l = table(vec![int_col("id", vec![None, Some(1)])]);
    let r = table(vec![int_col("id", vec![None, Some(9)])]);
    let mut sp = JoinSpec::new(JoinType::Inner);
    sp.null_equality = true;
    let out = l.join(&r, &on("id"), &on("id"), sp).unwrap();
    assert_eq!(out.height, 1);
    assert_eq!(ints(&out, 0), vec![None]);
}

#[test]
fn slice_equals_rows_of_unsliced() {
    let l = scenario_left();
    let r = scenario_right();
    let full = l.left_join(&r, &on("id"), &on("id")).unwrap();
    let mut sp = JoinSpec::new(JoinType::Left);
    sp.slice = Some((1, 3));
    let sliced = l.join(&r, &on("id"), &on("id"), sp).unwrap();
    assert_eq!(sliced.height, 3);
    for k in 0..full.columns.len() {
        assert_eq!(ints(&sliced, k), ints(&full, k)[1..4].to_vec());
    }
}

#[test]
fn slice_clips_to_available_rows() {
    let l = scenario_left();
    let r = scenario_right();
    let mut sp = JoinSpec::new(JoinType::Inner);
    sp.slice = Some((3, 10));
    let out = l.join(&r, &on("id"), &on("id"), sp).unwrap();
    assert_eq!(out.height, 1);
}

#[test]
fn outer_join_keeps_both_sides() {
    let l = table(vec![int_col("id", vec![Some(1), Some(2)])]);
    let r = table(vec![int_col("id", vec![Some(2), Some(3)])]);
    let out = l.outer_join(&r, &on("id"), &on("id")).unwrap();
    assert_eq!(out.height, 3);
    assert_eq!(names(&out), vec!["id", "id_right"]);
    assert_eq!(ints(&out, 0), vec![Some(1), Some(2), None]);
    assert_eq!(ints(&out, 1), vec![None, Some(2), Some(3)]);
}

#[test]
fn outer_coalesce_merges_keys() {
    let l = table(vec![int_col("id", vec![Some(1), Some(2)])]);
    let r = table(vec![int_col("id", vec![Some(2), Some(3)])]);
    let out = l
        .join(
            &r,
            &on("id"),
            &on("id"),
            JoinSpec::new(JoinType::Outer { coalesce: true }),
        )
        .unwrap();
    assert_eq!(out.height, 3);
    // The merged key column prefers the left value and the right key column
    // is gone.
    assert_eq!(names(&out), vec!["id"]);
    assert_eq!(ints(&out, 0), vec![Some(1), Some(2), Some(3)]);
}

#[test]
fn collision_gets_suffix_once() {
    let l = table(vec![
        int_col("id", vec![Some(1)]),
        int_col("v", vec![Some(10)]),
    ]);
    let r = table(vec![
        int_col("id", vec![Some(1)]),
        int_col("v", vec![Some(99)]),
    ]);
    let out = l.inner_join(&r, &on("id"), &on("id")).unwrap();
    assert_eq!(names(&out), vec!["id", "v", "v_right"]);
    assert_eq!(ints(&out, 2), vec![Some(99)]);
}

#[test]
fn custom_suffix_is_used() {
    let l = table(vec![
        int_col("id", vec![Some(1)]),
        int_col("v", vec![Some(10)]),
    ]);
    let r = table(vec![
        int_col("id", vec![Some(1)]),
        int_col("v", vec![Some(99)]),
    ]);
    let mut sp = JoinSpec::new(JoinType::Inner);
    sp.suffix = Some(String::from("_r2"));
    let out = l.join(&r, &on("id"), &on("id"), sp).unwrap();
    assert_eq!(names(&out), vec!["id", "v", "v_r2"]);
}

#[test]
fn residual_collision_is_a_compute_error() {
    // "v" collides and becomes "v_right", which the left table also has:
    // the triple collision is refused rather than resolved.
    let l = table(vec![
        int_col("id", vec![Some(1)]),
        int_col("v", vec![Some(10)]),
        int_col("v_right", vec![Some(11)]),
    ]);
    let r = table(vec![
        int_col("id", vec![Some(1)]),
        int_col("v", vec![Some(99)]),
    ]);
    let e = l.inner_join(&r, &on("id"), &on("id")).unwrap_err();
    assert!(matches!(e, JoinError::ComputeError));
}

#[test]
fn key_count_mismatch_is_invalid_input() {
    let l = scenario_left();
    let r = scenario_right();
    let e = l
        .join(
            &r,
            &vec![String::from("id"), String::from("lv")],
            &on("id"),
            JoinSpec::new(JoinType::Inner),
        )
        .unwrap_err();
    assert!(matches!(e, JoinError::InvalidInput));
}

#[test]
fn empty_key_list_is_invalid_input() {
    let l = scenario_left();
    let r = scenario_right();
    let e = l
        .join(&r, &vec![], &vec![], JoinSpec::new(JoinType::Inner))
        .unwrap_err();
    assert!(matches!(e, JoinError::InvalidInput));
}

#[test]
fn missing_key_name_is_invalid_input() {
    let l = scenario_left();
    let r = scenario_right();
    let e = l
        .join(&r, &on("nope"), &on("id"), JoinSpec::new(JoinType::Inner))
        .unwrap_err();
    assert!(matches!(e, JoinError::InvalidInput));
}

#[test]
fn key_dtype_mismatch_is_type_mismatch() {
    let l = table(vec![int_col("id", vec![Some(1)])]);
    let r = table(vec![str_col("id", vec![Some("1")])]);
    let e = l.inner_join(&r, &on("id"), &on("id")).unwrap_err();
    match e {
        JoinError::TypeMismatch { left, right, .. } => {
            assert_eq!(left, "id");
            assert_eq!(right, "id");
        },
        _ => panic!("expected a type mismatch"),
    }
}

#[test]
fn one_sided_categorical_is_type_mismatch() {
    let l = table(vec![cat_col("k", vec![Some(0)], vec!["a"])]);
    let r = table(vec![str_col("k", vec![Some("a")])]);
    let e = l.inner_join(&r, &on("k"), &on("k")).unwrap_err();
    assert!(matches!(e, JoinError::TypeMismatch { .. }));
}

#[test]
fn string_keys_join_by_value() {
    let l = table(vec![
        str_col("k", vec![Some("a"), Some("b"), None]),
        int_col("lv", vec![Some(1), Some(2), Some(3)]),
    ]);
    let r = table(vec![
        str_col("k", vec![Some("b"), Some("c")]),
        int_col("rv", vec![Some(20), Some(30)]),
    ]);
    let out = l.inner_join(&r, &on("k"), &on("k")).unwrap();
    assert_eq!(out.height, 1);
    assert_eq!(ints(&out, 1), vec![Some(2)]);
    assert_eq!(ints(&out, 2), vec![Some(20)]);
}

#[test]
fn categorical_keys_reconcile_dictionaries() {
    // Code 0 means "a" on the left but "b" on the right: equality must go
    // by the strings, not the raw codes.
    let l = table(vec![
        cat_col("k", vec![Some(0), Some(1)], vec!["a", "b"]),
        int_col("lv", vec![Some(1), Some(2)]),
    ]);
    let r = table(vec![
        cat_col("k", vec![Some(0), Some(1)], vec!["b", "c"]),
        int_col("rv", vec![Some(20), Some(30)]),
    ]);
    let out = l.inner_join(&r, &on("k"), &on("k")).unwrap();
    assert_eq!(out.height, 1);
    assert_eq!(ints(&out, 1), vec![Some(2)]);
    assert_eq!(ints(&out, 2), vec![Some(20)]);
}

#[test]
fn cross_join_ignores_keys() {
    let l = table(vec![int_col("a", vec![Some(1), Some(2)])]);
    let r = table(vec![int_col("b", vec![Some(10), Some(20), Some(30)])]);
    let out = l
        .join(&r, &vec![], &vec![], JoinSpec::new(JoinType::Cross))
        .unwrap();
    assert_eq!(out.height, 6);
    assert_eq!(names(&out), vec!["a", "b"]);
    assert_eq!(
        ints(&out, 0),
        vec![Some(1), Some(1), Some(1), Some(2), Some(2), Some(2)]
    );
    assert_eq!(
        ints(&out, 1),
        vec![Some(10), Some(20), Some(30), Some(10), Some(20), Some(30)]
    );
}

#[test]
fn multi_key_join_uses_both_columns() {
    let l = table(vec![
        int_col("a", vec![Some(1), Some(1), Some(2)]),
        int_col("b", vec![Some(1), Some(2), Some(1)]),
        int_col("lv", vec![Some(11), Some(12), Some(21)]),
    ]);
    let r = table(vec![
        int_col("a", vec![Some(1), Some(2)]),
        int_col("b", vec![Some(2), Some(1)]),
        int_col("rv", vec![Some(120), Some(210)]),
    ]);
    let out = l
        .inner_join(
            &r,
            &vec![String::from("a"), String::from("b")],
            &vec![String::from("a"), String::from("b")],
        )
        .unwrap();
    assert_eq!(out.height, 2);
    let mut lvs = ints(&out, 2);
    lvs.sort();
    assert_eq!(lvs, vec![Some(12), Some(21)]);
}

fn asof_spec(strategy: AsofStrategy, tolerance: Option<i64>) -> JoinSpec {
    JoinSpec::new(JoinType::AsOf(AsofOptions {
        strategy,
        tolerance,
        left_by: None,
        right_by: None,
    }))
}

#[test]
fn asof_backward_takes_latest_not_above() {
    let l = table(vec![int_col("t", vec![Some(1), Some(5), Some(10)])]);
    let r = table(vec![
        int_col("t", vec![Some(2), Some(4), Some(9)]),
        int_col("rv", vec![Some(200), Some(400), Some(900)]),
    ]);
    let out = l
        .join(&r, &on("t"), &on("t"), asof_spec(AsofStrategy::Backward, None))
        .unwrap();
    assert_eq!(out.height, 3);
    assert_eq!(ints(&out, 1), vec![None, Some(400), Some(900)]);
}

#[test]
fn asof_forward_takes_earliest_not_below() {
    let l = table(vec![int_col("t", vec![Some(1), Some(5), Some(10)])]);
    let r = table(vec![
        int_col("t", vec![Some(2), Some(4), Some(9)]),
        int_col("rv", vec![Some(200), Some(400), Some(900)]),
    ]);
    let out = l
        .join(&r, &on("t"), &on("t"), asof_spec(AsofStrategy::Forward, None))
        .unwrap();
    assert_eq!(ints(&out, 1), vec![Some(200), Some(900), None]);
}

#[test]
fn asof_nearest_with_tolerance() {
    let l = table(vec![int_col("t", vec![Some(3), Some(50)])]);
    let r = table(vec![
        int_col("t", vec![Some(2), Some(4), Some(9)]),
        int_col("rv", vec![Some(200), Some(400), Some(900)]),
    ]);
    let out = l
        .join(
            &r,
            &on("t"),
            &on("t"),
            asof_spec(AsofStrategy::Nearest, Some(5)),
        )
        .unwrap();
    // Distance ties at t=3 prefer the smaller right value; t=50 is out of
    // tolerance.
    assert_eq!(ints(&out, 1), vec![Some(200), None]);
}

#[test]
fn asof_by_groups_restrict_matches() {
    let l = table(vec![
        int_col("t", vec![Some(5), Some(5)]),
        int_col("g", vec![Some(1), Some(2)]),
    ]);
    let r = table(vec![
        int_col("t", vec![Some(4), Some(3)]),
        int_col("g", vec![Some(1), Some(2)]),
        int_col("rv", vec![Some(40), Some(30)]),
    ]);
    let mut opts = AsofOptions {
        strategy: AsofStrategy::Backward,
        tolerance: None,
        left_by: Some(vec![String::from("g")]),
        right_by: Some(vec![String::from("g")]),
    };
    let out = l
        .join(&r, &on("t"), &on("t"), JoinSpec::new(JoinType::AsOf(opts)))
        .unwrap();
    assert_eq!(out.height, 2);
    assert_eq!(names(&out), vec!["t", "g", "rv"]);
    assert_eq!(ints(&out, 2), vec![Some(40), Some(30)]);
    opts = AsofOptions {
        strategy: AsofStrategy::Backward,
        tolerance: None,
        left_by: Some(vec![String::from("g")]),
        right_by: None,
    };
    let e = l
        .join(&r, &on("t"), &on("t"), JoinSpec::new(JoinType::AsOf(opts)))
        .unwrap_err();
    assert!(matches!(e, JoinError::InvalidInput));
}

#[test]
fn asof_rejects_composite_ordering_keys() {
    let l = table(vec![
        int_col("t", vec![Some(1)]),
        int_col("u", vec![Some(1)]),
    ]);
    let r = table(vec![
        int_col("t", vec![Some(1)]),
        int_col("u", vec![Some(1)]),
    ]);
    let e = l
        .join(
            &r,
            &vec![String::from("t"), String::from("u")],
            &vec![String::from("t"), String::from("u")],
            asof_spec(AsofStrategy::Backward, None),
        )
        .unwrap_err();
    assert!(matches!(e, JoinError::UnsupportedCombination));
}

#[test]
fn asof_rejects_non_integer_ordering_key() {
    let l = table(vec![str_col("t", vec![Some("a")])]);
    let r = table(vec![str_col("t", vec![Some("a")])]);
    let e = l
        .join(&r, &on("t"), &on("t"), asof_spec(AsofStrategy::Backward, None))
        .unwrap_err();
    assert!(matches!(e, JoinError::ComputeError));
}

#[test]
fn empty_tables_join_cleanly() {
    let l = table(vec![int_col("id", vec![])]);
    let r = table(vec![int_col("id", vec![])]);
    let out = l.left_join(&r, &on("id"), &on("id")).unwrap();
    assert_eq!(out.height, 0);
    let out2 = l.outer_join(&r, &on("id"), &on("id")).unwrap();
    assert_eq!(out2.height, 0);
}

#[test]
fn cross_join_with_column_less_table() {
    let l = table(vec![int_col("a", vec![Some(1), Some(2)])]);
    let r = Table::new_empty(3);
    let out = l
        .join(&r, &vec![], &vec![], JoinSpec::new(JoinType::Cross))
        .unwrap();
    assert_eq!(out.height, 6);
    assert_eq!(names(&out), vec!["a"]);
}

#[test]
fn inner_join_order_with_smaller_left_is_right_major() {
    // The build/probe optimizer hashes the smaller side; with a smaller
    // left table the emitted pairs come back right-major, but the same
    // matches are present exactly once each.
    let l = table(vec![int_col("id", vec![Some(2)])]);
    let r = table(vec![
        int_col("id", vec![Some(2), Some(3)]),
        int_col("rv", vec![Some(20), Some(30)]),
    ]);
    let out = l.inner_join(&r, &on("id"), &on("id")).unwrap();
    assert_eq!(out.height, 1);
    assert_eq!(ints(&out, 1), vec![Some(20)]);
}
