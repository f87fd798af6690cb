use envelope::store::{
    EnvelopeDb, Environment, EnvironmentDiff, EnvironmentRow, EnvironmentRowNullable,
    StoreError, Truncate, VariableEvent,
};
use envelope::edit::{add_var, import, KeyError};
use envelope::listing::{sort_rows, Sort};
use std::collections::HashSet;

/// A store over rows given in any order; they are laid out oldest first,
/// rows with equal timestamps in the order given.
fn db_from_rows(rows: &[(&str, &str, Option<&str>, u64)]) -> EnvelopeDb {
    let mut events: Vec<VariableEvent> = rows
        .iter()
        .map(|(e, k, v, t)| VariableEvent::new(e, k, *v, *t))
        .collect();
    events.sort_by_key(|e| e.created_at);
    EnvelopeDb::from_events(events).unwrap()
}

/// The latest event of every pair, as (env, key, value-or-none).
fn latest(db: &EnvelopeDb) -> HashSet<(String, String, Option<String>)> {
    let mut out = HashSet::new();
    let events = db.events();
    for (i, e) in events.iter().enumerate() {
        let later = events[i + 1..].iter().any(|f| f.env == e.env && f.key == e.key);
        if !later {
            out.insert((e.env.clone(), e.key.clone(), e.value.clone()));
        }
    }
    out
}

fn set(rows: &[(&str, &str, Option<&str>)]) -> HashSet<(String, String, Option<String>)> {
    rows.iter()
        .map(|(e, k, v)| (e.to_string(), k.to_string(), v.map(|x| x.to_string())))
        .collect()
}

#[test]
fn test_env_exists() {
    let mut db = EnvelopeDb::new();
    db.insert("test_env", "test_key", "test_value", 1);
    assert!(db.env_exists("test_env"));
    assert!(!db.env_exists("non_existent_env"));
}

#[test]
fn test_get_kv_in_env() {
    let mut db = EnvelopeDb::new();
    db.insert("env1", "key1", "value1", 1);
    db.insert("env1", "key2", "value2", 1);
    db.insert("env2", "key1", "value3", 1);

    let vars = db.get_active_kv_in_env();
    assert_eq!(vars.len(), 3);
    let expected: HashSet<_> = [
        ("env1", "KEY1", "value1"),
        ("env1", "KEY2", "value2"),
        ("env2", "KEY1", "value3"),
    ]
    .into_iter()
    .map(|(e, k, v)| (e.to_string(), k.to_string(), v.to_string()))
    .collect();
    let actual: HashSet<_> = vars.into_iter().map(|row| (row.env, row.key, row.value)).collect();
    assert_eq!(expected, actual);
}

#[test]
fn test_insert() {
    let mut db = EnvelopeDb::new();
    db.insert("test_env", "test_key", "test_value", 1);

    let vars = db.get_active_kv_in_env();
    let expected: HashSet<_> = [("test_env", "TEST_KEY", "test_value")]
        .into_iter()
        .map(|(e, k, v)| (e.to_string(), k.to_string(), v.to_string()))
        .collect();
    let actual: HashSet<_> = vars.into_iter().map(|row| (row.env, row.key, row.value)).collect();
    assert_eq!(expected, actual);
}

#[test]
fn test_soft_delete_env() {
    let mut db = EnvelopeDb::new();
    db.insert("env1", "key1", "value1", 1);
    db.insert("env1", "key2", "value2", 1);
    db.insert("env2", "key2", "value3", 1);

    db.soft_delete_env("env1", 2);

    assert_eq!(
        set(&[("env1", "KEY1", None), ("env1", "KEY2", None), ("env2", "KEY2", Some("value3"))]),
        latest(&db)
    );
}

#[test]
fn test_delete_env() {
    let mut db = EnvelopeDb::new();
    db.insert("env1", "key1", "value1", 1);
    db.insert("env1", "key2", "value2", 1);
    db.insert("env2", "key2", "value3", 1);
    db.insert("env3", "key2", "value3", 1);

    db.delete_env("env2");

    assert_eq!(
        set(&[
            ("env1", "KEY1", Some("value1")),
            ("env1", "KEY2", Some("value2")),
            ("env3", "KEY2", Some("value3")),
        ]),
        latest(&db)
    );
    assert!(!db.env_exists("env2"));
}

#[test]
fn test_delete_var_for_env() {
    let mut db = EnvelopeDb::new();
    db.insert("env1", "key1", "value1", 1);
    db.insert("env1", "key2", "value2", 1);
    db.insert("env2", "key2", "value3", 1);
    db.insert("env3", "key2", "value3", 1);

    db.soft_delete_key_in_env("env1", "key1", 2);
    db.soft_delete_key_in_env("env2", "key2", 2);

    assert_eq!(
        set(&[
            ("env1", "KEY2", Some("value2")),
            ("env3", "KEY2", Some("value3")),
            ("env1", "KEY1", None),
            ("env2", "KEY2", None),
        ]),
        latest(&db)
    );
}

#[test]
fn test_delete_var_all() {
    let mut db = EnvelopeDb::new();
    db.insert("env1", "key1", "value1", 1);
    db.insert("env1", "key2", "value2", 1);
    db.insert("env2", "key2", "value3", 1);
    db.insert("env3", "key2", "value3", 1);

    db.soft_delete_keys("key2", 2);

    assert_eq!(
        set(&[
            ("env1", "KEY1", Some("value1")),
            ("env1", "KEY2", None),
            ("env2", "KEY2", None),
            ("env3", "KEY2", None),
        ]),
        latest(&db)
    );
}

#[test]
fn test_duplicate_env() {
    let mut db = EnvelopeDb::new();
    db.insert("env1", "key1", "value1", 1);
    db.insert("env1", "key2", "value2", 1);
    db.insert("env2", "key2", "value3", 1);
    db.insert("env3", "key2", "value3", 1);

    db.duplicate_env("env1", "env4", 2).unwrap();
    assert!(db.duplicate_env("env4", "env1", 3).is_err(), "cannot duplicate in already present env1");
    assert!(db.duplicate_env("env5", "env1", 3).is_err(), "cannot duplicate from non-existent env5");

    assert_eq!(
        set(&[
            ("env1", "KEY1", Some("value1")),
            ("env1", "KEY2", Some("value2")),
            ("env2", "KEY2", Some("value3")),
            ("env3", "KEY2", Some("value3")),
            ("env4", "KEY1", Some("value1")),
            ("env4", "KEY2", Some("value2")),
        ]),
        latest(&db)
    );
}

#[test]
fn duplicate_errors_name_the_failed_precondition() {
    let mut db = EnvelopeDb::new();
    db.insert("a", "k", "v", 1);
    db.insert("b", "k", "w", 1);
    db.insert("gone", "k", "v", 1);
    db.soft_delete_env("gone", 2);
    assert_eq!(db.duplicate_env("a", "b", 3), Err(StoreError::AlreadyExists("b".to_string())));
    assert_eq!(db.duplicate_env("missing", "c", 3), Err(StoreError::NotFound("missing".to_string())));
    assert_eq!(db.duplicate_env("gone", "c", 3), Err(StoreError::NotFound("gone".to_string())));
    assert!(!db.env_exists("c"));
    db.insert("a", "old", "x", 4);
    db.soft_delete_key_in_env("a", "old", 5);
    db.duplicate_env("a", "c", 6).unwrap();
    assert_eq!(db.list_kv_in_env("c"), vec![EnvironmentRow::from("c", "K", "v")]);
}

fn listing_rows() -> Vec<(&'static str, &'static str, Option<&'static str>, u64)> {
    vec![
        ("env1", "KEY1", Some("value1"), 0),
        ("env1", "KEY1", None, 10),
        ("env1", "KEY2", Some("value2"), 100),
        ("env1", "KEY3", Some("value3"), 10),
        ("env1", "KEY4", Some("value4"), 0),
        ("env2", "KEY1", Some("value1"), 0),
        ("env2", "KEY2", Some("value2"), 0),
        ("env2", "KEY2", None, 10),
    ]
}

#[test]
fn test_list_var_in_env() {
    let db = db_from_rows(&listing_rows());

    assert_eq!(
        vec![
            EnvironmentRow::from("env1", "KEY4", "value4"),
            EnvironmentRow::from("env1", "KEY3", "value3"),
            EnvironmentRow::from("env1", "KEY2", "value2"),
        ],
        db.list_kv_in_env("env1")
    );
    assert_eq!(vec![EnvironmentRow::from("env2", "KEY1", "value1")], db.list_kv_in_env("env2"));
}

#[test]
fn test_list_all_var_in_env() {
    let db = db_from_rows(&listing_rows());

    assert_eq!(
        vec![
            EnvironmentRow::from("env1", "KEY4", "value4"),
            EnvironmentRow::from("env1", "KEY3", "value3"),
            EnvironmentRow::from("env1", "KEY2", "value2"),
        ],
        db.list_kv_in_env_alt("env1", Truncate::Whole)
    );
    assert_eq!(
        vec![
            EnvironmentRow::from("env1", "KEY4", "val"),
            EnvironmentRow::from("env1", "KEY3", "val"),
            EnvironmentRow::from("env1", "KEY2", "val"),
        ],
        db.list_kv_in_env_alt("env1", Truncate::Max(3))
    );
    assert_eq!(
        vec![
            EnvironmentRow::from("env1", "KEY4", "value4"),
            EnvironmentRow::from("env1", "KEY3", "value3"),
            EnvironmentRow::from("env1", "KEY2", "value2"),
        ],
        db.list_kv_in_env_alt("env1", Truncate::Max(7))
    );
    assert_eq!(
        vec![
            EnvironmentRow::from("env1", "KEY4", ""),
            EnvironmentRow::from("env1", "KEY3", ""),
            EnvironmentRow::from("env1", "KEY2", ""),
        ],
        db.list_kv_in_env_alt("env1", Truncate::Max(0))
    );
}

#[test]
fn sorted_listings() {
    let mut db = EnvelopeDb::new();
    db.insert("e", "b", "2", 1);
    db.insert("e", "c", "1", 2);
    db.insert("e", "a", "3", 3);
    let keys = |s: Sort| -> Vec<String> {
        db.list_kv_sorted("e", Truncate::Whole, s).into_iter().map(|r| r.key).collect()
    };
    assert_eq!(keys(Sort::Key), vec!["A", "B", "C"]);
    assert_eq!(keys(Sort::KeyDesc), vec!["C", "B", "A"]);
    assert_eq!(keys(Sort::Value), vec!["C", "B", "A"]);
    assert_eq!(keys(Sort::ValueDesc), vec!["A", "B", "C"]);
    assert_eq!(keys(Sort::Date), vec!["B", "C", "A"]);
    assert_eq!(keys(Sort::DateDesc), vec!["A", "C", "B"]);
}

#[test]
fn sort_codes() {
    for s in [Sort::Key, Sort::Value, Sort::Date, Sort::KeyDesc, Sort::ValueDesc, Sort::DateDesc] {
        assert_eq!(Sort::from_code(s.to_str()), s);
    }
    assert_eq!(Sort::Key.to_str(), "k");
    assert_eq!(Sort::ValueDesc.to_str(), "vd");
    assert_eq!(Sort::from_code("nonsense"), Sort::Date);
    assert_eq!(Sort::from_code(""), Sort::Date);
}

#[test]
fn test_list_envs() {
    let mut rows = listing_rows();
    rows.push(("env3", "KEY2", None, 10));
    let db = db_from_rows(&rows);

    assert_eq!(
        vec![Environment::from("env1"), Environment::from("env2"), Environment::from("env3")],
        db.list_environments()
    );
}

#[test]
fn test_diff() {
    let db = db_from_rows(&[
        ("env1", "KEY1", Some("value1"), 0),
        ("env1", "KEY1", None, 10),
        ("env1", "KEY2", Some("value2"), 100),
        ("env1", "KEY3", Some("value3"), 10),
        ("env1", "KEY4", Some("value4"), 0),
        ("env2", "KEY1", Some("value1"), 0),
        ("env2", "KEY2", Some("value2"), 0),
        ("env1", "MATCH", Some("value1"), 0),
        ("env2", "MATCH", Some("value1"), 0),
        ("env1", "NOTMATCH", Some("value1"), 0),
        ("env2", "NOTMATCH", Some("value2"), 0),
        ("env2", "KEY2", None, 10),
        ("env3", "KEY2", None, 10),
    ]);

    assert_eq!(
        vec![
            EnvironmentDiff::InSecond("KEY1".into(), "value1".into()),
            EnvironmentDiff::InFirst("KEY2".into(), "value2".into()),
            EnvironmentDiff::InFirst("KEY3".into(), "value3".into()),
            EnvironmentDiff::InFirst("KEY4".into(), "value4".into()),
            EnvironmentDiff::Different("NOTMATCH".into(), "value1".into(), "value2".into())
        ],
        db.diff("env1", "env2").unwrap()
    );
    assert_eq!(
        vec![
            EnvironmentDiff::InFirst("KEY1".into(), "value1".into()),
            EnvironmentDiff::InSecond("KEY2".into(), "value2".into()),
            EnvironmentDiff::InSecond("KEY3".into(), "value3".into()),
            EnvironmentDiff::InSecond("KEY4".into(), "value4".into()),
            EnvironmentDiff::Different("NOTMATCH".into(), "value2".into(), "value1".into())
        ],
        db.diff("env2", "env1").unwrap()
    );
}

#[test]
fn diff_example_and_missing_environment() {
    let mut db = EnvelopeDb::new();
    db.insert("env1", "K1", "v1", 1);
    db.insert("env1", "K2", "v2", 1);
    db.insert("env2", "K1", "v1", 1);
    db.insert("env2", "K3", "v3", 1);
    assert_eq!(
        db.diff("env1", "env2").unwrap(),
        vec![
            EnvironmentDiff::InFirst("K2".into(), "v2".into()),
            EnvironmentDiff::InSecond("K3".into(), "v3".into()),
        ]
    );
    assert_eq!(db.diff("env1", "nope"), Err(StoreError::NotFound("nope".to_string())));
    assert_eq!(db.diff("nope", "env1"), Err(StoreError::NotFound("nope".to_string())));
    assert_eq!(db.diff("nope", "gone"), Err(StoreError::NotFound("nope".to_string())));
    assert_eq!(db.diff("env1", "env1").unwrap(), vec![]);
}

#[test]
fn test_revert() {
    let mut db = db_from_rows(&[
        ("env1", "KEY1", Some("value1"), 0),
        ("env1", "KEY1", None, 10),
        ("env1", "KEY1", Some("value2"), 100),
        ("env2", "KEY1", Some("value2"), 10),
    ]);

    assert_eq!(db.list_kv_in_env("env1"), vec![EnvironmentRow::from("env1", "KEY1", "value2")]);
    assert_eq!(db.list_kv_in_env("env2"), vec![EnvironmentRow::from("env2", "KEY1", "value2")]);

    db.revert("env1", "key1");
    assert_eq!(db.list_kv_in_env("env1"), vec![], "env1 should be empty");
    assert_eq!(
        db.list_kv_in_env("env2"),
        vec![EnvironmentRow::from("env2", "KEY1", "value2")],
        "env2 should remain untouched"
    );

    db.revert("env1", "key1");
    assert_eq!(db.list_kv_in_env("env1"), vec![EnvironmentRow::from("env1", "KEY1", "value1")]);
    assert_eq!(
        db.list_kv_in_env("env2"),
        vec![EnvironmentRow::from("env2", "KEY1", "value2")],
        "env2 should remain untouched"
    );
}

#[test]
fn revert_n_times_empties_history_then_is_a_no_op() {
    let mut db = EnvelopeDb::new();
    db.insert("e", "k", "1", 1);
    db.soft_delete_key_in_env("e", "k", 2);
    db.insert("e", "k", "2", 3);
    db.insert("e", "other", "x", 4);
    assert_eq!(db.history("e", "k").len(), 3);
    for _ in 0..3 {
        db.revert("e", "k");
    }
    assert!(db.history("e", "k").is_empty());
    let before = db.events().len();
    db.revert("e", "k");
    assert_eq!(db.events().len(), before);
    assert_eq!(db.list_kv_in_env("e"), vec![EnvironmentRow::from("e", "OTHER", "x")]);
}

#[test]
fn test_ek_history() {
    let db = db_from_rows(&[
        ("env1", "KEY1", Some("value1"), 0),
        ("env1", "KEY1", None, 10),
        ("env1", "KEY1", Some("value2"), 100),
        ("env1", "KEY2", Some("value3"), 10),
        ("env1", "KEY2", Some("value4"), 0),
    ]);

    assert_eq!(
        vec![
            EnvironmentRowNullable::from("env1", "KEY1", Some("value1"), 0),
            EnvironmentRowNullable::from("env1", "KEY1", None, 10),
            EnvironmentRowNullable::from("env1", "KEY1", Some("value2"), 100),
        ],
        db.history("env1", "key1")
    );
}

#[test]
fn last_write_wins() {
    let mut db = EnvelopeDb::new();
    db.insert("e", "k", "1", 1);
    db.insert("e", "k", "2", 2);
    assert_eq!(db.list_kv_in_env("e"), vec![EnvironmentRow::from("e", "K", "2")]);
    db.soft_delete_key_in_env("e", "K", 3);
    assert!(db.list_kv_in_env("e").is_empty());
    let before = db.events().len();
    db.soft_delete_key_in_env("e", "k", 4);
    assert_eq!(db.events().len(), before, "deleting an inactive key appends nothing");
    db.insert("e", "k", "3", 5);
    assert_eq!(db.current_value("e", "K"), Some("3".to_string()));
}

#[test]
fn timestamps_never_go_backwards() {
    let mut db = EnvelopeDb::new();
    db.insert("e", "a", "1", 50);
    db.insert("e", "b", "2", 10);
    let times: Vec<u64> = db.events().iter().map(|e| e.created_at).collect();
    assert_eq!(times, vec![50, 50]);
    let backwards = vec![VariableEvent::new("e", "A", Some("1"), 5), VariableEvent::new("e", "A", None, 4)];
    assert!(EnvelopeDb::from_events(backwards).is_none());
}

#[test]
fn upper_cases_ascii_only() {
    let mut db = EnvelopeDb::new();
    db.insert("e", "mixed_Key-é", "v", 1);
    assert_eq!(db.list_kv_in_env("e")[0].key, "MIXED_KEY-é");
}

fn sync_db() -> EnvelopeDb {
    let mut db = EnvelopeDb::new();
    db.insert("dev", "A", "X", 1);
    db.insert("dev", "B", "Y", 1);
    db.insert("prod", "B", "Z", 1);
    db
}

fn sorted(mut rows: Vec<EnvironmentRow>) -> Vec<(String, String)> {
    rows.sort_by(|a, b| a.key.cmp(&b.key));
    rows.into_iter().map(|r| (r.key, r.value)).collect()
}

#[test]
fn test_empty_sync() {
    let mut db = EnvelopeDb::new();
    db.sync("dev", "prod", false, 1);
    assert!(db.events().is_empty());
}

#[test]
fn test_sync_1() {
    let mut db = EnvelopeDb::new();
    for (k, v) in [("A", "X"), ("B", "Y"), ("C", "Z"), ("D", "K")] {
        db.insert("dev", k, v, 1);
    }
    db.sync("dev", "prod", false, 2);
    let rows = sorted(db.list_kv_in_env("prod"));
    let expected_keys = ["A", "B", "C", "D"];
    let expected_values = ["X", "Y", "Z", "K"];
    assert_eq!(4, rows.len());
    for i in 0..4 {
        assert_eq!(expected_keys[i], rows[i].0);
        assert_eq!(expected_values[i], rows[i].1);
    }
}

#[test]
fn sync_keeps_or_overwrites_target() {
    let mut keep = sync_db();
    keep.sync("dev", "prod", false, 2);
    assert_eq!(sorted(keep.list_kv_in_env("prod")), vec![("A".into(), "X".into()), ("B".into(), "Z".into())]);

    let mut over = sync_db();
    over.sync("dev", "prod", true, 2);
    assert_eq!(sorted(over.list_kv_in_env("prod")), vec![("A".into(), "X".into()), ("B".into(), "Y".into())]);
    assert_eq!(sorted(over.list_kv_in_env("dev")), vec![("A".into(), "X".into()), ("B".into(), "Y".into())]);
}

#[test]
fn test_sync_2() {
    let mut db = db_from_rows(&[
        ("prod", "C", Some("3"), 0),
        ("prod", "D", Some("2"), 0),
        ("prod", "F", Some("1"), 0),
        ("dev", "A", Some("X"), 0),
        ("dev", "B", Some("Y"), 0),
        ("dev", "C", Some("Z"), 0),
        ("dev", "D", Some("K"), 0),
    ]);
    db.sync("dev", "prod", false, 1);
    let rows = sorted(db.list_kv_in_env("prod"));
    let expected_keys = ["A", "B", "C", "D", "F"];
    let expected_values = ["X", "Y", "3", "2", "1"];
    assert_eq!(5, rows.len());
    for i in 0..5 {
        assert_eq!(expected_keys[i], rows[i].0);
        assert_eq!(expected_values[i], rows[i].1);
    }
}

#[test]
fn test_sync_3() {
    let mut db = db_from_rows(&[
        ("dev", "A", Some("X"), 1697207333),
        ("dev", "A", Some("1"), 1697207341),
        ("dev", "B", Some("Y"), 1697207331),
        ("dev", "C", Some("Z"), 1697207331),
        ("dev", "D", Some("K"), 1697207331),
    ]);
    db.sync("dev", "prod", false, 1697207400);
    let rows = sorted(db.list_kv_in_env("prod"));
    let expected_keys = ["A", "B", "C", "D"];
    let expected_values = ["1", "Y", "Z", "K"];
    assert_eq!(4, rows.len());
    for i in 0..4 {
        assert_eq!(expected_keys[i], rows[i].0);
        assert_eq!(expected_values[i], rows[i].1);
    }
}

#[test]
fn test_sync_overwrite() {
    let mut db = db_from_rows(&[
        ("prod", "C", Some("3"), 1697207333),
        ("prod", "D", Some("2"), 1697207333),
        ("prod", "F", Some("1"), 1697207333),
        ("dev", "A", Some("X"), 1697207333),
        ("dev", "A", Some("1"), 1697207341),
        ("dev", "B", Some("Y"), 1697207331),
        ("dev", "C", Some("Z"), 1697207331),
        ("dev", "D", Some("K"), 1697207331),
    ]);
    db.sync("dev", "prod", true, 1697207400);
    let rows = sorted(db.list_kv_in_env("prod"));
    let expected_keys = ["A", "B", "C", "D", "F"];
    let expected_values = ["1", "Y", "Z", "K", "1"];
    assert_eq!(5, rows.len());
    for i in 0..5 {
        assert_eq!(expected_keys[i], rows[i].0);
        assert_eq!(expected_values[i], rows[i].1);
    }
}

#[test]
fn test_drop() {
    let mut db = EnvelopeDb::new();
    for (e, k, v) in [("dev", "A", "X"), ("dev", "B", "Y"), ("dev", "C", "Z"), ("loc", "B", "Y"), ("test", "C", "Z"), ("test", "D", "K")] {
        db.insert(e, k, v, 1);
    }
    let count = |db: &EnvelopeDb, env: &str| db.events().iter().filter(|e| e.env == env).count();
    assert_eq!(3, count(&db, "dev"));
    db.delete_env("dev");
    assert_eq!(0, count(&db, "dev"));
    assert_eq!(1, count(&db, "loc"));
    assert_eq!(2, count(&db, "test"));
}

#[test]
fn test_import() {
    let mut db = EnvelopeDb::new();
    let output = import(&mut db, "key1=value1\nkey2=value2", "prod", 1);
    assert!(output.is_empty());
    let rows = sorted(db.list_kv_in_env("prod"));
    assert_eq!(2, rows.len());
    let key_expected = ["KEY1", "KEY2"];
    let value_expected = ["value1", "value2"];
    for i in 0..2 {
        assert_eq!(key_expected[i], rows[i].0);
        assert_eq!(value_expected[i], rows[i].1);
    }
}

#[test]
fn test_import_none() {
    let mut db = EnvelopeDb::new();
    let output = import(&mut db, "# key1=value1", "prod", 1);
    assert!(!output.is_empty());
    assert!(db.list_kv_in_env("prod").is_empty());
    assert_eq!("skipping # key1=value1\n", output.as_str());
}

#[test]
fn test_mul_import() {
    let mut db = EnvelopeDb::new();
    let output = import(&mut db, "#k=v\n#invalid-value\nkey value\nkey1=val1\nkey2=val2", "prod", 1);
    assert_eq!(2, db.list_kv_in_env("prod").len());
    assert_eq!("skipping #k=v\nskipping #invalid-value\ninvalid key value, skipping\n", output);
}

#[test]
fn import_keeps_spaces_and_later_equals() {
    let mut db = EnvelopeDb::new();
    import(&mut db, " k = a=b \r\n", "e", 1);
    assert_eq!(db.list_kv_in_env("e"), vec![EnvironmentRow::from("e", " K ", " a=b ")]);
}

#[test]
fn add_var_refuses_comment_keys() {
    let mut db = EnvelopeDb::new();
    assert_eq!(add_var(&mut db, "e", "#k", "v", 1), Err(KeyError::CommentMarker));
    assert!(db.events().is_empty());
    assert_eq!(add_var(&mut db, "e", "k#", "v", 1), Ok(()));
    assert_eq!(db.list_kv_in_env("e"), vec![EnvironmentRow::from("e", "K#", "v")]);
}

#[test]
fn sorting_keeps_repeated_rows() {
    let rows = vec![
        EnvironmentRow::from("e", "B", "1"),
        EnvironmentRow::from("e", "A", "2"),
        EnvironmentRow::from("e", "B", "1"),
    ];
    assert_eq!(
        sort_rows(&rows, Sort::Key),
        vec![EnvironmentRow::from("e", "A", "2"), EnvironmentRow::from("e", "B", "1"), EnvironmentRow::from("e", "B", "1")]
    );
    assert_eq!(sort_rows(&rows, Sort::ValueDesc)[0], EnvironmentRow::from("e", "A", "2"));
}
