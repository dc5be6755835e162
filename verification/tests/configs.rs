use restate_util::{flatten_json, flatten_tree, ConfigScan, JsonTree, ScanAction};

fn json(text: &str) -> serde_json::Value {
    serde_json::from_str(text).unwrap()
}

fn rows(text: &str, parent: &str) -> Vec<(String, String)> {
    let mut rows = Vec::new();
    flatten_json(&json(text), parent.to_string(), &mut rows);
    rows
}

fn texts(rows: &[(&str, &str)]) -> Vec<(String, String)> {
    rows.iter()
        .map(|(key, value)| (key.to_string(), value.to_string()))
        .collect()
}

#[test]
fn nested_objects_become_dotted_keys() {
    assert_eq!(
        rows(
            r#"{"admin": {"bind": "[::]:9070", "limits": {"max": 12}}, "roles": ["a", {"b": 1}]}"#,
            ""
        ),
        texts(&[
            ("admin.bind", r#""[::]:9070""#),
            ("admin.limits.max", "12"),
            ("roles", r#"["a",{"b":1}]"#),
        ])
    );
}

#[test]
fn leaves_are_written_as_json() {
    assert_eq!(
        rows(
            r#"{"a": null, "b": true, "c": -3, "d": 1.5, "e": "x\"y\n", "f": []}"#,
            ""
        ),
        texts(&[
            ("a", "null"),
            ("b", "true"),
            ("c", "-3"),
            ("d", "1.5"),
            ("e", r#""x\"y\n""#),
            ("f", "[]"),
        ])
    );
}

#[test]
fn a_leaf_is_one_row_under_its_own_key() {
    assert_eq!(rows("7", ""), texts(&[("", "7")]));
    assert_eq!(rows("7", "port"), texts(&[("port", "7")]));
}

#[test]
fn an_empty_object_has_no_rows() {
    assert_eq!(rows("{}", "a"), texts(&[]));
    assert_eq!(rows(r#"{"a": {}, "b": {"c": {}}}"#, ""), texts(&[]));
}

#[test]
fn empty_keys_only_vanish_at_the_top() {
    assert_eq!(
        rows(r#"{"": {"a": 1}, "b": {"": 2}}"#, ""),
        texts(&[("a", "1"), ("b.", "2")])
    );
}

#[test]
fn rows_are_added_behind_those_that_are_there() {
    let mut rows = texts(&[("old", "0")]);
    flatten_json(&json(r#"{"a": 1}"#), "new".to_string(), &mut rows);
    assert_eq!(rows, texts(&[("old", "0"), ("new.a", "1")]));
}

#[test]
fn deeper_values_have_longer_keys() {
    let text = r#"{"x": 1, "y": {"z": 2}}"#;
    let alone = rows(text, "b");
    let deeper = rows(text, "a.b");
    assert_eq!(
        deeper,
        alone
            .into_iter()
            .map(|(key, value)| (format!("a.{}", key), value))
            .collect::<Vec<_>>()
    );
    assert_eq!(deeper, texts(&[("a.b.x", "1"), ("a.b.y.z", "2")]));
}

#[test]
fn a_key_that_is_given_twice_has_one_row() {
    assert_eq!(
        rows(r#"{"a": 1, "b": {"c": 2, "c": 3}, "a": 4}"#, ""),
        texts(&[("a", "4"), ("b.c", "3")])
    );
}

#[test]
fn plain_keys_give_different_rows() {
    assert_eq!(
        rows(r#"{"a": {"a": 1, "b": {"a": 2}}, "ab": 3, "b": {"a": 4}}"#, "x"),
        texts(&[
            ("x.a.a", "1"),
            ("x.a.b.a", "2"),
            ("x.ab", "3"),
            ("x.b.a", "4"),
        ])
    );
}

#[test]
fn keys_with_dots_and_empty_keys_can_meet() {
    assert_eq!(
        rows(r#"{"a": {"b": 1}, "a.b": 2}"#, ""),
        texts(&[("a.b", "1"), ("a.b", "2")])
    );
    assert_eq!(
        rows(r#"{"": {"a": 1}, "a": 2}"#, ""),
        texts(&[("a", "1"), ("a", "2")])
    );
}

#[test]
fn trees_flatten_in_the_order_of_their_members() {
    let tree = JsonTree::Object(vec![
        ("z".to_string(), JsonTree::Leaf("1".to_string())),
        (
            "a".to_string(),
            JsonTree::Object(vec![("b".to_string(), JsonTree::Leaf("2".to_string()))]),
        ),
    ]);
    let mut rows = Vec::new();
    flatten_tree(&tree, String::new(), &mut rows);
    assert_eq!(rows, texts(&[("z", "1"), ("a.b", "2")]));
}

/// Runs a scan and returns its batches. The receiver hangs up after `stays`
/// batches.
fn run(mut scan: ConfigScan, stays: usize) -> Vec<Vec<(String, String)>> {
    let mut batches = Vec::new();
    let mut batch = Vec::new();
    let mut receiver_gone = false;
    loop {
        match scan.step(receiver_gone) {
            ScanAction::Append(index) => {
                let (key, value) = scan.row(index);
                batch.push((key.to_string(), value.to_string()));
            }
            ScanAction::SendBatch | ScanAction::SendLast => {
                if batches.len() < stays {
                    batches.push(std::mem::take(&mut batch));
                } else {
                    receiver_gone = true;
                }
            }
            ScanAction::Done => return batches,
        }
    }
}

fn five_rows() -> Vec<(String, String)> {
    texts(&[("a", "1"), ("b", "2"), ("c", "3"), ("d", "4"), ("e", "5")])
}

fn sizes(rows: Vec<(String, String)>, batch_size: usize) -> Vec<usize> {
    run(ConfigScan::over_rows(rows, batch_size), usize::MAX)
        .iter()
        .map(|batch| batch.len())
        .collect()
}

#[test]
fn rows_come_in_batches() {
    assert_eq!(sizes(five_rows(), 2), vec![2, 2, 1]);
    assert_eq!(sizes(five_rows(), 5), vec![5]);
    assert_eq!(sizes(five_rows(), 6), vec![5]);
    assert_eq!(sizes(five_rows(), 1), vec![1, 1, 1, 1, 1]);
    assert_eq!(sizes(vec![], 2), Vec::<usize>::new());
    assert_eq!(
        run(ConfigScan::over_rows(five_rows(), 3), usize::MAX).concat(),
        five_rows()
    );
}

#[test]
fn batch_size_zero_sends_each_row_by_itself() {
    assert_eq!(sizes(five_rows(), 0), vec![1, 1, 1, 1, 1]);
}

#[test]
fn nothing_is_sent_once_the_receiver_is_gone() {
    let batches = run(ConfigScan::over_rows(five_rows(), 2), 1);
    assert_eq!(batches, vec![texts(&[("a", "1"), ("b", "2")])]);

    let mut scan = ConfigScan::over_rows(five_rows(), 2);
    assert_eq!(scan.step(true), ScanAction::Done);
    assert_eq!(scan.step(false), ScanAction::Done);
}

#[test]
fn a_scan_does_one_thing_after_the_other() {
    let mut scan = ConfigScan::new(&json(r#"{"a": {"b": 1}, "c": 2, "d": 3}"#), 2);
    let mut actions = Vec::new();
    for _ in 0..7 {
        actions.push(scan.step(false));
    }
    assert_eq!(
        actions,
        vec![
            ScanAction::Append(0),
            ScanAction::Append(1),
            ScanAction::SendBatch,
            ScanAction::Append(2),
            ScanAction::SendLast,
            ScanAction::Done,
            ScanAction::Done,
        ]
    );
    assert_eq!(scan.row(0), ("a.b", "1"));
    assert_eq!(scan.row(2), ("d", "3"));
}
