use oids::render::render;
use oids::resolve::{resolve, split_identifier, ResolutionStep};
use oids::tree::{lookup_child, Node};
use oids::validate::validate;

fn scalar(s: &str) -> Node {
    Node::Scalar(s.to_string())
}

fn mapping(entries: Vec<(&str, Node)>) -> Node {
    Node::Mapping(entries.into_iter().map(|(k, v)| (k.to_string(), v)).collect())
}

fn known(label: &str, token: &str) -> ResolutionStep {
    ResolutionStep::Known { label: label.to_string(), token: token.to_string() }
}

fn unknown(token: &str) -> ResolutionStep {
    ResolutionStep::Unknown { token: token.to_string() }
}

fn sample_tree() -> Node {
    mapping(vec![(
        "1",
        mapping(vec![
            ("name", scalar("iso")),
            ("2", mapping(vec![("name", scalar("member-body"))])),
        ]),
    )])
}

fn strings(words: &[&str]) -> Vec<String> {
    words.iter().map(|w| w.to_string()).collect()
}

#[test]
fn split_basic() {
    assert_eq!(split_identifier("1.2.840"), strings(&["1", "2", "840"]));
}

#[test]
fn split_empty_identifier() {
    assert_eq!(split_identifier(""), strings(&[""]));
}

#[test]
fn split_single_token() {
    assert_eq!(split_identifier("840"), strings(&["840"]));
}

#[test]
fn split_separators_only() {
    assert_eq!(split_identifier("."), strings(&["", ""]));
    assert_eq!(split_identifier("a..b"), strings(&["a", "", "b"]));
    assert_eq!(split_identifier(".5"), strings(&["", "5"]));
    assert_eq!(split_identifier("5."), strings(&["5", ""]));
}

#[test]
fn round_trip_resolution() {
    let tree = sample_tree();
    let steps = resolve(&tree, "1.2");
    assert_eq!(steps, vec![known("iso", "1"), known("member-body", "2")]);
    assert_eq!(render(&steps), "iso(1) member-body(2)\n");
}

#[test]
fn unmatched_tail() {
    let tree = sample_tree();
    let steps = resolve(&tree, "1.2.840");
    assert_eq!(
        steps,
        vec![known("iso", "1"), known("member-body", "2"), unknown("840")]
    );
    assert_eq!(render(&steps), "iso(1) member-body(2) 840\n");
}

#[test]
fn early_miss_stays_unknown() {
    // "2" exists as a key under "1", but the position is already lost at
    // "9", so the second token is never looked up.
    let tree = sample_tree();
    let steps = resolve(&tree, "9.2");
    assert_eq!(steps, vec![unknown("9"), unknown("2")]);
    assert_eq!(render(&steps), "9 2\n");
}

#[test]
fn empty_identifier_is_ordinary_token() {
    let tree = sample_tree();
    assert_eq!(resolve(&tree, ""), vec![unknown("")]);
    let with_empty_key = mapping(vec![(
        "",
        mapping(vec![("name", scalar("blank"))]),
    )]);
    assert_eq!(resolve(&with_empty_key, ""), vec![known("blank", "")]);
}

#[test]
fn unnamed_match_does_not_poison() {
    // "1" matches a mapping without a name: that step is Unknown, but the
    // walk continues inside it and "2" still resolves.
    let tree = mapping(vec![(
        "1",
        mapping(vec![("2", mapping(vec![("name", scalar("inner"))]))]),
    )]);
    let steps = resolve(&tree, "1.2");
    assert_eq!(steps, vec![unknown("1"), known("inner", "2")]);
}

#[test]
fn scalar_match_loses_position() {
    let tree = mapping(vec![
        ("1", mapping(vec![("name", scalar("iso"))])),
        ("x", scalar("stray")),
    ]);
    let steps = resolve(&tree, "x.1");
    assert_eq!(steps, vec![unknown("x"), unknown("1")]);
}

#[test]
fn render_no_steps() {
    assert_eq!(render(&Vec::new()), "\n");
}

#[test]
fn validate_success() {
    let tree = sample_tree();
    assert!(validate(&Vec::new(), &tree).is_ok());
}

#[test]
fn validate_missing_name() {
    let tree = mapping(vec![("1", mapping(vec![("2", mapping(vec![]))]))]);
    let err = validate(&Vec::new(), &tree).unwrap_err();
    assert_eq!(err.path, strings(&["1"]));
    assert_eq!(err.node, mapping(vec![("2", mapping(vec![]))]));
}

#[test]
fn validate_reports_deeper_offender() {
    let tree = mapping(vec![(
        "1",
        mapping(vec![("name", scalar("iso")), ("2", mapping(vec![]))]),
    )]);
    let err = validate(&Vec::new(), &tree).unwrap_err();
    assert_eq!(err.path, strings(&["1", "2"]));
    assert_eq!(err.node, mapping(vec![]));
}

#[test]
fn validate_first_offender_in_stored_order() {
    let tree = mapping(vec![
        ("1", mapping(vec![("name", scalar("iso")), ("2", mapping(vec![]))])),
        ("3", mapping(vec![])),
    ]);
    let err = validate(&Vec::new(), &tree).unwrap_err();
    assert_eq!(err.path, strings(&["1", "2"]));
}

#[test]
fn validate_never_recurses_into_name() {
    // A mapping under the reserved `name` key satisfies the parent's name
    // check and is itself never visited, so its own missing name is fine.
    let tree = mapping(vec![("1", mapping(vec![("name", mapping(vec![]))]))]);
    assert!(validate(&Vec::new(), &tree).is_ok());
}

#[test]
fn validate_scalar_children_unconstrained() {
    let tree = mapping(vec![(
        "1",
        mapping(vec![("name", scalar("iso")), ("note", scalar("free text"))]),
    )]);
    assert!(validate(&Vec::new(), &tree).is_ok());
}

#[test]
fn lookup_child_first_match_wins() {
    let entries = vec![
        ("a".to_string(), scalar("one")),
        ("a".to_string(), scalar("two")),
    ];
    assert_eq!(lookup_child(&entries, &"a".to_string()), Some(&scalar("one")));
    assert_eq!(lookup_child(&entries, &"b".to_string()), None);
}

#[test]
fn validate_non_root_call_checks_node_itself() {
    // With a non-empty path the node itself must carry a name.
    let unnamed = mapping(vec![("2", mapping(vec![("name", scalar("x"))]))]);
    let err = validate(&strings(&["1"]), &unnamed).unwrap_err();
    assert_eq!(err.path, strings(&["1"]));
    let named = mapping(vec![("name", scalar("iso"))]);
    assert!(validate(&strings(&["1"]), &named).is_ok());
}

#[test]
fn render_single_step() {
    assert_eq!(render(&vec![known("iso", "1")]), "iso(1)\n");
    assert_eq!(render(&vec![unknown("9")]), "9\n");
}

#[test]
fn node_clone_is_deep() {
    let tree = sample_tree();
    let copy = tree.clone();
    assert_eq!(copy, tree);
}
