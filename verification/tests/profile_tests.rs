use sealenv::profile::{
    add_entry, add_target, create, diff, diff_vars, entry_key, list, switch_to, ProfileError,
};

fn names(v: &[&str]) -> Vec<String> {
    v.iter().map(|x| x.to_string()).collect()
}

fn sorted(mut v: Vec<String>) -> Vec<String> {
    v.sort();
    v
}

#[test]
fn entry_key_takes_text_before_first_equals() {
    assert_eq!(entry_key("API_KEY=a=b"), Some("API_KEY".to_string()));
    assert_eq!(entry_key("=x"), Some("".to_string()));
    assert_eq!(entry_key("NOVALUE"), None);
}

#[test]
fn add_target_defaults() {
    assert_eq!(add_target(Some("prod".to_string())), "prod");
    assert_eq!(add_target(None), "default");
}

#[test]
fn add_entry_to_empty() {
    assert_eq!(add_entry("", "A=1"), "A=1\n");
}

#[test]
fn add_entry_appends() {
    assert_eq!(add_entry("A=1\nB=2\n", "C=3"), "A=1\nB=2\nC=3\n");
    assert_eq!(add_entry("A=1", "C=3"), "A=1\nC=3\n");
}

#[test]
fn add_entry_replaces_same_key() {
    assert_eq!(add_entry("A=1\nB=2\nA=3\n", "A=9"), "B=2\nA=9\n");
    assert_eq!(add_entry("AB=1\nA=2\n", "A=5"), "AB=1\nA=5\n");
}

#[test]
fn add_entry_normalises_line_endings() {
    assert_eq!(add_entry("A=1\r\nB=2\r\n", "C=3"), "A=1\nB=2\nC=3\n");
    assert_eq!(add_entry("A=1\n\n", "C=3"), "A=1\nC=3\n");
    assert_eq!(add_entry("A=1\n\n\nB=2", "C=3"), "A=1\n\n\nB=2\nC=3\n");
}

#[test]
fn add_entry_twice_keeps_one_line() {
    let once = add_entry("X=0\n", "K=1");
    let twice = add_entry(&once, "K=2");
    assert_eq!(twice, "X=0\nK=2\n");
}

#[test]
fn create_profile() {
    assert_eq!(create("dev", false, Some(b"A=1\n".to_vec())), Ok(b"A=1\n".to_vec()));
    assert_eq!(create("dev", false, None), Ok(Vec::new()));
    assert_eq!(
        create("dev", true, Some(b"A=1\n".to_vec())),
        Err(ProfileError::AlreadyExists("dev".to_string()))
    );
}

#[test]
fn switch_profile() {
    assert_eq!(switch_to("dev", Some(b"A=1\n".to_vec())), Ok(b"A=1\n".to_vec()));
    assert_eq!(switch_to("nope", None), Err(ProfileError::NotFound("nope".to_string())));
}

#[test]
fn list_sorts_and_marks_active() {
    let files = names(&["staging.env", "dev.env", "README.md", "prod.env", "a.env.env"]);
    let r = list(&files, &Some("prod".to_string()));
    assert_eq!(
        r,
        vec![
            ("a".to_string(), false),
            ("dev".to_string(), false),
            ("prod".to_string(), true),
            ("staging".to_string(), false),
        ]
    );
}

#[test]
fn list_without_active_and_empty() {
    let r = list(&names(&["b.env", "B.env", ".env"]), &None);
    assert_eq!(
        r,
        vec![("".to_string(), true), ("B".to_string(), false), ("b".to_string(), false)]
    );
    assert!(list(&names(&["x.txt"]), &None).is_empty());
}

#[test]
fn diff_reports_each_kind() {
    let d = diff(b"A=1\nB=2\nC=3\nC=4\n", b"B=2\nC=5\nD=1\nD=2\n").unwrap();
    assert_eq!(sorted(d.removed), names(&["A"]));
    assert_eq!(sorted(d.added), names(&["D"]));
    assert_eq!(sorted(d.changed), names(&["C"]));
}

#[test]
fn diff_last_value_wins() {
    let d = diff(b"A=1\nA=2\n", b"A=2\n").unwrap();
    assert!(d.removed.is_empty() && d.added.is_empty() && d.changed.is_empty());
}

#[test]
fn diff_identical_profiles() {
    let a = vec![("K".to_string(), "v".to_string())];
    let d = diff_vars(&a, &a);
    assert!(d.removed.is_empty() && d.added.is_empty() && d.changed.is_empty());
}

#[test]
fn diff_propagates_parse_error() {
    assert!(diff(&[0xff], b"A=1").is_err());
}

#[test]
fn diff_swapped_exchanges_removed_and_added() {
    let a = b"A=1\nB=2\n";
    let b = b"B=3\nC=4\n";
    let d = diff(a, b).unwrap();
    let e = diff(b, a).unwrap();
    assert_eq!(sorted(d.removed.clone()), sorted(e.added.clone()));
    assert_eq!(sorted(d.added), sorted(e.removed));
    assert_eq!(sorted(d.changed), sorted(e.changed));
}

#[test]
fn added_entry_is_read_back() {
    let text = add_entry("A=1\nK=old\n", "K = \"new\"");
    let vars = sealenv::crypto::parse_env_bytes(text.as_bytes()).unwrap();
    let last = vars.iter().rev().find(|(k, _)| k == "K").unwrap();
    assert_eq!(last.1, "new");
}

#[test]
fn add_entry_twice_equals_once() {
    for content in ["", "A=1\nB=2\n", "A=1\r\nK=0\nB=2", "X=1"] {
        let once = add_entry(content, "K=9");
        assert_eq!(add_entry(&once, "K=9"), once);
    }
}
