use sealenv::gitignore::setup;

fn s(v: &[&str]) -> Vec<String> {
    v.iter().map(|x| x.to_string()).collect()
}

#[test]
fn setup_on_empty_file_adds_everything() {
    let (text, added) = setup("");
    assert_eq!(text, ".env\n*.env.local\n.sealenv/keys/\n");
    assert_eq!(added, s(&[".env", "*.env.local", ".sealenv/keys/"]));
}

#[test]
fn setup_appends_after_missing_newline() {
    let (text, added) = setup("target");
    assert_eq!(text, "target\n.env\n*.env.local\n.sealenv/keys/\n");
    assert_eq!(added.len(), 3);
}

#[test]
fn setup_keeps_present_entries() {
    let (text, added) = setup("  .env  \r\nnode_modules\n.sealenv/keys/");
    assert_eq!(text, "  .env  \r\nnode_modules\n.sealenv/keys/\n*.env.local\n");
    assert_eq!(added, s(&["*.env.local"]));
}

#[test]
fn setup_does_not_match_partial_lines() {
    let (text, added) = setup(".env.example\n");
    assert_eq!(text, ".env.example\n.env\n*.env.local\n.sealenv/keys/\n");
    assert_eq!(added.len(), 3);
}

#[test]
fn setup_is_idempotent() {
    let (text, _) = setup("dist/\n");
    let (again, added) = setup(&text);
    assert_eq!(again, text);
    assert!(added.is_empty());
}
