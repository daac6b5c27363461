use sealenv::run::{command_parts, exit_code};

#[test]
fn command_parts_splits_program_and_args() {
    let args = vec!["npm".to_string(), "run".to_string(), "start".to_string()];
    let (p, rest) = command_parts(&args).unwrap();
    assert_eq!(p, "npm");
    assert_eq!(rest, vec!["run".to_string(), "start".to_string()]);
    let (p, rest) = command_parts(&vec!["ls".to_string()]).unwrap();
    assert_eq!(p, "ls");
    assert!(rest.is_empty());
}

#[test]
fn command_parts_empty() {
    assert_eq!(command_parts(&Vec::new()), None);
}

#[test]
fn exit_code_follows_status() {
    assert_eq!(exit_code(true, Some(0)), None);
    assert_eq!(exit_code(false, Some(3)), Some(3));
    assert_eq!(exit_code(false, None), Some(1));
}
