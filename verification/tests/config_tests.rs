use sealenv::config::{
    generate_project_id, get_active_profile, get_project_id, init, project_id_hex,
    set_active_profile, Config,
};

fn cfg(active: Option<&str>, id: Option<&str>) -> Config {
    Config { active_profile: active.map(|s| s.to_string()), project_id: id.map(|s| s.to_string()) }
}

#[test]
fn default_config_is_empty() {
    let c = Config::default();
    assert_eq!(c.active_profile, None);
    assert_eq!(c.project_id, None);
}

#[test]
fn project_id_hex_is_lower_case_two_digits_per_byte() {
    assert_eq!(project_id_hex(&[0x00, 0xff, 0x1a, 0x09]), "00ff1a09");
    assert_eq!(project_id_hex(&[]), "");
}

#[test]
fn generated_project_id_is_32_hex_digits() {
    let id = generate_project_id().unwrap();
    assert_eq!(id.len(), 32);
    assert!(id.chars().all(|c| c.is_ascii_digit() || ('a'..='f').contains(&c)));
}

#[test]
fn init_new_project() {
    let c = init(None).unwrap().unwrap();
    assert_eq!(c.active_profile.as_deref(), Some("dev"));
    assert_eq!(c.project_id.unwrap().len(), 32);
}

#[test]
fn init_backfills_project_id() {
    let c = init(Some(cfg(Some("prod"), None))).unwrap().unwrap();
    assert_eq!(c.active_profile.as_deref(), Some("prod"));
    assert_eq!(c.project_id.unwrap().len(), 32);
    let c = init(Some(cfg(None, None))).unwrap().unwrap();
    assert_eq!(c.active_profile, None);
}

#[test]
fn init_leaves_complete_config() {
    assert_eq!(init(Some(cfg(Some("dev"), Some("abc")))).unwrap(), None);
}

#[test]
fn init_twice_saves_nothing_the_second_time() {
    let first = init(None).unwrap().unwrap();
    assert_eq!(init(Some(first)).unwrap(), None);
}

#[test]
fn get_and_set_active_profile() {
    assert_eq!(get_active_profile(&None), None);
    assert_eq!(get_active_profile(&Some(cfg(Some("dev"), None))), Some("dev".to_string()));
    let c = set_active_profile(cfg(Some("dev"), Some("id1")), "staging");
    assert_eq!(c.active_profile.as_deref(), Some("staging"));
    assert_eq!(c.project_id.as_deref(), Some("id1"));
    assert_eq!(get_active_profile(&Some(c)), Some("staging".to_string()));
}

#[test]
fn get_project_id_reads_the_config() {
    assert_eq!(get_project_id(&None), None);
    assert_eq!(get_project_id(&Some(cfg(None, None))), None);
    assert_eq!(get_project_id(&Some(cfg(None, Some("abc")))), Some("abc".to_string()));
}

#[test]
fn generated_project_ids_differ() {
    let a = generate_project_id().unwrap();
    let b = generate_project_id().unwrap();
    assert_ne!(a, b);
    assert_ne!(a, "0".repeat(32));
}
