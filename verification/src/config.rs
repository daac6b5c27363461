//! The project configuration kept in `.sealenv/config.toml`: the active
//! profile and the project id that names the project's key file.

use vstd::prelude::*;
use rand::RngCore;
use crate::text::{string_of, opt_view};

verus! {

/// The project configuration.
#[derive(Debug, PartialEq, Eq)]
pub struct Config {
    /// The profile that `profile use` switched to last.
    pub active_profile: Option<String>,
    /// A random id that names the project's key file.
    pub project_id: Option<String>,
}

/// The configuration as character sequences.
pub struct ConfigView {
    pub active_profile: Option<Seq<char>>,
    pub project_id: Option<Seq<char>>,
}

impl View for Config {
    type V = ConfigView;

    open spec fn view(&self) -> ConfigView {
        ConfigView { active_profile: opt_view(self.active_profile), project_id: opt_view(self.project_id) }
    }
}

impl Default for Config {
    /// No active profile and no project id.
    fn default() -> (r: Self)
        ensures
            r.active_profile is None,
            r.project_id is None,
    {
        Config { active_profile: None, project_id: None }
    }
}

/// Why a configuration operation failed.
#[derive(Debug, PartialEq, Eq)]
pub enum ConfigError {
    /// The operating system's random number generator failed.
    RandomUnavailable,
}

/// The name of the profile that a new project starts with.
pub open spec fn dev_profile() -> Seq<char> {
    seq!['d', 'e', 'v']
}

// ── Project id ───────────────────────────────────────────────────────────────

/// The lower-case hexadecimal digit of `d` (`d < 16`).
pub open spec fn hex_digit(d: u8) -> char {
    if d < 10 {
        ('0' as u8 + d) as char
    } else {
        ('a' as u8 + d - 10) as char
    }
}

/// The lower-case hexadecimal text of bytes, two digits per byte.
pub open spec fn hex_lower(bytes: Seq<u8>) -> Seq<char>
    decreases bytes.len(),
{
    if bytes.len() == 0 {
        Seq::empty()
    } else {
        let b = bytes.last();
        hex_lower(bytes.drop_last()) + seq![hex_digit(b / 16), hex_digit(b % 16)]
    }
}

/// A lower-case hexadecimal digit.
pub open spec fn is_hex_char(c: char) -> bool {
    ('0' <= c <= '9') || ('a' <= c <= 'f')
}

/// A project id: 32 lower-case hexadecimal digits.
pub open spec fn is_project_id(s: Seq<char>) -> bool {
    s.len() == 32 && forall|i: int| 0 <= i < s.len() ==> is_hex_char(#[trigger] s[i])
}

/// The hexadecimal text of bytes is twice as long and made of hexadecimal digits.
pub proof fn lemma_hex_lower(bytes: Seq<u8>)
    ensures
        hex_lower(bytes).len() == 2 * bytes.len(),
        forall|i: int| 0 <= i < hex_lower(bytes).len() ==> is_hex_char(#[trigger] hex_lower(bytes)[i]),
    decreases bytes.len(),
{
    if bytes.len() > 0 {
        lemma_hex_lower(bytes.drop_last());
        let b = bytes.last();
        assert(is_hex_char(hex_digit(b / 16)));
        assert(is_hex_char(hex_digit(b % 16)));
    }
}

fn hex_digit_exec(d: u8) -> (c: char)
    requires
        d < 16,
    ensures
        c == hex_digit(d),
{
    if d < 10 {
        ('0' as u8 + d) as char
    } else {
        ('a' as u8 + d - 10) as char
    }
}

/// The lower-case hexadecimal text of `bytes`, as `format!("{:02x}")` writes each byte.
pub fn project_id_hex(bytes: &[u8]) -> (r: String)
    ensures
        r@ == hex_lower(bytes@),
{
    let mut v: Vec<char> = Vec::new();
    let mut i: usize = 0;
    while i < bytes.len()
        invariant
            0 <= i <= bytes@.len(),
            v@ == hex_lower(bytes@.subrange(0, i as int)),
        decreases bytes@.len() - i,
    {
        let b = bytes[i];
        v.push(hex_digit_exec(b / 16));
        v.push(hex_digit_exec(b % 16));
        proof {
            let s = bytes@.subrange(0, i + 1);
            assert(s.drop_last() =~= bytes@.subrange(0, i as int));
            assert(s.last() == b);
        }
        i = i + 1;
    }
    assert(bytes@.subrange(0, bytes@.len() as int) =~= bytes@);
    string_of(&v)
}

/// rand's `OsRng.try_fill_bytes`: fills the buffer with random bytes from
/// the operating system, or fails. Nothing is claimed of the bytes but that
/// the buffer keeps its length.
#[verifier::external_body]
fn os_random_fill(buf: &mut Vec<u8>) -> (r: Result<(), rand::Error>)
    ensures
        final(buf)@.len() == old(buf)@.len(),
{
    rand::rngs::OsRng.try_fill_bytes(buf.as_mut_slice())
}

#[verifier::external_type_specification]
#[verifier::external_body]
pub struct ExRandError(rand::Error);

/// A fresh project id: 16 random bytes in lower-case hexadecimal.
pub fn generate_project_id() -> (r: Result<String, ConfigError>)
    ensures
        r matches Ok(id) ==> is_project_id(id@),
        r matches Err(e) ==> e == ConfigError::RandomUnavailable,
{
    let mut bytes: Vec<u8> = vec![0u8; 16];
    if os_random_fill(&mut bytes).is_err() {
        return Err(ConfigError::RandomUnavailable);
    }
    let id = project_id_hex(bytes.as_slice());
    proof {
        lemma_hex_lower(bytes@);
    }
    Ok(id)
}

// ── Initialisation ───────────────────────────────────────────────────────────

/// The configuration that `init` saves, given the one found (if any) and a
/// fresh project id; nothing when the one found already has an id.
pub open spec fn init_spec(existing: Option<ConfigView>, fresh_id: Seq<char>) -> Option<ConfigView> {
    match existing {
        None => Some(ConfigView { active_profile: Some(dev_profile()), project_id: Some(fresh_id) }),
        Some(c) => if c.project_id is None {
            Some(ConfigView { active_profile: c.active_profile, project_id: Some(fresh_id) })
        } else {
            None
        },
    }
}

/// The configuration in place after `init`.
pub open spec fn after_init(existing: Option<ConfigView>, fresh_id: Seq<char>) -> ConfigView {
    match init_spec(existing, fresh_id) {
        Some(c) => c,
        None => existing->0,
    }
}

pub open spec fn opt_config_view(c: Option<Config>) -> Option<ConfigView> {
    match c {
        Some(v) => Some(v@),
        None => None,
    }
}

/// Initialises the configuration of a project, given the one found on disk.
///
/// With none, the result is a configuration with the `dev` profile active
/// and a fresh project id; with one that lacks a project id, the same
/// configuration with a fresh id; otherwise nothing is to be saved.
/// `RandomUnavailable` when a fresh id was needed and none could be drawn.
pub fn init(existing: Option<Config>) -> (r: Result<Option<Config>, ConfigError>)
    ensures
        match r {
            Ok(Some(c)) => c.project_id matches Some(id) && is_project_id(id@) && Some(c@)
                == init_spec(opt_config_view(existing), id@),
            Ok(None) => init_spec(opt_config_view(existing), Seq::empty()) is None,
            Err(e) => e == ConfigError::RandomUnavailable && init_spec(
                opt_config_view(existing),
                Seq::empty(),
            ) is Some,
        },
{
    match existing {
        None => {
            let id = generate_project_id()?;
            let mut dev: Vec<char> = Vec::new();
            dev.push('d');
            dev.push('e');
            dev.push('v');
            let active = string_of(&dev);
            assert(dev@ =~= dev_profile());
            Ok(Some(Config { active_profile: Some(active), project_id: Some(id) }))
        },
        Some(c) => {
            if c.project_id.is_none() {
                let id = generate_project_id()?;
                Ok(Some(Config { active_profile: c.active_profile, project_id: Some(id) }))
            } else {
                Ok(None)
            }
        },
    }
}

/// After `init`, the project has an id, the active profile is `dev` for a
/// new project and unchanged otherwise, and running `init` again saves nothing.
pub proof fn lemma_init_settles(existing: Option<ConfigView>, fresh_id: Seq<char>, next_id: Seq<char>)
    ensures
        after_init(existing, fresh_id).project_id is Some,
        existing is None ==> after_init(existing, fresh_id).active_profile == Some(dev_profile()),
        existing matches Some(c) ==> after_init(existing, fresh_id).active_profile == c.active_profile,
        existing matches Some(c) ==> (c.project_id is Some ==> after_init(existing, fresh_id) == c),
        init_spec(Some(after_init(existing, fresh_id)), next_id) is None,
{
}

// ── Active profile and project id ────────────────────────────────────────────

fn clone_opt(s: &Option<String>) -> (r: Option<String>)
    ensures
        opt_view(r) == opt_view(*s),
{
    match s {
        Some(v) => Some(v.clone()),
        None => None,
    }
}

/// The active profile of a configuration found (if any).
pub open spec fn active_of(loaded: Option<ConfigView>) -> Option<Seq<char>> {
    match loaded {
        Some(c) => c.active_profile,
        None => None,
    }
}

/// The project id of a configuration found (if any).
pub open spec fn project_id_of(loaded: Option<ConfigView>) -> Option<Seq<char>> {
    match loaded {
        Some(c) => c.project_id,
        None => None,
    }
}

/// A configuration with `name` as its active profile.
pub open spec fn with_active(cfg: ConfigView, name: Seq<char>) -> ConfigView {
    ConfigView { active_profile: Some(name), project_id: cfg.project_id }
}

/// The active profile of the configuration found, if any.
pub fn get_active_profile(loaded: &Option<Config>) -> (r: Option<String>)
    ensures
        opt_view(r) == active_of(opt_config_view(*loaded)),
{
    match loaded {
        Some(c) => clone_opt(&c.active_profile),
        None => None,
    }
}

/// The project id of the configuration found, if any.
pub fn get_project_id(loaded: &Option<Config>) -> (r: Option<String>)
    ensures
        opt_view(r) == project_id_of(opt_config_view(*loaded)),
{
    match loaded {
        Some(c) => clone_opt(&c.project_id),
        None => None,
    }
}

/// The configuration with `name` as its active profile.
pub fn set_active_profile(cfg: Config, name: &str) -> (r: Config)
    ensures
        r@ == with_active(cfg@, name@),
{
    Config { active_profile: Some(name.to_owned()), project_id: cfg.project_id }
}

/// The active profile read back after setting it is the one set, and
/// setting it keeps the project id.
pub proof fn lemma_set_then_get_active(cfg: ConfigView, name: Seq<char>)
    ensures
        active_of(Some(with_active(cfg, name))) == Some(name),
        project_id_of(Some(with_active(cfg, name))) == project_id_of(Some(cfg)),
{
}

} // verus!
