//! Configuration rules
//!
//! The checks a configuration must pass on its languages and buffer size.

use std::path::PathBuf;
use vstd::prelude::*;
use crate::language::resolver::supports;
use crate::text::{push_str, str_eq};

verus! {

/// The message for the first rule the settings break, if any: at least one
/// supported language, a supported default, a supported preference when
/// one is given, and a positive buffer size.
pub open spec fn settings_problem(
    supported_languages: Seq<String>,
    default_language: Seq<char>,
    user_preferred_language: Option<Seq<char>>,
    buffer_max_size: usize,
) -> Option<Seq<char>> {
    if supported_languages.len() == 0 {
        Some("At least one supported language is required"@)
    } else if !supports(supported_languages, default_language) {
        Some("Default language '"@ + default_language + "' must be in supported languages"@)
    } else if user_preferred_language is Some && !supports(supported_languages, user_preferred_language->0) {
        Some("user_preferred_language '"@ + user_preferred_language->0 + "' must be in supported languages"@)
    } else if buffer_max_size == 0 {
        Some("Buffer max_size must be > 0"@)
    } else {
        None
    }
}

/// Whether `s` is one of the supported languages.
fn is_supported(supported_languages: &Vec<String>, s: &str) -> (r: bool)
    ensures
        r == supports(supported_languages@, s@),
{
    let mut i: usize = 0;
    while i < supported_languages.len()
        invariant
            i <= supported_languages@.len(),
            forall|k: int| 0 <= k < i ==> supported_languages@[k]@ != s@,
        decreases supported_languages.len() - i,
    {
        if str_eq(supported_languages[i].as_str(), s) {
            assert(supported_languages@[i as int]@ == s@);
            return true;
        }
        i = i + 1;
    }
    false
}

/// `prefix`, then `middle`, then `suffix`.
fn framed(prefix: &str, middle: &str, suffix: &str) -> (r: String)
    ensures
        r@ == prefix@ + middle@ + suffix@,
{
    let mut s = String::from_str(prefix);
    push_str(&mut s, middle);
    push_str(&mut s, suffix);
    s
}

/// Validate the language and buffer settings of a configuration
///
/// Returns the message of the first rule broken.
pub fn validate_settings(
    supported_languages: &Vec<String>,
    default_language: &str,
    user_preferred_language: &Option<String>,
    buffer_max_size: usize,
) -> (r: Result<(), String>)
    ensures
        match r {
            Ok(()) => settings_problem(supported_languages@, default_language@,
                match user_preferred_language { Some(p) => Some(p@), None => None }, buffer_max_size) is None,
            Err(m) => settings_problem(supported_languages@, default_language@,
                match user_preferred_language { Some(p) => Some(p@), None => None }, buffer_max_size) == Some(m@),
        },
{
    if supported_languages.len() == 0 {
        return Err(String::from_str("At least one supported language is required"));
    }
    if !is_supported(supported_languages, default_language) {
        return Err(framed("Default language '", default_language, "' must be in supported languages"));
    }
    match user_preferred_language {
        Some(preferred) => {
            if !is_supported(supported_languages, preferred.as_str()) {
                return Err(framed("user_preferred_language '", preferred.as_str(), "' must be in supported languages"));
            }
        },
        None => {},
    }
    if buffer_max_size == 0 {
        return Err(String::from_str("Buffer max_size must be > 0"));
    }
    Ok(())
}

#[verifier::external_type_specification]
#[verifier::external_body]
pub struct ExPathBuf(std::path::PathBuf);

/// `PathBuf::from` on a string.  Nothing is claimed of the path.
#[verifier::external_body]
fn path_of(s: &str) -> PathBuf {
    PathBuf::from(s)
}

/// Logging configuration
#[derive(Debug, Clone)]
pub struct LoggingConfig {
    /// Log level (trace, debug, info, warn, error)
    pub level: String,
    /// Log file path (None = stdout only)
    pub file: Option<PathBuf>,
    /// Enable structured JSON logging
    pub structured: bool,
}

impl Default for LoggingConfig {
    fn default() -> (c: Self)
        ensures
            c.level@ == "info"@,
            c.file is None,
            c.structured,
    {
        LoggingConfig { level: String::from_str("info"), file: None, structured: true }
    }
}

/// Buffer configuration
#[derive(Debug, Clone, Copy)]
pub struct BufferConfig {
    /// Maximum buffer size in characters
    pub max_size: usize,
    /// Enable Unicode normalization
    pub normalize_unicode: bool,
}

impl Default for BufferConfig {
    fn default() -> (c: Self)
        ensures
            c.max_size == 64,
            c.normalize_unicode,
    {
        BufferConfig { max_size: 64, normalize_unicode: true }
    }
}

/// Correction configuration
#[derive(Debug, Clone)]
pub struct CorrectionConfig {
    /// Maximum edit distance for corrections
    pub max_edit_distance: usize,
    /// Maximum number of corrections to return
    pub max_corrections: usize,
    /// Minimum word length to attempt correction
    pub min_word_length: usize,
    /// Enable case-sensitive matching
    pub case_sensitive: bool,
    /// Learn from user corrections
    pub learn_from_user: bool,
    /// Path to user error map
    pub user_errors_path: Option<PathBuf>,
    /// Require accents to match when correcting
    pub enforce_accents: bool,
}

impl Default for CorrectionConfig {
    /// The path of the user error map is `data/user_errors.json`.
    fn default() -> (c: Self)
        ensures
            c.max_edit_distance == 1,
            c.max_corrections == 3,
            c.min_word_length == 2,
            !c.case_sensitive,
            c.learn_from_user,
            c.user_errors_path is Some,
            !c.enforce_accents,
    {
        CorrectionConfig {
            max_edit_distance: 1,
            max_corrections: 3,
            min_word_length: 2,
            case_sensitive: false,
            learn_from_user: true,
            user_errors_path: Some(path_of("data/user_errors.json")),
            enforce_accents: false,
        }
    }
}

/// Hook mode
#[derive(Debug, Clone, Copy, PartialEq, Eq, Structural)]
pub enum HookMode {
    /// System-wide hook
    System,
    /// Application-specific hook
    Application,
    /// Disabled (API only mode)
    Disabled,
}

impl Default for HookMode {
    fn default() -> (m: Self)
        ensures
            m == HookMode::System,
    {
        HookMode::System
    }
}

/// Keyboard hooks configuration
#[derive(Debug, Clone)]
pub struct HooksConfig {
    /// Enable keyboard hooks
    pub keyboard_enabled: bool,
    /// Hook mode
    pub mode: HookMode,
    /// Target application (None = all)
    pub target_app: Option<String>,
    /// Log keystrokes (debug only)
    pub log_keystrokes: bool,
}

impl Default for HooksConfig {
    fn default() -> (c: Self)
        ensures
            c.keyboard_enabled,
            c.mode == HookMode::System,
            c.target_app is None,
            !c.log_keystrokes,
    {
        HooksConfig { keyboard_enabled: true, mode: HookMode::System, target_app: None, log_keystrokes: false }
    }
}

/// File format used for serializing/deserializing configuration
#[derive(Debug, Clone, Copy, PartialEq, Eq, Structural)]
pub enum ConfigFormat {
    /// YAML format (reserved; configuration is parsed as JSON)
    Yaml,
    /// JSON format
    Json,
}

} // verus!
