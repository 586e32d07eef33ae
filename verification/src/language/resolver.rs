//! Language resolution module
//!
//! Determines which language the engine should use based on a three-tier priority chain:
//! 1. User's explicit preference
//! 2. System locale detection (via `sys-locale`)
//! 3. Default fallback

use vstd::prelude::*;
use crate::text::{chars_of, spec_to_lowercase, str_eq, string_of, to_lowercase};

verus! {

/// How the resolved language was determined.
#[derive(Debug, Clone, Copy, PartialEq, Eq, Structural)]
pub enum LanguageSource {
    /// Language was explicitly set by the user in configuration.
    UserPreference,
    /// Language was detected from the operating system locale.
    SystemLocale,
    /// Fell back to the configured default language.
    DefaultFallback,
}

/// Result of language resolution containing both the code and its provenance.
#[derive(Debug, Clone, PartialEq, Eq)]
pub struct ResolvedLanguage {
    /// Resolved ISO 639-1 language code.
    pub code: String,
    /// Source tier that produced the resolution.
    pub source: LanguageSource,
}

/// The part of a tag before its first `-` or `_`.
pub open spec fn first_subtag(tag: Seq<char>) -> Seq<char>
    decreases tag.len(),
{
    if tag.len() == 0 || tag[0] == '-' || tag[0] == '_' {
        Seq::empty()
    } else {
        seq![tag[0]] + first_subtag(tag.drop_first())
    }
}

/// The ISO 639-1 code of a BCP 47 tag: its first subtag lower-cased, or
/// `en` when that subtag is empty.
pub open spec fn iso_code_of(tag: Seq<char>) -> Seq<char> {
    if first_subtag(tag).len() == 0 {
        "en"@
    } else {
        spec_to_lowercase(first_subtag(tag))
    }
}

/// Whether some supported language is `code`.
pub open spec fn supports(supported: Seq<String>, code: Seq<char>) -> bool {
    exists|k: int| 0 <= k < supported.len() && supported[k]@ == code
}

/// An optional string slice as an optional character sequence.
pub open spec fn str_opt_view(o: Option<&str>) -> Option<Seq<char>> {
    match o {
        Some(s) => Some(s@),
        None => None,
    }
}

/// What locale detection finds for a raw locale: nothing for an empty one,
/// else its ISO code when that is a supported language.
pub open spec fn locale_match(raw: Option<Seq<char>>, supported: Seq<String>) -> Option<Seq<char>> {
    match raw {
        Some(tag) => if tag.len() > 0 && iso_code_of(tag).len() > 0 && supports(supported, iso_code_of(tag)) {
            Some(iso_code_of(tag))
        } else {
            None
        },
        None => None,
    }
}

/// Map a BCP 47 locale tag (e.g., `"en-US"`, `"es-ES"`, `"pt-BR"`) to its
/// ISO 639-1 base language code (e.g., `"en"`, `"es"`, `"pt"`).
///
/// The mapping is lossy: regional variants collapse to their base language.
/// Empty or unknown language parts fall back to `"en"`.
pub fn bcp47_to_iso639(bcp47: &str) -> (r: String)
    ensures
        r@ == iso_code_of(bcp47@),
{
    let chars = chars_of(bcp47);
    let mut first: Vec<char> = Vec::new();
    let mut i: usize = 0;
    assert(chars@.subrange(0, chars@.len() as int) =~= chars@);
    assert(first@ + first_subtag(chars@) =~= first_subtag(chars@));
    while i < chars.len() && chars[i] != '-' && chars[i] != '_'
        invariant
            i <= chars@.len(),
            first@ == chars@.subrange(0, i as int),
            forall|k: int| 0 <= k < i ==> chars@[k] != '-' && chars@[k] != '_',
            first_subtag(chars@) == first@ + first_subtag(chars@.subrange(i as int, chars@.len() as int)),
        decreases chars.len() - i,
    {
        proof {
            let rest = chars@.subrange(i as int, chars@.len() as int);
            assert(rest[0] == chars@[i as int]);
            assert(rest.drop_first() =~= chars@.subrange(i + 1, chars@.len() as int));
            assert(first@.push(chars@[i as int]) + first_subtag(rest.drop_first())
                =~= first@ + (seq![rest[0]] + first_subtag(rest.drop_first())));
        }
        first.push(chars[i]);
        assert(chars@.subrange(0, i + 1) =~= chars@.subrange(0, i as int).push(chars@[i as int]));
        i = i + 1;
    }
    proof {
        let rest = chars@.subrange(i as int, chars@.len() as int);
        assert(first_subtag(rest) =~= Seq::<char>::empty());
        assert(first@ + Seq::<char>::empty() =~= first@);
    }
    if first.len() == 0 {
        String::from_str("en")
    } else {
        let s = string_of(&first);
        to_lowercase(s.as_str())
    }
}

/// Map a raw locale string to a supported ISO 639-1 code, or `None` if the
/// input is empty or does not match any entry in `supported`.
///
/// This function is the testable core of system-locale detection: callers that
/// need deterministic results can pass a synthetic locale string instead of
/// querying the operating system.
pub fn detect_system_locale_with(raw_locale: Option<&str>, supported: &[String]) -> (r: Option<String>)
    ensures
        match r {
            Some(c) => locale_match(str_opt_view(raw_locale), supported@) == Some(c@),
            None => locale_match(str_opt_view(raw_locale), supported@) is None,
        },
{
    let raw = match raw_locale {
        Some(raw) => raw,
        None => {
            return None;
        },
    };
    if raw.unicode_len() == 0 {
        return None;
    }
    let iso_code = bcp47_to_iso639(raw);
    if iso_code.as_str().unicode_len() == 0 {
        return None;
    }
    assert(iso_code@.len() > 0);
    let mut i: usize = 0;
    while i < supported.len()
        invariant
            i <= supported@.len(),
            forall|k: int| 0 <= k < i ==> supported@[k]@ != iso_code@,
            str_opt_view(raw_locale) == Some(raw@),
            iso_code@ == iso_code_of(raw@),
            iso_code@.len() > 0,
            raw@.len() > 0,
        decreases supported.len() - i,
    {
        if str_eq(supported[i].as_str(), iso_code.as_str()) {
            assert(supported@[i as int]@ == iso_code@);
            return Some(String::from_str(supported[i].as_str()));
        }
        i = i + 1;
    }
    None
}

/// `sys_locale::get_locale`: the most preferred locale of the system, as a
/// BCP 47 tag, if it can be obtained.  It depends on the machine, so
/// nothing is claimed of it.
#[verifier::external_body]
fn system_locale() -> (r: Option<String>) {
    sys_locale::get_locale()
}

/// Detect the current system locale and map it to a supported ISO 639-1 code.
///
/// Returns `None` if the system locale cannot be determined or cannot be mapped
/// to any language in `supported`.
pub fn detect_system_locale(supported: &[String]) -> (r: Option<String>)
    ensures
        match r {
            Some(c) => c@.len() > 0 && supports(supported@, c@),
            None => true,
        },
{
    let raw = system_locale();
    match raw {
        Some(tag) => detect_system_locale_with(Some(tag.as_str()), supported),
        None => detect_system_locale_with(None, supported),
    }
}

/// Resolve the active language using the priority chain, given the
/// configured preference, supported languages and default.
///
/// `raw_locale_override` lets callers (especially tests) inject a synthetic
/// locale string; pass `None` to query the operating system.
pub fn resolve_language_with(
    user_preferred_language: &Option<String>,
    supported_languages: &[String],
    default_language: &str,
    raw_locale_override: Option<&str>,
) -> (r: ResolvedLanguage)
    ensures
        match user_preferred_language {
            Some(p) if supports(supported_languages@, p@) => r.code@ == p@ && r.source == LanguageSource::UserPreference,
            _ => match raw_locale_override {
                Some(raw) => match locale_match(Some(raw@), supported_languages@) {
                    Some(c) => r.code@ == c && r.source == LanguageSource::SystemLocale,
                    None => r.code@ == default_language@ && r.source == LanguageSource::DefaultFallback,
                },
                None => (r.source == LanguageSource::SystemLocale && r.code@.len() > 0 && supports(supported_languages@, r.code@))
                    || (r.source == LanguageSource::DefaultFallback && r.code@ == default_language@),
            },
        },
{
    match user_preferred_language {
        Some(preferred) => {
            let mut i: usize = 0;
            while i < supported_languages.len()
                invariant
                    i <= supported_languages@.len(),
                    forall|k: int| 0 <= k < i ==> supported_languages@[k]@ != preferred@,
                    *user_preferred_language == Some(*preferred),
                decreases supported_languages.len() - i,
            {
                if str_eq(supported_languages[i].as_str(), preferred.as_str()) {
                    assert(supported_languages@[i as int]@ == preferred@);
                    return ResolvedLanguage { code: String::from_str(preferred.as_str()), source: LanguageSource::UserPreference };
                }
                i = i + 1;
            }
        },
        None => {},
    }

    let detected = match raw_locale_override {
        Some(raw) => detect_system_locale_with(Some(raw), supported_languages),
        None => detect_system_locale(supported_languages),
    };
    match detected {
        Some(code) => ResolvedLanguage { code, source: LanguageSource::SystemLocale },
        None => ResolvedLanguage { code: String::from_str(default_language), source: LanguageSource::DefaultFallback },
    }
}

/// Resolve the active language using the priority chain, querying the OS for
/// the current locale.
///
/// Order: user preference → system locale → default fallback.
pub fn resolve_language(
    user_preferred_language: &Option<String>,
    supported_languages: &[String],
    default_language: &str,
) -> (r: ResolvedLanguage)
    ensures
        match user_preferred_language {
            Some(p) if supports(supported_languages@, p@) => r.code@ == p@ && r.source == LanguageSource::UserPreference,
            _ => (r.source == LanguageSource::SystemLocale && r.code@.len() > 0 && supports(supported_languages@, r.code@))
                || (r.source == LanguageSource::DefaultFallback && r.code@ == default_language@),
        },
{
    resolve_language_with(user_preferred_language, supported_languages, default_language, None)
}

} // verus!
