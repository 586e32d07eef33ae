//! The JSON data files of the library: word lists with frequencies and
//! stopword lists.  `serde_json` reads the text; what the library makes of
//! the value it reads is verified here.

use serde_json::Value;
use vstd::prelude::*;

verus! {

/// Errors of reading a JSON data file
#[derive(Debug)]
pub enum JsonError {
    /// The text is not JSON, or not of the expected shape
    Invalid,
}

impl JsonError {
    /// The message that describes the error
    pub fn message(&self) -> (r: String)
        ensures
            r@ == "Invalid JSON data"@,
    {
        String::from_str("Invalid JSON data")
    }
}

/// What `serde_json::from_str` reads from `text` as a `serde_json::Value`,
/// reduced to its member "stopwords": `None` when the text is not JSON,
/// `Some(None)` when it is not an object with an array under "stopwords",
/// and otherwise the elements of that array, each with its text when it is
/// a string.
pub uninterp spec fn json_stopword_items(text: Seq<char>) -> Option<Option<Seq<Option<Seq<char>>>>>;

/// What `serde_json::from_str` reads from `text` as a `serde_json::Value`,
/// reduced to its member "words": `None` when the text is not JSON,
/// `Some(None)` when it is not an object with an array under "words", and
/// otherwise, for each element of that array, `None` when it is not an
/// object, else its member "word" (its text, when a string) and its member
/// "frequency" (absent, or its value when a non-negative integer that fits
/// in 64 bits).
pub uninterp spec fn json_word_items(text: Seq<char>) -> Option<Option<Seq<Option<(Option<Seq<char>>, Option<Option<u64>>)>>>>;

/// A list of strings read as character sequences.
pub open spec fn strings_view(v: Seq<String>) -> Seq<Seq<char>> {
    v.map_values(|s: String| s@)
}

/// An optional string read as an optional character sequence.
pub open spec fn opt_view(s: Option<String>) -> Option<Seq<char>> {
    match s {
        Some(t) => Some(t@),
        None => None,
    }
}

/// The elements of a stopword array, read as character sequences.
pub open spec fn stopword_items_view(v: Seq<Option<String>>) -> Seq<Option<Seq<char>>> {
    v.map_values(|s: Option<String>| opt_view(s))
}

/// The elements of a word array, read as character sequences.
pub open spec fn word_items_view(
    v: Seq<Option<(Option<String>, Option<Option<u64>>)>>,
) -> Seq<Option<(Option<Seq<char>>, Option<Option<u64>>)>> {
    v.map_values(|e: Option<(Option<String>, Option<Option<u64>>)>| match e {
        Some(p) => Some((opt_view(p.0), p.1)),
        None => None,
    })
}

/// `serde_json::from_str::<serde_json::Value>` on `text`, then the elements
/// of its "stopwords" array.  Claimed: the result named by
/// `json_stopword_items`.
#[verifier::external_body]
fn parse_stopword_items(text: &str) -> (r: Option<Option<Vec<Option<String>>>>)
    ensures
        match r {
            None => json_stopword_items(text@) is None,
            Some(None) => json_stopword_items(text@) == Some(None::<Seq<Option<Seq<char>>>>),
            Some(Some(v)) => json_stopword_items(text@) == Some(Some(stopword_items_view(v@))),
        },
{
    match serde_json::from_str::<Value>(text) {
        Err(_) => None,
        Ok(Value::Object(mut top)) => match top.remove("stopwords") {
            Some(Value::Array(items)) => Some(Some(
                items.into_iter().map(|v| match v {
                    Value::String(s) => Some(s),
                    _ => None,
                }).collect(),
            )),
            _ => Some(None),
        },
        Ok(_) => Some(None),
    }
}

/// `serde_json::from_str::<serde_json::Value>` on `text`, then the elements
/// of its "words" array, each reduced to its "word" and "frequency"
/// members.  Claimed: the result named by `json_word_items`.
#[verifier::external_body]
fn parse_word_items(text: &str) -> (r: Option<Option<Vec<Option<(Option<String>, Option<Option<u64>>)>>>>)
    ensures
        match r {
            None => json_word_items(text@) is None,
            Some(None) => json_word_items(text@) == Some(None::<Seq<Option<(Option<Seq<char>>, Option<Option<u64>>)>>>),
            Some(Some(v)) => json_word_items(text@) == Some(Some(word_items_view(v@))),
        },
{
    match serde_json::from_str::<Value>(text) {
        Err(_) => None,
        Ok(Value::Object(mut top)) => match top.remove("words") {
            Some(Value::Array(items)) => Some(Some(items.into_iter().map(|v| match v {
                Value::Object(mut e) => Some((
                    match e.remove("word") { Some(Value::String(s)) => Some(s), _ => None },
                    e.remove("frequency").map(|f| f.as_u64()),
                )),
                _ => None,
            }).collect())),
            _ => Some(None),
        },
        Ok(_) => Some(None),
    }
}

/// The stopwords of the elements of a stopword array: `None` unless every
/// element is a string.
pub open spec fn stopwords_of(items: Seq<Option<Seq<char>>>) -> Option<Seq<Seq<char>>>
    decreases items.len(),
{
    if items.len() == 0 {
        Some(Seq::empty())
    } else {
        match (stopwords_of(items.drop_last()), items.last()) {
            (Some(ws), Some(w)) => Some(ws.push(w)),
            _ => None,
        }
    }
}

/// The (word, frequency) entries of the elements of a word array, a missing
/// frequency read as `default_frequency`: `None` unless every element is an
/// object with a string "word" and, if it has one, a "frequency" that is a
/// non-negative integer fitting in 64 bits.
pub open spec fn word_entries_of(
    items: Seq<Option<(Option<Seq<char>>, Option<Option<u64>>)>>,
    default_frequency: u64,
) -> Option<Seq<(Seq<char>, u64)>>
    decreases items.len(),
{
    if items.len() == 0 {
        Some(Seq::empty())
    } else {
        match (word_entries_of(items.drop_last(), default_frequency), items.last()) {
            (Some(es), Some((Some(w), None))) => Some(es.push((w, default_frequency))),
            (Some(es), Some((Some(w), Some(Some(f))))) => Some(es.push((w, f))),
            _ => None,
        }
    }
}

/// The stopwords that a JSON text lists, if it is of the expected shape.
pub open spec fn json_stopwords(text: Seq<char>) -> Option<Seq<Seq<char>>> {
    match json_stopword_items(text) {
        Some(Some(items)) => stopwords_of(items),
        _ => None,
    }
}

/// The (word, frequency) entries that a JSON text lists, if it is of the
/// expected shape, a missing frequency read as `default_frequency`.
pub open spec fn json_word_entries(text: Seq<char>, default_frequency: u64) -> Option<Seq<(Seq<char>, u64)>> {
    match json_word_items(text) {
        Some(Some(items)) => word_entries_of(items, default_frequency),
        _ => None,
    }
}

/// The stopwords that a JSON text (`{"stopwords": [...]}`) lists, in order.
pub fn stopwords_from_json(text: &str) -> (r: Result<Vec<String>, JsonError>)
    ensures
        match r {
            Ok(v) => json_stopwords(text@) == Some(strings_view(v@)),
            Err(_) => json_stopwords(text@) is None,
        },
{
    let items = match parse_stopword_items(text) {
        Some(Some(items)) => items,
        _ => return Err(JsonError::Invalid),
    };
    let ghost iv = stopword_items_view(items@);
    let mut words: Vec<String> = Vec::new();
    let mut i: usize = 0;
    while i < items.len()
        invariant
            i <= items@.len(),
            iv == stopword_items_view(items@),
            json_stopword_items(text@) == Some(Some(iv)),
            stopwords_of(iv.subrange(0, i as int)) == Some(strings_view(words@)),
        decreases items.len() - i,
    {
        proof {
            let s = iv.subrange(0, i + 1);
            assert(s.drop_last() =~= iv.subrange(0, i as int));
            assert(s.last() == iv[i as int]);
        }
        match &items[i] {
            Some(w) => {
                let ghost before = words@;
                words.push(w.clone());
                proof {
                    assert(strings_view(words@) =~= strings_view(before).push(w@));
                }
            },
            None => {
                proof {
                    let s = iv.subrange(0, i + 1);
                    assert(s.drop_last() =~= iv.subrange(0, i as int));
                    assert(s.last() is None);
                    assert(stopwords_of(s) is None);
                    lemma_stopwords_none_extends(iv, i as int + 1);
                    assert(iv.subrange(0, iv.len() as int) =~= iv);
                    assert(stopwords_of(iv) is None);
                }
                return Err(JsonError::Invalid);
            },
        }
        i = i + 1;
    }
    proof {
        assert(iv.subrange(0, i as int) =~= iv);
    }
    Ok(words)
}

/// Once a prefix of the elements has no stopword list, neither has any
/// longer prefix.
proof fn lemma_stopwords_none_extends(items: Seq<Option<Seq<char>>>, n: int)
    requires
        0 <= n <= items.len(),
        stopwords_of(items.subrange(0, n)) is None,
    ensures
        stopwords_of(items.subrange(0, items.len() as int)) is None,
    decreases items.len() - n,
{
    if n < items.len() {
        let s = items.subrange(0, n + 1);
        assert(s.drop_last() =~= items.subrange(0, n));
        lemma_stopwords_none_extends(items, n + 1);
    }
}

/// Once a prefix of the elements has no entry list, neither has any longer
/// prefix.
proof fn lemma_entries_none_extends(
    items: Seq<Option<(Option<Seq<char>>, Option<Option<u64>>)>>,
    default_frequency: u64,
    n: int,
)
    requires
        0 <= n <= items.len(),
        word_entries_of(items.subrange(0, n), default_frequency) is None,
    ensures
        word_entries_of(items.subrange(0, items.len() as int), default_frequency) is None,
    decreases items.len() - n,
{
    if n < items.len() {
        let s = items.subrange(0, n + 1);
        assert(s.drop_last() =~= items.subrange(0, n));
        lemma_entries_none_extends(items, default_frequency, n + 1);
    }
}

/// The (word, frequency) entries that a JSON text
/// (`{"words": [{"word", "frequency"}]}`) lists, in order, a missing
/// frequency read as `default_frequency`.
pub fn word_entries_from_json(text: &str, default_frequency: u64) -> (r: Result<Vec<(String, u64)>, JsonError>)
    ensures
        match r {
            Ok(v) => json_word_entries(text@, default_frequency) == Some(v@.map_values(|e: (String, u64)| (e.0@, e.1))),
            Err(_) => json_word_entries(text@, default_frequency) is None,
        },
{
    let items = match parse_word_items(text) {
        Some(Some(items)) => items,
        _ => return Err(JsonError::Invalid),
    };
    let ghost iv = word_items_view(items@);
    let mut entries: Vec<(String, u64)> = Vec::new();
    let mut i: usize = 0;
    while i < items.len()
        invariant
            i <= items@.len(),
            iv == word_items_view(items@),
            json_word_items(text@) == Some(Some(iv)),
            word_entries_of(iv.subrange(0, i as int), default_frequency)
                == Some(entries@.map_values(|e: (String, u64)| (e.0@, e.1))),
        decreases items.len() - i,
    {
        proof {
            let s = iv.subrange(0, i + 1);
            assert(s.drop_last() =~= iv.subrange(0, i as int));
            assert(s.last() == iv[i as int]);
        }
        let found: Option<(String, u64)> = match &items[i] {
            Some((Some(w), None)) => Some((w.clone(), default_frequency)),
            Some((Some(w), Some(Some(f)))) => Some((w.clone(), *f)),
            _ => None,
        };
        match found {
            Some(e) => {
                let ghost before = entries@;
                entries.push(e);
                proof {
                    assert(entries@.map_values(|e: (String, u64)| (e.0@, e.1)) =~= before.map_values(
                        |e: (String, u64)| (e.0@, e.1),
                    ).push((e.0@, e.1)));
                }
            },
            None => {
                proof {
                    let s = iv.subrange(0, i + 1);
                    assert(s.drop_last() =~= iv.subrange(0, i as int));
                    assert(s.last() == iv[i as int]);
                    assert(word_entries_of(s, default_frequency) is None);
                    lemma_entries_none_extends(iv, default_frequency, i as int + 1);
                    assert(iv.subrange(0, iv.len() as int) =~= iv);
                    assert(word_entries_of(iv, default_frequency) is None);
                }
                return Err(JsonError::Invalid);
            },
        }
        i = i + 1;
    }
    proof {
        assert(iv.subrange(0, i as int) =~= iv);
    }
    Ok(entries)
}

} // verus!
