//! Accent encoding: each of fourteen accented Latin letters is exchanged
//! for a single upper-case ASCII letter, so that a byte-level automaton
//! counts a missing accent as one substitution.

use vstd::prelude::*;
use crate::text::{chars_of, push_char};

verus! {

/// The code letter of an accented letter; every other character maps to itself.
pub open spec fn encode_char(c: char) -> char {
    if c == 'á' { 'A' }
    else if c == 'é' { 'E' }
    else if c == 'í' { 'I' }
    else if c == 'ó' { 'O' }
    else if c == 'ú' { 'U' }
    else if c == 'ñ' { 'N' }
    else if c == 'ü' { 'W' }
    else if c == 'ã' { 'B' }
    else if c == 'õ' { 'C' }
    else if c == 'ç' { 'D' }
    else if c == 'â' { 'F' }
    else if c == 'ê' { 'G' }
    else if c == 'ô' { 'J' }
    else if c == 'à' { 'L' }
    else { c }
}

/// The accented letter of a code letter; every other character maps to itself.
pub open spec fn decode_char(c: char) -> char {
    if c == 'A' { 'á' }
    else if c == 'E' { 'é' }
    else if c == 'I' { 'í' }
    else if c == 'O' { 'ó' }
    else if c == 'U' { 'ú' }
    else if c == 'N' { 'ñ' }
    else if c == 'W' { 'ü' }
    else if c == 'B' { 'ã' }
    else if c == 'C' { 'õ' }
    else if c == 'D' { 'ç' }
    else if c == 'F' { 'â' }
    else if c == 'G' { 'ê' }
    else if c == 'J' { 'ô' }
    else if c == 'L' { 'à' }
    else { c }
}

/// The unaccented ASCII letter of an accented letter; every other character
/// maps to itself.
pub open spec fn strip_char(c: char) -> char {
    if c == 'á' || c == 'ã' || c == 'â' || c == 'à' { 'a' }
    else if c == 'é' || c == 'ê' { 'e' }
    else if c == 'í' { 'i' }
    else if c == 'ó' || c == 'õ' || c == 'ô' { 'o' }
    else if c == 'ú' || c == 'ü' { 'u' }
    else if c == 'ñ' { 'n' }
    else if c == 'ç' { 'c' }
    else { c }
}

/// Whether `c` is one of the fourteen accented letters.
pub open spec fn is_accented(c: char) -> bool {
    encode_char(c) != c
}

/// Whether `c` is one of the fourteen code letters.
pub open spec fn is_code_letter(c: char) -> bool {
    decode_char(c) != c
}

fn encode_one(c: char) -> (r: char)
    ensures
        r == encode_char(c),
{
    match c {
        'á' => 'A',
        'é' => 'E',
        'í' => 'I',
        'ó' => 'O',
        'ú' => 'U',
        'ñ' => 'N',
        'ü' => 'W',
        'ã' => 'B',
        'õ' => 'C',
        'ç' => 'D',
        'â' => 'F',
        'ê' => 'G',
        'ô' => 'J',
        'à' => 'L',
        _ => c,
    }
}

fn decode_one(c: char) -> (r: char)
    ensures
        r == decode_char(c),
{
    match c {
        'A' => 'á',
        'E' => 'é',
        'I' => 'í',
        'O' => 'ó',
        'U' => 'ú',
        'N' => 'ñ',
        'W' => 'ü',
        'B' => 'ã',
        'C' => 'õ',
        'D' => 'ç',
        'F' => 'â',
        'G' => 'ê',
        'J' => 'ô',
        'L' => 'à',
        _ => c,
    }
}

fn strip_one(c: char) -> (r: char)
    ensures
        r == strip_char(c),
{
    match c {
        'á' => 'a',
        'é' => 'e',
        'í' => 'i',
        'ó' => 'o',
        'ú' => 'u',
        'ñ' => 'n',
        'ü' => 'u',
        'ã' => 'a',
        'õ' => 'o',
        'ç' => 'c',
        'â' => 'a',
        'ê' => 'e',
        'ô' => 'o',
        'à' => 'a',
        _ => c,
    }
}

/// Encode Latin accented characters into single-byte uppercase ASCII characters.
pub fn encode_accents(s: &str) -> (res: String)
    ensures
        res@ == s@.map_values(|c: char| encode_char(c)),
{
    let cs = chars_of(s);
    let mut res = String::new();
    let mut i: usize = 0;
    while i < cs.len()
        invariant
            cs@ == s@,
            i <= cs@.len(),
            res@ == cs@.subrange(0, i as int).map_values(|c: char| encode_char(c)),
        decreases cs.len() - i,
    {
        let mapped = encode_one(cs[i]);
        push_char(&mut res, mapped);
        assert(cs@.subrange(0, i + 1) =~= cs@.subrange(0, i as int).push(cs@[i as int]));
        i = i + 1;
    }
    assert(cs@.subrange(0, i as int) =~= cs@);
    res
}

/// Decode single-byte uppercase ASCII characters back into their original
/// Latin accented characters for user-facing output.
pub fn decode_accents(s: &str) -> (res: String)
    ensures
        res@ == s@.map_values(|c: char| decode_char(c)),
{
    let cs = chars_of(s);
    let mut res = String::new();
    let mut i: usize = 0;
    while i < cs.len()
        invariant
            cs@ == s@,
            i <= cs@.len(),
            res@ == cs@.subrange(0, i as int).map_values(|c: char| decode_char(c)),
        decreases cs.len() - i,
    {
        let mapped = decode_one(cs[i]);
        push_char(&mut res, mapped);
        assert(cs@.subrange(0, i + 1) =~= cs@.subrange(0, i as int).push(cs@[i as int]));
        i = i + 1;
    }
    assert(cs@.subrange(0, i as int) =~= cs@);
    res
}

/// Strip Latin accented characters into their unaccented ASCII equivalents.
pub fn strip_accents(s: &str) -> (res: String)
    ensures
        res@ == s@.map_values(|c: char| strip_char(c)),
{
    let cs = chars_of(s);
    let mut res = String::new();
    let mut i: usize = 0;
    while i < cs.len()
        invariant
            cs@ == s@,
            i <= cs@.len(),
            res@ == cs@.subrange(0, i as int).map_values(|c: char| strip_char(c)),
        decreases cs.len() - i,
    {
        let mapped = strip_one(cs[i]);
        push_char(&mut res, mapped);
        assert(cs@.subrange(0, i + 1) =~= cs@.subrange(0, i as int).push(cs@[i as int]));
        i = i + 1;
    }
    assert(cs@.subrange(0, i as int) =~= cs@);
    res
}

/// Decoding undoes encoding for every text that holds no code letter.
pub proof fn law_decode_encode(s: Seq<char>)
    requires
        forall|k: int| 0 <= k < s.len() ==> !is_code_letter(#[trigger] s[k]),
    ensures
        s.map_values(|c: char| encode_char(c)).map_values(|c: char| decode_char(c)) == s,
{
    assert(s.map_values(|c: char| encode_char(c)).map_values(|c: char| decode_char(c)) =~= s);
}

/// Encoding undoes decoding for every text that holds no accented letter.
pub proof fn law_encode_decode(s: Seq<char>)
    requires
        forall|k: int| 0 <= k < s.len() ==> !is_accented(#[trigger] s[k]),
    ensures
        s.map_values(|c: char| decode_char(c)).map_values(|c: char| encode_char(c)) == s,
{
    assert(s.map_values(|c: char| decode_char(c)).map_values(|c: char| encode_char(c)) =~= s);
}

/// Encoding, decoding and stripping keep the number of characters, and
/// stripping twice is stripping once.
pub proof fn law_length_and_strip_idempotent(s: Seq<char>)
    ensures
        s.map_values(|c: char| encode_char(c)).len() == s.len(),
        s.map_values(|c: char| decode_char(c)).len() == s.len(),
        s.map_values(|c: char| strip_char(c)).map_values(|c: char| strip_char(c))
            == s.map_values(|c: char| strip_char(c)),
{
    assert(s.map_values(|c: char| strip_char(c)).map_values(|c: char| strip_char(c))
        =~= s.map_values(|c: char| strip_char(c)));
}

/// Stripping removes every accent: what `strip_char` gives is never one of
/// the fourteen accented letters; an accented letter becomes an ASCII
/// letter, and every other character stays as it is.
pub proof fn law_strip_removes_accents(c: char)
    ensures
        !is_accented(strip_char(c)),
        is_accented(c) ==> 97 <= (strip_char(c) as u32) <= 122,
        !is_accented(c) ==> strip_char(c) == c,
{
}

} // verus!
