//! Conversions between `str`/`String` and character sequences, and the
//! few Unicode case operations of `std` that the library relies on.

use vstd::prelude::*;

verus! {

/// What `str::to_lowercase` returns for a string with the given characters
/// (the Unicode lower-case mapping, which the library does not spell out).
pub uninterp spec fn unicode_lowercase(s: Seq<char>) -> Seq<char>;

/// Whether every character of `s` is ASCII.
pub open spec fn ascii_only(s: Seq<char>) -> bool {
    forall|i: int| 0 <= i < s.len() ==> (#[trigger] s[i] as u32) < 128
}

/// `c` with an ASCII capital letter turned into its small letter.
pub open spec fn ascii_lower_char(c: char) -> char {
    if 65 <= (c as u32) <= 90 { ((c as u32) + 32) as char } else { c }
}

/// The ASCII lower-case form of `s`: capital letters A to Z become small,
/// every other character stays.
pub open spec fn ascii_lowercase(s: Seq<char>) -> Seq<char> {
    s.map_values(|c: char| ascii_lower_char(c))
}

/// The lower-case form of a string, as `str::to_lowercase` gives it: for
/// ASCII text, its ASCII lower-case form.
pub closed spec fn spec_to_lowercase(s: Seq<char>) -> Seq<char> {
    if ascii_only(s) { ascii_lowercase(s) } else { unicode_lowercase(s) }
}

/// Lower-casing ASCII text only turns capital letters A to Z into small
/// ones.
pub proof fn lemma_ascii_lowercase(s: Seq<char>)
    requires
        ascii_only(s),
    ensures
        spec_to_lowercase(s) == ascii_lowercase(s),
{
}

/// The first character that `char::to_uppercase` yields for `c`.
pub uninterp spec fn spec_upper_first(c: char) -> char;

/// The first character that `char::to_lowercase` yields for `c`.
pub uninterp spec fn spec_lower_first(c: char) -> char;

/// What `char::is_alphanumeric` returns for `c`.
pub uninterp spec fn spec_is_alphanumeric(c: char) -> bool;

/// What `char::is_uppercase` returns for `c`.
pub uninterp spec fn spec_is_uppercase(c: char) -> bool;

/// Whether `c` has the Unicode White_Space property (the code points that
/// `char::is_whitespace` accepts): tab, line feed, vertical tab, form feed,
/// carriage return, space, next line, no-break space, ogham space mark,
/// the spaces from en quad to hair space, line and paragraph separators,
/// narrow no-break space, medium mathematical space and ideographic space.
pub open spec fn spec_is_whitespace(c: char) -> bool {
    let n = c as u32;
    ||| 0x9 <= n <= 0xD
    ||| n == 0x20
    ||| n == 0x85
    ||| n == 0xA0
    ||| n == 0x1680
    ||| 0x2000 <= n <= 0x200A
    ||| n == 0x2028
    ||| n == 0x2029
    ||| n == 0x202F
    ||| n == 0x205F
    ||| n == 0x3000
}

/// Collects the characters of `s` (`str::chars`) into a vector.
/// Claimed: the vector holds exactly the characters of `s`, in order; and,
/// since a `str` never spans more than `isize::MAX` bytes and every
/// character takes at least one byte, there are at most `isize::MAX` of them.
#[verifier::external_body]
pub fn chars_of(s: &str) -> (v: Vec<char>)
    ensures
        v@ == s@,
        v@.len() <= isize::MAX,
{
    s.chars().collect()
}

/// Builds a `String` from characters (`FromIterator<char> for String`).
/// Claimed: the string holds exactly the given characters, in order.
#[verifier::external_body]
pub fn string_of(v: &Vec<char>) -> (s: String)
    ensures
        s@ == v@,
{
    v.iter().collect()
}

/// Appends one character to a string (`String::push`).
/// Claimed: the string afterwards is the old one followed by `c`.
#[verifier::external_body]
pub fn push_char(s: &mut String, c: char)
    ensures
        final(s)@ == old(s)@.push(c),
{
    s.push(c)
}

/// Appends a string slice (`String::push_str`).
/// Claimed: the string afterwards is the old one followed by `t`.
#[verifier::external_body]
pub fn push_str(s: &mut String, t: &str)
    ensures
        final(s)@ == old(s)@ + t@,
{
    s.push_str(t)
}

/// Lower-cases a string (`str::to_lowercase`).
/// Claimed: for ASCII text, the capital letters A to Z become small and
/// every other character stays, as std documents for ASCII; for other
/// text, the lower-case form named by `unicode_lowercase`, whose Unicode
/// case tables are not stated.
#[verifier::external_body]
pub fn to_lowercase(s: &str) -> (r: String)
    ensures
        r@ == spec_to_lowercase(s@),
        ascii_only(s@) ==> r@ == ascii_lowercase(s@),
        !ascii_only(s@) ==> r@ == unicode_lowercase(s@),
{
    s.to_lowercase()
}

/// First character of `char::to_uppercase(c)`, or `c` itself when that
/// iterator is empty.  Claimed: equal to the named function of `c`.
#[verifier::external_body]
pub fn upper_first(c: char) -> (r: char)
    ensures
        r == spec_upper_first(c),
{
    c.to_uppercase().next().unwrap_or(c)
}

/// First character of `char::to_lowercase(c)`, or `c` itself when that
/// iterator is empty.  Claimed: equal to the named function of `c`.
#[verifier::external_body]
pub fn lower_first(c: char) -> (r: char)
    ensures
        r == spec_lower_first(c),
{
    c.to_lowercase().next().unwrap_or(c)
}

/// `char::is_alphanumeric`.  Claimed: equal to the named predicate of `c`.
#[verifier::external_body]
pub fn is_alphanumeric(c: char) -> (r: bool)
    ensures
        r == spec_is_alphanumeric(c),
{
    c.is_alphanumeric()
}

/// `char::is_uppercase`.  Claimed: equal to the named predicate of `c`.
#[verifier::external_body]
pub fn is_uppercase(c: char) -> (r: bool)
    ensures
        r == spec_is_uppercase(c),
{
    c.is_uppercase()
}

/// Whether `c` is whitespace, as `char::is_whitespace` tells it.
pub fn is_whitespace(c: char) -> (r: bool)
    ensures
        r == spec_is_whitespace(c),
{
    let n = c as u32;
    (0x9 <= n && n <= 0xD) || n == 0x20 || n == 0x85 || n == 0xA0 || n == 0x1680
        || (0x2000 <= n && n <= 0x200A) || n == 0x2028 || n == 0x2029 || n == 0x202F || n == 0x205F
        || n == 0x3000
}

/// Whether two character vectors are equal, element by element.
pub fn chars_eq(a: &Vec<char>, b: &Vec<char>) -> (r: bool)
    ensures
        r == (a@ == b@),
{
    if a.len() != b.len() {
        return false;
    }
    let mut i: usize = 0;
    while i < a.len()
        invariant
            a@.len() == b@.len(),
            i <= a@.len(),
            forall|k: int| 0 <= k < i ==> a@[k] == b@[k],
        decreases a.len() - i,
    {
        if a[i] != b[i] {
            return false;
        }
        i = i + 1;
    }
    assert(a@ =~= b@);
    true
}

/// Whether two strings hold the same characters.
pub fn str_eq(a: &str, b: &str) -> (r: bool)
    ensures
        r == (a@ == b@),
{
    let av = chars_of(a);
    let bv = chars_of(b);
    chars_eq(&av, &bv)
}

/// `a` comes before `b` in code point order.
pub open spec fn lex_lt(a: Seq<char>, b: Seq<char>) -> bool
    decreases a.len(),
{
    if b.len() == 0 {
        false
    } else if a.len() == 0 {
        true
    } else if a[0] != b[0] {
        (a[0] as u32) < (b[0] as u32)
    } else {
        lex_lt(a.drop_first(), b.drop_first())
    }
}

pub proof fn lemma_lex_irreflexive(a: Seq<char>)
    ensures
        !lex_lt(a, a),
    decreases a.len(),
{
    if a.len() > 0 {
        lemma_lex_irreflexive(a.drop_first());
    }
}

pub proof fn lemma_lex_trans(a: Seq<char>, b: Seq<char>, c: Seq<char>)
    requires
        lex_lt(a, b),
        lex_lt(b, c),
    ensures
        lex_lt(a, c),
    decreases a.len(),
{
    if a.len() > 0 && b.len() > 0 && c.len() > 0 && a[0] == b[0] && b[0] == c[0] {
        lemma_lex_trans(a.drop_first(), b.drop_first(), c.drop_first());
    }
}

/// Of two different sequences, one comes before the other.
pub proof fn lemma_lex_total(a: Seq<char>, b: Seq<char>)
    requires
        a != b,
    ensures
        lex_lt(a, b) || lex_lt(b, a),
    decreases a.len(),
{
    if a.len() == 0 {
        assert(b.len() != 0) by {
            if b.len() == 0 {
                assert(a =~= b);
            }
        }
    } else if b.len() == 0 {
    } else if a[0] == b[0] {
        assert(a.drop_first() != b.drop_first()) by {
            if a.drop_first() == b.drop_first() {
                assert(a =~= seq![a[0]] + a.drop_first());
                assert(b =~= seq![b[0]] + b.drop_first());
            }
        }
        lemma_lex_total(a.drop_first(), b.drop_first());
    } else {
        let x = a[0];
        let y = b[0];
        if (x as u32) == (y as u32) {
            vstd::utf8::char_u32_cast(x, x as u32);
            vstd::utf8::char_u32_cast(y, y as u32);
        }
    }
}

/// Whether `a` comes before `b` in code point order.
pub fn str_lt(a: &str, b: &str) -> (r: bool)
    ensures
        r == lex_lt(a@, b@),
{
    let av = chars_of(a);
    let bv = chars_of(b);
    let mut i: usize = 0;
    assert(av@.subrange(0, av@.len() as int) =~= av@);
    assert(bv@.subrange(0, bv@.len() as int) =~= bv@);
    while i < av.len() && i < bv.len() && av[i] == bv[i]
        invariant
            i <= av@.len(),
            i <= bv@.len(),
            lex_lt(a@, b@) == lex_lt(av@.subrange(i as int, av@.len() as int), bv@.subrange(i as int, bv@.len() as int)),
            av@ == a@,
            bv@ == b@,
        decreases av.len() - i,
    {
        proof {
            let x = av@.subrange(i as int, av@.len() as int);
            let y = bv@.subrange(i as int, bv@.len() as int);
            assert(x.drop_first() =~= av@.subrange(i + 1, av@.len() as int));
            assert(y.drop_first() =~= bv@.subrange(i + 1, bv@.len() as int));
        }
        i = i + 1;
    }
    if i == bv.len() {
        false
    } else if i == av.len() {
        true
    } else {
        (av[i] as u32) < (bv[i] as u32)
    }
}

} // verus!
