use vstd::prelude::*;
use vstd::utf8::*;

verus! {

/// What `regex` makes of a pattern and a text: `None` where the pattern does not compile,
/// else whether the text matches.
pub uninterp spec fn regex_match(pattern: Seq<char>, text: Seq<char>) -> Option<bool>;

/// The first char of the uppercase mapping of `c`.
pub uninterp spec fn upper_first(c: char) -> char;

/// Relies on `regex::Regex::new`, which fails on a pattern that does not compile, and on
/// `Regex::is_match`, which tells whether the text holds a match.
#[verifier::external_body]
fn pattern_matches(pattern: &str, text: &str) -> (r: Option<bool>)
    ensures
        r == regex_match(pattern@, text@),
{
    match regex::Regex::new(pattern) {
        Ok(re) => Some(re.is_match(text)),
        Err(_) => None,
    }
}

/// Relies on `char::to_uppercase`, which always yields at least one char: its first one.
#[verifier::external_body]
fn get_uppercase(c: &char) -> (r: char)
    ensures
        r == upper_first(*c),
{
    c.to_uppercase().next().unwrap()
}

/// Relies on `str::chars`: the chars of the string, in order.
#[verifier::external_body]
fn chars_of(s: &str) -> (r: Vec<char>)
    ensures
        r@ == s@,
{
    s.chars().collect()
}

/// Relies on `String::from_utf8`: succeeds exactly on well-formed UTF-8, with the
/// decoded chars.
#[verifier::external_body]
fn string_from_utf8(bytes: Vec<u8>) -> (r: Option<String>)
    ensures
        r is Some <==> valid_utf8(bytes@),
        r is Some ==> r->0@ == decode_utf8(bytes@),
{
    String::from_utf8(bytes).ok()
}

/// The pattern a country code must match: two ASCII letters, in either case.
pub open spec fn code_pattern() -> Seq<char> {
    "(?i)^[a-z]{2}$"@
}

/// Whether `isocode` is a two-letter code, in either case.
pub fn is_code_valid(isocode: &str) -> (r: bool)
    ensures
        r == (regex_match(code_pattern(), isocode@) == Some(true)),
{
    proof {
        reveal_strlit("(?i)^[a-z]{2}$");
    }
    match pattern_matches("(?i)^[a-z]{2}$", isocode) {
        Some(b) => b,
        None => false,
    }
}

/// The UTF-16 code unit of a char of the Basic Multilingual Plane.
fn get_utf16(c: &char) -> (r: u16)
    requires
        (*c as u32) < 0x10000,
    ensures
        r as u32 == *c as u32,
{
    *c as u32 as u16
}

/// The UTF-8 form of a value up to 0x10FFFF, by the width its size calls for (surrogates
/// included); nothing above that.
pub open spec fn utf8_form(cp: u32) -> Seq<u8> {
    if cp <= 0x7F {
        seq![leading_byte_width_1(cp)]
    } else if cp <= 0x7FF {
        seq![leading_byte_width_2(cp), last_continuation_byte(cp)]
    } else if cp <= 0xFFFF {
        seq![leading_byte_width_3(cp), second_last_continuation_byte(cp), last_continuation_byte(cp)]
    } else if cp <= 0x10FFFF {
        seq![
            leading_byte_width_4(cp),
            third_last_continuation_byte(cp),
            second_last_continuation_byte(cp),
            last_continuation_byte(cp),
        ]
    } else {
        Seq::empty()
    }
}

/// The UTF-8 bytes of `codepoint`: the standard encoding of every Unicode scalar value,
/// three bytes for a surrogate, and nothing above 0x10FFFF.
pub fn to_utf8(codepoint: u32) -> (r: Vec<u8>)
    ensures
        r@ == utf8_form(codepoint),
        is_scalar(codepoint) ==> r@ == encode_scalar(codepoint),
{
    let cp = codepoint;
    let mut bytes: Vec<u8> = Vec::with_capacity(4);
    if cp <= 0x7F {
        assert((cp as u8) == ((cp & 0x7F) as u8)) by (bit_vector)
            requires
                cp <= 0x7F,
        ;
        bytes.push(cp as u8);
        assert(bytes@ =~= utf8_form(cp));
        return bytes;
    }
    if cp <= 0x7FF {
        assert(((0xC0 | (cp >> 6)) as u8) == (0xC0 | ((cp >> 6) & 0x1F) as u8) && ((0x80 | (cp
            & 0x3F)) as u8) == (0x80 | (cp & 0x3F) as u8)) by (bit_vector)
            requires
                cp <= 0x7FF,
        ;
        bytes.push((0xC0 | (cp >> 6)) as u8);
        bytes.push((0x80 | (cp & 0x3F)) as u8);
        assert(bytes@ =~= utf8_form(cp));
        return bytes;
    }
    if cp <= 0xFFFF {
        assert(((0xE0 | (cp >> 12)) as u8) == (0xE0 | ((cp >> 12) & 0x0F) as u8) && ((0x80 | ((
        cp >> 6) & 0x3F)) as u8) == (0x80 | ((cp >> 6) & 0x3F) as u8) && ((0x80 | (cp & 0x3F))
            as u8) == (0x80 | (cp & 0x3F) as u8)) by (bit_vector)
            requires
                cp <= 0xFFFF,
        ;
        bytes.push((0xE0 | (cp >> 12)) as u8);
        bytes.push((0x80 | ((cp >> 6) & 0x3F)) as u8);
        bytes.push((0x80 | (cp & 0x3F)) as u8);
        assert(bytes@ =~= utf8_form(cp));
        return bytes;
    }
    if cp <= 0x10FFFF {
        assert(((0xF0 | (cp >> 18)) as u8) == (0xF0 | ((cp >> 18) & 0x7) as u8) && ((0x80 | ((cp
            >> 12) & 0x3F)) as u8) == (0x80 | ((cp >> 12) & 0x3F) as u8) && ((0x80 | ((cp >> 6)
            & 0x3F)) as u8) == (0x80 | ((cp >> 6) & 0x3F) as u8) && ((0x80 | (cp & 0x3F)) as u8)
            == (0x80 | (cp & 0x3F) as u8)) by (bit_vector)
            requires
                cp <= 0x10FFFF,
        ;
        bytes.push((0xF0 | (cp >> 18)) as u8);
        bytes.push((0x80 | ((cp >> 12) & 0x3F)) as u8);
        bytes.push((0x80 | ((cp >> 6) & 0x3F)) as u8);
        bytes.push((0x80 | (cp & 0x3F)) as u8);
        assert(bytes@ =~= utf8_form(cp));
        return bytes;
    }
    assert(bytes@ =~= utf8_form(cp));
    bytes
}

/// Distance from an uppercase ASCII letter to its regional indicator symbol.
pub const FLAG_OFFSET: u32 = 127397;

/// The regional indicator for a char whose uppercase form lies in the Basic Multilingual
/// Plane.
pub open spec fn flag_codepoint(c: char) -> u32 {
    (FLAG_OFFSET + upper_first(c) as u32) as u32
}

/// Every char's uppercase form lies in the Basic Multilingual Plane.
pub open spec fn uppercase_in_bmp(cs: Seq<char>) -> bool {
    forall|i: int| 0 <= i < cs.len() ==> (upper_first(#[trigger] cs[i]) as u32) < 0x10000
}

/// The UTF-8 bytes of the regional indicators of the first `n` chars.
pub open spec fn flag_bytes(cs: Seq<char>, n: nat) -> Seq<u8>
    decreases n,
{
    if n == 0 || n > cs.len() {
        Seq::empty()
    } else {
        flag_bytes(cs, (n - 1) as nat) + utf8_form(flag_codepoint(cs[n - 1]))
    }
}

/// The flag emoji of a two-letter country code: each letter, uppercased, becomes its
/// regional indicator symbol. `None` for anything but a two-letter code.
pub fn get_flag_emoji(isocode: &str) -> (r: Option<String>)
    ensures
        regex_match(code_pattern(), isocode@) != Some(true) ==> r is None,
        regex_match(code_pattern(), isocode@) == Some(true) && !uppercase_in_bmp(isocode@)
            ==> r is None,
        regex_match(code_pattern(), isocode@) == Some(true) && uppercase_in_bmp(isocode@) ==> {
            let b = flag_bytes(isocode@, isocode@.len());
            &&& (r is Some <==> valid_utf8(b))
            &&& (r is Some ==> r->0@ == decode_utf8(b))
        },
{
    if !is_code_valid(isocode) {
        return None;
    }
    let chars = chars_of(isocode);
    let mut bytes: Vec<u8> = Vec::with_capacity(8);
    let mut i: usize = 0;
    while i < chars.len()
        invariant
            i <= chars@.len(),
            chars@ == isocode@,
            forall|k: int| 0 <= k < i ==> (upper_first(#[trigger] chars@[k]) as u32) < 0x10000,
            bytes@ == flag_bytes(chars@, i as nat),
        decreases chars@.len() - i,
    {
        let c = get_uppercase(&chars[i]);
        if c as u32 >= 0x10000 {
            return None;
        }
        let unit = get_utf16(&c);
        let char_bytes = to_utf8(FLAG_OFFSET + unit as u32);
        let mut k: usize = 0;
        let ghost before = bytes@;
        while k < char_bytes.len()
            invariant
                k <= char_bytes@.len(),
                bytes@ == before + char_bytes@.take(k as int),
            decreases char_bytes@.len() - k,
        {
            bytes.push(char_bytes[k]);
            assert(bytes@ =~= before + char_bytes@.take(k + 1));
            k += 1;
        }
        assert(char_bytes@.take(k as int) =~= char_bytes@);
        i += 1;
    }
    string_from_utf8(bytes)
}

} // verus!
