//! Percent-encoded names and JSON Pointers into a schema document.
use vstd::prelude::*;
use vstd::utf8::{
    decode_utf8, encode_utf8, valid_utf8, encode_scalar, has_width_1_encoding, char_is_scalar,
    char_u32_cast, encode_utf8_valid_utf8, encode_utf8_decode_utf8,
};
use crate::json::{
    Json, JsonValue, entries_view, items_view, keys_of, string_keys, first_index, find_key,
    assoc_get, lemma_first_index_bounds, lemma_object_view, lemma_array_view,
};
use crate::text::{
    after_last, after_last_char, chars_of, is_ascii_digit, replace_all, replace_str, split_char,
    split_str, strings_view, trim_start_char, trim_start_chars,
};

verus! {

// ---------------------------------------------------------------------------
// Percent decoding
// ---------------------------------------------------------------------------
/// What `String::from_utf8_lossy` makes of a byte sequence.
pub uninterp spec fn utf8_lossy(bytes: Seq<u8>) -> Seq<char>;

/// `String::from_utf8_lossy`: the text of `bytes`, with each invalid UTF-8
/// sequence replaced by U+FFFD; valid UTF-8 comes back as its characters.
#[verifier::external_body]
fn from_utf8_lossy(bytes: &[u8]) -> (r: String)
    ensures
        r@ == utf8_lossy(bytes@),
        valid_utf8(bytes@) ==> r@ == decode_utf8(bytes@),
{
    String::from_utf8_lossy(bytes).into_owned()
}

/// The value of an ASCII hexadecimal digit.
pub open spec fn hex_value(b: u8) -> Option<u8> {
    if 0x30 <= b && b <= 0x39 {
        Some((b - 0x30) as u8)
    } else if 0x61 <= b && b <= 0x66 {
        Some((b - 0x61 + 10) as u8)
    } else if 0x41 <= b && b <= 0x46 {
        Some((b - 0x41 + 10) as u8)
    } else {
        None
    }
}

/// `bytes` with each `%` followed by two hexadecimal digits replaced by the
/// byte they spell.
pub open spec fn percent_decode_bytes(bytes: Seq<u8>) -> Seq<u8>
    decreases bytes.len(),
{
    if bytes.len() == 0 {
        Seq::empty()
    } else if bytes[0] == 0x25 && 2 < bytes.len() && hex_value(bytes[1]) is Some && hex_value(
        bytes[2],
    ) is Some {
        seq![(hex_value(bytes[1]).unwrap() * 16 + hex_value(bytes[2]).unwrap()) as u8]
            + percent_decode_bytes(bytes.skip(3))
    } else {
        seq![bytes[0]] + percent_decode_bytes(bytes.drop_first())
    }
}

/// The text `s` with its percent escapes decoded, read as UTF-8 with invalid
/// sequences replaced.
pub open spec fn percent_decoded(s: Seq<char>) -> Seq<char> {
    utf8_lossy(percent_decode_bytes(encode_utf8(s)))
}

proof fn lemma_scalar_has_no_percent(c: char)
    requires
        c != '%',
    ensures
        forall|i: int| 0 <= i < encode_scalar(c as u32).len() ==> #[trigger] encode_scalar(c as u32)[i] != 0x25,
{
    let u = c as u32;
    char_is_scalar(c);
    if has_width_1_encoding(u) {
        if u == 0x25 {
            char_u32_cast(c, u);
            char_u32_cast('%', '%' as u32);
            assert('%' as u32 == 0x25);
        }
        assert((u & 0x7F) as u8 == u) by (bit_vector)
            requires
                u <= 0x7F,
        ;
    } else {
        lemma_multibyte_not_percent(u);
    }
}

proof fn lemma_multibyte_not_percent(x: u32)
    by (bit_vector)
    ensures
        (0x80u8 | ((x & 0x3F) as u8)) != 0x25u8,
        (0x80u8 | (((x >> 6u32) & 0x3F) as u8)) != 0x25u8,
        (0x80u8 | (((x >> 12u32) & 0x3F) as u8)) != 0x25u8,
        (0xC0u8 | (((x >> 6u32) & 0x1F) as u8)) != 0x25u8,
        (0xE0u8 | (((x >> 12u32) & 0x0F) as u8)) != 0x25u8,
        (0xF0u8 | (((x >> 18u32) & 0x7) as u8)) != 0x25u8,
{
}

proof fn lemma_encoding_has_no_percent(s: Seq<char>)
    requires
        !s.contains('%'),
    ensures
        forall|i: int| 0 <= i < encode_utf8(s).len() ==> #[trigger] encode_utf8(s)[i] != 0x25,
    decreases s.len(),
{
    if s.len() > 0 {
        assert(s[0] != '%') by {
            if s[0] == '%' {
                assert(s.contains(s[0]));
            }
        }
        lemma_scalar_has_no_percent(s[0]);
        assert(!s.drop_first().contains('%')) by {
            if s.drop_first().contains('%') {
                let k = choose|k: int| 0 <= k < s.drop_first().len() && s.drop_first()[k] == '%';
                assert(s[k + 1] == '%');
            }
        }
        lemma_encoding_has_no_percent(s.drop_first());
        let a = encode_scalar(s[0] as u32);
        let b = encode_utf8(s.drop_first());
        assert forall|i: int| 0 <= i < encode_utf8(s).len() implies #[trigger] encode_utf8(s)[i] != 0x25 by {
            if i < a.len() {
                assert(encode_utf8(s)[i] == a[i]);
            } else {
                assert(encode_utf8(s)[i] == b[i - a.len()]);
            }
        }
    }
}

proof fn lemma_percent_decode_bytes_plain(b: Seq<u8>)
    requires
        forall|i: int| 0 <= i < b.len() ==> #[trigger] b[i] != 0x25,
    ensures
        percent_decode_bytes(b) == b,
    decreases b.len(),
{
    if b.len() > 0 {
        assert forall|i: int| 0 <= i < b.drop_first().len() implies #[trigger] b.drop_first()[i] != 0x25 by {
            assert(b.drop_first()[i] == b[i + 1]);
        }
        lemma_percent_decode_bytes_plain(b.drop_first());
        assert(seq![b[0]] + b.drop_first() =~= b);
    }
}

fn hex(byte: u8) -> (r: Option<u8>)
    ensures
        r == hex_value(byte),
        r matches Some(v) ==> v < 16,
{
    if 0x30 <= byte && byte <= 0x39 {
        Some(byte - 0x30)
    } else if 0x61 <= byte && byte <= 0x66 {
        Some(byte - 0x61 + 10)
    } else if 0x41 <= byte && byte <= 0x46 {
        Some(byte - 0x41 + 10)
    } else {
        None
    }
}

/// `input` with its percent escapes decoded.
pub fn percent_decode(input: &str) -> (r: String)
    ensures
        r@ == percent_decoded(input@),
        !input@.contains('%') ==> r@ == input@,
{
    let bytes = input.as_bytes();
    let ghost b = bytes@;
    let mut output: Vec<u8> = Vec::new();
    let mut index: usize = 0;
    assert(b.skip(0) =~= b);
    while index < bytes.len()
        invariant
            index <= b.len(),
            b == bytes@,
            output@ + percent_decode_bytes(b.skip(index as int)) == percent_decode_bytes(b),
        decreases b.len() - index,
    {
        let ghost rest = b.skip(index as int);
        if bytes[index] == 0x25 && bytes.len() - index > 2 {
            match (hex(bytes[index + 1]), hex(bytes[index + 2])) {
                (Some(hi), Some(lo)) => {
                    let v: u8 = (hi << 4u8) | lo;
                    assert(v == hi * 16 + lo) by (bit_vector)
                        requires
                            hi < 16,
                            lo < 16,
                            v == (hi << 4u8) | lo,
                    ;
                    assert(rest[1] == bytes@[index + 1]);
                    assert(rest[2] == bytes@[index + 2]);
                    assert(rest.skip(3) =~= b.skip(index + 3));
                    let ghost before = output@;
                    output.push(v);
                    assert(before + (seq![v] + percent_decode_bytes(rest.skip(3))) =~= output@
                        + percent_decode_bytes(b.skip(index + 3)));
                    index = index + 3;
                    continue ;
                },
                _ => {},
            }
        }
        assert(rest.drop_first() =~= b.skip(index + 1));
        let ghost before = output@;
        output.push(bytes[index]);
        assert(before + (seq![rest[0]] + percent_decode_bytes(rest.drop_first())) =~= output@
            + percent_decode_bytes(b.skip(index + 1)));
        index = index + 1;
    }
    assert(b.skip(index as int) =~= Seq::<u8>::empty());
    assert(output@ + Seq::<u8>::empty() =~= output@);
    proof {
        if !input@.contains('%') {
            lemma_encoding_has_no_percent(input@);
            lemma_percent_decode_bytes_plain(b);
            encode_utf8_valid_utf8(input@);
            encode_utf8_decode_utf8(input@);
        }
    }
    from_utf8_lossy(output.as_slice())
}

/// The name a `$ref` points at: its last path segment, percent-decoded,
/// without leading `#`.
pub open spec fn pointer_ref_name(reference: Seq<char>) -> Seq<char> {
    trim_start_char(percent_decoded(after_last(reference, '/')), '#')
}

/// The name a `$ref` or a schema name points at.
pub fn decode_ref_name(reference: &str) -> (r: String)
    ensures
        r@ == pointer_ref_name(reference@),
        !after_last(reference@, '/').contains('%') ==> r@ == trim_start_char(
            after_last(reference@, '/'),
            '#',
        ),
{
    let cs = chars_of(reference);
    let tail = after_last_char(&cs, '/');
    let decoded = percent_decode(tail.as_str());
    let dc = chars_of(decoded.as_str());
    trim_start_chars(&dc, '#')
}

/// A JSON Pointer reference token, decoded: percent escapes, then `~1` as
/// `/`, then `~0` as `~`.
pub open spec fn pointer_token(token: Seq<char>) -> Seq<char> {
    replace_all(replace_all(percent_decoded(token), "~1"@, "/"@), "~0"@, "~"@)
}

pub fn decode_pointer_token(token: &str) -> (r: String)
    ensures
        r@ == pointer_token(token@),
        !token@.contains('%') ==> r@ == replace_all(replace_all(token@, "~1"@, "/"@), "~0"@, "~"@),
{
    let decoded = percent_decode(token);
    let a = replace_str(decoded.as_str(), "~1", "/");
    replace_str(a.as_str(), "~0", "~")
}

// ---------------------------------------------------------------------------
// Array indices
// ---------------------------------------------------------------------------
/// The number written by a sequence of decimal digits.
pub open spec fn digits_value(s: Seq<char>) -> nat
    decreases s.len(),
{
    if s.len() == 0 {
        0
    } else {
        digits_value(s.drop_last()) * 10 + ((s.last() as u32) - ('0' as u32)) as nat
    }
}

/// What `str::parse::<usize>` gives: an optional `+` and at least one
/// decimal digit, of a value that fits in `usize`.
pub open spec fn parse_index(s: Seq<char>) -> Option<usize> {
    parse_digits(without_plus(s))
}

/// `s` without one leading `+`.
pub open spec fn without_plus(s: Seq<char>) -> Seq<char> {
    if s.len() > 0 && s[0] == '+' {
        s.drop_first()
    } else {
        s
    }
}

pub open spec fn all_digits(s: Seq<char>) -> bool {
    forall|i: int| 0 <= i < s.len() ==> is_ascii_digit(#[trigger] s[i])
}

/// The value of a non-empty sequence of decimal digits that fits in `usize`.
pub open spec fn parse_digits(digits: Seq<char>) -> Option<usize> {
    if digits.len() > 0 && all_digits(digits) && digits_value(digits) <= usize::MAX {
        Some(digits_value(digits) as usize)
    } else {
        None
    }
}

proof fn lemma_digits_monotone(s: Seq<char>, i: int)
    requires
        0 <= i <= s.len(),
        forall|j: int| 0 <= j < s.len() ==> is_ascii_digit(#[trigger] s[j]),
    ensures
        digits_value(s.take(i)) <= digits_value(s),
    decreases s.len() - i,
{
    if i < s.len() {
        assert(s.drop_last().take(i) =~= s.take(i));
        assert forall|j: int| 0 <= j < s.drop_last().len() implies is_ascii_digit(
            #[trigger] s.drop_last()[j],
        ) by {
            assert(s.drop_last()[j] == s[j]);
        }
        lemma_digits_monotone(s.drop_last(), i);
    } else {
        assert(s.take(i) =~= s);
    }
}

/// The array index `s` spells.
pub fn parse_usize(s: &str) -> (r: Option<usize>)
    ensures
        r == parse_index(s@),
{
    let cs = chars_of(s);
    let start: usize = if cs.len() > 0 && cs[0] == '+' {
        1
    } else {
        0
    };
    let ghost digits = without_plus(s@);
    assert(digits =~= cs@.skip(start as int));
    if cs.len() == start {
        return None;
    }
    let mut value: usize = 0;
    let mut i: usize = start;
    assert(digits.take(0) =~= Seq::<char>::empty());
    while i < cs.len()
        invariant
            start <= i <= cs@.len(),
            digits == cs@.skip(start as int),
            digits == without_plus(s@),
            digits.len() > 0,
            value == digits_value(digits.take(i - start)),
            forall|j: int| 0 <= j < i - start ==> is_ascii_digit(#[trigger] digits[j]),
        decreases cs@.len() - i,
    {
        let c = cs[i];
        assert(digits[i - start] == c);
        if !('0' <= c && c <= '9') {
            assert(0 <= i - start < digits.len());
            assert(!is_ascii_digit(digits[i - start]));
            assert(!all_digits(digits));
            assert(parse_index(s@) is None);
            return None;
        }
        assert(digits.take(i - start + 1).drop_last() =~= digits.take(i - start));
        let d: usize = ((c as u32) - ('0' as u32)) as usize;
        let next = match value.checked_mul(10) {
            Some(m) => m.checked_add(d),
            None => None,
        };
        match next {
            Some(n) => {
                value = n;
            },
            None => {
                proof {
                    assert(0 <= i - start < digits.len());
                    assert(digits_value(digits.take(i - start + 1)) > usize::MAX);
                    if all_digits(digits) {
                        lemma_digits_monotone(digits, i - start + 1);
                        assert(digits_value(digits) > usize::MAX);
                    }
                    assert(parse_index(s@) is None);
                }
                return None;
            },
        }
        i = i + 1;
    }
    assert(digits.take(i - start) =~= digits);
    Some(value)
}


// ---------------------------------------------------------------------------
// JSON Pointers
// ---------------------------------------------------------------------------
/// One step of a JSON Pointer: the member or array element that `token`
/// names.
pub open spec fn pointer_step(current: JsonValue, token: Seq<char>) -> Option<JsonValue> {
    let t = pointer_token(token);
    match current {
        JsonValue::Object(entries) => assoc_get(entries, t),
        JsonValue::Array(items) => match parse_index(t) {
            Some(i) => if (i as int) < items.len() {
                Some(items[i as int])
            } else {
                None
            },
            None => None,
        },
        _ => None,
    }
}

pub open spec fn follow_tokens(current: JsonValue, tokens: Seq<Seq<char>>) -> Option<JsonValue>
    decreases tokens.len(),
{
    if tokens.len() == 0 {
        Some(current)
    } else {
        match pointer_step(current, tokens[0]) {
            Some(next) => follow_tokens(next, tokens.drop_first()),
            None => None,
        }
    }
}

/// The value that a JSON Pointer names in `schema`: the reference tokens
/// after the first `/`-separated piece are followed in turn.
pub open spec fn resolve_pointer(schema: JsonValue, pointer: Seq<char>) -> Option<JsonValue> {
    follow_tokens(schema, split_char(pointer, '/').drop_first())
}

/// The value that `pointer` names in `schema`.
pub fn resolve_json_pointer<'a>(schema: &'a Json, pointer: &str) -> (r: Option<&'a Json>)
    ensures
        r matches Some(v) ==> resolve_pointer(schema@, pointer@) == Some(v@),
        r is None ==> resolve_pointer(schema@, pointer@) is None,
{
    let tokens = split_str(pointer, '/');
    let ghost tv = strings_view(tokens@);
    proof {
        crate::text::lemma_split_nonempty(pointer@, '/');
    }
    let mut current: &'a Json = schema;
    let mut i: usize = 1;
    assert(tv.skip(1) =~= tv.drop_first());
    while i < tokens.len()
        invariant
            1 <= i <= tokens@.len(),
            tv == strings_view(tokens@),
            resolve_pointer(schema@, pointer@) == follow_tokens(current@, tv.skip(i as int)),
        decreases tokens@.len() - i,
    {
        let ghost rest = tv.skip(i as int);
        assert(rest[0] == tokens@[i as int]@);
        assert(rest.drop_first() =~= tv.skip(i + 1));
        let token = decode_pointer_token(tokens[i].as_str());
        let next: Option<&'a Json> = match current {
            Json::Object(entries) => {
                proof {
                    lemma_object_view(*current);
                    assert(keys_of(entries_view(entries@)) =~= string_keys(entries@));
                }
                match find_key(entries, token.as_str()) {
                    Some(k) => {
                        proof {
                            lemma_first_index_bounds(string_keys(entries@), token@);
                        }
                        Some(&entries[k].1)
                    },
                    None => None,
                }
            },
            Json::Array(items) => {
                proof {
                    lemma_array_view(*current);
                }
                match parse_usize(token.as_str()) {
                    Some(index) => {
                        if index < items.len() {
                            Some(&items[index])
                        } else {
                            None
                        }
                    },
                    None => None,
                }
            },
            _ => None,
        };
        match next {
            Some(n) => {
                current = n;
            },
            None => {
                return None;
            },
        }
        i = i + 1;
    }
    assert(tv.skip(i as int) =~= Seq::<Seq<char>>::empty());
    Some(current)
}

} // verus!
