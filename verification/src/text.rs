//! Text as sequences of characters: decimal and hexadecimal numerals, ASCII
//! case folding, UTF-16 and the byte order of strings.
use vstd::prelude::*;
use vstd::utf8::{decode_utf8, encode_utf8, valid_utf8};

verus! {

/// `String::push` appends one character.
pub assume_specification[ String::push ](text: &mut String, ch: char)
    ensures
        final(text)@ == old(text)@.push(ch),
;

/// `char::from_u32` yields a character for every Unicode scalar value, and for
/// no other number.
pub assume_specification[ char::from_u32 ](value: u32) -> (result: Option<char>)
    ensures
        result is Some <==> is_scalar_value(value as int),
        result matches Some(ch) ==> ch as u32 == value,
;

/// All characters of a text are ASCII characters.
pub open spec fn is_ascii_text(text: Seq<char>) -> bool {
    forall|i: int| 0 <= i < text.len() ==> (#[trigger] text[i]) as u32 <= 0x7F
}

/// What `str::to_lowercase` makes of a text with characters outside ASCII.
pub uninterp spec fn lowercase(text: Seq<char>) -> Seq<char>;

/// A text in small letters.
#[verifier::opaque]
pub open spec fn lowered(text: Seq<char>) -> Seq<char> {
    if is_ascii_text(text) {
        ascii_lowercase(text)
    } else {
        lowercase(text)
    }
}

/// `str::to_lowercase`: of a text of ASCII characters it folds the capitals, and of
/// any other text the result depends on the text alone.
#[verifier::external_body]
pub(crate) fn to_lowercase(text: &str) -> (result: String)
    ensures
        is_ascii_text(text@) ==> result@ == ascii_lowercase(text@),
        !is_ascii_text(text@) ==> result@ == lowercase(text@),
{
    text.to_lowercase()
}

/// What `{:?}` prints for a text.
pub uninterp spec fn debug_text(text: Seq<char>) -> Seq<char>;

/// The `Debug` form of a string, as `format!` prints it: it depends on the
/// text alone.
#[verifier::external_body]
pub(crate) fn quoted(text: &str) -> (result: String)
    ensures
        result@ == debug_text(text@),
{
    format!("{text:?}")
}

/// The characters with the Unicode property `White_Space`.
pub open spec fn is_white(ch: char) -> bool {
    let code = ch as u32;
    ||| 0x09 <= code <= 0x0D
    ||| code == 0x20 || code == 0x85 || code == 0xA0 || code == 0x1680
    ||| 0x2000 <= code <= 0x200A
    ||| code == 0x2028 || code == 0x2029 || code == 0x202F || code == 0x205F || code == 0x3000
}

/// A text without the white space at its start.
pub open spec fn without_white_start(text: Seq<char>) -> Seq<char>
    decreases text.len(),
{
    if text.len() > 0 && is_white(text[0]) {
        without_white_start(text.skip(1))
    } else {
        text
    }
}

/// A text without the white space at its end.
pub open spec fn without_white_end(text: Seq<char>) -> Seq<char>
    decreases text.len(),
{
    if text.len() > 0 && is_white(text.last()) {
        without_white_end(text.drop_last())
    } else {
        text
    }
}

/// A text without the white space at its ends.
pub open spec fn trimmed_text(text: Seq<char>) -> Seq<char> {
    without_white_end(without_white_start(text))
}

/// `str::trim` takes the characters with the property `White_Space` from both ends
/// of a text, and nothing else.
#[verifier::external_body]
pub(crate) fn trim_text(text: &str) -> (result: String)
    ensures
        result@ == trimmed_text(text@),
{
    text.trim().to_owned()
}

/// `String::from_utf8` accepts exactly the valid UTF-8 sequences and yields the
/// text that they encode.
#[verifier::external_body]
pub(crate) fn utf8_text(bytes: Vec<u8>) -> (result: Option<String>)
    ensures
        result is Some <==> valid_utf8(bytes@),
        result matches Some(text) ==> text@ == decode_utf8(bytes@),
{
    String::from_utf8(bytes).ok()
}

pub open spec fn is_scalar_value(value: int) -> bool {
    0 <= value < 0xD800 || 0xE000 <= value <= 0x10FFFF
}

/// The control characters: the general category `Cc`.
pub open spec fn control_char(ch: char) -> bool {
    ch as u32 <= 0x1F || 0x7F <= ch as u32 <= 0x9F
}

/// `char::is_control` tells the characters of the category `Cc`.
pub assume_specification[ char::is_control ](ch: char) -> (result: bool)
    ensures
        result == control_char(ch),
;

pub open spec fn digit(value: int) -> char {
    (48 + value) as char
}

/// The decimal numeral of `value`.
pub open spec fn dec(value: nat) -> Seq<char>
    decreases value,
{
    if value < 10 {
        seq![digit(value as int)]
    } else {
        dec(value / 10).push(digit((value % 10) as int))
    }
}

/// The decimal numeral of a signed number.
pub open spec fn signed_dec(value: int) -> Seq<char> {
    if value < 0 {
        seq!['-'] + dec((-value) as nat)
    } else {
        dec(value as nat)
    }
}

pub open spec fn hex_digit(value: int) -> char {
    if value < 10 {
        (48 + value) as char
    } else {
        (87 + value) as char
    }
}

/// `width` lowercase hexadecimal digits of `value`, the most significant first.
pub open spec fn hex_numeral(value: nat, width: nat) -> Seq<char>
    decreases width,
{
    if width == 0 {
        Seq::empty()
    } else {
        hex_numeral(value / 16, (width - 1) as nat).push(hex_digit((value % 16) as int))
    }
}

/// The lowercase hexadecimal numeral of `value`, without leading zeros.
pub open spec fn hex_plain(value: nat) -> Seq<char>
    decreases value,
{
    if value < 16 {
        seq![hex_digit(value as int)]
    } else {
        hex_plain(value / 16).push(hex_digit((value % 16) as int))
    }
}

/// The two uppercase hexadecimal digits of a byte.
pub open spec fn hex_upper(value: u8) -> Seq<char> {
    seq![upper_digit(value as int / 16), upper_digit(value as int % 16)]
}

pub open spec fn upper_digit(value: int) -> char {
    if value < 10 {
        (48 + value) as char
    } else {
        (55 + value) as char
    }
}

/// Two lowercase hexadecimal digits for each byte.
pub open spec fn hex_text(bytes: Seq<u8>) -> Seq<char>
    decreases bytes.len(),
{
    if bytes.len() == 0 {
        Seq::empty()
    } else {
        hex_text(bytes.drop_last()).push(hex_digit(bytes.last() as int / 16)).push(
            hex_digit(bytes.last() as int % 16),
        )
    }
}

pub open spec fn is_hex_digit(ch: char) -> bool {
    '0' <= ch <= '9' || 'a' <= ch <= 'f' || 'A' <= ch <= 'F'
}

pub open spec fn hex_value(ch: char) -> int {
    if '0' <= ch <= '9' {
        ch as int - 48
    } else if 'a' <= ch <= 'f' {
        ch as int - 87
    } else {
        ch as int - 55
    }
}

/// An even number of hexadecimal digits.
pub open spec fn is_hex_text(text: Seq<char>) -> bool {
    text.len() % 2 == 0 && forall|i: int| 0 <= i < text.len() ==> is_hex_digit(#[trigger] text[i])
}

/// The bytes that pairs of hexadecimal digits stand for.
pub open spec fn hex_bytes(text: Seq<char>) -> Seq<u8> {
    Seq::new(
        (text.len() / 2) as nat,
        |i: int| (16 * hex_value(text[2 * i]) + hex_value(text[2 * i + 1])) as u8,
    )
}

/// `hex::encode` writes two lowercase digits for each byte.
#[verifier::external_body]
pub(crate) fn hex_encode(bytes: &[u8]) -> (result: String)
    ensures
        result@ == hex_text(bytes@),
{
    hex::encode(bytes)
}

/// `hex::decode` accepts an even number of hexadecimal digits, of either case,
/// and yields one byte for each pair.
#[verifier::external_body]
pub(crate) fn hex_decode(text: &str) -> (result: Option<Vec<u8>>)
    ensures
        result is Some <==> is_hex_text(text@),
        result matches Some(bytes) ==> bytes@ == hex_bytes(text@),
{
    hex::decode(text).ok()
}

/// What `hex_text` writes reads back as the same bytes.
pub proof fn hex_round_trip(bytes: Seq<u8>)
    ensures
        hex_text(bytes).len() == 2 * bytes.len(),
        is_hex_text(hex_text(bytes)),
        hex_bytes(hex_text(bytes)) == bytes,
    decreases bytes.len(),
{
    let text = hex_text(bytes);
    if bytes.len() > 0 {
        hex_round_trip(bytes.drop_last());
        let before = hex_text(bytes.drop_last());
        let value = bytes.last();
        let high = hex_digit(value as int / 16);
        let low = hex_digit(value as int % 16);
        assert(is_hex_digit(high) && hex_value(high) == value as int / 16);
        assert(is_hex_digit(low) && hex_value(low) == value as int % 16);
        assert forall|i: int| 0 <= i < text.len() implies is_hex_digit(#[trigger] text[i]) by {
            if i < before.len() {
                assert(text[i] == before[i]);
            }
        }
        assert forall|i: int| 0 <= i < bytes.len() implies hex_bytes(text)[i] == bytes[i] by {
            if i < bytes.len() - 1 {
                assert(text[2 * i] == before[2 * i]);
                assert(text[2 * i + 1] == before[2 * i + 1]);
                assert(hex_bytes(before)[i] == bytes.drop_last()[i]);
            }
        }
    }
    assert(hex_bytes(text) =~= bytes);
}

pub open spec fn ascii_lower(ch: char) -> char {
    if 'A' <= ch <= 'Z' {
        (ch as int + 32) as char
    } else {
        ch
    }
}

/// The text with every ASCII capital folded.
pub open spec fn ascii_lowercase(text: Seq<char>) -> Seq<char> {
    text.map_values(|ch: char| ascii_lower(ch))
}

/// Whether two texts differ at most in the case of ASCII letters.
pub open spec fn same_but_case(left: Seq<char>, right: Seq<char>) -> bool {
    ascii_lowercase(left) == ascii_lowercase(right)
}

/// The order of strings: byte by byte, a proper prefix first.
pub open spec fn bytes_less(left: Seq<u8>, right: Seq<u8>) -> bool
    decreases left.len(),
{
    if right.len() == 0 {
        false
    } else if left.len() == 0 {
        true
    } else if left[0] == right[0] {
        bytes_less(left.drop_first(), right.drop_first())
    } else {
        left[0] < right[0]
    }
}

pub open spec fn text_less(left: Seq<char>, right: Seq<char>) -> bool {
    bytes_less(encode_utf8(left), encode_utf8(right))
}

/// The UTF-16 code units of one character.
pub open spec fn utf16_units(ch: char) -> Seq<u16> {
    let value = (ch as u32) as int;
    if value < 0x10000 {
        seq![value as u16]
    } else {
        seq![
            (0xD800 + (value - 0x10000) / 0x400) as u16,
            (0xDC00 + (value - 0x10000) % 0x400) as u16,
        ]
    }
}

pub open spec fn encode_utf16(text: Seq<char>) -> Seq<u16>
    decreases text.len(),
{
    if text.len() == 0 {
        Seq::empty()
    } else {
        encode_utf16(text.drop_last()) + utf16_units(text.last())
    }
}

/// The text that UTF-16 code units stand for, where every surrogate is paired.
pub open spec fn decode_utf16(units: Seq<u16>) -> Option<Seq<char>>
    decreases units.len(),
{
    if units.len() == 0 {
        Some(Seq::empty())
    } else if units[0] < 0xD800 || units[0] >= 0xE000 {
        match decode_utf16(units.skip(1)) {
            Some(rest) => Some(seq![units[0] as char] + rest),
            None => None,
        }
    } else if units[0] < 0xDC00 && units.len() >= 2 && 0xDC00 <= units[1] < 0xE000 {
        match decode_utf16(units.skip(2)) {
            Some(rest) => Some(
                seq![(0x10000 + (units[0] - 0xD800) * 0x400 + (units[1] - 0xDC00)) as char] + rest,
            ),
            None => None,
        }
    } else {
        None
    }
}

pub fn chars_of(text: &str) -> (result: Vec<char>)
    ensures
        result@ == text@,
{
    let mut result: Vec<char> = Vec::new();
    for ch in iter: text.chars()
        invariant
            iter.seq() == text@,
            result@ == text@.take(iter.index() as int),
    {
        result.push(ch);
    }
    assert(text@.take(text@.len() as int) == text@);
    result
}

/// The text of the characters `chars[from..to]`.
pub fn text_of(chars: &[char], from: usize, to: usize) -> (result: String)
    requires
        from <= to <= chars@.len(),
    ensures
        result@ == chars@.subrange(from as int, to as int),
{
    let mut result = String::new();
    let mut at: usize = from;
    while at < to
        invariant
            from <= at <= to <= chars@.len(),
            result@ == chars@.subrange(from as int, at as int),
        decreases to - at,
    {
        result.push(chars[at]);
        at += 1;
    }
    result
}

pub fn cat2(first: &str, second: &str) -> (result: String)
    ensures
        result@ == first@ + second@,
{
    let mut result = first.to_owned();
    result.append(second);
    result
}

pub fn cat3(first: &str, second: &str, third: &str) -> (result: String)
    ensures
        result@ == first@ + second@ + third@,
{
    let mut result = cat2(first, second);
    result.append(third);
    result
}

pub fn cat4(first: &str, second: &str, third: &str, fourth: &str) -> (result: String)
    ensures
        result@ == first@ + second@ + third@ + fourth@,
{
    let mut result = cat3(first, second, third);
    result.append(fourth);
    result
}

pub fn cat5(first: &str, second: &str, third: &str, fourth: &str, fifth: &str) -> (result: String)
    ensures
        result@ == first@ + second@ + third@ + fourth@ + fifth@,
{
    let mut result = cat4(first, second, third, fourth);
    result.append(fifth);
    result
}

fn digit_char(value: u8) -> (ch: char)
    requires
        value < 10,
    ensures
        ch == digit(value as int),
{
    (48u8 + value) as char
}

/// The decimal numeral of `value`.
pub fn decimal(value: u64) -> (result: String)
    ensures
        result@ == dec(value as nat),
    decreases value,
{
    if value < 10 {
        let mut result = String::new();
        result.push(digit_char(value as u8));
        assert(result@ == seq![digit(value as int)]);
        result
    } else {
        let mut result = decimal(value / 10);
        result.push(digit_char((value % 10) as u8));
        result
    }
}

pub fn decimal_usize(value: usize) -> (result: String)
    ensures
        result@ == dec(value as nat),
{
    decimal(value as u64)
}

/// The decimal numeral of a signed number.
pub fn signed_decimal(value: i64) -> (result: String)
    ensures
        result@ == signed_dec(value as int),
{
    if value < 0 {
        let magnitude: u64 = (-(value as i128)) as u64;
        let mut result = String::new();
        result.push('-');
        let digits = decimal(magnitude);
        result.append(digits.as_str());
        result
    } else {
        decimal(value as u64)
    }
}

fn hex_char(value: u8) -> (ch: char)
    requires
        value < 16,
    ensures
        ch == hex_digit(value as int),
{
    if value < 10 {
        (48u8 + value) as char
    } else {
        (87u8 + value) as char
    }
}

fn upper_char(value: u8) -> (ch: char)
    requires
        value < 16,
    ensures
        ch == upper_digit(value as int),
{
    if value < 10 {
        (48u8 + value) as char
    } else {
        (55u8 + value) as char
    }
}

/// The two uppercase hexadecimal digits of a byte.
pub fn hex_byte(value: u8) -> (result: String)
    ensures
        result@ == hex_upper(value),
{
    let mut result = String::new();
    result.push(upper_char(value / 16));
    result.push(upper_char(value % 16));
    assert(result@ =~= hex_upper(value));
    result
}

/// `width` lowercase hexadecimal digits of `value`.
pub fn hex_of(value: u64, width: usize) -> (result: String)
    ensures
        result@ == hex_numeral(value as nat, width as nat),
    decreases width,
{
    if width == 0 {
        String::new()
    } else {
        let mut result = hex_of(value / 16, width - 1);
        result.push(hex_char((value % 16) as u8));
        result
    }
}

/// The lowercase hexadecimal numeral of `value`, without leading zeros.
pub fn hexadecimal(value: u64) -> (result: String)
    ensures
        result@ == hex_plain(value as nat),
    decreases value,
{
    if value < 16 {
        let mut result = String::new();
        result.push(hex_char(value as u8));
        assert(result@ == seq![hex_digit(value as int)]);
        result
    } else {
        let mut result = hexadecimal(value / 16);
        result.push(hex_char((value % 16) as u8));
        result
    }
}

pub fn ascii_lower_char(ch: char) -> (result: char)
    ensures
        result == ascii_lower(ch),
{
    if 'A' <= ch && ch <= 'Z' {
        (ch as u8 + 32u8) as char
    } else {
        ch
    }
}

pub fn to_ascii_lowercase(text: &str) -> (result: String)
    ensures
        result@ == ascii_lowercase(text@),
{
    let chars = chars_of(text);
    let mut result = String::new();
    let mut at: usize = 0;
    while at < chars.len()
        invariant
            at <= chars@.len(),
            chars@ == text@,
            result@ == ascii_lowercase(text@.take(at as int)),
        decreases chars.len() - at,
    {
        result.push(ascii_lower_char(chars[at]));
        proof {
            assert(text@.take(at as int + 1) == text@.take(at as int).push(text@[at as int]));
        }
        at += 1;
    }
    assert(text@.take(text@.len() as int) == text@);
    result
}

/// Whether two texts hold the same characters.
pub fn same_text(left: &str, right: &str) -> (result: bool)
    ensures
        result == (left@ == right@),
{
    let left_owned = left.to_owned();
    let right_owned = right.to_owned();
    left_owned == right_owned
}

/// Whether `left` stands before `right` in the byte order of strings.
pub fn text_before(left: &str, right: &str) -> (result: bool)
    ensures
        result == text_less(left@, right@),
{
    let a = left.as_bytes();
    let b = right.as_bytes();
    let mut at: usize = 0;
    proof {
        assert(a@.skip(0) == a@);
        assert(b@.skip(0) == b@);
    }
    while at < a.len() && at < b.len() && a[at] == b[at]
        invariant
            at <= a@.len(),
            at <= b@.len(),
            bytes_less(a@, b@) == bytes_less(a@.skip(at as int), b@.skip(at as int)),
        decreases a.len() - at,
    {
        proof {
            assert(a@.skip(at as int).drop_first() == a@.skip(at as int + 1));
            assert(b@.skip(at as int).drop_first() == b@.skip(at as int + 1));
        }
        at += 1;
    }
    if at >= b.len() {
        false
    } else if at >= a.len() {
        true
    } else {
        a[at] < b[at]
    }
}

/// The UTF-16 code units of a text.
pub fn utf16_of(text: &str) -> (result: Vec<u16>)
    ensures
        result@ == encode_utf16(text@),
{
    let chars = chars_of(text);
    let mut result: Vec<u16> = Vec::new();
    let mut at: usize = 0;
    while at < chars.len()
        invariant
            at <= chars@.len(),
            chars@ == text@,
            result@ == encode_utf16(text@.take(at as int)),
        decreases chars.len() - at,
    {
        let value: u32 = chars[at] as u32;
        proof {
            vstd::utf8::char_is_scalar(text@[at as int]);
        }
        if value < 0x10000 {
            result.push(value as u16);
        } else {
            result.push((0xD800 + (value - 0x10000) / 0x400) as u16);
            result.push((0xDC00 + (value - 0x10000) % 0x400) as u16);
        }
        proof {
            let ch = text@[at as int];
            assert(text@.take(at as int + 1).drop_last() == text@.take(at as int));
            assert(text@.take(at as int + 1).last() == ch);
            assert(result@ == encode_utf16(text@.take(at as int)) + utf16_units(ch));
        }
        at += 1;
    }
    assert(text@.take(text@.len() as int) == text@);
    result
}

/// The text of UTF-16 code units, if every surrogate is paired.
pub fn utf16_text(units: &Vec<u16>) -> (result: Option<String>)
    ensures
        result is Some <==> decode_utf16(units@) is Some,
        result matches Some(text) ==> text@ == decode_utf16(units@)->0,
{
    let mut result = String::new();
    let mut at: usize = 0;
    proof {
        assert(units@.skip(0) == units@);
    }
    while at < units.len()
        invariant
            at <= units@.len(),
            decode_utf16(units@) is Some <==> decode_utf16(units@.skip(at as int)) is Some,
            decode_utf16(units@.skip(at as int)) matches Some(rest) ==> decode_utf16(units@)->0
                == result@ + rest,
        decreases units.len() - at,
    {
        let unit: u16 = units[at];
        let ghost before = result@;
        let ghost tail = units@.skip(at as int);
        if unit < 0xD800 || unit >= 0xE000 {
            match char::from_u32(unit as u32) {
                Some(ch) => {
                    proof {
                        vstd::utf8::char_u32_cast(ch, unit as u32);
                    }
                    result.push(ch)
                },
                None => {},
            }
            proof {
                assert(tail.skip(1) == units@.skip(at as int + 1));
                match decode_utf16(tail.skip(1)) {
                    Some(rest) => {
                        assert(before + (seq![unit as char] + rest) == result@ + rest);
                    },
                    None => {},
                }
            }
            at += 1;
        } else if unit < 0xDC00 && units.len() - at >= 2 && 0xDC00 <= units[at + 1] && units[at + 1]
            < 0xE000 {
            let value: u32 = 0x10000 + (unit as u32 - 0xD800) * 0x400 + (units[at + 1] as u32
                - 0xDC00);
            match char::from_u32(value) {
                Some(ch) => {
                    proof {
                        vstd::utf8::char_u32_cast(ch, value);
                    }
                    result.push(ch)
                },
                None => {},
            }
            proof {
                assert(tail[1] == units@[at as int + 1]);
                assert(tail.skip(2) == units@.skip(at as int + 2));
                match decode_utf16(tail.skip(2)) {
                    Some(rest) => {
                        assert(before + (seq![value as char] + rest) == result@ + rest);
                    },
                    None => {},
                }
            }
            at += 2;
        } else {
            return None;
        }
    }
    assert(units@.skip(units@.len() as int) == Seq::<u16>::empty());
    Some(result)
}

/// The texts of a list of strings.
pub open spec fn texts(list: Seq<String>) -> Seq<Seq<char>> {
    list.map_values(|text: String| text@)
}

/// The texts of a list that grew by one string.
pub proof fn texts_push(list: Seq<String>, text: String)
    ensures
        texts(list.push(text)) == texts(list).push(text@),
{
    assert(texts(list.push(text)) =~= texts(list).push(text@));
}

/// A text that may be absent.
pub open spec fn text_view(text: Option<String>) -> Option<Seq<char>> {
    match text {
        Some(text) => Some(text@),
        None => None,
    }
}

pub fn clone_text(text: &Option<String>) -> (result: Option<String>)
    ensures
        text_view(result) == text_view(*text),
{
    match text {
        Some(text) => Some(text.clone()),
        None => None,
    }
}

/// Whether `text` ends with `suffix`.
pub open spec fn ends_with(text: Seq<char>, suffix: Seq<char>) -> bool {
    suffix.len() <= text.len() && text.skip(text.len() - suffix.len()) == suffix
}

/// Whether `text` starts with `prefix`.
pub open spec fn starts_with(text: Seq<char>, prefix: Seq<char>) -> bool {
    prefix.len() <= text.len() && text.take(prefix.len() as int) == prefix
}

/// Whether the characters from `at` on are those of `part`.
fn part_stands_at(chars: &Vec<char>, at: usize, part: &Vec<char>) -> (result: bool)
    requires
        at + part@.len() <= chars@.len(),
    ensures
        result == (chars@.subrange(at as int, at + part@.len()) == part@),
{
    let mut index: usize = 0;
    let total: usize = chars.len();
    while index < part.len()
        invariant
            index <= part@.len(),
            at + part@.len() <= total == chars@.len(),
            forall|i: int| 0 <= i < index ==> chars@[at + i] == part@[i],
        decreases part.len() - index,
    {
        if chars[at + index] != part[index] {
            proof {
                assert(chars@.subrange(at as int, at + part@.len())[index as int] != part@[index as int]);
            }
            return false;
        }
        index += 1;
    }
    assert(chars@.subrange(at as int, at + part@.len()) =~= part@);
    true
}

pub fn text_ends_with(text: &str, suffix: &str) -> (result: bool)
    ensures
        result == ends_with(text@, suffix@),
{
    let chars = chars_of(text);
    let part = chars_of(suffix);
    if part.len() > chars.len() {
        return false;
    }
    let at: usize = chars.len() - part.len();
    assert(text@.skip(at as int) == chars@.subrange(at as int, at + part@.len()));
    part_stands_at(&chars, at, &part)
}

pub fn text_starts_with(text: &str, prefix: &str) -> (result: bool)
    ensures
        result == starts_with(text@, prefix@),
{
    let chars = chars_of(text);
    let part = chars_of(prefix);
    if part.len() > chars.len() {
        return false;
    }
    assert(text@.take(part@.len() as int) == chars@.subrange(0, part@.len() as int));
    part_stands_at(&chars, 0, &part)
}

/// The first `count` characters.
pub fn text_take(text: &str, count: usize) -> (result: String)
    requires
        count <= text@.len(),
    ensures
        result@ == text@.take(count as int),
{
    let chars = chars_of(text);
    text_of(&chars, 0, count)
}

/// The characters from the `count`th on.
pub fn text_skip(text: &str, count: usize) -> (result: String)
    requires
        count <= text@.len(),
    ensures
        result@ == text@.skip(count as int),
{
    let chars = chars_of(text);
    text_of(&chars, count, chars.len())
}

/// Whether a character occurs in a text.
pub fn text_contains(text: &str, wanted: char) -> (result: bool)
    ensures
        result == text@.contains(wanted),
{
    let chars = chars_of(text);
    let mut at: usize = 0;
    while at < chars.len()
        invariant
            at <= chars@.len(),
            chars@ == text@,
            forall|i: int| 0 <= i < at ==> chars@[i] != wanted,
        decreases chars.len() - at,
    {
        if chars[at] == wanted {
            assert(text@[at as int] == wanted);
            return true;
        }
        at += 1;
    }
    false
}

/// A copy of a list of strings.
pub fn clone_texts(list: &Vec<String>) -> (result: Vec<String>)
    ensures
        texts(result@) == texts(list@),
{
    let mut result: Vec<String> = Vec::new();
    let mut at: usize = 0;
    while at < list.len()
        invariant
            at <= list@.len(),
            texts(result@) == texts(list@).take(at as int),
        decreases list.len() - at,
    {
        let text = list[at].clone();
        proof {
            texts_push(result@, text);
            assert(texts(list@).take(at as int + 1) =~= texts(list@).take(at as int).push(text@));
        }
        result.push(text);
        at += 1;
    }
    assert(texts(list@).take(at as int) == texts(list@));
    result
}

/// Whether two lists hold the same texts in the same order.
pub fn same_texts(left: &Vec<String>, right: &Vec<String>) -> (result: bool)
    ensures
        result == (texts(left@) == texts(right@)),
{
    if left.len() != right.len() {
        assert(texts(left@).len() != texts(right@).len());
        return false;
    }
    let mut at: usize = 0;
    while at < left.len()
        invariant
            at <= left@.len(),
            left@.len() == right@.len(),
            forall|i: int| 0 <= i < at ==> texts(left@)[i] == texts(right@)[i],
        decreases left.len() - at,
    {
        if !same_text(left[at].as_str(), right[at].as_str()) {
            assert(texts(left@)[at as int] != texts(right@)[at as int]);
            return false;
        }
        at += 1;
    }
    assert(texts(left@) =~= texts(right@));
    true
}

/// Whether `part` stands somewhere in a text.
pub open spec fn holds_part(text: Seq<char>, part: Seq<char>) -> bool {
    exists|at: int|
        0 <= at <= text.len() - part.len() && #[trigger] text.subrange(at, at + part.len()) == part
}

pub fn text_holds(text: &str, part: &str) -> (result: bool)
    ensures
        result == holds_part(text@, part@),
{
    let chars = chars_of(text);
    let wanted = chars_of(part);
    if wanted.len() > chars.len() {
        return false;
    }
    let last: usize = chars.len() - wanted.len();
    let mut at: usize = 0;
    loop
        invariant
            at <= last,
            chars@ == text@,
            wanted@ == part@,
            last == text@.len() - part@.len(),
            chars@.len() <= usize::MAX,
            forall|i: int| 0 <= i < at ==> #[trigger] text@.subrange(i, i + part@.len()) != part@,
        decreases last - at,
    {
        if part_stands_at(&chars, at, &wanted) {
            assert(text@.subrange(at as int, at + part@.len()) == part@);
            return true;
        }
        if at == last {
            return false;
        }
        at += 1;
    }
}

/// Copies the texts of `more` to the end of a list.
pub fn append_texts(list: &mut Vec<String>, more: &Vec<String>)
    ensures
        texts(final(list)@) == texts(old(list)@) + texts(more@),
{
    let ghost before = texts(list@);
    let ghost all = texts(more@);
    let mut at: usize = 0;
    assert(before + all.take(0) =~= before);
    while at < more.len()
        invariant
            at <= more@.len(),
            all == texts(more@),
            texts(list@) == before + all.take(at as int),
        decreases more.len() - at,
    {
        let text = more[at].clone();
        proof {
            texts_push(list@, text);
            assert(before + all.take(at as int + 1) =~= (before + all.take(at as int)).push(text@));
        }
        list.push(text);
        at += 1;
    }
    assert(all.take(at as int) =~= all);
}

} // verus!
