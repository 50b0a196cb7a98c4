//! Identifiers, digests of framed parts, and the keys by which paths are
//! compared.
use vstd::prelude::*;
use vstd::utf8::encode_utf8;

use crate::digest::{sha256_digest, sha256_digests_have_one_length, sha256_of};
use crate::lists::append_bytes;
use crate::text::{
    ascii_lower, ascii_lower_char, cat3, chars_of, hex_encode, hex_text, same_but_case, same_text,
    texts, to_ascii_lowercase,
};

verus! {

/// Eight bytes, the most significant first.
#[verifier::opaque]
pub open spec fn be64(value: u64) -> Seq<u8> {
    seq![
        (value / 0x100_0000_0000_0000) as u8,
        (value / 0x1_0000_0000_0000 % 256) as u8,
        (value / 0x100_0000_0000 % 256) as u8,
        (value / 0x1_0000_0000 % 256) as u8,
        (value / 0x100_0000 % 256) as u8,
        (value / 0x1_0000 % 256) as u8,
        (value / 0x100 % 256) as u8,
        (value % 256) as u8,
    ]
}

/// A part with its length before it, so that no two lists of parts run together.
pub open spec fn framed(part: Seq<u8>) -> Seq<u8> {
    be64(part.len() as u64) + part
}

/// The parts of a text list, each framed.
pub open spec fn framed_texts(parts: Seq<Seq<char>>) -> Seq<u8>
    decreases parts.len(),
{
    if parts.len() == 0 {
        Seq::empty()
    } else {
        framed_texts(parts.drop_last()) + framed(encode_utf8(parts.last()))
    }
}

/// The lowercase hexadecimal SHA-256 of a run of bytes.
pub open spec fn sha256_text(bytes: Seq<u8>) -> Seq<char> {
    hex_text(sha256_digest(bytes))
}

/// The identifier that a list of parts always gets.
pub open spec fn stable_id_of(prefix: Seq<char>, parts: Seq<Seq<char>>) -> Seq<char> {
    prefix + "-"@ + sha256_text(
        encode_utf8("PAK-MERGER-STABLE-ID-V1"@) + framed(encode_utf8(prefix)) + framed_texts(parts),
    )
}

pub open spec fn folded_char(ch: char) -> char {
    if ch == '\\' {
        '/'
    } else {
        ascii_lower(ch)
    }
}

/// The key under which a path is compared: `/` for `\`, ASCII capitals folded.
pub open spec fn folded(path: Seq<char>) -> Seq<char> {
    path.map_values(|ch: char| folded_char(ch))
}

/// Appends the eight bytes of a number.
pub fn push_be64(bytes: &mut Vec<u8>, value: u64)
    ensures
        final(bytes)@ == old(bytes)@ + be64(value),
{
    reveal(be64);
    bytes.push((value / 0x100_0000_0000_0000) as u8);
    bytes.push((value / 0x1_0000_0000_0000 % 256) as u8);
    bytes.push((value / 0x100_0000_0000 % 256) as u8);
    bytes.push((value / 0x1_0000_0000 % 256) as u8);
    bytes.push((value / 0x100_0000 % 256) as u8);
    bytes.push((value / 0x1_0000 % 256) as u8);
    bytes.push((value / 0x100 % 256) as u8);
    bytes.push((value % 256) as u8);
    assert(bytes@ =~= old(bytes)@ + be64(value));
}

/// Appends a part with its length before it.
pub fn update_framed(bytes: &mut Vec<u8>, part: &[u8])
    ensures
        final(bytes)@ == old(bytes)@ + framed(part@),
{
    push_be64(bytes, part.len() as u64);
    append_bytes(bytes, part);
    assert(bytes@ =~= old(bytes)@ + framed(part@));
}

/// Appends the bytes of a text with their length before them.
pub fn update_framed_text(bytes: &mut Vec<u8>, part: &str)
    ensures
        final(bytes)@ == old(bytes)@ + framed(encode_utf8(part@)),
{
    update_framed(bytes, part.as_bytes());
}

/// The bytes of a text.
pub fn bytes_of(text: &str) -> (result: Vec<u8>)
    ensures
        result@ == encode_utf8(text@),
{
    let mut result: Vec<u8> = Vec::new();
    append_bytes(&mut result, text.as_bytes());
    assert(result@ =~= encode_utf8(text@));
    result
}

/// Whether a text is a SHA-256 in lowercase hexadecimal digits.
pub open spec fn is_digest(text: Seq<char>) -> bool {
    text.len() == 64 && forall|i: int|
        0 <= i < text.len() ==> '0' <= #[trigger] text[i] <= '9' || 'a' <= text[i] <= 'f'
}

proof fn hex_texts_are_lowercase(bytes: Seq<u8>)
    ensures
        hex_text(bytes).len() == 2 * bytes.len(),
        forall|i: int|
            0 <= i < hex_text(bytes).len() ==> '0' <= #[trigger] hex_text(bytes)[i] <= '9' || 'a'
                <= hex_text(bytes)[i] <= 'f',
    decreases bytes.len(),
{
    if bytes.len() > 0 {
        let rest = hex_text(bytes.drop_last());
        hex_texts_are_lowercase(bytes.drop_last());
        let text = hex_text(bytes);
        assert forall|i: int| 0 <= i < text.len() implies '0' <= #[trigger] text[i] <= '9' || 'a'
            <= text[i] <= 'f' by {
            if i < rest.len() {
                assert(text[i] == rest[i]);
            }
        }
    }
}

/// A SHA-256 in hexadecimal digits is one, whatever it is the digest of.
pub proof fn digest_texts_are_digests(bytes: Seq<u8>)
    ensures
        is_digest(hex_text(sha256_digest(bytes))),
{
    sha256_digests_have_one_length(bytes);
    hex_texts_are_lowercase(sha256_digest(bytes));
}

/// The lowercase hexadecimal SHA-256 of a run of bytes.
pub fn sha256_hex(bytes: &[u8]) -> (result: String)
    ensures
        result@ == sha256_text(bytes@),
        is_digest(result@),
{
    let digest = sha256_of(bytes);
    proof {
        hex_texts_are_lowercase(digest@);
    }
    hex_encode(digest.as_slice())
}

/// The identifier of a list of parts.
pub fn stable_id(prefix: &str, parts: &Vec<String>) -> (result: String)
    ensures
        result@ == stable_id_of(prefix@, texts(parts@)),
{
    let mut bytes = bytes_of("PAK-MERGER-STABLE-ID-V1");
    update_framed_text(&mut bytes, prefix);
    let ghost head = bytes@;
    let ghost all = texts(parts@);
    let mut at: usize = 0;
    assert(framed_texts(all.take(0)) =~= Seq::<u8>::empty());
    assert(head + framed_texts(all.take(0)) =~= head);
    while at < parts.len()
        invariant
            at <= parts@.len(),
            all == texts(parts@),
            bytes@ == head + framed_texts(all.take(at as int)),
        decreases parts.len() - at,
    {
        update_framed_text(&mut bytes, parts[at].as_str());
        proof {
            let later = all.take(at as int + 1);
            assert(later.drop_last() =~= all.take(at as int));
            assert(later.last() == parts@[at as int]@);
            assert(bytes@ =~= head + framed_texts(later));
        }
        at += 1;
    }
    assert(all.take(at as int) =~= all);
    cat3(prefix, "-", sha256_hex(bytes.as_slice()).as_str())
}

/// The key under which a path is compared.
pub fn sort_key(value: &str) -> (result: String)
    ensures
        result@ == folded(value@),
{
    let chars = chars_of(value);
    let mut result = String::new();
    let mut at: usize = 0;
    while at < chars.len()
        invariant
            at <= chars@.len(),
            chars@ == value@,
            result@ == folded(value@.take(at as int)),
        decreases chars.len() - at,
    {
        let ch: char = chars[at];
        result.push(
            if ch == '\\' {
                '/'
            } else {
                ascii_lower_char(ch)
            },
        );
        proof {
            assert(value@.take(at as int + 1) =~= value@.take(at as int).push(value@[at as int]));
            assert(folded(value@.take(at as int + 1)) =~= folded(value@.take(at as int)).push(
                folded_char(ch),
            ));
        }
        at += 1;
    }
    assert(value@.take(at as int) =~= value@);
    result
}

/// Whether two texts differ at most in the case of ASCII letters.
pub fn eq_ignore_ascii_case(left: &str, right: &str) -> (result: bool)
    ensures
        result == same_but_case(left@, right@),
{
    same_text(to_ascii_lowercase(left).as_str(), to_ascii_lowercase(right).as_str())
}

/// Whether two paths name the same file, letter case aside.
pub fn same_path(left: &str, right: &str) -> (result: bool)
    ensures
        result == same_but_case(left@, right@),
{
    eq_ignore_ascii_case(left, right)
}

/// The texts of a list with `separator` between them.
pub open spec fn joined(list: Seq<Seq<char>>, separator: Seq<char>) -> Seq<char>
    decreases list.len(),
{
    if list.len() == 0 {
        Seq::empty()
    } else if list.len() == 1 {
        list[0]
    } else {
        joined(list.drop_last(), separator) + separator + list.last()
    }
}

/// The texts of `list[from..to]` with `separator` between them.
pub fn join_range(list: &Vec<String>, from: usize, to: usize, separator: &str) -> (result: String)
    requires
        from <= to <= list@.len(),
    ensures
        result@ == joined(texts(list@).subrange(from as int, to as int), separator@),
{
    let mut result = String::new();
    let mut at: usize = from;
    let ghost all = texts(list@);
    proof {
        assert(joined(all.subrange(from as int, from as int), separator@) =~= Seq::<char>::empty());
        assert(result@ =~= Seq::<char>::empty());
    }
    while at < to
        invariant
            from <= at <= to <= list@.len(),
            all == texts(list@),
            result@ == joined(all.subrange(from as int, at as int), separator@),
        decreases to - at,
    {
        let ghost before = all.subrange(from as int, at as int);
        let ghost later = all.subrange(from as int, at as int + 1);
        proof {
            assert(later.drop_last() =~= before);
            assert(later.last() == list@[at as int]@);
        }
        if at > from {
            result.append(separator);
            result.append(list[at].as_str());
        } else {
            result = list[at].clone();
        }
        at += 1;
    }
    result
}

/// The texts of a list with `separator` between them.
pub fn join(list: &Vec<String>, separator: &str) -> (result: String)
    ensures
        result@ == joined(texts(list@), separator@),
{
    let result = join_range(list, 0, list.len(), separator);
    assert(texts(list@).subrange(0, list@.len() as int) =~= texts(list@));
    result
}

} // verus!
