//! Validation of the arguments that name a channel, a sender and a cursor.

use vstd::prelude::*;
use vstd::string::{StringExecFns, StringSliceAdditionalSpecFns};
use vstd::utf8::{
    encode_scalar, encode_utf8, has_width_1_encoding, is_ascii_chars, is_ascii_chars_encode_utf8,
    leading_byte_width_2, leading_byte_width_3, leading_byte_width_4,
};

use crate::error::CliError;
use crate::message::id::{is_ulid_text, is_valid_ulid_str};

verus! {

/// `b` may appear in a channel name: `[a-zA-Z0-9_-]`.
pub open spec fn channel_byte(b: u8) -> bool {
    (97 <= b <= 122) || (65 <= b <= 90) || (48 <= b <= 57) || b == 95 || b == 45
}

/// A channel name is 1 to 64 bytes, each one of `[a-zA-Z0-9_-]`.
pub open spec fn valid_channel_name(s: Seq<u8>) -> bool {
    1 <= s.len() <= 64 && forall|i: int| 0 <= i < s.len() ==> #[trigger] channel_byte(s[i])
}

/// A sender is non-empty, at most 64 bytes long, and holds no newline.
pub open spec fn valid_sender(chars: Seq<char>, bytes: Seq<u8>) -> bool {
    chars.len() != 0 && bytes.len() <= 64 && !chars.contains('\n')
}

/// A character whose code point is below 128 is ASCII.
proof fn lemma_char_below_128(ch: char)
    requires
        (ch as u32) <= 0x7f,
    ensures
        '\0' <= ch <= '\u{7f}',
{
}

/// A character sequence whose UTF-8 bytes are all below 128 is ASCII: the
/// leading byte of any longer encoding is at least 0xC0.
proof fn lemma_ascii_bytes_ascii_chars(s: Seq<char>)
    requires
        forall|i: int| 0 <= i < encode_utf8(s).len() ==> encode_utf8(s)[i] < 128,
    ensures
        is_ascii_chars(s),
    decreases s.len(),
{
    if s.len() > 0 {
        let c = s[0] as u32;
        let head = encode_scalar(c);
        let rest = s.drop_first();
        assert(encode_utf8(s) == head + encode_utf8(rest));
        assert(head.len() > 0);
        assert(encode_utf8(s)[0] == head[0]);
        if !has_width_1_encoding(c) {
            assert(leading_byte_width_2(c) >= 0xC0u8) by (bit_vector);
            assert(leading_byte_width_3(c) >= 0xC0u8) by (bit_vector);
            assert(leading_byte_width_4(c) >= 0xC0u8) by (bit_vector);
            assert(false);
        }
        assert forall|i: int| 0 <= i < encode_utf8(rest).len() implies encode_utf8(rest)[i]
            < 128 by {
            assert(encode_utf8(s)[i + head.len()] == encode_utf8(rest)[i]);
        }
        lemma_ascii_bytes_ascii_chars(rest);
        assert forall|i: int| 0 <= i < s.len() implies '\0' <= #[trigger] s[i] <= '\u{7f}' by {
            if i > 0 {
                assert(s[i] == rest[i - 1]);
            } else {
                lemma_char_below_128(s[0]);
            }
        }
    }
}

/// The channel names are exactly the names of 1 to 64 characters drawn from
/// `a`-`z`, `A`-`Z`, `0`-`9`, `_` and `-`: upper-case letters are allowed as
/// much as lower-case ones, and nothing else is.
pub proof fn lemma_channel_name_characters(s: Seq<char>)
    ensures
        valid_channel_name(encode_utf8(s)) <==> (1 <= s.len() <= 64 && forall|i: int|
            0 <= i < s.len() ==> ('a' <= #[trigger] s[i] <= 'z' || 'A' <= s[i] <= 'Z' || '0'
                <= s[i] <= '9' || s[i] == '_' || s[i] == '-')),
{
    let b = encode_utf8(s);
    if valid_channel_name(b) {
        assert forall|i: int| 0 <= i < b.len() implies b[i] < 128 by {
            assert(channel_byte(b[i]));
        }
        lemma_ascii_bytes_ascii_chars(s);
        is_ascii_chars_encode_utf8(s);
        assert forall|i: int| 0 <= i < s.len() implies ('a' <= #[trigger] s[i] <= 'z' || 'A'
            <= s[i] <= 'Z' || '0' <= s[i] <= '9' || s[i] == '_' || s[i] == '-') by {
            assert(channel_byte(b[i]));
            assert(s[i] as u8 == b[i]);
        }
    }
    if 1 <= s.len() <= 64 && forall|i: int|
        0 <= i < s.len() ==> ('a' <= #[trigger] s[i] <= 'z' || 'A' <= s[i] <= 'Z' || '0' <= s[i]
            <= '9' || s[i] == '_' || s[i] == '-') {
        assert(is_ascii_chars(s));
        is_ascii_chars_encode_utf8(s);
        assert forall|i: int| 0 <= i < b.len() implies #[trigger] channel_byte(b[i]) by {
            assert(s[i] as u8 == b[i]);
        }
    }
}

/// A sender is accepted exactly when it is non-empty, at most 64 bytes long
/// and none of its characters is a line feed: spaces, punctuation and any
/// other characters are all allowed.
pub proof fn lemma_sender_rule(s: Seq<char>)
    ensures
        valid_sender(s, encode_utf8(s)) <==> (s.len() > 0 && encode_utf8(s).len() <= 64
            && forall|i: int| 0 <= i < s.len() ==> #[trigger] s[i] != '\n'),
{
    if s.contains('\n') {
        let k = choose|k: int| 0 <= k < s.len() && s[k] == '\n';
        assert(s[k] == '\n');
    }
}

/// Whether a sender is accepted depends on nothing but its length and where
/// its line feeds stand: two senders of the same length in characters and in
/// bytes, with line feeds at the same places, are both accepted or both
/// refused.
pub proof fn lemma_sender_depends_only_on_line_feeds(s: Seq<char>, t: Seq<char>)
    requires
        s.len() == t.len(),
        encode_utf8(s).len() == encode_utf8(t).len(),
        forall|i: int| 0 <= i < s.len() ==> (#[trigger] s[i] == '\n') == (t[i] == '\n'),
    ensures
        valid_sender(s, encode_utf8(s)) == valid_sender(t, encode_utf8(t)),
{
    lemma_sender_rule(s);
    lemma_sender_rule(t);
    if !valid_sender(s, encode_utf8(s)) && valid_sender(t, encode_utf8(t)) {
        let k = choose|k: int| 0 <= k < s.len() && s[k] == '\n';
        assert(t[k] != '\n');
    }
    if valid_sender(s, encode_utf8(s)) && !valid_sender(t, encode_utf8(t)) {
        let k = choose|k: int| 0 <= k < t.len() && t[k] == '\n';
        assert(s[k] != '\n');
    }
}

/// Whether `b` may appear in a channel name.
pub fn is_channel_byte(b: u8) -> (r: bool)
    ensures
        r == channel_byte(b),
{
    // 'a'..='z' | 'A'..='Z' | '0'..='9' | '_' | '-'
    (97 <= b && b <= 122) || (65 <= b && b <= 90) || (48 <= b && b <= 57) || b == 95 || b == 45
}

/// Accepts a channel name of 1 to 64 bytes from `[a-zA-Z0-9_-]`.
pub fn validate_channel_name(s: &str) -> (r: Result<(), CliError>)
    ensures
        r is Ok <==> valid_channel_name(s.spec_bytes()),
        r matches Err(e) ==> e matches CliError::InvalidChannelName(t) && t@ == s@,
{
    let bytes = s.as_bytes();
    let len = bytes.len();
    if !(1 <= len && len <= 64) {
        return Err(CliError::InvalidChannelName(String::from_str(s)));
    }
    let mut i: usize = 0;
    while i < len
        invariant
            bytes@ == s.spec_bytes(),
            len == bytes.len(),
            i <= len,
            forall|k: int| 0 <= k < i ==> #[trigger] channel_byte(bytes@[k]),
        decreases len - i,
    {
        if !is_channel_byte(bytes[i]) {
            return Err(CliError::InvalidChannelName(String::from_str(s)));
        }
        i = i + 1;
    }
    Ok(())
}

/// Accepts a sender that is non-empty, at most 64 bytes long and holds no
/// newline.
pub fn validate_sender(s: &str) -> (r: Result<(), CliError>)
    ensures
        r is Ok <==> valid_sender(s@, s.spec_bytes()),
        r matches Err(e) ==> e matches CliError::InvalidSender(t) && t@ == s@,
{
    if s.is_empty() || s.as_bytes().len() > 64 {
        return Err(CliError::InvalidSender(String::from_str(s)));
    }
    let chars = crate::text::chars_of(s);
    let mut i: usize = 0;
    while i < chars.len()
        invariant
            chars@ == s@,
            i <= chars.len(),
            forall|k: int| 0 <= k < i ==> chars@[k] != '\n',
        decreases chars.len() - i,
    {
        if chars[i] == '\n' {
            return Err(CliError::InvalidSender(String::from_str(s)));
        }
        i = i + 1;
    }
    proof {
        if s@.contains('\n') {
            let k = choose|k: int| 0 <= k < s@.len() && s@[k] == '\n';
            assert(chars@[k] != '\n');
        }
    }
    Ok(())
}

/// Accepts a cursor that is the canonical text of a ULID.
pub fn validate_ulid_string(s: &str) -> (r: Result<(), CliError>)
    ensures
        r is Ok <==> is_ulid_text(s.spec_bytes()),
        r matches Err(e) ==> e matches CliError::InvalidUlid(t) && t@ == s@,
{
    if is_valid_ulid_str(s) {
        Ok(())
    } else {
        Err(CliError::InvalidUlid(String::from_str(s)))
    }
}

} // verus!
