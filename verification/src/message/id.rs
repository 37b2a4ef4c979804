//! Message ids: ULIDs, 128-bit values written as 26 Crockford Base32
//! characters. The text of an id orders exactly as its value does, which is
//! what makes a plain string comparison a valid cursor.

use vstd::prelude::*;
use vstd::arithmetic::power::pow;
use vstd::arithmetic::div_mod::{lemma_div_denominator, lemma_fundamental_div_mod};

use vstd::string::StringSliceAdditionalSpecFns;
use vstd::utf8::{encode_utf8, is_ascii_chars, is_ascii_chars_encode_utf8};

use crate::text::seq_lt;

verus! {

/// The number of characters in the text of a ULID.
pub const ULID_LEN: usize = 26;

/// Code point of the Crockford Base32 digit for `d` (`0 <= d < 32`), from the
/// alphabet `0123456789ABCDEFGHJKMNPQRSTVWXYZ`.
pub open spec fn crockford_code(d: int) -> int {
    if d < 10 {
        48 + d
    } else if d < 18 {
        65 + (d - 10)
    } else if d < 20 {
        74 + (d - 18)
    } else if d < 22 {
        77 + (d - 20)
    } else if d < 27 {
        80 + (d - 22)
    } else {
        86 + (d - 27)
    }
}

/// The Crockford Base32 digit for `d`.
pub open spec fn crockford_char(d: int) -> char {
    crockford_code(d) as char
}

/// `b` is an upper-case Crockford Base32 digit: `0-9`, `A-Z` without `I`,
/// `L`, `O` and `U`.
pub open spec fn crockford_upper_byte(b: u8) -> bool {
    (48 <= b <= 57) || (65 <= b <= 72) || b == 74 || b == 75 || b == 77 || b == 78 || (80
        <= b <= 84) || (86 <= b <= 90)
}

/// `b` is a Crockford Base32 digit in either case, as the `ulid` decoder
/// accepts it.
pub open spec fn crockford_any_byte(b: u8) -> bool {
    crockford_upper_byte(b) || (97 <= b <= 122 && crockford_upper_byte((b - 32) as u8))
}

/// `s` is the canonical text of a ULID: 26 bytes, each an upper-case
/// Crockford Base32 digit.
pub open spec fn is_ulid_text(s: Seq<u8>) -> bool {
    s.len() == 26 && forall|i: int| 0 <= i < s.len() ==> #[trigger] crockford_upper_byte(s[i])
}

/// The value of the first `k` digits of the 26-digit base-32 expansion of `v`.
pub open spec fn ulid_prefix(v: u128, k: int) -> int {
    v as int / pow(32, (26 - k) as nat)
}

/// Digit `i` (most significant first) of the 26-digit base-32 expansion of `v`.
pub open spec fn ulid_digit(v: u128, i: int) -> int {
    (v as int / pow(32, (25 - i) as nat)) % 32
}

/// The text of a ULID: its 26 base-32 digits, most significant first.
pub open spec fn ulid_text(v: u128) -> Seq<char> {
    Seq::new(26, |i: int| crockford_char(ulid_digit(v, i)))
}

/// Renders an id as its 26-character text.
///
/// Trusted: `ulid::Ulid::to_string`, which (through `base32::encode_to_array`)
/// writes, for each of the 26 positions, the alphabet entry of the 5 bits
/// that remain after shifting the value right by five times the number of
/// positions to its right; that is `ulid_text`.
#[verifier::external_body]
pub(crate) fn ulid_string(id: u128) -> (r: String)
    ensures
        r@ == ulid_text(id),
{
    ulid::Ulid(id).to_string()
}

/// Whether the `ulid` crate accepts `s` as a ULID.
///
/// Trusted: `ulid::Ulid::from_string(s).is_ok()`. The decoder in
/// `ulid::base32::decode` fails exactly when the byte length is not 26 or a
/// byte has no entry in its lookup table, whose entries are the Crockford
/// digits in either case. It never fails on overflow: high bits shift out.
#[verifier::external_body]
fn ulid_parses(s: &str) -> (r: bool)
    ensures
        r == (s.spec_bytes().len() == 26 && forall|i: int|
            0 <= i < s.spec_bytes().len() ==> #[trigger] crockford_any_byte(s.spec_bytes()[i])),
{
    ulid::Ulid::from_string(s).is_ok()
}

/// Whether `b` is an upper-case Crockford Base32 digit.
pub fn is_crockford_base32_byte(b: u8) -> (r: bool)
    ensures
        r == crockford_upper_byte(b),
{
    // '0'..='9' | 'A'..='H' | 'J' | 'K' | 'M' | 'N' | 'P'..='T' | 'V'..='Z'
    (48 <= b && b <= 57) || (65 <= b && b <= 72) || b == 74 || b == 75 || b == 77 || b == 78
        || (80 <= b && b <= 84) || (86 <= b && b <= 90)
}

/// Returns true iff `s` is a syntactically valid 26-char Crockford-Base32 ULID.
pub fn is_valid_ulid_str(s: &str) -> (r: bool)
    ensures
        r == is_ulid_text(s.spec_bytes()),
{
    let bytes = s.as_bytes();
    if bytes.len() != ULID_LEN {
        return false;
    }
    let mut i: usize = 0;
    while i < bytes.len()
        invariant
            bytes@ == s.spec_bytes(),
            i <= bytes.len(),
            forall|k: int| 0 <= k < i ==> #[trigger] crockford_upper_byte(bytes@[k]),
        decreases bytes.len() - i,
    {
        if !is_crockford_base32_byte(bytes[i]) {
            return false;
        }
        i = i + 1;
    }
    let parses = ulid_parses(s);
    proof {
        if !parses {
            let k = choose|k: int|
                0 <= k < s.spec_bytes().len() && !#[trigger] crockford_any_byte(s.spec_bytes()[k]);
            assert(crockford_upper_byte(bytes@[k]));
        }
    }
    parses
}

#[verifier::external_type_specification]
#[verifier::external_body]
pub struct ExGenerator(ulid::Generator);

/// The last id that a `ulid::Generator` handed out (its `previous` field; the
/// nil id `0` for a new generator).
pub uninterp spec fn generator_last(generator: ulid::Generator) -> u128;

/// The 80 random bits of an id (all but its 48-bit millisecond time) are all
/// ones, so that the id cannot be incremented within its millisecond.
pub open spec fn random_bits_full(id: u128) -> bool {
    id % 0x1_0000_0000_0000_0000_0000 == 0xFFFF_FFFF_FFFF_FFFF_FFFF
}

/// Trusted: `ulid::Generator::generate`. Its documentation guarantees that
/// each id it returns is larger than the last one; its source records the id
/// as the new last one, and fails (`None` here) only when the clock has not
/// passed the last id's millisecond and the last id's random bits are all
/// ones, leaving the generator as it was. Which id it returns depends on the
/// clock and on randomness and is not stated. (The id's 48-bit millisecond
/// field wraps in the year 10889, a clock that the guarantee does not cover.)
#[verifier::external_body]
fn generate_next(generator: &mut ulid::Generator) -> (r: Option<u128>)
    ensures
        r matches Some(id) ==> id > generator_last(*old(generator)) && generator_last(
            *final(generator),
        ) == id,
        r is None ==> random_bits_full(generator_last(*old(generator))) && generator_last(
            *final(generator),
        ) == generator_last(*old(generator)),
{
    match generator.generate() {
        Ok(id) => Some(id.0),
        Err(_) => None,
    }
}

/// Trusted: `ulid::Ulid::new`, a fresh id from the clock and randomness;
/// nothing is stated of its value.
#[verifier::external_body]
fn fresh_ulid() -> u128 {
    ulid::Ulid::new().0
}

/// Generates a fresh ULID for the current moment from `generator`: an id
/// larger than the generator's last one, which becomes its last id. Only
/// when the generator cannot go on (the last id's random bits are all ones
/// and the clock has not moved past its millisecond) is a fresh id drawn
/// instead, and the generator is left as it was.
pub fn now_ulid(generator: &mut ulid::Generator) -> (r: u128)
    ensures
        (r > generator_last(*old(generator)) && generator_last(*final(generator)) == r) || (
        random_bits_full(generator_last(*old(generator))) && generator_last(*final(generator))
            == generator_last(*old(generator))),
        !random_bits_full(generator_last(*old(generator))) ==> r > generator_last(
            *old(generator),
        ) && generator_last(*final(generator)) == r,
{
    match generate_next(generator) {
        Some(id) => id,
        None => fresh_ulid(),
    }
}

// ---------------------------------------------------------------------------
// The order of ids and the order of their texts
// ---------------------------------------------------------------------------

proof fn lemma_pow32_step(k: int)
    requires
        0 <= k <= 25,
    ensures
        pow(32, (26 - k) as nat) == pow(32, (25 - k) as nat) * 32,
        pow(32, (25 - k) as nat) > 0,
{
    reveal(pow);
    vstd::arithmetic::power::lemma_pow_positive(32, (25 - k) as nat);
}

proof fn lemma_pow32_26()
    ensures
        pow(32, 26) > u128::MAX,
{
    reveal_with_fuel(pow, 27);
}

/// The prefix of `k + 1` digits extends the prefix of `k` digits by digit `k`.
proof fn lemma_prefix_step(v: u128, k: int)
    requires
        0 <= k <= 25,
    ensures
        ulid_prefix(v, k + 1) == ulid_prefix(v, k) * 32 + ulid_digit(v, k),
        0 <= ulid_digit(v, k) < 32,
{
    lemma_pow32_step(k);
    let c = pow(32, (25 - k) as nat);
    let q = v as int / c;
    lemma_div_denominator(v as int, c, 32);
    lemma_fundamental_div_mod(q, 32);
    assert(ulid_prefix(v, k + 1) == q);
    assert(ulid_prefix(v, k) == q / 32);
}

proof fn lemma_prefix_ends(v: u128)
    ensures
        ulid_prefix(v, 0) == 0,
        ulid_prefix(v, 26) == v,
{
    lemma_pow32_26();
    vstd::arithmetic::div_mod::lemma_basic_div(v as int, pow(32, 26));
    assert(pow(32, 0) == 1) by {
        reveal(pow);
    }
}

/// A smaller prefix value makes a smaller id.
proof fn lemma_prefix_lt(a: u128, b: u128, k: int)
    requires
        0 <= k <= 26,
        ulid_prefix(a, k) < ulid_prefix(b, k),
    ensures
        a < b,
    decreases 26 - k,
{
    if k == 26 {
        lemma_prefix_ends(a);
        lemma_prefix_ends(b);
    } else {
        lemma_prefix_step(a, k);
        lemma_prefix_step(b, k);
        lemma_prefix_lt(a, b, k + 1);
    }
}

/// Distinct digits have distinct, equally ordered, characters.
proof fn lemma_crockford_monotone(x: int, y: int)
    requires
        0 <= x < 32,
        0 <= y < 32,
    ensures
        (x < y) == ((crockford_char(x) as int) < (crockford_char(y) as int)),
        (x == y) == (crockford_char(x) == crockford_char(y)),
{
    assert(crockford_char(x) as int == crockford_code(x));
    assert(crockford_char(y) as int == crockford_code(y));
}

proof fn lemma_text_order_from(a: u128, b: u128, k: int)
    requires
        0 <= k <= 26,
        ulid_text(a).take(k) == ulid_text(b).take(k),
        ulid_prefix(a, k) == ulid_prefix(b, k),
    ensures
        seq_lt(ulid_text(a).skip(k), ulid_text(b).skip(k)) == (a < b),
        (ulid_text(a).skip(k) == ulid_text(b).skip(k)) == (a == b),
    decreases 26 - k,
{
    let ta = ulid_text(a);
    let tb = ulid_text(b);
    if k == 26 {
        lemma_prefix_ends(a);
        lemma_prefix_ends(b);
        assert(ta.skip(26) =~= tb.skip(26));
    } else {
        lemma_prefix_step(a, k);
        lemma_prefix_step(b, k);
        let da = ulid_digit(a, k);
        let db = ulid_digit(b, k);
        lemma_crockford_monotone(da, db);
        assert(ta.skip(k)[0] == ta[k]);
        assert(tb.skip(k)[0] == tb[k]);
        assert(ta.skip(k).drop_first() =~= ta.skip(k + 1));
        assert(tb.skip(k).drop_first() =~= tb.skip(k + 1));
        if da == db {
            assert(ta.take(k + 1) =~= ta.take(k).push(ta[k]));
            assert(tb.take(k + 1) =~= tb.take(k).push(tb[k]));
            lemma_text_order_from(a, b, k + 1);
            if ta.skip(k + 1) == tb.skip(k + 1) {
                assert(ta.skip(k) =~= tb.skip(k));
            }
        } else if da < db {
            assert(ulid_prefix(a, k + 1) < ulid_prefix(b, k + 1));
            lemma_prefix_lt(a, b, k + 1);
        } else {
            assert(ulid_prefix(b, k + 1) < ulid_prefix(a, k + 1));
            lemma_prefix_lt(b, a, k + 1);
        }
    }
}

/// The text of one id precedes the text of another exactly when its value is
/// smaller, and two ids have the same text exactly when they are equal: the
/// lexicographic order of ids is their time order.
pub proof fn lemma_ulid_text_order(a: u128, b: u128)
    ensures
        seq_lt(ulid_text(a), ulid_text(b)) == (a < b),
        (ulid_text(a) == ulid_text(b)) == (a == b),
{
    lemma_prefix_ends(a);
    lemma_prefix_ends(b);
    assert(ulid_text(a).take(0) =~= ulid_text(b).take(0));
    lemma_text_order_from(a, b, 0);
    assert(ulid_text(a).skip(0) =~= ulid_text(a));
    assert(ulid_text(b).skip(0) =~= ulid_text(b));
}

/// The text of every id is canonical ULID text, so any id that `read`
/// prints is accepted back as a `--since` cursor.
pub proof fn lemma_ulid_text_is_canonical(v: u128)
    ensures
        is_ulid_text(encode_utf8(ulid_text(v))),
{
    let t = ulid_text(v);
    assert forall|i: int| 0 <= i < 26 implies '\0' <= #[trigger] t[i] <= '\u{7f}'
        && crockford_upper_byte(t[i] as u8) by {
        if i < 25 {
            lemma_prefix_step(v, i);
        } else {
            lemma_prefix_step(v, 25);
        }
        assert(t[i] as int == crockford_code(ulid_digit(v, i)));
    }
    assert(is_ascii_chars(t));
    is_ascii_chars_encode_utf8(t);
    assert forall|i: int| 0 <= i < encode_utf8(t).len() implies #[trigger] crockford_upper_byte(
        encode_utf8(t)[i],
    ) by {
        assert(t[i] as u8 == encode_utf8(t)[i]);
    }
}

proof fn lemma_generated_ids_increase_to(lasts: Seq<u128>, ids: Seq<u128>, i: int, j: int)
    requires
        lasts.len() == ids.len() + 1,
        forall|k: int| 0 <= k < ids.len() ==> #[trigger] ids[k] > lasts[k] && lasts[k + 1] == ids[k],
        0 <= i < j < ids.len(),
    ensures
        ids[i] < ids[j],
    decreases j - i,
{
    assert(ids[j] > lasts[j] && lasts[j] == ids[j - 1]);
    if i < j - 1 {
        lemma_generated_ids_increase_to(lasts, ids, i, j - 1);
    }
}

/// Ids that one generator hands out one after another increase: when each id
/// exceeds the generator's last id before the call and becomes its last id
/// (as `now_ulid` promises unless the random bits are full), the ids are in
/// strictly increasing order, and so are their texts.
pub proof fn lemma_generated_ids_increase(lasts: Seq<u128>, ids: Seq<u128>)
    requires
        lasts.len() == ids.len() + 1,
        forall|k: int| 0 <= k < ids.len() ==> #[trigger] ids[k] > lasts[k] && lasts[k + 1] == ids[k],
    ensures
        forall|i: int, j: int| 0 <= i < j < ids.len() ==> #[trigger] ids[i] < #[trigger] ids[j],
        forall|i: int, j: int|
            0 <= i < j < ids.len() ==> seq_lt(#[trigger] ulid_text(ids[i]), #[trigger] ulid_text(ids[j])),
{
    assert forall|i: int, j: int| 0 <= i < j < ids.len() implies #[trigger] ids[i] < #[trigger] ids[j] by {
        lemma_generated_ids_increase_to(lasts, ids, i, j);
    }
    assert forall|i: int, j: int| 0 <= i < j < ids.len() implies seq_lt(
        #[trigger] ulid_text(ids[i]),
        #[trigger] ulid_text(ids[j]),
    ) by {
        lemma_generated_ids_increase_to(lasts, ids, i, j);
        lemma_ulid_text_order(ids[i], ids[j]);
    }
}

} // verus!
