use vstd::prelude::*;
use vstd::slice::slice_index_get;
use vstd::slice::slice_subrange;
use vstd::string::StringSliceAdditionalSpecFns;

use crate::abi::abi_parsed;
use crate::abi::check_digit_runs_fit;
use crate::abi::digit_runs_fit;
use crate::abi::parse_abi_function;
use crate::error::Error;
use crate::selector::selector_of;
use crate::selector::Selector;
use ethers::abi::Function;

verus! {

/// `b` is the code of an ASCII hexadecimal digit (`0-9`, `a-f`, `A-F`).
pub open spec fn is_hex_digit(b: u8) -> bool {
    (0x30 <= b && b <= 0x39) || (0x61 <= b && b <= 0x66) || (0x41 <= b && b <= 0x46)
}

/// The numeric value of a hexadecimal digit.
pub open spec fn hex_digit_value(b: u8) -> u8
    recommends
        is_hex_digit(b),
{
    if 0x30 <= b && b <= 0x39 {
        (b - 0x30) as u8
    } else if 0x61 <= b && b <= 0x66 {
        (b - 0x61 + 10) as u8
    } else {
        (b - 0x41 + 10) as u8
    }
}

/// The bytes start with the literal prefix `0x`.
pub open spec fn has_hex_prefix(s: Seq<u8>) -> bool {
    s.len() >= 2 && s[0] == 0x30u8 && s[1] == 0x78u8
}

pub open spec fn all_hex_digits(d: Seq<u8>) -> bool {
    forall|i: int| 0 <= i < d.len() ==> is_hex_digit(#[trigger] d[i])
}

/// Within the digit part `d` (prefix already stripped, even length), the
/// two-digit group starting at even offset `i` is the first invalid one.
pub open spec fn first_bad_pair_at(d: Seq<u8>, i: int) -> bool {
    &&& 0 <= i < d.len()
    &&& i % 2 == 0
    &&& i + 1 < d.len()
    &&& !(is_hex_digit(d[i]) && is_hex_digit(d[i + 1]))
    &&& forall|j: int|
        0 <= j < i && j % 2 == 0 ==> is_hex_digit(#[trigger] d[j]) && is_hex_digit(d[j + 1])
}

pub open spec fn first_bad_pair(d: Seq<u8>) -> int {
    choose|i: int| first_bad_pair_at(d, i)
}

/// The whole string decodes as hex: `0x` prefix, an even number of digits,
/// every digit valid.
pub open spec fn hex_decode_ok(s: Seq<u8>) -> bool {
    has_hex_prefix(s) && (s.len() - 2) % 2 == 0 && all_hex_digits(s.skip(2))
}

/// Which error hex decoding reports, when it fails.
pub open spec fn hex_error(s: Seq<u8>) -> Error {
    if !has_hex_prefix(s) {
        Error::MissingPrefix
    } else if (s.len() - 2) % 2 != 0 {
        Error::OddLength
    } else {
        Error::InvalidDigit(first_bad_pair(s.skip(2)) as usize)
    }
}

/// The decoded bytes, one per two-digit group after the prefix.
pub open spec fn hex_decoded(s: Seq<u8>) -> Seq<u8>
    recommends
        hex_decode_ok(s),
{
    Seq::new(
        (((s.len() - 2) / 2) as nat),
        |i: int| (hex_digit_value(s[2 + 2 * i]) * 16 + hex_digit_value(s[2 + 2 * i + 1])) as u8,
    )
}

proof fn lemma_first_bad_pair_unique(d: Seq<u8>, i: int, j: int)
    requires
        first_bad_pair_at(d, i),
        first_bad_pair_at(d, j),
    ensures
        i == j,
{
    if i < j {
        assert(is_hex_digit(d[i]) && is_hex_digit(d[i + 1]));
    } else if j < i {
        assert(is_hex_digit(d[j]) && is_hex_digit(d[j + 1]));
    }
}

/// Decodes one ASCII hexadecimal digit.
fn hex_digit(b: u8) -> (r: Option<u8>)
    ensures
        r matches Some(v) ==> is_hex_digit(b) && v == hex_digit_value(b),
        r is None ==> !is_hex_digit(b),
{
    if 0x30 <= b && b <= 0x39 {
        Some(b - 0x30)
    } else if 0x61 <= b && b <= 0x66 {
        Some(b - 0x61 + 10)
    } else if 0x41 <= b && b <= 0x46 {
        Some(b - 0x41 + 10)
    } else {
        None
    }
}

/// Byte-level worker behind [`parse_hex_string_to_bytes`].
pub(crate) fn hex_bytes_decode(s: &[u8]) -> (r: Result<Vec<u8>, Error>)
    ensures
        hex_decode_ok(s@) ==> (r matches Ok(v) && v@ == hex_decoded(s@)),
        !hex_decode_ok(s@) ==> r == Err::<Vec<u8>, Error>(hex_error(s@)),
{
    let n: usize = s.len();
    if n < 2 || *slice_index_get(s, 0) != 0x30 || *slice_index_get(s, 1) != 0x78 {
        return Err(Error::MissingPrefix);
    }
    if (n - 2) % 2 != 0 {
        return Err(Error::OddLength);
    }
    let ghost d: Seq<u8> = s@.skip(2);
    let mut out: Vec<u8> = Vec::new();
    let mut i: usize = 2;
    while i < n
        invariant
            n == s@.len(),
            2 <= i <= n,
            (i - 2) % 2 == 0,
            (n - 2) % 2 == 0,
            has_hex_prefix(s@),
            d == s@.skip(2),
            out@.len() == (i - 2) / 2,
            forall|j: int|
                0 <= j < (i - 2) / 2 ==> #[trigger] out@[j] == (hex_digit_value(s@[2 + 2 * j]) * 16
                    + hex_digit_value(s@[2 + 2 * j + 1])) as u8,
            forall|j: int| 2 <= j < i ==> is_hex_digit(#[trigger] s@[j]),
        decreases n - i,
    {
        let hi = hex_digit(*slice_index_get(s, i));
        let lo = hex_digit(*slice_index_get(s, i + 1));
        match (hi, lo) {
            (Some(h), Some(l)) => {
                proof {
                    assert(h <= 15 && l <= 15);
                }
                out.push(h * 16 + l);
                i = i + 2;
            },
            _ => {
                proof {
                    assert(d.len() == n - 2);
                    assert(forall|j: int| 0 <= j < d.len() ==> #[trigger] d[j] == s@[j + 2]);
                    assert(first_bad_pair_at(d, i - 2));
                    assert(!all_hex_digits(d));
                    assert(exists|x: int| first_bad_pair_at(d, x));
                    lemma_first_bad_pair_unique(d, i - 2, first_bad_pair(d));
                }
                return Err(Error::InvalidDigit(i - 2));
            },
        }
    }
    proof {
        assert(forall|j: int| 0 <= j < d.len() ==> #[trigger] d[j] == s@[j + 2]);
        assert(all_hex_digits(d));
        assert(out@ =~= hex_decoded(s@));
    }
    Ok(out)
}

/// Interprets a string as a `0x`-prefixed, hex-encoded byte string and
/// decodes it. Fails with `MissingPrefix` when the prefix is absent,
/// `OddLength` when the digit count after the prefix is odd, and
/// `InvalidDigit` (carrying the offset of the first bad two-digit group
/// within the digit part) when a group is not valid hexadecimal.
pub fn parse_hex_string_to_bytes(hex: &str) -> (r: Result<Vec<u8>, Error>)
    ensures
        hex_decode_ok(hex.spec_bytes()) ==> (r matches Ok(v) && v@ == hex_decoded(
            hex.spec_bytes(),
        )),
        !hex_decode_ok(hex.spec_bytes()) ==> r == Err::<Vec<u8>, Error>(
            hex_error(hex.spec_bytes()),
        ),
{
    hex_bytes_decode(hex.as_bytes())
}

/// A well-formed selector string: it decodes as hex to exactly 4 or 32 bytes.
pub open spec fn selector_spec_ok(s: Seq<u8>) -> bool {
    hex_decode_ok(s) && (hex_decoded(s).len() == 4 || hex_decoded(s).len() == 32)
}

/// Which error selector parsing reports, when it fails.
pub open spec fn selector_error(s: Seq<u8>) -> Error {
    if !hex_decode_ok(s) {
        hex_error(s)
    } else {
        Error::InvalidLength(hex_decoded(s).len() as usize)
    }
}

/// Byte-level worker behind [`parse_selector`].
pub(crate) fn selector_from_bytes(s: &[u8]) -> (r: Result<Selector, Error>)
    ensures
        selector_spec_ok(s@) ==> (r matches Ok(sel) && sel@ == hex_decoded(s@)),
        !selector_spec_ok(s@) ==> r == Err::<Selector, Error>(selector_error(s@)),
{
    let bytes = match hex_bytes_decode(s) {
        Ok(bytes) => bytes,
        Err(e) => {
            return Err(e);
        },
    };
    Selector::try_from_bytes(bytes.as_slice())
}

/// Decodes a `0x`-prefixed hex string into a selector: 4 decoded bytes give
/// a `Four` selector, 32 a `ThirtyTwo` one; any hex failure propagates and
/// any other decoded length is rejected with `InvalidLength`.
pub fn parse_selector(raw_selector: &str) -> (r: Result<Selector, Error>)
    ensures
        selector_spec_ok(raw_selector.spec_bytes()) ==> (r matches Ok(sel) && sel@ == hex_decoded(
            raw_selector.spec_bytes(),
        )),
        !selector_spec_ok(raw_selector.spec_bytes()) ==> r == Err::<Selector, Error>(
            selector_error(raw_selector.spec_bytes()),
        ),
{
    selector_from_bytes(raw_selector.as_bytes())
}

/// `i` is the position of the first comma in `b`.
pub open spec fn is_first_comma(b: Seq<u8>, i: int) -> bool {
    &&& 0 <= i < b.len()
    &&& b[i] == 0x2cu8
    &&& forall|j: int| 0 <= j < i ==> #[trigger] b[j] != 0x2cu8
}

pub open spec fn has_comma(b: Seq<u8>) -> bool {
    exists|i: int| is_first_comma(b, i)
}

pub open spec fn first_comma(b: Seq<u8>) -> int {
    choose|i: int| is_first_comma(b, i)
}

/// What stands before the first comma: the selector half of a record.
pub open spec fn line_selector_part(b: Seq<u8>) -> Seq<u8> {
    b.take(first_comma(b))
}

/// What stands after the first comma: the signature half of a record. Later
/// commas belong to the signature text and are not split on.
pub open spec fn line_signature_part(b: Seq<u8>) -> Seq<u8> {
    b.skip(first_comma(b) + 1)
}

/// The outcome of parsing one line of the export format.
///
/// - An empty line yields nothing.
/// - A non-empty line without a comma is a hard `MalformedRecord` error.
/// - A malformed selector half is a hard error.
/// - A signature half holding a decimal digit run too large for `usize` is
///   dropped without being handed to the delegated parser: such a run could
///   only ever be an array size the parser cannot represent, and the parser
///   panics on it instead of failing.
/// - A signature half the delegated parser rejects is silently dropped.
/// - Otherwise the line yields its selector and parsed signature.
pub open spec fn line_parsed(b: Seq<u8>) -> Result<Option<(Selector, Function)>, Error> {
    if b.len() == 0 {
        Ok(None)
    } else if !has_comma(b) {
        Err(Error::MalformedRecord)
    } else if !selector_spec_ok(line_selector_part(b)) {
        Err(selector_error(line_selector_part(b)))
    } else if !digit_runs_fit(line_signature_part(b)) {
        Ok(None)
    } else {
        match abi_parsed(line_signature_part(b)) {
            None => Ok(None),
            Some(function) => Ok(
                Some((selector_of(hex_decoded(line_selector_part(b))), function)),
            ),
        }
    }
}

proof fn lemma_first_comma_unique(b: Seq<u8>, i: int, j: int)
    requires
        is_first_comma(b, i),
        is_first_comma(b, j),
    ensures
        i == j,
{
    if i < j {
        assert(b[i] != 0x2cu8);
    } else if j < i {
        assert(b[j] != 0x2cu8);
    }
}

/// Finds the position of the first comma, if any.
fn find_first_comma(b: &[u8]) -> (r: Option<usize>)
    ensures
        r matches Some(i) ==> is_first_comma(b@, i as int),
        r is None ==> !has_comma(b@),
{
    let mut i: usize = 0;
    while i < b.len()
        invariant
            0 <= i <= b@.len(),
            forall|j: int| 0 <= j < i ==> #[trigger] b@[j] != 0x2cu8,
        decreases b@.len() - i,
    {
        if *slice_index_get(b, i) == 0x2c {
            return Some(i);
        }
        i = i + 1;
    }
    None
}

/// Byte-level worker behind [`parse_line`].
pub(crate) fn line_parse_bytes(b: &[u8]) -> (r: Result<Option<(Selector, Function)>, Error>)
    ensures
        r == line_parsed(b@),
{
    if b.len() == 0 {
        return Ok(None);
    }
    let comma = match find_first_comma(b) {
        Some(i) => i,
        None => {
            return Err(Error::MalformedRecord);
        },
    };
    proof {
        assert(has_comma(b@));
        lemma_first_comma_unique(b@, comma as int, first_comma(b@));
    }
    let sel_part = slice_subrange(b, 0, comma);
    let sig_part = slice_subrange(b, comma + 1, b.len());
    proof {
        assert(sel_part@ =~= line_selector_part(b@));
        assert(sig_part@ =~= line_signature_part(b@));
    }
    let selector = match selector_from_bytes(sel_part) {
        Ok(selector) => selector,
        Err(e) => {
            return Err(e);
        },
    };
    if !check_digit_runs_fit(sig_part) {
        return Ok(None);
    }
    match parse_abi_function(sig_part) {
        None => Ok(None),
        Some(function) => {
            proof {
                let decoded = hex_decoded(line_selector_part(b@));
                assert(selector@ == decoded);
                assert(exists|s: Selector| s@ == decoded);
                assert(selector_of(decoded)@ == decoded);
                Selector::lemma_eq_iff_same_bytes(selector, selector_of(decoded));
            }
            Ok(Some((selector, function)))
        },
    }
}

/// Parses one line of the export format, split on the first comma into a
/// selector half and a signature half.
pub fn parse_line(line: &str) -> (r: Result<Option<(Selector, Function)>, Error>)
    ensures
        r == line_parsed(line.spec_bytes()),
{
    line_parse_bytes(line.as_bytes())
}

} // verus!
