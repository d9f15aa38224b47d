use vstd::prelude::*;
use vstd::slice::slice_index_get;

use ethers::abi::Function;

verus! {

#[verifier::external_type_specification]
#[verifier::external_body]
pub struct ExFunction(Function);

/// `b` is the code of an ASCII decimal digit (`0-9`).
pub open spec fn is_dec_digit(b: u8) -> bool {
    0x30 <= b && b <= 0x39
}

/// Every byte of `s[i..j)` is a decimal digit.
pub open spec fn all_dec_digits(s: Seq<u8>, i: int, j: int) -> bool {
    forall|k: int| i <= k < j ==> is_dec_digit(#[trigger] s[k])
}

/// The numeric value of a run of decimal digits, most significant first.
pub open spec fn dec_value(d: Seq<u8>) -> nat
    decreases d.len(),
{
    if d.len() == 0 {
        0
    } else {
        dec_value(d.drop_last()) * 10 + (d.last() - 0x30) as nat
    }
}

/// Every contiguous stretch of decimal digits ending at or before `end`
/// has a numeric value that fits in `usize`.
pub open spec fn runs_fit_upto(s: Seq<u8>, end: int) -> bool {
    forall|i: int, j: int|
        0 <= i <= j <= end && all_dec_digits(s, i, j) ==> dec_value(#[trigger] s.subrange(i, j))
            <= usize::MAX as nat
}

/// Every decimal digit run in `s` (every contiguous stretch of digits, so
/// in particular every maximal one) has a numeric value that fits in
/// `usize`.
pub open spec fn digit_runs_fit(s: Seq<u8>) -> bool {
    runs_fit_upto(s, s.len() as int)
}

/// Dropping trailing digits never increases the value of a run.
proof fn lemma_dec_value_take(d: Seq<u8>, m: int)
    requires
        0 <= m <= d.len(),
    ensures
        dec_value(d.subrange(0, m)) <= dec_value(d),
    decreases d.len(),
{
    if m == d.len() {
        assert(d.subrange(0, m) =~= d);
    } else {
        let dl = d.drop_last();
        assert(d.subrange(0, m) =~= dl.subrange(0, m));
        lemma_dec_value_take(dl, m);
    }
}

/// Dropping leading digits never increases the value of a run.
proof fn lemma_dec_value_skip(d: Seq<u8>, m: int)
    requires
        0 <= m <= d.len(),
    ensures
        dec_value(d.skip(m)) <= dec_value(d),
    decreases d.len(),
{
    if m == d.len() {
        assert(d.skip(m) =~= Seq::<u8>::empty());
    } else {
        let dl = d.drop_last();
        assert(d.skip(m).drop_last() =~= dl.skip(m));
        assert(d.skip(m).last() == d.last());
        lemma_dec_value_skip(dl, m);
    }
}

/// The value of a stretch inside a run is at most the value of the whole
/// run.
proof fn lemma_dec_value_subrange(s: Seq<u8>, rs: int, re: int, i: int, j: int)
    requires
        0 <= rs <= i <= j <= re <= s.len(),
    ensures
        dec_value(s.subrange(i, j)) <= dec_value(s.subrange(rs, re)),
{
    let run = s.subrange(rs, re);
    let tail = run.skip(i - rs);
    lemma_dec_value_skip(run, i - rs);
    assert(tail.subrange(0, j - i) =~= s.subrange(i, j));
    lemma_dec_value_take(tail, j - i);
}

/// Decides `digit_runs_fit`: walks every maximal digit run and accumulates
/// its value, reporting failure as soon as one exceeds `usize::MAX`.
pub(crate) fn check_digit_runs_fit(s: &[u8]) -> (r: bool)
    ensures
        r == digit_runs_fit(s@),
{
    let n: usize = s.len();
    let mut i: usize = 0;
    proof {
        assert forall|i0: int, j0: int|
            0 <= i0 <= j0 <= 0 && all_dec_digits(s@, i0, j0) implies dec_value(
            s@.subrange(i0, j0),
        ) <= usize::MAX as nat by {
            assert(s@.subrange(i0, j0) =~= Seq::<u8>::empty());
        }
    }
    while i < n
        invariant
            0 <= i <= n,
            n == s@.len(),
            i == 0 || i == n || !is_dec_digit(s@[i - 1]) || !is_dec_digit(s@[i as int]),
            runs_fit_upto(s@, i as int),
        decreases n - i,
    {
        let b = *slice_index_get(s, i);
        if b < 0x30 || b > 0x39 {
            proof {
                assert forall|i0: int, j0: int|
                    0 <= i0 <= j0 <= i + 1 && all_dec_digits(s@, i0, j0) implies dec_value(
                    s@.subrange(i0, j0),
                ) <= usize::MAX as nat by {
                    if j0 == i + 1 {
                        if i0 < j0 {
                            assert(is_dec_digit(s@[i as int]));
                        } else {
                            assert(s@.subrange(i0, j0) =~= Seq::<u8>::empty());
                        }
                    }
                }
            }
            i = i + 1;
        } else {
            let rs: usize = i;
            let re: usize = digit_run_end(s, rs);
            let umax: u128 = usize::MAX as u128;
            let mut val: u128 = 0;
            let mut j: usize = rs;
            proof {
                assert(s@.subrange(rs as int, rs as int) =~= Seq::<u8>::empty());
            }
            while j < re
                invariant
                    rs <= j <= re <= s@.len(),
                    umax == usize::MAX as u128,
                    all_dec_digits(s@, rs as int, re as int),
                    val as nat == dec_value(s@.subrange(rs as int, j as int)),
                    val <= umax,
                    runs_fit_upto(s@, rs as int),
                    rs == 0 || !is_dec_digit(s@[rs - 1]),
                    n == s@.len(),
                decreases re - j,
            {
                let c = *slice_index_get(s, j);
                let d: u128 = (c - 0x30) as u128;
                let newval: u128 = val * 10 + d;
                proof {
                    let run1 = s@.subrange(rs as int, j as int + 1);
                    assert(run1.drop_last() =~= s@.subrange(rs as int, j as int));
                    assert(run1.last() == s@[j as int]);
                    assert(newval as nat == dec_value(run1));
                }
                if newval > umax {
                    proof {
                        assert(all_dec_digits(s@, rs as int, j as int + 1));
                        assert(dec_value(s@.subrange(rs as int, j as int + 1)) > usize::MAX
                            as nat);
                        assert(!digit_runs_fit(s@));
                    }
                    return false;
                }
                val = newval;
                j = j + 1;
            }
            proof {
                assert forall|i0: int, j0: int|
                    0 <= i0 <= j0 <= re as int && all_dec_digits(s@, i0, j0) implies dec_value(
                    s@.subrange(i0, j0),
                ) <= usize::MAX as nat by {
                    if j0 <= rs as int {
                        assert(dec_value(s@.subrange(i0, j0)) <= usize::MAX as nat);
                    } else {
                        if i0 < rs as int {
                            assert(is_dec_digit(s@[rs as int - 1]));
                            assert(false);
                        }
                        lemma_dec_value_subrange(s@, rs as int, re as int, i0, j0);
                    }
                }
            }
            i = re;
        }
    }
    true
}

/// Returns the end of the digit run starting at `from`: the first position
/// at or after `from` holding no decimal digit.
fn digit_run_end(s: &[u8], from: usize) -> (r: usize)
    requires
        from <= s@.len(),
    ensures
        from <= r <= s@.len(),
        all_dec_digits(s@, from as int, r as int),
        r < s@.len() ==> !is_dec_digit(s@[r as int]),
{
    let mut j: usize = from;
    while j < s.len()
        invariant
            from <= j <= s@.len(),
            all_dec_digits(s@, from as int, j as int),
        decreases s@.len() - j,
    {
        let b = *slice_index_get(s, j);
        if b < 0x30 || b > 0x39 {
            return j;
        }
        j = j + 1;
    }
    j
}

/// The outcome of handing the given UTF-8 bytes to the delegated ABI
/// signature parser: `None` when the bytes are not valid UTF-8 or the parser
/// rejects the text, otherwise the parsed function. The outcome depends on
/// the bytes alone.
pub uninterp spec fn abi_parsed(sig: Seq<u8>) -> Option<Function>;

/// Relies on ethers::abi::AbiParser::parse_function, run on a freshly built
/// `AbiParser::default()`: the parser then knows no user-defined types, so
/// whether the text parses, and the `Function` produced, are determined by
/// the text alone.
///
/// The `requires` keeps out the one input class on which the parser panics
/// instead of returning: a fixed-size-array type whose decimal size
/// overflows `usize` reaches an unwrapped `str::parse` in the type lexer,
/// and every such size stands in the text as a contiguous decimal digit
/// run. (The parser also recurses once per `[` while reading array
/// suffixes; call-stack exhaustion on absurdly long inputs is outside what
/// these contracts model.)
#[verifier::external_body]
pub(crate) fn parse_abi_function(sig: &[u8]) -> (r: Option<Function>)
    requires
        digit_runs_fit(sig@),
    ensures
        r == abi_parsed(sig@),
{
    match core::str::from_utf8(sig) {
        Ok(text) => ethers::abi::AbiParser::default().parse_function(text).ok(),
        Err(_) => None,
    }
}

} // verus!
