//! The wire format of one frame: a line of 64 characters, each `'0'` or `'1'`,
//! the first character being the most significant bit of a 64-bit bitmap.
use vstd::prelude::*;
use vstd::arithmetic::div_mod::{
    lemma_basic_div, lemma_div_denominator, lemma_fundamental_div_mod,
    lemma_fundamental_div_mod_converse,
};
use vstd::arithmetic::power2::{lemma2_to64, lemma_pow2_pos, lemma_pow2_unfold, pow2};
use vstd::utf8::is_ascii_chars_encode_utf8;
use vstd::utf8::encode_utf8;

use crate::text::{chars_of, utf8_len_is};

verus! {

broadcast use vstd::string::group_string_axioms;

/// Number of bits (and characters) in one frame.
pub const FRAME_BITS: usize = 64;

/// Why a line of text is not a frame.
#[derive(Clone, Copy, Debug, PartialEq, Eq, Structural)]
pub enum FrameError {
    /// The line is not exactly 64 bytes long.
    InvalidLength,
    /// The line holds a character other than `'0'` and `'1'`.
    InvalidContent,
}

impl FrameError {
    /// The human-readable reason, as the receiver reports it.
    pub fn description(&self) -> (r: &'static str)
        ensures
            *self == FrameError::InvalidLength ==> r@ == "data length must be 64"@,
            *self == FrameError::InvalidContent ==> r@ == "data content must be 0 or 1"@,
    {
        match self {
            FrameError::InvalidLength => "data length must be 64",
            FrameError::InvalidContent => "data content must be 0 or 1",
        }
    }
}

/// Checks and decodes frame lines.
pub struct ProtocolParser;

pub open spec fn is_binary_digit(c: char) -> bool {
    c == '0' || c == '1'
}

pub open spec fn all_binary(s: Seq<char>) -> bool {
    forall|i: int| 0 <= i < s.len() ==> #[trigger] is_binary_digit(s[i])
}

pub open spec fn digit_value(c: char) -> nat {
    if c == '1' {
        1
    } else {
        0
    }
}

/// The number that a string of binary digits denotes, most significant digit first.
pub open spec fn binary_value(s: Seq<char>) -> nat
    decreases s.len(),
{
    if s.len() == 0 {
        0
    } else {
        2 * binary_value(s.drop_last()) + digit_value(s.last())
    }
}

/// What the check of a frame line gives: the length is checked in bytes of
/// UTF-8 first, then the characters.
pub open spec fn frame_check(s: Seq<char>) -> Result<(), FrameError> {
    if encode_utf8(s).len() != FRAME_BITS {
        Err(FrameError::InvalidLength)
    } else if !all_binary(s) {
        Err(FrameError::InvalidContent)
    } else {
        Ok(())
    }
}

/// The digits of an unsigned number: a leading `+` sign is dropped.
pub open spec fn unsigned_digits(s: Seq<char>) -> Seq<char> {
    if s.len() > 0 && s[0] == '+' {
        s.drop_first()
    } else {
        s
    }
}

/// Reading an unsigned 64-bit number in base 2: an optional `+` sign followed by
/// at least one digit, and nothing else; `None` when the number does not fit.
pub open spec fn binary_u64(s: Seq<char>) -> Option<u64> {
    let d = unsigned_digits(s);
    if d.len() > 0 && all_binary(d) && binary_value(d) <= u64::MAX {
        Some(binary_value(d) as u64)
    } else {
        None
    }
}

/// Bit `k` (counting from the least significant) of a natural number.
pub open spec fn bit_of(v: nat, k: nat) -> nat {
    (v / pow2(k)) % 2
}

impl ProtocolParser {
    /// Checks that `data` is a frame line: 64 bytes long, and made of `'0'` and `'1'` only.
    pub fn validate_frame_data(data: &String) -> (r: Result<(), FrameError>)
        ensures
            r == frame_check(data@),
    {
        let chars = chars_of(data.as_str());
        if !utf8_len_is(&chars, FRAME_BITS) {
            return Err(FrameError::InvalidLength);
        }
        let n = chars.len();
        let mut i: usize = 0;
        while i < n
            invariant
                n == chars@.len(),
                chars@ == data@,
                encode_utf8(data@).len() == FRAME_BITS,
                i <= n,
                forall|j: int| 0 <= j < i ==> #[trigger] is_binary_digit(chars@[j]),
            decreases n - i,
        {
            let c = chars[i];
            if !(c == '0' || c == '1') {
                assert(!is_binary_digit(data@[i as int]));
                return Err(FrameError::InvalidContent);
            }
            i = i + 1;
        }
        Ok(())
    }

    /// Reads `data` as an unsigned 64-bit number written in base 2.
    pub fn parse_frame_data(data: String) -> (r: Option<u64>)
        ensures
            r == binary_u64(data@),
    {
        let chars = chars_of(data.as_str());
        let n = chars.len();
        let start: usize = if n > 0 && chars[0] == '+' {
            1
        } else {
            0
        };
        let ghost d = unsigned_digits(data@);
        assert(d =~= data@.subrange(start as int, n as int));
        if start == n {
            return None;
        }
        let mut acc: u64 = 0;
        let mut overflow = false;
        let mut i: usize = start;
        while i < n
            invariant
                n == chars@.len(),
                chars@ == data@,
                d == unsigned_digits(data@),
                d =~= data@.subrange(start as int, n as int),
                start <= i <= n,
                all_binary(d.take(i - start)),
                !overflow ==> acc == binary_value(d.take(i - start)),
                overflow ==> binary_value(d.take(i - start)) > u64::MAX,
            decreases n - i,
        {
            let c = chars[i];
            let ghost k: int = i - start;
            assert(d.take(k + 1).drop_last() =~= d.take(k));
            assert(d.take(k + 1).last() == c);
            if !(c == '0' || c == '1') {
                assert(!is_binary_digit(d[k]));
                return None;
            }
            assert(all_binary(d.take(k + 1))) by {
                assert forall|j: int| 0 <= j < k + 1 implies #[trigger] is_binary_digit(
                    d.take(k + 1)[j],
                ) by {
                    if j < k {
                        assert(d.take(k + 1)[j] == d.take(k)[j]);
                    }
                }
            }
            let bit: u64 = if c == '1' {
                1
            } else {
                0
            };
            if !overflow {
                if acc > 0x7fff_ffff_ffff_ffff {
                    overflow = true;
                } else {
                    acc = acc * 2 + bit;
                }
            }
            i = i + 1;
        }
        assert(d.take(n - start) =~= d);
        if overflow {
            None
        } else {
            Some(acc)
        }
    }
}


/// A number written with `n` binary digits is below `2^n`.
pub proof fn lemma_binary_value_bound(s: Seq<char>)
    ensures
        binary_value(s) < pow2(s.len()),
    decreases s.len(),
{
    if s.len() == 0 {
        lemma2_to64();
    } else {
        lemma_binary_value_bound(s.drop_last());
        lemma_pow2_unfold(s.len());
    }
}

proof fn lemma_halve(x: nat, d: nat, p: nat)
    requires
        d < 2,
        p > 0,
    ensures
        ((2 * x + d) as nat) / ((2 * p) as nat) == x / p,
        ((2 * x + d) as nat) % 2 == d,
{
    lemma_fundamental_div_mod(x as int, p as int);
    let q = x / p;
    let r = x % p;
    assert(2 * x + d == q * (2 * p) + (2 * r + d)) by (nonlinear_arith)
        requires
            x == p * q + r,
    ;
    lemma_fundamental_div_mod_converse((2 * x + d) as int, (2 * p) as int, q as int, (2 * r + d) as int);
    lemma_fundamental_div_mod_converse((2 * x + d) as int, 2, x as int, d as int);
}

/// Digit `i` of a binary string (counted from the left) is bit `len - 1 - i` of its value.
pub proof fn lemma_binary_value_bit(s: Seq<char>, i: int)
    requires
        0 <= i < s.len(),
    ensures
        bit_of(binary_value(s), (s.len() - 1 - i) as nat) == digit_value(s[i]),
    decreases s.len(),
{
    let t = s.drop_last();
    let d = digit_value(s.last());
    let k = (s.len() - 1 - i) as nat;
    let v = binary_value(s);
    let x = binary_value(t);
    assert(v == 2 * x + d);
    lemma_pow2_pos(k);
    if i == s.len() - 1 {
        lemma2_to64();
        lemma_halve(x, d, 1);
        assert(k == 0);
        assert(pow2(0) == 1);
        assert(v / 1 == v) by (nonlinear_arith);
        assert(v / pow2(k) == v);
    } else {
        lemma_pow2_unfold(k);
        let p = pow2((k - 1) as nat);
        lemma_pow2_pos((k - 1) as nat);
        lemma_halve(x, d, p);
        assert(pow2(k) == 2 * p);
        assert(v / pow2(k) == x / p);
        lemma_binary_value_bit(t, i);
        assert(t[i] == s[i]);
    }
}

/// A line that passes the frame check is 64 characters, each `'0'` or `'1'`.
pub proof fn lemma_valid_frame_shape(s: Seq<char>)
    requires
        frame_check(s) is Ok,
    ensures
        s.len() == FRAME_BITS,
        all_binary(s),
{
    assert(vstd::utf8::is_ascii_chars(s)) by {
        assert forall|i: int| 0 <= i < s.len() implies '\0' <= #[trigger] s[i] <= '\u{7f}' by {
            assert(is_binary_digit(s[i]));
        }
    }
    is_ascii_chars_encode_utf8(s);
}

/// Every line that passes the frame check is read as a number, and that number is
/// the bitmap that the line spells: character `i` is bit `63 - i`.
pub proof fn lemma_valid_frame_parses(s: Seq<char>)
    requires
        frame_check(s) is Ok,
    ensures
        binary_u64(s) == Some(binary_value(s) as u64),
        forall|i: int|
            0 <= i < FRAME_BITS ==> #[trigger] bit_of(binary_value(s), (63 - i) as nat)
                == digit_value(s[i]),
{
    lemma_valid_frame_shape(s);
    assert(is_binary_digit(s[0]));
    assert(unsigned_digits(s) == s);
    lemma_binary_value_bound(s);
    lemma2_to64();
    assert forall|i: int| 0 <= i < FRAME_BITS implies #[trigger] bit_of(
        binary_value(s),
        (63 - i) as nat,
    ) == digit_value(s[i]) by {
        lemma_binary_value_bit(s, i);
    }
}

/// The 64-digit binary rendering of `n`, most significant digit first (what
/// `format!("{:064b}", n)` writes).
pub open spec fn binary_rendering(n: u64) -> Seq<char> {
    Seq::new(
        FRAME_BITS as nat,
        |i: int|
            if bit_of(n as nat, (63 - i) as nat) == 1 {
                '1'
            } else {
                '0'
            },
    )
}

proof fn lemma_rendering_prefix_value(n: u64, k: int)
    requires
        0 <= k <= 64,
    ensures
        binary_value(binary_rendering(n).take(k)) == (n as nat) / pow2((64 - k) as nat),
    decreases k,
{
    let r = binary_rendering(n);
    lemma2_to64();
    if k == 0 {
        assert(r.take(0) =~= Seq::<char>::empty());
        lemma_basic_div(n as int, pow2(64) as int);
    } else {
        lemma_rendering_prefix_value(n, k - 1);
        assert(r.take(k).drop_last() =~= r.take(k - 1));
        let e = (64 - k) as nat;
        lemma_pow2_pos(e);
        lemma_pow2_unfold(e + 1);
        let x = (n as nat) / pow2(e);
        lemma_div_denominator(n as int, pow2(e) as int, 2);
        assert(pow2(e) * 2 == pow2(e + 1)) by (nonlinear_arith)
            requires
                pow2(e + 1) == 2 * pow2(e),
        ;
        assert((n as nat) / pow2(e + 1) == x / 2);
        lemma_fundamental_div_mod(x as int, 2);
        assert(digit_value(r.take(k).last()) == x % 2);
    }
}

/// The 64-digit binary rendering of any `n` passes the frame check and is read back
/// as `n`.
pub proof fn lemma_rendering_round_trip(n: u64)
    ensures
        frame_check(binary_rendering(n)) is Ok,
        binary_u64(binary_rendering(n)) == Some(n),
{
    let r = binary_rendering(n);
    assert(all_binary(r)) by {
        assert forall|i: int| 0 <= i < r.len() implies #[trigger] is_binary_digit(r[i]) by {}
    }
    assert(vstd::utf8::is_ascii_chars(r)) by {
        assert forall|i: int| 0 <= i < r.len() implies '\0' <= #[trigger] r[i] <= '\u{7f}' by {
            assert(is_binary_digit(r[i]));
        }
    }
    is_ascii_chars_encode_utf8(r);
    lemma_valid_frame_parses(r);
    lemma_rendering_prefix_value(n, 64);
    assert(r.take(64) =~= r);
    lemma2_to64();
    assert((n as nat) / 1 == n as nat) by (nonlinear_arith);
}

} // verus!
