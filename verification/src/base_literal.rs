//! The base-N numeral type: a digit string over a fixed 64-character
//! alphabet together with a radix between 2 and 64.

use vstd::prelude::*;

verus! {

// ---------------------------------------------------------------------------
// The digit alphabet `0123456789abcdefghijklmnopqrstuvwxyzABCDEFGHIJKLMNOPQRSTUVWXYZ+/`
// ---------------------------------------------------------------------------

/// Index of `c` in the 64-character digit alphabet, or -1 when `c` is not
/// in the alphabet. A digit's numeric value is its index.
pub open spec fn digit_index(c: char) -> int {
    let x = c as int;
    if 48 <= x && x <= 57 {
        x - 48  // '0'..'9' -> 0..9
    } else if 97 <= x && x <= 122 {
        x - 87  // 'a'..'z' -> 10..35
    } else if 65 <= x && x <= 90 {
        x - 29  // 'A'..'Z' -> 36..61
    } else if x == 43 {
        62  // '+'
    } else if x == 47 {
        63  // '/'
    } else {
        -1
    }
}

/// The alphabet character whose index is `i` (for `0 <= i < 64`).
pub open spec fn digit_char(i: int) -> char {
    if 0 <= i && i <= 9 {
        (i + 48) as char
    } else if 10 <= i && i <= 35 {
        (i + 87) as char
    } else if 36 <= i && i <= 61 {
        (i + 29) as char
    } else if i == 62 {
        '+'
    } else {
        '/'
    }
}

/// ASCII case folding: `A`..`Z` fold to `a`..`z`; everything else is kept.
pub open spec fn fold_lower(c: char) -> char {
    if 65 <= c as int && c as int <= 90 {
        ((c as int) + 32) as char
    } else {
        c
    }
}

/// A whole string folded to lower case, character by character.
pub open spec fn spec_lower(s: Seq<char>) -> Seq<char> {
    s.map_values(|c: char| fold_lower(c))
}

/// Every character of `s` is one of the first `base` alphabet characters.
pub open spec fn valid_digits(s: Seq<char>, base: int) -> bool {
    forall|i: int| 0 <= i < s.len() ==> 0 <= #[trigger] digit_index(s[i]) < base
}

/// Positional value of a digit string, most-significant digit first.
pub open spec fn base_val(s: Seq<char>, base: int) -> int
    decreases s.len(),
{
    if s.len() == 0 {
        0
    } else {
        base_val(s.drop_last(), base) * base + digit_index(s.last())
    }
}

/// The digit string of `v` in radix `base`, without leading zeros;
/// the empty string when `v == 0`.
pub open spec fn repr(base: int, v: int) -> Seq<char>
    decreases v,
        when 2 <= base && 0 <= v
{
    if v <= 0 {
        Seq::empty()
    } else {
        proof {
            vstd::arithmetic::div_mod::lemma_div_decreases(v, base);
        }
        repr(base, v / base) + seq![digit_char(v % base)]
    }
}

/// The digit string that encoding `v` in radix `base` produces: `"0"` for
/// zero, otherwise the digits of `v` without leading zeros.
pub open spec fn spec_from_int(base: int, v: int) -> Seq<char> {
    if v == 0 {
        seq!['0']
    } else {
        repr(base, v)
    }
}

// ---------------------------------------------------------------------------
// Errors of numeral construction and arithmetic
// ---------------------------------------------------------------------------

/// A failure of numeral construction, conversion, or arithmetic.
#[derive(Debug, Clone, Copy, PartialEq, Eq, Structural)]
pub enum NumError {
    /// The radix is outside 2..=64.
    InvalidBase,
    /// A character is not among the first `base` alphabet characters.
    InvalidDigit,
    /// The divisor's value is zero.
    DivisionByZero,
    /// The result would be negative.
    Underflow,
    /// The value does not fit in 64 bits.
    Overflow,
}

/// Decoding a digit string left to right, as `to_int` scans it: the first
/// out-of-window character gives `InvalidDigit`; a partial value that no
/// longer fits in 64 bits gives `Overflow`.
pub open spec fn spec_decode_at(s: Seq<char>, base: int, i: int, acc: int) -> Result<u64, NumError>
    decreases s.len() - i,
        when 0 <= i
{
    if i >= s.len() {
        Ok(acc as u64)
    } else if !(0 <= digit_index(s[i]) < base) {
        Err(NumError::InvalidDigit)
    } else if acc * base + digit_index(s[i]) > u64::MAX {
        Err(NumError::Overflow)
    } else {
        spec_decode_at(s, base, i + 1, acc * base + digit_index(s[i]))
    }
}

/// What decoding a whole digit string yields.
pub open spec fn spec_decode(base: int, s: Seq<char>) -> Result<u64, NumError> {
    spec_decode_at(s, base, 0, 0)
}

/// Both operands of an arithmetic operation decoded, left first.
pub open spec fn spec_operands(l: BaseLiteral, r: BaseLiteral) -> Result<(u64, u64), NumError> {
    match spec_decode(l.base as int, l.raw@) {
        Ok(a) => match spec_decode(r.base as int, r.raw@) {
            Ok(b) => Ok((a, b)),
            Err(e) => Err(e),
        },
        Err(e) => Err(e),
    }
}

// ---------------------------------------------------------------------------
// The numeral type
// ---------------------------------------------------------------------------

/// A numeral: a digit string `raw` read in radix `base`.
///
/// Construction through [`BaseLiteral::new`] keeps the invariant [`BaseLiteral::wf`]:
/// the radix lies in 2..=64 and every character of `raw` is one of the first
/// `base` alphabet characters (after case folding, so `A`..`Z` never occur).
#[derive(Debug, Clone, PartialEq, Eq)]
pub struct BaseLiteral {
    pub base: u32,
    pub raw: String,
}

impl BaseLiteral {
    /// The invariant that construction establishes and arithmetic keeps.
    pub open spec fn wf(self) -> bool {
        &&& 2 <= self.base <= 64
        &&& valid_digits(self.raw@, self.base as int)
    }

    /// Builds a numeral from a radix and a digit string. The string is
    /// case-folded first; a radix outside 2..=64 gives `InvalidBase`, and a
    /// folded character outside the radix's alphabet window gives
    /// `InvalidDigit`.
    pub fn new(base: u32, raw: &str) -> (r: Result<BaseLiteral, NumError>)
        ensures
            base < 2 || base > 64 ==> r == Err::<BaseLiteral, NumError>(NumError::InvalidBase),
            2 <= base <= 64 && valid_digits(spec_lower(raw@), base as int) ==> (r matches Ok(
                out,
            ) && out.base == base && out.raw@ == spec_lower(raw@) && out.wf()),
            2 <= base <= 64 && !valid_digits(spec_lower(raw@), base as int) ==> r == Err::<
                BaseLiteral,
                NumError,
            >(NumError::InvalidDigit),
    {
        if base < 2 || base > 64 {
            return Err(NumError::InvalidBase);
        }
        let folded = lower_chars(raw);
        let n = folded.len();
        let mut i: usize = 0;
        while i < n
            invariant
                n == folded@.len(),
                folded@ == spec_lower(raw@),
                i <= n,
                forall|k: int| 0 <= k < i ==> 0 <= #[trigger] digit_index(folded@[k]) < base,
                2 <= base <= 64,
            decreases n - i,
        {
            let d = digit_index_of(folded[i]);
            if !(0 <= d && d < base as i32) {
                return Err(NumError::InvalidDigit);
            }
            i += 1;
        }
        let raw = chars_to_string(&folded);
        Ok(BaseLiteral { base, raw })
    }

    /// Decodes the digit string positionally, most-significant digit first:
    /// the result is `base_val(self.raw@, self.base)` whenever every digit
    /// is in the radix's window and the value fits in 64 bits.
    pub fn to_int(&self) -> (r: Result<u64, NumError>)
        requires
            self.base <= 64,
        ensures
            r == spec_decode(self.base as int, self.raw@),
            valid_digits(self.raw@, self.base as int) && base_val(self.raw@, self.base as int)
                <= u64::MAX ==> r == Ok::<u64, NumError>(
                base_val(self.raw@, self.base as int) as u64,
            ),
    {
        let s = str_chars(&self.raw);
        let n = s.len();
        let mut val: u64 = 0;
        let mut i: usize = 0;
        while i < n
            invariant
                n == s@.len(),
                s@ == self.raw@,
                i <= n,
                self.base <= 64,
                spec_decode_at(self.raw@, self.base as int, 0, 0) == spec_decode_at(
                    self.raw@,
                    self.base as int,
                    i as int,
                    val as int,
                ),
            decreases n - i,
        {
            let d = digit_index_of(s[i]);
            if !(0 <= d && d < self.base as i32) {
                proof {
                    lemma_decode_full(self.raw@, self.base as int);
                }
                return Err(NumError::InvalidDigit);
            }
            let dd = d as u64;
            let scaled = match val.checked_mul(self.base as u64) {
                Some(x) => x,
                None => {
                    proof {
                        lemma_decode_full(self.raw@, self.base as int);
                    }
                    return Err(NumError::Overflow);
                },
            };
            val = match scaled.checked_add(dd) {
                Some(x) => x,
                None => {
                    proof {
                        lemma_decode_full(self.raw@, self.base as int);
                    }
                    return Err(NumError::Overflow);
                },
            };
            i += 1;
        }
        proof {
            lemma_decode_full(self.raw@, self.base as int);
        }
        Ok(val)
    }

    /// Encodes `value` in radix `base`: `"0"` for zero, otherwise the
    /// least-significant digit is `value % base`, repeatedly, so the digit
    /// string is `repr(base, value)`.
    pub fn from_int(base: u32, value: u64) -> (r: Result<BaseLiteral, NumError>)
        requires
            2 <= base <= 64,
        ensures
            r matches Ok(out) && out.base == base && out.raw@ == spec_from_int(
                base as int,
                value as int,
            ) && out.wf(),
    {
        let digits = encode_digits(base, value);
        proof {
            lemma_from_int_wf(base as int, value as int);
        }
        let raw = chars_to_string(&digits);
        Ok(BaseLiteral { base, raw })
    }

    /// The other operand's value: its own digit string decoded in its own
    /// radix. No check relates the two radixes, so mixed-base arithmetic
    /// decodes each side in its own base and encodes the result in the left
    /// side's base.
    fn as_int(&self, other: &BaseLiteral) -> (r: Result<u64, NumError>)
        requires
            other.base <= 64,
        ensures
            r == spec_decode(other.base as int, other.raw@),
    {
        other.to_int()
    }

    /// Sum of the two values, encoded in `self`'s radix; `Overflow` when the
    /// sum does not fit in 64 bits.
    pub fn add(&self, other: &BaseLiteral) -> (r: Result<BaseLiteral, NumError>)
        requires
            2 <= self.base <= 64,
            other.base <= 64,
        ensures
            match spec_operands(*self, *other) {
                Err(e) => r == Err::<BaseLiteral, NumError>(e),
                Ok((a, b)) => if a + b > u64::MAX {
                    r == Err::<BaseLiteral, NumError>(NumError::Overflow)
                } else {
                    r matches Ok(out) && out.base == self.base && out.raw@ == spec_from_int(
                        self.base as int,
                        a + b,
                    ) && out.wf()
                },
            },
    {
        let a = self.to_int()?;
        let b = self.as_int(other)?;
        match a.checked_add(b) {
            Some(v) => Self::from_int(self.base, v),
            None => Err(NumError::Overflow),
        }
    }

    /// Difference of the two values, encoded in `self`'s radix; `Underflow`
    /// when the right value is the larger, since numerals are unsigned.
    pub fn sub(&self, other: &BaseLiteral) -> (r: Result<BaseLiteral, NumError>)
        requires
            2 <= self.base <= 64,
            other.base <= 64,
        ensures
            match spec_operands(*self, *other) {
                Err(e) => r == Err::<BaseLiteral, NumError>(e),
                Ok((a, b)) => if a < b {
                    r == Err::<BaseLiteral, NumError>(NumError::Underflow)
                } else {
                    r matches Ok(out) && out.base == self.base && out.raw@ == spec_from_int(
                        self.base as int,
                        a - b,
                    ) && out.wf()
                },
            },
    {
        let a = self.to_int()?;
        let b = self.as_int(other)?;
        match a.checked_sub(b) {
            Some(v) => Self::from_int(self.base, v),
            None => Err(NumError::Underflow),
        }
    }

    /// Product of the two values, encoded in `self`'s radix; `Overflow` when
    /// the product does not fit in 64 bits.
    pub fn mul(&self, other: &BaseLiteral) -> (r: Result<BaseLiteral, NumError>)
        requires
            2 <= self.base <= 64,
            other.base <= 64,
        ensures
            match spec_operands(*self, *other) {
                Err(e) => r == Err::<BaseLiteral, NumError>(e),
                Ok((a, b)) => if a * b > u64::MAX {
                    r == Err::<BaseLiteral, NumError>(NumError::Overflow)
                } else {
                    r matches Ok(out) && out.base == self.base && out.raw@ == spec_from_int(
                        self.base as int,
                        a * b,
                    ) && out.wf()
                },
            },
    {
        let a = self.to_int()?;
        let b = self.as_int(other)?;
        match a.checked_mul(b) {
            Some(v) => Self::from_int(self.base, v),
            None => Err(NumError::Overflow),
        }
    }

    /// Quotient of the two values, encoded in `self`'s radix;
    /// `DivisionByZero` when the divisor's value is zero.
    pub fn div(&self, other: &BaseLiteral) -> (r: Result<BaseLiteral, NumError>)
        requires
            2 <= self.base <= 64,
            other.base <= 64,
        ensures
            match spec_operands(*self, *other) {
                Err(e) => r == Err::<BaseLiteral, NumError>(e),
                Ok((a, b)) => if b == 0 {
                    r == Err::<BaseLiteral, NumError>(NumError::DivisionByZero)
                } else {
                    r matches Ok(out) && out.base == self.base && out.raw@ == spec_from_int(
                        self.base as int,
                        a as int / b as int,
                    ) && out.wf()
                },
            },
    {
        let a = self.to_int()?;
        let b = self.as_int(other)?;
        if b == 0 {
            return Err(NumError::DivisionByZero);
        }
        Self::from_int(self.base, a / b)
    }

    /// The rendering of the numeral: the bare digit string in radix 10,
    /// `b<base>@<digits>` in any other radix.
    pub fn display(&self) -> (r: String)
        ensures
            r@ == spec_display(*self),
    {
        if self.base == 10 {
            let s = str_chars(&self.raw);
            chars_to_string(&s)
        } else {
            let mut out: Vec<char> = Vec::new();
            out.push('b');
            let mut bd = encode_digits(10, self.base as u64);
            let mut k: usize = 0;
            let bn = bd.len();
            while k < bn
                invariant
                    bn == bd@.len(),
                    k <= bn,
                    out@ == seq!['b'] + bd@.subrange(0, k as int),
                decreases bn - k,
            {
                out.push(bd[k]);
                proof {
                    assert(out@ =~= seq!['b'] + bd@.subrange(0, k + 1 as int));
                }
                k += 1;
            }
            out.push('@');
            let rs = str_chars(&self.raw);
            let mut k2: usize = 0;
            let rn = rs.len();
            while k2 < rn
                invariant
                    rn == rs@.len(),
                    rs@ == self.raw@,
                    k2 <= rn,
                    out@ == seq!['b'] + bd@ + seq!['@'] + self.raw@.subrange(0, k2 as int),
                decreases rn - k2,
            {
                out.push(rs[k2]);
                proof {
                    assert(out@ =~= seq!['b'] + bd@ + seq!['@'] + self.raw@.subrange(
                        0,
                        k2 + 1 as int,
                    ));
                }
                k2 += 1;
            }
            proof {
                assert(bd@.subrange(0, bn as int) =~= bd@);
                assert(self.raw@.subrange(0, rn as int) =~= self.raw@);
                assert(out@ =~= spec_display(*self));
            }
            chars_to_string(&out)
        }
    }
}

/// The rendering of a numeral value: the bare digit string in radix 10,
/// `b<base>@<digits>` in any other radix (the radix itself in decimal).
pub open spec fn num_display(base: int, digits: Seq<char>) -> Seq<char> {
    if base == 10 {
        digits
    } else {
        seq!['b'] + spec_from_int(10, base) + seq!['@'] + digits
    }
}

/// The rendering of a numeral.
pub open spec fn spec_display(l: BaseLiteral) -> Seq<char> {
    num_display(l.base as int, l.raw@)
}

/// The mathematical model of a numeral: its radix and its digit sequence.
pub ghost struct NumModel {
    pub base: int,
    pub digits: Seq<char>,
}

impl View for BaseLiteral {
    type V = NumModel;

    open spec fn view(&self) -> NumModel {
        NumModel { base: self.base as int, digits: self.raw@ }
    }
}

// ---------------------------------------------------------------------------
// Executable digit and character helpers
// ---------------------------------------------------------------------------

/// The alphabet index of `c`, or -1 when `c` is not an alphabet character.
pub fn digit_index_of(c: char) -> (r: i32)
    ensures
        r as int == digit_index(c),
{
    let x = c as u32;
    if 48 <= x && x <= 57 {
        (x - 48) as i32
    } else if 97 <= x && x <= 122 {
        (x - 87) as i32
    } else if 65 <= x && x <= 90 {
        (x - 29) as i32
    } else if x == 43 {
        62
    } else if x == 47 {
        63
    } else {
        -1
    }
}

/// The alphabet character at index `i`.
pub fn digit_char_of(i: u32) -> (r: char)
    requires
        i < 64,
    ensures
        r == digit_char(i as int),
{
    if i <= 9 {
        ((i + 48) as u8) as char
    } else if i <= 35 {
        ((i + 87) as u8) as char
    } else if i <= 61 {
        ((i + 29) as u8) as char
    } else if i == 62 {
        '+'
    } else {
        '/'
    }
}

/// The characters of `s`, case-folded.
pub(crate) fn lower_chars(s: &str) -> (r: Vec<char>)
    ensures
        r@ == spec_lower(s@),
{
    let n = s.unicode_len();
    let mut out: Vec<char> = Vec::new();
    let mut i: usize = 0;
    while i < n
        invariant
            n == s@.len(),
            i <= n,
            out@.len() == i,
            forall|k: int| 0 <= k < i ==> out@[k] == fold_lower(s@[k]),
        decreases n - i,
    {
        let c = s.get_char(i);
        let x = c as u32;
        if 65 <= x && x <= 90 {
            out.push(((x + 32) as u8) as char);
        } else {
            out.push(c);
        }
        i += 1;
    }
    proof {
        assert(out@ =~= spec_lower(s@));
    }
    out
}

/// The characters of `s`, in order.
pub fn str_chars(s: &str) -> (r: Vec<char>)
    ensures
        r@ == s@,
{
    let n = s.unicode_len();
    let mut out: Vec<char> = Vec::new();
    let mut i: usize = 0;
    while i < n
        invariant
            n == s@.len(),
            i <= n,
            out@ == s@.subrange(0, i as int),
        decreases n - i,
    {
        let c = s.get_char(i);
        out.push(c);
        proof {
            assert(out@ =~= s@.subrange(0, i + 1 as int));
        }
        i += 1;
    }
    proof {
        assert(s@.subrange(0, n as int) =~= s@);
    }
    out
}

/// Relies on `Iterator::collect` for `String`: collecting characters yields
/// the string with exactly those characters in order.
#[verifier::external_body]
pub fn chars_to_string(v: &Vec<char>) -> (s: String)
    ensures
        s@ == v@,
{
    v.iter().collect()
}

/// The digit string of `value` in radix `base`, as `spec_from_int` gives it.
pub(crate) fn encode_digits(base: u32, value: u64) -> (r: Vec<char>)
    requires
        2 <= base <= 64,
    ensures
        r@ == spec_from_int(base as int, value as int),
{
    if value == 0 {
        let mut out: Vec<char> = Vec::new();
        out.push('0');
        proof {
            assert(out@ =~= spec_from_int(base as int, 0));
        }
        return out;
    }
    let mut rev: Vec<char> = Vec::new();
    let mut v: u64 = value;
    while v > 0
        invariant
            2 <= base <= 64,
            repr(base as int, value as int) == repr(base as int, v as int) + rev@.reverse(),
        decreases v,
    {
        let d = (v % base as u64) as u32;
        rev.push(digit_char_of(d));
        proof {
            vstd::arithmetic::div_mod::lemma_fundamental_div_mod(v as int, base as int);
            vstd::arithmetic::div_mod::lemma_div_decreases(v as int, base as int);
            assert(rev@.reverse() =~= seq![digit_char(v as int % base as int)]
                + rev@.drop_last().reverse());
            assert(repr(base as int, value as int) == repr(base as int, v as int / base as int)
                + rev@.reverse());
        }
        v = v / base as u64;
    }
    let mut out: Vec<char> = Vec::new();
    let rn = rev.len();
    let mut k: usize = 0;
    while k < rn
        invariant
            rn == rev@.len(),
            k <= rn,
            out@ == rev@.reverse().subrange(0, k as int),
        decreases rn - k,
    {
        out.push(rev[rn - 1 - k]);
        proof {
            assert(rev@.reverse()[k as int] == rev@[rn - 1 - k as int]);
            assert(out@ =~= rev@.reverse().subrange(0, k + 1 as int));
        }
        k += 1;
    }
    proof {
        assert(out@ =~= rev@.reverse());
        assert(repr(base as int, 0) + rev@.reverse() =~= rev@.reverse());
    }
    out
}

// ---------------------------------------------------------------------------
// Laws of the numeral encoding
// ---------------------------------------------------------------------------

/// The digit alphabet is self-inverse: the character at index `i` has index `i`.
pub proof fn lemma_digit_roundtrip(i: int)
    requires
        0 <= i < 64,
    ensures
        digit_index(digit_char(i)) == i,
{
}

/// A subrange of a valid digit string is itself valid.
proof fn lemma_valid_sub(s: Seq<char>, base: int, i: int, j: int)
    requires
        valid_digits(s, base),
        0 <= i <= j <= s.len(),
    ensures
        valid_digits(s.subrange(i, j), base),
{
    assert forall|k: int| 0 <= k < s.subrange(i, j).len() implies 0 <= #[trigger] digit_index(
        s.subrange(i, j)[k],
    ) < base by {
        assert(s.subrange(i, j)[k] == s[i + k]);
    }
}

/// The digits of `repr` are valid for their radix, and `repr` is nonempty
/// for a positive value.
pub proof fn lemma_repr_valid(base: int, v: int)
    requires
        2 <= base <= 64,
        0 <= v,
    ensures
        valid_digits(repr(base, v), base),
        v > 0 ==> repr(base, v).len() > 0,
    decreases v,
{
    if v > 0 {
        vstd::arithmetic::div_mod::lemma_fundamental_div_mod(v, base);
        vstd::arithmetic::div_mod::lemma_div_decreases(v, base);
        lemma_repr_valid(base, v / base);
        lemma_digit_roundtrip(v % base);
        let s = repr(base, v);
        assert(s == repr(base, v / base) + seq![digit_char(v % base)]);
        assert forall|i: int| 0 <= i < s.len() implies 0 <= #[trigger] digit_index(s[i])
            < base by {
            if i < repr(base, v / base).len() {
                assert(s[i] == repr(base, v / base)[i]);
            } else {
                assert(s[i] == digit_char(v % base));
            }
        }
    }
}

/// Decoding inverts encoding: the positional value of `repr(base, v)` is `v`.
pub proof fn lemma_repr_val(base: int, v: int)
    requires
        2 <= base <= 64,
        0 <= v,
    ensures
        base_val(repr(base, v), base) == v,
    decreases v,
{
    if v > 0 {
        vstd::arithmetic::div_mod::lemma_fundamental_div_mod(v, base);
        vstd::arithmetic::div_mod::lemma_div_decreases(v, base);
        vstd::arithmetic::div_mod::lemma_mod_bound(v, base);
        lemma_repr_val(base, v / base);
        lemma_digit_roundtrip(v % base);
        let s = repr(base, v);
        assert(s == repr(base, v / base) + seq![digit_char(v % base)]);
        assert(s.drop_last() =~= repr(base, v / base));
        assert(s.last() == digit_char(v % base));
        assert(base_val(s, base) == (v / base) * base + v % base);
        assert((v / base) * base + v % base == v) by (nonlinear_arith)
            requires
                base > 0,
                v == base * (v / base) + v % base,
        ;
    }
}

/// The digits of a valid string are worth at least zero.
pub proof fn lemma_base_val_nonneg(s: Seq<char>, base: int)
    requires
        valid_digits(s, base),
        base >= 1,
    ensures
        base_val(s, base) >= 0,
    decreases s.len(),
{
    if s.len() > 0 {
        lemma_valid_sub(s, base, 0, s.len() - 1);
        assert(s.drop_last() =~= s.subrange(0, s.len() - 1));
        lemma_base_val_nonneg(s.drop_last(), base);
        assert(base_val(s.drop_last(), base) * base >= 0) by (nonlinear_arith)
            requires
                base_val(s.drop_last(), base) >= 0,
                base >= 1,
        ;
    }
}

/// An upper bound on a valid digit string's value: below `base^len`.
proof fn lemma_base_val_upper(s: Seq<char>, base: int)
    requires
        valid_digits(s, base),
        1 <= base,
    ensures
        base_val(s, base) <= vstd::arithmetic::power::pow(base, s.len()) - 1,
    decreases s.len(),
{
    if s.len() == 0 {
        vstd::arithmetic::power::lemma_pow0(base);
    } else {
        lemma_valid_sub(s, base, 0, s.len() - 1);
        assert(s.drop_last() =~= s.subrange(0, s.len() - 1));
        lemma_base_val_upper(s.drop_last(), base);
        lemma_base_val_nonneg(s.drop_last(), base);
        let p = vstd::arithmetic::power::pow(base, s.drop_last().len());
        vstd::arithmetic::power::lemma_pow_positive(base, s.drop_last().len());
        assert(vstd::arithmetic::power::pow(base, s.len()) == base * p) by {
            vstd::arithmetic::power::lemma_pow1(base);
            vstd::arithmetic::power::lemma_pow_adds(base, 1, s.drop_last().len());
        }
        assert(base_val(s.drop_last(), base) * base + (base - 1) <= base * p - 1)
            by (nonlinear_arith)
            requires
                base_val(s.drop_last(), base) <= p - 1,
                base >= 1,
                p >= 1,
        ;
    }
}

/// Peeling the first digit: the value of `s[i..]` is the first digit scaled
/// by `base^(len-i-1)` plus the value of the rest.
proof fn lemma_base_val_first(s: Seq<char>, base: int, i: int)
    requires
        0 <= i < s.len(),
    ensures
        base_val(s.subrange(i, s.len() as int), base) == digit_index(s[i])
            * vstd::arithmetic::power::pow(base, (s.len() - i - 1) as nat) + base_val(
            s.subrange(i + 1, s.len() as int),
            base,
        ),
    decreases s.len() - i,
{
    let cur = s.subrange(i, s.len() as int);
    let rest = s.subrange(i + 1, s.len() as int);
    let d = digit_index(s[i]);
    if i == s.len() - 1 {
        assert(cur =~= seq![s[i]]);
        assert(rest =~= Seq::<char>::empty());
        assert(cur.drop_last() =~= Seq::<char>::empty());
        vstd::arithmetic::power::lemma_pow0(base);
    } else {
        let s2 = s.drop_last();
        lemma_base_val_first(s2, base, i);
        let cur2 = s2.subrange(i, s2.len() as int);
        let rest2 = s2.subrange(i + 1, s2.len() as int);
        assert(cur2 =~= cur.drop_last());
        assert(rest2 =~= rest.drop_last());
        assert(cur.last() == s.last() && rest.last() == s.last());
        let k = (s.len() - i - 2) as nat;
        let p = vstd::arithmetic::power::pow(base, k);
        assert(vstd::arithmetic::power::pow(base, (s.len() - i - 1) as nat) == base * p) by {
            vstd::arithmetic::power::lemma_pow1(base);
            vstd::arithmetic::power::lemma_pow_adds(base, 1, k);
        }
        // base_val(cur) unfolds from the right; regroup the products.
        assert((d * p + base_val(rest2, base)) * base + digit_index(s.last()) == d * (base * p)
            + (base_val(rest2, base) * base + digit_index(s.last()))) by (nonlinear_arith);
    }
}

/// On a fully valid string whose value fits, the left-to-right scan of
/// `spec_decode_at` ends with the positional value.
proof fn lemma_decode_at_ok(s: Seq<char>, base: int, i: int, acc: int)
    requires
        1 <= base <= 64,
        0 <= i <= s.len(),
        valid_digits(s, base),
        0 <= acc,
        acc * vstd::arithmetic::power::pow(base, (s.len() - i) as nat) + base_val(
            s.subrange(i, s.len() as int),
            base,
        ) <= u64::MAX,
    ensures
        spec_decode_at(s, base, i, acc) == Ok::<u64, NumError>(
            (acc * vstd::arithmetic::power::pow(base, (s.len() - i) as nat) + base_val(
                s.subrange(i, s.len() as int),
                base,
            )) as u64,
        ),
    decreases s.len() - i,
{
    if i == s.len() {
        assert(s.subrange(i, s.len() as int) =~= Seq::<char>::empty());
        vstd::arithmetic::power::lemma_pow0(base);
    } else {
        let d = digit_index(s[i]);
        let rest = s.subrange(i + 1, s.len() as int);
        let k = (s.len() - i - 1) as nat;
        let p = vstd::arithmetic::power::pow(base, k);
        vstd::arithmetic::power::lemma_pow_positive(base, k);
        lemma_base_val_first(s, base, i);
        lemma_valid_sub(s, base, i + 1, s.len() as int);
        lemma_base_val_nonneg(rest, base);
        assert(vstd::arithmetic::power::pow(base, (s.len() - i) as nat) == base * p) by {
            vstd::arithmetic::power::lemma_pow1(base);
            vstd::arithmetic::power::lemma_pow_adds(base, 1, k);
        }
        assert(acc * base + d >= 0) by (nonlinear_arith)
            requires
                acc >= 0,
                base >= 1,
                d >= 0,
        ;
        // The whole remaining value, written two ways.
        assert((acc * base + d) * p == acc * (base * p) + d * p) by (nonlinear_arith);
        // The new accumulator never exceeds the whole remaining value.
        assert(acc * base + d <= (acc * base + d) * p + base_val(rest, base))
            by (nonlinear_arith)
            requires
                acc * base + d >= 0,
                p >= 1,
                base_val(rest, base) >= 0,
        ;
        lemma_decode_at_ok(s, base, i + 1, acc * base + d);
    }
}

/// On a valid string whose value fits in 64 bits, decoding succeeds with the
/// positional value.
pub proof fn lemma_decode_ok(s: Seq<char>, base: int)
    requires
        1 <= base <= 64,
        valid_digits(s, base),
        base_val(s, base) <= u64::MAX,
    ensures
        spec_decode(base, s) == Ok::<u64, NumError>(base_val(s, base) as u64),
{
    lemma_base_val_nonneg(s, base);
    assert(s.subrange(0, s.len() as int) =~= s);
    vstd::arithmetic::power::lemma_pow_positive(base, s.len());
    lemma_decode_at_ok(s, base, 0, 0);
}

/// Decoding a valid, fitting string succeeds, for any radix at most 64.
proof fn lemma_decode_full(s: Seq<char>, base: int)
    requires
        0 <= base <= 64,
    ensures
        valid_digits(s, base) && base_val(s, base) <= u64::MAX ==> spec_decode(base, s) == Ok::<
            u64,
            NumError,
        >(base_val(s, base) as u64),
{
    if valid_digits(s, base) && base_val(s, base) <= u64::MAX {
        if base >= 1 {
            lemma_decode_ok(s, base);
        } else {
            // In radix zero no character is a digit, so the string is empty.
            if s.len() > 0 {
                assert(0 <= digit_index(s[0]) < 0);
            }
        }
    }
}

/// `from_int` builds a well-formed numeral: its digits are valid for the radix.
pub proof fn lemma_from_int_wf(base: int, v: int)
    requires
        2 <= base <= 64,
        0 <= v,
    ensures
        valid_digits(spec_from_int(base, v), base),
        spec_from_int(base, v).len() > 0,
{
    if v == 0 {
        assert(digit_index('0') == 0);
        assert(forall|i: int|
            0 <= i < spec_from_int(base, 0).len() ==> spec_from_int(base, 0)[i] == '0');
    } else {
        lemma_repr_valid(base, v);
    }
}

/// Round trip: encoding a value and decoding the digit string gives the value
/// back, for every radix in 2..=64 and every value below `2^63`.
pub proof fn lemma_from_int_to_int_roundtrip(base: int, v: int)
    requires
        2 <= base <= 64,
        0 <= v < 0x8000000000000000,
    ensures
        base_val(spec_from_int(base, v), base) == v,
        valid_digits(spec_from_int(base, v), base),
        spec_decode(base, spec_from_int(base, v)) == Ok::<u64, NumError>(v as u64),
{
    lemma_from_int_wf(base, v);
    if v == 0 {
        assert(spec_from_int(base, 0) =~= seq!['0']);
        assert(base_val(seq!['0'], base) == base_val(seq!['0'].drop_last(), base) * base
            + digit_index('0'));
        assert(seq!['0'].drop_last() =~= Seq::<char>::empty());
    } else {
        lemma_repr_val(base, v);
    }
    lemma_decode_ok(spec_from_int(base, v), base);
}


/// Case folding keeps a digit string valid: an upper-case letter's index
/// only shrinks when folded, so it stays inside the radix window.
pub proof fn lemma_lower_valid(w: Seq<char>, base: int)
    requires
        valid_digits(w, base),
    ensures
        valid_digits(spec_lower(w), base),
{
    assert forall|i: int| 0 <= i < spec_lower(w).len() implies 0 <= #[trigger] digit_index(
        spec_lower(w)[i],
    ) < base by {
        assert(spec_lower(w)[i] == fold_lower(w[i]));
        assert(0 <= digit_index(w[i]) < base);
    }
}

} // verus!
