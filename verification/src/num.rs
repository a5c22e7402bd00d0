//! Numbers for the arithmetic builtins.
//!
//! A numeral is an optional minus sign and digits with at most one decimal
//! point.  A value is an exact scaled decimal: a mantissa and a power-of-ten
//! scale.  A computation stays integral (scale zero) until an operand's text
//! carries a decimal point; any value that leaves the machine range is an
//! arithmetic error rather than a wrapped or rounded result.

use vstd::prelude::*;

use crate::strutil::push_char;

verus! {

/// True for an ASCII decimal digit.
pub open spec fn is_digit(c: char) -> bool {
    '0' <= c && c <= '9'
}

/// The value of one digit character.
pub open spec fn digit_val(c: char) -> int {
    c as u32 - '0' as u32
}

/// Ten to the `n`.
pub open spec fn pow10(n: nat) -> int
    decreases n,
{
    if n == 0 {
        1
    } else {
        10 * pow10((n - 1) as nat)
    }
}

pub proof fn lemma_pow10_pos(n: nat)
    ensures
        pow10(n) >= 1,
    decreases n,
{
    if n > 0 {
        lemma_pow10_pos((n - 1) as nat);
    }
}

pub proof fn lemma_pow10_mono(m: nat, n: nat)
    requires
        m <= n,
    ensures
        pow10(m) <= pow10(n),
    decreases n,
{
    if m < n {
        lemma_pow10_mono(m, (n - 1) as nat);
        lemma_pow10_pos((n - 1) as nat);
    }
}

/// The state of reading a numeral body (the part after any minus sign)
/// from left to right.
pub struct NumBodyV {
    /// No character so far was out of place.
    pub ok: bool,
    /// The digits read so far, as one integer, the point ignored.
    pub mant: int,
    /// How many digits so far stand after the point.
    pub scale: nat,
    /// Whether a point was read.
    pub dot: bool,
    /// How many digits were read.
    pub digits: nat,
}

/// Reading one more character of a numeral body.
pub open spec fn spec_num_body_step(p: NumBodyV, c: char) -> NumBodyV {
    if !p.ok {
        p
    } else if is_digit(c) {
        NumBodyV {
            ok: true,
            mant: p.mant * 10 + digit_val(c),
            scale: if p.dot {
                p.scale + 1
            } else {
                0
            },
            dot: p.dot,
            digits: p.digits + 1,
        }
    } else if c == '.' && !p.dot {
        NumBodyV { dot: true, ..p }
    } else {
        NumBodyV { ok: false, ..p }
    }
}

/// The numeral body read from the whole of `s`.
pub open spec fn spec_num_body(s: Seq<char>) -> NumBodyV
    decreases s.len(),
{
    if s.len() == 0 {
        NumBodyV { ok: true, mant: 0, scale: 0, dot: false, digits: 0 }
    } else {
        spec_num_body_step(spec_num_body(s.drop_last()), s.last())
    }
}

/// A whole numeral: its signed mantissa, scale, and whether it carries a
/// decimal point.
pub struct NumeralV {
    pub valid: bool,
    pub mant: int,
    pub scale: nat,
    pub dot: bool,
}

/// What the text `s` denotes as a numeral: an optional minus sign, then
/// digits with at most one point and at least one digit.
pub open spec fn spec_numeral(s: Seq<char>) -> NumeralV {
    let neg = s.len() > 0 && s[0] == '-';
    let b = spec_num_body(if neg { s.skip(1) } else { s });
    NumeralV {
        valid: b.ok && b.digits >= 1,
        mant: if neg { -b.mant } else { b.mant },
        scale: b.scale,
        dot: b.dot,
    }
}

/// The largest scale (count of fractional digits) a value may carry.
pub const SCALE_CAP: usize = 1000000;

/// The mantissa range the machine can hold.  The most negative machine
/// word is left out so that every value can be negated.
pub open spec fn mant_in_range(m: int) -> bool {
    -(i128::MAX as int) <= m <= i128::MAX as int
}

/// An exact scaled decimal: `mant / 10^scale`, as held by the machine.
pub struct Dec {
    pub mant: i128,
    pub scale: usize,
}

/// The mathematical image of a [`Dec`].
pub struct DecV {
    pub mant: int,
    pub scale: nat,
}

impl View for Dec {
    type V = DecV;

    open spec fn view(&self) -> DecV {
        DecV { mant: self.mant as int, scale: self.scale as nat }
    }
}

impl DeepView for Dec {
    type V = DecV;

    open spec fn deep_view(&self) -> DecV {
        self.view()
    }
}

/// A prefix of a numeral body never carries more in its mantissa than the
/// whole, and a failed prefix fails the whole.
pub proof fn lemma_num_body_extends(s: Seq<char>, i: int)
    requires
        0 <= i <= s.len(),
    ensures
        !spec_num_body(s.take(i)).ok ==> !spec_num_body(s).ok,
        spec_num_body(s).ok ==> spec_num_body(s.take(i)).ok && 0 <= spec_num_body(s.take(i)).mant
            <= spec_num_body(s).mant,
    decreases s.len() - i,
{
    if i == s.len() {
        assert(s.take(i) =~= s);
        lemma_num_body_nonneg(s);
    } else {
        assert(s.take(i + 1).drop_last() =~= s.take(i));
        lemma_num_body_nonneg(s.take(i));
        lemma_num_body_extends(s, i + 1);
    }
}

/// A numeral body's mantissa is never negative.
pub proof fn lemma_num_body_nonneg(s: Seq<char>)
    ensures
        spec_num_body(s).mant >= 0,
    decreases s.len(),
{
    if s.len() > 0 {
        lemma_num_body_nonneg(s.drop_last());
    }
}

/// Read the text as a numeral: the value and whether the text carries a
/// decimal point.  `Some` exactly when the text is a valid numeral whose
/// mantissa the machine range holds.
pub fn parse_numeral(s: &str) -> (r: Option<(Dec, bool)>)
    ensures
        (spec_numeral(s@).valid && mant_in_range(spec_numeral(s@).mant) && spec_numeral(
            s@,
        ).scale <= SCALE_CAP) <==> r is Some,
        r is Some ==> r->Some_0.0@ == (DecV {
            mant: spec_numeral(s@).mant,
            scale: spec_numeral(s@).scale,
        }) && r->Some_0.1 == spec_numeral(s@).dot,
{
    let len = s.unicode_len();
    let neg = len > 0 && s.get_char(0) == '-';
    let start: usize = if neg {
        1
    } else {
        0
    };
    let ghost body = if neg {
        s@.skip(1)
    } else {
        s@
    };
    let mut mant: i128 = 0;
    let mut scale: usize = 0;
    let mut dot = false;
    let mut digits: usize = 0;
    let mut i: usize = start;
    proof {
        assert(body.take(0) =~= Seq::<char>::empty());
    }
    while i < len
        invariant
            start <= i <= len,
            len == s@.len(),
            start == if neg { 1int } else { 0int },
            neg == (s@.len() > 0 && s@[0] == '-'),
            neg ==> len >= 1,
            body == if neg { s@.skip(1) } else { s@ },
            spec_num_body(body.take(i - start)) == (NumBodyV {
                ok: true,
                mant: mant as int,
                scale: scale as nat,
                dot: dot,
                digits: digits as nat,
            }),
            mant >= 0,
            digits <= i,
            scale <= i,
        decreases len - i,
    {
        let c = s.get_char(i);
        proof {
            assert(body.take(i - start + 1).drop_last() =~= body.take(i - start));
            assert(body.take(i - start + 1).last() == body[i - start]);
            assert(body[i - start] == s@[i as int]);
        }
        if '0' <= c && c <= '9' {
            let d = (c as u32 - '0' as u32) as i128;
            mant = match mant.checked_mul(10) {
                Some(m) => m,
                None => {
                    proof {
                        lemma_too_big(body, i - start + 1, s@, neg);
                    }
                    return None;
                },
            };
            mant = match mant.checked_add(d) {
                Some(m) => m,
                None => {
                    proof {
                        lemma_too_big(body, i - start + 1, s@, neg);
                    }
                    return None;
                },
            };
            if dot {
                scale = scale + 1;
            }
            digits = digits + 1;
        } else if c == '.' && !dot {
            dot = true;
        } else {
            proof {
                lemma_num_body_extends(body, i - start + 1);
            }
            return None;
        }
        i = i + 1;
    }
    proof {
        assert(body.take(len - start) =~= body);
    }
    if digits == 0 || scale > SCALE_CAP {
        return None;
    }
    let m: i128 = if neg {
        -mant
    } else {
        mant
    };
    Some((Dec { mant: m, scale }, dot))
}

/// When the machine range ran out at a prefix of the body, the whole
/// numeral is either invalid or out of range.
proof fn lemma_too_big(body: Seq<char>, i: int, s: Seq<char>, neg: bool)
    requires
        0 <= i <= body.len(),
        body == if neg { s.skip(1) } else { s },
        neg == (s.len() > 0 && s[0] == '-'),
        spec_num_body(body.take(i)).ok,
        spec_num_body(body.take(i)).mant > i128::MAX as int,
    ensures
        !(spec_numeral(s).valid && mant_in_range(spec_numeral(s).mant)),
{
    lemma_num_body_extends(body, i);
}

/// The greater of two scales.
pub open spec fn scale_max(a: nat, b: nat) -> nat {
    if a >= b {
        a
    } else {
        b
    }
}

/// Bring a value to a larger scale without changing what it denotes:
/// `None` when the machine range runs out.
pub open spec fn spec_rescale(v: DecV, s: nat) -> Option<int> {
    if pow10((s - v.scale) as nat) > i128::MAX as int {
        None
    } else if !mant_in_range(v.mant * pow10((s - v.scale) as nat)) {
        None
    } else {
        Some(v.mant * pow10((s - v.scale) as nat))
    }
}

/// The exact sum of two decimals, `None` when the machine range runs out.
pub open spec fn spec_dec_add(a: DecV, b: DecV) -> Option<DecV> {
    let s = scale_max(a.scale, b.scale);
    match (spec_rescale(a, s), spec_rescale(b, s)) {
        (Some(ma), Some(mb)) => if mant_in_range(ma + mb) {
            Some(DecV { mant: ma + mb, scale: s })
        } else {
            None
        },
        _ => None,
    }
}

/// The exact difference of two decimals.
pub open spec fn spec_dec_sub(a: DecV, b: DecV) -> Option<DecV> {
    spec_dec_add(a, DecV { mant: -b.mant, scale: b.scale })
}

/// The exact product of two decimals, `None` when the machine range runs
/// out of mantissa or the scale grows past `SCALE_CAP`.
pub open spec fn spec_dec_mul(a: DecV, b: DecV) -> Option<DecV> {
    if !mant_in_range(a.mant * b.mant) || a.scale + b.scale > SCALE_CAP {
        None
    } else {
        Some(DecV { mant: a.mant * b.mant, scale: a.scale + b.scale })
    }
}

/// Truncating division: the quotient rounded toward zero.
pub open spec fn trunc_div(a: int, b: int) -> int {
    if a == 0 {
        0
    } else if a > 0 && b > 0 {
        a / b
    } else if a < 0 && b < 0 {
        (a * -1) / (b * -1)
    } else if a < 0 {
        ((a * -1) / b) * -1
    } else {
        (a / (b * -1)) * -1
    }
}

/// How many fractional digits a promoted quotient carries.
pub open spec fn spec_div_scale() -> nat {
    18
}

/// A promoted (decimal) quotient: exact to `spec_div_scale` fractional
/// digits, truncated toward zero; `None` on a zero divisor or when the
/// machine range runs out.
pub open spec fn spec_dec_div(a: DecV, b: DecV) -> Option<DecV> {
    if b.mant == 0 {
        None
    } else {
        let e = spec_div_scale() + b.scale - a.scale;
        if e >= 0 {
            if pow10(e as nat) > i128::MAX as int || !mant_in_range(a.mant * pow10(e as nat))
                || !mant_in_range(trunc_div(a.mant * pow10(e as nat), b.mant)) {
                None
            } else {
                Some(
                    DecV {
                        mant: trunc_div(a.mant * pow10(e as nat), b.mant),
                        scale: spec_div_scale(),
                    },
                )
            }
        } else {
            if pow10((-e) as nat) > i128::MAX as int || !mant_in_range(b.mant * pow10((-e) as nat))
                || !mant_in_range(trunc_div(a.mant, b.mant * pow10((-e) as nat))) {
                None
            } else {
                Some(
                    DecV {
                        mant: trunc_div(a.mant, b.mant * pow10((-e) as nat)),
                        scale: spec_div_scale(),
                    },
                )
            }
        }
    }
}

/// An integral (unpromoted) quotient: truncating division on the
/// mantissas, both scales zero; `None` on a zero divisor.
pub open spec fn spec_int_div(a: DecV, b: DecV) -> Option<DecV> {
    if b.mant == 0 || !mant_in_range(trunc_div(a.mant, b.mant)) {
        None
    } else {
        Some(DecV { mant: trunc_div(a.mant, b.mant), scale: 0 })
    }
}

/// Ten to the `n` on the machine; `None` when it does not fit.
pub fn pow10_i128(n: usize) -> (r: Option<i128>)
    ensures
        pow10(n as nat) <= i128::MAX as int ==> r == Some((pow10(n as nat)) as i128),
        pow10(n as nat) > i128::MAX as int ==> r is None,
{
    let mut acc: i128 = 1;
    let mut i: usize = 0;
    while i < n
        invariant
            0 <= i <= n,
            acc == pow10(i as nat),
            acc >= 1,
        decreases n - i,
    {
        acc = match acc.checked_mul(10) {
            Some(a) => a,
            None => {
                proof {
                    lemma_pow10_mono((i + 1) as nat, n as nat);
                }
                return None;
            },
        };
        i = i + 1;
    }
    Some(acc)
}

/// Rescale on the machine, following `spec_rescale`.
fn rescale(v: &Dec, s: usize) -> (r: Option<i128>)
    requires
        v@.scale <= s,
    ensures
        match r {
            Some(m) => spec_rescale(v@, s as nat) == Some(m as int),
            None => spec_rescale(v@, s as nat) is None,
        },
{
    let p = match pow10_i128(s - v.scale) {
        Some(p) => p,
        None => {
            return None;
        },
    };
    proof {
        lemma_pow10_pos((s - v.scale) as nat);
    }
    match v.mant.checked_mul(p) {
        Some(m) => if m == i128::MIN {
            None
        } else {
            Some(m)
        },
        None => None,
    }
}

/// Add on the machine, following `spec_dec_add`.
pub fn dec_add(a: &Dec, b: &Dec) -> (r: Option<Dec>)
    ensures
        match r {
            Some(v) => spec_dec_add(a@, b@) == Some(v@),
            None => spec_dec_add(a@, b@) is None,
        },
{
    let s = if a.scale >= b.scale {
        a.scale
    } else {
        b.scale
    };
    let ma = match rescale(a, s) {
        Some(m) => m,
        None => {
            return None;
        },
    };
    let mb = match rescale(b, s) {
        Some(m) => m,
        None => {
            return None;
        },
    };
    match ma.checked_add(mb) {
        Some(m) => if m == i128::MIN {
            None
        } else {
            Some(Dec { mant: m, scale: s })
        },
        None => None,
    }
}

/// Subtract on the machine, following `spec_dec_sub`.
pub fn dec_sub(a: &Dec, b: &Dec) -> (r: Option<Dec>)
    ensures
        match r {
            Some(v) => spec_dec_sub(a@, b@) == Some(v@),
            None => spec_dec_sub(a@, b@) is None,
        },
{
    if b.mant == i128::MIN {
        proof {
            let bb = DecV { mant: -b@.mant, scale: b@.scale };
            let s = scale_max(a@.scale, bb.scale);
            let k = (s - bb.scale) as nat;
            lemma_pow10_pos(k);
            if pow10(k) <= i128::MAX as int {
                assert(bb.mant * pow10(k) >= bb.mant * 1) by (nonlinear_arith)
                    requires
                        pow10(k) >= 1,
                        bb.mant > 0,
                ;
            }
        }
        return None;
    }
    let nb = Dec { mant: -b.mant, scale: b.scale };
    dec_add(a, &nb)
}

/// Multiply on the machine, following `spec_dec_mul`.
pub fn dec_mul(a: &Dec, b: &Dec) -> (r: Option<Dec>)
    requires
        a@.scale <= SCALE_CAP,
        b@.scale <= SCALE_CAP,
    ensures
        match r {
            Some(v) => spec_dec_mul(a@, b@) == Some(v@),
            None => spec_dec_mul(a@, b@) is None,
        },
{
    let scale = a.scale + b.scale;
    if scale > SCALE_CAP {
        return None;
    }
    match a.mant.checked_mul(b.mant) {
        Some(m) => if m == i128::MIN {
            None
        } else {
            Some(Dec { mant: m, scale })
        },
        None => None,
    }
}

/// Promoted division on the machine, following `spec_dec_div`.
pub fn dec_div(a: &Dec, b: &Dec) -> (r: Option<Dec>)
    requires
        a@.scale <= SCALE_CAP,
        b@.scale <= SCALE_CAP,
    ensures
        match r {
            Some(v) => spec_dec_div(a@, b@) == Some(v@),
            None => spec_dec_div(a@, b@) is None,
        },
{
    if b.mant == 0 {
        return None;
    }
    let k: usize = 18;
    let num: i128;
    let den: i128;
    if k + b.scale >= a.scale {
        let e = k + b.scale - a.scale;
        let p = match pow10_i128(e) {
            Some(p) => p,
            None => {
                return None;
            },
        };
        proof {
            lemma_pow10_pos(e as nat);
        }
        num = match a.mant.checked_mul(p) {
            Some(m) => if m == i128::MIN {
                return None;
            } else {
                m
            },
            None => {
                return None;
            },
        };
        den = b.mant;
    } else {
        let e = a.scale - k - b.scale;
        let p = match pow10_i128(e) {
            Some(p) => p,
            None => {
                return None;
            },
        };
        proof {
            lemma_pow10_pos(e as nat);
        }
        num = a.mant;
        den = match b.mant.checked_mul(p) {
            Some(m) => if m == i128::MIN {
                return None;
            } else {
                m
            },
            None => {
                return None;
            },
        };
        proof {
            assert(b@.mant * pow10(e as nat) != 0) by (nonlinear_arith)
                requires
                    b@.mant != 0,
                    pow10(e as nat) >= 1,
            ;
        }
    }
    match num.checked_div(den) {
        Some(q) => if q == i128::MIN {
            None
        } else {
            Some(Dec { mant: q, scale: k })
        },
        None => None,
    }
}

/// Unpromoted division on the machine, following `spec_int_div`.
pub fn int_div(a: &Dec, b: &Dec) -> (r: Option<Dec>)
    ensures
        match r {
            Some(v) => spec_int_div(a@, b@) == Some(v@),
            None => spec_int_div(a@, b@) is None,
        },
{
    if b.mant == 0 {
        return None;
    }
    match a.mant.checked_div(b.mant) {
        Some(q) => if q == i128::MIN {
            None
        } else {
            Some(Dec { mant: q, scale: 0 })
        },
        None => None,
    }
}


/// The character of one decimal digit.
pub open spec fn digit_char(d: int) -> char {
    if d == 0 {
        '0'
    } else if d == 1 {
        '1'
    } else if d == 2 {
        '2'
    } else if d == 3 {
        '3'
    } else if d == 4 {
        '4'
    } else if d == 5 {
        '5'
    } else if d == 6 {
        '6'
    } else if d == 7 {
        '7'
    } else if d == 8 {
        '8'
    } else {
        '9'
    }
}

/// The decimal digits of `n`, most significant first.
pub open spec fn spec_digits(n: int) -> Seq<char>
    decreases n,
{
    if n < 10 {
        seq![digit_char(n)]
    } else {
        spec_digits(n / 10).push(digit_char(n % 10))
    }
}

/// The digits of `n` with a decimal point put `s` digits in from the
/// right.
pub open spec fn spec_digits_dotted(n: int, s: nat) -> Seq<char>
    decreases s,
{
    if s == 0 {
        spec_digits(n).push('.')
    } else {
        spec_digits_dotted(n / 10, (s - 1) as nat).push(digit_char(n % 10))
    }
}

/// Strip trailing fractional zeros: the same value on the smallest scale.
pub open spec fn spec_canon(m: int, s: nat) -> (int, nat)
    decreases s,
{
    if s > 0 && m % 10 == 0 {
        spec_canon(m / 10, (s - 1) as nat)
    } else {
        (m, s)
    }
}

/// The text a value prints as: a minus sign when negative, the digits,
/// and a decimal point only when a fractional digit remains.
pub open spec fn spec_render(v: DecV) -> Seq<char> {
    let neg = v.mant < 0;
    let a = if neg {
        -v.mant
    } else {
        v.mant
    };
    let c = spec_canon(a, v.scale);
    let body = if c.1 == 0 {
        spec_digits(c.0)
    } else {
        spec_digits_dotted(c.0, c.1)
    };
    if neg {
        seq!['-'].add(body)
    } else {
        body
    }
}

/// One digit as a character on the machine.
fn digit_char_exec(d: i128) -> (r: char)
    requires
        0 <= d <= 9,
    ensures
        r == digit_char(d as int),
{
    match d {
        0 => '0',
        1 => '1',
        2 => '2',
        3 => '3',
        4 => '4',
        5 => '5',
        6 => '6',
        7 => '7',
        8 => '8',
        _ => '9',
    }
}

/// Write the digits of `n` onto `out`, following `spec_digits`.
fn push_digits(n: i128, out: &mut String)
    requires
        n >= 0,
    ensures
        final(out)@ == old(out)@ + spec_digits(n as int),
    decreases n,
{
    if n < 10 {
        push_char(out, digit_char_exec(n));
    } else {
        push_digits(n / 10, out);
        push_char(out, digit_char_exec(n % 10));
    }
}

/// Write the digits of `n` with a decimal point `s` in from the right,
/// following `spec_digits_dotted`.
fn push_digits_dotted(n: i128, s: usize, out: &mut String)
    requires
        n >= 0,
    ensures
        final(out)@ == old(out)@ + spec_digits_dotted(n as int, s as nat),
    decreases s,
{
    if s == 0 {
        push_digits(n, out);
        push_char(out, '.');
    } else {
        push_digits_dotted(n / 10, s - 1, out);
        push_char(out, digit_char_exec(n % 10));
    }
}

/// Print a value, following `spec_render`.
pub fn render_dec(d: &Dec) -> (r: String)
    requires
        mant_in_range(d@.mant),
    ensures
        r@ == spec_render(d@),
{
    let neg = d.mant < 0;
    let mut a: i128 = if neg {
        -d.mant
    } else {
        d.mant
    };
    let mut s: usize = d.scale;
    let ghost a0 = a as int;
    let ghost s0 = s as nat;
    while s > 0 && a % 10 == 0
        invariant
            a >= 0,
            spec_canon(a as int, s as nat) == spec_canon(a0, s0),
        decreases s,
    {
        a = a / 10;
        s = s - 1;
    }
    let mut out = String::new();
    if neg {
        push_char(&mut out, '-');
    }
    if s == 0 {
        push_digits(a, &mut out);
    } else {
        push_digits_dotted(a, s, &mut out);
    }
    proof {
        assert(out@ =~= spec_render(d@));
    }
    out
}


/// Ten to the thirty-eighth is the last power of ten one machine word
/// holds.
pub proof fn lemma_pow10_38()
    ensures
        pow10(38) <= i128::MAX as int,
        pow10(39) > i128::MAX as int,
{
    reveal_with_fuel(pow10, 41);
}

/// Exact decimal addition does not depend on the order of its two
/// operands.
pub proof fn lemma_dec_add_comm(a: DecV, b: DecV)
    ensures
        spec_dec_add(a, b) == spec_dec_add(b, a),
{
    assert(scale_max(a.scale, b.scale) == scale_max(b.scale, a.scale));
}

/// Exact decimal multiplication does not depend on the order of its two
/// operands.
pub proof fn lemma_dec_mul_comm(a: DecV, b: DecV)
    ensures
        spec_dec_mul(a, b) == spec_dec_mul(b, a),
{
    assert(a.mant * b.mant == b.mant * a.mant) by (nonlinear_arith);
}

/// A numeral without a decimal point denotes a whole value: its scale is
/// zero.
pub proof fn lemma_no_dot_scale_zero(s: Seq<char>)
    requires
        !spec_numeral(s).dot,
    ensures
        spec_numeral(s).scale == 0,
{
    let neg = s.len() > 0 && s[0] == '-';
    lemma_body_no_dot(if neg { s.skip(1) } else { s });
}

proof fn lemma_body_no_dot(s: Seq<char>)
    requires
        !spec_num_body(s).dot,
    ensures
        spec_num_body(s).scale == 0,
    decreases s.len(),
{
    if s.len() > 0 {
        if spec_num_body(s.drop_last()).dot {
            lemma_body_dot_monotone(s);
        } else {
            lemma_body_no_dot(s.drop_last());
        }
    }
}

/// Once a decimal point was read, it stays read.
proof fn lemma_body_dot_monotone(s: Seq<char>)
    requires
        s.len() > 0,
        spec_num_body(s.drop_last()).dot,
    ensures
        spec_num_body(s).dot,
{
}


/// Powers of ten multiply by adding exponents.
pub proof fn lemma_pow10_add(a: nat, b: nat)
    ensures
        pow10(a) * pow10(b) == pow10(a + b),
    decreases b,
{
    if b == 0 {
        assert(pow10(a) * 1 == pow10(a));
    } else {
        lemma_pow10_add(a, (b - 1) as nat);
        assert(pow10(a) * (10 * pow10((b - 1) as nat)) == 10 * (pow10(a) * pow10(
            (b - 1) as nat,
        ))) by (nonlinear_arith);
    }
}

/// The exact sum of two decimals as mathematics, with no machine range.
pub open spec fn dec_add_total(a: DecV, b: DecV) -> DecV {
    let s = scale_max(a.scale, b.scale);
    DecV { mant: a.mant * pow10((s - a.scale) as nat) + b.mant * pow10((s - b.scale) as nat), scale: s }
}

/// The exact product of two decimals as mathematics.
pub open spec fn dec_mul_total(a: DecV, b: DecV) -> DecV {
    DecV { mant: a.mant * b.mant, scale: a.scale + b.scale }
}

/// Where the machine sum exists, it is the mathematical sum.
pub proof fn lemma_dec_add_is_total(a: DecV, b: DecV)
    requires
        spec_dec_add(a, b) is Some,
    ensures
        spec_dec_add(a, b) == Some(dec_add_total(a, b)),
{
}

/// Where the machine product exists, it is the mathematical product.
pub proof fn lemma_dec_mul_is_total(a: DecV, b: DecV)
    requires
        spec_dec_mul(a, b) is Some,
    ensures
        spec_dec_mul(a, b) == Some(dec_mul_total(a, b)),
{
}

/// A total sum rescaled onto a larger scale, written canonically.
proof fn lemma_add_total_canonical(v: DecV, x: DecV, s: nat)
    requires
        dec_add_total(v, x).scale <= s,
    ensures
        dec_add_total(v, x).mant * pow10((s - dec_add_total(v, x).scale) as nat) == v.mant * pow10(
            (s - v.scale) as nat,
        ) + x.mant * pow10((s - x.scale) as nat),
{
    let s1 = scale_max(v.scale, x.scale);
    let pv = pow10((s1 - v.scale) as nat);
    let px = pow10((s1 - x.scale) as nat);
    let p = pow10((s - s1) as nat);
    lemma_pow10_add((s1 - v.scale) as nat, (s - s1) as nat);
    lemma_pow10_add((s1 - x.scale) as nat, (s - s1) as nat);
    assert((v.mant * pv + x.mant * px) * p == v.mant * (pv * p) + x.mant * (px * p))
        by (nonlinear_arith);
}

/// Adding two values onto a total, in either order, gives the same
/// total: the heart of order independence for `add`.
pub proof fn lemma_dec_add_total_swap(v: DecV, x: DecV, y: DecV)
    ensures
        dec_add_total(dec_add_total(v, x), y) == dec_add_total(dec_add_total(v, y), x),
{
    let s = scale_max(scale_max(v.scale, x.scale), y.scale);
    assert(s == scale_max(scale_max(v.scale, y.scale), x.scale));
    lemma_add_total_canonical(v, x, s);
    lemma_add_total_canonical(v, y, s);
    assert(dec_add_total(dec_add_total(v, x), y) == (DecV {
        mant: v.mant * pow10((s - v.scale) as nat) + x.mant * pow10((s - x.scale) as nat) + y.mant
            * pow10((s - y.scale) as nat),
        scale: s,
    }));
    assert(dec_add_total(dec_add_total(v, y), x) == (DecV {
        mant: v.mant * pow10((s - v.scale) as nat) + y.mant * pow10((s - y.scale) as nat) + x.mant
            * pow10((s - x.scale) as nat),
        scale: s,
    }));
}

/// Multiplying two values onto a total, in either order, gives the same
/// total.
pub proof fn lemma_dec_mul_total_swap(v: DecV, x: DecV, y: DecV)
    ensures
        dec_mul_total(dec_mul_total(v, x), y) == dec_mul_total(dec_mul_total(v, y), x),
{
    assert(v.mant * x.mant * y.mant == v.mant * y.mant * x.mant) by (nonlinear_arith);
}

} // verus!
