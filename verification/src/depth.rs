//! Depth validation: parsing a user-supplied token into an iteration count.
//!
//! The accepted grammar is the decimal floating-point one: an optional
//! sign, then either the words `inf`, `infinity` or `nan` in any letter
//! case, or digits with an optional dot and fraction and an optional
//! decimal exponent (`e` or `E`, optional sign, digits), with at least
//! one mantissa digit in all.  Anything else yields the sentinel 0, which
//! no caller treats as a usable depth.
//!
//! The value is computed on the exact decimal digits: the magnitude
//! rounds half away from zero, up exactly when the first digit after the
//! (exponent-shifted) point is 5 or more.  A value beyond the `i32` range
//! saturates to the nearest bound; the infinities do the same, and `nan`
//! yields 0.  Only a result of 1 or more authorizes a derivation.

use vstd::prelude::*;
use vstd::string::StrSliceExecFns;

verus! {

/// Decimal digit.
pub open spec fn is_digit_char(c: char) -> bool {
    48 <= c as u32 && c as u32 <= 57
}

/// The numeric value of a decimal digit character.
pub open spec fn digit_val(c: char) -> int {
    c as u32 - 48
}

/// Case-insensitive match of a character against a lowercase letter.
pub open spec fn eq_ci(c: char, lower: char) -> bool {
    c == lower || c as u32 + 32 == lower as u32
}

/// Whether the token carries an explicit leading sign.
pub open spec fn has_sign(s: Seq<char>) -> bool {
    s.len() > 0 && (s[0] == '+' || s[0] == '-')
}

/// Whether the token denotes a negative value.
pub open spec fn is_negative(s: Seq<char>) -> bool {
    s.len() > 0 && s[0] == '-'
}

/// The token after its optional sign.
pub open spec fn magnitude_part(s: Seq<char>) -> Seq<char> {
    if has_sign(s) {
        s.drop_first()
    } else {
        s
    }
}

/// How many decimal digits the sequence starts with.
pub open spec fn digit_prefix_len(s: Seq<char>) -> nat
    decreases s.len(),
{
    if s.len() == 0 || !is_digit_char(s[0]) {
        0
    } else {
        (1 + digit_prefix_len(s.drop_first())) as nat
    }
}

/// The value of a digit sequence read in base 10.
pub open spec fn int_val(s: Seq<char>) -> int
    decreases s.len(),
{
    if s.len() == 0 {
        0
    } else {
        int_val(s.drop_last()) * 10 + digit_val(s.last())
    }
}

/// Ten to the power `e`.
pub open spec fn pow10(e: nat) -> int
    decreases e,
{
    if e == 0 {
        1
    } else {
        10 * pow10((e - 1) as nat)
    }
}

/// The unsigned token `inf` or `infinity`, in any letter case.
pub open spec fn is_inf_word(u: Seq<char>) -> bool {
    (u.len() == 3 && eq_ci(u[0], 'i') && eq_ci(u[1], 'n') && eq_ci(u[2], 'f')) || (u.len() == 8
        && eq_ci(u[0], 'i') && eq_ci(u[1], 'n') && eq_ci(u[2], 'f') && eq_ci(u[3], 'i') && eq_ci(
        u[4],
        'n',
    ) && eq_ci(u[5], 'i') && eq_ci(u[6], 't') && eq_ci(u[7], 'y'))
}

/// A signed infinity token.
pub open spec fn is_inf_token(s: Seq<char>) -> bool {
    is_inf_word(magnitude_part(s))
}

/// A signed `nan` token, in any letter case.
pub open spec fn is_nan_token(s: Seq<char>) -> bool {
    let u = magnitude_part(s);
    u.len() == 3 && eq_ci(u[0], 'n') && eq_ci(u[1], 'a') && eq_ci(u[2], 'n')
}

/// The count of integer-part digits of the unsigned token.
pub open spec fn int_len(u: Seq<char>) -> nat {
    digit_prefix_len(u)
}

/// Whether a dot follows the integer-part digits.
pub open spec fn has_dot(u: Seq<char>) -> bool {
    int_len(u) < u.len() && u[int_len(u) as int] == '.'
}

/// The count of fraction digits after the dot.
pub open spec fn frac_len(u: Seq<char>) -> nat {
    if has_dot(u) {
        digit_prefix_len(u.subrange(int_len(u) as int + 1, u.len() as int))
    } else {
        0
    }
}

/// The mantissa: integer-part and fraction digits, dot left out.
pub open spec fn mantissa_digits(u: Seq<char>) -> Seq<char> {
    if has_dot(u) {
        u.subrange(0, int_len(u) as int) + u.subrange(
            int_len(u) as int + 1,
            int_len(u) as int + 1 + frac_len(u) as int,
        )
    } else {
        u.subrange(0, int_len(u) as int)
    }
}

/// Where the mantissa (digits and dot) ends in the unsigned token.
pub open spec fn mantissa_end(u: Seq<char>) -> int {
    if has_dot(u) {
        int_len(u) as int + 1 + frac_len(u) as int
    } else {
        int_len(u) as int
    }
}

/// Whether an exponent marker follows the mantissa.
pub open spec fn has_exp_marker(u: Seq<char>) -> bool {
    mantissa_end(u) < u.len() && (u[mantissa_end(u)] == 'e' || u[mantissa_end(u)] == 'E')
}

/// What follows the exponent marker.
pub open spec fn exp_body(u: Seq<char>) -> Seq<char> {
    u.subrange(mantissa_end(u) + 1, u.len() as int)
}

/// The exponent digits, after the exponent's optional sign.
pub open spec fn exp_digits(u: Seq<char>) -> Seq<char> {
    magnitude_part(exp_body(u))
}

/// Whether the exponent part is well formed: at least one digit, nothing
/// else.
pub open spec fn exp_valid(u: Seq<char>) -> bool {
    exp_digits(u).len() >= 1 && (forall|t: int|
        0 <= t < exp_digits(u).len() ==> is_digit_char(exp_digits(u)[t]))
}

/// The signed exponent value, 0 when no exponent part is present.
pub open spec fn exp_val(u: Seq<char>) -> int {
    if !has_exp_marker(u) {
        0
    } else if is_negative(exp_body(u)) {
        -int_val(exp_digits(u))
    } else {
        int_val(exp_digits(u))
    }
}

/// Whether the token is a number of the accepted grammar.
pub open spec fn is_number_token(s: Seq<char>) -> bool {
    let u = magnitude_part(s);
    mantissa_digits(u).len() >= 1 && (mantissa_end(u) == u.len() || (has_exp_marker(u)
        && exp_valid(u)))
}

/// Where the decimal point of the mantissa lands after the exponent
/// shift.
pub open spec fn shifted_point(u: Seq<char>) -> int {
    int_len(u) + exp_val(u)
}

/// The magnitude of the token's value, rounded half away from zero: the
/// digits before the shifted point, plus one when the digit at the point
/// is 5 or more.
pub open spec fn rounded_mag(u: Seq<char>) -> int {
    let d = mantissa_digits(u);
    let p = shifted_point(u);
    if p <= 0 {
        if p == 0 && d.len() > 0 && digit_val(d[0]) >= 5 {
            1
        } else {
            0
        }
    } else if p < d.len() {
        int_val(d.subrange(0, p)) + if digit_val(d[p]) >= 5 {
            1int
        } else {
            0int
        }
    } else {
        int_val(d) * pow10((p - d.len()) as nat)
    }
}

/// The token's exact value rounded half away from zero.
pub open spec fn rounded_value(s: Seq<char>) -> int {
    if is_negative(s) {
        -rounded_mag(magnitude_part(s))
    } else {
        rounded_mag(magnitude_part(s))
    }
}

/// Saturation to the `i32` range.
pub open spec fn clamp_to_i32(v: int) -> int {
    if v > 2147483647 {
        2147483647
    } else if v < -2147483648 {
        -2147483648
    } else {
        v
    }
}

/// What `validate_depth` returns for a token.
pub open spec fn depth_of(s: Seq<char>) -> int {
    if is_nan_token(s) {
        0
    } else if is_inf_token(s) {
        if is_negative(s) {
            -2147483648
        } else {
            2147483647
        }
    } else if is_number_token(s) {
        clamp_to_i32(rounded_value(s))
    } else {
        0
    }
}

/// Magnitudes are tracked exactly only up to this bound, one above the
/// largest magnitude an `i32` can carry.
spec fn cap_at(v: int) -> int {
    if v > 2147483649 {
        2147483649
    } else {
        v
    }
}

/// Exponent values are tracked exactly only up to this bound, far beyond
/// any point shift that could still matter.
spec fn cap_exp(v: int) -> int {
    if v > 1000000000000000000000000000000 {
        1000000000000000000000000000000
    } else {
        v
    }
}

/// Scanning past exactly the leading digits yields `digit_prefix_len`.
proof fn lemma_digit_prefix_index(s: Seq<char>, i: int)
    requires
        0 <= i <= s.len(),
        forall|k: int| 0 <= k < i ==> is_digit_char(s[k]),
        i == s.len() || !is_digit_char(s[i]),
    ensures
        digit_prefix_len(s) == i,
    decreases i,
{
    if i > 0 {
        let t = s.drop_first();
        assert(forall|k: int| 0 <= k < i - 1 ==> is_digit_char(#[trigger] t[k]));
        lemma_digit_prefix_index(t, i - 1);
    }
}

/// A digit sequence has a nonnegative value.
proof fn lemma_int_val_nonneg(s: Seq<char>)
    requires
        forall|k: int| 0 <= k < s.len() ==> is_digit_char(s[k]),
    ensures
        int_val(s) >= 0,
    decreases s.len(),
{
    if s.len() > 0 {
        let t = s.drop_last();
        assert(forall|k: int| 0 <= k < t.len() ==> is_digit_char(#[trigger] t[k]));
        lemma_int_val_nonneg(t);
    }
}

/// Powers of ten are at least one.
proof fn lemma_pow10_pos(e: nat)
    ensures
        pow10(e) >= 1,
    decreases e,
{
    if e > 0 {
        lemma_pow10_pos((e - 1) as nat);
    }
}

/// Powers of ten multiply by adding exponents.
proof fn lemma_pow10_add(a: nat, b: nat)
    ensures
        pow10(a + b) == pow10(a) * pow10(b),
    decreases b,
{
    if b == 0 {
        assert(pow10(a + 0) == pow10(a) * 1);
    } else {
        lemma_pow10_add(a, (b - 1) as nat);
        assert(pow10(a + b) == 10 * pow10((a + b - 1) as nat));
        assert(pow10(b) == 10 * pow10((b - 1) as nat));
        assert(10 * (pow10(a) * pow10((b - 1) as nat)) == pow10(a) * (10 * pow10(
            (b - 1) as nat,
        ))) by (nonlinear_arith);
    }
}

/// A magnitude of one or more shifted ten or more places saturates past
/// the tracking bound.
proof fn lemma_product_saturates(v: int, e: nat)
    requires
        v >= 1,
        e >= 10,
    ensures
        v * pow10(e) > 2147483649,
{
    assert(pow10(10) == 10000000000) by {
        reveal_with_fuel(pow10, 11);
    }
    lemma_pow10_add(10, (e - 10) as nat);
    lemma_pow10_pos((e - 10) as nat);
    assert(pow10(e) >= pow10(10)) by (nonlinear_arith)
        requires
            pow10(e) == pow10(10) * pow10((e - 10) as nat),
            pow10((e - 10) as nat) >= 1,
            pow10(10) >= 1,
    ;
    assert(v * pow10(e) >= pow10(e)) by (nonlinear_arith)
        requires
            v >= 1,
            pow10(e) >= 1,
    ;
}

/// Executable test for `is_digit_char`.
fn digit_char(c: char) -> (b: bool)
    ensures
        b == is_digit_char(c),
{
    let u: u32 = c as u32;
    48 <= u && u <= 57
}

/// The numeric value of a digit character.
fn digit_value(c: char) -> (v: u8)
    requires
        is_digit_char(c),
    ensures
        v as int == digit_val(c),
        v <= 9,
{
    let u: u32 = c as u32;
    (u - 48) as u8
}

/// Executable test for `eq_ci`.
fn ci_char(c: char, lower: char) -> (b: bool)
    ensures
        b == eq_ci(c, lower),
{
    let cu: u32 = c as u32;
    let lu: u32 = lower as u32;
    cu == lu || cu + 32 == lu
}

/// The value of the first `pp` digits, tracked exactly up to the cap.
fn capped_prefix(digits: &Vec<u8>, pp: usize, Ghost(dsq): Ghost<Seq<char>>) -> (acc: u64)
    requires
        pp <= digits@.len(),
        digits@.len() == dsq.len(),
        forall|t: int|
            0 <= t < dsq.len() ==> is_digit_char(#[trigger] dsq[t]) && digits@[t] as int
                == digit_val(dsq[t]),
    ensures
        acc as int == cap_at(int_val(dsq.subrange(0, pp as int))),
        acc <= 2147483649,
{
    let mut acc: u64 = 0;
    let mut t: usize = 0;
    proof {
        assert(dsq.subrange(0, 0) =~= Seq::<char>::empty());
    }
    while t < pp
        invariant
            t <= pp <= digits@.len(),
            digits@.len() == dsq.len(),
            forall|x: int|
                0 <= x < dsq.len() ==> is_digit_char(#[trigger] dsq[x]) && digits@[x] as int
                    == digit_val(dsq[x]),
            acc <= 2147483649,
            acc as int == cap_at(int_val(dsq.subrange(0, t as int))),
        decreases pp - t,
    {
        let d = digits[t];
        proof {
            let prev = dsq.subrange(0, t as int);
            let cur = dsq.subrange(0, t as int + 1);
            assert(cur.drop_last() =~= prev);
            assert(cur.last() == dsq[t as int]);
            assert(forall|x: int| 0 <= x < prev.len() ==> is_digit_char(#[trigger] prev[x]));
            lemma_int_val_nonneg(prev);
            assert(int_val(cur) == int_val(prev) * 10 + digit_val(dsq[t as int]));
        }
        let w: u64 = acc * 10 + d as u64;
        if w > 2147483649 {
            acc = 2147483649;
        } else {
            acc = w;
        }
        t = t + 1;
    }
    acc
}

/// The capped value after shifting a capped magnitude `excess` places
/// left.
fn capped_shift(acc0: u64, excess: u128, Ghost(v0): Ghost<int>) -> (r: u64)
    requires
        v0 >= 0,
        acc0 <= 2147483649,
        acc0 as int == cap_at(v0),
    ensures
        r as int == cap_at(v0 * pow10(excess as nat)),
        r <= 2147483649,
{
    let mut acc: u64 = acc0;
    let mut steps: u128 = 0;
    proof {
        assert(pow10(0) == 1);
        assert(v0 * 1 == v0) by (nonlinear_arith);
    }
    while steps < excess && 0 < acc && acc < 2147483649
        invariant
            steps <= excess,
            v0 >= 0,
            acc <= 2147483649,
            acc as int == cap_at(v0 * pow10(steps as nat)),
        decreases excess - steps,
    {
        proof {
            lemma_pow10_pos(steps as nat);
            assert(v0 * pow10(steps as nat) >= 0) by (nonlinear_arith)
                requires
                    v0 >= 0,
                    pow10(steps as nat) >= 1,
            ;
            assert(pow10((steps + 1) as nat) == 10 * pow10(steps as nat));
            assert(v0 * (10 * pow10(steps as nat)) == 10 * (v0 * pow10(
                steps as nat,
            ))) by (nonlinear_arith);
        }
        let w: u64 = acc * 10;
        if w > 2147483649 {
            acc = 2147483649;
        } else {
            acc = w;
        }
        steps = steps + 1;
    }
    proof {
        lemma_pow10_pos(steps as nat);
        if steps < excess {
            if acc == 0 {
                assert(v0 * pow10(steps as nat) == 0);
                assert(v0 == 0) by (nonlinear_arith)
                    requires
                        v0 * pow10(steps as nat) == 0,
                        pow10(steps as nat) >= 1,
                        v0 >= 0,
                ;
                assert(v0 * pow10(excess as nat) == 0) by (nonlinear_arith)
                    requires
                        v0 == 0,
                ;
            } else {
                let w0 = v0 * pow10(steps as nat);
                assert(w0 >= 2147483649);
                lemma_pow10_add(steps as nat, (excess - steps) as nat);
                lemma_pow10_pos((excess - steps) as nat);
                assert(v0 * pow10(excess as nat) == w0 * pow10(
                    (excess - steps) as nat,
                )) by (nonlinear_arith)
                    requires
                        pow10(excess as nat) == pow10(steps as nat) * pow10(
                            (excess - steps) as nat,
                        ),
                        w0 == v0 * pow10(steps as nat),
                ;
                assert(w0 * pow10((excess - steps) as nat) >= w0) by (nonlinear_arith)
                    requires
                        w0 >= 0,
                        pow10((excess - steps) as nat) >= 1,
                ;
            }
        }
    }
    acc
}

/// The rounded magnitude of a validated number token, from its mantissa
/// digits, integer-digit count and capped exponent: exact below the cap,
/// and saturated past the `i32` range with the true value saturated too.
fn rounded_magnitude(digits: &Vec<u8>, k: usize, eneg: bool, e_acc: u128, Ghost(u): Ghost<
    Seq<char>,
>) -> (mag: u64)
    requires
        1 <= digits@.len(),
        digits@.len() == mantissa_digits(u).len(),
        k as int == int_len(u),
        k <= digits@.len(),
        forall|t: int|
            0 <= t < digits@.len() ==> is_digit_char(#[trigger] mantissa_digits(u)[t])
                && digits@[t] as int == digit_val(mantissa_digits(u)[t]),
        e_acc <= 1000000000000000000000000000000,
        has_exp_marker(u) ==> exp_valid(u) && e_acc as int == cap_exp(int_val(exp_digits(u)))
            && eneg == is_negative(exp_body(u)) && int_val(exp_digits(u)) >= 0,
        !has_exp_marker(u) ==> e_acc == 0 && !eneg,
    ensures
        mag as int == rounded_mag(u) || (mag >= 2147483648 && rounded_mag(u) >= 2147483648),
{
    let ghost dsq = mantissa_digits(u);
    let dlen: usize = digits.len();
    let ghost p = shifted_point(u);
    let ghost v0 = int_val(dsq);
    proof {
        assert(forall|t: int| 0 <= t < dsq.len() ==> is_digit_char(#[trigger] dsq[t]));
        lemma_int_val_nonneg(dsq);
        assert(dlen as u128 <= u64::MAX as u128);
    }
    let mag: u64;
    if eneg && e_acc >= k as u128 {
        if e_acc == k as u128 {
            if digits[0] >= 5 {
                mag = 1;
            } else {
                mag = 0;
            }
            proof {
                assert(p == 0);
                assert(mag as int == rounded_mag(u));
            }
        } else {
            mag = 0;
            proof {
                assert(p < 0);
                assert(mag as int == rounded_mag(u));
            }
        }
    } else {
        let pshift: u128 = if eneg {
            k as u128 - e_acc
        } else {
            k as u128 + e_acc
        };
        if pshift <= dlen as u128 {
            proof {
                assert(e_acc < 1000000000000000000000000000000);
                assert(p == pshift as int);
            }
            let pp: usize = pshift as usize;
            let acc = capped_prefix(&digits, pp, Ghost(dsq));
            let round: u64 = if pp < dlen && digits[pp] >= 5 {
                1
            } else {
                0
            };
            mag = acc + round;
            proof {
                if pp == dlen {
                    assert(dsq.subrange(0, pp as int) =~= dsq);
                    assert(pow10(0) == 1);
                    assert(v0 * 1 == v0) by (nonlinear_arith);
                    assert(rounded_mag(u) == v0);
                } else if pp == 0 {
                    assert(int_val(dsq.subrange(0, 0)) == 0);
                    assert(rounded_mag(u) == round);
                } else {
                    assert(rounded_mag(u) == int_val(dsq.subrange(0, pp as int)) + round);
                }
                assert(mag as int == rounded_mag(u) || (mag >= 2147483648 && rounded_mag(u)
                    >= 2147483648));
            }
        } else {
            let acc = capped_prefix(&digits, dlen, Ghost(dsq));
            proof {
                assert(dsq.subrange(0, dlen as int) =~= dsq);
            }
            let excess: u128 = pshift - dlen as u128;
            let r = capped_shift(acc, excess, Ghost(v0));
            mag = r;
            proof {
                if e_acc < 1000000000000000000000000000000 {
                    assert(p == pshift as int);
                    assert(p - dlen == excess as int);
                    assert(rounded_mag(u) == v0 * pow10(excess as nat));
                } else {
                    assert(!eneg);
                    assert(exp_val(u) >= 1000000000000000000000000000000);
                    assert(p - dlen >= 10);
                    assert(excess >= 10);
                    if v0 == 0 {
                        assert(v0 * pow10((p - dlen) as nat) == 0) by (nonlinear_arith)
                            requires
                                v0 == 0,
                        ;
                        assert(v0 * pow10(excess as nat) == 0) by (nonlinear_arith)
                            requires
                                v0 == 0,
                        ;
                        assert(rounded_mag(u) == 0);
                        assert(mag == 0);
                    } else {
                        lemma_product_saturates(v0, (p - dlen) as nat);
                        lemma_product_saturates(v0, excess as nat);
                        assert(rounded_mag(u) > 2147483649);
                        assert(mag == 2147483649);
                    }
                }
                assert(mag as int == rounded_mag(u) || (mag >= 2147483648 && rounded_mag(u)
                    >= 2147483648));
            }
        }
    }
    mag
}

/// The depth of a signed word token (`inf`, `infinity`, `nan`), or
/// nothing when the token is no such word.
fn special_word_depth(arg: &str, n: usize, pos: usize, neg: bool) -> (res: Option<i32>)
    requires
        n == arg@.len(),
        pos as int == (if has_sign(arg@) { 1int } else { 0int }),
        neg == is_negative(arg@),
        pos <= n,
    ensures
        res is Some ==> (is_nan_token(arg@) || is_inf_token(arg@)) && res->0 as int == depth_of(
            arg@,
        ),
        res is None ==> !is_inf_token(arg@) && !is_nan_token(arg@),
{
    let ghost u = magnitude_part(arg@);
    proof {
        assert(u.len() == n - pos);
        assert(forall|j: int| 0 <= j < u.len() ==> #[trigger] u[j] == arg@[pos + j]);
    }
    if n - pos == 3 {
        let a0 = arg.get_char(pos);
        let a1 = arg.get_char(pos + 1);
        let a2 = arg.get_char(pos + 2);
        if ci_char(a0, 'i') && ci_char(a1, 'n') && ci_char(a2, 'f') {
            proof {
                assert(is_inf_token(arg@));
                assert(!is_nan_token(arg@));
            }
            if neg {
                return Some(i32::MIN);
            } else {
                return Some(i32::MAX);
            }
        }
        if ci_char(a0, 'n') && ci_char(a1, 'a') && ci_char(a2, 'n') {
            proof {
                assert(is_nan_token(arg@));
            }
            return Some(0);
        }
    } else if n - pos == 8 {
        let a0 = arg.get_char(pos);
        let a1 = arg.get_char(pos + 1);
        let a2 = arg.get_char(pos + 2);
        let a3 = arg.get_char(pos + 3);
        let a4 = arg.get_char(pos + 4);
        let a5 = arg.get_char(pos + 5);
        let a6 = arg.get_char(pos + 6);
        let a7 = arg.get_char(pos + 7);
        if ci_char(a0, 'i') && ci_char(a1, 'n') && ci_char(a2, 'f') && ci_char(a3, 'i') && ci_char(
            a4,
            'n',
        ) && ci_char(a5, 'i') && ci_char(a6, 't') && ci_char(a7, 'y') {
            proof {
                assert(is_inf_token(arg@));
                assert(!is_nan_token(arg@));
            }
            if neg {
                return Some(i32::MIN);
            } else {
                return Some(i32::MAX);
            }
        }
    }
    proof {
        assert(!is_inf_token(arg@));
        assert(!is_nan_token(arg@));
    }
    None
}

/// Scans the exponent part beginning at `me`: its sign and capped digit
/// value, or nothing when the part is malformed.
fn scan_exponent(arg: &str, n: usize, pos: usize, me: usize, Ghost(u): Ghost<Seq<char>>) -> (res:
    Option<(bool, u128)>)
    requires
        n == arg@.len(),
        u == magnitude_part(arg@),
        pos as int == (if has_sign(arg@) { 1int } else { 0int }),
        pos <= me < n,
        mantissa_end(u) == me - pos,
    ensures
        res is Some ==> has_exp_marker(u) && exp_valid(u) && int_val(exp_digits(u)) >= 0 && ({
            let pair = res->0;
            pair.0 == is_negative(exp_body(u)) && pair.1 as int == cap_exp(int_val(exp_digits(u)))
                && pair.1 <= 1000000000000000000000000000000
        }),
        res is None ==> !(has_exp_marker(u) && exp_valid(u)),
{
    let mut eneg: bool = false;
    let mut e_acc: u128 = 0;
    proof {
        assert(u.len() == n - pos);
        assert(forall|j: int| 0 <= j < u.len() ==> #[trigger] u[j] == arg@[pos + j]);
    }
    let c = arg.get_char(me);
    if !(c == 'e' || c == 'E') {
        proof {
            assert(u[me - pos] == arg@[me as int]);
            assert(!has_exp_marker(u));
        }
        return None;
    }
    let mut q: usize = me + 1;
    if q < n {
        let c1 = arg.get_char(q);
        if c1 == '-' {
            eneg = true;
            q = q + 1;
        } else if c1 == '+' {
            q = q + 1;
        }
    }
    let estart: usize = q;
    let ghost ed = exp_digits(u);
    proof {
        assert(exp_body(u) =~= arg@.subrange(me + 1, n as int));
        assert(eneg == is_negative(exp_body(u)));
        assert(ed.len() == n - estart);
        assert(forall|t: int| 0 <= t < ed.len() ==> #[trigger] ed[t] == arg@[estart + t]);
        assert(arg@.subrange(estart as int, estart as int) =~= Seq::<char>::empty());
        assert(ed.subrange(0, 0) =~= Seq::<char>::empty());
    }
    while q < n && digit_char(arg.get_char(q))
        invariant
            n == arg@.len(),
            estart <= q <= n,
            ed.len() == n - estart,
            forall|t: int| 0 <= t < ed.len() ==> #[trigger] ed[t] == arg@[estart + t],
            forall|t: int| 0 <= t < q - estart ==> is_digit_char(#[trigger] ed[t]),
            e_acc <= 1000000000000000000000000000000,
            e_acc as int == cap_exp(int_val(ed.subrange(0, q - estart))),
        decreases n - q,
    {
        let c2 = arg.get_char(q);
        let d = digit_value(c2);
        proof {
            let prev = ed.subrange(0, q - estart);
            let cur = ed.subrange(0, q - estart + 1);
            assert(cur.drop_last() =~= prev);
            assert(cur.last() == ed[q - estart]);
            assert(forall|x: int| 0 <= x < prev.len() ==> is_digit_char(#[trigger] prev[x]));
            lemma_int_val_nonneg(prev);
            assert(int_val(cur) == int_val(prev) * 10 + digit_val(ed[q - estart]));
        }
        let w: u128 = e_acc * 10 + d as u128;
        if w > 1000000000000000000000000000000 {
            e_acc = 1000000000000000000000000000000;
        } else {
            e_acc = w;
        }
        q = q + 1;
    }
    if q < n {
        proof {
            assert(!is_digit_char(ed[q - estart]));
            assert(!exp_valid(u));
        }
        return None;
    }
    if q == estart {
        proof {
            assert(ed.len() == 0);
            assert(!exp_valid(u));
        }
        return None;
    }
    proof {
        assert(ed.subrange(0, ed.len() as int) =~= ed);
        assert(e_acc as int == cap_exp(int_val(ed)));
        assert(forall|t: int| 0 <= t < ed.len() ==> is_digit_char(#[trigger] ed[t]));
        lemma_int_val_nonneg(ed);
        assert(exp_valid(u));
        assert(has_exp_marker(u));
    }
    Some((eneg, e_acc))
}

/// Parses the depth token: its rounded value saturated to `i32`, or 0
/// when the token is not a number.  Only a positive result authorizes a
/// derivation; 0 and below signal an invalid depth to the caller.
#[verifier::rlimit(100)]
pub fn validate_depth(arg: &str) -> (r: i32)
    ensures
        r as int == depth_of(arg@),
{
    let n: usize = arg.unicode_len();
    let mut pos: usize = 0;
    let mut neg: bool = false;
    if n > 0 {
        let c0 = arg.get_char(0);
        if c0 == '-' {
            neg = true;
            pos = 1;
        } else if c0 == '+' {
            pos = 1;
        }
    }
    let ghost u = magnitude_part(arg@);
    proof {
        assert(neg == is_negative(arg@));
        assert(u.len() == n - pos);
        assert(forall|j: int| 0 <= j < u.len() ==> #[trigger] u[j] == arg@[pos + j]);
    }
    if let Some(v) = special_word_depth(arg, n, pos, neg) {
        return v;
    }
    let mut digits: Vec<u8> = Vec::new();
    let mut i: usize = pos;
    while i < n && digit_char(arg.get_char(i))
        invariant
            n == arg@.len(),
            pos <= i <= n,
            pos <= 1,
            u == magnitude_part(arg@),
            u.len() == n - pos,
            forall|j: int| 0 <= j < u.len() ==> #[trigger] u[j] == arg@[pos + j],
            digits@.len() == i - pos,
            forall|t: int|
                0 <= t < i - pos ==> is_digit_char(#[trigger] u[t]) && digits@[t] as int
                    == digit_val(u[t]),
        decreases n - i,
    {
        let c = arg.get_char(i);
        let d = digit_value(c);
        digits.push(d);
        i = i + 1;
    }
    let k: usize = i - pos;
    proof {
        assert(i == n || !is_digit_char(u[i - pos]));
        lemma_digit_prefix_index(u, k as int);
    }
    let mut me: usize = i;
    if i < n && arg.get_char(i) == '.' {
        let mut j: usize = i + 1;
        while j < n && digit_char(arg.get_char(j))
            invariant
                n == arg@.len(),
                pos <= 1,
                pos + k == i,
                i < n,
                i + 1 <= j <= n,
                u == magnitude_part(arg@),
                u.len() == n - pos,
                forall|x: int| 0 <= x < u.len() ==> #[trigger] u[x] == arg@[pos + x],
                u[k as int] == '.',
                digit_prefix_len(u) == k,
                digits@.len() == k + (j - i - 1),
                forall|t: int|
                    0 <= t < k ==> is_digit_char(#[trigger] u[t]) && digits@[t] as int == digit_val(
                        u[t],
                    ),
                forall|t: int|
                    0 <= t < j - i - 1 ==> is_digit_char(#[trigger] u[k + 1 + t]) && digits@[k
                        + t] as int == digit_val(u[k + 1 + t]),
            decreases n - j,
        {
            let c = arg.get_char(j);
            let d = digit_value(c);
            digits.push(d);
            j = j + 1;
        }
        proof {
            let w = u.subrange(k + 1, u.len() as int);
            assert(forall|t: int| 0 <= t < w.len() ==> #[trigger] w[t] == u[k + 1 + t]);
            assert(forall|t: int| 0 <= t < j - i - 1 ==> is_digit_char(#[trigger] w[t]));
            assert(j - i - 1 == w.len() || !is_digit_char(w[j - i - 1]));
            lemma_digit_prefix_index(w, j - i - 1);
            assert(has_dot(u));
            assert(frac_len(u) == j - i - 1);
            assert(mantissa_end(u) == j - pos);
            assert(mantissa_digits(u) =~= u.subrange(0, k as int) + u.subrange(
                k + 1,
                k + 1 + (j - i - 1),
            ));
            assert(forall|t: int|
                0 <= t < digits@.len() ==> is_digit_char(#[trigger] mantissa_digits(u)[t])
                    && digits@[t] as int == digit_val(mantissa_digits(u)[t]));
        }
        me = j;
    } else {
        proof {
            assert(!has_dot(u));
            assert(mantissa_end(u) == k as int);
            assert(mantissa_digits(u) =~= u.subrange(0, k as int));
            assert(forall|t: int|
                0 <= t < digits@.len() ==> is_digit_char(#[trigger] mantissa_digits(u)[t])
                    && digits@[t] as int == digit_val(mantissa_digits(u)[t]));
        }
    }
    let ghost dsq = mantissa_digits(u);
    proof {
        assert(digits@.len() == dsq.len());
        assert(mantissa_end(u) == me - pos);
    }
    if digits.len() == 0 {
        proof {
            assert(!is_number_token(arg@));
        }
        return 0;
    }
    let mut eneg: bool = false;
    let mut e_acc: u128 = 0;
    if me < n {
        match scan_exponent(arg, n, pos, me, Ghost(u)) {
            Some(pair) => {
                eneg = pair.0;
                e_acc = pair.1;
            },
            None => {
                proof {
                    assert(!is_number_token(arg@));
                }
                return 0;
            },
        }
    } else {
        proof {
            assert(mantissa_end(u) == u.len());
            assert(is_number_token(arg@));
            assert(exp_val(u) == 0);
        }
    }
    proof {
        assert(k <= digits@.len());
    }
    let mag: u64 = rounded_magnitude(&digits, k, eneg, e_acc, Ghost(u));
    proof {
        assert(depth_of(arg@) == clamp_to_i32(rounded_value(arg@)));
    }
    if neg {
        if mag >= 2147483648 {
            proof {
                assert(rounded_value(arg@) <= -2147483648);
            }
            return i32::MIN;
        } else {
            proof {
                assert(mag as int == rounded_mag(u));
                assert(rounded_value(arg@) == -(mag as int));
            }
            return -(mag as i32);
        }
    } else {
        if mag > 2147483647 {
            proof {
                assert(rounded_value(arg@) >= 2147483648);
            }
            return i32::MAX;
        } else {
            proof {
                assert(mag as int == rounded_mag(u));
            }
            return mag as i32;
        }
    }
}

} // verus!
