//! Decimal text to fixed-point numbers.
//!
//! The feed transmits prices and quantities as decimal text. The dashboard
//! compares and buckets them, so they are parsed once into a fixed-point
//! integer: the value scaled by `DECIMAL_SCALE`, fraction digits beyond the
//! scale truncated. A field that is not a plain signed decimal, or whose
//! scaled value does not fit an `i64`, counts as absent and parses to zero.

use vstd::prelude::*;
use vstd::string::StrSliceExecFns;

verus! {

/// Fixed-point values carry four fraction digits.
pub const DECIMAL_SCALE: i64 = 10000;

/// Number of fraction digits a fixed-point value keeps.
pub const FRAC_DIGITS: usize = 4;

/// Whether `c` is a decimal digit.
pub open spec fn is_digit(c: char) -> bool {
    48 <= c as u32 && c as u32 <= 57
}

/// Numeric value of a digit character.
pub open spec fn digit_val(c: char) -> int {
    c as u32 - 48
}

/// Whether every character of `s` is a decimal digit.
pub open spec fn all_digits(s: Seq<char>) -> bool {
    forall|i: int| 0 <= i < s.len() ==> is_digit(#[trigger] s[i])
}

/// The number a run of digits denotes, most significant first.
pub open spec fn digits_val(s: Seq<char>) -> int
    decreases s.len(),
{
    if s.len() == 0 {
        0
    } else {
        digits_val(s.drop_last()) * 10 + digit_val(s.last())
    }
}

/// Ten to the `k`.
pub open spec fn pow10(k: nat) -> int
    decreases k,
{
    if k == 0 {
        1
    } else {
        10 * pow10((k - 1) as nat)
    }
}

/// Index of the first `'.'` in `u`, or `u.len()` if there is none.
pub open spec fn dot_index(u: Seq<char>) -> int
    decreases u.len(),
{
    if u.len() == 0 {
        0
    } else if u[0] == '.' {
        0
    } else {
        1 + dot_index(u.drop_first())
    }
}

/// Whether the text starts with a minus sign.
pub open spec fn is_neg(s: Seq<char>) -> bool {
    s.len() > 0 && s[0] == '-'
}

/// The text with a leading minus sign removed.
pub open spec fn unsigned_part(s: Seq<char>) -> Seq<char> {
    if is_neg(s) {
        s.drop_first()
    } else {
        s
    }
}

/// The digits before the first `'.'`.
pub open spec fn int_part(u: Seq<char>) -> Seq<char> {
    u.take(dot_index(u))
}

/// The characters after the first `'.'`; empty if there is none.
pub open spec fn frac_part(u: Seq<char>) -> Seq<char> {
    if dot_index(u) == u.len() {
        Seq::empty()
    } else {
        u.skip(dot_index(u) + 1)
    }
}

/// Whether an unsigned body is grammatical: one or more integer digits,
/// then optionally a `'.'` followed by one or more fraction digits.
pub open spec fn valid_body(u: Seq<char>) -> bool {
    &&& int_part(u).len() >= 1
    &&& all_digits(int_part(u))
    &&& dot_index(u) < u.len() ==> frac_part(u).len() >= 1 && all_digits(frac_part(u))
}

/// The fraction digits' contribution to the scaled value: the first
/// `FRAC_DIGITS` of them, padded with zeros on the right.
pub open spec fn frac_scaled(f: Seq<char>) -> int {
    if f.len() >= FRAC_DIGITS {
        digits_val(f.take(FRAC_DIGITS as int))
    } else {
        digits_val(f) * pow10((FRAC_DIGITS - f.len()) as nat)
    }
}

/// The scaled magnitude of an unsigned body.
pub open spec fn body_scaled(u: Seq<char>) -> int {
    digits_val(int_part(u)) * DECIMAL_SCALE + frac_scaled(frac_part(u))
}

/// Whether `s` parses: a grammatical signed decimal whose scaled magnitude
/// fits an `i64`.
pub open spec fn is_valid_decimal(s: Seq<char>) -> bool {
    &&& valid_body(unsigned_part(s))
    &&& body_scaled(unsigned_part(s)) <= i64::MAX
}

/// The fixed-point value `s` denotes; zero when `s` does not parse.
pub open spec fn decimal_of(s: Seq<char>) -> int {
    if is_valid_decimal(s) {
        if is_neg(s) {
            -body_scaled(unsigned_part(s))
        } else {
            body_scaled(unsigned_part(s))
        }
    } else {
        0
    }
}

/// A run of digits denotes a non-negative number.
proof fn lemma_digits_val_nonneg(s: Seq<char>)
    requires
        all_digits(s),
    ensures
        digits_val(s) >= 0,
    decreases s.len(),
{
    if s.len() > 0 {
        assert(all_digits(s.drop_last()));
        lemma_digits_val_nonneg(s.drop_last());
    }
}

/// Extending a run of digits on the right never shrinks its value.
proof fn lemma_digits_val_prefix(s: Seq<char>, k: int)
    requires
        all_digits(s),
        0 <= k <= s.len(),
    ensures
        digits_val(s) >= digits_val(s.take(k)),
    decreases s.len(),
{
    if k < s.len() {
        assert(all_digits(s.drop_last()));
        lemma_digits_val_prefix(s.drop_last(), k);
        lemma_digits_val_nonneg(s.drop_last());
        assert(s.drop_last().take(k) =~= s.take(k));
    } else {
        assert(s.take(k) =~= s);
    }
}

/// Appending one digit multiplies by ten and adds it.
proof fn lemma_digits_val_push(s: Seq<char>, c: char)
    ensures
        digits_val(s.push(c)) == digits_val(s) * 10 + digit_val(c),
{
    assert(s.push(c).drop_last() =~= s);
    assert(s.push(c).last() == c);
}

/// The first dot lies between zero and the length.
proof fn lemma_dot_index_bounds(u: Seq<char>)
    ensures
        0 <= dot_index(u) <= u.len(),
    decreases u.len(),
{
    if u.len() > 0 && u[0] != '.' {
        lemma_dot_index_bounds(u.drop_first());
    }
}

/// A scan that has seen no dot so far has not reached the first dot.
proof fn lemma_dot_index_ge(u: Seq<char>, i: int)
    requires
        0 <= i <= u.len(),
        forall|t: int| 0 <= t < i ==> u[t] != '.',
    ensures
        dot_index(u) >= i,
    decreases u.len(),
{
    lemma_dot_index_bounds(u);
    if i > 0 {
        assert(u[0] != '.');
        assert forall|t: int| 0 <= t < i - 1 implies u.drop_first()[t] != '.' by {
            assert(u[t + 1] != '.');
        }
        lemma_dot_index_ge(u.drop_first(), i - 1);
    }
}

/// The position where a scan that has only seen non-dot characters stops is
/// the first dot.
proof fn lemma_dot_index_at(u: Seq<char>, i: int)
    requires
        0 <= i <= u.len(),
        forall|t: int| 0 <= t < i ==> u[t] != '.',
        i < u.len() ==> u[i] == '.',
        i == u.len() ==> forall|t: int| 0 <= t < u.len() ==> u[t] != '.',
    ensures
        dot_index(u) == i,
    decreases u.len(),
{
    if i == 0 {
        if u.len() > 0 {
            assert(u[0] == '.');
        }
    } else {
        assert(u[0] != '.');
        assert forall|t: int| 0 <= t < i - 1 implies u.drop_first()[t] != '.' by {
            assert(u[t + 1] != '.');
        }
        if i == u.len() {
            assert forall|t: int| 0 <= t < u.drop_first().len() implies u.drop_first()[t] != '.' by {
                assert(u[t + 1] != '.');
            }
        } else {
            assert(u.drop_first()[i - 1] == u[i]);
        }
        lemma_dot_index_at(u.drop_first(), i - 1);
    }
}

/// Ten to the `k` is positive.
proof fn lemma_pow10_pos(k: nat)
    ensures
        pow10(k) >= 1,
    decreases k,
{
    if k > 0 {
        lemma_pow10_pos((k - 1) as nat);
    }
}

/// A digit is neither the dot nor the sign.
proof fn lemma_digit_not_dot(c: char)
    requires
        is_digit(c),
    ensures
        c != '.',
        c != '-',
{
}

/// The fraction contribution to a grammatical body is non-negative.
proof fn lemma_frac_scaled_nonneg(u: Seq<char>)
    requires
        valid_body(u),
    ensures
        frac_scaled(frac_part(u)) >= 0,
{
    let f = frac_part(u);
    lemma_dot_index_bounds(u);
    if f.len() >= FRAC_DIGITS {
        assert(all_digits(f));
        assert forall|i: int| 0 <= i < f.take(FRAC_DIGITS as int).len() implies is_digit(
            #[trigger] f.take(FRAC_DIGITS as int)[i],
        ) by {
            assert(f.take(FRAC_DIGITS as int)[i] == f[i]);
        }
        lemma_digits_val_nonneg(f.take(FRAC_DIGITS as int));
    } else {
        lemma_digits_val_nonneg(f);
        lemma_pow10_pos((FRAC_DIGITS - f.len()) as nat);
        vstd::arithmetic::mul::lemma_mul_nonnegative(
            digits_val(f),
            pow10((FRAC_DIGITS - f.len()) as nat),
        );
    }
}

/// A grammatical body's scaled magnitude is at least the value of any prefix
/// of its integer digits.
proof fn lemma_body_at_least_int_prefix(u: Seq<char>, k: int)
    requires
        valid_body(u),
        0 <= k <= int_part(u).len(),
    ensures
        body_scaled(u) >= digits_val(int_part(u).take(k)),
{
    lemma_digits_val_prefix(int_part(u), k);
    lemma_digits_val_nonneg(int_part(u));
    lemma_frac_scaled_nonneg(u);
}

/// Digits scanned at the front of the body stay inside its integer part; if
/// their value already exceeds `i64::MAX`, the text does not parse.
proof fn lemma_int_overflow_invalid(sv: Seq<char>, start: int, pos: int)
    requires
        0 <= start <= pos < sv.len(),
        start == if is_neg(sv) { 1int } else { 0int },
        forall|t: int| start <= t <= pos ==> is_digit(#[trigger] sv[t]),
        digits_val(sv.subrange(start, pos + 1)) > i64::MAX,
    ensures
        !is_valid_decimal(sv),
{
    let u = unsigned_part(sv);
    assert(u =~= sv.subrange(start, sv.len() as int));
    if is_valid_decimal(sv) {
        assert forall|t: int| 0 <= t < pos + 1 - start implies u[t] != '.' by {
            assert(is_digit(sv[start + t]));
            lemma_digit_not_dot(sv[start + t]);
        }
        lemma_dot_index_ge(u, pos + 1 - start);
        lemma_dot_index_bounds(u);
        assert(int_part(u).take(pos + 1 - start) =~= sv.subrange(start, pos + 1));
        lemma_body_at_least_int_prefix(u, pos + 1 - start);
        assert(false);
    }
}

/// A body that does not open with a digit does not parse.
proof fn lemma_no_int_digit_invalid(sv: Seq<char>, start: int)
    requires
        0 <= start <= sv.len(),
        start == if is_neg(sv) { 1int } else { 0int },
        start < sv.len() ==> !is_digit(sv[start]),
    ensures
        !is_valid_decimal(sv),
{
    let u = unsigned_part(sv);
    assert(u =~= sv.subrange(start, sv.len() as int));
    lemma_dot_index_bounds(u);
    if u.len() > 0 && u[0] != '.' {
        if valid_body(u) {
            assert(int_part(u)[0] == u[0]);
            assert(is_digit(u[0]));
            assert(false);
        }
    }
}

/// A body whose integer digits stop at a character that is neither a digit
/// nor the dot does not parse.
proof fn lemma_int_stop_invalid(sv: Seq<char>, start: int, pos: int)
    requires
        0 <= start <= pos < sv.len(),
        start == if is_neg(sv) { 1int } else { 0int },
        forall|t: int| start <= t < pos ==> is_digit(#[trigger] sv[t]),
        !is_digit(sv[pos]),
        sv[pos] != '.',
    ensures
        !is_valid_decimal(sv),
{
    let u = unsigned_part(sv);
    assert(u =~= sv.subrange(start, sv.len() as int));
    assert forall|t: int| 0 <= t < pos + 1 - start implies u[t] != '.' by {
        if t < pos - start {
            assert(is_digit(sv[start + t]));
            lemma_digit_not_dot(sv[start + t]);
        }
    }
    lemma_dot_index_ge(u, pos + 1 - start);
    lemma_dot_index_bounds(u);
    if valid_body(u) {
        assert(int_part(u)[pos - start] == u[pos - start]);
        assert(is_digit(u[pos - start]));
        assert(false);
    }
}

/// A body of digits alone is grammatical and its scaled magnitude is its
/// digits' value times the scale.
proof fn lemma_all_digits_shape(sv: Seq<char>, start: int)
    requires
        0 <= start < sv.len(),
        start == if is_neg(sv) { 1int } else { 0int },
        forall|t: int| start <= t < sv.len() ==> is_digit(#[trigger] sv[t]),
    ensures
        valid_body(unsigned_part(sv)),
        body_scaled(unsigned_part(sv)) == digits_val(sv.subrange(start, sv.len() as int))
            * DECIMAL_SCALE,
{
    let u = unsigned_part(sv);
    assert(u =~= sv.subrange(start, sv.len() as int));
    assert forall|t: int| 0 <= t < u.len() implies u[t] != '.' by {
        assert(is_digit(sv[start + t]));
        lemma_digit_not_dot(sv[start + t]);
    }
    lemma_dot_index_at(u, u.len() as int);
    assert(int_part(u) =~= u);
    assert(frac_part(u) == Seq::<char>::empty());
    assert(frac_scaled(frac_part(u)) == 0);
}

/// The shape facts of a body with a dot: the digits before it are the
/// integer part, the text after it the fraction part.
proof fn lemma_dotted_shape(sv: Seq<char>, start: int, pos: int)
    requires
        0 <= start <= pos < sv.len(),
        start == if is_neg(sv) { 1int } else { 0int },
        forall|t: int| start <= t < pos ==> is_digit(#[trigger] sv[t]),
        sv[pos] == '.',
    ensures
        dot_index(unsigned_part(sv)) == pos - start,
        int_part(unsigned_part(sv)) == sv.subrange(start, pos),
        frac_part(unsigned_part(sv)) == sv.subrange(pos + 1, sv.len() as int),
    {
    let u = unsigned_part(sv);
    assert(u =~= sv.subrange(start, sv.len() as int));
    assert forall|t: int| 0 <= t < pos - start implies u[t] != '.' by {
        assert(is_digit(sv[start + t]));
        lemma_digit_not_dot(sv[start + t]);
    }
    lemma_dot_index_at(u, pos - start);
    assert(int_part(u) =~= sv.subrange(start, pos));
    assert(frac_part(u) =~= sv.subrange(pos + 1, sv.len() as int));
}

/// Parses decimal text into a fixed-point value. Anything that is not a
/// plain signed decimal — or whose scaled value does not fit — parses to
/// zero, as the pipeline treats unparseable fields as absent.
#[verifier::rlimit(50)]
pub fn parse_decimal(s: &str) -> (p: i64)
    ensures
        p as int == decimal_of(s@),
{
    let ghost sv = s@;
    let n = s.unicode_len();
    let neg = if n > 0 {
        s.get_char(0) == '-'
    } else {
        false
    };
    let start: usize = if neg {
        1
    } else {
        0
    };
    let mut pos: usize = start;
    let mut acc: i64 = 0;
    while pos < n
        invariant
            sv == s@,
            n == sv.len(),
            start <= pos <= n,
            neg == is_neg(sv),
            start == if neg { 1int } else { 0int },
            forall|t: int| start <= t < pos ==> is_digit(#[trigger] sv[t]),
            0 <= acc,
            acc as int == digits_val(sv.subrange(start as int, pos as int)),
        ensures
            pos == n || !is_digit(sv[pos as int]),
        decreases n - pos,
    {
        let c = s.get_char(pos);
        let cv = c as u32;
        if 48 <= cv && cv <= 57 {
            let d = (cv - 48) as i64;
            proof {
                assert(is_digit(sv[pos as int]));
                lemma_digits_val_push(sv.subrange(start as int, pos as int), c);
                assert(sv.subrange(start as int, pos + 1).drop_last() =~= sv.subrange(
                    start as int,
                    pos as int,
                ));
                vstd::arithmetic::div_mod::lemma_fundamental_div_mod(i64::MAX - d, 10);
            }
            if acc > (i64::MAX - d) / 10 {
                proof {
                    lemma_int_overflow_invalid(sv, start as int, pos as int);
                }
                return 0;
            }
            acc = acc * 10 + d;
            pos = pos + 1;
        } else {
            proof {
                assert(!is_digit(sv[pos as int]));
            }
            break;
        }
    }
    if pos == start {
        proof {
            lemma_no_int_digit_invalid(sv, start as int);
        }
        return 0;
    }
    if pos == n {
        proof {
            lemma_all_digits_shape(sv, start as int);
            vstd::arithmetic::div_mod::lemma_fundamental_div_mod(i64::MAX as int, 10000);
        }
        if acc > i64::MAX / 10000 {
            return 0;
        }
        let total = acc * 10000;
        if neg {
            return -total;
        } else {
            return total;
        }
    }
    let c2 = s.get_char(pos);
    if c2 != '.' {
        proof {
            lemma_int_stop_invalid(sv, start as int, pos as int);
        }
        return 0;
    }
    let ghost u = unsigned_part(sv);
    proof {
        lemma_dotted_shape(sv, start as int, pos as int);
    }
    if pos + 1 == n {
        proof {
            assert(frac_part(u).len() == 0);
            assert(dot_index(u) < u.len());
        }
        return 0;
    }
    let mut fpos: usize = pos + 1;
    let mut facc: i64 = 0;
    let mut fcount: usize = 0;
    proof {
        reveal_with_fuel(pow10, 6);
    }
    while fpos < n
        invariant
            sv == s@,
            n == sv.len(),
            start <= pos < n,
            neg == is_neg(sv),
            start == if neg { 1int } else { 0int },
            pos + 1 <= fpos <= n,
            pos + 1 < n,
            u == unsigned_part(sv),
            dot_index(u) == pos - start,
            int_part(u) == sv.subrange(start as int, pos as int),
            frac_part(u) == sv.subrange(pos + 1, n as int),
            forall|t: int| start <= t < pos ==> is_digit(#[trigger] sv[t]),
            0 <= acc,
            acc as int == digits_val(sv.subrange(start as int, pos as int)),
            forall|t: int| pos + 1 <= t < fpos ==> is_digit(#[trigger] sv[t]),
            fcount as int == if fpos - pos - 1 < 4 {
                fpos - pos - 1
            } else {
                4int
            },
            0 <= facc,
            facc as int <= pow10(fcount as nat) - 1,
            facc as int == digits_val(sv.subrange(pos + 1, pos + 1 + fcount)),
            pow10(0) == 1 && pow10(1) == 10 && pow10(2) == 100 && pow10(3) == 1000 && pow10(4)
                == 10000,
        decreases n - fpos,
    {
        let fc = s.get_char(fpos);
        let fcv = fc as u32;
        if fcv < 48 || fcv > 57 {
            proof {
                assert(frac_part(u)[fpos - pos - 1] == sv[fpos as int]);
                assert(!is_digit(frac_part(u)[fpos - pos - 1]));
            }
            return 0;
        }
        if fcount < FRAC_DIGITS {
            let d = (fcv - 48) as i64;
            proof {
                assert(is_digit(sv[fpos as int]));
                lemma_digits_val_push(sv.subrange(pos + 1, pos + 1 + fcount), fc);
                assert(sv.subrange(pos + 1, pos + 2 + fcount).drop_last() =~= sv.subrange(
                    pos + 1,
                    pos + 1 + fcount,
                ));
            }
            facc = facc * 10 + d;
            fcount = fcount + 1;
        }
        fpos = fpos + 1;
    }
    proof {
        assert(all_digits(int_part(u))) by {
            assert forall|t: int| 0 <= t < int_part(u).len() implies is_digit(
                #[trigger] int_part(u)[t],
            ) by {
                assert(int_part(u)[t] == sv[start + t]);
            }
        }
        assert(all_digits(frac_part(u))) by {
            assert forall|t: int| 0 <= t < frac_part(u).len() implies is_digit(
                #[trigger] frac_part(u)[t],
            ) by {
                assert(frac_part(u)[t] == sv[pos + 1 + t]);
            }
        }
        assert(valid_body(u));
    }
    let mult: i64 = if fcount == 0 {
        10000
    } else if fcount == 1 {
        1000
    } else if fcount == 2 {
        100
    } else if fcount == 3 {
        10
    } else {
        1
    };
    let fval = facc * mult;
    proof {
        if n - pos - 1 >= 4 {
            assert(fcount == 4);
            assert(frac_part(u).take(FRAC_DIGITS as int) =~= sv.subrange(pos + 1, pos + 5));
            assert(fval as int == frac_scaled(frac_part(u)));
        } else {
            assert(fcount as int == n - pos - 1);
            assert(sv.subrange(pos + 1, pos + 1 + fcount) =~= frac_part(u));
            assert(fval as int == frac_scaled(frac_part(u)));
        }
        assert(0 <= fval <= 9999);
        assert(body_scaled(u) == acc * 10000 + fval);
        vstd::arithmetic::div_mod::lemma_fundamental_div_mod(i64::MAX - fval, 10000);
    }
    if acc > (i64::MAX - fval) / 10000 {
        return 0;
    }
    let total = acc * 10000 + fval;
    if neg {
        -total
    } else {
        total
    }
}

} // verus!
