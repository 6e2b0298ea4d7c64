//! The fixed-point amount codec.
//!
//! A monetary quantity travels as text like `"1.5"` and is held as an
//! integer scaled by 10,000, so `"1.5"` becomes `15000`. [`encode`] parses
//! the text: the part before the first `.` is the integer part (empty means
//! zero, one leading `+` is tolerated), the part after it is the fraction,
//! which may have at most four digits and is right-padded with zeros;
//! anything after a second `.` is ignored. [`decode`] renders a stored
//! amount back as `integer.fraction` with exactly four fractional digits.

use crate::error::Error;
use vstd::string::{StrSliceExecFns, StringExecFns};
use vstd::prelude::*;

verus! {

/// Decimal digits `'0'` through `'9'`.
pub open spec fn is_digit(c: char) -> bool {
    48 <= c as int <= 57
}

/// The digit character for a value in `0..=9`.
pub open spec fn digit_char(d: int) -> char {
    (((d + 48) as u32) as char)
}

pub open spec fn all_digits(s: Seq<char>) -> bool {
    forall|i: int| 0 <= i < s.len() ==> is_digit(#[trigger] s[i])
}

/// The number a string of decimal digits denotes.
pub open spec fn digits_val(s: Seq<char>) -> int
    decreases s.len(),
{
    if s.len() == 0 {
        0
    } else {
        digits_val(s.drop_last()) * 10 + (s.last() as int - 48)
    }
}

pub open spec fn pow10(n: nat) -> int
    decreases n,
{
    if n == 0 {
        1
    } else {
        10 * pow10((n - 1) as nat)
    }
}

/// The canonical decimal numeral for a non-negative number: no leading
/// zeros, a single `'0'` for zero.
pub open spec fn dec_digits(n: nat) -> Seq<char>
    decreases n,
{
    if n < 10 {
        seq![digit_char(n as int)]
    } else {
        dec_digits(n / 10) + seq![digit_char((n % 10) as int)]
    }
}

/// A run of `'0'` characters.
pub open spec fn zeros(n: int) -> Seq<char> {
    Seq::new(if n >= 0 {
        n as nat
    } else {
        0
    }, |i: int| '0')
}

proof fn lemma_digits_val_nonneg(s: Seq<char>)
    requires
        all_digits(s),
    ensures
        0 <= digits_val(s),
    decreases s.len(),
{
    if s.len() > 0 {
        assert(all_digits(s.drop_last()));
        lemma_digits_val_nonneg(s.drop_last());
    }
}

proof fn lemma_digits_val_bound(s: Seq<char>)
    requires
        all_digits(s),
    ensures
        0 <= digits_val(s) < pow10(s.len()),
    decreases s.len(),
{
    if s.len() > 0 {
        assert(all_digits(s.drop_last()));
        lemma_digits_val_bound(s.drop_last());
    }
}

/// A digit string denotes at least as much as any of its prefixes.
pub(crate) proof fn lemma_digits_val_prefix(s: Seq<char>, i: int)
    requires
        all_digits(s),
        0 <= i <= s.len(),
    ensures
        digits_val(s.take(i)) <= digits_val(s),
    decreases s.len() - i,
{
    if i < s.len() {
        lemma_digits_val_prefix(s, i + 1);
        let t = s.take(i + 1);
        assert(t.drop_last() =~= s.take(i));
        assert(all_digits(t)) by {
            assert(forall|j: int| 0 <= j < t.len() ==> t[j] == s[j]);
        }
        lemma_digits_val_nonneg(s.take(i));
        assert(digits_val(t) == digits_val(s.take(i)) * 10 + (t.last() as int - 48));
    } else {
        assert(s.take(i) =~= s);
    }
}

/// The index of the first `'.'`, or the length when there is none.
pub open spec fn first_dot(s: Seq<char>) -> int
    decreases s.len(),
{
    if s.len() == 0 {
        0
    } else if s[0] == '.' {
        0
    } else {
        1 + first_dot(s.drop_first())
    }
}

proof fn lemma_first_dot(s: Seq<char>)
    ensures
        0 <= first_dot(s) <= s.len(),
        first_dot(s) < s.len() ==> s[first_dot(s)] == '.',
        forall|i: int| 0 <= i < first_dot(s) ==> s[i] != '.',
    decreases s.len(),
{
    if s.len() > 0 && s[0] != '.' {
        lemma_first_dot(s.drop_first());
        assert forall|i: int| 0 <= i < first_dot(s) implies s[i] != '.' by {
            if i > 0 {
                assert(s.drop_first()[i - 1] == s[i]);
            }
        }
    }
}

/// The integer part: everything before the first `'.'`.
pub open spec fn units_of(s: Seq<char>) -> Seq<char> {
    s.take(first_dot(s))
}

/// The fractional part: between the first `'.'` and the next one (or the
/// end); a single `'0'` when the string has no `'.'` at all.
pub open spec fn frac_of(s: Seq<char>) -> Seq<char> {
    if first_dot(s) == s.len() {
        seq!['0']
    } else {
        let rest = s.skip(first_dot(s) + 1);
        rest.take(first_dot(rest))
    }
}

/// The integer part with one leading `'+'` dropped, as the textual integer
/// parser tolerates.
pub open spec fn sign_skipped(u: Seq<char>) -> Seq<char> {
    if u.len() > 0 && u[0] == '+' {
        u.drop_first()
    } else {
        u
    }
}

/// What [`encode`] returns: the fixed-point value of the text, or
/// `InvalidAmount` when the fraction has more than four digits, a part is
/// not made of digits, or the scaled value does not fit in 64 bits.
pub open spec fn spec_encode(s: Seq<char>) -> Result<u64, Error> {
    let u = sign_skipped(units_of(s));
    let f = frac_of(s);
    if f.len() > 4 {
        Err(Error::InvalidAmount)
    } else if !all_digits(u) || !all_digits(f) {
        Err(Error::InvalidAmount)
    } else {
        let v = digits_val(u) * 10000 + digits_val(f) * pow10((4 - f.len()) as nat);
        if v <= u64::MAX {
            Ok(v as u64)
        } else {
            Err(Error::InvalidAmount)
        }
    }
}

proof fn lemma_pow10_pos(n: nat)
    ensures
        pow10(n) >= 1,
    decreases n,
{
    if n > 0 {
        lemma_pow10_pos((n - 1) as nat);
    }
}

/// Parse a textual amount into its scaled fixed-point value; exactly
/// [`spec_encode`] of the string.
pub fn encode(s: &str) -> (r: Result<u64, Error>)
    ensures
        r == spec_encode(s@),
{
    let ghost sq = s@;
    let n = s.unicode_len();
    // locate the first dot
    let mut d: usize = 0;
    while d < n && s.get_char(d) != '.'
        invariant
            0 <= d <= n,
            n == sq.len(),
            s@ == sq,
            forall|k: int| 0 <= k < d ==> sq[k] != '.',
        decreases n - d,
    {
        d = d + 1;
    }
    proof {
        lemma_first_dot(sq);
        assert(first_dot(sq) == d);
        assert(units_of(sq) =~= sq.subrange(0, d as int));
    }
    let ghost u = sign_skipped(units_of(sq));
    let ghost f = frac_of(sq);
    let ustart: usize = if d > 0 && s.get_char(0) == '+' {
        1
    } else {
        0
    };
    proof {
        assert(u =~= sq.subrange(ustart as int, d as int));
    }
    // the integer part's value
    let mut units_val: u64 = 0;
    let mut i: usize = ustart;
    while i < d
        invariant
            ustart <= i <= d <= n,
            n == sq.len(),
            s@ == sq,
            u == sign_skipped(units_of(sq)),
            u =~= sq.subrange(ustart as int, d as int),
            f == frac_of(sq),
            all_digits(sq.subrange(ustart as int, i as int)),
            units_val == digits_val(sq.subrange(ustart as int, i as int)),
        decreases d - i,
    {
        let c = s.get_char(i);
        let cv = c as u32;
        if cv < 48 || cv > 57 {
            proof {
                assert(u[i - ustart] == sq[i as int]);
                assert(!is_digit(u[i - ustart]));
                assert(!all_digits(u));
            }
            return Err(Error::InvalidAmount);
        }
        let dv = (cv - 48) as u64;
        proof {
            let pre = sq.subrange(ustart as int, i as int);
            let post = sq.subrange(ustart as int, i as int + 1);
            assert(post.drop_last() =~= pre);
            assert(post.last() == sq[i as int]);
            assert(digits_val(post) == digits_val(pre) * 10 + (sq[i as int] as int - 48));
        }
        let stepped = match units_val.checked_mul(10) {
            Some(x) => x.checked_add(dv),
            None => None,
        };
        match stepped {
            Some(y) => {
                units_val = y;
            },
            None => {
                // the integer part alone exceeds `u64::MAX`, so whatever
                // follows, the scaled value cannot fit
                proof {
                    let k = i - ustart + 1;
                    let post = sq.subrange(ustart as int, i as int + 1);
                    assert(u.take(k) =~= post);
                    assert(digits_val(post) > u64::MAX);
                    lemma_overflow_means_invalid(sq, k);
                }
                return Err(Error::InvalidAmount);
            },
        }
        i = i + 1;
    }
    proof {
        assert(sq.subrange(ustart as int, d as int) =~= u);
        assert(all_digits(u) && units_val == digits_val(u));
    }
    // the fractional part's value and digit count
    let mut frac_val: u64 = 0;
    let mut frac_len: usize = 1;
    if d < n {
        let mut e: usize = d + 1;
        while e < n && s.get_char(e) != '.'
            invariant
                d + 1 <= e <= n,
                d < n,
                n == sq.len(),
                s@ == sq,
                forall|k: int| d + 1 <= k < e ==> sq[k] != '.',
                first_dot(sq) == d,
            decreases n - e,
        {
            e = e + 1;
        }
        proof {
            let rest = sq.skip(d as int + 1);
            lemma_first_dot(rest);
            assert(rest.len() == n - d - 1);
            assert(forall|k: int| 0 <= k < rest.len() ==> rest[k] == sq[d + 1 + k]);
            let fr = first_dot(rest);
            assert(forall|k: int| 0 <= k < e - d - 1 ==> rest[k] != '.');
            if fr < e - d - 1 {
                assert(rest[fr] == '.');
                assert(false);
            }
            if fr > e - d - 1 {
                assert(e < n);
                assert(rest[e - d - 1] == sq[e as int]);
                assert(rest[e - d - 1] != '.');
                assert(false);
            }
            assert(first_dot(rest) == e - d - 1);
            assert(f =~= sq.subrange(d as int + 1, e as int));
        }
        frac_len = e - d - 1;
        if frac_len > 4 {
            return Err(Error::InvalidAmount);
        }
        let mut j: usize = d + 1;
        while j < e
            invariant
                d + 1 <= j <= e <= n,
                e - d - 1 <= 4,
                n == sq.len(),
                s@ == sq,
                f == frac_of(sq),
                f =~= sq.subrange(d as int + 1, e as int),
                all_digits(sq.subrange(d as int + 1, j as int)),
                frac_val == digits_val(sq.subrange(d as int + 1, j as int)),
                frac_val < pow10((j - d - 1) as nat),
            decreases e - j,
        {
            let c = s.get_char(j);
            let cv = c as u32;
            if cv < 48 || cv > 57 {
                proof {
                    assert(f[j - d - 1] == sq[j as int]);
                    assert(!all_digits(f));
                }
                return Err(Error::InvalidAmount);
            }
            let dv = (cv - 48) as u64;
            proof {
                reveal_with_fuel(pow10, 6);
                assert(frac_val <= 999);
                let pre = sq.subrange(d as int + 1, j as int);
                let post = sq.subrange(d as int + 1, j as int + 1);
                assert(post.drop_last() =~= pre);
                assert(post.last() == sq[j as int]);
                assert(all_digits(post));
                lemma_digits_val_bound(post);
            }
            frac_val = frac_val * 10 + dv;
            j = j + 1;
        }
        proof {
            assert(sq.subrange(d as int + 1, e as int) =~= f);
        }
    } else {
        proof {
            assert(f == seq!['0']);
            assert(f.len() == 1);
            assert(f[0] == '0');
            assert(f.last() == '0');
            assert(f.drop_last() =~= Seq::<char>::empty());
            assert(digits_val(f.drop_last()) == 0);
            assert(digits_val(f) == digits_val(f.drop_last()) * 10 + (f.last() as int - 48));
            assert(digits_val(f) == 0);
            assert(all_digits(f)) by {
                assert(forall|k: int| 0 <= k < f.len() ==> f[k] == '0');
            }
        }
    }
    proof {
        assert(all_digits(f) && frac_val == digits_val(f) && frac_len == f.len());
        lemma_digits_val_bound(f);
        reveal_with_fuel(pow10, 6);
    }
    // scale the fraction to four digits
    let scaled: u64 = if frac_len == 0 {
        0
    } else if frac_len == 1 {
        frac_val * 1000
    } else if frac_len == 2 {
        frac_val * 100
    } else if frac_len == 3 {
        frac_val * 10
    } else {
        frac_val
    };
    proof {
        reveal_with_fuel(pow10, 6);
        if frac_len == 0 {
            assert(pow10((4 - f.len()) as nat) == 10000);
            assert(digits_val(f) == 0);
        } else if frac_len == 1 {
            assert(pow10((4 - f.len()) as nat) == 1000);
            assert(digits_val(f) <= 9);
        } else if frac_len == 2 {
            assert(pow10((4 - f.len()) as nat) == 100);
            assert(digits_val(f) <= 99);
        } else if frac_len == 3 {
            assert(pow10((4 - f.len()) as nat) == 10);
            assert(digits_val(f) <= 999);
        } else {
            assert(pow10((4 - f.len()) as nat) == 1);
            assert(digits_val(f) <= 9999);
        }
        assert(scaled == digits_val(f) * pow10((4 - f.len()) as nat) && scaled < 10000);
    }
    match units_val.checked_mul(10000) {
        Some(base) => match base.checked_add(scaled) {
            Some(v) => Ok(v),
            None => {
                proof {
                    lemma_digits_val_nonneg(u);
                }
                Err(Error::InvalidAmount)
            },
        },
        None => {
            proof {
                lemma_digits_val_nonneg(u);
                lemma_digits_val_nonneg(f);
                lemma_pow10_pos((4 - f.len()) as nat);
                assert(digits_val(f) * pow10((4 - f.len()) as nat) >= 0) by (nonlinear_arith)
                    requires
                        digits_val(f) >= 0,
                        pow10((4 - f.len()) as nat) >= 1,
                ;
            }
            Err(Error::InvalidAmount)
        },
    }
}

/// The rendering of a non-negative fixed-point value: the canonical
/// decimal numeral of the integer part, a dot, and the remainder
/// left-padded with zeros to exactly four digits.
pub open spec fn spec_render_unsigned(v: nat) -> Seq<char> {
    let whole = dec_digits(v / 10000);
    let frac = dec_digits(v % 10000);
    whole + seq!['.'] + zeros(4 - frac.len()) + frac
}

/// The rendering of a signed value: the magnitude as above, with a minus
/// sign exactly when the truncated integer part is itself negative.
pub open spec fn spec_render_signed(v: int) -> Seq<char> {
    let m = if v >= 0 {
        v
    } else {
        -v
    };
    let sign: Seq<char> = if v <= -10000 {
        seq!['-']
    } else {
        Seq::empty()
    };
    sign + spec_render_unsigned(m as nat)
}

proof fn lemma_digit_char_code(c: char, d: int)
    requires
        0 <= d <= 9,
        c as int == d + 48,
    ensures
        digit_char(d) == c,
{
    vstd::utf8::char_u32_cast(c, c as u32);
}

/// The one-character string for a digit value.
fn digit_str(d: u64) -> (r: &'static str)
    requires
        d < 10,
    ensures
        r@ == seq![digit_char(d as int)],
{
    proof {
        reveal_strlit("0");
        reveal_strlit("1");
        reveal_strlit("2");
        reveal_strlit("3");
        reveal_strlit("4");
        reveal_strlit("5");
        reveal_strlit("6");
        reveal_strlit("7");
        reveal_strlit("8");
        reveal_strlit("9");
        lemma_digit_char_code('0', 0);
        lemma_digit_char_code('1', 1);
        lemma_digit_char_code('2', 2);
        lemma_digit_char_code('3', 3);
        lemma_digit_char_code('4', 4);
        lemma_digit_char_code('5', 5);
        lemma_digit_char_code('6', 6);
        lemma_digit_char_code('7', 7);
        lemma_digit_char_code('8', 8);
        lemma_digit_char_code('9', 9);
    }
    let r = if d == 0 {
        "0"
    } else if d == 1 {
        "1"
    } else if d == 2 {
        "2"
    } else if d == 3 {
        "3"
    } else if d == 4 {
        "4"
    } else if d == 5 {
        "5"
    } else if d == 6 {
        "6"
    } else if d == 7 {
        "7"
    } else if d == 8 {
        "8"
    } else {
        "9"
    };
    proof {
        assert(r@ =~= seq![digit_char(d as int)]);
    }
    r
}

/// The canonical decimal numeral of a value, built most significant digit
/// first.
fn render_digits(v: u64) -> (r: String)
    ensures
        r@ == dec_digits(v as nat),
    decreases v,
{
    if v < 10 {
        String::from_str(digit_str(v))
    } else {
        let mut r = render_digits(v / 10);
        r.append(digit_str(v % 10));
        proof {
            assert(r@ =~= dec_digits(v as nat));
        }
        r
    }
}

proof fn lemma_dec_digits_len(v: nat)
    ensures
        v < 10 ==> dec_digits(v).len() == 1,
        10 <= v < 100 ==> dec_digits(v).len() == 2,
        100 <= v < 1000 ==> dec_digits(v).len() == 3,
        1000 <= v < 10000 ==> dec_digits(v).len() == 4,
    decreases v,
{
    if v >= 10 {
        lemma_dec_digits_len(v / 10);
    }
}

/// The fractional remainder, left-padded with zeros to four digits.
fn render_frac4(v: u64) -> (r: String)
    requires
        v < 10000,
    ensures
        r@ == zeros(4 - dec_digits(v as nat).len()) + dec_digits(v as nat),
{
    proof {
        lemma_dec_digits_len(v as nat);
        reveal_strlit("");
        reveal_strlit("0");
        reveal_strlit("00");
        reveal_strlit("000");
    }
    let mut r = String::from_str(
        if v < 10 {
            "000"
        } else if v < 100 {
            "00"
        } else if v < 1000 {
            "0"
        } else {
            ""
        },
    );
    let digits = render_digits(v);
    r.append(digits.as_str());
    proof {
        assert(r@ =~= zeros(4 - dec_digits(v as nat).len()) + dec_digits(v as nat));
    }
    r
}

/// Render a non-negative stored amount as `integer.fraction` with exactly
/// four fractional digits.
pub fn decode_unsigned(v: u64) -> (r: String)
    ensures
        r@ == spec_render_unsigned(v as nat),
{
    let mut r = render_digits(v / 10000);
    proof {
        reveal_strlit(".");
    }
    r.append(".");
    let frac = render_frac4(v % 10000);
    r.append(frac.as_str());
    proof {
        assert(r@ =~= spec_render_unsigned(v as nat));
    }
    r
}

/// Render a signed total the same way, signed exactly when the truncated
/// integer part is negative.
pub fn decode_signed(v: i64) -> (r: String)
    ensures
        r@ == spec_render_signed(v as int),
{
    let m: u64 = if v >= 0 {
        v as u64
    } else {
        (-(v as i128)) as u64
    };
    let mut r = String::new();
    if v <= -10000 {
        proof {
            reveal_strlit("-");
        }
        r.append("-");
    }
    let rest = decode_unsigned(m);
    r.append(rest.as_str());
    proof {
        assert(r@ =~= spec_render_signed(v as int));
    }
    r
}

/// When a prefix of the integer digits already exceeds `u64::MAX`, the
/// string cannot encode: either a later character is not a digit, or the
/// value is too large either way.
proof fn lemma_overflow_means_invalid(sq: Seq<char>, k: int)
    requires
        ({
            let u = sign_skipped(units_of(sq));
            0 <= k <= u.len() && digits_val(u.take(k)) > u64::MAX
        }),
    ensures
        spec_encode(sq) == Err::<u64, Error>(Error::InvalidAmount),
{
    let u = sign_skipped(units_of(sq));
    let f = frac_of(sq);
    if f.len() <= 4 && all_digits(u) && all_digits(f) {
        lemma_digits_val_prefix(u, k);
        lemma_digits_val_nonneg(f);
        lemma_pow10_pos((4 - f.len()) as nat);
        assert(digits_val(f) * pow10((4 - f.len()) as nat) >= 0) by (nonlinear_arith)
            requires
                digits_val(f) >= 0,
                pow10((4 - f.len()) as nat) >= 1,
        ;
        assert(digits_val(u) * 10000 > u64::MAX);
    }
}

/// A digit string with its leading zeros removed; `"0"` when nothing (or
/// only zeros) remains.
pub open spec fn strip_zeros(u: Seq<char>) -> Seq<char>
    decreases u.len(),
{
    if u.len() == 0 {
        seq!['0']
    } else if u.len() == 1 {
        u
    } else if u[0] == '0' {
        strip_zeros(u.drop_first())
    } else {
        u
    }
}

/// The canonical spelling of a well-formed amount string: integer part
/// stripped of leading zeros, fraction right-padded with zeros to exactly
/// four digits.
pub open spec fn canonical_form(s: Seq<char>) -> Seq<char> {
    strip_zeros(units_of(s)) + seq!['.'] + frac_of(s) + zeros(4 - frac_of(s).len())
}

/// A well-formed amount string: digits, at most one `'.'`, at most four
/// fractional digits, and a scaled value that fits in 64 bits.
pub open spec fn valid_amount_str(s: Seq<char>) -> bool {
    let u = units_of(s);
    let f = frac_of(s);
    &&& all_digits(u)
    &&& all_digits(f)
    &&& f.len() <= 4
    &&& (first_dot(s) == s.len() || s.len() == first_dot(s) + 1 + f.len())
    &&& encoded_value(s) <= u64::MAX
}

/// The scaled value of a well-formed amount string.
pub open spec fn encoded_value(s: Seq<char>) -> int {
    digits_val(units_of(s)) * 10000 + digits_val(frac_of(s)) * pow10(
        (4 - frac_of(s).len()) as nat,
    )
}

proof fn lemma_digits_val_drop_leading_zero(u: Seq<char>)
    requires
        u.len() >= 1,
        u[0] == '0',
    ensures
        digits_val(u) == digits_val(u.drop_first()),
    decreases u.len(),
{
    if u.len() == 1 {
        assert(u.drop_first() =~= Seq::<char>::empty());
        assert(u.drop_last() =~= Seq::<char>::empty());
        assert(u.last() == '0');
    } else {
        lemma_digits_val_drop_leading_zero(u.drop_last());
        assert(u.drop_last().drop_first() =~= u.drop_first().drop_last());
        assert(u.drop_first().last() == u.last());
    }
}

proof fn lemma_strip_zeros_props(u: Seq<char>)
    requires
        all_digits(u),
    ensures
        ({
            let t = strip_zeros(u);
            &&& all_digits(t)
            &&& 1 <= t.len()
            &&& t.len() == 1 || t[0] != '0'
            &&& digits_val(t) == digits_val(u)
        }),
    decreases u.len(),
{
    if u.len() == 0 {
        let t = strip_zeros(u);
        assert(t == seq!['0']);
        assert(t.drop_last() =~= Seq::<char>::empty());
        assert(t.last() == '0');
        assert(digits_val(t) == digits_val(t.drop_last()) * 10 + (t.last() as int - 48));
        assert(digits_val(t) == 0);
        assert(all_digits(t)) by {
            assert(forall|k: int| 0 <= k < t.len() ==> t[k] == '0');
        }
    } else if u.len() > 1 && u[0] == '0' {
        assert(all_digits(u.drop_first())) by {
            assert(forall|k: int| 0 <= k < u.len() - 1 ==> u.drop_first()[k] == u[k + 1]);
        }
        lemma_strip_zeros_props(u.drop_first());
        lemma_digits_val_drop_leading_zero(u);
        assert(strip_zeros(u) == strip_zeros(u.drop_first()));
    } else {
        assert(strip_zeros(u) == u);
        assert(u.len() == 1 || u[0] != '0');
    }
}

/// Restoring the stripped zeros in front rebuilds the string they came from.
proof fn lemma_strip_zeros_rebuild(u: Seq<char>)
    requires
        u.len() >= 1,
    ensures
        ({
            let t = strip_zeros(u);
            t.len() <= u.len() && zeros(u.len() - t.len()) + t == u
        }),
    decreases u.len(),
{
    let t = strip_zeros(u);
    if u.len() == 1 || u[0] != '0' {
        assert(t == u);
        assert(zeros(u.len() - t.len()) + t =~= u);
    } else {
        lemma_strip_zeros_rebuild(u.drop_first());
        assert(t == strip_zeros(u.drop_first()));
        let rest = u.drop_first();
        let k = rest.len() - t.len();
        assert(zeros(k) + t == rest);
        assert forall|i: int| 0 <= i < u.len() implies (zeros(k + 1) + t)[i] == u[i] by {
            if i == 0 {
                assert(u[0] == '0');
            } else {
                assert((zeros(k + 1) + t)[i] == (zeros(k) + t)[i - 1]);
                assert(rest[i - 1] == u[i]);
            }
        }
        assert(zeros(u.len() - t.len()) + t =~= u);
    }
}

proof fn lemma_first_digit_nonzero_ge(t: Seq<char>)
    requires
        all_digits(t),
        t.len() >= 1,
        t[0] != '0',
    ensures
        digits_val(t) >= pow10((t.len() - 1) as nat),
    decreases t.len(),
{
    if t.len() == 1 {
        assert(t.drop_last() =~= Seq::<char>::empty());
        assert(t.last() == t[0]);
        vstd::utf8::char_u32_cast(t[0], t[0] as u32);
        vstd::utf8::char_u32_cast('0', '0' as u32);
        assert(t[0] as int != 48);
        assert(is_digit(t[0]));
        assert(digits_val(t) == digits_val(t.drop_last()) * 10 + (t.last() as int - 48));
        assert(digits_val(t) >= 1);
    } else {
        let head = t.drop_last();
        assert(all_digits(head));
        assert(head[0] == t[0]);
        lemma_first_digit_nonzero_ge(head);
        assert(is_digit(t[t.len() - 1]));
        assert(t.last() == t[t.len() - 1]);
        assert(digits_val(t) == digits_val(head) * 10 + (t.last() as int - 48));
        assert(digits_val(head) * 10 >= pow10((head.len() - 1) as nat) * 10);
        assert(pow10((t.len() - 1) as nat) == 10 * pow10((t.len() - 2) as nat));
    }
}

/// The canonical numeral of a digit string's value is the string with its
/// leading zeros stripped.
proof fn lemma_dec_digits_of_val(t: Seq<char>)
    requires
        all_digits(t),
        t.len() >= 1,
        t.len() == 1 || t[0] != '0',
    ensures
        dec_digits(digits_val(t) as nat) == t,
    decreases t.len(),
{
    lemma_digits_val_nonneg(t);
    if t.len() == 1 {
        assert(t.drop_last() =~= Seq::<char>::empty());
        assert(t.last() == t[0]);
        let d = t[0] as int - 48;
        assert(is_digit(t[0]));
        assert(digits_val(t) == digits_val(t.drop_last()) * 10 + (t.last() as int - 48));
        assert(digits_val(t) == d);
        lemma_digit_char_code(t[0], d);
        assert(dec_digits(digits_val(t) as nat) =~= t);
    } else {
        let v = digits_val(t);
        let head = t.drop_last();
        let dl = t.last() as int - 48;
        assert(all_digits(head));
        assert(head[0] == t[0]);
        lemma_first_digit_nonzero_ge(head);
        lemma_pow10_pos((head.len() - 1) as nat);
        assert(v == digits_val(head) * 10 + dl);
        assert(v >= 10);
        vstd::arithmetic::div_mod::lemma_fundamental_div_mod_converse(
            v,
            10,
            digits_val(head),
            dl,
        );
        lemma_dec_digits_of_val(head);
        lemma_digit_char_code(t.last(), dl);
        assert(dec_digits(v as nat) =~= t);
    }
}

/// Appending `k` zeros multiplies a digit string's value by `10^k`.
proof fn lemma_digits_val_append_zeros(f: Seq<char>, k: nat)
    ensures
        digits_val(f + zeros(k as int)) == digits_val(f) * pow10(k),
    decreases k,
{
    if k == 0 {
        assert(f + zeros(0) =~= f);
        assert(digits_val(f) * 1 == digits_val(f)) by (nonlinear_arith);
    } else {
        let g = f + zeros(k as int);
        assert(g.drop_last() =~= f + zeros(k as int - 1));
        assert(g.last() == '0');
        lemma_digits_val_append_zeros(f, (k - 1) as nat);
        assert(digits_val(f) * pow10((k - 1) as nat) * 10 == digits_val(f) * pow10(k))
            by (nonlinear_arith)
            requires
                pow10(k) == 10 * pow10((k - 1) as nat),
        ;
    }
}

/// Law: encoding any well-formed decimal amount string succeeds, and
/// rendering the encoded value back gives the string's canonical form —
/// leading zeros stripped from the integer part, the fraction padded with
/// zeros to exactly four digits.
pub proof fn lemma_encode_decode_round_trip(s: Seq<char>)
    requires
        valid_amount_str(s),
    ensures
        spec_encode(s) == Ok::<u64, Error>((encoded_value(s) as u64)),
        spec_render_unsigned(encoded_value(s) as nat) == canonical_form(s),
{
    let u = units_of(s);
    let f = frac_of(s);
    let uv = digits_val(u);
    let fl = f.len() as int;
    let fscaled = digits_val(f) * pow10((4 - f.len()) as nat);
    let v = encoded_value(s);
    // the integer part starts with a digit (or is empty), never a '+'
    assert(sign_skipped(u) == u) by {
        if u.len() > 0 && u[0] == '+' {
            vstd::utf8::char_u32_cast(u[0], u[0] as u32);
            vstd::utf8::char_u32_cast('+', '+' as u32);
            assert(is_digit(u[0]));
            assert(false);
        }
    }
    // the fraction scaled into the last four digits is the value of the
    // right-padded fraction, which stays below 10,000
    lemma_digits_val_nonneg(u);
    reveal_with_fuel(pow10, 6);
    let padded = f + zeros(4 - fl);
    assert(all_digits(padded)) by {
        assert(forall|k: int| fl <= k < 4 ==> padded[k] == '0');
    }
    assert(padded.len() == 4);
    lemma_digits_val_append_zeros(f, (4 - fl) as nat);
    assert(digits_val(padded) == fscaled);
    lemma_digits_val_bound(padded);
    assert(0 <= fscaled < 10000);
    assert(uv * 10000 >= 0) by (nonlinear_arith)
        requires
            uv >= 0,
    ;
    assert(spec_encode(s) == Ok::<u64, Error>((v as u64)));
    // split the value back into its integer part and fraction remainder
    vstd::arithmetic::div_mod::lemma_fundamental_div_mod_converse(v, 10000, uv, fscaled);
    assert(v as nat / 10000 == uv);
    assert(v as nat % 10000 == fscaled);
    // the integer digits render as the stripped integer part
    lemma_strip_zeros_props(u);
    lemma_dec_digits_of_val(strip_zeros(u));
    assert(dec_digits((v as nat) / 10000) == strip_zeros(u));
    // the remainder renders as the fraction padded to four digits
    lemma_strip_zeros_props(padded);
    lemma_dec_digits_of_val(strip_zeros(padded));
    assert(dec_digits((v as nat) % 10000) == strip_zeros(padded));
    lemma_strip_zeros_rebuild(padded);
    assert(zeros(4 - strip_zeros(padded).len()) + strip_zeros(padded) == padded);
    assert(v >= 0);
    let whole = dec_digits((v as nat) / 10000);
    let tail = zeros(4 - dec_digits((v as nat) % 10000).len()) + dec_digits((v as nat) % 10000);
    assert(tail == padded);
    assert(spec_render_unsigned(v as nat) == whole + seq!['.'] + zeros(
        4 - dec_digits((v as nat) % 10000).len(),
    ) + dec_digits((v as nat) % 10000));
    assert(spec_render_unsigned(v as nat) =~= whole + seq!['.'] + tail);
    assert(canonical_form(s) =~= whole + seq!['.'] + tail);
    assert(spec_render_unsigned(v as nat) =~= canonical_form(s));
}

} // verus!
