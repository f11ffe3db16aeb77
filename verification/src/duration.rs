//! A non-negative time value with millisecond resolution, parsed
//! from decimal text and rendered back to it.
//!
//! The parser accepts an optional sign, digits, and at most one
//! decimal point, with at least one digit overall. The value is
//! rounded to the nearest millisecond, halves away from zero: the
//! whole-second part is kept as is, and the fraction is read to
//! three places, rounded up when the fourth place is five or more.

use vstd::prelude::*;
use vstd::string::StrSliceExecFns;
use vstd::string::StringExecFns;
use crate::error::LucidError;

verus! {

/// A duration, stored as a whole number of milliseconds.
///
/// The value is always non-negative by construction; negative input
/// is rejected when parsing, never carried as a runtime value.
#[derive(Clone, Copy, Debug, PartialEq, Eq, Structural)]
pub struct Dur {
    pub millis: u64,
}

impl Dur {
    /// Builds a duration from a whole number of milliseconds.
    pub fn from_millis(millis: u64) -> (r: Dur)
        ensures
            r.millis == millis,
    {
        Dur { millis }
    }

    /// Builds a duration from a whole number of seconds.
    ///
    /// Seconds beyond what fits in the millisecond counter saturate
    /// at the largest representable duration.
    pub fn from_secs(secs: u64) -> (r: Dur)
        ensures
            r.millis == clamp_millis(secs * 1000),
    {
        match secs.checked_mul(1000) {
            Some(millis) => Dur { millis },
            None => Dur { millis: u64::MAX },
        }
    }

    /// The whole-second part of the duration.
    pub fn as_secs(&self) -> (r: u64)
        ensures
            r == self.millis / 1000,
    {
        self.millis / 1000
    }

    /// The millisecond part below one second.
    pub fn subsec_millis(&self) -> (r: u64)
        ensures
            r == self.millis % 1000,
            r < 1000,
    {
        self.millis % 1000
    }
}

/// A millisecond count clipped to what the counter can hold.
pub open spec fn clamp_millis(v: int) -> int {
    if v <= u64::MAX {
        v
    } else {
        u64::MAX as int
    }
}

/// A decimal digit.
pub open spec fn is_digit(c: char) -> bool {
    '0' as u32 <= c as u32 <= '9' as u32
}

/// The numeric value of a decimal digit.
pub open spec fn digit_val(c: char) -> int {
    c as u32 - '0' as u32
}

/// Every character of `s` is a decimal digit.
pub open spec fn all_digits(s: Seq<char>) -> bool {
    forall|i: int| 0 <= i < s.len() ==> is_digit(s[i])
}

/// The number the digit string `s` writes out, most significant
/// digit first; the empty string writes zero.
pub open spec fn digits_val(s: Seq<char>) -> int
    decreases s.len(),
{
    if s.len() == 0 {
        0
    } else {
        digits_val(s.drop_last()) * 10 + digit_val(s.last())
    }
}

/// The text starts with an explicit sign.
pub open spec fn has_sign(s: Seq<char>) -> bool {
    s.len() > 0 && (s[0] == '+' || s[0] == '-')
}

/// The text is marked negative.
pub open spec fn is_negative(s: Seq<char>) -> bool {
    s.len() > 0 && s[0] == '-'
}

/// The text with any leading sign removed.
pub open spec fn number_body(s: Seq<char>) -> Seq<char> {
    if has_sign(s) {
        s.drop_first()
    } else {
        s
    }
}

/// The position of the first decimal point, or the length when
/// there is none.
pub open spec fn dot_pos(b: Seq<char>) -> int
    decreases b.len(),
{
    if b.len() == 0 {
        0
    } else if b[0] == '.' {
        0
    } else {
        1 + dot_pos(b.drop_first())
    }
}

/// The digits before the decimal point.
pub open spec fn int_part(b: Seq<char>) -> Seq<char> {
    b.take(dot_pos(b))
}

/// The digits after the decimal point, empty when there is none.
pub open spec fn frac_part(b: Seq<char>) -> Seq<char> {
    if dot_pos(b) < b.len() {
        b.skip(dot_pos(b) + 1)
    } else {
        Seq::empty()
    }
}

/// An unsigned decimal number: digits around at most one decimal
/// point, at least one digit in all.
pub open spec fn valid_body(b: Seq<char>) -> bool {
    &&& all_digits(int_part(b))
    &&& all_digits(frac_part(b))
    &&& int_part(b).len() + frac_part(b).len() >= 1
}

/// The whole milliseconds the fraction digits write out, before
/// rounding: the first three places, scaled to thousandths.
pub open spec fn frac_base(fs: Seq<char>) -> int {
    if fs.len() >= 3 {
        digits_val(fs.take(3))
    } else if fs.len() == 2 {
        digits_val(fs) * 10
    } else if fs.len() == 1 {
        digits_val(fs) * 100
    } else {
        0
    }
}

/// The remainder past the third place is half a millisecond or
/// more, so the value rounds away from zero.
pub open spec fn rounds_up(fs: Seq<char>) -> bool {
    fs.len() >= 4 && digit_val(fs[3]) >= 5
}

/// The fraction as whole milliseconds, rounded to nearest with
/// halves away from zero.
pub open spec fn frac_millis(fs: Seq<char>) -> int {
    frac_base(fs) + if rounds_up(fs) { 1int } else { 0int }
}

/// The millisecond count the whole text denotes, before clipping.
pub open spec fn millis_value(s: Seq<char>) -> int {
    digits_val(int_part(number_body(s))) * 1000 + frac_millis(frac_part(number_body(s)))
}

/// What parsing a duration returns, for every input text: text that
/// is not an unsigned decimal number behind an optional sign is a
/// parse error; a well-formed but negative number — an explicit
/// minus sign, even on zero — is rejected as negative; anything else
/// is the written value in milliseconds, clipped to the counter.
pub open spec fn parse_duration(s: Seq<char>) -> Result<Dur, LucidError> {
    if !valid_body(number_body(s)) {
        Err(LucidError::DurationParseError)
    } else if is_negative(s) {
        Err(LucidError::DurationNegative)
    } else {
        Ok(Dur { millis: clamp_millis(millis_value(s)) as u64 })
    }
}

/// `dot_pos` really is the first decimal point: nothing before it
/// is one, and it lands on one unless there is none at all.
pub proof fn lemma_dot_pos(b: Seq<char>)
    ensures
        0 <= dot_pos(b) <= b.len(),
        forall|j: int| 0 <= j < dot_pos(b) ==> b[j] != '.',
        dot_pos(b) < b.len() ==> b[dot_pos(b)] == '.',
    decreases b.len(),
{
    if b.len() > 0 && b[0] != '.' {
        lemma_dot_pos(b.drop_first());
        assert forall|j: int| 0 <= j < dot_pos(b) implies b[j] != '.' by {
            if j > 0 {
                assert(b.drop_first()[j - 1] == b[j]);
                assert(b.drop_first()[j - 1] != '.');
            }
        }
    }
}

/// A text whose first `k` characters are no decimal point, and
/// whose `k`-th is one or whose length is `k`, has its first
/// decimal point exactly at `k`.
pub proof fn lemma_dot_pos_at(b: Seq<char>, k: int)
    requires
        0 <= k <= b.len(),
        forall|j: int| 0 <= j < k ==> b[j] != '.',
        k < b.len() ==> b[k] == '.',
    ensures
        dot_pos(b) == k,
{
    lemma_dot_pos(b);
}

/// A digit string names a non-negative number.
pub proof fn lemma_digits_val_nonneg(s: Seq<char>)
    requires
        all_digits(s),
    ensures
        digits_val(s) >= 0,
    decreases s.len(),
{
    if s.len() > 0 {
        assert(all_digits(s.drop_last())) by {
            assert(forall|i: int| 0 <= i < s.len() - 1 ==> s.drop_last()[i] == s[i]);
        }
        lemma_digits_val_nonneg(s.drop_last());
    }
}

/// One step of reading a decimal number left to right, clipped to
/// the counter: once the true value has outgrown it, it stays at
/// the ceiling.
fn mul10_add_sat(acc: u64, d: u64) -> (r: u64)
    requires
        d <= 9,
    ensures
        r == clamp_millis(acc * 10 + d),
{
    match acc.checked_mul(10) {
        Some(x) => match x.checked_add(d) {
            Some(y) => y,
            None => u64::MAX,
        },
        None => u64::MAX,
    }
}

/// Parses a duration in seconds from decimal text, to the nearest
/// millisecond with halves rounded away from zero. Rejects negative
/// numbers — an explicit minus sign, even on zero or on noise too
/// small to matter — and any text that is not a plain decimal
/// number. Values beyond the counter clip to its ceiling.
pub fn duration_from_text(s: &str) -> (r: Result<Dur, LucidError>)
    ensures
        r == parse_duration(s@),
{
    let ghost sq = s@;
    let n = s.unicode_len();
    let mut pos: usize = 0;
    let mut negative = false;
    if n > 0 {
        let c0 = s.get_char(0);
        if c0 == '-' {
            negative = true;
            pos = 1;
        } else if c0 == '+' {
            pos = 1;
        }
    }
    let ghost body = number_body(sq);
    proof {
        assert(body =~= sq.skip(pos as int));
    }
    let mut i: usize = pos;
    let mut in_frac = false;
    let mut ok = true;
    let mut int_len: usize = 0;
    let mut frac_len: usize = 0;
    let mut acc: u64 = 0;
    let mut fb: u64 = 0;
    let mut rnd = false;
    while i < n
        invariant
            sq == s@,
            pos <= i <= n,
            n == sq.len(),
            pos <= 1,
            body == number_body(sq),
            body =~= sq.skip(pos as int),
            negative == is_negative(sq),
            ok && !in_frac ==> {
                &&& int_len == i - pos
                &&& frac_len == 0
                &&& fb == 0
                &&& !rnd
                &&& all_digits(body.take(int_len as int))
                &&& acc == clamp_millis(digits_val(body.take(int_len as int)))
            },
            ok && in_frac ==> {
                &&& int_len + 1 + frac_len == i - pos
                &&& int_len < body.len()
                &&& dot_pos(body) == int_len
                &&& all_digits(body.take(int_len as int))
                &&& all_digits(body.subrange(int_len + 1, i - pos))
                &&& acc == clamp_millis(digits_val(body.take(int_len as int)))
                &&& fb == frac_base(body.subrange(int_len + 1, i - pos))
                &&& fb <= 999
                &&& rnd == rounds_up(body.subrange(int_len + 1, i - pos))
            },
            !ok ==> !valid_body(body),
        decreases n - i,
    {
        let c = s.get_char(i);
        let ghost bi = i - pos;
        proof {
            assert(body[bi as int] == sq[i as int]);
        }
        if ok {
            let u = c as u32;
            if 48 <= u && u <= 57 {
                let d = (u - 48) as u64;
                assert(is_digit(c) && digit_val(c) == d);
                if !in_frac {
                    proof {
                        let pre = body.take(int_len as int);
                        let nxt = body.take(int_len + 1 as int);
                        assert(nxt =~= pre.push(c));
                        assert(nxt.drop_last() =~= pre);
                        lemma_digits_val_nonneg(pre);
                        assert(digits_val(nxt) == digits_val(pre) * 10 + d);
                        assert(all_digits(nxt));
                        if digits_val(pre) > u64::MAX {
                            assert(digits_val(pre) * 10 + d > u64::MAX) by (nonlinear_arith)
                                requires
                                    digits_val(pre) > u64::MAX,
                                    d >= 0,
                            ;
                        }
                    }
                    acc = mul10_add_sat(acc, d);
                    int_len = int_len + 1;
                } else {
                    proof {
                        let pre = body.subrange(int_len + 1, bi as int);
                        let nxt = body.subrange(int_len + 1, bi + 1 as int);
                        assert(nxt =~= pre.push(c));
                        assert(nxt.drop_last() =~= pre);
                        assert(all_digits(nxt));
                        if pre.len() < 3 {
                            lemma_digits_val_small(pre);
                            lemma_digits_val_small(nxt);
                            if pre.len() == 2 {
                                assert(nxt.take(3) =~= nxt);
                            }
                        } else {
                            assert(nxt.take(3) =~= pre.take(3));
                            if pre.len() >= 4 {
                                assert(nxt[3] == pre[3]);
                            }
                        }
                    }
                    if frac_len == 0 {
                        fb = d * 100;
                    } else if frac_len == 1 {
                        fb = fb + d * 10;
                    } else if frac_len == 2 {
                        fb = fb + d;
                    } else if frac_len == 3 {
                        rnd = d >= 5;
                    }
                    frac_len = frac_len + 1;
                }
            } else if u == 46 && !in_frac {
                proof {
                    assert(c == '.');
                    assert forall|j: int| 0 <= j < int_len implies body[j] != '.' by {
                        assert(body.take(int_len as int)[j] == body[j]);
                        assert(is_digit(body[j]));
                    }
                    lemma_dot_pos_at(body, int_len as int);
                }
                in_frac = true;
            } else {
                proof {
                    lemma_dot_pos(body);
                    if !in_frac {
                        // Before any decimal point: the offending
                        // character sits in the integer part.
                        assert forall|j: int| 0 <= j < bi implies body[j] != '.' by {
                            assert(body.take(int_len as int)[j] == body[j]);
                            assert(is_digit(body[j]));
                        }
                        assert(dot_pos(body) > bi);
                        assert(int_part(body)[bi as int] == body[bi as int]);
                        assert(!is_digit(body[bi as int]));
                    } else {
                        // Past the decimal point: it sits in the
                        // fraction, a second point included.
                        assert(frac_part(body)[bi - int_len - 1] == body[bi as int]);
                        assert(!is_digit(body[bi as int]));
                    }
                }
                ok = false;
            }
        }
        i = i + 1;
    }
    if !ok {
        return Err(LucidError::DurationParseError);
    }
    proof {
        if !in_frac {
            assert(body.take(int_len as int) =~= body);
            lemma_dot_pos_at(body, body.len() as int);
            assert(int_part(body) =~= body);
            assert(frac_part(body) =~= Seq::<char>::empty());
        } else {
            assert(int_part(body) =~= body.take(int_len as int));
            assert(frac_part(body) =~= body.subrange(int_len + 1, body.len() as int));
        }
    }
    if int_len == 0 && frac_len == 0 {
        return Err(LucidError::DurationParseError);
    }
    if negative {
        return Err(LucidError::DurationNegative);
    }
    let frac_ms: u64 = if rnd {
        fb + 1
    } else {
        fb
    };
    proof {
        let iv = digits_val(int_part(body));
        lemma_digits_val_nonneg(int_part(body));
        if iv > u64::MAX {
            assert(iv * 1000 + frac_ms > u64::MAX) by (nonlinear_arith)
                requires
                    iv > u64::MAX,
                    frac_ms >= 0,
            ;
            assert(acc == u64::MAX);
            assert(u64::MAX * 1000 > u64::MAX);
        }
    }
    let millis: u64 = match acc.checked_mul(1000) {
        Some(x) => match x.checked_add(frac_ms) {
            Some(y) => y,
            None => u64::MAX,
        },
        None => u64::MAX,
    };
    Ok(Dur { millis })
}

/// A digit string of at most `n` digits stays below ten to the
/// `n`-th; stated for the three places the fraction keeps.
pub proof fn lemma_digits_val_small(s: Seq<char>)
    requires
        all_digits(s),
        s.len() <= 3,
    ensures
        digits_val(s) <= if s.len() == 3 { 999int } else if s.len() == 2 { 99int } else if s.len() == 1 { 9int } else { 0int },
        digits_val(s) >= 0,
    decreases s.len(),
{
    lemma_digits_val_nonneg(s);
    if s.len() > 0 {
        assert(all_digits(s.drop_last())) by {
            assert(forall|i: int| 0 <= i < s.len() - 1 ==> s.drop_last()[i] == s[i]);
        }
        lemma_digits_val_small(s.drop_last());
    }
}

/// The character writing the decimal digit `d`.
pub open spec fn spec_digit_char(d: int) -> char {
    if d == 0 {
        '0'
    } else if d == 1 {
        '1'
    } else if d == 2 {
        '2'
    } else if d == 3 {
        '3'
    } else if d == 4 {
        '4'
    } else if d == 5 {
        '5'
    } else if d == 6 {
        '6'
    } else if d == 7 {
        '7'
    } else if d == 8 {
        '8'
    } else {
        '9'
    }
}

/// The shortest decimal writing of a non-negative number.
pub open spec fn dec_digits(n: int) -> Seq<char>
    decreases n,
{
    if n < 10 {
        seq![spec_digit_char(n)]
    } else {
        dec_digits(n / 10).push(spec_digit_char(n % 10))
    }
}

/// A number below a thousand written to exactly three places.
pub open spec fn pad3(r: int) -> Seq<char> {
    seq![spec_digit_char(r / 100), spec_digit_char((r / 10) % 10), spec_digit_char(r % 10)]
}

/// The seconds a millisecond count holds, as decimal text with
/// exactly three fraction places.
pub open spec fn seconds_text(millis: u64) -> Seq<char> {
    dec_digits(millis as int / 1000) + seq!['.'] + pad3(millis as int % 1000)
}

/// `seconds_text`, closed with a unit mark.
pub open spec fn duration_text(millis: u64) -> Seq<char> {
    seconds_text(millis).push('s')
}

/// The one-character text of a decimal digit.
fn digit_str(d: u64) -> (r: &'static str)
    requires
        d <= 9,
    ensures
        r@ =~= seq![spec_digit_char(d as int)],
{
    proof {
        reveal_strlit("0");
        reveal_strlit("1");
        reveal_strlit("2");
        reveal_strlit("3");
        reveal_strlit("4");
        reveal_strlit("5");
        reveal_strlit("6");
        reveal_strlit("7");
        reveal_strlit("8");
        reveal_strlit("9");
    }
    if d == 0 {
        "0"
    } else if d == 1 {
        "1"
    } else if d == 2 {
        "2"
    } else if d == 3 {
        "3"
    } else if d == 4 {
        "4"
    } else if d == 5 {
        "5"
    } else if d == 6 {
        "6"
    } else if d == 7 {
        "7"
    } else if d == 8 {
        "8"
    } else {
        "9"
    }
}

/// Writes a number in decimal, shortest form.
fn u64_to_dec(n: u64) -> (r: String)
    ensures
        r@ == dec_digits(n as int),
    decreases n,
{
    if n < 10 {
        String::from_str(digit_str(n))
    } else {
        let front = u64_to_dec(n / 10);
        let r = front.concat(digit_str(n % 10));
        proof {
            assert(r@ =~= dec_digits(n as int / 10).push(spec_digit_char(n as int % 10)));
        }
        r
    }
}

/// Writes a duration as seconds with three fraction places and a
/// unit mark, exactly the value the duration holds.
pub fn duration_as_str(duration: &Dur) -> (r: String)
    ensures
        r@ == duration_text(duration.millis),
{
    proof {
        reveal_strlit(".");
        reveal_strlit("s");
    }
    let secs: u64 = duration.as_secs();
    let ms: u64 = duration.subsec_millis();
    let out = u64_to_dec(secs);
    let out = out.concat(".");
    let out = out.concat(digit_str(ms / 100));
    let out = out.concat(digit_str((ms / 10) % 10));
    let out = out.concat(digit_str(ms % 10));
    let out = out.concat("s");
    proof {
        assert(out@ =~= duration_text(duration.millis));
    }
    out
}

/// The character of a digit is a digit character, reads back as the
/// same digit, and is no punctuation.
proof fn lemma_digit_char_val(d: int)
    requires
        0 <= d <= 9,
    ensures
        is_digit(spec_digit_char(d)),
        digit_val(spec_digit_char(d)) == d,
        spec_digit_char(d) != '.',
        spec_digit_char(d) != '+',
        spec_digit_char(d) != '-',
{
}

/// Decimal writing produces one digit character or more, nothing
/// else, and reads back as the number written.
proof fn lemma_dec_digits_read_back(n: int)
    requires
        n >= 0,
    ensures
        dec_digits(n).len() >= 1,
        all_digits(dec_digits(n)),
        digits_val(dec_digits(n)) == n,
    decreases n,
{
    if n < 10 {
        lemma_digit_char_val(n);
        assert(dec_digits(n).drop_last() =~= Seq::<char>::empty());
        assert(digits_val(Seq::<char>::empty()) == 0);
        assert(digits_val(dec_digits(n)) == digit_val(spec_digit_char(n)));
    } else {
        lemma_dec_digits_read_back(n / 10);
        lemma_digit_char_val(n % 10);
        let whole = dec_digits(n / 10).push(spec_digit_char(n % 10));
        assert(whole.drop_last() =~= dec_digits(n / 10));
        assert(all_digits(whole)) by {
            assert(forall|j: int|
                0 <= j < whole.len() - 1 ==> whole[j] == dec_digits(n / 10)[j]);
        }
        assert(digits_val(whole) == (n / 10) * 10 + n % 10);
        assert((n / 10) * 10 + n % 10 == n) by (nonlinear_arith)
            requires
                n >= 10,
        ;
    }
}

/// Round trip: parsing the text a duration renders to — its
/// seconds value, before the unit mark — yields that duration back,
/// to the millisecond.
pub proof fn lemma_parse_round_trip(millis: u64)
    ensures
        parse_duration(seconds_text(millis)) == Ok::<Dur, LucidError>(Dur { millis }),
{
    let s = seconds_text(millis);
    let secs = millis as int / 1000;
    let r = millis as int % 1000;
    let ip = dec_digits(secs);
    let fp = pad3(r);
    lemma_dec_digits_read_back(secs);
    lemma_digit_char_val(r / 100);
    lemma_digit_char_val((r / 10) % 10);
    lemma_digit_char_val(r % 10);
    assert(s.len() == ip.len() + 4);
    assert(forall|j: int| 0 <= j < ip.len() ==> s[j] == ip[j]);
    assert(s[ip.len() as int] == '.');
    assert(s[ip.len() as int + 1] == fp[0] && s[ip.len() as int + 2] == fp[1] && s[ip.len()
        as int + 3] == fp[2]);
    assert(!has_sign(s)) by {
        assert(is_digit(s[0]));
    }
    assert(number_body(s) == s);
    lemma_dot_pos_at(s, ip.len() as int);
    assert(int_part(s) =~= ip);
    assert(frac_part(s) =~= fp);
    assert(digits_val(fp) == r) by {
        let s2 = seq![spec_digit_char(r / 100), spec_digit_char((r / 10) % 10)];
        let s1 = seq![spec_digit_char(r / 100)];
        assert(fp.drop_last() =~= s2);
        assert(s2.drop_last() =~= s1);
        assert(s1.drop_last() =~= Seq::<char>::empty());
        assert(digits_val(Seq::<char>::empty()) == 0);
        assert(digits_val(s1) == r / 100);
        assert(digits_val(s2) == (r / 100) * 10 + (r / 10) % 10);
        assert(digits_val(fp) == digits_val(s2) * 10 + r % 10);
        assert((r / 100) * 100 + ((r / 10) % 10) * 10 + r % 10 == r) by (nonlinear_arith)
            requires
                0 <= r < 1000,
        ;
    }
    assert(fp.take(3) =~= fp);
    assert(frac_millis(fp) == r);
    assert(millis_value(s) == secs * 1000 + r);
    assert(secs * 1000 + r == millis);
    assert(valid_body(number_body(s)));
    assert(!is_negative(s));
}

} // verus!
