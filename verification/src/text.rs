//! Cell texts: trimming them and reading numbers out of them.
//!
//! A cell that does not hold a number is no error: the caller substitutes
//! zero, so that one malformed row never stops a batch.
//!
//! A decimal number is read as a whole count of millionths, rounded down.
//! It may be written with a point and with an exponent. What it cannot be
//! is infinite or not a number: those texts hold no number here.

use vstd::prelude::*;
use vstd::std_specs::iter::IteratorSpec;
use vstd::string::*;

verus! {

/// An ASCII decimal digit.
pub open spec fn is_digit(c: char) -> bool {
    '0' <= c <= '9'
}

/// Every character is a decimal digit.
pub open spec fn all_digits(s: Seq<char>) -> bool {
    forall|i: int| 0 <= i < s.len() ==> is_digit(#[trigger] s[i])
}

/// The number that a run of decimal digits writes.
pub open spec fn digits_value(s: Seq<char>) -> nat
    decreases s.len(),
{
    if s.len() == 0 {
        0
    } else {
        (digits_value(s.drop_last()) * 10 + (s.last() as int - '0' as int)) as nat
    }
}

/// The text starts with a minus sign.
pub open spec fn is_negative(s: Seq<char>) -> bool {
    s.len() > 0 && s[0] == '-'
}

/// The text without its leading sign, if it has one.
pub open spec fn unsigned_part(s: Seq<char>) -> Seq<char> {
    if s.len() > 0 && (s[0] == '+' || s[0] == '-') {
        s.drop_first()
    } else {
        s
    }
}

/// A magnitude with the sign that the text starts with.
pub open spec fn with_sign_of(s: Seq<char>, m: nat) -> int {
    if is_negative(s) {
        -(m as int)
    } else {
        m as int
    }
}

/// The integer that a text writes: an optional sign, then one or more
/// digits and nothing else.
pub open spec fn integer_of(s: Seq<char>) -> Option<int> {
    let d = unsigned_part(s);
    if d.len() > 0 && all_digits(d) {
        Some(with_sign_of(s, digits_value(d)))
    } else {
        None
    }
}

/// The integer that a text writes, where it fits 32 bits.
pub open spec fn i32_of(s: Seq<char>) -> Option<i32> {
    match integer_of(s) {
        Some(v) => if i32::MIN <= v <= i32::MAX {
            Some(v as i32)
        } else {
            None
        },
        None => None,
    }
}

/// Length of the run of digits that the text starts with.
pub open spec fn leading_digits(s: Seq<char>) -> nat
    decreases s.len(),
{
    if s.len() > 0 && is_digit(s[0]) {
        1 + leading_digits(s.drop_first())
    } else {
        0
    }
}

/// A power of ten.
pub open spec fn ten_to(k: nat) -> nat
    decreases k,
{
    if k == 0 {
        1
    } else {
        10 * ten_to((k - 1) as nat)
    }
}

/// The powers of ten up to a million.
pub proof fn lemma_ten_to_values()
    ensures
        ten_to(0) == 1,
        ten_to(1) == 10,
        ten_to(2) == 100,
        ten_to(3) == 1_000,
        ten_to(4) == 10_000,
        ten_to(5) == 100_000,
        ten_to(6) == 1_000_000,
{
    reveal_with_fuel(ten_to, 8);
}

/// A number moved by decimal places: multiplied by a power of ten or, for
/// a negative count of places, divided by one and rounded down.
pub open spec fn shifted(n: nat, places: int) -> nat {
    if places >= 0 {
        n * ten_to(places as nat)
    } else {
        n / ten_to((-places) as nat)
    }
}

/// The exponent that the end of a decimal text writes: zero where nothing
/// is left, else the letter `e`, in either case, and an integer.
pub open spec fn exponent_of(tail: Seq<char>) -> Option<int> {
    if tail.len() == 0 {
        Some(0)
    } else if tail[0] == 'e' || tail[0] == 'E' {
        integer_of(tail.skip(1))
    } else {
        None
    }
}

/// Where the digits after the point start: behind the point that follows
/// the leading digits, or, without a point, where those digits end.
pub open spec fn fraction_start(u: Seq<char>) -> int {
    let p = leading_digits(u) as int;
    if p < u.len() && u[p] == '.' {
        p + 1
    } else {
        p
    }
}

/// The magnitude, in millionths, that an unsigned decimal text writes.
///
/// The text is made of digits, optionally a point and more digits, with a
/// digit on at least one side of the point, and optionally an exponent.
/// With `n` the number that its digits write without the point, `k` the
/// count of digits after the point and `e` the exponent, it writes
/// `n * 10^(e - k)`; the magnitude is that number in millionths, rounded
/// down.
pub open spec fn decimal_magnitude(u: Seq<char>) -> Option<nat> {
    let p = leading_digits(u) as int;
    let f = fraction_start(u);
    let k = leading_digits(u.skip(f)) as int;
    if p + k == 0 {
        None
    } else {
        match exponent_of(u.skip(f + k)) {
            Some(e) => Some(shifted(digits_value(u.take(p) + u.subrange(f, f + k)), 6 + e - k)),
            None => None,
        }
    }
}

/// The fixed-point value, in millionths, that a decimal text writes.
pub open spec fn decimal_of(s: Seq<char>) -> Option<int> {
    match decimal_magnitude(unsigned_part(s)) {
        Some(m) => Some(with_sign_of(s, m)),
        None => None,
    }
}

/// The fixed-point value that a decimal text writes, where it fits 64 bits.
pub open spec fn millionths_of(s: Seq<char>) -> Option<i64> {
    match decimal_of(s) {
        Some(v) => if i64::MIN <= v <= i64::MAX {
            Some(v as i64)
        } else {
            None
        },
        None => None,
    }
}

/// Powers of ten multiply as their exponents add.
pub proof fn lemma_ten_to_adds(a: nat, b: nat)
    ensures
        ten_to(a + b) == ten_to(a) * ten_to(b),
    decreases b,
{
    if b == 0 {
        assert(ten_to(a) * 1 == ten_to(a));
    } else {
        lemma_ten_to_adds(a, (b - 1) as nat);
        assert(ten_to(a + b) == 10 * ten_to((a + b - 1) as nat));
        let x = ten_to(a);
        let y = ten_to((b - 1) as nat);
        assert(10 * (x * y) == x * (10 * y)) by (nonlinear_arith);
    }
}

/// A run of digits after another writes the first number shifted by the
/// length of the second, plus the second number.
pub proof fn lemma_digits_value_concat(w: Seq<char>, f: Seq<char>)
    requires
        all_digits(w),
        all_digits(f),
    ensures
        all_digits(w + f),
        digits_value(w + f) == digits_value(w) * ten_to(f.len()) + digits_value(f),
    decreases f.len(),
{
    if f.len() == 0 {
        assert(w + f =~= w);
        assert(digits_value(w) * 1 == digits_value(w));
    } else {
        let g = f.drop_last();
        assert forall|i: int| 0 <= i < g.len() implies is_digit(#[trigger] g[i]) by {
            assert(g[i] == f[i]);
        }
        lemma_digits_value_concat(w, g);
        assert((w + f).drop_last() =~= w + g);
        assert((w + f).last() == f.last());
        assert(is_digit(f[f.len() - 1]));
        let d = f.last() as int - '0' as int;
        let t = ten_to(g.len());
        assert(ten_to(f.len()) == 10 * t);
        assert((digits_value(w) * t + digits_value(g)) * 10 + d == digits_value(w) * (10 * t) + (
        digits_value(g) * 10 + d)) by (nonlinear_arith);
        assert forall|i: int| 0 <= i < (w + f).len() implies is_digit(#[trigger] (w + f)[i]) by {
            if i < w.len() {
                assert((w + f)[i] == w[i]);
            } else {
                assert((w + f)[i] == f[i - w.len()]);
            }
        }
    }
}

/// A run of `n` digits writes a number below the `n`-th power of ten.
pub proof fn lemma_digits_value_bound(s: Seq<char>)
    requires
        all_digits(s),
    ensures
        digits_value(s) < ten_to(s.len()),
    decreases s.len(),
{
    if s.len() > 0 {
        let g = s.drop_last();
        assert forall|i: int| 0 <= i < g.len() implies is_digit(#[trigger] g[i]) by {
            assert(g[i] == s[i]);
        }
        lemma_digits_value_bound(g);
        assert(is_digit(s[s.len() - 1]));
    }
}

/// A run of zeros writes zero.
pub proof fn lemma_zeros_value(s: Seq<char>)
    requires
        forall|i: int| 0 <= i < s.len() ==> s[i] == '0',
    ensures
        all_digits(s),
        digits_value(s) == 0,
    decreases s.len(),
{
    if s.len() > 0 {
        lemma_zeros_value(s.drop_last());
    }
}

/// The first `cut` digits of a run, zeros standing in where the run has
/// ended.
pub open spec fn digits_to(d: Seq<char>, cut: int) -> Seq<char> {
    Seq::new(
        if cut > 0 {
            cut as nat
        } else {
            0
        },
        |i: int|
            if i < d.len() {
                d[i]
            } else {
                '0'
            },
    )
}

/// A power of ten is positive and no greater than a higher one.
pub proof fn lemma_ten_to_grows(a: nat, b: nat)
    ensures
        0 < ten_to(a) <= ten_to(a + b),
    decreases a + b,
{
    if b > 0 {
        lemma_ten_to_grows(a, (b - 1) as nat);
    } else if a > 0 {
        lemma_ten_to_grows((a - 1) as nat, 0);
    }
}

/// The twentieth power of ten.
pub proof fn lemma_ten_to_twenty()
    ensures
        ten_to(20) == 100_000_000_000_000_000_000,
{
    lemma_ten_to_values();
    lemma_ten_to_adds(6, 6);
    lemma_ten_to_adds(12, 6);
    lemma_ten_to_adds(18, 2);
}

/// The digits of a run up to a cut write the number of the run, moved by
/// as many places as the cut lies behind its end.
pub proof fn lemma_digits_to_value(d: Seq<char>, cut: int)
    requires
        all_digits(d),
    ensures
        all_digits(digits_to(d, cut)),
        digits_value(digits_to(d, cut)) == shifted(digits_value(d), cut - d.len()),
{
    let len = d.len() as int;
    let part = digits_to(d, cut);
    let n = digits_value(d);
    assert forall|i: int| 0 <= i < part.len() implies is_digit(#[trigger] part[i]) by {
        if i < len {
            assert(part[i] == d[i]);
        }
    }
    if cut >= len {
        let zeros = Seq::new((cut - len) as nat, |i: int| '0');
        assert(part =~= d + zeros);
        lemma_zeros_value(zeros);
        lemma_digits_value_concat(d, zeros);
    } else {
        let t = ten_to((len - cut) as nat);
        lemma_ten_to_grows((len - cut) as nat, 0);
        if cut <= 0 {
            lemma_digits_value_bound(d);
            lemma_ten_to_grows(d.len(), (-cut) as nat);
            vstd::arithmetic::div_mod::lemma_basic_div(n as int, t as int);
        } else {
            let head = d.take(cut);
            let rest = d.skip(cut);
            assert(part =~= head);
            assert(d =~= head + rest);
            assert forall|i: int| 0 <= i < rest.len() implies is_digit(#[trigger] rest[i]) by {
                assert(rest[i] == d[i + cut]);
            }
            lemma_digits_value_concat(head, rest);
            lemma_digits_value_bound(rest);
            vstd::arithmetic::div_mod::lemma_fundamental_div_mod_converse(
                n as int,
                t as int,
                digits_value(head) as int,
                digits_value(rest) as int,
            );
        }
    }
}

/// Cut later, a run of digits writes no smaller number.
pub proof fn lemma_digits_to_grows(d: Seq<char>, early: int, late: int)
    requires
        all_digits(d),
        0 <= early <= late,
    ensures
        digits_value(digits_to(d, early)) <= digits_value(digits_to(d, late)),
    decreases late - early,
{
    if early < late {
        lemma_digits_to_grows(d, early, late - 1);
        let longer = digits_to(d, late);
        assert(longer.drop_last() =~= digits_to(d, late - 1));
        if late - 1 < d.len() {
            assert(is_digit(d[late - 1]));
        }
        assert(is_digit(longer.last()));
    }
}

/// The run of leading digits ends at the first character that is no digit.
pub proof fn lemma_leading_digits_end(s: Seq<char>, p: int)
    requires
        0 <= p <= s.len(),
        all_digits(s.take(p)),
        p < s.len() ==> !is_digit(s[p]),
    ensures
        leading_digits(s) == p,
    decreases p,
{
    if p == 0 {
    } else {
        assert(s.take(p)[0] == s[0]);
        let t = s.drop_first();
        assert(t.take(p - 1) =~= s.take(p).drop_first());
        assert forall|j: int| 0 <= j < p - 1 implies is_digit(#[trigger] t.take(p - 1)[j]) by {
            assert(t.take(p - 1)[j] == s.take(p)[j + 1]);
        }
        lemma_leading_digits_end(t, p - 1);
    }
}

/// A text with a character outside ASCII holds a character that is neither
/// a digit, a sign, a decimal point nor the letter of an exponent.
pub proof fn lemma_not_ascii_has_foreign_char(s: Seq<char>) -> (i: int)
    requires
        !vstd::utf8::is_ascii_chars(s),
    ensures
        0 <= i < s.len(),
        !is_digit(s[i]),
        s[i] != '+',
        s[i] != '-',
        s[i] != '.',
        s[i] != 'e',
        s[i] != 'E',
{
    let i = choose|i: int| 0 <= i < s.len() && !('\0' <= #[trigger] s[i] <= '\u{7f}');
    i
}

/// A text that holds a character that is neither a digit nor a sign writes
/// no integer.
pub proof fn lemma_foreign_char_is_no_integer(s: Seq<char>, i: int)
    requires
        0 <= i < s.len(),
        !is_digit(s[i]),
        s[i] != '+',
        s[i] != '-',
    ensures
        integer_of(s) is None,
{
    let d = unsigned_part(s);
    if d.len() == s.len() {
        assert(d[i] == s[i]);
    } else {
        assert(i > 0);
        assert(d[i - 1] == s[i]);
    }
}

/// A text that holds a character that is neither a digit, a sign, a point
/// nor the letter of an exponent writes no decimal number.
pub proof fn lemma_foreign_char_is_no_decimal(s: Seq<char>, i: int)
    requires
        0 <= i < s.len(),
        !is_digit(s[i]),
        s[i] != '+',
        s[i] != '-',
        s[i] != '.',
        s[i] != 'e',
        s[i] != 'E',
    ensures
        decimal_of(s) is None,
{
    let u = unsigned_part(s);
    let j = if u.len() == s.len() {
        i
    } else {
        i - 1
    };
    assert(0 <= j < u.len() && u[j] == s[i]);
    let p = leading_digits(u) as int;
    let f = fraction_start(u);
    let after = u.skip(f);
    let k = leading_digits(after) as int;
    lemma_leading_digits_are_digits(u);
    lemma_leading_digits_are_digits(after);
    let q = f + k;
    let tail = u.skip(q);
    if j < p {
        assert(u.take(p)[j] == u[j]);
    } else if j < f {
    } else if j < q {
        assert(after.take(k)[j - f] == u[j]);
    } else if j == q {
        assert(tail[0] == u[j]);
    } else {
        assert(tail.len() > 0);
        if tail[0] == 'e' || tail[0] == 'E' {
            assert(tail.skip(1)[j - q - 1] == u[j]);
            lemma_foreign_char_is_no_integer(tail.skip(1), j - q - 1);
        }
    }
}

/// A text with a character outside ASCII writes no integer.
pub proof fn lemma_not_ascii_is_no_integer(s: Seq<char>)
    requires
        !vstd::utf8::is_ascii_chars(s),
    ensures
        integer_of(s) is None,
{
    let i = lemma_not_ascii_has_foreign_char(s);
    lemma_foreign_char_is_no_integer(s, i);
}

/// A text with a character outside ASCII writes no decimal number.
pub proof fn lemma_not_ascii_is_no_decimal(s: Seq<char>)
    requires
        !vstd::utf8::is_ascii_chars(s),
    ensures
        decimal_of(s) is None,
{
    let i = lemma_not_ascii_has_foreign_char(s);
    lemma_foreign_char_is_no_decimal(s, i);
}

/// Reads a 32-bit integer: an optional sign and one or more digits.
/// Anything else, and a number out of range, gives `None`.
pub fn parse_i32(text: &str) -> (r: Option<i32>)
    ensures
        r == i32_of(text@),
{
    if !text.is_ascii() {
        proof {
            lemma_not_ascii_is_no_integer(text@);
        }
        return None;
    }
    let bytes = text.as_bytes();
    proof {
        vstd::utf8::is_ascii_chars_encode_utf8(text@);
    }
    let n = bytes.len();
    let ghost s = text@;
    let ghost d = unsigned_part(s);
    assert(n == s.len());
    let mut start: usize = 0;
    let mut negative = false;
    if n > 0 {
        let first = bytes[0];
        assert(first == s[0] as u8);
        if first == 0x2d {
            negative = true;
            start = 1;
        } else if first == 0x2b {
            start = 1;
        }
    }
    assert(negative == is_negative(s));
    assert(d =~= s.skip(start as int));
    if start == n {
        return None;
    }
    // The magnitude read so far; once it has left the range it stays out,
    // and the remaining bytes are only checked to be digits.
    let mut acc: i64 = 0;
    let mut fits = true;
    let mut i: usize = start;
    while i < n
        invariant
            start <= i <= n,
            n == s.len(),
            n == bytes@.len(),
            d == s.skip(start as int),
            d == unsigned_part(s),
            s == text@,
            forall|j: int| 0 <= j < n ==> s[j] as u8 == #[trigger] bytes@[j],
            vstd::utf8::is_ascii_chars(s),
            all_digits(d.take(i - start)),
            fits ==> acc == digits_value(d.take(i - start)) && 0 <= acc <= 0x8000_0000,
            !fits ==> digits_value(d.take(i - start)) > 0x8000_0000,
        decreases n - i,
    {
        let b = bytes[i];
        assert(b == s[i as int] as u8);
        assert(d[i - start] == s[i as int]);
        if b < 0x30 || b > 0x39 {
            assert(!is_digit(d[i - start]));
            return None;
        }
        proof {
            let t = d.take(i - start + 1);
            assert(t.drop_last() =~= d.take(i - start));
            assert(t.last() == d[i - start]);
            assert(is_digit(d[i - start]));
            assert forall|j: int| 0 <= j < t.len() implies is_digit(#[trigger] t[j]) by {
                if j < i - start {
                    assert(t[j] == d.take(i - start)[j]);
                }
            }
        }
        if fits {
            acc = acc * 10 + (b - 0x30) as i64;
            if acc > 0x8000_0000 {
                fits = false;
            }
        }
        i += 1;
    }
    assert(d.take(n - start) =~= d);
    if !fits {
        return None;
    }
    if negative {
        Some((-acc) as i32)
    } else if acc == 0x8000_0000 {
        None
    } else {
        Some(acc as i32)
    }
}

/// The run of leading digits lies inside the text and holds digits only.
pub proof fn lemma_leading_digits_are_digits(s: Seq<char>)
    ensures
        leading_digits(s) <= s.len(),
        all_digits(s.take(leading_digits(s) as int)),
    decreases s.len(),
{
    if s.len() > 0 && is_digit(s[0]) {
        let t = s.drop_first();
        lemma_leading_digits_are_digits(t);
        let p = leading_digits(s) as int;
        assert forall|j: int| 0 <= j < p implies is_digit(#[trigger] s.take(p)[j]) by {
            if j > 0 {
                assert(s.take(p)[j] == t.take(p - 1)[j - 1]);
            }
        }
    }
}

/// Digits, a point and digits, with a digit on at least one side, write
/// the number of all the digits, moved to millionths by the count of
/// digits behind the point.
pub proof fn lemma_decimal_with_point(w: Seq<char>, f: Seq<char>)
    requires
        all_digits(w),
        all_digits(f),
        w.len() + f.len() > 0,
    ensures
        decimal_magnitude(w + seq!['.'] + f) == Some(shifted(digits_value(w + f), 6 - f.len())),
{
    let u = w + seq!['.'] + f;
    let p = w.len() as int;
    let k = f.len() as int;
    assert(u.take(p) =~= w);
    assert(u[p] == '.');
    lemma_leading_digits_end(u, p);
    let behind = u.skip(p + 1);
    assert(behind =~= f);
    assert(f.take(k) =~= f);
    lemma_leading_digits_end(f, k);
    assert(u.skip(p + 1 + k).len() == 0);
    assert(u.subrange(p + 1, p + 1 + k) =~= f);
}

/// Digits alone write their number, in millionths a million times it.
pub proof fn lemma_decimal_without_point(w: Seq<char>)
    requires
        all_digits(w),
        w.len() > 0,
    ensures
        decimal_magnitude(w) == Some(digits_value(w) * 1_000_000),
{
    let p = w.len() as int;
    assert(w.take(p) =~= w);
    lemma_leading_digits_end(w, p);
    let behind = w.skip(p);
    assert(behind.len() == 0);
    assert(w.subrange(p, p) =~= Seq::<char>::empty());
    assert(w.take(p) + w.subrange(p, p) =~= w);
    lemma_ten_to_values();
}

/// The bytes are those of an ASCII text, character by character.
spec fn mirrors(bytes: Seq<u8>, s: Seq<char>) -> bool {
    &&& bytes.len() == s.len()
    &&& vstd::utf8::is_ascii_chars(s)
    &&& forall|j: int| 0 <= j < s.len() ==> s[j] as u8 == #[trigger] bytes[j]
}

/// An exponent beyond this limit, either way, moves every number that the
/// digits of a text can write out of range or down to zero.
const EXPONENT_LIMIT: i128 = 0x40_0000_0000_0000_0000;

/// An exponent held to the limit.
spec fn clamped(e: int) -> int {
    if e > EXPONENT_LIMIT {
        EXPONENT_LIMIT as int
    } else if e < -EXPONENT_LIMIT {
        -EXPONENT_LIMIT
    } else {
        e
    }
}

/// Finds where the run of digits that starts at `from` ends.
fn digits_end(bytes: &[u8], from: usize, Ghost(s): Ghost<Seq<char>>) -> (to: usize)
    requires
        mirrors(bytes@, s),
        from <= bytes@.len(),
    ensures
        from <= to <= bytes@.len(),
        to - from == leading_digits(s.skip(from as int)),
        forall|j: int| from <= j < to ==> is_digit(#[trigger] s[j]),
        to < bytes@.len() ==> !is_digit(s[to as int]),
{
    let n = bytes.len();
    let mut to: usize = from;
    while to < n && 0x30 <= bytes[to] && bytes[to] <= 0x39
        invariant
            from <= to <= n,
            n == bytes@.len(),
            mirrors(bytes@, s),
            forall|j: int| from <= j < to ==> is_digit(#[trigger] s[j]),
        decreases n - to,
    {
        assert(bytes@[to as int] == s[to as int] as u8);
        to += 1;
    }
    proof {
        let t = s.skip(from as int);
        if to < n {
            assert(bytes@[to as int] == s[to as int] as u8);
            assert(t[to - from] == s[to as int]);
        }
        let run = t.take(to - from);
        assert forall|j: int| 0 <= j < to - from implies is_digit(#[trigger] run[j]) by {
            assert(run[j] == s[j + from]);
        }
        lemma_leading_digits_end(t, to - from);
    }
    to
}

/// Reads the integer that stands from `from` to the end of the text, held
/// to the exponent limit.
fn read_exponent(bytes: &[u8], from: usize, Ghost(s): Ghost<Seq<char>>) -> (r: Option<i128>)
    requires
        mirrors(bytes@, s),
        from <= bytes@.len(),
    ensures
        match integer_of(s.skip(from as int)) {
            Some(e) => r == Some(clamped(e) as i128),
            None => r is None,
        },
{
    let n = bytes.len();
    let ghost t = s.skip(from as int);
    let mut start: usize = from;
    let mut negative = false;
    if from < n {
        let first = bytes[from];
        assert(first == s[from as int] as u8);
        assert(t[0] == s[from as int]);
        if first == 0x2d {
            negative = true;
            start = from + 1;
        } else if first == 0x2b {
            start = from + 1;
        }
    }
    let ghost d = unsigned_part(t);
    assert(negative == is_negative(t));
    assert(d =~= s.skip(start as int));
    let end = digits_end(bytes, start, Ghost(s));
    if end < n || end == start {
        proof {
            if end < n {
                assert(d[end - start] == s[end as int]);
            }
        }
        return None;
    }
    assert forall|j: int| 0 <= j < d.len() implies is_digit(#[trigger] d[j]) by {
        assert(d[j] == s[j + start]);
    }
    let mut acc: i128 = 0;
    let mut fits = true;
    let mut i: usize = start;
    assert(d.take(0).len() == 0);
    while i < n
        invariant
            start <= i <= n,
            n == bytes@.len(),
            mirrors(bytes@, s),
            d == s.skip(start as int),
            all_digits(d),
            fits ==> acc == digits_value(d.take(i - start)) && 0 <= acc <= EXPONENT_LIMIT,
            !fits ==> digits_value(d.take(i - start)) > EXPONENT_LIMIT,
        decreases n - i,
    {
        let b = bytes[i];
        proof {
            assert(b == s[i as int] as u8);
            assert(d[i - start] == s[i as int]);
            assert(is_digit(d[i - start]));
            let longer = d.take(i - start + 1);
            assert(longer.drop_last() =~= d.take(i - start));
            assert(longer.last() == d[i - start]);
        }
        if fits {
            acc = acc * 10 + (b - 0x30) as i128;
            if acc > EXPONENT_LIMIT {
                fits = false;
            }
        }
        i += 1;
    }
    assert(d.take(n - start) =~= d);
    if !fits {
        acc = EXPONENT_LIMIT;
    }
    if negative {
        Some(-acc)
    } else {
        Some(acc)
    }
}

/// Where the parts of an unsigned decimal text lie: its digits before the
/// point from `start` to `point`, those after it from `behind` to `end`,
/// and its exponent, held to the limit.
struct Parts {
    point: usize,
    behind: usize,
    end: usize,
    exponent: i128,
}

/// The digits of a decimal text, without the point.
spec fn digits_of(s: Seq<char>, start: int, parts: Parts) -> Seq<char> {
    s.subrange(start, parts.point as int) + s.subrange(parts.behind as int, parts.end as int)
}

/// The parts lie in the text in their order and hold digits only.
spec fn parts_fit(s: Seq<char>, start: int, parts: Parts) -> bool {
    &&& 0 <= start <= parts.point <= parts.behind <= parts.end <= s.len()
    &&& forall|j: int| start <= j < parts.point ==> is_digit(#[trigger] s[j])
    &&& forall|j: int| parts.behind <= j < parts.end ==> is_digit(#[trigger] s[j])
    &&& all_digits(digits_of(s, start, parts))
    &&& digits_of(s, start, parts).len() > 0
}

/// Finds the parts of the decimal text that begins at `start`.
fn find_parts(bytes: &[u8], start: usize, Ghost(s): Ghost<Seq<char>>) -> (r: Option<Parts>)
    requires
        mirrors(bytes@, s),
        start <= bytes@.len(),
    ensures
        match r {
            Some(parts) => {
                &&& parts_fit(s, start as int, parts)
                &&& exponent_of(s.skip(parts.end as int)) matches Some(e)
                &&& parts.exponent == clamped(e)
                &&& decimal_magnitude(s.skip(start as int)) == Some(
                    shifted(
                        digits_value(digits_of(s, start as int, parts)),
                        (parts.point - start) + 6 + e - digits_of(s, start as int, parts).len(),
                    ),
                )
            },
            None => decimal_magnitude(s.skip(start as int)) is None,
        },
{
    let n = bytes.len();
    let ghost u = s.skip(start as int);
    let point = digits_end(bytes, start, Ghost(s));
    let ghost p = point - start;
    let has_point = point < n && bytes[point] == 0x2e;
    let behind: usize = if has_point {
        point + 1
    } else {
        point
    };
    let ghost f = behind - start;
    proof {
        if point < n {
            assert(bytes@[point as int] == s[point as int] as u8);
            assert(u[p] == s[point as int]);
        }
        assert(f == fraction_start(u));
        assert(u.skip(f) =~= s.skip(behind as int));
    }
    let end = digits_end(bytes, behind, Ghost(s));
    let ghost k = end - behind;
    if point - start + (end - behind) == 0 {
        return None;
    }
    let ghost tail = u.skip(f + k);
    proof {
        assert(tail =~= s.skip(end as int));
        if end < n {
            assert(bytes@[end as int] == s[end as int] as u8);
            assert(tail[0] == s[end as int]);
            assert(tail.skip(1) =~= s.skip(end + 1));
        }
    }
    let exponent: i128 = if end == n {
        0
    } else if bytes[end] == 0x65 || bytes[end] == 0x45 {
        match read_exponent(bytes, end + 1, Ghost(s)) {
            Some(e) => e,
            None => {
                return None;
            },
        }
    } else {
        return None;
    };
    let parts = Parts { point, behind, end, exponent };
    proof {
        let d = digits_of(s, start as int, parts);
        assert(d =~= u.take(p) + u.subrange(f, f + k));
        assert forall|i: int| 0 <= i < d.len() implies is_digit(#[trigger] d[i]) by {
            if i < p {
                assert(d[i] == s[start + i]);
            } else {
                assert(d[i] == s[behind + (i - p)]);
            }
        }
    }
    Some(parts)
}

/// Reads the digits of a decimal text up to the cut `reach`, zeros
/// standing in behind the last digit. Gives `None` where the number they
/// write lies beyond the range of 64 bits.
fn read_digits(
    bytes: &[u8],
    start: usize,
    parts: &Parts,
    reach: u128,
    Ghost(s): Ghost<Seq<char>>,
) -> (r: Option<u128>)
    requires
        mirrors(bytes@, s),
        parts_fit(s, start as int, *parts),
        reach <= digits_of(s, start as int, *parts).len() + 20,
    ensures
        match r {
            Some(v) => v == digits_value(
                digits_to(digits_of(s, start as int, *parts), reach as int),
            ) && v <= 0x8000_0000_0000_0000,
            None => digits_value(digits_to(digits_of(s, start as int, *parts), reach as int))
                > 0x8000_0000_0000_0000,
        },
{
    let ghost d = digits_of(s, start as int, *parts);
    let whole_len: usize = parts.point - start;
    let total: usize = whole_len + (parts.end - parts.behind);
    let mut acc: u128 = 0;
    let mut i: u128 = 0;
    assert(digits_to(d, 0).len() == 0);
    while i < reach
        invariant
            i <= reach,
            reach <= total + 20,
            mirrors(bytes@, s),
            parts_fit(s, start as int, *parts),
            d == digits_of(s, start as int, *parts),
            whole_len == parts.point - start,
            total == whole_len + (parts.end - parts.behind),
            total == d.len(),
            acc == digits_value(digits_to(d, i as int)),
            acc <= 0x8000_0000_0000_0000,
        decreases reach - i,
    {
        let digit: u128 = if i < whole_len as u128 {
            let b = bytes[start + i as usize];
            assert(b == s[start + i] as u8);
            assert(d[i as int] == s[start + i]);
            (b - 0x30) as u128
        } else if i < total as u128 {
            let b = bytes[parts.behind + (i as usize - whole_len)];
            assert(b == s[parts.behind + (i - whole_len)] as u8);
            assert(d[i as int] == s[parts.behind + (i - whole_len)]);
            (b - 0x30) as u128
        } else {
            0
        };
        proof {
            let longer = digits_to(d, i + 1);
            assert(longer.drop_last() =~= digits_to(d, i as int));
            assert(digit == longer.last() as int - '0' as int);
        }
        acc = acc * 10 + digit;
        if acc > 0x8000_0000_0000_0000 {
            proof {
                lemma_digits_to_grows(d, i + 1, reach as int);
            }
            return None;
        }
        i += 1;
    }
    Some(acc)
}

/// The cut up to which the digits are read: the cut that the exponent
/// asks for, but not before the first digit and not more than twenty
/// places behind the last.
spec fn reach_of(len: int, cut: int) -> int {
    if cut <= 0 {
        0
    } else if cut >= len + 20 {
        len + 20
    } else {
        cut
    }
}

/// Twenty places behind its last digit, only the number zero is within the
/// range of 64 bits, and zero stays zero wherever it is cut. So the digits
/// read up to the reach tell the number at the cut, or that it is out of
/// range.
proof fn lemma_reach(d: Seq<char>, cut: int)
    requires
        all_digits(d),
    ensures
        ({
            let read = digits_value(digits_to(d, reach_of(d.len() as int, cut)));
            let number = shifted(digits_value(d), cut - d.len());
            if read <= 0x8000_0000_0000_0000 {
                number == read
            } else {
                number > 0x8000_0000_0000_0000
            }
        }),
{
    let len = d.len() as int;
    let reach = reach_of(len, cut);
    lemma_digits_to_value(d, cut);
    if cut <= 0 {
        assert(digits_to(d, cut) =~= digits_to(d, 0));
    } else if cut > reach {
        if digits_value(digits_to(d, reach)) <= 0x8000_0000_0000_0000 {
            lemma_digits_to_value(d, reach);
            lemma_ten_to_twenty();
            let number = digits_value(d);
            assert(number == 0) by (nonlinear_arith)
                requires
                    number * 100_000_000_000_000_000_000 <= 0x8000_0000_0000_0000,
                    number >= 0,
            ;
            assert(0 * ten_to((cut - len) as nat) == 0);
            assert(0 * ten_to(20) == 0);
        } else {
            lemma_digits_to_grows(d, reach, cut);
        }
    }
}

/// Finds the reach for the parts of a text.
fn reach(start: usize, parts: &Parts, Ghost(s): Ghost<Seq<char>>, Ghost(e): Ghost<int>) -> (r: u128)
    requires
        parts_fit(s, start as int, *parts),
        parts.exponent == clamped(e),
    ensures
        r == reach_of(
            digits_of(s, start as int, *parts).len() as int,
            (parts.point - start) + 6 + e,
        ),
{
    let whole_len: usize = parts.point - start;
    let total: usize = whole_len + (parts.end - parts.behind);
    let wanted: i128 = whole_len as i128 + 6 + parts.exponent;
    if wanted <= 0 {
        0
    } else if wanted >= total as i128 + 20 {
        total as u128 + 20
    } else {
        wanted as u128
    }
}

/// Reads the magnitude of the unsigned decimal text that begins at
/// `start`. Gives `None` where the text writes no number, or one beyond
/// the range of 64 bits.
fn read_magnitude(bytes: &[u8], start: usize, Ghost(s): Ghost<Seq<char>>) -> (r: Option<u128>)
    requires
        mirrors(bytes@, s),
        start <= bytes@.len(),
    ensures
        match r {
            Some(v) => decimal_magnitude(s.skip(start as int)) == Some(v as nat) && v
                <= 0x8000_0000_0000_0000,
            None => match decimal_magnitude(s.skip(start as int)) {
                Some(m) => m > 0x8000_0000_0000_0000,
                None => true,
            },
        },
{
    let parts = match find_parts(bytes, start, Ghost(s)) {
        Some(parts) => parts,
        None => {
            return None;
        },
    };
    let ghost e = exponent_of(s.skip(parts.end as int))->0;
    let reach = reach(start, &parts, Ghost(s), Ghost(e));
    proof {
        lemma_reach(digits_of(s, start as int, parts), (parts.point - start) + 6 + e);
    }
    read_digits(bytes, start, &parts, reach, Ghost(s))
}

/// Reads a decimal number as a count of millionths, rounded down.
///
/// The text is an optional sign, digits, optionally a point and more
/// digits, with at least one digit in all, and optionally an exponent: the
/// letter `e`, in either case, an optional sign and digits. Anything else,
/// and a value that does not fit 64 bits, gives `None`. A number below a
/// millionth is read as zero.
pub fn parse_decimal(text: &str) -> (r: Option<i64>)
    ensures
        r == millionths_of(text@),
{
    if !text.is_ascii() {
        proof {
            lemma_not_ascii_is_no_decimal(text@);
        }
        return None;
    }
    let bytes = text.as_bytes();
    proof {
        vstd::utf8::is_ascii_chars_encode_utf8(text@);
    }
    let n = bytes.len();
    let ghost s = text@;
    assert(mirrors(bytes@, s));
    let mut start: usize = 0;
    let mut negative = false;
    if n > 0 {
        let first = bytes[0];
        assert(first == s[0] as u8);
        if first == 0x2d {
            negative = true;
            start = 1;
        } else if first == 0x2b {
            start = 1;
        }
    }
    assert(negative == is_negative(s));
    assert(unsigned_part(s) =~= s.skip(start as int));
    match read_magnitude(bytes, start, Ghost(s)) {
        Some(magnitude) => {
            if negative {
                if magnitude == 0x8000_0000_0000_0000 {
                    Some(i64::MIN)
                } else {
                    Some(-(magnitude as i64))
                }
            } else if magnitude > 0x7fff_ffff_ffff_ffff {
                None
            } else {
                Some(magnitude as i64)
            }
        },
        None => None,
    }
}

/// A character with the Unicode property `White_Space`.
pub open spec fn is_white_space(c: char) -> bool {
    let v = c as u32;
    ||| 0x09 <= v <= 0x0d
    ||| v == 0x20
    ||| v == 0x85
    ||| v == 0xa0
    ||| v == 0x1680
    ||| 0x2000 <= v <= 0x200a
    ||| v == 0x2028
    ||| v == 0x2029
    ||| v == 0x202f
    ||| v == 0x205f
    ||| v == 0x3000
}

/// The text without the white space that it starts with.
pub open spec fn trimmed_start(s: Seq<char>) -> Seq<char>
    decreases s.len(),
{
    if s.len() > 0 && is_white_space(s[0]) {
        trimmed_start(s.drop_first())
    } else {
        s
    }
}

/// The text without the white space that it ends with.
pub open spec fn trimmed_end(s: Seq<char>) -> Seq<char>
    decreases s.len(),
{
    if s.len() > 0 && is_white_space(s.last()) {
        trimmed_end(s.drop_last())
    } else {
        s
    }
}

/// The text without the white space at either end.
pub open spec fn trimmed(s: Seq<char>) -> Seq<char> {
    trimmed_end(trimmed_start(s))
}

/// Tells whether a character is white space.
pub fn white_space(c: char) -> (b: bool)
    ensures
        b == is_white_space(c),
{
    let v = c as u32;
    (0x09 <= v && v <= 0x0d) || v == 0x20 || v == 0x85 || v == 0xa0 || v == 0x1680 || (0x2000 <= v
        && v <= 0x200a) || v == 0x2028 || v == 0x2029 || v == 0x202f || v == 0x205f || v == 0x3000
}

/// The white space at both ends of `s` is what lies before `a` and from
/// `b` on.
pub open spec fn is_trim_range(s: Seq<char>, a: int, b: int) -> bool {
    &&& 0 <= a <= b <= s.len()
    &&& forall|k: int| 0 <= k < a ==> is_white_space(#[trigger] s[k])
    &&& forall|k: int| b <= k < s.len() ==> is_white_space(#[trigger] s[k])
    &&& a < b ==> !is_white_space(s[a]) && !is_white_space(s[b - 1])
}

/// Trimming at the start drops the white space up to the first character
/// that is none.
pub proof fn lemma_trimmed_start(s: Seq<char>, a: int)
    requires
        0 <= a <= s.len(),
        forall|k: int| 0 <= k < a ==> is_white_space(#[trigger] s[k]),
        a < s.len() ==> !is_white_space(s[a]),
    ensures
        trimmed_start(s) == s.skip(a),
    decreases a,
{
    if a == 0 {
        assert(s.skip(0) =~= s);
    } else {
        let rest = s.drop_first();
        assert(is_white_space(s[0]));
        assert forall|k: int| 0 <= k < a - 1 implies is_white_space(#[trigger] rest[k]) by {
            assert(rest[k] == s[k + 1]);
        }
        lemma_trimmed_start(rest, a - 1);
        assert(rest.skip(a - 1) =~= s.skip(a));
    }
}

/// Trimming at the end drops the white space after the last character
/// that is none.
pub proof fn lemma_trimmed_end(s: Seq<char>, b: int)
    requires
        0 <= b <= s.len(),
        forall|k: int| b <= k < s.len() ==> is_white_space(#[trigger] s[k]),
        b > 0 ==> !is_white_space(s[b - 1]),
    ensures
        trimmed_end(s) == s.take(b),
    decreases s.len() - b,
{
    if b == s.len() {
        assert(s.take(b) =~= s);
    } else {
        let rest = s.drop_last();
        assert(is_white_space(s[s.len() - 1]));
        assert forall|k: int| b <= k < rest.len() implies is_white_space(#[trigger] rest[k]) by {
            assert(rest[k] == s[k]);
        }
        lemma_trimmed_end(rest, b);
        assert(rest.take(b) =~= s.take(b));
    }
}

/// The trimmed text is what stands between the white space at both ends.
pub proof fn lemma_trim_range(s: Seq<char>, a: int, b: int)
    requires
        is_trim_range(s, a, b),
    ensures
        trimmed(s) == s.subrange(a, b),
{
    if a == b {
        assert forall|k: int| 0 <= k < s.len() implies is_white_space(#[trigger] s[k]) by {}
        lemma_trimmed_start(s, s.len() as int);
        assert(s.skip(s.len() as int) =~= s.subrange(a, b));
    } else {
        lemma_trimmed_start(s, a);
        let rest = s.skip(a);
        assert forall|k: int| b - a <= k < rest.len() implies is_white_space(
            #[trigger] rest[k],
        ) by {
            assert(rest[k] == s[k + a]);
        }
        assert(rest[b - a - 1] == s[b - 1]);
        lemma_trimmed_end(rest, b - a);
        assert(rest.take(b - a) =~= s.subrange(a, b));
    }
}

/// Finds, in one pass, where the white space at the start of a text ends
/// and where that at its end begins, counted in characters.
pub fn trim_range(text: &str) -> (range: (usize, usize))
    ensures
        is_trim_range(text@, range.0 as int, range.1 as int),
{
    broadcast use vstd::string::group_string_axioms;

    let n = text.unicode_len();
    let ghost s = text@;
    let mut rest = text.chars();
    let mut i: usize = 0;
    let mut a: usize = 0;
    let mut b: usize = 0;
    assert(s.skip(0) =~= s);
    loop
        invariant
            n == s.len(),
            s == text@,
            i <= n,
            rest.remaining() == s.skip(i as int),
            rest.decrease() is Some,
            a <= b <= i,
            forall|k: int| 0 <= k < a ==> is_white_space(#[trigger] s[k]),
            forall|k: int| b <= k < i ==> is_white_space(#[trigger] s[k]),
            a < b ==> !is_white_space(s[a as int]) && !is_white_space(s[b - 1]),
            a == b ==> a == i,
        decreases n - i,
    {
        match rest.next() {
            Some(c) => {
                assert(c == s[i as int]);
                assert(s.skip(i as int).drop_first() =~= s.skip(i + 1));
                if !white_space(c) {
                    b = i + 1;
                } else if a == b {
                    a = i + 1;
                    b = i + 1;
                }
                i += 1;
            },
            None => {
                return (a, b);
            },
        }
    }
}

/// Removes the white space at both ends of a text.
pub fn trim(text: &str) -> (out: String)
    ensures
        out@ == trimmed(text@),
{
    let (a, b) = trim_range(text);
    proof {
        lemma_trim_range(text@, a as int, b as int);
    }
    text.substring_char(a, b).to_owned()
}

} // verus!
