//! Decimal and hexadecimal text of integers, and the parse that undoes it.
use vstd::prelude::*;
use vstd::string::*;

verus! {

/// The character of a digit below sixteen, in lower case.
pub open spec fn digit_char(d: nat) -> char {
    if d < 10 {
        ('0' as u32 + d) as char
    } else {
        ('a' as u32 + d - 10) as char
    }
}

/// The decimal digits of `n`, most significant first and without padding.
pub open spec fn decimal_digits(n: nat) -> Seq<char>
    decreases n,
{
    if n < 10 {
        seq![digit_char(n)]
    } else {
        decimal_digits(n / 10).push(digit_char(n % 10))
    }
}

/// `width` hexadecimal digits of `n`, most significant first.
pub open spec fn hex_digits(n: nat, width: nat) -> Seq<char>
    decreases width,
{
    if width == 0 {
        Seq::empty()
    } else {
        hex_digits(n / 16, (width - 1) as nat).push(digit_char(n % 16))
    }
}

/// `digits` padded on the left with zeros to at least `width` characters.
pub open spec fn zero_padded(digits: Seq<char>, width: nat) -> Seq<char> {
    if digits.len() < width {
        Seq::new((width - digits.len()) as nat, |i: int| '0') + digits
    } else {
        digits
    }
}

pub open spec fn is_digit(c: char) -> bool {
    '0' <= c <= '9'
}

/// The number that a string of decimal digits denotes.
pub open spec fn digits_value(s: Seq<char>) -> nat
    decreases s.len(),
{
    if s.len() == 0 {
        0
    } else {
        digits_value(s.drop_last()) * 10 + (s.last() as nat - '0' as nat) as nat
    }
}

pub open spec fn all_digits(s: Seq<char>) -> bool {
    forall|i: int| 0 <= i < s.len() ==> is_digit(#[trigger] s[i])
}

/// What parsing a `u64` gives: an optional plus sign, then at least one digit
/// and nothing else, with a value that fits.
pub open spec fn parsed_u64(s: Seq<char>) -> Option<u64> {
    let body = if s.len() > 0 && s[0] == '+' {
        s.skip(1)
    } else {
        s
    };
    if body.len() > 0 && all_digits(body) && digits_value(body) <= u64::MAX {
        Some(digits_value(body) as u64)
    } else {
        None
    }
}

fn digit_str(d: u64) -> (s: &'static str)
    requires
        d < 16,
    ensures
        s@ == seq![digit_char(d as nat)],
{
    proof {
        reveal_strlit("0");
        reveal_strlit("1");
        reveal_strlit("2");
        reveal_strlit("3");
        reveal_strlit("4");
        reveal_strlit("5");
        reveal_strlit("6");
        reveal_strlit("7");
        reveal_strlit("8");
        reveal_strlit("9");
        reveal_strlit("a");
        reveal_strlit("b");
        reveal_strlit("c");
        reveal_strlit("d");
        reveal_strlit("e");
        reveal_strlit("f");
    }
    let s: &'static str = if d == 0 {
        "0"
    } else if d == 1 {
        "1"
    } else if d == 2 {
        "2"
    } else if d == 3 {
        "3"
    } else if d == 4 {
        "4"
    } else if d == 5 {
        "5"
    } else if d == 6 {
        "6"
    } else if d == 7 {
        "7"
    } else if d == 8 {
        "8"
    } else if d == 9 {
        "9"
    } else if d == 10 {
        "a"
    } else if d == 11 {
        "b"
    } else if d == 12 {
        "c"
    } else if d == 13 {
        "d"
    } else if d == 14 {
        "e"
    } else {
        "f"
    };
    assert(s@ =~= seq![digit_char(d as nat)]);
    s
}

/// Appends the decimal digits of `n`.
pub fn push_decimal(out: &mut String, n: u64)
    ensures
        final(out)@ == old(out)@ + decimal_digits(n as nat),
    decreases n,
{
    let ghost before = out@;
    if n >= 10 {
        push_decimal(out, n / 10);
    }
    out.append(digit_str(n % 10));
    proof {
        assert(out@ =~= before + decimal_digits(n as nat));
    }
}

/// Appends `width` hexadecimal digits of `n`.
pub fn push_hex(out: &mut String, n: u64, width: u64)
    ensures
        final(out)@ == old(out)@ + hex_digits(n as nat, width as nat),
    decreases width,
{
    let ghost before = out@;
    if width > 0 {
        push_hex(out, n / 16, width - 1);
        out.append(digit_str(n % 16));
    }
    proof {
        assert(out@ =~= before + hex_digits(n as nat, width as nat));
    }
}

/// The number of decimal digits of `n`.
pub fn decimal_width(n: u64) -> (w: usize)
    ensures
        w == decimal_digits(n as nat).len(),
        1 <= w <= 20,
{
    let mut rest: u64 = n;
    let mut w: usize = 1;
    assert(rest as nat * pow10(0) <= n) by {
        assert(pow10(0) == 1);
    }
    while rest >= 10
        invariant
            decimal_digits(n as nat).len() == decimal_digits(rest as nat).len() + w - 1,
            1 <= w <= 20,
            w <= 19 ==> rest as nat * pow10((w - 1) as nat) <= n,
            w == 20 ==> rest == 0 || rest as nat * pow10(19) <= n,
        decreases rest,
    {
        proof {
            assert(decimal_digits(rest as nat).len() == decimal_digits((rest / 10) as nat).len() + 1);
            lemma_width_step(rest as nat, n as nat, w as nat);
        }
        rest = rest / 10;
        w = w + 1;
    }
    w
}

spec fn pow10(k: nat) -> nat
    decreases k,
{
    if k == 0 {
        1
    } else {
        10 * pow10((k - 1) as nat)
    }
}

proof fn lemma_width_step(rest: nat, n: nat, w: nat)
    requires
        n <= u64::MAX,
        rest >= 10,
        1 <= w <= 20,
        w <= 19 ==> rest * pow10((w - 1) as nat) <= n,
        w == 20 ==> rest * pow10(19) <= n,
    ensures
        w <= 19,
        (rest / 10) * pow10(w) <= n,
{
    reveal_with_fuel(pow10, 21);
    let p = pow10((w - 1) as nat);
    let q = rest / 10;
    assert(pow10(w) == 10 * p);
    assert(q * (10 * p) <= rest * p) by (nonlinear_arith)
        requires
            10 * q <= rest,
    ;
    if w == 20 {
        assert(rest * p >= 10 * p) by (nonlinear_arith)
            requires
                rest >= 10,
        ;
        assert(pow10(19) == 10_000_000_000_000_000_000);
    }
}

/// Reads a `u64` from characters `from..to` of `s`.
pub fn parse_u64(s: &str, from: usize, to: usize) -> (r: Option<u64>)
    requires
        from <= to <= s@.len(),
    ensures
        r == parsed_u64(s@.subrange(from as int, to as int)),
{
    let ghost whole = s@.subrange(from as int, to as int);
    let mut i: usize = from;
    if i < to && s.get_char(i) == '+' {
        i = i + 1;
    }
    let start: usize = i;
    let ghost body = s@.subrange(start as int, to as int);
    assert(body =~= if whole.len() > 0 && whole[0] == '+' {
        whole.skip(1)
    } else {
        whole
    });
    if start == to {
        return None;
    }
    let mut value: u64 = 0;
    while i < to
        invariant
            from <= start <= i <= to <= s@.len(),
            start < to,
            whole == s@.subrange(from as int, to as int),
            body == s@.subrange(start as int, to as int),
            body == if whole.len() > 0 && whole[0] == '+' {
                whole.skip(1)
            } else {
                whole
            },
            all_digits(body.take(i - start)),
            value == digits_value(body.take(i - start)),
        decreases to - i,
    {
        let c = s.get_char(i);
        assert(c == body[i - start]);
        let ghost next = body.take(i - start + 1);
        assert(next.drop_last() =~= body.take(i - start));
        assert(next.last() == c);
        if !(c >= '0' && c <= '9') {
            assert(!all_digits(body));
            return None;
        }
        let d: u64 = (c as u32 - '0' as u32) as u64;
        assert(digits_value(next) == digits_value(body.take(i - start)) * 10 + d);
        proof {
            lemma_value_monotone(body, i - start + 1);
        }
        if value > (u64::MAX - d) / 10 {
            assert(digits_value(body) > u64::MAX);
            return None;
        }
        value = value * 10 + d;
        i = i + 1;
        assert forall|k: int| 0 <= k < body.take(i - start).len() implies is_digit(
            #[trigger] body.take(i - start)[k],
        ) by {
            if k < i - start - 1 {
                assert(body.take(i - start)[k] == body.take(i - start - 1)[k]);
            }
        }
    }
    assert(body.take(to - start) =~= body);
    Some(value)
}

/// A prefix of a digit string denotes no more than the whole.
proof fn lemma_value_monotone(s: Seq<char>, k: int)
    requires
        0 <= k <= s.len(),
    ensures
        digits_value(s.take(k)) <= digits_value(s),
    decreases s.len(),
{
    if k == s.len() {
        assert(s.take(k) =~= s);
    } else {
        lemma_value_monotone(s.drop_last(), k);
        assert(s.drop_last().take(k) =~= s.take(k));
        assert(digits_value(s.drop_last()) * 10 >= digits_value(s.drop_last()));
    }
}

proof fn lemma_decimal_round_trip(n: nat)
    ensures
        decimal_digits(n).len() > 0,
        all_digits(decimal_digits(n)),
        digits_value(decimal_digits(n)) == n,
    decreases n,
{
    if n < 10 {
        assert(decimal_digits(n).drop_last() =~= Seq::<char>::empty());
        assert(digits_value(Seq::<char>::empty()) == 0);
    } else {
        lemma_decimal_round_trip(n / 10);
        assert(decimal_digits(n).drop_last() =~= decimal_digits(n / 10));
        assert forall|i: int| 0 <= i < decimal_digits(n).len() implies is_digit(
            #[trigger] decimal_digits(n)[i],
        ) by {
            if i < decimal_digits(n / 10).len() {
                assert(decimal_digits(n)[i] == decimal_digits(n / 10)[i]);
            }
        }
    }
}

proof fn lemma_leading_zeros(zeros: nat, s: Seq<char>)
    requires
        all_digits(s),
    ensures
        all_digits(Seq::new(zeros, |i: int| '0') + s),
        digits_value(Seq::new(zeros, |i: int| '0') + s) == digits_value(s),
    decreases s.len() + zeros,
{
    let z = Seq::new(zeros, |i: int| '0');
    let t = z + s;
    assert forall|i: int| 0 <= i < t.len() implies is_digit(#[trigger] t[i]) by {
        if i >= zeros {
            assert(t[i] == s[i - zeros]);
        }
    }
    if s.len() > 0 {
        assert(t.drop_last() =~= z + s.drop_last());
        assert forall|i: int| 0 <= i < s.drop_last().len() implies is_digit(
            #[trigger] s.drop_last()[i],
        ) by {
            assert(s.drop_last()[i] == s[i]);
        }
        lemma_leading_zeros(zeros, s.drop_last());
    } else if zeros > 0 {
        let fewer = Seq::new((zeros - 1) as nat, |i: int| '0');
        assert(t.drop_last() =~= fewer + s);
        lemma_leading_zeros((zeros - 1) as nat, s);
    } else {
        assert(t =~= s);
    }
}

/// Parsing the zero-padded decimal text of a number gives the number back.
pub proof fn law_decimal_parses_back(n: u64, width: nat)
    ensures
        parsed_u64(zero_padded(decimal_digits(n as nat), width)) == Some(n),
{
    let digits = decimal_digits(n as nat);
    lemma_decimal_round_trip(n as nat);
    let text = zero_padded(digits, width);
    if digits.len() < width {
        lemma_leading_zeros((width - digits.len()) as nat, digits);
    }
    assert(is_digit(text[0]));
}

/// Padded decimal digits are digits, and denote the number.
pub proof fn lemma_padded(n: nat, width: nat)
    ensures
        all_digits(zero_padded(decimal_digits(n), width)),
        digits_value(zero_padded(decimal_digits(n), width)) == n,
        zero_padded(decimal_digits(n), width).len() >= width,
{
    let digits = decimal_digits(n);
    lemma_decimal_round_trip(n);
    if digits.len() < width {
        lemma_leading_zeros((width - digits.len()) as nat, digits);
    }
}

/// A number of more than one digit does not start with a zero.
pub proof fn lemma_leading_digit(n: nat)
    ensures
        decimal_digits(n).len() > 0,
        decimal_digits(n).len() > 1 ==> decimal_digits(n)[0] != '0',
        n > 0 ==> decimal_digits(n)[0] != '0',
    decreases n,
{
    if n >= 10 {
        lemma_leading_digit(n / 10);
    }
}

/// Hexadecimal text has the width asked for, and its digits denote the number.
pub proof fn law_hex_denotes_the_number(n: nat, width: nat)
    ensures
        hex_digits(n, width).len() == width,
        width > 0 ==> hex_digits(n, width).last() == digit_char(n % 16),
        width > 0 ==> hex_digits(n, width).drop_last() == hex_digits(n / 16, (width - 1) as nat),
    decreases width,
{
    if width > 0 {
        law_hex_denotes_the_number(n / 16, (width - 1) as nat);
        assert(hex_digits(n, width).drop_last() =~= hex_digits(n / 16, (width - 1) as nat));
    }
}

/// Text parses exactly where it is decimal digits, with an optional plus sign,
/// and their number fits; it then stands for that number.
pub proof fn law_only_fitting_numbers_parse(s: Seq<char>)
    ensures
        s.len() > 0 && all_digits(s) && digits_value(s) <= u64::MAX ==> parsed_u64(s) == Some(
            digits_value(s) as u64,
        ) && parsed_u64(seq!['+'] + s) == Some(digits_value(s) as u64),
        s.len() == 0 || digits_value(s) > u64::MAX || (exists|i: int|
            0 < i < s.len() && !is_digit(#[trigger] s[i])) ==> (s.len() > 0 && s[0] == '+')
            || parsed_u64(s) is None,
        s.len() > 0 && !is_digit(s[0]) && s[0] != '+' ==> parsed_u64(s) is None,
        (exists|i: int| 0 < i < s.len() && !is_digit(#[trigger] s[i])) ==> parsed_u64(s) is None,
{
    let plus = seq!['+'] + s;
    assert(plus.skip(1) =~= s);
    if s.len() > 0 && all_digits(s) {
        assert(is_digit(s[0]));
    }
    if exists|i: int| 0 < i < s.len() && !is_digit(#[trigger] s[i]) {
        let i = choose|i: int| 0 < i < s.len() && !is_digit(#[trigger] s[i]);
        assert(s.skip(1)[i - 1] == s[i]);
    }
}

} // verus!
