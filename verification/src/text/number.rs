//! Numbers as text.

use vstd::prelude::*;

verus! {

/// Why a text is not a number.
#[derive(Clone, Copy, Debug, PartialEq, Eq, Structural)]
pub enum NumberError {
    Empty,
    InvalidDigit,
    TooLarge,
}

impl NumberError {
    pub open spec fn spec_message(self) -> Seq<char> {
        match self {
            NumberError::Empty => "cannot parse integer from empty string"@,
            NumberError::InvalidDigit => "invalid digit found in string"@,
            NumberError::TooLarge => "number too large to fit in target type"@,
        }
    }

    pub fn message(self) -> (s: &'static str)
        ensures
            s@ == self.spec_message(),
    {
        match self {
            NumberError::Empty => "cannot parse integer from empty string",
            NumberError::InvalidDigit => "invalid digit found in string",
            NumberError::TooLarge => "number too large to fit in target type",
        }
    }
}

/// The value of a digit, if it is one for `radix`.
pub open spec fn digit_value(c: char, radix: int) -> Option<int> {
    let v = if '0' <= c <= '9' {
        c as int - '0' as int
    } else if 'a' <= c <= 'z' {
        c as int - 'a' as int + 10
    } else if 'A' <= c <= 'Z' {
        c as int - 'A' as int + 10
    } else {
        radix
    };
    if v < radix {
        Some(v)
    } else {
        None
    }
}

/// The number that digits stand for, up to the largest 64-bit number; the
/// first fault from the left counts.
pub open spec fn digits_value(s: Seq<char>, radix: int) -> Result<int, NumberError>
    decreases s.len(),
{
    if s.len() == 0 {
        Ok(0)
    } else {
        match (digits_value(s.drop_last(), radix), digit_value(s.last(), radix)) {
            (Err(e), _) => Err(e),
            (Ok(_), None) => Err(NumberError::InvalidDigit),
            (Ok(v), Some(x)) => if v * radix + x > u64::MAX {
                Err(NumberError::TooLarge)
            } else {
                Ok(v * radix + x)
            },
        }
    }
}

/// The number that a text of digits, which may start with `+`, stands for.
pub open spec fn radix_value(s: Seq<char>, radix: int) -> Result<int, NumberError> {
    if s.len() == 0 {
        Err(NumberError::Empty)
    } else if s[0] != '+' {
        digits_value(s, radix)
    } else if s.len() == 1 {
        Err(NumberError::InvalidDigit)
    } else {
        digits_value(s.drop_first(), radix)
    }
}

/// The number that a text stands for: hexadecimal after `0x` or `0X`, else
/// decimal.
pub open spec fn number_value(s: Seq<char>) -> Result<int, NumberError> {
    if s.len() >= 2 && s[0] == '0' && (s[1] == 'x' || s[1] == 'X') {
        radix_value(s.skip(2), 16)
    } else {
        radix_value(s, 10)
    }
}

fn digit(c: char, radix: u64) -> (r: Option<u64>)
    requires
        2 <= radix <= 36,
    ensures
        match r {
            Some(v) => digit_value(c, radix as int) == Some(v as int) && v < radix,
            None => digit_value(c, radix as int) is None,
        },
{
    let u: u64 = c as u64;
    let v: u64 = if '0' <= c && c <= '9' {
        u - 0x30
    } else if 'a' <= c && c <= 'z' {
        u - 0x61 + 10
    } else if 'A' <= c && c <= 'Z' {
        u - 0x41 + 10
    } else {
        radix
    };
    if v < radix {
        Some(v)
    } else {
        None
    }
}

/// The number that the digits of `s` from `from` on stand for.
fn read_digits(s: &[char], from: usize, radix: u64) -> (r: Result<u64, NumberError>)
    requires
        from <= s@.len(),
        2 <= radix <= 36,
    ensures
        match r {
            Ok(v) => digits_value(s@.skip(from as int), radix as int) == Ok::<int, NumberError>(
                v as int,
            ),
            Err(e) => digits_value(s@.skip(from as int), radix as int) == Err::<int, NumberError>(
                e,
            ),
        },
{
    let n: usize = s.len();
    let ghost t = s@.skip(from as int);
    let mut v: u64 = 0;
    let mut i: usize = from;
    assert(t.take(0) =~= Seq::empty());
    while i < n
        invariant
            from <= i <= n,
            n == s@.len(),
            t == s@.skip(from as int),
            2 <= radix <= 36,
            digits_value(t.take(i - from), radix as int) == Ok::<int, NumberError>(v as int),
        decreases n - i,
    {
        let ghost k = i - from;
        proof {
            assert(t.take(k + 1).drop_last() =~= t.take(k));
            assert(t.take(k + 1).last() == s@[i as int]);
        }
        match digit(s[i], radix) {
            None => {
                proof {
                    lemma_first_fault(t, radix as int, k + 1);
                }
                return Err(NumberError::InvalidDigit);
            },
            Some(x) => {
                proof {
                    assert(0 <= v * radix <= u64::MAX * 36) by (nonlinear_arith)
                        requires
                            0 <= v <= u64::MAX,
                            0 <= radix <= 36,
                    ;
                }
                let wide: u128 = v as u128 * radix as u128;
                let sum: u128 = wide + x as u128;
                if sum > u64::MAX as u128 {
                    proof {
                        lemma_first_fault(t, radix as int, k + 1);
                    }
                    return Err(NumberError::TooLarge);
                }
                v = sum as u64;
            },
        }
        i = i + 1;
    }
    assert(t.take(n - from) =~= t);
    Ok(v)
}

/// A fault in the first `k` digits is the fault of all of them.
proof fn lemma_first_fault(s: Seq<char>, radix: int, k: int)
    requires
        0 <= k <= s.len(),
        digits_value(s.take(k), radix) is Err,
    ensures
        digits_value(s, radix) == digits_value(s.take(k), radix),
    decreases s.len(),
{
    if k == s.len() {
        assert(s.take(k) =~= s);
    } else {
        assert(s.drop_last().take(k) =~= s.take(k));
        lemma_first_fault(s.drop_last(), radix, k);
    }
}

/// The number that `s` from `from` on stands for.
fn read_radix(s: &[char], from: usize, radix: u64) -> (r: Result<u64, NumberError>)
    requires
        from <= s@.len(),
        2 <= radix <= 36,
    ensures
        match r {
            Ok(v) => radix_value(s@.skip(from as int), radix as int) == Ok::<int, NumberError>(
                v as int,
            ),
            Err(e) => radix_value(s@.skip(from as int), radix as int) == Err::<int, NumberError>(
                e,
            ),
        },
{
    let n: usize = s.len();
    if from == n {
        return Err(NumberError::Empty);
    }
    if s[from] != '+' {
        return read_digits(s, from, radix);
    }
    if n - from == 1 {
        return Err(NumberError::InvalidDigit);
    }
    assert(s@.skip(from as int).drop_first() =~= s@.skip(from + 1));
    read_digits(s, from + 1, radix)
}

/// Read a number: hexadecimal after `0x` or `0X`, else decimal.
pub fn read_number(s: &[char]) -> (r: Result<u64, NumberError>)
    ensures
        match r {
            Ok(v) => number_value(s@) == Ok::<int, NumberError>(v as int),
            Err(e) => number_value(s@) == Err::<int, NumberError>(e),
        },
{
    assert(s@.skip(0) =~= s@);
    if s.len() >= 2 && s[0] == '0' && (s[1] == 'x' || s[1] == 'X') {
        read_radix(s, 2, 16)
    } else {
        read_radix(s, 0, 10)
    }
}

/// Read a decimal number.
pub fn read_decimal(s: &[char]) -> (r: Result<u64, NumberError>)
    ensures
        match r {
            Ok(v) => radix_value(s@, 10) == Ok::<int, NumberError>(v as int),
            Err(e) => radix_value(s@, 10) == Err::<int, NumberError>(e),
        },
{
    assert(s@.skip(0) =~= s@);
    read_radix(s, 0, 10)
}

/// The digit for a value below 16.
pub open spec fn digit_char(v: int) -> char {
    if v < 10 {
        ('0' as int + v) as char
    } else {
        ('A' as int + v - 10) as char
    }
}

/// The digits of a number, without leading zeros.
pub open spec fn digits_of(n: int, radix: int) -> Seq<char>
    decreases n,
{
    if n < radix || radix < 2 {
        seq![digit_char(n)]
    } else {
        proof {
            assert(0 <= n / radix < n) by (nonlinear_arith)
                requires
                    n >= radix,
                    radix >= 2,
            ;
        }
        digits_of(n / radix, radix).push(digit_char(n % radix))
    }
}

/// `n` times the character `c`.
pub open spec fn repeated(c: char, n: int) -> Seq<char> {
    Seq::new(n as nat, |i: int| c)
}

/// `s` with `c` in front, up to a width.
pub open spec fn padded_left(s: Seq<char>, c: char, width: int) -> Seq<char> {
    if s.len() < width {
        repeated(c, width - s.len()) + s
    } else {
        s
    }
}

/// `s` with blanks behind, up to a width.
pub open spec fn padded_right(s: Seq<char>, width: int) -> Seq<char> {
    if s.len() < width {
        s + repeated(' ', width - s.len())
    } else {
        s
    }
}

/// A number in upper-case hexadecimal digits, with zeros in front up to a
/// width.
pub open spec fn hex_padded(n: int, width: int) -> Seq<char> {
    padded_left(digits_of(n, 16), '0', width)
}

fn digit_of(v: u64) -> (c: char)
    requires
        v < 16,
    ensures
        c == digit_char(v as int),
{
    match v {
        0 => '0',
        1 => '1',
        2 => '2',
        3 => '3',
        4 => '4',
        5 => '5',
        6 => '6',
        7 => '7',
        8 => '8',
        9 => '9',
        10 => 'A',
        11 => 'B',
        12 => 'C',
        13 => 'D',
        14 => 'E',
        _ => 'F',
    }
}

/// The digits of a number.
pub fn write_digits(n: u64, radix: u64) -> (v: Vec<char>)
    requires
        2 <= radix <= 16,
    ensures
        v@ == digits_of(n as int, radix as int),
    decreases n,
{
    if n < radix {
        let mut v: Vec<char> = Vec::new();
        v.push(digit_of(n));
        assert(v@ =~= seq![digit_char(n as int)]);
        v
    } else {
        assert(n / radix < n) by (nonlinear_arith)
            requires
                n >= radix,
                radix >= 2,
        ;
        let mut v: Vec<char> = write_digits(n / radix, radix);
        v.push(digit_of(n % radix));
        v
    }
}

/// Put `c` in front, up to a width.
pub fn pad_left(s: &[char], c: char, width: usize) -> (v: Vec<char>)
    ensures
        v@ == padded_left(s@, c, width as int),
{
    let n: usize = s.len();
    let mut v: Vec<char> = Vec::new();
    let mut k: usize = n;
    while k < width
        invariant
            n <= k,
            k <= width || k == n,
            v@ == repeated(c, k - n),
        decreases width - k,
    {
        v.push(c);
        k = k + 1;
        assert(v@ =~= repeated(c, k - n));
    }
    let ghost pad = v@;
    let mut i: usize = 0;
    assert(pad + s@.take(0) =~= pad);
    while i < n
        invariant
            i <= n,
            n == s@.len(),
            v@ == pad + s@.take(i as int),
        decreases n - i,
    {
        v.push(s[i]);
        assert(pad + s@.take(i + 1) =~= (pad + s@.take(i as int)).push(s@[i as int]));
        i = i + 1;
    }
    assert(s@.take(n as int) =~= s@);
    assert(n >= width ==> pad + s@ =~= s@);
    v
}

/// Put blanks behind, up to a width.
pub fn pad_right(s: &[char], width: usize) -> (v: Vec<char>)
    ensures
        v@ == padded_right(s@, width as int),
{
    let n: usize = s.len();
    let mut v: Vec<char> = Vec::new();
    let mut i: usize = 0;
    while i < n
        invariant
            i <= n,
            n == s@.len(),
            v@ == s@.take(i as int),
        decreases n - i,
    {
        v.push(s[i]);
        assert(s@.take(i + 1) =~= s@.take(i as int).push(s@[i as int]));
        i = i + 1;
    }
    assert(s@.take(n as int) =~= s@);
    let mut k: usize = n;
    assert(s@ + repeated(' ', 0) =~= s@);
    while k < width
        invariant
            n <= k,
            k <= width || k == n,
            v@ == s@ + repeated(' ', k - n),
        decreases width - k,
    {
        v.push(' ');
        assert(s@ + repeated(' ', k + 1 - n) =~= (s@ + repeated(' ', k - n)).push(' '));
        k = k + 1;
    }
    v
}

/// A number in upper-case hexadecimal digits, with zeros in front.
pub fn write_hex(n: u64, width: usize) -> (v: Vec<char>)
    ensures
        v@ == hex_padded(n as int, width as int),
{
    let d: Vec<char> = write_digits(n, 16);
    pad_left(&d, '0', width)
}

/// A digit stands for its value.
proof fn lemma_digit_value(v: int, radix: int)
    requires
        0 <= v < radix <= 16,
    ensures
        digit_value(digit_char(v), radix) == Some(v),
{
}

/// Reading the digits of a number gives the number.
pub proof fn lemma_digits_read_back(n: int, radix: int)
    requires
        0 <= n <= u64::MAX,
        2 <= radix <= 16,
    ensures
        digits_value(digits_of(n, radix), radix) == Ok::<int, NumberError>(n),
        digits_of(n, radix).len() > 0,
        forall|i: int|
            0 <= i < digits_of(n, radix).len() ==> {
                let c = #[trigger] digits_of(n, radix)[i];
                '0' <= c <= '9' || 'A' <= c <= 'F'
            },
    decreases n,
{
    let s = digits_of(n, radix);
    if n < radix {
        lemma_digit_value(n, radix);
        assert(s.drop_last() =~= Seq::empty());
        assert(digits_value(s.drop_last(), radix) == Ok::<int, NumberError>(0));
        assert(0 * radix == 0) by (nonlinear_arith);
    } else {
        assert(n / radix < n && 0 <= n / radix) by (nonlinear_arith)
            requires
                n >= radix,
                radix >= 2,
        ;
        lemma_digits_read_back(n / radix, radix);
        vstd::arithmetic::div_mod::lemma_mod_bound(n, radix);
        vstd::arithmetic::div_mod::lemma_fundamental_div_mod(n, radix);
        lemma_digit_value(n % radix, radix);
        let t = digits_of(n / radix, radix);
        assert(s.drop_last() =~= t);
        assert((n / radix) * radix == radix * (n / radix)) by (nonlinear_arith);
        assert forall|i: int| 0 <= i < s.len() implies {
            let c = #[trigger] s[i];
            '0' <= c <= '9' || 'A' <= c <= 'F'
        } by {
            if i < t.len() {
                assert(s[i] == t[i]);
            }
        }
    }
}

/// Zeros in front do not change a number.
proof fn lemma_zeros_in_front(s: Seq<char>, k: int, radix: int)
    requires
        0 <= k,
        2 <= radix <= 16,
    ensures
        digits_value(repeated('0', k) + s, radix) == digits_value(s, radix),
    decreases k + s.len(),
{
    let t = repeated('0', k) + s;
    if s.len() > 0 {
        assert(t.drop_last() =~= repeated('0', k) + s.drop_last());
        lemma_zeros_in_front(s.drop_last(), k, radix);
    } else if k > 0 {
        assert(t.drop_last() =~= repeated('0', k - 1) + s);
        lemma_zeros_in_front(s, k - 1, radix);
        assert(0 * radix == 0) by (nonlinear_arith);
    } else {
        assert(t =~= s);
    }
}

/// Reading a number that was written in hexadecimal with `0x` in front
/// gives the number.
pub proof fn lemma_hex_read_back(n: int, width: int)
    requires
        0 <= n <= u64::MAX,
    ensures
        number_value(seq!['0', 'x'] + hex_padded(n, width)) == Ok::<int, NumberError>(n),
        forall|i: int|
            0 <= i < hex_padded(n, width).len() ==> {
                let c = #[trigger] hex_padded(n, width)[i];
                '0' <= c <= '9' || 'A' <= c <= 'F'
            },
{
    let d = digits_of(n, 16);
    let h = hex_padded(n, width);
    let s = seq!['0', 'x'] + h;
    lemma_digits_read_back(n, 16);
    assert(s.skip(2) =~= h);
    if d.len() < width {
        lemma_zeros_in_front(d, width - d.len(), 16);
        assert forall|i: int| 0 <= i < h.len() implies {
            let c = #[trigger] h[i];
            '0' <= c <= '9' || 'A' <= c <= 'F'
        } by {
            if i >= width - d.len() {
                assert(h[i] == d[i - (width - d.len())]);
            }
        }
    }
    assert(s[0] == '0' && s[1] == 'x');
    assert(h.len() > 0 && h[0] != '+');
}

/// Reading a number that was written in decimal gives the number.
pub proof fn lemma_decimal_read_back(n: int)
    requires
        0 <= n <= u64::MAX,
    ensures
        number_value(digits_of(n, 10)) == Ok::<int, NumberError>(n),
        digits_of(n, 10).len() > 0,
        forall|i: int|
            0 <= i < digits_of(n, 10).len() ==> {
                let c = #[trigger] digits_of(n, 10)[i];
                '0' <= c <= '9' || 'A' <= c <= 'F'
            },
{
    lemma_digits_read_back(n, 10);
    let d = digits_of(n, 10);
    assert(d[0] != '+');
    if d.len() >= 2 {
        assert(d[1] != 'x' && d[1] != 'X');
    }
}

} // verus!
