//! Decimal numerals: reading integers of a bounded type and writing them.
use crate::text;
use vstd::prelude::*;

verus! {

broadcast use vstd::seq_lib::group_seq_properties;

/// Why a text is not an integer of the wanted type.
#[derive(Clone, Copy, Debug, PartialEq, Eq, Structural)]
pub enum IntError {
    Empty,
    InvalidDigit,
    PosOverflow,
    NegOverflow,
}

impl IntError {
    /// The message that the error is reported with.
    pub open spec fn message(self) -> Seq<char> {
        match self {
            IntError::Empty => "cannot parse integer from empty string"@,
            IntError::InvalidDigit => "invalid digit found in string"@,
            IntError::PosOverflow => "number too large to fit in target type"@,
            IntError::NegOverflow => "number too small to fit in target type"@,
        }
    }

    /// The message that the error is reported with.
    pub fn text(&self) -> (r: &'static str)
        ensures
            r@ == self.message(),
    {
        match self {
            IntError::Empty => "cannot parse integer from empty string",
            IntError::InvalidDigit => "invalid digit found in string",
            IntError::PosOverflow => "number too large to fit in target type",
            IntError::NegOverflow => "number too small to fit in target type",
        }
    }
}

// ---------------------------------------------------------------------------
// Reading

pub open spec fn digit_value(c: char) -> int {
    c as int - '0' as int
}

pub open spec fn all_digits(s: Seq<char>) -> bool {
    forall|i: int| 0 <= i < s.len() ==> text::is_digit(#[trigger] s[i])
}

/// The number that a row of digits denotes.
pub open spec fn digits_value(s: Seq<char>) -> int
    decreases s.len(),
{
    if s.len() == 0 {
        0
    } else {
        10 * digits_value(s.drop_last()) + digit_value(s.last())
    }
}

/// Reads digits from left to right into a number from `min` to `max`, counting
/// downwards if `negative`; the first character that cannot be taken decides
/// the error.
pub open spec fn read_digits(s: Seq<char>, negative: bool, min: int, max: int) -> Result<
    int,
    IntError,
>
    decreases s.len(),
{
    if s.len() == 0 {
        Ok(0)
    } else {
        match read_digits(s.drop_last(), negative, min, max) {
            Err(e) => Err(e),
            Ok(v) => {
                let w = if negative {
                    10 * v - digit_value(s.last())
                } else {
                    10 * v + digit_value(s.last())
                };
                if !text::is_digit(s.last()) {
                    Err(IntError::InvalidDigit)
                } else if w > max {
                    Err(IntError::PosOverflow)
                } else if w < min {
                    Err(IntError::NegOverflow)
                } else {
                    Ok(w)
                }
            },
        }
    }
}

/// Reads an integer from `min` to `max`: digits after an optional sign, the
/// minus sign only where negative numbers are wanted.
pub open spec fn read_int(s: Seq<char>, min: int, max: int) -> Result<int, IntError> {
    if s.len() == 0 {
        Err(IntError::Empty)
    } else if s.len() == 1 && (s[0] == '+' || s[0] == '-') {
        Err(IntError::InvalidDigit)
    } else if s[0] == '+' {
        read_digits(s.drop_first(), false, min, max)
    } else if s[0] == '-' && min < 0 {
        read_digits(s.drop_first(), true, min, max)
    } else {
        read_digits(s, false, min, max)
    }
}

pub open spec fn read_i64(s: Seq<char>) -> Result<int, IntError> {
    read_int(s, i64::MIN as int, i64::MAX as int)
}

pub open spec fn read_usize(s: Seq<char>) -> Result<int, IntError> {
    read_int(s, 0, usize::MAX as int)
}

proof fn lemma_error_stays(s: Seq<char>, n: int, negative: bool, min: int, max: int)
    requires
        0 <= n <= s.len(),
        read_digits(s.take(n), negative, min, max) is Err,
    ensures
        read_digits(s, negative, min, max) == read_digits(s.take(n), negative, min, max),
    decreases s.len(),
{
    if n < s.len() {
        assert(s.drop_last().take(n) =~= s.take(n));
        lemma_error_stays(s.drop_last(), n, negative, min, max);
    } else {
        assert(s.take(n) =~= s);
    }
}

fn read_digits_from(s: &[char], from: usize, negative: bool, min: i128, max: i128) -> (r: Result<
    i128,
    IntError,
>)
    requires
        from <= s@.len(),
        -0x1_0000_0000_0000_0000 <= min <= 0 <= max <= 0x1_0000_0000_0000_0000,
    ensures
        match r {
            Ok(v) => read_digits(s@.skip(from as int), negative, min as int, max as int) == Ok::<
                int,
                IntError,
            >(v as int) && min <= v <= max,
            Err(e) => read_digits(s@.skip(from as int), negative, min as int, max as int) == Err::<
                int,
                IntError,
            >(e),
        },
{
    let ghost t = s@.skip(from as int);
    let mut v: i128 = 0;
    let mut i: usize = from;
    assert(t.take(0) =~= Seq::<char>::empty());
    while i < s.len()
        invariant
            from <= i <= s@.len(),
            t == s@.skip(from as int),
            -0x1_0000_0000_0000_0000 <= min <= v <= max <= 0x1_0000_0000_0000_0000,
            read_digits(t.take(i - from), negative, min as int, max as int) == Ok::<int, IntError>(
                v as int,
            ),
        decreases s@.len() - i,
    {
        let c = s[i];
        proof {
            assert(t.take(i - from + 1).drop_last() =~= t.take(i - from));
            assert(t.take(i - from + 1).last() == c);
        }
        if !text::digit(c) {
            proof {
                lemma_error_stays(t, i - from + 1, negative, min as int, max as int);
            }
            return Err(IntError::InvalidDigit);
        }
        let d: i128 = ((c as u8) - 48) as i128;
        let w: i128 = if negative {
            10 * v - d
        } else {
            10 * v + d
        };
        assert(d == digit_value(c));
        if w > max {
            proof {
                lemma_error_stays(t, i - from + 1, negative, min as int, max as int);
            }
            return Err(IntError::PosOverflow);
        }
        if w < min {
            proof {
                lemma_error_stays(t, i - from + 1, negative, min as int, max as int);
            }
            return Err(IntError::NegOverflow);
        }
        v = w;
        i = i + 1;
    }
    assert(t.take(t.len() as int) =~= t);
    Ok(v)
}

fn read_int_from(s: &[char], min: i128, max: i128) -> (r: Result<i128, IntError>)
    requires
        -0x1_0000_0000_0000_0000 <= min <= 0 <= max <= 0x1_0000_0000_0000_0000,
    ensures
        match r {
            Ok(v) => read_int(s@, min as int, max as int) == Ok::<int, IntError>(v as int) && min
                <= v <= max,
            Err(e) => read_int(s@, min as int, max as int) == Err::<int, IntError>(e),
        },
{
    proof {
        assert(s@.skip(0) =~= s@);
        assert(s@.len() > 0 ==> s@.skip(1) =~= s@.drop_first());
    }
    if s.len() == 0 {
        Err(IntError::Empty)
    } else if s.len() == 1 && (s[0] == '+' || s[0] == '-') {
        Err(IntError::InvalidDigit)
    } else if s[0] == '+' {
        read_digits_from(s, 1, false, min, max)
    } else if s[0] == '-' && min < 0 {
        read_digits_from(s, 1, true, min, max)
    } else {
        read_digits_from(s, 0, false, min, max)
    }
}

/// Reads an `i64`.
pub fn parse_i64(s: &str) -> (r: Result<i64, IntError>)
    ensures
        match r {
            Ok(v) => read_i64(s@) == Ok::<int, IntError>(v as int),
            Err(e) => read_i64(s@) == Err::<int, IntError>(e),
        },
{
    let v = text::chars_of(s);
    match read_int_from(v.as_slice(), i64::MIN as i128, i64::MAX as i128) {
        Ok(n) => Ok(n as i64),
        Err(e) => Err(e),
    }
}

/// Reads a `usize`.
pub fn parse_usize(s: &str) -> (r: Result<usize, IntError>)
    ensures
        match r {
            Ok(v) => read_usize(s@) == Ok::<int, IntError>(v as int),
            Err(e) => read_usize(s@) == Err::<int, IntError>(e),
        },
{
    let v = text::chars_of(s);
    match read_int_from(v.as_slice(), 0, usize::MAX as i128) {
        Ok(n) => Ok(n as usize),
        Err(e) => Err(e),
    }
}

// ---------------------------------------------------------------------------
// Writing

pub open spec fn digit_char(d: int) -> char {
    (d + '0' as int) as char
}

/// The digits of `n`, without leading zeros.
pub open spec fn decimal(n: nat) -> Seq<char>
    decreases n,
{
    if n < 10 {
        seq![digit_char(n as int)]
    } else {
        decimal(n / 10).push(digit_char((n % 10) as int))
    }
}

/// `v` in decimal, with a minus sign where it is negative.
pub open spec fn int_text(v: int) -> Seq<char> {
    if v < 0 {
        seq!['-'] + decimal((-v) as nat)
    } else {
        decimal(v as nat)
    }
}

pub open spec fn zeros(n: nat) -> Seq<char> {
    Seq::new(n, |i: int| '0')
}

/// `digits` behind as many zeros as bring it to `width` characters.
pub open spec fn zero_filled(digits: Seq<char>, width: nat) -> Seq<char> {
    if digits.len() < width {
        zeros((width - digits.len()) as nat) + digits
    } else {
        digits
    }
}

/// `v` in decimal, brought to `width` characters by zeros between its sign and
/// its digits.
pub open spec fn padded(v: int, width: nat) -> Seq<char> {
    if v < 0 {
        seq!['-'] + zero_filled(decimal((-v) as nat), (width - 1) as nat)
    } else {
        zero_filled(decimal(v as nat), width)
    }
}

/// `n` in decimal.
pub fn decimal_text(n: u128) -> (r: String)
    ensures
        r@ == decimal(n as nat),
    decreases n,
{
    let mut s = if n < 10 {
        String::new()
    } else {
        decimal_text(n / 10)
    };
    let d: u8 = (n % 10) as u8;
    s.push((d + 48) as char);
    proof {
        assert(n < 10 ==> s@ =~= seq![digit_char(n as int)]);
    }
    s
}

fn magnitude(v: i64) -> (r: u128)
    ensures
        r == (if v < 0 {
            -v
        } else {
            v as int
        }),
{
    if v < 0 {
        (-(v as i128)) as u128
    } else {
        v as u128
    }
}

/// `v` in decimal.
pub fn i64_text(v: i64) -> (r: String)
    ensures
        r@ == int_text(v as int),
{
    let digits = decimal_text(magnitude(v));
    if v < 0 {
        let mut s = String::new();
        s.push('-');
        s.append(digits.as_str());
        assert(s@ =~= seq!['-'] + digits@);
        s
    } else {
        digits
    }
}

/// `v` in decimal, at least `width` characters long.
pub fn padded_text(v: i64, width: usize) -> (r: String)
    requires
        width >= 1,
    ensures
        r@ == padded(v as int, width as nat),
{
    let digits = decimal_text(magnitude(v));
    let len: usize = text::chars_of(digits.as_str()).len();
    let mut s = String::new();
    let room: usize = if v < 0 {
        width - 1
    } else {
        width
    };
    if v < 0 {
        s.push('-');
    }
    let ghost sign = s@;
    let mut k: usize = len;
    while k < room
        invariant
            len <= k,
            len < room ==> k <= room,
            len >= room ==> k == len,
            s@ == sign + zeros((k - len) as nat),
        decreases room - k,
    {
        s.push('0');
        k = k + 1;
        assert(s@ =~= sign + zeros((k - len) as nat));
    }
    s.append(digits.as_str());
    proof {
        if v < 0 {
            assert(s@ =~= seq!['-'] + zero_filled(digits@, room as nat));
        } else {
            assert(s@ =~= zero_filled(digits@, room as nat));
        }
    }
    s
}

// ---------------------------------------------------------------------------
// Laws

/// What is written in digits reads back as the same digits.
pub proof fn lemma_decimal_digits(n: nat)
    ensures
        decimal(n).len() >= 1,
        all_digits(decimal(n)),
        digits_value(decimal(n)) == n,
    decreases n,
{
    if n < 10 {
        assert(decimal(n).drop_last() =~= Seq::<char>::empty());
        assert(digits_value(Seq::<char>::empty()) == 0);
    } else {
        lemma_decimal_digits(n / 10);
        assert(decimal(n).drop_last() =~= decimal(n / 10));
    }
}

/// Digits hold no other character.
pub proof fn lemma_digits_lack(s: Seq<char>, c: char)
    requires
        all_digits(s),
        !text::is_digit(c),
    ensures
        !s.contains(c),
{
}

/// Zeros in front of digits do not change their value.
pub proof fn lemma_zeros_in_front(k: nat, s: Seq<char>)
    requires
        all_digits(s),
    ensures
        all_digits(zeros(k) + s),
        digits_value(zeros(k) + s) == digits_value(s),
    decreases k + s.len(),
{
    let t = zeros(k) + s;
    if s.len() > 0 {
        lemma_zeros_in_front(k, s.drop_last());
        assert(t.drop_last() =~= zeros(k) + s.drop_last());
    } else if k > 0 {
        lemma_zeros_in_front((k - 1) as nat, s);
        assert(t.drop_last() =~= zeros((k - 1) as nat) + s);
        assert(t.last() == '0');
    }
}

proof fn lemma_value_nonnegative(s: Seq<char>)
    requires
        all_digits(s),
    ensures
        digits_value(s) >= 0,
    decreases s.len(),
{
    if s.len() > 0 {
        lemma_value_nonnegative(s.drop_last());
    }
}

/// A row of digits is read exactly where its value lies in the range, and then
/// as that value, with the sign asked for.
pub proof fn law_digits_read(s: Seq<char>, negative: bool, min: int, max: int)
    requires
        min <= 0 <= max,
    ensures
        read_digits(s, negative, min, max) is Ok <==> all_digits(s) && min <= (if negative {
            -digits_value(s)
        } else {
            digits_value(s)
        }) <= max,
        read_digits(s, negative, min, max) matches Ok(v) ==> v == if negative {
            -digits_value(s)
        } else {
            digits_value(s)
        },
    decreases s.len(),
{
    if s.len() > 0 {
        let t = s.drop_last();
        law_digits_read(t, negative, min, max);
        if all_digits(s) {
            assert(all_digits(t));
            lemma_value_nonnegative(t);
        }
        if all_digits(t) && text::is_digit(s.last()) {
            assert forall|i: int| 0 <= i < s.len() implies text::is_digit(#[trigger] s[i]) by {
                if i < t.len() {
                    assert(t[i] == s[i]);
                }
            }
        }
    }
}

/// What is read lies in the range asked for.
pub proof fn lemma_read_in_range(s: Seq<char>, min: int, max: int)
    requires
        min <= 0 <= max,
    ensures
        read_int(s, min, max) matches Ok(v) ==> min <= v <= max,
{
    law_digits_read(s, false, min, max);
    law_digits_read(s.drop_first(), false, min, max);
    law_digits_read(s.drop_first(), true, min, max);
}

/// An integer that is written in decimal reads back as itself.
pub proof fn law_int_text_reads_back(v: int, min: int, max: int)
    requires
        min <= 0 <= max,
        min <= v <= max,
    ensures
        read_int(int_text(v), min, max) == Ok::<int, IntError>(v),
{
    let n: nat = if v < 0 {
        (-v) as nat
    } else {
        v as nat
    };
    let s = decimal(n);
    lemma_decimal_digits(n);
    law_digits_read(s, v < 0, min, max);
    assert(text::is_digit(s[0]));
    if v < 0 {
        assert(int_text(v).drop_first() =~= s);
    }
}

/// A number that is not negative and padded with zeros reads back as itself.
pub proof fn law_padded_reads_back(v: int, width: nat, min: int, max: int)
    requires
        min <= 0 <= v <= max,
    ensures
        read_int(padded(v, width), min, max) == Ok::<int, IntError>(v),
        all_digits(padded(v, width)),
        padded(v, width).len() >= 1,
{
    let s = decimal(v as nat);
    lemma_decimal_digits(v as nat);
    if s.len() < width {
        lemma_zeros_in_front((width - s.len()) as nat, s);
    }
    let t = padded(v, width);
    law_digits_read(t, false, min, max);
    assert(text::is_digit(t[0]));
}

/// Digits alone, or behind a plus sign, read as the number that they denote, if
/// it is not too large.
pub proof fn law_unsigned_numeral(d: Seq<char>, min: int, max: int)
    requires
        min <= 0 <= max,
        d.len() > 0,
        all_digits(d),
    ensures
        ({
            let want = if digits_value(d) <= max {
                Ok(digits_value(d))
            } else {
                Err(IntError::PosOverflow)
            };
            read_int(d, min, max) == want && read_int(seq!['+'] + d, min, max) == want
        }),
{
    lemma_digits_or_overflow(d, false, min, max);
    assert((seq!['+'] + d).drop_first() =~= d);
    assert(text::is_digit(d[0]));
}

/// Digits behind a minus sign read as the negative of the number that they
/// denote, if it is not too small. Where no negative number is wanted the minus
/// sign is no digit.
pub proof fn law_negative_numeral(d: Seq<char>, min: int, max: int)
    requires
        min <= 0 <= max,
        d.len() > 0,
        all_digits(d),
    ensures
        read_int(seq!['-'] + d, min, max) == if min == 0 {
            Err(IntError::InvalidDigit)
        } else if -digits_value(d) >= min {
            Ok(-digits_value(d))
        } else {
            Err(IntError::NegOverflow)
        },
{
    let s = seq!['-'] + d;
    assert(s.drop_first() =~= d);
    lemma_digits_or_overflow(d, true, min, max);
    if min == 0 {
        assert(s.take(1).drop_last() =~= Seq::<char>::empty());
        assert(s.take(1).last() == '-');
        assert(read_digits(Seq::<char>::empty(), false, min, max) == Ok::<int, IntError>(0));
        assert(read_digits(s.take(1), false, min, max) == Err::<int, IntError>(
            IntError::InvalidDigit,
        ));
        lemma_error_stays(s, 1, false, min, max);
        assert(s[0] == '-' && s.len() > 1);
    }
}

/// Nothing, and a sign alone, are no integers.
pub proof fn law_no_numeral(min: int, max: int)
    ensures
        read_int(Seq::empty(), min, max) == Err::<int, IntError>(IntError::Empty),
        read_int(seq!['+'], min, max) == Err::<int, IntError>(IntError::InvalidDigit),
        read_int(seq!['-'], min, max) == Err::<int, IntError>(IntError::InvalidDigit),
{
}

/// What is read as an integer is made of digits behind at most one sign.
pub proof fn law_integers_are_numerals(s: Seq<char>, min: int, max: int)
    requires
        min <= 0 <= max,
        read_int(s, min, max) is Ok,
    ensures
        s.len() > 0,
        all_digits(s) || (s.len() > 1 && (s[0] == '+' || s[0] == '-') && all_digits(
            s.drop_first(),
        )),
{
    law_digits_read(s, false, min, max);
    law_digits_read(s.drop_first(), false, min, max);
    law_digits_read(s.drop_first(), true, min, max);
}

/// Where digits that can be taken are followed by something else, that is what
/// is wrong, whatever comes behind it.
pub proof fn law_first_wrong_digit_counts(d: Seq<char>, c: char, rest: Seq<char>, min: int, max: int)
    requires
        min <= 0 <= max,
        d.len() > 0,
        all_digits(d),
        digits_value(d) <= max,
        !text::is_digit(c),
    ensures
        read_int(d + seq![c] + rest, min, max) == Err::<int, IntError>(IntError::InvalidDigit),
{
    let s = d + seq![c] + rest;
    let n = d.len() + 1;
    lemma_value_nonnegative(d);
    law_digits_read(d, false, min, max);
    assert(s.take(n as int).drop_last() =~= d);
    assert(s.take(n as int).last() == c);
    lemma_error_stays(s, n as int, false, min, max);
    assert(s[0] == d[0]);
    assert(text::is_digit(d[0]));
}

proof fn lemma_digits_or_overflow(d: Seq<char>, negative: bool, min: int, max: int)
    requires
        min <= 0 <= max,
        all_digits(d),
    ensures
        read_digits(d, negative, min, max) == if negative {
            if -digits_value(d) >= min {
                Ok(-digits_value(d))
            } else {
                Err(IntError::NegOverflow)
            }
        } else {
            if digits_value(d) <= max {
                Ok(digits_value(d))
            } else {
                Err(IntError::PosOverflow)
            }
        },
    decreases d.len(),
{
    if d.len() > 0 {
        let t = d.drop_last();
        assert(all_digits(t));
        assert(text::is_digit(d.last()));
        lemma_value_nonnegative(t);
        lemma_value_nonnegative(d);
        lemma_digits_or_overflow(t, negative, min, max);
    }
}

/// Digits count by tens.
pub proof fn law_digits_count_by_tens(s: Seq<char>, d: int)
    requires
        0 <= d <= 9,
    ensures
        text::is_digit(digit_char(d)),
        digit_char(d) as int == 48 + d,
        digits_value(s.push(digit_char(d))) == 10 * digits_value(s) + d,
        digits_value(Seq::empty()) == 0,
{
    assert(s.push(digit_char(d)).drop_last() =~= s);
}

/// Numbers are written without leading zeros.
pub proof fn law_no_leading_zero(n: nat)
    ensures
        n > 0 ==> decimal(n)[0] != '0',
        n == 0 ==> decimal(n) == seq!['0'],
        all_digits(decimal(n)),
        digits_value(decimal(n)) == n,
    decreases n,
{
    lemma_decimal_digits(n);
    if n >= 10 {
        law_no_leading_zero(n / 10);
        lemma_decimal_digits(n / 10);
        assert(decimal(n)[0] == decimal(n / 10)[0]);
    }
}

/// A padded number is as long as asked for, or as long as it is without padding
/// if that is longer; it reads back as itself, also behind a minus sign.
pub proof fn law_padding(v: int, width: nat, min: int, max: int)
    requires
        min <= 0 <= max,
        min <= v <= max,
        width >= 1,
    ensures
        padded(v, width).len() == if int_text(v).len() < width {
            width
        } else {
            int_text(v).len()
        },
        int_text(v).len() >= width ==> padded(v, width) == int_text(v),
        read_int(padded(v, width), min, max) == Ok::<int, IntError>(v),
        (padded(v, width)[0] == '-') == (v < 0),
{
    if v < 0 {
        let size = (-v) as nat;
        let digits = decimal(size);
        let room = (width - 1) as nat;
        lemma_decimal_digits(size);
        if digits.len() < room {
            lemma_zeros_in_front((room - digits.len()) as nat, digits);
        }
        law_negative_numeral(zero_filled(digits, room), min, max);
    } else {
        law_padded_reads_back(v, width, min, max);
        assert(text::is_digit(padded(v, width)[0]));
    }
}

/// Where the digits behind a sign or without one can be taken up to a place, and
/// the next character cannot, that character decides what is wrong, whatever
/// follows it.
pub proof fn law_first_trouble_decides(d: Seq<char>, c: char, rest: Seq<char>, min: int, max: int)
    requires
        min <= 0 <= max,
        all_digits(d),
    ensures
        ({
            let s = d + seq![c] + rest;
            let v = 10 * digits_value(d) + digit_value(c);
            let fits = digits_value(d) <= max;
            let digit = text::is_digit(c);
            &&& fits && !digit ==> read_int(seq!['+'] + s, min, max) == Err::<int, IntError>(
                IntError::InvalidDigit,
            )
            &&& fits && digit && v > max ==> read_int(seq!['+'] + s, min, max) == Err::<
                int,
                IntError,
            >(IntError::PosOverflow)
            &&& fits && digit && v > max ==> read_int(s, min, max) == Err::<int, IntError>(
                IntError::PosOverflow,
            )
            &&& d.len() == 0 && !digit && c != '+' && c != '-' ==> read_int(s, min, max) == Err::<
                int,
                IntError,
            >(IntError::InvalidDigit)
            &&& min < 0 && -digits_value(d) >= min && !digit ==> read_int(seq!['-'] + s, min, max)
                == Err::<int, IntError>(IntError::InvalidDigit)
            &&& min < 0 && -digits_value(d) >= min && digit && -v < min ==> read_int(
                seq!['-'] + s,
                min,
                max,
            ) == Err::<int, IntError>(IntError::NegOverflow)
            &&& min == 0 ==> read_int(seq!['-'] + s, min, max) == Err::<int, IntError>(
                IntError::InvalidDigit,
            )
        }),
{
    let s = d + seq![c] + rest;
    let n = d.len() as int + 1;
    let head = s.take(n);
    lemma_value_nonnegative(d);
    lemma_digits_or_overflow(d, false, min, max);
    lemma_digits_or_overflow(d, true, min, max);
    assert(head.drop_last() =~= d);
    assert(head.last() == c);
    assert((seq!['+'] + s).drop_first() =~= s);
    assert((seq!['-'] + s).drop_first() =~= s);
    if d.len() > 0 {
        assert(text::is_digit(d[0]));
        assert(s[0] == d[0]);
    } else {
        assert(s[0] == c);
    }
    if read_digits(head, false, min, max) is Err {
        lemma_error_stays(s, n, false, min, max);
    }
    if read_digits(head, true, min, max) is Err {
        lemma_error_stays(s, n, true, min, max);
    }
    if min == 0 {
        let t = seq!['-'] + s;
        assert(t.take(1).drop_last() =~= Seq::<char>::empty());
        assert(t.take(1).last() == '-');
        assert(read_digits(Seq::<char>::empty(), false, min, max) == Ok::<int, IntError>(0));
        assert(read_digits(t.take(1), false, min, max) == Err::<int, IntError>(
            IntError::InvalidDigit,
        ));
        lemma_error_stays(t, 1, false, min, max);
        assert(t[0] == '-' && t.len() > 1);
    }
}

/// An integer is written as its digits, behind a minus sign where it is
/// negative, and without any other sign.
pub proof fn law_int_text(v: int)
    ensures
        v >= 0 ==> all_digits(int_text(v)) && digits_value(int_text(v)) == v,
        v > 0 ==> int_text(v)[0] != '0',
        v == 0 ==> int_text(v) == seq!['0'],
        v < 0 ==> int_text(v) == seq!['-'] + int_text(-v),
{
    if v >= 0 {
        law_no_leading_zero(v as nat);
    }
}

} // verus!
