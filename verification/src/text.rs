//! Text the core produces: decimal and hexadecimal numbers for error messages
//! and log lines, and the decoding of UTF-8 that arrives from outside.
use vstd::prelude::*;
use vstd::string::StringExecFns;

verus! {

// ---------------------------------------------------------------------------
// Model
// ---------------------------------------------------------------------------

/// The lower-case hexadecimal digit of a value below 16.
pub open spec fn hex_char(digit: int) -> char {
    if digit < 10 {
        (0x30 + digit) as char
    } else {
        (0x57 + digit) as char
    }
}

/// `value` in decimal, without leading zeros.
pub open spec fn decimal_chars(value: nat) -> Seq<char>
    decreases value,
{
    if value < 10 {
        seq![hex_char(value as int)]
    } else {
        decimal_chars(value / 10).push(hex_char((value % 10) as int))
    }
}

/// `value` in decimal, with a minus sign where it is negative.
pub open spec fn signed_chars(value: int) -> Seq<char> {
    if value < 0 {
        "-"@ + decimal_chars((-value) as nat)
    } else {
        decimal_chars(value as nat)
    }
}

/// The `width` low hexadecimal digits of `value`, leading zeros kept.
pub open spec fn hex_digits(value: nat, width: nat) -> Seq<char>
    decreases width,
{
    if width == 0 {
        Seq::empty()
    } else {
        hex_digits(value / 16, (width - 1) as nat).push(hex_char((value % 16) as int))
    }
}

/// Two hexadecimal digits for each byte.
pub open spec fn hex_chars(bytes: Seq<u8>) -> Seq<char>
    decreases bytes.len(),
{
    if bytes.len() == 0 {
        Seq::empty()
    } else {
        hex_chars(bytes.drop_last()) + hex_digits(bytes.last() as nat, 2)
    }
}

// ---------------------------------------------------------------------------
// Numbers
// ---------------------------------------------------------------------------

/// One hexadecimal digit.
fn digit(value: u8) -> (text: &'static str)
    requires
        value < 16,
    ensures
        text@ == seq![hex_char(value as int)],
{
    proof {
        reveal_strlit("0");
        reveal_strlit("1");
        reveal_strlit("2");
        reveal_strlit("3");
        reveal_strlit("4");
        reveal_strlit("5");
        reveal_strlit("6");
        reveal_strlit("7");
        reveal_strlit("8");
        reveal_strlit("9");
        reveal_strlit("a");
        reveal_strlit("b");
        reveal_strlit("c");
        reveal_strlit("d");
        reveal_strlit("e");
        reveal_strlit("f");
    }
    match value {
        0 => "0",
        1 => "1",
        2 => "2",
        3 => "3",
        4 => "4",
        5 => "5",
        6 => "6",
        7 => "7",
        8 => "8",
        9 => "9",
        10 => "a",
        11 => "b",
        12 => "c",
        13 => "d",
        14 => "e",
        _ => "f",
    }
}

/// `value` in decimal.
pub fn decimal(value: u64) -> (text: String)
    ensures
        text@ == decimal_chars(value as nat),
    decreases value,
{
    let mut text: String = if value < 10 {
        String::new()
    } else {
        decimal(value / 10)
    };
    text.append(digit((value % 10) as u8));
    assert(text@ =~= decimal_chars(value as nat));
    text
}

/// A signed `value` in decimal.
pub fn signed_decimal(value: i32) -> (text: String)
    ensures
        text@ == signed_chars(value as int),
{
    if value < 0 {
        let magnitude: u64 = (-(value as i64)) as u64;
        let mut text: String = "-".to_owned();
        text.append(decimal(magnitude).as_str());
        text
    } else {
        decimal(value as u64)
    }
}

/// The `width` low hexadecimal digits of `value`.
pub fn hex(value: u64, width: usize) -> (text: String)
    ensures
        text@ == hex_digits(value as nat, width as nat),
    decreases width,
{
    if width == 0 {
        String::new()
    } else {
        let mut text: String = hex(value / 16, width - 1);
        text.append(digit((value % 16) as u8));
        assert(text@ =~= hex_digits(value as nat, width as nat));
        text
    }
}

/// Two hexadecimal digits for each of the first `count` bytes.
pub fn hex_prefix(bytes: &[u8], count: usize) -> (text: String)
    requires
        count <= bytes@.len(),
    ensures
        text@ == hex_chars(bytes@.subrange(0, count as int)),
{
    let mut text: String = String::new();
    let mut i: usize = 0;
    while i < count
        invariant
            i <= count <= bytes@.len(),
            text@ == hex_chars(bytes@.subrange(0, i as int)),
        decreases count - i,
    {
        text.append(hex(bytes[i] as u64, 2).as_str());
        proof {
            let longer = bytes@.subrange(0, i + 1);
            assert(longer.drop_last() =~= bytes@.subrange(0, i as int));
            assert(longer.last() == bytes@[i as int]);
        }
        i = i + 1;
    }
    text
}

// ---------------------------------------------------------------------------
// UTF-8
// ---------------------------------------------------------------------------

/// `std::str::from_utf8`, as an owned string: it succeeds on exactly the byte
/// strings that are well-formed UTF-8, and the text is what they encode.
#[verifier::external_body]
pub(crate) fn utf8_text(bytes: &[u8]) -> (text: Option<String>)
    ensures
        text is Some <==> vstd::utf8::valid_utf8(bytes@),
        text matches Some(s) ==> s@ == vstd::utf8::decode_utf8(bytes@)
            && vstd::utf8::encode_utf8(s@) == bytes@,
{
    std::str::from_utf8(bytes).ok().map(|s| s.to_owned())
}

// ---------------------------------------------------------------------------
// Laws
// ---------------------------------------------------------------------------

/// The digit that a character stands for, in any base up to sixteen.
pub open spec fn digit_of(c: char) -> int {
    if '0' <= c <= '9' {
        c as int - '0' as int
    } else {
        c as int - 'a' as int + 10
    }
}

/// The number that digits stand for.
pub open spec fn number_of(digits: Seq<char>, base: int) -> int
    decreases digits.len(),
{
    if digits.len() == 0 {
        0
    } else {
        number_of(digits.drop_last(), base) * base + digit_of(digits.last())
    }
}

proof fn lemma_digit(digit: int)
    requires
        0 <= digit < 16,
    ensures
        digit_of(hex_char(digit)) == digit,
        '0' <= hex_char(digit) <= '9' || 'a' <= hex_char(digit) <= 'f',
        digit < 10 ==> '0' <= hex_char(digit) <= '9',
{
}

/// A decimal number reads back as what was written, in decimal digits, and does not
/// start with a zero unless it is zero.
pub proof fn law_decimal_reads_back(value: nat)
    ensures
        number_of(decimal_chars(value), 10) == value,
        decimal_chars(value).len() > 0,
        value > 0 ==> decimal_chars(value)[0] != '0',
        forall|i: int|
            0 <= i < decimal_chars(value).len() ==> '0' <= #[trigger] decimal_chars(value)[i]
                <= '9',
    decreases value,
{
    if value < 10 {
        let digits = decimal_chars(value);
        lemma_digit(value as int);
        assert(digits.drop_last() =~= Seq::<char>::empty());
        assert(number_of(digits.drop_last(), 10) == 0);
    } else {
        let digits = decimal_chars(value);
        law_decimal_reads_back(value / 10);
        lemma_digit((value % 10) as int);
        assert(digits.drop_last() =~= decimal_chars(value / 10));
    }
}

/// Hexadecimal digits read back as what was written, as many as were asked for.
pub proof fn law_hex_reads_back(value: nat, width: nat)
    ensures
        hex_digits(value, width).len() == width,
        width == 2 && value < 256 ==> number_of(hex_digits(value, width), 16) == value,
        forall|i: int|
            0 <= i < width ==> {
                let c = #[trigger] hex_digits(value, width)[i];
                '0' <= c <= '9' || 'a' <= c <= 'f'
            },
    decreases width,
{
    if width > 0 {
        let digits = hex_digits(value, width);
        law_hex_reads_back(value / 16, (width - 1) as nat);
        lemma_digit((value % 16) as int);
        assert(digits.drop_last() =~= hex_digits(value / 16, (width - 1) as nat));
        if width == 2 && value < 256 {
            let high = hex_digits(value / 16, 1);
            lemma_digit((value / 16 % 16) as int);
            assert(high.drop_last() =~= Seq::<char>::empty());
            assert(number_of(high.drop_last(), 16) == 0);
            assert(number_of(high, 16) == value / 16);
        }
    }
}

/// Each byte is two hexadecimal digits, in order, which read back as the byte.
pub proof fn law_bytes_are_two_digits_each(bytes: Seq<u8>, at: int)
    requires
        0 <= at < bytes.len(),
    ensures
        hex_chars(bytes).len() == 2 * bytes.len(),
        number_of(hex_chars(bytes).subrange(2 * at, 2 * at + 2), 16) == bytes[at],
    decreases bytes.len(),
{
    let rest = bytes.drop_last();
    let last = hex_digits(bytes.last() as nat, 2);
    law_hex_reads_back(bytes.last() as nat, 2);
    if rest.len() > 0 {
        law_bytes_are_two_digits_each(
            rest,
            if at < rest.len() {
                at
            } else {
                0
            },
        );
    } else {
        assert(hex_chars(rest).len() == 0);
    }
    if at < rest.len() {
        assert(hex_chars(bytes).subrange(2 * at, 2 * at + 2) =~= hex_chars(rest).subrange(
            2 * at,
            2 * at + 2,
        ));
    } else {
        assert(hex_chars(bytes).subrange(2 * at, 2 * at + 2) =~= last);
    }
}

/// A negative number is a minus sign and the number without it.
pub proof fn law_signed_reads_back(value: int)
    ensures
        value >= 0 ==> number_of(signed_chars(value), 10) == value,
        value < 0 ==> signed_chars(value).len() > 1 && signed_chars(value)[0] == '-' && number_of(
            signed_chars(value).skip(1),
            10,
        ) == -value,
{
    reveal_strlit("-");
    if value >= 0 {
        law_decimal_reads_back(value as nat);
    } else {
        law_decimal_reads_back((-value) as nat);
        assert(signed_chars(value).skip(1) =~= decimal_chars((-value) as nat));
    }
}

} // verus!
