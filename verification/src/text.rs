//! Decimal notation, as it appears in messages and in the progress line.

use vstd::prelude::*;

verus! {

/// The character of the decimal digit `d`.
pub open spec fn digit_char(d: nat) -> char {
    if d == 0 {
        '0'
    } else if d == 1 {
        '1'
    } else if d == 2 {
        '2'
    } else if d == 3 {
        '3'
    } else if d == 4 {
        '4'
    } else if d == 5 {
        '5'
    } else if d == 6 {
        '6'
    } else if d == 7 {
        '7'
    } else if d == 8 {
        '8'
    } else {
        '9'
    }
}

/// `n` in decimal, most significant digit first and without leading zeros.
pub open spec fn decimal_chars(n: nat) -> Seq<char>
    decreases n,
{
    if n < 10 {
        seq![digit_char(n)]
    } else {
        decimal_chars(n / 10).push(digit_char(n % 10))
    }
}

/// `chars`, filled up on the left with `fill` to at least `width` characters.
pub open spec fn padded_chars(chars: Seq<char>, fill: char, width: nat) -> Seq<char> {
    if chars.len() < width {
        Seq::new((width - chars.len()) as nat, |i: int| fill) + chars
    } else {
        chars
    }
}

/// The text of one decimal digit.
fn digit(d: u64) -> (text: &'static str)
    requires
        d < 10,
    ensures
        text@ =~= seq![digit_char(d as nat)],
{
    proof {
        reveal_strlit("0");
        reveal_strlit("1");
        reveal_strlit("2");
        reveal_strlit("3");
        reveal_strlit("4");
        reveal_strlit("5");
        reveal_strlit("6");
        reveal_strlit("7");
        reveal_strlit("8");
        reveal_strlit("9");
    }
    if d == 0 {
        "0"
    } else if d == 1 {
        "1"
    } else if d == 2 {
        "2"
    } else if d == 3 {
        "3"
    } else if d == 4 {
        "4"
    } else if d == 5 {
        "5"
    } else if d == 6 {
        "6"
    } else if d == 7 {
        "7"
    } else if d == 8 {
        "8"
    } else {
        "9"
    }
}

/// Writes `n` in decimal.
pub fn decimal(n: u64) -> (text: String)
    ensures
        text@ == decimal_chars(n as nat),
    decreases n,
{
    if n < 10 {
        let mut text = String::new();
        text.append(digit(n));
        assert(text@ =~= decimal_chars(n as nat));
        text
    } else {
        let mut text = decimal(n / 10);
        text.append(digit(n % 10));
        assert(text@ =~= decimal_chars(n as nat));
        text
    }
}

/// Writes `n` in decimal, right-aligned in a field of two characters that is
/// filled up with zeros.
pub fn decimal_two_digits(n: u64) -> (text: String)
    ensures
        text@ == padded_chars(decimal_chars(n as nat), '0', 2),
{
    let digits = decimal(n);
    if n < 10 {
        let mut text = String::new();
        text.append(digit(0));
        text.append(digits.as_str());
        assert(text@ =~= padded_chars(decimal_chars(n as nat), '0', 2));
        text
    } else {
        proof {
            lemma_decimal_len(n as nat);
        }
        digits
    }
}

/// Writes `n` in decimal, right-aligned in a field of three characters that is
/// filled up with blanks.
pub fn decimal_three_columns(n: u64) -> (text: String)
    ensures
        text@ == padded_chars(decimal_chars(n as nat), ' ', 3),
{
    proof {
        lemma_decimal_len(n as nat);
        reveal_strlit("  ");
        reveal_strlit(" ");
    }
    let digits = decimal(n);
    if n < 10 {
        let mut text = String::from_str("  ");
        text.append(digits.as_str());
        assert(text@ =~= padded_chars(decimal_chars(n as nat), ' ', 3));
        text
    } else if n < 100 {
        let mut text = String::from_str(" ");
        text.append(digits.as_str());
        assert(text@ =~= padded_chars(decimal_chars(n as nat), ' ', 3));
        text
    } else {
        digits
    }
}

/// A number has at least one digit, and from 10 on at least two, and from
/// 100 on at least three.
pub proof fn lemma_decimal_len(n: nat)
    ensures
        decimal_chars(n).len() >= 1,
        n >= 10 ==> decimal_chars(n).len() >= 2,
        n >= 100 ==> decimal_chars(n).len() >= 3,
        n < 10 ==> decimal_chars(n).len() == 1,
        10 <= n < 100 ==> decimal_chars(n).len() == 2,
        100 <= n < 1000 ==> decimal_chars(n).len() == 3,
    decreases n,
{
    if n >= 10 {
        lemma_decimal_len(n / 10);
    }
}

// ---------------------------------------------------------------------------
// Laws
// ---------------------------------------------------------------------------

/// The number that decimal digits stand for.
pub open spec fn value_of(chars: Seq<char>) -> int
    decreases chars.len(),
{
    if chars.len() == 0 {
        0
    } else {
        10 * value_of(chars.drop_last()) + (chars.last() as int - 48)
    }
}

/// A number in decimal consists of digits, does not start with a zero unless it
/// is zero, and reads back as that number.
pub proof fn law_decimal_reads_back(n: nat)
    ensures
        value_of(decimal_chars(n)) == n,
        decimal_chars(n).len() >= 1,
        forall|i: int|
            0 <= i < decimal_chars(n).len() ==> '0' <= #[trigger] decimal_chars(n)[i] <= '9',
        n > 0 ==> decimal_chars(n)[0] != '0',
        n == 0 ==> decimal_chars(n).len() == 1,
    decreases n,
{
    let chars = decimal_chars(n);
    lemma_digit(n % 10);
    if n < 10 {
        lemma_digit(n);
        assert(chars.drop_last() =~= Seq::empty());
        assert(value_of(Seq::empty()) == 0);
    } else {
        law_decimal_reads_back(n / 10);
        assert(chars.drop_last() =~= decimal_chars(n / 10));
        assert(chars[0] == decimal_chars(n / 10)[0]);
    }
}

proof fn lemma_digit(d: nat)
    requires
        d < 10,
    ensures
        digit_char(d) as int == 48 + d,
        '0' <= digit_char(d) <= '9',
        digit_char(d) == '0' <==> d == 0,
{
}

/// What is filled up is as wide as asked for, unless it is wider already: it
/// ends with the text, and has nothing but `fill` before that.
pub proof fn law_padding_comes_first(chars: Seq<char>, fill: char, width: nat)
    ensures
        ({
            let padded = padded_chars(chars, fill, width);
            let front = padded.len() - chars.len();
            &&& padded.len() >= width
            &&& front >= 0
            &&& chars.len() >= width ==> front == 0
            &&& chars.len() < width ==> padded.len() == width
            &&& padded.skip(front) == chars
            &&& forall|i: int| 0 <= i < front ==> #[trigger] padded[i] == fill
        }),
{
    let padded = padded_chars(chars, fill, width);
    assert(padded.skip(padded.len() - chars.len()) =~= chars);
}

} // verus!
