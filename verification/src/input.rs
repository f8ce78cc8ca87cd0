//! Numbers typed into a text box: what is no digit is dropped, the digits are
//! read as a decimal number.

use vstd::prelude::*;

verus! {

/// `String::push`: appends one character to the end of the string.
pub assume_specification[ String::push ](s: &mut String, ch: char)
    ensures
        final(s)@ == old(s)@.push(ch),
;

/// `c` is one of the ten decimal digits.
pub open spec fn is_decimal_digit(c: char) -> bool {
    '0' <= c <= '9'
}

/// The number that the decimal digit `c` stands for.
pub open spec fn digit_value(c: char) -> nat {
    (c as u32 - '0' as u32) as nat
}

/// The digits of `s`, in their order.
pub open spec fn digits_of(s: Seq<char>) -> Seq<char> {
    s.filter(|c: char| is_decimal_digit(c))
}

/// The number that the digits of `s` spell in decimal; zero where there are none.
pub open spec fn number_of(s: Seq<char>) -> nat
    decreases s.len(),
{
    if s.len() == 0 {
        0
    } else if is_decimal_digit(s.last()) {
        number_of(s.drop_last()) * 10 + digit_value(s.last())
    } else {
        number_of(s.drop_last())
    }
}

/// A longer text spells no smaller a number.
pub proof fn lemma_number_grows(s: Seq<char>, n: int)
    requires
        0 <= n <= s.len(),
    ensures
        number_of(s.take(n)) <= number_of(s),
    decreases s.len() - n,
{
    if n < s.len() {
        lemma_number_grows(s, n + 1);
        let longer = s.take(n + 1);
        assert(longer.drop_last() =~= s.take(n));
        assert(number_of(longer) >= number_of(s.take(n))) by (nonlinear_arith)
            requires
                number_of(longer) == number_of(s.take(n)) * 10 + digit_value(longer.last())
                    || number_of(longer) == number_of(s.take(n)),
        ;
    } else {
        assert(s.take(n) =~= s);
    }
}

/// Whether `c` is one of the ten decimal digits.
fn is_digit(c: char) -> (digit: bool)
    ensures
        digit == is_decimal_digit(c),
{
    '0' <= c && c <= '9'
}

/// The digits of `input`, in their order; everything else is dropped.
pub fn clean_input(input: &str) -> (res: String)
    ensures
        res@ == digits_of(input@),
{
    broadcast use vstd::string::group_string_axioms;

    let mut res = String::new();
    let ghost pred = |c: char| is_decimal_digit(c);
    proof {
        reveal(Seq::filter);
        assert(input@.take(0) =~= Seq::<char>::empty());
    }
    for c in it: input.chars()
        invariant
            it.seq() == input@,
            pred == (|c: char| is_decimal_digit(c)),
            res@ == input@.take(it.index() as int).filter(pred),
    {
        proof {
            reveal(Seq::filter);
            let n = it.index() as int;
            assert(input@.take(n + 1).drop_last() =~= input@.take(n));
            assert(input@.take(n + 1).last() == c);
        }
        if is_digit(c) {
            res.push(c);
        }
    }
    assert(input@.take(input@.len() as int) =~= input@);
    return res;
}

/// The number that a decimal digit stands for.
fn to_digit(c: char) -> (value: u32)
    requires
        is_decimal_digit(c),
    ensures
        value == digit_value(c),
        value <= 9,
{
    c as u32 - '0' as u32
}

/// Whether the number that the digits of `input` spell fits in 32 bits, which
/// is what `input_to_number` asks for.
pub fn input_in_range(input: &str) -> (fits: bool)
    ensures
        fits == (number_of(input@) <= u32::MAX),
{
    broadcast use vstd::string::group_string_axioms;

    let mut acc: u64 = 0;
    proof {
        assert(input@.take(0) =~= Seq::<char>::empty());
    }
    for c in it: input.chars()
        invariant
            it.seq() == input@,
            acc == number_of(input@.take(it.index() as int)),
            acc <= u32::MAX,
    {
        proof {
            let n = it.index() as int;
            assert(input@.take(n + 1).drop_last() =~= input@.take(n));
            assert(input@.take(n + 1).last() == c);
        }
        if is_digit(c) {
            acc = acc * 10 + to_digit(c) as u64;
            if acc > u32::MAX as u64 {
                proof {
                    lemma_number_grows(input@, it.index() + 1);
                }
                return false;
            }
        }
    }
    assert(input@.take(input@.len() as int) =~= input@);
    true
}

/// The number that the digits of `input` spell in decimal; whatever is no
/// digit is passed over. The number must fit in 32 bits.
pub fn input_to_number(input: &str) -> (res: u32)
    requires
        number_of(input@) <= u32::MAX,
    ensures
        res == number_of(input@),
{
    broadcast use vstd::string::group_string_axioms;

    let mut res: u32 = 0;
    proof {
        assert(input@.take(0) =~= Seq::<char>::empty());
    }
    for c in it: input.chars()
        invariant
            it.seq() == input@,
            number_of(input@) <= u32::MAX,
            res == number_of(input@.take(it.index() as int)),
    {
        proof {
            let n = it.index() as int;
            assert(input@.take(n + 1).drop_last() =~= input@.take(n));
            assert(input@.take(n + 1).last() == c);
            lemma_number_grows(input@, n + 1);
        }
        if is_digit(c) {
            res *= 10;
            res += to_digit(c);
        }
    }
    assert(input@.take(input@.len() as int) =~= input@);
    return res;
}

} // verus!
