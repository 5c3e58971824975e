//! The names of the part files: the input's path, `_part_`, the part's index
//! in decimal without padding, and `.log`.

use vstd::prelude::*;

verus! {

/// The character for one decimal digit.
pub open spec fn digit_char(digit: nat) -> char {
    if digit == 0 {
        '0'
    } else if digit == 1 {
        '1'
    } else if digit == 2 {
        '2'
    } else if digit == 3 {
        '3'
    } else if digit == 4 {
        '4'
    } else if digit == 5 {
        '5'
    } else if digit == 6 {
        '6'
    } else if digit == 7 {
        '7'
    } else if digit == 8 {
        '8'
    } else {
        '9'
    }
}

/// `number` in decimal: most significant digit first, no leading zero but
/// for zero itself.
pub open spec fn decimal(number: nat) -> Seq<char>
    decreases number,
{
    if number < 10 {
        seq![digit_char(number)]
    } else {
        decimal(number / 10).push(digit_char(number % 10))
    }
}

/// The name of part `index` of the input at `path`.
pub open spec fn part_name_of(path: Seq<char>, index: nat) -> Seq<char> {
    path + "_part_"@ + decimal(index) + ".log"@
}

/// The digit that a character stands for; zero for any other character.
pub open spec fn digit_value(digit: char) -> nat {
    if digit == '1' {
        1
    } else if digit == '2' {
        2
    } else if digit == '3' {
        3
    } else if digit == '4' {
        4
    } else if digit == '5' {
        5
    } else if digit == '6' {
        6
    } else if digit == '7' {
        7
    } else if digit == '8' {
        8
    } else if digit == '9' {
        9
    } else {
        0
    }
}

/// The number that a run of decimal digits stands for.
pub open spec fn decimal_value(digits: Seq<char>) -> nat
    decreases digits.len(),
{
    if digits.len() == 0 {
        0
    } else {
        decimal_value(digits.drop_last()) * 10 + digit_value(digits.last())
    }
}

/// The decimal digits of a number stand for that number.
pub proof fn lemma_decimal_value(number: nat)
    ensures
        decimal(number).len() >= 1,
        decimal_value(decimal(number)) == number,
    decreases number,
{
    if number < 10 {
        let digits = decimal(number);
        assert(digits.drop_last() =~= Seq::<char>::empty());
        assert(decimal_value(digits.drop_last()) == 0);
        assert(digits.last() == digit_char(number));
    } else {
        lemma_decimal_value(number / 10);
        let digits = decimal(number);
        assert(digits.drop_last() =~= decimal(number / 10));
        assert(digits.last() == digit_char(number % 10));
    }
}

/// Two parts of one input bear the same name only where they have the same
/// index.
pub proof fn lemma_part_names_distinct(path: Seq<char>, first: nat, second: nat)
    ensures
        part_name_of(path, first) == part_name_of(path, second) ==> first == second,
{
    if part_name_of(path, first) == part_name_of(path, second) {
        let head = path + "_part_"@;
        let one = decimal(first);
        let two = decimal(second);
        let name = part_name_of(path, first);
        assert(name.len() == head.len() + one.len() + ".log"@.len());
        assert(name.len() == head.len() + two.len() + ".log"@.len());
        assert forall|j: int| 0 <= j < one.len() implies one[j] == two[j] by {
            assert(part_name_of(path, first)[head.len() + j] == one[j]);
            assert(part_name_of(path, second)[head.len() + j] == two[j]);
        }
        assert(one =~= two);
        lemma_decimal_value(first);
        lemma_decimal_value(second);
    }
}

/// The text of one decimal digit.
fn digit_text(digit: usize) -> (text: &'static str)
    requires
        digit < 10,
    ensures
        text@ == seq![digit_char(digit as nat)],
{
    proof {
        reveal_strlit("0");
        reveal_strlit("1");
        reveal_strlit("2");
        reveal_strlit("3");
        reveal_strlit("4");
        reveal_strlit("5");
        reveal_strlit("6");
        reveal_strlit("7");
        reveal_strlit("8");
        reveal_strlit("9");
    }
    let text = if digit == 0 {
        "0"
    } else if digit == 1 {
        "1"
    } else if digit == 2 {
        "2"
    } else if digit == 3 {
        "3"
    } else if digit == 4 {
        "4"
    } else if digit == 5 {
        "5"
    } else if digit == 6 {
        "6"
    } else if digit == 7 {
        "7"
    } else if digit == 8 {
        "8"
    } else {
        "9"
    };
    assert(text@ =~= seq![digit_char(digit as nat)]);
    text
}

/// Appends `number` in decimal to `text`.
fn append_decimal(text: &mut String, number: usize)
    ensures
        final(text)@ == old(text)@ + decimal(number as nat),
    decreases number,
{
    if number >= 10 {
        append_decimal(text, number / 10);
    }
    text.append(digit_text(number % 10));
    assert(text@ =~= old(text)@ + decimal(number as nat));
}

/// The name of part `index` of the input at `input_path`.
pub fn part_name(input_path: &str, index: usize) -> (name: String)
    ensures
        name@ == part_name_of(input_path@, index as nat),
{
    let mut name = String::from_str(input_path);
    name.append("_part_");
    append_decimal(&mut name, index);
    name.append(".log");
    name
}

} // verus!
