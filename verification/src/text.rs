//! Text as a sequence of characters: numbers in decimal, splitting, trimming, searching.
use vstd::prelude::*;

verus! {

/// `String::push`: appends the character to the end of the text.
pub assume_specification[ String::push ](string: &mut String, ch: char)
    ensures
        final(string)@ == old(string)@.push(ch),
;

/// The text of an optional string.
pub open spec fn opt_text(value: Option<String>) -> Option<Seq<char>> {
    match value {
        Some(text) => Some(text@),
        None => None,
    }
}

/// The texts of a list of strings.
pub open spec fn texts(values: Seq<String>) -> Seq<Seq<char>> {
    values.map_values(|value: String| value@)
}

/// The characters of `text`, in order.
pub fn to_chars(text: &str) -> (chars: Vec<char>)
    ensures
        chars@ == text@,
{
    let mut chars: Vec<char> = Vec::new();
    for character in iter: text.chars()
        invariant
            iter.seq() == text@,
            chars@ == iter.seq().take(iter.index() as int),
    {
        chars.push(character);
    }
    chars
}

/// The text that `chars` spell.
pub fn from_chars(chars: &[char]) -> (text: String)
    ensures
        text@ == chars@,
{
    let mut text = String::new();
    let mut i: usize = 0;
    while i < chars.len()
        invariant
            i <= chars@.len(),
            text@ == chars@.take(i as int),
        decreases chars@.len() - i,
    {
        text.push(chars[i]);
        i += 1;
        assert(text@ =~= chars@.take(i as int));
    }
    assert(chars@.take(i as int) =~= chars@);
    text
}

/// Whether the two texts have the same characters.
pub fn same_chars(left: &[char], right: &[char]) -> (same: bool)
    ensures
        same == (left@ == right@),
{
    if left.len() != right.len() {
        return false;
    }
    let mut i: usize = 0;
    while i < left.len()
        invariant
            i <= left@.len(),
            left@.len() == right@.len(),
            left@.take(i as int) == right@.take(i as int),
        decreases left@.len() - i,
    {
        if left[i] != right[i] {
            return false;
        }
        assert(left@.take(i + 1) =~= left@.take(i as int).push(left@[i as int]));
        assert(right@.take(i + 1) =~= right@.take(i as int).push(right@[i as int]));
        i += 1;
    }
    assert(left@.take(i as int) =~= left@);
    assert(right@.take(i as int) =~= right@);
    true
}

// ---------------------------------------------------------------------------------------------
// Decimal numbers
// ---------------------------------------------------------------------------------------------

pub open spec fn is_digit(character: char) -> bool {
    '0' <= character && character <= '9'
}

/// The number that a digit stands for.
pub open spec fn digit_value(character: char) -> nat {
    (character as int - '0' as int) as nat
}

/// The digit that stands for a number below ten.
pub open spec fn digit_char(digit: nat) -> char {
    ('0' as int + digit) as char
}

/// `number` in decimal, without leading zeros.
pub open spec fn decimal(number: nat) -> Seq<char>
    decreases number,
{
    if number < 10 {
        seq![digit_char(number)]
    } else {
        decimal(number / 10).push(digit_char(number % 10))
    }
}

/// `number` in decimal, after a minus sign where it is negative.
pub open spec fn signed_decimal(number: int) -> Seq<char> {
    if number < 0 {
        seq!['-'] + decimal((-number) as nat)
    } else {
        decimal(number as nat)
    }
}

pub open spec fn all_digits(text: Seq<char>) -> bool {
    forall|i: int| 0 <= i < text.len() ==> is_digit(#[trigger] text[i])
}

/// The number that a run of digits spells in decimal.
pub open spec fn digits_value(digits: Seq<char>) -> nat
    decreases digits.len(),
{
    if digits.len() == 0 {
        0
    } else {
        digits_value(digits.drop_last()) * 10 + digit_value(digits.last())
    }
}

/// The number that `text` spells as one or more digits, if it is at most `max`.
pub open spec fn read_digits(text: Seq<char>, max: nat) -> Option<nat> {
    if text.len() > 0 && all_digits(text) && digits_value(text) <= max {
        Some(digits_value(text))
    } else {
        None
    }
}

/// The unsigned number that `text` spells: digits, after a plus sign or none.
pub open spec fn read_unsigned(text: Seq<char>, max: nat) -> Option<nat> {
    if text.len() > 0 && text[0] == '+' {
        read_digits(text.skip(1), max)
    } else {
        read_digits(text, max)
    }
}

/// The 32-bit signed number that `text` spells: digits, after a sign or none.
pub open spec fn read_signed(text: Seq<char>) -> Option<int> {
    if text.len() > 0 && text[0] == '-' {
        match read_digits(text.skip(1), 0x8000_0000) {
            Some(number) => Some(-(number as int)),
            None => None,
        }
    } else {
        match read_unsigned(text, i32::MAX as nat) {
            Some(number) => Some(number as int),
            None => None,
        }
    }
}

/// Appends `number` in decimal.
pub fn push_decimal(text: &mut String, number: u128)
    ensures
        final(text)@ == old(text)@ + decimal(number as nat),
    decreases number,
{
    if number >= 10 {
        push_decimal(text, number / 10);
    }
    let digit: u8 = (number % 10) as u8;
    text.push(('0' as u8 + digit) as char);
    assert(text@ =~= old(text)@ + decimal(number as nat));
}

/// `number` in decimal, after a minus sign where it is negative.
pub fn signed_to_string(number: i64) -> (text: String)
    ensures
        text@ == signed_decimal(number as int),
{
    let mut text = String::new();
    if number < 0 {
        text.push('-');
        push_decimal(&mut text, (-(number as i128)) as u128);
    } else {
        push_decimal(&mut text, number as u128);
    }
    assert(text@ =~= signed_decimal(number as int));
    text
}

/// A number that was written in decimal is read back.
pub proof fn law_decimal_reads_back(number: nat)
    ensures
        decimal(number).len() > 0,
        all_digits(decimal(number)),
        digits_value(decimal(number)) == number,
    decreases number,
{
    let digits = decimal(number);
    if number < 10 {
        assert(digits.drop_last() =~= Seq::<char>::empty());
        assert(digits_value(digits.drop_last()) == 0);
    } else {
        law_decimal_reads_back(number / 10);
        assert(digits.drop_last() =~= decimal(number / 10));
    }
}

/// Reading more digits does not make the number smaller.
proof fn lemma_digits_value_grows(digits: Seq<char>, n: int)
    requires
        0 <= n <= digits.len(),
    ensures
        digits_value(digits.take(n)) <= digits_value(digits),
    decreases digits.len(),
{
    if n == digits.len() {
        assert(digits.take(n) =~= digits);
    } else {
        lemma_digits_value_grows(digits.drop_last(), n);
        assert(digits.drop_last().take(n) =~= digits.take(n));
    }
}

/// Reads one or more digits as a number that is at most `max`.
pub fn parse_digits(text: &[char], max: u32) -> (number: Option<u32>)
    ensures
        match number {
            Some(number) => read_digits(text@, max as nat) == Some(number as nat),
            None => read_digits(text@, max as nat) is None,
        },
{
    if text.len() == 0 {
        return None;
    }
    let mut number: u32 = 0;
    let mut i: usize = 0;
    while i < text.len()
        invariant
            i <= text@.len(),
            all_digits(text@.take(i as int)),
            number == digits_value(text@.take(i as int)),
            number <= max,
        decreases text@.len() - i,
    {
        let character = text[i];
        if character < '0' || '9' < character {
            assert(!is_digit(text@[i as int]));
            return None;
        }
        let next: u64 = (number as u64) * 10 + (character as u64 - '0' as u64);
        proof {
            assert(text@.take(i + 1).drop_last() =~= text@.take(i as int));
            assert(next == digits_value(text@.take(i + 1)));
            lemma_digits_value_grows(text@, i + 1);
            assert forall|j: int| 0 <= j < text@.take(i + 1).len() implies is_digit(
                #[trigger] text@.take(i + 1)[j],
            ) by {
                if j < i {
                    assert(text@.take(i as int)[j] == text@[j]);
                }
            }
        }
        if next > max as u64 {
            return None;
        }
        number = next as u32;
        i += 1;
    }
    assert(text@.take(i as int) =~= text@);
    Some(number)
}

/// Reads an unsigned number, as `str::parse::<u32>` does.
pub fn parse_u32(text: &[char]) -> (number: Option<u32>)
    ensures
        match number {
            Some(number) => read_unsigned(text@, u32::MAX as nat) == Some(number as nat),
            None => read_unsigned(text@, u32::MAX as nat) is None,
        },
{
    if text.len() > 0 && text[0] == '+' {
        let digits = vstd::slice::slice_subrange(text, 1, text.len());
        assert(digits@ =~= text@.skip(1));
        parse_digits(digits, u32::MAX)
    } else {
        parse_digits(text, u32::MAX)
    }
}

/// Reads a signed number, as `str::parse::<i32>` does.
pub fn parse_i32(text: &[char]) -> (number: Option<i32>)
    ensures
        match number {
            Some(number) => read_signed(text@) == Some(number as int),
            None => read_signed(text@) is None,
        },
{
    if text.len() > 0 && (text[0] == '-' || text[0] == '+') {
        let negative = text[0] == '-';
        let digits = vstd::slice::slice_subrange(text, 1, text.len());
        assert(digits@ =~= text@.skip(1));
        if negative {
            match parse_digits(digits, 0x8000_0000) {
                Some(number) => Some((-(number as i64)) as i32),
                None => None,
            }
        } else {
            match parse_digits(digits, i32::MAX as u32) {
                Some(number) => Some(number as i32),
                None => None,
            }
        }
    } else {
        match parse_digits(text, i32::MAX as u32) {
            Some(number) => Some(number as i32),
            None => None,
        }
    }
}

// ---------------------------------------------------------------------------------------------
// Searching, splitting, trimming
// ---------------------------------------------------------------------------------------------

/// Where `character` occurs first in `text`.
pub fn find_first(text: &[char], character: char) -> (position: Option<usize>)
    ensures
        match position {
            Some(position) => text@.index_of_first(character) == Some(position as int)
                && position < text@.len(),
            None => text@.index_of_first(character) is None,
        },
{
    let mut i: usize = 0;
    while i < text.len()
        invariant
            i <= text@.len(),
            forall|j: int| 0 <= j < i ==> text@[j] != character,
        decreases text@.len() - i,
    {
        if text[i] == character {
            proof {
                text@.index_of_first_ensures(character);
                assert(text@.contains(text@[i as int]));
            }
            return Some(i);
        }
        i += 1;
    }
    proof {
        text@.index_of_first_ensures(character);
    }
    None
}

/// Where `character` occurs last in `text`.
pub fn find_last(text: &[char], character: char) -> (position: Option<usize>)
    ensures
        match position {
            Some(position) => text@.index_of_last(character) == Some(position as int)
                && position < text@.len(),
            None => text@.index_of_last(character) is None,
        },
{
    let mut i: usize = text.len();
    while i > 0
        invariant
            i <= text@.len(),
            forall|j: int| i <= j < text@.len() ==> text@[j] != character,
        decreases i,
    {
        i -= 1;
        if text[i] == character {
            proof {
                text@.index_of_last_ensures(character);
                assert(text@.contains(text@[i as int]));
            }
            return Some(i);
        }
    }
    proof {
        text@.index_of_last_ensures(character);
    }
    None
}

/// The parts of `text` between the occurrences of `separator`: one part more than there are
/// occurrences, and the empty text for an empty part.
pub open spec fn split_on(text: Seq<char>, separator: char) -> Seq<Seq<char>>
    decreases text.len(),
{
    if text.len() == 0 {
        seq![Seq::<char>::empty()]
    } else {
        let parts = split_on(text.drop_last(), separator);
        if text.last() == separator {
            parts.push(Seq::<char>::empty())
        } else {
            parts.drop_last().push(parts.last().push(text.last()))
        }
    }
}

/// The parts as sequences.
pub open spec fn parts_view(parts: Seq<Vec<char>>) -> Seq<Seq<char>> {
    parts.map_values(|part: Vec<char>| part@)
}

/// Splits `text` at every occurrence of `separator`, as `str::split` does.
pub fn split(text: &[char], separator: char) -> (parts: Vec<Vec<char>>)
    ensures
        parts_view(parts@) == split_on(text@, separator),
        parts@.len() > 0,
{
    let mut parts: Vec<Vec<char>> = Vec::new();
    let mut current: Vec<char> = Vec::new();
    let mut i: usize = 0;
    assert(parts_view(parts@).push(current@) =~= split_on(text@.take(0), separator));
    while i < text.len()
        invariant
            i <= text@.len(),
            parts_view(parts@).push(current@) == split_on(text@.take(i as int), separator),
        decreases text@.len() - i,
    {
        let character = text[i];
        let ghost before = parts_view(parts@);
        let ghost part = current@;
        assert(before.push(part).drop_last() =~= before);
        assert(text@.take(i + 1).drop_last() =~= text@.take(i as int));
        if character == separator {
            parts.push(current);
            current = Vec::new();
            assert(parts_view(parts@) =~= before.push(part));
        } else {
            current.push(character);
        }
        i += 1;
    }
    assert(text@.take(i as int) =~= text@);
    let ghost before = parts_view(parts@);
    let ghost part = current@;
    parts.push(current);
    assert(parts_view(parts@) =~= before.push(part));
    parts
}

/// A text without the separator is one part.
pub proof fn lemma_one_part(text: Seq<char>, separator: char)
    requires
        !text.contains(separator),
    ensures
        split_on(text, separator) == seq![text],
    decreases text.len(),
{
    if text.len() == 0 {
        assert(text =~= Seq::<char>::empty());
    } else {
        assert forall|i: int| 0 <= i < text.drop_last().len() implies text.drop_last()[i]
            != separator by {
            assert(text.contains(text[i]));
        }
        lemma_one_part(text.drop_last(), separator);
        assert(text.contains(text[text.len() - 1]));
        assert(text.drop_last().push(text.last()) =~= text);
        assert(split_on(text, separator) =~= seq![text]);
    }
}

/// The parts of a text are what stands in front of the first separator and the parts of the rest.
pub proof fn lemma_first_part(first: Seq<char>, separator: char, rest: Seq<char>)
    requires
        !first.contains(separator),
    ensures
        split_on(first.push(separator) + rest, separator) == seq![first] + split_on(
            rest,
            separator,
        ),
        split_on(rest, separator).len() > 0,
    decreases rest.len(),
{
    let whole = first.push(separator) + rest;
    if rest.len() == 0 {
        lemma_one_part(first, separator);
        assert(whole.drop_last() =~= first);
        assert(split_on(whole, separator) =~= seq![first] + split_on(rest, separator));
    } else {
        lemma_first_part(first, separator, rest.drop_last());
        assert(whole.drop_last() =~= first.push(separator) + rest.drop_last());
        assert(split_on(whole, separator) =~= seq![first] + split_on(rest, separator));
    }
}

/// To append a text without the separator is to append it to the last part.
pub proof fn lemma_last_part_grows(front: Seq<char>, separator: char, added: Seq<char>)
    requires
        !added.contains(separator),
    ensures
        split_on(front, separator).len() > 0,
        split_on(front + added, separator) == split_on(front, separator).drop_last().push(
            split_on(front, separator).last() + added,
        ),
    decreases added.len(),
{
    lemma_some_part(front, separator);
    let parts = split_on(front, separator);
    if added.len() == 0 {
        assert(front + added =~= front);
        assert(parts.last() + added =~= parts.last());
        assert(parts.drop_last().push(parts.last()) =~= parts);
    } else {
        assert forall|i: int| 0 <= i < added.drop_last().len() implies added.drop_last()[i]
            != separator by {
            assert(added.contains(added[i]));
        }
        lemma_last_part_grows(front, separator, added.drop_last());
        assert(added.contains(added[added.len() - 1]));
        assert((front + added).drop_last() =~= front + added.drop_last());
        assert((parts.last() + added.drop_last()).push(added.last()) =~= parts.last() + added);
        assert(split_on(front + added, separator) =~= parts.drop_last().push(
            parts.last() + added,
        ));
    }
}

/// There is at least one part.
proof fn lemma_some_part(text: Seq<char>, separator: char)
    ensures
        split_on(text, separator).len() > 0,
{
}

/// `text` without the occurrences of `character` that it starts with.
pub open spec fn trim_start(text: Seq<char>, character: char) -> Seq<char>
    decreases text.len(),
{
    if text.len() > 0 && text[0] == character {
        trim_start(text.drop_first(), character)
    } else {
        text
    }
}

/// Trims `character` off the start of `text`, as `str::trim_start_matches` does.
pub fn trimmed_start(text: &str, character: char) -> (trimmed: String)
    ensures
        trimmed@ == trim_start(text@, character),
{
    let chars = to_chars(text);
    let mut i: usize = 0;
    assert(chars@.skip(0) =~= text@);
    while i < chars.len() && chars[i] == character
        invariant
            i <= chars@.len(),
            trim_start(chars@.skip(i as int), character) == trim_start(text@, character),
        decreases chars@.len() - i,
    {
        assert(chars@.skip(i as int).drop_first() =~= chars@.skip(i + 1));
        i += 1;
    }
    let rest = vstd::slice::slice_subrange(chars.as_slice(), i, chars.len());
    assert(rest@ =~= chars@.skip(i as int));
    from_chars(rest)
}

// ---------------------------------------------------------------------------------------------
// Laws
// ---------------------------------------------------------------------------------------------

/// One more digit behind a number is ten times the number and the digit.
pub proof fn law_one_more_digit(digits: Seq<char>, digit: char)
    requires
        '0' <= digit && digit <= '9',
    ensures
        digits_value(Seq::empty()) == 0,
        digits_value(digits.push(digit)) == 10 * digits_value(digits) + (digit as int - '0' as int),
{
    assert(digits.push(digit).drop_last() =~= digits);
}

/// A number in decimal has no leading zero, and zero is one digit.
pub proof fn law_decimal_has_no_leading_zero(number: nat)
    ensures
        decimal(number)[0] == '0' ==> number == 0,
        decimal(0) == seq!['0'],
    decreases number,
{
    if number >= 10 {
        law_decimal_has_no_leading_zero(number / 10);
        law_decimal_reads_back(number / 10);
        assert(decimal(number)[0] == decimal(number / 10)[0]);
    }
}

/// A number that may be negative is written in decimal, after a minus sign exactly where it is
/// negative.
pub proof fn law_signed_decimal_reads_back(number: int)
    ensures
        number >= 0 ==> all_digits(signed_decimal(number)) && digits_value(signed_decimal(number))
            == number,
        number < 0 ==> signed_decimal(number)[0] == '-' && all_digits(
            signed_decimal(number).skip(1),
        ) && digits_value(signed_decimal(number).skip(1)) == -number,
{
    if number >= 0 {
        law_decimal_reads_back(number as nat);
    } else {
        law_decimal_reads_back((-number) as nat);
        assert(signed_decimal(number).skip(1) =~= decimal((-number) as nat));
    }
}

/// One or more digits are read as the number that they spell, with or without a sign, where the
/// number is not too large.
pub proof fn law_digits_are_read(digits: Seq<char>, max: nat)
    requires
        digits.len() > 0,
        forall|i: int| 0 <= i < digits.len() ==> '0' <= #[trigger] digits[i] && digits[i] <= '9',
    ensures
        digits_value(digits) <= max ==> read_unsigned(digits, max) == Some(digits_value(digits)),
        digits_value(digits) <= max ==> read_unsigned(seq!['+'] + digits, max) == Some(
            digits_value(digits),
        ),
        digits_value(digits) > max ==> read_unsigned(digits, max) is None && read_unsigned(
            seq!['+'] + digits,
            max,
        ) is None,
        digits_value(digits) <= 0x7fff_ffff ==> read_signed(digits) == Some(
            digits_value(digits) as int,
        ) && read_signed(seq!['+'] + digits) == Some(digits_value(digits) as int),
        digits_value(digits) > 0x7fff_ffff ==> read_signed(digits) is None && read_signed(
            seq!['+'] + digits,
        ) is None,
        digits_value(digits) <= 0x8000_0000 ==> read_signed(seq!['-'] + digits) == Some(
            -(digits_value(digits) as int),
        ),
        digits_value(digits) > 0x8000_0000 ==> read_signed(seq!['-'] + digits) is None,
{
    assert(digits[0] != '+' && digits[0] != '-');
    assert((seq!['+'] + digits).skip(1) =~= digits);
    assert((seq!['-'] + digits).skip(1) =~= digits);
    assert(all_digits(digits));
}

/// Only digits, behind at most one sign, are read as a number; an unsigned number has no minus
/// sign.
pub proof fn law_only_digits_are_read(text: Seq<char>, max: nat)
    ensures
        read_unsigned(text, max) is Some ==> text.len() > 0 && (text[0] == '+' || '0' <= text[0]
            && text[0] <= '9') && (text[0] == '+' ==> text.len() > 1) && forall|i: int|
            1 <= i < text.len() ==> '0' <= #[trigger] text[i] && text[i] <= '9',
        read_signed(text) is Some ==> text.len() > 0 && (text[0] == '+' || text[0] == '-' || '0'
            <= text[0] && text[0] <= '9') && (text[0] == '+' || text[0] == '-' ==> text.len() > 1)
            && forall|i: int| 1 <= i < text.len() ==> '0' <= #[trigger] text[i] && text[i] <= '9',
{
    if text.len() > 0 {
        assert forall|i: int| 1 <= i < text.len() implies #[trigger] text[i] == text.skip(1)[i
            - 1] by {}
        if text[0] == '+' || text[0] == '-' {
            let rest = text.skip(1);
            if all_digits(rest) {
                assert forall|i: int| 1 <= i < text.len() implies '0' <= #[trigger] text[i]
                    && text[i] <= '9' by {
                    assert(is_digit(rest[i - 1]));
                }
            }
        } else if all_digits(text) {
            assert(is_digit(text[0]));
            assert forall|i: int| 1 <= i < text.len() implies '0' <= #[trigger] text[i] && text[i]
                <= '9' by {
                assert(is_digit(text[i]));
            }
        }
    }
}

/// To trim a character off the start takes away all of its occurrences there, and nothing else.
pub proof fn law_trimmed_is_the_rest(text: Seq<char>, character: char)
    ensures
        exists|n: int|
            0 <= n <= text.len() && trim_start(text, character) == #[trigger] text.skip(n) && (
            forall|i: int| 0 <= i < n ==> text[i] == character) && (n < text.len() ==> text[n]
                != character),
    decreases text.len(),
{
    if text.len() > 0 && text[0] == character {
        let rest = text.drop_first();
        law_trimmed_is_the_rest(rest, character);
        let n = choose|n: int|
            0 <= n <= rest.len() && trim_start(rest, character) == #[trigger] rest.skip(n) && (
            forall|i: int| 0 <= i < n ==> rest[i] == character) && (n < rest.len() ==> rest[n]
                != character);
        assert(text.skip(n + 1) =~= rest.skip(n));
        assert forall|i: int| 0 <= i < n + 1 implies text[i] == character by {
            if i > 0 {
                assert(rest[i - 1] == text[i]);
            }
        }
        if n + 1 < text.len() {
            assert(rest[n] == text[n + 1]);
        }
    } else {
        assert(text.skip(0) =~= text);
    }
}

/// The parts with the separator between them.
pub open spec fn rejoined(parts: Seq<Seq<char>>, separator: char) -> Seq<char>
    decreases parts.len(),
{
    if parts.len() <= 1 {
        parts[0]
    } else {
        rejoined(parts.drop_last(), separator).push(separator) + parts.last()
    }
}

/// The parts of a text hold no separator, and with a separator between them they are the text.
pub proof fn law_parts_make_up_the_text(text: Seq<char>, separator: char)
    ensures
        split_on(text, separator).len() > 0,
        rejoined(split_on(text, separator), separator) == text,
        forall|i: int|
            0 <= i < split_on(text, separator).len() ==> !(#[trigger] split_on(
                text,
                separator,
            )[i]).contains(separator),
    decreases text.len(),
{
    let parts = split_on(text, separator);
    if text.len() == 0 {
        assert(parts[0] =~= text);
    } else {
        law_parts_make_up_the_text(text.drop_last(), separator);
        let before = split_on(text.drop_last(), separator);
        if text.last() == separator {
            assert(parts.drop_last() =~= before);
            assert(rejoined(parts, separator) =~= text);
        } else {
            assert(parts.drop_last() =~= before.drop_last());
            assert(rejoined(parts, separator) =~= rejoined(before, separator).push(text.last()));
            assert(rejoined(parts, separator) =~= text);
            assert forall|i: int| 0 <= i < parts.len() implies !(#[trigger] parts[i]).contains(
                separator,
            ) by {
                if i < parts.len() - 1 {
                    assert(parts[i] == before[i]);
                } else {
                    let last = before.last();
                    assert(parts[i] == last.push(text.last()));
                    assert forall|j: int| 0 <= j < parts[i].len() implies parts[i][j]
                        != separator by {
                        if j < last.len() {
                            assert(last.contains(last[j]));
                        }
                    }
                }
            }
        }
    }
}

/// An optional string is seen by its whole text, and a list of strings by their whole texts in
/// their order.
pub proof fn law_strings_are_seen_in_full(string: String, strings: Seq<String>, i: int)
    requires
        0 <= i < strings.len(),
    ensures
        opt_text(None) is None,
        opt_text(Some(string)) == Some(string@),
        texts(strings).len() == strings.len(),
        texts(strings)[i] == strings[i]@,
{
}

} // verus!
