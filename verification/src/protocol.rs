//! The text protocol: numbers, fields separated by single spaces, and the
//! lines that describe actions, cells and trees.

use vstd::prelude::*;
use vstd::string::*;
use crate::action::{
    complete_word, decimal, digit, digits, grow_word, null_word, seed_word, wait_word, Action,
};
use crate::board::Cell;
use crate::forest::Tree;

verus! {

/// Whether `c` is a decimal digit.
pub open spec fn is_digit(c: char) -> bool {
    '0' as u32 <= c as u32 <= '9' as u32
}

/// The value of the decimal digit `c`.
pub open spec fn digit_value(c: char) -> int {
    c as u32 - '0' as u32
}

/// Whether `s` consists of decimal digits only.
pub open spec fn all_digits(s: Seq<char>) -> bool {
    forall|i: int| 0 <= i < s.len() ==> is_digit(#[trigger] s[i])
}

/// The number that the digits `s` write.
pub open spec fn digits_value(s: Seq<char>) -> int
    decreases s.len(),
{
    if s.len() == 0 {
        0
    } else {
        digits_value(s.drop_last()) * 10 + digit_value(s.last())
    }
}

/// Whether `c` is blank, that is white space: one of the characters from
/// U+0009 to U+000D, the space U+0020, U+0085, U+00A0, U+1680, one of those
/// from U+2000 to U+200A, U+2028, U+2029, U+202F, U+205F or U+3000.
pub open spec fn is_blank(c: char) -> bool {
    let code = c as u32;
    ||| 0x9 <= code <= 0xd
    ||| code == 0x20
    ||| code == 0x85
    ||| code == 0xa0
    ||| code == 0x1680
    ||| 0x2000 <= code <= 0x200a
    ||| code == 0x2028
    ||| code == 0x2029
    ||| code == 0x202f
    ||| code == 0x205f
    ||| code == 0x3000
}

/// Number of blank characters at the start of `s`.
pub open spec fn leading_blanks(s: Seq<char>) -> int
    decreases s.len(),
{
    if s.len() == 0 || !is_blank(s[0]) {
        0
    } else {
        1 + leading_blanks(s.drop_first())
    }
}

/// Number of blank characters at the end of `s`.
pub open spec fn trailing_blanks(s: Seq<char>) -> int
    decreases s.len(),
{
    if s.len() == 0 || !is_blank(s.last()) {
        0
    } else {
        1 + trailing_blanks(s.drop_last())
    }
}

/// `s` without the blank characters at its start and at its end.
pub open spec fn trimmed(s: Seq<char>) -> Seq<char> {
    let from = leading_blanks(s);
    let rest = s.skip(from);
    rest.take(rest.len() - trailing_blanks(rest))
}

/// The number that `s` writes: an optional sign, then one digit or more,
/// with a value that fits in 32 bits. `None` for any other text.
pub open spec fn number_of(s: Seq<char>) -> Option<i32> {
    let signed = s.len() > 0 && (s[0] == '-' || s[0] == '+');
    let body = if signed {
        s.drop_first()
    } else {
        s
    };
    let value = if s.len() > 0 && s[0] == '-' {
        -digits_value(body)
    } else {
        digits_value(body)
    };
    if body.len() > 0 && all_digits(body) && i32::MIN <= value <= i32::MAX {
        Some(value as i32)
    } else {
        None
    }
}

/// Position of the first space in `s`; the length of `s` where it has none.
pub open spec fn first_space(s: Seq<char>) -> int
    decreases s.len(),
{
    if s.len() == 0 || s[0] == ' ' {
        0
    } else {
        1 + first_space(s.drop_first())
    }
}

/// The fields of `s`: the pieces between its spaces. A text without a space
/// is one field; two spaces in a row enclose an empty field.
pub open spec fn fields(s: Seq<char>) -> Seq<Seq<char>>
    decreases s.len(),
{
    let i = first_space(s);
    if 0 <= i < s.len() {
        seq![s.take(i)] + fields(s.skip(i + 1))
    } else {
        seq![s]
    }
}

/// The numbers that the first `count` fields of `line` write, each field
/// trimmed; `None` where the line has fewer fields or one of these fields
/// writes no number. What follows these fields is not read.
pub open spec fn leading_numbers_of(line: Seq<char>, count: nat) -> Option<Seq<i32>> {
    let parts = fields(line);
    if count <= parts.len() && forall|k: int|
        0 <= k < count ==> number_of(trimmed(#[trigger] parts[k])) is Some {
        Some(Seq::new(count, |k: int| number_of(trimmed(parts[k]))->0))
    } else {
        None
    }
}

/// The number in field `k` of `parts`, if there is such a field and it
/// writes a number.
pub open spec fn number_at(parts: Seq<Seq<char>>, k: int) -> Option<i32> {
    if 0 <= k < parts.len() {
        number_of(trimmed(parts[k]))
    } else {
        None
    }
}

/// The action that `line` writes: `GROW <cell>`, `SEED <origin> <target>`,
/// `COMPLETE <cell>` or `WAIT`. Fields after those that the verb needs are
/// ignored. `None` for any other text.
pub open spec fn action_of(line: Seq<char>) -> Option<Action> {
    let parts = fields(line);
    let verb = parts[0];
    if verb == grow_word() {
        match number_at(parts, 1) {
            Some(cell) => Some(Action::Grow(cell)),
            None => None,
        }
    } else if verb == seed_word() {
        match (number_at(parts, 1), number_at(parts, 2)) {
            (Some(origin), Some(target)) => Some(Action::Seed(target, origin)),
            _ => None,
        }
    } else if verb == complete_word() {
        match number_at(parts, 1) {
            Some(cell) => Some(Action::Complete(cell)),
            None => None,
        }
    } else if verb == wait_word() {
        Some(Action::Wait)
    } else {
        None
    }
}

/// The first space of `s` is at `i` where no space comes before `i` and `s`
/// ends or has a space there.
pub proof fn lemma_first_space(s: Seq<char>, i: int)
    requires
        0 <= i <= s.len(),
        forall|j: int| 0 <= j < i ==> #[trigger] s[j] != ' ',
        i == s.len() || s[i] == ' ',
    ensures
        first_space(s) == i,
    decreases s.len(),
{
    if i > 0 {
        lemma_first_space(s.drop_first(), i - 1);
    }
}

/// Blank characters are counted from the start up to the first character
/// that is not blank.
pub proof fn lemma_leading_blanks(s: Seq<char>, i: int)
    requires
        0 <= i <= s.len(),
        forall|j: int| 0 <= j < i ==> is_blank(#[trigger] s[j]),
        i == s.len() || !is_blank(s[i]),
    ensures
        leading_blanks(s) == i,
    decreases s.len(),
{
    if i > 0 {
        lemma_leading_blanks(s.drop_first(), i - 1);
    }
}

/// Blank characters are counted from the end down to the last character
/// that is not blank.
pub proof fn lemma_trailing_blanks(s: Seq<char>, i: int)
    requires
        0 <= i <= s.len(),
        forall|j: int| s.len() - i <= j < s.len() ==> is_blank(#[trigger] s[j]),
        i == s.len() || !is_blank(s[s.len() - i - 1]),
    ensures
        trailing_blanks(s) == i,
    decreases s.len(),
{
    if i > 0 {
        lemma_trailing_blanks(s.drop_last(), i - 1);
    }
}

/// The value of a digit string is not negative and not below that of any
/// of its prefixes.
pub proof fn lemma_digits_value_grows(s: Seq<char>, k: int)
    requires
        all_digits(s),
        0 <= k <= s.len(),
    ensures
        0 <= digits_value(s.take(k)) <= digits_value(s),
    decreases s.len(),
{
    if s.len() == 0 {
        assert(s.take(k) =~= s);
    } else if k == s.len() {
        assert(s.take(k) =~= s);
        lemma_digits_value_grows(s.drop_last(), k - 1);
        assert(is_digit(s.last()));
    } else {
        lemma_digits_value_grows(s.drop_last(), k);
        assert(s.drop_last().take(k) =~= s.take(k));
        assert(is_digit(s.last()));
    }
}

/// Whether `s` is free of spaces and other blank characters.
pub open spec fn blank_free(s: Seq<char>) -> bool {
    forall|i: int| 0 <= i < s.len() ==> !is_blank(#[trigger] s[i])
}

/// The digits of a number are digits, and they write that number.
pub proof fn lemma_digits_written(n: nat)
    ensures
        digits(n).len() > 0,
        all_digits(digits(n)),
        digits_value(digits(n)) == n,
    decreases n,
{
    let d = (n % 10) as int;
    assert(is_digit(digit(d)) && digit_value(digit(d)) == d);
    if n >= 10 {
        lemma_digits_written(n / 10);
        let s = digits(n);
        assert(s.drop_last() =~= digits(n / 10));
        assert forall|i: int| 0 <= i < s.len() implies is_digit(#[trigger] s[i]) by {
            if i < s.len() - 1 {
                assert(s[i] == digits(n / 10)[i]);
            }
        }
        assert(s.last() == digit(d));
        assert(digits_value(s) == digits_value(s.drop_last()) * 10 + digit_value(s.last()));
    } else {
        let s = digits(n);
        assert(s.drop_last() =~= Seq::<char>::empty());
        assert(digits_value(Seq::<char>::empty()) == 0);
        assert(s.last() == digit(d));
        assert(digits_value(s) == digits_value(s.drop_last()) * 10 + digit_value(s.last()));
    }
}

/// The decimal text of a number that fits in 32 bits writes that number,
/// and holds no blank character.
pub proof fn lemma_decimal_written(n: i32)
    ensures
        decimal(n as int).len() > 0,
        blank_free(decimal(n as int)),
        number_of(decimal(n as int)) == Some(n),
{
    let s = decimal(n as int);
    if n < 0 {
        let body = digits((-n) as nat);
        lemma_digits_written((-n) as nat);
        assert(s.drop_first() =~= body);
        assert forall|i: int| 0 <= i < s.len() implies !is_blank(#[trigger] s[i]) by {
            if i > 0 {
                assert(is_digit(body[i - 1]));
            }
        }
    } else {
        lemma_digits_written(n as nat);
        assert(is_digit(s[0]));
        assert forall|i: int| 0 <= i < s.len() implies !is_blank(#[trigger] s[i]) by {
            assert(is_digit(s[i]));
        }
    }
}

/// A text without blank characters is its own trimmed form.
pub proof fn lemma_trimmed_plain(s: Seq<char>)
    requires
        blank_free(s),
    ensures
        trimmed(s) == s,
{
    if s.len() > 0 {
        assert(!is_blank(s[0]));
        assert(!is_blank(s[s.len() - 1]));
    }
    assert(s.skip(0) =~= s);
    assert(s.take(s.len() as int) =~= s);
}

/// A text without blank characters is one field.
pub proof fn lemma_fields_plain(s: Seq<char>)
    requires
        blank_free(s),
    ensures
        fields(s) == seq![s],
{
    assert forall|j: int| 0 <= j < s.len() implies #[trigger] s[j] != ' ' by {
        assert(!is_blank(s[j]));
    }
    lemma_first_space(s, s.len() as int);
}

/// The fields of a word, a space and more text are the word and the fields
/// of that text.
pub proof fn lemma_fields_after_word(word: Seq<char>, rest: Seq<char>)
    requires
        blank_free(word),
    ensures
        fields(word + seq![' '] + rest) == seq![word] + fields(rest),
{
    let s = word + seq![' '] + rest;
    assert forall|j: int| 0 <= j < word.len() implies #[trigger] s[j] != ' ' by {
        assert(!is_blank(word[j]));
    }
    assert(s[word.len() as int] == ' ');
    lemma_first_space(s, word.len() as int);
    assert(s.take(word.len() as int) =~= word);
    assert(s.skip(word.len() as int + 1) =~= rest);
}

/// The fields of a word, a space and a number are the word and the
/// number's text, which writes the number.
proof fn lemma_word_and_number(word: Seq<char>, n: i32)
    requires
        blank_free(word),
    ensures
        fields(word + seq![' '] + decimal(n as int)) == seq![word, decimal(n as int)],
        number_at(seq![word, decimal(n as int)], 1) == Some(n),
{
    let number = decimal(n as int);
    lemma_decimal_written(n);
    lemma_fields_plain(number);
    lemma_trimmed_plain(number);
    lemma_fields_after_word(word, number);
    assert(seq![word] + seq![number] =~= seq![word, number]);
}

/// The fields of a word and two numbers, with single spaces between them,
/// are the word and the texts of the numbers, which write the numbers.
proof fn lemma_word_and_two_numbers(word: Seq<char>, a: i32, b: i32)
    requires
        blank_free(word),
    ensures
        fields(word + seq![' '] + decimal(a as int) + seq![' '] + decimal(b as int)) == seq![
            word,
            decimal(a as int),
            decimal(b as int),
        ],
        number_at(seq![word, decimal(a as int), decimal(b as int)], 1) == Some(a),
        number_at(seq![word, decimal(a as int), decimal(b as int)], 2) == Some(b),
{
    let first = decimal(a as int);
    let second = decimal(b as int);
    lemma_decimal_written(a);
    lemma_decimal_written(b);
    lemma_fields_plain(second);
    lemma_trimmed_plain(first);
    lemma_trimmed_plain(second);
    lemma_fields_after_word(first, second);
    lemma_fields_after_word(word, first + seq![' '] + second);
    assert(word + seq![' '] + first + seq![' '] + second =~= word + seq![' '] + (first + seq![' ']
        + second));
    assert(seq![word] + (seq![first] + seq![second]) =~= seq![word, first, second]);
}

/// The verbs hold no blank character, and no two of them are the same.
proof fn lemma_words()
    ensures
        blank_free(grow_word()),
        blank_free(seed_word()),
        blank_free(complete_word()),
        blank_free(wait_word()),
        blank_free(null_word()),
        grow_word() != seed_word(),
        grow_word() != complete_word(),
        grow_word() != wait_word(),
        grow_word() != null_word(),
        seed_word() != complete_word(),
        seed_word() != wait_word(),
        seed_word() != null_word(),
        complete_word() != wait_word(),
        complete_word() != null_word(),
        wait_word() != null_word(),
{
    assert(grow_word()[0] == 'G');
    assert(seed_word()[0] == 'S');
    assert(complete_word()[0] == 'C');
    assert(wait_word()[0] == 'W');
    assert(null_word()[0] == 'N');
}

proof fn lemma_grow_round_trip(cell: i32)
    ensures
        action_of(Action::Grow(cell).text()) == Some(Action::Grow(cell)),
{
    lemma_words();
    lemma_word_and_number(grow_word(), cell);
}

proof fn lemma_complete_round_trip(cell: i32)
    ensures
        action_of(Action::Complete(cell).text()) == Some(Action::Complete(cell)),
{
    lemma_words();
    lemma_word_and_number(complete_word(), cell);
}

proof fn lemma_seed_round_trip(target: i32, origin: i32)
    ensures
        action_of(Action::Seed(target, origin).text()) == Some(Action::Seed(target, origin)),
{
    lemma_words();
    lemma_word_and_two_numbers(seed_word(), origin, target);
}

proof fn lemma_plain_round_trip()
    ensures
        action_of(Action::Wait.text()) == Some(Action::Wait),
        action_of(Action::Null.text()) is None,
{
    lemma_words();
    lemma_fields_plain(wait_word());
    lemma_fields_plain(null_word());
}

/// Reading the canonical text of an action gives the action back. The
/// placeholder has a text that writes no action.
pub proof fn law_text_round_trip(action: Action)
    ensures
        action != Action::Null ==> action_of(action.text()) == Some(action),
        action_of(Action::Null.text()) is None,
{
    lemma_plain_round_trip();
    match action {
        Action::Grow(cell) => lemma_grow_round_trip(cell),
        Action::Seed(target, origin) => lemma_seed_round_trip(target, origin),
        Action::Complete(cell) => lemma_complete_round_trip(cell),
        Action::Wait => {},
        Action::Null => {},
    }
}

/// The characters of `text`.
pub fn chars_of(text: &str) -> (chars: Vec<char>)
    ensures
        chars@ == text@,
{
    let n = text.unicode_len();
    let mut chars: Vec<char> = Vec::new();
    let mut i: usize = 0;
    while i < n
        invariant
            n == text@.len(),
            i <= n,
            chars@ == text@.take(i as int),
        decreases n - i,
    {
        chars.push(text.get_char(i));
        i += 1;
        assert(chars@ =~= text@.take(i as int));
    }
    assert(text@.take(n as int) =~= text@);
    chars
}

fn blank(c: char) -> (b: bool)
    ensures
        b == is_blank(c),
{
    let code = c as u32;
    (0x9 <= code && code <= 0xd) || code == 0x20 || code == 0x85 || code == 0xa0 || code == 0x1680
        || (0x2000 <= code && code <= 0x200a) || code == 0x2028 || code == 0x2029 || code == 0x202f
        || code == 0x205f || code == 0x3000
}

/// The value of the digits of `text` from `start` up to `to`, if these are
/// digits and write no more than 2147483648.
fn parse_digits(text: &Vec<char>, start: usize, to: usize) -> (value: Option<i64>)
    requires
        start <= to <= text.len(),
    ensures
        value is Some <==> all_digits(text@.subrange(start as int, to as int)) && digits_value(
            text@.subrange(start as int, to as int),
        ) <= 0x8000_0000,
        value matches Some(v) ==> 0 <= v <= 0x8000_0000 && v == digits_value(
            text@.subrange(start as int, to as int),
        ),
{
    let ghost body = text@.subrange(start as int, to as int);
    let mut value: i64 = 0;
    let mut i: usize = start;
    assert(body.take(0) =~= Seq::<char>::empty());
    while i < to
        invariant
            start <= i <= to,
            to <= text.len(),
            body == text@.subrange(start as int, to as int),
            all_digits(body.take(i - start)),
            value == digits_value(body.take(i - start)),
            0 <= value <= 0x8000_0000,
        decreases to - i,
    {
        let c = text[i];
        let code = c as u32;
        assert(body[i - start] == c);
        if code < 48 || code > 57 {
            assert(!is_digit(body[i - start]));
            return None;
        }
        let ghost longer = body.take(i - start + 1);
        proof {
            assert(longer.drop_last() =~= body.take(i - start));
            assert(longer.last() == c);
            assert forall|j: int| 0 <= j < longer.len() implies is_digit(#[trigger] longer[j]) by {
                if j < i - start {
                    assert(body.take(i - start)[j] == longer[j]);
                }
            }
        }
        value = value * 10 + (code - 48) as i64;
        if value > 0x8000_0000 {
            proof {
                if all_digits(body) {
                    lemma_digits_value_grows(body, i - start + 1);
                }
            }
            return None;
        }
        i += 1;
    }
    assert(body.take(to - start) =~= body);
    Some(value)
}

/// The number that the characters of `text` from `from` up to `to` write.
fn parse_span(text: &Vec<char>, from: usize, to: usize) -> (number: Option<i32>)
    requires
        from <= to <= text.len(),
    ensures
        number == number_of(text@.subrange(from as int, to as int)),
{
    let ghost s = text@.subrange(from as int, to as int);
    if from == to {
        return None;
    }
    let negative = text[from] == '-';
    let signed = negative || text[from] == '+';
    let start = if signed {
        from + 1
    } else {
        from
    };
    let ghost body = if signed {
        s.drop_first()
    } else {
        s
    };
    assert(s[0] == text@[from as int]);
    assert(body =~= text@.subrange(start as int, to as int));
    if start == to {
        return None;
    }
    match parse_digits(text, start, to) {
        None => None,
        Some(value) => {
            if negative {
                Some((-value) as i32)
            } else if value > 0x7fff_ffff {
                None
            } else {
                Some(value as i32)
            }
        },
    }
}

/// The number that `text` writes, blank characters at its ends aside.
pub fn parse_number(text: &Vec<char>) -> (number: Option<i32>)
    ensures
        number == number_of(trimmed(text@)),
{
    let n = text.len();
    let mut from: usize = 0;
    while from < n && blank(text[from])
        invariant
            from <= n,
            n == text.len(),
            forall|j: int| 0 <= j < from ==> is_blank(#[trigger] text@[j]),
        decreases n - from,
    {
        from += 1;
    }
    let mut to: usize = n;
    while to > from && blank(text[to - 1])
        invariant
            from <= to <= n,
            n == text.len(),
            forall|j: int| to <= j < n ==> is_blank(#[trigger] text@[j]),
        decreases to,
    {
        to -= 1;
    }
    proof {
        lemma_leading_blanks(text@, from as int);
        let rest = text@.skip(from as int);
        assert forall|j: int| rest.len() - (n - to) <= j < rest.len() implies is_blank(
            #[trigger] rest[j],
        ) by {
            assert(rest[j] == text@[j + from]);
        }
        if to > from {
            assert(rest[rest.len() - (n - to) - 1] == text@[to - 1]);
        }
        lemma_trailing_blanks(rest, (n - to) as int);
        assert(trimmed(text@) =~= text@.subrange(from as int, to as int));
    }
    parse_span(text, from, to)
}

/// Whether `parts` holds the texts `expected`, in order.
pub open spec fn holds_fields(parts: Seq<Vec<char>>, expected: Seq<Seq<char>>) -> bool {
    parts.len() == expected.len() && forall|k: int|
        0 <= k < parts.len() ==> (#[trigger] parts[k])@ == expected[k]
}

/// Splits `line` at its spaces.
pub fn split_fields(line: &Vec<char>) -> (parts: Vec<Vec<char>>)
    ensures
        holds_fields(parts@, fields(line@)),
        parts.len() > 0,
{
    let n = line.len();
    let mut parts: Vec<Vec<char>> = Vec::new();
    let mut current: Vec<char> = Vec::new();
    let ghost mut done: Seq<Seq<char>> = Seq::empty();
    let ghost mut start: int = 0;
    let mut i: usize = 0;
    proof {
        assert(line@.skip(0) =~= line@);
    }
    while i < n
        invariant
            n == line.len(),
            0 <= start <= i <= n,
            holds_fields(parts@, done),
            current@ == line@.subrange(start, i as int),
            forall|j: int| start <= j < i ==> #[trigger] line@[j] != ' ',
            fields(line@) == done + fields(line@.skip(start)),
        decreases n - i,
    {
        let c = line[i];
        if c == ' ' {
            proof {
                let rest = line@.skip(start);
                assert forall|j: int| 0 <= j < i - start implies #[trigger] rest[j] != ' ' by {
                    assert(rest[j] == line@[j + start]);
                }
                lemma_first_space(rest, i - start);
                assert(rest.take(i - start) =~= current@);
                assert(rest.skip(i - start + 1) =~= line@.skip(i + 1));
                assert(done + (seq![current@] + fields(line@.skip(i + 1))) =~= done.push(current@)
                    + fields(line@.skip(i + 1)));
                done = done.push(current@);
                start = i + 1;
            }
            parts.push(current);
            current = Vec::new();
            proof {
                assert(current@ =~= line@.subrange(start, i + 1));
            }
        } else {
            current.push(c);
            proof {
                assert(current@ =~= line@.subrange(start, i + 1));
            }
        }
        i += 1;
    }
    proof {
        let rest = line@.skip(start);
        assert forall|j: int| 0 <= j < rest.len() implies #[trigger] rest[j] != ' ' by {
            assert(rest[j] == line@[j + start]);
        }
        lemma_first_space(rest, rest.len() as int);
        assert(rest =~= current@);
        assert(done + seq![current@] =~= done.push(current@));
    }
    parts.push(current);
    parts
}

/// The numbers that the first `count` fields of `line` write; `None` where
/// the line has fewer fields or one of these fields writes no number.
pub fn parse_leading_numbers(line: &str, count: usize) -> (numbers: Option<Vec<i32>>)
    ensures
        numbers is Some <==> leading_numbers_of(line@, count as nat) is Some,
        numbers matches Some(v) ==> v@ == leading_numbers_of(line@, count as nat)->0,
{
    let chars = chars_of(line);
    let parts = split_fields(&chars);
    let ghost expected = fields(line@);
    if parts.len() < count {
        return None;
    }
    let mut numbers: Vec<i32> = Vec::new();
    let mut k: usize = 0;
    while k < count
        invariant
            k <= count <= parts.len(),
            holds_fields(parts@, expected),
            expected == fields(line@),
            numbers.len() == k,
            forall|j: int|
                0 <= j < k ==> number_of(trimmed(#[trigger] expected[j])) == Some(numbers[j]),
        decreases count - k,
    {
        match parse_number(&parts[k]) {
            Some(value) => {
                numbers.push(value);
            },
            None => {
                assert(number_of(trimmed(expected[k as int])) is None);
                return None;
            },
        }
        k += 1;
    }
    assert(numbers@ =~= leading_numbers_of(line@, count as nat)->0);
    Some(numbers)
}

fn is_word(part: &Vec<char>, word: &str) -> (b: bool)
    ensures
        b == (part@ == word@),
{
    let n = word.unicode_len();
    if part.len() != n {
        return false;
    }
    let mut i: usize = 0;
    while i < n
        invariant
            n == word@.len(),
            n == part.len(),
            i <= n,
            forall|j: int| 0 <= j < i ==> part@[j] == word@[j],
        decreases n - i,
    {
        if part[i] != word.get_char(i) {
            return false;
        }
        i += 1;
    }
    assert(part@ =~= word@);
    true
}

fn number_in(parts: &Vec<Vec<char>>, k: usize) -> (number: Option<i32>)
    ensures
        number == if k < parts.len() {
            number_of(trimmed(parts[k as int]@))
        } else {
            None
        },
{
    if k < parts.len() {
        parse_number(&parts[k])
    } else {
        None
    }
}

/// The action that `line` writes, or `None` where it writes none.
pub fn parse_action(line: &str) -> (action: Option<Action>)
    ensures
        action == action_of(line@),
{
    let chars = chars_of(line);
    let parts = split_fields(&chars);
    let ghost expected = fields(line@);
    proof {
        reveal_strlit("GROW");
        reveal_strlit("SEED");
        reveal_strlit("COMPLETE");
        reveal_strlit("WAIT");
        assert("GROW"@ =~= grow_word());
        assert("SEED"@ =~= seed_word());
        assert("COMPLETE"@ =~= complete_word());
        assert("WAIT"@ =~= wait_word());
    }
    let verb = &parts[0];
    if is_word(verb, "GROW") {
        match number_in(&parts, 1) {
            Some(cell) => Some(Action::Grow(cell)),
            None => None,
        }
    } else if is_word(verb, "SEED") {
        let origin = number_in(&parts, 1);
        let target = number_in(&parts, 2);
        match (origin, target) {
            (Some(o), Some(t)) => Some(Action::Seed(t, o)),
            _ => None,
        }
    } else if is_word(verb, "COMPLETE") {
        match number_in(&parts, 1) {
            Some(cell) => Some(Action::Complete(cell)),
            None => None,
        }
    } else if is_word(verb, "WAIT") {
        Some(Action::Wait)
    } else {
        None
    }
}

/// The cell that a line of numbers describes: the index, the richness and
/// the six neighbours, in this order. `None` where the line has fewer than
/// eight numbers; numbers after the eighth are ignored.
pub fn cell_from(numbers: &Vec<i32>) -> (cell: Option<Cell>)
    ensures
        cell is Some <==> numbers.len() >= 8,
        cell matches Some(c) ==> c.index == numbers[0] && c.richness == numbers[1] && forall|d: int|
            0 <= d < 6 ==> #[trigger] c.neighbors[d] == numbers[d + 2],
{
    if numbers.len() < 8 {
        return None;
    }
    Some(
        Cell {
            index: numbers[0],
            richness: numbers[1],
            neighbors: [
                numbers[2],
                numbers[3],
                numbers[4],
                numbers[5],
                numbers[6],
                numbers[7],
            ],
        },
    )
}

/// The tree that a line of numbers describes: the cell, the size, 1 for a
/// tree of the primary player and 1 for a dormant tree, in this order.
/// `None` where the line has fewer than four numbers; numbers after the
/// fourth are ignored.
pub fn tree_from(numbers: &Vec<i32>) -> (tree: Option<Tree>)
    ensures
        tree is Some <==> numbers.len() >= 4,
        tree matches Some(t) ==> t == (Tree {
            cell_index: numbers[0],
            size: numbers[1],
            is_mine: numbers[2] == 1,
            is_dormant: numbers[3] == 1,
        }),
{
    if numbers.len() < 4 {
        return None;
    }
    Some(
        Tree {
            cell_index: numbers[0],
            size: numbers[1],
            is_mine: numbers[2] == 1,
            is_dormant: numbers[3] == 1,
        },
    )
}

} // verus!
