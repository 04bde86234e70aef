//! Reading what the user typed.
//!
//! Answers are read as bytes. Blanks at both ends do not count, and letters
//! count without their case.

use vstd::prelude::*;
use crate::cleanup::{cache_types, caches_of_type, list_cache_types, of_type};
use crate::model::{utf8_bytes, CacheInfo, CacheRecord};

verus! {

/// The plus sign.
pub const PLUS: u8 = 43;

/// The comma.
pub const COMMA: u8 = 44;

/// The space and the control characters from tab to carriage return.
pub open spec fn is_blank(byte: u8) -> bool {
    byte == 32 || (9 <= byte && byte <= 13)
}

/// The first position from `from` on, below `to`, that holds no blank; `to` if
/// there is none.
pub open spec fn first_solid(text: Seq<u8>, from: int, to: int) -> int
    decreases to - from,
{
    if from < to && is_blank(text[from]) {
        first_solid(text, from + 1, to)
    } else {
        from
    }
}

/// The position behind the last byte below `to`, from `from` on, that is no
/// blank; `from` if there is none.
pub open spec fn last_solid(text: Seq<u8>, from: int, to: int) -> int
    decreases to - from,
{
    if from < to && is_blank(text[to - 1]) {
        last_solid(text, from, to - 1)
    } else {
        to
    }
}

/// The bytes of `text` from `from` up to `to`, without the blanks at both ends.
pub open spec fn trimmed(text: Seq<u8>, from: int, to: int) -> Seq<u8> {
    let start = first_solid(text, from, to);
    text.subrange(start, last_solid(text, start, to))
}

/// An ASCII letter in lower case; any other byte as it is.
pub open spec fn lower(byte: u8) -> u8 {
    if 65 <= byte && byte <= 90 {
        (byte + 32) as u8
    } else {
        byte
    }
}

/// `text` is the lower-case word `word`, case aside.
pub open spec fn reads_as(text: Seq<u8>, word: Seq<u8>) -> bool {
    &&& text.len() == word.len()
    &&& forall|k: int| 0 <= k < text.len() ==> lower(#[trigger] text[k]) == word[k]
}

/// The word `y`.
pub open spec fn word_y() -> Seq<u8> {
    utf8_bytes("y"@)
}

/// The word `yes`.
pub open spec fn word_yes() -> Seq<u8> {
    utf8_bytes("yes"@)
}

/// The word `all`.
pub open spec fn word_all() -> Seq<u8> {
    utf8_bytes("all"@)
}

/// The answer means yes: it is `y` or `yes`, case and blanks at the ends aside.
pub open spec fn means_yes(answer: Seq<u8>) -> bool {
    let word = trimmed(answer, 0, answer.len() as int);
    reads_as(word, word_y()) || reads_as(word, word_yes())
}

/// The byte is a decimal digit.
pub open spec fn is_digit(byte: u8) -> bool {
    48 <= byte && byte <= 57
}

/// The number that the decimal digits `digits` write.
pub open spec fn decimal_value(digits: Seq<u8>) -> nat
    decreases digits.len(),
{
    if digits.len() == 0 {
        0
    } else {
        decimal_value(digits.drop_last()) * 10 + (digits.last() - 48) as nat
    }
}

/// The digits of a number that may carry a plus sign.
pub open spec fn unsigned_part(piece: Seq<u8>) -> Seq<u8> {
    if piece.len() > 0 && piece[0] == PLUS {
        piece.subrange(1, piece.len() as int)
    } else {
        piece
    }
}

/// The number that `piece` writes: one or more decimal digits, with or without
/// a plus sign before them, that write a number of the machine's size.
pub open spec fn number_of(piece: Seq<u8>) -> Option<usize> {
    let digits = unsigned_part(piece);
    if digits.len() > 0 && (forall|k: int| 0 <= k < digits.len() ==> is_digit(#[trigger] digits[k]))
        && decimal_value(digits) <= usize::MAX {
        Some(decimal_value(digits) as usize)
    } else {
        None
    }
}

/// The number of the piece from `from` up to `to`, blanks at its ends aside,
/// as a list of one number or none.
pub open spec fn piece_number(text: Seq<u8>, from: int, to: int) -> Seq<usize> {
    match number_of(trimmed(text, from, to)) {
        Some(number) => seq![number],
        None => Seq::empty(),
    }
}

/// The numbers in `text` up to `to`, from the piece that begins at `start` on,
/// the scan standing at `at`. Commas part the pieces; a piece that writes no
/// number is passed over.
pub open spec fn numbers_in(text: Seq<u8>, start: int, at: int, to: int) -> Seq<usize>
    decreases to - at,
{
    if at >= to {
        piece_number(text, start, to)
    } else if text[at] == COMMA {
        piece_number(text, start, at) + numbers_in(text, at + 1, at + 1, to)
    } else {
        numbers_in(text, start, at + 1, to)
    }
}

/// The numbers that `answer` lists between commas, blanks at its ends aside.
pub open spec fn listed_numbers(answer: Seq<u8>) -> Seq<usize> {
    let start = first_solid(answer, 0, answer.len() as int);
    numbers_in(answer, start, start, last_solid(answer, start, answer.len() as int))
}

/// What the user chose among numbered options.
#[derive(Debug, PartialEq, Eq)]
pub enum Selection {
    /// Nothing was typed.
    Nothing,
    /// Every option.
    All,
    /// The options with these numbers, as typed.
    Numbers(Vec<usize>),
}

/// The choice that `answer` writes.
pub open spec fn writes_choice(answer: Seq<u8>, choice: Selection) -> bool {
    let word = trimmed(answer, 0, answer.len() as int);
    match choice {
        Selection::Nothing => word.len() == 0,
        Selection::All => reads_as(word, word_all()),
        Selection::Numbers(numbers) => word.len() > 0 && !reads_as(word, word_all()) && numbers@
            == listed_numbers(answer),
    }
}

/// Finds the stretch of `text` between `from` and `to` that is left when the
/// blanks at both ends are taken away.
fn trim(text: &[u8], from: usize, to: usize) -> (stretch: (usize, usize))
    requires
        from <= to <= text@.len(),
    ensures
        from <= stretch.0 <= stretch.1 <= to,
        stretch.0 == first_solid(text@, from as int, to as int),
        stretch.1 == last_solid(text@, stretch.0 as int, to as int),
        text@.subrange(stretch.0 as int, stretch.1 as int) == trimmed(text@, from as int, to as int),
{
    let mut start: usize = from;
    while start < to && blank(text[start])
        invariant
            from <= start <= to <= text@.len(),
            first_solid(text@, from as int, to as int) == first_solid(text@, start as int, to as int),
        decreases to - start,
    {
        start += 1;
    }
    let mut end: usize = to;
    while start < end && blank(text[end - 1])
        invariant
            start <= end <= to <= text@.len(),
            last_solid(text@, start as int, to as int) == last_solid(text@, start as int, end as int),
        decreases end - start,
    {
        end -= 1;
    }
    (start, end)
}

/// Whether `byte` is a blank.
fn blank(byte: u8) -> (yes: bool)
    ensures
        yes == is_blank(byte),
{
    byte == 32 || (9 <= byte && byte <= 13)
}

/// An ASCII letter in lower case; any other byte as it is.
fn to_lower(byte: u8) -> (low: u8)
    ensures
        low == lower(byte),
{
    if 65 <= byte && byte <= 90 {
        byte + 32
    } else {
        byte
    }
}

/// Whether the stretch of `text` from `from` up to `to` is `word`, case aside.
fn stretch_reads_as(text: &[u8], from: usize, to: usize, word: &[u8]) -> (yes: bool)
    requires
        from <= to <= text@.len(),
    ensures
        yes == reads_as(text@.subrange(from as int, to as int), word@),
{
    if to - from != word.len() {
        return false;
    }
    let ghost stretch = text@.subrange(from as int, to as int);
    let mut k: usize = 0;
    while k < word.len()
        invariant
            k <= word@.len(),
            from + word@.len() == to,
            to <= text@.len(),
            stretch == text@.subrange(from as int, to as int),
            forall|j: int| 0 <= j < k ==> lower(#[trigger] stretch[j]) == word@[j],
        decreases word@.len() - k,
    {
        if to_lower(text[from + k]) != word[k] {
            assert(lower(stretch[k as int]) != word@[k as int]);
            return false;
        }
        k += 1;
    }
    true
}

/// Whether the answer means yes: `y` or `yes`, case and blanks at the ends
/// aside.
pub fn is_yes(answer: &str) -> (yes: bool)
    ensures
        yes == means_yes(utf8_bytes(answer@)),
{
    let text = answer.as_bytes();
    let (start, end) = trim(text, 0, text.len());
    stretch_reads_as(text, start, end, "y".as_bytes()) || stretch_reads_as(
        text,
        start,
        end,
        "yes".as_bytes(),
    )
}

/// A number does not shrink when digits are written behind it.
proof fn lemma_decimal_grows(digits: Seq<u8>, k: int)
    requires
        0 <= k <= digits.len(),
        forall|j: int| 0 <= j < digits.len() ==> is_digit(#[trigger] digits[j]),
    ensures
        decimal_value(digits.take(k)) <= decimal_value(digits),
    decreases digits.len() - k,
{
    if k == digits.len() {
        assert(digits.take(k) =~= digits);
    } else {
        lemma_decimal_grows(digits, k + 1);
        assert(digits.take(k + 1).drop_last() =~= digits.take(k));
    }
}

/// Reads the number that the stretch of `text` from `from` up to `to` writes.
fn parse_number(text: &[u8], from: usize, to: usize) -> (number: Option<usize>)
    requires
        from <= to <= text@.len(),
    ensures
        number == number_of(text@.subrange(from as int, to as int)),
{
    let ghost piece = text@.subrange(from as int, to as int);
    let start: usize = if from < to && text[from] == PLUS {
        from + 1
    } else {
        from
    };
    let ghost digits = text@.subrange(start as int, to as int);
    assert(digits =~= unsigned_part(piece));
    if start == to {
        return None;
    }
    let mut value: usize = 0;
    let mut k: usize = start;
    assert(digits.take(0) =~= Seq::empty());
    while k < to
        invariant
            from <= start <= k <= to <= text@.len(),
            start < to,
            piece == text@.subrange(from as int, to as int),
            digits == text@.subrange(start as int, to as int),
            digits == unsigned_part(piece),
            forall|j: int| 0 <= j < k - start ==> is_digit(#[trigger] digits[j]),
            value == decimal_value(digits.take(k - start)),
        decreases to - k,
    {
        let byte: u8 = text[k];
        assert(digits[k - start] == byte);
        if byte < 48 || byte > 57 {
            return None;
        }
        let digit: usize = (byte - 48) as usize;
        proof {
            assert(digits.take(k - start + 1).drop_last() =~= digits.take(k - start));
        }
        if value > (usize::MAX - digit) / 10 {
            proof {
                if forall|j: int| 0 <= j < digits.len() ==> is_digit(#[trigger] digits[j]) {
                    lemma_decimal_grows(digits, k - start + 1);
                }
            }
            return None;
        }
        value = value * 10 + digit;
        k += 1;
    }
    assert(digits.take(k - start) =~= digits);
    Some(value)
}

/// Reads the choice that `answer` writes: nothing, the word `all`, or numbers
/// between commas. What is no number between two commas is passed over.
pub fn parse_selection(answer: &str) -> (choice: Selection)
    ensures
        writes_choice(utf8_bytes(answer@), choice),
{
    let text = answer.as_bytes();
    let (start, end) = trim(text, 0, text.len());
    if start == end {
        return Selection::Nothing;
    }
    if stretch_reads_as(text, start, end, "all".as_bytes()) {
        return Selection::All;
    }
    let mut numbers: Vec<usize> = Vec::new();
    let mut piece: usize = start;
    let mut at: usize = start;
    while at < end
        invariant
            start <= piece <= at <= end <= text@.len(),
            numbers_in(text@, start as int, start as int, end as int) == numbers@ + numbers_in(
                text@,
                piece as int,
                at as int,
                end as int,
            ),
        decreases end - at,
    {
        if text[at] == COMMA {
            let (a, b) = trim(text, piece, at);
            let ghost before = numbers@;
            match parse_number(text, a, b) {
                Some(number) => {
                    numbers.push(number);
                },
                None => {},
            }
            assert(numbers@ =~= before + piece_number(text@, piece as int, at as int));
            assert(numbers_in(text@, start as int, start as int, end as int) =~= numbers@
                + numbers_in(text@, at + 1, at + 1, end as int));
            piece = at + 1;
        }
        at += 1;
    }
    let (a, b) = trim(text, piece, end);
    let ghost before = numbers@;
    match parse_number(text, a, b) {
        Some(number) => {
            numbers.push(number);
        },
        None => {},
    }
    assert(numbers@ =~= before + piece_number(text@, piece as int, end as int));
    Selection::Numbers(numbers)
}

/// The cache directories that the option number `number` stands for: those of
/// the label with that number, counting the labels from one in the order in
/// which they show up. A number without a label stands for none.
pub open spec fn numbered(caches: Seq<CacheRecord>, number: usize) -> Seq<CacheRecord> {
    if 1 <= number <= cache_types(caches).len() {
        of_type(caches, cache_types(caches)[number - 1])
    } else {
        Seq::empty()
    }
}

/// The cache directories that `choice` stands for, in the order of the choice.
pub open spec fn chosen(caches: Seq<CacheRecord>, choice: Selection) -> Seq<CacheRecord> {
    match choice {
        Selection::Nothing => Seq::empty(),
        Selection::All => caches,
        Selection::Numbers(numbers) => numbers@.map_values(
            |number: usize| numbered(caches, number),
        ).flatten(),
    }
}

/// The cache directories to clear for `choice`: all of them, or those of the
/// labels whose numbers were typed, number by number.
pub fn chosen_caches(caches: &Vec<CacheInfo>, choice: &Selection) -> (picked: Vec<CacheInfo>)
    ensures
        picked.deep_view() == chosen(caches.deep_view(), *choice),
{
    let mut picked: Vec<CacheInfo> = Vec::new();
    match choice {
        Selection::Nothing => {
            assert(picked.deep_view() =~= Seq::empty());
        },
        Selection::All => {
            let mut k: usize = 0;
            while k < caches.len()
                invariant
                    k <= caches@.len(),
                    picked@.len() == k,
                    forall|j: int| 0 <= j < k ==> (#[trigger] picked@[j]) == caches@[j],
                decreases caches@.len() - k,
            {
                picked.push(caches[k].clone());
                k += 1;
            }
            assert(picked.deep_view() =~= caches.deep_view());
        },
        Selection::Numbers(numbers) => {
            let types = list_cache_types(caches);
            let ghost parts = numbers@.map_values(
                |number: usize| numbered(caches.deep_view(), number),
            );
            let mut k: usize = 0;
            proof {
                assert(parts.take(0) =~= Seq::empty());
                assert(picked.deep_view() =~= parts.take(0).flatten());
                assert(types.deep_view().len() == types@.len());
            }
            while k < numbers.len()
                invariant
                    k <= numbers@.len(),
                    types.deep_view() == cache_types(caches.deep_view()),
                    types.deep_view().len() == types@.len(),
                    parts == numbers@.map_values(
                        |number: usize| numbered(caches.deep_view(), number),
                    ),
                    picked.deep_view() == parts.take(k as int).flatten(),
                decreases numbers@.len() - k,
            {
                let number: usize = numbers[k];
                let ghost before = picked.deep_view();
                proof {
                    assert(parts.take(k + 1) =~= parts.take(k as int).push(parts[k as int]));
                    parts.take(k as int).lemma_flatten_push(parts[k as int]);
                }
                if 1 <= number && number <= types.len() {
                    assert(types.deep_view()[number - 1] == types@[number - 1]@);
                    let mut part = caches_of_type(caches, &types[number - 1]);
                    let ghost added = part.deep_view();
                    picked.append(&mut part);
                    assert(picked.deep_view() =~= before + added);
                } else {
                    assert(before + parts[k as int] =~= before);
                }
                k += 1;
            }
            assert(parts.take(k as int) =~= parts);
        },
    }
    picked
}

} // verus!
