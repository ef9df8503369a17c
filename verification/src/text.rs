//! Text as sequences of characters: numbers, lines, fields and trimming.

use vstd::prelude::*;

verus! {

/// `String::push` appends one character.
pub assume_specification[ String::push ](text: &mut String, character: char)
    ensures
        final(text)@ == old(text)@.push(character),
;

/// The text of each string of a sequence.
pub open spec fn texts(strings: Seq<String>) -> Seq<Seq<char>> {
    Seq::new(strings.len(), |i: int| strings[i]@)
}

/// The characters of a text.
pub fn characters(text: &str) -> (characters: Vec<char>)
    ensures
        characters@ == text@,
{
    let mut characters: Vec<char> = Vec::new();
    for character in iterator: text.chars()
        invariant
            characters@ == iterator.seq().take(iterator.index() as int),
            iterator.seq() == text@,
    {
        characters.push(character);
        assert(characters@ =~= iterator.seq().take(iterator.index() as int + 1));
    }
    assert(characters@ =~= text@);
    characters
}

/// The text that holds `characters[from..to]`.
pub fn piece(characters: &Vec<char>, from: usize, to: usize) -> (text: String)
    requires
        from <= to <= characters@.len(),
    ensures
        text@ == characters@.subrange(from as int, to as int),
{
    let mut text = String::new();
    let mut position: usize = from;
    while position < to
        invariant
            from <= position <= to <= characters@.len(),
            text@ == characters@.subrange(from as int, position as int),
        decreases to - position,
    {
        text.push(characters[position]);
        position += 1;
        assert(text@ =~= characters@.subrange(from as int, position as int));
    }
    text
}

/// Whether two texts hold the same characters.
pub fn same(one: &str, other: &str) -> (equal: bool)
    ensures
        equal == (one@ == other@),
{
    one.to_owned() == other.to_owned()
}

/// The character of a decimal digit.
pub open spec fn digit(value: nat) -> char {
    (48 + value) as char
}

/// The decimal notation of a number, without leading zeros.
pub open spec fn decimal_text(number: nat) -> Seq<char>
    decreases number,
{
    if number < 10 {
        seq![digit(number)]
    } else {
        decimal_text(number / 10).push(digit(number % 10))
    }
}

/// Whether a character is an ASCII digit.
pub open spec fn is_digit(character: char) -> bool {
    '0' <= character <= '9'
}

/// The number that a row of digits denotes.
pub open spec fn digits_value(digits: Seq<char>) -> nat
    decreases digits.len(),
{
    if digits.len() == 0 {
        0
    } else {
        digits_value(digits.drop_last()) * 10 + (digits.last() as nat - 48) as nat
    }
}

/// A number text without the one plus sign that it may start with.
pub open spec fn unsigned_body(text: Seq<char>) -> Seq<char> {
    if text.len() > 0 && text[0] == '+' {
        text.skip(1)
    } else {
        text
    }
}

/// The number that a text denotes: digits, with at most one plus sign before them.
pub open spec fn unsigned_value(text: Seq<char>) -> Option<nat> {
    let body = unsigned_body(text);
    if body.len() > 0 && (forall|i: int| 0 <= i < body.len() ==> is_digit(#[trigger] body[i])) {
        Some(digits_value(body))
    } else {
        None
    }
}

/// Appends the decimal notation of a number.
pub fn push_decimal(text: &mut String, number: u64)
    ensures
        final(text)@ == old(text)@ + decimal_text(number as nat),
    decreases number,
{
    let last = (48u8 + (number % 10) as u8) as char;
    if number >= 10 {
        push_decimal(text, number / 10);
    }
    text.push(last);
    assert(text@ =~= old(text)@ + decimal_text(number as nat));
}

/// The decimal notation of a number.
pub fn decimal(number: u64) -> (text: String)
    ensures
        text@ == decimal_text(number as nat),
{
    let mut text = String::new();
    push_decimal(&mut text, number);
    assert(text@ =~= decimal_text(number as nat));
    text
}

/// Digits to the left only make the number that a row of digits denotes larger.
proof fn digits_value_grows(digits: Seq<char>, count: int)
    requires
        0 <= count <= digits.len(),
        forall|i: int| 0 <= i < digits.len() ==> is_digit(#[trigger] digits[i]),
    ensures
        digits_value(digits.take(count)) <= digits_value(digits),
    decreases digits.len() - count,
{
    if count == digits.len() {
        assert(digits.take(count) =~= digits);
    } else {
        digits_value_grows(digits, count + 1);
        assert(digits.take(count + 1).drop_last() =~= digits.take(count));
    }
}

/// The number that a text denotes, where it denotes one that fits.
pub fn parse_usize(text: &str) -> (number: Option<usize>)
    ensures
        match unsigned_value(text@) {
            Some(value) if value <= usize::MAX => number == Some(value as usize),
            _ => number is None,
        },
{
    let characters = characters(text);
    let start: usize = if characters.len() > 0 && characters[0] == '+' { 1 } else { 0 };
    let ghost body = unsigned_body(text@);
    assert(body =~= text@.skip(start as int));
    if start == characters.len() {
        return None;
    }
    let mut number: usize = 0;
    let mut position: usize = start;
    while position < characters.len()
        invariant
            start <= position <= characters@.len(),
            characters@ == text@,
            body == unsigned_body(text@),
            body =~= text@.skip(start as int),
            forall|i: int| 0 <= i < position - start ==> is_digit(#[trigger] body[i]),
            number == digits_value(body.take(position - start)),
        decreases characters@.len() - position,
    {
        let character = characters[position];
        assert(character == body[position - start]);
        if character < '0' || character > '9' {
            return None;
        }
        let value = (character as u32 - 48) as usize;
        let ghost longer = body.take(position - start + 1);
        assert(longer.drop_last() =~= body.take(position - start));
        assert(longer.last() == character);
        assert(digits_value(longer) == number * 10 + value);
        if number > (usize::MAX - value) / 10 {
            proof {
                if forall|i: int| 0 <= i < body.len() ==> is_digit(#[trigger] body[i]) {
                    digits_value_grows(body, position - start + 1);
                }
            }
            return None;
        }
        number = number * 10 + value;
        position += 1;
    }
    assert(body.take(body.len() as int) =~= body);
    Some(number)
}

/// The decimal notation of a number is digits and denotes that number.
pub proof fn decimal_text_denotes(number: nat)
    ensures
        decimal_text(number).len() > 0,
        forall|i: int| 0 <= i < decimal_text(number).len() ==> is_digit(#[trigger] decimal_text(number)[i]),
        digits_value(decimal_text(number)) == number,
        unsigned_value(decimal_text(number)) == Some(number),
    decreases number,
{
    let text = decimal_text(number);
    if number < 10 {
        assert(text.drop_last() =~= Seq::<char>::empty());
        assert(digits_value(text.drop_last()) == 0);
        assert(text.last() == digit(number));
    } else {
        decimal_text_denotes(number / 10);
        assert(text.drop_last() =~= decimal_text(number / 10));
        assert(text.last() == digit(number % 10));
    }
    assert(is_digit(text[0]));
    assert(unsigned_body(text) == text);
}

/// The pieces of a text between its separators.
pub open spec fn pieces(text: Seq<char>, separator: char) -> Seq<Seq<char>>
    decreases text.len(),
{
    if text.len() == 0 {
        seq![Seq::empty()]
    } else {
        let before = pieces(text.drop_last(), separator);
        if text.last() == separator {
            before.push(Seq::empty())
        } else {
            before.drop_last().push(before.last().push(text.last()))
        }
    }
}

/// Pieces with a separator between each two.
pub open spec fn joined(parts: Seq<Seq<char>>, separator: char) -> Seq<char>
    decreases parts.len(),
{
    if parts.len() == 0 {
        Seq::empty()
    } else if parts.len() == 1 {
        parts[0]
    } else {
        joined(parts.drop_last(), separator).push(separator) + parts.last()
    }
}

/// Splitting at a separator loses nothing: joining the pieces gives the text
/// back, and no piece holds the separator.
pub proof fn pieces_join_back(text: Seq<char>, separator: char)
    ensures
        pieces(text, separator).len() > 0,
        joined(pieces(text, separator), separator) == text,
        forall|i: int| 0 <= i < pieces(text, separator).len() ==> !(
        #[trigger] pieces(text, separator)[i]).contains(separator),
    decreases text.len(),
{
    let all = pieces(text, separator);
    if text.len() == 0 {
        assert(all[0] == Seq::<char>::empty());
        assert(joined(all, separator) =~= text);
    } else {
        let before = pieces(text.drop_last(), separator);
        pieces_join_back(text.drop_last(), separator);
        assert(text =~= text.drop_last().push(text.last()));
        if text.last() == separator {
            assert(all.drop_last() =~= before);
            assert(joined(all, separator) =~= text);
        } else {
            assert(all.drop_last() =~= before.drop_last());
            assert(all.last() == before.last().push(text.last()));
            assert forall|i: int| 0 <= i < all.len() implies !(#[trigger] all[i]).contains(
                separator,
            ) by {
                if i < all.len() - 1 {
                    assert(all[i] == before[i]);
                } else {
                    assert(!before[before.len() - 1].contains(separator));
                    if all[i].contains(separator) {
                        let at = choose|at: int|
                            0 <= at < all[i].len() && all[i][at] == separator;
                        assert(before.last()[at] == separator);
                    }
                }
            }
            assert(joined(all, separator) =~= text);
        }
    }
}

/// Joining pieces that do not hold the separator is undone by splitting.
pub proof fn joined_splits_back(parts: Seq<Seq<char>>, separator: char)
    requires
        parts.len() > 0,
        forall|i: int| 0 <= i < parts.len() ==> !(#[trigger] parts[i]).contains(separator),
    ensures
        pieces(joined(parts, separator), separator) == parts,
    decreases parts.len(),
{
    if parts.len() == 1 {
        pieces_append(Seq::empty(), parts[0], separator);
        assert(Seq::<char>::empty() + parts[0] =~= parts[0]);
        assert(pieces(Seq::<char>::empty(), separator) =~= seq![Seq::<char>::empty()]);
        assert(pieces(parts[0], separator) =~= parts);
    } else {
        assert forall|i: int| 0 <= i < parts.drop_last().len() implies !(
        #[trigger] parts.drop_last()[i]).contains(separator) by {
            assert(parts.drop_last()[i] == parts[i]);
        }
        joined_splits_back(parts.drop_last(), separator);
        let before = joined(parts.drop_last(), separator).push(separator);
        assert(before.drop_last() =~= joined(parts.drop_last(), separator));
        assert(pieces(before, separator) == parts.drop_last().push(Seq::empty()));
        assert(!parts[parts.len() - 1].contains(separator));
        pieces_append(before, parts.last(), separator);
        assert(pieces(before, separator).drop_last() =~= parts.drop_last());
        assert(Seq::<char>::empty() + parts.last() =~= parts.last());
        assert(pieces(joined(parts, separator), separator) =~= parts);
    }
}

/// A tail without separators only lengthens the last piece.
pub proof fn pieces_append(text: Seq<char>, tail: Seq<char>, separator: char)
    requires
        !tail.contains(separator),
    ensures
        pieces(text, separator).len() > 0,
        pieces(text + tail, separator) == pieces(text, separator).drop_last().push(
            pieces(text, separator).last() + tail,
        ),
    decreases tail.len(),
{
    pieces_join_back(text, separator);
    let before = pieces(text, separator);
    if tail.len() == 0 {
        assert(text + tail =~= text);
        assert(before.last() + tail =~= before.last());
        assert(before.drop_last().push(before.last()) =~= before);
    } else {
        assert forall|i: int| 0 <= i < tail.drop_last().len() implies tail.drop_last()[i]
            != separator by {
            assert(tail.contains(tail[i]));
        }
        pieces_append(text, tail.drop_last(), separator);
        assert((text + tail).drop_last() =~= text + tail.drop_last());
        assert(tail.contains(tail.last()));
        let most = pieces(text + tail.drop_last(), separator);
        assert(most.drop_last() =~= before.drop_last());
        assert((before.last() + tail.drop_last()).push(tail.last()) =~= before.last() + tail);
    }
}

/// Splits a text at each separator.
pub fn split(text: &str, separator: char) -> (parts: Vec<String>)
    ensures
        texts(parts@) == pieces(text@, separator),
{
    let characters = characters(text);
    let mut parts: Vec<String> = Vec::new();
    let mut current = String::new();
    let mut position: usize = 0;
    assert(text@.take(0) =~= Seq::<char>::empty());
    assert(texts(parts@).push(current@) =~= pieces(text@.take(0), separator));
    while position < characters.len()
        invariant
            position <= characters@.len(),
            characters@ == text@,
            texts(parts@).push(current@) == pieces(text@.take(position as int), separator),
        decreases characters@.len() - position,
    {
        let character = characters[position];
        let ghost shorter = text@.take(position as int);
        let ghost longer = text@.take(position as int + 1);
        assert(longer.drop_last() =~= shorter);
        assert(longer.last() == character);
        let ghost before = texts(parts@).push(current@);
        assert(before.drop_last() =~= texts(parts@));
        assert(before.last() == current@);
        if character == separator {
            let ghost done = parts@;
            parts.push(current);
            assert(texts(parts@) =~= before);
            current = String::new();
        } else {
            current.push(character);
        }
        position += 1;
        assert(texts(parts@).push(current@) =~= pieces(longer, separator));
    }
    assert(text@.take(position as int) =~= text@);
    let ghost before = texts(parts@).push(current@);
    parts.push(current);
    assert(texts(parts@) =~= before);
    parts
}

/// A text without the one carriage return that it may end in.
pub open spec fn without_return(text: Seq<char>) -> Seq<char> {
    if text.len() > 0 && text.last() == '\r' {
        text.drop_last()
    } else {
        text
    }
}

/// The lines of a text: what stands between line feeds, a carriage return
/// before a line feed dropped, and no empty line after the last line feed.
pub open spec fn lines_of(text: Seq<char>) -> Seq<Seq<char>> {
    let parts = pieces(text, '\n');
    let ended = Seq::new((parts.len() - 1) as nat, |i: int| without_return(parts[i]));
    if parts.last().len() == 0 {
        ended
    } else {
        ended.push(parts.last())
    }
}

/// The lines of a text.
pub fn lines(text: &str) -> (found: Vec<String>)
    ensures
        texts(found@) == lines_of(text@),
{
    let mut parts = split(text, '\n');
    let ghost all = pieces(text@, '\n');
    proof {
        pieces_join_back(text@, '\n');
        assert(texts(parts@).len() == parts@.len());
    }
    let ghost given = parts@;
    let mut found: Vec<String> = Vec::new();
    let mut position: usize = 0;
    while position < parts.len() - 1
        invariant
            parts@.len() > 0,
            texts(parts@) == all,
            position <= parts@.len() - 1,
            texts(found@) == Seq::new(position as nat, |i: int| without_return(all[i])),
        decreases parts@.len() - position,
    {
        let characters = characters(parts[position].as_str());
        assert(characters@ == all[position as int]);
        let end: usize = if characters.len() > 0 && characters[characters.len() - 1] == '\r' {
            characters.len() - 1
        } else {
            characters.len()
        };
        let line = piece(&characters, 0, end);
        assert(line@ =~= without_return(all[position as int]));
        let ghost before = texts(found@);
        found.push(line);
        assert(texts(found@) =~= before.push(line@));
        position += 1;
        assert(texts(found@) =~= Seq::new(position as nat, |i: int| without_return(all[i])));
    }
    let last = parts.pop().unwrap();
    assert(last@ == texts(given).last());
    if !last.as_str().is_empty() {
        let ghost before = found@;
        found.push(last);
        assert(texts(found@) =~= texts(before).push(last@));
    }
    found
}

/// Where a character first stands.
pub fn find(characters: &Vec<char>, wanted: char) -> (position: Option<usize>)
    ensures
        match position {
            Some(position) => position < characters@.len() && characters@[position as int] == wanted
                && !characters@.take(position as int).contains(wanted),
            None => !characters@.contains(wanted),
        },
{
    for position in 0..characters.len()
        invariant
            !characters@.take(position as int).contains(wanted),
    {
        if characters[position] == wanted {
            return Some(position);
        }
        assert(characters@.take(position + 1) =~= characters@.take(position as int).push(
            characters@[position as int],
        ));
    }
    assert(characters@.take(characters@.len() as int) =~= characters@);
    None
}

/// Whether a text starts with another.
pub open spec fn starts(text: Seq<char>, prefix: Seq<char>) -> bool {
    prefix.len() <= text.len() && text.take(prefix.len() as int) == prefix
}

/// Whether a text starts with another.
pub fn starts_with(text: &str, prefix: &str) -> (answer: bool)
    ensures
        answer == starts(text@, prefix@),
{
    let whole = characters(text);
    let start = characters(prefix);
    if start.len() > whole.len() {
        return false;
    }
    let mut position: usize = 0;
    while position < start.len()
        invariant
            position <= start@.len() <= whole@.len(),
            start@ == prefix@,
            whole@ == text@,
            forall|i: int| 0 <= i < position ==> whole@[i] == start@[i],
        decreases start@.len() - position,
    {
        if whole[position] != start[position] {
            assert(text@.take(prefix@.len() as int)[position as int] != prefix@[position as int]);
            return false;
        }
        position += 1;
    }
    assert(text@.take(prefix@.len() as int) =~= prefix@);
    true
}

/// What follows a prefix, where the text starts with it.
pub fn strip_prefix(text: &str, prefix: &str) -> (rest: Option<String>)
    ensures
        match rest {
            Some(rest) => starts(text@, prefix@) && rest@ == text@.skip(prefix@.len() as int),
            None => !starts(text@, prefix@),
        },
        rest matches Some(rest) ==> text@ == prefix@ + rest@,
        rest is None ==> forall|tail: Seq<char>| text@ != #[trigger] (prefix@ + tail),
{
    if !starts_with(text, prefix) {
        assert forall|tail: Seq<char>| text@ != #[trigger] (prefix@ + tail) by {
            assert((prefix@ + tail).take(prefix@.len() as int) =~= prefix@);
        }
        return None;
    }
    let whole = characters(text);
    let start = characters(prefix);
    let rest = piece(&whole, start.len(), whole.len());
    assert(rest@ =~= text@.skip(prefix@.len() as int));
    assert(text@ =~= text@.take(prefix@.len() as int) + rest@);
    Some(rest)
}

/// Whether a character has the Unicode property `White_Space`.
pub open spec fn is_white_space(character: char) -> bool {
    let code = character as u32;
    ||| 9 <= code <= 13
    ||| code == 0x20
    ||| code == 0x85
    ||| code == 0xA0
    ||| code == 0x1680
    ||| 0x2000 <= code <= 0x200A
    ||| code == 0x2028
    ||| code == 0x2029
    ||| code == 0x202F
    ||| code == 0x205F
    ||| code == 0x3000
}

/// `char::is_whitespace` tests for the Unicode property `White_Space`, which
/// the characters that `is_white_space` lists have and no others.
pub assume_specification[ char::is_whitespace ](character: char) -> (answer: bool)
    ensures
        answer == is_white_space(character),
;

/// A text without the white space that it ends in.
pub open spec fn trimmed_end(text: Seq<char>) -> Seq<char>
    decreases text.len(),
{
    if text.len() > 0 && is_white_space(text.last()) {
        trimmed_end(text.drop_last())
    } else {
        text
    }
}

/// A text without the white space that it starts with.
pub open spec fn trimmed_start(text: Seq<char>) -> Seq<char>
    decreases text.len(),
{
    if text.len() > 0 && is_white_space(text[0]) {
        trimmed_start(text.skip(1))
    } else {
        text
    }
}

/// Drops the white space that a text ends in.
pub fn trim_end(text: &str) -> (kept: String)
    ensures
        kept@ == trimmed_end(text@),
{
    let characters = characters(text);
    let mut end: usize = characters.len();
    assert(text@.take(end as int) =~= text@);
    while end > 0 && characters[end - 1].is_whitespace()
        invariant
            end <= characters@.len(),
            characters@ == text@,
            trimmed_end(text@) == trimmed_end(text@.take(end as int)),
        decreases end,
    {
        assert(text@.take(end as int).drop_last() =~= text@.take(end - 1));
        end -= 1;
    }
    let kept = piece(&characters, 0, end);
    assert(kept@ =~= text@.take(end as int));
    kept
}

/// Drops the white space that a text starts with and ends in.
pub fn trim(text: &str) -> (kept: String)
    ensures
        kept@ == trimmed_start(trimmed_end(text@)),
{
    let shorter = trim_end(text);
    let characters = characters(shorter.as_str());
    let mut start: usize = 0;
    assert(shorter@.skip(0) =~= shorter@);
    while start < characters.len() && characters[start].is_whitespace()
        invariant
            start <= characters@.len(),
            characters@ == shorter@,
            trimmed_start(shorter@) == trimmed_start(shorter@.skip(start as int)),
        decreases characters@.len() - start,
    {
        assert(shorter@.skip(start as int).skip(1) =~= shorter@.skip(start + 1));
        start += 1;
    }
    let kept = piece(&characters, start, characters.len());
    assert(kept@ =~= shorter@.skip(start as int));
    kept
}

/// A text without the characters of one kind that it starts with.
pub open spec fn without_leading(text: Seq<char>, character: char) -> Seq<char>
    decreases text.len(),
{
    if text.len() > 0 && text[0] == character {
        without_leading(text.skip(1), character)
    } else {
        text
    }
}

/// Drops the characters of one kind that a text starts with.
pub fn trim_leading(text: &str, character: char) -> (kept: String)
    ensures
        kept@ == without_leading(text@, character),
{
    let characters = characters(text);
    let mut start: usize = 0;
    assert(text@.skip(0) =~= text@);
    while start < characters.len() && characters[start] == character
        invariant
            start <= characters@.len(),
            characters@ == text@,
            without_leading(text@, character) == without_leading(
                text@.skip(start as int),
                character,
            ),
        decreases characters@.len() - start,
    {
        assert(text@.skip(start as int).skip(1) =~= text@.skip(start + 1));
        start += 1;
    }
    let kept = piece(&characters, start, characters.len());
    assert(kept@ =~= text@.skip(start as int));
    kept
}

/// The text that `String::from_utf8_lossy` reads bytes as.
pub uninterp spec fn lossy_text(bytes: Seq<u8>) -> Seq<char>;

/// `String::from_utf8_lossy` reads bytes as text, a function of the bytes
/// alone; bytes that are UTF-8 are read as the text they encode.
#[verifier::external_body]
pub(crate) fn read_lossy(bytes: &Vec<u8>) -> (text: String)
    ensures
        text@ == lossy_text(bytes@),
        vstd::utf8::valid_utf8(bytes@) ==> text@ == vstd::utf8::decode_utf8(bytes@),
{
    String::from_utf8_lossy(bytes).into_owned()
}

/// A text starts with another exactly where something follows the other in it.
pub proof fn starting_is_being_followed(text: Seq<char>, prefix: Seq<char>, tail: Seq<char>)
    ensures
        text == prefix + tail ==> starts(text, prefix),
        starts(text, prefix) ==> text == prefix + text.skip(prefix.len() as int),
{
    assert((prefix + tail).take(prefix.len() as int) =~= prefix);
    if starts(text, prefix) {
        assert(text =~= text.take(prefix.len() as int) + text.skip(prefix.len() as int));
    }
}

/// Decimal notation counts in tens, both ways: one more digit makes a number ten
/// times as large and adds the digit, from `0` for none to `9` for nine.
pub proof fn digits_count_in_tens(number: nat, digit: nat, digits: Seq<char>, character: char)
    requires
        digit < 10,
    ensures
        decimal_text(digit) == seq![(48 + digit) as char],
        number > 0 ==> decimal_text(10 * number + digit) == decimal_text(number).push(
            (48 + digit) as char,
        ),
        '0' as nat == 48,
        is_digit(character) <==> 48 <= character as nat <= 57,
        digits_value(Seq::empty()) == 0,
        is_digit(character) ==> digits_value(digits.push(character)) == 10 * digits_value(digits)
            + (character as nat - 48),
{
    assert(digits.push(character).drop_last() =~= digits);
    assert((10 * number + digit) / 10 == number && (10 * number + digit) % 10 == digit);
}

/// A text denotes a number where it is digits and nothing else, but for one plus
/// sign before them, and then it denotes the number of these digits.
pub proof fn numbers_are_digits(text: Seq<char>, digits: Seq<char>)
    requires
        text == digits || text == seq!['+'] + digits,
        digits.len() > 0,
        digits[0] != '+',
    ensures
        unsigned_value(text) is Some <==> forall|i: int|
            0 <= i < digits.len() ==> '0' <= (#[trigger] digits[i]) <= '9',
        unsigned_value(text) matches Some(value) ==> value == digits_value(digits),
        unsigned_value(Seq::empty()) is None,
        unsigned_value(seq!['+']) is None,
        unsigned_value(seq!['+', '+'] + digits) is None,
{
    assert((seq!['+'] + digits).skip(1) =~= digits);
    assert(seq!['+'].skip(1) =~= Seq::<char>::empty());
    let twice = seq!['+', '+'] + digits;
    assert(twice.skip(1)[0] == '+');
    assert(!is_digit(twice.skip(1)[0]));
    assert(unsigned_body(text) == digits);
    if forall|i: int| 0 <= i < digits.len() ==> '0' <= (#[trigger] digits[i]) <= '9' {
        assert forall|i: int| 0 <= i < digits.len() implies is_digit(#[trigger] digits[i]) by {}
    } else {
        let i = choose|i: int|
            0 <= i < digits.len() && !('0' <= (#[trigger] digits[i]) <= '9');
        assert(!is_digit(digits[i]));
    }
}

/// What is joined: nothing gives nothing, one piece gives itself, and one more
/// piece comes behind a separator.
pub proof fn joining_puts_separators_between(
    parts: Seq<Seq<char>>,
    part: Seq<char>,
    separator: char,
)
    ensures
        joined(Seq::empty(), separator) == Seq::<char>::empty(),
        joined(seq![part], separator) == part,
        parts.len() > 0 ==> joined(parts.push(part), separator) == joined(parts, separator) + seq![
            separator,
        ] + part,
{
    assert(parts.push(part).drop_last() =~= parts);
    assert(joined(parts, separator).push(separator) =~= joined(parts, separator) + seq![separator]);
}

/// The lines of a text: each but a last empty one comes back, without a carriage
/// return at its end where a line feed follows it.
pub proof fn lines_are_what_stands_between_line_feeds(text: Seq<char>, i: int)
    ensures
        ({
            let parts = pieces(text, '\n');
            let found = lines_of(text);
            &&& parts.last().len() == 0 ==> found.len() == parts.len() - 1
            &&& parts.last().len() > 0 ==> found.len() == parts.len() && found.last()
                == parts.last()
            &&& 0 <= i < parts.len() - 1 && parts[i].len() > 0 && parts[i].last() == '\r'
                ==> found[i] + seq!['\r'] == parts[i]
            &&& 0 <= i < parts.len() - 1 && (parts[i].len() == 0 || parts[i].last() != '\r')
                ==> found[i] == parts[i]
        }),
{
    pieces_join_back(text, '\n');
    let parts = pieces(text, '\n');
    if 0 <= i < parts.len() - 1 && parts[i].len() > 0 && parts[i].last() == '\r' {
        assert(parts[i].drop_last() + seq!['\r'] =~= parts[i]);
    }
}

/// Trimming takes white space off an end and nothing else, and leaves none there.
pub proof fn trimming_takes_white_space_off(text: Seq<char>) -> (spaces: (Seq<char>, Seq<char>))
    ensures
        text == trimmed_end(text) + spaces.0,
        forall|i: int| 0 <= i < spaces.0.len() ==> is_white_space(#[trigger] spaces.0[i]),
        trimmed_end(text).len() > 0 ==> !is_white_space(trimmed_end(text).last()),
        text == spaces.1 + trimmed_start(text),
        forall|i: int| 0 <= i < spaces.1.len() ==> is_white_space(#[trigger] spaces.1[i]),
        trimmed_start(text).len() > 0 ==> !is_white_space(trimmed_start(text)[0]),
    decreases text.len(),
{
    let behind = if text.len() > 0 && is_white_space(text.last()) {
        let (shorter, _) = trimming_takes_white_space_off(text.drop_last());
        assert(trimmed_end(text) + shorter.push(text.last()) =~= (trimmed_end(text.drop_last())
            + shorter).push(text.last()));
        assert(text =~= text.drop_last().push(text.last()));
        shorter.push(text.last())
    } else {
        assert(text + Seq::<char>::empty() =~= text);
        Seq::empty()
    };
    let before = if text.len() > 0 && is_white_space(text[0]) {
        let (_, shorter) = trimming_takes_white_space_off(text.skip(1));
        assert((seq![text[0]] + shorter) + trimmed_start(text) =~= seq![text[0]] + (shorter
            + trimmed_start(text.skip(1))));
        assert(text =~= seq![text[0]] + text.skip(1));
        seq![text[0]] + shorter
    } else {
        assert(Seq::<char>::empty() + text =~= text);
        Seq::empty()
    };
    (behind, before)
}

/// Dropping the characters of one kind that a text starts with drops these and
/// nothing else, and leaves none there.
pub proof fn leading_characters_are_dropped(text: Seq<char>, character: char) -> (count: int)
    ensures
        0 <= count <= text.len(),
        without_leading(text, character) == text.skip(count),
        forall|i: int| 0 <= i < count ==> text[i] == character,
        count < text.len() ==> text[count] != character,
    decreases text.len(),
{
    if text.len() > 0 && text[0] == character {
        let fewer = leading_characters_are_dropped(text.skip(1), character);
        assert(text.skip(1).skip(fewer) =~= text.skip(fewer + 1));
        assert forall|i: int| 0 <= i < fewer + 1 implies text[i] == character by {
            if i > 0 {
                assert(text.skip(1)[i - 1] == character);
            }
        }
        if fewer < text.len() - 1 {
            assert(text.skip(1)[fewer] == text[fewer + 1]);
        }
        fewer + 1
    } else {
        assert(text.skip(0) =~= text);
        0
    }
}

/// The texts of strings are those of each of them.
pub proof fn texts_are_told_one_by_one(strings: Seq<String>, i: int)
    requires
        0 <= i < strings.len(),
    ensures
        texts(strings).len() == strings.len(),
        texts(strings)[i] == strings[i]@,
{
}

} // verus!
