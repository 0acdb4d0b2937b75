//! Text primitives: trimming, ASCII case, searching, decimal numbers.

use vstd::prelude::*;
use vstd::string::StringExecFns;

verus! {

/// What `str::to_lowercase` makes of a text: its Unicode lowercase form.
pub uninterp spec fn lowercase(text: Seq<char>) -> Seq<char>;

/// Calls `str::to_lowercase`. The result is named by [`lowercase`]; nothing more is
/// claimed of it.
#[verifier::external_body]
pub(crate) fn to_lowercase(text: &str) -> (lowered: String)
    ensures
        lowered@ == lowercase(text@),
{
    text.to_lowercase()
}

/// `String::push` appends the character to the end of the string.
pub assume_specification[ std::string::String::push ](string: &mut std::string::String, c: char)
    ensures
        final(string)@ == old(string)@.push(c),
;

/// The characters of a text, in order.
pub fn characters(text: &str) -> (chars: Vec<char>)
    ensures
        chars@ == text@,
{
    let mut chars: Vec<char> = Vec::new();
    for c in it: text.chars()
        invariant
            it.seq() == text@,
            chars@ == it.seq().take(it.index()),
    {
        chars.push(c);
        assert(it.seq().take(it.index() + 1) == it.seq().take(it.index()).push(c));
    }
    assert(text@.take(text@.len() as int) == text@);
    chars
}

/// The Unicode property `White_Space`.
pub open spec fn whitespace(c: char) -> bool {
    ||| '\u{9}' <= c <= '\u{d}'
    ||| c == '\u{20}'
    ||| c == '\u{85}'
    ||| c == '\u{a0}'
    ||| c == '\u{1680}'
    ||| '\u{2000}' <= c <= '\u{200a}'
    ||| c == '\u{2028}'
    ||| c == '\u{2029}'
    ||| c == '\u{202f}'
    ||| c == '\u{205f}'
    ||| c == '\u{3000}'
}

/// Whether a character is white space.
pub fn is_whitespace(c: char) -> (b: bool)
    ensures
        b == whitespace(c),
{
    ('\u{9}' <= c && c <= '\u{d}') || c == '\u{20}' || c == '\u{85}' || c == '\u{a0}' || c
        == '\u{1680}' || ('\u{2000}' <= c && c <= '\u{200a}') || c == '\u{2028}' || c == '\u{2029}'
        || c == '\u{202f}' || c == '\u{205f}' || c == '\u{3000}'
}

/// A text without its leading white space.
pub open spec fn trimmed_start(text: Seq<char>) -> Seq<char>
    decreases text.len(),
{
    if text.len() > 0 && whitespace(text[0]) {
        trimmed_start(text.drop_first())
    } else {
        text
    }
}

/// A text without its trailing white space.
pub open spec fn trimmed_end(text: Seq<char>) -> Seq<char>
    decreases text.len(),
{
    if text.len() > 0 && whitespace(text.last()) {
        trimmed_end(text.drop_last())
    } else {
        text
    }
}

/// A text without its leading and trailing white space.
pub open spec fn trimmed(text: Seq<char>) -> Seq<char> {
    trimmed_end(trimmed_start(text))
}

/// Drops leading white space.
pub fn trim_start(text: &str) -> (rest: &str)
    ensures
        rest@ == trimmed_start(text@),
{
    let chars: Vec<char> = characters(text);
    let mut start: usize = 0;
    proof {
        assert(text@.skip(0) == text@);
    }
    while start < chars.len() && is_whitespace(chars[start])
        invariant
            start <= chars.len(),
            chars@ == text@,
            trimmed_start(text@.skip(start as int)) == trimmed_start(text@),
        decreases chars.len() - start,
    {
        proof {
            assert(text@.skip(start as int).drop_first() == text@.skip(start + 1));
        }
        start += 1;
    }
    text.substring_char(start, chars.len())
}

/// Drops trailing white space.
pub fn trim_end(text: &str) -> (rest: &str)
    ensures
        rest@ == trimmed_end(text@),
{
    let chars: Vec<char> = characters(text);
    let mut end: usize = chars.len();
    proof {
        assert(text@.take(end as int) == text@);
    }
    while end > 0 && is_whitespace(chars[end - 1])
        invariant
            end <= chars.len(),
            chars@ == text@,
            trimmed_end(text@.take(end as int)) == trimmed_end(text@),
        decreases end,
    {
        proof {
            assert(text@.take(end as int).drop_last() == text@.take(end - 1));
        }
        end -= 1;
    }
    text.substring_char(0, end)
}

/// Drops leading and trailing white space.
pub fn trim(text: &str) -> (rest: &str)
    ensures
        rest@ == trimmed(text@),
{
    trim_end(trim_start(text))
}

/// A character with the letters `A` to `Z` in lower case.
pub open spec fn ascii_lower(c: char) -> char {
    if 'A' <= c <= 'Z' {
        ((c as int) + 32) as char
    } else {
        c
    }
}

/// A text with the letters `A` to `Z` in lower case.
pub open spec fn ascii_lowered(text: Seq<char>) -> Seq<char> {
    text.map_values(|c: char| ascii_lower(c))
}

/// The lower case of one ASCII letter; any other character stays.
pub fn lower_char(c: char) -> (lowered: char)
    ensures
        lowered == ascii_lower(c),
{
    if 'A' <= c && c <= 'Z' {
        let code: u8 = c as u8;
        (code + 32) as char
    } else {
        c
    }
}

/// Lowers the letters `A` to `Z` of a text.
pub fn to_ascii_lowercase(text: &str) -> (lowered: String)
    ensures
        lowered@ == ascii_lowered(text@),
{
    let chars: Vec<char> = characters(text);
    let mut lowered: String = String::new();
    let mut i: usize = 0;
    while i < chars.len()
        invariant
            i <= chars.len(),
            chars@ == text@,
            lowered@ == ascii_lowered(text@.take(i as int)),
        decreases chars.len() - i,
    {
        proof {
            assert(text@.take(i + 1) == text@.take(i as int).push(text@[i as int]));
        }
        lowered.push(lower_char(chars[i]));
        i += 1;
    }
    proof {
        assert(text@.take(i as int) == text@);
    }
    lowered
}

/// Whether two texts are equal.
pub fn same(a: &str, b: &str) -> (equal: bool)
    ensures
        equal == (a@ == b@),
{
    a.to_owned() == b.to_owned()
}

/// Whether two texts are equal but for the case of ASCII letters.
pub fn eq_ignore_ascii_case(a: &str, b: &str) -> (equal: bool)
    ensures
        equal == (ascii_lowered(a@) == ascii_lowered(b@)),
{
    to_ascii_lowercase(a) == to_ascii_lowercase(b)
}

/// Whether `text` begins with `prefix`.
pub open spec fn begins_with(text: Seq<char>, prefix: Seq<char>) -> bool {
    prefix.len() <= text.len() && text.take(prefix.len() as int) == prefix
}

/// Whether `needle` stands somewhere in `text`.
pub open spec fn holds(text: Seq<char>, needle: Seq<char>) -> bool {
    exists|i: int| 0 <= i <= text.len() && #[trigger] begins_with(text.skip(i), needle)
}

/// Whether `needle` stands in `text` at position `at`.
fn stands_at(text: &Vec<char>, at: usize, needle: &Vec<char>) -> (b: bool)
    requires
        at <= text.len(),
    ensures
        b == begins_with(text@.skip(at as int), needle@),
{
    if needle.len() > text.len() - at {
        return false;
    }
    let mut i: usize = 0;
    while i < needle.len()
        invariant
            i <= needle.len(),
            at + needle.len() <= text.len(),
            text@.skip(at as int).take(i as int) == needle@.take(i as int),
        decreases needle.len() - i,
    {
        if text[at + i] != needle[i] {
            proof {
                assert(text@.skip(at as int).take(needle@.len() as int)[i as int] == text@[at + i]);
            }
            return false;
        }
        proof {
            assert(text@.skip(at as int).take(i + 1) == text@.skip(at as int).take(i as int).push(
                text@[at + i],
            ));
            assert(needle@.take(i + 1) == needle@.take(i as int).push(needle@[i as int]));
        }
        i += 1;
    }
    proof {
        assert(needle@.take(i as int) == needle@);
    }
    true
}

/// Whether `text` begins with `prefix`.
pub fn starts_with(text: &str, prefix: &str) -> (b: bool)
    ensures
        b == begins_with(text@, prefix@),
{
    proof {
        assert(text@.skip(0) == text@);
    }
    stands_at(&characters(text), 0, &characters(prefix))
}

/// Whether `needle` stands somewhere in `text`.
pub fn contains(text: &str, needle: &str) -> (b: bool)
    ensures
        b == holds(text@, needle@),
{
    let hay: Vec<char> = characters(text);
    let pin: Vec<char> = characters(needle);
    let mut i: usize = 0;
    loop
        invariant
            i <= hay.len(),
            hay@ == text@,
            pin@ == needle@,
            forall|j: int| 0 <= j < i ==> !#[trigger] begins_with(text@.skip(j), needle@),
        decreases hay.len() - i,
    {
        if stands_at(&hay, i, &pin) {
            return true;
        }
        if i == hay.len() {
            return false;
        }
        i += 1;
    }
}

/// Whether a character is a decimal digit.
pub open spec fn digit(c: char) -> bool {
    '0' <= c <= '9'
}

/// The number that a decimal digit stands for.
pub open spec fn digit_value(c: char) -> nat {
    ((c as int) - ('0' as int)) as nat
}

/// Whether a text is made of decimal digits alone, at least one.
pub open spec fn all_digits(text: Seq<char>) -> bool {
    text.len() > 0 && forall|i: int| 0 <= i < text.len() ==> digit(#[trigger] text[i])
}

/// The number that a row of decimal digits stands for.
pub open spec fn number_of(text: Seq<char>) -> nat
    decreases text.len(),
{
    if text.len() == 0 {
        0
    } else {
        number_of(text.drop_last()) * 10 + digit_value(text.last())
    }
}

/// The decimal digits of a number, without leading zeros.
pub open spec fn decimal(n: nat) -> Seq<char>
    decreases n,
{
    if n < 10 {
        seq![(n + '0' as int) as char]
    } else {
        decimal(n / 10).push((n % 10 + '0' as int) as char)
    }
}

/// The decimal text of an integer, with `-` in front of a negative one.
pub open spec fn signed_decimal(n: int) -> Seq<char> {
    if n < 0 {
        seq!['-'] + decimal((-n) as nat)
    } else {
        decimal(n as nat)
    }
}

/// A text without one leading `+`, where it has one.
pub open spec fn unsigned_part(text: Seq<char>) -> Seq<char> {
    if text.len() > 0 && text[0] == '+' {
        text.skip(1)
    } else {
        text
    }
}

/// The number that a text names as an unsigned integer no greater than `max`: an
/// optional `+`, and decimal digits.
pub open spec fn unsigned_number(text: Seq<char>, max: nat) -> Option<nat> {
    let digits = unsigned_part(text);
    if all_digits(digits) && number_of(digits) <= max {
        Some(number_of(digits))
    } else {
        None
    }
}

/// What [`parse_unsigned`] returns, as a number.
pub open spec fn as_number(n: Option<u64>) -> Option<nat> {
    match n {
        Some(n) => Some(n as nat),
        None => None,
    }
}

/// A longer row of digits stands for no smaller number.
proof fn lemma_number_grows(text: Seq<char>, i: int)
    requires
        0 <= i <= text.len(),
    ensures
        number_of(text.take(i)) <= number_of(text),
    decreases text.len(),
{
    if i == text.len() {
        assert(text.take(i) == text);
    } else {
        assert(text.drop_last().take(i) == text.take(i));
        lemma_number_grows(text.drop_last(), i);
    }
}

/// Reads a row of decimal digits no greater than `max`.
fn parse_digits(chars: &Vec<char>, start: usize, max: u64) -> (n: Option<u64>)
    requires
        start <= chars.len(),
    ensures
        as_number(n) == (if all_digits(chars@.skip(start as int)) && number_of(
            chars@.skip(start as int),
        ) <= max {
            Some(number_of(chars@.skip(start as int)))
        } else {
            None
        }),
{
    let ghost digits = chars@.skip(start as int);
    if start == chars.len() {
        return None;
    }
    let mut value: u64 = 0;
    let mut i: usize = start;
    while i < chars.len()
        invariant
            start <= i <= chars.len(),
            digits == chars@.skip(start as int),
            value == number_of(digits.take(i - start)),
            value <= max,
            forall|j: int| 0 <= j < i - start ==> digit(#[trigger] digits[j]),
        decreases chars.len() - i,
    {
        let c: char = chars[i];
        proof {
            assert(digits[i - start] == c);
            assert(digits.take(i + 1 - start).drop_last() == digits.take(i - start));
            assert(digits.take(i + 1 - start).last() == c);
        }
        if !('0' <= c && c <= '9') {
            return None;
        }
        let wide: u128 = (value as u128) * 10 + ((c as u32 - '0' as u32) as u128);
        if wide > max as u128 {
            proof {
                lemma_number_grows(digits, i + 1 - start);
            }
            return None;
        }
        value = wide as u64;
        i += 1;
    }
    proof {
        assert(digits.take(i - start) == digits);
    }
    Some(value)
}

/// Reads an unsigned integer no greater than `max`.
pub fn parse_unsigned(text: &str, max: u64) -> (n: Option<u64>)
    ensures
        as_number(n) == unsigned_number(text@, max as nat),
{
    let chars: Vec<char> = characters(text);
    if chars.len() > 0 && chars[0] == '+' {
        parse_digits(&chars, 1, max)
    } else {
        proof {
            assert(chars@.skip(0) == chars@);
        }
        parse_digits(&chars, 0, max)
    }
}

/// Reads decimal digits alone, no greater than `max`.
pub fn parse_whole(text: &str, max: u64) -> (n: Option<u64>)
    ensures
        as_number(n) == (if all_digits(text@) && number_of(text@) <= max {
            Some(number_of(text@))
        } else {
            None
        }),
{
    let chars: Vec<char> = characters(text);
    proof {
        assert(chars@.skip(0) == chars@);
    }
    parse_digits(&chars, 0, max)
}

/// Writes a number in decimal.
pub fn write_decimal(n: u64) -> (text: String)
    ensures
        text@ == decimal(n as nat),
    decreases n,
{
    let low: u8 = (n % 10) as u8;
    let c: char = (low + 48) as char;
    if n < 10 {
        let mut text: String = String::new();
        text.push(c);
        proof {
            assert(text@ == seq![c]);
        }
        text
    } else {
        let mut text: String = write_decimal(n / 10);
        text.push(c);
        text
    }
}

/// Writes an integer in decimal.
pub fn write_signed(n: i32) -> (text: String)
    ensures
        text@ == signed_decimal(n as int),
{
    if n < 0 {
        let size: u64 = (-(n as i64)) as u64;
        let mut text: String = String::new();
        text.push('-');
        text.append(write_decimal(size).as_str());
        proof {
            assert(text@ == seq!['-'] + decimal(size as nat));
        }
        text
    } else {
        write_decimal(n as u64)
    }
}

/// A character with the letters `a` to `z` in upper case.
pub open spec fn ascii_upper(c: char) -> char {
    if 'a' <= c <= 'z' {
        ((c as int) - 32) as char
    } else {
        c
    }
}

/// A text with the letters `a` to `z` in upper case.
pub open spec fn ascii_uppered(text: Seq<char>) -> Seq<char> {
    text.map_values(|c: char| ascii_upper(c))
}

/// The upper case of one ASCII letter; any other character stays.
pub fn upper_char(c: char) -> (uppered: char)
    ensures
        uppered == ascii_upper(c),
{
    if 'a' <= c && c <= 'z' {
        let code: u8 = c as u8;
        (code - 32) as char
    } else {
        c
    }
}

/// Raises the letters `a` to `z` of a text.
pub fn to_ascii_uppercase(text: &str) -> (uppered: String)
    ensures
        uppered@ == ascii_uppered(text@),
{
    let chars: Vec<char> = characters(text);
    let mut uppered: String = String::new();
    let mut i: usize = 0;
    while i < chars.len()
        invariant
            i <= chars.len(),
            chars@ == text@,
            uppered@ == ascii_uppered(text@.take(i as int)),
        decreases chars.len() - i,
    {
        proof {
            assert(text@.take(i + 1) == text@.take(i as int).push(text@[i as int]));
        }
        uppered.push(upper_char(chars[i]));
        i += 1;
    }
    proof {
        assert(text@.take(i as int) == text@);
    }
    uppered
}

/// One text after another.
pub fn joined(a: &str, b: &str) -> (text: String)
    ensures
        text@ == a@ + b@,
{
    let mut text: String = a.to_owned();
    text.append(b);
    text
}

/// The characters of an optional text.
pub open spec fn optional_text(text: Option<String>) -> Option<Seq<char>> {
    match text {
        Some(text) => Some(text@),
        None => None,
    }
}

/// What is left of a text once its leading white space is dropped: all from the first
/// character on that is no white space.
pub proof fn law_leading_space_is_dropped(text: Seq<char>) -> (at: int)
    ensures
        0 <= at <= text.len(),
        trimmed_start(text) == text.skip(at),
        forall|i: int| 0 <= i < at ==> whitespace(#[trigger] text[i]),
        at < text.len() ==> !whitespace(text[at]),
    decreases text.len(),
{
    if text.len() > 0 && whitespace(text[0]) {
        let rest = text.drop_first();
        let at = law_leading_space_is_dropped(rest);
        assert(rest.skip(at) =~= text.skip(at + 1));
        assert forall|i: int| 0 <= i < at + 1 implies whitespace(#[trigger] text[i]) by {
            if i > 0 {
                assert(rest[i - 1] == text[i]);
            }
        }
        at + 1
    } else {
        assert(text.skip(0) =~= text);
        0
    }
}

/// What is left of a text once its trailing white space is dropped: all up to the last
/// character that is no white space.
pub proof fn law_trailing_space_is_dropped(text: Seq<char>) -> (end: int)
    ensures
        0 <= end <= text.len(),
        trimmed_end(text) == text.take(end),
        forall|i: int| end <= i < text.len() ==> whitespace(#[trigger] text[i]),
        end > 0 ==> !whitespace(text[end - 1]),
    decreases text.len(),
{
    if text.len() > 0 && whitespace(text.last()) {
        let front = text.drop_last();
        let end = law_trailing_space_is_dropped(front);
        assert(front.take(end) =~= text.take(end));
        assert forall|i: int| end <= i < text.len() implies whitespace(#[trigger] text[i]) by {
            if i < front.len() {
                assert(front[i] == text[i]);
            }
        }
        end
    } else {
        assert(text.take(text.len() as int) =~= text);
        text.len() as int
    }
}

/// A trimmed text is the part of the text between its white space at both ends; white space
/// within stays.
pub proof fn law_trimming_keeps_the_middle(text: Seq<char>) -> (ends: (int, int))
    ensures
        0 <= ends.0 <= ends.1 <= text.len(),
        trimmed(text) == text.subrange(ends.0, ends.1),
        forall|i: int| 0 <= i < ends.0 || ends.1 <= i < text.len() ==> whitespace(#[trigger] text[i]),
        ends.0 < ends.1 ==> !whitespace(text[ends.0]) && !whitespace(text[ends.1 - 1]),
{
    let at = law_leading_space_is_dropped(text);
    let rest = text.skip(at);
    let end = law_trailing_space_is_dropped(rest);
    assert(rest.take(end) =~= text.subrange(at, at + end));
    assert forall|i: int| 0 <= i < at || at + end <= i < text.len() implies whitespace(
        #[trigger] text[i],
    ) by {
        if i >= at {
            assert(rest[i - at] == text[i]);
        }
    }
    if end > 0 {
        assert(rest[end - 1] == text[at + end - 1]);
    }
    (at, at + end)
}

/// Changing the case of ASCII letters changes each of the 26 letters into its other form and
/// leaves every other character, and the number of characters, as it is.
pub proof fn law_only_ascii_letters_change_case(text: Seq<char>)
    ensures
        ascii_lowered(text).len() == text.len(),
        ascii_uppered(text).len() == text.len(),
        forall|i: int|
            0 <= i < text.len() ==> {
                let lowered = #[trigger] ascii_lowered(text)[i];
                if 'A' <= text[i] <= 'Z' {
                    lowered as int - 'a' as int == text[i] as int - 'A' as int
                } else {
                    lowered == text[i]
                }
            },
        forall|i: int|
            0 <= i < text.len() ==> {
                let uppered = #[trigger] ascii_uppered(text)[i];
                if 'a' <= text[i] <= 'z' {
                    uppered as int - 'A' as int == text[i] as int - 'a' as int
                } else {
                    uppered == text[i]
                }
            },
{
}

/// A text begins with another where it has that text's characters first, and holds another
/// where some part of it is that text.
pub proof fn law_searching_is_exact(text: Seq<char>, needle: Seq<char>)
    ensures
        begins_with(text, needle) <==> needle.len() <= text.len() && forall|i: int|
            0 <= i < needle.len() ==> text[i] == #[trigger] needle[i],
        holds(text, needle) <==> exists|at: int|
            0 <= at <= text.len() - needle.len() && #[trigger] text.subrange(
                at,
                at + needle.len(),
            ) == needle,
{
    if begins_with(text, needle) {
        assert forall|i: int| 0 <= i < needle.len() implies text[i] == #[trigger] needle[i] by {
            assert(text.take(needle.len() as int)[i] == needle[i]);
        }
    }
    if needle.len() <= text.len() && forall|i: int|
        0 <= i < needle.len() ==> text[i] == #[trigger] needle[i] {
        assert(text.take(needle.len() as int) =~= needle);
    }
    if holds(text, needle) {
        let at = choose|at: int| 0 <= at <= text.len() && #[trigger] begins_with(
            text.skip(at),
            needle,
        );
        assert(text.subrange(at, at + needle.len()) =~= text.skip(at).take(needle.len() as int));
    }
    if exists|at: int|
        0 <= at <= text.len() - needle.len() && #[trigger] text.subrange(at, at + needle.len())
            == needle {
        let at = choose|at: int|
            0 <= at <= text.len() - needle.len() && #[trigger] text.subrange(at, at + needle.len())
                == needle;
        assert(text.subrange(at, at + needle.len()) =~= text.skip(at).take(needle.len() as int));
        assert(begins_with(text.skip(at), needle));
    }
}

/// Decimal digits stand for a number by their places: one more digit makes ten times the
/// number and that digit.
pub proof fn law_digits_count_by_place(text: Seq<char>, c: char)
    ensures
        number_of(Seq::empty()) == 0,
        '0' <= c <= '9' ==> number_of(text.push(c)) == 10 * number_of(text) + (c as int - '0' as int),
{
    assert(text.push(c).drop_last() =~= text);
}

/// A number is written with the digits that stand for it, at least one and without a zero in
/// front unless it is zero; a negative one has a minus sign in front.
pub proof fn law_numbers_are_written_in_decimal(n: nat)
    ensures
        decimal(n).len() > 0,
        forall|i: int| 0 <= i < decimal(n).len() ==> '0' <= #[trigger] decimal(n)[i] <= '9',
        number_of(decimal(n)) == n,
        decimal(n).len() > 1 ==> decimal(n)[0] != '0',
        signed_decimal(n as int) == decimal(n),
        n > 0 ==> signed_decimal(-n) == seq!['-'] + decimal(n),
    decreases n,
{
    crate::fingerprint::lemma_decimal(n);
    if n >= 10 {
        law_numbers_are_written_in_decimal(n / 10);
        assert(decimal(n)[0] == decimal(n / 10)[0]);
        if n / 10 < 10 {
            assert(decimal(n / 10)[0] == ((n / 10) + '0' as int) as char);
        } else {
            crate::fingerprint::lemma_decimal(n / 10 / 10);
            assert(decimal(n / 10).len() == decimal(n / 10 / 10).len() + 1);
        }
    }
}

/// A text names an unsigned number where it is decimal digits, at least one, after at most
/// one plus sign, and the number that they stand for is within the limit.
pub proof fn law_unsigned_numbers_are_digits(text: Seq<char>, max: nat)
    ensures
        ({
            let start = if text.len() > 0 && text[0] == '+' {
                1int
            } else {
                0int
            };
            let digits = text.skip(start);
            let all = text.len() > start && forall|i: int|
                start <= i < text.len() ==> '0' <= #[trigger] text[i] <= '9';
            &&& all && number_of(digits) <= max ==> unsigned_number(text, max) == Some(
                number_of(digits),
            )
            &&& !all || number_of(digits) > max ==> unsigned_number(text, max) is None
        }),
{
    let start = if text.len() > 0 && text[0] == '+' {
        1int
    } else {
        0int
    };
    let digits = text.skip(start);
    assert(text.skip(0) =~= text);
    assert(unsigned_part(text) == digits);
    if text.len() > start && forall|i: int|
        start <= i < text.len() ==> '0' <= #[trigger] text[i] <= '9' {
        assert forall|i: int| 0 <= i < digits.len() implies digit(#[trigger] digits[i]) by {
            assert(digits[i] == text[start + i]);
        }
    }
    if all_digits(digits) {
        assert forall|i: int| start <= i < text.len() implies '0' <= #[trigger] text[i] <= '9' by {
            assert(digits[i - start] == text[i]);
        }
    }
}

/// An optional text is seen as it is, the empty one too; a row is all digits where it has
/// at least one character and each is from `0` to `9`.
pub proof fn law_texts_are_seen_whole(text: String, row: Seq<char>, n: u64)
    ensures
        optional_text(Some(text)) == Some(text@),
        optional_text(None) is None,
        as_number(Some(n)) == Some(n as nat),
        as_number(None) is None,
        all_digits(row) <==> row.len() > 0 && forall|i: int|
            0 <= i < row.len() ==> '0' <= #[trigger] row[i] <= '9',
{
    if all_digits(row) {
        assert forall|i: int| 0 <= i < row.len() implies '0' <= #[trigger] row[i] <= '9' by {
            assert(digit(row[i]));
        }
    }
}

/// One character changes case as it does within a text: the letters `A` to `Z` and `a` to
/// `z` into each other, and no other.
pub proof fn law_letters_change_case(c: char)
    ensures
        'A' <= c <= 'Z' ==> ascii_lower(c) as int - 'a' as int == c as int - 'A' as int
            && ascii_upper(ascii_lower(c)) == c,
        'a' <= c <= 'z' ==> ascii_upper(c) as int - 'A' as int == c as int - 'a' as int
            && ascii_lower(ascii_upper(c)) == c,
        !('A' <= c <= 'Z') ==> ascii_lower(c) == c,
        !('a' <= c <= 'z') ==> ascii_upper(c) == c,
{
}

}
