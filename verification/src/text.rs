//! Reading and writing text, stated over sequences of characters.

use vstd::prelude::*;
use vstd::string::*;

verus! {

/// Comparing two string slices with `==` (`str::eq`) tells whether they hold
/// the same characters in the same order.
pub assume_specification[ <str as PartialEq<str>>::eq ](left: &str, right: &str) -> (same: bool)
    ensures
        same == (left@ == right@),
;

/// `String::push` appends a character to the end of a string.
pub assume_specification[ String::push ](text: &mut String, c: char)
    ensures
        final(text)@ == old(text)@.push(c),
;

/// Whether two texts hold the same characters.
pub fn same_text(left: &str, right: &str) -> (same: bool)
    ensures
        same == (left@ == right@),
{
    left.eq(right)
}

/// Which of two things comes first.
#[derive(Debug, Clone, Copy, PartialEq, Eq, Structural)]
pub enum Comparison {
    Less,
    Equal,
    Greater,
}

/// A comparison, settled by a second one where the first finds no difference.
pub open spec fn settled_by(first: Comparison, second: Comparison) -> Comparison {
    if first == Comparison::Equal {
        second
    } else {
        first
    }
}

/// How two numbers compare.
pub open spec fn number_order(left: int, right: int) -> Comparison {
    if left < right {
        Comparison::Less
    } else if left == right {
        Comparison::Equal
    } else {
        Comparison::Greater
    }
}

/// Whether two comparisons of the same things, taken either way round, agree.
pub open spec fn turns_round(there: Comparison, back: Comparison) -> bool {
    &&& there == Comparison::Less <==> back == Comparison::Greater
    &&& there == Comparison::Greater <==> back == Comparison::Less
}

/// Whether the comparisons of a first thing with a second, of that with a third
/// and of the first with the third agree.
pub open spec fn carries_over(
    first: Comparison,
    second: Comparison,
    across: Comparison,
) -> bool {
    &&& first != Comparison::Greater && second != Comparison::Greater ==> across
        != Comparison::Greater
    &&& first != Comparison::Greater && second != Comparison::Greater && across
        == Comparison::Equal ==> first == Comparison::Equal && second == Comparison::Equal
    &&& first == Comparison::Equal && second == Comparison::Equal ==> across == Comparison::Equal
}

/// The comparisons of three things: of the first with the second and the other way
/// round, of the second with the third, and of the first with the third.
pub struct Triangle {
    pub there: Comparison,
    pub back: Comparison,
    pub next: Comparison,
    pub across: Comparison,
}

/// Whether the comparisons of three things agree.
pub open spec fn agrees(triangle: Triangle) -> bool {
    &&& turns_round(triangle.there, triangle.back)
    &&& carries_over(triangle.there, triangle.next, triangle.across)
}

/// The comparisons of three things, settled by others where the first are equal.
pub open spec fn settled_triangle(first: Triangle, second: Triangle) -> Triangle {
    Triangle {
        there: settled_by(first.there, second.there),
        back: settled_by(first.back, second.back),
        next: settled_by(first.next, second.next),
        across: settled_by(first.across, second.across),
    }
}

/// Comparisons that agree still do where others that agree settle them.
pub proof fn lemma_settled_agrees(first: Triangle, second: Triangle)
    requires
        agrees(first),
        agrees(second),
    ensures
        agrees(settled_triangle(first, second)),
{
}

/// The comparisons of three numbers.
pub open spec fn number_triangle(first: int, second: int, third: int) -> Triangle {
    Triangle {
        there: number_order(first, second),
        back: number_order(second, first),
        next: number_order(second, third),
        across: number_order(first, third),
    }
}

/// The comparisons of three texts.
pub open spec fn text_triangle(first: Seq<char>, second: Seq<char>, third: Seq<char>) -> Triangle {
    Triangle {
        there: text_order(first, second),
        back: text_order(second, first),
        next: text_order(second, third),
        across: text_order(first, third),
    }
}

/// How two texts compare, character by character.
pub open spec fn text_order(left: Seq<char>, right: Seq<char>) -> Comparison
    decreases left.len(),
{
    if left.len() == 0 || right.len() == 0 {
        number_order(left.len() as int, right.len() as int)
    } else {
        settled_by(
            number_order(left[0] as int, right[0] as int),
            text_order(left.drop_first(), right.drop_first()),
        )
    }
}

/// How two numbers compare.
pub fn compared(left: u32, right: u32) -> (order: Comparison)
    ensures
        order == number_order(left as int, right as int),
{
    if left < right {
        Comparison::Less
    } else if left == right {
        Comparison::Equal
    } else {
        Comparison::Greater
    }
}

/// The characters of a text.
pub fn chars_of(text: &str) -> (chars: Vec<char>)
    ensures
        chars@ == text@,
{
    let mut chars: Vec<char> = Vec::new();
    for c in iter: text.chars()
        invariant
            iter.seq() == text@,
            chars@ == text@.take(iter.index() as int),
    {
        chars.push(c);
        assert(text@.take(iter.index() + 1) =~= text@.take(iter.index() as int).push(c));
    }
    assert(text@.take(text@.len() as int) =~= text@);
    chars
}

/// How two texts compare, character by character.
#[verifier::loop_isolation(false)]
pub fn text_compared(left: &str, right: &str) -> (order: Comparison)
    ensures
        order == text_order(left@, right@),
{
    let left = chars_of(left);
    let right = chars_of(right);
    let mut i: usize = 0;
    proof {
        assert(left@.skip(0) =~= left@);
        assert(right@.skip(0) =~= right@);
    }
    while i < left.len() && i < right.len()
        invariant
            i <= left@.len(),
            i <= right@.len(),
            text_order(left@, right@) == text_order(left@.skip(i as int), right@.skip(i as int)),
        decreases left@.len() - i,
    {
        proof {
            assert(left@.skip(i as int).drop_first() =~= left@.skip(i + 1));
            assert(right@.skip(i as int).drop_first() =~= right@.skip(i + 1));
        }
        if left[i] < right[i] {
            return Comparison::Less;
        }
        if left[i] > right[i] {
            return Comparison::Greater;
        }
        i += 1;
    }
    if i < left.len() {
        Comparison::Greater
    } else if i < right.len() {
        Comparison::Less
    } else {
        Comparison::Equal
    }
}

/// A text always compares equal to itself and to nothing else.
pub proof fn lemma_text_order_equal(left: Seq<char>, right: Seq<char>)
    ensures
        text_order(left, right) == Comparison::Equal <==> left == right,
    decreases left.len(),
{
    if left.len() > 0 && right.len() > 0 {
        lemma_text_order_equal(left.drop_first(), right.drop_first());
        if left[0] == right[0] && left.drop_first() == right.drop_first() {
            assert(left =~= seq![left[0]] + left.drop_first());
            assert(right =~= seq![right[0]] + right.drop_first());
        }
    } else if left.len() == right.len() {
        assert(left =~= right);
    }
}

/// Swapping two texts turns their comparison round.
pub proof fn lemma_text_order_swap(left: Seq<char>, right: Seq<char>)
    ensures
        text_order(left, right) == Comparison::Less <==> text_order(right, left)
            == Comparison::Greater,
    decreases left.len(),
{
    if left.len() > 0 && right.len() > 0 {
        lemma_text_order_swap(left.drop_first(), right.drop_first());
        lemma_text_order_equal(left.drop_first(), right.drop_first());
        lemma_text_order_equal(right.drop_first(), left.drop_first());
    }
}

/// What comes before something that comes before a third comes before it too.
pub proof fn lemma_text_order_transitive(first: Seq<char>, second: Seq<char>, third: Seq<char>)
    requires
        text_order(first, second) != Comparison::Greater,
        text_order(second, third) != Comparison::Greater,
    ensures
        text_order(first, third) != Comparison::Greater,
    decreases first.len(),
{
    if first.len() > 0 && second.len() > 0 && third.len() > 0 {
        if first[0] == second[0] && second[0] == third[0] {
            lemma_text_order_transitive(
                first.drop_first(),
                second.drop_first(),
                third.drop_first(),
            );
        }
    }
}

/// Texts are put in a total order.
pub proof fn lemma_text_order_total(first: Seq<char>, second: Seq<char>, third: Seq<char>)
    ensures
        text_order(first, second) == Comparison::Equal <==> first == second,
        text_order(first, second) == Comparison::Less <==> text_order(second, first)
            == Comparison::Greater,
        text_order(first, second) == Comparison::Greater <==> text_order(second, first)
            == Comparison::Less,
        text_order(first, second) != Comparison::Greater && text_order(second, third)
            != Comparison::Greater ==> text_order(first, third) != Comparison::Greater,
        text_order(first, second) != Comparison::Greater && text_order(second, third)
            != Comparison::Greater && text_order(first, third) == Comparison::Equal ==> first
            == second && second == third,
{
    lemma_text_order_equal(first, second);
    lemma_text_order_equal(second, third);
    lemma_text_order_equal(first, third);
    lemma_text_order_swap(first, second);
    lemma_text_order_swap(second, first);
    if text_order(first, second) != Comparison::Greater && text_order(second, third)
        != Comparison::Greater {
        lemma_text_order_transitive(first, second, third);
        if first == third {
            lemma_text_order_swap(first, second);
            lemma_text_order_swap(second, first);
        }
    }
}

/// Texts are compared alike either way round, and over one step and two.
pub proof fn lemma_text_order_consistent(first: Seq<char>, second: Seq<char>, third: Seq<char>)
    ensures
        turns_round(text_order(first, second), text_order(second, first)),
        carries_over(
            text_order(first, second),
            text_order(second, third),
            text_order(first, third),
        ),
{
    lemma_text_order_total(first, second, third);
    lemma_text_order_total(second, third, first);
}

/// Whether the last segment of a `::`-separated name is a given one.
pub open spec fn last_segment_is(name: Seq<char>, segment: Seq<char>) -> bool {
    ||| name == segment
    ||| {
        let start = name.len() - segment.len();
        start >= 2 && name[start - 2] == ':' && name[start - 1] == ':' && name.skip(start)
            == segment
    }
}

/// Whether the last segment of a `::`-separated name is a given one, which
/// holds no separator itself.
#[verifier::loop_isolation(false)]
pub fn ends_in_segment(name: &str, segment: &str) -> (ends: bool)
    ensures
        ends == last_segment_is(name@, segment@),
{
    if same_text(name, segment) {
        return true;
    }
    let name = chars_of(name);
    let segment = chars_of(segment);
    if name.len() < segment.len() || name.len() - segment.len() < 2 {
        return false;
    }
    let start: usize = name.len() - segment.len();
    if name[start - 2] != ':' || name[start - 1] != ':' {
        return false;
    }
    for i in 0..segment.len()
        invariant
            start == name@.len() - segment@.len(),
            forall|j: int| 0 <= j < i ==> name@.skip(start as int)[j] == segment@[j],
    {
        if name[start + i] != segment[i] {
            assert(name@.skip(start as int)[i as int] != segment@[i as int]);
            return false;
        }
    }
    assert(name@.skip(start as int) =~= segment@);
    true
}

/// The character of a decimal digit.
pub open spec fn digit_char(digit: nat) -> char {
    (48 + digit) as char
}

/// A number written in decimal.
pub open spec fn decimal(number: nat) -> Seq<char>
    decreases number,
{
    if number < 10 {
        seq![digit_char(number)]
    } else {
        decimal(number / 10).push(digit_char(number % 10))
    }
}

/// A number written in decimal, with a sign where it is negative.
pub open spec fn signed_decimal(number: int) -> Seq<char> {
    if number < 0 {
        seq!['-'] + decimal((-number) as nat)
    } else {
        decimal(number as nat)
    }
}

/// The text of a decimal digit.
fn digit_text(digit: u128) -> (text: &'static str)
    requires
        digit < 10,
    ensures
        text@ == seq![digit_char(digit as nat)],
{
    proof {
        reveal_strlit("0");
        reveal_strlit("1");
        reveal_strlit("2");
        reveal_strlit("3");
        reveal_strlit("4");
        reveal_strlit("5");
        reveal_strlit("6");
        reveal_strlit("7");
        reveal_strlit("8");
        reveal_strlit("9");
    }
    if digit == 0 {
        "0"
    } else if digit == 1 {
        "1"
    } else if digit == 2 {
        "2"
    } else if digit == 3 {
        "3"
    } else if digit == 4 {
        "4"
    } else if digit == 5 {
        "5"
    } else if digit == 6 {
        "6"
    } else if digit == 7 {
        "7"
    } else if digit == 8 {
        "8"
    } else {
        "9"
    }
}

/// Writes a number in decimal at the end of a text.
pub fn append_decimal(text: &mut String, number: u128)
    ensures
        final(text)@ == old(text)@ + decimal(number as nat),
    decreases number,
{
    let ghost before = text@;
    if number < 10 {
        text.append(digit_text(number));
    } else {
        append_decimal(text, number / 10);
        text.append(digit_text(number % 10));
        assert(text@ =~= before + decimal(number as nat));
    }
}

/// A number written in decimal.
pub fn decimal_text(number: u128) -> (text: String)
    ensures
        text@ == decimal(number as nat),
{
    let mut text = String::new();
    append_decimal(&mut text, number);
    assert(text@ =~= decimal(number as nat));
    text
}

/// A signed number written in decimal.
pub fn signed_decimal_text(number: i128) -> (text: String)
    ensures
        text@ == signed_decimal(number as int),
{
    let mut text = String::new();
    if number < 0 {
        proof {
            reveal_strlit("-");
        }
        text.append("-");
        let magnitude: u128 = (-(number + 1)) as u128 + 1;
        append_decimal(&mut text, magnitude);
        assert(text@ =~= signed_decimal(number as int));
    } else {
        append_decimal(&mut text, number as u128);
        assert(text@ =~= signed_decimal(number as int));
    }
    text
}

/// Whether every character is a decimal digit.
pub open spec fn all_digits(text: Seq<char>) -> bool {
    forall|i: int| 0 <= i < text.len() ==> '0' <= #[trigger] text[i] <= '9'
}

/// The number that decimal digits write.
pub open spec fn digits_value(digits: Seq<char>) -> nat
    decreases digits.len(),
{
    if digits.len() == 0 {
        0
    } else {
        digits_value(digits.drop_last()) * 10 + ((digits.last() as int - 48) as nat)
    }
}

/// The integer a text writes: an optional sign and one or more digits, within
/// the range of an `i128`.
pub open spec fn parsed_integer(text: Seq<char>) -> Option<int> {
    let signed = text.len() > 0 && (text[0] == '-' || text[0] == '+');
    let digits = if signed {
        text.drop_first()
    } else {
        text
    };
    let value = if signed && text[0] == '-' {
        -(digits_value(digits) as int)
    } else {
        digits_value(digits) as int
    };
    if digits.len() > 0 && all_digits(digits) && i128::MIN <= value <= i128::MAX {
        Some(value)
    } else {
        None
    }
}

/// The integer a text writes, if it writes one.
#[verifier::loop_isolation(false)]
pub fn parse_integer(text: &str) -> (value: Option<i128>)
    ensures
        match value {
            Some(value) => parsed_integer(text@) == Some(value as int),
            None => parsed_integer(text@) is None,
        },
{
    let chars = chars_of(text);
    let signed = chars.len() > 0 && (chars[0] == '-' || chars[0] == '+');
    let negative = signed && chars[0] == '-';
    let start: usize = if signed {
        1
    } else {
        0
    };
    let ghost digits = chars@.skip(start as int);
    proof {
        assert(digits =~= if signed {
            text@.drop_first()
        } else {
            text@
        });
    }
    if chars.len() == start {
        return None;
    }
    let limit: u128 = 0x8000_0000_0000_0000_0000_0000_0000_0000;
    let mut magnitude: u128 = 0;
    let mut too_large = false;
    let mut i: usize = start;
    while i < chars.len()
        invariant
            start <= i <= chars@.len(),
            start <= 1,
            digits == chars@.skip(start as int),
            limit == 0x8000_0000_0000_0000_0000_0000_0000_0000,
            forall|j: int| 0 <= j < i - start ==> '0' <= #[trigger] digits[j] <= '9',
            too_large ==> digits_value(digits.take(i - start)) > limit,
            !too_large ==> magnitude == digits_value(digits.take(i - start)) && magnitude <= limit,
        decreases chars@.len() - i,
    {
        let c = chars[i];
        assert(digits[i - start] == c);
        if c < '0' || c > '9' {
            assert(!all_digits(digits));
            return None;
        }
        proof {
            assert(digits.take(i - start + 1).drop_last() =~= digits.take(i - start));
            assert(digits.take(i - start + 1).last() == c);
        }
        let digit: u128 = (c as u32 - 48) as u128;
        if !too_large {
            if magnitude > limit / 10 || magnitude * 10 + digit > limit {
                too_large = true;
            } else {
                magnitude = magnitude * 10 + digit;
            }
        }
        i += 1;
    }
    proof {
        assert(digits.take(digits.len() as int) =~= digits);
        assert(all_digits(digits));
    }
    if too_large {
        return None;
    }
    if negative {
        if magnitude == limit {
            Some(i128::MIN)
        } else {
            Some(-(magnitude as i128))
        }
    } else if magnitude == limit {
        None
    } else {
        Some(magnitude as i128)
    }
}

/// The text of some characters.
pub fn text_of(chars: &Vec<char>, from: usize, to: usize) -> (text: String)
    requires
        from <= to <= chars@.len(),
    ensures
        text@ == chars@.subrange(from as int, to as int),
{
    let mut text = String::new();
    let mut i: usize = from;
    assert(chars@.subrange(from as int, from as int) =~= Seq::<char>::empty());
    while i < to
        invariant
            from <= i <= to <= chars@.len(),
            text@ == chars@.subrange(from as int, i as int),
        decreases to - i,
    {
        text.push(chars[i]);
        assert(chars@.subrange(from as int, i + 1) =~= chars@.subrange(from as int, i as int).push(
            chars@[i as int],
        ));
        i += 1;
    }
    text
}

/// Whether a text stands at a place in another.
pub open spec fn stands_at(text: Seq<char>, part: Seq<char>, i: int) -> bool {
    0 <= i <= text.len() - part.len() && text.subrange(i, i + part.len()) == part
}

/// Whether a text holds another.
pub open spec fn holds_text(text: Seq<char>, part: Seq<char>) -> bool {
    exists|i: int| stands_at(text, part, i)
}

/// Whether a text holds another.
#[verifier::loop_isolation(false)]
pub fn contains_text(text: &str, part: &str) -> (held: bool)
    ensures
        held == holds_text(text@, part@),
{
    let text = chars_of(text);
    let part = chars_of(part);
    if part.len() > text.len() {
        return false;
    }
    let last: usize = text.len() - part.len();
    let mut i: usize = 0;
    loop
        invariant
            last == text@.len() - part@.len(),
            i <= last,
            forall|j: int| 0 <= j < i ==> !stands_at(text@, part@, j),
        decreases last - i,
    {
        let mut k: usize = 0;
        while k < part.len() && text[i + k] == part[k]
            invariant
                i <= last,
                last == text@.len() - part@.len(),
                k <= part@.len(),
                forall|j: int| 0 <= j < k ==> text@[i + j] == part@[j],
            decreases part@.len() - k,
        {
            k += 1;
        }
        if k == part.len() {
            assert(text@.subrange(i as int, i + part@.len()) =~= part@);
            assert(stands_at(text@, part@, i as int));
            return true;
        }
        assert(!stands_at(text@, part@, i as int)) by {
            assert(text@.subrange(i as int, i + part@.len())[k as int] == text@[i + k]);
        }
        if i == last {
            return false;
        }
        i += 1;
    }
}

/// Whether a character is white space.
pub open spec fn is_blank(c: char) -> bool {
    let code = c as u32;
    ||| 0x9 <= code <= 0xd
    ||| code == 0x20
    ||| code == 0x85
    ||| code == 0xa0
    ||| code == 0x1680
    ||| 0x2000 <= code <= 0x200a
    ||| code == 0x2028
    ||| code == 0x2029
    ||| code == 0x202f
    ||| code == 0x205f
    ||| code == 0x3000
}

/// Whether a character is white space.
pub fn blank(c: char) -> (is: bool)
    ensures
        is == is_blank(c),
{
    let code: u32 = c as u32;
    (0x9 <= code && code <= 0xd) || code == 0x20 || code == 0x85 || code == 0xa0 || code == 0x1680
        || (0x2000 <= code && code <= 0x200a) || code == 0x2028 || code == 0x2029 || code == 0x202f
        || code == 0x205f || code == 0x3000
}

/// A text without the white space it begins with.
pub open spec fn trimmed_start(text: Seq<char>) -> Seq<char>
    decreases text.len(),
{
    if text.len() > 0 && is_blank(text[0]) {
        trimmed_start(text.drop_first())
    } else {
        text
    }
}

/// A text without the white space it ends with.
pub open spec fn trimmed_end(text: Seq<char>) -> Seq<char>
    decreases text.len(),
{
    if text.len() > 0 && is_blank(text.last()) {
        trimmed_end(text.drop_last())
    } else {
        text
    }
}

/// A text without the white space around it.
pub open spec fn trimmed(text: Seq<char>) -> Seq<char> {
    trimmed_end(trimmed_start(text))
}

/// A text without the white space around it.
pub fn trim(text: &str) -> (kept: String)
    ensures
        kept@ == trimmed(text@),
{
    let chars = chars_of(text);
    let mut from: usize = 0;
    assert(chars@.skip(0) =~= chars@);
    while from < chars.len() && blank(chars[from])
        invariant
            from <= chars@.len(),
            trimmed_start(chars@) == trimmed_start(chars@.skip(from as int)),
        decreases chars@.len() - from,
    {
        assert(chars@.skip(from as int).drop_first() =~= chars@.skip(from + 1));
        from += 1;
    }
    let ghost rest = chars@.skip(from as int);
    let mut to: usize = chars.len();
    assert(chars@.subrange(from as int, to as int) =~= rest);
    while to > from && blank(chars[to - 1])
        invariant
            from <= to <= chars@.len(),
            trimmed_end(rest) == trimmed_end(chars@.subrange(from as int, to as int)),
        decreases to,
    {
        assert(chars@.subrange(from as int, to as int).drop_last() =~= chars@.subrange(
            from as int,
            to - 1,
        ));
        to -= 1;
    }
    text_of(&chars, from, to)
}

} // verus!
