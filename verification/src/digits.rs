//! What written numbers and values read back as.

use crate::catalog::json::{
    compact, compact_items, compact_members, escaped_char, escaped_text, quoted_text, JsonShape,
    JsonTerm,
};
use crate::digest::{big_endian, hex_digit, hex_of, little_endian, power_of_256};
use vstd::prelude::*;
use vstd::string::*;

verus! {

/// The number that a lower-case hexadecimal digit writes.
pub open spec fn digit_value(c: char) -> int {
    if '0' <= c <= '9' {
        c as int - '0' as int
    } else {
        c as int - 'a' as int + 10
    }
}

proof fn lemma_digit(number: nat)
    requires
        number < 16,
    ensures
        digit_value(hex_digit(number)) == number,
        ('0' <= hex_digit(number) <= '9') || ('a' <= hex_digit(number) <= 'f'),
{
}

/// Bytes written in hexadecimal are two digits each, the higher first, and those read
/// back as the byte.
pub proof fn law_hexadecimal_is_read_back(bytes: Seq<u8>, i: int)
    requires
        0 <= i < bytes.len(),
    ensures
        hex_of(bytes).len() == 2 * bytes.len(),
        16 * digit_value(hex_of(bytes)[2 * i]) + digit_value(hex_of(bytes)[2 * i + 1])
            == bytes[i],
    decreases bytes.len(),
{
    let before = bytes.drop_last();
    let last = bytes.last();
    lemma_hex_length(before);
    lemma_digit((last / 16) as nat);
    lemma_digit((last % 16) as nat);
    if i < before.len() {
        law_hexadecimal_is_read_back(before, i);
        assert(hex_of(bytes)[2 * i] == hex_of(before)[2 * i]);
        assert(hex_of(bytes)[2 * i + 1] == hex_of(before)[2 * i + 1]);
    }
}

proof fn lemma_hex_length(bytes: Seq<u8>)
    ensures
        hex_of(bytes).len() == 2 * bytes.len(),
    decreases bytes.len(),
{
    if bytes.len() > 0 {
        lemma_hex_length(bytes.drop_last());
    }
}

/// The number that bytes write, the least significant first.
pub open spec fn read_little(bytes: Seq<u8>) -> int
    decreases bytes.len(),
{
    if bytes.len() == 0 {
        0
    } else {
        bytes[0] + 256 * read_little(bytes.drop_first())
    }
}

/// The number that bytes write, the most significant first.
pub open spec fn read_big(bytes: Seq<u8>) -> int
    decreases bytes.len(),
{
    if bytes.len() == 0 {
        0
    } else {
        256 * read_big(bytes.drop_last()) + bytes.last()
    }
}

/// A number that fits so many bytes reads back from them, whichever end comes first.
pub proof fn law_written_numbers_are_read_back(number: nat, bytes: nat)
    requires
        number < power_of_256(bytes),
    ensures
        little_endian(number, bytes).len() == bytes,
        big_endian(number, bytes).len() == bytes,
        read_little(little_endian(number, bytes)) == number,
        read_big(big_endian(number, bytes)) == number,
    decreases bytes,
{
    if bytes > 0 {
        let less = (bytes - 1) as nat;
        assert(number / 256 < power_of_256(less)) by (nonlinear_arith)
            requires
                number < 256 * power_of_256(less),
        ;
        law_written_numbers_are_read_back(number / 256, less);
        let little = little_endian(number, bytes);
        assert(little.drop_first() =~= little_endian(number / 256, less));
        let big = big_endian(number, bytes);
        assert(big.drop_last() =~= big_endian(number / 256, less));
        assert(number == 256 * (number / 256) + number % 256);
    }
}

proof fn lemma_escaped(c: char, i: int)
    requires
        0 <= i < escaped_char(c).len(),
    ensures
        escaped_char(c)[i] as u32 >= 0x20,
{
    let code = c as int;
    if 0 <= code < 0x20 {
        lemma_digit((code / 16) as nat);
        lemma_digit((code % 16) as nat);
    }
}

/// No character of a written text is a control character, and a quote or a backslash
/// has a backslash before it; what needs no escape is written as it is.
pub proof fn law_written_texts_are_escaped(text: Seq<char>, c: char, i: int)
    ensures
        0 <= i < escaped_text(text).len() ==> escaped_text(text)[i] as u32 >= 0x20,
        c == '"' || c == '\\' ==> escaped_char(c) == seq!['\\', c],
        c as u32 >= 0x20 && c != '"' && c != '\\' ==> escaped_char(c) == seq![c],
        (c as u32) < 0x20 ==> escaped_char(c).len() >= 2 && escaped_char(c)[0] == '\\',
        escaped_char('\n') == seq!['\\', 'n'],
        escaped_char('\t') == seq!['\\', 't'],
        escaped_char('\r') == seq!['\\', 'r'],
    decreases text.len(),
{
    if text.len() > 0 {
        let before = escaped_text(text.drop_last());
        let last = escaped_char(text.last());
        if i < before.len() {
            law_written_texts_are_escaped(text.drop_last(), c, i);
        } else if i < before.len() + last.len() {
            lemma_escaped(text.last(), i - before.len());
            assert(escaped_text(text)[i] == last[i - before.len()]);
        }
    }
}

/// A list is written in square brackets and an object in braces, with commas between;
/// a member is its key, a colon and its value.
pub proof fn law_values_are_written_without_blanks(
    first: JsonTerm,
    second: JsonTerm,
    key: Seq<char>,
    other: Seq<char>,
    value: Seq<char>,
)
    ensures
        compact(JsonTerm { shape: JsonShape::List, parts: seq![first, second] }) == seq!['[']
            + compact(first) + seq![','] + compact(second) + seq![']'],
        compact(JsonTerm { shape: JsonShape::Object(seq![key, other]), parts: seq![first, second] })
            == seq!['{'] + quoted_text(key) + seq![':'] + compact(first) + seq![',']
            + quoted_text(other) + seq![':'] + compact(second) + seq!['}'],
        compact(JsonTerm { shape: JsonShape::Text(value), parts: Seq::empty() }) == seq!['"']
            + escaped_text(value) + seq!['"'],
        compact(JsonTerm { shape: JsonShape::Bool(true), parts: Seq::empty() }) == "true"@,
        compact(JsonTerm { shape: JsonShape::Bool(false), parts: Seq::empty() }) == "false"@,
        compact(JsonTerm { shape: JsonShape::Null, parts: Seq::empty() }) == "null"@,
{
    reveal_strlit("[");
    reveal_strlit("]");
    reveal_strlit("{");
    reveal_strlit("}");
    reveal_strlit(",");
    reveal_strlit(":");
    assert("["@ =~= seq!['[']);
    assert("]"@ =~= seq![']']);
    assert("{"@ =~= seq!['{']);
    assert("}"@ =~= seq!['}']);
    assert(","@ =~= seq![',']);
    assert(":"@ =~= seq![':']);
    let list = JsonTerm { shape: JsonShape::List, parts: seq![first, second] };
    let keys = seq![key, other];
    let object = JsonTerm { shape: JsonShape::Object(keys), parts: seq![first, second] };
    assert(list.parts[0] == first && list.parts[1] == second);
    assert(object.parts[0] == first && object.parts[1] == second);
    assert(keys[0] == key && keys[1] == other);
    assert(compact_items(list, 1) == compact(first));
    assert(compact_items(list, 2) == compact(first) + ","@ + compact(second));
    assert(compact(list) =~= seq!['['] + compact(first) + seq![','] + compact(second) + seq![']']);
    assert(compact_members(object, keys, 1) == quoted_text(key) + ":"@ + compact(first));
    assert(compact_members(object, keys, 2) == quoted_text(key) + ":"@ + compact(first) + ","@ + (
    quoted_text(other) + ":"@ + compact(second)));
    assert(compact(object) =~= seq!['{'] + quoted_text(key) + seq![':'] + compact(first) + seq![
        ',',
    ] + quoted_text(other) + seq![':'] + compact(second) + seq!['}']);
}

} // verus!
