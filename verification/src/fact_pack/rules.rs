//! What the fields of a manifest have to be, and what is said where they are not.

use crate::errors::naming::is_plain_part;
use crate::lists::text_list;
use crate::paths::{components, path_components};
use crate::text::{chars_of, same_text, text_of};
use vstd::prelude::*;
use vstd::string::*;

verus! {

/// The contents of messages.
pub open spec fn messages(list: Seq<String>) -> Seq<Seq<char>> {
    text_list(list)
}

/// Adding a message adds its content.
pub proof fn lemma_message(before: Seq<String>, message: String)
    ensures
        messages(before.push(message)) == messages(before).push(message@),
{
    assert(messages(before.push(message)) =~= messages(before).push(message@));
}

/// A message, where something is wrong.
pub open spec fn unless(fine: bool, message: Seq<char>) -> Seq<Seq<char>> {
    if fine {
        Seq::empty()
    } else {
        seq![message]
    }
}

/// Whether a character is a lower-case letter, a digit or a hyphen.
pub open spec fn is_slug_char(c: char) -> bool {
    ('a' <= c <= 'z') || ('0' <= c <= '9') || c == '-'
}

/// Whether a text is a slug: lower-case letters, digits and internal hyphens.
pub open spec fn is_slug(text: Seq<char>) -> bool {
    &&& text.len() > 0
    &&& text[0] != '-'
    &&& text.last() != '-'
    &&& forall|i: int| 0 <= i < text.len() ==> is_slug_char(#[trigger] text[i])
}

/// Whether part of a text is a slug.
fn slug_between(chars: &Vec<char>, from: usize, to: usize) -> (slug: bool)
    requires
        from <= to <= chars@.len(),
    ensures
        slug == is_slug(chars@.subrange(from as int, to as int)),
{
    let ghost text = chars@.subrange(from as int, to as int);
    if from == to || chars[from] == '-' || chars[to - 1] == '-' {
        assert(from < to ==> text[0] == chars@[from as int] && text.last() == chars@[to - 1]);
        return false;
    }
    let mut i: usize = from;
    while i < to
        invariant
            from <= i <= to <= chars@.len(),
            text == chars@.subrange(from as int, to as int),
            forall|k: int| 0 <= k < i - from ==> is_slug_char(#[trigger] text[k]),
        decreases to - i,
    {
        let c = chars[i];
        assert(text[i - from] == c);
        if !(('a' <= c && c <= 'z') || ('0' <= c && c <= '9') || c == '-') {
            return false;
        }
        i += 1;
    }
    true
}

/// What is said of a slug that is none.
pub open spec fn slug_faults(field: Seq<char>, value: Seq<char>) -> Seq<Seq<char>> {
    unless(
        is_slug(value),
        field + " `"@ + value
            + "` must contain lowercase ASCII letters, digits, and internal hyphens"@,
    )
}

/// Says what is wrong with a slug.
pub fn validate_slug(field: &str, value: &str, errors: &mut Vec<String>)
    ensures
        messages(final(errors)@) == messages(old(errors)@) + slug_faults(field@, value@),
{
    let chars = chars_of(value);
    let count: usize = chars.len();
    assert(chars@.subrange(0, count as int) =~= chars@);
    if !slug_between(&chars, 0, count) {
        let mut message = field.to_owned();
        message.append(" `");
        message.append(value);
        message.append("` must contain lowercase ASCII letters, digits, and internal hyphens");
        proof {
            lemma_message(errors@, message);
        }
        errors.push(message);
    }
    assert(messages(errors@) =~= messages(old(errors)@) + slug_faults(field@, value@));
}

/// Where a piece of a text ends: at the next separator, or at the end.
pub open spec fn piece_end(text: Seq<char>, separator: char, i: int) -> int
    decreases text.len() - i,
{
    if i < 0 || i >= text.len() || text[i] == separator {
        i
    } else {
        piece_end(text, separator, i + 1)
    }
}

/// A piece ends within the text.
pub proof fn lemma_piece_end(text: Seq<char>, separator: char, i: int)
    requires
        0 <= i <= text.len(),
    ensures
        i <= piece_end(text, separator, i) <= text.len(),
    decreases text.len() - i,
{
    if i < text.len() && text[i] != separator {
        lemma_piece_end(text, separator, i + 1);
    }
}

/// Whether all pieces of a text from a place on, between separators, are slugs.
pub open spec fn pieces_are_slugs(text: Seq<char>, separator: char, i: int) -> bool
    decreases text.len() - i,
{
    if i < 0 || i > text.len() {
        true
    } else {
        let end = piece_end(text, separator, i);
        proof {
            lemma_piece_end(text, separator, i);
        }
        is_slug(text.subrange(i, end)) && (end < text.len() ==> pieces_are_slugs(
            text,
            separator,
            end + 1,
        ))
    }
}

/// Whether a text is a capability: slugs between dots.
pub open spec fn is_capability(text: Seq<char>) -> bool {
    pieces_are_slugs(text, '.', 0)
}

/// What is said of a capability that is none.
pub open spec fn capability_faults(field: Seq<char>, value: Seq<char>) -> Seq<Seq<char>> {
    unless(
        is_capability(value),
        field + " capability `"@ + value + "` must be dot-separated lowercase names"@,
    )
}

/// Whether a text is a capability.
#[verifier::loop_isolation(false)]
fn capability(value: &str) -> (is: bool)
    ensures
        is == is_capability(value@),
{
    let chars = chars_of(value);
    let count: usize = chars.len();
    let mut start: usize = 0;
    loop
        invariant
            start <= count,
            pieces_are_slugs(chars@, '.', 0) == pieces_are_slugs(chars@, '.', start as int),
        decreases count - start,
    {
        let mut end: usize = start;
        while end < count && chars[end] != '.'
            invariant
                start <= end <= count,
                piece_end(chars@, '.', start as int) == piece_end(chars@, '.', end as int),
            decreases count - end,
        {
            end += 1;
        }
        if !slug_between(&chars, start, end) {
            return false;
        }
        if end == count {
            return true;
        }
        start = end + 1;
    }
}

/// Says what is wrong with a capability.
pub fn validate_capability(field: &str, value: &str, errors: &mut Vec<String>)
    ensures
        messages(final(errors)@) == messages(old(errors)@) + capability_faults(field@, value@),
{
    if !capability(value) {
        let mut message = field.to_owned();
        message.append(" capability `");
        message.append(value);
        message.append("` must be dot-separated lowercase names");
        proof {
            lemma_message(errors@, message);
        }
        errors.push(message);
    }
    assert(messages(errors@) =~= messages(old(errors)@) + capability_faults(field@, value@));
}

/// Whether a character is a control character.
pub open spec fn is_control(c: char) -> bool {
    c as u32 <= 0x1f || 0x7f <= c as u32 <= 0x9f
}

/// Whether a text is not empty and holds no control character.
pub open spec fn is_plain_text(text: Seq<char>) -> bool {
    text.len() > 0 && forall|i: int| 0 <= i < text.len() ==> !is_control(#[trigger] text[i])
}

/// What is said of a text that is empty or holds control characters.
pub open spec fn text_faults(field: Seq<char>, value: Seq<char>) -> Seq<Seq<char>> {
    unless(is_plain_text(value), field + " must be nonempty text without controls"@)
}

/// Whether a text is not empty and holds no control character.
#[verifier::loop_isolation(false)]
fn plain_text(value: &str) -> (plain: bool)
    ensures
        plain == is_plain_text(value@),
{
    let chars = chars_of(value);
    if chars.len() == 0 {
        return false;
    }
    let mut i: usize = 0;
    while i < chars.len()
        invariant
            i <= chars@.len(),
            forall|k: int| 0 <= k < i ==> !is_control(#[trigger] chars@[k]),
        decreases chars@.len() - i,
    {
        let code: u32 = chars[i] as u32;
        if code <= 0x1f || (0x7f <= code && code <= 0x9f) {
            return false;
        }
        i += 1;
    }
    true
}

/// Says what is wrong with a text.
pub fn validate_text(field: &str, value: &str, errors: &mut Vec<String>)
    ensures
        messages(final(errors)@) == messages(old(errors)@) + text_faults(field@, value@),
{
    if !plain_text(value) {
        let mut message = field.to_owned();
        message.append(" must be nonempty text without controls");
        proof {
            lemma_message(errors@, message);
        }
        errors.push(message);
    }
    assert(messages(errors@) =~= messages(old(errors)@) + text_faults(field@, value@));
}

/// Whether a text begins with another.
pub open spec fn begins_with(text: Seq<char>, start: Seq<char>) -> bool {
    start.len() <= text.len() && text.take(start.len() as int) == start
}

/// Whether a text begins with another.
pub fn starts_with_text(text: &str, start: &str) -> (begins: bool)
    ensures
        begins == begins_with(text@, start@),
{
    let chars = chars_of(text);
    let wanted = chars_of(start);
    let count: usize = wanted.len();
    if chars.len() < count {
        return false;
    }
    assert(chars@.subrange(0, count as int) =~= chars@.take(count as int));
    let front = text_of(&chars, 0, count);
    same_text(front.as_str(), start)
}

/// Whether a character is a lower-case hexadecimal digit.
pub open spec fn is_hex_digit(c: char) -> bool {
    ('0' <= c <= '9') || ('a' <= c <= 'f')
}

/// Whether a text is what a digest is written in: 64 lower-case hexadecimal
/// digits.
pub open spec fn is_digest_hex(text: Seq<char>) -> bool {
    text.len() == 64 && forall|i: int| 0 <= i < text.len() ==> is_hex_digit(#[trigger] text[i])
}

/// Whether a text is a digest: `sha256:` and 64 lower-case hexadecimal digits.
pub open spec fn is_digest(text: Seq<char>) -> bool {
    begins_with(text, "sha256:"@) && is_digest_hex(text.skip("sha256:"@.len() as int))
}

/// Whether the rest of a text is what a digest is written in.
#[verifier::loop_isolation(false)]
pub fn digest_hex_after(text: &str, start: &str) -> (is: bool)
    requires
        begins_with(text@, start@),
    ensures
        is == is_digest_hex(text@.skip(start@.len() as int)),
{
    let chars = chars_of(text);
    let from: usize = chars_of(start).len();
    let count: usize = chars.len();
    let ghost rest = chars@.skip(from as int);
    if count - from != 64 {
        return false;
    }
    let mut i: usize = from;
    while i < count
        invariant
            from <= i <= count == chars@.len(),
            rest == chars@.skip(from as int),
            forall|k: int| 0 <= k < i - from ==> is_hex_digit(#[trigger] rest[k]),
        decreases count - i,
    {
        let c = chars[i];
        assert(rest[i - from] == c);
        if !(('0' <= c && c <= '9') || ('a' <= c && c <= 'f')) {
            return false;
        }
        i += 1;
    }
    true
}

/// What is said of a digest that is none.
pub open spec fn sha256_faults(field: Seq<char>, value: Seq<char>) -> Seq<Seq<char>> {
    if !begins_with(value, "sha256:"@) {
        seq![field + " must start with `sha256:`"@]
    } else {
        unless(
            is_digest(value),
            field + " must contain 64 lowercase hexadecimal digits"@,
        )
    }
}

/// Says what is wrong with a digest.
pub fn validate_sha256(field: &str, value: &str, errors: &mut Vec<String>)
    ensures
        messages(final(errors)@) == messages(old(errors)@) + sha256_faults(field@, value@),
{
    if !starts_with_text(value, "sha256:") {
        let mut message = field.to_owned();
        message.append(" must start with `sha256:`");
        proof {
            lemma_message(errors@, message);
        }
        errors.push(message);
    } else if !digest_hex_after(value, "sha256:") {
        let mut message = field.to_owned();
        message.append(" must contain 64 lowercase hexadecimal digits");
        proof {
            lemma_message(errors@, message);
        }
        errors.push(message);
    }
    assert(messages(errors@) =~= messages(old(errors)@) + sha256_faults(field@, value@));
}

/// Whether a path is relative and made of plain names alone, with no backslash
/// and no trailing separator.
pub open spec fn is_safe_path(path: Seq<char>) -> bool {
    &&& path.len() > 0
    &&& !path.contains('\\')
    &&& path.last() != '/'
    &&& path[0] != '/'
    &&& forall|i: int|
        0 <= i < components(path).len() ==> is_plain_part(#[trigger] components(path)[i])
}

/// Whether a path is relative and made of plain names alone.
#[verifier::loop_isolation(false)]
pub fn is_safe_relative_path(value: &str) -> (safe: bool)
    ensures
        safe == is_safe_path(value@),
{
    let chars = chars_of(value);
    let count: usize = chars.len();
    if count == 0 || chars[count - 1] == '/' || chars[0] == '/' {
        return false;
    }
    let mut i: usize = 0;
    while i < count
        invariant
            i <= count == chars@.len(),
            forall|k: int| 0 <= k < i ==> #[trigger] chars@[k] != '\\',
        decreases count - i,
    {
        if chars[i] == '\\' {
            assert(chars@.contains('\\'));
            return false;
        }
        i += 1;
    }
    let parts = path_components(value);
    let ghost all = components(value@);
    let mut k: usize = 0;
    while k < parts.len()
        invariant
            k <= parts@.len(),
            all == text_list(parts@),
            all == components(value@),
            forall|j: int| 0 <= j < k ==> is_plain_part(#[trigger] all[j]),
        decreases parts@.len() - k,
    {
        let part = parts[k].as_str();
        assert(all[k as int] == part@);
        if same_text(part, "/") || same_text(part, ".") || same_text(part, "..") {
            return false;
        }
        k += 1;
    }
    true
}

/// Whether a character is white space in ASCII.
pub open spec fn is_ascii_blank(c: char) -> bool {
    c == ' ' || c == '\t' || c == '\n' || c == '\r' || c as u32 == 0x0c
}

/// Whether a text is a media type: it holds a slash and no white space.
pub open spec fn is_media_type(text: Seq<char>) -> bool {
    text.contains('/') && forall|i: int| 0 <= i < text.len() ==> !is_ascii_blank(#[trigger] text[i])
}

/// Whether a text is a media type.
#[verifier::loop_isolation(false)]
pub fn media_type(value: &str) -> (is: bool)
    ensures
        is == is_media_type(value@),
{
    let chars = chars_of(value);
    let mut slash = false;
    let mut i: usize = 0;
    while i < chars.len()
        invariant
            i <= chars@.len(),
            slash == (exists|k: int| 0 <= k < i && #[trigger] chars@[k] == '/'),
            forall|k: int| 0 <= k < i ==> !is_ascii_blank(#[trigger] chars@[k]),
        decreases chars@.len() - i,
    {
        let c = chars[i];
        if c == '/' {
            slash = true;
        }
        if c == ' ' || c == '\t' || c == '\n' || c == '\r' || c as u32 == 0x0c {
            return false;
        }
        i += 1;
    }
    slash
}

} // verus!
