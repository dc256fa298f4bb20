//! Names and texts as reports spell them.

use crate::lists::text_list;
use crate::paths::{components, path_components};
use crate::text::{blank, chars_of, is_blank, same_text, text_of};
use vstd::prelude::*;
use vstd::string::*;

verus! {

/// Where a character first stands, or the end of a text.
pub open spec fn first_place(text: Seq<char>, c: char, i: int) -> int
    decreases text.len() - i,
{
    if i < 0 || i >= text.len() || text[i] == c {
        i
    } else {
        first_place(text, c, i + 1)
    }
}

/// A text up to the first opening angle bracket.
pub open spec fn leading(text: Seq<char>) -> Seq<char> {
    text.take(first_place(text, '<', 0))
}

/// The first place is within the text.
proof fn lemma_first_place(text: Seq<char>, c: char, i: int)
    requires
        0 <= i <= text.len(),
    ensures
        i <= first_place(text, c, i) <= text.len(),
    decreases text.len() - i,
{
    if i < text.len() && text[i] != c {
        lemma_first_place(text, c, i + 1);
    }
}

/// A text up to the first opening angle bracket.
pub fn leading_text(text: &str) -> (kept: String)
    ensures
        kept@ == leading(text@),
{
    let chars = chars_of(text);
    let mut i: usize = 0;
    while i < chars.len() && chars[i] != '<'
        invariant
            i <= chars@.len(),
            first_place(chars@, '<', 0) == first_place(chars@, '<', i as int),
        decreases chars@.len() - i,
    {
        i += 1;
    }
    assert(chars@.subrange(0, i as int) =~= chars@.take(i as int));
    text_of(&chars, 0, i)
}

/// Whether a character can be part of a name.
pub open spec fn is_word(c: char) -> bool {
    ('a' <= c <= 'z') || ('A' <= c <= 'Z') || ('0' <= c <= '9') || c == '_'
}

/// Where the name that ends at a place begins.
pub open spec fn word_start(text: Seq<char>, n: int) -> int
    decreases n,
{
    if n <= 0 || n > text.len() || !is_word(text[n - 1]) {
        n
    } else {
        word_start(text, n - 1)
    }
}

/// The last name before a place that does not begin with a digit.
pub open spec fn last_name(text: Seq<char>, n: int) -> Option<Seq<char>>
    decreases n,
{
    if n <= 0 || n > text.len() {
        None
    } else if !is_word(text[n - 1]) {
        last_name(text, n - 1)
    } else {
        let start = word_start(text, n);
        if start < 0 || start >= n {
            None
        } else if '0' <= text[start] <= '9' {
            last_name(text, start)
        } else {
            Some(text.subrange(start, n))
        }
    }
}

/// The bare name of a type: its last name before any type argument, or else the
/// type as written.
pub open spec fn simple_name(value: Seq<char>) -> Seq<char> {
    match last_name(leading(value), leading(value).len() as int) {
        Some(name) => name,
        None => value,
    }
}

/// Whether a character can be part of a name.
fn word(c: char) -> (is: bool)
    ensures
        is == is_word(c),
{
    ('a' <= c && c <= 'z') || ('A' <= c && c <= 'Z') || ('0' <= c && c <= '9') || c == '_'
}

/// The name that ends at a place begins before it.
proof fn lemma_word_start(text: Seq<char>, n: int)
    requires
        0 <= n <= text.len(),
    ensures
        0 <= word_start(text, n) <= n,
        n > 0 && is_word(text[n - 1]) ==> word_start(text, n) < n,
    decreases n,
{
    if n > 0 && is_word(text[n - 1]) {
        lemma_word_start(text, n - 1);
    }
}

/// The bare type name of an `impl` block's self type.
///
/// Yields `Bar` for `impl Trait for &mut Bar`, not `&mut Bar`: a reference type
/// is not usable as a path segment.
pub fn simple_type_name(value: &str) -> (name: String)
    ensures
        name@ == simple_name(value@),
{
    let base = leading_text(value);
    let chars = chars_of(base.as_str());
    let mut n: usize = chars.len();
    while n > 0
        invariant
            n <= chars@.len(),
            chars@ == leading(value@),
            last_name(chars@, chars@.len() as int) == last_name(chars@, n as int),
        decreases n,
    {
        if !word(chars[n - 1]) {
            n -= 1;
        } else {
            let mut start: usize = n;
            proof {
                lemma_word_start(chars@, n as int);
            }
            while start > 0 && word(chars[start - 1])
                invariant
                    start <= n <= chars@.len(),
                    word_start(chars@, n as int) == word_start(chars@, start as int),
                decreases start,
            {
                start -= 1;
            }
            if '0' <= chars[start] && chars[start] <= '9' {
                n = start;
            } else {
                return text_of(&chars, start, n);
            }
        }
    }
    value.to_owned()
}

/// A text without white space.
pub open spec fn unspaced(text: Seq<char>) -> Seq<char>
    decreases text.len(),
{
    if text.len() == 0 {
        Seq::empty()
    } else if is_blank(text.last()) {
        unspaced(text.drop_last())
    } else {
        unspaced(text.drop_last()).push(text.last())
    }
}

/// A text without white space.
pub fn without_spaces(text: &str) -> (kept: String)
    ensures
        kept@ == unspaced(text@),
{
    let chars = chars_of(text);
    let mut kept = String::new();
    let mut i: usize = 0;
    assert(chars@.take(0) =~= Seq::empty());
    while i < chars.len()
        invariant
            i <= chars@.len(),
            kept@ == unspaced(chars@.take(i as int)),
        decreases chars@.len() - i,
    {
        proof {
            assert(chars@.take(i + 1).drop_last() =~= chars@.take(i as int));
            assert(chars@.take(i + 1).last() == chars@[i as int]);
        }
        if !blank(chars[i]) {
            kept.push(chars[i]);
        }
        i += 1;
    }
    assert(chars@.take(i as int) =~= chars@);
    kept
}

/// A text with its words one space apart.
pub open spec fn squeezed(text: Seq<char>) -> Seq<char>
    decreases text.len(),
{
    if text.len() == 0 {
        Seq::empty()
    } else {
        let before = squeezed(text.drop_last());
        if is_blank(text.last()) {
            before
        } else if before.len() > 0 && is_blank(text[text.len() - 2]) {
            before.push(' ').push(text.last())
        } else {
            before.push(text.last())
        }
    }
}

/// A text with its words one space apart, kept to one readable line.
pub open spec fn shortened(text: Seq<char>) -> Seq<char> {
    let flat = squeezed(text);
    if flat.len() <= 80 {
        flat
    } else {
        flat.take(77) + "..."@
    }
}

/// Keeps a reported expression to one readable line.
pub fn truncate(value: &str) -> (kept: String)
    ensures
        kept@ == shortened(value@),
{
    let chars = chars_of(value);
    let mut flat: Vec<char> = Vec::new();
    let mut i: usize = 0;
    assert(chars@.take(0) =~= Seq::empty());
    while i < chars.len()
        invariant
            i <= chars@.len(),
            flat@ == squeezed(chars@.take(i as int)),
        decreases chars@.len() - i,
    {
        proof {
            assert(chars@.take(i + 1).drop_last() =~= chars@.take(i as int));
            assert(chars@.take(i + 1).last() == chars@[i as int]);
            lemma_squeezed_len(chars@.take(i as int));
        }
        if !blank(chars[i]) {
            if flat.len() > 0 && blank(chars[i - 1]) {
                flat.push(' ');
            }
            flat.push(chars[i]);
        }
        i += 1;
    }
    assert(chars@.take(i as int) =~= chars@);
    if flat.len() <= 80 {
        let end: usize = flat.len();
        assert(flat@.subrange(0, end as int) =~= flat@);
        return text_of(&flat, 0, end);
    }
    assert(flat@.subrange(0, 77) =~= flat@.take(77));
    let mut kept = text_of(&flat, 0, 77);
    kept.append("...");
    kept
}

/// Squeezing makes no text longer.
proof fn lemma_squeezed_len(text: Seq<char>)
    ensures
        squeezed(text).len() <= text.len(),
        text.len() > 0 && is_blank(text.last()) ==> squeezed(text).len() < text.len(),
    decreases text.len(),
{
    if text.len() > 0 {
        lemma_squeezed_len(text.drop_last());
    }
}

/// Whether a part of a path is a name.
pub open spec fn is_plain_part(part: Seq<char>) -> bool {
    part != "/"@ && part != "."@ && part != ".."@
}

/// Where the last dot of a name stands, among the characters before a place.
pub open spec fn last_dot(name: Seq<char>, n: int) -> Option<int>
    decreases n,
{
    if n <= 0 || n > name.len() {
        None
    } else if name[n - 1] == '.' {
        Some(n - 1)
    } else {
        last_dot(name, n - 1)
    }
}

/// A file name without its extension; a dot it begins with starts none.
pub open spec fn stem(name: Seq<char>) -> Seq<char> {
    match last_dot(name, name.len() as int) {
        Some(i) => if i == 0 {
            name
        } else {
            name.take(i)
        },
        None => name,
    }
}

/// The parts of a path, the last without its extension.
pub open spec fn stemmed(parts: Seq<Seq<char>>) -> Seq<Seq<char>> {
    if parts.len() > 0 && is_plain_part(parts.last()) {
        parts.drop_last().push(stem(parts.last()))
    } else {
        parts
    }
}

/// Names with a double colon between each two.
pub open spec fn scoped(parts: Seq<Seq<char>>) -> Seq<char>
    decreases parts.len(),
{
    if parts.len() == 0 {
        Seq::empty()
    } else if parts.len() == 1 {
        parts[0]
    } else {
        scoped(parts.drop_last()) + "::"@ + parts.last()
    }
}

/// The module that a file of a repository is.
pub open spec fn module_of(path: Seq<char>) -> Seq<char> {
    let parts = stemmed(components(path));
    let module = if parts.len() > 0 && (parts.last() == "lib"@ || parts.last() == "main"@
        || parts.last() == "mod"@) {
        parts.drop_last()
    } else {
        parts
    };
    if module.len() == 0 {
        "crate"@
    } else {
        scoped(module)
    }
}

/// A file name without its extension.
fn file_stem(name: &str) -> (kept: String)
    ensures
        kept@ == stem(name@),
{
    let chars = chars_of(name);
    let mut n: usize = chars.len();
    while n > 0 && chars[n - 1] != '.'
        invariant
            n <= chars@.len(),
            last_dot(chars@, chars@.len() as int) == last_dot(chars@, n as int),
        decreases n,
    {
        n -= 1;
    }
    if n <= 1 {
        return name.to_owned();
    }
    assert(chars@.subrange(0, n - 1) =~= chars@.take(n - 1));
    text_of(&chars, 0, n - 1)
}

/// Names with a double colon between each two.
pub(crate) fn scoped_name(parts: &Vec<String>, count: usize) -> (name: String)
    requires
        count <= parts@.len(),
    ensures
        name@ == scoped(text_list(parts@).take(count as int)),
{
    let ghost all = text_list(parts@);
    let mut name = String::new();
    let mut i: usize = 0;
    assert(all.take(0) =~= Seq::empty());
    while i < count
        invariant
            i <= count <= parts@.len(),
            all == text_list(parts@),
            name@ == scoped(all.take(i as int)),
        decreases count - i,
    {
        proof {
            assert(all.take(i + 1).drop_last() =~= all.take(i as int));
            assert(all.take(i + 1).last() == parts@[i as int]@);
        }
        if i > 0 {
            name.append("::");
        }
        name.append(parts[i].as_str());
        proof {
            if i == 0 {
                assert(name@ =~= parts@[0]@);
                assert(all.take(1)[0] == parts@[0]@);
            } else {
                assert(name@ =~= scoped(all.take(i as int)) + "::"@ + parts@[i as int]@);
            }
        }
        i += 1;
    }
    name
}

/// The module that a file of a repository is.
pub fn repository_module(path: &str) -> (module: String)
    ensures
        module@ == module_of(path@),
{
    let mut parts = path_components(path);
    let ghost all = text_list(parts@);
    let count: usize = parts.len();
    if count > 0 {
        assert(all.last() == parts@[count - 1]@);
        let plain = !same_text(parts[count - 1].as_str(), "/") && !same_text(
            parts[count - 1].as_str(),
            ".",
        ) && !same_text(parts[count - 1].as_str(), "..");
        if plain {
            let name = file_stem(parts[count - 1].as_str());
            parts.set(count - 1, name);
            assert(text_list(parts@) =~= all.drop_last().push(name@));
        }
    }
    let ghost stems = text_list(parts@);
    assert(stems == stemmed(all));
    let mut kept: usize = count;
    if count > 0 {
        assert(stems.last() == parts@[count - 1]@);
        let last = parts[count - 1].as_str();
        if same_text(last, "lib") || same_text(last, "main") || same_text(last, "mod") {
            kept = count - 1;
            assert(stems.take(kept as int) =~= stems.drop_last());
        } else {
            assert(stems.take(kept as int) =~= stems);
        }
    }
    if kept == 0 {
        "crate".to_owned()
    } else {
        scoped_name(&parts, kept)
    }
}

} // verus!
