//! What the rules for names, texts, digests and paths let through.

use crate::errors::naming::is_plain_part;
use crate::fact_pack::rules::{
    capability_faults, is_capability, is_digest, is_plain_text, is_safe_path, is_slug,
    is_slug_char, piece_end, pieces_are_slugs, sha256_faults, slug_faults, text_faults,
};
use crate::paths::{components, components_upto};
use vstd::prelude::*;
use vstd::string::*;

verus! {

/// Whether a character is a lower-case letter or a digit.
pub open spec fn is_lower_or_digit(c: char) -> bool {
    ('0' <= c <= '9') || ('a' <= c <= 'z')
}

/// One character is a slug where it is a lower-case letter or a digit. Two slugs side
/// by side, or with a hyphen between them, are one, and nothing with another kind of
/// character or a hyphen at an end is.
pub proof fn law_slugs_are_built_of_letters_and_hyphens(
    first: Seq<char>,
    second: Seq<char>,
    c: char,
)
    ensures
        is_slug(seq![c]) <==> is_lower_or_digit(c),
        is_slug(first) && is_slug(second) ==> is_slug(first + second) && is_slug(
            first + seq!['-'] + second,
        ),
        is_slug(first) ==> !is_slug(first.push('-')) && !is_slug(seq!['-'] + first),
        !is_lower_or_digit(c) && c != '-' ==> !is_slug(first + seq![c] + second),
        !is_slug(Seq::empty()),
{
    assert(seq![c][0] == c);
    if is_slug(first) && is_slug(second) {
        let plain = first + second;
        let joined = first + seq!['-'] + second;
        assert forall|i: int| 0 <= i < plain.len() implies is_slug_char(#[trigger] plain[i]) by {
            if i < first.len() {
                assert(plain[i] == first[i]);
            } else {
                assert(plain[i] == second[i - first.len()]);
            }
        }
        assert(plain[0] == first[0] && plain.last() == second.last());
        assert forall|i: int| 0 <= i < joined.len() implies is_slug_char(#[trigger] joined[i]) by {
            if i < first.len() {
                assert(joined[i] == first[i]);
            } else if i > first.len() {
                assert(joined[i] == second[i - first.len() - 1]);
            }
        }
        assert(joined[0] == first[0] && joined.last() == second.last());
    }
    assert(first.push('-').last() == '-');
    assert((seq!['-'] + first)[0] == '-');
    assert((first + seq![c] + second)[first.len() as int] == c);
}

proof fn lemma_piece_at(text: Seq<char>, separator: char, i: int, at: int)
    requires
        0 <= i <= at <= text.len(),
        forall|j: int| i <= j < at ==> #[trigger] text[j] != separator,
        at == text.len() || text[at] == separator,
    ensures
        piece_end(text, separator, i) == at,
    decreases at - i,
{
    if i < at {
        lemma_piece_at(text, separator, i + 1, at);
    }
}

proof fn lemma_pieces_after(text: Seq<char>, front: Seq<char>, i: int)
    requires
        0 <= i <= text.len(),
    ensures
        pieces_are_slugs(front + text, '.', front.len() + i) == pieces_are_slugs(text, '.', i),
    decreases text.len() - i,
{
    let whole = front + text;
    let end = piece_end(text, '.', i);
    crate::fact_pack::rules::lemma_piece_end(text, '.', i);
    lemma_piece_shift(text, front, i);
    assert(whole.subrange(front.len() + i, front.len() + end) =~= text.subrange(i, end));
    if end < text.len() {
        lemma_pieces_after(text, front, end + 1);
    }
}

proof fn lemma_piece_shift(text: Seq<char>, front: Seq<char>, i: int)
    requires
        0 <= i <= text.len(),
    ensures
        piece_end(front + text, '.', front.len() + i) == front.len() + piece_end(text, '.', i),
    decreases text.len() - i,
{
    if i < text.len() {
        assert((front + text)[front.len() + i] == text[i]);
        if text[i] != '.' {
            lemma_piece_shift(text, front, i + 1);
        }
    }
}

/// A slug is a capability of its own, and one followed by a dot and a capability is
/// one; what is followed by a dot and is no slug is none.
pub proof fn law_capabilities_are_slugs_between_dots(first: Seq<char>, rest: Seq<char>)
    requires
        !first.contains('.'),
    ensures
        is_capability(first) <==> is_slug(first),
        is_capability(first + seq!['.'] + rest) <==> is_slug(first) && is_capability(rest),
{
    let at = first.len() as int;
    assert forall|j: int| 0 <= j < at implies #[trigger] first[j] != '.' by {
        if first[j] == '.' {
            assert(first.contains('.'));
        }
    }
    lemma_piece_at(first, '.', 0, at);
    assert(first.subrange(0, at) =~= first);
    let whole = first + seq!['.'] + rest;
    assert forall|j: int| 0 <= j < at implies #[trigger] whole[j] != '.' by {
        assert(whole[j] == first[j]);
    }
    assert(whole[at] == '.');
    lemma_piece_at(whole, '.', 0, at);
    assert(whole.subrange(0, at) =~= first);
    let front = first + seq!['.'];
    assert(front + rest =~= whole);
    lemma_pieces_after(rest, front, 0);
    assert(pieces_are_slugs(whole, '.', at + 1) == pieces_are_slugs(rest, '.', 0));
}

/// A text is plain where it is not empty and each of its characters is printable: two
/// plain texts are one, and a control character makes any text unfit.
pub proof fn law_plain_text_holds_no_controls(first: Seq<char>, second: Seq<char>, c: char)
    ensures
        is_plain_text(seq![c]) <==> (0x20 <= c as u32 <= 0x7e || 0xa0 <= c as u32),
        is_plain_text(first) && is_plain_text(second) ==> is_plain_text(first + second),
        !is_plain_text(seq![c]) ==> !is_plain_text(first + seq![c] + second),
        !is_plain_text(Seq::empty()),
{
    assert(seq![c][0] == c);
    if is_plain_text(first) && is_plain_text(second) {
        let both = first + second;
        assert forall|i: int| 0 <= i < both.len() implies !crate::fact_pack::rules::is_control(
            #[trigger] both[i],
        ) by {
            if i < first.len() {
                assert(both[i] == first[i]);
            } else {
                assert(both[i] == second[i - first.len()]);
            }
        }
    }
    assert((first + seq![c] + second)[first.len() as int] == c);
}

/// A digest is `sha256:` and then sixty-four digits, each a decimal one or one of the
/// first six lower-case letters, and nothing else is.
pub proof fn law_digests_are_written_one_way(text: Seq<char>, hex: Seq<char>)
    ensures
        is_digest(text) ==> text.len() == 71 && text.take(7) == "sha256:"@ && forall|i: int|
            7 <= i < 71 ==> ('0' <= #[trigger] text[i] <= '9') || ('a' <= text[i] <= 'f'),
        hex.len() == 64 && (forall|i: int|
            0 <= i < 64 ==> ('0' <= #[trigger] hex[i] <= '9') || ('a' <= hex[i] <= 'f'))
            ==> is_digest("sha256:"@ + hex),
{
    reveal_strlit("sha256:");
    assert("sha256:"@.len() == 7);
    let rest = text.skip(7);
    if is_digest(text) {
        assert(rest.len() == 64);
        assert forall|i: int| 7 <= i < 71 implies ('0' <= #[trigger] text[i] <= '9') || ('a'
            <= text[i] <= 'f') by {
            assert(rest[i - 7] == text[i]);
        }
    }
    let whole = "sha256:"@ + hex;
    assert(whole.take(7) =~= "sha256:"@);
    assert(whole.skip(7) =~= hex);
}

/// Something is said of a value exactly where it is unfit, and then one thing.
pub proof fn law_only_unfit_values_are_faulted(field: Seq<char>, value: Seq<char>)
    ensures
        slug_faults(field, value).len() == if is_slug(value) {
            0nat
        } else {
            1nat
        },
        capability_faults(field, value).len() == if is_capability(value) {
            0nat
        } else {
            1nat
        },
        text_faults(field, value).len() == if is_plain_text(value) {
            0nat
        } else {
            1nat
        },
        sha256_faults(field, value).len() == if is_digest(value) {
            0nat
        } else {
            1nat
        },
{
}

proof fn lemma_components_prefix(path: Seq<char>, more: Seq<char>, n: int)
    requires
        0 <= n <= path.len(),
    ensures
        components_upto(path + more, n) == components_upto(path, n),
    decreases n,
{
    if n > 0 {
        lemma_components_prefix(path, more, n - 1);
        assert((path + more)[n - 1] == path[n - 1]);
    }
}

proof fn lemma_component_letters(path: Seq<char>, from: int, n: int)
    requires
        0 <= from <= n <= path.len(),
        forall|j: int| from <= j < n ==> #[trigger] path[j] != '/',
    ensures
        components_upto(path, n).0 == components_upto(path, from).0,
        components_upto(path, n).1 == components_upto(path, from).1 + path.subrange(from, n),
    decreases n,
{
    if n > from {
        lemma_component_letters(path, from, n - 1);
        assert(path.subrange(from, n) =~= path.subrange(from, n - 1).push(path[n - 1]));
        assert(components_upto(path, n).1 =~= components_upto(path, from).1 + path.subrange(
            from,
            n,
        ));
    } else {
        assert(path.subrange(from, n) =~= Seq::<char>::empty());
        assert(components_upto(path, from).1 + Seq::<char>::empty() =~= components_upto(
            path,
            from,
        ).1);
    }
}

/// The parts of a path are what stands between its separators: a name alone is its
/// one part, and a path followed by a separator and a name has that name as one part
/// more.
pub proof fn law_paths_are_parted_at_separators(path: Seq<char>, name: Seq<char>)
    requires
        name.len() > 0,
        !name.contains('/'),
    ensures
        components(name) == seq![name],
        path.len() > 0 && name != "."@ ==> components(path + seq!['/'] + name) == components(
            path,
        ).push(name),
{
    assert forall|j: int| 0 <= j < name.len() implies #[trigger] name[j] != '/' by {
        if name[j] == '/' {
            assert(name.contains('/'));
        }
    }
    lemma_component_letters(name, 0, name.len() as int);
    assert(name.subrange(0, name.len() as int) =~= name);
    assert(components_upto(name, 0).1 + name =~= name);
    assert(components(name) =~= seq![name]);
    if path.len() > 0 && name != "."@ {
        let whole = path + seq!['/'] + name;
        let n = path.len() as int;
        assert(path + (seq!['/'] + name) =~= whole);
        lemma_components_prefix(path, seq!['/'] + name, n);
        assert(whole[n] == '/');
        assert(components_upto(whole, n + 1).0 == components(path));
        assert(components_upto(whole, n + 1).1 == Seq::<char>::empty());
        assert forall|j: int| n + 1 <= j < whole.len() implies #[trigger] whole[j] != '/' by {
            assert(whole[j] == name[j - n - 1]);
        }
        lemma_component_letters(whole, n + 1, whole.len() as int);
        assert(whole.subrange(n + 1, whole.len() as int) =~= name);
        assert(components_upto(whole, whole.len() as int).1 =~= name);
    }
}

/// A path is safe where each of its parts is a plain name: a safe path followed by a
/// separator and a name is, unless the name is `..` or holds a backslash. A path that
/// starts or ends with a separator, or holds a backslash, is not.
pub proof fn law_safe_paths_stay_inside(path: Seq<char>, name: Seq<char>)
    requires
        name.len() > 0,
        !name.contains('/'),
        name != seq!['.'],
        path.len() > 0,
    ensures
        is_safe_path(name) <==> name != seq!['.', '.'] && !name.contains('\\'),
        is_safe_path(path + seq!['/'] + name) <==> path[0] != '/' && !path.contains('\\')
            && !name.contains('\\') && name != seq!['.', '.'] && (forall|i: int|
            0 <= i < components(path).len() ==> is_plain_part(#[trigger] components(path)[i])),
        !is_safe_path(path.push('/')),
        !is_safe_path(seq!['/'] + path),
{
    reveal_strlit(".");
    reveal_strlit("..");
    reveal_strlit("/");
    assert("."@ =~= seq!['.']);
    assert(".."@ =~= seq!['.', '.']);
    law_paths_are_parted_at_separators(path, name);
    assert forall|j: int| 0 <= j < name.len() implies #[trigger] name[j] != '/' by {
        if name[j] == '/' {
            assert(name.contains('/'));
        }
    }
    assert(name != "/"@) by {
        if name == "/"@ {
            assert(name[0] == '/');
        }
    }
    assert(components(name)[0] == name);
    let whole = path + seq!['/'] + name;
    let parts = components(whole);
    assert(parts == components(path).push(name));
    assert(parts.last() == name);
    assert(forall|i: int| 0 <= i < components(path).len() ==> parts[i] == components(path)[i]);
    assert(whole[0] == path[0]);
    assert(whole.last() == name.last());
    assert(name[name.len() - 1] != '/');
    assert(whole.contains('\\') <==> path.contains('\\') || name.contains('\\')) by {
        if path.contains('\\') {
            let i = choose|i: int| 0 <= i < path.len() && path[i] == '\\';
            assert(whole[i] == '\\');
        }
        if name.contains('\\') {
            let i = choose|i: int| 0 <= i < name.len() && name[i] == '\\';
            assert(whole[path.len() + 1 + i] == '\\');
        }
        if whole.contains('\\') {
            let i = choose|i: int| 0 <= i < whole.len() && whole[i] == '\\';
            if i < path.len() {
                assert(path[i] == '\\');
            } else {
                assert(i > path.len());
                assert(name[i - path.len() - 1] == '\\');
            }
        }
    }
    if is_safe_path(whole) {
        assert(is_plain_part(parts.last()));
        assert forall|i: int| 0 <= i < components(path).len() implies is_plain_part(
            #[trigger] components(path)[i],
        ) by {
            assert(is_plain_part(parts[i]));
        }
    }
    assert(path.push('/').last() == '/');
    assert((seq!['/'] + path)[0] == '/');
}

} // verus!
