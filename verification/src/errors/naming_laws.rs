//! What the names of types, files and modules keep of what is written.

use crate::errors::naming::{
    first_place, is_plain_part, is_word, last_dot, last_name, leading, module_of, scoped,
    simple_name, stem, stemmed, unspaced, word_start,
};
use crate::paths::components;
use crate::text::is_blank;
use vstd::prelude::*;
use vstd::string::*;

verus! {

proof fn lemma_place_after(text: Seq<char>, c: char, i: int, at: int)
    requires
        0 <= i <= at <= text.len(),
        forall|j: int| i <= j < at ==> #[trigger] text[j] != c,
        at == text.len() || text[at] == c,
    ensures
        first_place(text, c, i) == at,
    decreases at - i,
{
    if i < at {
        assert(text[i] != c);
        lemma_place_after(text, c, i + 1, at);
    }
}

proof fn lemma_word_from(text: Seq<char>, start: int, n: int)
    requires
        0 <= start <= n <= text.len(),
        forall|j: int| start <= j < n ==> is_word(#[trigger] text[j]),
        start == 0 || !is_word(text[start - 1]),
    ensures
        word_start(text, n) == start,
    decreases n,
{
    if n > start {
        assert(is_word(text[n - 1]));
        lemma_word_from(text, start, n - 1);
    }
}

/// The bare name of a type is the last name of its path: what stands before the name,
/// and ends in something that is no part of one, and its type arguments are dropped.
pub proof fn law_the_last_name_of_a_path_is_its_type(
    path: Seq<char>,
    name: Seq<char>,
    arguments: Seq<char>,
)
    requires
        !path.contains('<'),
        path.len() == 0 || !is_letter_digit_or_underscore(path.last()),
        name.len() > 0,
        !('0' <= name[0] <= '9'),
        forall|i: int| 0 <= i < name.len() ==> is_letter_digit_or_underscore(#[trigger] name[i]),
        arguments.len() == 0 || arguments[0] == '<',
    ensures
        simple_name(path + name + arguments) == name,
{
    let text = path + name + arguments;
    let at = (path.len() + name.len()) as int;
    assert forall|j: int| 0 <= j < at implies #[trigger] text[j] != '<' by {
        if j < path.len() {
            assert(path[j] == text[j]);
            if text[j] == '<' {
                assert(path.contains('<'));
            }
        } else {
            assert(name[j - path.len()] == text[j]);
        }
    }
    lemma_place_after(text, '<', 0, at);
    let kept = leading(text);
    assert(kept =~= path + name);
    assert forall|j: int| path.len() <= j < at implies is_word(#[trigger] kept[j]) by {
        assert(kept[j] == name[j - path.len()]);
    }
    if path.len() > 0 {
        assert(kept[path.len() - 1] == path.last());
    }
    lemma_word_from(kept, path.len() as int, at);
    assert(kept[path.len() as int] == name[0]);
    assert(is_word(kept[at - 1]));
    assert(kept.subrange(path.len() as int, at) =~= name);
    assert(last_name(kept, at) == Some(name));
}

/// Whether a character can be part of a name.
pub open spec fn is_letter_digit_or_underscore(c: char) -> bool {
    c == '_' || ('0' <= c <= '9') || ('A' <= c <= 'Z') || ('a' <= c <= 'z')
}

/// A text without white space is that of its halves, one after the other; of one
/// character it is that character, or nothing where it is blank.
pub proof fn law_dropping_blanks_keeps_the_rest(first: Seq<char>, second: Seq<char>, c: char)
    ensures
        unspaced(first + second) == unspaced(first) + unspaced(second),
        unspaced(seq![c]) == if is_blank(c) {
            Seq::empty()
        } else {
            seq![c]
        },
    decreases second.len(),
{
    assert(seq![c].drop_last() =~= Seq::<char>::empty());
    assert(unspaced(Seq::<char>::empty()) =~= Seq::<char>::empty());
    assert(unspaced(seq![c]) =~= if is_blank(c) {
        Seq::empty()
    } else {
        seq![c]
    });
    if second.len() == 0 {
        assert(first + second =~= first);
        assert(unspaced(first) + unspaced(second) =~= unspaced(first));
    } else {
        let both = first + second;
        law_dropping_blanks_keeps_the_rest(first, second.drop_last(), c);
        assert(both.drop_last() =~= first + second.drop_last());
        assert(both.last() == second.last());
        assert(unspaced(both) =~= unspaced(first) + unspaced(second));
    }
}

proof fn lemma_dot_at(name: Seq<char>, n: int, at: int)
    requires
        0 <= at < n <= name.len(),
        name[at] == '.',
        forall|j: int| at < j < n ==> #[trigger] name[j] != '.',
    ensures
        last_dot(name, n) == Some(at),
    decreases n,
{
    if n - 1 > at {
        assert(name[n - 1] != '.');
        lemma_dot_at(name, n - 1, at);
    }
}

proof fn lemma_no_dot(name: Seq<char>, n: int)
    requires
        0 <= n <= name.len(),
        forall|j: int| 0 <= j < n ==> #[trigger] name[j] != '.',
    ensures
        last_dot(name, n) is None,
    decreases n,
{
    if n > 0 {
        lemma_no_dot(name, n - 1);
    }
}

/// A file name loses its last extension and nothing else. One without a dot, or with
/// none but the one it begins with, stays as it is.
pub proof fn law_a_file_name_loses_its_extension(base: Seq<char>, extension: Seq<char>)
    requires
        !extension.contains('.'),
    ensures
        base.len() > 0 ==> stem(base + seq!['.'] + extension) == base,
        stem(seq!['.'] + extension) == seq!['.'] + extension,
        stem(extension) == extension,
{
    assert forall|j: int| 0 <= j < extension.len() implies #[trigger] extension[j] != '.' by {
        if extension[j] == '.' {
            assert(extension.contains('.'));
        }
    }
    lemma_no_dot(extension, extension.len() as int);
    let hidden = seq!['.'] + extension;
    assert forall|j: int| 0 < j < hidden.len() implies #[trigger] hidden[j] != '.' by {
        assert(hidden[j] == extension[j - 1]);
    }
    lemma_dot_at(hidden, hidden.len() as int, 0);
    let whole = base + seq!['.'] + extension;
    assert forall|j: int| base.len() < j < whole.len() implies #[trigger] whole[j] != '.' by {
        assert(whole[j] == extension[j - base.len() - 1]);
    }
    assert(whole[base.len() as int] == '.');
    lemma_dot_at(whole, whole.len() as int, base.len() as int);
    assert(whole.take(base.len() as int) =~= base);
}

/// A file of a repository is the module of its path, with a double colon for each
/// separator and without the extension. `lib`, `main` and `mod` are the module of
/// their directory, which is the crate where there is none.
pub proof fn law_a_file_is_the_module_of_its_path(
    path: Seq<char>,
    directories: Seq<Seq<char>>,
    name: Seq<char>,
    extension: Seq<char>,
)
    requires
        components(path) == directories.push(name + seq!['.'] + extension),
        name.len() > 0,
        !extension.contains('.'),
        extension.len() > 0,
    ensures
        module_of(path) == if name == "lib"@ || name == "main"@ || name == "mod"@ {
            if directories.len() == 0 {
                "crate"@
            } else {
                scoped(directories)
            }
        } else {
            scoped(directories.push(name))
        },
{
    let file = name + seq!['.'] + extension;
    let parts = components(path);
    law_a_file_name_loses_its_extension(name, extension);
    reveal_strlit("/");
    reveal_strlit(".");
    reveal_strlit("..");
    assert(file.len() >= 3);
    assert(is_plain_part(file));
    assert(parts.last() == file);
    assert(parts.drop_last() =~= directories);
    assert(stemmed(parts) =~= directories.push(name));
    assert(directories.push(name).last() == name);
    assert(directories.push(name).drop_last() =~= directories);
}

/// Names are told with a double colon between each two.
pub proof fn law_modules_are_told_with_double_colons(
    outer: Seq<Seq<char>>,
    inner: Seq<char>,
)
    ensures
        scoped(seq![inner]) == inner,
        outer.len() > 0 ==> scoped(outer.push(inner)) == scoped(outer) + seq![':', ':'] + inner,
{
    reveal_strlit("::");
    assert("::"@ =~= seq![':', ':']);
    assert(outer.push(inner).drop_last() =~= outer);
    assert(outer.push(inner).last() == inner);
}

} // verus!
