//! How each kind of form is written.

use crate::normalize::display::{
    arm_words, each_text, enclosed, pattern_text, pattern_texts, spaced, term_text,
};
use crate::normalize::form::{Coverage, Direction, PatternKind, PatternTerm, Shape, Term};
use crate::normalize::meaning::{made, named};
use crate::text::decimal;
use vstd::prelude::*;
use vstd::string::*;

verus! {

/// Words, each after the first with a space before it.
pub open spec fn phrase(words: Seq<Seq<char>>) -> Seq<char>
    decreases words.len(),
{
    if words.len() == 0 {
        Seq::empty()
    } else if words.len() == 1 {
        words[0]
    } else {
        words[0] + seq![' '] + phrase(words.drop_first())
    }
}

/// Words in brackets.
pub open spec fn bracketed(words: Seq<Seq<char>>) -> Seq<char> {
    seq!['('] + phrase(words) + seq![')']
}

proof fn lemma_phrase_last(words: Seq<Seq<char>>, last: Seq<char>)
    requires
        words.len() > 0,
    ensures
        phrase(words.push(last)) == phrase(words) + seq![' '] + last,
    decreases words.len(),
{
    let all = words.push(last);
    if words.len() == 1 {
        assert(all.drop_first() =~= seq![last]);
        assert(phrase(seq![last]) == last);
    } else {
        let rest = words.drop_first();
        lemma_phrase_last(rest, last);
        assert(all.drop_first() =~= rest.push(last));
        assert(phrase(all) =~= phrase(words) + seq![' '] + last);
    }
}

proof fn lemma_spaced(words: Seq<Seq<char>>)
    ensures
        spaced(words) == phrase(words),
        enclosed(words) == bracketed(words),
    decreases words.len(),
{
    reveal_strlit(" ");
    reveal_strlit("(");
    reveal_strlit(")");
    assert(" "@ =~= seq![' ']);
    assert("("@ =~= seq!['(']);
    assert(")"@ =~= seq![')']);
    if words.len() > 1 {
        lemma_spaced(words.drop_last());
        lemma_phrase_last(words.drop_last(), words.last());
        assert(words.drop_last().push(words.last()) =~= words);
    }
}

proof fn lemma_written(term: Term, words: Seq<Seq<char>>)
    requires
        !(term.shape is Local),
        !(term.shape is Free),
        crate::normalize::display::words_of(term.shape, each_text(term.parts)) == words,
    ensures
        term_text(term) == bracketed(words),
{
    lemma_spaced(words);
}

/// Names are written as numbers behind a letter: `v` where they are bound, and `f`
/// where they are left open.
pub proof fn law_names_are_written_as_numbers(index: u32)
    ensures
        term_text(named(index)) == seq!['v'] + decimal(index as nat),
        term_text(made(Shape::Free(index), Seq::empty())) == seq!['f'] + decimal(index as nat),
        pattern_text(PatternTerm { kind: PatternKind::Binding(index), parts: Seq::empty() })
            == seq!['v'] + decimal(index as nat),
        pattern_text(PatternTerm { kind: PatternKind::Ignored, parts: Seq::empty() }) == seq!['_'],
{
    reveal_strlit("v");
    reveal_strlit("f");
    reveal_strlit("_");
    assert("v"@ =~= seq!['v']);
    assert("f"@ =~= seq!['f']);
    assert("_"@ =~= seq!['_']);
}

/// A pattern is written with what it takes apart first, and then its parts.
pub proof fn law_patterns_are_written_with_their_parts(
    name: Seq<char>,
    first: PatternTerm,
    second: PatternTerm,
)
    ensures
        pattern_text(
            PatternTerm { kind: PatternKind::Variant(name), parts: seq![first, second] },
        ) == bracketed(seq![name, pattern_text(first), pattern_text(second)]),
        pattern_text(PatternTerm { kind: PatternKind::Tuple, parts: seq![first, second] })
            == bracketed(seq!["tuple"@, pattern_text(first), pattern_text(second)]),
{
    let both = seq![first, second];
    assert(pattern_texts(both) =~= seq![pattern_text(first), pattern_text(second)]);
    assert(seq![name] + pattern_texts(both) =~= seq![
        name,
        pattern_text(first),
        pattern_text(second),
    ]);
    assert(seq!["tuple"@] + pattern_texts(both) =~= seq![
        "tuple"@,
        pattern_text(first),
        pattern_text(second),
    ]);
    lemma_spaced(seq![name, pattern_text(first), pattern_text(second)]);
    lemma_spaced(seq!["tuple"@, pattern_text(first), pattern_text(second)]);
}

/// A walk is written with its sequence, what each element is called, and what is done
/// with it. The word it begins with says which walk it is, and which way it goes.
pub proof fn law_walks_are_written_with_what_they_call_each_element(
    item: PatternTerm,
    source: Term,
    body: Term,
)
    ensures
        ({
            let rest = seq![term_text(source), pattern_text(item), term_text(body)];
            let parts = seq![source, body];
            &&& term_text(made(Shape::Traverse(item, Direction::Forward), parts)) == bracketed(
                seq!["traverse"@] + rest,
            )
            &&& term_text(made(Shape::Traverse(item, Direction::Backward), parts)) == bracketed(
                seq!["traverse-back"@] + rest,
            )
            &&& term_text(made(Shape::Transform(item), parts)) == bracketed(
                seq!["transform"@] + rest,
            )
            &&& term_text(made(Shape::Sift(item), parts)) == bracketed(seq!["sift"@] + rest)
            &&& term_text(made(Shape::Retain(item), parts)) == bracketed(seq!["retain"@] + rest)
        }),
{
    let rest = seq![term_text(source), pattern_text(item), term_text(body)];
    let parts = seq![source, body];
    let texts = each_text(parts);
    assert(texts =~= seq![term_text(source), term_text(body)]);
    assert(texts.take(1) =~= seq![term_text(source)]);
    assert(texts.skip(1) =~= seq![term_text(body)]);
    let none = Seq::<Seq<char>>::empty();
    assert(seq!["traverse"@] + texts.take(1) + seq![pattern_text(item)] + texts.skip(1) + none
        =~= seq!["traverse"@] + rest);
    assert(seq!["traverse-back"@] + texts.take(1) + seq![pattern_text(item)] + texts.skip(1) + none
        =~= seq!["traverse-back"@] + rest);
    assert(seq!["transform"@] + texts.take(1) + seq![pattern_text(item)] + texts.skip(1) + none
        =~= seq!["transform"@] + rest);
    assert(seq!["sift"@] + texts.take(1) + seq![pattern_text(item)] + texts.skip(1) + none
        =~= seq!["sift"@] + rest);
    assert(seq!["retain"@] + texts.take(1) + seq![pattern_text(item)] + texts.skip(1) + none
        =~= seq!["retain"@] + rest);
    lemma_written(
        made(Shape::Traverse(item, Direction::Forward), parts),
        seq!["traverse"@] + rest,
    );
    lemma_written(
        made(Shape::Traverse(item, Direction::Backward), parts),
        seq!["traverse-back"@] + rest,
    );
    lemma_written(made(Shape::Transform(item), parts), seq!["transform"@] + rest);
    lemma_written(made(Shape::Sift(item), parts), seq!["sift"@] + rest);
    lemma_written(made(Shape::Retain(item), parts), seq!["retain"@] + rest);
}

/// A walk over pairs is written with its sequence, both elements, and the body, and
/// its first word says which pairs it reaches.
pub proof fn law_pairs_are_written_with_both_elements(
    left: PatternTerm,
    right: PatternTerm,
    source: Term,
    body: Term,
)
    ensures
        ({
            let rest = seq![
                term_text(source),
                pattern_text(left),
                pattern_text(right),
                term_text(body),
            ];
            let parts = seq![source, body];
            &&& term_text(made(Shape::Pairwise(left, right, Coverage::Once), parts)) == bracketed(
                seq!["pairwise"@] + rest,
            )
            &&& term_text(made(Shape::Pairwise(left, right, Coverage::BothWays), parts))
                == bracketed(seq!["pairwise-both-ways"@] + rest)
            &&& term_text(made(Shape::Pairwise(left, right, Coverage::Adjacent), parts))
                == bracketed(seq!["pairwise-adjacent"@] + rest)
        }),
{
    let rest = seq![
        term_text(source),
        pattern_text(left),
        pattern_text(right),
        term_text(body),
    ];
    let parts = seq![source, body];
    let texts = each_text(parts);
    let both = seq![pattern_text(left), pattern_text(right)];
    assert(texts =~= seq![term_text(source), term_text(body)]);
    assert(texts.take(1) =~= seq![term_text(source)]);
    assert(texts.skip(1) =~= seq![term_text(body)]);
    let none = Seq::<Seq<char>>::empty();
    assert(seq!["pairwise"@] + texts.take(1) + both + texts.skip(1) + none =~= seq!["pairwise"@]
        + rest);
    assert(seq!["pairwise-both-ways"@] + texts.take(1) + both + texts.skip(1) + none
        =~= seq!["pairwise-both-ways"@] + rest);
    assert(seq!["pairwise-adjacent"@] + texts.take(1) + both + texts.skip(1) + none
        =~= seq!["pairwise-adjacent"@] + rest);
    lemma_written(
        made(Shape::Pairwise(left, right, Coverage::Once), parts),
        seq!["pairwise"@] + rest,
    );
    lemma_written(
        made(Shape::Pairwise(left, right, Coverage::BothWays), parts),
        seq!["pairwise-both-ways"@] + rest,
    );
    lemma_written(
        made(Shape::Pairwise(left, right, Coverage::Adjacent), parts),
        seq!["pairwise-adjacent"@] + rest,
    );
}

/// The word a form begins with, where it has no patterns and ends in none.
pub open spec fn first_words(shape: Shape) -> Option<Seq<Seq<char>>> {
    match shape {
        Shape::Literal => Some(seq!["lit"@]),
        Shape::Number(value) => Some(seq!["num"@, value]),
        Shape::Constant(value) => Some(seq!["const"@, value]),
        Shape::Construct(name) => Some(seq!["construct"@, name]),
        Shape::Variant(name) => Some(seq!["variant"@, name]),
        Shape::Path(path) => Some(seq!["path"@, path]),
        Shape::Method(name) => Some(seq!["method"@, name]),
        Shape::Call => Some(seq!["call"@]),
        Shape::Repeat => Some(seq!["repeat"@]),
        Shape::Swap => Some(seq!["swap"@]),
        Shape::Assign(operator) => Some(seq!["assign"@, operator]),
        Shape::Binary(operator) => Some(seq!["binary"@, operator]),
        Shape::Unary(operator) => Some(seq!["unary"@, operator]),
        Shape::Index => Some(seq!["index"@]),
        Shape::Span(true) => Some(seq!["span="@]),
        Shape::Span(false) => Some(seq!["span"@]),
        Shape::Branch => Some(seq!["branch"@]),
        Shape::Return => Some(seq!["return"@]),
        Shape::Sequence => Some(seq!["do"@]),
        Shape::Opaque(kind) => Some(seq![kind]),
        _ => None,
    }
}

/// A form without patterns is written with its word and what it names first, and then
/// its parts in order.
pub proof fn law_forms_are_written_with_their_parts_in_order(shape: Shape, parts: Seq<Term>)
    requires
        first_words(shape) is Some,
    ensures
        ({
            let texts = Seq::new(parts.len(), |i: int| term_text(parts[i]));
            term_text(made(shape, parts)) == bracketed(first_words(shape)->0 + texts)
        }),
{
    let texts = Seq::new(parts.len(), |i: int| term_text(parts[i]));
    let words = first_words(shape)->0 + texts;
    assert(each_text(parts) =~= texts);
    let none = Seq::<Seq<char>>::empty();
    assert(texts.take(0) =~= none);
    assert(texts.skip(0) =~= texts);
    assert(first_words(shape)->0 + texts.take(0) + none + texts.skip(0) + none =~= words);
    lemma_written(made(shape, parts), words);
}

/// A field is written behind what it is of, what is collected into behind what is
/// collected, a binding before its value, and a lambda's parameters before its body.
pub proof fn law_names_are_written_where_they_stand(
    name: Seq<char>,
    item: PatternTerm,
    other: PatternTerm,
    inner: Term,
)
    ensures
        term_text(made(Shape::Field(name), seq![inner])) == bracketed(
            seq!["field"@, term_text(inner), name],
        ),
        term_text(made(Shape::Collect(Some(name)), seq![inner])) == bracketed(
            seq!["collect"@, term_text(inner), name],
        ),
        term_text(made(Shape::Collect(None), seq![inner])) == bracketed(
            seq!["collect"@, term_text(inner)],
        ),
        term_text(made(Shape::Let(item), seq![inner])) == bracketed(
            seq!["let"@, pattern_text(item), term_text(inner)],
        ),
        term_text(made(Shape::Lambda(seq![item, other]), seq![inner])) == bracketed(
            seq![
                "lambda"@,
                bracketed(seq![pattern_text(item), pattern_text(other)]),
                term_text(inner),
            ],
        ),
{
    let parts = seq![inner];
    let texts = each_text(parts);
    assert(texts =~= seq![term_text(inner)]);
    let none = Seq::<Seq<char>>::empty();
    assert(texts.take(0) =~= none);
    assert(texts.skip(0) =~= texts);
    let field = seq!["field"@, term_text(inner), name];
    assert(seq!["field"@] + texts.take(0) + none + texts.skip(0) + seq![name] =~= field);
    lemma_written(made(Shape::Field(name), parts), field);
    let into = seq!["collect"@, term_text(inner), name];
    assert(seq!["collect"@] + texts.take(0) + none + texts.skip(0) + seq![name] =~= into);
    lemma_written(made(Shape::Collect(Some(name)), parts), into);
    let collected = seq!["collect"@, term_text(inner)];
    assert(seq!["collect"@] + texts.take(0) + none + texts.skip(0) + none =~= collected);
    lemma_written(made(Shape::Collect(None), parts), collected);
    let bound = seq!["let"@, pattern_text(item), term_text(inner)];
    assert(seq!["let"@] + texts.take(0) + seq![pattern_text(item)] + texts.skip(0) + none
        =~= bound);
    lemma_written(made(Shape::Let(item), parts), bound);
    let both = seq![item, other];
    assert(pattern_texts(both) =~= seq![pattern_text(item), pattern_text(other)]);
    lemma_spaced(pattern_texts(both));
    let lambda = seq![
        "lambda"@,
        bracketed(seq![pattern_text(item), pattern_text(other)]),
        term_text(inner),
    ];
    assert(seq!["lambda"@] + texts.take(0) + seq![enclosed(pattern_texts(both))] + texts.skip(0)
        + none =~= lambda);
    lemma_written(made(Shape::Lambda(both), parts), lambda);
}

/// A decision is written with what it decides on, and then each arm: what it names, an
/// arrow, and what it evaluates to.
pub proof fn law_decisions_are_written_arm_by_arm(
    first: PatternTerm,
    second: PatternTerm,
    scrutinee: Term,
    one: Term,
    two: Term,
)
    ensures
        term_text(made(Shape::Select(seq![first, second]), seq![scrutinee, one, two]))
            == bracketed(
            seq![
                "select"@,
                term_text(scrutinee),
                pattern_text(first),
                "=>"@,
                term_text(one),
                pattern_text(second),
                "=>"@,
                term_text(two),
            ],
        ),
{
    let patterns = seq![first, second];
    let parts = seq![scrutinee, one, two];
    let texts = each_text(parts);
    assert(texts =~= seq![term_text(scrutinee), term_text(one), term_text(two)]);
    let bodies = texts.drop_first();
    assert(bodies =~= seq![term_text(one), term_text(two)]);
    assert(bodies.drop_last() =~= seq![term_text(one)]);
    assert(patterns.drop_last() =~= seq![first]);
    reveal_with_fuel(arm_words, 3);
    assert(seq![first].drop_last() =~= Seq::<PatternTerm>::empty());
    assert(seq![term_text(one)].drop_last() =~= Seq::<Seq<char>>::empty());
    let arms = arm_words(patterns, bodies);
    assert(arms =~= seq![
        pattern_text(first),
        "=>"@,
        term_text(one),
        pattern_text(second),
        "=>"@,
        term_text(two),
    ]);
    let words = seq![
        "select"@,
        term_text(scrutinee),
        pattern_text(first),
        "=>"@,
        term_text(one),
        pattern_text(second),
        "=>"@,
        term_text(two),
    ];
    assert(seq!["select"@] + seq![texts[0]] + arms =~= words);
    lemma_written(made(Shape::Select(patterns), parts), words);
}

} // verus!
