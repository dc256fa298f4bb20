//! How a form is written down.

use crate::normalize::form::{
    arm_bodies, arm_patterns, lemma_part_smaller, pattern_terms, Arm, Coverage, Direction, Form,
    Pattern, PatternKind, PatternTerm, Shape, Term,
};
use crate::text::{append_decimal, decimal};
use vstd::prelude::*;
use vstd::string::*;

verus! {

/// Words with a space between each two.
pub open spec fn spaced(words: Seq<Seq<char>>) -> Seq<char>
    decreases words.len(),
{
    if words.len() == 0 {
        Seq::empty()
    } else if words.len() == 1 {
        words[0]
    } else {
        spaced(words.drop_last()) + " "@ + words.last()
    }
}

/// Words in parentheses, with a space between each two.
pub open spec fn enclosed(words: Seq<Seq<char>>) -> Seq<char> {
    "("@ + spaced(words) + ")"@
}

/// How a pattern is written.
pub open spec fn pattern_text(pattern: PatternTerm) -> Seq<char>
    decreases pattern,
{
    match pattern.kind {
        PatternKind::Binding(index) => "v"@ + decimal(index as nat),
        PatternKind::Ignored => "_"@,
        PatternKind::Tuple => enclosed(seq!["tuple"@] + pattern_texts(pattern.parts)),
        PatternKind::Variant(name) => enclosed(seq![name] + pattern_texts(pattern.parts)),
    }
}

/// How several patterns are written, one by one.
pub open spec fn pattern_texts(patterns: Seq<PatternTerm>) -> Seq<Seq<char>>
    decreases patterns,
{
    Seq::new(
        patterns.len(),
        |i: int|
            if 0 <= i < patterns.len() {
                pattern_text(patterns[i])
            } else {
                Seq::empty()
            },
    )
}

/// The words a form starts with, before its child forms.
pub open spec fn leading_words(shape: Shape) -> Seq<Seq<char>> {
    match shape {
        Shape::Local(_) | Shape::Free(_) => Seq::empty(),
        Shape::Literal => seq!["lit"@],
        Shape::Number(value) => seq!["num"@, value],
        Shape::Constant(value) => seq!["const"@, value],
        Shape::Construct(name) => seq!["construct"@, name],
        Shape::Variant(name) => seq!["variant"@, name],
        Shape::Path(path) => seq!["path"@, path],
        Shape::Field(_) => seq!["field"@],
        Shape::Method(name) => seq!["method"@, name],
        Shape::Call => seq!["call"@],
        Shape::Traverse(_, Direction::Forward) => seq!["traverse"@],
        Shape::Traverse(_, Direction::Backward) => seq!["traverse-back"@],
        Shape::Pairwise(_, _, Coverage::Once) => seq!["pairwise"@],
        Shape::Pairwise(_, _, Coverage::BothWays) => seq!["pairwise-both-ways"@],
        Shape::Pairwise(_, _, Coverage::Adjacent) => seq!["pairwise-adjacent"@],
        Shape::Repeat => seq!["repeat"@],
        Shape::Swap => seq!["swap"@],
        Shape::Transform(_) => seq!["transform"@],
        Shape::Sift(_) => seq!["sift"@],
        Shape::Retain(_) => seq!["retain"@],
        Shape::Accumulate(_, _) => seq!["accumulate"@],
        Shape::Collect(_) => seq!["collect"@],
        Shape::Assign(operator) => seq!["assign"@, operator],
        Shape::Binary(operator) => seq!["binary"@, operator],
        Shape::Unary(operator) => seq!["unary"@, operator],
        Shape::Index => seq!["index"@],
        Shape::Span(inclusive) => if inclusive {
            seq!["span="@]
        } else {
            seq!["span"@]
        },
        Shape::Lambda(_) => seq!["lambda"@],
        Shape::Let(_) => seq!["let"@],
        Shape::Branch => seq!["branch"@],
        Shape::Select(_) => seq!["select"@],
        Shape::Return => seq!["return"@],
        Shape::Sequence => seq!["do"@],
        Shape::Opaque(kind) => seq![kind],
    }
}

/// The words of a form's own patterns.
pub open spec fn pattern_words(shape: Shape) -> Seq<Seq<char>> {
    match shape {
        Shape::Traverse(item, _)
        | Shape::Transform(item)
        | Shape::Sift(item)
        | Shape::Retain(item)
        | Shape::Let(item) => seq![pattern_text(item)],
        Shape::Pairwise(left, right, _) => seq![pattern_text(left), pattern_text(right)],
        Shape::Accumulate(accumulator, item) => seq![
            pattern_text(accumulator),
            pattern_text(item),
        ],
        Shape::Lambda(parameters) => seq![enclosed(pattern_texts(parameters))],
        _ => Seq::empty(),
    }
}

/// The words a form ends with, after its child forms.
pub open spec fn trailing_words(shape: Shape) -> Seq<Seq<char>> {
    match shape {
        Shape::Field(name) => seq![name],
        Shape::Collect(Some(container)) => seq![container],
        _ => Seq::empty(),
    }
}

/// How many child forms are written before a form's own patterns.
pub open spec fn patterns_place(shape: Shape, count: nat) -> nat {
    let place: nat = match shape {
        Shape::Traverse(_, _)
        | Shape::Transform(_)
        | Shape::Sift(_)
        | Shape::Retain(_)
        | Shape::Pairwise(_, _, _) => 1,
        Shape::Accumulate(_, _) => 2,
        _ => 0,
    };
    if place <= count {
        place
    } else {
        count
    }
}

/// The words of a decision's arms: what each names, and what it evaluates to.
pub open spec fn arm_words(patterns: Seq<PatternTerm>, bodies: Seq<Seq<char>>) -> Seq<Seq<char>>
    decreases bodies.len(),
{
    if bodies.len() == 0 || patterns.len() == 0 {
        Seq::empty()
    } else {
        arm_words(patterns.drop_last(), bodies.drop_last()) + seq![
            pattern_text(patterns.last()),
            "=>"@,
            bodies.last(),
        ]
    }
}

/// The words of a term, given how its child forms are written.
pub open spec fn words_of(shape: Shape, texts: Seq<Seq<char>>) -> Seq<Seq<char>> {
    match shape {
        Shape::Select(patterns) => if texts.len() == 0 {
            leading_words(shape)
        } else {
            leading_words(shape) + seq![texts[0]] + arm_words(patterns, texts.drop_first())
        },
        _ => {
            let place = patterns_place(shape, texts.len()) as int;
            leading_words(shape) + texts.take(place) + pattern_words(shape) + texts.skip(place)
                + trailing_words(shape)
        },
    }
}

/// How a term is written.
pub open spec fn term_text(term: Term) -> Seq<char>
    decreases term,
{
    match term.shape {
        Shape::Local(index) => "v"@ + decimal(index as nat),
        Shape::Free(index) => "f"@ + decimal(index as nat),
        _ => enclosed(words_of(term.shape, each_text(term.parts))),
    }
}

/// How several terms are written, one by one.
pub open spec fn each_text(terms: Seq<Term>) -> Seq<Seq<char>>
    decreases terms,
{
    Seq::new(
        terms.len(),
        |i: int|
            if 0 <= i < terms.len() {
                term_text(terms[i])
            } else {
                Seq::empty()
            },
    )
}

/// The contents of several strings.
pub open spec fn texts(strings: Seq<String>) -> Seq<Seq<char>> {
    Seq::new(strings.len(), |i: int| strings[i]@)
}

/// Words in parentheses, with a space between each two.
fn enclose(words: &Vec<String>) -> (text: String)
    ensures
        text@ == enclosed(texts(words@)),
{
    let ghost all = texts(words@);
    let mut text = String::new();
    text.append("(");
    assert(text@ =~= "("@ + spaced(all.take(0)));
    for i in 0..words.len()
        invariant
            all == texts(words@),
            text@ == "("@ + spaced(all.take(i as int)),
    {
        proof {
            assert(all.take(i + 1).drop_last() =~= all.take(i as int));
            assert(all.take(i + 1).last() == words@[i as int]@);
        }
        if i > 0 {
            text.append(" ");
        }
        text.append(words[i].as_str());
        assert(text@ =~= "("@ + spaced(all.take(i + 1)));
    }
    assert(all.take(words@.len() as int) =~= all);
    text.append(")");
    text
}

/// Adds a word to a list.
fn add_word(words: &mut Vec<String>, word: &str)
    ensures
        texts(final(words)@) == texts(old(words)@).push(word@),
{
    let ghost before = words@;
    words.push(word.to_owned());
    assert(texts(words@) =~= texts(before).push(word@));
}

/// Adds a run of words to a list.
fn add_words(words: &mut Vec<String>, more: &Vec<String>, start: usize, end: usize)
    requires
        start <= end <= more@.len(),
    ensures
        texts(final(words)@) == texts(old(words)@) + texts(more@).subrange(
            start as int,
            end as int,
        ),
{
    let ghost before = texts(words@);
    let ghost all = texts(more@);
    assert(before + all.subrange(start as int, start as int) =~= before);
    for i in start..end
        invariant
            start <= end <= more@.len(),
            all == texts(more@),
            texts(words@) == before + all.subrange(start as int, i as int),
    {
        add_word(words, more[i].as_str());
        assert(texts(words@) =~= before + all.subrange(start as int, i + 1));
    }
}

/// A number behind a letter.
fn numbered(letter: &str, index: u32) -> (text: String)
    ensures
        text@ == letter@ + decimal(index as nat),
{
    let mut text = letter.to_owned();
    append_decimal(&mut text, index as u128);
    text
}

impl Pattern {
    /// How this pattern is written.
    pub fn display(&self) -> (text: String)
        ensures
            text@ == pattern_text(self@),
        decreases self@,
    {
        proof {
            assert(decreases_to!(self@ => self@.parts));
        }
        match self {
            Pattern::Binding(index) => numbered("v", *index),
            Pattern::Ignored => "_".to_owned(),
            Pattern::Tuple(parts) => {
                let mut words: Vec<String> = Vec::new();
                add_word(&mut words, "tuple");
                assert(texts(words@) =~= seq!["tuple"@]);
                Self::add_displays(parts, &mut words);
                enclose(&words)
            },
            Pattern::Variant { name, parts } => {
                let mut words: Vec<String> = Vec::new();
                add_word(&mut words, name.as_str());
                assert(texts(words@) =~= seq![name@]);
                Self::add_displays(parts, &mut words);
                enclose(&words)
            },
        }
    }

    /// Adds how several patterns are written to a list of words.
    fn add_displays(parts: &Vec<Pattern>, words: &mut Vec<String>)
        ensures
            texts(final(words)@) == texts(old(words)@) + pattern_texts(pattern_terms(parts@)),
        decreases pattern_terms(parts@),
    {
        let ghost before = texts(words@);
        let ghost terms = pattern_terms(parts@);
        let ghost all = pattern_texts(terms);
        assert(before + all.take(0) =~= before);
        for i in 0..parts.len()
            invariant
                terms == pattern_terms(parts@),
                all == pattern_texts(terms),
                texts(words@) == before + all.take(i as int),
        {
            proof {
                assert(decreases_to!(terms => terms[i as int]));
                assert(terms[i as int] == parts@[i as int]@);
            }
            let word = parts[i].display();
            add_word(words, word.as_str());
            assert(texts(words@) =~= before + all.take(i + 1));
        }
        assert(all.take(parts@.len() as int) =~= all);
    }
}

impl Form {
    /// Adds the words this form starts with to a list.
    fn add_leading_words(&self, words: &mut Vec<String>)
        requires
            old(words)@.len() == 0,
        ensures
            texts(final(words)@) == leading_words(self@.shape),
    {
        let (word, name): (&str, Option<&String>) = match self {
            Form::Local(_) | Form::Free(_) => {
                assert(texts(words@) =~= Seq::empty());
                return ;
            },
            Form::Opaque { kind, .. } => {
                add_word(words, kind.as_str());
                assert(texts(words@) =~= seq![kind@]);
                return ;
            },
            Form::Literal => ("lit", None),
            Form::Number(value) => ("num", Some(value)),
            Form::Constant(value) => ("const", Some(value)),
            Form::Construct(name) => ("construct", Some(name)),
            Form::Variant { name, .. } => ("variant", Some(name)),
            Form::Path(path) => ("path", Some(path)),
            Form::Field { .. } => ("field", None),
            Form::Method { name, .. } => ("method", Some(name)),
            Form::Call { .. } => ("call", None),
            Form::Traverse { direction, .. } => (
                match direction {
                    Direction::Forward => "traverse",
                    Direction::Backward => "traverse-back",
                },
                None,
            ),
            Form::Pairwise { coverage, .. } => (
                match coverage {
                    Coverage::Once => "pairwise",
                    Coverage::BothWays => "pairwise-both-ways",
                    Coverage::Adjacent => "pairwise-adjacent",
                },
                None,
            ),
            Form::Repeat { .. } => ("repeat", None),
            Form::Swap { .. } => ("swap", None),
            Form::Transform { .. } => ("transform", None),
            Form::Sift { .. } => ("sift", None),
            Form::Retain { .. } => ("retain", None),
            Form::Accumulate { .. } => ("accumulate", None),
            Form::Collect { .. } => ("collect", None),
            Form::Assign { operator, .. } => ("assign", Some(operator)),
            Form::Binary { operator, .. } => ("binary", Some(operator)),
            Form::Unary { operator, .. } => ("unary", Some(operator)),
            Form::Index { .. } => ("index", None),
            Form::Span { inclusive, .. } => (
                if *inclusive {
                    "span="
                } else {
                    "span"
                },
                None,
            ),
            Form::Lambda { .. } => ("lambda", None),
            Form::Let { .. } => ("let", None),
            Form::Branch { .. } => ("branch", None),
            Form::Select { .. } => ("select", None),
            Form::Return(_) => ("return", None),
            Form::Sequence(_) => ("do", None),
        };
        add_word(words, word);
        match name {
            Some(name) => {
                add_word(words, name.as_str());
                assert(texts(words@) =~= seq![word@, name@]);
            },
            None => {
                assert(texts(words@) =~= seq![word@]);
            },
        }
    }

    /// Adds the words of this form's own patterns to a list.
    fn add_pattern_words(&self, words: &mut Vec<String>)
        ensures
            texts(final(words)@) == texts(old(words)@) + pattern_words(self@.shape),
    {
        let ghost before = texts(words@);
        match self {
            Form::Traverse { item, .. }
            | Form::Transform { item, .. }
            | Form::Sift { item, .. }
            | Form::Retain { item, .. }
            | Form::Let { pattern: item, .. } => {
                let word = item.display();
                add_word(words, word.as_str());
                assert(texts(words@) =~= before + seq![pattern_text(item@)]);
            },
            Form::Pairwise { left, right, .. } => {
                let first = left.display();
                let second = right.display();
                add_word(words, first.as_str());
                add_word(words, second.as_str());
                assert(texts(words@) =~= before + seq![
                    pattern_text(left@),
                    pattern_text(right@),
                ]);
            },
            Form::Accumulate { accumulator, item, .. } => {
                let first = accumulator.display();
                let second = item.display();
                add_word(words, first.as_str());
                add_word(words, second.as_str());
                assert(texts(words@) =~= before + seq![
                    pattern_text(accumulator@),
                    pattern_text(item@),
                ]);
            },
            Form::Lambda { parameters, .. } => {
                let mut inner: Vec<String> = Vec::new();
                Pattern::add_displays(parameters, &mut inner);
                assert(texts(inner@) =~= pattern_texts(pattern_terms(parameters@)));
                let word = enclose(&inner);
                add_word(words, word.as_str());
                assert(texts(words@) =~= before + pattern_words(self@.shape));
            },
            _ => {
                assert(texts(words@) =~= before + Seq::empty());
            },
        }
    }

    /// Adds the words this form ends with to a list.
    fn add_trailing_words(&self, words: &mut Vec<String>)
        ensures
            texts(final(words)@) == texts(old(words)@) + trailing_words(self@.shape),
    {
        let ghost before = texts(words@);
        match self {
            Form::Field { name, .. } => {
                add_word(words, name.as_str());
                assert(texts(words@) =~= before + seq![name@]);
            },
            Form::Collect { container: Some(container), .. } => {
                add_word(words, container.as_str());
                assert(texts(words@) =~= before + seq![container@]);
            },
            _ => {
                assert(texts(words@) =~= before + Seq::empty());
            },
        }
    }

    /// How many child forms are written before this form's own patterns.
    fn patterns_place(&self, count: usize) -> (place: usize)
        ensures
            place == patterns_place(self@.shape, count as nat),
    {
        let place: usize = match self {
            Form::Traverse { .. }
            | Form::Transform { .. }
            | Form::Sift { .. }
            | Form::Retain { .. }
            | Form::Pairwise { .. } => 1,
            Form::Accumulate { .. } => 2,
            _ => 0,
        };
        if place <= count {
            place
        } else {
            count
        }
    }

    /// How this form is written.
    pub fn display(&self) -> (text: String)
        ensures
            text@ == term_text(self@),
        decreases self@,
    {
        match self {
            Form::Local(index) => {
                return numbered("v", *index);
            },
            Form::Free(index) => {
                return numbered("f", *index);
            },
            _ => {},
        }
        let ghost all = each_text(self@.parts);
        let children = self.children();
        let mut parts: Vec<String> = Vec::new();
        assert(texts(parts@) =~= all.take(0));
        for i in 0..children.len()
            invariant
                all == each_text(self@.parts),
                children@.len() == self@.parts.len(),
                forall|i: int|
                    0 <= i < children@.len() ==> (#[trigger] children@[i])@ == self@.parts[i],
                texts(parts@) == all.take(i as int),
        {
            proof {
                lemma_part_smaller(self@, i as int);
            }
            let part = children[i].display();
            add_word(&mut parts, part.as_str());
            assert(texts(parts@) =~= all.take(i + 1));
        }
        assert(all.take(children@.len() as int) =~= all);
        assert(texts(parts@).len() == parts@.len());
        let words = self.words(&parts);
        enclose(&words)
    }

    /// The words of this form, given how its child forms are written.
    fn words(&self, parts: &Vec<String>) -> (words: Vec<String>)
        requires
            parts@.len() == self@.parts.len(),
        ensures
            texts(words@) == words_of(self@.shape, texts(parts@)),
    {
        let ghost all = texts(parts@);
        let mut words: Vec<String> = Vec::new();
        self.add_leading_words(&mut words);
        if let Form::Select { arms, .. } = self {
            assert(arm_bodies(arms@).len() == arms@.len());
            let ghost head = texts(words@);
            add_word(&mut words, parts[0].as_str());
            assert(texts(words@) =~= head + seq![all[0]]);
            add_arm_words(&mut words, arms, parts);
            return words;
        }
        let place: usize = self.patterns_place(parts.len());
        add_words(&mut words, parts, 0, place);
        self.add_pattern_words(&mut words);
        add_words(&mut words, parts, place, parts.len());
        self.add_trailing_words(&mut words);
        assert(all.take(place as int) =~= all.subrange(0, place as int));
        assert(all.skip(place as int) =~= all.subrange(place as int, all.len() as int));
        words
    }
}

/// Adds the words of a decision's arms to a list.
fn add_arm_words(words: &mut Vec<String>, arms: &Vec<Arm>, parts: &Vec<String>)
    requires
        parts@.len() == arms@.len() + 1,
    ensures
        texts(final(words)@) == texts(old(words)@) + arm_words(
            arm_patterns(arms@),
            texts(parts@).drop_first(),
        ),
{
    let ghost before = texts(words@);
    let ghost patterns = arm_patterns(arms@);
    let ghost bodies = texts(parts@).drop_first();
    assert(before + arm_words(patterns.take(0), bodies.take(0)) =~= before);
    for i in 0..arms.len()
        invariant
            parts@.len() == arms@.len() + 1,
            patterns == arm_patterns(arms@),
            bodies == texts(parts@).drop_first(),
            texts(words@) == before + arm_words(patterns.take(i as int), bodies.take(i as int)),
    {
        let ghost so_far = texts(words@);
        proof {
            assert(patterns[i as int] == arms@[i as int].pattern@);
            assert(bodies[i as int] == parts@[i + 1]@);
            assert(patterns.take(i + 1).drop_last() =~= patterns.take(i as int));
            assert(bodies.take(i + 1).drop_last() =~= bodies.take(i as int));
        }
        let name = arms[i].pattern.display();
        add_word(words, name.as_str());
        add_word(words, "=>");
        add_word(words, parts[i + 1].as_str());
        assert(texts(words@) =~= so_far + seq![
            pattern_text(patterns[i as int]),
            "=>"@,
            bodies[i as int],
        ]);
        assert(texts(words@) =~= before + arm_words(patterns.take(i + 1), bodies.take(i + 1)));
    }
    assert(patterns.take(arms@.len() as int) =~= patterns);
    assert(bodies.take(arms@.len() as int) =~= bodies);
}

} // verus!
