//! Finding where a body performs a behavior.

use crate::lists::{joined, lemma_joined_step};
use crate::normalize::form::{borrowed_terms, form_terms, lemma_part_smaller, Form, Term};
use crate::normalize::matching::{matched, places, trail, Binding, Bindings};
use vstd::prelude::*;

verus! {

/// Bindings before anything is matched.
pub open spec fn unbound() -> Binding {
    Binding { holes: Seq::empty(), locals: Seq::empty(), fused: false }
}

/// Whether a term performs a behavior: a block performs the steps of another
/// in order, and anything else is an instance of it.
pub open spec fn performs(term: Term, pattern: Term) -> bool {
    if term.shape is Sequence && pattern.shape is Sequence {
        trail(unbound(), term.parts, pattern.parts, 0, 0, 0) is Some
    } else {
        matched(unbound(), term, pattern).0
    }
}

/// The subterms that perform a behavior, outermost first.
pub open spec fn performances(term: Term, pattern: Term) -> Seq<Term>
    decreases term,
{
    (if performs(term, pattern) {
        seq![term]
    } else {
        Seq::empty()
    }) + joined(each_performances(term.parts, pattern))
}

/// The subterms of several terms that perform a behavior, term by term.
pub open spec fn each_performances(terms: Seq<Term>, pattern: Term) -> Seq<Seq<Term>>
    decreases terms,
{
    Seq::new(
        terms.len(),
        |i: int|
            if 0 <= i < terms.len() {
                performances(terms[i], pattern)
            } else {
                Seq::empty()
            },
    )
}

/// The steps of a term: those of a block, or the term itself.
pub open spec fn steps_of(term: Term) -> Seq<Term> {
    if term.shape is Sequence {
        term.parts
    } else {
        seq![term]
    }
}

/// The first run of steps, from a place on, that holds the steps of a behavior.
pub open spec fn first_run(haystack: Seq<Term>, steps: Seq<Term>, from: int) -> Option<(int, int)> {
    match trail(unbound(), haystack, steps, 0, from, from) {
        Some((_, found)) => if found.len() > 0 {
            Some((found[0], found.last() + 1))
        } else {
            None
        },
        None => None,
    }
}

/// Every run of steps that holds the steps of a behavior, each looked for after
/// the one before it.
pub open spec fn all_runs(haystack: Seq<Term>, steps: Seq<Term>, from: int) -> Seq<(int, int)>
    decreases haystack.len() - from,
{
    match first_run(haystack, steps, from) {
        Some((start, end)) => if from < end <= haystack.len() {
            seq![(start, end)] + all_runs(haystack, steps, end)
        } else {
            Seq::empty()
        },
        None => Seq::empty(),
    }
}

/// Ranges of places, as pairs of numbers.
pub open spec fn run_views(ranges: Seq<core::ops::Range<usize>>) -> Seq<(int, int)> {
    Seq::new(ranges.len(), |i: int| (ranges[i].start as int, ranges[i].end as int))
}

/// A range of places, as a pair of numbers.
pub open spec fn run_view(range: Option<core::ops::Range<usize>>) -> Option<(int, int)> {
    match range {
        Some(range) => Some((range.start as int, range.end as int)),
        None => None,
    }
}

/// The places a behavior is found at run upward, from where the search began.
pub proof fn lemma_trail_places(
    binding: Binding,
    haystack: Seq<Term>,
    steps: Seq<Term>,
    k: int,
    start: int,
    i: int,
)
    requires
        0 <= i,
    ensures
        trail(binding, haystack, steps, k, start, i) matches Some((_, found)) ==> {
            &&& forall|a: int| 0 <= a < found.len() ==> i <= #[trigger] found[a] < haystack.len()
            &&& forall|a: int, b: int|
                0 <= a < b < found.len() ==> #[trigger] found[a] < #[trigger] found[b]
        },
    decreases steps.len() - k, haystack.len() - i,
{
    if 0 <= k < steps.len() && i < haystack.len() {
        let (fits, next) = matched(binding, haystack[i], steps[k]);
        lemma_trail_places(next, haystack, steps, k + 1, i + 1, i + 1);
        lemma_trail_places(binding, haystack, steps, k, start, i + 1);
        if let Some((last, rest)) = trail(next, haystack, steps, k + 1, i + 1, i + 1) {
            let found = seq![i] + rest;
            assert forall|a: int| 0 <= a < found.len() implies i <= #[trigger] found[a]
                < haystack.len() by {
                if a > 0 {
                    assert(found[a] == rest[a - 1]);
                }
            }
            assert forall|a: int, b: int| 0 <= a < b < found.len() implies #[trigger] found[a]
                < #[trigger] found[b] by {
                assert(found[b] == rest[b - 1]);
                if a > 0 {
                    assert(found[a] == rest[a - 1]);
                }
            }
        }
    }
}

/// Located occurrences do not overlap: each lies wholly after the one before
/// it, within the body.
pub proof fn law_occurrences_do_not_overlap(haystack: Seq<Term>, steps: Seq<Term>, from: int)
    requires
        0 <= from,
    ensures
        forall|i: int|
            0 <= i < all_runs(haystack, steps, from).len() ==> from <= (#[trigger] all_runs(
                haystack,
                steps,
                from,
            )[i]).0 < all_runs(haystack, steps, from)[i].1 <= haystack.len(),
        forall|i: int, j: int|
            0 <= i < j < all_runs(haystack, steps, from).len() ==> (#[trigger] all_runs(
                haystack,
                steps,
                from,
            )[i]).1 <= (#[trigger] all_runs(haystack, steps, from)[j]).0,
    decreases haystack.len() - from,
{
    lemma_trail_places(unbound(), haystack, steps, 0, from, from);
    if let Some((start, end)) = first_run(haystack, steps, from) {
        let found = (trail(unbound(), haystack, steps, 0, from, from)->0).1;
        assert(from <= found[0] < haystack.len());
        assert(from <= found[found.len() - 1] < haystack.len());
        if found.len() > 1 {
            assert(found[0] < found[found.len() - 1]);
        }
        assert(from <= start < end <= haystack.len());
        law_occurrences_do_not_overlap(haystack, steps, end);
        let rest = all_runs(haystack, steps, end);
        let all = seq![(start, end)] + rest;
        assert forall|i: int| 0 <= i < all.len() implies from <= (#[trigger] all[i]).0
            < all[i].1 <= haystack.len() by {
            if i > 0 {
                assert(all[i] == rest[i - 1]);
            }
        }
        assert forall|i: int, j: int| 0 <= i < j < all.len() implies (#[trigger] all[i]).1 <= (
        #[trigger] all[j]).0 by {
            assert(all[j] == rest[j - 1]);
            if i > 0 {
                assert(all[i] == rest[i - 1]);
            }
        }
    }
}

impl Form {
    /// Whether this form itself performs a behavior.
    fn performs_itself(&self, pattern: &Form) -> (found: bool)
        ensures
            found == performs(self@, pattern@),
    {
        let mut bindings = Bindings::with_fusion(false);
        match (self, pattern) {
            (Form::Sequence(steps), Form::Sequence(wanted)) => bindings.follow(steps, wanted),
            _ => bindings.form(self, pattern),
        }
    }

    /// Whether this form performs a behavior anywhere.
    pub fn contains(&self, pattern: &Form) -> (found: bool)
        ensures
            found == (performances(self@, pattern@).len() > 0),
    {
        self.occurrences(pattern).len() > 0
    }

    /// The forms within this one that perform a behavior, outermost first.
    pub fn occurrences<'a>(&'a self, pattern: &Form) -> (found: Vec<&'a Form>)
        ensures
            borrowed_terms(found@) == performances(self@, pattern@),
            found@.len() == performances(self@, pattern@).len(),
    {
        let mut found: Vec<&Form> = Vec::new();
        self.collect_occurrences(pattern, &mut found);
        assert(borrowed_terms(found@) =~= performances(self@, pattern@));
        assert(borrowed_terms(found@).len() == found@.len());
        found
    }

    /// Adds the forms within this one that perform a behavior to a list.
    fn collect_occurrences<'a>(&'a self, pattern: &Form, found: &mut Vec<&'a Form>)
        ensures
            borrowed_terms(final(found)@) == borrowed_terms(old(found)@) + performances(
                self@,
                pattern@,
            ),
        decreases self@,
    {
        let ghost before = borrowed_terms(found@);
        let ghost own = if performs(self@, pattern@) {
            seq![self@]
        } else {
            Seq::empty()
        };
        let ghost each = each_performances(self@.parts, pattern@);
        if self.performs_itself(pattern) {
            let ghost list = found@;
            found.push(self);
            assert(borrowed_terms(found@) =~= borrowed_terms(list).push(self@));
        }
        assert(borrowed_terms(found@) =~= before + own + joined(each.take(0)));
        let children = self.children();
        for i in 0..children.len()
            invariant
                each == each_performances(self@.parts, pattern@),
                children@.len() == self@.parts.len(),
                forall|i: int|
                    0 <= i < children@.len() ==> (#[trigger] children@[i])@ == self@.parts[i],
                borrowed_terms(found@) == before + own + joined(each.take(i as int)),
        {
            proof {
                lemma_part_smaller(self@, i as int);
                lemma_joined_step(each, i as int);
            }
            children[i].collect_occurrences(pattern, found);
            assert(borrowed_terms(found@) =~= before + own + joined(each.take(i + 1)));
        }
        assert(each.take(children@.len() as int) =~= each);
        assert(borrowed_terms(found@) =~= before + performances(self@, pattern@));
    }

    /// The steps of this form: those of a block, or the form itself.
    fn steps(&self) -> (steps: Vec<Form>)
        ensures
            form_terms(steps@) == steps_of(self@),
    {
        let mut steps: Vec<Form> = Vec::new();
        match self {
            Form::Sequence(parts) => {
                let ghost terms = form_terms(parts@);
                assert(form_terms(steps@) =~= terms.take(0));
                for i in 0..parts.len()
                    invariant
                        terms == form_terms(parts@),
                        form_terms(steps@) == terms.take(i as int),
                {
                    let ghost list = steps@;
                    let step = parts[i].clone();
                    steps.push(step);
                    assert(terms[i as int] == parts@[i as int]@);
                    assert(form_terms(steps@) =~= form_terms(list).push(step@));
                    assert(terms.take(i + 1) =~= terms.take(i as int).push(terms[i as int]));
                }
                assert(terms.take(parts@.len() as int) =~= terms);
            },
            _ => {
                let step = self.clone();
                steps.push(step);
                assert(form_terms(steps@) =~= seq![self@]);
            },
        }
        steps
    }

    /// Where a body first performs a behavior, as a range of its steps.
    pub fn locate(&self, pattern: &Form) -> (range: Option<core::ops::Range<usize>>)
        ensures
            run_view(range) == first_run(steps_of(self@), steps_of(pattern@), 0),
    {
        let haystack = self.steps();
        let steps = pattern.steps();
        run_from(&haystack, &steps, 0)
    }

    /// Everywhere a body performs a behavior, as ranges of its steps that do
    /// not overlap.
    pub fn locate_all(&self, pattern: &Form) -> (ranges: Vec<core::ops::Range<usize>>)
        ensures
            run_views(ranges@) == all_runs(steps_of(self@), steps_of(pattern@), 0),
    {
        let haystack = self.steps();
        let steps = pattern.steps();
        let ghost hay = form_terms(haystack@);
        let ghost wanted = form_terms(steps@);
        let mut ranges: Vec<core::ops::Range<usize>> = Vec::new();
        let mut from: usize = 0;
        let mut searching = true;
        assert(run_views(ranges@) + all_runs(hay, wanted, 0) =~= all_runs(hay, wanted, 0));
        while searching
            invariant
                hay == form_terms(haystack@),
                wanted == form_terms(steps@),
                from <= haystack@.len(),
                searching ==> run_views(ranges@) + all_runs(hay, wanted, from as int) == all_runs(
                    hay,
                    wanted,
                    0,
                ),
                !searching ==> run_views(ranges@) == all_runs(hay, wanted, 0),
            decreases haystack@.len() - from, searching as int,
        {
            proof {
                law_occurrences_do_not_overlap(hay, wanted, from as int);
                lemma_trail_places(
                    unbound(),
                    hay,
                    wanted,
                    0,
                    from as int,
                    from as int,
                );
            }
            match run_from(&haystack, &steps, from) {
                Some(range) => {
                    let ghost list = ranges@;
                    let end: usize = range.end;
                    proof {
                        let runs = all_runs(hay, wanted, from as int);
                        let found = (trail(
                            unbound(),
                            hay,
                            wanted,
                            0,
                            from as int,
                            from as int,
                        )->0).1;
                        assert(found[found.len() - 1] >= from);
                        assert(runs == seq![(range.start as int, range.end as int)] + all_runs(
                            hay,
                            wanted,
                            end as int,
                        ));
                    }
                    ranges.push(range);
                    assert(run_views(ranges@) =~= run_views(list).push(
                        (range.start as int, range.end as int),
                    ));
                    assert(run_views(ranges@) + all_runs(hay, wanted, end as int) =~= run_views(
                        list,
                    ) + all_runs(hay, wanted, from as int));
                    from = end;
                },
                None => {
                    assert(run_views(ranges@) =~= run_views(ranges@) + Seq::empty());
                    searching = false;
                },
            }
        }
        ranges
    }
}

/// The first run of steps, from a place on, that holds the steps of a behavior.
fn run_from(haystack: &Vec<Form>, steps: &Vec<Form>, from: usize) -> (range: Option<
    core::ops::Range<usize>,
>)
    requires
        from <= haystack@.len(),
    ensures
        run_view(range) == first_run(form_terms(haystack@), form_terms(steps@), from as int),
        range matches Some(range) ==> range.end <= haystack@.len(),
{
    let ghost hay = form_terms(haystack@);
    let ghost wanted = form_terms(steps@);
    let mut bindings = Bindings::with_fusion(false);
    let mut found: Vec<usize> = Vec::new();
    proof {
        lemma_trail_places(unbound(), hay, wanted, 0, from as int, from as int);
    }
    let ghost none = found@;
    if !bindings.follow_recording(haystack, steps, 0, from, &mut found) {
        return None;
    }
    let ghost at = (trail(unbound(), hay, wanted, 0, from as int, from as int)->0).1;
    proof {
        assert(places(none) + at =~= at);
        assert(places(found@).len() == found@.len());
    }
    if found.len() == 0 {
        return None;
    }
    let last: usize = found.len() - 1;
    proof {
        assert(places(found@)[0] == found@[0]);
        assert(places(found@)[last as int] == found@[last as int]);
        assert(at[last as int] < haystack@.len());
    }
    let size: usize = haystack.len();
    assert(found@[last as int] < size);
    Some(found[0]..found[last] + 1)
}

} // verus!
