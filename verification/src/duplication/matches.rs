//! Pairs of places that hold the same tokens, and which of them to report.

use crate::paths::same_path;
use crate::facts::{
    evidence_order, lemma_evidence_order, lemma_span_order, optional_compared, optional_order,
    settled, span_order, wide, EvidenceView, InputEvidence, SourceSpan, SpanView,
};
use crate::ordering::{keys, lemma_settles, settled_list, settled_of, Ordered};
use crate::text::{
    compared, lemma_text_order_total, number_order, settled_by, text_compared, text_order,
    Comparison,
};
use vstd::prelude::*;

verus! {

/// Two places that hold the same tokens, and what each is part of.
#[derive(Debug)]
pub struct CloneMatch {
    pub left: SourceSpan,
    pub right: SourceSpan,
    pub left_unit: SourceSpan,
    pub right_unit: SourceSpan,
    pub tokens: u32,
    pub changed_tokens: u32,
    pub signature_sha256: String,
    /// Where the two places were read from, the lesser first.
    pub first_input: InputEvidence,
    pub second_input: InputEvidence,
}

/// The content of a [`CloneMatch`].
pub struct MatchView {
    pub left: SpanView,
    pub right: SpanView,
    pub left_unit: SpanView,
    pub right_unit: SpanView,
    pub tokens: u32,
    pub changed_tokens: u32,
    pub signature_sha256: Seq<char>,
    pub first_input: EvidenceView,
    pub second_input: EvidenceView,
}

impl View for CloneMatch {
    type V = MatchView;

    open spec fn view(&self) -> MatchView {
        MatchView {
            left: self.left@,
            right: self.right@,
            left_unit: self.left_unit@,
            right_unit: self.right_unit@,
            tokens: self.tokens,
            changed_tokens: self.changed_tokens,
            signature_sha256: self.signature_sha256@,
            first_input: self.first_input@,
            second_input: self.second_input@,
        }
    }
}

impl Clone for CloneMatch {
    fn clone(&self) -> (copy: Self)
        ensures
            copy == *self,
    {
        CloneMatch {
            left: self.left.clone(),
            right: self.right.clone(),
            left_unit: self.left_unit.clone(),
            right_unit: self.right_unit.clone(),
            tokens: self.tokens,
            changed_tokens: self.changed_tokens,
            signature_sha256: self.signature_sha256.clone(),
            first_input: self.first_input.clone(),
            second_input: self.second_input.clone(),
        }
    }
}

/// How two matches compare by what they say of the code.
pub open spec fn place_order(left: MatchView, right: MatchView) -> Comparison {
    settled_by(
        span_order(left.left, right.left),
        settled_by(span_order(left.right, right.right), unit_order(left, right)),
    )
}

/// How two matches compare by the units they are part of.
pub open spec fn unit_order(left: MatchView, right: MatchView) -> Comparison {
    settled_by(
        span_order(left.left_unit, right.left_unit),
        span_order(left.right_unit, right.right_unit),
    )
}

/// How two matches compare by what was measured.
pub open spec fn measure_order(left: MatchView, right: MatchView) -> Comparison {
    settled_by(
        number_order(left.tokens as int, right.tokens as int),
        settled_by(
            number_order(left.changed_tokens as int, right.changed_tokens as int),
            settled_by(
                text_order(left.signature_sha256, right.signature_sha256),
                settled_by(
                    evidence_order(left.first_input, right.first_input),
                    evidence_order(left.second_input, right.second_input),
                ),
            ),
        ),
    )
}

/// How two matches compare, field by field.
pub open spec fn match_order(left: MatchView, right: MatchView) -> Comparison {
    settled_by(place_order(left, right), measure_order(left, right))
}

/// How two matches compare by worth: more tokens first, and then fewer of them
/// changed.
pub open spec fn worth_order(left: MatchView, right: MatchView) -> Comparison {
    settled_by(
        number_order(right.tokens as int, left.tokens as int),
        number_order(left.changed_tokens as int, right.changed_tokens as int),
    )
}

/// Comparing places is a total preorder.
proof fn lemma_unit_order(first: MatchView, second: MatchView, third: MatchView)
    ensures
        unit_order(first, second) == Comparison::Equal <==> first.left_unit == second.left_unit
            && first.right_unit == second.right_unit,
        unit_order(first, second) == Comparison::Less <==> unit_order(second, first)
            == Comparison::Greater,
        unit_order(first, second) == Comparison::Greater <==> unit_order(second, first)
            == Comparison::Less,
        unit_order(first, second) != Comparison::Greater && unit_order(second, third)
            != Comparison::Greater ==> unit_order(first, third) != Comparison::Greater,
        unit_order(first, second) != Comparison::Greater && unit_order(second, third)
            != Comparison::Greater && unit_order(first, third) == Comparison::Equal ==> unit_order(
            first,
            second,
        ) == Comparison::Equal && unit_order(second, third) == Comparison::Equal,
{
    lemma_span_order(first.left_unit, second.left_unit, third.left_unit);
    lemma_span_order(second.left_unit, third.left_unit, first.left_unit);
    lemma_span_order(first.left_unit, third.left_unit, second.left_unit);
    lemma_span_order(first.right_unit, second.right_unit, third.right_unit);
    lemma_span_order(second.right_unit, third.right_unit, first.right_unit);
    lemma_span_order(first.right_unit, third.right_unit, second.right_unit);
}

proof fn lemma_place_order(first: MatchView, second: MatchView, third: MatchView)
    ensures
        place_order(first, second) == Comparison::Equal <==> first.left == second.left
            && first.right == second.right && first.left_unit == second.left_unit
            && first.right_unit == second.right_unit,
        place_order(first, second) == Comparison::Less <==> place_order(second, first)
            == Comparison::Greater,
        place_order(first, second) == Comparison::Greater <==> place_order(second, first)
            == Comparison::Less,
        place_order(first, second) != Comparison::Greater && place_order(second, third)
            != Comparison::Greater ==> place_order(first, third) != Comparison::Greater,
        place_order(first, second) != Comparison::Greater && place_order(second, third)
            != Comparison::Greater && place_order(first, third) == Comparison::Equal
            ==> place_order(first, second) == Comparison::Equal && place_order(second, third)
            == Comparison::Equal,
{
    lemma_unit_order(first, second, third);
    lemma_span_order(first.left, second.left, third.left);
    lemma_span_order(second.left, third.left, first.left);
    lemma_span_order(first.left, third.left, second.left);
    lemma_span_order(first.right, second.right, third.right);
    lemma_span_order(second.right, third.right, first.right);
    lemma_span_order(first.right, third.right, second.right);
}

proof fn lemma_measure_order(first: MatchView, second: MatchView, third: MatchView)
    ensures
        measure_order(first, second) == Comparison::Equal <==> first.tokens == second.tokens
            && first.changed_tokens == second.changed_tokens && first.signature_sha256
            == second.signature_sha256 && first.first_input == second.first_input
            && first.second_input == second.second_input,
        measure_order(first, second) == Comparison::Less <==> measure_order(second, first)
            == Comparison::Greater,
        measure_order(first, second) == Comparison::Greater <==> measure_order(second, first)
            == Comparison::Less,
        measure_order(first, second) != Comparison::Greater && measure_order(second, third)
            != Comparison::Greater ==> measure_order(first, third) != Comparison::Greater,
        measure_order(first, second) != Comparison::Greater && measure_order(second, third)
            != Comparison::Greater && measure_order(first, third) == Comparison::Equal
            ==> measure_order(first, second) == Comparison::Equal && measure_order(second, third)
            == Comparison::Equal,
{
    lemma_text_order_total(
        first.signature_sha256,
        second.signature_sha256,
        third.signature_sha256,
    );
    lemma_text_order_total(
        second.signature_sha256,
        third.signature_sha256,
        first.signature_sha256,
    );
    lemma_text_order_total(
        first.signature_sha256,
        third.signature_sha256,
        second.signature_sha256,
    );
    lemma_evidence_order(first.first_input, second.first_input, third.first_input);
    lemma_evidence_order(second.first_input, third.first_input, first.first_input);
    lemma_evidence_order(first.first_input, third.first_input, second.first_input);
    lemma_evidence_order(first.second_input, second.second_input, third.second_input);
    lemma_evidence_order(second.second_input, third.second_input, first.second_input);
    lemma_evidence_order(first.second_input, third.second_input, second.second_input);
}

/// Matches are put in a total order.
pub proof fn lemma_match_order(first: MatchView, second: MatchView, third: MatchView)
    ensures
        match_order(first, second) == Comparison::Equal <==> first == second,
        match_order(first, second) == Comparison::Less <==> match_order(second, first)
            == Comparison::Greater,
        match_order(first, second) == Comparison::Greater <==> match_order(second, first)
            == Comparison::Less,
        match_order(first, second) != Comparison::Greater && match_order(second, third)
            != Comparison::Greater ==> match_order(first, third) != Comparison::Greater,
{
    lemma_place_order(first, second, third);
    lemma_measure_order(first, second, third);
    lemma_place_order(second, third, first);
    lemma_place_order(first, third, second);
}

impl CloneMatch {
    /// How two matches compare by the units they are part of.
    fn compared_units(&self, other: &CloneMatch) -> (order: Comparison)
        ensures
            order == unit_order(self@, other@),
    {
        settled(
            self.left_unit.compared(&other.left_unit),
            self.right_unit.compared(&other.right_unit),
        )
    }

    /// How two matches compare, field by field.
    pub fn compared(&self, other: &CloneMatch) -> (order: Comparison)
        ensures
            order == match_order(self@, other@),
    {
        let places = settled(
            self.left.compared(&other.left),
            settled(self.right.compared(&other.right), self.compared_units(other)),
        );
        let measures = settled(
            compared(self.tokens, other.tokens),
            settled(
                compared(self.changed_tokens, other.changed_tokens),
                settled(
                    text_compared(
                        self.signature_sha256.as_str(),
                        other.signature_sha256.as_str(),
                    ),
                    settled(
                        self.first_input.compared(&other.first_input),
                        self.second_input.compared(&other.second_input),
                    ),
                ),
            ),
        );
        settled(places, measures)
    }
}

impl Ordered for CloneMatch {
    type Key = MatchView;

    open spec fn key(&self) -> MatchView {
        self@
    }

    open spec fn order(left: MatchView, right: MatchView) -> Comparison {
        match_order(left, right)
    }

    proof fn order_is_total(first: MatchView, second: MatchView, third: MatchView) {
        lemma_match_order(first, second, third);
    }

    fn ordered(&self, other: &Self) -> (order: Comparison) {
        self.compared(other)
    }
}

/// A match, put in order by worth.
pub struct Ranked {
    pub matched: CloneMatch,
}

impl Ordered for Ranked {
    type Key = MatchView;

    open spec fn key(&self) -> MatchView {
        self.matched@
    }

    open spec fn order(left: MatchView, right: MatchView) -> Comparison {
        settled_by(worth_order(left, right), match_order(left, right))
    }

    proof fn order_is_total(first: MatchView, second: MatchView, third: MatchView) {
        lemma_match_order(first, second, third);
    }

    fn ordered(&self, other: &Self) -> (order: Comparison) {
        settled(
            settled(
                compared(other.matched.tokens, self.matched.tokens),
                compared(self.matched.changed_tokens, other.matched.changed_tokens),
            ),
            self.matched.compared(&other.matched),
        )
    }
}

/// A match, put in order by the units it is part of.
pub struct ByUnits {
    pub matched: CloneMatch,
}

impl Ordered for ByUnits {
    type Key = MatchView;

    open spec fn key(&self) -> MatchView {
        self.matched@
    }

    open spec fn order(left: MatchView, right: MatchView) -> Comparison {
        settled_by(unit_order(left, right), match_order(left, right))
    }

    proof fn order_is_total(first: MatchView, second: MatchView, third: MatchView) {
        lemma_unit_order(first, second, third);
        lemma_unit_order(second, third, first);
        lemma_match_order(first, second, third);
    }

    fn ordered(&self, other: &Self) -> (order: Comparison) {
        settled(
            self.matched.compared_units(&other.matched),
            self.matched.compared(&other.matched),
        )
    }
}

/// Whether one span covers another.
pub open spec fn covers(outer: SpanView, inner: SpanView) -> bool {
    &&& outer.path == inner.path
    &&& optional_order(wide(outer.start_byte), wide(inner.start_byte)) != Comparison::Greater
    &&& optional_order(wide(inner.end_byte), wide(outer.end_byte)) != Comparison::Greater
}

/// A number, or the largest that can be written.
pub open spec fn saturated(number: int) -> int {
    if number > u64::MAX {
        u64::MAX as int
    } else if number < 0 {
        0
    } else {
        number
    }
}

/// The lesser of two numbers.
pub open spec fn lesser(left: int, right: int) -> int {
    if left <= right {
        left
    } else {
        right
    }
}

/// The greater of two numbers.
pub open spec fn greater(left: int, right: int) -> int {
    if left <= right {
        right
    } else {
        left
    }
}

/// Whether two spans share at least four fifths of the shorter one. A span
/// without exact offsets cannot answer.
pub open spec fn overlaps(left: SpanView, right: SpanView) -> bool {
    match (left.start_byte, left.end_byte, right.start_byte, right.end_byte) {
        (Some(left_start), Some(left_end), Some(right_start), Some(right_end)) => {
            let overlap = saturated(
                lesser(left_end as int, right_end as int) - greater(
                    left_start as int,
                    right_start as int,
                ),
            );
            let shorter = lesser(
                saturated(left_end - left_start),
                saturated(right_end - right_start),
            );
            left.path == right.path && shorter > 0 && saturated(overlap * 5) >= saturated(
                shorter * 4,
            )
        },
        _ => false,
    }
}

/// Whether a match is inside another of a list that is no shorter.
pub open spec fn dominated(list: Seq<MatchView>, i: int) -> bool {
    exists|j: int|
        0 <= j < list.len() && (#[trigger] list[j]) != list[i] && list[j].tokens >= list[i].tokens
            && covers(list[j].left, list[i].left) && covers(list[j].right, list[i].right)
}

/// Those of the first so many matches that are not inside another.
pub open spec fn undominated(list: Seq<MatchView>, n: int) -> Seq<MatchView>
    decreases n,
{
    if n <= 0 || n > list.len() {
        Seq::empty()
    } else {
        let before = undominated(list, n - 1);
        if dominated(list, n - 1) {
            before
        } else {
            before.push(list[n - 1])
        }
    }
}

/// Whether some of the chosen matches overlaps one on both sides.
pub open spec fn shadowed(chosen: Seq<MatchView>, candidate: MatchView) -> bool {
    exists|k: int|
        0 <= k < chosen.len() && overlaps((#[trigger] chosen[k]).left, candidate.left) && overlaps(
            chosen[k].right,
            candidate.right,
        )
}

/// The matches chosen from the first so many, best first: each that none chosen
/// before overlaps.
pub open spec fn chosen_upto(ranked: Seq<MatchView>, n: int) -> Seq<MatchView>
    decreases n,
{
    if n <= 0 || n > ranked.len() {
        Seq::empty()
    } else {
        let before = chosen_upto(ranked, n - 1);
        if shadowed(before, ranked[n - 1]) {
            before
        } else {
            before.push(ranked[n - 1])
        }
    }
}

/// Whether two matches are between the same units.
pub open spec fn same_units(left: MatchView, right: MatchView) -> bool {
    left.left_unit == right.left_unit && left.right_unit == right.right_unit
}

/// Whether some match is between the same units as another.
pub open spec fn has_units(list: Seq<MatchView>, candidate: MatchView) -> bool {
    exists|k: int| 0 <= k < list.len() && same_units(#[trigger] list[k], candidate)
}

/// The first of the first so many matches between each two units.
pub open spec fn first_of_units(list: Seq<MatchView>, n: int) -> Seq<MatchView>
    decreases n,
{
    if n <= 0 || n > list.len() {
        Seq::empty()
    } else {
        let before = first_of_units(list, n - 1);
        if has_units(before, list[n - 1]) {
            before
        } else {
            before.push(list[n - 1])
        }
    }
}

/// The matches by worth that are not inside another.
pub open spec fn ranked_of(list: Seq<MatchView>) -> Seq<MatchView> {
    settled_of::<Ranked>(undominated(list, list.len() as int))
}

/// The matches chosen, best first, that overlap none chosen before.
pub open spec fn chosen_of(list: Seq<MatchView>) -> Seq<MatchView> {
    chosen_upto(ranked_of(list), ranked_of(list).len() as int)
}

/// The matches to report: of those not inside another, the best that do not
/// overlap; of those the best between each two units; by unit.
pub open spec fn maximal(list: Seq<MatchView>) -> Seq<MatchView> {
    settled_of::<ByUnits>(first_of_units(chosen_of(list), chosen_of(list).len() as int))
}

/// Whether one span covers another.
fn contains(outer: &SourceSpan, inner: &SourceSpan) -> (covered: bool)
    ensures
        covered == covers(outer@, inner@),
{
    let starts = match optional_compared(outer.start_byte, inner.start_byte) {
        Comparison::Greater => false,
        _ => true,
    };
    let ends = match optional_compared(inner.end_byte, outer.end_byte) {
        Comparison::Greater => false,
        _ => true,
    };
    same_path(outer.path.as_str(), inner.path.as_str()) && starts && ends
}

/// A difference, or nothing where it would be negative.
fn difference(left: u64, right: u64) -> (difference: u64)
    ensures
        difference == saturated(left - right),
{
    if left >= right {
        left - right
    } else {
        0
    }
}

/// Five times a number, or the largest that can be written.
fn five_times(number: u64) -> (product: u64)
    ensures
        product == saturated(number * 5),
{
    if number > 0xffff_ffff_ffff_ffff / 5 {
        0xffff_ffff_ffff_ffff
    } else {
        number * 5
    }
}

/// Four times a number, or the largest that can be written.
fn four_times(number: u64) -> (product: u64)
    ensures
        product == saturated(number * 4),
{
    if number > 0xffff_ffff_ffff_ffff / 4 {
        0xffff_ffff_ffff_ffff
    } else {
        number * 4
    }
}

/// Whether two spans share at least four fifths of the shorter one.
fn substantially_overlaps(left: &SourceSpan, right: &SourceSpan) -> (overlap: bool)
    ensures
        overlap == overlaps(left@, right@),
{
    let (left_start, left_end) = match left.byte_range() {
        Some(range) => range,
        None => {
            return false;
        },
    };
    let (right_start, right_end) = match right.byte_range() {
        Some(range) => range,
        None => {
            return false;
        },
    };
    if !same_path(left.path.as_str(), right.path.as_str()) {
        return false;
    }
    let end: u64 = if left_end <= right_end {
        left_end
    } else {
        right_end
    };
    let start: u64 = if left_start <= right_start {
        right_start
    } else {
        left_start
    };
    let overlap: u64 = difference(end, start);
    let left_length: u64 = difference(left_end, left_start);
    let right_length: u64 = difference(right_end, right_start);
    let shorter: u64 = if left_length <= right_length {
        left_length
    } else {
        right_length
    };
    shorter > 0 && five_times(overlap) >= four_times(shorter)
}

/// Whether a match is inside another of a list that is no shorter.
fn is_dominated(list: &Vec<CloneMatch>, i: usize) -> (inside: bool)
    requires
        i < list@.len(),
        keys(list@).no_duplicates(),
    ensures
        inside == dominated(keys(list@), i as int),
{
    let ghost views = keys(list@);
    let mut j: usize = 0;
    while j < list.len()
        invariant
            i < list@.len(),
            j <= list@.len(),
            views == keys(list@),
            views.no_duplicates(),
            forall|k: int|
                0 <= k < j ==> !((#[trigger] views[k]) != views[i as int] && views[k].tokens
                    >= views[i as int].tokens && covers(views[k].left, views[i as int].left)
                    && covers(views[k].right, views[i as int].right)),
        decreases list@.len() - j,
    {
        assert(views[j as int] == list@[j as int]@);
        assert(views[i as int] == list@[i as int]@);
        if j != i && list[j].tokens >= list[i].tokens && contains(&list[j].left, &list[i].left)
            && contains(&list[j].right, &list[i].right) {
            return true;
        }
        j += 1;
    }
    false
}

/// Those matches that are not inside another, by worth.
fn rank(list: &Vec<CloneMatch>) -> (ranked: Vec<Ranked>)
    requires
        keys(list@).no_duplicates(),
    ensures
        keys(ranked@) == ranked_of(keys(list@)),
{
    let ghost views = keys(list@);
    let mut candidates: Vec<Ranked> = Vec::new();
    let mut i: usize = 0;
    assert(keys(candidates@) =~= undominated(views, 0));
    while i < list.len()
        invariant
            i <= list@.len(),
            views == keys(list@),
            views.no_duplicates(),
            keys(candidates@) == undominated(views, i as int),
        decreases list@.len() - i,
    {
        assert(views[i as int] == list@[i as int]@);
        if !is_dominated(&list, i) {
            let ghost before = candidates@;
            let candidate = Ranked { matched: list[i].clone() };
            candidates.push(candidate);
            assert(keys(candidates@) =~= keys(before).push(candidate.key()));
        }
        i += 1;
    }
    settled_list(candidates)
}

/// Whether some of the chosen matches overlaps one on both sides.
fn is_shadowed(selected: &Vec<CloneMatch>, candidate: &CloneMatch) -> (hidden: bool)
    ensures
        hidden == shadowed(keys(selected@), candidate@),
{
    let ghost chosen = keys(selected@);
    let mut k: usize = 0;
    while k < selected.len()
        invariant
            k <= selected@.len(),
            chosen == keys(selected@),
            forall|m: int|
                0 <= m < k ==> !(overlaps((#[trigger] chosen[m]).left, candidate@.left)
                    && overlaps(chosen[m].right, candidate@.right)),
        decreases selected@.len() - k,
    {
        assert(chosen[k as int] == selected@[k as int]@);
        if substantially_overlaps(&selected[k].left, &candidate.left) && substantially_overlaps(
            &selected[k].right,
            &candidate.right,
        ) {
            return true;
        }
        k += 1;
    }
    false
}

/// The matches chosen, best first, that overlap none chosen before.
fn choose_best(ranked: Vec<Ranked>) -> (selected: Vec<CloneMatch>)
    ensures
        keys(selected@) == chosen_upto(keys(ranked@), keys(ranked@).len() as int),
{
    let ghost order = keys(ranked@);
    let mut selected: Vec<CloneMatch> = Vec::new();
    let mut j: usize = 0;
    assert(keys(selected@) =~= chosen_upto(order, 0));
    while j < ranked.len()
        invariant
            j <= ranked@.len(),
            order == keys(ranked@),
            keys(selected@) == chosen_upto(order, j as int),
        decreases ranked@.len() - j,
    {
        let candidate = &ranked[j].matched;
        assert(order[j as int] == candidate@);
        if !is_shadowed(&selected, candidate) {
            let ghost before = selected@;
            let copy = candidate.clone();
            selected.push(copy);
            assert(keys(selected@) =~= keys(before).push(candidate@));
        }
        j += 1;
    }
    selected
}

/// Whether some match is between the same units as another.
fn holds_units(kept: &Vec<ByUnits>, candidate: &CloneMatch) -> (found: bool)
    ensures
        found == has_units(keys(kept@), candidate@),
{
    let ghost held = keys(kept@);
    let mut k: usize = 0;
    while k < kept.len()
        invariant
            k <= kept@.len(),
            held == keys(kept@),
            forall|m: int| 0 <= m < k ==> !same_units(#[trigger] held[m], candidate@),
        decreases kept@.len() - k,
    {
        assert(held[k as int] == kept@[k as int].matched@);
        proof {
            lemma_unit_order(held[k as int], candidate@, candidate@);
        }
        match kept[k].matched.compared_units(candidate) {
            Comparison::Equal => {
                return true;
            },
            _ => {},
        }
        k += 1;
    }
    false
}

/// The first match between each two units, by unit.
fn keep_first(selected: Vec<CloneMatch>) -> (ordered: Vec<ByUnits>)
    ensures
        keys(ordered@) == settled_of::<ByUnits>(
            first_of_units(keys(selected@), keys(selected@).len() as int),
        ),
{
    let ghost chosen = keys(selected@);
    let mut kept: Vec<ByUnits> = Vec::new();
    let mut n: usize = 0;
    assert(keys(kept@) =~= first_of_units(chosen, 0));
    while n < selected.len()
        invariant
            n <= selected@.len(),
            chosen == keys(selected@),
            keys(kept@) == first_of_units(chosen, n as int),
        decreases selected@.len() - n,
    {
        let candidate = &selected[n];
        assert(chosen[n as int] == candidate@);
        if !holds_units(&kept, candidate) {
            let ghost before = kept@;
            let copy = ByUnits { matched: candidate.clone() };
            kept.push(copy);
            assert(keys(kept@) =~= keys(before).push(candidate@));
        }
        n += 1;
    }
    settled_list(kept)
}

/// Those matches to report.
pub fn maximal_matches(list: Vec<CloneMatch>) -> (reported: Vec<CloneMatch>)
    requires
        keys(list@).no_duplicates(),
    ensures
        keys(reported@) == maximal(keys(list@)),
{
    let ordered = keep_first(choose_best(rank(&list)));
    let ghost last = keys(ordered@);
    let mut reported: Vec<CloneMatch> = Vec::new();
    let mut m: usize = 0;
    assert(keys(reported@) =~= last.take(0));
    while m < ordered.len()
        invariant
            m <= ordered@.len(),
            last == keys(ordered@),
            keys(reported@) == last.take(m as int),
        decreases ordered@.len() - m,
    {
        let ghost before = reported@;
        let copy = ordered[m].matched.clone();
        reported.push(copy);
        assert(last[m as int] == copy@);
        assert(keys(reported@) =~= keys(before).push(copy@));
        assert(last.take(m + 1) =~= last.take(m as int).push(last[m as int]));
        m += 1;
    }
    assert(last.take(m as int) =~= last);
    reported
}

/// What is kept of the first so many is in the list.
proof fn lemma_undominated_from(list: Seq<MatchView>, n: int, k: int)
    requires
        0 <= k < undominated(list, n).len(),
    ensures
        list.contains(undominated(list, n)[k]),
    decreases n,
{
    let before = undominated(list, n - 1);
    if k < before.len() {
        lemma_undominated_from(list, n - 1, k);
    } else {
        assert(list[n - 1] == undominated(list, n)[k]);
    }
}

proof fn lemma_chosen_from(ranked: Seq<MatchView>, n: int, k: int)
    requires
        0 <= k < chosen_upto(ranked, n).len(),
    ensures
        ranked.contains(chosen_upto(ranked, n)[k]),
    decreases n,
{
    let before = chosen_upto(ranked, n - 1);
    if k < before.len() {
        lemma_chosen_from(ranked, n - 1, k);
    } else {
        assert(ranked[n - 1] == chosen_upto(ranked, n)[k]);
    }
}

proof fn lemma_units_from(list: Seq<MatchView>, n: int, k: int)
    requires
        0 <= k < first_of_units(list, n).len(),
    ensures
        list.contains(first_of_units(list, n)[k]),
    decreases n,
{
    let before = first_of_units(list, n - 1);
    if k < before.len() {
        lemma_units_from(list, n - 1, k);
    } else {
        assert(list[n - 1] == first_of_units(list, n)[k]);
    }
}

/// Chosen matches do not overlap one another on both sides.
proof fn lemma_chosen_apart(ranked: Seq<MatchView>, n: int, j: int, k: int)
    requires
        0 <= j < k < chosen_upto(ranked, n).len(),
    ensures
        !(overlaps(chosen_upto(ranked, n)[j].left, chosen_upto(ranked, n)[k].left) && overlaps(
            chosen_upto(ranked, n)[j].right,
            chosen_upto(ranked, n)[k].right,
        )),
    decreases n,
{
    let before = chosen_upto(ranked, n - 1);
    if k < before.len() {
        lemma_chosen_apart(ranked, n - 1, j, k);
    } else {
        assert(before[j] == chosen_upto(ranked, n)[j]);
    }
}

/// Everything reported is one of the matches, no two reported matches are
/// between the same units, and none is inside another match that is no shorter.
pub proof fn law_reported_matches_are_maximal(list: Seq<MatchView>, matched: MatchView)
    requires
        maximal(list).contains(matched),
    ensures
        list.contains(matched),
        forall|other: MatchView|
            #![trigger list.contains(other)]
            list.contains(other) && other != matched && other.tokens >= matched.tokens ==> !(covers(
                other.left,
                matched.left,
            ) && covers(other.right, matched.right)),
{
    let chosen = chosen_of(list);
    let kept = first_of_units(chosen, chosen.len() as int);
    lemma_settles::<ByUnits>(kept);
    assert(kept.contains(matched));
    let k = choose|k: int| 0 <= k < kept.len() && kept[k] == matched;
    lemma_units_from(chosen, chosen.len() as int, k);
    let ranked = ranked_of(list);
    let c = choose|c: int| 0 <= c < chosen.len() && chosen[c] == matched;
    lemma_chosen_from(ranked, ranked.len() as int, c);
    let free = undominated(list, list.len() as int);
    lemma_settles::<Ranked>(free);
    assert(free.contains(matched));
    let u = choose|u: int| 0 <= u < free.len() && free[u] == matched;
    lemma_undominated_from(list, list.len() as int, u);
    lemma_undominated_free(list, list.len() as int, u);
    let i = choose|i: int|
        0 <= i < list.len() && list[i] == matched && !#[trigger] dominated(list, i);
    assert forall|other: MatchView|
        #![trigger list.contains(other)]
        list.contains(other) && other != matched && other.tokens >= matched.tokens implies !(covers(
        other.left,
        matched.left,
    ) && covers(other.right, matched.right)) by {
        let j = choose|j: int| 0 <= j < list.len() && list[j] == other;
        assert(list[j] == other);
        assert(!dominated(list, i));
    }
}

proof fn lemma_undominated_free(list: Seq<MatchView>, n: int, k: int)
    requires
        0 <= k < undominated(list, n).len(),
    ensures
        exists|i: int|
            0 <= i < list.len() && list[i] == undominated(list, n)[k] && !#[trigger] dominated(
                list,
                i,
            ),
    decreases n,
{
    let before = undominated(list, n - 1);
    if k < before.len() {
        lemma_undominated_free(list, n - 1, k);
        let i = choose|i: int|
            0 <= i < list.len() && list[i] == before[k] && !#[trigger] dominated(list, i);
        assert(list[i] == undominated(list, n)[k] && !dominated(list, i));
    } else {
        assert(list[n - 1] == undominated(list, n)[k] && !dominated(list, n - 1));
    }
}

/// Two different reported matches are between different units, and do not
/// overlap on both sides.
#[verifier::rlimit(30)]
#[verifier::spinoff_prover]
pub proof fn law_reported_matches_are_apart(list: Seq<MatchView>, left: MatchView, right: MatchView)
    requires
        maximal(list).contains(left),
        maximal(list).contains(right),
        left != right,
    ensures
        !same_units(left, right),
        !(overlaps(left.left, right.left) && overlaps(left.right, right.right)) || !(overlaps(
            right.left,
            left.left,
        ) && overlaps(right.right, left.right)),
{
    let chosen = chosen_of(list);
    let kept = first_of_units(chosen, chosen.len() as int);
    lemma_settles::<ByUnits>(kept);
    assert(kept.contains(left) && kept.contains(right));
    let l = choose|l: int| 0 <= l < kept.len() && kept[l] == left;
    let r = choose|r: int| 0 <= r < kept.len() && kept[r] == right;
    if l < r {
        lemma_units_differ(chosen, chosen.len() as int, l, r);
    } else {
        lemma_units_differ(chosen, chosen.len() as int, r, l);
    }
    lemma_units_from(chosen, chosen.len() as int, l);
    lemma_units_from(chosen, chosen.len() as int, r);
    let a = choose|a: int| 0 <= a < chosen.len() && chosen[a] == left;
    let b = choose|b: int| 0 <= b < chosen.len() && chosen[b] == right;
    let ranked = ranked_of(list);
    if a < b {
        lemma_chosen_apart(ranked, ranked.len() as int, a, b);
    } else {
        lemma_chosen_apart(ranked, ranked.len() as int, b, a);
    }
}

proof fn lemma_units_differ(list: Seq<MatchView>, n: int, j: int, k: int)
    requires
        0 <= j < k < first_of_units(list, n).len(),
    ensures
        !same_units(first_of_units(list, n)[j], first_of_units(list, n)[k]),
    decreases n,
{
    let before = first_of_units(list, n - 1);
    if k < before.len() {
        lemma_units_differ(list, n - 1, j, k);
    } else {
        assert(before[j] == first_of_units(list, n)[j]);
    }
}

} // verus!
