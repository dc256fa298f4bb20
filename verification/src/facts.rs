//! Backend-independent facts that the analyses derive.

use crate::normalize::form::Form;
use crate::paths::{
    components, lemma_path_order_total, path_compared, path_order,
};
use crate::text::{
    carries_over, compared, lemma_text_order_total, number_order, settled_by, text_compared,
    text_order, turns_round, Comparison,
};
use vstd::prelude::*;
use vstd::string::*;

verus! {

/// The version that derived facts are stamped with.
pub const ANALYZER_VERSION: &'static str = "0.1.0";

pub const DERIVED_LIBRARY_BEHAVIOR_SCHEMA: u32 = 1;

pub const DERIVED_MACRO_BEHAVIOR_SCHEMA: u32 = 1;

pub const CALL_EFFECT_CATALOG_SCHEMA: u32 = 1;

/// Where something is written: a path of `/`-separated components, and the
/// lines and, where they are known, the bytes and columns.
#[derive(Debug, PartialEq, Eq, Hash)]
pub struct SourceSpan {
    pub path: String,
    /// Byte offsets into the file as the producer read it.
    ///
    /// A parser knows these because it read the bytes. A compiler reports
    /// lines and columns, so a span it produced has none, and a reporter must
    /// not invent them.
    pub start_byte: Option<u64>,
    pub end_byte: Option<u64>,
    pub start_line: u32,
    pub end_line: u32,
    /// Columns, when the producer supplies them. A whole-line span has none.
    pub start_column: Option<u32>,
    pub end_column: Option<u32>,
}

/// The content of a [`SourceSpan`]. Its path is the parts it is made of, so that two
/// spellings of one path are the same.
pub struct SpanView {
    pub path: Seq<Seq<char>>,
    pub start_byte: Option<u64>,
    pub end_byte: Option<u64>,
    pub start_line: u32,
    pub end_line: u32,
    pub start_column: Option<u32>,
    pub end_column: Option<u32>,
}

impl View for SourceSpan {
    type V = SpanView;

    open spec fn view(&self) -> SpanView {
        SpanView {
            path: components(self.path@),
            start_byte: self.start_byte,
            end_byte: self.end_byte,
            start_line: self.start_line,
            end_line: self.end_line,
            start_column: self.start_column,
            end_column: self.end_column,
        }
    }
}

/// How two optional numbers compare: a missing one comes first.
pub open spec fn optional_order(left: Option<int>, right: Option<int>) -> Comparison {
    match (left, right) {
        (None, None) => Comparison::Equal,
        (None, Some(_)) => Comparison::Less,
        (Some(_), None) => Comparison::Greater,
        (Some(left), Some(right)) => number_order(left, right),
    }
}

/// An optional number, of whatever width.
pub open spec fn wide(number: Option<u64>) -> Option<int> {
    match number {
        Some(number) => Some(number as int),
        None => None,
    }
}

/// An optional number, of whatever width.
pub open spec fn wide_short(number: Option<u32>) -> Option<int> {
    match number {
        Some(number) => Some(number as int),
        None => None,
    }
}

/// How two spans compare: by path, then bytes, lines and columns.
pub open spec fn span_order(left: SpanView, right: SpanView) -> Comparison {
    settled_by(
        path_order(left.path, right.path),
        settled_by(
            optional_order(wide(left.start_byte), wide(right.start_byte)),
            settled_by(
                optional_order(wide(left.end_byte), wide(right.end_byte)),
                settled_by(
                    number_order(left.start_line as int, right.start_line as int),
                    settled_by(
                        number_order(left.end_line as int, right.end_line as int),
                        settled_by(
                            optional_order(
                                wide_short(left.start_column),
                                wide_short(right.start_column),
                            ),
                            optional_order(
                                wide_short(left.end_column),
                                wide_short(right.end_column),
                            ),
                        ),
                    ),
                ),
            ),
        ),
    )
}

/// A comparison, settled by a second one where the first finds no difference.
pub(crate) fn settled(first: Comparison, second: Comparison) -> (order: Comparison)
    ensures
        order == settled_by(first, second),
{
    match first {
        Comparison::Equal => second,
        _ => first,
    }
}

/// How two numbers compare.
pub(crate) fn long_compared(left: u64, right: u64) -> (order: Comparison)
    ensures
        order == number_order(left as int, right as int),
{
    if left < right {
        Comparison::Less
    } else if left == right {
        Comparison::Equal
    } else {
        Comparison::Greater
    }
}

/// How two optional numbers compare.
pub(crate) fn optional_compared(left: Option<u64>, right: Option<u64>) -> (order: Comparison)
    ensures
        order == optional_order(wide(left), wide(right)),
{
    match (left, right) {
        (None, None) => Comparison::Equal,
        (None, Some(_)) => Comparison::Less,
        (Some(_), None) => Comparison::Greater,
        (Some(left), Some(right)) => long_compared(left, right),
    }
}

/// An optional number, made longer.
fn lengthened(number: Option<u32>) -> (long: Option<u64>)
    ensures
        wide(long) == wide_short(number),
{
    match number {
        Some(number) => Some(number as u64),
        None => None,
    }
}

/// Spans are put in a total order.
pub proof fn lemma_span_order(first: SpanView, second: SpanView, third: SpanView)
    ensures
        span_order(first, second) == Comparison::Equal <==> first == second,
        span_order(first, second) == Comparison::Less <==> span_order(second, first)
            == Comparison::Greater,
        span_order(first, second) == Comparison::Greater <==> span_order(second, first)
            == Comparison::Less,
        span_order(first, second) != Comparison::Greater && span_order(second, third)
            != Comparison::Greater ==> span_order(first, third) != Comparison::Greater,
        span_order(first, second) != Comparison::Greater && span_order(second, third)
            != Comparison::Greater && span_order(first, third) == Comparison::Equal ==> first
            == second && second == third,
{
    lemma_path_order_total(first.path, second.path, third.path);
}

/// Spans are compared alike either way round, and over one step and two.
pub proof fn lemma_span_order_consistent(first: SpanView, second: SpanView, third: SpanView)
    ensures
        turns_round(span_order(first, second), span_order(second, first)),
        carries_over(
            span_order(first, second),
            span_order(second, third),
            span_order(first, third),
        ),
{
    lemma_span_order(first, second, third);
    lemma_span_order(second, third, first);
}

impl Clone for SourceSpan {
    fn clone(&self) -> (copy: Self)
        ensures
            copy == *self,
    {
        SourceSpan {
            path: self.path.clone(),
            start_byte: self.start_byte,
            end_byte: self.end_byte,
            start_line: self.start_line,
            end_line: self.end_line,
            start_column: self.start_column,
            end_column: self.end_column,
        }
    }
}

impl SourceSpan {
    /// The byte range, when the producer supplied one.
    ///
    /// Comparisons that need exact offsets cannot be made without them, and
    /// should decline rather than assume.
    pub fn byte_range(&self) -> (range: Option<(u64, u64)>)
        ensures
            range == match (self.start_byte, self.end_byte) {
                (Some(start), Some(end)) => Some((start, end)),
                _ => None,
            },
    {
        match (self.start_byte, self.end_byte) {
            (Some(start), Some(end)) => Some((start, end)),
            _ => None,
        }
    }

    /// How many lines this span covers.
    pub fn line_count(&self) -> (count: u32)
        requires
            self.end_line < self.start_line || self.end_line - self.start_line < u32::MAX,
        ensures
            count == if self.start_line <= self.end_line {
                self.end_line - self.start_line + 1
            } else {
                1
            },
    {
        if self.start_line <= self.end_line {
            self.end_line - self.start_line + 1
        } else {
            1
        }
    }

    /// How two spans compare.
    pub fn compared(&self, other: &SourceSpan) -> (order: Comparison)
        ensures
            order == span_order(self@, other@),
    {
        settled(
            path_compared(self.path.as_str(), other.path.as_str()),
            settled(
                optional_compared(self.start_byte, other.start_byte),
                settled(
                    optional_compared(self.end_byte, other.end_byte),
                    settled(
                        compared(self.start_line, other.start_line),
                        settled(
                            compared(self.end_line, other.end_line),
                            settled(
                                optional_compared(
                                    lengthened(self.start_column),
                                    lengthened(other.start_column),
                                ),
                                optional_compared(
                                    lengthened(self.end_column),
                                    lengthened(other.end_column),
                                ),
                            ),
                        ),
                    ),
                ),
            ),
        )
    }
}

/// What an input was read with.
#[derive(Debug, PartialEq, Eq, Hash)]
pub struct InputEvidence {
    pub path: String,
    pub content_sha256: String,
    pub parser_id: String,
    pub parser_version: String,
    pub grammar_sha256: String,
    /// A digest over the parser pack's queries, when a parser produced this.
    ///
    /// A fact derived through a query depends on that query's text as much as
    /// on the grammar. Empty when the input came from a compiler rather than a
    /// parser, which uses no queries at all.
    pub queries_sha256: String,
}

/// The content of an [`InputEvidence`].
pub struct EvidenceView {
    pub path: Seq<Seq<char>>,
    pub content_sha256: Seq<char>,
    pub parser_id: Seq<char>,
    pub parser_version: Seq<char>,
    pub grammar_sha256: Seq<char>,
    pub queries_sha256: Seq<char>,
}

impl View for InputEvidence {
    type V = EvidenceView;

    open spec fn view(&self) -> EvidenceView {
        EvidenceView {
            path: components(self.path@),
            content_sha256: self.content_sha256@,
            parser_id: self.parser_id@,
            parser_version: self.parser_version@,
            grammar_sha256: self.grammar_sha256@,
            queries_sha256: self.queries_sha256@,
        }
    }
}

impl Clone for InputEvidence {
    fn clone(&self) -> (copy: Self)
        ensures
            copy == *self,
    {
        InputEvidence {
            path: self.path.clone(),
            content_sha256: self.content_sha256.clone(),
            parser_id: self.parser_id.clone(),
            parser_version: self.parser_version.clone(),
            grammar_sha256: self.grammar_sha256.clone(),
            queries_sha256: self.queries_sha256.clone(),
        }
    }
}

/// How two inputs compare.
pub open spec fn evidence_order(left: EvidenceView, right: EvidenceView) -> Comparison {
    settled_by(
        path_order(left.path, right.path),
        settled_by(
            text_order(left.content_sha256, right.content_sha256),
            settled_by(
                text_order(left.parser_id, right.parser_id),
                settled_by(
                    text_order(left.parser_version, right.parser_version),
                    settled_by(
                        text_order(left.grammar_sha256, right.grammar_sha256),
                        text_order(left.queries_sha256, right.queries_sha256),
                    ),
                ),
            ),
        ),
    )
}

/// Inputs are put in a total order.
pub proof fn lemma_evidence_order(first: EvidenceView, second: EvidenceView, third: EvidenceView)
    ensures
        evidence_order(first, second) == Comparison::Equal <==> first == second,
        evidence_order(first, second) == Comparison::Less <==> evidence_order(second, first)
            == Comparison::Greater,
        evidence_order(first, second) == Comparison::Greater <==> evidence_order(second, first)
            == Comparison::Less,
        evidence_order(first, second) != Comparison::Greater && evidence_order(second, third)
            != Comparison::Greater ==> evidence_order(first, third) != Comparison::Greater,
        evidence_order(first, second) != Comparison::Greater && evidence_order(second, third)
            != Comparison::Greater && evidence_order(first, third) == Comparison::Equal ==> first
            == second && second == third,
{
    lemma_path_order_total(first.path, second.path, third.path);
    lemma_text_order_total(first.content_sha256, second.content_sha256, third.content_sha256);
    lemma_text_order_total(first.parser_id, second.parser_id, third.parser_id);
    lemma_text_order_total(first.parser_version, second.parser_version, third.parser_version);
    lemma_text_order_total(first.grammar_sha256, second.grammar_sha256, third.grammar_sha256);
    lemma_text_order_total(first.queries_sha256, second.queries_sha256, third.queries_sha256);
}

impl InputEvidence {
    /// How two inputs compare.
    pub fn compared(&self, other: &InputEvidence) -> (order: Comparison)
        ensures
            order == evidence_order(self@, other@),
    {
        settled(
            path_compared(self.path.as_str(), other.path.as_str()),
            settled(
                text_compared(self.content_sha256.as_str(), other.content_sha256.as_str()),
                settled(
                    text_compared(self.parser_id.as_str(), other.parser_id.as_str()),
                    settled(
                        text_compared(
                            self.parser_version.as_str(),
                            other.parser_version.as_str(),
                        ),
                        settled(
                            text_compared(
                                self.grammar_sha256.as_str(),
                                other.grammar_sha256.as_str(),
                            ),
                            text_compared(
                                self.queries_sha256.as_str(),
                                other.queries_sha256.as_str(),
                            ),
                        ),
                    ),
                ),
            ),
        )
    }
}

/// The contents of several inputs.
pub open spec fn evidence_views(inputs: Seq<InputEvidence>) -> Seq<EvidenceView> {
    Seq::new(inputs.len(), |i: int| inputs[i]@)
}

/// Which analyzer derived a fact, and from what.
#[derive(Debug, Clone, PartialEq, Eq, Hash)]
pub struct Derivation {
    pub analyzer: String,
    pub analyzer_version: String,
    pub inputs: Vec<InputEvidence>,
}

/// A value, and how it was derived.
#[derive(Debug, Clone, PartialEq, Eq, Hash)]
pub struct Fact<T> {
    pub value: T,
    pub derivation: Derivation,
}

/// Two places that hold the same tokens.
#[derive(Debug, Clone, PartialEq, Eq, Hash)]
pub struct ExactTokenClone {
    pub left: SourceSpan,
    pub right: SourceSpan,
    pub tokens: u32,
    pub token_sha256: String,
}

/// What of a token is not compared.
#[derive(Debug, Clone, Copy, PartialEq, Eq, PartialOrd, Ord, Hash, Structural)]
pub enum TokenNormalization {
    Identifiers,
    Literals,
}

/// Two places that hold the same tokens up to consistent renaming.
#[derive(Debug, Clone, PartialEq, Eq, Hash)]
pub struct NearTokenClone {
    pub left: SourceSpan,
    pub right: SourceSpan,
    pub tokens: u32,
    pub changed_tokens: u32,
    pub normalized_token_sha256: String,
    pub normalizations: Vec<TokenNormalization>,
}

/// What calls do besides computing.
#[derive(Debug, PartialEq, Eq, Hash)]
pub struct CallEffectCatalog {
    pub schema: u32,
    pub language: String,
    pub version: String,
    pub calls: Vec<CallEffects>,
}

/// What one call does besides computing.
#[derive(Debug, PartialEq, Eq, Hash)]
pub struct CallEffects {
    pub path: String,
    pub effects: Vec<Effect>,
    pub evidence: Vec<CallEffectEvidence>,
}

/// Why a call has an effect.
#[derive(Debug, PartialEq, Eq, Hash)]
pub struct CallEffectEvidence {
    pub effect: Effect,
    pub origin: String,
    pub path: Vec<CallEdgeEvidence>,
}

/// The content of the evidence for an effect.
pub struct EffectEvidenceView {
    pub effect: Effect,
    pub origin: Seq<char>,
    pub path: Seq<CallEdgeEvidence>,
}

impl View for CallEffectEvidence {
    type V = EffectEvidenceView;

    open spec fn view(&self) -> EffectEvidenceView {
        EffectEvidenceView { effect: self.effect, origin: self.origin@, path: self.path@ }
    }
}

/// The content of what one call does.
pub struct CallEffectsView {
    pub path: Seq<char>,
    pub effects: Seq<Effect>,
    pub evidence: Seq<EffectEvidenceView>,
}

impl View for CallEffects {
    type V = CallEffectsView;

    open spec fn view(&self) -> CallEffectsView {
        CallEffectsView {
            path: self.path@,
            effects: self.effects@,
            evidence: Seq::new(self.evidence@.len(), |i: int| self.evidence@[i]@),
        }
    }
}

/// The content of what calls do.
pub struct EffectCatalogView {
    pub schema: u32,
    pub language: Seq<char>,
    pub version: Seq<char>,
    pub calls: Seq<CallEffectsView>,
}

impl View for CallEffectCatalog {
    type V = EffectCatalogView;

    open spec fn view(&self) -> EffectCatalogView {
        EffectCatalogView {
            schema: self.schema,
            language: self.language@,
            version: self.version@,
            calls: Seq::new(self.calls@.len(), |i: int| self.calls@[i]@),
        }
    }
}

impl Clone for CallEffectEvidence {
    fn clone(&self) -> (copy: Self)
        ensures
            copy@ == self@,
    {
        let mut path: Vec<CallEdgeEvidence> = Vec::new();
        let mut i: usize = 0;
        while i < self.path.len()
            invariant
                i <= self.path@.len(),
                path@ == self.path@.take(i as int),
            decreases self.path@.len() - i,
        {
            path.push(self.path[i].clone());
            assert(self.path@.take(i + 1) =~= self.path@.take(i as int).push(self.path@[i as int]));
            i += 1;
        }
        assert(self.path@.take(i as int) =~= self.path@);
        CallEffectEvidence { effect: self.effect, origin: self.origin.clone(), path }
    }
}

impl Clone for CallEffects {
    fn clone(&self) -> (copy: Self)
        ensures
            copy@ == self@,
    {
        let mut effects: Vec<Effect> = Vec::new();
        let mut i: usize = 0;
        while i < self.effects.len()
            invariant
                i <= self.effects@.len(),
                effects@ == self.effects@.take(i as int),
            decreases self.effects@.len() - i,
        {
            effects.push(self.effects[i]);
            assert(self.effects@.take(i + 1) =~= self.effects@.take(i as int).push(
                self.effects@[i as int],
            ));
            i += 1;
        }
        assert(self.effects@.take(i as int) =~= self.effects@);
        let mut evidence: Vec<CallEffectEvidence> = Vec::new();
        let mut k: usize = 0;
        while k < self.evidence.len()
            invariant
                k <= self.evidence@.len(),
                evidence@.len() == k,
                forall|j: int| 0 <= j < k ==> (#[trigger] evidence@[j])@ == self.evidence@[j]@,
            decreases self.evidence@.len() - k,
        {
            evidence.push(self.evidence[k].clone());
            k += 1;
        }
        let copy = CallEffects { path: self.path.clone(), effects, evidence };
        assert(copy@.evidence =~= self@.evidence);
        copy
    }
}

impl Clone for CallEffectCatalog {
    fn clone(&self) -> (copy: Self)
        ensures
            copy@ == self@,
    {
        let mut calls: Vec<CallEffects> = Vec::new();
        let mut i: usize = 0;
        while i < self.calls.len()
            invariant
                i <= self.calls@.len(),
                calls@.len() == i,
                forall|j: int| 0 <= j < i ==> (#[trigger] calls@[j])@ == self.calls@[j]@,
            decreases self.calls@.len() - i,
        {
            calls.push(self.calls[i].clone());
            i += 1;
        }
        let copy = CallEffectCatalog {
            schema: self.schema,
            language: self.language.clone(),
            version: self.version.clone(),
            calls,
        };
        assert(copy@.calls =~= self@.calls);
        copy
    }
}

/// One call from one callable to another.
#[derive(Debug, PartialEq, Eq, Hash)]
pub struct CallEdgeEvidence {
    pub caller: String,
    pub callee: String,
    pub call: SourceSpan,
}

impl Clone for CallEdgeEvidence {
    fn clone(&self) -> (copy: Self)
        ensures
            copy == *self,
    {
        CallEdgeEvidence {
            caller: self.caller.clone(),
            callee: self.callee.clone(),
            call: self.call.clone(),
        }
    }
}

/// How a callable comes to have an effect.
#[derive(Debug, Clone, PartialEq, Eq, Hash)]
pub struct EffectTrace {
    pub callable: String,
    pub callable_span: SourceSpan,
    pub effect: Effect,
    pub origin: String,
    pub path: Vec<CallEdgeEvidence>,
}

/// How a fallible expression's error was dropped.
#[derive(Debug, Clone, Copy, PartialEq, Eq, PartialOrd, Ord, Hash, Structural)]
pub enum DiscardForm {
    /// `let _ = fallible();`
    LetUnderscore,
    /// `.ok()`, which turns a cause into an absence.
    OkDiscard,
    /// `.unwrap_or(..)`, `.unwrap_or_default()`, or `.unwrap_or_else(|_| ..)`.
    UnwrapOr,
    /// An `Err(_)` match arm.
    ErrArm,
    /// `if let Ok(..)` or `let Ok(..) = .. else`, where no arm sees the error.
    OkBinding,
    /// `.filter_map(Result::ok)`, which drops failed items mid-iteration.
    IteratorDrop,
    /// `.map_err(|_| ..)`, which keeps the failure but discards its cause.
    CauseErased,
    /// `.unwrap()` or `.expect(..)`, which aborts instead of returning.
    Panic,
}

/// The wire spelling of a way to drop an error.
pub open spec fn discard_spelling(form: DiscardForm) -> Seq<char> {
    match form {
        DiscardForm::LetUnderscore => "let-underscore"@,
        DiscardForm::OkDiscard => "ok-discard"@,
        DiscardForm::UnwrapOr => "unwrap-or"@,
        DiscardForm::ErrArm => "err-arm"@,
        DiscardForm::OkBinding => "ok-binding"@,
        DiscardForm::IteratorDrop => "iterator-drop"@,
        DiscardForm::CauseErased => "cause-erased"@,
        DiscardForm::Panic => "panic"@,
    }
}

impl DiscardForm {
    /// The wire spelling.
    pub fn as_str(self) -> (spelling: &'static str)
        ensures
            spelling@ == discard_spelling(self),
    {
        match self {
            DiscardForm::LetUnderscore => "let-underscore",
            DiscardForm::OkDiscard => "ok-discard",
            DiscardForm::UnwrapOr => "unwrap-or",
            DiscardForm::ErrArm => "err-arm",
            DiscardForm::OkBinding => "ok-binding",
            DiscardForm::IteratorDrop => "iterator-drop",
            DiscardForm::CauseErased => "cause-erased",
            DiscardForm::Panic => "panic",
        }
    }
}

/// Whether the enclosing callable could have reported the failure upward.
#[derive(Debug, Clone, Copy, PartialEq, Eq, PartialOrd, Ord, Hash, Structural)]
pub enum Containment {
    /// Returns `Result`, so propagation was available and was declined.
    Fallible,
    /// Returns `Option`, so a failure can only leave as an absence.
    Optional,
    /// Returns neither, so the error cannot leave this callable at all.
    Infallible,
}

/// The wire spelling of a containment.
pub open spec fn containment_spelling(containment: Containment) -> Seq<char> {
    match containment {
        Containment::Fallible => "fallible"@,
        Containment::Optional => "optional"@,
        Containment::Infallible => "infallible"@,
    }
}

impl Containment {
    /// The wire spelling.
    pub fn as_str(self) -> (spelling: &'static str)
        ensures
            spelling@ == containment_spelling(self),
    {
        match self {
            Containment::Fallible => "fallible",
            Containment::Optional => "optional",
            Containment::Infallible => "infallible",
        }
    }
}

/// Whether the site is certainly discarding a failure.
#[derive(Debug, Clone, Copy, PartialEq, Eq, PartialOrd, Ord, Hash, Structural)]
pub enum Certainty {
    /// The form names `Result`, or exists only to discard a must-use value.
    Certain,
    /// The same form exists on `Option`; the receiver's type was not resolved.
    Possible,
}

/// How far a discarded failure could have travelled up the call graph.
#[derive(Debug, Clone, Copy, PartialEq, Eq, PartialOrd, Ord, Hash, Structural)]
pub enum Reach {
    /// The discarding callable returns `Result`; it could have returned this.
    Local,
    /// A caller above returns `Result`, so the failure could have reached it.
    Ancestor,
    /// Every caller reachable from here is infallible; nothing can report it.
    Sealed,
    /// No caller could be resolved from syntax, so the answer is not known.
    Unknown,
}

/// What is known of how far a failure could travel before anyone asks.
pub fn unknown_reach() -> (reach: Reach)
    ensures
        reach == Reach::Unknown,
{
    Reach::Unknown
}

/// A site where a fallible expression's error was dropped rather than returned.
#[derive(Debug, Clone, PartialEq, Eq, Hash)]
pub struct ErrorDiscard {
    /// The enclosing callable, or the module when a discard sits outside one.
    pub callable: String,
    pub callable_span: SourceSpan,
    pub form: DiscardForm,
    pub containment: Containment,
    pub certainty: Certainty,
    /// The expression whose error was dropped, as written.
    pub expression: String,
    pub span: SourceSpan,
    /// Whether the site is a test, which a policy usually exempts.
    pub in_test: bool,
    pub reach: Reach,
    /// Callers from the outermost one found down to the discarding callable.
    pub path: Vec<CallEdgeEvidence>,
}

/// Something a call does besides computing.
#[derive(Debug, Clone, Copy, PartialEq, Eq, PartialOrd, Ord, Hash, Structural)]
pub enum Effect {
    Allocate,
    Block,
    EnvironmentRead,
    EnvironmentWrite,
    FileRead,
    FileWrite,
    Network,
    Process,
    Random,
    Time,
    Unsafe,
}

/// The wire spelling of an effect.
pub open spec fn effect_spelling(effect: Effect) -> Seq<char> {
    match effect {
        Effect::Allocate => "allocate"@,
        Effect::Block => "block"@,
        Effect::EnvironmentRead => "environment-read"@,
        Effect::EnvironmentWrite => "environment-write"@,
        Effect::FileRead => "file-read"@,
        Effect::FileWrite => "file-write"@,
        Effect::Network => "network"@,
        Effect::Process => "process"@,
        Effect::Random => "random"@,
        Effect::Time => "time"@,
        Effect::Unsafe => "unsafe"@,
    }
}

impl Effect {
    /// The wire spelling.
    pub fn as_str(self) -> (spelling: &'static str)
        ensures
            spelling@ == effect_spelling(self),
    {
        match self {
            Effect::Allocate => "allocate",
            Effect::Block => "block",
            Effect::EnvironmentRead => "environment-read",
            Effect::EnvironmentWrite => "environment-write",
            Effect::FileRead => "file-read",
            Effect::FileWrite => "file-write",
            Effect::Network => "network",
            Effect::Process => "process",
            Effect::Random => "random",
            Effect::Time => "time",
            Effect::Unsafe => "unsafe",
        }
    }
}

/// Code that does what a library callable does.
#[derive(Debug, Clone, PartialEq, Eq, Hash)]
pub struct LibraryBehaviorMatch {
    pub target: LibraryTarget,
    /// Other callables the code has equally reimplemented.
    ///
    /// A match reports what it established: the behavior, and every API that
    /// behavior belongs to. Type information narrows this to one.
    pub alternatives: Vec<LibraryTarget>,
    pub span: SourceSpan,
    /// Whether the code does this and other work in the same pass.
    pub fused: bool,
    /// What has to hold for the swap to be sound, that this cannot check.
    pub conditions: Vec<Condition>,
}

/// Something a recommendation depends on that the syntax does not settle.
#[derive(Debug, Clone, PartialEq, Eq, Hash)]
pub enum Condition {
    /// The API needs a bound on the element type that the code does not.
    ElementBound { requires_bound: String, code_requires: String },
    /// The API allocates where the code does not.
    Allocates,
    /// The API reaches the answer without making the comparisons the code makes.
    ComparisonObservable,
    /// The code is cheaper at the sizes it is actually called with.
    SmallInputsFavourTheCode,
}

/// How a condition reads.
pub open spec fn condition_text(condition: Condition) -> Seq<char> {
    match condition {
        Condition::ElementBound { requires_bound, code_requires } => "the element type must be "@
            + requires_bound@ + "; the code needs only "@ + code_requires@,
        Condition::Allocates => "the API allocates and the code does not"@,
        Condition::ComparisonObservable =>
            "a comparison with an observable effect runs here and need not run there"@,
        Condition::SmallInputsFavourTheCode => "the code is faster at small sizes"@,
    }
}

impl Condition {
    /// How this condition reads.
    pub fn display(&self) -> (text: String)
        ensures
            text@ == condition_text(*self),
    {
        match self {
            Condition::ElementBound { requires_bound, code_requires } => {
                let mut text = "the element type must be ".to_owned();
                text.append(requires_bound.as_str());
                text.append("; the code needs only ");
                text.append(code_requires.as_str());
                text
            },
            Condition::Allocates => "the API allocates and the code does not".to_owned(),
            Condition::ComparisonObservable =>
                "a comparison with an observable effect runs here and need not run there".to_owned(),
            Condition::SmallInputsFavourTheCode => "the code is faster at small sizes".to_owned(),
        }
    }
}

/// What a recommendation points to.
#[derive(Debug, Clone, PartialEq, Eq, Hash)]
pub enum LibraryTarget {
    Callable { package: String, version: String, path: String, catalog_sha256: String },
    DeriveMacro { package: String, version: String, path: String, expansion_sha256: String },
}

impl LibraryTarget {
    /// The path of what a recommendation points to.
    pub fn path(&self) -> (path: &str)
        ensures
            path@ == match self {
                LibraryTarget::Callable { path, .. } => path@,
                LibraryTarget::DeriveMacro { path, .. } => path@,
            },
    {
        match self {
            LibraryTarget::Callable { path, .. } => path.as_str(),
            LibraryTarget::DeriveMacro { path, .. } => path.as_str(),
        }
    }
}

/// What a library callable does.
#[derive(Debug, Clone, PartialEq, Eq, Hash)]
pub struct DerivedLibraryBehavior {
    pub schema: u32,
    pub callable_package: String,
    pub callable_version: String,
    pub callable_path: String,
    pub catalog_sha256: String,
    pub implementation: Vec<ImplementationEvidence>,
    pub program: Form,
}

/// Where a library callable is implemented.
#[derive(Debug, Clone, PartialEq, Eq, Hash)]
pub struct ImplementationEvidence {
    pub callable_path: String,
    pub span: SourceSpan,
    pub source_sha256: String,
}

/// What a derive macro generates.
#[derive(Debug, Clone, PartialEq, Eq, Hash)]
pub struct DerivedMacroBehavior {
    pub schema: u32,
    pub macro_package: String,
    pub macro_version: String,
    pub derive_path: String,
    pub probe_source_sha256: String,
    pub expansion_sha256: String,
    pub behavior: MacroBehavior,
}

/// What the code of a derive macro does.
#[derive(Debug, Clone, Copy, PartialEq, Eq, Hash, Structural)]
pub enum MacroBehavior {
    EnumDisplay { case: StringCase },
    EnumAsRefStr { case: StringCase },
    EnumVariantArray,
}

/// How words are joined in a spelling.
#[derive(Debug, Clone, Copy, PartialEq, Eq, PartialOrd, Ord, Hash, Structural)]
pub enum StringCase {
    Kebab,
    Snake,
}

} // verus!
