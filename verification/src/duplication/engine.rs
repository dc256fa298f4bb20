//! Which places of which files hold the same tokens.
//!
//! Every run of so many tokens is a window, and windows with the same digest
//! are joined in pairs. Pairs that follow one another on both sides are one
//! longer match.

use super::matches::{
    law_reported_matches_are_maximal, maximal, maximal_matches, CloneMatch, MatchView,
};
use super::token::{
    changed_token_count, changed_tokens, identity, normalized_token_digest,
    normalized_token_identity, same_bytes, same_tokens, token_digest, token_views, unit_views,
    Normalization, SyntaxToken, TokenView, TokenizedFile, UnitView, numbered,
};
use super::Error;
use crate::digest::sha256_text;
use crate::facts::{evidence_order, long_compared, settled, EvidenceView, SourceSpan, SpanView};
use crate::ordering::{
    ascends, keys, lemma_ascending_distinct, lemma_ascending_unique, lemma_settles, settled_list,
    settled_of, Ordered,
};
use crate::paths::{components, same_path};
use crate::text::{
    lemma_text_order_total, number_order, same_text, settled_by, text_compared, text_order,
    Comparison,
};
use vstd::prelude::*;

verus! {

/// How tokens are compared.
#[derive(Debug, Clone, Copy, PartialEq, Eq, Structural)]
pub enum MatchMode {
    Exact,
    Near { normalization: Normalization, max_changed_percent: u8 },
}

/// The content of a [`TokenizedFile`].
pub struct FileView {
    pub path: Seq<Seq<char>>,
    pub domain: Seq<char>,
    pub evidence: EvidenceView,
    pub tokens: Seq<TokenView>,
    pub units: Seq<UnitView>,
}

impl View for TokenizedFile {
    type V = FileView;

    open spec fn view(&self) -> FileView {
        FileView {
            path: components(self.path@),
            domain: self.comparison_domain@,
            evidence: self.evidence@,
            tokens: token_views(self.tokens@),
            units: unit_views(self.units@),
        }
    }
}

/// The contents of files.
pub open spec fn file_views(files: Seq<TokenizedFile>) -> Seq<FileView> {
    Seq::new(files.len(), |i: int| files[i]@)
}

/// Whether the lines of every token count from one.
pub open spec fn lines_from_one(file: FileView) -> bool {
    forall|i: int| 0 <= i < file.tokens.len() ==> (#[trigger] file.tokens[i]).start_line > 0
}

/// The content of an engine.
pub struct EngineView {
    pub min_tokens: u32,
    pub min_lines: u32,
    pub mode: MatchMode,
    pub files: Seq<FileView>,
}

/// What of a token is compared only up to renaming.
pub open spec fn normalization_of(mode: MatchMode) -> Option<Normalization> {
    match mode {
        MatchMode::Exact => None,
        MatchMode::Near { normalization, .. } => Some(normalization),
    }
}

/// Two windows, each by its file and its first token.
pub struct PairView {
    pub left_file: int,
    pub left_start: int,
    pub right_file: int,
    pub right_start: int,
}

/// Whether a window begins at a token of a file.
pub open spec fn has_window(engine: EngineView, file: int, start: int) -> bool {
    &&& 0 <= file < engine.files.len()
    &&& 0 <= start
    &&& start + engine.min_tokens <= engine.files[file].tokens.len()
}

/// The digest of the window that begins at a token.
pub open spec fn window_digest(engine: EngineView, file: int, start: int) -> Seq<char> {
    sha256_text(
        identity(
            engine.files[file].tokens.subrange(start, start + engine.min_tokens),
            normalization_of(engine.mode),
        ),
    )
}

/// Whether two windows are joined: they are of the same language, their digests
/// agree, the left one comes first, and they do not overlap.
pub open spec fn is_pair(engine: EngineView, pair: PairView) -> bool {
    &&& has_window(engine, pair.left_file, pair.left_start)
    &&& has_window(engine, pair.right_file, pair.right_start)
    &&& engine.files[pair.left_file].domain == engine.files[pair.right_file].domain
    &&& window_digest(engine, pair.left_file, pair.left_start) == window_digest(
        engine,
        pair.right_file,
        pair.right_start,
    )
    &&& pair.left_file < pair.right_file || (pair.left_file == pair.right_file
        && pair.left_start < pair.right_start)
    &&& pair.left_file != pair.right_file || pair.left_start + engine.min_tokens
        <= pair.right_start
}

/// How two pairs compare: by the files they join, by how far apart they stand,
/// and by where they begin.
pub open spec fn pair_order(left: PairView, right: PairView) -> Comparison {
    settled_by(
        number_order(left.left_file, right.left_file),
        settled_by(
            number_order(left.right_file, right.right_file),
            settled_by(
                number_order(
                    left.right_start - left.left_start,
                    right.right_start - right.left_start,
                ),
                number_order(left.left_start, right.left_start),
            ),
        ),
    )
}

/// Two windows, each by its file and its first token.
#[derive(Debug, Clone, Copy, PartialEq, Eq, Structural)]
pub struct WindowPair {
    pub left_file: usize,
    pub left_start: usize,
    pub right_file: usize,
    pub right_start: usize,
}

impl View for WindowPair {
    type V = PairView;

    open spec fn view(&self) -> PairView {
        PairView {
            left_file: self.left_file as int,
            left_start: self.left_start as int,
            right_file: self.right_file as int,
            right_start: self.right_start as int,
        }
    }
}

/// How two distances compare.
fn distance_compared(left: &WindowPair, right: &WindowPair) -> (order: Comparison)
    ensures
        order == number_order(
            left@.right_start - left@.left_start,
            right@.right_start - right@.left_start,
        ),
{
    let left_distance: i128 = left.right_start as i128 - left.left_start as i128;
    let right_distance: i128 = right.right_start as i128 - right.left_start as i128;
    if left_distance < right_distance {
        Comparison::Less
    } else if left_distance == right_distance {
        Comparison::Equal
    } else {
        Comparison::Greater
    }
}

impl Ordered for WindowPair {
    type Key = PairView;

    open spec fn key(&self) -> PairView {
        self@
    }

    open spec fn order(left: PairView, right: PairView) -> Comparison {
        pair_order(left, right)
    }

    proof fn order_is_total(first: PairView, second: PairView, third: PairView) {
    }

    fn ordered(&self, other: &Self) -> (order: Comparison) {
        settled(
            long_compared(self.left_file as u64, other.left_file as u64),
            settled(
                long_compared(self.right_file as u64, other.right_file as u64),
                settled(
                    distance_compared(self, other),
                    long_compared(self.left_start as u64, other.left_start as u64),
                ),
            ),
        )
    }
}

/// Whether a list holds every pair of windows that are joined, in order.
pub open spec fn lists_pairs(engine: EngineView, pairs: Seq<PairView>) -> bool {
    &&& ascends::<WindowPair>(pairs)
    &&& forall|pair: PairView| #[trigger] pairs.contains(pair) <==> is_pair(engine, pair)
}

/// The pairs of windows that are joined, in order.
pub open spec fn pairs_of(engine: EngineView) -> Seq<PairView> {
    choose|pairs: Seq<PairView>| lists_pairs(engine, pairs)
}

/// There is one such list.
proof fn lemma_pairs_of(engine: EngineView, pairs: Seq<PairView>)
    requires
        lists_pairs(engine, pairs),
    ensures
        pairs_of(engine) == pairs,
{
    let other = pairs_of(engine);
    assert(lists_pairs(engine, other));
    assert forall|pair: PairView| pairs.contains(pair) <==> other.contains(pair) by {
        assert(pairs.contains(pair) <==> is_pair(engine, pair));
        assert(other.contains(pair) <==> is_pair(engine, pair));
    }
    lemma_ascending_unique::<WindowPair>(pairs, other);
}

/// A run of pairs that follow one another on both sides.
pub struct RunView {
    pub first: PairView,
    pub last: PairView,
}

/// Whether a pair follows the last of a run on both sides.
pub open spec fn continues(run: RunView, pair: PairView) -> bool {
    &&& run.last.left_file == pair.left_file
    &&& run.last.right_file == pair.right_file
    &&& run.last.left_start + 1 == pair.left_start
    &&& run.last.right_start + 1 == pair.right_start
}

/// The runs that the first so many pairs make.
pub open spec fn runs_upto(pairs: Seq<PairView>, n: int) -> Seq<RunView>
    decreases n,
{
    if n <= 0 || n > pairs.len() {
        Seq::empty()
    } else {
        let before = runs_upto(pairs, n - 1);
        let pair = pairs[n - 1];
        if before.len() > 0 && continues(before.last(), pair) {
            before.drop_last().push(RunView { first: before.last().first, last: pair })
        } else {
            before.push(RunView { first: pair, last: pair })
        }
    }
}

/// The runs of pairs.
pub open spec fn runs_of(pairs: Seq<PairView>) -> Seq<RunView> {
    runs_upto(pairs, pairs.len() as int)
}

/// The place some tokens cover.
pub open spec fn tokens_span(path: Seq<Seq<char>>, tokens: Seq<TokenView>) -> SpanView {
    SpanView {
        path,
        start_byte: Some(tokens[0].start_byte),
        end_byte: Some(tokens.last().end_byte),
        start_line: tokens[0].start_line,
        end_line: tokens.last().end_line,
        start_column: None,
        end_column: None,
    }
}

/// How many lines a span covers.
pub open spec fn lines_in(span: SpanView) -> int {
    if span.start_line <= span.end_line {
        span.end_line - span.start_line + 1
    } else {
        1
    }
}

/// Whether a unit covers a place.
pub open spec fn unit_covers(unit: UnitView, start: u64, end: u64) -> bool {
    unit.start_byte <= start && unit.end_byte >= end
}

/// How long a unit is.
pub open spec fn unit_length(unit: UnitView) -> int {
    if unit.end_byte >= unit.start_byte {
        unit.end_byte - unit.start_byte
    } else {
        0
    }
}

/// Whether a unit is the shortest, and of those the first, that covers a place.
pub open spec fn is_tightest(units: Seq<UnitView>, i: int, start: u64, end: u64) -> bool {
    &&& 0 <= i < units.len()
    &&& unit_covers(units[i], start, end)
    &&& forall|j: int|
        0 <= j < units.len() && unit_covers(#[trigger] units[j], start, end) ==> unit_length(
            units[i],
        ) < unit_length(units[j]) || (unit_length(units[i]) == unit_length(units[j]) && i <= j)
}

/// The place of the unit that a match is part of: the tightest that covers it,
/// or else the match itself.
pub open spec fn unit_of(file: FileView, span: SpanView) -> SpanView {
    match (span.start_byte, span.end_byte) {
        (Some(start), Some(end)) => if exists|i: int| is_tightest(file.units, i, start, end) {
            let unit = file.units[choose|i: int| is_tightest(file.units, i, start, end)];
            SpanView {
                path: file.path,
                start_byte: Some(unit.start_byte),
                end_byte: Some(unit.end_byte),
                start_line: unit.start_line,
                end_line: unit.end_line,
                start_column: None,
                end_column: None,
            }
        } else {
            span
        },
        _ => span,
    }
}

/// How many tokens of two lists differ, where they are compared so, and the
/// digest of what they share; none where they are not the same.
pub open spec fn agreement(mode: MatchMode, left: Seq<TokenView>, right: Seq<TokenView>) -> Option<
    (u32, Seq<char>),
> {
    match mode {
        MatchMode::Exact => if changed_tokens(left, right) == 0 {
            Some((0, sha256_text(identity(left, None))))
        } else {
            None
        },
        MatchMode::Near { normalization, max_changed_percent } => {
            let changed = if changed_tokens(left, right) <= u32::MAX {
                changed_tokens(left, right)
            } else {
                u32::MAX as nat
            };
            if identity(left, Some(normalization)) == identity(right, Some(normalization))
                && changed != 0 && changed * 100 <= left.len() * max_changed_percent {
                Some((changed as u32, sha256_text(identity(left, Some(normalization)))))
            } else {
                None
            }
        },
    }
}

/// How many tokens a run covers on each side.
pub open spec fn run_length(engine: EngineView, run: RunView) -> int {
    run.last.left_start - run.first.left_start + engine.min_tokens
}

/// The tokens from a place on.
pub open spec fn tokens_from(engine: EngineView, file: int, start: int, length: int) -> Seq<
    TokenView,
> {
    engine.files[file].tokens.subrange(start, start + length)
}

/// The match a run makes, where it makes one: its tokens agree, its two sides do
/// not overlap, and each covers enough lines.
pub open spec fn match_of(engine: EngineView, run: RunView) -> Option<MatchView> {
    let length = run_length(engine, run);
    let left_file = engine.files[run.first.left_file];
    let right_file = engine.files[run.first.right_file];
    let left_tokens = tokens_from(engine, run.first.left_file, run.first.left_start, length);
    let right_tokens = tokens_from(engine, run.first.right_file, run.first.right_start, length);
    let left = tokens_span(left_file.path, left_tokens);
    let right = tokens_span(right_file.path, right_tokens);
    let overlapping = run.first.left_file == run.first.right_file && run.first.left_start
        < run.first.right_start + length && run.first.right_start < run.first.left_start + length;
    match agreement(engine.mode, left_tokens, right_tokens) {
        Some((changed, signature)) => if length > u32::MAX || overlapping || lines_in(left)
            < engine.min_lines || lines_in(right) < engine.min_lines {
            None
        } else {
            let sorted = evidence_order(left_file.evidence, right_file.evidence)
                != Comparison::Greater;
            Some(
                MatchView {
                    left,
                    right,
                    left_unit: unit_of(left_file, left),
                    right_unit: unit_of(right_file, right),
                    tokens: length as u32,
                    changed_tokens: changed,
                    signature_sha256: signature,
                    first_input: if sorted {
                        left_file.evidence
                    } else {
                        right_file.evidence
                    },
                    second_input: if sorted {
                        right_file.evidence
                    } else {
                        left_file.evidence
                    },
                },
            )
        },
        None => None,
    }
}

/// The matches that the first so many runs make.
pub open spec fn matches_upto(engine: EngineView, runs: Seq<RunView>, n: int) -> Seq<MatchView>
    decreases n,
{
    if n <= 0 || n > runs.len() {
        Seq::empty()
    } else {
        let before = matches_upto(engine, runs, n - 1);
        match match_of(engine, runs[n - 1]) {
            Some(matched) => before.push(matched),
            None => before,
        }
    }
}

/// All the matches that an engine finds, in order.
pub open spec fn found_matches(engine: EngineView) -> Seq<MatchView> {
    let runs = runs_of(pairs_of(engine));
    settled_of::<CloneMatch>(matches_upto(engine, runs, runs.len() as int))
}

/// The matches that an engine reports.
pub open spec fn reported_matches(engine: EngineView) -> Seq<MatchView> {
    maximal(found_matches(engine))
}

/// The first file of a path.
pub open spec fn place_of_path(files: Seq<FileView>, path: Seq<Seq<char>>, i: int) -> Option<int>
    decreases files.len() - i,
{
    if i < 0 || i >= files.len() {
        None
    } else if files[i].path == path {
        Some(i)
    } else {
        place_of_path(files, path, i + 1)
    }
}

/// Files after one was replaced, or added where none had its path.
pub open spec fn with_file(files: Seq<FileView>, file: FileView) -> Seq<FileView> {
    match place_of_path(files, file.path, 0) {
        Some(i) => files.update(i, file),
        None => files.push(file),
    }
}

/// A window: the language and digest it is joined by, and where it begins.
struct Window {
    domain: String,
    digest: String,
    file: usize,
    start: usize,
}

/// The content of a [`Window`].
struct WindowView {
    domain: Seq<char>,
    digest: Seq<char>,
    file: int,
    start: int,
}

/// How two windows compare: by what they are joined by, and then by where they
/// begin.
spec fn window_order(left: WindowView, right: WindowView) -> Comparison {
    settled_by(
        text_order(left.domain, right.domain),
        settled_by(
            text_order(left.digest, right.digest),
            settled_by(
                number_order(left.file, right.file),
                number_order(left.start, right.start),
            ),
        ),
    )
}

impl Ordered for Window {
    type Key = WindowView;

    closed spec fn key(&self) -> WindowView {
        WindowView {
            domain: self.domain@,
            digest: self.digest@,
            file: self.file as int,
            start: self.start as int,
        }
    }

    closed spec fn order(left: WindowView, right: WindowView) -> Comparison {
        window_order(left, right)
    }

    proof fn order_is_total(first: WindowView, second: WindowView, third: WindowView) {
        lemma_text_order_total(first.domain, second.domain, third.domain);
        lemma_text_order_total(first.digest, second.digest, third.digest);
    }

    fn ordered(&self, other: &Self) -> (order: Comparison) {
        settled(
            text_compared(self.domain.as_str(), other.domain.as_str()),
            settled(
                text_compared(self.digest.as_str(), other.digest.as_str()),
                settled(
                    long_compared(self.file as u64, other.file as u64),
                    long_compared(self.start as u64, other.start as u64),
                ),
            ),
        )
    }
}

/// Whether two windows are joined by the same thing.
spec fn same_group(left: WindowView, right: WindowView) -> bool {
    left.domain == right.domain && left.digest == right.digest
}

/// In an ascending list, whatever stands between two windows of a group is of
/// the group.
proof fn lemma_group_between(windows: Seq<WindowView>, a: int, k: int, b: int)
    requires
        ascends::<Window>(windows),
        0 <= a < k < b < windows.len(),
        same_group(windows[a], windows[b]),
    ensures
        same_group(windows[a], windows[k]),
{
    assert(Window::order(windows[a], windows[k]) == Comparison::Less);
    assert(Window::order(windows[k], windows[b]) == Comparison::Less);
    lemma_text_order_total(windows[a].domain, windows[k].domain, windows[b].domain);
    lemma_text_order_total(windows[k].domain, windows[b].domain, windows[a].domain);
    lemma_text_order_total(windows[a].domain, windows[b].domain, windows[a].domain);
    lemma_text_order_total(windows[a].digest, windows[k].digest, windows[b].digest);
    lemma_text_order_total(windows[k].digest, windows[b].digest, windows[a].digest);
    lemma_text_order_total(windows[a].digest, windows[b].digest, windows[a].digest);
}

/// Within a group, windows ascend by where they begin.
proof fn lemma_group_order(left: WindowView, right: WindowView)
    requires
        same_group(left, right),
    ensures
        Window::order(left, right) == Comparison::Less <==> left.file < right.file || (left.file
            == right.file && left.start < right.start),
{
    lemma_text_order_total(left.domain, right.domain, left.domain);
    lemma_text_order_total(left.digest, right.digest, left.digest);
}

/// Whether two windows of a list are joined.
spec fn joined_at(windows: Seq<WindowView>, a: int, b: int, size: int) -> bool {
    &&& 0 <= a < b < windows.len()
    &&& same_group(windows[a], windows[b])
    &&& windows[a].file != windows[b].file || windows[a].start + size <= windows[b].start
}

/// The pair that two windows of a list make.
spec fn pair_at(windows: Seq<WindowView>, a: int, b: int) -> PairView {
    PairView {
        left_file: windows[a].file,
        left_start: windows[a].start,
        right_file: windows[b].file,
        right_start: windows[b].start,
    }
}

/// Whether a pair is made by windows of which the first stands before a place,
/// or at it and the second before another.
spec fn made_before(windows: Seq<WindowView>, i: int, j: int, size: int, pair: PairView) -> bool {
    exists|a: int, b: int|
        #[trigger] joined_at(windows, a, b, size) && pair == pair_at(windows, a, b) && (a < i || (a
            == i && b < j))
}

/// The window of an engine that begins at a token.
spec fn window_at(engine: EngineView, file: int, start: int) -> WindowView {
    WindowView {
        domain: engine.files[file].domain,
        digest: window_digest(engine, file, start),
        file,
        start,
    }
}

/// Whether a list holds every window of an engine and nothing else.
spec fn lists_windows(engine: EngineView, windows: Seq<WindowView>) -> bool {
    forall|window: WindowView| #[trigger]
        windows.contains(window) <==> has_window(engine, window.file, window.start) && window
            == window_at(engine, window.file, window.start)
}

/// The pairs made by the windows of an engine are the pairs that are joined.
proof fn lemma_made_is_pair(engine: EngineView, windows: Seq<WindowView>, pair: PairView)
    requires
        ascends::<Window>(windows),
        lists_windows(engine, windows),
    ensures
        made_before(windows, windows.len() as int, 0, engine.min_tokens as int, pair) <==> is_pair(
            engine,
            pair,
        ),
{
    let size = engine.min_tokens as int;
    let n = windows.len() as int;
    if made_before(windows, n, 0, size, pair) {
        let (a, b) = choose|a: int, b: int|
            #[trigger] joined_at(windows, a, b, size) && pair == pair_at(windows, a, b) && (a < n
                || (a == n && b < 0));
        assert(windows.contains(windows[a]));
        assert(windows.contains(windows[b]));
        assert(Window::order(windows[a], windows[b]) == Comparison::Less);
        lemma_group_order(windows[a], windows[b]);
    }
    if is_pair(engine, pair) {
        let left = window_at(engine, pair.left_file, pair.left_start);
        let right = window_at(engine, pair.right_file, pair.right_start);
        assert(windows.contains(left));
        assert(windows.contains(right));
        let a = choose|a: int| 0 <= a < windows.len() && windows[a] == left;
        let b = choose|b: int| 0 <= b < windows.len() && windows[b] == right;
        lemma_group_order(left, right);
        lemma_group_order(right, left);
        if b < a {
            assert(Window::order(windows[b], windows[a]) == Comparison::Less);
        }
        assert(joined_at(windows, a, b, size));
    }
}

/// The pairs that windows make, in no order.
fn join_windows(windows: &Vec<Window>, size: usize) -> (pairs: Vec<WindowPair>)
    requires
        ascends::<Window>(keys(windows@)),
        forall|k: int|
            0 <= k < windows@.len() ==> (#[trigger] windows@[k]).start + size <= usize::MAX,
    ensures
        forall|pair: PairView| #[trigger]
            keys(pairs@).contains(pair) <==> made_before(
                keys(windows@),
                windows@.len() as int,
                0,
                size as int,
                pair,
            ),
{
    let ghost views = keys(windows@);
    let mut pairs: Vec<WindowPair> = Vec::new();
    let mut i: usize = 0;
    assert forall|pair: PairView| #[trigger] keys(pairs@).contains(pair) <==> made_before(
        views,
        0,
        0,
        size as int,
        pair,
    ) by {}
    while i < windows.len()
        invariant
            i <= windows@.len(),
            views == keys(windows@),
            ascends::<Window>(views),
            forall|k: int|
                0 <= k < windows@.len() ==> (#[trigger] windows@[k]).start + size <= usize::MAX,
            forall|pair: PairView| #[trigger]
                keys(pairs@).contains(pair) <==> made_before(views, i as int, 0, size as int, pair),
        decreases windows@.len() - i,
    {
        let mut j: usize = i + 1;
        let mut grouped = true;
        proof {
            assert forall|pair: PairView| #[trigger] keys(pairs@).contains(pair) <==> made_before(
                views,
                i as int,
                j as int,
                size as int,
                pair,
            ) by {
                assert(made_before(views, i as int, 0, size as int, pair) <==> made_before(
                    views,
                    i as int,
                    j as int,
                    size as int,
                    pair,
                ));
            }
        }
        while j < windows.len() && grouped
            invariant
                i < j <= windows@.len(),
                views == keys(windows@),
                ascends::<Window>(views),
                forall|k: int|
                    0 <= k < windows@.len() ==> (#[trigger] windows@[k]).start + size
                        <= usize::MAX,
                !grouped ==> forall|b: int|
                    j <= b < views.len() ==> !same_group(views[i as int], #[trigger] views[b]),
                forall|pair: PairView| #[trigger]
                    keys(pairs@).contains(pair) <==> made_before(
                        views,
                        i as int,
                        j as int,
                        size as int,
                        pair,
                    ),
            decreases windows@.len() - j,
                if grouped {
                    1int
                } else {
                    0
                },
        {
            let left = &windows[i];
            let right = &windows[j];
            assert(views[i as int] == left.key());
            assert(views[j as int] == right.key());
            if !(same_text(left.domain.as_str(), right.domain.as_str()) && same_text(
                left.digest.as_str(),
                right.digest.as_str(),
            )) {
                proof {
                    assert forall|b: int| j <= b < views.len() implies !same_group(
                        views[i as int],
                        #[trigger] views[b],
                    ) by {
                        if same_group(views[i as int], views[b]) && j < b {
                            lemma_group_between(views, i as int, j as int, b);
                        }
                    }
                }
                grouped = false;
            } else {
                let ghost before = pairs@;
                assert(windows@[i as int].start + size <= usize::MAX);
                let apart = left.file != right.file || left.start + size <= right.start;
                if apart {
                    let pair = WindowPair {
                        left_file: left.file,
                        left_start: left.start,
                        right_file: right.file,
                        right_start: right.start,
                    };
                    pairs.push(pair);
                    assert(keys(pairs@) =~= keys(before).push(pair@));
                    assert(joined_at(views, i as int, j as int, size as int));
                    assert(pair@ == pair_at(views, i as int, j as int));
                }
                proof {
                    assert forall|pair: PairView| #[trigger]
                        keys(pairs@).contains(pair) <==> made_before(
                        views,
                        i as int,
                        j + 1,
                        size as int,
                        pair,
                    ) by {
                        lemma_made_step(
                            views,
                            i as int,
                            j as int,
                            size as int,
                            pair,
                        );
                        assert(keys(before).contains(pair) <==> made_before(
                            views,
                            i as int,
                            j as int,
                            size as int,
                            pair,
                        ));
                        if apart {
                            lemma_pair_pushed(
                                keys(before),
                                pair_at(views, i as int, j as int),
                                pair,
                            );
                        }
                    }
                }
                j += 1;
            }
        }
        proof {
            assert forall|pair: PairView| #[trigger] keys(pairs@).contains(pair) <==> made_before(
                views,
                i + 1,
                0,
                size as int,
                pair,
            ) by {
                if made_before(views, i + 1, 0, size as int, pair) {
                    let (a, b) = choose|a: int, b: int|
                        #[trigger] joined_at(views, a, b, size as int) && pair == pair_at(
                            views,
                            a,
                            b,
                        ) && (a < i + 1 || (a == i + 1 && b < 0));
                    assert(joined_at(views, a, b, size as int));
                    if a == i && b >= j {
                        assert(!same_group(views[i as int], views[b]));
                    }
                    assert(made_before(views, i as int, j as int, size as int, pair));
                }
                if made_before(views, i as int, j as int, size as int, pair) {
                    let (a, b) = choose|a: int, b: int|
                        #[trigger] joined_at(views, a, b, size as int) && pair == pair_at(
                            views,
                            a,
                            b,
                        ) && (a < i || (a == i && b < j));
                    assert(joined_at(views, a, b, size as int));
                }
            }
        }
        i += 1;
    }
    pairs
}

/// What a list of pairs holds after a push.
proof fn lemma_pair_pushed(list: Seq<PairView>, item: PairView, key: PairView)
    ensures
        list.push(item).contains(key) <==> key == item || list.contains(key),
{
    let after = list.push(item);
    if after.contains(key) {
        let k = choose|k: int| 0 <= k < after.len() && after[k] == key;
        if k < list.len() {
            assert(list[k] == key);
        }
    }
    if list.contains(key) {
        let k = choose|k: int| 0 <= k < list.len() && list[k] == key;
        assert(after[k] == key);
    }
    assert(after[list.len() as int] == item);
}

/// Going one window further adds at most the pair it makes.
proof fn lemma_made_step(windows: Seq<WindowView>, i: int, j: int, size: int, pair: PairView)
    requires
        0 <= i < j < windows.len(),
    ensures
        made_before(windows, i, j + 1, size, pair) <==> made_before(windows, i, j, size, pair) || (
        joined_at(windows, i, j, size) && pair == pair_at(windows, i, j)),
{
    if made_before(windows, i, j + 1, size, pair) {
        let (a, b) = choose|a: int, b: int|
            #[trigger] joined_at(windows, a, b, size) && pair == pair_at(windows, a, b) && (a < i
                || (a == i && b < j + 1));
        assert(joined_at(windows, a, b, size));
    }
    if made_before(windows, i, j, size, pair) {
        let (a, b) = choose|a: int, b: int|
            #[trigger] joined_at(windows, a, b, size) && pair == pair_at(windows, a, b) && (a < i
                || (a == i && b < j));
        assert(joined_at(windows, a, b, size));
    }
}

/// Some tokens, copied.
fn copied_tokens(tokens: &Vec<SyntaxToken>, start: usize, end: usize) -> (copies: Vec<SyntaxToken>)
    requires
        start <= end <= tokens@.len(),
    ensures
        token_views(copies@) == token_views(tokens@).subrange(start as int, end as int),
{
    let ghost views = token_views(tokens@);
    let mut copies: Vec<SyntaxToken> = Vec::new();
    let mut i: usize = start;
    assert(token_views(copies@) =~= views.subrange(start as int, start as int));
    while i < end
        invariant
            start <= i <= end <= tokens@.len(),
            views == token_views(tokens@),
            token_views(copies@) == views.subrange(start as int, i as int),
        decreases end - i,
    {
        let token = &tokens[i];
        let ghost before = copies@;
        let copy = SyntaxToken {
            ordinal: token.ordinal,
            kind: token.kind.clone(),
            lexeme: crate::syntax::bytes_between(&token.lexeme, 0, token.lexeme.len()),
            class: token.class,
            start_byte: token.start_byte,
            end_byte: token.end_byte,
            start_line: token.start_line,
            end_line: token.end_line,
        };
        copies.push(copy);
        proof {
            assert(copy.lexeme@ =~= token.lexeme@);
            assert(views[i as int] == copy@);
            assert(token_views(copies@) =~= token_views(before).push(copy@));
            assert(views.subrange(start as int, i + 1) =~= views.subrange(
                start as int,
                i as int,
            ).push(views[i as int]));
        }
        i += 1;
    }
    copies
}

/// The digest of some tokens.
fn digest_of(mode: MatchMode, tokens: &Vec<SyntaxToken>) -> (digest: String)
    ensures
        digest@ == sha256_text(identity(token_views(tokens@), normalization_of(mode))),
{
    match mode {
        MatchMode::Exact => token_digest(tokens),
        MatchMode::Near { normalization, .. } => normalized_token_digest(tokens, normalization),
    }
}

/// The place some tokens cover.
fn span_of(path: &String, tokens: &Vec<SyntaxToken>) -> (span: SourceSpan)
    requires
        tokens@.len() > 0,
    ensures
        span@ == tokens_span(components(path@), token_views(tokens@)),
        span.path@ == path@,
{
    let last: usize = tokens.len() - 1;
    assert(token_views(tokens@)[0] == tokens@[0]@);
    assert(token_views(tokens@)[last as int] == tokens@[last as int]@);
    SourceSpan {
        path: path.clone(),
        start_byte: Some(tokens[0].start_byte),
        end_byte: Some(tokens[last].end_byte),
        start_line: tokens[0].start_line,
        end_line: tokens[last].end_line,
        start_column: None,
        end_column: None,
    }
}

/// The place of the unit that a match is part of.
fn comparison_unit(file: &TokenizedFile, matched: &SourceSpan) -> (unit: SourceSpan)
    ensures
        unit@ == unit_of(file@, matched@),
{
    let (start, end) = match matched.byte_range() {
        Some(range) => range,
        None => {
            return matched.clone();
        },
    };
    let ghost units = unit_views(file.units@);
    let mut best: Option<usize> = None;
    let mut best_length: u64 = 0;
    let mut i: usize = 0;
    while i < file.units.len()
        invariant
            i <= file.units@.len(),
            units == unit_views(file.units@),
            match best {
                Some(place) => {
                    &&& place < i
                    &&& unit_covers(units[place as int], start, end)
                    &&& best_length == unit_length(units[place as int])
                    &&& forall|j: int|
                        0 <= j < i && unit_covers(#[trigger] units[j], start, end)
                            ==> unit_length(units[place as int]) < unit_length(units[j]) || (
                        unit_length(units[place as int]) == unit_length(units[j]) && place <= j)
                },
                None => forall|j: int|
                    0 <= j < i ==> !unit_covers(#[trigger] units[j], start, end),
            },
        decreases file.units@.len() - i,
    {
        let unit = &file.units[i];
        assert(units[i as int] == unit@);
        if unit.start_byte <= start && unit.end_byte >= end {
            let length: u64 = if unit.end_byte >= unit.start_byte {
                unit.end_byte - unit.start_byte
            } else {
                0
            };
            let better = match best {
                Some(_) => length < best_length,
                None => true,
            };
            if better {
                best = Some(i);
                best_length = length;
            }
        }
        i += 1;
    }
    match best {
        Some(place) => {
            proof {
                assert(is_tightest(units, place as int, start, end));
                let other = choose|k: int| is_tightest(units, k, start, end);
                assert(unit_covers(units[other], start, end));
                assert(unit_covers(units[place as int], start, end));
                assert(units[place as int] == file.units@[place as int]@);
            }
            let unit = &file.units[place];
            SourceSpan {
                path: file.path.clone(),
                start_byte: Some(unit.start_byte),
                end_byte: Some(unit.end_byte),
                start_line: unit.start_line,
                end_line: unit.end_line,
                start_column: None,
                end_column: None,
            }
        },
        None => {
            proof {
                assert forall|k: int| !is_tightest(units, k, start, end) by {
                    if is_tightest(units, k, start, end) {
                        assert(unit_covers(units[k], start, end));
                    }
                }
            }
            matched.clone()
        },
    }
}

/// How many tokens of two lists differ, and the digest of what they share.
fn agreed(mode: MatchMode, left: &Vec<SyntaxToken>, right: &Vec<SyntaxToken>) -> (agreed: Option<
    (u32, String),
>)
    requires
        left@.len() == right@.len(),
        left@.len() <= u32::MAX,
    ensures
        match agreed {
            Some((changed, signature)) => agreement(
                mode,
                token_views(left@),
                token_views(right@),
            ) == Some((changed, signature@)),
            None => agreement(mode, token_views(left@), token_views(right@)) is None,
        },
{
    match mode {
        MatchMode::Exact => if same_tokens(left, right) {
            Some((0, token_digest(left)))
        } else {
            None
        },
        MatchMode::Near { normalization, max_changed_percent } => {
            if !same_bytes(
                &normalized_token_identity(left, normalization),
                &normalized_token_identity(right, normalization),
            ) {
                return None;
            }
            let changed = changed_token_count(left, right);
            let count: u64 = left.len() as u64;
            let percent: u64 = max_changed_percent as u64;
            assert(count * percent <= 0xffff_ffff * 255) by (nonlinear_arith)
                requires
                    count <= 0xffff_ffff,
                    percent <= 255,
            ;
            assert(count * percent == left@.len() * max_changed_percent) by (nonlinear_arith)
                requires
                    count == left@.len(),
                    percent == max_changed_percent,
            ;
            if changed == 0 || changed as u64 * 100 > count * percent {
                return None;
            }
            Some((changed, normalized_token_digest(left, normalization)))
        },
    }
}

/// A run of pairs that follow one another on both sides.
#[derive(Clone, Copy)]
struct Run {
    first: WindowPair,
    last: WindowPair,
}

/// The contents of runs.
spec fn run_views(runs: Seq<Run>) -> Seq<RunView> {
    Seq::new(runs.len(), |i: int| RunView { first: runs[i].first@, last: runs[i].last@ })
}

/// The runs of pairs.
fn runs_in(pairs: &Vec<WindowPair>) -> (runs: Vec<Run>)
    ensures
        run_views(runs@) == runs_of(keys(pairs@)),
{
    let ghost views = keys(pairs@);
    let mut runs: Vec<Run> = Vec::new();
    let mut i: usize = 0;
    assert(run_views(runs@) =~= runs_upto(views, 0));
    while i < pairs.len()
        invariant
            i <= pairs@.len(),
            views == keys(pairs@),
            run_views(runs@) == runs_upto(views, i as int),
        decreases pairs@.len() - i,
    {
        let pair: WindowPair = pairs[i];
        assert(views[i as int] == pair@);
        let ghost before = runs@;
        let count: usize = runs.len();
        let mut extended = false;
        if count > 0 {
            let run: Run = runs[count - 1];
            assert(run_views(before).last() == RunView { first: run.first@, last: run.last@ });
            if run.last.left_file == pair.left_file && run.last.right_file == pair.right_file
                && run.last.left_start < pair.left_start && pair.left_start - run.last.left_start
                == 1 && run.last.right_start < pair.right_start && pair.right_start
                - run.last.right_start == 1 {
                runs.set(count - 1, Run { first: run.first, last: pair });
                extended = true;
                assert(run_views(runs@) =~= run_views(before).drop_last().push(
                    RunView { first: run.first@, last: pair@ },
                ));
            }
        }
        if !extended {
            runs.push(Run { first: pair, last: pair });
            assert(run_views(runs@) =~= run_views(before).push(
                RunView { first: pair@, last: pair@ },
            ));
        }
        i += 1;
    }
    runs
}

/// Whether a run begins and ends with pairs that are joined, on one diagonal.
spec fn is_run(engine: EngineView, run: RunView) -> bool {
    &&& is_pair(engine, run.first)
    &&& is_pair(engine, run.last)
    &&& run.first.left_file == run.last.left_file
    &&& run.first.right_file == run.last.right_file
    &&& run.first.left_start <= run.last.left_start
    &&& run.last.left_start - run.first.left_start == run.last.right_start - run.first.right_start
}

/// Runs of joined pairs are runs.
proof fn lemma_runs_are_runs(engine: EngineView, pairs: Seq<PairView>, n: int, k: int)
    requires
        forall|i: int| 0 <= i < pairs.len() ==> is_pair(engine, #[trigger] pairs[i]),
        0 <= n <= pairs.len(),
        0 <= k < runs_upto(pairs, n).len(),
    ensures
        is_run(engine, runs_upto(pairs, n)[k]),
    decreases n,
{
    if n > 0 {
        let before = runs_upto(pairs, n - 1);
        assert(is_pair(engine, pairs[n - 1]));
        if k < before.len() {
            lemma_runs_are_runs(engine, pairs, n - 1, k);
        }
        if before.len() > 0 {
            lemma_runs_are_runs(engine, pairs, n - 1, before.len() - 1);
        }
    }
}

/// The engine that finds clones.
pub struct ExactEngine {
    min_tokens: u32,
    min_lines: u32,
    mode: MatchMode,
    files: Vec<TokenizedFile>,
}

impl View for ExactEngine {
    type V = EngineView;

    closed spec fn view(&self) -> EngineView {
        EngineView {
            min_tokens: self.min_tokens,
            min_lines: self.min_lines,
            mode: self.mode,
            files: file_views(self.files@),
        }
    }
}

/// Why limits are refused.
pub open spec fn refused_limits(min_tokens: u32, min_lines: u32) -> Option<Seq<char>> {
    if min_tokens == 0 {
        Some("min-tokens must be greater than zero"@)
    } else if min_lines == 0 {
        Some("min-lines must be greater than zero"@)
    } else {
        None
    }
}

impl ExactEngine {
    #[verifier::type_invariant]
    spec fn valid(self) -> bool {
        &&& self.min_tokens > 0
        &&& forall|i: int| 0 <= i < self.files@.len() ==> lines_from_one(#[trigger] self.files@[i]@)
    }

    /// An engine with no files.
    pub fn with_mode(min_tokens: u32, min_lines: u32, mode: MatchMode) -> (engine: Result<
        Self,
        Error,
    >)
        ensures
            match engine {
                Ok(engine) => refused_limits(min_tokens, min_lines) is None && engine@ == (
                EngineView { min_tokens, min_lines, mode, files: Seq::empty() }),
                Err(error) => (error matches Error::InvalidConfig(reason) && refused_limits(
                    min_tokens,
                    min_lines,
                ) == Some(reason@)),
            },
    {
        if min_tokens == 0 {
            return Err(Error::InvalidConfig("min-tokens must be greater than zero".to_owned()));
        }
        if min_lines == 0 {
            return Err(Error::InvalidConfig("min-lines must be greater than zero".to_owned()));
        }
        let engine = ExactEngine { min_tokens, min_lines, mode, files: Vec::new() };
        assert(engine@.files =~= Seq::empty());
        Ok(engine)
    }

    /// Puts a file in place of the one of its path, or adds it.
    pub fn replace(&mut self, file: TokenizedFile)
        requires
            lines_from_one(file@),
            numbered(file.tokens@),
        ensures
            final(self)@ == (EngineView {
                files: with_file(old(self)@.files, file@),
                ..old(self)@
            }),
    {
        proof {
            use_type_invariant(&*self);
        }
        let ghost views = self@.files;
        let mut i: usize = 0;
        let mut place: Option<usize> = None;
        while i < self.files.len() && place.is_none()
            invariant
                i <= self.files@.len(),
                self@ == old(self)@,
                views == self@.files,
                views == file_views(self.files@),
                place is Some ==> place->0 < self.files@.len() && place_of_path(
                    views,
                    file@.path,
                    0,
                ) == Some(place->0 as int),
                place is None ==> place_of_path(views, file@.path, 0) == place_of_path(
                    views,
                    file@.path,
                    i as int,
                ),
            decreases self.files@.len() - i,
        {
            assert(views[i as int] == self.files@[i as int]@);
            if same_path(self.files[i].path.as_str(), file.path.as_str()) {
                place = Some(i);
            }
            i += 1;
        }
        let mut files: Vec<TokenizedFile> = Vec::new();
        std::mem::swap(&mut files, &mut self.files);
        let ghost before = files@;
        match place {
            Some(place) => {
                files.set(place, file);
                assert(file_views(files@) =~= views.update(place as int, file@));
            },
            None => {
                files.push(file);
                assert(file_views(files@) =~= views.push(file@));
            },
        }
        proof {
            assert forall|k: int| 0 <= k < files@.len() implies lines_from_one(
                #[trigger] files@[k]@,
            ) by {
                if k < before.len() && files@[k] == before[k] {
                    assert(lines_from_one(before[k]@));
                }
            }
        }
        self.files = files;
    }

    /// The windows of the files, in order.
    fn windows(&self) -> (windows: Vec<Window>)
        ensures
            ascends::<Window>(keys(windows@)),
            lists_windows(self@, keys(windows@)),
            forall|k: int|
                0 <= k < windows@.len() ==> (#[trigger] windows@[k]).start + self@.min_tokens
                    <= usize::MAX,
    {
        proof {
            use_type_invariant(self);
        }
        let ghost engine = self@;
        let size: usize = self.min_tokens as usize;
        let mut windows: Vec<Window> = Vec::new();
        let mut f: usize = 0;
        while f < self.files.len()
            invariant
                engine == self@,
                engine.files == file_views(self.files@),
                f <= self.files@.len(),
                size == engine.min_tokens,
                size > 0,
                windows_before(engine, keys(windows@), f as int, 0),
            decreases self.files@.len() - f,
        {
            let file = &self.files[f];
            assert(engine.files[f as int] == file@);
            let mut start: usize = 0;
            while start < file.tokens.len() && size <= file.tokens.len() - start
                invariant
                    engine == self@,
                    engine.files == file_views(self.files@),
                    f < self.files@.len(),
                    file == self.files@[f as int],
                    engine.files[f as int] == file@,
                    size == engine.min_tokens,
                    start <= file.tokens@.len(),
                    windows_before(engine, keys(windows@), f as int, start as int),
                decreases file.tokens@.len() - start,
            {
                let ghost before = keys(windows@);
                let tokens = copied_tokens(&file.tokens, start, start + size);
                let window = Window {
                    domain: file.comparison_domain.clone(),
                    digest: digest_of(self.mode, &tokens),
                    file: f,
                    start,
                };
                windows.push(window);
                proof {
                    assert(keys(windows@) =~= before.push(window.key()));
                    assert(window.key() == window_at(engine, f as int, start as int));
                    lemma_window_added(engine, before, f as int, start as int);
                }
                start += 1;
            }
            proof {
                lemma_file_done(engine, keys(windows@), f as int, start as int);
            }
            f += 1;
        }
        let ghost all = keys(windows@);
        let list = settled_list(windows);
        proof {
            assert forall|window: WindowView| #[trigger] keys(list@).contains(window) <==> has_window(
                engine,
                window.file,
                window.start,
            ) && window == window_at(engine, window.file, window.start) by {
                assert(keys(list@).contains(window) <==> all.contains(window));
                assert(all.contains(window) <==> is_window_before(
                    engine,
                    window,
                    f as int,
                    0,
                ));
            }
            assert forall|k: int| 0 <= k < list@.len() implies (#[trigger] list@[k]).start
                + engine.min_tokens <= usize::MAX by {
                let window = keys(list@)[k];
                assert(keys(list@).contains(window));
                assert(has_window(engine, window.file, window.start));
                assert(engine.files[window.file] == self.files@[window.file]@);
                lemma_tokens_len(self.files@[window.file]);
            }
        }
        list
    }
}

/// A file has no more tokens than a list can hold.
proof fn lemma_tokens_len(file: TokenizedFile)
    ensures
        file@.tokens.len() <= usize::MAX,
{
    assert(file.tokens.len() <= usize::MAX);
}

/// Whether a window belongs to a file before one, or to that file before a token.
spec fn is_window_before(engine: EngineView, window: WindowView, file: int, start: int) -> bool {
    &&& has_window(engine, window.file, window.start)
    &&& window == window_at(engine, window.file, window.start)
    &&& window.file < file || (window.file == file && window.start < start)
}

/// Whether a list holds the windows before a token of a file.
spec fn windows_before(
    engine: EngineView,
    windows: Seq<WindowView>,
    file: int,
    start: int,
) -> bool {
    forall|window: WindowView| #[trigger]
        windows.contains(window) <==> is_window_before(engine, window, file, start)
}

proof fn lemma_window_added(engine: EngineView, windows: Seq<WindowView>, file: int, start: int)
    requires
        windows_before(engine, windows, file, start),
        has_window(engine, file, start),
    ensures
        windows_before(engine, windows.push(window_at(engine, file, start)), file, start + 1),
{
    let item = window_at(engine, file, start);
    let after = windows.push(item);
    assert forall|window: WindowView| #[trigger] after.contains(window) <==> is_window_before(
        engine,
        window,
        file,
        start + 1,
    ) by {
        assert(windows.contains(window) <==> is_window_before(engine, window, file, start));
        if after.contains(window) {
            let k = choose|k: int| 0 <= k < after.len() && after[k] == window;
            if k < windows.len() {
                assert(windows[k] == window);
            }
        }
        if windows.contains(window) {
            let k = choose|k: int| 0 <= k < windows.len() && windows[k] == window;
            assert(after[k] == window);
        }
        assert(after[windows.len() as int] == item);
    }
}

proof fn lemma_file_done(engine: EngineView, windows: Seq<WindowView>, file: int, start: int)
    requires
        windows_before(engine, windows, file, start),
        !has_window(engine, file, start),
        start >= 0,
        0 <= file < engine.files.len(),
    ensures
        windows_before(engine, windows, file + 1, 0),
{
    assert forall|window: WindowView| #[trigger] windows.contains(window) <==> is_window_before(
        engine,
        window,
        file + 1,
        0,
    ) by {
        assert(windows.contains(window) <==> is_window_before(engine, window, file, start));
    }
}

impl ExactEngine {
    /// The pairs of windows that are joined, in order.
    fn pairs(&self) -> (pairs: Vec<WindowPair>)
        ensures
            keys(pairs@) == pairs_of(self@),
            lists_pairs(self@, pairs_of(self@)),
            forall|i: int| 0 <= i < pairs@.len() ==> is_pair(self@, #[trigger] keys(pairs@)[i]),
    {
        let windows = self.windows();
        let made = join_windows(&windows, self.min_tokens as usize);
        let ghost all = keys(made@);
        let pairs = settled_list(made);
        proof {
            assert forall|pair: PairView| #[trigger] keys(pairs@).contains(pair) <==> is_pair(
                self@,
                pair,
            ) by {
                assert(keys(pairs@).contains(pair) <==> all.contains(pair));
                lemma_made_is_pair(self@, keys(windows@), pair);
            }
            lemma_pairs_of(self@, keys(pairs@));
            assert forall|i: int| 0 <= i < pairs@.len() implies is_pair(
                self@,
                #[trigger] keys(pairs@)[i],
            ) by {
                assert(keys(pairs@).contains(keys(pairs@)[i]));
            }
        }
        pairs
    }

    /// The match a run makes, where it makes one.
    fn match_for_run(&self, run: &Run) -> (matched: Option<CloneMatch>)
        requires
            is_run(self@, RunView { first: run.first@, last: run.last@ }),
        ensures
            match matched {
                Some(matched) => match_of(
                    self@,
                    RunView { first: run.first@, last: run.last@ },
                ) == Some(matched@),
                None => match_of(
                    self@,
                    RunView { first: run.first@, last: run.last@ },
                ) is None,
            },
    {
        proof {
            use_type_invariant(self);
            assert(self@.files[run.first.left_file as int]
                == self.files@[run.first.left_file as int]@);
            assert(self@.files[run.first.right_file as int]
                == self.files@[run.first.right_file as int]@);
        }
        let left_file = &self.files[run.first.left_file];
        let right_file = &self.files[run.first.right_file];
        let left_start: usize = run.first.left_start;
        let right_start: usize = run.first.right_start;
        let left_count: usize = left_file.tokens.len();
        let right_count: usize = right_file.tokens.len();
        let size: usize = self.min_tokens as usize;
        let length: usize = run.last.left_start - left_start + size;
        if length as u64 > 0xffff_ffff {
            return None;
        }
        let left_end: usize = left_start + length;
        let right_end: usize = right_start + length;
        let left_tokens = copied_tokens(&left_file.tokens, left_start, left_end);
        let right_tokens = copied_tokens(&right_file.tokens, right_start, right_end);
        proof {
            assert(token_views(left_tokens@).len() == length);
            assert(token_views(right_tokens@).len() == length);
        }
        let (changed_tokens, signature_sha256) = match agreed(
            self.mode,
            &left_tokens,
            &right_tokens,
        ) {
            Some(agreed) => agreed,
            None => {
                return None;
            },
        };
        if run.first.left_file == run.first.right_file && left_start < right_end && right_start
            < left_end {
            return None;
        }
        let left = span_of(&left_file.path, &left_tokens);
        let right = span_of(&right_file.path, &right_tokens);
        proof {
            assert(lines_from_one(left_file@));
            assert(lines_from_one(right_file@));
            assert(token_views(left_tokens@)[0] == left_file@.tokens[left_start as int]);
            assert(token_views(right_tokens@)[0] == right_file@.tokens[right_start as int]);
        }
        if left.line_count() < self.min_lines || right.line_count() < self.min_lines {
            return None;
        }
        let sorted = match left_file.evidence.compared(&right_file.evidence) {
            Comparison::Greater => false,
            _ => true,
        };
        let (first_input, second_input) = if sorted {
            (left_file.evidence.clone(), right_file.evidence.clone())
        } else {
            (right_file.evidence.clone(), left_file.evidence.clone())
        };
        Some(
            CloneMatch {
                left_unit: comparison_unit(left_file, &left),
                right_unit: comparison_unit(right_file, &right),
                left,
                right,
                tokens: length as u32,
                changed_tokens,
                signature_sha256,
                first_input,
                second_input,
            },
        )
    }

    /// The matches to report: every one of them is a clone.
    pub fn matches(&self) -> (matches: Vec<CloneMatch>)
        ensures
            keys(matches@) == reported_matches(self@),
            forall|i: int| 0 <= i < matches@.len() ==> is_clone(self@, (#[trigger] matches@[i])@),
    {
        let pairs = self.pairs();
        let runs = runs_in(&pairs);
        let ghost engine = self@;
        let ghost views = run_views(runs@);
        let mut found: Vec<CloneMatch> = Vec::new();
        let mut i: usize = 0;
        assert(keys(found@) =~= matches_upto(engine, views, 0));
        while i < runs.len()
            invariant
                engine == self@,
                i <= runs@.len(),
                views == run_views(runs@),
                views == runs_of(keys(pairs@)),
                forall|k: int|
                    0 <= k < pairs@.len() ==> is_pair(engine, #[trigger] keys(pairs@)[k]),
                keys(found@) == matches_upto(engine, views, i as int),
            decreases runs@.len() - i,
        {
            proof {
                assert(views[i as int] == RunView {
                    first: runs@[i as int].first@,
                    last: runs@[i as int].last@,
                });
                lemma_runs_are_runs(engine, keys(pairs@), pairs@.len() as int, i as int);
            }
            if let Some(matched) = self.match_for_run(&runs[i]) {
                let ghost before = found@;
                found.push(matched);
                assert(keys(found@) =~= keys(before).push(matched@));
            }
            i += 1;
        }
        let list = settled_list(found);
        proof {
            lemma_ascending_distinct::<CloneMatch>(keys(list@));
        }
        let matches = maximal_matches(list);
        proof {
            assert forall|k: int| 0 <= k < matches@.len() implies is_clone(
                self@,
                (#[trigger] matches@[k])@,
            ) by {
                assert(keys(matches@)[k] == matches@[k]@);
                assert(reported_matches(self@).contains(matches@[k]@));
                lemma_reported_are_clones(self@, matches@[k]@);
            }
        }
        matches
    }
}

/// A file put in place of an earlier one leaves nothing of it behind: what an
/// engine reports depends on the files it holds now, not on those they replaced.
pub proof fn law_replacing_retracts(files: Seq<FileView>, stale: FileView, current: FileView)
    requires
        stale.path == current.path,
    ensures
        with_file(with_file(files, stale), current) == with_file(files, current),
{
    lemma_place_of_path(files, stale.path, 0);
    match place_of_path(files, stale.path, 0) {
        Some(i) => {
            let once = files.update(i, stale);
            lemma_place_after_update(files, stale, i, 0);
            assert(once.update(i, current) =~= files.update(i, current));
        },
        None => {
            let once = files.push(stale);
            lemma_place_after_push(files, stale, 0);
            assert(once.update(files.len() as int, current) =~= files.push(current));
        },
    }
}

/// A place found holds the path, and none before it does.
proof fn lemma_place_of_path(files: Seq<FileView>, path: Seq<Seq<char>>, i: int)
    requires
        0 <= i <= files.len(),
    ensures
        match place_of_path(files, path, i) {
            Some(place) => i <= place < files.len() && files[place].path == path,
            None => forall|k: int| i <= k < files.len() ==> (#[trigger] files[k]).path != path,
        },
    decreases files.len() - i,
{
    if i < files.len() && files[i].path != path {
        lemma_place_of_path(files, path, i + 1);
    }
}

proof fn lemma_place_after_update(files: Seq<FileView>, stale: FileView, place: int, i: int)
    requires
        0 <= i <= place < files.len(),
        place_of_path(files, stale.path, i) == Some(place),
    ensures
        place_of_path(files.update(place, stale), stale.path, i) == Some(place),
    decreases files.len() - i,
{
    lemma_place_of_path(files, stale.path, i);
    if i < place {
        lemma_place_after_update(files, stale, place, i + 1);
    }
}

proof fn lemma_place_after_push(files: Seq<FileView>, stale: FileView, i: int)
    requires
        0 <= i <= files.len(),
        place_of_path(files, stale.path, i) is None,
    ensures
        place_of_path(files.push(stale), stale.path, i) == Some(files.len() as int),
    decreases files.len() - i,
{
    if i < files.len() {
        lemma_place_after_push(files, stale, i + 1);
    }
}

/// What holds of a match worth reporting: it has enough tokens and lines on both
/// sides; exact ones have no changed token, and near ones have some, but no more
/// than allowed.
pub open spec fn is_clone(engine: EngineView, matched: MatchView) -> bool {
    &&& matched.tokens >= engine.min_tokens
    &&& lines_in(matched.left) >= engine.min_lines
    &&& lines_in(matched.right) >= engine.min_lines
    &&& match engine.mode {
        MatchMode::Exact => matched.changed_tokens == 0,
        MatchMode::Near { max_changed_percent, .. } => matched.changed_tokens > 0
            && matched.changed_tokens * 100 <= matched.tokens * max_changed_percent,
    }
}

/// The matches that runs make are clones.
proof fn lemma_matches_are_clones(engine: EngineView, runs: Seq<RunView>, n: int, k: int)
    requires
        0 <= n <= runs.len(),
        forall|i: int| 0 <= i < runs.len() ==> is_run(engine, #[trigger] runs[i]),
        0 <= k < matches_upto(engine, runs, n).len(),
    ensures
        is_clone(engine, matches_upto(engine, runs, n)[k]),
    decreases n,
{
    if n > 0 {
        let before = matches_upto(engine, runs, n - 1);
        if k < before.len() {
            lemma_matches_are_clones(engine, runs, n - 1, k);
        } else {
            let run = runs[n - 1];
            assert(is_run(engine, run));
            let length = run_length(engine, run);
            let tokens = tokens_from(engine, run.first.left_file, run.first.left_start, length);
            assert(tokens.len() == length);
        }
    }
}

/// Everything an engine reports is a clone.
proof fn lemma_reported_are_clones(engine: EngineView, matched: MatchView)
    requires
        reported_matches(engine).contains(matched),
        lists_pairs(engine, pairs_of(engine)),
    ensures
        is_clone(engine, matched),
{
    law_reported_matches_are_maximal(found_matches(engine), matched);
    let pairs = pairs_of(engine);
    let runs = runs_of(pairs);
    let all = matches_upto(engine, runs, runs.len() as int);
    lemma_settles::<CloneMatch>(all);
    assert(all.contains(matched));
    let k = choose|k: int| 0 <= k < all.len() && all[k] == matched;
    assert forall|i: int| 0 <= i < pairs.len() implies is_pair(engine, #[trigger] pairs[i]) by {
        assert(pairs.contains(pairs[i]));
    }
    assert forall|i: int| 0 <= i < runs.len() implies is_run(engine, #[trigger] runs[i]) by {
        lemma_runs_are_runs(engine, pairs, pairs.len() as int, i);
    }
    lemma_matches_are_clones(engine, runs, runs.len() as int, k);
}

} // verus!
