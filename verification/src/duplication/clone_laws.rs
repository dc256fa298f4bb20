//! Which windows are joined, and which clones they make.

use crate::duplication::engine::{
    agreement, continues, is_pair, is_tightest, lines_in, match_of, normalization_of, run_length,
    runs_of, runs_upto, tokens_from, tokens_span, unit_covers, unit_length, unit_of, EngineView,
    FileView, MatchMode, PairView, RunView,
};
use crate::duplication::patterns::{law_shared_patterns_make_equal_identities, share_patterns};
use crate::duplication::token::{
    changed_tokens, changed_upto, is_renamed, token_key, Normalization, TokenClass, TokenView,
    UnitView,
};
use crate::duplication::{near_start, refused_near, NearConfig};
use crate::facts::{SpanView, TokenNormalization};
use vstd::prelude::*;

verus! {

/// Whether two lists of tokens are written alike, token by token.
pub open spec fn written_alike(left: Seq<TokenView>, right: Seq<TokenView>) -> bool {
    &&& left.len() == right.len()
    &&& forall|i: int|
        0 <= i < left.len() ==> (#[trigger] left[i]).kind == right[i].kind && left[i].lexeme
            == right[i].lexeme
}

proof fn lemma_changed(left: Seq<TokenView>, right: Seq<TokenView>, n: int)
    requires
        0 <= n <= left.len(),
        n <= right.len(),
    ensures
        changed_upto(left, right, n) <= n,
        changed_upto(left, right, n) == 0 <==> forall|i: int|
            0 <= i < n ==> (#[trigger] left[i]).kind == right[i].kind && left[i].lexeme
                == right[i].lexeme,
    decreases n,
{
    if n > 0 {
        lemma_changed(left, right, n - 1);
        if changed_upto(left, right, n) == 0 {
            assert(left[n - 1].kind == right[n - 1].kind);
        }
    }
}

/// No token of two lists of one length has changed exactly where they are written
/// alike, and no more tokens have changed than there are.
pub proof fn law_changed_tokens_are_those_written_otherwise(
    left: Seq<TokenView>,
    right: Seq<TokenView>,
)
    requires
        left.len() == right.len(),
    ensures
        changed_tokens(left, right) == 0 <==> written_alike(left, right),
        changed_tokens(left, right) <= left.len(),
{
    lemma_changed(left, right, left.len() as int);
}

/// One more pair of tokens changes the count by one where they are written
/// differently, and not otherwise.
pub proof fn law_each_changed_token_counts_once(
    left: Seq<TokenView>,
    right: Seq<TokenView>,
    one: TokenView,
    other: TokenView,
)
    requires
        left.len() == right.len(),
    ensures
        changed_tokens(left.push(one), right.push(other)) == changed_tokens(left, right) + if one.kind
            == other.kind && one.lexeme == other.lexeme {
            0nat
        } else {
            1nat
        },
{
    lemma_changed_prefix(left, right, one, other, left.len() as int);
}

proof fn lemma_changed_prefix(
    left: Seq<TokenView>,
    right: Seq<TokenView>,
    one: TokenView,
    other: TokenView,
    n: int,
)
    requires
        0 <= n <= left.len(),
        left.len() == right.len(),
    ensures
        changed_upto(left.push(one), right.push(other), n) == changed_upto(left, right, n),
    decreases n,
{
    if n > 0 {
        lemma_changed_prefix(left, right, one, other, n - 1);
    }
}

/// Names are renamed where identifiers are normalized, literals where literals are,
/// and nothing else ever is.
pub proof fn law_only_names_and_literals_are_renamed(identifiers: bool, literals: bool)
    ensures
        is_renamed(TokenClass::Identifier, Some(Normalization { identifiers, literals }))
            == identifiers,
        is_renamed(TokenClass::Literal, Some(Normalization { identifiers, literals })) == literals,
        !is_renamed(TokenClass::Other, Some(Normalization { identifiers, literals })),
        !is_renamed(TokenClass::Identifier, None),
        !is_renamed(TokenClass::Literal, None),
        !is_renamed(TokenClass::Other, None),
{
}

/// Two windows of one language whose tokens are of the same kinds and written alike
/// are joined, wherever they stand: in two files, or in one where they do not overlap.
pub proof fn law_windows_written_alike_are_joined(engine: EngineView, pair: PairView)
    requires
        0 <= pair.left_file <= pair.right_file < engine.files.len(),
        0 <= pair.left_start,
        0 <= pair.right_start,
        engine.min_tokens > 0,
        pair.left_start + engine.min_tokens <= engine.files[pair.left_file].tokens.len(),
        pair.right_start + engine.min_tokens <= engine.files[pair.right_file].tokens.len(),
        engine.files[pair.left_file].domain == engine.files[pair.right_file].domain,
        pair.left_file == pair.right_file ==> pair.left_start + engine.min_tokens
            <= pair.right_start,
        ({
            let left = engine.files[pair.left_file].tokens.subrange(
                pair.left_start,
                pair.left_start + engine.min_tokens,
            );
            let right = engine.files[pair.right_file].tokens.subrange(
                pair.right_start,
                pair.right_start + engine.min_tokens,
            );
            written_alike(left, right) && forall|i: int|
                0 <= i < left.len() ==> (#[trigger] left[i]).class == right[i].class
        }),
    ensures
        is_pair(engine, pair),
{
    let left = engine.files[pair.left_file].tokens.subrange(
        pair.left_start,
        pair.left_start + engine.min_tokens,
    );
    let right = engine.files[pair.right_file].tokens.subrange(
        pair.right_start,
        pair.right_start + engine.min_tokens,
    );
    let normalization = normalization_of(engine.mode);
    assert(share_patterns(left, right, normalization)) by {
        assert forall|i: int, j: int|
            0 <= i < left.len() && 0 <= j < left.len() && is_renamed(
                (#[trigger] left[i]).class,
                normalization,
            ) && (#[trigger] left[j]).class == left[i].class implies (token_key(left[i])
            == token_key(left[j]) <==> token_key(right[i]) == token_key(right[j])) by {
            assert(left[i].kind == right[i].kind && left[j].kind == right[j].kind);
        }
    }
    law_shared_patterns_make_equal_identities(left, right, normalization);
}

/// Joined windows never overlap, are of one language, and the left one comes first.
pub proof fn law_joined_windows_are_apart(engine: EngineView, pair: PairView)
    requires
        is_pair(engine, pair),
        engine.min_tokens > 0,
    ensures
        engine.files[pair.left_file].domain == engine.files[pair.right_file].domain,
        pair.left_file <= pair.right_file,
        pair.left_file == pair.right_file ==> pair.left_start + engine.min_tokens
            <= pair.right_start,
        pair.left_start + engine.min_tokens <= engine.files[pair.left_file].tokens.len(),
        pair.right_start + engine.min_tokens <= engine.files[pair.right_file].tokens.len(),
{
}

/// Whether a run holds a pair: it is of the same files, as far apart, and between the
/// run's first and last.
pub open spec fn run_holds(run: RunView, pair: PairView) -> bool {
    &&& run.first.left_file == pair.left_file
    &&& run.first.right_file == pair.right_file
    &&& run.first.left_start <= pair.left_start <= run.last.left_start
    &&& pair.right_start - pair.left_start == run.first.right_start - run.first.left_start
}

proof fn lemma_run_holds(pairs: Seq<PairView>, n: int, i: int)
    requires
        0 <= i < n <= pairs.len(),
    ensures
        exists|k: int|
            0 <= k < runs_upto(pairs, n).len() && run_holds(
                #[trigger] runs_upto(pairs, n)[k],
                pairs[i],
            ),
        runs_upto(pairs, n).len() > 0,
        runs_upto(pairs, n).last().last == pairs[n - 1],
        run_holds(runs_upto(pairs, n).last(), pairs[n - 1]),
    decreases n,
{
    let before = runs_upto(pairs, n - 1);
    let all = runs_upto(pairs, n);
    if n > 1 {
        lemma_run_holds(pairs, n - 1, 0);
    }
    assert(run_holds(all.last(), pairs[n - 1]));
    if i < n - 1 {
        lemma_run_holds(pairs, n - 1, i);
        let k = choose|k: int|
            0 <= k < before.len() && run_holds(#[trigger] before[k], pairs[i]);
        if k == before.len() - 1 && continues(before.last(), pairs[n - 1]) {
            assert(run_holds(all[k], pairs[i]));
        } else {
            assert(all[k] == before[k]);
        }
    } else {
        assert(all[all.len() - 1] == all.last());
    }
}

/// Every joined pair is part of a run.
pub proof fn law_every_joined_pair_is_in_a_run(pairs: Seq<PairView>, i: int)
    requires
        0 <= i < pairs.len(),
    ensures
        exists|k: int|
            0 <= k < runs_of(pairs).len() && run_holds(#[trigger] runs_of(pairs)[k], pairs[i]),
{
    let n = pairs.len() as int;
    lemma_run_holds(pairs, n, i);
    let k = choose|k: int|
        0 <= k < runs_upto(pairs, n).len() && run_holds(
            #[trigger] runs_upto(pairs, n)[k],
            pairs[i],
        );
    assert(run_holds(runs_of(pairs)[k], pairs[i]));
}

/// An exact run makes a clone where its two sides are written alike, stand apart and
/// cover enough lines, and only there. The clone covers the run on both sides, from
/// the start of its first token to the end of its last.
pub proof fn law_exact_runs_make_clones(engine: EngineView, run: RunView)
    requires
        engine.mode is Exact,
        0 < run_length(engine, run) <= u32::MAX,
        0 <= run.first.left_start,
        0 <= run.first.right_start,
        0 <= run.first.left_file < engine.files.len(),
        0 <= run.first.right_file < engine.files.len(),
        run.first.left_start + run_length(engine, run)
            <= engine.files[run.first.left_file].tokens.len(),
        run.first.right_start + run_length(engine, run)
            <= engine.files[run.first.right_file].tokens.len(),
    ensures
        ({
            let length = run_length(engine, run);
            let left = engine.files[run.first.left_file].tokens.subrange(
                run.first.left_start,
                run.first.left_start + length,
            );
            let right = engine.files[run.first.right_file].tokens.subrange(
                run.first.right_start,
                run.first.right_start + length,
            );
            let apart = run.first.left_file != run.first.right_file || run.first.left_start
                + length <= run.first.right_start || run.first.right_start + length
                <= run.first.left_start;
            &&& match_of(engine, run) is Some <==> written_alike(left, right) && apart && lines_in(
                tokens_span(engine.files[run.first.left_file].path, left),
            ) >= engine.min_lines && lines_in(
                tokens_span(engine.files[run.first.right_file].path, right),
            ) >= engine.min_lines
            &&& match_of(engine, run) matches Some(matched) ==> {
                &&& matched.tokens == length
                &&& matched.changed_tokens == 0
                &&& matched.left.start_byte == Some(left[0].start_byte)
                &&& matched.left.end_byte == Some(left[length - 1].end_byte)
                &&& matched.left.start_line == left[0].start_line
                &&& matched.left.end_line == left[length - 1].end_line
                &&& matched.right.start_byte == Some(right[0].start_byte)
                &&& matched.right.end_byte == Some(right[length - 1].end_byte)
                &&& matched.right.start_line == right[0].start_line
                &&& matched.right.end_line == right[length - 1].end_line
                &&& matched.left.path == engine.files[run.first.left_file].path
                &&& matched.right.path == engine.files[run.first.right_file].path
            }
        }),
{
    let length = run_length(engine, run);
    let left = tokens_from(engine, run.first.left_file, run.first.left_start, length);
    let right = tokens_from(engine, run.first.right_file, run.first.right_start, length);
    law_changed_tokens_are_those_written_otherwise(left, right);
}

/// How many lines a place covers: the last less the first, and one more.
pub proof fn law_a_place_covers_its_lines(path: Seq<Seq<char>>, tokens: Seq<TokenView>)
    requires
        tokens.len() > 0,
        tokens[0].start_line <= tokens.last().end_line,
    ensures
        lines_in(tokens_span(path, tokens)) == tokens.last().end_line - tokens[0].start_line + 1,
        lines_in(tokens_span(path, tokens)) >= 1,
{
}

/// A near run agrees where its sides differ by a consistent renaming of what is
/// normalized, in some token but in no larger a share than allowed.
pub proof fn law_near_runs_change_within_the_share(
    left: Seq<TokenView>,
    right: Seq<TokenView>,
    normalization: Normalization,
    percent: u8,
)
    requires
        left.len() == right.len(),
        left.len() <= u32::MAX,
    ensures
        ({
            let mode = MatchMode::Near { normalization, max_changed_percent: percent };
            &&& written_alike(left, right) ==> agreement(mode, left, right) is None
            &&& share_patterns(left, right, Some(normalization)) && !written_alike(left, right)
                && changed_tokens(left, right) * 100 <= left.len() * percent ==> (agreement(
                mode,
                left,
                right,
            ) matches Some((changed, _)) && changed == changed_tokens(left, right))
            &&& changed_tokens(left, right) * 100 > left.len() * percent ==> agreement(
                mode,
                left,
                right,
            ) is None
        }),
{
    law_changed_tokens_are_those_written_otherwise(left, right);
    if share_patterns(left, right, Some(normalization)) {
        law_shared_patterns_make_equal_identities(left, right, Some(normalization));
    }
}

/// A configuration for near clones is refused where it normalizes nothing, allows no
/// change or more than everything, or asks for no tokens or no lines; otherwise the
/// engine normalizes and allows what it says.
pub proof fn law_near_configurations_are_taken_as_they_are(config: NearConfig)
    ensures
        refused_near(config) is None <==> (config.normalize_identifiers
            || config.normalize_literals) && 1 <= config.max_changed_percent <= 100
            && config.min_tokens > 0 && config.min_lines > 0,
        near_start(config).engine.mode == (MatchMode::Near {
            normalization: Normalization {
                identifiers: config.normalize_identifiers,
                literals: config.normalize_literals,
            },
            max_changed_percent: config.max_changed_percent,
        }),
        near_start(config).engine.min_tokens == config.min_tokens,
        near_start(config).engine.min_lines == config.min_lines,
        near_start(config).normalizations.contains(TokenNormalization::Identifiers)
            <==> config.normalize_identifiers,
        near_start(config).normalizations.contains(TokenNormalization::Literals)
            <==> config.normalize_literals,
{
    let told = near_start(config).normalizations;
    if config.normalize_identifiers {
        assert(told[0] == TokenNormalization::Identifiers);
    }
    if config.normalize_literals {
        assert(told[told.len() - 1] == TokenNormalization::Literals);
    }
}

proof fn lemma_some_tightest(units: Seq<UnitView>, n: int, start: u64, end: u64) -> (best: int)
    requires
        0 <= n <= units.len(),
        exists|i: int| 0 <= i < n && unit_covers(#[trigger] units[i], start, end),
    ensures
        0 <= best < n,
        unit_covers(units[best], start, end),
        forall|j: int|
            0 <= j < n && unit_covers(#[trigger] units[j], start, end) ==> unit_length(units[best])
                < unit_length(units[j]) || (unit_length(units[best]) == unit_length(units[j])
                && best <= j),
    decreases n,
{
    if exists|i: int| 0 <= i < n - 1 && unit_covers(#[trigger] units[i], start, end) {
        let before = lemma_some_tightest(units, n - 1, start, end);
        if unit_covers(units[n - 1], start, end) && unit_length(units[n - 1]) < unit_length(
            units[before],
        ) {
            n - 1
        } else {
            before
        }
    } else {
        n - 1
    }
}

/// Whether a unit encloses a place.
pub open spec fn encloses(unit: UnitView, span: SpanView) -> bool {
    unit.start_byte <= span.start_byte->0 && span.end_byte->0 <= unit.end_byte
}

/// A clone is told as part of the shortest construct that covers it: one that does,
/// and than which no other that does is shorter. Where none covers it, it stands for
/// itself.
pub proof fn law_clones_are_told_by_the_tightest_unit(file: FileView, span: SpanView, i: int)
    requires
        span.start_byte is Some,
        span.end_byte is Some,
    ensures
        ({
            let told = unit_of(file, span);
            &&& 0 <= i < file.units.len() && encloses(file.units[i], span) ==> {
                &&& told.path == file.path
                &&& told.start_byte is Some && told.start_byte->0 <= span.start_byte->0
                &&& told.end_byte is Some && told.end_byte->0 >= span.end_byte->0
                &&& told.end_byte->0 >= told.start_byte->0 && file.units[i].end_byte
                    >= file.units[i].start_byte ==> told.end_byte->0 - told.start_byte->0
                    <= file.units[i].end_byte - file.units[i].start_byte
            }
            &&& (forall|j: int|
                0 <= j < file.units.len() ==> !encloses(#[trigger] file.units[j], span)) ==> told
                == span
        }),
{
    let start = span.start_byte->0;
    let end = span.end_byte->0;
    if 0 <= i < file.units.len() && unit_covers(file.units[i], start, end) {
        let best = lemma_some_tightest(file.units, file.units.len() as int, start, end);
        assert(is_tightest(file.units, best, start, end));
        let k = choose|k: int| is_tightest(file.units, k, start, end);
        assert(is_tightest(file.units, k, start, end));
        assert(unit_covers(file.units[i], start, end));
    }
    if forall|j: int| 0 <= j < file.units.len() ==> !encloses(#[trigger] file.units[j], span) {
        assert forall|k: int| !is_tightest(file.units, k, start, end) by {
            if is_tightest(file.units, k, start, end) {
                assert(!encloses(file.units[k], span));
            }
        }
    }
}

} // verus!
