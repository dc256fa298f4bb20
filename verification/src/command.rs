//! What the command line decides: which settings hold, who it asks as, and how
//! facts are told.

use crate::duplication::{ExactConfig, NearConfig};
use crate::fact_pack::manifest::{FactPackManifest, ManifestView};
use crate::facts::{
    ExactTokenClone, LibraryBehaviorMatch, LibraryTarget, NearTokenClone, SourceSpan,
};
use crate::registry::FactPackRegistryAuth;
use crate::sorting::{sorted_list, sorted_of, Sortable};
use crate::text::{
    append_decimal, decimal, lemma_text_order_consistent, number_order, settled_by,
    text_compared, text_order, Comparison,
};
use vstd::prelude::*;
use vstd::string::*;

verus! {

/// A setting: as asked for, or else as configured, or else the default.
pub open spec fn chosen<T>(asked: Option<T>, configured: Option<T>, default: T) -> T {
    match (asked, configured) {
        (Some(value), _) => value,
        (None, Some(value)) => value,
        (None, None) => default,
    }
}

/// A setting.
fn choose_number(asked: Option<u32>, configured: Option<u32>, default: u32) -> (value: u32)
    ensures
        value == chosen(asked, configured, default),
{
    match (asked, configured) {
        (Some(value), _) => value,
        (None, Some(value)) => value,
        (None, None) => default,
    }
}

/// What a configuration file says of exact clones.
#[derive(Debug, Clone, Copy, PartialEq, Eq, Structural)]
pub struct ExactSettings {
    pub min_tokens: Option<u32>,
    pub min_lines: Option<u32>,
}

/// What a configuration file says of near clones.
#[derive(Debug, Clone, Copy, PartialEq, Eq, Structural)]
pub struct NearSettings {
    pub min_tokens: Option<u32>,
    pub min_lines: Option<u32>,
    pub normalize_identifiers: Option<bool>,
    pub normalize_literals: Option<bool>,
    pub max_changed_percent: Option<u8>,
}

/// The configuration of an exact analysis.
pub fn exact_config(
    min_tokens: Option<u32>,
    min_lines: Option<u32>,
    configured: &ExactSettings,
) -> (config: ExactConfig)
    ensures
        config.min_tokens == chosen(min_tokens, configured.min_tokens, 50),
        config.min_lines == chosen(min_lines, configured.min_lines, 5),
{
    let defaults = ExactConfig::default();
    ExactConfig {
        min_tokens: choose_number(min_tokens, configured.min_tokens, defaults.min_tokens),
        min_lines: choose_number(min_lines, configured.min_lines, defaults.min_lines),
    }
}

/// The configuration of a near analysis.
pub fn near_config(
    min_tokens: Option<u32>,
    min_lines: Option<u32>,
    max_changed_percent: Option<u8>,
    configured: &NearSettings,
) -> (config: NearConfig)
    ensures
        config.min_tokens == chosen(min_tokens, configured.min_tokens, 80),
        config.min_lines == chosen(min_lines, configured.min_lines, 8),
        config.normalize_identifiers == chosen(None, configured.normalize_identifiers, true),
        config.normalize_literals == chosen(None, configured.normalize_literals, true),
        config.max_changed_percent == chosen(
            max_changed_percent,
            configured.max_changed_percent,
            30,
        ),
{
    let defaults = NearConfig::default();
    NearConfig {
        min_tokens: choose_number(min_tokens, configured.min_tokens, defaults.min_tokens),
        min_lines: choose_number(min_lines, configured.min_lines, defaults.min_lines),
        normalize_identifiers: match configured.normalize_identifiers {
            Some(value) => value,
            None => defaults.normalize_identifiers,
        },
        normalize_literals: match configured.normalize_literals {
            Some(value) => value,
            None => defaults.normalize_literals,
        },
        max_changed_percent: match (max_changed_percent, configured.max_changed_percent) {
            (Some(value), _) => value,
            (None, Some(value)) => value,
            (None, None) => defaults.max_changed_percent,
        },
    }
}

/// Where the credentials for a registry are read from.
#[derive(Debug)]
pub enum AuthSource {
    Anonymous,
    Password { username: String, variable: String },
    Token { variable: String },
}

/// Where the credentials for a registry are read from: a name with the variable
/// that holds the password, the variable that holds a token alone, or nothing.
pub fn auth_source(
    username: Option<String>,
    password_env: Option<String>,
    bearer_token_env: Option<String>,
) -> (result: Result<AuthSource, &'static str>)
    ensures
        match result {
            Ok(AuthSource::Anonymous) => username is None && password_env is None
                && bearer_token_env is None,
            Ok(AuthSource::Password { username: name, variable }) => bearer_token_env is None
                && username == Some(name) && password_env == Some(variable),
            Ok(AuthSource::Token { variable }) => username is None && password_env is None
                && bearer_token_env == Some(variable),
            Err(message) => {
                &&& message@
                    == "use --username with --password-env, or use --bearer-token-env alone"@
                &&& !(username is None && password_env is None)
                &&& !(username is Some && password_env is Some && bearer_token_env is None)
            },
        },
{
    match (username, password_env, bearer_token_env) {
        (None, None, None) => Ok(AuthSource::Anonymous),
        (Some(username), Some(variable), None) => Ok(AuthSource::Password { username, variable }),
        (None, None, Some(variable)) => Ok(AuthSource::Token { variable }),
        _ => Err("use --username with --password-env, or use --bearer-token-env alone"),
    }
}

/// The credentials, once the password or token has been read; empty ones are
/// refused.
pub fn auth_from(source: AuthSource, value: String) -> (result: Result<
    FactPackRegistryAuth,
    String,
>)
    ensures
        match source {
            AuthSource::Anonymous => result matches Ok(FactPackRegistryAuth::Anonymous),
            AuthSource::Password { username, variable } => if value@.len() == 0 {
                result matches Err(message) && message@ == "registry password in "@ + variable@
                    + " is empty"@
            } else {
                result == Ok::<FactPackRegistryAuth, String>(
                    FactPackRegistryAuth::Basic { username, password: value },
                )
            },
            AuthSource::Token { variable } => if value@.len() == 0 {
                result matches Err(message) && message@ == "registry token in "@ + variable@
                    + " is empty"@
            } else {
                result == Ok::<FactPackRegistryAuth, String>(FactPackRegistryAuth::Bearer(value))
            },
        },
{
    match source {
        AuthSource::Anonymous => Ok(FactPackRegistryAuth::Anonymous),
        AuthSource::Password { username, variable } => {
            if value.as_str().is_empty() {
                let mut message = "registry password in ".to_owned();
                message.append(variable.as_str());
                message.append(" is empty");
                return Err(message);
            }
            Ok(FactPackRegistryAuth::Basic { username, password: value })
        },
        AuthSource::Token { variable } => {
            if value.as_str().is_empty() {
                let mut message = "registry token in ".to_owned();
                message.append(variable.as_str());
                message.append(" is empty");
                return Err(message);
            }
            Ok(FactPackRegistryAuth::Bearer(value))
        },
    }
}

/// How a pack is told: its name, version and revision, and a digest.
pub open spec fn pack_text(manifest: ManifestView, digest: Seq<char>) -> Seq<char> {
    manifest.name + " "@ + manifest.subject.version + " revision "@ + decimal(
        manifest.revision as nat,
    ) + "  "@ + digest
}

/// How a pack is told.
pub fn pack_line(manifest: &FactPackManifest, digest: &str) -> (line: String)
    ensures
        line@ == pack_text(manifest@, digest@),
{
    let mut line = manifest.name.clone();
    line.append(" ");
    line.append(manifest.subject.version.as_str());
    line.append(" revision ");
    append_decimal(&mut line, manifest.revision as u128);
    line.append("  ");
    line.append(digest);
    line
}

/// How a pinned pack is told: with where it came from.
pub fn locked_line(manifest: &FactPackManifest, digest: &str, origin: &Option<String>) -> (line:
    String)
    ensures
        line@ == pack_text(manifest@, digest@) + match *origin {
            Some(origin) => "  "@ + origin@,
            None => Seq::empty(),
        },
{
    let mut line = pack_line(manifest, digest);
    match origin {
        Some(origin) => {
            let ghost before = line@;
            line.append("  ");
            line.append(origin.as_str());
            assert(line@ =~= before + ("  "@ + origin@));
        },
        None => {
            assert(line@ =~= line@ + Seq::empty());
        },
    }
    line
}

/// How a place is told: its path and lines.
pub open spec fn place_text(span: SourceSpan) -> Seq<char> {
    span.path@ + ":"@ + decimal(span.start_line as nat) + "-"@ + decimal(span.end_line as nat)
}

/// How a place is told.
pub fn place_line(span: &SourceSpan) -> (line: String)
    ensures
        line@ == place_text(*span),
{
    let mut line = span.path.clone();
    line.append(":");
    append_decimal(&mut line, span.start_line as u128);
    line.append("-");
    append_decimal(&mut line, span.end_line as u128);
    line
}

/// How an exact clone is told.
pub fn exact_line(clone: &ExactTokenClone) -> (line: String)
    ensures
        line@ == place_text(clone.left) + " = "@ + place_text(clone.right) + "  "@ + decimal(
            clone.tokens as nat,
        ) + " tokens"@,
{
    let mut line = place_line(&clone.left);
    line.append(" = ");
    let right = place_line(&clone.right);
    line.append(right.as_str());
    line.append("  ");
    append_decimal(&mut line, clone.tokens as u128);
    line.append(" tokens");
    line
}

/// How a near clone is told.
pub fn near_line(clone: &NearTokenClone) -> (line: String)
    ensures
        line@ == place_text(clone.left) + " ~ "@ + place_text(clone.right) + "  "@ + decimal(
            clone.tokens as nat,
        ) + " tokens, "@ + decimal(clone.changed_tokens as nat) + " changed"@,
{
    let mut line = place_line(&clone.left);
    line.append(" ~ ");
    let right = place_line(&clone.right);
    line.append(right.as_str());
    line.append("  ");
    append_decimal(&mut line, clone.tokens as u128);
    line.append(" tokens, ");
    append_decimal(&mut line, clone.changed_tokens as u128);
    line.append(" changed");
    line
}

/// The path of what a recommendation points to.
pub open spec fn target_path(target: LibraryTarget) -> Seq<char> {
    match target {
        LibraryTarget::Callable { path, .. } => path@,
        LibraryTarget::DeriveMacro { path, .. } => path@,
    }
}

/// The paths of the first so many targets, with commas between.
pub open spec fn target_paths(targets: Seq<LibraryTarget>, n: int) -> Seq<char>
    decreases n,
{
    if n <= 0 || n > targets.len() {
        Seq::empty()
    } else if n == 1 {
        target_path(targets[0])
    } else {
        target_paths(targets, n - 1) + ", "@ + target_path(targets[n - 1])
    }
}

/// How code that does what a library does is told: where it is, and what it does
/// again. When several callables share the behavior, saying only one of them
/// would be a guess.
pub open spec fn match_text(found: LibraryBehaviorMatch) -> Seq<char> {
    place_text(found.span) + "  "@ + target_path(found.target) + if found.alternatives@.len()
        == 0 {
        Seq::empty()
    } else {
        " (or "@ + target_paths(found.alternatives@, found.alternatives@.len() as int) + ")"@
    }
}

/// How code that does what a library does is told.
pub fn match_line(found: &LibraryBehaviorMatch) -> (line: String)
    ensures
        line@ == match_text(*found),
{
    let mut line = place_line(&found.span);
    line.append("  ");
    line.append(found.target.path());
    if found.alternatives.len() == 0 {
        assert(line@ =~= match_text(*found));
        return line;
    }
    let ghost start = line@;
    let mut paths = String::new();
    let mut i: usize = 0;
    while i < found.alternatives.len()
        invariant
            i <= found.alternatives@.len(),
            paths@ == target_paths(found.alternatives@, i as int),
        decreases found.alternatives@.len() - i,
    {
        let ghost before = paths@;
        if i > 0 {
            paths.append(", ");
        }
        let path = found.alternatives[i].path();
        paths.append(path);
        proof {
            if i == 0 {
                assert(paths@ =~= path@);
            } else {
                assert(paths@ =~= before + ", "@ + path@);
            }
        }
        i += 1;
    }
    line.append(" (or ");
    line.append(paths.as_str());
    line.append(")");
    assert(line@ =~= match_text(*found));
    line
}

/// Why callables yielded no behavior, and how many.
#[derive(Debug)]
pub struct SkippedReason {
    pub reason: String,
    pub count: usize,
}

impl Sortable for SkippedReason {
    open spec fn sort_order(&self, other: &SkippedReason) -> Comparison {
        settled_by(
            number_order(other.count as int, self.count as int),
            text_order(self.reason@, other.reason@),
        )
    }

    proof fn sorts_consistently(
        first: SkippedReason,
        second: SkippedReason,
        third: SkippedReason,
    ) {
        lemma_text_order_consistent(first.reason@, second.reason@, third.reason@);
    }

    fn compared_to(&self, other: &SkippedReason) -> (order: Comparison) {
        if self.count > other.count {
            Comparison::Less
        } else if self.count < other.count {
            Comparison::Greater
        } else {
            text_compared(self.reason.as_str(), other.reason.as_str())
        }
    }
}

/// Reasons in the order they are told: the most frequent first, those as frequent
/// by name.
pub fn ranked_reasons(reasons: Vec<SkippedReason>) -> (ranked: Vec<SkippedReason>)
    ensures
        ranked@ == sorted_of(reasons@),
{
    sorted_list(reasons)
}

} // verus!
