//! The lock that pins which packs a repository uses.

use super::cache::{
    cache_fault_text, digest_fault, validate_digest, CacheError, CacheFault, CachedFactPack,
};
use super::manifest::{
    digest_of, is_valid, joined_messages, manifest_error_text, manifest_faults, sha256,
    FactPackManifest, ManifestError, ManifestView,
};
use crate::digest::text_bytes;
use crate::normalize::form::optional_text;
use crate::text::{
    append_decimal, decimal, lemma_text_order_total, text_compared, text_order, Comparison,
};
use vstd::prelude::*;
use vstd::string::*;
use vstd::utf8::*;

verus! {

pub const FACT_PACK_LOCK_SCHEMA: u32 = 1;

/// The packs a repository uses, one for each requirement.
#[derive(Debug)]
pub struct FactPackLock {
    pub schema: u32,
    pub packs: Vec<LockedFactPack>,
}

/// A pack that is pinned.
#[derive(Debug)]
pub struct LockedFactPack {
    pub manifest_digest: String,
    pub origin: Option<String>,
    pub manifest: FactPackManifest,
    /// What the pack satisfies exactly, as it is written in TOML.
    pub requirement: String,
}

/// The content of a [`LockedFactPack`].
pub struct LockedView {
    pub manifest_digest: Seq<char>,
    pub origin: Option<Seq<char>>,
    pub manifest: ManifestView,
    pub requirement: Seq<char>,
}

impl View for LockedFactPack {
    type V = LockedView;

    open spec fn view(&self) -> LockedView {
        LockedView {
            manifest_digest: self.manifest_digest@,
            origin: optional_text(self.origin),
            manifest: self.manifest@,
            requirement: self.requirement@,
        }
    }
}

/// The contents of pinned packs.
pub open spec fn locked_views(packs: Seq<LockedFactPack>) -> Seq<LockedView> {
    Seq::new(packs.len(), |i: int| packs[i]@)
}

/// The content of a [`FactPackLock`].
pub struct LockView {
    pub schema: u32,
    pub packs: Seq<LockedView>,
}

impl View for FactPackLock {
    type V = LockView;

    open spec fn view(&self) -> LockView {
        LockView { schema: self.schema, packs: locked_views(self.packs@) }
    }
}

impl Default for FactPackLock {
    fn default() -> (lock: Self)
        ensures
            lock@ == (LockView { schema: FACT_PACK_LOCK_SCHEMA, packs: Seq::empty() }),
    {
        let lock = FactPackLock { schema: FACT_PACK_LOCK_SCHEMA, packs: Vec::new() };
        assert(lock@.packs =~= Seq::empty());
        lock
    }
}

/// Why a lock cannot be used.
#[derive(Debug)]
pub enum FactPackLockError {
    Cache(CacheError),
    Manifest(ManifestError),
    Parse { path: String, message: String },
    Serialize(String),
    Io { operation: &'static str, path: String, message: String },
    Invalid(String),
    Missing { name: String },
    Ambiguous { name: String },
    Drift { digest: String },
    Extra { names: String },
}

/// The content of a [`FactPackLockError`].
pub enum LockFault {
    Cache(CacheFault),
    Manifest(Seq<char>),
    Parse(Seq<char>, Seq<char>),
    Serialize(Seq<char>),
    Io(Seq<char>, Seq<char>, Seq<char>),
    Invalid(Seq<char>),
    Missing(Seq<char>),
    Ambiguous(Seq<char>),
    Drift(Seq<char>),
    Extra(Seq<char>),
}

impl View for FactPackLockError {
    type V = LockFault;

    open spec fn view(&self) -> LockFault {
        match self {
            FactPackLockError::Cache(error) => LockFault::Cache(error@),
            FactPackLockError::Manifest(error) => LockFault::Manifest(manifest_error_text(*error)),
            FactPackLockError::Parse { path, message } => LockFault::Parse(path@, message@),
            FactPackLockError::Serialize(message) => LockFault::Serialize(message@),
            FactPackLockError::Io { operation, path, message } => LockFault::Io(
                operation@,
                path@,
                message@,
            ),
            FactPackLockError::Invalid(message) => LockFault::Invalid(message@),
            FactPackLockError::Missing { name } => LockFault::Missing(name@),
            FactPackLockError::Ambiguous { name } => LockFault::Ambiguous(name@),
            FactPackLockError::Drift { digest } => LockFault::Drift(digest@),
            FactPackLockError::Extra { names } => LockFault::Extra(names@),
        }
    }
}

/// What an error says.
pub open spec fn lock_fault_text(fault: LockFault) -> Seq<char> {
    match fault {
        LockFault::Cache(fault) => cache_fault_text(fault),
        LockFault::Manifest(text) => text,
        LockFault::Parse(path, message) => "parsing fact-pack lock "@ + path + ": "@ + message,
        LockFault::Serialize(message) => "serializing fact-pack lock: "@ + message,
        LockFault::Io(operation, path, message) => operation + " "@ + path + ": "@ + message,
        LockFault::Invalid(message) => "invalid fact-pack lock: "@ + message,
        LockFault::Missing(name) => "fact-pack lock has no entry satisfying "@ + name,
        LockFault::Ambiguous(name) => "fact-pack lock has multiple entries satisfying "@ + name,
        LockFault::Drift(digest) => "fact-pack lock entry "@ + digest
            + " does not match the cached manifest"@,
        LockFault::Extra(names) =>
            "fact-pack lock contains entries not requested by the current repository: "@ + names,
    }
}

impl FactPackLockError {
    /// What the error says.
    pub fn display(&self) -> (text: String)
        ensures
            text@ == lock_fault_text(self@),
    {
        match self {
            FactPackLockError::Cache(error) => error.display(),
            FactPackLockError::Manifest(error) => error.display(),
            FactPackLockError::Parse { path, message } => {
                let mut text = "parsing fact-pack lock ".to_owned();
                text.append(path.as_str());
                text.append(": ");
                text.append(message.as_str());
                text
            },
            FactPackLockError::Serialize(message) => {
                let mut text = "serializing fact-pack lock: ".to_owned();
                text.append(message.as_str());
                text
            },
            FactPackLockError::Io { operation, path, message } => {
                let mut text = (*operation).to_owned();
                text.append(" ");
                text.append(path.as_str());
                text.append(": ");
                text.append(message.as_str());
                text
            },
            FactPackLockError::Invalid(message) => {
                let mut text = "invalid fact-pack lock: ".to_owned();
                text.append(message.as_str());
                text
            },
            FactPackLockError::Missing { name } => {
                let mut text = "fact-pack lock has no entry satisfying ".to_owned();
                text.append(name.as_str());
                text
            },
            FactPackLockError::Ambiguous { name } => {
                let mut text = "fact-pack lock has multiple entries satisfying ".to_owned();
                text.append(name.as_str());
                text
            },
            FactPackLockError::Drift { digest } => {
                let mut text = "fact-pack lock entry ".to_owned();
                text.append(digest.as_str());
                text.append(" does not match the cached manifest");
                text
            },
            FactPackLockError::Extra { names } => {
                let mut text =
                    "fact-pack lock contains entries not requested by the current repository: ".to_owned();
                text.append(names.as_str());
                text
            },
        }
    }
}

/// What a pinned pack is known by: the digest of what it satisfies.
#[verifier::opaque]
pub open spec fn requirement_key(requirement: Seq<char>) -> Seq<char> {
    digest_of(encode_utf8(requirement))
}

/// The digest of a requirement as it is written.
pub fn requirement_digest(requirement: &str) -> (digest: String)
    ensures
        digest@ == requirement_key(requirement@),
{
    let bytes = text_bytes(requirement);
    proof {
        reveal(requirement_key);
    }
    sha256(&bytes)
}

/// Whether a key comes before another.
#[verifier::opaque]
pub open spec fn comes_before(left: Seq<char>, right: Seq<char>) -> bool {
    text_order(left, right) == Comparison::Less
}

/// Keys are put in a total order.
pub proof fn lemma_comes_before(first: Seq<char>, second: Seq<char>, third: Seq<char>)
    ensures
        first == second <==> !comes_before(first, second) && !comes_before(second, first),
        comes_before(first, second) ==> !comes_before(second, first),
        comes_before(first, second) && comes_before(second, third) ==> comes_before(first, third),
{
    reveal(comes_before);
    lemma_text_order_total(first, second, third);
    lemma_text_order_total(second, third, first);
    lemma_text_order_total(first, third, second);
}

/// Which of two keys comes first.
fn key_compared(left: &str, right: &str) -> (order: Comparison)
    ensures
        match order {
            Comparison::Less => comes_before(left@, right@),
            Comparison::Equal => left@ == right@,
            Comparison::Greater => comes_before(right@, left@),
        },
{
    let order = text_compared(left, right);
    proof {
        reveal(comes_before);
        lemma_text_order_total(left@, right@, left@);
    }
    order
}

/// What is wrong with one entry of a lock, apart from its place.
#[verifier::opaque]
pub open spec fn entry_fault(entry: LockedView) -> Option<LockFault> {
    if digest_fault(entry.manifest_digest) is Some {
        Some(LockFault::Cache(digest_fault(entry.manifest_digest)->0))
    } else if !is_valid(entry.manifest) {
        Some(
            LockFault::Manifest(
                "invalid fact-pack manifest: "@ + joined_messages(manifest_faults(entry.manifest)),
            ),
        )
    } else if entry.origin matches Some(origin) && origin.len() == 0 {
        Some(LockFault::Invalid("pack origin cannot be empty"@))
    } else {
        None
    }
}

/// What is wrong with the entries of a lock from a place on.
pub open spec fn entries_fault(packs: Seq<LockedView>, i: int) -> Option<LockFault>
    decreases packs.len() - i,
{
    if i < 0 || i >= packs.len() {
        None
    } else if entry_fault(packs[i]) is Some {
        entry_fault(packs[i])
    } else if i > 0 && !comes_before(
        requirement_key(packs[i - 1].requirement),
        requirement_key(packs[i].requirement),
    ) {
        Some(
            LockFault::Invalid("packs must be sorted by unique requirement digest"@),
        )
    } else {
        entries_fault(packs, i + 1)
    }
}

/// What is wrong with a lock.
pub open spec fn lock_fault(lock: LockView) -> Option<LockFault> {
    if lock.schema != FACT_PACK_LOCK_SCHEMA {
        Some(
            LockFault::Invalid(
                "schema is "@ + decimal(lock.schema as nat) + ", supported schema is "@ + decimal(
                    FACT_PACK_LOCK_SCHEMA as nat,
                ),
            ),
        )
    } else {
        entries_fault(lock.packs, 0)
    }
}

/// What is wrong, where something is.
pub open spec fn lock_fault_of(result: Result<(), FactPackLockError>) -> Option<LockFault> {
    match result {
        Ok(()) => None,
        Err(error) => Some(error@),
    }
}

/// Checks one entry of a lock, apart from its place.
fn validate_entry(entry: &LockedFactPack) -> (result: Result<(), FactPackLockError>)
    ensures
        lock_fault_of(result) == entry_fault(entry@),
{
    proof {
        reveal(entry_fault);
    }
    match validate_digest(entry.manifest_digest.as_str()) {
        Ok(()) => {},
        Err(error) => {
            return Err(FactPackLockError::Cache(error));
        },
    }
    match entry.manifest.validate() {
        Ok(()) => {},
        Err(error) => {
            return Err(FactPackLockError::Manifest(error));
        },
    }
    if let Some(origin) = &entry.origin {
        if origin.as_str().is_empty() {
            return Err(FactPackLockError::Invalid("pack origin cannot be empty".to_owned()));
        }
    }
    Ok(())
}

/// The first entries of a list that satisfy something on their keys.
pub open spec fn entries_below(packs: Seq<LockedView>, key: Seq<char>, n: int) -> Seq<LockedView>
    decreases n,
{
    if n <= 0 || n > packs.len() {
        Seq::empty()
    } else if comes_before(requirement_key(packs[n - 1].requirement), key) {
        entries_below(packs, key, n - 1).push(packs[n - 1])
    } else {
        entries_below(packs, key, n - 1)
    }
}

/// The entries of a list whose keys come after one, of the first so many.
pub open spec fn entries_above(packs: Seq<LockedView>, key: Seq<char>, n: int) -> Seq<LockedView>
    decreases n,
{
    if n <= 0 || n > packs.len() {
        Seq::empty()
    } else if comes_before(key, requirement_key(packs[n - 1].requirement)) {
        entries_above(packs, key, n - 1).push(packs[n - 1])
    } else {
        entries_above(packs, key, n - 1)
    }
}

/// The entries of a lock with one more, which takes the place of any with the
/// same key.
pub open spec fn with_entry(packs: Seq<LockedView>, entry: LockedView) -> Seq<LockedView> {
    let key = requirement_key(entry.requirement);
    entries_below(packs, key, packs.len() as int).push(entry) + entries_above(
        packs,
        key,
        packs.len() as int,
    )
}

impl FactPackLock {
    /// Checks the lock.
    #[verifier::loop_isolation(false)]
    pub fn validate(&self) -> (result: Result<(), FactPackLockError>)
        ensures
            lock_fault_of(result) == lock_fault(self@),
    {
        let ghost all = self@.packs;
        if self.schema != FACT_PACK_LOCK_SCHEMA {
            let mut message = "schema is ".to_owned();
            append_decimal(&mut message, self.schema as u128);
            message.append(", supported schema is ");
            append_decimal(&mut message, FACT_PACK_LOCK_SCHEMA as u128);
            return Err(FactPackLockError::Invalid(message));
        }
        let mut previous = String::new();
        let mut i: usize = 0;
        while i < self.packs.len()
            invariant
                i <= self.packs@.len(),
                i > 0 ==> previous@ == requirement_key(all[i - 1].requirement),
                entries_fault(all, 0) == entries_fault(all, i as int),
            decreases self.packs@.len() - i,
        {
            assert(all[i as int] == self.packs@[i as int]@);
            match validate_entry(&self.packs[i]) {
                Ok(()) => {},
                Err(error) => {
                    return Err(error);
                },
            }
            let key = requirement_digest(self.packs[i].requirement.as_str());
            if i > 0 {
                let order = key_compared(previous.as_str(), key.as_str());
                proof {
                    lemma_comes_before(previous@, key@, previous@);
                }
                if !matches!(order, Comparison::Less) {
                    return Err(
                        FactPackLockError::Invalid(
                            "packs must be sorted by unique requirement digest".to_owned(),
                        ),
                    );
                }
            }
            previous = key;
            i += 1;
        }
        Ok(())
    }

    /// Pins a pack, in place of any that was pinned for the same requirement.
    #[verifier::loop_isolation(false)]
    pub fn insert(
        &mut self,
        pack: &CachedFactPack,
        origin: Option<String>,
        requirement: String,
    ) -> (result: Result<(), FactPackLockError>)
        ensures
            ({
                let entry = LockedView {
                    manifest_digest: pack@.manifest_digest,
                    origin: optional_text(origin),
                    manifest: pack@.manifest,
                    requirement: requirement@,
                };
                if lock_fault(old(self)@) is Some {
                    final(self)@ == old(self)@ && lock_fault_of(result) == lock_fault(old(self)@)
                } else if !is_valid(pack@.manifest) {
                    final(self)@ == old(self)@ && lock_fault_of(result) == Some(
                        LockFault::Manifest(
                            "invalid fact-pack manifest: "@ + joined_messages(
                                manifest_faults(pack@.manifest),
                            ),
                        ),
                    )
                } else {
                    &&& final(self)@ == (LockView {
                        packs: with_entry(old(self)@.packs, entry),
                        ..old(self)@
                    })
                    &&& lock_fault_of(result) == lock_fault(final(self)@)
                }
            }),
    {
        match self.validate() {
            Ok(()) => {},
            Err(error) => {
                return Err(error);
            },
        }
        match pack.manifest.validate() {
            Ok(()) => {},
            Err(error) => {
                return Err(FactPackLockError::Manifest(error));
            },
        }
        let key = requirement_digest(requirement.as_str());
        let ghost before = self@.packs;
        let entry = LockedFactPack {
            manifest_digest: pack.manifest_digest.clone(),
            origin,
            manifest: pack.manifest.clone(),
            requirement,
        };
        let ghost added = entry@;
        let mut given: Vec<LockedFactPack> = Vec::new();
        std::mem::swap(&mut given, &mut self.packs);
        let ghost held = given@;
        let count: usize = given.len();
        let mut rest = crate::lists::reversed(given);
        let ghost backward = rest@;
        let mut below: Vec<LockedFactPack> = Vec::new();
        let mut above: Vec<LockedFactPack> = Vec::new();
        let mut i: usize = 0;
        assert(locked_views(below@) =~= Seq::empty());
        assert(locked_views(above@) =~= Seq::empty());
        while i < count
            invariant
                i <= count,
                rest@ == backward.take(count - i),
                locked_views(below@) == entries_below(before, key@, i as int),
                locked_views(above@) == entries_above(before, key@, i as int),
            decreases count - i,
        {
            if let Some(one) = rest.pop() {
                assert(one == backward[count - 1 - i]);
                assert(one == held[i as int]);
                assert(before[i as int] == one@);
                assert(rest@ =~= backward.take(count - i - 1));
                let other = requirement_digest(one.requirement.as_str());
                proof {
                    lemma_comes_before(other@, key@, other@);
                }
                match key_compared(other.as_str(), key.as_str()) {
                    Comparison::Less => {
                        let ghost some = below@;
                        below.push(one);
                        assert(locked_views(below@) =~= locked_views(some).push(one@));
                    },
                    Comparison::Greater => {
                        let ghost some = above@;
                        above.push(one);
                        assert(locked_views(above@) =~= locked_views(some).push(one@));
                    },
                    Comparison::Equal => {},
                }
            }
            i += 1;
        }
        let ghost under = below@;
        let ghost over = above@;
        below.push(entry);
        below.append(&mut above);
        assert(locked_views(below@) =~= locked_views(under).push(added) + locked_views(over));
        self.packs = below;
        self.validate()
    }
}

/// Whether the entries of a lock are in the order of their keys, each key once.
pub open spec fn keys_ascend(packs: Seq<LockedView>) -> bool {
    forall|i: int, j: int|
        0 <= i < j < packs.len() ==> comes_before(
            requirement_key((#[trigger] packs[i]).requirement),
            requirement_key((#[trigger] packs[j]).requirement),
        )
}

/// In a list with which nothing is wrong, nothing is wrong with any entry.
pub proof fn lemma_valid_entries(packs: Seq<LockedView>, i: int)
    requires
        0 <= i <= packs.len(),
        entries_fault(packs, i) is None,
    ensures
        forall|k: int| i <= k < packs.len() ==> entry_fault(#[trigger] packs[k]) is None,
    decreases packs.len() - i,
{
    if i < packs.len() {
        lemma_valid_entries(packs, i + 1);
    }
}

/// In a list with which nothing is wrong, each key comes after the one before it.
proof fn lemma_key_steps(packs: Seq<LockedView>, i: int, k: int)
    requires
        0 <= i <= k < packs.len(),
        0 < k,
        entries_fault(packs, i) is None,
    ensures
        comes_before(
            requirement_key(packs[k - 1].requirement),
            requirement_key(packs[k].requirement),
        ),
    decreases packs.len() - i,
{
    if i < k {
        lemma_key_steps(packs, i + 1, k);
    }
}

/// Keys each of which comes after the one before it are in order.
proof fn lemma_keys_ascend(packs: Seq<LockedView>, i: int, j: int)
    requires
        0 <= i < j < packs.len(),
        entries_fault(packs, 0) is None,
    ensures
        comes_before(requirement_key(packs[i].requirement), requirement_key(packs[j].requirement)),
    decreases j - i,
{
    lemma_key_steps(packs, 0, j);
    if i + 1 < j {
        lemma_keys_ascend(packs, i, j - 1);
        let a = requirement_key(packs[i].requirement);
        let b = requirement_key(packs[j - 1].requirement);
        let c = requirement_key(packs[j].requirement);
        assert(comes_before(b, c));
        lemma_comes_before(a, b, c);
        lemma_comes_before(b, c, a);
        lemma_comes_before(a, c, b);
    }
}

/// Entries with nothing wrong whose keys are in order have nothing wrong.
proof fn lemma_entries_valid(packs: Seq<LockedView>, i: int)
    requires
        0 <= i <= packs.len(),
        forall|k: int| 0 <= k < packs.len() ==> entry_fault(#[trigger] packs[k]) is None,
        keys_ascend(packs),
    ensures
        entries_fault(packs, i) is None,
    decreases packs.len() - i,
{
    if i < packs.len() {
        lemma_entries_valid(packs, i + 1);
        if i > 0 {
            assert(comes_before(
                requirement_key(packs[i - 1].requirement),
                requirement_key(packs[i].requirement),
            ));
        }
    }
}

/// The entries below and above a key are those of the list that are.
proof fn lemma_split_entries(packs: Seq<LockedView>, key: Seq<char>, n: int)
    requires
        0 <= n <= packs.len(),
        keys_ascend(packs),
    ensures
        keys_ascend(entries_below(packs, key, n)),
        keys_ascend(entries_above(packs, key, n)),
        forall|entry: LockedView| #[trigger]
            entries_below(packs, key, n).contains(entry) <==> packs.take(n).contains(entry)
                && comes_before(requirement_key(entry.requirement), key),
        forall|entry: LockedView| #[trigger]
            entries_above(packs, key, n).contains(entry) <==> packs.take(n).contains(entry)
                && comes_before(key, requirement_key(entry.requirement)),
    decreases n,
{
    if n > 0 {
        lemma_split_entries(packs, key, n - 1);
        let last = packs[n - 1];
        let before = packs.take(n - 1);
        assert(packs.take(n) =~= before.push(last));
        lemma_pushed_entry(before, last);
        lemma_pushed_entry(entries_below(packs, key, n - 1), last);
        lemma_pushed_entry(entries_above(packs, key, n - 1), last);
        let below = entries_below(packs, key, n - 1);
        let above = entries_above(packs, key, n - 1);
        assert forall|i: int| 0 <= i < below.len() implies comes_before(
            requirement_key((#[trigger] below[i]).requirement),
            requirement_key(last.requirement),
        ) by {
            assert(below.contains(below[i]));
            let k = choose|k: int| 0 <= k < before.len() && before[k] == below[i];
            assert(packs[k] == below[i]);
        }
        assert forall|i: int| 0 <= i < above.len() implies comes_before(
            requirement_key((#[trigger] above[i]).requirement),
            requirement_key(last.requirement),
        ) by {
            assert(above.contains(above[i]));
            let k = choose|k: int| 0 <= k < before.len() && before[k] == above[i];
            assert(packs[k] == above[i]);
        }
    }
}

/// A list with one more entry holds what it held and the entry.
proof fn lemma_pushed_entry(list: Seq<LockedView>, last: LockedView)
    ensures
        forall|entry: LockedView| #[trigger]
            list.push(last).contains(entry) <==> list.contains(entry) || entry == last,
{
    let all = list.push(last);
    assert forall|entry: LockedView| #[trigger]
        all.contains(entry) <==> list.contains(entry) || entry == last by {
        assert(all[list.len() as int] == last);
        if list.contains(entry) {
            let k = choose|k: int| 0 <= k < list.len() && list[k] == entry;
            assert(all[k] == entry);
        }
        if all.contains(entry) {
            let k = choose|k: int| 0 <= k < all.len() && all[k] == entry;
            if k < list.len() {
                assert(list[k] == entry);
            }
        }
    }
}

/// Entries below a key, one of that key and entries above it are in order.
proof fn lemma_joined_ascend(below: Seq<LockedView>, entry: LockedView, above: Seq<LockedView>)
    requires
        keys_ascend(below),
        keys_ascend(above),
        forall|i: int|
            0 <= i < below.len() ==> comes_before(
                requirement_key((#[trigger] below[i]).requirement),
                requirement_key(entry.requirement),
            ),
        forall|i: int|
            0 <= i < above.len() ==> comes_before(
                requirement_key(entry.requirement),
                requirement_key((#[trigger] above[i]).requirement),
            ),
    ensures
        keys_ascend(below.push(entry) + above),
{
    let all = below.push(entry) + above;
    let m = below.len() as int;
    let key = requirement_key(entry.requirement);
    assert forall|i: int, j: int| 0 <= i < j < all.len() implies comes_before(
        requirement_key((#[trigger] all[i]).requirement),
        requirement_key((#[trigger] all[j]).requirement),
    ) by {
        let a = requirement_key(all[i].requirement);
        let b = requirement_key(all[j].requirement);
        if j < m {
            assert(all[i] == below[i] && all[j] == below[j]);
        } else if i > m {
            assert(all[i] == above[i - m - 1] && all[j] == above[j - m - 1]);
        } else {
            if i < m {
                assert(all[i] == below[i]);
            }
            if j > m {
                assert(all[j] == above[j - m - 1]);
            }
            lemma_comes_before(a, key, b);
        }
    }
}

/// What entries below a key, one of that key and entries above it hold.
proof fn lemma_joined_members(
    below: Seq<LockedView>,
    entry: LockedView,
    above: Seq<LockedView>,
    other: LockedView,
)
    ensures
        (below.push(entry) + above).contains(other) <==> other == entry || below.contains(other)
            || above.contains(other),
{
    let all = below.push(entry) + above;
    let m = below.len() as int;
    assert(all[m] == entry);
    if all.contains(other) {
        let p = choose|p: int| 0 <= p < all.len() && all[p] == other;
        if p < m {
            assert(below[p] == other);
        } else if p > m {
            assert(above[p - m - 1] == other);
        }
    }
    if below.contains(other) {
        let p = choose|p: int| 0 <= p < below.len() && below[p] == other;
        assert(all[p] == other);
    }
    if above.contains(other) {
        let p = choose|p: int| 0 <= p < above.len() && above[p] == other;
        assert(all[m + 1 + p] == other);
    }
}

/// The keys of a lock with which nothing is wrong are in order.
proof fn lemma_lock_ascends(packs: Seq<LockedView>)
    requires
        entries_fault(packs, 0) is None,
    ensures
        keys_ascend(packs),
{
    assert forall|i: int, j: int| 0 <= i < j < packs.len() implies comes_before(
        requirement_key((#[trigger] packs[i]).requirement),
        requirement_key((#[trigger] packs[j]).requirement),
    ) by {
        lemma_keys_ascend(packs, i, j);
    }
}

/// What a lock with one more entry holds, and that its keys are in order.
proof fn lemma_with_entry(packs: Seq<LockedView>, entry: LockedView)
    requires
        keys_ascend(packs),
    ensures
        keys_ascend(with_entry(packs, entry)),
        forall|other: LockedView| #[trigger]
            with_entry(packs, entry).contains(other) <==> other == entry || (packs.contains(other)
                && requirement_key(other.requirement) != requirement_key(entry.requirement)),
{
    let key = requirement_key(entry.requirement);
    let n = packs.len() as int;
    lemma_split_entries(packs, key, n);
    assert(packs.take(n) =~= packs);
    let below = entries_below(packs, key, n);
    let above = entries_above(packs, key, n);
    let all = with_entry(packs, entry);
    assert forall|i: int| 0 <= i < below.len() implies comes_before(
        requirement_key((#[trigger] below[i]).requirement),
        key,
    ) by {
        assert(below.contains(below[i]));
    }
    assert forall|i: int| 0 <= i < above.len() implies comes_before(
        key,
        requirement_key((#[trigger] above[i]).requirement),
    ) by {
        assert(above.contains(above[i]));
    }
    lemma_joined_ascend(below, entry, above);
    assert forall|other: LockedView| #[trigger]
        all.contains(other) <==> other == entry || (packs.contains(other) && requirement_key(
            other.requirement,
        ) != key) by {
        lemma_joined_members(below, entry, above, other);
        lemma_comes_before(requirement_key(other.requirement), key, key);
        assert(below.contains(other) <==> packs.contains(other) && comes_before(
            requirement_key(other.requirement),
            key,
        ));
        assert(above.contains(other) <==> packs.contains(other) && comes_before(
            key,
            requirement_key(other.requirement),
        ));
    }
}

/// Pinning a pack with which nothing is wrong keeps a lock valid, holds the pack,
/// keeps every other pack, and drops none but one for the same requirement.
pub proof fn law_pinning_keeps_the_lock(lock: LockView, entry: LockedView)
    requires
        lock_fault(lock) is None,
        entry_fault(entry) is None,
    ensures
        lock_fault(LockView { packs: with_entry(lock.packs, entry), ..lock }) is None,
        forall|other: LockedView| #[trigger]
            with_entry(lock.packs, entry).contains(other) <==> other == entry || (
            lock.packs.contains(other) && requirement_key(other.requirement) != requirement_key(
                entry.requirement,
            )),
{
    let packs = lock.packs;
    lemma_lock_ascends(packs);
    lemma_with_entry(packs, entry);
    lemma_with_entry_valid(packs, entry);
}

/// Nothing is wrong with a lock with one more entry, where nothing was with it
/// and nothing is with the entry.
proof fn lemma_with_entry_valid(packs: Seq<LockedView>, entry: LockedView)
    requires
        entries_fault(packs, 0) is None,
        entry_fault(entry) is None,
    ensures
        entries_fault(with_entry(packs, entry), 0) is None,
{
    lemma_lock_ascends(packs);
    lemma_with_entry(packs, entry);
    lemma_valid_entries(packs, 0);
    let all = with_entry(packs, entry);
    assert forall|k: int| 0 <= k < all.len() implies entry_fault(#[trigger] all[k]) is None by {
        assert(all.contains(all[k]));
        if all[k] != entry {
            let p = choose|p: int| 0 <= p < packs.len() && packs[p] == all[k];
            assert(entry_fault(packs[p]) is None);
        }
    }
    lemma_entries_valid(all, 0);
}

} // verus!
