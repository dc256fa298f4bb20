//! What is decided about the packs of a cache.

use super::cache::{
    digest_fault, digest_hex, fault_of, hex_part, pack_views, validate_digest, CacheError,
    CacheFault, CachedFactPack, PackView, CACHE_MARKER, CACHE_SCHEMA,
};
use super::requirement::{satisfies, FactPackRequirement, RequirementView};
use super::rules::begins_with;
use crate::ordering::{keys, settled_list, settled_of};
use crate::text::{append_decimal, chars_of, decimal, same_text, text_of};
use vstd::prelude::*;
use vstd::string::*;

verus! {

/// Where packs are kept.
#[derive(Debug, Clone)]
pub struct FactPackCache {
    root: String,
}

/// What stands at the root of a cache before it is opened.
#[derive(Debug, Clone, Copy, PartialEq, Eq, Structural)]
pub enum RootState {
    /// A marker of a schema.
    Marked(u32),
    /// Nothing.
    Empty,
    /// Something, and no marker.
    Occupied,
}

/// What is wrong with the root of a cache.
pub open spec fn root_fault(root: Seq<char>, state: RootState) -> Option<CacheFault> {
    match state {
        RootState::Marked(schema) => if schema != CACHE_SCHEMA {
            Some(
                CacheFault::InvalidCache(
                    "cache schema is "@ + decimal(schema as nat) + ", supported schema is "@
                        + decimal(CACHE_SCHEMA as nat),
                ),
            )
        } else {
            None
        },
        RootState::Empty => None,
        RootState::Occupied => Some(
            CacheFault::InvalidCache(root + " is nonempty and has no "@ + CACHE_MARKER@),
        ),
    }
}

/// Whether an entry of a cache is a text with an ending.
pub open spec fn ends_with(text: Seq<char>, ending: Seq<char>) -> bool {
    ending.len() <= text.len() && text.skip(text.len() - ending.len()) == ending
}

/// The digest that an entry is named after.
pub open spec fn entry_digest(name: Seq<char>) -> Seq<char> {
    "sha256:"@ + name.take(name.len() - ".toml"@.len())
}

/// What is wrong with the name of an entry.
pub open spec fn entry_fault(directory: Seq<char>, name: Option<Seq<char>>) -> Option<CacheFault> {
    match name {
        Some(name) => if !ends_with(name, ".toml"@) {
            Some(CacheFault::InvalidCache("unexpected entry "@ + directory + "/"@ + name))
        } else {
            digest_fault(entry_digest(name))
        },
        None => Some(
            CacheFault::InvalidCache("entry name in "@ + directory + " is not UTF-8"@),
        ),
    }
}

/// The contents of names, where they are texts.
pub open spec fn name_texts(names: Seq<Option<String>>) -> Seq<Option<Seq<char>>> {
    Seq::new(
        names.len(),
        |i: int|
            match names[i] {
                Some(name) => Some(name@),
                None => None,
            },
    )
}

/// What is wrong with the first of several names of entries with which something
/// is wrong, from a place on.
pub open spec fn entries_fault(
    directory: Seq<char>,
    names: Seq<Option<Seq<char>>>,
    i: int,
) -> Option<CacheFault>
    decreases names.len() - i,
{
    if i < 0 || i >= names.len() {
        None
    } else if entry_fault(directory, names[i]) is Some {
        entry_fault(directory, names[i])
    } else {
        entries_fault(directory, names, i + 1)
    }
}

/// The digests that entries are named after.
pub open spec fn entry_digests(names: Seq<Option<Seq<char>>>) -> Seq<Seq<char>> {
    Seq::new(names.len(), |i: int| entry_digest(names[i]->0))
}

/// Whether a pack satisfies a requirement.
pub open spec fn is_candidate(packs: Seq<PackView>, requirement: RequirementView, i: int) -> bool {
    0 <= i < packs.len() && satisfies(requirement, packs[i].manifest)
}

/// Whether a pack satisfies a requirement and none that does has a higher
/// revision.
pub open spec fn is_best(packs: Seq<PackView>, requirement: RequirementView, i: int) -> bool {
    &&& is_candidate(packs, requirement, i)
    &&& forall|j: int| #[trigger]
        is_candidate(packs, requirement, j) ==> packs[j].manifest.revision
            <= packs[i].manifest.revision
}

/// What resolving a requirement gives: nothing where no pack satisfies it, the
/// pack of the highest revision that does, or an error where several have it.
pub open spec fn resolves(
    packs: Seq<PackView>,
    requirement: RequirementView,
    result: Result<Option<PackView>, CacheFault>,
) -> bool {
    match result {
        Ok(None) => forall|i: int| !(#[trigger] is_candidate(packs, requirement, i)),
        Ok(Some(pack)) => exists|i: int|
            {
                &&& #[trigger] is_best(packs, requirement, i)
                &&& forall|j: int| #[trigger] is_best(packs, requirement, j) ==> j == i
                &&& pack == packs[i]
            },
        Err(fault) => exists|i: int, j: int|
            {
                &&& i != j
                &&& #[trigger] is_best(packs, requirement, i)
                &&& #[trigger] is_best(packs, requirement, j)
                &&& fault == CacheFault::Ambiguous(requirement.name, packs[i].manifest.revision)
            },
    }
}

/// What resolving gives, seen by content.
pub open spec fn resolution(result: Result<Option<CachedFactPack>, CacheError>) -> Result<
    Option<PackView>,
    CacheFault,
> {
    match result {
        Ok(Some(pack)) => Ok(Some(pack@)),
        Ok(None) => Ok(None),
        Err(error) => Err(error@),
    }
}

/// Of several packs, resolving finds one result only.
pub proof fn law_resolution_is_unique(
    packs: Seq<PackView>,
    requirement: RequirementView,
    first: Result<Option<PackView>, CacheFault>,
    second: Result<Option<PackView>, CacheFault>,
)
    requires
        resolves(packs, requirement, first),
        resolves(packs, requirement, second),
    ensures
        first == second,
{
    if let Ok(None) = first {
        assert forall|i: int| !(#[trigger] is_best(packs, requirement, i)) by {
            assert(!is_candidate(packs, requirement, i));
        }
    }
    if let Ok(None) = second {
        assert forall|i: int| !(#[trigger] is_best(packs, requirement, i)) by {
            assert(!is_candidate(packs, requirement, i));
        }
    }
}

impl FactPackCache {
    /// A cache at a root, given what stands there; and whether its marker has to
    /// be written.
    pub fn open(root: String, state: RootState) -> (result: Result<(Self, bool), CacheError>)
        ensures
            match result {
                Ok((cache, fresh)) => {
                    &&& root_fault(root@, state) is None
                    &&& cache.root_text() == root@
                    &&& fresh == (state == RootState::Empty)
                },
                Err(error) => root_fault(root@, state) == Some(error@),
            },
    {
        match state {
            RootState::Marked(schema) => {
                if schema != CACHE_SCHEMA {
                    let mut message = "cache schema is ".to_owned();
                    append_decimal(&mut message, schema as u128);
                    message.append(", supported schema is ");
                    append_decimal(&mut message, CACHE_SCHEMA as u128);
                    return Err(CacheError::InvalidCache(message));
                }
                Ok((FactPackCache { root }, false))
            },
            RootState::Empty => Ok((FactPackCache { root }, true)),
            RootState::Occupied => {
                let mut message = root.clone();
                message.append(" is nonempty and has no ");
                message.append(CACHE_MARKER);
                Err(CacheError::InvalidCache(message))
            },
        }
    }

    /// Where the cache is.
    pub closed spec fn root_text(&self) -> Seq<char> {
        self.root@
    }

    /// Where the cache is.
    pub fn root(&self) -> (root: &str)
        ensures
            root@ == self.root_text(),
    {
        self.root.as_str()
    }

    /// The directory of the blobs.
    pub fn blob_root(&self) -> (path: String)
        ensures
            path@ == self.root_text() + "/blobs/sha256"@,
    {
        let mut path = self.root.clone();
        path.append("/blobs/sha256");
        path
    }

    /// The directory of the entries.
    pub fn entry_root(&self) -> (path: String)
        ensures
            path@ == self.root_text() + "/entries/sha256"@,
    {
        let mut path = self.root.clone();
        path.append("/entries/sha256");
        path
    }

    /// Where the entry of a pack is kept.
    pub fn entry_path(&self, digest: &str) -> (path: String)
        requires
            begins_with(digest@, "sha256:"@),
        ensures
            path@ == self.root_text() + "/entries/sha256"@ + "/"@ + hex_part(digest@) + ".toml"@,
    {
        let mut path = self.entry_root();
        path.append("/");
        let hex = digest_hex(digest);
        path.append(hex.as_str());
        path.append(".toml");
        path
    }

    /// Checks that an entry describes the pack it is kept for.
    pub fn check_entry(&self, schema: u32, recorded: &str, digest: &str) -> (result: Result<
        (),
        CacheError,
    >)
        requires
            begins_with(digest@, "sha256:"@),
        ensures
            fault_of(result) == if schema != CACHE_SCHEMA || recorded@ != digest@ {
                Some(
                    CacheFault::InvalidCache(
                        "entry "@ + (self.root_text() + "/entries/sha256"@ + "/"@ + hex_part(
                            digest@,
                        ) + ".toml"@) + " does not describe "@ + digest@,
                    ),
                )
            } else {
                None
            },
    {
        if schema != CACHE_SCHEMA || !same_text(recorded, digest) {
            let mut message = "entry ".to_owned();
            let path = self.entry_path(digest);
            message.append(path.as_str());
            message.append(" does not describe ");
            message.append(digest);
            return Err(CacheError::InvalidCache(message));
        }
        Ok(())
    }

    /// The digests of the packs that entries are named after, in order. A name
    /// that is not text is handed over as none.
    #[verifier::loop_isolation(false)]
    pub fn list(&self, names: &Vec<Option<String>>) -> (result: Result<Vec<String>, CacheError>)
        ensures
            match result {
                Ok(digests) => {
                    &&& entries_fault(
                        self.root_text() + "/entries/sha256"@,
                        name_texts(names@),
                        0,
                    ) is None
                    &&& keys(digests@) == settled_of::<String>(entry_digests(name_texts(names@)))
                },
                Err(error) => entries_fault(
                    self.root_text() + "/entries/sha256"@,
                    name_texts(names@),
                    0,
                ) == Some(error@),
            },
    {
        let directory = self.entry_root();
        let ghost all = name_texts(names@);
        let ghost wanted = entry_digests(all);
        let mut digests: Vec<String> = Vec::new();
        let mut i: usize = 0;
        while i < names.len()
            invariant
                i <= names@.len(),
                entries_fault(directory@, all, 0) == entries_fault(directory@, all, i as int),
                keys(digests@) =~= wanted.take(i as int),
            decreases names@.len() - i,
        {
            let name = match &names[i] {
                Some(name) => name,
                None => {
                    let mut message = "entry name in ".to_owned();
                    message.append(directory.as_str());
                    message.append(" is not UTF-8");
                    return Err(CacheError::InvalidCache(message));
                },
            };
            assert(all[i as int] == Some(name@));
            match digest_of_entry(directory.as_str(), name.as_str()) {
                Ok(digest) => {
                    let ghost before = digests@;
                    digests.push(digest);
                    assert(keys(digests@) =~= keys(before).push(wanted[i as int]));
                },
                Err(error) => {
                    return Err(error);
                },
            }
            i += 1;
        }
        assert(keys(digests@) =~= wanted);
        Ok(settled_list(digests))
    }

    /// The pack of the highest revision that satisfies a requirement.
    pub fn resolve(&self, packs: Vec<CachedFactPack>, requirement: &FactPackRequirement) -> (result:
        Result<Option<CachedFactPack>, CacheError>)
        ensures
            resolves(pack_views(packs@), requirement@, resolution(result)),
    {
        let ghost views = pack_views(packs@);
        let ghost wanted = requirement@;
        let mut best: Option<usize> = None;
        let mut other: Option<usize> = None;
        let mut i: usize = 0;
        while i < packs.len()
            invariant
                i <= packs@.len(),
                views == pack_views(packs@),
                wanted == requirement@,
                match best {
                    Some(best) => {
                        &&& best < i
                        &&& is_candidate(views, wanted, best as int)
                        &&& forall|j: int|
                            j < i && #[trigger] is_candidate(views, wanted, j) ==> views[j].manifest.revision
                                <= views[best as int].manifest.revision
                    },
                    None => other is None && forall|j: int|
                        j < i ==> !(#[trigger] is_candidate(views, wanted, j)),
                },
                match other {
                    Some(other) => {
                        &&& best is Some
                        &&& other < i
                        &&& other != best->0
                        &&& is_candidate(views, wanted, other as int)
                        &&& views[other as int].manifest.revision
                            == views[best->0 as int].manifest.revision
                    },
                    None => best is Some ==> forall|j: int|
                        j < i && j != best->0 && #[trigger] is_candidate(views, wanted, j)
                            ==> views[j].manifest.revision
                            < views[best->0 as int].manifest.revision,
                },
            decreases packs@.len() - i,
        {
            assert(views[i as int] == packs@[i as int]@);
            if requirement.matches(&packs[i].manifest) {
                assert(is_candidate(views, wanted, i as int));
                match best {
                    Some(held) => {
                        assert(views[held as int] == packs@[held as int]@);
                        if packs[i].manifest.revision > packs[held].manifest.revision {
                            best = Some(i);
                            other = None;
                        } else if packs[i].manifest.revision == packs[held].manifest.revision {
                            other = Some(i);
                        }
                    },
                    None => {
                        best = Some(i);
                    },
                }
            }
            i += 1;
        }
        match (best, other) {
            (None, _) => {
                assert forall|j: int| !(#[trigger] is_candidate(views, wanted, j)) by {}
                Ok(None)
            },
            (Some(held), Some(second)) => {
                assert(views[held as int] == packs@[held as int]@);
                assert(is_best(views, wanted, held as int));
                assert(is_best(views, wanted, second as int));
                Err(
                    CacheError::Ambiguous {
                        name: requirement.name.clone(),
                        revision: packs[held].manifest.revision,
                    },
                )
            },
            (Some(held), None) => {
                assert(is_best(views, wanted, held as int));
                assert forall|j: int| #[trigger] is_best(views, wanted, j) implies j == held by {
                    assert(is_candidate(views, wanted, j));
                    assert(is_candidate(views, wanted, held as int));
                }
                let mut rest = packs;
                let pack = rest.swap_remove(held);
                assert(views[held as int] == pack@);
                Ok(Some(pack))
            },
        }
    }
}

/// The digest that an entry is named after.
fn digest_of_entry(directory: &str, name: &str) -> (result: Result<String, CacheError>)
    ensures
        match result {
            Ok(digest) => entry_fault(directory@, Some(name@)) is None && digest@ == entry_digest(
                name@,
            ),
            Err(error) => entry_fault(directory@, Some(name@)) == Some(error@),
        },
{
    let chars = chars_of(name);
    let count: usize = chars.len();
    let ending: usize = chars_of(".toml").len();
    let mut ends = false;
    if ending <= count {
        assert(chars@.subrange(count - ending, count as int) =~= chars@.skip(count - ending));
        let tail = text_of(&chars, count - ending, count);
        ends = same_text(tail.as_str(), ".toml");
    }
    if !ends {
        let mut message = "unexpected entry ".to_owned();
        message.append(directory);
        message.append("/");
        message.append(name);
        return Err(CacheError::InvalidCache(message));
    }
    assert(chars@.subrange(0, count - ending) =~= chars@.take(count - ending));
    let hex = text_of(&chars, 0, count - ending);
    let mut digest = "sha256:".to_owned();
    digest.append(hex.as_str());
    match validate_digest(digest.as_str()) {
        Ok(()) => Ok(digest),
        Err(error) => Err(error),
    }
}

/// A blob that was downloaded.
#[derive(Debug)]
pub struct Downloaded {
    pub digest: String,
    pub bytes: Vec<u8>,
}

} // verus!
