//! What the commands that author packs decide, and what they tell.

use crate::command::{pack_line, pack_text};
use crate::lists::text_list;
use crate::external::{ExternalCallable, ExternalCatalog};
use crate::fact_pack::manifest::FactPackManifest;
use crate::text::{append_decimal, chars_of, contains_text, decimal, holds_text, same_text};
use vstd::prelude::*;
use vstd::string::*;

verus! {

/// Checks that what is to be built can be: only the core of the language, from
/// the source of its standard library.
pub fn build_subject(ecosystem: &str, package: &str) -> (result: Result<(), String>)
    ensures
        match result {
            Ok(()) => ecosystem@ == "cargo"@ && package@ == "core"@,
            Err(message) => if ecosystem@ != "cargo"@ {
                message@ == "Infact-pack authoring is not implemented for "@ + ecosystem@
                    + "; supported ecosystem is cargo"@
            } else {
                package@ != "core"@ && message@ == "Infact-pack authoring is not implemented for "@
                    + ecosystem@ + "/"@ + package@ + "; supported package is cargo/core"@
            },
        },
{
    let mut message = "Infact-pack authoring is not implemented for ".to_owned();
    message.append(ecosystem);
    if !same_text(ecosystem, "cargo") {
        message.append("; supported ecosystem is cargo");
        return Err(message);
    }
    if !same_text(package, "core") {
        message.append("/");
        message.append(package);
        message.append("; supported package is cargo/core");
        return Err(message);
    }
    Ok(())
}

/// Checks that the compiler is the one a pack is asked for.
pub fn check_compiler(requested: &str, active: &str) -> (result: Result<(), String>)
    ensures
        match result {
            Ok(()) => active@ == requested@,
            Err(message) => active@ != requested@ && message@ == "requested rust-core "@
                + requested@ + ", but the active compiler is "@ + active@,
        },
{
    if same_text(active, requested) {
        return Ok(());
    }
    let mut message = "requested rust-core ".to_owned();
    message.append(requested);
    message.append(", but the active compiler is ");
    message.append(active);
    Err(message)
}

/// Whether a catalog offers a callable.
pub open spec fn offers(catalog: ExternalCatalog, callable: Seq<char>) -> bool {
    exists|i: int|
        0 <= i < catalog.callables@.len() && (#[trigger] catalog.callables@[i]).path@ == callable
}

/// Whether a catalog offers a callable.
fn is_offered(callables: &Vec<ExternalCallable>, callable: &str) -> (offered: bool)
    ensures
        offered == exists|i: int|
            0 <= i < callables@.len() && (#[trigger] callables@[i]).path@ == callable@,
{
    let mut i: usize = 0;
    while i < callables.len()
        invariant
            i <= callables@.len(),
            forall|j: int| 0 <= j < i ==> (#[trigger] callables@[j]).path@ != callable@,
        decreases callables@.len() - i,
    {
        if same_text(callables[i].path.as_str(), callable) {
            return true;
        }
        i += 1;
    }
    false
}

/// The first catalog that offers a callable.
pub fn catalog_offering<'a>(catalogs: &'a Vec<ExternalCatalog>, callable: &str) -> (result: Result<
    &'a ExternalCatalog,
    String,
>)
    ensures
        match result {
            Ok(catalog) => exists|i: int|
                0 <= i < catalogs@.len() && *catalog == #[trigger] catalogs@[i] && offers(
                    catalogs@[i],
                    callable@,
                ) && forall|j: int| 0 <= j < i ==> !offers(#[trigger] catalogs@[j], callable@),
            Err(message) => {
                &&& forall|j: int|
                    0 <= j < catalogs@.len() ==> !offers(#[trigger] catalogs@[j], callable@)
                &&& message@ == "no external catalog contains "@ + callable@
            },
        },
{
    let mut i: usize = 0;
    while i < catalogs.len()
        invariant
            i <= catalogs@.len(),
            forall|j: int| 0 <= j < i ==> !offers(#[trigger] catalogs@[j], callable@),
        decreases catalogs@.len() - i,
    {
        if is_offered(&catalogs[i].callables, callable) {
            assert(offers(catalogs@[i as int], callable@));
            return Ok(&catalogs[i]);
        }
        i += 1;
    }
    let mut message = "no external catalog contains ".to_owned();
    message.append(callable);
    Err(message)
}

/// How a function that was read in part is told.
pub open spec fn damage_text(name: Seq<char>) -> Seq<char> {
    name + ": the parser could not read it whole"@
}

/// What could not be read of a library: files, and then functions that were read
/// in part. A function read in part is a hole in the pack.
pub fn unread_names(unparsed: Vec<String>, damaged: &Vec<String>) -> (unread: Vec<String>)
    ensures
        text_list(unread@) == text_list(unparsed@) + text_list(damaged@).map_values(
            |name: Seq<char>| damage_text(name),
        ),
{
    let ghost files = text_list(unparsed@);
    let ghost told = text_list(damaged@).map_values(|name: Seq<char>| damage_text(name));
    let mut unread = unparsed;
    let mut i: usize = 0;
    assert(text_list(unread@) =~= files + told.take(0));
    while i < damaged.len()
        invariant
            i <= damaged@.len(),
            told == text_list(damaged@).map_values(|name: Seq<char>| damage_text(name)),
            text_list(unread@) == files + told.take(i as int),
        decreases damaged@.len() - i,
    {
        let ghost before = unread@;
        let mut note = damaged[i].clone();
        note.append(": the parser could not read it whole");
        unread.push(note);
        assert(told[i as int] == damage_text(damaged@[i as int]@));
        assert(text_list(unread@) =~= text_list(before).push(note@));
        assert(told.take(i + 1) =~= told.take(i as int).push(told[i as int]));
        assert(text_list(unread@) =~= files + told.take(i + 1));
        i += 1;
    }
    assert(told.take(told.len() as int) =~= told);
    unread
}

/// Whether a pack may be written though some source could not be read.
///
/// Source the parser cannot read is a hole in the result, not a property of the
/// library, so it is refused unless the gap is accepted.
pub fn accept_unread(unread: &Vec<String>, allow: bool) -> (result: Result<(), String>)
    ensures
        match result {
            Ok(()) => unread@.len() == 0 || allow,
            Err(message) => unread@.len() > 0 && !allow && message@ == decimal(unread@.len())
                + " holes in what could be read, so anything they cover is missing from this pack; "@
                + "add a rewrite in entl-tree-sitter's dialect module, "@
                + "or pass --allow-unread to accept the gap"@,
        },
{
    if unread.len() == 0 || allow {
        return Ok(());
    }
    let mut message = String::new();
    append_decimal(&mut message, unread.len() as u128);
    assert(message@ =~= decimal(unread@.len()));
    message.append(
        " holes in what could be read, so anything they cover is missing from this pack; ",
    );
    message.append("add a rewrite in entl-tree-sitter's dialect module, ");
    message.append("or pass --allow-unread to accept the gap");
    Err(message)
}

/// Checks that paths are configured where they have to be.
pub fn check_paths(count: usize, kind: &str, required: bool) -> (result: Result<(), String>)
    ensures
        match result {
            Ok(()) => count > 0 || !required,
            Err(message) => count == 0 && required && message@ == "no "@ + kind@
                + " paths configured"@,
        },
{
    if count > 0 || !required {
        return Ok(());
    }
    let mut message = "no ".to_owned();
    message.append(kind);
    message.append(" paths configured");
    Err(message)
}

/// Whether a function is one of those asked for: all, or those whose name holds a
/// text.
pub fn is_wanted(name: &str, wanted: Option<&str>) -> (shown: bool)
    ensures
        shown == match wanted {
            Some(wanted) => holds_text(name@, wanted@),
            None => true,
        },
{
    match wanted {
        Some(wanted) => contains_text(name, wanted),
        None => true,
    }
}

/// How a function is shown: where it is, and its form as written and simplified.
pub fn function_text(path: &str, line: u32, name: &str, written: &str, simplified: &str) -> (text:
    String)
    ensures
        text@ == path@ + ":"@ + decimal(line as nat) + "  "@ + name@ + "\n  as written: "@
            + written@ + "\n  simplified: "@ + simplified@,
{
    let mut text = path.to_owned();
    text.append(":");
    append_decimal(&mut text, line as u128);
    text.append("  ");
    text.append(name);
    text.append("\n  as written: ");
    text.append(written);
    text.append("\n  simplified: ");
    text.append(simplified);
    text
}

/// How a checked pack is told: with how many contents it has.
pub fn checked_line(manifest: &FactPackManifest, digest: &str) -> (line: String)
    ensures
        line@ == pack_text(manifest@, digest@) + "  "@ + decimal(manifest.contents@.len())
            + " content blob(s)"@,
{
    let mut line = pack_line(manifest, digest);
    line.append("  ");
    append_decimal(&mut line, manifest.contents.len() as u128);
    line.append(" content blob(s)");
    line
}

/// How a pack built of the language is told.
pub fn language_pack_line(manifest: &FactPackManifest, digest: &str, summaries: usize) -> (line:
    String)
    ensures
        line@ == pack_text(manifest@, digest@) + "  "@ + decimal(summaries as nat)
            + " public effect summaries"@,
{
    let mut line = pack_line(manifest, digest);
    line.append("  ");
    append_decimal(&mut line, summaries as u128);
    line.append(" public effect summaries");
    line
}

/// How the behaviors of a library are told.
pub fn library_line(package: &str, version: &str, callables: usize, behaviors: usize) -> (line:
    String)
    ensures
        line@ == package@ + " "@ + version@ + "  "@ + decimal(callables as nat)
            + " public callables  "@ + decimal(behaviors as nat) + " behaviors"@,
{
    let mut line = package.to_owned();
    line.append(" ");
    line.append(version);
    line.append("  ");
    append_decimal(&mut line, callables as u128);
    line.append(" public callables  ");
    append_decimal(&mut line, behaviors as u128);
    line.append(" behaviors");
    line
}

/// The first so many names, with arrows between.
pub open spec fn chain_text(names: Seq<Seq<char>>, n: int) -> Seq<char>
    decreases n,
{
    if n <= 0 || n > names.len() {
        Seq::empty()
    } else if n == 1 {
        names[0]
    } else {
        chain_text(names, n - 1) + " -> "@ + names[n - 1]
    }
}

/// How a derived behavior is told: what it is of, how large it is, and the
/// callables it was followed through.
pub fn derived_line(callable: &str, size: u32, chain: &Vec<String>) -> (line: String)
    ensures
        line@ == callable@ + "  size "@ + decimal(size as nat) + "  from "@ + chain_text(
            text_list(chain@),
            chain@.len() as int,
        ),
{
    let ghost names = text_list(chain@);
    let mut followed = String::new();
    let mut i: usize = 0;
    while i < chain.len()
        invariant
            i <= chain@.len(),
            names == text_list(chain@),
            followed@ == chain_text(names, i as int),
        decreases chain@.len() - i,
    {
        let ghost before = followed@;
        if i > 0 {
            followed.append(" -> ");
        }
        followed.append(chain[i].as_str());
        proof {
            if i == 0 {
                assert(followed@ =~= names[0]);
            } else {
                assert(followed@ =~= before + " -> "@ + names[i as int]);
            }
        }
        i += 1;
    }
    let mut line = callable.to_owned();
    line.append("  size ");
    append_decimal(&mut line, size as u128);
    line.append("  from ");
    line.append(followed.as_str());
    line
}

/// A number written to fill a width, with spaces before it.
pub open spec fn filled_to(number: nat, width: nat) -> Seq<char> {
    let digits = decimal(number);
    if digits.len() < width {
        Seq::new((width - digits.len()) as nat, |i: int| ' ') + digits
    } else {
        digits
    }
}

/// Writes a number to fill a width.
fn append_filled(text: &mut String, number: usize, width: usize)
    ensures
        final(text)@ == old(text)@ + filled_to(number as nat, width as nat),
{
    let ghost start = text@;
    let ghost digits = decimal(number as nat);
    let mut written = String::new();
    append_decimal(&mut written, number as u128);
    assert(written@ =~= digits);
    let length: usize = chars_of(written.as_str()).len();
    let mut spaces: usize = if length < width {
        width - length
    } else {
        0
    };
    let ghost wanted = spaces;
    while spaces > 0
        invariant
            spaces <= wanted,
            text@ == start + Seq::new((wanted - spaces) as nat, |i: int| ' '),
        decreases spaces,
    {
        let ghost before = text@;
        text.push(' ');
        spaces -= 1;
        assert(text@ =~= start + Seq::new((wanted - spaces) as nat, |i: int| ' '));
    }
    text.append(written.as_str());
    assert(text@ =~= start + filled_to(number as nat, width as nat));
}

/// How often a reason held.
pub fn reason_line(reason: &str, count: usize) -> (line: String)
    ensures
        line@ == "  "@ + filled_to(count as nat, 6) + "  "@ + reason@,
{
    let mut line = "  ".to_owned();
    append_filled(&mut line, count, 6);
    line.append("  ");
    line.append(reason);
    line
}

/// How many calls an account placed under a heading.
pub fn account_line(count: usize, heading: &str) -> (line: String)
    ensures
        line@ == "  "@ + filled_to(count as nat, 4) + " "@ + heading@,
{
    let mut line = "  ".to_owned();
    append_filled(&mut line, count, 4);
    line.append(" ");
    line.append(heading);
    line
}

/// How an effect catalog is told: the callables that have effects, those that
/// were read, and the effects that were given.
pub fn effects_line(effectful: usize, public: usize, seeds: usize) -> (line: String)
    ensures
        line@ == decimal(effectful as nat) + " effectful public APIs from "@ + decimal(
            public as nat,
        ) + " public callables; "@ + decimal(seeds as nat) + " direct seeds"@,
{
    let mut line = String::new();
    append_decimal(&mut line, effectful as u128);
    assert(line@ =~= decimal(effectful as nat));
    line.append(" effectful public APIs from ");
    append_decimal(&mut line, public as u128);
    line.append(" public callables; ");
    append_decimal(&mut line, seeds as u128);
    line.append(" direct seeds");
    line
}

} // verus!
