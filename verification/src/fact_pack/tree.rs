//! The digest of a source tree.

use super::manifest::digest_of;
use crate::digest::{
    big_endian, lemma_big_endian_injective, lemma_big_endian_len, power_of_256, text_bytes,
    write_big_endian, write_bytes,
};
use crate::ordering::{ascends, lemma_ascending_unique};
use crate::sorting::{law_sorting_orders, law_sorting_permutes, sorted_list, sorted_of, Sortable};
use crate::text::{
    lemma_text_order_consistent, lemma_text_order_total, text_compared, text_order, Comparison,
};
use vstd::prelude::*;
use vstd::string::*;
use vstd::utf8::*;

verus! {

/// A file of a source tree, by its path from the root.
#[derive(Debug)]
pub struct SourceFile {
    pub path: String,
    pub bytes: Vec<u8>,
}

/// What an entry of a source tree is.
#[derive(Debug, Clone, Copy, PartialEq, Eq, Structural)]
pub enum EntryKind {
    SymbolicLink,
    Directory,
    File,
    Other,
}

/// What is done with an entry of a source tree.
#[derive(Debug, Clone, Copy, PartialEq, Eq)]
pub enum EntryStep {
    /// The tree cannot be used, and why.
    Refuse(&'static str),
    /// What is below it is collected.
    Descend,
    /// It is part of the tree.
    Collect,
    /// It is passed over.
    Skip,
}

/// What is done with an entry of a source tree: a link is refused, and a file
/// whose path is not text.
pub fn tree_step(kind: EntryKind, is_text: bool) -> (step: EntryStep)
    ensures
        step == match kind {
            EntryKind::SymbolicLink => EntryStep::Refuse("symbolic links are not included"),
            EntryKind::Directory => EntryStep::Descend,
            EntryKind::File => if is_text {
                EntryStep::Collect
            } else {
                EntryStep::Refuse("paths must be UTF-8")
            },
            EntryKind::Other => EntryStep::Skip,
        },
{
    match kind {
        EntryKind::SymbolicLink => EntryStep::Refuse("symbolic links are not included"),
        EntryKind::Directory => EntryStep::Descend,
        EntryKind::File => if is_text {
            EntryStep::Collect
        } else {
            EntryStep::Refuse("paths must be UTF-8")
        },
        EntryKind::Other => EntryStep::Skip,
    }
}

/// The paths and bytes of files.
pub open spec fn file_views(files: Seq<SourceFile>) -> Seq<(Seq<char>, Seq<u8>)> {
    Seq::new(files.len(), |i: int| (files[i].path@, files[i].bytes@))
}

impl Sortable for SourceFile {
    open spec fn sort_order(&self, other: &SourceFile) -> Comparison {
        text_order(self.path@, other.path@)
    }

    proof fn sorts_consistently(first: SourceFile, second: SourceFile, third: SourceFile) {
        lemma_text_order_consistent(first.path@, second.path@, third.path@);
    }

    fn compared_to(&self, other: &SourceFile) -> (order: Comparison) {
        text_compared(self.path.as_str(), other.path.as_str())
    }
}

/// Bytes behind their length.
pub open spec fn behind_length(bytes: Seq<u8>) -> Seq<u8> {
    big_endian(bytes.len(), 8) + bytes
}

/// How a file is digested: its path and its bytes, each behind its length.
pub open spec fn file_bytes(file: (Seq<char>, Seq<u8>)) -> Seq<u8> {
    behind_length(encode_utf8(file.0)) + behind_length(file.1)
}

/// How files are digested, one after the other.
pub open spec fn files_bytes(files: Seq<(Seq<char>, Seq<u8>)>) -> Seq<u8>
    decreases files.len(),
{
    if files.len() == 0 {
        Seq::empty()
    } else {
        file_bytes(files[0]) + files_bytes(files.drop_first())
    }
}

/// What a tree's digest is taken of.
pub open spec fn tree_bytes(files: Seq<(Seq<char>, Seq<u8>)>) -> Seq<u8> {
    encode_utf8("infact-source-tree-v1\0"@) + files_bytes(files)
}

/// Files digested after others are digested after them.
proof fn lemma_files_bytes(files: Seq<(Seq<char>, Seq<u8>)>, n: int)
    requires
        0 <= n < files.len(),
    ensures
        files_bytes(files.take(n + 1)) == files_bytes(files.take(n)) + file_bytes(files[n]),
    decreases n,
{
    let more = files.take(n + 1);
    let some = files.take(n);
    if n > 0 {
        lemma_files_bytes(files.drop_first(), n - 1);
        assert(more.drop_first() =~= files.drop_first().take(n));
        assert(some.drop_first() =~= files.drop_first().take(n - 1));
        assert(more[0] == some[0]);
        assert(files_bytes(more) =~= files_bytes(some) + file_bytes(files[n]));
    } else {
        assert(files_bytes(more.drop_first()) =~= Seq::empty());
        assert(more[0] == files[0]);
        assert(files_bytes(some) =~= Seq::empty());
        assert(files_bytes(more) =~= file_bytes(files[0]));
    }
}

/// Writes bytes behind their length.
fn write_part(output: &mut Vec<u8>, bytes: &Vec<u8>)
    ensures
        final(output)@ == old(output)@ + behind_length(bytes@),
{
    let ghost before = output@;
    write_big_endian(output, bytes.len() as u64, 8);
    write_bytes(output, bytes);
    assert(output@ =~= before + behind_length(bytes@));
}

/// The digest of a source tree: of its files in the order of their paths,
/// whatever order they are given in.
pub fn source_tree_sha256(files: Vec<SourceFile>) -> (digest: String)
    ensures
        digest@ == digest_of(tree_bytes(file_views(sorted_of(files@)))),
{
    let sorted = sorted_list(files);
    let ghost all = file_views(sorted@);
    let header = text_bytes("infact-source-tree-v1\0");
    let ghost start = header@;
    let mut output = header;
    let mut i: usize = 0;
    assert(all.take(0) =~= Seq::empty());
    assert(output@ =~= start + files_bytes(all.take(0)));
    while i < sorted.len()
        invariant
            i <= sorted@.len(),
            all == file_views(sorted@),
            output@ == start + files_bytes(all.take(i as int)),
        decreases sorted@.len() - i,
    {
        let ghost before = output@;
        let ghost file = all[i as int];
        assert(file == (sorted@[i as int].path@, sorted@[i as int].bytes@));
        let path = text_bytes(sorted[i].path.as_str());
        write_part(&mut output, &path);
        write_part(&mut output, &sorted[i].bytes);
        proof {
            lemma_files_bytes(all, i as int);
            assert(output@ =~= before + file_bytes(file));
            assert(output@ =~= start + files_bytes(all.take(i + 1)));
        }
        i += 1;
    }
    assert(all.take(i as int) =~= all);
    super::manifest::sha256(&output)
}

/// Whether no two files have the same path.
pub open spec fn paths_differ(files: Seq<(Seq<char>, Seq<u8>)>) -> bool {
    forall|i: int, j: int|
        0 <= i < files.len() && 0 <= j < files.len() && i != j ==> (#[trigger] files[i]).0 != (
        #[trigger] files[j]).0
}

/// The paths of files.
spec fn paths_of(files: Seq<(Seq<char>, Seq<u8>)>) -> Seq<Seq<char>> {
    Seq::new(files.len(), |i: int| files[i].0)
}

/// Sorting keeps which files there are.
proof fn lemma_sorted_files(files: Seq<SourceFile>)
    requires
        paths_differ(file_views(files)),
    ensures
        ascends::<String>(paths_of(file_views(sorted_of(files)))),
        paths_differ(file_views(sorted_of(files))),
        forall|file: (Seq<char>, Seq<u8>)| #[trigger]
            file_views(sorted_of(files)).contains(file) <==> file_views(files).contains(file),
{
    let sorted = sorted_of(files);
    let before = file_views(files);
    let after = file_views(sorted);
    law_sorting_permutes(files);
    law_sorting_orders(files);
    files.to_multiset_ensures();
    sorted.to_multiset_ensures();
    assert forall|file: (Seq<char>, Seq<u8>)| #[trigger]
        after.contains(file) <==> before.contains(file) by {
        if after.contains(file) {
            let k = choose|k: int| 0 <= k < after.len() && after[k] == file;
            assert(sorted.contains(sorted[k]));
            assert(files.to_multiset().count(sorted[k]) > 0);
            assert(files.contains(sorted[k]));
            let j = choose|j: int| 0 <= j < files.len() && files[j] == sorted[k];
            assert(before[j] == file);
        }
        if before.contains(file) {
            let k = choose|k: int| 0 <= k < before.len() && before[k] == file;
            assert(files.contains(files[k]));
            assert(sorted.to_multiset().count(files[k]) > 0);
            assert(sorted.contains(files[k]));
            let j = choose|j: int| 0 <= j < sorted.len() && sorted[j] == files[k];
            assert(after[j] == file);
        }
    }
    assert forall|i: int, j: int|
        0 <= i < after.len() && 0 <= j < after.len() && i != j implies (#[trigger] after[i]).0 != (
    #[trigger] after[j]).0 by {
        lemma_distinct_after(files, i, j);
    }
    assert forall|i: int, j: int|
        0 <= i < j < paths_of(after).len() implies text_order(
        #[trigger] paths_of(after)[i],
        #[trigger] paths_of(after)[j],
    ) == Comparison::Less by {
        assert(sorted[i].sort_order(&sorted[j]) != Comparison::Greater);
        assert(after[i].0 != after[j].0);
        lemma_text_order_total(after[i].0, after[j].0, after[i].0);
    }
}

/// Two places of a sorted list hold files of two paths.
proof fn lemma_distinct_after(files: Seq<SourceFile>, i: int, j: int)
    requires
        paths_differ(file_views(files)),
        0 <= i < sorted_of(files).len(),
        0 <= j < sorted_of(files).len(),
        i != j,
    ensures
        sorted_of(files)[i].path@ != sorted_of(files)[j].path@,
    decreases files.len(),
{
    if files.len() > 0 {
        let before = files.drop_last();
        let sorted = sorted_of(before);
        let item = files.last();
        let place = crate::sorting::place_behind(sorted, item, sorted.len() as int);
        crate::sorting::lemma_place_behind(sorted, item, sorted.len() as int);
        let after = sorted.insert(place, item);
        assert(paths_differ(file_views(before))) by {
            assert forall|a: int, b: int|
                0 <= a < before.len() && 0 <= b < before.len() && a != b implies (
            #[trigger] file_views(before)[a]).0 != (#[trigger] file_views(before)[b]).0 by {
                assert(file_views(files)[a].0 != file_views(files)[b].0);
            }
        }
        let a = if i < place {
            i
        } else {
            i - 1
        };
        let b = if j < place {
            j
        } else {
            j - 1
        };
        if i != place && j != place {
            assert(after[i] == sorted[a] && after[j] == sorted[b]);
            lemma_distinct_after(before, a, b);
        } else {
            let k = if i == place {
                b
            } else {
                a
            };
            law_sorting_permutes(before);
            before.to_multiset_ensures();
            sorted.to_multiset_ensures();
            assert(sorted.contains(sorted[k]));
            assert(before.to_multiset().count(sorted[k]) > 0);
            assert(before.contains(sorted[k]));
            let m = choose|m: int| 0 <= m < before.len() && before[m] == sorted[k];
            assert(file_views(files)[m].0 != file_views(files)[files.len() - 1].0);
            assert(files[m] == before[m]);
            if i == place {
                assert(after[i] == item && after[j] == sorted[b]);
            } else {
                assert(after[i] == sorted[a] && after[j] == item);
            }
        }
    }
}

/// The same files give the same digest, whatever order they are given in.
pub proof fn law_tree_ignores_order(first: Seq<SourceFile>, second: Seq<SourceFile>)
    requires
        paths_differ(file_views(first)),
        paths_differ(file_views(second)),
        forall|file: (Seq<char>, Seq<u8>)| #[trigger]
            file_views(first).contains(file) <==> file_views(second).contains(file),
    ensures
        file_views(sorted_of(first)) == file_views(sorted_of(second)),
{
    lemma_sorted_files(first);
    lemma_sorted_files(second);
    let one = file_views(sorted_of(first));
    let two = file_views(sorted_of(second));
    assert forall|path: Seq<char>| #[trigger]
        paths_of(one).contains(path) <==> paths_of(two).contains(path) by {
        if paths_of(one).contains(path) {
            let k = choose|k: int| 0 <= k < one.len() && paths_of(one)[k] == path;
            assert(one.contains(one[k]));
            assert(file_views(first).contains(one[k]));
            assert(two.contains(one[k]));
            let j = choose|j: int| 0 <= j < two.len() && two[j] == one[k];
            assert(paths_of(two)[j] == path);
        }
        if paths_of(two).contains(path) {
            let k = choose|k: int| 0 <= k < two.len() && paths_of(two)[k] == path;
            assert(two.contains(two[k]));
            assert(file_views(second).contains(two[k]));
            assert(one.contains(two[k]));
            let j = choose|j: int| 0 <= j < one.len() && one[j] == two[k];
            assert(paths_of(one)[j] == path);
        }
    }
    lemma_ascending_unique::<String>(paths_of(one), paths_of(two));
    assert forall|i: int| 0 <= i < one.len() implies one[i] == two[i] by {
        assert(paths_of(one)[i] == paths_of(two)[i]);
        assert(one.contains(one[i]));
        assert(file_views(first).contains(one[i]));
        assert(two.contains(one[i]));
        let j = choose|j: int| 0 <= j < two.len() && two[j] == one[i];
        assert(two[j].0 == two[i].0);
    }
    assert(one =~= two);
}

/// Two byte strings that begin with two parts behind their lengths begin with the
/// same part and go on in the same way.
proof fn lemma_split_part(left: Seq<u8>, left_rest: Seq<u8>, right: Seq<u8>, right_rest: Seq<u8>)
    requires
        left.len() <= u64::MAX,
        right.len() <= u64::MAX,
        behind_length(left) + left_rest == behind_length(right) + right_rest,
    ensures
        left == right,
        left_rest == right_rest,
{
    let one = behind_length(left) + left_rest;
    let two = behind_length(right) + right_rest;
    lemma_big_endian_len(left.len(), 8);
    lemma_big_endian_len(right.len(), 8);
    assert(one.take(8) =~= big_endian(left.len(), 8));
    assert(two.take(8) =~= big_endian(right.len(), 8));
    assert(power_of_256(8) == 0x1_0000_0000_0000_0000) by {
        reveal_with_fuel(power_of_256, 9);
    }
    lemma_big_endian_injective(left.len(), right.len(), 8);
    assert(left =~= one.subrange(8, 8int + left.len()));
    assert(right =~= two.subrange(8, 8int + right.len()));
    assert(left_rest =~= one.skip(8int + left.len()));
    assert(right_rest =~= two.skip(8int + right.len()));
}

/// Whether every part of files has a length that can be written.
pub open spec fn lengths_fit(files: Seq<(Seq<char>, Seq<u8>)>) -> bool {
    forall|i: int|
        0 <= i < files.len() ==> encode_utf8((#[trigger] files[i]).0).len() <= u64::MAX
            && files[i].1.len() <= u64::MAX
}

/// What a tree's digest is taken of tells which files, of which paths and which
/// bytes, the tree has.
pub proof fn law_tree_bytes_tell_files(
    first: Seq<(Seq<char>, Seq<u8>)>,
    second: Seq<(Seq<char>, Seq<u8>)>,
)
    requires
        lengths_fit(first),
        lengths_fit(second),
        tree_bytes(first) == tree_bytes(second),
    ensures
        first == second,
{
    let header = encode_utf8("infact-source-tree-v1\0"@);
    let one = tree_bytes(first);
    let two = tree_bytes(second);
    assert(files_bytes(first) =~= one.skip(header.len() as int));
    assert(files_bytes(second) =~= two.skip(header.len() as int));
    lemma_files_told(first, second);
}

/// How files are digested tells them apart.
proof fn lemma_files_told(first: Seq<(Seq<char>, Seq<u8>)>, second: Seq<(Seq<char>, Seq<u8>)>)
    requires
        lengths_fit(first),
        lengths_fit(second),
        files_bytes(first) == files_bytes(second),
    ensures
        first == second,
    decreases first.len(),
{
    if first.len() > 0 {
        lemma_big_endian_len(encode_utf8(first[0].0).len(), 8);
    }
    if second.len() > 0 {
        lemma_big_endian_len(encode_utf8(second[0].0).len(), 8);
    }
    if first.len() > 0 && second.len() > 0 {
        let a = first[0];
        let b = second[0];
        let a_rest = files_bytes(first.drop_first());
        let b_rest = files_bytes(second.drop_first());
        assert(files_bytes(first) =~= behind_length(encode_utf8(a.0)) + (behind_length(a.1)
            + a_rest));
        assert(files_bytes(second) =~= behind_length(encode_utf8(b.0)) + (behind_length(b.1)
            + b_rest));
        lemma_split_part(
            encode_utf8(a.0),
            behind_length(a.1) + a_rest,
            encode_utf8(b.0),
            behind_length(b.1) + b_rest,
        );
        lemma_split_part(a.1, a_rest, b.1, b_rest);
        encode_utf8_decode_utf8(a.0);
        encode_utf8_decode_utf8(b.0);
        assert(lengths_fit(first.drop_first())) by {
            assert forall|i: int| 0 <= i < first.drop_first().len() implies encode_utf8(
                (#[trigger] first.drop_first()[i]).0,
            ).len() <= u64::MAX && first.drop_first()[i].1.len() <= u64::MAX by {
                assert(first.drop_first()[i] == first[i + 1]);
            }
        }
        assert(lengths_fit(second.drop_first())) by {
            assert forall|i: int| 0 <= i < second.drop_first().len() implies encode_utf8(
                (#[trigger] second.drop_first()[i]).0,
            ).len() <= u64::MAX && second.drop_first()[i].1.len() <= u64::MAX by {
                assert(second.drop_first()[i] == second[i + 1]);
            }
        }
        lemma_files_told(first.drop_first(), second.drop_first());
        assert(first =~= seq![a] + first.drop_first());
        assert(second =~= seq![b] + second.drop_first());
    } else {
        assert(first.len() > 0 ==> files_bytes(first).len() >= 8);
        assert(second.len() > 0 ==> files_bytes(second).len() >= 8);
        assert(first =~= second);
    }
}

} // verus!
