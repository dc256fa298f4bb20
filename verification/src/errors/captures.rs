//! What a query found in a syntax tree.

use crate::normalize::form::optional_text;
use crate::ordering::{keys, settled_list, settled_of, Ordered};
use crate::syntax::{named_from, tree_of, SyntaxNode, Tree};
use crate::text::{number_order, same_text, settled_by, Comparison};
use vstd::prelude::*;

verus! {

/// A node that a query named: the way down to it from the root, as the place of
/// a child at each level.
#[derive(Debug)]
pub struct Capture {
    pub name: String,
    pub path: Vec<usize>,
}

/// One match of a query: the nodes it named.
#[derive(Debug)]
pub struct QueryMatch {
    pub captures: Vec<Capture>,
}

/// The content of a [`Capture`].
pub struct CaptureView {
    pub name: Seq<char>,
    pub path: Seq<usize>,
}

impl View for QueryMatch {
    type V = Seq<CaptureView>;

    open spec fn view(&self) -> Seq<CaptureView> {
        Seq::new(
            self.captures@.len(),
            |i: int|
                CaptureView {
                    name: self.captures@[i].name@,
                    path: self.captures@[i].path@,
                },
        )
    }
}

/// The contents of matches.
pub open spec fn match_views(matches: Seq<QueryMatch>) -> Seq<Seq<CaptureView>> {
    Seq::new(matches.len(), |i: int| matches[i]@)
}

/// The node at the end of a way down.
pub open spec fn tree_at(tree: Tree, path: Seq<usize>) -> Option<Tree>
    decreases path.len(),
{
    if path.len() == 0 {
        Some(tree)
    } else if path[0] < tree.parts.len() {
        tree_at(tree.parts[path[0] as int], path.drop_first())
    } else {
        None
    }
}

/// The first capture of a name from a place on that stands in a tree.
pub open spec fn captured_from(
    tree: Tree,
    captures: Seq<CaptureView>,
    name: Seq<char>,
    i: int,
) -> Option<int>
    decreases captures.len() - i,
{
    if i < 0 || i >= captures.len() {
        None
    } else if captures[i].name == name && tree_at(tree, captures[i].path) is Some {
        Some(i)
    } else {
        captured_from(tree, captures, name, i + 1)
    }
}

/// The node that a match captured under a name.
pub open spec fn captured(tree: Tree, captures: Seq<CaptureView>, name: Seq<char>) -> Option<Tree> {
    match captured_from(tree, captures, name, 0) {
        Some(i) => tree_at(tree, captures[i].path),
        None => None,
    }
}

/// The text that a match captured under a name.
pub open spec fn captured_text(
    tree: Tree,
    captures: Seq<CaptureView>,
    name: Seq<char>,
) -> Option<Seq<char>> {
    match captured(tree, captures, name) {
        Some(node) => node.text,
        None => None,
    }
}

/// The node at the end of a way down, from a place on it on.
pub(crate) fn node_at<'a>(
    root: &'a SyntaxNode,
    path: &Vec<usize>,
    count: usize,
    source: Ghost<Seq<u8>>,
) -> (node: Option<&'a SyntaxNode>)
    requires
        count <= path@.len(),
    ensures
        match node {
            Some(node) => tree_at(tree_of(*root, source@), path@.take(count as int)) == Some(
                tree_of(*node, source@),
            ),
            None => tree_at(tree_of(*root, source@), path@.take(count as int)) is None,
        },
{
    let ghost way = path@.take(count as int);
    let mut node = root;
    let mut i: usize = 0;
    assert(way.skip(0) =~= way);
    while i < count
        invariant
            i <= count <= path@.len(),
            way == path@.take(count as int),
            tree_at(tree_of(*root, source@), way) == tree_at(
                tree_of(*node, source@),
                way.skip(i as int),
            ),
        decreases count - i,
    {
        let place: usize = path[i];
        let ghost tree = tree_of(*node, source@);
        proof {
            assert(way.skip(i as int).drop_first() =~= way.skip(i + 1));
            assert(way.skip(i as int)[0] == place);
            assert(tree.parts.len() == node.children@.len());
        }
        if place >= node.children.len() {
            return None;
        }
        assert(tree.parts[place as int] == tree_of(node.children@[place as int], source@));
        node = &node.children[place];
        i += 1;
    }
    assert(way.skip(i as int).len() == 0);
    Some(node)
}

impl QueryMatch {
    /// Which capture of a name stands first in a tree, and the node it names.
    pub(crate) fn find<'a>(
        &self,
        root: &'a SyntaxNode,
        name: &str,
        source: Ghost<Seq<u8>>,
    ) -> (found: Option<(usize, &'a SyntaxNode)>)
        ensures
            match found {
                Some((place, node)) => {
                    &&& place < self.captures@.len()
                    &&& captured_from(tree_of(*root, source@), self@, name@, 0) == Some(
                        place as int,
                    )
                    &&& captured(tree_of(*root, source@), self@, name@) == Some(
                        tree_of(*node, source@),
                    )
                },
                None => captured_from(tree_of(*root, source@), self@, name@, 0) is None,
            },
    {
        let ghost tree = tree_of(*root, source@);
        let ghost all = self@;
        let mut i: usize = 0;
        while i < self.captures.len()
            invariant
                i <= self.captures@.len(),
                tree == tree_of(*root, source@),
                all == self@,
                captured_from(tree, all, name@, 0) == captured_from(tree, all, name@, i as int),
            decreases self.captures@.len() - i,
        {
            let capture = &self.captures[i];
            assert(all[i as int].path == capture.path@);
            if same_text(capture.name.as_str(), name) {
                let count: usize = capture.path.len();
                assert(capture.path@.take(count as int) =~= capture.path@);
                if let Some(node) = node_at(root, &capture.path, count, source) {
                    return Some((i, node));
                }
            }
            i += 1;
        }
        None
    }

    /// The node captured under a name.
    pub(crate) fn capture<'a>(
        &self,
        root: &'a SyntaxNode,
        name: &str,
        source: Ghost<Seq<u8>>,
    ) -> (node: Option<&'a SyntaxNode>)
        ensures
            match node {
                Some(node) => captured(tree_of(*root, source@), self@, name@) == Some(
                    tree_of(*node, source@),
                ),
                None => captured(tree_of(*root, source@), self@, name@) is None,
            },
    {
        match self.find(root, name, source) {
            Some((_, node)) => Some(node),
            None => None,
        }
    }

    /// The text captured under a name.
    pub fn capture_text(&self, root: &SyntaxNode, name: &str, source: &Vec<u8>) -> (text: Option<
        String,
    >)
        ensures
            optional_text(text) == captured_text(tree_of(*root, source@), self@, name@),
    {
        match self.capture(root, name, Ghost(source@)) {
            Some(node) => node.text(source),
            None => None,
        }
    }
}

/// A half-open byte range.
#[derive(Debug, Clone, Copy, PartialEq, Eq, Structural)]
pub struct Region {
    pub start: usize,
    pub end: usize,
}

/// The bytes a node covers.
pub open spec fn region_of(tree: Tree) -> Region {
    Region { start: tree.extent.start_byte, end: tree.extent.end_byte }
}

impl SyntaxNode {
    /// The bytes a node covers.
    pub(crate) fn region(&self) -> (region: Region)
        ensures
            forall|source: Seq<u8>| region == region_of(#[trigger] tree_of(*self, source)),
    {
        Region { start: self.start_byte, end: self.end_byte }
    }
}

impl Ordered for Region {
    type Key = Region;

    open spec fn key(&self) -> Region {
        *self
    }

    open spec fn order(left: Region, right: Region) -> Comparison {
        settled_by(
            number_order(left.start as int, right.start as int),
            number_order(left.end as int, right.end as int),
        )
    }

    proof fn order_is_total(first: Region, second: Region, third: Region) {
    }

    fn ordered(&self, other: &Region) -> (order: Comparison) {
        if self.start < other.start {
            Comparison::Less
        } else if self.start > other.start {
            Comparison::Greater
        } else if self.end < other.end {
            Comparison::Less
        } else if self.end > other.end {
            Comparison::Greater
        } else {
            Comparison::Equal
        }
    }
}

/// Whether a region holds a byte.
pub open spec fn region_covers(region: Region, point: int) -> bool {
    region.start <= point < region.end
}

/// Whether a region holds a byte.
pub fn covers(region: Region, point: usize) -> (covered: bool)
    ensures
        covered == region_covers(region, point as int),
{
    region.start <= point && point < region.end
}

/// The shortest region of the first so many that holds a byte; of those as
/// short, the first listed.
pub open spec fn innermost_upto(regions: Seq<Region>, point: int, n: int) -> Option<int>
    decreases n,
{
    if n <= 0 || n > regions.len() {
        None
    } else {
        let before = innermost_upto(regions, point, n - 1);
        let region = regions[n - 1];
        if region_covers(region, point) && (before matches Some(other) ==> region.end - region.start
            < regions[other].end - regions[other].start) {
            Some(n - 1)
        } else {
            before
        }
    }
}

/// The shortest region that holds a byte.
pub open spec fn innermost_of(regions: Seq<Region>, point: int) -> Option<int> {
    innermost_upto(regions, point, regions.len() as int)
}

/// A shortest region is listed and holds the byte, and none that holds it is
/// shorter.
pub proof fn law_innermost_is_shortest(regions: Seq<Region>, point: int)
    ensures
        match innermost_of(regions, point) {
            Some(i) => {
                &&& 0 <= i < regions.len()
                &&& region_covers(regions[i], point)
                &&& forall|j: int|
                    0 <= j < regions.len() && region_covers(#[trigger] regions[j], point) ==> (
                    regions[i].end - regions[i].start < regions[j].end - regions[j].start || (
                    regions[i].end - regions[i].start == regions[j].end - regions[j].start && i
                        <= j))
            },
            None => forall|j: int|
                0 <= j < regions.len() ==> !region_covers(#[trigger] regions[j], point),
        },
{
    lemma_innermost(regions, point, regions.len() as int);
}

/// Of the first so many regions, a shortest one is listed and holds the byte.
pub(crate) proof fn lemma_innermost(regions: Seq<Region>, point: int, n: int)
    requires
        0 <= n <= regions.len(),
    ensures
        match innermost_upto(regions, point, n) {
            Some(i) => {
                &&& 0 <= i < n
                &&& region_covers(regions[i], point)
                &&& forall|j: int|
                    0 <= j < n && region_covers(#[trigger] regions[j], point) ==> (regions[i].end
                        - regions[i].start < regions[j].end - regions[j].start || (regions[i].end
                        - regions[i].start == regions[j].end - regions[j].start && i <= j))
            },
            None => forall|j: int| 0 <= j < n ==> !region_covers(#[trigger] regions[j], point),
        },
    decreases n,
{
    if n > 0 {
        lemma_innermost(regions, point, n - 1);
    }
}

/// The innermost region covering a point, or none if nothing does.
pub fn innermost(regions: &Vec<Region>, point: usize) -> (place: Option<usize>)
    ensures
        match place {
            Some(place) => innermost_of(regions@, point as int) == Some(place as int) && place
                < regions@.len(),
            None => innermost_of(regions@, point as int) is None,
        },
{
    let mut best: Option<usize> = None;
    let mut i: usize = 0;
    while i < regions.len()
        invariant
            i <= regions@.len(),
            match best {
                Some(best) => innermost_upto(regions@, point as int, i as int) == Some(best as int)
                    && best < i && regions@[best as int].start <= regions@[best as int].end,
                None => innermost_upto(regions@, point as int, i as int) is None,
            },
        decreases regions@.len() - i,
    {
        let region = regions[i];
        if covers(region, point) {
            match best {
                Some(other) => {
                    if region.end - region.start < regions[other].end - regions[other].start {
                        best = Some(i);
                    }
                },
                None => {
                    best = Some(i);
                },
            }
        }
        i += 1;
    }
    best
}

/// Where a region first stands in a list, from a place on.
pub open spec fn first_region(regions: Seq<Region>, region: Region, i: int) -> int
    decreases regions.len() - i,
{
    if i < 0 || i >= regions.len() || regions[i] == region {
        i
    } else {
        first_region(regions, region, i + 1)
    }
}

/// Where each region of a list first stands in it, the regions taken in document
/// order.
pub open spec fn document_places(regions: Seq<Region>) -> Seq<int> {
    let sorted = settled_of::<Region>(regions);
    Seq::new(sorted.len(), |k: int| first_region(regions, sorted[k], 0))
}

/// A listed region is found.
pub(crate) proof fn lemma_first_region(regions: Seq<Region>, region: Region, i: int)
    requires
        0 <= i,
        exists|j: int| i <= j < regions.len() && regions[j] == region,
    ensures
        i <= first_region(regions, region, i) < regions.len(),
        regions[first_region(regions, region, i)] == region,
    decreases regions.len() - i,
{
    if regions[i] != region {
        let j = choose|j: int| i <= j < regions.len() && regions[j] == region;
        assert(j >= i + 1);
        lemma_first_region(regions, region, i + 1);
    }
}

/// Every place in document order is one of the list.
pub proof fn lemma_document_places(regions: Seq<Region>)
    ensures
        forall|k: int|
            0 <= k < document_places(regions).len() ==> 0 <= #[trigger] document_places(
                regions,
            )[k] < regions.len(),
{
    crate::ordering::lemma_settles::<Region>(regions);
    let sorted = settled_of::<Region>(regions);
    assert forall|k: int| 0 <= k < document_places(regions).len() implies 0
        <= #[trigger] document_places(regions)[k] < regions.len() by {
        assert(sorted.contains(sorted[k]));
        assert(regions.contains(sorted[k]));
        let j = choose|j: int| 0 <= j < regions.len() && regions[j] == sorted[k];
        lemma_first_region(regions, sorted[k], 0);
    }
}

/// Where each region of a list first stands in it, the regions taken in document
/// order.
pub fn document_order(regions: &Vec<Region>) -> (places: Vec<usize>)
    ensures
        places@.len() == document_places(regions@).len(),
        forall|k: int|
            0 <= k < places@.len() ==> #[trigger] places@[k] == document_places(regions@)[k]
                && places@[k] < regions@.len(),
{
    let mut copy: Vec<Region> = Vec::new();
    let count: usize = regions.len();
    let mut i: usize = 0;
    while i < count
        invariant
            i <= count == regions@.len(),
            copy@ == regions@.take(i as int),
        decreases count - i,
    {
        copy.push(regions[i]);
        assert(regions@.take(i + 1) =~= regions@.take(i as int).push(regions@[i as int]));
        i += 1;
    }
    assert(keys(copy@) =~= regions@);
    let sorted = settled_list(copy);
    assert(keys(sorted@) =~= sorted@);
    let ghost order = settled_of::<Region>(regions@);
    assert(order == sorted@);
    proof {
        lemma_document_places(regions@);
    }
    let mut places: Vec<usize> = Vec::new();
    let mut k: usize = 0;
    while k < sorted.len()
        invariant
            k <= sorted@.len(),
            places@.len() == k,
            order == sorted@,
            order == settled_of::<Region>(regions@),
            forall|j: int|
                0 <= j < document_places(regions@).len() ==> 0 <= #[trigger] document_places(
                    regions@,
                )[j] < regions@.len(),
            forall|j: int| 0 <= j < k ==> #[trigger] places@[j] == document_places(regions@)[j],
        decreases sorted@.len() - k,
    {
        let region = sorted[k];
        let mut j: usize = 0;
        assert(document_places(regions@)[k as int] == first_region(regions@, region, 0));
        while j < regions.len() && regions[j] != region
            invariant
                j <= regions@.len(),
                first_region(regions@, region, 0) == first_region(regions@, region, j as int),
            decreases regions@.len() - j,
        {
            j += 1;
        }
        places.push(j);
        k += 1;
    }
    places
}

/// What an annotation applies to: the item it is written above, from the
/// annotation on; else the whole node it stands in.
pub open spec fn attributed(tree: Tree, path: Seq<usize>) -> Option<Region> {
    if path.len() == 0 {
        None
    } else {
        let parent = tree_at(tree, path.drop_last())->0;
        let place = path.last() as int;
        let item = parent.parts[place];
        Some(
            match named_from(parent, place + 1) {
                Some(next) => if parent.parts[next].kind != item.kind {
                    Region {
                        start: item.extent.start_byte,
                        end: parent.parts[next].extent.end_byte,
                    }
                } else {
                    region_of(parent)
                },
                None => region_of(parent),
            },
        )
    }
}

/// What stands in a tree stands in it up to its parent.
proof fn lemma_parent(tree: Tree, path: Seq<usize>)
    requires
        path.len() > 0,
        tree_at(tree, path) is Some,
    ensures
        tree_at(tree, path.drop_last()) is Some,
        path.last() < (tree_at(tree, path.drop_last())->0).parts.len(),
        tree_at(tree, path) == Some(
            (tree_at(tree, path.drop_last())->0).parts[path.last() as int],
        ),
    decreases path.len(),
{
    if path.len() > 1 {
        let below = tree.parts[path[0] as int];
        lemma_parent(below, path.drop_first());
        assert(path.drop_first().drop_last() =~= path.drop_last().drop_first());
    } else {
        reveal_with_fuel(tree_at, 2);
        assert(path.drop_first().len() == 0);
        assert(path.drop_last().len() == 0);
    }
}

/// What an annotation applies to.
///
/// An annotation written above an item marks the item that follows it. One
/// written inside a body marks the whole item that owns the body, which is how a
/// module marks itself rather than its first declaration.
pub(crate) fn attributed_region(
    root: &SyntaxNode,
    path: &Vec<usize>,
    source: Ghost<Seq<u8>>,
) -> (region: Option<Region>)
    requires
        tree_at(tree_of(*root, source@), path@) is Some,
    ensures
        region == attributed(tree_of(*root, source@), path@),
{
    let count: usize = path.len();
    if count == 0 {
        return None;
    }
    let ghost tree = tree_of(*root, source@);
    proof {
        lemma_parent(tree, path@);
        assert(path@.take(count - 1) =~= path@.drop_last());
    }
    let parent = match node_at(root, path, count - 1, source) {
        Some(parent) => parent,
        None => {
            return None;
        },
    };
    let ghost above = tree_of(*parent, source@);
    assert(above.parts.len() == parent.children@.len());
    let place: usize = path[count - 1];
    let item = &parent.children[place];
    assert(above.parts[place as int] == tree_of(*item, source@));
    let children: usize = parent.children.len();
    let mut next: usize = place + 1;
    while next < children && !parent.children[next].named
        invariant
            children == parent.children@.len(),
            above == tree_of(*parent, source@),
            above.parts.len() == parent.children@.len(),
            place < next <= children,
            named_from(above, place + 1) == named_from(above, next as int),
        decreases children - next,
    {
        assert(above.parts[next as int] == tree_of(parent.children@[next as int], source@));
        next += 1;
    }
    if next < children {
        let following = &parent.children[next];
        assert(above.parts[next as int] == tree_of(*following, source@));
        if !same_text(following.kind.as_str(), item.kind.as_str()) {
            return Some(Region { start: item.start_byte, end: following.end_byte });
        }
    }
    let region = parent.region();
    assert(region == region_of(above));
    Some(region)
}

} // verus!
