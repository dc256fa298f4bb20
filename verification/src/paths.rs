//! Paths: the parts they are made of, and how they compare part by part.

use crate::lists::text_list;
use crate::text::{
    carries_over, chars_of, lemma_text_order_total, number_order, same_text, settled_by,
    text_compared, text_order, turns_round, Comparison,
};
use vstd::prelude::*;
use vstd::string::*;

verus! {

/// The parts of a path: those between separators, without empty ones and without
/// `.`, but for one it begins with; and the root a path begins with.
pub open spec fn components_upto(path: Seq<char>, n: int) -> (Seq<Seq<char>>, Seq<char>)
    decreases n,
{
    if n <= 0 || n > path.len() {
        (Seq::empty(), Seq::empty())
    } else {
        let (before, part) = components_upto(path, n - 1);
        if path[n - 1] == '/' {
            if n == 1 {
                (before.push("/"@), Seq::empty())
            } else {
                (with_component(before, part), Seq::empty())
            }
        } else {
            (before, part.push(path[n - 1]))
        }
    }
}

/// The parts of a path with one more.
pub open spec fn with_component(before: Seq<Seq<char>>, part: Seq<char>) -> Seq<Seq<char>> {
    if part.len() == 0 || (part == "."@ && before.len() > 0) {
        before
    } else {
        before.push(part)
    }
}

/// The parts of a path.
pub open spec fn components(path: Seq<char>) -> Seq<Seq<char>> {
    let (before, part) = components_upto(path, path.len() as int);
    with_component(before, part)
}

/// Where a kind of part stands among all: the root, `.`, `..`, and then names.
pub open spec fn part_rank(part: Seq<char>) -> int {
    if part == "/"@ {
        0
    } else if part == "."@ {
        1
    } else if part == ".."@ {
        2
    } else {
        3
    }
}

/// How two parts compare: by kind, and names by their text.
pub open spec fn part_order(left: Seq<char>, right: Seq<char>) -> Comparison {
    settled_by(
        number_order(part_rank(left), part_rank(right)),
        if part_rank(left) == 3 {
            text_order(left, right)
        } else {
            Comparison::Equal
        },
    )
}

/// How two paths compare, part by part, and then the shorter first.
pub open spec fn path_order(left: Seq<Seq<char>>, right: Seq<Seq<char>>) -> Comparison
    decreases left.len(),
{
    if left.len() == 0 || right.len() == 0 {
        number_order(left.len() as int, right.len() as int)
    } else {
        settled_by(
            part_order(left[0], right[0]),
            path_order(left.drop_first(), right.drop_first()),
        )
    }
}

/// Parts are put in a total order.
proof fn lemma_part_order(first: Seq<char>, second: Seq<char>, third: Seq<char>)
    ensures
        part_order(first, second) == Comparison::Equal <==> first == second,
        turns_round(part_order(first, second), part_order(second, first)),
        carries_over(
            part_order(first, second),
            part_order(second, third),
            part_order(first, third),
        ),
{
    lemma_text_order_total(first, second, third);
    lemma_text_order_total(second, third, first);
}

/// Paths are put in a total order, and are compared alike either way round, and
/// over one step and two.
pub proof fn lemma_path_order_consistent(
    first: Seq<Seq<char>>,
    second: Seq<Seq<char>>,
    third: Seq<Seq<char>>,
)
    ensures
        path_order(first, second) == Comparison::Equal <==> first == second,
        turns_round(path_order(first, second), path_order(second, first)),
        carries_over(
            path_order(first, second),
            path_order(second, third),
            path_order(first, third),
        ),
    decreases first.len(),
{
    if first.len() > 0 && second.len() > 0 {
        let last = if third.len() > 0 {
            third
        } else {
            first
        };
        lemma_part_order(first[0], second[0], last[0]);
        lemma_path_order_consistent(first.drop_first(), second.drop_first(), last.drop_first());
        if first[0] == second[0] && first.drop_first() == second.drop_first() {
            assert(first =~= seq![first[0]] + first.drop_first());
            assert(second =~= seq![second[0]] + second.drop_first());
        }
    } else if first.len() == second.len() {
        assert(first =~= second);
    }
}

/// Paths are put in a total order.
pub proof fn lemma_path_order_total(
    first: Seq<Seq<char>>,
    second: Seq<Seq<char>>,
    third: Seq<Seq<char>>,
)
    ensures
        path_order(first, second) == Comparison::Equal <==> first == second,
        path_order(first, second) == Comparison::Less <==> path_order(second, first)
            == Comparison::Greater,
        path_order(first, second) == Comparison::Greater <==> path_order(second, first)
            == Comparison::Less,
        path_order(first, second) != Comparison::Greater && path_order(second, third)
            != Comparison::Greater ==> path_order(first, third) != Comparison::Greater,
        path_order(first, second) != Comparison::Greater && path_order(second, third)
            != Comparison::Greater && path_order(first, third) == Comparison::Equal ==> first
            == second && second == third,
{
    lemma_path_order_consistent(first, second, third);
    lemma_path_order_consistent(second, third, first);
}

/// Adds a part to those of a path.
fn add_component(parts: &mut Vec<String>, part: &String)
    ensures
        text_list(final(parts)@) == with_component(text_list(old(parts)@), part@),
{
    if part.as_str().is_empty() || (parts.len() > 0 && same_text(part.as_str(), ".")) {
        return;
    }
    let ghost before = parts@;
    let copy = part.clone();
    parts.push(copy);
    assert(text_list(parts@) =~= text_list(before).push(part@));
}

/// The parts of a path.
pub fn path_components(path: &str) -> (parts: Vec<String>)
    ensures
        text_list(parts@) == components(path@),
{
    let chars = chars_of(path);
    let mut parts: Vec<String> = Vec::new();
    let mut part = String::new();
    let mut i: usize = 0;
    assert(text_list(parts@) =~= Seq::empty());
    while i < chars.len()
        invariant
            i <= chars@.len(),
            (text_list(parts@), part@) == components_upto(chars@, i as int),
        decreases chars@.len() - i,
    {
        if chars[i] == '/' {
            if i == 0 {
                let ghost before = parts@;
                let root = "/".to_owned();
                parts.push(root);
                assert(text_list(parts@) =~= text_list(before).push("/"@));
            } else {
                add_component(&mut parts, &part);
            }
            part = String::new();
        } else {
            part.push(chars[i]);
        }
        i += 1;
    }
    add_component(&mut parts, &part);
    parts
}

/// Where a kind of part stands among all.
fn part_number(part: &str) -> (rank: u32)
    ensures
        rank == part_rank(part@),
{
    if same_text(part, "/") {
        0
    } else if same_text(part, ".") {
        1
    } else if same_text(part, "..") {
        2
    } else {
        3
    }
}

/// How two parts compare.
fn part_compared(left: &str, right: &str) -> (order: Comparison)
    ensures
        order == part_order(left@, right@),
{
    let left_rank: u32 = part_number(left);
    let right_rank: u32 = part_number(right);
    if left_rank < right_rank {
        Comparison::Less
    } else if left_rank > right_rank {
        Comparison::Greater
    } else if left_rank == 3 {
        text_compared(left, right)
    } else {
        Comparison::Equal
    }
}

/// How two paths compare, part by part.
#[verifier::loop_isolation(false)]
pub fn path_compared(left_path: &str, right_path: &str) -> (order: Comparison)
    ensures
        order == path_order(components(left_path@), components(right_path@)),
{
    let left = path_components(left_path);
    let right = path_components(right_path);
    let ghost one = components(left_path@);
    let ghost two = components(right_path@);
    let mut i: usize = 0;
    proof {
        assert(one.skip(0) =~= one);
        assert(two.skip(0) =~= two);
    }
    while i < left.len() && i < right.len()
        invariant
            i <= left@.len(),
            i <= right@.len(),
            one == text_list(left@),
            two == text_list(right@),
            path_order(one, two) == path_order(one.skip(i as int), two.skip(i as int)),
        decreases left@.len() - i,
    {
        proof {
            assert(one.skip(i as int).drop_first() =~= one.skip(i + 1));
            assert(two.skip(i as int).drop_first() =~= two.skip(i + 1));
            assert(one[i as int] == left@[i as int]@ && two[i as int] == right@[i as int]@);
        }
        let order = part_compared(left[i].as_str(), right[i].as_str());
        match order {
            Comparison::Equal => {},
            _ => {
                return order;
            },
        }
        i += 1;
    }
    if i < left.len() {
        Comparison::Greater
    } else if i < right.len() {
        Comparison::Less
    } else {
        Comparison::Equal
    }
}

/// Whether two paths are made of the same parts.
pub fn same_path(left: &str, right: &str) -> (same: bool)
    ensures
        same == (components(left@) == components(right@)),
{
    proof {
        lemma_path_order_consistent(components(left@), components(right@), components(left@));
    }
    match path_compared(left, right) {
        Comparison::Equal => true,
        _ => false,
    }
}

} // verus!
