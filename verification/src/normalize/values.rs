//! What arithmetic comes to, and that simplifying leaves it as it is.

use crate::normalize::form::{Form, Shape, Term};
use crate::normalize::laws::{arithmetic, folded, folded_operands};
use crate::normalize::simplify::{each_swept, reduced, rewritten, swept};
use crate::normalize::totality::lemma_commutative_is_no_subtraction;
use crate::text::{all_digits, decimal, digits_value, parsed_integer, signed_decimal};
use vstd::prelude::*;
use vstd::string::*;

verus! {

/// What the names of a form hold.
pub struct Holding {
    pub locals: spec_fn(u32) -> int,
    pub holes: spec_fn(u32) -> int,
}

/// What a form comes to as a whole number: a literal to the number it writes, a name
/// to what it holds, and a sum, a difference or a product to that of its operands.
/// Any other form comes to none.
pub open spec fn value_of(term: Term, holding: Holding) -> Option<int>
    decreases term,
{
    match term.shape {
        Shape::Number(text) if term.parts.len() == 0 => parsed_integer(text),
        Shape::Local(index) if term.parts.len() == 0 => Some((holding.locals)(index)),
        Shape::Free(index) if term.parts.len() == 0 => Some((holding.holes)(index)),
        Shape::Binary(operator) => if term.parts.len() == 2 {
            match (value_of(term.parts[0], holding), value_of(term.parts[1], holding)) {
                (Some(left), Some(right)) => if operator == "+"@ {
                    Some(left + right)
                } else if operator == "-"@ {
                    Some(left - right)
                } else if operator == "*"@ {
                    Some(left * right)
                } else {
                    None
                },
                _ => None,
            }
        } else {
            None
        },
        _ => None,
    }
}

/// A number is read back from how it is written.
pub proof fn law_numbers_are_read_back(number: int)
    requires
        i128::MIN <= number <= i128::MAX,
    ensures
        parsed_integer(signed_decimal(number)) == Some(number),
{
    let text = signed_decimal(number);
    if number < 0 {
        lemma_decimal((-number) as nat);
        assert(text.drop_first() =~= decimal((-number) as nat));
    } else {
        lemma_decimal(number as nat);
        assert(text[0] != '-' && text[0] != '+');
    }
}

/// A natural number is written in digits that come to it.
proof fn lemma_decimal(number: nat)
    ensures
        decimal(number).len() > 0,
        all_digits(decimal(number)),
        digits_value(decimal(number)) == number,
    decreases number,
{
    if number >= 10 {
        lemma_decimal(number / 10);
        let text = decimal(number);
        assert(text.drop_last() =~= decimal(number / 10));
    } else {
        assert(decimal(number).drop_last() =~= Seq::<char>::empty());
        reveal_with_fuel(digits_value, 2);
    }
}

/// Folding two literals keeps what they come to: what is written in their place is
/// their sum, their difference or their product.
pub proof fn law_folding_keeps_the_value(operator: Seq<char>, left: Seq<char>, right: Seq<char>)
    ensures
        match (folded(operator, left, right), parsed_integer(left), parsed_integer(right)) {
            (Some(text), Some(one), Some(other)) => {
                &&& operator == "+"@ || operator == "-"@ || operator == "*"@
                &&& operator == "+"@ ==> parsed_integer(text) == Some(one + other)
                &&& operator == "-"@ ==> parsed_integer(text) == Some(one - other)
                &&& operator == "*"@ ==> parsed_integer(text) == Some(one * other)
            },
            (Some(_), _, _) => false,
            (None, Some(one), Some(other)) => {
                &&& operator == "+"@ ==> !(i128::MIN <= one + other <= i128::MAX)
                &&& operator == "-"@ ==> !(i128::MIN <= one - other <= i128::MAX)
                &&& operator == "*"@ ==> !(i128::MIN <= one * other <= i128::MAX)
            },
            (None, _, _) => true,
        },
{
    lemma_operators_differ();
    if let (Some(one), Some(other)) = (parsed_integer(left), parsed_integer(right)) {
        let value = if operator == "+"@ {
            one + other
        } else if operator == "-"@ {
            one - other
        } else {
            one * other
        };
        if i128::MIN <= value <= i128::MAX {
            law_numbers_are_read_back(value);
        }
    }
}

/// The three operators are three.
proof fn lemma_operators_differ()
    ensures
        "+"@ != "-"@,
        "+"@ != "*"@,
        "-"@ != "*"@,
{
    reveal_strlit("+");
    reveal_strlit("-");
    reveal_strlit("*");
    assert("+"@[0] == '+');
    assert("-"@[0] == '-');
    assert("*"@[0] == '*');
}

/// Rearranging arithmetic keeps what it comes to.
pub proof fn law_arithmetic_keeps_the_value(term: Term, holding: Holding)
    ensures
        match (arithmetic(term), value_of(term, holding)) {
            (Some(after), Some(value)) => value_of(after, holding) == Some(value),
            _ => true,
        },
{
    lemma_operators_differ();
    if let (Some(after), Some(value)) = (arithmetic(term), value_of(term, holding)) {
        let operator = term.shape->Binary_0;
        let left = term.parts[0];
        let right = term.parts[1];
        if operator == "-"@ && left.shape == Shape::Binary("-"@) && left.parts.len() == 2 {
            let sum = after.parts[1];
            assert(sum.parts[0] == left.parts[1] && sum.parts[1] == right);
            assert(after.parts[0] == left.parts[0]);
            let a = value_of(left.parts[0], holding)->0;
            let b = value_of(left.parts[1], holding)->0;
            let c = value_of(right, holding)->0;
            assert(value_of(left, holding) == Some(a - b));
            assert(value_of(sum, holding) == Some(b + c));
            assert(value_of(after, holding) == Some(a - (b + c)));
        } else if folded_operands(operator, left, right) is Some {
            law_folding_keeps_the_value(operator, left.shape->Number_0, right.shape->Number_0);
        } else {
            lemma_commutative_is_no_subtraction(operator);
            assert(after.parts[0] == right && after.parts[1] == left);
            let one = value_of(left, holding)->0;
            let other = value_of(right, holding)->0;
            assert(one * other == other * one) by (nonlinear_arith);
        }
    }
}

/// One pass keeps what a form comes to.
proof fn lemma_swept_value(term: Term, fuel: nat, holding: Holding)
    requires
        value_of(term, holding) is Some,
    ensures
        value_of(swept(term, fuel).0, holding) == value_of(term, holding),
        swept(term, fuel).1 == fuel,
    decreases term,
{
    let (parts, left) = each_swept(term.parts, fuel);
    let next = Term { shape: term.shape, parts };
    if let Shape::Binary(_) = term.shape {
        let one = term.parts[0];
        let other = term.parts[1];
        lemma_swept_value(one, fuel, holding);
        lemma_swept_value(other, fuel, holding);
        assert(term.parts.drop_last() =~= seq![one]);
        assert(seq![one].drop_last() =~= Seq::<Term>::empty());
        reveal_with_fuel(each_swept, 3);
        assert(parts =~= seq![swept(one, fuel).0, swept(other, fuel).0]);
        assert(value_of(next, holding) == value_of(term, holding));
        assert(left == fuel);
    } else {
        assert(parts =~= term.parts);
    }
    law_arithmetic_keeps_the_value(next, holding);
    lemma_only_arithmetic(next, fuel, holding);
}

/// Only the law of arithmetic applies to a form that comes to a number.
proof fn lemma_only_arithmetic(term: Term, fuel: nat, holding: Holding)
    requires
        value_of(term, holding) is Some,
    ensures
        rewritten(term, fuel) == (
            match arithmetic(term) {
                Some(after) => after,
                None => term,
            },
            fuel,
        ),
{
}

/// Simplifying keeps what a form comes to: the form that is left comes to the same
/// number, whatever its names hold.
pub proof fn law_simplifying_keeps_the_value(
    form: Form,
    holding: Holding,
    fuel: nat,
    sweeps: nat,
)
    requires
        value_of(form@, holding) is Some,
    ensures
        value_of(reduced(form@, fuel, sweeps), holding) == value_of(form@, holding),
{
    lemma_reduced_value(form@, holding, fuel, sweeps);
}

proof fn lemma_reduced_value(term: Term, holding: Holding, fuel: nat, sweeps: nat)
    requires
        value_of(term, holding) is Some,
    ensures
        value_of(reduced(term, fuel, sweeps), holding) == value_of(term, holding),
    decreases sweeps,
{
    if sweeps > 0 {
        lemma_swept_value(term, fuel, holding);
        let (next, left) = swept(term, fuel);
        if next != term {
            lemma_reduced_value(next, holding, left, (sweeps - 1) as nat);
        }
    }
}

} // verus!
