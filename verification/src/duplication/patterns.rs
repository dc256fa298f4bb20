//! What equal token identities say about the tokens.

use super::token::{
    class_keys, framed, identity, is_renamed, key_number, known_keys, token_bytes, token_key,
    token_tag, Normalization, TokenClass, TokenView,
};
use crate::digest::{
    lemma_little_endian_injective, lemma_little_endian_len, little_endian, power_of_256,
};
use crate::lists::{
    extended, lemma_extended, lemma_extended_one, lemma_extended_position, position_of,
};
use vstd::prelude::*;
use vstd::utf8::*;

verus! {

/// Whether the lengths in a token can be written.
pub open spec fn can_be_framed(token: TokenView) -> bool {
    encode_utf8(token.kind).len() <= u64::MAX && token.lexeme.len() <= u64::MAX
}

/// Bytes behind their length can be read back.
proof fn lemma_framed_prefix(left: Seq<u8>, right: Seq<u8>, left_rest: Seq<u8>, right_rest: Seq<u8>)
    requires
        left.len() <= u64::MAX,
        right.len() <= u64::MAX,
        framed(left) + left_rest == framed(right) + right_rest,
    ensures
        left == right,
        left_rest == right_rest,
{
    let l = framed(left) + left_rest;
    let r = framed(right) + right_rest;
    lemma_little_endian_len(left.len(), 8);
    lemma_little_endian_len(right.len(), 8);
    assert(l.take(8) =~= little_endian(left.len(), 8));
    assert(r.take(8) =~= little_endian(right.len(), 8));
    assert(power_of_256(8) == 0x1_0000_0000_0000_0000) by {
        reveal_with_fuel(power_of_256, 9);
    }
    lemma_little_endian_injective(left.len(), right.len(), 8, 0x1_0000_0000_0000_0000);
    assert(l.subrange(8, (8 + left.len()) as int) =~= left);
    assert(r.subrange(8, (8 + right.len()) as int) =~= right);
    assert(l.skip((8 + left.len()) as int) =~= left_rest);
    assert(r.skip((8 + right.len()) as int) =~= right_rest);
}

/// The bytes of a token can be read back.
proof fn lemma_token_prefix(
    left_before: Seq<TokenView>,
    left: TokenView,
    right_before: Seq<TokenView>,
    right: TokenView,
    left_rest: Seq<u8>,
    right_rest: Seq<u8>,
    normalization: Option<Normalization>,
)
    requires
        can_be_framed(left),
        can_be_framed(right),
        token_bytes(left_before, left, normalization) + left_rest == token_bytes(
            right_before,
            right,
            normalization,
        ) + right_rest,
    ensures
        left.kind == right.kind,
        is_renamed(left.class, normalization) == is_renamed(right.class, normalization),
        is_renamed(left.class, normalization) ==> left.class == right.class && key_number(
            known_keys(left_before, left.class),
            token_key(left),
        ) == key_number(known_keys(right_before, right.class), token_key(right)),
        !is_renamed(left.class, normalization) ==> left.lexeme == right.lexeme,
        token_bytes(left_before, left, normalization) == token_bytes(
            right_before,
            right,
            normalization,
        ),
        left_rest == right_rest,
{
    let left_kind = encode_utf8(left.kind);
    let right_kind = encode_utf8(right.kind);
    let left_tag = token_tag(left.class, normalization);
    let right_tag = token_tag(right.class, normalization);
    let left_number = key_number(known_keys(left_before, left.class), token_key(left));
    let right_number = key_number(known_keys(right_before, right.class), token_key(right));
    let left_value = if is_renamed(left.class, normalization) {
        little_endian(left_number, 4)
    } else {
        framed(left.lexeme)
    };
    let right_value = if is_renamed(right.class, normalization) {
        little_endian(right_number, 4)
    } else {
        framed(right.lexeme)
    };
    let left_tail = seq![left_tag] + left_value + left_rest;
    let right_tail = seq![right_tag] + right_value + right_rest;
    assert(token_bytes(left_before, left, normalization) + left_rest =~= framed(left_kind)
        + left_tail);
    assert(token_bytes(right_before, right, normalization) + right_rest =~= framed(right_kind)
        + right_tail);
    lemma_framed_prefix(left_kind, right_kind, left_tail, right_tail);
    encode_utf8_decode_utf8(left.kind);
    encode_utf8_decode_utf8(right.kind);
    assert(left_tail[0] == left_tag);
    assert(right_tail[0] == right_tag);
    assert(left_tail.skip(1) =~= left_value + left_rest);
    assert(right_tail.skip(1) =~= right_value + right_rest);
    if is_renamed(left.class, normalization) {
        lemma_little_endian_len(left_number, 4);
        lemma_little_endian_len(right_number, 4);
        let l = left_value + left_rest;
        let r = right_value + right_rest;
        assert(l.take(4) =~= left_value);
        assert(r.take(4) =~= right_value);
        assert(l.skip(4) =~= left_rest);
        assert(r.skip(4) =~= right_rest);
        assert(power_of_256(4) == 0x1_0000_0000) by {
            reveal_with_fuel(power_of_256, 5);
        }
        lemma_little_endian_injective(left_number, right_number, 4, 0x1_0000_0000);
    } else {
        lemma_framed_prefix(left.lexeme, right.lexeme, left_rest, right_rest);
    }
}

/// The bytes of a list begin with those of its first tokens.
proof fn lemma_identity_splits(
    tokens: Seq<TokenView>,
    i: int,
    normalization: Option<Normalization>,
) -> (rest: Seq<u8>)
    requires
        0 <= i <= tokens.len(),
    ensures
        identity(tokens, normalization) == identity(tokens.take(i), normalization) + rest,
        i == tokens.len() ==> rest.len() == 0,
        i < tokens.len() ==> rest.len() > 0,
    decreases tokens.len() - i,
{
    if i == tokens.len() {
        assert(tokens.take(i) =~= tokens);
        assert(identity(tokens, normalization) =~= identity(tokens, normalization)
            + Seq::<u8>::empty());
        Seq::empty()
    } else {
        let later = lemma_identity_splits(tokens, i + 1, normalization);
        assert(tokens.take(i + 1).drop_last() =~= tokens.take(i));
        assert(tokens.take(i + 1).last() == tokens[i]);
        let own = token_bytes(tokens.take(i), tokens[i], normalization);
        assert(own.len() > 0);
        let rest = own + later;
        assert(identity(tokens, normalization) =~= identity(tokens.take(i), normalization) + rest);
        rest
    }
}

/// Whether two tokens of two lists at the same place stand for one another.
pub open spec fn correspond(
    left: Seq<TokenView>,
    right: Seq<TokenView>,
    i: int,
    normalization: Option<Normalization>,
) -> bool {
    &&& left[i].kind == right[i].kind
    &&& is_renamed(left[i].class, normalization) == is_renamed(right[i].class, normalization)
    &&& !is_renamed(left[i].class, normalization) ==> left[i].lexeme == right[i].lexeme
    &&& is_renamed(left[i].class, normalization) ==> left[i].class == right[i].class && key_number(
        known_keys(left.take(i), left[i].class),
        token_key(left[i]),
    ) == key_number(known_keys(right.take(i), right[i].class), token_key(right[i]))
}

/// Equal identities come from tokens that stand for one another, place by place.
proof fn lemma_identities_correspond(
    left: Seq<TokenView>,
    right: Seq<TokenView>,
    normalization: Option<Normalization>,
    n: int,
)
    requires
        identity(left, normalization) == identity(right, normalization),
        forall|i: int| 0 <= i < left.len() ==> can_be_framed(#[trigger] left[i]),
        forall|i: int| 0 <= i < right.len() ==> can_be_framed(#[trigger] right[i]),
        0 <= n <= left.len(),
    ensures
        n <= right.len(),
        identity(left.take(n), normalization) == identity(right.take(n), normalization),
        forall|i: int| 0 <= i < n ==> #[trigger] correspond(left, right, i, normalization),
    decreases n,
{
    if n == 0 {
        assert(left.take(0) =~= right.take(0));
    } else {
        lemma_identities_correspond(left, right, normalization, n - 1);
        let i = n - 1;
        let left_rest = lemma_identity_splits(left, i, normalization);
        let right_rest = lemma_identity_splits(right, i, normalization);
        let shared = identity(left.take(i), normalization);
        assert((shared + left_rest).skip(shared.len() as int) =~= left_rest);
        assert((shared + right_rest).skip(shared.len() as int) =~= right_rest);
        assert(left_rest == right_rest);
        assert(i < right.len());
        let left_later = lemma_identity_splits(left, n, normalization);
        let right_later = lemma_identity_splits(right, n, normalization);
        assert(left.take(n).drop_last() =~= left.take(i));
        assert(right.take(n).drop_last() =~= right.take(i));
        assert(left.take(n).last() == left[i]);
        assert(right.take(n).last() == right[i]);
        let left_own = token_bytes(left.take(i), left[i], normalization);
        let right_own = token_bytes(right.take(i), right[i], normalization);
        assert((shared + (left_own + left_later)) =~= (shared + left_own) + left_later);
        assert((shared + (right_own + right_later)) =~= (shared + right_own) + right_later);
        assert((shared + (left_own + left_later)).skip(shared.len() as int) =~= left_own
            + left_later);
        assert((shared + (right_own + right_later)).skip(shared.len() as int) =~= right_own
            + right_later);
        lemma_token_prefix(
            left.take(i),
            left[i],
            right.take(i),
            right[i],
            left_later,
            right_later,
            normalization,
        );
        assert(correspond(left, right, i, normalization));
    }
}

/// A key gets the number of its place among all the keys of its class.
proof fn lemma_number_is_position(tokens: Seq<TokenView>, j: int)
    requires
        0 <= j < tokens.len() <= u32::MAX,
    ensures
        ({
            let known = known_keys(tokens, tokens[j].class);
            &&& known.no_duplicates()
            &&& known.contains(token_key(tokens[j]))
            &&& key_number(known_keys(tokens.take(j), tokens[j].class), token_key(tokens[j]))
                == position_of(known, token_key(tokens[j]))
        }),
    decreases tokens.len(),
{
    let class = tokens[j].class;
    let key = token_key(tokens[j]);
    let before = tokens.drop_last();
    let earlier = known_keys(before, class);
    lemma_extended(Seq::<(Seq<char>, Seq<u8>)>::empty(), class_keys(before, class));
    lemma_class_keys_len(before, class);
    if j == tokens.len() - 1 {
        assert(tokens.take(j) =~= before);
        lemma_extended_one(earlier, key);
        assert(class_keys(tokens, class).drop_last() =~= class_keys(before, class));
        let known = known_keys(tokens, class);
        if earlier.contains(key) {
            assert(known == earlier);
            let k = position_of(earlier, key);
            assert(earlier[k] == key);
        } else {
            assert(known == earlier.push(key));
            assert(known[earlier.len() as int] == key);
            let k = position_of(known, key);
            assert(known[k] == key);
            if k < earlier.len() {
                assert(earlier[k] == key);
            }
        }
    } else {
        assert(before[j] == tokens[j]);
        assert(before.take(j) =~= tokens.take(j));
        lemma_number_is_position(before, j);
        let more: Seq<(Seq<char>, Seq<u8>)> = if tokens.last().class == class {
            seq![token_key(tokens.last())]
        } else {
            Seq::empty()
        };
        if tokens.last().class == class {
            lemma_extended_one(earlier, token_key(tokens.last()));
            assert(class_keys(tokens, class).drop_last() =~= class_keys(before, class));
        }
        assert(known_keys(tokens, class) == extended(earlier, more));
        lemma_extended(earlier, more);
        lemma_extended_position(earlier, more, key);
    }
}

/// A class has no more keys than there are tokens.
proof fn lemma_class_keys_len(tokens: Seq<TokenView>, class: TokenClass)
    ensures
        class_keys(tokens, class).len() <= tokens.len(),
    decreases tokens.len(),
{
    if tokens.len() > 0 {
        lemma_class_keys_len(tokens.drop_last(), class);
    }
}

/// Two lists of tokens with the same identity have the same length and the same
/// kinds; what is not renamed is written alike; and of what is renamed, two
/// tokens of a class that agree in one list agree in the other.
pub proof fn law_equal_identities_share_patterns(
    left: Seq<TokenView>,
    right: Seq<TokenView>,
    normalization: Option<Normalization>,
)
    requires
        identity(left, normalization) == identity(right, normalization),
        forall|i: int| 0 <= i < left.len() ==> can_be_framed(#[trigger] left[i]),
        forall|i: int| 0 <= i < right.len() ==> can_be_framed(#[trigger] right[i]),
        left.len() <= u32::MAX,
    ensures
        left.len() == right.len(),
        forall|i: int| 0 <= i < left.len() ==> (#[trigger] left[i]).kind == right[i].kind,
        forall|i: int|
            0 <= i < left.len() && !is_renamed((#[trigger] left[i]).class, normalization)
                ==> left[i].lexeme == right[i].lexeme,
        forall|i: int, j: int|
            0 <= i < left.len() && 0 <= j < left.len() && is_renamed(
                (#[trigger] left[i]).class,
                normalization,
            ) && (#[trigger] left[j]).class == left[i].class ==> (token_key(left[i]) == token_key(
                left[j],
            ) <==> token_key(right[i]) == token_key(right[j])),
{
    let n = left.len() as int;
    lemma_identities_correspond(left, right, normalization, n);
    lemma_identities_correspond(right, left, normalization, right.len() as int);
    assert(left.len() == right.len());
    assert forall|i: int| 0 <= i < left.len() implies (#[trigger] left[i]).kind
        == right[i].kind by {
        assert(correspond(left, right, i, normalization));
    }
    assert forall|i: int|
        0 <= i < left.len() && !is_renamed(
            (#[trigger] left[i]).class,
            normalization,
        ) implies left[i].lexeme == right[i].lexeme by {
        assert(correspond(left, right, i, normalization));
    }
    assert forall|i: int, j: int|
        0 <= i < left.len() && 0 <= j < left.len() && is_renamed(
            (#[trigger] left[i]).class,
            normalization,
        ) && (#[trigger] left[j]).class == left[i].class implies (token_key(left[i]) == token_key(
        left[j],
    ) <==> token_key(right[i]) == token_key(right[j])) by {
        assert(correspond(left, right, i, normalization));
        assert(correspond(left, right, j, normalization));
        lemma_number_is_position(left, i);
        lemma_number_is_position(left, j);
        lemma_number_is_position(right, i);
        lemma_number_is_position(right, j);
        let class = left[i].class;
        let left_known = known_keys(left, class);
        let right_known = known_keys(right, class);
        let li = position_of(left_known, token_key(left[i]));
        let lj = position_of(left_known, token_key(left[j]));
        let ri = position_of(right_known, token_key(right[i]));
        let rj = position_of(right_known, token_key(right[j]));
        assert(left_known[li] == token_key(left[i]));
        assert(left_known[lj] == token_key(left[j]));
        assert(right_known[ri] == token_key(right[i]));
        assert(right_known[rj] == token_key(right[j]));
    }
}

/// Whether two lists of tokens are of the same kinds and classes, write alike what
/// is not renamed, and repeat what is renamed at the same places.
pub open spec fn share_patterns(
    left: Seq<TokenView>,
    right: Seq<TokenView>,
    normalization: Option<Normalization>,
) -> bool {
    &&& left.len() == right.len()
    &&& forall|i: int|
        0 <= i < left.len() ==> (#[trigger] left[i]).kind == right[i].kind && left[i].class
            == right[i].class
    &&& forall|i: int|
        0 <= i < left.len() && !is_renamed((#[trigger] left[i]).class, normalization)
            ==> left[i].lexeme == right[i].lexeme
    &&& forall|i: int, j: int|
        0 <= i < left.len() && 0 <= j < left.len() && is_renamed(
            (#[trigger] left[i]).class,
            normalization,
        ) && (#[trigger] left[j]).class == left[i].class ==> (token_key(left[i]) == token_key(
            left[j],
        ) <==> token_key(right[i]) == token_key(right[j]))
}

/// The keys known of a class are those of its tokens.
proof fn lemma_known_of(tokens: Seq<TokenView>, class: TokenClass, key: (Seq<char>, Seq<u8>))
    ensures
        known_keys(tokens, class).no_duplicates(),
        known_keys(tokens, class).contains(key) <==> exists|i: int|
            0 <= i < tokens.len() && (#[trigger] tokens[i]).class == class && token_key(tokens[i])
                == key,
    decreases tokens.len(),
{
    lemma_extended(Seq::<(Seq<char>, Seq<u8>)>::empty(), class_keys(tokens, class));
    if tokens.len() > 0 {
        let before = tokens.drop_last();
        let earlier = known_keys(before, class);
        lemma_known_of(before, class, key);
        lemma_known_step(tokens, class);
        if earlier.contains(key) {
            let i = choose|i: int|
                0 <= i < before.len() && (#[trigger] before[i]).class == class && token_key(
                    before[i],
                ) == key;
            assert(tokens[i] == before[i]);
            let k = choose|k: int| 0 <= k < earlier.len() && earlier[k] == key;
            assert(known_keys(tokens, class)[k] == key);
        }
        if exists|i: int|
            0 <= i < tokens.len() && (#[trigger] tokens[i]).class == class && token_key(tokens[i])
                == key {
            let i = choose|i: int|
                0 <= i < tokens.len() && (#[trigger] tokens[i]).class == class && token_key(
                    tokens[i],
                ) == key;
            if i < before.len() {
                assert(before[i] == tokens[i]);
            } else if !earlier.contains(key) {
                assert(known_keys(tokens, class)[earlier.len() as int] == key);
            }
        } else {
            assert(tokens[tokens.len() - 1] == tokens.last());
        }
    }
}

/// The keys known after one more token.
proof fn lemma_known_step(tokens: Seq<TokenView>, class: TokenClass)
    requires
        tokens.len() > 0,
    ensures
        known_keys(tokens, class) == {
            let earlier = known_keys(tokens.drop_last(), class);
            if tokens.last().class != class || earlier.contains(token_key(tokens.last())) {
                earlier
            } else {
                earlier.push(token_key(tokens.last()))
            }
        },
{
    if tokens.last().class == class {
        assert(class_keys(tokens, class).drop_last() =~= class_keys(tokens.drop_last(), class));
    }
}

/// What is shared by two lists is shared by them without their last tokens.
proof fn lemma_shared_before(
    left: Seq<TokenView>,
    right: Seq<TokenView>,
    normalization: Option<Normalization>,
)
    requires
        share_patterns(left, right, normalization),
        left.len() > 0,
    ensures
        share_patterns(left.drop_last(), right.drop_last(), normalization),
{
    let l = left.drop_last();
    let r = right.drop_last();
    assert forall|i: int| 0 <= i < l.len() implies (#[trigger] l[i]).kind == r[i].kind && l[i].class
        == r[i].class && (!is_renamed(l[i].class, normalization) ==> l[i].lexeme
        == r[i].lexeme) by {
        assert(l[i] == left[i] && r[i] == right[i]);
    }
    assert forall|i: int, j: int|
        0 <= i < l.len() && 0 <= j < l.len() && is_renamed(
            (#[trigger] l[i]).class,
            normalization,
        ) && (#[trigger] l[j]).class == l[i].class implies (token_key(l[i]) == token_key(l[j])
        <==> token_key(r[i]) == token_key(r[j])) by {
        assert(l[i] == left[i] && r[i] == right[i]);
        assert(l[j] == left[j] && r[j] == right[j]);
    }
}

/// A key is known in one of two lists that repeat alike exactly when the key at
/// its place is known in the other.
proof fn lemma_known_in_both(
    left: Seq<TokenView>,
    right: Seq<TokenView>,
    normalization: Option<Normalization>,
)
    requires
        share_patterns(left, right, normalization),
        left.len() > 0,
        is_renamed(left.last().class, normalization),
    ensures
        known_keys(left.drop_last(), left.last().class).contains(token_key(left.last()))
            <==> known_keys(right.drop_last(), left.last().class).contains(
            token_key(right.last()),
        ),
        known_keys(left.drop_last(), left.last().class).contains(token_key(left.last()))
            ==> exists|i: int|
            0 <= i < left.len() - 1 && (#[trigger] left[i]).class == left.last().class && token_key(
                left[i],
            ) == token_key(left.last()) && token_key(right[i]) == token_key(right.last()),
{
    let n = left.len() - 1;
    let class = left.last().class;
    let l = left.drop_last();
    let r = right.drop_last();
    assert(left[n] == left.last() && right[n] == right.last());
    lemma_known_of(l, class, token_key(left.last()));
    lemma_known_of(r, class, token_key(right.last()));
    if known_keys(l, class).contains(token_key(left.last())) {
        let i = choose|i: int|
            0 <= i < l.len() && (#[trigger] l[i]).class == class && token_key(l[i]) == token_key(
                left.last(),
            );
        assert(l[i] == left[i] && r[i] == right[i]);
        assert(token_key(left[i]) == token_key(left[n]) <==> token_key(right[i]) == token_key(
            right[n],
        ));
        assert(r[i].class == class);
    }
    if known_keys(r, class).contains(token_key(right.last())) {
        let i = choose|i: int|
            0 <= i < r.len() && (#[trigger] r[i]).class == class && token_key(r[i]) == token_key(
                right.last(),
            );
        assert(l[i] == left[i] && r[i] == right[i]);
        assert(left[i].class == right[i].class);
        assert(token_key(left[i]) == token_key(left[n]) <==> token_key(right[i]) == token_key(
            right[n],
        ));
        assert(l[i].class == class);
    }
}

/// Two lists that repeat alike know as many keys of a renamed class, and each
/// token's key at the same places.
proof fn lemma_known_alike(
    left: Seq<TokenView>,
    right: Seq<TokenView>,
    normalization: Option<Normalization>,
    class: TokenClass,
)
    requires
        share_patterns(left, right, normalization),
        is_renamed(class, normalization),
    ensures
        known_keys(left, class).len() == known_keys(right, class).len(),
        forall|i: int, k: int|
            0 <= i < left.len() && (#[trigger] left[i]).class == class && 0 <= k < known_keys(
                left,
                class,
            ).len() ==> (#[trigger] known_keys(left, class)[k] == token_key(left[i]) <==> known_keys(
                right,
                class,
            )[k] == token_key(right[i])),
    decreases left.len(),
{
    if left.len() > 0 {
        let n = left.len() - 1;
        let l = left.drop_last();
        let r = right.drop_last();
        let left_known = known_keys(left, class);
        let right_known = known_keys(right, class);
        assert(left[n] == left.last() && right[n] == right.last());
        lemma_shared_before(left, right, normalization);
        lemma_known_alike(l, r, normalization, class);
        lemma_known_step(left, class);
        lemma_known_step(right, class);
        if left[n].class == class {
            lemma_known_in_both(left, right, normalization);
        }
        assert forall|i: int, k: int|
            0 <= i < left.len() && (#[trigger] left[i]).class == class && 0 <= k
                < left_known.len() implies (#[trigger] left_known[k] == token_key(left[i])
            <==> right_known[k] == token_key(right[i])) by {
            let earlier = known_keys(l, class);
            let others = known_keys(r, class);
            if k < earlier.len() {
                assert(left_known[k] == earlier[k] && right_known[k] == others[k]);
                if i < n {
                    assert(l[i] == left[i] && r[i] == right[i]);
                    assert(earlier[k] == token_key(l[i]) <==> others[k] == token_key(r[i]));
                } else if earlier.contains(token_key(left[n])) {
                    let j = choose|j: int|
                        0 <= j < n && (#[trigger] left[j]).class == class && token_key(left[j])
                            == token_key(left[n]) && token_key(right[j]) == token_key(right[n]);
                    assert(l[j] == left[j] && r[j] == right[j]);
                    assert(earlier[k] == token_key(l[j]) <==> others[k] == token_key(r[j]));
                } else {
                    assert(earlier.contains(earlier[k]) && others.contains(others[k]));
                }
            } else {
                assert(left_known[k] == token_key(left[n]));
                assert(right_known[k] == token_key(right[n]));
                assert(left[n].class == class);
            }
        }
    }
}

/// The last tokens of two lists that repeat alike stand for the same bytes.
proof fn lemma_same_token_bytes(
    left: Seq<TokenView>,
    right: Seq<TokenView>,
    normalization: Option<Normalization>,
)
    requires
        share_patterns(left, right, normalization),
        left.len() > 0,
    ensures
        token_bytes(left.drop_last(), left.last(), normalization) == token_bytes(
            right.drop_last(),
            right.last(),
            normalization,
        ),
{
    let n = left.len() - 1;
    let l = left.drop_last();
    let r = right.drop_last();
    assert(left[n] == left.last() && right[n] == right.last());
    if is_renamed(left[n].class, normalization) {
        let class = left[n].class;
        let left_known = known_keys(l, class);
        let right_known = known_keys(r, class);
        lemma_shared_before(left, right, normalization);
        lemma_known_in_both(left, right, normalization);
        lemma_known_alike(l, r, normalization, class);
        lemma_known_of(r, class, token_key(right[n]));
        if left_known.contains(token_key(left[n])) {
            let j = choose|j: int|
                0 <= j < n && (#[trigger] left[j]).class == class && token_key(left[j])
                    == token_key(left[n]) && token_key(right[j]) == token_key(right[n]);
            assert(l[j] == left[j] && r[j] == right[j]);
            let p = position_of(left_known, token_key(left[n]));
            assert(left_known[p] == token_key(l[j]));
            assert(right_known[p] == token_key(r[j]));
            let q = position_of(right_known, token_key(right[n]));
            assert(right_known[q] == token_key(right[n]));
            assert(p == q);
        }
    }
}

/// Lists of tokens that differ only in a consistent renaming have the same
/// identity.
pub proof fn law_shared_patterns_make_equal_identities(
    left: Seq<TokenView>,
    right: Seq<TokenView>,
    normalization: Option<Normalization>,
)
    requires
        share_patterns(left, right, normalization),
    ensures
        identity(left, normalization) == identity(right, normalization),
    decreases left.len(),
{
    if left.len() > 0 {
        lemma_shared_before(left, right, normalization);
        law_shared_patterns_make_equal_identities(
            left.drop_last(),
            right.drop_last(),
            normalization,
        );
        lemma_same_token_bytes(left, right, normalization);
    }
}

/// Of lists of the same kinds and classes, exactly those that differ only in a
/// consistent renaming have the same identity.
pub proof fn law_identities_decide_renaming(
    left: Seq<TokenView>,
    right: Seq<TokenView>,
    normalization: Option<Normalization>,
)
    requires
        left.len() == right.len(),
        left.len() <= u32::MAX,
        forall|i: int|
            0 <= i < left.len() ==> (#[trigger] left[i]).kind == right[i].kind && left[i].class
                == right[i].class,
        forall|i: int| 0 <= i < left.len() ==> can_be_framed(#[trigger] left[i]),
        forall|i: int| 0 <= i < right.len() ==> can_be_framed(#[trigger] right[i]),
    ensures
        identity(left, normalization) == identity(right, normalization) <==> share_patterns(
            left,
            right,
            normalization,
        ),
{
    if share_patterns(left, right, normalization) {
        law_shared_patterns_make_equal_identities(left, right, normalization);
    }
    if identity(left, normalization) == identity(right, normalization) {
        law_equal_identities_share_patterns(left, right, normalization);
    }
}

} // verus!
