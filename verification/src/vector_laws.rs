//! What becomes of embeddings: batches, rows, vectors, and the scores of what they find.
use vstd::arithmetic::power2::*;
use vstd::prelude::*;

use crate::binary32::{
    infinite_units, narrowed, signed_over_whole, signed_plus, single_from_whole, single_plus,
    size_of, Binary32,
};
use crate::binary64::pattern_units;
use crate::embedding::{
    all_ids, all_masks, all_types, answer_error, attended, batch_end, batch_width, cache_directory,
    first_item_error, is_complete, is_key, is_narrowed, is_vector, item_error, list_field, longest,
    number_of, padded, padded_rows, EmbeddingError, Encoding,
};
use crate::fusion::{are_plain, is_ranked, signed_list_score, signed_score};
use crate::json::{field, Json};
use crate::rounding::{
    lemma_round_exact, lemma_round_monotone, lemma_round_relative, lemma_round_zero, representable,
};
use crate::sequences::{lemma_one_more_position, positions};
use crate::text::{is_white, trimmed};
use crate::time::{toward_zero, valid_instant};

verus! {

/// A batch holds `size` texts, the last one what is left.
pub proof fn law_batches_are_full(n: int, size: int, i: int)
    requires
        size > 0,
        0 <= i * size < n,
    ensures
        batch_end(n, size, i) - i * size == if n - i * size < size {
            n - i * size
        } else {
            size
        },
{
    assert((i + 1) * size == i * size + size) by (nonlinear_arith);
}

/// No sequence is longer than the longest, and one of them is that long.
pub proof fn law_the_longest_is_one_of_them(encodings: Seq<Encoding>)
    ensures
        forall|i: int|
            0 <= i < encodings.len() ==> (#[trigger] encodings[i]).ids@.len() <= longest(encodings),
        encodings.len() > 0 ==> exists|i: int|
            0 <= i < encodings.len() && (#[trigger] encodings[i]).ids@.len() == longest(encodings),
        encodings.len() == 0 ==> longest(encodings) == 0,
    decreases encodings.len(),
{
    if encodings.len() > 0 {
        let before = encodings.drop_last();
        law_the_longest_is_one_of_them(before);
        assert forall|i: int| 0 <= i < encodings.len() implies (
        #[trigger] encodings[i]).ids@.len() <= longest(encodings) by {
            if i < before.len() {
                assert(encodings[i] == before[i]);
            }
        }
        let last = encodings.len() - 1;
        if encodings[last].ids@.len() > longest(before) {
            assert(encodings[last].ids@.len() == longest(encodings));
        } else if before.len() > 0 {
            let i = choose|i: int|
                0 <= i < before.len() && (#[trigger] before[i]).ids@.len() == longest(before);
            assert(encodings[i].ids@.len() == longest(encodings));
        } else {
            assert(encodings[last].ids@.len() == longest(encodings));
        }
    }
}

/// Every sequence fits into its batch, unless the model does not take that many tokens.
pub proof fn law_batches_hold_every_token(encodings: Seq<Encoding>, i: int)
    requires
        0 <= i < encodings.len(),
    ensures
        batch_width(encodings) <= 512,
        encodings[i].ids@.len() <= 512 ==> encodings[i].ids@.len() <= batch_width(encodings),
        batch_width(encodings) < 512 ==> exists|k: int|
            0 <= k < encodings.len() && (#[trigger] encodings[k]).ids@.len() == batch_width(
                encodings,
            ),
{
    law_the_longest_is_one_of_them(encodings);
}

/// A batch has one row of identifiers, one of masks and one of types for each sequence;
/// a sequence is complete exactly when each of its tokens has a mask and a type.
pub proof fn law_batches_hold_identifiers_masks_and_types(encodings: Seq<Encoding>, i: int)
    requires
        0 <= i < encodings.len(),
    ensures
        all_ids(encodings).len() == encodings.len() && all_ids(encodings)[i] == encodings[i].ids@,
        all_masks(encodings).len() == encodings.len() && all_masks(encodings)[i]
            == encodings[i].mask@,
        all_types(encodings).len() == encodings.len() && all_types(encodings)[i]
            == encodings[i].types@,
        is_complete(encodings[i]) <==> encodings[i].ids@.len() == encodings[i].mask@.len()
            && encodings[i].ids@.len() == encodings[i].types@.len(),
{
}

/// Row `r` of a batch holds sequence `r`, token by token, and zeros after it.
pub proof fn law_rows_hold_their_sequences(rows: Seq<Seq<u32>>, width: nat, r: int, i: int)
    requires
        0 <= r < rows.len(),
        0 <= i < width,
    ensures
        padded_rows(rows, width).len() == rows.len() * width,
        0 <= r * width + i < rows.len() * width,
        padded_rows(rows, width)[r * width + i] == if i < rows[r].len() {
            rows[r][i] as i64
        } else {
            0
        },
    decreases rows.len(),
{
    lemma_rows_length(rows, width);
    let before = rows.drop_last();
    lemma_rows_length(before, width);
    let w = width as int;
    let n = rows.len() as int;
    assert(0 <= r * w && r * w + w <= n * w) by (nonlinear_arith)
        requires
            0 <= r < n,
            w >= 0,
    ;
    if r < before.len() {
        law_rows_hold_their_sequences(before, width, r, i);
        assert(padded_rows(rows, width)[r * width + i] == padded_rows(before, width)[r * width
            + i]);
    } else {
        assert(r == before.len());
        let at = padded_rows(before, width).len() + i;
        assert(padded_rows(rows, width)[at] == padded(rows.last(), width)[i]);
    }
}

proof fn lemma_rows_length(rows: Seq<Seq<u32>>, width: nat)
    ensures
        padded_rows(rows, width).len() == rows.len() * width,
    decreases rows.len(),
{
    if rows.len() > 0 {
        lemma_rows_length(rows.drop_last(), width);
        let n = rows.len() as int;
        let w = width as int;
        assert(n * w == (n - 1) * w + w) by (nonlinear_arith);
    } else {
        assert(0 * width == 0);
    }
}

/// The positions that are attended to are those with a positive mask, all of them and in
/// their order.
pub proof fn law_positive_masks_are_attended_to(row: Seq<i64>)
    ensures
        attended(row) == positions(row.len()).filter(|i: int| row[i] > 0),
{
    lemma_attended(row, row.len());
    assert(row.take(row.len() as int) =~= row);
}

proof fn lemma_attended(row: Seq<i64>, n: nat)
    requires
        n <= row.len(),
    ensures
        attended(row.take(n as int)) == positions(n).filter(|i: int| row[i] > 0),
    decreases n,
{
    let p = |i: int| row[i] > 0;
    if n > 0 {
        let k = (n - 1) as nat;
        lemma_attended(row, k);
        lemma_one_more_position(k, p);
        assert(row.take(n as int).drop_last() =~= row.take(k as int));
        assert(row.take(n as int).last() == row[n - 1]);
        assert(positions(n).filter(p) =~= attended(row.take(n as int)));
    } else {
        reveal(Seq::filter);
        assert(positions(0).filter(p) =~= Seq::empty());
    }
}

/// The key is the one that is configured, and empty only where none is or it is so itself.
/// A directory counts exactly when it is not blank, without the white space around it.
pub proof fn law_configuration_is_taken_as_it_is(
    key: String,
    configured: Option<String>,
    directory: Option<String>,
)
    ensures
        configured is Some ==> (is_key(key, configured) <==> key@ == configured->0@),
        configured is None ==> (is_key(key, configured) <==> key@.len() == 0),
        cache_directory(directory) is Some <==> directory is Some && exists|i: int|
            0 <= i < directory->0@.len() && !is_white(#[trigger] directory->0@[i]),
        cache_directory(directory) is Some ==> cache_directory(directory)->0 == trimmed(
            directory->0@,
        ),
{
    if directory is Some {
        crate::interface_laws::lemma_trimmed_twice(directory->0@);
    }
}

/// An answer can be read exactly when it has a list of data, each item of which has a list
/// of numbers as its embedding.
pub proof fn law_answers_hold_lists_of_numbers(resp: Json)
    ensures
        answer_error(resp) is None <==> {
            &&& field(resp, "data"@) is Some
            &&& field(resp, "data"@)->0 is List
            &&& forall|i: int|
                0 <= i < field(resp, "data"@)->0->List_0@.len() ==> {
                    let item = #[trigger] field(resp, "data"@)->0->List_0@[i];
                    holds_numbers(item)
                }
        },
        !(field(resp, "data"@) is Some && field(resp, "data"@)->0 is List) ==> answer_error(resp)
            == Some(EmbeddingError::MissingData),
{
    if field(resp, "data"@) is Some && field(resp, "data"@)->0 is List {
        let items = field(resp, "data"@)->0->List_0@;
        law_the_first_bad_item_is_told(items);
        assert forall|i: int| 0 <= i < items.len() implies (item_error(
            #[trigger] items[i],
        ) is None <==> holds_numbers(items[i])) by {
            law_items_hold_numbers(items[i]);
        }
        if answer_error(resp) is None {
            assert forall|i: int| 0 <= i < items.len() implies holds_numbers(
                #[trigger] items[i],
            ) by {
                assert(item_error(items[i]) is None);
            }
        }
    }
}

/// An item has a list of numbers as its embedding.
pub open spec fn holds_numbers(item: Json) -> bool {
    &&& field(item, "embedding"@) is Some
    &&& field(item, "embedding"@)->0 is List
    &&& forall|k: int|
        0 <= k < field(item, "embedding"@)->0->List_0@.len() ==> {
            let v = #[trigger] field(item, "embedding"@)->0->List_0@[k];
            v is Number && v->Number_0.number is Some
        }
}

/// An item can be read exactly when its embedding is a list of numbers; it is told whether
/// the list is missing or something in it is no number.
pub proof fn law_items_hold_numbers(item: Json)
    ensures
        item_error(item) is None <==> holds_numbers(item),
        item_error(item) == Some(EmbeddingError::MissingEmbedding) <==> !(field(
            item,
            "embedding"@,
        ) is Some && field(item, "embedding"@)->0 is List),
        item_error(item) is Some ==> item_error(item) == Some(EmbeddingError::MissingEmbedding)
            || item_error(item) == Some(EmbeddingError::NotANumber),
{
    if list_field(item, "embedding"@) is Some {
        let values = list_field(item, "embedding"@)->0;
        assert(values == field(item, "embedding"@)->0->List_0@);
        assert(forall|k: int|
            0 <= k < values.len() ==> (number_of(#[trigger] values[k]) is Some <==> values[k] is Number
                && values[k]->Number_0.number is Some));
    }
}

/// A vector holds one number for each value of the list: the nearest one in single
/// precision, with the same sign.
pub proof fn law_vectors_hold_every_number(r: Seq<u32>, values: Seq<Json>, i: int)
    requires
        is_vector(r, values),
        0 <= i < values.len(),
    ensures
        r.len() == values.len(),
        values[i] is Number && values[i]->Number_0.number is Some,
        ({
            let v = values[i]->Number_0.number->0;
            let w = Binary32 { bits: r[i] };
            &&& v.is_nan() ==> w.value() is None
            &&& !v.is_nan() ==> w.value() == Some(
                if v.is_negative() {
                    -(narrowed(pattern_units(v.pattern())) as int)
                } else {
                    narrowed(pattern_units(v.pattern())) as int
                },
            )
        }),
{
    assert(is_narrowed(r[i], values[i]));
}

/// The error that is told is that of the first item that cannot be read.
pub proof fn law_the_first_bad_item_is_told(items: Seq<Json>)
    ensures
        first_item_error(items) is None <==> forall|i: int|
            0 <= i < items.len() ==> item_error(#[trigger] items[i]) is None,
        forall|i: int|
            0 <= i < items.len() && item_error(#[trigger] items[i]) is Some && (forall|k: int|
                0 <= k < i ==> item_error(#[trigger] items[k]) is None) ==> first_item_error(items)
                == item_error(items[i]),
    decreases items.len(),
{
    if items.len() > 0 {
        let rest = items.drop_first();
        law_the_first_bad_item_is_told(rest);
        if item_error(items[0]) is None {
            if first_item_error(rest) is None {
                assert forall|i: int| 0 <= i < items.len() implies item_error(
                    #[trigger] items[i],
                ) is None by {
                    if i > 0 {
                        assert(items[i] == rest[i - 1]);
                    }
                }
            } else {
                let i = choose|i: int| 0 <= i < rest.len() && item_error(#[trigger] rest[i]) is Some;
                assert(items[i + 1] == rest[i]);
            }
        }
        assert forall|i: int|
            0 <= i < items.len() && item_error(#[trigger] items[i]) is Some && (forall|k: int|
                0 <= k < i ==> item_error(#[trigger] items[k]) is None) implies first_item_error(
            items,
        ) == item_error(items[i]) by {
            if i > 0 {
                assert(item_error(items[0]) is None);
                assert(rest[i - 1] == items[i]);
                assert forall|k: int| 0 <= k < i - 1 implies item_error(
                    #[trigger] rest[k],
                ) is None by {
                    assert(rest[k] == items[k + 1]);
                }
            }
        }
    }
}

/// A number in single precision stays as it is when it is narrowed, a larger number never
/// becomes a smaller one, and what is left off is less than the last of twenty-four places,
/// or less than the smallest number that there is.
pub proof fn law_narrowing_keeps_what_fits(v: nat, a: nat, b: nat)
    requires
        a <= b,
    ensures
        representable(24, v) && v < infinite_units() ==> narrowed(v * pow2(925)) == v,
        narrowed(a) <= narrowed(b),
        narrowed(a) < infinite_units() ==> {
            let p = pow2(24);
            let r = narrowed(a) * pow2(925);
            &&& r * p <= a * p + a + p * pow2(925)
            &&& a * p <= r * p + a + p * pow2(925)
        },
{
    lemma_pow2_pos(925);
    if representable(24, v) {
        lemma_round_exact(24, v, pow2(925));
    }
    assert(a * pow2(925) <= b * pow2(925)) by (nonlinear_arith)
        requires
            a <= b,
    ;
    lemma_round_monotone(24, a, pow2(925), b, pow2(925));
    lemma_round_relative(24, a, pow2(925));
}

/// Scores with signs are summed regardless of their order and of which sign is which. What
/// is no number stays so, and opposite infinities make none.
pub proof fn law_signs_are_symmetric(x: int, y: int, d: nat)
    requires
        d > 0,
    ensures
        signed_plus(Some(x), Some(y)) == signed_plus(Some(y), Some(x)),
        signed_plus(Some(x), Some(y)) is Some ==> signed_plus(Some(-x), Some(-y)) == Some(
            -signed_plus(Some(x), Some(y))->0,
        ),
        signed_plus(Some(x), None) is None && signed_plus(None, Some(x)) is None,
        signed_plus(Some(x), Some(y)) is None <==> size_of(x) == infinite_units() && y == -x && x
            != 0,
        x >= 0 && y >= 0 && x < infinite_units() && y < infinite_units() ==> signed_plus(
            Some(x),
            Some(y),
        ) == Some(single_plus(x as nat, y as nat) as int),
        signed_over_whole(None, d) is None,
        signed_over_whole(Some(-x), d) == Some(-signed_over_whole(Some(x), d)->0),
{
    lemma_round_zero(24, 1);
    lemma_round_zero(24, d);
}

/// A list changes the score of an identifier only by its ranks in it: where it is absent
/// the score stays, and a further entry counts at the rank that it has.
pub proof fn law_ranks_change_signed_scores(
    list: Seq<u128>,
    weight: Option<int>,
    id: u128,
    other: u128,
    start: Option<int>,
)
    ensures
        !list.contains(id) ==> signed_list_score(list, weight, id, start) == start,
        other != id ==> signed_list_score(list.push(other), weight, id, start)
            == signed_list_score(list, weight, id, start),
        signed_list_score(list.push(id), weight, id, start) == signed_plus(
            signed_list_score(list, weight, id, start),
            signed_over_whole(weight, single_from_whole(60 + single_from_whole(list.len()))),
        ),
    decreases list.len(),
{
    assert(list.push(other).drop_last() =~= list);
    assert(list.push(id).drop_last() =~= list);
    if list.len() > 0 {
        law_ranks_change_signed_scores(list.drop_last(), weight, id, other, start);
        if !list.contains(id) {
            assert(list.last() != id) by {
                assert(list.contains(list[list.len() - 1]));
            }
            let shorter = list.drop_last();
            assert(!shorter.contains(id)) by {
                if shorter.contains(id) {
                    let i = choose|i: int| 0 <= i < shorter.len() && shorter[i] == id;
                    assert(list[i] == id);
                }
            }
        }
    }
}

/// What no list ranks has no score; a further list counts with its own weight, after the
/// others.
pub proof fn law_lists_are_taken_one_after_the_other(
    lists: Seq<(&[u128], Binary32)>,
    list: (&[u128], Binary32),
    id: u128,
)
    ensures
        signed_score(Seq::empty(), id) == Some(0int),
        signed_score(lists.push(list), id) == signed_list_score(
            list.0@,
            list.1.value(),
            id,
            signed_score(lists, id),
        ),
        !is_ranked(lists, id) ==> signed_score(lists, id) == Some(0int),
        is_ranked(lists.push(list), id) <==> is_ranked(lists, id) || list.0@.contains(id),
        are_plain(lists.push(list)) <==> are_plain(lists) && list.1.bits < 0x7F80_0000,
    decreases lists.len(),
{
    let more = lists.push(list);
    assert(more.drop_last() =~= lists);
    assert(more[lists.len() as int] == list);
    assert forall|i: int| 0 <= i < lists.len() implies #[trigger] more[i] == lists[i] by {}
    if is_ranked(lists, id) {
        let i = choose|i: int| 0 <= i < lists.len() && (#[trigger] lists[i]).0@.contains(id);
        assert(more[i].0@.contains(id));
    }
    if is_ranked(more, id) && !list.0@.contains(id) {
        let i = choose|i: int| 0 <= i < more.len() && (#[trigger] more[i]).0@.contains(id);
        assert(lists[i].0@.contains(id));
    }
    if are_plain(more) {
        assert forall|i: int| 0 <= i < lists.len() implies (#[trigger] lists[i]).1.bits
            < 0x7F80_0000 by {
            assert(more[i].1.bits < 0x7F80_0000);
        }
    }
    if lists.len() > 0 && !is_ranked(lists, id) {
        let before = lists.drop_last();
        let last = lists.last();
        law_lists_are_taken_one_after_the_other(before, last, id);
        assert(before.push(last) =~= lists);
        law_ranks_change_signed_scores(last.0@, last.1.value(), id, id, Some(0int));
    }
}

/// A number of nanoseconds is as many seconds and a rest of less than one, which has the
/// same sign.
pub proof fn law_parts_of_seconds_are_dropped(nanos: int)
    ensures
        ({
            let rest = nanos - toward_zero(nanos) * 1_000_000_000;
            &&& nanos >= 0 ==> 0 <= rest < 1_000_000_000
            &&& nanos <= 0 ==> -1_000_000_000 < rest <= 0
        }),
        toward_zero(-nanos) == -toward_zero(nanos),
{
}

/// Instants have at most the nanoseconds of one second, or of two where a leap second may
/// be, at the end of a minute.
pub proof fn law_instants_lie_within_their_second(secs: int, nanos: int)
    requires
        valid_instant(secs, nanos),
    ensures
        0 <= nanos,
        secs % 60 != 59 ==> nanos < 1_000_000_000,
        nanos < 2_000_000_000,
        valid_instant(secs, 0),
        valid_instant(secs, 999_999_999),
        secs % 60 == 59 ==> valid_instant(secs, 1_999_999_999),
{
}

} // verus!
