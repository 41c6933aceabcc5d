//! Mathematical model of interspersed output.
//!
//! [`interspersed`] is the specification every entry point of the crate is
//! proved against: the concatenation of the rendered items with one copy of
//! the separator between consecutive items. [`chunks`] decomposes the same
//! output into the exact sequence of pieces written, which makes the count
//! and the positions of the separator occurrences provable.

use vstd::prelude::*;
use vstd::seq_lib::lemma_flatten_concat;

verus! {

/// The interspersed concatenation of `items` with `sep`: empty when there
/// are no items, the sole item alone when there is one, and otherwise every
/// item after the first preceded by one copy of `sep`.
pub open spec fn interspersed(items: Seq<Seq<char>>, sep: Seq<char>) -> Seq<char>
    decreases items.len(),
{
    if items.len() == 0 {
        Seq::empty()
    } else if items.len() == 1 {
        items[0]
    } else {
        interspersed(items.drop_last(), sep) + sep + items.last()
    }
}

/// The pieces of interspersed output, in the order they are written: the
/// items at even positions, one copy of `sep` at every odd position.
pub open spec fn chunks(items: Seq<Seq<char>>, sep: Seq<char>) -> Seq<Seq<char>>
    decreases items.len(),
{
    if items.len() == 0 {
        Seq::empty()
    } else if items.len() == 1 {
        seq![items[0]]
    } else {
        chunks(items.drop_last(), sep) + seq![sep, items.last()]
    }
}

/// The line terminator that the line-appending entry points write after
/// the interspersed output.
pub open spec fn line_term() -> Seq<char> {
    seq!['\n']
}

/// With no items the interspersed output is empty, whatever the separator.
pub proof fn lemma_interspersed_empty(sep: Seq<char>)
    ensures
        interspersed(Seq::empty(), sep) == Seq::<char>::empty(),
{
}

/// With a single item the interspersed output is that item alone, whatever
/// the separator; the separator contributes no piece at all.
pub proof fn lemma_interspersed_singleton(x: Seq<char>, sep: Seq<char>)
    ensures
        interspersed(seq![x], sep) == x,
        chunks(seq![x], sep) == seq![x],
{
}

/// Appending an item extends the output by the separator and then the item
/// (by the item alone when the output was empty): output is built strictly
/// left to right, with no reordering.
pub proof fn lemma_interspersed_push(items: Seq<Seq<char>>, sep: Seq<char>, x: Seq<char>)
    ensures
        interspersed(items.push(x), sep) == if items.len() == 0 {
            x
        } else {
            interspersed(items, sep) + sep + x
        },
{
    let p = items.push(x);
    assert(p.last() == x);
    if items.len() == 0 {
        assert(p.len() == 1);
        assert(p[0] == x);
    } else {
        assert(p.drop_last() =~= items);
    }
}

/// For `n >= 1` items the output consists of exactly `2 * n - 1` pieces:
/// the items in their original order at the even positions, and one copy of
/// the separator at each of the `n - 1` odd positions.
pub proof fn lemma_chunks_shape(items: Seq<Seq<char>>, sep: Seq<char>)
    requires
        items.len() >= 1,
    ensures
        chunks(items, sep).len() == 2 * items.len() - 1,
        forall|j: int|
            0 <= j < 2 * items.len() - 1 && j % 2 == 1 ==> #[trigger] chunks(items, sep)[j] == sep,
        forall|j: int|
            0 <= j < 2 * items.len() - 1 && j % 2 == 0 ==> #[trigger] chunks(items, sep)[j]
                == items[j / 2],
    decreases items.len(),
{
    if items.len() > 1 {
        lemma_chunks_shape(items.drop_last(), sep);
    }
}

/// The interspersed output is the concatenation of its pieces.
pub proof fn lemma_interspersed_is_flatten(items: Seq<Seq<char>>, sep: Seq<char>)
    ensures
        interspersed(items, sep) == chunks(items, sep).flatten(),
    decreases items.len(),
{
    if items.len() == 0 {
    } else if items.len() == 1 {
        chunks(items, sep).lemma_flatten_one_element();
    } else {
        let front = items.drop_last();
        lemma_interspersed_is_flatten(front, sep);
        lemma_flatten_concat(chunks(front, sep), seq![sep, items.last()]);
        assert(seq![sep, items.last()].drop_first() =~= seq![items.last()]);
        seq![items.last()].lemma_flatten_one_element();
        assert(seq![sep, items.last()].flatten() =~= sep + items.last());
        assert(interspersed(items, sep) =~= chunks(items, sep).flatten());
    }
}

/// A sequence is a prefix of itself extended by anything.
pub proof fn lemma_prefix_of_concat(a: Seq<char>, b: Seq<char>)
    ensures
        a.is_prefix_of(a + b),
{
    assert((a + b).subrange(0, a.len() as int) =~= a);
}

/// Prefixes compose.
pub proof fn lemma_prefix_transitive(a: Seq<char>, b: Seq<char>, c: Seq<char>)
    requires
        a.is_prefix_of(b),
        b.is_prefix_of(c),
    ensures
        a.is_prefix_of(c),
{
    assert forall|i: int| 0 <= i < a.len() implies a[i] == c.subrange(0, a.len() as int)[i] by {
        assert(a[i] == b.subrange(0, b.len() as int)[i]);
    }
    assert(a =~= c.subrange(0, a.len() as int));
}

/// Extending two sequences by a common front keeps the prefix relation.
pub proof fn lemma_prefix_extend(front: Seq<char>, a: Seq<char>, b: Seq<char>)
    requires
        a.is_prefix_of(b),
    ensures
        (front + a).is_prefix_of(front + b),
{
    assert(front + a =~= (front + b).subrange(0, front.len() + a.len() as int));
}

/// The output for the first `i` items is a prefix of the output for all of
/// them: output grows monotonically as items are appended.
pub proof fn lemma_interspersed_take_prefix(items: Seq<Seq<char>>, sep: Seq<char>, i: int)
    requires
        0 <= i <= items.len(),
    ensures
        interspersed(items.take(i), sep).is_prefix_of(interspersed(items, sep)),
    decreases items.len() - i,
{
    if i == items.len() {
        assert(items.take(i) =~= items);
        lemma_prefix_of_concat(interspersed(items, sep), Seq::empty());
        assert(interspersed(items, sep) + Seq::<char>::empty() =~= interspersed(items, sep));
    } else {
        assert(items.take(i + 1) =~= items.take(i).push(items[i]));
        lemma_interspersed_push(items.take(i), sep, items[i]);
        if i == 0 {
            assert(interspersed(items.take(0), sep) =~= Seq::<char>::empty());
            assert(Seq::<char>::empty() + interspersed(items.take(1), sep) =~= interspersed(
                items.take(1),
                sep,
            ));
            lemma_prefix_of_concat(Seq::empty(), interspersed(items.take(1), sep));
        } else {
            lemma_prefix_of_concat(interspersed(items.take(i), sep), sep + items[i]);
            assert(interspersed(items.take(i), sep) + (sep + items[i]) =~= interspersed(
                items.take(i + 1),
                sep,
            ));
        }
        lemma_interspersed_take_prefix(items, sep, i + 1);
        lemma_prefix_transitive(
            interspersed(items.take(i), sep),
            interspersed(items.take(i + 1), sep),
            interspersed(items, sep),
        );
    }
}

/// If writing fails part-way through the copy of the separator that is due
/// before a further item `x`, the text written so far — the output for the
/// items already written followed by a prefix of the separator — is a
/// prefix of the output extended by `x`.
pub proof fn lemma_push_sep_partial_prefix(
    rs: Seq<Seq<char>>,
    sep: Seq<char>,
    x: Seq<char>,
    pre: Seq<char>,
)
    requires
        rs.len() >= 1,
        pre.is_prefix_of(sep),
    ensures
        (interspersed(rs, sep) + pre).is_prefix_of(interspersed(rs.push(x), sep)),
{
    let w0 = interspersed(rs, sep);
    lemma_interspersed_push(rs, sep, x);
    lemma_prefix_extend(w0, pre, sep);
    lemma_prefix_of_concat(w0 + sep, x);
    lemma_prefix_transitive(w0 + pre, w0 + sep, (w0 + sep) + x);
}

/// If writing fails part-way through a further item `x` itself, the text
/// written so far — the output for the items already written, the
/// separator when one was due, and a prefix of `x` — is a prefix of the
/// output extended by `x`.
pub proof fn lemma_push_item_partial_prefix(
    rs: Seq<Seq<char>>,
    sep: Seq<char>,
    x: Seq<char>,
    pre: Seq<char>,
)
    requires
        pre.is_prefix_of(x),
    ensures
        rs.len() == 0 ==> pre.is_prefix_of(interspersed(rs.push(x), sep)),
        rs.len() >= 1 ==> ((interspersed(rs, sep) + sep) + pre).is_prefix_of(
            interspersed(rs.push(x), sep),
        ),
{
    lemma_interspersed_push(rs, sep, x);
    if rs.len() >= 1 {
        let w0 = interspersed(rs, sep);
        lemma_prefix_extend(w0 + sep, pre, x);
    }
}

/// If writing fails part-way through a copy of the separator, the text
/// written so far — the output for the first `i` items followed by a prefix
/// of the separator — is a prefix of the full output.
pub proof fn lemma_sep_partial_prefix(all: Seq<Seq<char>>, sep: Seq<char>, i: int, pre: Seq<char>)
    requires
        1 <= i < all.len(),
        pre.is_prefix_of(sep),
    ensures
        (interspersed(all.take(i), sep) + pre).is_prefix_of(interspersed(all, sep)),
{
    let w0 = interspersed(all.take(i), sep);
    lemma_prefix_extend(w0, pre, sep);
    lemma_prefix_of_concat(w0 + sep, all[i]);
    assert(all.take(i + 1) =~= all.take(i).push(all[i]));
    lemma_interspersed_push(all.take(i), sep, all[i]);
    lemma_prefix_transitive(w0 + pre, w0 + sep, (w0 + sep) + all[i]);
    lemma_interspersed_take_prefix(all, sep, i + 1);
    lemma_prefix_transitive(w0 + pre, (w0 + sep) + all[i], interspersed(all, sep));
}

/// If writing fails part-way through an item, the text written so far — the
/// output for the earlier items, the separator when one was due, and a
/// prefix of the item — is a prefix of the full output.
pub proof fn lemma_item_partial_prefix(all: Seq<Seq<char>>, sep: Seq<char>, i: int, pre: Seq<char>)
    requires
        0 <= i < all.len(),
        pre.is_prefix_of(all[i]),
    ensures
        i == 0 ==> pre.is_prefix_of(interspersed(all, sep)),
        i >= 1 ==> ((interspersed(all.take(i), sep) + sep) + pre).is_prefix_of(
            interspersed(all, sep),
        ),
{
    assert(all.take(i + 1) =~= all.take(i).push(all[i]));
    lemma_interspersed_push(all.take(i), sep, all[i]);
    lemma_interspersed_take_prefix(all, sep, i + 1);
    if i == 0 {
        lemma_prefix_transitive(pre, all[0], interspersed(all, sep));
    } else {
        let w0 = interspersed(all.take(i), sep);
        lemma_prefix_extend(w0 + sep, pre, all[i]);
        lemma_prefix_transitive((w0 + sep) + pre, (w0 + sep) + all[i], interspersed(all, sep));
    }
}

} // verus!
