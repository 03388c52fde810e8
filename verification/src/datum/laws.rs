//! Laws of the coercing order: it is reflexive, antisymmetric and
//! transitive, a strict prefix orders first, coercion is exact, and the
//! empty list orders before every non-empty list.

use vstd::prelude::*;
use core::cmp::Ordering;
use crate::datum::DatumView;
use crate::datum::ordering::{
    datum_cmp, lemma_seq_view_size_singleton, lemma_view_size_pos, seq_cmp, seq_view_size,
    view_size,
};

verus! {

/// The outcome of a comparison read with its arguments swapped.
pub open spec fn flip(c: Ordering) -> Ordering {
    match c {
        Ordering::Less => Ordering::Greater,
        Ordering::Equal => Ordering::Equal,
        Ordering::Greater => Ordering::Less,
    }
}

/// The children a view contributes to a list comparison: a list gives its
/// own children, an integer gives the one-element sequence it coerces to.
pub open spec fn as_children(v: DatumView) -> Seq<DatumView> {
    match v {
        DatumView::List(s) => s,
        DatumView::Integer(_) => seq![v],
    }
}

/// Any comparison is the list comparison of the coerced children.
pub proof fn lemma_datum_cmp_as_children(a: DatumView, b: DatumView)
    ensures
        datum_cmp(a, b) == seq_cmp(as_children(a), as_children(b)),
{
    reveal_with_fuel(seq_cmp, 3);
    if a is Integer && b is Integer {
        let sa = as_children(a);
        let sb = as_children(b);
        assert(sa.subrange(1, 1) =~= Seq::<DatumView>::empty());
        assert(sb.subrange(1, 1) =~= Seq::<DatumView>::empty());
    }
}

/// Every view compares equal to itself.
pub proof fn lemma_cmp_reflexive(a: DatumView)
    ensures
        datum_cmp(a, a) == Ordering::Equal,
    decreases view_size(a), 0nat,
{
    match a {
        DatumView::List(s) => {
            lemma_seq_cmp_reflexive(s);
        },
        DatumView::Integer(_) => {},
    }
}

/// Every sequence of views compares equal to itself.
pub proof fn lemma_seq_cmp_reflexive(s: Seq<DatumView>)
    ensures
        seq_cmp(s, s) == Ordering::Equal,
    decreases seq_view_size(s), 1nat,
{
    if s.len() > 0 {
        lemma_view_size_pos(s[0]);
        lemma_cmp_reflexive(s[0]);
        lemma_seq_cmp_reflexive(s.subrange(1, s.len() as int));
    }
}

/// Swapping the two views swaps `Less` and `Greater` and keeps `Equal`:
/// the order is antisymmetric.
pub proof fn lemma_cmp_antisymmetric(a: DatumView, b: DatumView)
    ensures
        datum_cmp(b, a) == flip(datum_cmp(a, b)),
    decreases view_size(a) + view_size(b), 0nat,
{
    match (a, b) {
        (DatumView::Integer(_), DatumView::Integer(_)) => {},
        (DatumView::List(s), DatumView::List(t)) => {
            lemma_seq_cmp_antisymmetric(s, t);
        },
        (DatumView::Integer(x), DatumView::List(t)) => {
            lemma_seq_view_size_singleton(a);
            lemma_seq_cmp_antisymmetric(seq![a], t);
        },
        (DatumView::List(s), DatumView::Integer(y)) => {
            lemma_seq_view_size_singleton(b);
            lemma_seq_cmp_antisymmetric(s, seq![b]);
        },
    }
}

/// Antisymmetry of the list comparison.
pub proof fn lemma_seq_cmp_antisymmetric(s: Seq<DatumView>, t: Seq<DatumView>)
    ensures
        seq_cmp(t, s) == flip(seq_cmp(s, t)),
    decreases seq_view_size(s) + seq_view_size(t), 1nat,
{
    if s.len() > 0 && t.len() > 0 {
        lemma_view_size_pos(s[0]);
        lemma_view_size_pos(t[0]);
        lemma_cmp_antisymmetric(s[0], t[0]);
        if datum_cmp(s[0], t[0]) == Ordering::Equal {
            lemma_seq_cmp_antisymmetric(
                s.subrange(1, s.len() as int),
                t.subrange(1, t.len() as int),
            );
        }
    }
}

/// Transitivity of the order, for outcomes built from `Equal` and `Less`;
/// the `Greater` combinations follow with [`lemma_cmp_antisymmetric`].
pub proof fn lemma_cmp_transitive_le(a: DatumView, b: DatumView, c: DatumView)
    ensures
        datum_cmp(a, b) == Ordering::Equal && datum_cmp(b, c) == Ordering::Equal
            ==> datum_cmp(a, c) == Ordering::Equal,
        datum_cmp(a, b) == Ordering::Equal && datum_cmp(b, c) == Ordering::Less ==> datum_cmp(
            a,
            c,
        ) == Ordering::Less,
        datum_cmp(a, b) == Ordering::Less && datum_cmp(b, c) == Ordering::Equal ==> datum_cmp(
            a,
            c,
        ) == Ordering::Less,
        datum_cmp(a, b) == Ordering::Less && datum_cmp(b, c) == Ordering::Less ==> datum_cmp(
            a,
            c,
        ) == Ordering::Less,
    decreases view_size(a) + view_size(b) + view_size(c), 0nat,
{
    if a is Integer && b is Integer && c is Integer {
        // numeric comparison of the three integers
    } else {
        lemma_datum_cmp_as_children(a, b);
        lemma_datum_cmp_as_children(b, c);
        lemma_datum_cmp_as_children(a, c);
        lemma_children_size(a);
        lemma_children_size(b);
        lemma_children_size(c);
        lemma_seq_cmp_transitive_le(as_children(a), as_children(b), as_children(c));
    }
}

/// The coerced children of a view are never larger than the view itself,
/// and strictly smaller for a list.
proof fn lemma_children_size(v: DatumView)
    ensures
        seq_view_size(as_children(v)) <= view_size(v),
        v is List ==> seq_view_size(as_children(v)) < view_size(v),
{
    if v is Integer {
        lemma_seq_view_size_singleton(v);
    }
}

/// Transitivity of the list comparison, for outcomes built from `Equal`
/// and `Less`.
pub proof fn lemma_seq_cmp_transitive_le(s: Seq<DatumView>, t: Seq<DatumView>, u: Seq<DatumView>)
    ensures
        seq_cmp(s, t) == Ordering::Equal && seq_cmp(t, u) == Ordering::Equal ==> seq_cmp(s, u)
            == Ordering::Equal,
        seq_cmp(s, t) == Ordering::Equal && seq_cmp(t, u) == Ordering::Less ==> seq_cmp(s, u)
            == Ordering::Less,
        seq_cmp(s, t) == Ordering::Less && seq_cmp(t, u) == Ordering::Equal ==> seq_cmp(s, u)
            == Ordering::Less,
        seq_cmp(s, t) == Ordering::Less && seq_cmp(t, u) == Ordering::Less ==> seq_cmp(s, u)
            == Ordering::Less,
    decreases seq_view_size(s) + seq_view_size(t) + seq_view_size(u), 1nat,
{
    if s.len() > 0 && t.len() > 0 && u.len() > 0 {
        lemma_view_size_pos(s[0]);
        lemma_view_size_pos(t[0]);
        lemma_view_size_pos(u[0]);
        lemma_cmp_transitive_le(s[0], t[0], u[0]);
        lemma_seq_cmp_transitive_le(
            s.subrange(1, s.len() as int),
            t.subrange(1, t.len() as int),
            u.subrange(1, u.len() as int),
        );
    }
}

/// Transitivity of the order, in every combination of outcomes.
pub proof fn lemma_cmp_transitive(a: DatumView, b: DatumView, c: DatumView)
    ensures
        datum_cmp(a, b) == Ordering::Equal && datum_cmp(b, c) == Ordering::Equal
            ==> datum_cmp(a, c) == Ordering::Equal,
        datum_cmp(a, b) == Ordering::Equal && datum_cmp(b, c) == Ordering::Less ==> datum_cmp(
            a,
            c,
        ) == Ordering::Less,
        datum_cmp(a, b) == Ordering::Less && datum_cmp(b, c) == Ordering::Equal ==> datum_cmp(
            a,
            c,
        ) == Ordering::Less,
        datum_cmp(a, b) == Ordering::Less && datum_cmp(b, c) == Ordering::Less ==> datum_cmp(
            a,
            c,
        ) == Ordering::Less,
        datum_cmp(a, b) == Ordering::Equal && datum_cmp(b, c) == Ordering::Greater ==> datum_cmp(
            a,
            c,
        ) == Ordering::Greater,
        datum_cmp(a, b) == Ordering::Greater && datum_cmp(b, c) == Ordering::Equal ==> datum_cmp(
            a,
            c,
        ) == Ordering::Greater,
        datum_cmp(a, b) == Ordering::Greater && datum_cmp(b, c) == Ordering::Greater
            ==> datum_cmp(a, c) == Ordering::Greater,
{
    lemma_cmp_transitive_le(a, b, c);
    lemma_cmp_transitive_le(c, b, a);
    lemma_cmp_antisymmetric(a, b);
    lemma_cmp_antisymmetric(b, c);
    lemma_cmp_antisymmetric(a, c);
}

/// A strict prefix orders first: a sequence compares `Less` than itself
/// followed by one or more further views.
pub proof fn lemma_prefix_orders_first(s: Seq<DatumView>, ext: Seq<DatumView>)
    requires
        ext.len() > 0,
    ensures
        seq_cmp(s, s + ext) == Ordering::Less,
        datum_cmp(DatumView::List(s), DatumView::List(s + ext)) == Ordering::Less,
    decreases s.len(),
{
    if s.len() == 0 {
        assert(s + ext =~= ext);
    } else {
        lemma_cmp_reflexive(s[0]);
        lemma_prefix_orders_first(s.subrange(1, s.len() as int), ext);
        assert((s + ext).subrange(1, (s + ext).len() as int) =~= s.subrange(1, s.len() as int)
            + ext);
        assert((s + ext)[0] == s[0]);
    }
}

/// An integer compares equal to the one-element list holding it.
pub proof fn lemma_integer_equals_singleton_list(v: int)
    ensures
        datum_cmp(DatumView::Integer(v), DatumView::List(seq![DatumView::Integer(v)]))
            == Ordering::Equal,
{
    lemma_seq_cmp_reflexive(seq![DatumView::Integer(v)]);
}

/// Comparing a list against an integer is comparing it against the
/// one-element list holding that integer.
pub proof fn lemma_list_vs_integer_coerces(ch: Seq<DatumView>, v: int)
    ensures
        datum_cmp(DatumView::List(ch), DatumView::Integer(v)) == datum_cmp(
            DatumView::List(ch),
            DatumView::List(seq![DatumView::Integer(v)]),
        ),
{
}

/// The empty list orders before every non-empty list, and equal to itself.
pub proof fn lemma_empty_list_orders_first(t: Seq<DatumView>)
    ensures
        t.len() > 0 ==> datum_cmp(
            DatumView::List(Seq::empty()),
            DatumView::List(t),
        ) == Ordering::Less,
        datum_cmp(DatumView::List(Seq::empty()), DatumView::List(Seq::empty()))
            == Ordering::Equal,
{
}

} // verus!
