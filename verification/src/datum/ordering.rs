//! The coercing order on packet datums.
//!
//! Two integers compare numerically.  Two lists compare pairwise from the
//! left: the first unequal pair decides; a strict prefix orders first.
//! An integer against a list is coerced, for that one comparison, into a
//! one-element list holding the integer.

use vstd::prelude::*;
use core::cmp::Ordering;
use crate::datum::{datum_view, lemma_seq_datum_view, seq_datum_view, DatumView, PacketDatum};

verus! {

/// The number of nodes in a view: the termination measure for the
/// coercing order, which may wrap an integer into a fresh one-element
/// list while it recurses.
pub open spec fn view_size(v: DatumView) -> nat
    decreases v,
{
    match v {
        DatumView::List(s) => 1 + seq_view_size(s),
        DatumView::Integer(_) => 1,
    }
}

/// The number of nodes in all views of a sequence together.
pub open spec fn seq_view_size(s: Seq<DatumView>) -> nat
    decreases s,
{
    if s.len() == 0 {
        0
    } else {
        view_size(s[0]) + seq_view_size(s.subrange(1, s.len() as int))
    }
}

/// Every view holds at least one node.
pub proof fn lemma_view_size_pos(v: DatumView)
    ensures
        view_size(v) >= 1,
{
}

/// No element of a sequence is larger than the whole sequence.
pub proof fn lemma_seq_view_size_index(s: Seq<DatumView>, i: int)
    requires
        0 <= i < s.len(),
    ensures
        view_size(s[i]) <= seq_view_size(s),
    decreases i,
{
    if i > 0 {
        lemma_seq_view_size_index(s.subrange(1, s.len() as int), i - 1);
    }
}

/// A one-element sequence is exactly as large as its element.
pub proof fn lemma_seq_view_size_singleton(v: DatumView)
    ensures
        seq_view_size(seq![v]) == view_size(v),
{
    let s = seq![v];
    assert(s.subrange(1, 1) =~= Seq::<DatumView>::empty());
    reveal_with_fuel(seq_view_size, 2);
}

/// The coercing order on two views.  Integers compare numerically; lists
/// compare by [`seq_cmp`]; an integer facing a list is coerced into a
/// one-element list for this one comparison.
pub open spec fn datum_cmp(a: DatumView, b: DatumView) -> Ordering
    decreases view_size(a) + view_size(b), 0nat,
{
    match (a, b) {
        (DatumView::Integer(x), DatumView::Integer(y)) => if x < y {
            Ordering::Less
        } else if x == y {
            Ordering::Equal
        } else {
            Ordering::Greater
        },
        (DatumView::List(s), DatumView::List(t)) => seq_cmp(s, t),
        (DatumView::Integer(x), DatumView::List(t)) => {
            proof {
                lemma_seq_view_size_singleton(DatumView::Integer(x));
            }
            seq_cmp(seq![DatumView::Integer(x)], t)
        },
        (DatumView::List(s), DatumView::Integer(y)) => {
            proof {
                lemma_seq_view_size_singleton(DatumView::Integer(y));
            }
            seq_cmp(s, seq![DatumView::Integer(y)])
        },
    }
}

/// The order on two sequences of views: pairwise from the left, the first
/// unequal pair decides; when one sequence runs out first it orders first;
/// sequences whose pairs are all equal are equal.
pub open spec fn seq_cmp(s: Seq<DatumView>, t: Seq<DatumView>) -> Ordering
    decreases seq_view_size(s) + seq_view_size(t), 1nat,
{
    if s.len() == 0 && t.len() == 0 {
        Ordering::Equal
    } else if s.len() == 0 {
        Ordering::Less
    } else if t.len() == 0 {
        Ordering::Greater
    } else {
        match datum_cmp(s[0], t[0]) {
            Ordering::Equal => {
                proof {
                    lemma_view_size_pos(s[0]);
                    lemma_view_size_pos(t[0]);
                }
                seq_cmp(s.subrange(1, s.len() as int), t.subrange(1, t.len() as int))
            },
            c => c,
        }
    }
}

impl PacketDatum {
    /// Compare two datums in the coercing order: integers numerically,
    /// lists pairwise from the left, and an integer facing a list as the
    /// one-element list holding it.
    pub fn cmp(&self, other: &PacketDatum) -> (r: Ordering)
        ensures
            r == datum_cmp(self@, other@),
        decreases view_size(self@) + view_size(other@), 0nat,
    {
        match (self, other) {
            (PacketDatum::Integer(x), PacketDatum::Integer(y)) => {
                if *x < *y {
                    Ordering::Less
                } else if *x == *y {
                    Ordering::Equal
                } else {
                    Ordering::Greater
                }
            },
            (PacketDatum::List(s), PacketDatum::List(t)) => {
                proof {
                    assert(seq_datum_view(s@).skip(0) =~= seq_datum_view(s@));
                    assert(seq_datum_view(t@).skip(0) =~= seq_datum_view(t@));
                }
                cmp_children(s, t, 0)
            },
            (PacketDatum::Integer(x), PacketDatum::List(t)) => {
                proof {
                    reveal_with_fuel(seq_cmp, 3);
                    lemma_seq_datum_view(t@);
                    lemma_seq_view_size_singleton(self@);
                }
                let ghost sv = seq![self@];
                let ghost tv = seq_datum_view(t@);
                proof {
                    assert(datum_cmp(self@, other@) == seq_cmp(sv, tv));
                }
                if t.len() == 0 {
                    Ordering::Greater
                } else {
                    let c = self.cmp(&t[0]);
                    proof {
                        assert(c == datum_cmp(sv[0], tv[0]));
                    }
                    match c {
                        Ordering::Equal => {
                            proof {
                                assert(sv.subrange(1, 1) =~= Seq::<DatumView>::empty());
                            }
                            if t.len() == 1 {
                                assert(tv.subrange(1, 1) =~= Seq::<DatumView>::empty());
                                Ordering::Equal
                            } else {
                                Ordering::Less
                            }
                        },
                        _ => c,
                    }
                }
            },
            (PacketDatum::List(s), PacketDatum::Integer(y)) => {
                proof {
                    reveal_with_fuel(seq_cmp, 3);
                    lemma_seq_datum_view(s@);
                    lemma_seq_view_size_singleton(other@);
                }
                let ghost sv = seq_datum_view(s@);
                let ghost tv = seq![other@];
                proof {
                    assert(datum_cmp(self@, other@) == seq_cmp(sv, tv));
                }
                if s.len() == 0 {
                    Ordering::Less
                } else {
                    let c = s[0].cmp(other);
                    proof {
                        assert(c == datum_cmp(sv[0], tv[0]));
                    }
                    match c {
                        Ordering::Equal => {
                            proof {
                                assert(tv.subrange(1, 1) =~= Seq::<DatumView>::empty());
                            }
                            if s.len() == 1 {
                                assert(sv.subrange(1, 1) =~= Seq::<DatumView>::empty());
                                Ordering::Equal
                            } else {
                                Ordering::Greater
                            }
                        },
                        _ => c,
                    }
                }
            },
        }
    }
}

/// Compare the children of two lists pairwise, starting at position `i`.
fn cmp_children(s: &Vec<PacketDatum>, t: &Vec<PacketDatum>, i: usize) -> (r: Ordering)
    requires
        i <= s@.len(),
        i <= t@.len(),
    ensures
        r == seq_cmp(seq_datum_view(s@).skip(i as int), seq_datum_view(t@).skip(i as int)),
    decreases
        seq_view_size(seq_datum_view(s@).skip(i as int))
            + seq_view_size(seq_datum_view(t@).skip(i as int)),
        1nat,
{
    let ghost sv = seq_datum_view(s@).skip(i as int);
    let ghost tv = seq_datum_view(t@).skip(i as int);
    proof {
        lemma_seq_datum_view(s@);
        lemma_seq_datum_view(t@);
    }
    if i == s.len() && i == t.len() {
        Ordering::Equal
    } else if i == s.len() {
        Ordering::Less
    } else if i == t.len() {
        Ordering::Greater
    } else {
        proof {
            assert(sv[0] == seq_datum_view(s@)[i as int]);
            assert(tv[0] == seq_datum_view(t@)[i as int]);
        }
        let c = s[i].cmp(&t[i]);
        match c {
            Ordering::Equal => {
                proof {
                    assert(sv.subrange(1, sv.len() as int) =~= seq_datum_view(s@).skip(
                        i as int + 1,
                    ));
                    assert(tv.subrange(1, tv.len() as int) =~= seq_datum_view(t@).skip(
                        i as int + 1,
                    ));
                }
                cmp_children(s, t, i + 1)
            },
            _ => c,
        }
    }
}

} // verus!
