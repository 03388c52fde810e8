//! The packet datum: a recursive value that is either an integer leaf or
//! an ordered list of child datums, together with its mathematical view,
//! construction helpers, structural equality and the coercing order.

use vstd::prelude::*;
use core::cmp::Ordering;

pub mod laws;
pub mod parser;
pub mod render;
pub mod ordering;

use crate::datum::ordering::{datum_cmp, lemma_seq_view_size_index, view_size};

verus! {

/// A packet datum: either an ordered list of child datums or a single
/// 32-bit signed integer leaf.  A whole packet is a `List` datum; the
/// children of a `List` keep the order in which they were appended.
pub enum PacketDatum {
    List(Vec<PacketDatum>),
    Integer(i32),
}

/// The mathematical shape of a packet datum: an unbounded integer or a
/// sequence of child shapes.  Contracts in this crate speak of datums
/// through this type.
pub enum DatumView {
    List(Seq<DatumView>),
    Integer(int),
}

/// The view of a datum: integers widen to `int`, lists become sequences.
pub open spec fn datum_view(d: PacketDatum) -> DatumView
    decreases d,
{
    match d {
        PacketDatum::List(l) => DatumView::List(seq_datum_view(l@)),
        PacketDatum::Integer(i) => DatumView::Integer(i as int),
    }
}

/// The views of a sequence of datums, element by element.
pub open spec fn seq_datum_view(s: Seq<PacketDatum>) -> Seq<DatumView>
    decreases s,
{
    if s.len() == 0 {
        Seq::empty()
    } else {
        seq_datum_view(s.drop_last()).push(datum_view(s.last()))
    }
}

impl View for PacketDatum {
    type V = DatumView;

    open spec fn view(&self) -> DatumView {
        datum_view(*self)
    }
}

/// A sequence's view has the same length, and views its elements in place.
pub proof fn lemma_seq_datum_view(s: Seq<PacketDatum>)
    ensures
        seq_datum_view(s).len() == s.len(),
        forall|i: int| 0 <= i < s.len() ==> seq_datum_view(s)[i] == datum_view(s[i]),
    decreases s.len(),
{
    if s.len() > 0 {
        lemma_seq_datum_view(s.drop_last());
    }
}

/// Appending a datum to a sequence appends its view to the view.
pub proof fn lemma_seq_datum_view_push(s: Seq<PacketDatum>, d: PacketDatum)
    ensures
        seq_datum_view(s.push(d)) == seq_datum_view(s).push(datum_view(d)),
{
    assert(s.push(d).drop_last() =~= s);
    assert(s.push(d).last() == d);
}

/// The error for trying to append a child to an `Integer` datum.  It
/// marks a defect in the calling code, not malformed input, and the
/// attempted append leaves the datum unchanged.
#[derive(Debug, PartialEq, Eq, Structural)]
pub struct InvalidAppendError;

impl PacketDatum {
    /// Build a list datum from already-built child datums, kept in order.
    pub fn list(list: Vec<PacketDatum>) -> (r: PacketDatum)
        ensures
            r@ == DatumView::List(seq_datum_view(list@)),
    {
        PacketDatum::List(list)
    }

    /// Build a list datum whose children are the given integers, in order.
    pub fn int_list(list: Vec<i32>) -> (r: PacketDatum)
        ensures
            r@ == DatumView::List(list@.map_values(|i: i32| DatumView::Integer(i as int))),
    {
        let ghost target = list@.map_values(|i: i32| DatumView::Integer(i as int));
        let mut children: Vec<PacketDatum> = Vec::new();
        let mut k: usize = 0;
        while k < list.len()
            invariant
                k <= list@.len(),
                children@.len() == k,
                forall|j: int|
                    0 <= j < k ==> children@[j] == PacketDatum::Integer(list@[j]),
            decreases list@.len() - k,
        {
            children.push(PacketDatum::Integer(list[k]));
            k = k + 1;
        }
        proof {
            lemma_seq_datum_view(children@);
            assert(seq_datum_view(children@) =~= target);
        }
        PacketDatum::List(children)
    }

    /// Append a child datum at the end of a list datum's children.
    /// Appending to an `Integer` datum fails and changes nothing.
    pub fn add_list(&mut self, packet_datum: PacketDatum) -> (r: Result<(), InvalidAppendError>)
        ensures
            old(self)@ matches DatumView::List(ch) ==> r is Ok && final(self)@ == DatumView::List(
                ch.push(packet_datum@),
            ),
            old(self)@ is Integer ==> r is Err && final(self)@ == old(self)@,
    {
        match self {
            PacketDatum::List(l) => {
                proof {
                    assert(l@.push(packet_datum).drop_last() =~= l@);
                }
                l.push(packet_datum);
                Ok(())
            },
            PacketDatum::Integer(_) => Err(InvalidAppendError),
        }
    }

    /// Build a list datum whose children are the given integers; a
    /// shorthand kept for callers that assemble nested packets by hand.
    pub fn rc_i_list(list: Vec<i32>) -> (r: PacketDatum)
        ensures
            r@ == DatumView::List(list@.map_values(|i: i32| DatumView::Integer(i as int))),
    {
        PacketDatum::int_list(list)
    }

    /// Build a single integer leaf datum.
    pub fn rc_int(i: i32) -> (r: PacketDatum)
        ensures
            r@ == DatumView::Integer(i as int),
    {
        PacketDatum::Integer(i)
    }
}

/// Structural equality of two datums: their views are the same shape.
fn eq_nodes(a: &PacketDatum, b: &PacketDatum) -> (r: bool)
    ensures
        r == (a@ == b@),
    decreases view_size(a@),
{
    match (a, b) {
        (PacketDatum::Integer(x), PacketDatum::Integer(y)) => *x == *y,
        (PacketDatum::List(s), PacketDatum::List(t)) => {
            let ghost sv = seq_datum_view(s@);
            let ghost tv = seq_datum_view(t@);
            proof {
                lemma_seq_datum_view(s@);
                lemma_seq_datum_view(t@);
            }
            if s.len() != t.len() {
                return false;
            }
            let mut k: usize = 0;
            while k < s.len()
                invariant
                    *a == PacketDatum::List(*s),
                    *b == PacketDatum::List(*t),
                    k <= s@.len(),
                    s@.len() == t@.len(),
                    sv == seq_datum_view(s@),
                    tv == seq_datum_view(t@),
                    sv.len() == s@.len() && tv.len() == t@.len(),
                    forall|j: int| 0 <= j < s@.len() ==> sv[j] == datum_view(s@[j]),
                    forall|j: int| 0 <= j < t@.len() ==> tv[j] == datum_view(t@[j]),
                    forall|j: int| 0 <= j < k ==> sv[j] == tv[j],
                decreases s@.len() - k,
            {
                proof {
                    lemma_seq_view_size_index(sv, k as int);
                }
                if !eq_nodes(&s[k], &t[k]) {
                    proof {
                        assert(sv[k as int] != tv[k as int]);
                    }
                    return false;
                }
                k = k + 1;
            }
            proof {
                assert(sv =~= tv);
            }
            true
        },
        _ => false,
    }
}

impl PartialEq for PacketDatum {
    /// Structural equality: integers by value, lists pairwise; an integer
    /// never equals a list, even one it would coerce to in the order.
    fn eq(&self, other: &PacketDatum) -> (r: bool) {
        eq_nodes(self, other)
    }
}

impl Eq for PacketDatum {
}

impl vstd::std_specs::cmp::PartialEqSpecImpl for PacketDatum {
    open spec fn obeys_eq_spec() -> bool {
        true
    }

    open spec fn eq_spec(&self, other: &PacketDatum) -> bool {
        self@ == other@
    }
}

impl PartialOrd for PacketDatum {
    /// The coercing order; always defined, so always `Some`.
    fn partial_cmp(&self, other: &PacketDatum) -> (r: Option<Ordering>) {
        Some(self.cmp(other))
    }
}

impl vstd::std_specs::cmp::PartialOrdSpecImpl for PacketDatum {
    open spec fn obeys_partial_cmp_spec() -> bool {
        true
    }

    open spec fn partial_cmp_spec(&self, other: &PacketDatum) -> Option<Ordering> {
        Some(datum_cmp(self@, other@))
    }
}

} // verus!
