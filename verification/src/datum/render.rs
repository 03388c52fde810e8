//! The canonical text of a datum: children in brackets joined by
//! commas, integers in decimal with a leading minus when negative.
//! Parsing the canonical text of a packet gives the packet back; see
//! [`lemma_render_parse_round_trip`].

use vstd::prelude::*;
use crate::datum::ordering::{lemma_view_size_pos, seq_view_size, view_size};
use crate::datum::parser::{
    all_digits, builder_init, builder_run, builder_step, digits_val, is_digit_char, is_ws_char,
    lemma_digit_run_chars, num_val, parse_spec, strip_ws, tokenize, BuilderState,
};
use crate::datum::{DatumView, PacketDatum};

verus! {

/// The character of one decimal digit.
pub open spec fn digit_to_char(d: int) -> char {
    if d == 0 {
        '0'
    } else if d == 1 {
        '1'
    } else if d == 2 {
        '2'
    } else if d == 3 {
        '3'
    } else if d == 4 {
        '4'
    } else if d == 5 {
        '5'
    } else if d == 6 {
        '6'
    } else if d == 7 {
        '7'
    } else if d == 8 {
        '8'
    } else {
        '9'
    }
}

/// The decimal digits of a non-negative value, most significant first.
pub open spec fn dec_digits(v: nat) -> Seq<char>
    decreases v,
{
    if v < 10 {
        seq![digit_to_char(v as int)]
    } else {
        dec_digits(v / 10).push(digit_to_char((v % 10) as int))
    }
}

/// The canonical text of an integer.
pub open spec fn int_text(v: int) -> Seq<char> {
    if v < 0 {
        seq!['-'] + dec_digits((-v) as nat)
    } else {
        dec_digits(v as nat)
    }
}

/// The canonical text of a view.
pub open spec fn render(v: DatumView) -> Seq<char>
    decreases view_size(v), 0nat,
{
    match v {
        DatumView::Integer(x) => int_text(x),
        DatumView::List(s) => seq!['['] + render_items(s) + seq![']'],
    }
}

/// The canonical text of a list's children, joined by commas.
pub open spec fn render_items(s: Seq<DatumView>) -> Seq<char>
    decreases seq_view_size(s), 1nat,
{
    if s.len() == 0 {
        Seq::empty()
    } else if s.len() == 1 {
        render(s[0])
    } else {
        proof {
            lemma_view_size_pos(s[0]);
        }
        render(s[0]) + seq![','] + render_items(s.subrange(1, s.len() as int))
    }
}

/// The character of one decimal digit.
fn digit_exec(d: u32) -> (c: char)
    requires
        d < 10,
    ensures
        c == digit_to_char(d as int),
{
    if d == 0 {
        '0'
    } else if d == 1 {
        '1'
    } else if d == 2 {
        '2'
    } else if d == 3 {
        '3'
    } else if d == 4 {
        '4'
    } else if d == 5 {
        '5'
    } else if d == 6 {
        '6'
    } else if d == 7 {
        '7'
    } else if d == 8 {
        '8'
    } else {
        '9'
    }
}

/// The decimal digits of a non-negative value.
fn dec_digits_exec(v: u32) -> (r: String)
    ensures
        r@ == dec_digits(v as nat),
    decreases v,
{
    if v < 10 {
        let mut t = String::new();
        crate::datum::parser::push_char(&mut t, digit_exec(v));
        proof {
            assert(t@ =~= seq![digit_to_char(v as int)]);
        }
        t
    } else {
        let mut t = dec_digits_exec(v / 10);
        crate::datum::parser::push_char(&mut t, digit_exec(v % 10));
        t
    }
}

impl PacketDatum {
    /// The canonical text of the datum: nested brackets, children joined
    /// by commas, integers in decimal.
    pub fn to_text(&self) -> (r: String)
        ensures
            r@ == render(self@),
        decreases view_size(self@), 0nat,
    {
        match self {
            PacketDatum::Integer(x) => {
                if *x < 0 {
                    let m = (-(*x as i64)) as u32;
                    let mut t = String::new();
                    crate::datum::parser::push_char(&mut t, '-');
                    let d = dec_digits_exec(m);
                    t.append(d.as_str());
                    proof {
                        assert(m as nat == (-(*x as int)) as nat);
                        assert(t@ =~= seq!['-'] + dec_digits((-(*x as int)) as nat));
                    }
                    t
                } else {
                    dec_digits_exec(*x as u32)
                }
            },
            PacketDatum::List(l) => {
                proof {
                    crate::datum::lemma_seq_datum_view(l@);
                    assert(crate::datum::seq_datum_view(l@).skip(0) =~= crate::datum::seq_datum_view(
                        l@,
                    ));
                }
                let mut t = String::new();
                crate::datum::parser::push_char(&mut t, '[');
                let items = items_text(l, 0);
                t.append(items.as_str());
                crate::datum::parser::push_char(&mut t, ']');
                proof {
                    assert(t@ =~= seq!['['] + render_items(crate::datum::seq_datum_view(l@))
                        + seq![']']);
                }
                t
            },
        }
    }
}

/// The text of a list's children from position `k` on, joined by commas.
fn items_text(l: &Vec<PacketDatum>, k: usize) -> (r: String)
    requires
        k <= l@.len(),
    ensures
        r@ == render_items(crate::datum::seq_datum_view(l@).skip(k as int)),
    decreases seq_view_size(crate::datum::seq_datum_view(l@).skip(k as int)), 1nat,
{
    let ghost sv = crate::datum::seq_datum_view(l@).skip(k as int);
    proof {
        crate::datum::lemma_seq_datum_view(l@);
    }
    if k == l.len() {
        let t = String::new();
        proof {
            assert(sv.len() == 0);
        }
        t
    } else {
        proof {
            assert(sv[0] == crate::datum::seq_datum_view(l@)[k as int]);
        }
        let mut t = l[k].to_text();
        if k + 1 < l.len() {
            proof {
                lemma_view_size_pos(sv[0]);
                assert(sv.subrange(1, sv.len() as int) =~= crate::datum::seq_datum_view(l@).skip(
                    k as int + 1,
                ));
            }
            crate::datum::parser::push_char(&mut t, ',');
            let rest = items_text(l, k + 1);
            t.append(rest.as_str());
            proof {
                assert(t@ =~= render(sv[0]) + seq![','] + render_items(
                    sv.subrange(1, sv.len() as int),
                ));
            }
        } else {
            proof {
                assert(sv.len() == 1);
            }
        }
        t
    }
}

/// The views of a sequence of plain integers.
pub open spec fn int_views(vs: Seq<int>) -> Seq<DatumView> {
    vs.map_values(|v: int| DatumView::Integer(v))
}

/// Whitespace-free text is its own whitespace-stripped form.
proof fn lemma_strip_ws_id(s: Seq<char>)
    requires
        forall|k: int| 0 <= k < s.len() ==> !is_ws_char(#[trigger] s[k]),
    ensures
        strip_ws(s) == s,
    decreases s.len(),
{
    if s.len() > 0 {
        lemma_strip_ws_id(s.subrange(1, s.len() as int));
        assert(seq![s[0]] + s.subrange(1, s.len() as int) =~= s);
    }
}

/// The decimal digits of a value are digit characters, at least one,
/// and read back as the value.
proof fn lemma_dec_digits(v: nat)
    ensures
        dec_digits(v).len() >= 1,
        all_digits(dec_digits(v)),
        digits_val(dec_digits(v)) == v,
    decreases v,
{
    if v < 10 {
        assert(is_digit_char(digit_to_char(v as int)));
        assert(dec_digits(v)[0] == digit_to_char(v as int));
        assert(dec_digits(v).drop_last() =~= Seq::<char>::empty());
        assert(digits_val(Seq::<char>::empty()) == 0);
        assert(dec_digits(v).last() == digit_to_char(v as int));
        assert(digit_to_char(v as int) as u32 == 48 + v);
    } else {
        lemma_dec_digits(v / 10);
        let d = dec_digits(v / 10);
        let c = digit_to_char((v % 10) as int);
        assert(is_digit_char(c));
        assert(d.push(c).drop_last() =~= d);
        assert(d.push(c).last() == c);
        assert(c as u32 == 48 + v % 10);
        assert(digits_val(dec_digits(v)) == (v / 10) * 10 + (v % 10));
        assert((v / 10) * 10 + (v % 10) == v);
        assert forall|k: int| 0 <= k < dec_digits(v).len() implies is_digit_char(
            #[trigger] dec_digits(v)[k],
        ) by {
            if k < d.len() {
                assert(dec_digits(v)[k] == d[k]);
            }
        }
    }
}

/// The canonical text of an integer: non-empty, a digit or minus first,
/// digits after, and its numeric value is the integer itself.
proof fn lemma_int_text(v: int)
    ensures
        int_text(v).len() >= 1,
        is_digit_char(int_text(v)[0]) || int_text(v)[0] == '-',
        forall|j: int| 1 <= j < int_text(v).len() ==> is_digit_char(#[trigger] int_text(v)[j]),
        num_val(int_text(v)) == Some(v),
{
    if v < 0 {
        lemma_dec_digits((-v) as nat);
        let t = int_text(v);
        assert(t[0] == '-');
        assert(t.subrange(1, t.len() as int) =~= dec_digits((-v) as nat));
        assert forall|j: int| 1 <= j < t.len() implies is_digit_char(#[trigger] t[j]) by {
            assert(t[j] == dec_digits((-v) as nat)[j - 1]);
        }
        assert(!is_digit_char('-'));
    } else {
        lemma_dec_digits(v as nat);
        assert(int_text(v)[0] != '-') by {
            assert(is_digit_char(int_text(v)[0]));
        }
    }
}

/// A leading bracket is a token of its own.
proof fn lemma_tokenize_bracket(c: char, rest: Seq<char>)
    requires
        c == '[' || c == ']',
    ensures
        tokenize(seq![c] + rest) == seq![seq![c]] + tokenize(rest),
{
    let s = seq![c] + rest;
    assert(s[0] == c);
    assert(s.subrange(1, s.len() as int) =~= rest);
    assert(seq![s[0]] =~= seq![c]);
}

/// A leading comma is dropped by the tokenizer.
proof fn lemma_tokenize_comma(rest: Seq<char>)
    ensures
        tokenize(seq![','] + rest) == tokenize(rest),
{
    let s = seq![','] + rest;
    assert(s[0] == ',');
    assert(s.subrange(1, s.len() as int) =~= rest);
}

/// A leading number text is a token of its own when what follows does
/// not start with a digit.
proof fn lemma_tokenize_number(d: Seq<char>, rest: Seq<char>)
    requires
        d.len() >= 1,
        is_digit_char(d[0]) || d[0] == '-',
        forall|j: int| 1 <= j < d.len() ==> is_digit_char(#[trigger] d[j]),
        rest.len() == 0 || !is_digit_char(rest[0]),
    ensures
        tokenize(d + rest) == seq![d] + tokenize(rest),
{
    let s = d + rest;
    assert(s[0] == d[0]);
    let tail = s.subrange(1, s.len() as int);
    assert forall|k: int| 0 <= k < d.len() - 1 implies is_digit_char(#[trigger] tail[k]) by {
        assert(tail[k] == d[k + 1]);
    }
    if d.len() - 1 < tail.len() {
        assert(tail[d.len() - 1] == rest[0]);
    }
    lemma_digit_run_chars(tail, (d.len() - 1) as nat);
    assert(s.subrange(0, d.len() as int) =~= d);
    assert(s.subrange(d.len() as int, s.len() as int) =~= rest);
}

/// Whether every integer in the view fits 32 bits.
pub open spec fn ints_fit(v: DatumView) -> bool
    decreases view_size(v), 0nat,
{
    match v {
        DatumView::Integer(x) => i32::MIN as int <= x <= i32::MAX as int,
        DatumView::List(s) => ints_fit_seq(s),
    }
}

/// Whether every integer in each of the views fits 32 bits.
pub open spec fn ints_fit_seq(s: Seq<DatumView>) -> bool
    decreases seq_view_size(s), 1nat,
{
    if s.len() == 0 {
        true
    } else {
        proof {
            lemma_view_size_pos(s[0]);
        }
        ints_fit(s[0]) && ints_fit_seq(s.subrange(1, s.len() as int))
    }
}

/// The tokens the canonical text of a view breaks into.
pub open spec fn view_tokens(v: DatumView) -> Seq<Seq<char>>
    decreases view_size(v), 0nat,
{
    match v {
        DatumView::Integer(x) => seq![int_text(x)],
        DatumView::List(s) => seq![seq!['[']] + items_tokens(s) + seq![seq![']']],
    }
}

/// The tokens of the children texts; the commas between them leave none.
pub open spec fn items_tokens(s: Seq<DatumView>) -> Seq<Seq<char>>
    decreases seq_view_size(s), 1nat,
{
    if s.len() == 0 {
        Seq::empty()
    } else {
        proof {
            lemma_view_size_pos(s[0]);
        }
        view_tokens(s[0]) + items_tokens(s.subrange(1, s.len() as int))
    }
}

/// The builder continued from a state over further tokens.
pub open spec fn run_from(st: BuilderState, toks: Seq<Seq<char>>) -> BuilderState
    decreases toks.len(),
{
    if toks.len() == 0 {
        st
    } else {
        builder_step(run_from(st, toks.drop_last()), toks.last())
    }
}

/// Running over joined token sequences is running over each in turn.
proof fn lemma_run_from_append(st: BuilderState, a: Seq<Seq<char>>, b: Seq<Seq<char>>)
    ensures
        run_from(st, a + b) == run_from(run_from(st, a), b),
    decreases b.len(),
{
    if b.len() == 0 {
        assert(a + b =~= a);
    } else {
        assert((a + b).drop_last() =~= a + b.drop_last());
        assert((a + b).last() == b.last());
        lemma_run_from_append(st, a, b.drop_last());
    }
}

/// The builder run is the continuation from the initial state.
proof fn lemma_builder_run_is_run_from(toks: Seq<Seq<char>>)
    ensures
        builder_run(toks) == run_from(builder_init(), toks),
    decreases toks.len(),
{
    if toks.len() > 0 {
        lemma_builder_run_is_run_from(toks.drop_last());
    }
}

/// A character the canonical text is made of.
pub open spec fn packet_char(c: char) -> bool {
    c == '[' || c == ']' || c == ',' || c == '-' || is_digit_char(c)
}

/// The canonical text of a view holds only packet characters.
proof fn lemma_render_chars(v: DatumView)
    ensures
        forall|k: int| 0 <= k < render(v).len() ==> packet_char(#[trigger] render(v)[k]),
    decreases view_size(v), 0nat,
{
    match v {
        DatumView::Integer(x) => {
            lemma_int_text(x);
            assert forall|k: int| 0 <= k < render(v).len() implies packet_char(
                #[trigger] render(v)[k],
            ) by {
                if k > 0 {
                    assert(is_digit_char(int_text(x)[k]));
                }
            }
        },
        DatumView::List(s) => {
            lemma_render_items_chars(s);
            let items = render_items(s);
            assert forall|k: int| 0 <= k < render(v).len() implies packet_char(
                #[trigger] render(v)[k],
            ) by {
                if k == 0 {
                    assert(render(v)[k] == '[');
                } else if k < 1 + items.len() {
                    assert(render(v)[k] == items[k - 1]);
                } else {
                    assert(render(v)[k] == ']');
                }
            }
        },
    }
}

/// The children text of a list holds only packet characters.
proof fn lemma_render_items_chars(s: Seq<DatumView>)
    ensures
        forall|k: int|
            0 <= k < render_items(s).len() ==> packet_char(#[trigger] render_items(s)[k]),
    decreases seq_view_size(s), 1nat,
{
    if s.len() == 0 {
    } else if s.len() == 1 {
        lemma_view_size_pos(s[0]);
        lemma_render_chars(s[0]);
        assert(render_items(s) == render(s[0]));
    } else {
        lemma_view_size_pos(s[0]);
        lemma_render_chars(s[0]);
        lemma_render_items_chars(s.subrange(1, s.len() as int));
        let head = render(s[0]);
        let rest = render_items(s.subrange(1, s.len() as int));
        assert(render_items(s) == head + seq![','] + rest);
        assert forall|k: int| 0 <= k < render_items(s).len() implies packet_char(
            #[trigger] render_items(s)[k],
        ) by {
            if k < head.len() {
                assert(render_items(s)[k] == head[k]);
            } else if k == head.len() {
                assert(render_items(s)[k] == ',');
            } else {
                assert(render_items(s)[k] == rest[k - head.len() - 1]);
            }
        }
    }
}

/// The canonical text of a view, followed by anything that does not
/// start with a digit, tokenizes into the view's tokens and the rest's.
proof fn lemma_tokenize_view(v: DatumView, rest: Seq<char>)
    requires
        rest.len() == 0 || !is_digit_char(rest[0]),
    ensures
        tokenize(render(v) + rest) == view_tokens(v) + tokenize(rest),
    decreases view_size(v), 0nat,
{
    match v {
        DatumView::Integer(x) => {
            lemma_int_text(x);
            lemma_tokenize_number(int_text(x), rest);
            assert(view_tokens(v) + tokenize(rest) =~= seq![int_text(x)] + tokenize(rest));
        },
        DatumView::List(s) => {
            let items = render_items(s);
            assert(render(v) + rest =~= seq!['['] + (items + (seq![']'] + rest)));
            lemma_tokenize_bracket('[', items + (seq![']'] + rest));
            assert((seq![']'] + rest)[0] == ']');
            assert(!is_digit_char(']'));
            lemma_tokenize_items(s, seq![']'] + rest);
            lemma_tokenize_bracket(']', rest);
            assert(view_tokens(v) + tokenize(rest) =~= seq![seq!['[']] + (items_tokens(s) + (seq![
                seq![']'],
            ] + tokenize(rest))));
        },
    }
}

/// The children text of a list, followed by anything that does not start
/// with a digit, tokenizes into the children's tokens and the rest's.
proof fn lemma_tokenize_items(s: Seq<DatumView>, rest: Seq<char>)
    requires
        rest.len() == 0 || !is_digit_char(rest[0]),
    ensures
        tokenize(render_items(s) + rest) == items_tokens(s) + tokenize(rest),
    decreases seq_view_size(s), 1nat,
{
    if s.len() == 0 {
        assert(render_items(s) + rest =~= rest);
        assert(items_tokens(s) + tokenize(rest) =~= tokenize(rest));
    } else if s.len() == 1 {
        lemma_view_size_pos(s[0]);
        assert(render_items(s) == render(s[0]));
        lemma_tokenize_view(s[0], rest);
        assert(items_tokens(s.subrange(1, 1)) =~= Seq::<Seq<char>>::empty());
        assert(items_tokens(s) =~= view_tokens(s[0]));
    } else {
        lemma_view_size_pos(s[0]);
        let tl = s.subrange(1, s.len() as int);
        let head = render(s[0]);
        let rest_items = render_items(tl);
        assert(render_items(s) == head + seq![','] + rest_items);
        assert(render_items(s) + rest =~= head + (seq![','] + (rest_items + rest)));
        assert((seq![','] + (rest_items + rest))[0] == ',');
        assert(!is_digit_char(','));
        lemma_tokenize_view(s[0], seq![','] + (rest_items + rest));
        lemma_tokenize_comma(rest_items + rest);
        lemma_tokenize_items(tl, rest);
        assert(items_tokens(s) + tokenize(rest) =~= view_tokens(s[0]) + (items_tokens(tl)
            + tokenize(rest)));
    }
}

/// Fed the tokens of one view, the builder appends that view to the
/// buffer of the innermost open list and touches nothing else.
proof fn lemma_builder_view(v: DatumView, st: BuilderState)
    requires
        ints_fit(v),
        !st.failed,
        st.stack.len() >= 1,
    ensures
        run_from(st, view_tokens(v)) == (BuilderState {
            stack: st.stack.update(st.stack.len() - 1, st.stack.last().push(v)),
            root: st.root,
            failed: false,
        }),
    decreases view_size(v), 0nat,
{
    match v {
        DatumView::Integer(x) => {
            let toks = view_tokens(v);
            lemma_int_text(x);
            assert(toks.drop_last() =~= Seq::<Seq<char>>::empty());
            assert(toks.last() == int_text(x));
            assert(run_from(st, toks.drop_last()) == st);
            assert(run_from(st, toks) == builder_step(st, int_text(x)));
            assert(int_text(x) != seq!['[']) by {
                assert(seq!['['][0] == '[');
            }
            assert(int_text(x) != seq![']']) by {
                assert(seq![']'][0] == ']');
            }
            assert(num_val(int_text(x)) == Some(x));
        },
        DatumView::List(s) => {
            let open = seq![seq!['[']];
            let close = seq![']'];
            let toks = view_tokens(v);
            // the opening bracket pushes a fresh buffer
            let st1 = builder_step(st, seq!['[']);
            assert(open.drop_last() =~= Seq::<Seq<char>>::empty());
            assert(run_from(st, open.drop_last()) == st);
            assert(run_from(st, open) == st1);
            assert(st1.stack == st.stack.push(Seq::empty()));
            // the children fill that buffer
            lemma_view_size_pos(v);
            lemma_run_from_append(st, open, items_tokens(s));
            lemma_builder_items(s, st1);
            let st2 = run_from(st1, items_tokens(s));
            assert(st2.stack =~= st.stack.push(s)) by {
                assert(st1.stack.last() + s =~= s);
                assert(st1.stack.update(st1.stack.len() - 1, st1.stack.last() + s) =~= st.stack
                    .push(s));
            }
            // the closing bracket moves the buffer under its parent
            assert(toks =~= (open + items_tokens(s)).push(close));
            assert(toks.drop_last() =~= open + items_tokens(s));
            assert(run_from(st, toks) == builder_step(st2, close));
            assert(close != seq!['[']) by {
                assert(seq!['['][0] == '[');
                assert(seq![']'][0] == ']');
            }
            let done = builder_step(st2, close);
            assert(st2.stack.drop_last() =~= st.stack);
            assert(st2.stack.last() == s);
            assert(done.stack == st.stack.update(st.stack.len() - 1, st.stack.last().push(v)));
        },
    }
}

/// Fed the tokens of a list's children, the builder appends each child
/// in turn to the buffer of the innermost open list.
proof fn lemma_builder_items(s: Seq<DatumView>, st: BuilderState)
    requires
        ints_fit_seq(s),
        !st.failed,
        st.stack.len() >= 1,
    ensures
        run_from(st, items_tokens(s)) == (BuilderState {
            stack: st.stack.update(st.stack.len() - 1, st.stack.last() + s),
            root: st.root,
            failed: false,
        }),
    decreases seq_view_size(s), 1nat,
{
    if s.len() == 0 {
        assert(run_from(st, items_tokens(s)) == st);
        assert(st.stack.last() + s =~= st.stack.last());
        assert(st.stack.update(st.stack.len() - 1, st.stack.last() + s) =~= st.stack);
    } else {
        lemma_view_size_pos(s[0]);
        let tl = s.subrange(1, s.len() as int);
        lemma_run_from_append(st, view_tokens(s[0]), items_tokens(tl));
        lemma_builder_view(s[0], st);
        let st1 = run_from(st, view_tokens(s[0]));
        lemma_builder_items(tl, st1);
        assert(st1.stack.len() == st.stack.len());
        assert(st1.stack.last() == st.stack.last().push(s[0]));
        assert(st1.stack.last() + tl =~= st.stack.last() + s);
        assert(st1.stack.update(st1.stack.len() - 1, st1.stack.last() + tl) =~= st.stack.update(
            st.stack.len() - 1,
            st.stack.last() + s,
        ));
    }
}

/// Round trip: the canonical text of a packet whose integers fit 32
/// bits parses back into exactly that packet.
pub proof fn lemma_render_parse_round_trip(children: Seq<DatumView>)
    requires
        ints_fit_seq(children),
    ensures
        parse_spec(render(DatumView::List(children))) == Some(DatumView::List(children)),
{
    let v = DatumView::List(children);
    let text = render(v);
    let items = render_items(children);

    // no character of the text is whitespace, so stripping changes nothing
    lemma_render_chars(v);
    assert forall|k: int| 0 <= k < text.len() implies !is_ws_char(#[trigger] text[k]) by {
        assert(packet_char(text[k]));
    }
    lemma_strip_ws_id(text);
    assert(text[0] == '[');

    // the text tokenizes into the packet's tokens
    assert(text =~= render(v) + Seq::<char>::empty());
    lemma_tokenize_view(v, Seq::<char>::empty());
    assert(tokenize(text) =~= view_tokens(v));

    // the builder opens the root, fills it, and closes it into the root
    lemma_builder_run_is_run_from(view_tokens(v));
    let open = seq![seq!['[']];
    let close = seq![']'];
    let st1 = builder_step(builder_init(), seq!['[']);
    assert(open.drop_last() =~= Seq::<Seq<char>>::empty());
    assert(run_from(builder_init(), open.drop_last()) == builder_init());
    assert(run_from(builder_init(), open) == st1);
    lemma_run_from_append(builder_init(), open, items_tokens(children));
    lemma_builder_items(children, st1);
    let st2 = run_from(st1, items_tokens(children));
    assert(st2.stack =~= seq![children]) by {
        assert(st1.stack.last() + children =~= children);
        assert(st1.stack.update(st1.stack.len() - 1, st1.stack.last() + children) =~= seq![
            children,
        ]);
    }
    assert(view_tokens(v) =~= (open + items_tokens(children)).push(close));
    assert((open + items_tokens(children)).push(close).drop_last() =~= open + items_tokens(
        children,
    ));
    assert(run_from(builder_init(), view_tokens(v)) == builder_step(st2, close));
    assert(close != seq!['[']) by {
        assert(seq!['['][0] == '[');
        assert(seq![']'][0] == ']');
    }
    let done = builder_step(st2, close);
    assert(st2.stack.len() == 1);
    assert(st2.stack.last() == children);
    assert(st2.stack.drop_last() =~= Seq::<Seq<DatumView>>::empty());
    assert(st2.root is None);
    assert(done.stack.len() == 0);
    assert(done.root == Some(v));
    assert(!done.failed);
}

/// Every view of a plain integer sequence in 32-bit range fits.
proof fn lemma_int_views_fit(vs: Seq<int>)
    requires
        forall|k: int| 0 <= k < vs.len() ==> i32::MIN as int <= #[trigger] vs[k] <= i32::MAX as int,
    ensures
        ints_fit_seq(int_views(vs)),
    decreases vs.len(),
{
    if vs.len() > 0 {
        lemma_int_views_fit(vs.subrange(1, vs.len() as int));
        assert(int_views(vs)[0] == DatumView::Integer(vs[0]));
        assert(ints_fit(DatumView::Integer(vs[0])));
        assert(int_views(vs).subrange(1, vs.len() as int) =~= int_views(
            vs.subrange(1, vs.len() as int),
        ));
    }
}

/// Round trip for packets of plain integers: rendering the list datum
/// that holds them and parsing that text yields the same view.
pub proof fn lemma_int_list_round_trip(vs: Seq<int>)
    requires
        forall|k: int| 0 <= k < vs.len() ==> i32::MIN as int <= #[trigger] vs[k] <= i32::MAX as int,
    ensures
        parse_spec(render(DatumView::List(int_views(vs)))) == Some(
            DatumView::List(int_views(vs)),
        ),
{
    lemma_int_views_fit(vs);
    lemma_render_parse_round_trip(int_views(vs));
}

} // verus!
