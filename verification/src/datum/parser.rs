//! The packet parser: tokenize the text, then build the datum tree in a
//! single left-to-right pass over the tokens.
//!
//! Tokens are `[`, `]`, and numbers (a maximal run of digits after an
//! optional leading minus).  Whitespace is dropped before tokenization
//! and every other character is dropped during it.  The pass keeps a
//! stack of children buffers, one per open list: `[` opens a buffer, a
//! number appends to the top buffer, `]` closes the top buffer into a
//! list datum that joins the buffer below, or becomes the root.

use vstd::prelude::*;
use crate::datum::{
    datum_view, lemma_seq_datum_view, lemma_seq_datum_view_push, seq_datum_view, DatumView,
    PacketDatum,
};

verus! {

/// The parse error: empty input, a first significant character other
/// than `[`, an unmatched bracket, a bare or malformed number outside a
/// list, or an integer that does not fit 32 bits.
#[derive(Debug)]
pub struct PacketParseError;

/// ASCII whitespace, dropped before tokenization.
pub open spec fn is_ws_char(c: char) -> bool {
    c == ' ' || c == '\t' || c == '\n' || c == '\r' || c == '\u{b}' || c == '\u{c}'
}

/// A decimal digit.
pub open spec fn is_digit_char(c: char) -> bool {
    48 <= c as u32 && c as u32 <= 57
}

/// The text with all whitespace removed.
pub open spec fn strip_ws(s: Seq<char>) -> Seq<char>
    decreases s.len(),
{
    if s.len() == 0 {
        Seq::empty()
    } else if is_ws_char(s[0]) {
        strip_ws(s.subrange(1, s.len() as int))
    } else {
        seq![s[0]] + strip_ws(s.subrange(1, s.len() as int))
    }
}

/// How many digits stand at the front of the text.
pub open spec fn digit_run_len(s: Seq<char>) -> nat
    decreases s.len(),
{
    if s.len() > 0 && is_digit_char(s[0]) {
        1 + digit_run_len(s.subrange(1, s.len() as int))
    } else {
        0
    }
}

/// A digit run is never longer than the text it starts.
pub proof fn lemma_digit_run_len_le(s: Seq<char>)
    ensures
        digit_run_len(s) <= s.len(),
    decreases s.len(),
{
    if s.len() > 0 && is_digit_char(s[0]) {
        lemma_digit_run_len_le(s.subrange(1, s.len() as int));
    }
}

/// The tokens of whitespace-free text, in order.  A bracket is a token
/// of its own; a digit or minus sign starts a number token that takes
/// the maximal digit run after it; any other character is dropped.
pub open spec fn tokenize(s: Seq<char>) -> Seq<Seq<char>>
    decreases s.len(),
{
    if s.len() == 0 {
        Seq::empty()
    } else if s[0] == '[' || s[0] == ']' {
        seq![seq![s[0]]] + tokenize(s.subrange(1, s.len() as int))
    } else if is_digit_char(s[0]) || s[0] == '-' {
        let n = 1 + digit_run_len(s.subrange(1, s.len() as int));
        proof {
            lemma_digit_run_len_le(s.subrange(1, s.len() as int));
        }
        seq![s.subrange(0, n as int)] + tokenize(s.subrange(n as int, s.len() as int))
    } else {
        tokenize(s.subrange(1, s.len() as int))
    }
}

/// The value of a run of digits, read in decimal.
pub open spec fn digits_val(t: Seq<char>) -> int
    decreases t.len(),
{
    if t.len() == 0 {
        0
    } else {
        digits_val(t.drop_last()) * 10 + (t.last() as u32 - 48)
    }
}

/// Whether the text is digits only.
pub open spec fn all_digits(t: Seq<char>) -> bool {
    forall|k: int| 0 <= k < t.len() ==> is_digit_char(t[k])
}

/// The numeric value of a token: an optional leading minus, then one or
/// more digits; anything else has no value.
pub open spec fn num_val(t: Seq<char>) -> Option<int> {
    if t.len() >= 2 && t[0] == '-' && all_digits(t.subrange(1, t.len() as int)) {
        Some(-digits_val(t.subrange(1, t.len() as int)))
    } else if t.len() >= 1 && all_digits(t) {
        Some(digits_val(t))
    } else {
        None
    }
}

/// The state of the single-pass builder: one children buffer per open
/// list, the first root closed so far, and whether a step has failed.
pub struct BuilderState {
    pub stack: Seq<Seq<DatumView>>,
    pub root: Option<DatumView>,
    pub failed: bool,
}

/// The state before any token: no open list, no root, no failure.
pub open spec fn builder_init() -> BuilderState {
    BuilderState { stack: Seq::empty(), root: None, failed: false }
}

/// The failed state reached from `st`; every later token keeps it.
pub open spec fn builder_fail(st: BuilderState) -> BuilderState {
    BuilderState { stack: st.stack, root: st.root, failed: true }
}

/// One token applied to the builder.  `[` opens a buffer; `]` closes the
/// top buffer into a list that joins the buffer below or, when none is
/// open, becomes the root if none was closed before; a number joins the
/// top buffer if it is well formed, fits 32 bits, and a list is open.
pub open spec fn builder_step(st: BuilderState, tok: Seq<char>) -> BuilderState {
    if st.failed {
        st
    } else if tok == seq!['['] {
        BuilderState { stack: st.stack.push(Seq::empty()), root: st.root, failed: false }
    } else if tok == seq![']'] {
        if st.stack.len() == 0 {
            builder_fail(st)
        } else {
            let done = DatumView::List(st.stack.last());
            let popped = st.stack.drop_last();
            if popped.len() == 0 {
                BuilderState {
                    stack: popped,
                    root: if st.root is None {
                        Some(done)
                    } else {
                        st.root
                    },
                    failed: false,
                }
            } else {
                BuilderState {
                    stack: popped.update(popped.len() - 1, popped.last().push(done)),
                    root: st.root,
                    failed: false,
                }
            }
        }
    } else {
        match num_val(tok) {
            Some(v) => {
                if st.stack.len() == 0 || v < i32::MIN as int || v > i32::MAX as int {
                    builder_fail(st)
                } else {
                    BuilderState {
                        stack: st.stack.update(
                            st.stack.len() - 1,
                            st.stack.last().push(DatumView::Integer(v)),
                        ),
                        root: st.root,
                        failed: false,
                    }
                }
            },
            None => builder_fail(st),
        }
    }
}

/// The builder run over a whole token sequence.
pub open spec fn builder_run(toks: Seq<Seq<char>>) -> BuilderState
    decreases toks.len(),
{
    if toks.len() == 0 {
        builder_init()
    } else {
        builder_step(builder_run(toks.drop_last()), toks.last())
    }
}

/// What parsing a text returns: the root view, or nothing for malformed
/// input.  The first significant character must be `[`; then the builder
/// must end with no failure, no open list, and a closed root.
pub open spec fn parse_spec(s: Seq<char>) -> Option<DatumView> {
    let cs = strip_ws(s);
    if cs.len() == 0 || cs[0] != '[' {
        None::<DatumView>
    } else {
        let st = builder_run(tokenize(cs));
        if !st.failed && st.stack.len() == 0 && st.root is Some {
            st.root
        } else {
            None::<DatumView>
        }
    }
}

/// The views of a vector of token strings.
pub open spec fn tokens_view(ts: Seq<String>) -> Seq<Seq<char>> {
    ts.map_values(|t: String| t@)
}

/// Relies on String::push: appends one character at the end.
#[verifier::external_body]
pub(crate) fn push_char(s: &mut String, c: char)
    ensures
        final(s)@ == old(s)@.push(c),
{
    s.push(c)
}

/// Whether the character is ASCII whitespace.
fn ws_char(c: char) -> (b: bool)
    ensures
        b == is_ws_char(c),
{
    c == ' ' || c == '\t' || c == '\n' || c == '\r' || c == '\u{b}' || c == '\u{c}'
}

/// Whether the character is a decimal digit.
fn digit_char(c: char) -> (b: bool)
    ensures
        b == is_digit_char(c),
{
    let u = c as u32;
    48 <= u && u <= 57
}

/// The characters of the text with all whitespace removed.
fn stripped_chars(s: &str) -> (r: Vec<char>)
    ensures
        r@ == strip_ws(s@),
{
    let n = s.unicode_len();
    let mut out: Vec<char> = Vec::new();
    let mut i: usize = 0;
    proof {
        assert(s@.skip(0) =~= s@);
        assert(out@ + strip_ws(s@) =~= strip_ws(s@));
    }
    while i < n
        invariant
            n == s@.len(),
            i <= n,
            strip_ws(s@) == out@ + strip_ws(s@.skip(i as int)),
        decreases n - i,
    {
        let c = s.get_char(i);
        proof {
            assert(s@.skip(i as int)[0] == s@[i as int]);
            assert(s@.skip(i as int).subrange(1, s@.skip(i as int).len() as int) =~= s@.skip(
                i as int + 1,
            ));
        }
        if !ws_char(c) {
            out.push(c);
            proof {
                assert(out@ + strip_ws(s@.skip(i as int + 1)) =~= out@.drop_last() + (seq![c]
                    + strip_ws(s@.skip(i as int + 1))));
            }
        }
        i = i + 1;
    }
    proof {
        assert(s@.skip(n as int) =~= Seq::<char>::empty());
        assert(out@ + strip_ws(s@.skip(n as int)) =~= out@);
    }
    out
}

/// The leading digit run is digits throughout.
pub proof fn lemma_digit_run_digits(s: Seq<char>)
    ensures
        forall|k: int| 0 <= k < digit_run_len(s) ==> is_digit_char(s[k]),
    decreases s.len(),
{
    if s.len() > 0 && is_digit_char(s[0]) {
        lemma_digit_run_len_le(s.subrange(1, s.len() as int));
        lemma_digit_run_digits(s.subrange(1, s.len() as int));
        assert forall|k: int| 0 <= k < digit_run_len(s) implies is_digit_char(s[k]) by {
            if k > 0 {
                assert(s.subrange(1, s.len() as int)[k - 1] == s[k]);
            }
        }
    }
}

/// The digit run is exactly the leading digits: if the first `m`
/// characters are digits and the text ends there or goes on with a
/// non-digit, the run has length `m`.
pub proof fn lemma_digit_run_chars(s: Seq<char>, m: nat)
    requires
        m <= s.len(),
        forall|k: int| 0 <= k < m ==> is_digit_char(s[k]),
        m < s.len() ==> !is_digit_char(s[m as int]),
    ensures
        digit_run_len(s) == m,
    decreases m,
{
    if m == 0 {
    } else {
        assert(is_digit_char(s[0]));
        lemma_digit_run_chars(s.subrange(1, s.len() as int), (m - 1) as nat);
    }
}

/// A well-formed token: a lone bracket, or an optional minus followed
/// only by digits.
pub open spec fn wf_token(tk: Seq<char>) -> bool {
    &&& tk.len() >= 1
    &&& (tk[0] == '[' ==> tk == seq!['['])
    &&& (tk[0] == ']' ==> tk == seq![']'])
    &&& (tk[0] != '[' && tk[0] != ']' ==> {
        &&& (is_digit_char(tk[0]) || tk[0] == '-')
        &&& forall|j: int| 1 <= j < tk.len() ==> is_digit_char(tk[j])
    })
}

/// Every token the tokenizer yields is well formed.
pub proof fn lemma_tokenize_wf(s: Seq<char>)
    ensures
        forall|i: int| 0 <= i < tokenize(s).len() ==> #[trigger] wf_token(tokenize(s)[i]),
    decreases s.len(),
{
    if s.len() == 0 {
    } else if s[0] == '[' || s[0] == ']' {
        lemma_tokenize_wf(s.subrange(1, s.len() as int));
        assert forall|i: int| 0 <= i < tokenize(s).len() implies #[trigger] wf_token(
            tokenize(s)[i],
        ) by {
            if i == 0 {
                assert(tokenize(s)[0] == seq![s[0]]);
            } else {
                assert(tokenize(s)[i] == tokenize(s.subrange(1, s.len() as int))[i - 1]);
            }
        }
    } else if is_digit_char(s[0]) || s[0] == '-' {
        let rest = s.subrange(1, s.len() as int);
        let n = 1 + digit_run_len(rest);
        lemma_digit_run_len_le(rest);
        lemma_digit_run_digits(rest);
        lemma_tokenize_wf(s.subrange(n as int, s.len() as int));
        let tk = s.subrange(0, n as int);
        assert(wf_token(tk)) by {
            assert(tk[0] == s[0]);
            assert forall|j: int| 1 <= j < tk.len() implies is_digit_char(tk[j]) by {
                assert(tk[j] == rest[j - 1]);
            }
        }
        assert forall|i: int| 0 <= i < tokenize(s).len() implies #[trigger] wf_token(
            tokenize(s)[i],
        ) by {
            if i == 0 {
                assert(tokenize(s)[0] == tk);
            } else {
                assert(tokenize(s)[i] == tokenize(s.subrange(n as int, s.len() as int))[i - 1]);
            }
        }
    } else {
        lemma_tokenize_wf(s.subrange(1, s.len() as int));
        assert forall|i: int| 0 <= i < tokenize(s).len() implies #[trigger] wf_token(
            tokenize(s)[i],
        ) by {
            assert(tokenize(s)[i] == tokenize(s.subrange(1, s.len() as int))[i]);
        }
    }
}

/// The tokens of the text: whitespace goes first, then brackets stand
/// alone, a digit or minus starts a number token holding the maximal
/// digit run after it, and every other character is dropped.
pub fn get_valid_tokens(s: &str) -> (r: Vec<String>)
    ensures
        tokens_view(r@) == tokenize(strip_ws(s@)),
{
    let cs = stripped_chars(s);
    let mut toks: Vec<String> = Vec::new();
    let mut i: usize = 0;
    proof {
        assert(cs@.skip(0) =~= cs@);
        assert(tokens_view(toks@) =~= Seq::<Seq<char>>::empty());
        assert(tokens_view(toks@) + tokenize(cs@) =~= tokenize(cs@));
    }
    while i < cs.len()
        invariant
            cs@ == strip_ws(s@),
            i <= cs@.len(),
            tokenize(cs@) == tokens_view(toks@) + tokenize(cs@.skip(i as int)),
        decreases cs@.len() - i,
    {
        let ghost sk = cs@.skip(i as int);
        proof {
            assert(sk[0] == cs@[i as int]);
            assert(sk.subrange(1, sk.len() as int) =~= cs@.skip(i as int + 1));
        }
        let c = cs[i];
        if c == '[' || c == ']' {
            let mut t = String::new();
            push_char(&mut t, c);
            toks.push(t);
            proof {
                assert(tokens_view(toks@) =~= tokens_view(toks@.drop_last()).push(seq![c]));
                assert(tokens_view(toks@) + tokenize(cs@.skip(i as int + 1)) =~= tokens_view(
                    toks@.drop_last(),
                ) + (seq![seq![c]] + tokenize(cs@.skip(i as int + 1))));
            }
            i = i + 1;
        } else if digit_char(c) || c == '-' {
            let mut j = i + 1;
            while j < cs.len() && digit_char(cs[j])
                invariant
                    i + 1 <= j <= cs@.len(),
                    forall|k: int| i + 1 <= k < j ==> is_digit_char(cs@[k]),
                decreases cs@.len() - j,
            {
                j = j + 1;
            }
            proof {
                let rest = sk.subrange(1, sk.len() as int);
                assert forall|k: int| 0 <= k < j - i - 1 implies is_digit_char(rest[k]) by {
                    assert(rest[k] == cs@[i + 1 + k]);
                }
                if j < cs@.len() {
                    assert(rest[j - i - 1] == cs@[j as int]);
                }
                lemma_digit_run_chars(rest, (j - i - 1) as nat);
            }
            let mut t = String::new();
            let mut k = i;
            while k < j
                invariant
                    i <= k <= j <= cs@.len(),
                    t@ == cs@.subrange(i as int, k as int),
                decreases j - k,
            {
                push_char(&mut t, cs[k]);
                proof {
                    assert(cs@.subrange(i as int, k as int).push(cs@[k as int]) =~= cs@.subrange(
                        i as int,
                        k as int + 1,
                    ));
                }
                k = k + 1;
            }
            toks.push(t);
            proof {
                assert(t@ =~= sk.subrange(0, (j - i) as int));
                assert(sk.subrange((j - i) as int, sk.len() as int) =~= cs@.skip(j as int));
                assert(tokens_view(toks@) =~= tokens_view(toks@.drop_last()).push(t@));
                assert(tokens_view(toks@) + tokenize(cs@.skip(j as int)) =~= tokens_view(
                    toks@.drop_last(),
                ) + (seq![t@] + tokenize(cs@.skip(j as int))));
            }
            i = j;
        } else {
            i = i + 1;
        }
    }
    proof {
        assert(cs@.skip(cs@.len() as int) =~= Seq::<char>::empty());
        assert(tokens_view(toks@) + tokenize(cs@.skip(cs@.len() as int)) =~= tokens_view(toks@));
    }
    toks
}

/// With digits from position `m` on, reading further digits only grows
/// a non-negative value.
proof fn lemma_digits_val_extend(t: Seq<char>, m: int)
    requires
        0 <= m <= t.len(),
        digits_val(t.subrange(0, m)) >= 0,
        forall|k: int| m <= k < t.len() ==> is_digit_char(t[k]),
    ensures
        digits_val(t) >= digits_val(t.subrange(0, m)),
    decreases t.len() - m,
{
    if m == t.len() {
        assert(t.subrange(0, m) =~= t);
    } else {
        assert(t.subrange(0, m + 1).drop_last() =~= t.subrange(0, m));
        assert(t.subrange(0, m + 1).last() == t[m]);
        lemma_digits_val_extend(t, m + 1);
    }
}

/// Read a numeric token into 32 bits: an optional leading minus, then
/// digits.  `None` when the token is malformed or its value does not
/// fit a 32-bit signed integer.
fn parse_int_token(t: &str) -> (r: Option<i32>)
    ensures
        match r {
            Some(v) => num_val(t@) == Some(v as int),
            None => num_val(t@) is None || (num_val(t@) matches Some(v) && (v < i32::MIN as int
                || v > i32::MAX as int)),
        },
{
    let n = t.unicode_len();
    if n == 0 {
        return None;
    }
    let neg = t.get_char(0) == '-';
    let start: usize = if neg {
        1
    } else {
        0
    };
    if n == start {
        return None;
    }
    let ghost digits = t@.subrange(start as int, n as int);
    let mut acc: i64 = 0;
    let mut k: usize = start;
    while k < n
        invariant
            n == t@.len(),
            start <= k <= n,
            n > start,
            neg ==> start == 1 && t@[0] == '-',
            !neg ==> start == 0 && t@[0] != '-',
            digits == t@.subrange(start as int, n as int),
            0 <= acc <= 2147483648,
            acc == digits_val(t@.subrange(start as int, k as int)),
            forall|j: int| start <= j < k ==> is_digit_char(t@[j]),
        decreases n - k,
    {
        let c = t.get_char(k);
        if !digit_char(c) {
            proof {
                if neg {
                    assert(t@.subrange(1, n as int)[k - 1] == t@[k as int]);
                    assert(!all_digits(t@.subrange(1, n as int)));
                    assert(!is_digit_char(t@[0]));
                    assert(!all_digits(t@));
                } else {
                    assert(!all_digits(t@));
                }
            }
            return None;
        }
        let u = c as u32;
        acc = acc * 10 + ((u - 48) as i64);
        proof {
            assert(t@.subrange(start as int, k as int + 1).drop_last() =~= t@.subrange(
                start as int,
                k as int,
            ));
            assert(t@.subrange(start as int, k as int + 1).last() == t@[k as int]);
        }
        k = k + 1;
        if acc > 2147483648 {
            proof {
                if num_val(t@) is Some {
                    assert(all_digits(digits)) by {
                        if neg {
                            assert(!is_digit_char(t@[0]));
                            assert(!all_digits(t@));
                        } else {
                            assert forall|j: int| 0 <= j < digits.len() implies is_digit_char(
                                digits[j],
                            ) by {
                                assert(digits[j] == t@[j]);
                            }
                        }
                    }
                    if !neg {
                        assert(digits =~= t@);
                    }
                    assert(digits.subrange(0, k - start) =~= t@.subrange(start as int, k as int));
                    lemma_digits_val_extend(digits, k - start);
                    assert(digits_val(digits) >= acc as int);
                }
            }
            return None;
        }
    }
    proof {
        assert(t@.subrange(start as int, n as int) == digits);
        assert(all_digits(digits)) by {
            assert forall|j: int| 0 <= j < digits.len() implies is_digit_char(digits[j]) by {
                assert(digits[j] == t@[start + j]);
            }
        }
        if !neg {
            assert(digits =~= t@);
        }
    }
    if neg {
        let v = -acc;
        proof {
            assert(-2147483648 <= v <= 0);
        }
        Some(v as i32)
    } else {
        if acc > 2147483647 {
            return None;
        }
        Some(acc as i32)
    }
}

/// Once a step has failed, the builder stays failed whatever follows.
proof fn lemma_builder_failed_stays(toks: Seq<Seq<char>>, m: int)
    requires
        0 <= m <= toks.len(),
        builder_run(toks.take(m)).failed,
    ensures
        builder_run(toks).failed,
    decreases toks.len() - m,
{
    if m == toks.len() {
        assert(toks.take(m) =~= toks);
    } else {
        assert(toks.take(m + 1).drop_last() =~= toks.take(m));
        assert(toks.take(m + 1).last() == toks[m]);
        lemma_builder_failed_stays(toks, m + 1);
    }
}

impl PacketDatum {
    /// Parse a packet text into its datum tree: `Ok` with exactly the
    /// tree the token pass builds for well-formed input, the parse error
    /// for every other input.
    pub fn parse(s: &str) -> (r: Result<PacketDatum, PacketParseError>)
        ensures
            match r {
                Ok(d) => parse_spec(s@) == Some(d@),
                Err(_) => parse_spec(s@) is None,
            },
    {
        let cs = stripped_chars(s);
        if cs.len() == 0 {
            return Err(PacketParseError);
        }
        if cs[0] != '[' {
            return Err(PacketParseError);
        }
        let tokens = get_valid_tokens(s);
        let ghost toks = tokenize(strip_ws(s@));
        proof {
            lemma_tokenize_wf(strip_ws(s@));
            assert(toks.take(0) =~= Seq::<Seq<char>>::empty());
        }
        let mut stack: Vec<Vec<PacketDatum>> = Vec::new();
        let mut root: Option<PacketDatum> = None;
        let mut n: usize = 0;
        while n < tokens.len()
            invariant
                tokens_view(tokens@) == toks,
                toks == tokenize(strip_ws(s@)),
                strip_ws(s@).len() > 0 && strip_ws(s@)[0] == '[',
                n <= tokens@.len(),
                forall|i: int| 0 <= i < toks.len() ==> #[trigger] wf_token(toks[i]),
                !builder_run(toks.take(n as int)).failed,
                builder_run(toks.take(n as int)).stack.len() == stack@.len(),
                forall|lvl: int|
                    0 <= lvl < stack@.len() ==> builder_run(toks.take(n as int)).stack[lvl]
                        == seq_datum_view(#[trigger] stack@[lvl]@),
                root is None <==> builder_run(toks.take(n as int)).root is None,
                root matches Some(d) ==> builder_run(toks.take(n as int)).root == Some(
                    datum_view(d),
                ),
            decreases tokens@.len() - n,
        {
            let ghost st = builder_run(toks.take(n as int));
            let ghost stack0 = stack@;
            proof {
                assert(toks.take(n as int + 1).drop_last() =~= toks.take(n as int));
                assert(toks.take(n as int + 1).last() == toks[n as int]);
                assert(toks[n as int] == tokens@[n as int]@);
                assert(wf_token(toks[n as int]));
            }
            let ghost stp = builder_run(toks.take(n as int + 1));
            let t = &tokens[n];
            let c = t.as_str().get_char(0);
            proof {
                assert(seq!['['][0] == '[' && seq![']'][0] == ']');
                assert(t@[0] == c);
            }
            if c == '[' {
                stack.push(Vec::new());
                proof {
                    assert(stp.stack =~= st.stack.push(Seq::empty()));
                    assert forall|lvl: int| 0 <= lvl < stack@.len() implies stp.stack[lvl]
                        == seq_datum_view(#[trigger] stack@[lvl]@) by {
                        if lvl == stack@.len() - 1 {
                            assert(stack@[lvl]@ =~= Seq::<PacketDatum>::empty());
                        }
                    }
                }
            } else if c == ']' {
                proof {
                    assert(t@ == seq![']']);
                    assert(t@ != seq!['[']);
                }
                if stack.len() == 0 {
                    proof {
                        lemma_builder_failed_stays(toks, n as int + 1);
                    }
                    return Err(PacketParseError);
                }
                let top = stack.pop().unwrap();
                let node = PacketDatum::List(top);
                let ghost done = DatumView::List(st.stack.last());
                proof {
                    assert(top@ == stack0[stack0.len() - 1]@);
                    assert(st.stack.last() == seq_datum_view(stack0[stack0.len() - 1]@));
                    assert(done == datum_view(node));
                }
                if stack.len() == 0 {
                    if root.is_none() {
                        root = Some(node);
                    }
                } else {
                    let mut parent = stack.pop().unwrap();
                    parent.push(node);
                    stack.push(parent);
                    proof {
                        let popped = st.stack.drop_last();
                        assert(stp.stack == popped.update(popped.len() - 1, popped.last().push(
                            done,
                        )));
                        assert(parent@ == stack0[stack0.len() - 2]@.push(node));
                        lemma_seq_datum_view_push(stack0[stack0.len() - 2]@, node);
                        assert(popped.last() == seq_datum_view(stack0[stack0.len() - 2]@));
                        assert forall|lvl: int| 0 <= lvl < stack@.len() implies stp.stack[lvl]
                            == seq_datum_view(#[trigger] stack@[lvl]@) by {
                            if lvl == stack@.len() - 1 {
                                assert(stack@[lvl] == parent);
                                assert(stp.stack[lvl] == popped.last().push(done));
                            } else {
                                assert(stack@[lvl] == stack0[lvl]);
                                assert(stp.stack[lvl] == st.stack[lvl]);
                            }
                        }
                    }
                }
            } else {
                proof {
                    assert(t@ != seq!['[']);
                    assert(t@ != seq![']']);
                }
                if stack.len() == 0 {
                    proof {
                        lemma_builder_failed_stays(toks, n as int + 1);
                    }
                    return Err(PacketParseError);
                }
                match parse_int_token(t.as_str()) {
                    None => {
                        proof {
                            lemma_builder_failed_stays(toks, n as int + 1);
                        }
                        return Err(PacketParseError);
                    },
                    Some(v) => {
                        let node = PacketDatum::Integer(v);
                        let mut top = stack.pop().unwrap();
                        top.push(node);
                        stack.push(top);
                        proof {
                            assert(stp.stack == st.stack.update(
                                st.stack.len() - 1,
                                st.stack.last().push(DatumView::Integer(v as int)),
                            ));
                            assert(top@ == stack0[stack0.len() - 1]@.push(node));
                            lemma_seq_datum_view_push(stack0[stack0.len() - 1]@, node);
                            assert(st.stack.last() == seq_datum_view(stack0[stack0.len() - 1]@));
                            assert(DatumView::Integer(v as int) == datum_view(node));
                            assert forall|lvl: int| 0 <= lvl < stack@.len() implies stp.stack[lvl]
                                == seq_datum_view(#[trigger] stack@[lvl]@) by {
                                if lvl == stack@.len() - 1 {
                                    assert(stack@[lvl] == top);
                                    assert(stp.stack[lvl] == st.stack.last().push(
                                        DatumView::Integer(v as int),
                                    ));
                                } else {
                                    assert(stack@[lvl] == stack0[lvl]);
                                    assert(stp.stack[lvl] == st.stack[lvl]);
                                }
                            }
                        }
                    },
                }
            }
            n = n + 1;
        }
        proof {
            assert(toks.take(tokens@.len() as int) =~= toks);
        }
        if stack.len() > 0 {
            return Err(PacketParseError);
        }
        match root {
            Some(d) => Ok(d),
            None => Err(PacketParseError),
        }
    }
}

impl core::str::FromStr for PacketDatum {
    type Err = PacketParseError;

    /// Parse a packet text; `str::parse` reaches [`PacketDatum::parse`].
    fn from_str(s: &str) -> Result<PacketDatum, PacketParseError> {
        PacketDatum::parse(s)
    }
}

} // verus!
