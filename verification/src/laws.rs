//! The format-level laws of the library, each proved from the contracts of
//! the executable functions: round-trip fidelity of well-formed canonical
//! documents, the frame property of per-element canonicalization,
//! idempotence of value updates, and the guarantee that no control marker
//! or unfilled token is ever exposed by a successful parse.

use crate::element::{
    canonical_tokens, data_pair_tokens, data_tokens_all, pairs_find, prop_pair_tokens,
    prop_tokens_all, ElementView,
};
use crate::scene::scene_tokens;
use crate::tokenizer::{
    init_lex_st, is_lex_space, lemma_filter_nonempty_iff_exists, lemma_next_newline_at,
    lemma_render_concat, lemma_trim_end_at, lemma_trim_start_at, lex_from, lex_step, spec_append,
    spec_render, spec_tokenize, spec_trim, trim_end, trim_opt, trim_start, Expectation, LexSt,
    LexStep, TokenView, TokenizerError,
};
use vstd::prelude::*;

verus! {

/// A character that may stand in an element, data or property name: no
/// whitespace, quotes, separators or brackets.
pub open spec fn atom_char(c: char) -> bool {
    !is_lex_space(c) && c != '"' && c != '\'' && c != '=' && c != '[' && c != ']'
}

/// A character that may stand in an unquoted data value: as a name
/// character, but `=` is permitted.
pub open spec fn value_char(c: char) -> bool {
    !is_lex_space(c) && c != '"' && c != '\'' && c != '[' && c != ']'
}

/// A character that may stand between the quotes of a quoted value:
/// anything but quotes, brackets and line breaks.
pub open spec fn inner_char(c: char) -> bool {
    c != '"' && c != '\'' && c != '[' && c != ']' && c != '\n'
}

pub open spec fn name_atom(s: Seq<char>) -> bool {
    s.len() > 0 && forall|m: int| 0 <= m < s.len() ==> atom_char(s[m])
}

pub open spec fn plain_value(s: Seq<char>) -> bool {
    s.len() > 0 && forall|m: int| 0 <= m < s.len() ==> value_char(s[m])
}

pub open spec fn quoted_value(s: Seq<char>) -> bool {
    s.len() >= 2 && s[0] == '"' && s[s.len() - 1] == '"' && forall|m: int|
        0 < m < s.len() - 1 ==> inner_char(s[m])
}

pub open spec fn value_atom(s: Seq<char>) -> bool {
    plain_value(s) || quoted_value(s)
}

/// A property value line: captured verbatim to the end of its line, so any
/// character but a line break is admitted, as long as the trim on flush
/// gives the value back (no surrounding whitespace).
pub open spec fn prop_value_ok(s: Seq<char>) -> bool {
    (forall|m: int| 0 <= m < s.len() ==> s[m] != '\n') && (s.len() == 0 || (!is_lex_space(s[0])
        && !is_lex_space(s[s.len() - 1])))
}

/// A well-formed element: the class of records whose canonical rendering
/// tokenizes back to exactly its canonical tokens.
pub open spec fn element_wf(e: ElementView) -> bool {
    name_atom(e.name) && (forall|m: int|
        0 <= m < e.data.len() ==> name_atom(e.data[m].0) && value_atom(e.data[m].1)) && (forall|
        m: int,
    | 0 <= m < e.props.len() ==> name_atom(e.props[m].0) && prop_value_ok(e.props[m].1))
}

/// Trimming a sequence without surrounding whitespace gives it back.
proof fn lemma_trim_id(s: Seq<char>)
    requires
        s.len() == 0 || (!is_lex_space(s[0]) && !is_lex_space(s[s.len() - 1])),
    ensures
        spec_trim(s) == s,
{
    if s.len() == 0 {
        assert(trim_start(s) == s);
        assert(trim_end(s) == s);
    } else {
        lemma_trim_start_at(s, 0);
        assert(s.subrange(0, s.len() as int) =~= s);
        lemma_trim_end_at(s, s.len() as int);
    }
}

/// One accepted machine step folds into the run.
proof fn lemma_lex_unfold_next(input: Seq<char>, i: int, st: LexSt, st2: LexSt, j: int)
    requires
        0 <= i < input.len(),
        lex_step(input, i, st) == LexStep::Next(st2, j),
        i < j <= input.len(),
    ensures
        lex_from(input, i, st) == lex_from(input, j, st2),
{
}

pub open spec fn buf_content(b: Option<Seq<char>>) -> Seq<char> {
    match b {
        Some(s) => s,
        None => Seq::<char>::empty(),
    }
}

pub open spec fn buf_after(b: Option<Seq<char>>, w: Seq<char>) -> Option<Seq<char>> {
    if w.len() == 0 {
        b
    } else {
        Some(buf_content(b) + w)
    }
}

/// The end set the accumulator uses under each expectation.
pub open spec fn ends_of(x: Expectation) -> Seq<char> {
    if x == Expectation::ElementDataName || x == Expectation::PropertyName {
        seq![' ', '=']
    } else {
        seq![' ']
    }
}

pub open spec fn accum_expect(x: Expectation) -> bool {
    x == Expectation::ElementName || x == Expectation::ElementDataName || x
        == Expectation::ElementDataValue || x == Expectation::PropertyName
}

/// A character that merely accumulates under expectation `x`.
pub open spec fn run_char(c: char, x: Expectation) -> bool {
    !is_lex_space(c) && c != '"' && c != '\'' && c != '[' && c != ']' && !ends_of(x).contains(c)
}

/// Running the machine over accumulating characters only extends the
/// buffer.
proof fn lemma_lex_accum(input: Seq<char>, i: int, j: int, st: LexSt)
    requires
        0 <= i <= j <= input.len(),
        accum_expect(st.expect),
        !st.in_quote,
        !st.completed,
        match st.buf {
            Option::None => true,
            Option::Some(b) => b.len() > 0 && forall|m: int|
                0 <= m < b.len() ==> run_char(b[m], st.expect),
        },
        forall|m: int| i <= m < j ==> run_char(input[m], st.expect),
    ensures
        lex_from(input, i, st) == lex_from(
            input,
            j,
            LexSt { buf: buf_after(st.buf, input.subrange(i, j)), ..st },
        ),
    decreases j - i,
{
    if i == j {
        assert(input.subrange(i, j) =~= Seq::<char>::empty());
        assert(LexSt { buf: st.buf, ..st } == st);
    } else {
        let c = input[i];
        assert(run_char(c, st.expect));
        assert(c != '[' && c != ']' && c != '\n');
        let ends = ends_of(st.expect);
        let a = spec_append(st.buf, st.in_quote, st.completed, c, ends);
        match st.buf {
            Option::None => {
                assert(a.0 == Some(seq![c]) && a.1 == false && a.2 == false);
                assert(seq![c] =~= buf_content(st.buf).push(c));
            },
            Option::Some(b) => {
                lemma_filter_nonempty_iff_exists(b, |x: char| !ends.contains(x));
                assert(!ends.contains(b[0]));
                assert(b.filter(|x: char| !ends.contains(x)).len() > 0);
                assert(!ends.contains(c));
                assert(a.0 == Some(b.push(c)) && a.1 == false && a.2 == false);
            },
        }
        let st2 = LexSt {
            buf: Some(buf_content(st.buf).push(c)),
            in_quote: false,
            completed: false,
            ..st
        };
        assert(lex_step(input, i, st) == LexStep::Next(st2, i + 1));
        lemma_lex_unfold_next(input, i, st, st2, i + 1);
        lemma_lex_accum(input, i + 1, j, st2);
        assert(buf_after(st2.buf, input.subrange(i + 1, j)) == buf_after(
            st.buf,
            input.subrange(i, j),
        )) by {
            if i + 1 == j {
                assert(input.subrange(i, j) =~= seq![c]);
                assert(buf_content(st.buf) + input.subrange(i, j) =~= buf_content(st.buf).push(c));
            } else {
                assert(buf_content(st.buf).push(c) + input.subrange(i + 1, j) =~= buf_content(
                    st.buf,
                ) + input.subrange(i, j));
            }
        }
    }
}

/// Running the machine inside a quoted value only extends the buffer; the
/// quote flag shields spaces and separators.
proof fn lemma_lex_inquote(input: Seq<char>, i: int, j: int, st: LexSt)
    requires
        0 <= i <= j <= input.len(),
        st.expect == Expectation::ElementDataValue,
        st.in_quote,
        !st.completed,
        match st.buf {
            Option::None => false,
            Option::Some(b) => b.len() > 0 && b[0] == '"',
        },
        forall|m: int| i <= m < j ==> inner_char(input[m]),
    ensures
        lex_from(input, i, st) == lex_from(
            input,
            j,
            LexSt { buf: Some(buf_content(st.buf) + input.subrange(i, j)), ..st },
        ),
    decreases j - i,
{
    let b = buf_content(st.buf);
    if i == j {
        assert(b + input.subrange(i, j) =~= b);
        assert(LexSt { buf: Some(b), ..st } == st);
    } else {
        let c = input[i];
        assert(inner_char(c));
        let ends = seq![' '];
        let a = spec_append(st.buf, st.in_quote, st.completed, c, ends);
        lemma_filter_nonempty_iff_exists(b, |x: char| !ends.contains(x));
        assert(!ends.contains(b[0]));
        assert(b.filter(|x: char| !ends.contains(x)).len() > 0);
        assert(a.0 == Some(b.push(c)) && a.1 == true && a.2 == false);
        let st2 = LexSt { buf: Some(b.push(c)), in_quote: true, completed: false, ..st };
        assert(lex_step(input, i, st) == LexStep::Next(st2, i + 1));
        lemma_lex_unfold_next(input, i, st, st2, i + 1);
        lemma_lex_inquote(input, i + 1, j, st2);
        assert(b.push(c) + input.subrange(i + 1, j) =~= b + input.subrange(i, j));
    }
}

/// Running the machine over a whole quoted value fills the buffer with it.
proof fn lemma_lex_quoted_value(input: Seq<char>, i: int, st: LexSt, q: Seq<char>)
    requires
        0 <= i,
        i + q.len() <= input.len(),
        st.expect == Expectation::ElementDataValue,
        st.buf is None,
        !st.in_quote,
        !st.completed,
        quoted_value(q),
        input.subrange(i, i + q.len()) == q,
    ensures
        lex_from(input, i, st) == lex_from(
            input,
            i + q.len(),
            LexSt { buf: Some(q), in_quote: false, completed: false, ..st },
        ),
{
    // the opening quote
    assert(input[i] == q[0]);
    assert(input[i] == '"');
    let a = spec_append(st.buf, st.in_quote, st.completed, '"', seq![' ']);
    assert(a.0 == Some(seq!['"']) && a.1 == true && a.2 == false);
    let st1 = LexSt { buf: Some(seq!['"']), in_quote: true, completed: false, ..st };
    assert(lex_step(input, i, st) == LexStep::Next(st1, i + 1));
    lemma_lex_unfold_next(input, i, st, st1, i + 1);
    // the inner characters
    assert(forall|m: int| i + 1 <= m < i + q.len() - 1 ==> input[m] == q[m - i]);
    assert(forall|m: int| i + 1 <= m < i + q.len() - 1 ==> inner_char(input[m]));
    lemma_lex_inquote(input, i + 1, i + q.len() - 1, st1);
    let inner = input.subrange(i + 1, i + q.len() - 1);
    let st2 = LexSt { buf: Some(seq!['"'] + inner), in_quote: true, completed: false, ..st };
    assert(LexSt { buf: Some(buf_content(st1.buf) + inner), ..st1 } == st2);
    // the closing quote
    assert(input[i + q.len() - 1] == q[q.len() - 1]);
    assert(input[i + q.len() - 1] == '"');
    let b2 = seq!['"'] + inner;
    assert(b2[0] == '"');
    let ends = seq![' '];
    lemma_filter_nonempty_iff_exists(b2, |x: char| !ends.contains(x));
    assert(!ends.contains(b2[0]));
    assert(b2.filter(|x: char| !ends.contains(x)).len() > 0);
    let a3 = spec_append(st2.buf, st2.in_quote, st2.completed, '"', ends);
    assert(a3.0 == Some(b2.push('"')) && a3.1 == false && a3.2 == false);
    let st3 = LexSt { buf: Some(b2.push('"')), in_quote: false, completed: false, ..st };
    assert(lex_step(input, i + q.len() - 1, st2) == LexStep::Next(st3, i + q.len()));
    lemma_lex_unfold_next(input, i + q.len() - 1, st2, st3, i + q.len());
    assert(b2.push('"') =~= q);
    assert(st3 == LexSt { buf: Some(q), in_quote: false, completed: false, ..st });
}

/// A space flushes a completed element name and moves to the data fields.
proof fn lemma_lex_flush_element_name(input: Seq<char>, i: int, st: LexSt, b: Seq<char>)
    requires
        0 <= i < input.len(),
        input[i] == ' ',
        st.expect == Expectation::ElementName,
        st.buf == Some(b),
        b.len() > 0,
        !is_lex_space(b[0]),
        !is_lex_space(b[b.len() - 1]),
        b[0] != ' ',
        !st.in_quote,
        !st.completed,
    ensures
        lex_from(input, i, st) == lex_from(
            input,
            i + 1,
            LexSt {
                tokens: st.tokens.push(TokenView::ElementName(Some(b))),
                buf: None,
                in_quote: false,
                completed: false,
                expect: Expectation::ElementDataName,
            },
        ),
{
    let ends = seq![' '];
    lemma_filter_nonempty_iff_exists(b, |x: char| !ends.contains(x));
    assert(!ends.contains(b[0]));
    assert(b.filter(|x: char| !ends.contains(x)).len() > 0);
    assert(ends.contains(' ')) by {
        assert(ends[0] == ' ');
    }
    let a = spec_append(st.buf, st.in_quote, st.completed, ' ', ends);
    assert(a.0 == Some(b) && a.1 == false && a.2 == true);
    lemma_trim_id(b);
    let st2 = LexSt {
        tokens: st.tokens.push(TokenView::ElementName(Some(b))),
        buf: None,
        in_quote: false,
        completed: false,
        expect: Expectation::ElementDataName,
    };
    assert(lex_step(input, i, st) == LexStep::Next(st2, i + 1));
    lemma_lex_unfold_next(input, i, st, st2, i + 1);
}

/// An equals sign flushes a completed data name and moves to its value.
proof fn lemma_lex_flush_data_name(input: Seq<char>, i: int, st: LexSt, b: Seq<char>)
    requires
        0 <= i < input.len(),
        input[i] == '=',
        st.expect == Expectation::ElementDataName,
        st.buf == Some(b),
        b.len() > 0,
        !is_lex_space(b[0]),
        !is_lex_space(b[b.len() - 1]),
        b[0] != ' ' && b[0] != '=',
        !st.in_quote,
        !st.completed,
    ensures
        lex_from(input, i, st) == lex_from(
            input,
            i + 1,
            LexSt {
                tokens: st.tokens.push(TokenView::ElementDataName(Some(b))),
                buf: None,
                in_quote: false,
                completed: false,
                expect: Expectation::ElementDataValue,
            },
        ),
{
    let ends = seq![' ', '='];
    lemma_filter_nonempty_iff_exists(b, |x: char| !ends.contains(x));
    assert(!ends.contains(b[0]));
    assert(b.filter(|x: char| !ends.contains(x)).len() > 0);
    let a = spec_append(st.buf, st.in_quote, st.completed, '=', ends);
    assert(a.0 == Some(b) && a.1 == false && a.2 == true);
    lemma_trim_id(b);
    let st2 = LexSt {
        tokens: st.tokens.push(TokenView::ElementDataName(Some(b))),
        buf: None,
        in_quote: false,
        completed: false,
        expect: Expectation::ElementDataValue,
    };
    assert(lex_step(input, i, st) == LexStep::Next(st2, i + 1));
    lemma_lex_unfold_next(input, i, st, st2, i + 1);
}

/// A space flushes a completed data value and readies the next data name.
proof fn lemma_lex_flush_data_value(input: Seq<char>, i: int, st: LexSt, b: Seq<char>)
    requires
        0 <= i < input.len(),
        input[i] == ' ',
        st.expect == Expectation::ElementDataValue,
        st.buf == Some(b),
        b.len() > 0,
        !is_lex_space(b[0]),
        !is_lex_space(b[b.len() - 1]),
        b[0] != ' ',
        !st.in_quote,
        !st.completed,
    ensures
        lex_from(input, i, st) == lex_from(
            input,
            i + 1,
            LexSt {
                tokens: st.tokens.push(TokenView::ElementDataValue(Some(b))),
                buf: None,
                in_quote: false,
                completed: false,
                expect: Expectation::ElementDataName,
            },
        ),
{
    let ends = seq![' '];
    lemma_filter_nonempty_iff_exists(b, |x: char| !ends.contains(x));
    assert(!ends.contains(b[0]));
    assert(b.filter(|x: char| !ends.contains(x)).len() > 0);
    assert(ends.contains(' ')) by {
        assert(ends[0] == ' ');
    }
    let a = spec_append(st.buf, st.in_quote, st.completed, ' ', ends);
    assert(a.0 == Some(b) && a.1 == false && a.2 == true);
    lemma_trim_id(b);
    let st2 = LexSt {
        tokens: st.tokens.push(TokenView::ElementDataValue(Some(b))),
        buf: None,
        in_quote: false,
        completed: false,
        expect: Expectation::ElementDataName,
    };
    assert(lex_step(input, i, st) == LexStep::Next(st2, i + 1));
    lemma_lex_unfold_next(input, i, st, st2, i + 1);
}

/// A space followed by `=` flushes a completed property name and schedules
/// the jump over the separator.
proof fn lemma_lex_flush_prop_name(input: Seq<char>, i: int, st: LexSt, b: Seq<char>)
    requires
        0 <= i,
        i + 1 < input.len(),
        input[i] == ' ',
        input[i + 1] == '=',
        st.expect == Expectation::PropertyName,
        st.buf == Some(b),
        b.len() > 0,
        !is_lex_space(b[0]),
        !is_lex_space(b[b.len() - 1]),
        b[0] != ' ' && b[0] != '=',
        !st.in_quote,
        !st.completed,
    ensures
        lex_from(input, i, st) == lex_from(
            input,
            i + 1,
            LexSt {
                tokens: st.tokens.push(TokenView::PropertyName(Some(b))),
                buf: None,
                in_quote: false,
                completed: false,
                expect: Expectation::PendingPropertyValue,
            },
        ),
{
    let ends = seq![' ', '='];
    lemma_filter_nonempty_iff_exists(b, |x: char| !ends.contains(x));
    assert(!ends.contains(b[0]));
    assert(b.filter(|x: char| !ends.contains(x)).len() > 0);
    let a = spec_append(st.buf, st.in_quote, st.completed, ' ', ends);
    assert(a.0 == Some(b) && a.1 == false && a.2 == true);
    lemma_trim_id(b);
    let st2 = LexSt {
        tokens: st.tokens.push(TokenView::PropertyName(Some(b))),
        buf: None,
        in_quote: false,
        completed: false,
        expect: Expectation::PendingPropertyValue,
    };
    assert(lex_step(input, i, st) == LexStep::Next(st2, i + 1));
    lemma_lex_unfold_next(input, i, st, st2, i + 1);
}

/// The deferred jump consumes one character and lands on the value.
proof fn lemma_lex_pending(input: Seq<char>, i: int, st: LexSt)
    requires
        0 <= i < input.len(),
        st.expect == Expectation::PendingPropertyValue,
    ensures
        lex_from(input, i, st) == lex_from(
            input,
            i + 1,
            LexSt { expect: Expectation::PropertyValue, ..st },
        ),
{
    let st2 = LexSt { expect: Expectation::PropertyValue, ..st };
    assert(lex_step(input, i, st) == LexStep::Next(st2, i + 1));
    lemma_lex_unfold_next(input, i, st, st2, i + 1);
}

/// The space after the separator starts the one-step verbatim capture of
/// the rest of the line.
proof fn lemma_lex_prop_value(input: Seq<char>, i: int, st: LexSt, v: Seq<char>)
    requires
        0 <= i,
        i + v.len() + 1 < input.len(),
        st.expect == Expectation::PropertyValue,
        input[i] == ' ',
        input.subrange(i + 1, i + 1 + v.len()) == v,
        input[i + 1 + v.len()] == '\n',
        prop_value_ok(v),
    ensures
        lex_from(input, i, st) == lex_from(
            input,
            i + v.len() + 2,
            LexSt {
                tokens: st.tokens.push(TokenView::PropertyValue(Some(v))).push(TokenView::NewLine),
                buf: None,
                in_quote: false,
                completed: false,
                expect: Expectation::PropertyName,
            },
        ),
{
    assert(forall|m: int| i + 1 <= m < i + 1 + v.len() ==> input[m] == v[m - i - 1]);
    assert(forall|m: int| i <= m < i + 1 + v.len() ==> input[m] != '\n');
    lemma_next_newline_at(input, i, i + 1 + v.len());
    let captured = input.subrange(i, i + 1 + v.len());
    assert(captured =~= seq![' '] + v);
    // trimming the captured text gives the value back
    assert(is_lex_space(captured[0]));
    assert(forall|m: int| 0 <= m < 1 ==> is_lex_space(captured[m]));
    if v.len() == 0 {
        lemma_trim_start_at(captured, 1);
        assert(captured.subrange(1, captured.len() as int) =~= v);
        assert(trim_end(trim_start(captured)) == v);
    } else {
        assert(captured[1] == v[0]);
        lemma_trim_start_at(captured, 1);
        assert(captured.subrange(1, captured.len() as int) =~= v);
        lemma_trim_end_at(v, v.len() as int);
    }
    assert(spec_trim(captured) == v);
    let st2 = LexSt {
        tokens: st.tokens.push(TokenView::PropertyValue(Some(v))).push(TokenView::NewLine),
        buf: None,
        in_quote: false,
        completed: false,
        expect: Expectation::PropertyName,
    };
    assert(lex_step(input, i, st) == LexStep::Next(st2, i + v.len() + 2));
    lemma_lex_unfold_next(input, i, st, st2, i + v.len() + 2);
}

/// An opening bracket outside any value position starts an element.
proof fn lemma_lex_open_bracket(input: Seq<char>, i: int, st: LexSt)
    requires
        0 <= i < input.len(),
        input[i] == '[',
        st.expect == Expectation::Free || st.expect == Expectation::PropertyName,
        !st.in_quote,
    ensures
        lex_from(input, i, st) == lex_from(
            input,
            i + 1,
            LexSt {
                tokens: st.tokens.push(TokenView::BracketLeft),
                in_quote: false,
                expect: Expectation::ElementName,
                ..st
            },
        ),
{
    let st2 = LexSt {
        tokens: st.tokens.push(TokenView::BracketLeft),
        in_quote: false,
        expect: Expectation::ElementName,
        ..st
    };
    assert(lex_step(input, i, st) == LexStep::Next(st2, i + 1));
    lemma_lex_unfold_next(input, i, st, st2, i + 1);
}

/// A closing bracket while a data name is expected only emits the mark.
proof fn lemma_lex_close_bracket(input: Seq<char>, i: int, st: LexSt)
    requires
        0 <= i < input.len(),
        input[i] == ']',
        st.expect == Expectation::ElementDataName,
        !st.in_quote,
    ensures
        lex_from(input, i, st) == lex_from(
            input,
            i + 1,
            LexSt { tokens: st.tokens.push(TokenView::BracketRight), in_quote: false, ..st },
        ),
{
    let st2 = LexSt { tokens: st.tokens.push(TokenView::BracketRight), in_quote: false, ..st };
    assert(lex_step(input, i, st) == LexStep::Next(st2, i + 1));
    lemma_lex_unfold_next(input, i, st, st2, i + 1);
}

/// A newline right after a closing bracket readies the property lines.
proof fn lemma_lex_newline_after_bracket(input: Seq<char>, i: int, st: LexSt)
    requires
        0 <= i < input.len(),
        input[i] == '\n',
        st.expect == Expectation::ElementDataName,
        st.tokens.len() > 0,
        st.tokens.last() == TokenView::BracketRight,
        !st.in_quote,
    ensures
        lex_from(input, i, st) == lex_from(
            input,
            i + 1,
            LexSt {
                tokens: st.tokens.push(TokenView::NewLine),
                in_quote: false,
                expect: Expectation::PropertyName,
                ..st
            },
        ),
{
    let st2 = LexSt {
        tokens: st.tokens.push(TokenView::NewLine),
        in_quote: false,
        expect: Expectation::PropertyName,
        ..st
    };
    assert(lex_step(input, i, st) == LexStep::Next(st2, i + 1));
    lemma_lex_unfold_next(input, i, st, st2, i + 1);
}

/// A blank line while property names are expected leaves the cursor there.
proof fn lemma_lex_newline_plain(input: Seq<char>, i: int, st: LexSt)
    requires
        0 <= i < input.len(),
        input[i] == '\n',
        st.expect == Expectation::PropertyName,
        st.tokens.len() > 0,
        st.tokens.last() != TokenView::BracketRight,
        !st.in_quote,
    ensures
        lex_from(input, i, st) == lex_from(
            input,
            i + 1,
            LexSt { tokens: st.tokens.push(TokenView::NewLine), in_quote: false, ..st },
        ),
{
    let st2 = LexSt { tokens: st.tokens.push(TokenView::NewLine), in_quote: false, ..st };
    assert(lex_step(input, i, st) == LexStep::Next(st2, i + 1));
    lemma_lex_unfold_next(input, i, st, st2, i + 1);
}

/// The characters one data field contributes to a canonical document.
pub open spec fn data_pair_text(d: (Seq<char>, Seq<char>)) -> Seq<char> {
    d.0 + seq!['='] + d.1 + seq![' ']
}

/// The characters one property line contributes to a canonical document.
pub open spec fn prop_pair_text(p: (Seq<char>, Seq<char>)) -> Seq<char> {
    p.0 + seq![' ', '=', ' '] + p.1 + seq!['\n']
}

pub open spec fn data_text_all(data: Seq<(Seq<char>, Seq<char>)>) -> Seq<char>
    decreases data.len(),
{
    if data.len() == 0 {
        Seq::<char>::empty()
    } else {
        data_text_all(data.drop_last()) + data_pair_text(data.last())
    }
}

pub open spec fn prop_text_all(props: Seq<(Seq<char>, Seq<char>)>) -> Seq<char>
    decreases props.len(),
{
    if props.len() == 0 {
        Seq::<char>::empty()
    } else {
        prop_text_all(props.drop_last()) + prop_pair_text(props.last())
    }
}

proof fn lemma_render_data_pair(d: (Seq<char>, Seq<char>))
    ensures
        spec_render(data_pair_tokens(d)) == data_pair_text(d),
{
    let ts = data_pair_tokens(d);
    assert(ts.drop_first() =~= seq![TokenView::ElementDataValue(Some(d.1))]);
    assert(ts.drop_first().drop_first() =~= Seq::<TokenView>::empty());
    assert(spec_render(Seq::<TokenView>::empty()) == Seq::<char>::empty());
    assert(spec_render(ts.drop_first()) == d.1 + seq![' '] + Seq::<char>::empty());
    assert(spec_render(ts) == d.0.push('=') + Seq::<char>::empty() + (d.1 + seq![' ']
        + Seq::<char>::empty()));
    assert(d.0.push('=') + Seq::<char>::empty() + (d.1 + seq![' '] + Seq::<char>::empty())
        =~= data_pair_text(d));
}

proof fn lemma_render_prop_pair(p: (Seq<char>, Seq<char>))
    ensures
        spec_render(prop_pair_tokens(p)) == prop_pair_text(p),
{
    let ts = prop_pair_tokens(p);
    let t1 = ts.drop_first();
    let t2 = t1.drop_first();
    assert(t1 =~= seq![TokenView::PropertyValue(Some(p.1)), TokenView::NewLine]);
    assert(t2 =~= seq![TokenView::NewLine]);
    assert(t2.drop_first() =~= Seq::<TokenView>::empty());
    assert(spec_render(Seq::<TokenView>::empty()) == Seq::<char>::empty());
    assert(spec_render(t2) == seq!['\n'] + Seq::<char>::empty() + Seq::<char>::empty());
    assert(spec_render(t1) == p.1 + Seq::<char>::empty() + spec_render(t2));
    assert(spec_render(ts) == p.0.push(' ').push('=').push(' ') + Seq::<char>::empty()
        + spec_render(t1));
    assert(p.0.push(' ').push('=').push(' ') + Seq::<char>::empty() + (p.1 + Seq::<char>::empty()
        + (seq!['\n'] + Seq::<char>::empty() + Seq::<char>::empty())) =~= prop_pair_text(p));
}

proof fn lemma_render_data_tokens(data: Seq<(Seq<char>, Seq<char>)>)
    ensures
        spec_render(data_tokens_all(data)) == data_text_all(data),
    decreases data.len(),
{
    if data.len() == 0 {
        assert(data_tokens_all(data) == Seq::<TokenView>::empty());
        assert(spec_render(Seq::<TokenView>::empty()) == Seq::<char>::empty());
    } else {
        lemma_render_data_tokens(data.drop_last());
        lemma_render_concat(data_tokens_all(data.drop_last()), data_pair_tokens(data.last()));
        lemma_render_data_pair(data.last());
    }
}

proof fn lemma_render_prop_tokens(props: Seq<(Seq<char>, Seq<char>)>)
    ensures
        spec_render(prop_tokens_all(props)) == prop_text_all(props),
    decreases props.len(),
{
    if props.len() == 0 {
        assert(prop_tokens_all(props) == Seq::<TokenView>::empty());
        assert(spec_render(Seq::<TokenView>::empty()) == Seq::<char>::empty());
    } else {
        lemma_render_prop_tokens(props.drop_last());
        lemma_render_concat(prop_tokens_all(props.drop_last()), prop_pair_tokens(props.last()));
        lemma_render_prop_pair(props.last());
    }
}

/// The end sets hold exactly the space and, where applicable, the equals
/// sign.
proof fn lemma_ends_members(x: Expectation)
    ensures
        forall|c: char| #[trigger] ends_of(x).contains(c) ==> c == ' ' || c == '=',
        ends_of(x).contains(' '),
{
    let e = ends_of(x);
    assert(e[0] == ' ');
    assert forall|c: char| #[trigger] e.contains(c) implies c == ' ' || c == '=' by {
        let idx = choose|idx: int| 0 <= idx < e.len() && e[idx] == c;
        if e.len() == 1 {
            assert(c == ' ');
        } else {
            assert(idx == 0 || idx == 1);
        }
    }
}

/// Running the machine over one rendered data field emits its two tokens.
proof fn lemma_lex_data_pair(input: Seq<char>, i: int, st: LexSt, d: (Seq<char>, Seq<char>))
    requires
        0 <= i,
        i + data_pair_text(d).len() <= input.len(),
        input.subrange(i, i + data_pair_text(d).len()) == data_pair_text(d),
        st.expect == Expectation::ElementDataName,
        st.buf is None,
        !st.in_quote,
        !st.completed,
        name_atom(d.0),
        value_atom(d.1),
    ensures
        lex_from(input, i, st) == lex_from(
            input,
            i + data_pair_text(d).len(),
            LexSt {
                tokens: st.tokens + data_pair_tokens(d),
                buf: None,
                in_quote: false,
                completed: false,
                expect: Expectation::ElementDataName,
            },
        ),
{
    let w = data_pair_text(d);
    let k0 = d.0.len() as int;
    let v = d.1;
    let vlen = v.len() as int;
    assert forall|m: int| 0 <= m < w.len() implies input[i + m] == w[m] by {
        assert(input.subrange(i, i + w.len() as int)[m] == w[m]);
    }
    assert(w.len() == k0 + vlen + 2);
    // the name characters
    assert forall|m: int| i <= m < i + k0 implies input[m] == d.0[m - i] by {
        assert(w[m - i] == d.0[m - i]);
    }
    lemma_ends_members(Expectation::ElementDataName);
    assert forall|m: int| i <= m < i + k0 implies run_char(
        input[m],
        Expectation::ElementDataName,
    ) by {
        assert(atom_char(d.0[m - i]));
    }
    lemma_lex_accum(input, i, i + k0, st);
    assert(input.subrange(i, i + k0) =~= d.0);
    assert(buf_after(st.buf, d.0) == Some(d.0)) by {
        assert(buf_content(st.buf) + d.0 =~= d.0);
    }
    let st1 = LexSt { buf: Some(d.0), ..st };
    // the separator flushes the name
    assert(input[i + k0] == w[k0]);
    assert(w[k0] == '=');
    assert(!is_lex_space(d.0[0]) && !is_lex_space(d.0[k0 - 1]));
    lemma_lex_flush_data_name(input, i + k0, st1, d.0);
    let st2 = LexSt {
        tokens: st.tokens.push(TokenView::ElementDataName(Some(d.0))),
        buf: None,
        in_quote: false,
        completed: false,
        expect: Expectation::ElementDataValue,
    };
    // the value characters
    assert forall|m: int| i + k0 + 1 <= m < i + k0 + 1 + vlen implies input[m] == v[m - i - k0
        - 1] by {
        assert(w[m - i] == v[m - i - k0 - 1]);
    }
    assert(input.subrange(i + k0 + 1, i + k0 + 1 + vlen) =~= v);
    if plain_value(v) {
        lemma_ends_members(Expectation::ElementDataValue);
        assert forall|m: int| i + k0 + 1 <= m < i + k0 + 1 + vlen implies run_char(
            input[m],
            Expectation::ElementDataValue,
        ) by {
            assert(value_char(v[m - i - k0 - 1]));
        }
        lemma_lex_accum(input, i + k0 + 1, i + k0 + 1 + vlen, st2);
        assert(buf_after(st2.buf, input.subrange(i + k0 + 1, i + k0 + 1 + vlen)) == Some(v)) by {
            assert(buf_content(st2.buf) + v =~= v);
        }
    } else {
        lemma_lex_quoted_value(input, i + k0 + 1, st2, v);
    }
    let st3 = LexSt { buf: Some(v), in_quote: false, completed: false, ..st2 };
    // the trailing space flushes the value
    assert(input[i + k0 + 1 + vlen] == w[k0 + 1 + vlen]);
    assert(w[k0 + 1 + vlen] == ' ');
    assert(!is_lex_space(v[0]) && !is_lex_space(v[vlen - 1]) && v[0] != ' ');
    lemma_lex_flush_data_value(input, i + k0 + 1 + vlen, st3, v);
    assert(st.tokens.push(TokenView::ElementDataName(Some(d.0))).push(
        TokenView::ElementDataValue(Some(v)),
    ) =~= st.tokens + data_pair_tokens(d));
}

/// Running the machine over one rendered property line emits its three
/// tokens.
proof fn lemma_lex_prop_pair(input: Seq<char>, i: int, st: LexSt, p: (Seq<char>, Seq<char>))
    requires
        0 <= i,
        i + prop_pair_text(p).len() <= input.len(),
        input.subrange(i, i + prop_pair_text(p).len()) == prop_pair_text(p),
        st.expect == Expectation::PropertyName,
        st.buf is None,
        !st.in_quote,
        !st.completed,
        name_atom(p.0),
        prop_value_ok(p.1),
    ensures
        lex_from(input, i, st) == lex_from(
            input,
            i + prop_pair_text(p).len(),
            LexSt {
                tokens: st.tokens + prop_pair_tokens(p),
                buf: None,
                in_quote: false,
                completed: false,
                expect: Expectation::PropertyName,
            },
        ),
{
    let w = prop_pair_text(p);
    let k0 = p.0.len() as int;
    let v = p.1;
    let vlen = v.len() as int;
    assert forall|m: int| 0 <= m < w.len() implies input[i + m] == w[m] by {
        assert(input.subrange(i, i + w.len() as int)[m] == w[m]);
    }
    assert(w.len() == k0 + vlen + 4);
    // the name characters
    assert forall|m: int| i <= m < i + k0 implies input[m] == p.0[m - i] by {
        assert(w[m - i] == p.0[m - i]);
    }
    lemma_ends_members(Expectation::PropertyName);
    assert forall|m: int| i <= m < i + k0 implies run_char(input[m], Expectation::PropertyName) by {
        assert(atom_char(p.0[m - i]));
    }
    lemma_lex_accum(input, i, i + k0, st);
    assert(input.subrange(i, i + k0) =~= p.0);
    assert(buf_after(st.buf, p.0) == Some(p.0)) by {
        assert(buf_content(st.buf) + p.0 =~= p.0);
    }
    let st1 = LexSt { buf: Some(p.0), ..st };
    // the space completes the name; the next character is the separator
    assert(input[i + k0] == w[k0]);
    assert(w[k0] == ' ');
    assert(input[i + k0 + 1] == w[k0 + 1]);
    assert(w[k0 + 1] == '=');
    assert(!is_lex_space(p.0[0]) && !is_lex_space(p.0[k0 - 1]));
    lemma_lex_flush_prop_name(input, i + k0, st1, p.0);
    let st2 = LexSt {
        tokens: st.tokens.push(TokenView::PropertyName(Some(p.0))),
        buf: None,
        in_quote: false,
        completed: false,
        expect: Expectation::PendingPropertyValue,
    };
    // the separator is jumped over
    lemma_lex_pending(input, i + k0 + 1, st2);
    let st3 = LexSt { expect: Expectation::PropertyValue, ..st2 };
    // the second space starts the verbatim capture of the value
    assert(input[i + k0 + 2] == w[k0 + 2]);
    assert(w[k0 + 2] == ' ');
    assert forall|m: int| 0 <= m < vlen implies input[i + k0 + 3 + m] == v[m] by {
        assert(w[k0 + 3 + m] == v[m]);
    }
    assert(input.subrange(i + k0 + 3, i + k0 + 3 + vlen) =~= v);
    assert(input[i + k0 + 3 + vlen] == w[k0 + 3 + vlen]);
    assert(w[k0 + 3 + vlen] == '\n');
    lemma_lex_prop_value(input, i + k0 + 2, st3, v);
    assert(st.tokens.push(TokenView::PropertyName(Some(p.0))).push(
        TokenView::PropertyValue(Some(v)),
    ).push(TokenView::NewLine) =~= st.tokens + prop_pair_tokens(p));
    assert(i + k0 + 2 + vlen + 2 == i + w.len());
}

/// A window of the input seen through a sub-window.
proof fn lemma_subwindow<T>(input: Seq<T>, i: int, w: Seq<T>, a: int, b: int)
    requires
        0 <= i,
        i + w.len() <= input.len(),
        input.subrange(i, i + w.len() as int) == w,
        0 <= a <= b <= w.len(),
    ensures
        input.subrange(i + a, i + b) == w.subrange(a, b),
        forall|m: int| 0 <= m < w.len() ==> input[i + m] == w[m],
{
    assert forall|m: int| 0 <= m < w.len() implies input[i + m] == w[m] by {
        assert(input.subrange(i, i + w.len() as int)[m] == w[m]);
    }
    assert(input.subrange(i + a, i + b) =~= w.subrange(a, b));
}

proof fn lemma_data_tokens_concat(a: Seq<(Seq<char>, Seq<char>)>, b: Seq<(Seq<char>, Seq<char>)>)
    ensures
        data_tokens_all(a + b) == data_tokens_all(a) + data_tokens_all(b),
        data_text_all(a + b) == data_text_all(a) + data_text_all(b),
    decreases b.len(),
{
    if b.len() == 0 {
        assert(a + b =~= a);
        assert(data_tokens_all(a) + data_tokens_all(b) =~= data_tokens_all(a));
        assert(data_text_all(a) + data_text_all(b) =~= data_text_all(a));
    } else {
        assert((a + b).drop_last() =~= a + b.drop_last());
        assert((a + b).last() == b.last());
        lemma_data_tokens_concat(a, b.drop_last());
        assert(data_tokens_all(a) + data_tokens_all(b.drop_last()) + data_pair_tokens(b.last())
            =~= data_tokens_all(a) + data_tokens_all(b));
        assert(data_text_all(a) + data_text_all(b.drop_last()) + data_pair_text(b.last())
            =~= data_text_all(a) + data_text_all(b));
    }
}

proof fn lemma_prop_tokens_concat(a: Seq<(Seq<char>, Seq<char>)>, b: Seq<(Seq<char>, Seq<char>)>)
    ensures
        prop_tokens_all(a + b) == prop_tokens_all(a) + prop_tokens_all(b),
        prop_text_all(a + b) == prop_text_all(a) + prop_text_all(b),
    decreases b.len(),
{
    if b.len() == 0 {
        assert(a + b =~= a);
        assert(prop_tokens_all(a) + prop_tokens_all(b) =~= prop_tokens_all(a));
        assert(prop_text_all(a) + prop_text_all(b) =~= prop_text_all(a));
    } else {
        assert((a + b).drop_last() =~= a + b.drop_last());
        assert((a + b).last() == b.last());
        lemma_prop_tokens_concat(a, b.drop_last());
        assert(prop_tokens_all(a) + prop_tokens_all(b.drop_last()) + prop_pair_tokens(b.last())
            =~= prop_tokens_all(a) + prop_tokens_all(b));
        assert(prop_text_all(a) + prop_text_all(b.drop_last()) + prop_pair_text(b.last())
            =~= prop_text_all(a) + prop_text_all(b));
    }
}

/// Running the machine over a whole rendered data-field list emits its
/// token pairs in order.
proof fn lemma_lex_data_list(input: Seq<char>, i: int, st: LexSt, data: Seq<(Seq<char>, Seq<char>)>)
    requires
        0 <= i,
        i + data_text_all(data).len() <= input.len(),
        input.subrange(i, i + data_text_all(data).len() as int) == data_text_all(data),
        st.expect == Expectation::ElementDataName,
        st.buf is None,
        !st.in_quote,
        !st.completed,
        forall|m: int| 0 <= m < data.len() ==> name_atom(data[m].0) && value_atom(data[m].1),
    ensures
        lex_from(input, i, st) == lex_from(
            input,
            i + data_text_all(data).len(),
            LexSt {
                tokens: st.tokens + data_tokens_all(data),
                buf: None,
                in_quote: false,
                completed: false,
                expect: Expectation::ElementDataName,
            },
        ),
    decreases data.len(),
{
    if data.len() == 0 {
        assert(st.tokens + data_tokens_all(data) =~= st.tokens);
        assert(LexSt {
            tokens: st.tokens,
            buf: None,
            in_quote: false,
            completed: false,
            expect: Expectation::ElementDataName,
        } == st);
    } else {
        let d0 = data[0];
        let rest = data.drop_first();
        assert(data =~= seq![d0] + rest);
        lemma_data_tokens_concat(seq![d0], rest);
        assert(seq![d0].drop_last() =~= Seq::<(Seq<char>, Seq<char>)>::empty());
        assert(data_tokens_all(seq![d0]) =~= data_pair_tokens(d0)) by {
            assert(data_tokens_all(Seq::<(Seq<char>, Seq<char>)>::empty())
                == Seq::<TokenView>::empty());
            assert(Seq::<TokenView>::empty() + data_pair_tokens(d0) =~= data_pair_tokens(d0));
        }
        assert(data_text_all(seq![d0]) =~= data_pair_text(d0)) by {
            assert(data_text_all(Seq::<(Seq<char>, Seq<char>)>::empty()) == Seq::<char>::empty());
            assert(Seq::<char>::empty() + data_pair_text(d0) =~= data_pair_text(d0));
        }
        let w = data_text_all(data);
        let w0 = data_pair_text(d0);
        let w1 = data_text_all(rest);
        assert(w == w0 + w1);
        lemma_subwindow(input, i, w, 0, w0.len() as int);
        assert(w.subrange(0, w0.len() as int) =~= w0);
        lemma_lex_data_pair(input, i, st, d0);
        let st1 = LexSt {
            tokens: st.tokens + data_pair_tokens(d0),
            buf: None,
            in_quote: false,
            completed: false,
            expect: Expectation::ElementDataName,
        };
        lemma_subwindow(input, i, w, w0.len() as int, w.len() as int);
        assert(w.subrange(w0.len() as int, w.len() as int) =~= w1);
        lemma_lex_data_list(input, i + w0.len(), st1, rest);
        assert(st.tokens + data_pair_tokens(d0) + data_tokens_all(rest) =~= st.tokens
            + data_tokens_all(data));
    }
}

/// Running the machine over a whole rendered property-line list emits its
/// token triples in order.
proof fn lemma_lex_prop_list(input: Seq<char>, i: int, st: LexSt, props: Seq<(Seq<char>, Seq<char>)>)
    requires
        0 <= i,
        i + prop_text_all(props).len() <= input.len(),
        input.subrange(i, i + prop_text_all(props).len() as int) == prop_text_all(props),
        st.expect == Expectation::PropertyName,
        st.buf is None,
        !st.in_quote,
        !st.completed,
        forall|m: int| 0 <= m < props.len() ==> name_atom(props[m].0) && prop_value_ok(props[m].1),
    ensures
        lex_from(input, i, st) == lex_from(
            input,
            i + prop_text_all(props).len(),
            LexSt {
                tokens: st.tokens + prop_tokens_all(props),
                buf: None,
                in_quote: false,
                completed: false,
                expect: Expectation::PropertyName,
            },
        ),
    decreases props.len(),
{
    if props.len() == 0 {
        assert(st.tokens + prop_tokens_all(props) =~= st.tokens);
        assert(LexSt {
            tokens: st.tokens,
            buf: None,
            in_quote: false,
            completed: false,
            expect: Expectation::PropertyName,
        } == st);
    } else {
        let p0 = props[0];
        let rest = props.drop_first();
        assert(props =~= seq![p0] + rest);
        lemma_prop_tokens_concat(seq![p0], rest);
        assert(seq![p0].drop_last() =~= Seq::<(Seq<char>, Seq<char>)>::empty());
        assert(prop_tokens_all(seq![p0]) =~= prop_pair_tokens(p0)) by {
            assert(prop_tokens_all(Seq::<(Seq<char>, Seq<char>)>::empty())
                == Seq::<TokenView>::empty());
            assert(Seq::<TokenView>::empty() + prop_pair_tokens(p0) =~= prop_pair_tokens(p0));
        }
        assert(prop_text_all(seq![p0]) =~= prop_pair_text(p0)) by {
            assert(prop_text_all(Seq::<(Seq<char>, Seq<char>)>::empty()) == Seq::<char>::empty());
            assert(Seq::<char>::empty() + prop_pair_text(p0) =~= prop_pair_text(p0));
        }
        let w = prop_text_all(props);
        let w0 = prop_pair_text(p0);
        let w1 = prop_text_all(rest);
        assert(w == w0 + w1);
        lemma_subwindow(input, i, w, 0, w0.len() as int);
        assert(w.subrange(0, w0.len() as int) =~= w0);
        lemma_lex_prop_pair(input, i, st, p0);
        let st1 = LexSt {
            tokens: st.tokens + prop_pair_tokens(p0),
            buf: None,
            in_quote: false,
            completed: false,
            expect: Expectation::PropertyName,
        };
        lemma_subwindow(input, i, w, w0.len() as int, w.len() as int);
        assert(w.subrange(w0.len() as int, w.len() as int) =~= w1);
        lemma_lex_prop_list(input, i + w0.len(), st1, rest);
        assert(st.tokens + prop_pair_tokens(p0) + prop_tokens_all(rest) =~= st.tokens
            + prop_tokens_all(props));
    }
}

/// The text one element contributes, laid out piece by piece.
pub open spec fn elem_text_parts(e: ElementView) -> Seq<char> {
    seq!['['] + e.name + seq![' '] + data_text_all(e.data) + seq![']'] + seq!['\n'] + (
    if e.props.len() > 0 {
        prop_text_all(e.props) + seq!['\n']
    } else {
        Seq::<char>::empty()
    })
}

/// The rendered canonical tokens of an element are its pieces in order.
proof fn lemma_elem_text_parts(e: ElementView)
    ensures
        spec_render(canonical_tokens(e.name, e.data, e.props)) == elem_text_parts(e),
{
    let a_toks = seq![TokenView::BracketLeft, TokenView::ElementName(Some(e.name))];
    let b_toks = seq![TokenView::BracketRight, TokenView::NewLine];
    let ptail = if e.props.len() > 0 {
        prop_tokens_all(e.props) + seq![TokenView::NewLine]
    } else {
        Seq::<TokenView>::empty()
    };
    let ct = canonical_tokens(e.name, e.data, e.props);
    assert(ct == a_toks + data_tokens_all(e.data) + b_toks + ptail);
    lemma_render_concat(a_toks + data_tokens_all(e.data) + b_toks, ptail);
    lemma_render_concat(a_toks + data_tokens_all(e.data), b_toks);
    lemma_render_concat(a_toks, data_tokens_all(e.data));
    assert(spec_render(a_toks) =~= seq!['['] + e.name + seq![' ']) by {
        assert(a_toks.drop_first() =~= seq![TokenView::ElementName(Some(e.name))]);
        assert(a_toks.drop_first().drop_first() =~= Seq::<TokenView>::empty());
        assert(spec_render(Seq::<TokenView>::empty()) == Seq::<char>::empty());
        assert(spec_render(a_toks.drop_first()) == e.name + seq![' '] + Seq::<char>::empty());
        assert(spec_render(a_toks) == seq!['['] + Seq::<char>::empty() + (e.name + seq![' ']
            + Seq::<char>::empty()));
    }
    assert(spec_render(b_toks) =~= seq![']'] + seq!['\n']) by {
        assert(b_toks.drop_first() =~= seq![TokenView::NewLine]);
        assert(b_toks.drop_first().drop_first() =~= Seq::<TokenView>::empty());
        assert(spec_render(Seq::<TokenView>::empty()) == Seq::<char>::empty());
        assert(spec_render(b_toks.drop_first()) == seq!['\n'] + Seq::<char>::empty()
            + Seq::<char>::empty());
        assert(spec_render(b_toks) == seq![']'] + Seq::<char>::empty() + (seq!['\n']
            + Seq::<char>::empty() + Seq::<char>::empty()));
    }
    lemma_render_data_tokens(e.data);
    if e.props.len() > 0 {
        lemma_render_concat(prop_tokens_all(e.props), seq![TokenView::NewLine]);
        lemma_render_prop_tokens(e.props);
        assert(spec_render(seq![TokenView::NewLine]) =~= seq!['\n']) by {
            assert(seq![TokenView::NewLine].drop_first() =~= Seq::<TokenView>::empty());
            assert(spec_render(Seq::<TokenView>::empty()) == Seq::<char>::empty());
        }
    } else {
        assert(spec_render(ptail) == Seq::<char>::empty());
    }
    assert(spec_render(ct) =~= elem_text_parts(e));
}

/// A non-empty property token list ends on the line break of its last
/// line.
proof fn lemma_prop_tokens_last(props: Seq<(Seq<char>, Seq<char>)>)
    requires
        props.len() > 0,
    ensures
        prop_tokens_all(props).len() > 0,
        prop_tokens_all(props).last() == TokenView::NewLine,
{
    assert(prop_tokens_all(props) == prop_tokens_all(props.drop_last()) + prop_pair_tokens(
        props.last(),
    ));
}

/// Running the machine over one whole rendered element emits exactly its
/// canonical tokens and leaves the machine ready for the next element.
#[verifier::rlimit(100)]
#[verifier::spinoff_prover]
proof fn lemma_lex_element(input: Seq<char>, i: int, st: LexSt, e: ElementView)
    requires
        element_wf(e),
        st.expect == Expectation::Free || st.expect == Expectation::PropertyName,
        st.buf is None,
        !st.in_quote,
        !st.completed,
        0 <= i,
        i + elem_text(e).len() <= input.len(),
        input.subrange(i, i + elem_text(e).len() as int) == elem_text(e),
    ensures
        lex_from(input, i, st) == lex_from(
            input,
            i + elem_text(e).len(),
            LexSt {
                tokens: st.tokens + canonical_tokens(e.name, e.data, e.props),
                buf: None,
                in_quote: false,
                completed: false,
                expect: Expectation::PropertyName,
            },
        ),
{
    lemma_elem_text_parts(e);
    let w = elem_text(e);
    let n0 = e.name.len() as int;
    let dtxt = data_text_all(e.data);
    let dlen = dtxt.len() as int;
    let ptxt = if e.props.len() > 0 {
        prop_text_all(e.props) + seq!['\n']
    } else {
        Seq::<char>::empty()
    };
    assert(w == seq!['['] + e.name + seq![' '] + dtxt + seq![']'] + seq!['\n'] + ptxt);
    assert(w.len() == n0 + dlen + 4 + ptxt.len());
    lemma_subwindow(input, i, w, 0, w.len() as int);
    // the opening bracket
    assert(w[0] == '[');
    lemma_lex_open_bracket(input, i, st);
    let st1 = LexSt {
        tokens: st.tokens.push(TokenView::BracketLeft),
        in_quote: false,
        expect: Expectation::ElementName,
        ..st
    };
    // the element name
    assert forall|m: int| i + 1 <= m < i + 1 + n0 implies run_char(
        input[m],
        Expectation::ElementName,
    ) by {
        assert(w[m - i] == e.name[m - i - 1]);
        assert(atom_char(e.name[m - i - 1]));
        lemma_ends_members(Expectation::ElementName);
    }
    lemma_lex_accum(input, i + 1, i + 1 + n0, st1);
    assert(input.subrange(i + 1, i + 1 + n0) =~= e.name) by {
        assert forall|m: int| 0 <= m < n0 implies input.subrange(i + 1, i + 1 + n0)[m]
            == e.name[m] by {
            assert(input[i + 1 + m] == w[1 + m]);
            assert(w[1 + m] == e.name[m]);
        }
    }
    assert(buf_after(st1.buf, e.name) == Some(e.name)) by {
        assert(buf_content(st1.buf) + e.name =~= e.name);
    }
    let st2 = LexSt { buf: Some(e.name), ..st1 };
    // the space flushes the name
    assert(input[i + 1 + n0] == w[1 + n0]);
    assert(w[1 + n0] == ' ');
    assert(!is_lex_space(e.name[0]) && !is_lex_space(e.name[n0 - 1]));
    lemma_lex_flush_element_name(input, i + 1 + n0, st2, e.name);
    let toks1 = st.tokens.push(TokenView::BracketLeft).push(TokenView::ElementName(Some(e.name)));
    let st3 = LexSt {
        tokens: toks1,
        buf: None,
        in_quote: false,
        completed: false,
        expect: Expectation::ElementDataName,
    };
    // the data fields
    assert(input.subrange(i + 2 + n0, i + 2 + n0 + dlen) =~= dtxt) by {
        assert forall|m: int| 0 <= m < dlen implies input.subrange(i + 2 + n0, i + 2 + n0 + dlen)[m]
            == dtxt[m] by {
            assert(input[i + 2 + n0 + m] == w[2 + n0 + m]);
            assert(w[2 + n0 + m] == dtxt[m]);
        }
    }
    lemma_lex_data_list(input, i + 2 + n0, st3, e.data);
    let toks2 = toks1 + data_tokens_all(e.data);
    let st4 = LexSt {
        tokens: toks2,
        buf: None,
        in_quote: false,
        completed: false,
        expect: Expectation::ElementDataName,
    };
    // the closing bracket
    assert(input[i + 2 + n0 + dlen] == w[2 + n0 + dlen]);
    assert(w[2 + n0 + dlen] == ']');
    lemma_lex_close_bracket(input, i + 2 + n0 + dlen, st4);
    let toks3 = toks2.push(TokenView::BracketRight);
    let st5 = LexSt { tokens: toks3, ..st4 };
    // the line break after the bracket readies the properties
    assert(input[i + 3 + n0 + dlen] == w[3 + n0 + dlen]);
    assert(w[3 + n0 + dlen] == '\n');
    assert(toks3.last() == TokenView::BracketRight);
    lemma_lex_newline_after_bracket(input, i + 3 + n0 + dlen, st5);
    let toks4 = toks3.push(TokenView::NewLine);
    let st6 = LexSt {
        tokens: toks4,
        buf: None,
        in_quote: false,
        completed: false,
        expect: Expectation::PropertyName,
    };
    if e.props.len() > 0 {
        let ptl = prop_text_all(e.props).len() as int;
        assert(input.subrange(i + 4 + n0 + dlen, i + 4 + n0 + dlen + ptl) =~= prop_text_all(
            e.props,
        )) by {
            assert forall|m: int| 0 <= m < ptl implies input.subrange(
                i + 4 + n0 + dlen,
                i + 4 + n0 + dlen + ptl,
            )[m] == prop_text_all(e.props)[m] by {
                assert(input[i + 4 + n0 + dlen + m] == w[4 + n0 + dlen + m]);
                assert(w[4 + n0 + dlen + m] == ptxt[m]);
                assert(ptxt[m] == prop_text_all(e.props)[m]);
            }
        }
        lemma_lex_prop_list(input, i + 4 + n0 + dlen, st6, e.props);
        let toks5 = toks4 + prop_tokens_all(e.props);
        let st7 = LexSt {
            tokens: toks5,
            buf: None,
            in_quote: false,
            completed: false,
            expect: Expectation::PropertyName,
        };
        // the blank line terminates the property run
        assert(input[i + 4 + n0 + dlen + ptl] == w[4 + n0 + dlen + ptl]);
        assert(ptxt[ptl] == '\n');
        assert(w[4 + n0 + dlen + ptl] == '\n');
        lemma_prop_tokens_last(e.props);
        assert(toks5.last() == TokenView::NewLine);
        lemma_lex_newline_plain(input, i + 4 + n0 + dlen + ptl, st7);
        assert(toks5.push(TokenView::NewLine) =~= st.tokens + canonical_tokens(
            e.name,
            e.data,
            e.props,
        ));
        assert(i + 4 + n0 + dlen + ptl + 1 == i + w.len());
    } else {
        assert(toks4 =~= st.tokens + canonical_tokens(e.name, e.data, e.props));
        assert(i + 4 + n0 + dlen == i + w.len());
    }
}

/// The text of a whole canonical document, element by element.
pub open spec fn scene_text(elems: Seq<ElementView>) -> Seq<char> {
    spec_render(scene_tokens(elems))
}

/// Running the machine over a whole rendered document emits exactly the
/// canonical tokens of all its elements.
proof fn lemma_lex_scene(input: Seq<char>, i: int, st: LexSt, elems: Seq<ElementView>)
    requires
        forall|m: int| 0 <= m < elems.len() ==> element_wf(elems[m]),
        st.expect == Expectation::Free || st.expect == Expectation::PropertyName,
        st.buf is None,
        !st.in_quote,
        !st.completed,
        0 <= i,
        i + scene_text(elems).len() <= input.len(),
        input.subrange(i, i + scene_text(elems).len() as int) == scene_text(elems),
    ensures
        lex_from(input, i, st) == lex_from(
            input,
            i + scene_text(elems).len(),
            LexSt {
                tokens: st.tokens + scene_tokens(elems),
                buf: None,
                in_quote: false,
                completed: false,
                expect: if elems.len() > 0 {
                    Expectation::PropertyName
                } else {
                    st.expect
                },
            },
        ),
    decreases elems.len(),
{
    if elems.len() == 0 {
        assert(scene_tokens(elems) == Seq::<TokenView>::empty());
        assert(spec_render(Seq::<TokenView>::empty()) == Seq::<char>::empty());
        assert(st.tokens + scene_tokens(elems) =~= st.tokens);
        assert(LexSt {
            tokens: st.tokens,
            buf: None,
            in_quote: false,
            completed: false,
            expect: st.expect,
        } == st);
    } else {
        let e0 = elems[0];
        let rest = elems.drop_first();
        assert(elems =~= seq![e0] + rest);
        lemma_scene_tokens_concat(seq![e0], rest);
        assert(seq![e0].drop_last() =~= Seq::<ElementView>::empty());
        assert(scene_tokens(seq![e0]) =~= canonical_tokens(e0.name, e0.data, e0.props)) by {
            assert(scene_tokens(Seq::<ElementView>::empty()) == Seq::<TokenView>::empty());
            assert(Seq::<TokenView>::empty() + canonical_tokens(e0.name, e0.data, e0.props)
                =~= canonical_tokens(e0.name, e0.data, e0.props));
        }
        lemma_render_concat(scene_tokens(seq![e0]), scene_tokens(rest));
        let w = scene_text(elems);
        let w0 = elem_text(e0);
        let w1 = scene_text(rest);
        assert(w == w0 + w1);
        lemma_subwindow(input, i, w, 0, w0.len() as int);
        assert(w.subrange(0, w0.len() as int) =~= w0);
        lemma_lex_element(input, i, st, e0);
        let st1 = LexSt {
            tokens: st.tokens + canonical_tokens(e0.name, e0.data, e0.props),
            buf: None,
            in_quote: false,
            completed: false,
            expect: Expectation::PropertyName,
        };
        lemma_subwindow(input, i, w, w0.len() as int, w.len() as int);
        assert(w.subrange(w0.len() as int, w.len() as int) =~= w1);
        lemma_lex_scene(input, i + w0.len(), st1, rest);
        assert(st.tokens + canonical_tokens(e0.name, e0.data, e0.props) + scene_tokens(rest)
            =~= st.tokens + scene_tokens(elems));
    }
}

/// Round trip: the canonical rendering of any sequence of well-formed
/// elements tokenizes back to exactly the canonical token sequence it was
/// rendered from — so re-rendering the parsed tokens reproduces the
/// document byte for byte.
pub proof fn lemma_round_trip(elems: Seq<ElementView>)
    requires
        forall|m: int| 0 <= m < elems.len() ==> element_wf(elems[m]),
    ensures
        spec_tokenize(scene_text(elems)) == Ok::<_, TokenizerError>(scene_tokens(elems)),
        spec_render(scene_tokens(elems)) == scene_text(elems),
{
    let doc = scene_text(elems);
    assert(doc.subrange(0, doc.len() as int) =~= doc);
    lemma_lex_scene(doc, 0, init_lex_st(), elems);
    let fin = LexSt {
        tokens: init_lex_st().tokens + scene_tokens(elems),
        buf: None,
        in_quote: false,
        completed: false,
        expect: if elems.len() > 0 {
            Expectation::PropertyName
        } else {
            init_lex_st().expect
        },
    };
    assert(lex_from(doc, doc.len() as int, fin) == Ok::<_, TokenizerError>(fin.tokens));
    assert(fin.tokens =~= scene_tokens(elems));
}

/// One accepted assembly step folds into the run.
proof fn lemma_asm_unfold(
    tokens: Seq<TokenView>,
    j: int,
    st: crate::tokenizer::AsmSt,
    st2: crate::tokenizer::AsmSt,
)
    requires
        0 <= j < tokens.len(),
        crate::tokenizer::asm_step(tokens[j], st) == Ok::<_, TokenizerError>(st2),
    ensures
        crate::tokenizer::asm_from(tokens, j, st) == crate::tokenizer::asm_from(tokens, j + 1, st2),
{
}

/// The element the assembly pass builds for a record: the given fields,
/// the kind re-derived from the name, and the canonical tokens as cache.
pub open spec fn made_element(e: ElementView) -> ElementView {
    ElementView {
        name: e.name,
        kind: crate::element::classify(e.name),
        data: e.data,
        props: e.props,
        tokens: canonical_tokens(e.name, e.data, e.props),
    }
}

pub open spec fn made_elements(elems: Seq<ElementView>) -> Seq<ElementView> {
    Seq::new(elems.len(), |j: int| made_element(elems[j]))
}

/// The elements already finished once a state's open element is flushed.
pub open spec fn asm_flushed(st: crate::tokenizer::AsmSt) -> Seq<ElementView> {
    if st.opened {
        st.elements.push(st.cur)
    } else {
        st.elements
    }
}

/// Assembling the two tokens of each data field appends the field.
proof fn lemma_asm_data_list(
    tokens: Seq<TokenView>,
    j: int,
    st: crate::tokenizer::AsmSt,
    data: Seq<(Seq<char>, Seq<char>)>,
)
    requires
        0 <= j,
        j + data_tokens_all(data).len() <= tokens.len(),
        tokens.subrange(j, j + data_tokens_all(data).len() as int) == data_tokens_all(data),
    ensures
        crate::tokenizer::asm_from(tokens, j, st) == crate::tokenizer::asm_from(
            tokens,
            j + data_tokens_all(data).len(),
            crate::tokenizer::AsmSt {
                cur: ElementView {
                    data: st.cur.data + data,
                    tokens: st.cur.tokens + data_tokens_all(data),
                    ..st.cur
                },
                ..st
            },
        ),
    decreases data.len(),
{
    if data.len() == 0 {
        assert(st.cur.data + data =~= st.cur.data);
        assert(st.cur.tokens + data_tokens_all(data) =~= st.cur.tokens);
        assert(crate::tokenizer::AsmSt {
            cur: ElementView { data: st.cur.data, tokens: st.cur.tokens, ..st.cur },
            ..st
        } == st);
    } else {
        let d0 = data[0];
        let rest = data.drop_first();
        assert(data =~= seq![d0] + rest);
        lemma_data_tokens_concat(seq![d0], rest);
        assert(seq![d0].drop_last() =~= Seq::<(Seq<char>, Seq<char>)>::empty());
        assert(data_tokens_all(seq![d0]) =~= data_pair_tokens(d0)) by {
            assert(data_tokens_all(Seq::<(Seq<char>, Seq<char>)>::empty())
                == Seq::<TokenView>::empty());
            assert(Seq::<TokenView>::empty() + data_pair_tokens(d0) =~= data_pair_tokens(d0));
        }
        let w = data_tokens_all(data);
        lemma_subwindow(tokens, j, w, 0, w.len() as int);
        assert(tokens[j] == w[0]);
        assert(w[0] == TokenView::ElementDataName(Some(d0.0)));
        assert(tokens[j + 1] == w[1]);
        assert(w[1] == TokenView::ElementDataValue(Some(d0.1)));
        // the name token begins the field
        let st1 = crate::tokenizer::AsmSt {
            cur: ElementView {
                data: st.cur.data.push((d0.0, Seq::<char>::empty())),
                tokens: st.cur.tokens.push(TokenView::ElementDataName(Some(d0.0))),
                ..st.cur
            },
            ..st
        };
        assert(crate::tokenizer::asm_step(tokens[j], st) == Ok::<_, TokenizerError>(st1));
        lemma_asm_unfold(tokens, j, st, st1);
        // the value token fills it
        let filled = st.cur.data.push((d0.0, Seq::<char>::empty())).update(
            st.cur.data.len() as int,
            (d0.0, d0.1),
        );
        assert(filled =~= st.cur.data.push(d0));
        let st2 = crate::tokenizer::AsmSt {
            cur: ElementView {
                data: st.cur.data.push(d0),
                tokens: st.cur.tokens.push(TokenView::ElementDataName(Some(d0.0))).push(
                    TokenView::ElementDataValue(Some(d0.1)),
                ),
                ..st.cur
            },
            ..st
        };
        assert(crate::tokenizer::asm_step(tokens[j + 1], st1) == Ok::<_, TokenizerError>(st2));
        lemma_asm_unfold(tokens, j + 1, st1, st2);
        lemma_subwindow(tokens, j, w, 2, w.len() as int);
        assert(w.subrange(2, w.len() as int) =~= data_tokens_all(rest));
        lemma_asm_data_list(tokens, j + 2, st2, rest);
        assert(st.cur.data.push(d0) + rest =~= st.cur.data + data);
        assert(st.cur.tokens.push(TokenView::ElementDataName(Some(d0.0))).push(
            TokenView::ElementDataValue(Some(d0.1)),
        ) + data_tokens_all(rest) =~= st.cur.tokens + data_tokens_all(data));
    }
}

/// Assembling the three tokens of each property line appends the property.
proof fn lemma_asm_prop_list(
    tokens: Seq<TokenView>,
    j: int,
    st: crate::tokenizer::AsmSt,
    props: Seq<(Seq<char>, Seq<char>)>,
)
    requires
        0 <= j,
        j + prop_tokens_all(props).len() <= tokens.len(),
        tokens.subrange(j, j + prop_tokens_all(props).len() as int) == prop_tokens_all(props),
    ensures
        crate::tokenizer::asm_from(tokens, j, st) == crate::tokenizer::asm_from(
            tokens,
            j + prop_tokens_all(props).len(),
            crate::tokenizer::AsmSt {
                cur: ElementView {
                    props: st.cur.props + props,
                    tokens: st.cur.tokens + prop_tokens_all(props),
                    ..st.cur
                },
                ..st
            },
        ),
    decreases props.len(),
{
    if props.len() == 0 {
        assert(st.cur.props + props =~= st.cur.props);
        assert(st.cur.tokens + prop_tokens_all(props) =~= st.cur.tokens);
        assert(crate::tokenizer::AsmSt {
            cur: ElementView { props: st.cur.props, tokens: st.cur.tokens, ..st.cur },
            ..st
        } == st);
    } else {
        let p0 = props[0];
        let rest = props.drop_first();
        assert(props =~= seq![p0] + rest);
        lemma_prop_tokens_concat(seq![p0], rest);
        assert(seq![p0].drop_last() =~= Seq::<(Seq<char>, Seq<char>)>::empty());
        assert(prop_tokens_all(seq![p0]) =~= prop_pair_tokens(p0)) by {
            assert(prop_tokens_all(Seq::<(Seq<char>, Seq<char>)>::empty())
                == Seq::<TokenView>::empty());
            assert(Seq::<TokenView>::empty() + prop_pair_tokens(p0) =~= prop_pair_tokens(p0));
        }
        let w = prop_tokens_all(props);
        lemma_subwindow(tokens, j, w, 0, w.len() as int);
        assert(tokens[j] == w[0]);
        assert(w[0] == TokenView::PropertyName(Some(p0.0)));
        assert(tokens[j + 1] == w[1]);
        assert(w[1] == TokenView::PropertyValue(Some(p0.1)));
        assert(tokens[j + 2] == w[2]);
        assert(w[2] == TokenView::NewLine);
        let st1 = crate::tokenizer::AsmSt {
            cur: ElementView {
                props: st.cur.props.push((p0.0, Seq::<char>::empty())),
                tokens: st.cur.tokens.push(TokenView::PropertyName(Some(p0.0))),
                ..st.cur
            },
            ..st
        };
        assert(crate::tokenizer::asm_step(tokens[j], st) == Ok::<_, TokenizerError>(st1));
        lemma_asm_unfold(tokens, j, st, st1);
        let filled = st.cur.props.push((p0.0, Seq::<char>::empty())).update(
            st.cur.props.len() as int,
            (p0.0, p0.1),
        );
        assert(filled =~= st.cur.props.push(p0));
        let st2 = crate::tokenizer::AsmSt {
            cur: ElementView {
                props: st.cur.props.push(p0),
                tokens: st.cur.tokens.push(TokenView::PropertyName(Some(p0.0))).push(
                    TokenView::PropertyValue(Some(p0.1)),
                ),
                ..st.cur
            },
            ..st
        };
        assert(crate::tokenizer::asm_step(tokens[j + 1], st1) == Ok::<_, TokenizerError>(st2));
        lemma_asm_unfold(tokens, j + 1, st1, st2);
        let st3 = crate::tokenizer::AsmSt {
            cur: ElementView {
                tokens: st2.cur.tokens.push(TokenView::NewLine),
                ..st2.cur
            },
            ..st2
        };
        assert(crate::tokenizer::asm_step(tokens[j + 2], st2) == Ok::<_, TokenizerError>(st3));
        lemma_asm_unfold(tokens, j + 2, st2, st3);
        lemma_subwindow(tokens, j, w, 3, w.len() as int);
        assert(w.subrange(3, w.len() as int) =~= prop_tokens_all(rest));
        lemma_asm_prop_list(tokens, j + 3, st3, rest);
        assert(st.cur.props.push(p0) + rest =~= st.cur.props + props);
        assert(st3.cur.tokens + prop_tokens_all(rest) =~= st.cur.tokens + prop_tokens_all(props));
    }
}

/// Assembling one element's canonical tokens finalizes the element open
/// before it and accumulates exactly the made element.
proof fn lemma_asm_element(
    tokens: Seq<TokenView>,
    j: int,
    st: crate::tokenizer::AsmSt,
    e: ElementView,
)
    requires
        0 <= j,
        j + canonical_tokens(e.name, e.data, e.props).len() <= tokens.len(),
        tokens.subrange(j, j + canonical_tokens(e.name, e.data, e.props).len() as int)
            == canonical_tokens(e.name, e.data, e.props),
        st.opened || st.cur == crate::element::empty_element_view(),
    ensures
        crate::tokenizer::asm_from(tokens, j, st) == crate::tokenizer::asm_from(
            tokens,
            j + canonical_tokens(e.name, e.data, e.props).len(),
            crate::tokenizer::AsmSt {
                elements: asm_flushed(st),
                cur: made_element(e),
                opened: true,
            },
        ),
{
    let w = canonical_tokens(e.name, e.data, e.props);
    let dts = data_tokens_all(e.data);
    let dlen = dts.len() as int;
    let ptail = if e.props.len() > 0 {
        prop_tokens_all(e.props) + seq![TokenView::NewLine]
    } else {
        Seq::<TokenView>::empty()
    };
    lemma_subwindow(tokens, j, w, 0, w.len() as int);
    assert(w[0] == TokenView::BracketLeft);
    assert(tokens[j] == TokenView::BracketLeft);
    // the opening bracket finalizes any open element and begins this one
    let fresh = ElementView {
        tokens: seq![TokenView::BracketLeft],
        ..crate::element::empty_element_view()
    };
    let st1 = crate::tokenizer::AsmSt { elements: asm_flushed(st), cur: fresh, opened: true };
    assert(crate::tokenizer::asm_step(tokens[j], st) == Ok::<_, TokenizerError>(st1)) by {
        if st.opened {
            assert(crate::element::empty_element_view().tokens.push(TokenView::BracketLeft)
                =~= seq![TokenView::BracketLeft]);
        } else {
            assert(st.cur.tokens.push(TokenView::BracketLeft) =~= seq![TokenView::BracketLeft]);
        }
    }
    lemma_asm_unfold(tokens, j, st, st1);
    // the element name
    assert(w[1] == TokenView::ElementName(Some(e.name)));
    assert(tokens[j + 1] == TokenView::ElementName(Some(e.name)));
    let st2 = crate::tokenizer::AsmSt {
        cur: ElementView {
            name: e.name,
            kind: crate::element::classify(e.name),
            tokens: fresh.tokens.push(TokenView::ElementName(Some(e.name))),
            ..fresh
        },
        ..st1
    };
    assert(crate::tokenizer::asm_step(tokens[j + 1], st1) == Ok::<_, TokenizerError>(st2));
    lemma_asm_unfold(tokens, j + 1, st1, st2);
    // the data fields
    assert(tokens.subrange(j + 2, j + 2 + dlen) =~= dts) by {
        assert forall|m: int| 0 <= m < dlen implies tokens.subrange(j + 2, j + 2 + dlen)[m]
            == dts[m] by {
            assert(tokens[j + 2 + m] == w[2 + m]);
            assert(w[2 + m] == dts[m]);
        }
    }
    lemma_asm_data_list(tokens, j + 2, st2, e.data);
    let st3 = crate::tokenizer::AsmSt {
        cur: ElementView {
            data: st2.cur.data + e.data,
            tokens: st2.cur.tokens + dts,
            ..st2.cur
        },
        ..st2
    };
    assert(st2.cur.data + e.data =~= e.data);
    // the closing bracket and line break
    assert(w[2 + dlen] == TokenView::BracketRight);
    assert(tokens[j + 2 + dlen] == TokenView::BracketRight);
    let st4 = crate::tokenizer::AsmSt {
        cur: ElementView { tokens: st3.cur.tokens.push(TokenView::BracketRight), ..st3.cur },
        ..st3
    };
    assert(crate::tokenizer::asm_step(tokens[j + 2 + dlen], st3) == Ok::<_, TokenizerError>(st4));
    lemma_asm_unfold(tokens, j + 2 + dlen, st3, st4);
    assert(w[3 + dlen] == TokenView::NewLine);
    assert(tokens[j + 3 + dlen] == TokenView::NewLine);
    let st5 = crate::tokenizer::AsmSt {
        cur: ElementView { tokens: st4.cur.tokens.push(TokenView::NewLine), ..st4.cur },
        ..st4
    };
    assert(crate::tokenizer::asm_step(tokens[j + 3 + dlen], st4) == Ok::<_, TokenizerError>(st5));
    lemma_asm_unfold(tokens, j + 3 + dlen, st4, st5);
    if e.props.len() > 0 {
        let pts = prop_tokens_all(e.props);
        let plen = pts.len() as int;
        assert(tokens.subrange(j + 4 + dlen, j + 4 + dlen + plen) =~= pts) by {
            assert forall|m: int| 0 <= m < plen implies tokens.subrange(
                j + 4 + dlen,
                j + 4 + dlen + plen,
            )[m] == pts[m] by {
                assert(tokens[j + 4 + dlen + m] == w[4 + dlen + m]);
                assert(ptail[m] == pts[m]);
                assert(w[4 + dlen + m] == ptail[m]);
            }
        }
        lemma_asm_prop_list(tokens, j + 4 + dlen, st5, e.props);
        let st6 = crate::tokenizer::AsmSt {
            cur: ElementView {
                props: st5.cur.props + e.props,
                tokens: st5.cur.tokens + pts,
                ..st5.cur
            },
            ..st5
        };
        assert(st5.cur.props + e.props =~= e.props);
        assert(w[4 + dlen + plen] == TokenView::NewLine) by {
            assert(ptail[plen] == TokenView::NewLine);
        }
        assert(tokens[j + 4 + dlen + plen] == TokenView::NewLine);
        let st7 = crate::tokenizer::AsmSt {
            cur: ElementView { tokens: st6.cur.tokens.push(TokenView::NewLine), ..st6.cur },
            ..st6
        };
        assert(crate::tokenizer::asm_step(tokens[j + 4 + dlen + plen], st6) == Ok::<
            _,
            TokenizerError,
        >(st7));
        lemma_asm_unfold(tokens, j + 4 + dlen + plen, st6, st7);
        assert(st7.cur.tokens =~= w);
        assert(st7.cur.props =~= e.props);
        assert(st7.cur == made_element(e));
        assert(j + 4 + dlen + plen + 1 == j + w.len());
    } else {
        assert(st5.cur.tokens =~= w);
        assert(st5.cur.props =~= e.props);
        assert(st5.cur == made_element(e));
        assert(j + 4 + dlen == j + w.len());
    }
}

/// Assembling a whole canonical document accumulates the made elements in
/// order, the last one still open.
proof fn lemma_asm_scene(
    tokens: Seq<TokenView>,
    j: int,
    st: crate::tokenizer::AsmSt,
    elems: Seq<ElementView>,
)
    requires
        elems.len() > 0,
        0 <= j,
        j + scene_tokens(elems).len() <= tokens.len(),
        tokens.subrange(j, j + scene_tokens(elems).len() as int) == scene_tokens(elems),
        st.opened || st.cur == crate::element::empty_element_view(),
    ensures
        crate::tokenizer::asm_from(tokens, j, st) == crate::tokenizer::asm_from(
            tokens,
            j + scene_tokens(elems).len(),
            crate::tokenizer::AsmSt {
                elements: asm_flushed(st) + made_elements(elems).drop_last(),
                cur: made_element(elems.last()),
                opened: true,
            },
        ),
    decreases elems.len(),
{
    let e0 = elems[0];
    let rest = elems.drop_first();
    assert(elems =~= seq![e0] + rest);
    lemma_scene_tokens_concat(seq![e0], rest);
    assert(seq![e0].drop_last() =~= Seq::<ElementView>::empty());
    assert(scene_tokens(seq![e0]) =~= canonical_tokens(e0.name, e0.data, e0.props)) by {
        assert(scene_tokens(Seq::<ElementView>::empty()) == Seq::<TokenView>::empty());
        assert(Seq::<TokenView>::empty() + canonical_tokens(e0.name, e0.data, e0.props)
            =~= canonical_tokens(e0.name, e0.data, e0.props));
    }
    let w = scene_tokens(elems);
    let w0 = canonical_tokens(e0.name, e0.data, e0.props);
    let w1 = scene_tokens(rest);
    assert(w == w0 + w1);
    lemma_subwindow(tokens, j, w, 0, w0.len() as int);
    assert(w.subrange(0, w0.len() as int) =~= w0);
    lemma_asm_element(tokens, j, st, e0);
    let st1 = crate::tokenizer::AsmSt {
        elements: asm_flushed(st),
        cur: made_element(e0),
        opened: true,
    };
    if rest.len() == 0 {
        assert(made_elements(elems).drop_last() =~= Seq::<ElementView>::empty());
        assert(asm_flushed(st) + made_elements(elems).drop_last() =~= asm_flushed(st));
        assert(made_elements(elems).len() == 1);
        assert(elems.last() == e0);
    } else {
        lemma_subwindow(tokens, j, w, w0.len() as int, w.len() as int);
        assert(w.subrange(w0.len() as int, w.len() as int) =~= w1);
        lemma_asm_scene(tokens, j + w0.len(), st1, rest);
        assert(asm_flushed(st1) =~= asm_flushed(st).push(made_element(e0)));
        assert(asm_flushed(st).push(made_element(e0)) + made_elements(rest).drop_last()
            =~= asm_flushed(st) + made_elements(elems).drop_last()) by {
            assert forall|m: int|
                0 <= m < made_elements(elems).drop_last().len() implies made_elements(
                elems,
            ).drop_last()[m] == (seq![made_element(e0)] + made_elements(rest).drop_last())[m] by {
                if m > 0 {
                    assert(elems[m] == rest[m - 1]);
                }
            }
            assert(made_elements(elems).drop_last() =~= seq![made_element(e0)] + made_elements(
                rest,
            ).drop_last());
        }
        assert(elems.last() == rest.last());
    }
}

/// Assembly fidelity: the canonical tokens of any element sequence
/// assemble back to elements with the same names, data fields and
/// properties, each kind re-derived from its name and each token cache set
/// to the element's canonical tokens.
pub proof fn lemma_assembly_fidelity(elems: Seq<ElementView>)
    ensures
        crate::tokenizer::spec_elements(scene_tokens(elems)) == Ok::<_, TokenizerError>(
            made_elements(elems),
        ),
{
    let tokens = scene_tokens(elems);
    if elems.len() == 0 {
        assert(tokens == Seq::<TokenView>::empty());
        assert(made_elements(elems) =~= Seq::<ElementView>::empty());
        assert(crate::tokenizer::asm_from(tokens, 0, crate::tokenizer::init_asm_st())
            == Ok::<_, TokenizerError>(Seq::<ElementView>::empty()));
    } else {
        assert(tokens.subrange(0, tokens.len() as int) =~= tokens);
        lemma_asm_scene(tokens, 0, crate::tokenizer::init_asm_st(), elems);
        let fin = crate::tokenizer::AsmSt {
            elements: asm_flushed(crate::tokenizer::init_asm_st()) + made_elements(
                elems,
            ).drop_last(),
            cur: made_element(elems.last()),
            opened: true,
        };
        assert(crate::tokenizer::asm_from(tokens, tokens.len() as int, fin) == Ok::<
            _,
            TokenizerError,
        >(fin.elements.push(fin.cur)));
        assert(fin.elements.push(fin.cur) =~= made_elements(elems)) by {
            assert(asm_flushed(crate::tokenizer::init_asm_st())
                =~= Seq::<ElementView>::empty());
            assert(made_elements(elems).last() == made_element(elems.last()));
        }
    }
}

/// Canonical tokens depend only on names, data fields and properties.
proof fn lemma_scene_tokens_same_fields(a: Seq<ElementView>, b: Seq<ElementView>)
    requires
        a.len() == b.len(),
        forall|m: int|
            0 <= m < a.len() ==> a[m].name == b[m].name && a[m].data == b[m].data && a[m].props
                == b[m].props,
    ensures
        scene_tokens(a) == scene_tokens(b),
    decreases a.len(),
{
    if a.len() > 0 {
        lemma_scene_tokens_same_fields(a.drop_last(), b.drop_last());
    }
}

/// Round trip, end to end: a well-formed canonical document parses whole,
/// replaying its token sequence reproduces it byte for byte, and
/// re-rendering the parsed elements canonically reproduces it byte for
/// byte as well.
pub proof fn lemma_round_trip_text(elems: Seq<ElementView>)
    requires
        forall|m: int| 0 <= m < elems.len() ==> element_wf(elems[m]),
    ensures
        ({
            let doc = scene_text(elems);
            match crate::tokenizer::spec_parse(doc) {
                Ok(r) => r.0 == scene_tokens(elems) && spec_render(r.0) == doc && scene_text(r.1)
                    == doc,
                Err(_) => false,
            }
        }),
{
    let doc = scene_text(elems);
    lemma_round_trip(elems);
    lemma_assembly_fidelity(elems);
    lemma_scene_tokens_same_fields(made_elements(elems), elems);
}

/// The model of a successful `update_data` call: the first data field
/// whose name matches carries the new value, and the token cache is the
/// canonical serialization of the updated fields.
pub open spec fn updated_data_view(e: ElementView, name: Seq<char>, v: Seq<char>) -> ElementView {
    let i = pairs_find(e.data, name);
    let d = e.data.update(i, (e.data[i].0, v));
    ElementView { data: d, tokens: canonical_tokens(e.name, d, e.props), ..e }
}

/// The first match of a name sits where the first match sits: within
/// bounds exactly when some name matches, at a slot whose name matches,
/// with no earlier match.
proof fn lemma_pairs_find_props(pairs: Seq<(Seq<char>, Seq<char>)>, name: Seq<char>)
    ensures
        0 <= pairs_find(pairs, name) <= pairs.len(),
        pairs_find(pairs, name) < pairs.len() ==> pairs[pairs_find(pairs, name)].0 == name,
        forall|m: int| 0 <= m < pairs_find(pairs, name) ==> pairs[m].0 != name,
    decreases pairs.len(),
{
    if pairs.len() == 0 {
    } else if pairs[0].0 == name {
    } else {
        let t = pairs.drop_first();
        lemma_pairs_find_props(t, name);
        assert forall|m: int| 0 <= m < pairs_find(pairs, name) implies pairs[m].0 != name by {
            if m > 0 {
                assert(t[m - 1] == pairs[m]);
            }
        }
    }
}

/// Idempotence: setting a data value a second time, to the same value,
/// leaves the element — token cache included — exactly as one call left
/// it, and the second call succeeds whenever the first did.
pub proof fn lemma_set_value_idempotent(e: ElementView, name: Seq<char>, v: Seq<char>)
    requires
        pairs_find(e.data, name) < e.data.len(),
    ensures
        pairs_find(updated_data_view(e, name, v).data, name) == pairs_find(e.data, name),
        updated_data_view(updated_data_view(e, name, v), name, v) == updated_data_view(e, name, v),
{
    let i = pairs_find(e.data, name);
    let e1 = updated_data_view(e, name, v);
    lemma_pairs_find_props(e.data, name);
    assert(forall|m: int| 0 <= m < i ==> e1.data[m].0 == e.data[m].0);
    assert(e1.data[i].0 == e.data[i].0);
    crate::element::lemma_pairs_find_at(e1.data, name, i);
    assert(e1.data.update(i, (e1.data[i].0, v)) =~= e1.data);
    assert(updated_data_view(e1, name, v).data == e1.data);
    assert(updated_data_view(e1, name, v) == e1);
}

/// `scene_tokens` distributes over concatenation of element sequences.
proof fn lemma_scene_tokens_concat(a: Seq<ElementView>, b: Seq<ElementView>)
    ensures
        scene_tokens(a + b) == scene_tokens(a) + scene_tokens(b),
    decreases b.len(),
{
    if b.len() == 0 {
        assert(a + b =~= a);
        assert(scene_tokens(b) == Seq::<TokenView>::empty());
        assert(scene_tokens(a) + scene_tokens(b) =~= scene_tokens(a));
    } else {
        assert((a + b).drop_last() =~= a + b.drop_last());
        assert((a + b).last() == b.last());
        lemma_scene_tokens_concat(a, b.drop_last());
        assert(scene_tokens(a + b) == scene_tokens(a) + scene_tokens(b.drop_last())
            + canonical_tokens(b.last().name, b.last().data, b.last().props));
        assert(scene_tokens(b) == scene_tokens(b.drop_last()) + canonical_tokens(
            b.last().name,
            b.last().data,
            b.last().props,
        ));
        assert(scene_tokens(a) + scene_tokens(b.drop_last()) + canonical_tokens(
            b.last().name,
            b.last().data,
            b.last().props,
        ) =~= scene_tokens(a) + scene_tokens(b));
    }
}

/// The text one element contributes to a canonical document.
pub open spec fn elem_text(e: ElementView) -> Seq<char> {
    spec_render(canonical_tokens(e.name, e.data, e.props))
}

/// The canonical document text decomposes around any one element: a
/// prefix, that element's own text, and a suffix, where prefix and suffix
/// depend only on the other elements.
pub proof fn lemma_scene_text_decomposition(elems: Seq<ElementView>, i: int)
    requires
        0 <= i < elems.len(),
    ensures
        spec_render(scene_tokens(elems)) == spec_render(scene_tokens(elems.take(i))) + elem_text(
            elems[i],
        ) + spec_render(scene_tokens(elems.skip(i + 1))),
{
    let a = elems.take(i);
    let m = seq![elems[i]];
    let b = elems.skip(i + 1);
    assert(elems =~= a + m + b);
    lemma_scene_tokens_concat(a + m, b);
    lemma_scene_tokens_concat(a, m);
    assert(m.drop_last() =~= Seq::<ElementView>::empty());
    assert(scene_tokens(m.drop_last()) == Seq::<TokenView>::empty());
    assert(Seq::<TokenView>::empty() + canonical_tokens(elems[i].name, elems[i].data, elems[i].props)
        =~= canonical_tokens(elems[i].name, elems[i].data, elems[i].props));
    assert(scene_tokens(m) == canonical_tokens(elems[i].name, elems[i].data, elems[i].props));
    lemma_render_concat(scene_tokens(a + m), scene_tokens(b));
    lemma_render_concat(scene_tokens(a), scene_tokens(m));
    assert(scene_tokens(elems) == scene_tokens(a + m) + scene_tokens(b));
}

/// Canonicalization is per-element: replacing one element of a scene
/// changes only that element's segment of the rendered document; every
/// sibling's segment, and the document around the segment, is unchanged.
pub proof fn lemma_canonicalization_frame(
    elems: Seq<ElementView>,
    elems2: Seq<ElementView>,
    i: int,
)
    requires
        0 <= i < elems.len(),
        elems2.len() == elems.len(),
        forall|j: int| 0 <= j < elems.len() && j != i ==> elems2[j] == elems[j],
    ensures
        spec_render(scene_tokens(elems)) == spec_render(scene_tokens(elems.take(i))) + elem_text(
            elems[i],
        ) + spec_render(scene_tokens(elems.skip(i + 1))),
        spec_render(scene_tokens(elems2)) == spec_render(scene_tokens(elems.take(i))) + elem_text(
            elems2[i],
        ) + spec_render(scene_tokens(elems.skip(i + 1))),
{
    lemma_scene_text_decomposition(elems, i);
    lemma_scene_text_decomposition(elems2, i);
    assert(elems2.take(i) =~= elems.take(i));
    assert(elems2.skip(i + 1) =~= elems.skip(i + 1));
}


/// A token the tokenizer may expose on success: a structural mark or a
/// content-carrying token, never one of the control markers.
pub open spec fn marker_free(t: TokenView) -> bool {
    !(t is Unresolved) && !(t is Invalid) && !(t is SkipTo)
}

/// Any payload a token carries is already trimmed of surrounding
/// whitespace.
pub open spec fn payload_trimmed(t: TokenView) -> bool {
    match t {
        TokenView::ElementName(Some(s)) => spec_trim(s) == s,
        TokenView::ElementDataName(Some(s)) => spec_trim(s) == s,
        TokenView::ElementDataValue(Some(s)) => spec_trim(s) == s,
        TokenView::PropertyName(Some(s)) => spec_trim(s) == s,
        TokenView::PropertyValue(Some(s)) => spec_trim(s) == s,
        _ => true,
    }
}

/// A content-carrying token holds a payload.
pub open spec fn payload_filled(t: TokenView) -> bool {
    match t {
        TokenView::ElementName(o) => o is Some,
        TokenView::ElementDataName(o) => o is Some,
        TokenView::ElementDataValue(o) => o is Some,
        TokenView::PropertyName(o) => o is Some,
        TokenView::PropertyValue(o) => o is Some,
        _ => true,
    }
}

pub open spec fn exposed_token_ok(t: TokenView) -> bool {
    marker_free(t) && payload_trimmed(t)
}

/// Trimming the end of a sequence keeps a prefix of it.
proof fn lemma_trim_end_prefix(s: Seq<char>)
    ensures
        trim_end(s).len() <= s.len(),
        forall|m: int| 0 <= m < trim_end(s).len() ==> trim_end(s)[m] == s[m],
    decreases s.len(),
{
    if s.len() > 0 && is_lex_space(s.last()) {
        lemma_trim_end_prefix(s.drop_last());
        assert forall|m: int| 0 <= m < trim_end(s).len() implies trim_end(s)[m] == s[m] by {
            assert(trim_end(s)[m] == s.drop_last()[m]);
        }
    }
}

/// A start-trimmed sequence does not begin with whitespace.
proof fn lemma_trim_start_head(s: Seq<char>)
    ensures
        trim_start(s).len() == 0 || !is_lex_space(trim_start(s)[0]),
    decreases s.len(),
{
    if s.len() > 0 && is_lex_space(s[0]) {
        lemma_trim_start_head(s.drop_first());
    }
}

/// An end-trimmed sequence does not end with whitespace.
proof fn lemma_trim_end_last(s: Seq<char>)
    ensures
        trim_end(s).len() == 0 || !is_lex_space(trim_end(s).last()),
    decreases s.len(),
{
    if s.len() > 0 && is_lex_space(s.last()) {
        lemma_trim_end_last(s.drop_last());
    }
}

/// Trimming is idempotent.
proof fn lemma_trim_idempotent(s: Seq<char>)
    ensures
        spec_trim(spec_trim(s)) == spec_trim(s),
{
    let t = trim_start(s);
    let u = trim_end(t);
    lemma_trim_start_head(s);
    lemma_trim_end_prefix(t);
    lemma_trim_end_last(t);
    if u.len() == 0 {
        assert(trim_start(u) == u);
        assert(trim_end(u) == u);
    } else {
        assert(u[0] == t[0]);
        lemma_trim_id(u);
    }
}

/// Pushing an acceptable token onto an acceptable stream keeps it so.
proof fn lemma_clean_push(toks: Seq<TokenView>, t: TokenView)
    requires
        forall|j: int| 0 <= j < toks.len() ==> exposed_token_ok(toks[j]),
        exposed_token_ok(t),
    ensures
        forall|j: int| 0 <= j < toks.push(t).len() ==> exposed_token_ok(toks.push(t)[j]),
{
    assert forall|j: int| 0 <= j < toks.push(t).len() implies exposed_token_ok(
        toks.push(t)[j],
    ) by {
        if j < toks.len() {
            assert(toks.push(t)[j] == toks[j]);
        } else {
            assert(toks.push(t)[j] == t);
        }
    }
}

/// A trimmed optional payload satisfies the exposure predicate on each of
/// the content-carrying token kinds.
proof fn lemma_trim_opt_clean(b: Option<Seq<char>>)
    ensures
        exposed_token_ok(TokenView::ElementName(trim_opt(b))),
        exposed_token_ok(TokenView::ElementDataName(trim_opt(b))),
        exposed_token_ok(TokenView::ElementDataValue(trim_opt(b))),
        exposed_token_ok(TokenView::PropertyName(trim_opt(b))),
        exposed_token_ok(TokenView::PropertyValue(trim_opt(b))),
{
    match b {
        Some(inner) => {
            lemma_trim_idempotent(inner);
        },
        None => {},
    }
}

/// The next newline never sits before the position searched from, nor
/// beyond the input.
proof fn lemma_next_newline_bounds(input: Seq<char>, i: int)
    requires
        0 <= i <= input.len(),
    ensures
        i <= crate::tokenizer::next_newline(input, i) <= input.len(),
    decreases input.len() - i,
{
    if i < input.len() && input[i] != '\n' {
        lemma_next_newline_bounds(input, i + 1);
    }
}

/// Running the machine from a stream of acceptable tokens exposes, on
/// success, only acceptable tokens: every step pushes structural marks or
/// content tokens with trimmed payloads, and the branches that would
/// absorb malformed text fail instead.
proof fn lemma_lex_from_exposes_clean(input: Seq<char>, i: int, st: LexSt)
    requires
        0 <= i,
        forall|j: int| 0 <= j < st.tokens.len() ==> exposed_token_ok(st.tokens[j]),
    ensures
        match lex_from(input, i, st) {
            Ok(toks) => forall|j: int| 0 <= j < toks.len() ==> exposed_token_ok(toks[j]),
            Err(_) => true,
        },
    decreases input.len() - i,
{
    if i >= input.len() {
    } else {
        let c = input[i];
        if st.expect == Expectation::Invalid {
        } else if st.expect == Expectation::PendingPropertyValue {
            lemma_lex_from_exposes_clean(
                input,
                i + 1,
                LexSt { expect: Expectation::PropertyValue, ..st },
            );
        } else if c == '[' && st.expect != Expectation::PropertyValue && st.expect
            != Expectation::ElementDataValue {
            lemma_clean_push(st.tokens, TokenView::BracketLeft);
            lemma_lex_from_exposes_clean(
                input,
                i + 1,
                LexSt {
                    tokens: st.tokens.push(TokenView::BracketLeft),
                    in_quote: false,
                    expect: Expectation::ElementName,
                    ..st
                },
            );
        } else if c == ']' {
            if st.expect == Expectation::ElementDataValue {
                lemma_trim_opt_clean(st.buf);
                lemma_clean_push(st.tokens, TokenView::ElementDataValue(trim_opt(st.buf)));
                lemma_clean_push(
                    st.tokens.push(TokenView::ElementDataValue(trim_opt(st.buf))),
                    TokenView::BracketRight,
                );
                lemma_lex_from_exposes_clean(
                    input,
                    i + 1,
                    LexSt {
                        tokens: st.tokens.push(TokenView::ElementDataValue(trim_opt(st.buf))).push(
                            TokenView::BracketRight,
                        ),
                        buf: None,
                        in_quote: false,
                        completed: false,
                        expect: Expectation::Free,
                    },
                );
            } else if st.expect == Expectation::PropertyValue {
                lemma_trim_opt_clean(st.buf);
                lemma_clean_push(st.tokens, TokenView::PropertyValue(trim_opt(st.buf)));
                lemma_clean_push(
                    st.tokens.push(TokenView::PropertyValue(trim_opt(st.buf))),
                    TokenView::BracketRight,
                );
                lemma_lex_from_exposes_clean(
                    input,
                    i + 1,
                    LexSt {
                        tokens: st.tokens.push(TokenView::PropertyValue(trim_opt(st.buf))).push(
                            TokenView::BracketRight,
                        ),
                        buf: None,
                        in_quote: false,
                        completed: false,
                        expect: Expectation::Free,
                    },
                );
            } else {
                lemma_clean_push(st.tokens, TokenView::BracketRight);
                lemma_lex_from_exposes_clean(
                    input,
                    i + 1,
                    LexSt {
                        tokens: st.tokens.push(TokenView::BracketRight),
                        in_quote: false,
                        ..st
                    },
                );
            }
        } else if c == '\n' {
            if st.expect == Expectation::PropertyValue {
                let toks = match st.buf {
                    Some(_) => st.tokens.push(TokenView::PropertyValue(trim_opt(st.buf))),
                    None => st.tokens,
                };
                lemma_trim_opt_clean(st.buf);
                if st.buf is Some {
                    lemma_clean_push(st.tokens, TokenView::PropertyValue(trim_opt(st.buf)));
                }
                lemma_clean_push(toks, TokenView::NewLine);
                lemma_lex_from_exposes_clean(
                    input,
                    i + 1,
                    LexSt {
                        tokens: toks.push(TokenView::NewLine),
                        buf: None,
                        in_quote: false,
                        completed: false,
                        expect: Expectation::PropertyName,
                    },
                );
            } else {
                let e2 = if st.tokens.len() > 0 && st.tokens.last() == TokenView::BracketRight {
                    Expectation::PropertyName
                } else {
                    st.expect
                };
                lemma_clean_push(st.tokens, TokenView::NewLine);
                lemma_lex_from_exposes_clean(
                    input,
                    i + 1,
                    LexSt {
                        tokens: st.tokens.push(TokenView::NewLine),
                        in_quote: false,
                        expect: e2,
                        ..st
                    },
                );
            }
        } else {
            match st.expect {
                Expectation::Free => {},
                Expectation::ElementName => {
                    let a = spec_append(st.buf, st.in_quote, st.completed, c, seq![' ']);
                    if a.2 {
                        lemma_trim_opt_clean(a.0);
                        lemma_clean_push(st.tokens, TokenView::ElementName(trim_opt(a.0)));
                        lemma_lex_from_exposes_clean(
                            input,
                            i + 1,
                            LexSt {
                                tokens: st.tokens.push(TokenView::ElementName(trim_opt(a.0))),
                                buf: None,
                                in_quote: false,
                                completed: false,
                                expect: Expectation::ElementDataName,
                            },
                        );
                    } else {
                        lemma_lex_from_exposes_clean(
                            input,
                            i + 1,
                            LexSt { buf: a.0, in_quote: a.1, completed: a.2, ..st },
                        );
                    }
                },
                Expectation::ElementDataName => {
                    let a = spec_append(st.buf, st.in_quote, st.completed, c, seq![' ', '=']);
                    if a.2 {
                        lemma_trim_opt_clean(a.0);
                        lemma_clean_push(st.tokens, TokenView::ElementDataName(trim_opt(a.0)));
                        lemma_lex_from_exposes_clean(
                            input,
                            i + 1,
                            LexSt {
                                tokens: st.tokens.push(TokenView::ElementDataName(trim_opt(a.0))),
                                buf: None,
                                in_quote: false,
                                completed: false,
                                expect: Expectation::ElementDataValue,
                            },
                        );
                    } else {
                        lemma_lex_from_exposes_clean(
                            input,
                            i + 1,
                            LexSt { buf: a.0, in_quote: a.1, completed: a.2, ..st },
                        );
                    }
                },
                Expectation::ElementDataValue => {
                    let a = spec_append(st.buf, st.in_quote, st.completed, c, seq![' ']);
                    if a.2 {
                        lemma_trim_opt_clean(a.0);
                        lemma_clean_push(st.tokens, TokenView::ElementDataValue(trim_opt(a.0)));
                        lemma_lex_from_exposes_clean(
                            input,
                            i + 1,
                            LexSt {
                                tokens: st.tokens.push(TokenView::ElementDataValue(trim_opt(a.0))),
                                buf: None,
                                in_quote: false,
                                completed: false,
                                expect: Expectation::ElementDataName,
                            },
                        );
                    } else {
                        lemma_lex_from_exposes_clean(
                            input,
                            i + 1,
                            LexSt { buf: a.0, in_quote: a.1, completed: a.2, ..st },
                        );
                    }
                },
                Expectation::PropertyName => {
                    let a = spec_append(st.buf, st.in_quote, st.completed, c, seq![' ', '=']);
                    if a.2 {
                        if i + 1 < input.len() && input[i + 1] == '=' {
                            lemma_trim_opt_clean(a.0);
                            lemma_clean_push(st.tokens, TokenView::PropertyName(trim_opt(a.0)));
                            lemma_lex_from_exposes_clean(
                                input,
                                i + 1,
                                LexSt {
                                    tokens: st.tokens.push(TokenView::PropertyName(trim_opt(a.0))),
                                    buf: None,
                                    in_quote: false,
                                    completed: false,
                                    expect: Expectation::PendingPropertyValue,
                                },
                            );
                        }
                    } else {
                        lemma_lex_from_exposes_clean(
                            input,
                            i + 1,
                            LexSt { buf: a.0, in_quote: a.1, completed: a.2, ..st },
                        );
                    }
                },
                Expectation::PropertyValue => {
                    let nl = crate::tokenizer::next_newline(input, i);
                    lemma_next_newline_bounds(input, i);
                    let v = spec_trim(input.subrange(i, nl));
                    let j = if nl < input.len() {
                        nl + 1
                    } else {
                        input.len() as int
                    };
                    lemma_trim_idempotent(input.subrange(i, nl));
                    lemma_clean_push(st.tokens, TokenView::PropertyValue(Some(v)));
                    lemma_clean_push(
                        st.tokens.push(TokenView::PropertyValue(Some(v))),
                        TokenView::NewLine,
                    );
                    lemma_lex_from_exposes_clean(
                        input,
                        j,
                        LexSt {
                            tokens: st.tokens.push(TokenView::PropertyValue(Some(v))).push(
                                TokenView::NewLine,
                            ),
                            buf: None,
                            in_quote: false,
                            completed: false,
                            expect: Expectation::PropertyName,
                        },
                    );
                },
                _ => {},
            }
        }
    }
}

/// The assembly pass accepts a stream only if every content-carrying token
/// in it holds a payload.
proof fn lemma_asm_accepts_only_filled(
    tokens: Seq<TokenView>,
    j: int,
    st: crate::tokenizer::AsmSt,
)
    requires
        0 <= j,
    ensures
        match crate::tokenizer::asm_from(tokens, j, st) {
            Ok(_) => forall|m: int| j <= m < tokens.len() ==> payload_filled(tokens[m]),
            Err(_) => true,
        },
    decreases tokens.len() - j,
{
    if j >= tokens.len() {
    } else {
        match crate::tokenizer::asm_step(tokens[j], st) {
            Err(_) => {},
            Ok(st2) => {
                assert(payload_filled(tokens[j]));
                lemma_asm_accepts_only_filled(tokens, j + 1, st2);
            },
        }
    }
}

/// No unfilled token is ever exposed: a successful tokenization yields
/// only structural marks and content tokens whose payloads are trimmed —
/// never an `Unresolved`, `Invalid` or `SkipTo` marker — and a
/// successfully parsed document moreover carries a payload in every
/// content-carrying token of its stream.
pub proof fn lemma_no_unfilled_token_exposed(input: Seq<char>)
    ensures
        match spec_tokenize(input) {
            Ok(toks) => forall|j: int|
                0 <= j < toks.len() ==> marker_free(toks[j]) && payload_trimmed(toks[j]),
            Err(_) => true,
        },
        match crate::tokenizer::spec_parse(input) {
            Ok(r) => forall|j: int|
                0 <= j < r.0.len() ==> marker_free(r.0[j]) && payload_filled(r.0[j])
                    && payload_trimmed(r.0[j]),
            Err(_) => true,
        },
{
    lemma_lex_from_exposes_clean(input, 0, init_lex_st());
    match spec_tokenize(input) {
        Ok(toks) => {
            lemma_asm_accepts_only_filled(toks, 0, crate::tokenizer::init_asm_st());
        },
        Err(_) => {},
    }
}

} // verus!
