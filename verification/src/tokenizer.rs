//! The lexical alphabet of the format, the character-level tokenizer, and
//! the token-to-element assembly pass.

use crate::element::{Element, ElementData, ExpectedType, Property};
use vstd::prelude::*;
use vstd::string::StrSliceExecFns;

verus! {

/// One atomic lexical unit of the format.  Content-carrying variants hold
/// `None` while the lexer is still accumulating their payload; a finished
/// token sequence carries `Some` payloads only.
#[derive(Debug, PartialEq)]
pub enum Token {
    /// Control marker: payload not yet captured.  Internal to the lexer;
    /// never part of a successful tokenization.
    Unresolved,
    /// Control marker: lexing failed at this position.
    Invalid,
    BracketLeft,
    BracketRight,
    NewLine,
    ElementName(Option<String>),
    ElementDataName(Option<String>),
    ElementDataValue(Option<String>),
    PropertyName(Option<String>),
    PropertyValue(Option<String>),
    /// Deferred-state marker: the next input character is interpreted as if
    /// the state machine were already expecting the target token.
    SkipTo(Box<Token>),
}

/// The mathematical model of a [`Token`]: the same shape, with every string
/// payload replaced by its sequence of characters.
pub enum TokenView {
    Unresolved,
    Invalid,
    BracketLeft,
    BracketRight,
    NewLine,
    ElementName(Option<Seq<char>>),
    ElementDataName(Option<Seq<char>>),
    ElementDataValue(Option<Seq<char>>),
    PropertyName(Option<Seq<char>>),
    PropertyValue(Option<Seq<char>>),
    SkipTo(Box<TokenView>),
}

pub open spec fn token_view(t: Token) -> TokenView
    decreases t,
{
    match t {
        Token::Unresolved => TokenView::Unresolved,
        Token::Invalid => TokenView::Invalid,
        Token::BracketLeft => TokenView::BracketLeft,
        Token::BracketRight => TokenView::BracketRight,
        Token::NewLine => TokenView::NewLine,
        Token::ElementName(o) => TokenView::ElementName(o.deep_view()),
        Token::ElementDataName(o) => TokenView::ElementDataName(o.deep_view()),
        Token::ElementDataValue(o) => TokenView::ElementDataValue(o.deep_view()),
        Token::PropertyName(o) => TokenView::PropertyName(o.deep_view()),
        Token::PropertyValue(o) => TokenView::PropertyValue(o.deep_view()),
        Token::SkipTo(b) => TokenView::SkipTo(Box::new(token_view(*b))),
    }
}

impl View for Token {
    type V = TokenView;

    open spec fn view(&self) -> TokenView {
        token_view(*self)
    }
}

impl DeepView for Token {
    type V = TokenView;

    open spec fn deep_view(&self) -> TokenView {
        token_view(*self)
    }
}

/// The literal substring a token renders to.  Structural marks render to
/// their own character, a data name carries its `=` separator, a property
/// name carries its ` = ` separator, and the control markers render to
/// placeholder text that no well-formed document contains.
pub open spec fn token_text(t: TokenView) -> Seq<char> {
    match t {
        TokenView::BracketLeft => seq!['['],
        TokenView::BracketRight => seq![']'],
        TokenView::NewLine => seq!['\n'],
        TokenView::Invalid => "{Invalid}"@,
        TokenView::ElementName(o) => match o {
            Some(s) => s,
            None => "{Unresolved}"@,
        },
        TokenView::ElementDataName(o) => match o {
            Some(s) => s.push('='),
            None => "{Unresolved}"@,
        },
        TokenView::ElementDataValue(o) => match o {
            Some(s) => s,
            None => "{Unresolved}"@,
        },
        TokenView::PropertyName(o) => match o {
            Some(s) => s.push(' ').push('=').push(' '),
            None => "{Unresolved}"@,
        },
        TokenView::PropertyValue(o) => match o {
            Some(s) => s,
            None => "{Unresolved}"@,
        },
        TokenView::Unresolved => "{UNDEFINED}"@,
        TokenView::SkipTo(_) => "{UNDEFINED}"@,
    }
}

/// Element names and data values are followed by a single separating space
/// when a token sequence is rendered back to text.
pub open spec fn spec_requires_space_suffix(t: TokenView) -> bool {
    match t {
        TokenView::ElementName(_) => true,
        TokenView::ElementDataValue(_) => true,
        _ => false,
    }
}

/// The text a whole token sequence renders to: each token's literal
/// substring, with a single space appended after element names and data
/// values.
pub open spec fn spec_render(tokens: Seq<TokenView>) -> Seq<char>
    decreases tokens.len(),
{
    if tokens.len() == 0 {
        Seq::<char>::empty()
    } else {
        token_text(tokens[0]) + (if spec_requires_space_suffix(tokens[0]) {
            seq![' ']
        } else {
            Seq::<char>::empty()
        }) + spec_render(tokens.drop_first())
    }
}

/// Relies on `alloc::string::String::push`: appends the given character to
/// the end of the string.
pub assume_specification[ String::push ](s: &mut String, ch: char)
    ensures
        final(s)@ == old(s)@.push(ch),
;

impl Token {
    pub fn to_string(&self) -> (r: String)
        ensures
            r@ == token_text(self@),
    {
        match self {
            Token::BracketLeft => {
                let mut r = String::new();
                r.push('[');
                r
            },
            Token::BracketRight => {
                let mut r = String::new();
                r.push(']');
                r
            },
            Token::NewLine => {
                let mut r = String::new();
                r.push('\n');
                r
            },
            Token::Invalid => String::from_str("{Invalid}"),
            Token::ElementName(val) => match val {
                Some(string) => string.clone(),
                None => String::from_str("{Unresolved}"),
            },
            Token::ElementDataName(val) => match val {
                Some(string) => {
                    let mut n = string.clone();
                    n.push('=');
                    n
                },
                None => String::from_str("{Unresolved}"),
            },
            Token::ElementDataValue(val) => match val {
                Some(string) => string.clone(),
                None => String::from_str("{Unresolved}"),
            },
            Token::PropertyName(val) => match val {
                Some(string) => {
                    let mut n = string.clone();
                    n.push(' ');
                    n.push('=');
                    n.push(' ');
                    n
                },
                None => String::from_str("{Unresolved}"),
            },
            Token::PropertyValue(val) => match val {
                Some(string) => string.clone(),
                None => String::from_str("{Unresolved}"),
            },
            Token::Unresolved => String::from_str("{UNDEFINED}"),
            Token::SkipTo(_) => String::from_str("{UNDEFINED}"),
        }
    }

    fn requires_space_suffix(&self) -> (r: bool)
        ensures
            r == spec_requires_space_suffix(self@),
    {
        match self {
            Token::ElementName(_) => true,
            Token::ElementDataValue(_) => true,
            _ => false,
        }
    }
}

/// The "currently expected token kind" cursor of the tokenizer: `Free`
/// outside any record field, one variant per content-carrying token kind
/// while that kind accumulates, `PendingPropertyValue` for the one-step
/// deferred jump over the `=` of a property line, and `Invalid` for a
/// cursor on which lexing fails outright.
#[derive(Debug, Clone, Copy, PartialEq, Eq, Structural)]
pub enum Expectation {
    Free,
    ElementName,
    ElementDataName,
    ElementDataValue,
    PropertyName,
    PropertyValue,
    PendingPropertyValue,
    Invalid,
}

/// Why a document could not be tokenized or assembled.
#[derive(Debug, Clone, Copy, PartialEq, Eq, Structural)]
pub enum TokenizerError {
    /// A content-carrying token was delivered with an empty payload.
    NotFound(ExpectedType),
    /// The lexer entered an invalid state at this character index: a
    /// content character arrived outside any record.
    InvalidChar(usize),
    /// A property name was completed but the `=` separator did not follow
    /// it.
    EarlyEOF,
    /// A value token appeared with no preceding name token.
    UnexpectedErr,
}

/// The tokenizer: the token sequence and element sequence produced from a
/// document, together with the lexer's accumulation state.
#[derive(Debug)]
pub struct Tokenizer {
    pub elements: Vec<Element>,
    pub tokens: Vec<Token>,
    pub current_string: Option<String>,
    pub in_quote: bool,
    pub current_string_completed: bool,
}

/// The mathematical model of a [`Tokenizer`].
pub struct TokenizerView {
    pub elements: Seq<crate::element::ElementView>,
    pub tokens: Seq<TokenView>,
    pub buf: Option<Seq<char>>,
    pub in_quote: bool,
    pub completed: bool,
}

impl View for Tokenizer {
    type V = TokenizerView;

    open spec fn view(&self) -> TokenizerView {
        TokenizerView {
            elements: self.elements.deep_view(),
            tokens: self.tokens.deep_view(),
            buf: self.current_string.deep_view(),
            in_quote: self.in_quote,
            completed: self.current_string_completed,
        }
    }
}

/// The characters the lexer trims from both ends of a flushed buffer:
/// the Unicode white-space characters.
pub open spec fn is_lex_space(c: char) -> bool {
    c == ' ' || c == '\t' || c == '\n' || c == '\u{B}' || c == '\u{C}' || c == '\r' || c
        == '\u{85}' || c == '\u{A0}' || c == '\u{1680}' || c == '\u{2000}' || c == '\u{2001}'
        || c == '\u{2002}' || c == '\u{2003}' || c == '\u{2004}' || c == '\u{2005}' || c
        == '\u{2006}' || c == '\u{2007}' || c == '\u{2008}' || c == '\u{2009}' || c
        == '\u{200A}' || c == '\u{2028}' || c == '\u{2029}' || c == '\u{202F}' || c
        == '\u{205F}' || c == '\u{3000}'
}

pub open spec fn trim_start(s: Seq<char>) -> Seq<char>
    decreases s.len(),
{
    if s.len() > 0 && is_lex_space(s[0]) {
        trim_start(s.drop_first())
    } else {
        s
    }
}

pub open spec fn trim_end(s: Seq<char>) -> Seq<char>
    decreases s.len(),
{
    if s.len() > 0 && is_lex_space(s.last()) {
        trim_end(s.drop_last())
    } else {
        s
    }
}

/// A flushed buffer with leading and trailing whitespace removed.
pub open spec fn spec_trim(s: Seq<char>) -> Seq<char> {
    trim_end(trim_start(s))
}

pub open spec fn trim_opt(b: Option<Seq<char>>) -> Option<Seq<char>> {
    match b {
        Some(s) => Some(spec_trim(s)),
        None => None,
    }
}

/// One character fed to the accumulation buffer.  Quote characters toggle
/// the in-quote flag.  Once the buffer holds at least one character outside
/// `ends`, an unquoted character from `ends` completes the buffer without
/// being appended; any other character is appended.
pub open spec fn spec_append(
    buf: Option<Seq<char>>,
    in_quote: bool,
    completed: bool,
    c: char,
    ends: Seq<char>,
) -> (Option<Seq<char>>, bool, bool) {
    let q = if c == '"' || c == '\'' {
        !in_quote
    } else {
        in_quote
    };
    match buf {
        Some(s) => {
            if s.filter(|x: char| !ends.contains(x)).len() > 0 {
                if ends.contains(c) {
                    if !q {
                        (Some(s), q, true)
                    } else {
                        (Some(s.push(c)), q, completed)
                    }
                } else {
                    (Some(s.push(c)), q, false)
                }
            } else {
                (Some(s.push(c)), q, completed)
            }
        },
        None => (Some(seq![c]), q, completed),
    }
}

/// The index of the first `'\n'` at or after `i`, or the input length if
/// none remains.
pub open spec fn next_newline(input: Seq<char>, i: int) -> int
    decreases input.len() - i when 0 <= i <= input.len()
{
    if i >= input.len() {
        input.len() as int
    } else if input[i] == '\n' {
        i
    } else {
        next_newline(input, i + 1)
    }
}

/// The full state of the lexer between two characters: the tokens emitted
/// so far, the accumulation buffer with its flags, and the expectation
/// cursor.
pub struct LexSt {
    pub tokens: Seq<TokenView>,
    pub buf: Option<Seq<char>>,
    pub in_quote: bool,
    pub completed: bool,
    pub expect: Expectation,
}

/// The outcome of consuming one character (or, for a property value, the
/// rest of its line): a failure, or the next state together with the index
/// of the next character to read.
pub enum LexStep {
    Fail(TokenizerError),
    Next(LexSt, int),
}

/// The per-character transition of the tokenizer state machine.
pub open spec fn lex_step(input: Seq<char>, i: int, st: LexSt) -> LexStep {
    let c = input[i];
    if st.expect == Expectation::Invalid {
        LexStep::Fail(TokenizerError::InvalidChar(i as usize))
    } else if st.expect == Expectation::PendingPropertyValue {
        // the deferred jump: this character is consumed without any other
        // effect and the cursor moves to the target
        LexStep::Next(LexSt { expect: Expectation::PropertyValue, ..st }, i + 1)
    } else if c == '[' && st.expect != Expectation::PropertyValue && st.expect
        != Expectation::ElementDataValue {
        // an opening bracket outside any value position is a structural
        // mark; in value position it is an ordinary character, routed by
        // the expectation below
        LexStep::Next(
            LexSt {
                tokens: st.tokens.push(TokenView::BracketLeft),
                in_quote: false,
                expect: Expectation::ElementName,
                ..st
            },
            i + 1,
        )
    } else if c == ']' {
        if st.expect == Expectation::ElementDataValue {
            LexStep::Next(
                LexSt {
                    tokens: st.tokens.push(TokenView::ElementDataValue(trim_opt(st.buf))).push(
                        TokenView::BracketRight,
                    ),
                    buf: None,
                    in_quote: false,
                    completed: false,
                    expect: Expectation::Free,
                },
                i + 1,
            )
        } else if st.expect == Expectation::PropertyValue {
            LexStep::Next(
                LexSt {
                    tokens: st.tokens.push(TokenView::PropertyValue(trim_opt(st.buf))).push(
                        TokenView::BracketRight,
                    ),
                    buf: None,
                    in_quote: false,
                    completed: false,
                    expect: Expectation::Free,
                },
                i + 1,
            )
        } else {
            LexStep::Next(
                LexSt { tokens: st.tokens.push(TokenView::BracketRight), in_quote: false, ..st },
                i + 1,
            )
        }
    } else if c == '\n' {
        if st.expect == Expectation::PropertyValue {
            // properties are single-line: a newline flushes an open value
            let toks = match st.buf {
                Some(_) => st.tokens.push(TokenView::PropertyValue(trim_opt(st.buf))),
                None => st.tokens,
            };
            LexStep::Next(
                LexSt {
                    tokens: toks.push(TokenView::NewLine),
                    buf: None,
                    in_quote: false,
                    completed: false,
                    expect: Expectation::PropertyName,
                },
                i + 1,
            )
        } else {
            let e2 = if st.tokens.len() > 0 && st.tokens.last() == TokenView::BracketRight {
                // properties follow the closing bracket of their element
                Expectation::PropertyName
            } else {
                st.expect
            };
            LexStep::Next(
                LexSt { tokens: st.tokens.push(TokenView::NewLine), in_quote: false, expect: e2, ..st },
                i + 1,
            )
        }
    } else {
        match st.expect {
            // a content character outside any record: the lexer is in an
            // invalid state, and no error is silently swallowed
            Expectation::Free => LexStep::Fail(TokenizerError::InvalidChar(i as usize)),
            Expectation::ElementName => {
                let a = spec_append(st.buf, st.in_quote, st.completed, c, seq![' ']);
                if a.2 {
                    LexStep::Next(
                        LexSt {
                            tokens: st.tokens.push(TokenView::ElementName(trim_opt(a.0))),
                            buf: None,
                            in_quote: false,
                            completed: false,
                            expect: Expectation::ElementDataName,
                        },
                        i + 1,
                    )
                } else {
                    LexStep::Next(
                        LexSt { buf: a.0, in_quote: a.1, completed: a.2, ..st },
                        i + 1,
                    )
                }
            },
            Expectation::ElementDataName => {
                let a = spec_append(st.buf, st.in_quote, st.completed, c, seq![' ', '=']);
                if a.2 {
                    LexStep::Next(
                        LexSt {
                            tokens: st.tokens.push(TokenView::ElementDataName(trim_opt(a.0))),
                            buf: None,
                            in_quote: false,
                            completed: false,
                            expect: Expectation::ElementDataValue,
                        },
                        i + 1,
                    )
                } else {
                    LexStep::Next(
                        LexSt { buf: a.0, in_quote: a.1, completed: a.2, ..st },
                        i + 1,
                    )
                }
            },
            Expectation::ElementDataValue => {
                let a = spec_append(st.buf, st.in_quote, st.completed, c, seq![' ']);
                if a.2 {
                    LexStep::Next(
                        LexSt {
                            tokens: st.tokens.push(TokenView::ElementDataValue(trim_opt(a.0))),
                            buf: None,
                            in_quote: false,
                            completed: false,
                            expect: Expectation::ElementDataName,
                        },
                        i + 1,
                    )
                } else {
                    LexStep::Next(
                        LexSt { buf: a.0, in_quote: a.1, completed: a.2, ..st },
                        i + 1,
                    )
                }
            },
            Expectation::PropertyName => {
                let a = spec_append(st.buf, st.in_quote, st.completed, c, seq![' ', '=']);
                if a.2 {
                    if i + 1 < input.len() && input[i + 1] == '=' {
                        // the completed name is flushed and the `=` is
                        // jumped over into the value
                        LexStep::Next(
                            LexSt {
                                tokens: st.tokens.push(TokenView::PropertyName(trim_opt(a.0))),
                                buf: None,
                                in_quote: false,
                                completed: false,
                                expect: Expectation::PendingPropertyValue,
                            },
                            i + 1,
                        )
                    } else {
                        // the next character must be the separator, or
                        // tokenization fails with an early-end-of-input
                        // error
                        LexStep::Fail(TokenizerError::EarlyEOF)
                    }
                } else {
                    LexStep::Next(
                        LexSt { buf: a.0, in_quote: a.1, completed: a.2, ..st },
                        i + 1,
                    )
                }
            },
            Expectation::PropertyValue => {
                // the remainder of the line is captured verbatim in one step
                let nl = next_newline(input, i);
                let v = spec_trim(input.subrange(i, nl));
                let j = if nl < input.len() {
                    nl + 1
                } else {
                    input.len() as int
                };
                LexStep::Next(
                    LexSt {
                        tokens: st.tokens.push(TokenView::PropertyValue(Some(v))).push(
                            TokenView::NewLine,
                        ),
                        buf: None,
                        in_quote: false,
                        completed: false,
                        expect: Expectation::PropertyName,
                    },
                    j,
                )
            },
            _ => LexStep::Fail(TokenizerError::UnexpectedErr),
        }
    }
}

/// The result of running the state machine from state `st` at index `i` to
/// the end of the input.
pub open spec fn lex_from(input: Seq<char>, i: int, st: LexSt) -> Result<
    Seq<TokenView>,
    TokenizerError,
>
    decreases input.len() - i when 0 <= i
{
    if i >= input.len() {
        Ok(st.tokens)
    } else {
        match lex_step(input, i, st) {
            LexStep::Fail(e) => Err(e),
            LexStep::Next(st2, j) => if i < j <= input.len() {
                lex_from(input, j, st2)
            } else {
                Err(TokenizerError::UnexpectedErr)
            },
        }
    }
}

/// The lexer's starting state: nothing emitted, empty buffer, no
/// expectation.
pub open spec fn init_lex_st() -> LexSt {
    LexSt {
        tokens: Seq::<TokenView>::empty(),
        buf: None,
        in_quote: false,
        completed: false,
        expect: Expectation::Free,
    }
}

/// What tokenizing a document yields: its ordered token sequence, or the
/// first lexing failure.
pub open spec fn spec_tokenize(input: Seq<char>) -> Result<Seq<TokenView>, TokenizerError> {
    lex_from(input, 0, init_lex_st())
}

/// A sequence has a non-empty filtrate exactly when some element satisfies
/// the predicate.
pub(crate) proof fn lemma_filter_nonempty_iff_exists(s: Seq<char>, pred: spec_fn(char) -> bool)
    ensures
        (s.filter(pred).len() > 0) <==> (exists|k: int| 0 <= k < s.len() && pred(s[k])),
    decreases s.len(),
{
    reveal(Seq::filter);
    if s.len() == 0 {
    } else {
        lemma_filter_nonempty_iff_exists(s.drop_last(), pred);
        if pred(s.last()) {
            assert(pred(s[s.len() - 1]));
        } else {
            if exists|k: int| 0 <= k < s.len() && pred(s[k]) {
                let k = choose|k: int| 0 <= k < s.len() && pred(s[k]);
                assert(s.drop_last()[k] == s[k]);
            }
            if exists|k: int| 0 <= k < s.drop_last().len() && pred(s.drop_last()[k]) {
                let k = choose|k: int| 0 <= k < s.drop_last().len() && pred(s.drop_last()[k]);
                assert(s[k] == s.drop_last()[k]);
            }
        }
    }
}

/// If the first `k` characters are whitespace and the `k`-th is not,
/// trimming the start removes exactly those `k` characters.
pub(crate) proof fn lemma_trim_start_at(s: Seq<char>, k: int)
    requires
        0 <= k <= s.len(),
        forall|m: int| 0 <= m < k ==> is_lex_space(s[m]),
        k == s.len() || !is_lex_space(s[k]),
    ensures
        trim_start(s) == s.subrange(k, s.len() as int),
    decreases k,
{
    if k == 0 {
        assert(s.subrange(0, s.len() as int) =~= s);
    } else {
        assert(is_lex_space(s[0]));
        let t = s.drop_first();
        assert(forall|m: int| 0 <= m < k - 1 ==> is_lex_space(t[m]));
        lemma_trim_start_at(t, k - 1);
        assert(t.subrange(k - 1, t.len() as int) =~= s.subrange(k, s.len() as int));
    }
}

/// If the characters from `k` on are whitespace and the one before `k` is
/// not, trimming the end removes exactly the characters from `k` on.
pub(crate) proof fn lemma_trim_end_at(s: Seq<char>, k: int)
    requires
        0 <= k <= s.len(),
        forall|m: int| k <= m < s.len() ==> is_lex_space(s[m]),
        k == 0 || !is_lex_space(s[k - 1]),
    ensures
        trim_end(s) == s.subrange(0, k),
    decreases s.len(),
{
    if k == s.len() {
        assert(s.subrange(0, k) =~= s);
    } else {
        assert(is_lex_space(s.last()));
        let t = s.drop_last();
        lemma_trim_end_at(t, k);
        assert(t.subrange(0, k) =~= s.subrange(0, k));
    }
}

/// Pushing onto a vector pushes the element's deep view onto the vector's
/// deep view.
pub proof fn lemma_push_deep<T: DeepView>(pre: Vec<T>, post: Vec<T>, x: T)
    requires
        post@ == pre@.push(x),
    ensures
        post.deep_view() == pre.deep_view().push(x.deep_view()),
{
    let lhs = post.deep_view();
    let rhs = pre.deep_view().push(x.deep_view());
    assert forall|j: int| 0 <= j < lhs.len() implies lhs[j] == rhs[j] by {
        assert(lhs[j] == post@[j].deep_view());
        if j < pre@.len() {
            assert(post@[j] == pre@[j]);
            assert(pre.deep_view()[j] == pre@[j].deep_view());
        } else {
            assert(post@[j] == x);
        }
    }
    assert(lhs =~= rhs);
}

/// Updating one slot of a vector updates that slot of its deep view.
pub proof fn lemma_update_deep<T: DeepView>(pre: Vec<T>, post: Vec<T>, i: int, x: T)
    requires
        0 <= i < pre@.len(),
        post@ == pre@.update(i, x),
    ensures
        post.deep_view() == pre.deep_view().update(i, x.deep_view()),
{
    let lhs = post.deep_view();
    let rhs = pre.deep_view().update(i, x.deep_view());
    assert forall|j: int| 0 <= j < lhs.len() implies lhs[j] == rhs[j] by {
        assert(lhs[j] == post@[j].deep_view());
        assert(pre.deep_view()[j] == pre@[j].deep_view());
        if j != i {
            assert(post@[j] == pre@[j]);
        } else {
            assert(post@[j] == x);
        }
    }
    assert(lhs =~= rhs);
}

/// Pushes a value and carries the deep-view relation along.
pub(crate) fn push_deep<T: DeepView>(v: &mut Vec<T>, x: T)
    ensures
        final(v)@ == old(v)@.push(x),
        final(v).deep_view() == old(v).deep_view().push(x.deep_view()),
{
    let ghost g = x;
    let ghost pre = *v;
    v.push(x);
    proof {
        lemma_push_deep(pre, *v, g);
    }
}

fn is_space_char(c: char) -> (r: bool)
    ensures
        r == is_lex_space(c),
{
    c == ' ' || c == '\t' || c == '\n' || c == '\u{B}' || c == '\u{C}' || c == '\r' || c
        == '\u{85}' || c == '\u{A0}' || c == '\u{1680}' || c == '\u{2000}' || c == '\u{2001}'
        || c == '\u{2002}' || c == '\u{2003}' || c == '\u{2004}' || c == '\u{2005}' || c
        == '\u{2006}' || c == '\u{2007}' || c == '\u{2008}' || c == '\u{2009}' || c
        == '\u{200A}' || c == '\u{2028}' || c == '\u{2029}' || c == '\u{202F}' || c
        == '\u{205F}' || c == '\u{3000}'
}

fn char_in(chars: &[char], c: char) -> (r: bool)
    ensures
        r == chars@.contains(c),
{
    let mut k: usize = 0;
    while k < chars.len()
        invariant
            k <= chars@.len(),
            forall|m: int| 0 <= m < k ==> chars@[m] != c,
        decreases chars@.len() - k,
    {
        if chars[k] == c {
            assert(chars@.contains(c)) by {
                assert(chars@[k as int] == c);
            }
            return true;
        }
        k += 1;
    }
    proof {
        if chars@.contains(c) {
            let w = choose|m: int| 0 <= m < chars@.len() && chars@[m] == c;
            assert(false);
        }
    }
    false
}

/// Whether the buffer holds at least one character outside the end set.
fn has_char_outside(s: &str, ends: &[char]) -> (r: bool)
    ensures
        r == (s@.filter(|x: char| !ends@.contains(x)).len() > 0),
{
    let n = s.unicode_len();
    let mut k: usize = 0;
    while k < n
        invariant
            k <= n,
            n == s@.len(),
            forall|m: int| 0 <= m < k ==> ends@.contains(s@[m]),
        decreases n - k,
    {
        if !char_in(ends, s.get_char(k)) {
            proof {
                lemma_filter_nonempty_iff_exists(s@, |x: char| !ends@.contains(x));
                assert(!ends@.contains(s@[k as int]));
            }
            return true;
        }
        k += 1;
    }
    proof {
        lemma_filter_nonempty_iff_exists(s@, |x: char| !ends@.contains(x));
    }
    false
}

/// The buffer with surrounding whitespace removed, as the lexer flushes it.
fn trim_string(s: &str) -> (r: String)
    ensures
        r@ == spec_trim(s@),
{
    let n = s.unicode_len();
    let mut start: usize = 0;
    let mut scan: bool = true;
    while scan && start < n
        invariant
            start <= n,
            n == s@.len(),
            forall|m: int| 0 <= m < start ==> is_lex_space(s@[m]),
            !scan ==> start < n && !is_lex_space(s@[start as int]),
        decreases n - start, (if scan { 1int } else { 0int }),
    {
        if is_space_char(s.get_char(start)) {
            start += 1;
        } else {
            scan = false;
        }
    }
    let mut end: usize = n;
    let mut scan2: bool = true;
    while scan2 && end > start
        invariant
            start <= end <= n,
            n == s@.len(),
            forall|m: int| end <= m < n ==> is_lex_space(s@[m]),
            !scan2 ==> end > start && !is_lex_space(s@[end - 1]),
        decreases end, (if scan2 { 1int } else { 0int }),
    {
        if is_space_char(s.get_char(end - 1)) {
            end -= 1;
        } else {
            scan2 = false;
        }
    }
    proof {
        lemma_trim_start_at(s@, start as int);
        let t = s@.subrange(start as int, n as int);
        assert(forall|m: int| end - start <= m < t.len() ==> is_lex_space(t[m]));
        lemma_trim_end_at(t, end - start);
        assert(t.subrange(0, end - start) =~= s@.subrange(start as int, end as int));
    }
    String::from_str(s.substring_char(start, end))
}

fn str_to_chars(s: &str) -> (r: Vec<char>)
    ensures
        r@ == s@,
{
    let n = s.unicode_len();
    let mut v: Vec<char> = Vec::new();
    let mut k: usize = 0;
    while k < n
        invariant
            k <= n,
            n == s@.len(),
            v@ == s@.take(k as int),
        decreases n - k,
    {
        v.push(s.get_char(k));
        proof {
            assert(s@.take(k as int).push(s@[k as int]) =~= s@.take(k + 1));
        }
        k += 1;
    }
    proof {
        assert(s@.take(n as int) =~= s@);
    }
    v
}

impl Tokenizer {
    /// One character fed to the accumulation buffer; see [`spec_append`].
    fn append_current_string(&mut self, character: char, end_chars: &[char])
        ensures
            final(self)@.tokens == old(self)@.tokens,
            final(self)@.elements == old(self)@.elements,
            ({
                let a = spec_append(
                    old(self)@.buf,
                    old(self)@.in_quote,
                    old(self)@.completed,
                    character,
                    end_chars@,
                );
                final(self)@.buf == a.0 && final(self)@.in_quote == a.1 && final(self)@.completed
                    == a.2
            }),
    {
        if character == '"' || character == '\'' {
            self.in_quote = !self.in_quote;
        }
        let cur = self.current_string.take();
        match cur {
            Some(mut string) => {
                let has_content = has_char_outside(string.as_str(), end_chars);
                if has_content && char_in(end_chars, character) {
                    if !self.in_quote {
                        self.current_string_completed = true;
                        self.current_string = Some(string);
                        return ;
                    }
                } else if has_content {
                    self.current_string_completed = false;
                }
                string.push(character);
                self.current_string = Some(string);
            },
            None => {
                let mut s = String::new();
                s.push(character);
                proof {
                    assert(Seq::<char>::empty().push(character) =~= seq![character]);
                }
                self.current_string = Some(s);
            },
        }
    }

    /// Takes the buffer out, trimmed, and resets the accumulation state.
    fn consume_current_string(&mut self) -> (r: Option<String>)
        ensures
            final(self)@.tokens == old(self)@.tokens,
            final(self)@.elements == old(self)@.elements,
            final(self)@.buf is None,
            final(self)@.in_quote == false,
            final(self)@.completed == false,
            r.deep_view() == trim_opt(old(self)@.buf),
    {
        let cur = self.current_string.take();
        self.current_string_completed = false;
        self.in_quote = false;
        match cur {
            Some(string) => Some(trim_string(string.as_str())),
            None => None,
        }
    }
}

/// The state of the token-to-element assembly pass between two tokens: the
/// finished elements, the element being accumulated, and whether an opening
/// bracket has begun it.
pub struct AsmSt {
    pub elements: Seq<crate::element::ElementView>,
    pub cur: crate::element::ElementView,
    pub opened: bool,
}

/// The per-token transition of the assembly pass.  An opening bracket
/// finalizes the element accumulated so far (so that the property lines
/// and blank line following a closing bracket stay with their element);
/// name tokens begin fields, value tokens fill the last-begun field, and
/// every token is retained in the element's cached token sequence.
pub open spec fn asm_step(t: TokenView, st: AsmSt) -> Result<AsmSt, TokenizerError> {
    let st1 = if t == TokenView::BracketLeft && st.opened {
        AsmSt {
            elements: st.elements.push(st.cur),
            cur: crate::element::empty_element_view(),
            opened: true,
        }
    } else if t == TokenView::BracketLeft {
        AsmSt { opened: true, ..st }
    } else {
        st
    };
    match t {
        TokenView::ElementName(o) => match o {
            Some(s) => Ok(
                AsmSt {
                    cur: crate::element::ElementView {
                        name: s,
                        kind: crate::element::classify(s),
                        tokens: st1.cur.tokens.push(t),
                        ..st1.cur
                    },
                    ..st1
                },
            ),
            None => Err(TokenizerError::NotFound(ExpectedType::ElementName)),
        },
        TokenView::ElementDataName(o) => match o {
            Some(s) => Ok(
                AsmSt {
                    cur: crate::element::ElementView {
                        data: st1.cur.data.push((s, Seq::<char>::empty())),
                        tokens: st1.cur.tokens.push(t),
                        ..st1.cur
                    },
                    ..st1
                },
            ),
            None => Err(TokenizerError::NotFound(ExpectedType::ElementDataName)),
        },
        TokenView::ElementDataValue(o) => match o {
            Some(s) => if st1.cur.data.len() == 0 {
                Err(TokenizerError::UnexpectedErr)
            } else {
                let i = st1.cur.data.len() - 1;
                Ok(
                    AsmSt {
                        cur: crate::element::ElementView {
                            data: st1.cur.data.update(i, (st1.cur.data[i].0, s)),
                            tokens: st1.cur.tokens.push(t),
                            ..st1.cur
                        },
                        ..st1
                    },
                )
            },
            None => Err(TokenizerError::NotFound(ExpectedType::ElementDataValue)),
        },
        TokenView::PropertyName(o) => match o {
            Some(s) => Ok(
                AsmSt {
                    cur: crate::element::ElementView {
                        props: st1.cur.props.push((s, Seq::<char>::empty())),
                        tokens: st1.cur.tokens.push(t),
                        ..st1.cur
                    },
                    ..st1
                },
            ),
            None => Err(TokenizerError::NotFound(ExpectedType::PropertyName)),
        },
        TokenView::PropertyValue(o) => match o {
            Some(s) => if st1.cur.props.len() == 0 {
                Err(TokenizerError::UnexpectedErr)
            } else {
                let i = st1.cur.props.len() - 1;
                Ok(
                    AsmSt {
                        cur: crate::element::ElementView {
                            props: st1.cur.props.update(i, (st1.cur.props[i].0, s)),
                            tokens: st1.cur.tokens.push(t),
                            ..st1.cur
                        },
                        ..st1
                    },
                )
            },
            None => Err(TokenizerError::NotFound(ExpectedType::PropertyValue)),
        },
        _ => Ok(
            AsmSt {
                cur: crate::element::ElementView { tokens: st1.cur.tokens.push(t), ..st1.cur },
                ..st1
            },
        ),
    }
}

/// The result of assembling the tokens from index `j` on, starting from
/// state `st`; at the end of the tokens a begun element is finalized.
pub open spec fn asm_from(tokens: Seq<TokenView>, j: int, st: AsmSt) -> Result<
    Seq<crate::element::ElementView>,
    TokenizerError,
>
    decreases tokens.len() - j when 0 <= j
{
    if j >= tokens.len() {
        Ok(
            if st.opened {
                st.elements.push(st.cur)
            } else {
                st.elements
            },
        )
    } else {
        match asm_step(tokens[j], st) {
            Err(e) => Err(e),
            Ok(st2) => asm_from(tokens, j + 1, st2),
        }
    }
}

pub open spec fn init_asm_st() -> AsmSt {
    AsmSt {
        elements: Seq::<crate::element::ElementView>::empty(),
        cur: crate::element::empty_element_view(),
        opened: false,
    }
}

/// What assembling a token sequence yields: the ordered, classified
/// elements, or the first structural failure.
pub open spec fn spec_elements(tokens: Seq<TokenView>) -> Result<
    Seq<crate::element::ElementView>,
    TokenizerError,
> {
    asm_from(tokens, 0, init_asm_st())
}

/// What parsing a whole document yields: its token sequence and its
/// element sequence, or the first failure of either pass.
pub open spec fn spec_parse(input: Seq<char>) -> Result<
    (Seq<TokenView>, Seq<crate::element::ElementView>),
    TokenizerError,
> {
    match spec_tokenize(input) {
        Err(e) => Err(e),
        Ok(toks) => match spec_elements(toks) {
            Err(e) => Err(e),
            Ok(els) => Ok((toks, els)),
        },
    }
}

fn clone_opt_string(o: &Option<String>) -> (r: Option<String>)
    ensures
        r == *o,
{
    match o {
        Some(s) => Some(s.clone()),
        None => None,
    }
}

fn clone_token(t: &Token) -> (r: Token)
    ensures
        r == *t,
    decreases *t,
{
    match t {
        Token::Unresolved => Token::Unresolved,
        Token::Invalid => Token::Invalid,
        Token::BracketLeft => Token::BracketLeft,
        Token::BracketRight => Token::BracketRight,
        Token::NewLine => Token::NewLine,
        Token::ElementName(o) => Token::ElementName(clone_opt_string(o)),
        Token::ElementDataName(o) => Token::ElementDataName(clone_opt_string(o)),
        Token::ElementDataValue(o) => Token::ElementDataValue(clone_opt_string(o)),
        Token::PropertyName(o) => Token::PropertyName(clone_opt_string(o)),
        Token::PropertyValue(o) => Token::PropertyValue(clone_opt_string(o)),
        Token::SkipTo(b) => Token::SkipTo(Box::new(clone_token(&**b))),
    }
}

impl Tokenizer {
    /// Folds the flat token sequence into discrete elements, attaching each
    /// token to the element it belongs to and classifying each element by
    /// name.
    pub fn elements_from_tokens(&self) -> (r: Result<Vec<Element>, TokenizerError>)
        ensures
            match r {
                Ok(els) => spec_elements(self@.tokens) == Ok::<_, TokenizerError>(els.deep_view()),
                Err(e) => spec_elements(self@.tokens) == Err::<
                    Seq<crate::element::ElementView>,
                    _,
                >(e),
            },
    {
        let mut elements: Vec<Element> = Vec::new();
        let mut current_element: Element = Element::empty();
        let mut opened: bool = false;
        proof {
            assert(elements.deep_view() =~= init_asm_st().elements);
        }
        let mut j: usize = 0;
        while j < self.tokens.len()
            invariant
                j <= self@.tokens.len(),
                asm_from(
                    self@.tokens,
                    j as int,
                    AsmSt { elements: elements.deep_view(), cur: current_element@, opened },
                ) == spec_elements(self@.tokens),
            decreases self@.tokens.len() - j,
        {
            let ghost st0 = AsmSt {
                elements: elements.deep_view(),
                cur: current_element@,
                opened,
            };
            let ghost tv = self@.tokens[j as int];
            let t = &self.tokens[j];
            proof {
                assert(tv == token_view(*t));
            }
            if let Token::BracketLeft = t {
                if opened {
                    crate::tokenizer::push_deep(&mut elements, current_element);
                    current_element = Element::empty();
                }
                opened = true;
            }
            match t {
                Token::ElementName(name) => match name {
                    Some(string) => {
                        current_element.element_type = crate::element::classify_name(string);
                        current_element.element_name = string.clone();
                    },
                    None => {
                        return Err(TokenizerError::NotFound(ExpectedType::ElementName));
                    },
                },
                Token::ElementDataName(name) => match name {
                    Some(string) => {
                        push_deep(
                            &mut current_element.element_data,
                            ElementData(string.clone(), String::new()),
                        );
                    },
                    None => {
                        return Err(TokenizerError::NotFound(ExpectedType::ElementDataName));
                    },
                },
                Token::ElementDataValue(value) => match value {
                    Some(string) => {
                        let dlen = current_element.element_data.len();
                        if dlen == 0 {
                            return Err(TokenizerError::UnexpectedErr);
                        }
                        let ghost pre_vec = current_element.element_data;
                        let data = &mut current_element.element_data[dlen - 1];
                        data.1 = string.clone();
                        proof {
                            lemma_update_deep(
                                pre_vec,
                                current_element.element_data,
                                dlen - 1,
                                current_element.element_data@[dlen - 1],
                            );
                        }
                    },
                    None => {
                        return Err(TokenizerError::NotFound(ExpectedType::ElementDataValue));
                    },
                },
                Token::PropertyName(name) => match name {
                    Some(string) => {
                        push_deep(
                            &mut current_element.properties,
                            Property(string.clone(), String::new()),
                        );
                    },
                    None => {
                        return Err(TokenizerError::NotFound(ExpectedType::PropertyName));
                    },
                },
                Token::PropertyValue(value) => match value {
                    Some(string) => {
                        let plen = current_element.properties.len();
                        if plen == 0 {
                            return Err(TokenizerError::UnexpectedErr);
                        }
                        let ghost pre_vec = current_element.properties;
                        let prop = &mut current_element.properties[plen - 1];
                        prop.1 = string.clone();
                        proof {
                            lemma_update_deep(
                                pre_vec,
                                current_element.properties,
                                plen - 1,
                                current_element.properties@[plen - 1],
                            );
                        }
                    },
                    None => {
                        return Err(TokenizerError::NotFound(ExpectedType::PropertyValue));
                    },
                },
                _ => {},
            }
            push_deep(&mut current_element.tokens, clone_token(t));
            proof {
                let st1 = AsmSt {
                    elements: elements.deep_view(),
                    cur: current_element@,
                    opened,
                };
                assert(asm_step(tv, st0) == Ok::<AsmSt, TokenizerError>(st1));
            }
            j += 1;
        }
        if opened {
            push_deep(&mut elements, current_element);
        }
        Ok(elements)
    }
}

/// The lexer state a tokenizer value and an expectation cursor stand for.
pub open spec fn lex_st_of(t: TokenizerView, expect: Expectation) -> LexSt {
    LexSt {
        tokens: t.tokens,
        buf: t.buf,
        in_quote: t.in_quote,
        completed: t.completed,
        expect,
    }
}

/// If no character in `[i, k)` is a newline and `k` is a newline (or the
/// input length), the next newline from `i` is at `k`.
pub(crate) proof fn lemma_next_newline_at(input: Seq<char>, i: int, k: int)
    requires
        0 <= i <= k <= input.len(),
        forall|m: int| i <= m < k ==> input[m] != '\n',
        k == input.len() || input[k] == '\n',
    ensures
        next_newline(input, i) == k,
    decreases k - i,
{
    if i < k {
        lemma_next_newline_at(input, i + 1, k);
    }
}

impl Tokenizer {
    /// Converts a raw document into its ordered token sequence and, from
    /// it, the assembled elements: the result is exactly what
    /// [`spec_parse`] assigns to the text, failure included.
    pub fn tokenize(content: &str) -> (r: Result<Tokenizer, TokenizerError>)
        ensures
            match r {
                Ok(tk) => spec_parse(content@) == Ok::<_, TokenizerError>(
                    (tk@.tokens, tk@.elements),
                ),
                Err(e) => spec_parse(content@) == Err::<
                    (Seq<TokenView>, Seq<crate::element::ElementView>),
                    _,
                >(e),
            },
    {
        let chars = str_to_chars(content);
        let ghost input = content@;
        let mut ends_space: Vec<char> = Vec::new();
        ends_space.push(' ');
        let mut ends_space_eq: Vec<char> = Vec::new();
        ends_space_eq.push(' ');
        ends_space_eq.push('=');
        proof {
            assert(ends_space@ =~= seq![' ']);
            assert(ends_space_eq@ =~= seq![' ', '=']);
        }
        let mut tokenizer = Tokenizer {
            elements: Vec::new(),
            tokens: Vec::new(),
            current_string: None,
            in_quote: false,
            current_string_completed: false,
        };
        let mut expect = Expectation::Free;
        let mut i: usize = 0;
        let n = chars.len();
        proof {
            assert(tokenizer@.tokens =~= init_lex_st().tokens);
            assert(lex_st_of(tokenizer@, expect) == init_lex_st());
        }
        while i < n
            invariant
                input == content@,
                n == input.len(),
                chars@ == input,
                i <= n,
                ends_space@ == seq![' '],
                ends_space_eq@ == seq![' ', '='],
                lex_from(input, i as int, lex_st_of(tokenizer@, expect)) == spec_tokenize(input),
            decreases n - i,
        {
            let ghost st0 = lex_st_of(tokenizer@, expect);
            let c = chars[i];
            if expect == Expectation::Invalid {
                proof {
                    assert(lex_step(input, i as int, st0) == LexStep::Fail(
                        TokenizerError::InvalidChar(i as usize),
                    ));
                    assert(lex_from(input, i as int, st0) == Err::<Seq<TokenView>, _>(
                        TokenizerError::InvalidChar(i as usize),
                    ));
                    assert(spec_tokenize(input) == Err::<Seq<TokenView>, _>(
                        TokenizerError::InvalidChar(i as usize),
                    ));
                }
                return Err(TokenizerError::InvalidChar(i));
            } else if expect == Expectation::PendingPropertyValue {
                expect = Expectation::PropertyValue;
                proof {
                    assert(lex_step(input, i as int, st0) == LexStep::Next(
                        lex_st_of(tokenizer@, expect),
                        i + 1,
                    ));
                }
                i += 1;
            } else if c == '[' && expect != Expectation::PropertyValue && expect
                != Expectation::ElementDataValue {
                tokenizer.in_quote = false;
                push_deep(&mut tokenizer.tokens, Token::BracketLeft);
                expect = Expectation::ElementName;
                proof {
                    assert(lex_step(input, i as int, st0) == LexStep::Next(
                        lex_st_of(tokenizer@, expect),
                        i + 1,
                    ));
                }
                i += 1;
            } else if c == ']' {
                if expect == Expectation::ElementDataValue {
                    let token_value = tokenizer.consume_current_string();
                    push_deep(&mut tokenizer.tokens, Token::ElementDataValue(token_value));
                    expect = Expectation::Free;
                } else if expect == Expectation::PropertyValue {
                    let token_value = tokenizer.consume_current_string();
                    push_deep(&mut tokenizer.tokens, Token::PropertyValue(token_value));
                    expect = Expectation::Free;
                }
                tokenizer.in_quote = false;
                push_deep(&mut tokenizer.tokens, Token::BracketRight);
                proof {
                    assert(lex_step(input, i as int, st0) == LexStep::Next(
                        lex_st_of(tokenizer@, expect),
                        i + 1,
                    ));
                }
                i += 1;
            } else if c == '\n' {
                if expect == Expectation::PropertyValue {
                    let v = tokenizer.consume_current_string();
                    match v {
                        Some(s) => {
                            push_deep(&mut tokenizer.tokens, Token::PropertyValue(Some(s)));
                        },
                        None => {},
                    }
                    expect = Expectation::PropertyName;
                } else {
                    let tlen = tokenizer.tokens.len();
                    if tlen > 0 {
                        match &tokenizer.tokens[tlen - 1] {
                            Token::BracketRight => {
                                expect = Expectation::PropertyName;
                            },
                            _ => {},
                        }
                    }
                    tokenizer.in_quote = false;
                }
                push_deep(&mut tokenizer.tokens, Token::NewLine);
                proof {
                    assert(lex_step(input, i as int, st0) == LexStep::Next(
                        lex_st_of(tokenizer@, expect),
                        i + 1,
                    ));
                }
                i += 1;
            } else {
                match expect {
                    Expectation::Free => {
                        // a content character outside any record: fail, so
                        // that no malformed text is silently absorbed
                        proof {
                            assert(lex_step(input, i as int, st0) == LexStep::Fail(
                                TokenizerError::InvalidChar(i as usize),
                            ));
                            assert(lex_from(input, i as int, st0) == Err::<Seq<TokenView>, _>(
                                TokenizerError::InvalidChar(i as usize),
                            ));
                            assert(spec_tokenize(input) == Err::<Seq<TokenView>, _>(
                                TokenizerError::InvalidChar(i as usize),
                            ));
                        }
                        return Err(TokenizerError::InvalidChar(i));
                    },
                    Expectation::ElementName => {
                        tokenizer.append_current_string(c, ends_space.as_slice());
                        if tokenizer.current_string_completed {
                            expect = Expectation::ElementDataName;
                            let v = tokenizer.consume_current_string();
                            push_deep(&mut tokenizer.tokens, Token::ElementName(v));
                        }
                        proof {
                            assert(lex_step(input, i as int, st0) == LexStep::Next(
                                lex_st_of(tokenizer@, expect),
                                i + 1,
                            ));
                        }
                        i += 1;
                    },
                    Expectation::ElementDataName => {
                        tokenizer.append_current_string(c, ends_space_eq.as_slice());
                        if tokenizer.current_string_completed {
                            expect = Expectation::ElementDataValue;
                            let v = tokenizer.consume_current_string();
                            push_deep(&mut tokenizer.tokens, Token::ElementDataName(v));
                        }
                        proof {
                            assert(lex_step(input, i as int, st0) == LexStep::Next(
                                lex_st_of(tokenizer@, expect),
                                i + 1,
                            ));
                        }
                        i += 1;
                    },
                    Expectation::ElementDataValue => {
                        tokenizer.append_current_string(c, ends_space.as_slice());
                        if tokenizer.current_string_completed {
                            expect = Expectation::ElementDataName;
                            let v = tokenizer.consume_current_string();
                            push_deep(&mut tokenizer.tokens, Token::ElementDataValue(v));
                        }
                        proof {
                            assert(lex_step(input, i as int, st0) == LexStep::Next(
                                lex_st_of(tokenizer@, expect),
                                i + 1,
                            ));
                        }
                        i += 1;
                    },
                    Expectation::PropertyName => {
                        tokenizer.append_current_string(c, ends_space_eq.as_slice());
                        if tokenizer.current_string_completed {
                            if i + 1 < n && chars[i + 1] == '=' {
                                expect = Expectation::PendingPropertyValue;
                                let v = tokenizer.consume_current_string();
                                push_deep(&mut tokenizer.tokens, Token::PropertyName(v));
                            } else {
                                // the completed name must be followed by
                                // the separator
                                proof {
                                    assert(lex_step(input, i as int, st0) == LexStep::Fail(
                                        TokenizerError::EarlyEOF,
                                    ));
                                    assert(lex_from(input, i as int, st0) == Err::<
                                        Seq<TokenView>,
                                        _,
                                    >(TokenizerError::EarlyEOF));
                                    assert(spec_tokenize(input) == Err::<Seq<TokenView>, _>(
                                        TokenizerError::EarlyEOF,
                                    ));
                                }
                                return Err(TokenizerError::EarlyEOF);
                            }
                        }
                        proof {
                            assert(lex_step(input, i as int, st0) == LexStep::Next(
                                lex_st_of(tokenizer@, expect),
                                i + 1,
                            ));
                        }
                        i += 1;
                    },
                    Expectation::PropertyValue => {
                        // the rest of the line is captured verbatim in one
                        // step; structurally significant characters inside
                        // it are not reinterpreted
                        let mut line_end: usize = i;
                        let mut scan: bool = true;
                        while scan && line_end < n
                            invariant
                                i <= line_end <= n,
                                n == input.len(),
                                chars@ == input,
                                forall|m: int| i <= m < line_end ==> input[m] != '\n',
                                !scan ==> line_end < n && input[line_end as int] == '\n',
                            decreases n - line_end, (if scan { 1int } else { 0int }),
                        {
                            if chars[line_end] == '\n' {
                                scan = false;
                            } else {
                                line_end += 1;
                            }
                        }
                        proof {
                            lemma_next_newline_at(input, i as int, line_end as int);
                        }
                        let mut captured = String::new();
                        let mut m: usize = i;
                        while m < line_end
                            invariant
                                i <= m <= line_end <= n,
                                n == input.len(),
                                chars@ == input,
                                captured@ == input.subrange(i as int, m as int),
                            decreases line_end - m,
                        {
                            captured.push(chars[m]);
                            proof {
                                assert(input.subrange(i as int, m as int).push(input[m as int])
                                    =~= input.subrange(i as int, m + 1));
                            }
                            m += 1;
                        }
                        tokenizer.current_string = Some(captured);
                        tokenizer.current_string_completed = true;
                        let prop_value = tokenizer.consume_current_string();
                        push_deep(&mut tokenizer.tokens, Token::PropertyValue(prop_value));
                        push_deep(&mut tokenizer.tokens, Token::NewLine);
                        expect = Expectation::PropertyName;
                        let next_i = if line_end < n {
                            line_end + 1
                        } else {
                            n
                        };
                        proof {
                            assert(lex_step(input, i as int, st0) == LexStep::Next(
                                lex_st_of(tokenizer@, expect),
                                next_i as int,
                            ));
                        }
                        i = next_i;
                    },
                    _ => {
                        proof {
                            assert(false);
                        }
                    },
                }
            }
        }
        proof {
            assert(spec_tokenize(input) == Ok::<_, TokenizerError>(tokenizer@.tokens));
        }
        match tokenizer.elements_from_tokens() {
            Ok(elements) => {
                tokenizer.elements = elements;
                Ok(tokenizer)
            },
            Err(error) => Err(error),
        }
    }
}

/// Appending one vector to another concatenates their deep views.
pub proof fn lemma_append_deep<T: DeepView>(pre: Vec<T>, post: Vec<T>, other: Vec<T>)
    requires
        post@ == pre@ + other@,
    ensures
        post.deep_view() == pre.deep_view() + other.deep_view(),
{
    let lhs = post.deep_view();
    let rhs = pre.deep_view() + other.deep_view();
    assert forall|j: int| 0 <= j < lhs.len() implies lhs[j] == rhs[j] by {
        assert(lhs[j] == post@[j].deep_view());
        if j < pre@.len() {
            assert(post@[j] == pre@[j]);
            assert(pre.deep_view()[j] == pre@[j].deep_view());
        } else {
            assert(post@[j] == other@[j - pre@.len()]);
            assert(other.deep_view()[j - pre@.len()] == other@[j - pre@.len()].deep_view());
        }
    }
    assert(lhs =~= rhs);
}

/// Token-to-text rendering of a whole sequence, shared by the public
/// reconstruction entry points.
pub(crate) fn render_tokens(tokens: &Vec<Token>) -> (r: String)
    ensures
        r@ == spec_render(tokens.deep_view()),
{
    let mut out = String::new();
    let mut k: usize = 0;
    while k < tokens.len()
        invariant
            k <= tokens@.len(),
            out@ == spec_render(tokens.deep_view().take(k as int)),
        decreases tokens@.len() - k,
    {
        let t = &tokens[k];
        let piece = t.to_string();
        out.append(piece.as_str());
        if t.requires_space_suffix() {
            out.push(' ');
        }
        proof {
            let dv = tokens.deep_view();
            assert(dv[k as int] == tokens@[k as int].deep_view());
            let single = seq![dv[k as int]];
            lemma_render_concat(dv.take(k as int), single);
            assert(dv.take(k as int) + single =~= dv.take(k + 1));
            assert(single.drop_first() =~= Seq::<TokenView>::empty());
            assert(spec_render(single) == token_text(dv[k as int]) + (
            if spec_requires_space_suffix(dv[k as int]) {
                seq![' ']
            } else {
                Seq::<char>::empty()
            }) + spec_render(Seq::<TokenView>::empty()));
            assert(out@ == spec_render(dv.take(k + 1)));
        }
        k += 1;
    }
    proof {
        assert(tokens.deep_view().take(tokens.deep_view().len() as int) =~= tokens.deep_view());
    }
    out
}

impl Tokenizer {
    /// The whole document rendered back to text from the flat token
    /// sequence of this tokenizer: byte-exact replay of what was lexed.
    pub fn to_tscn_content(&self) -> (r: String)
        ensures
            r@ == spec_render(self@.tokens),
    {
        render_tokens(&self.tokens)
    }

    /// Renders a token sequence to text: each token's literal substring,
    /// with a single trailing space after element names and data values.
    pub fn reconstruct_tscn_from_tokens(tokens: Vec<Token>) -> (r: String)
        ensures
            r@ == spec_render(tokens.deep_view()),
    {
        render_tokens(&tokens)
    }
}

/// Rendering distributes over concatenation of token sequences.
pub proof fn lemma_render_concat(a: Seq<TokenView>, b: Seq<TokenView>)
    ensures
        spec_render(a + b) == spec_render(a) + spec_render(b),
    decreases a.len(),
{
    if a.len() == 0 {
        assert(a + b == b);
        assert(spec_render(a) == Seq::<char>::empty());
        assert(spec_render(a) + spec_render(b) == spec_render(b));
    } else {
        assert((a + b).drop_first() == a.drop_first() + b);
        lemma_render_concat(a.drop_first(), b);
        assert(spec_render(a + b) == token_text(a[0]) + (if spec_requires_space_suffix(a[0]) {
            seq![' ']
        } else {
            Seq::<char>::empty()
        }) + (spec_render(a.drop_first()) + spec_render(b)));
    }
}

} // verus!
