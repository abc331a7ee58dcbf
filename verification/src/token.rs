//! HTML tokenizer: a lazy producer of tokens over a character buffer indexed
//! by a cursor, with a re-consume flag (the last character can be re-read
//! once), a scratch buffer for the script end-tag protocol, and a slot for
//! the token under construction.
//!
//! The machine itself is specified functionally: `spec_step` is the
//! transition table over the tokenizer's view, `spec_run` iterates it, and
//! `next` returns exactly the machine's first emission from the old state,
//! leaving the machine's successor state behind. The tokenizer never fails:
//! where the cursor runs out inside a tag, the states that check for end of
//! input emit `Eof` once; a call made with the cursor at or past the end of
//! the buffer yields nothing. Emitted tag names are lowercase, and
//! attributes accumulate in input order.

use vstd::prelude::*;
use vstd::string::StrSliceExecFns;
use crate::attribute::{Attribute, AttributeView};
use crate::text::{no_upper, lower_char, is_ascii_alphabetic, is_ascii_uppercase,
    to_lowercase_char, spec_is_alpha, spec_is_upper};

verus! {

#[derive(Clone, Debug, PartialEq, Eq)]
pub enum HtmlToken {
    StartTag { tag: String, self_closing: bool, attributes: Vec<Attribute> },
    EndTag { tag: String },
    Char(char),
    Eof,
}

/// The mathematical shape of a token: tag names and attribute texts as
/// character sequences.
pub enum TokenView {
    StartTag { tag: Seq<char>, self_closing: bool, attributes: Seq<AttributeView> },
    EndTag { tag: Seq<char> },
    Char(char),
    Eof,
}

pub open spec fn token_view(t: HtmlToken) -> TokenView {
    match t {
        HtmlToken::StartTag { tag, self_closing, attributes } => TokenView::StartTag {
            tag: tag@,
            self_closing,
            attributes: attributes@.map_values(|a: Attribute| a@),
        },
        HtmlToken::EndTag { tag } => TokenView::EndTag { tag: tag@ },
        HtmlToken::Char(c) => TokenView::Char(c),
        HtmlToken::Eof => TokenView::Eof,
    }
}

pub open spec fn opt_token_view(t: Option<HtmlToken>) -> Option<TokenView> {
    match t {
        Some(t) => Some(token_view(t)),
        None => None,
    }
}

/// Emitted start and end tags carry no uppercase letter in their name.
pub open spec fn token_tag_no_upper(t: HtmlToken) -> bool {
    match t {
        HtmlToken::StartTag { tag, .. } => no_upper(tag@),
        HtmlToken::EndTag { tag } => no_upper(tag@),
        HtmlToken::Char(..) => true,
        HtmlToken::Eof => true,
    }
}

/// A token under construction: a start or end tag with a lowercase name.
pub open spec fn tag_token_wf(t: TokenView) -> bool {
    match t {
        TokenView::StartTag { tag, .. } => no_upper(tag),
        TokenView::EndTag { tag } => no_upper(tag),
        TokenView::Char(..) => false,
        TokenView::Eof => false,
    }
}

#[derive(Clone, Copy, Debug, PartialEq, Eq, Structural)]
pub enum State {
    Data,
    TagOpen,
    EndTagOpen,
    TagName,
    BeforeAttributeName,
    AttributeName,
    AfterAttributeName,
    BeforeAttributeValue,
    AttributeValueDoubleQuoted,
    AttributeValueSingleQuoted,
    AttributeValueUnquoted,
    AfterAttributeValueQuoted,
    SelfClosingStartTag,
    ScriptData,
    ScriptDataLessThanSign,
    ScriptDataEndTagOpen,
    ScriptDataEndTagName,
    TemporaryBuffer,
}

/// The states that hold a token under construction.
pub open spec fn in_tag_state(st: State) -> bool {
    match st {
        State::TagName => true,
        State::BeforeAttributeName => true,
        State::AttributeName => true,
        State::AfterAttributeName => true,
        State::BeforeAttributeValue => true,
        State::AttributeValueDoubleQuoted => true,
        State::AttributeValueSingleQuoted => true,
        State::AttributeValueUnquoted => true,
        State::AfterAttributeValueQuoted => true,
        State::SelfClosingStartTag => true,
        State::ScriptDataEndTagName => true,
        _ => false,
    }
}

/// How far a state can stand from a fresh read: the rank drops along every
/// transition that re-reads the same character, which bounds the chains of
/// re-consume steps.
pub open spec fn st_rank(st: State) -> int {
    match st {
        State::BeforeAttributeName => 2,
        State::AfterAttributeValueQuoted => 2,
        State::AttributeName => 1,
        State::BeforeAttributeValue => 1,
        State::TemporaryBuffer => 1,
        _ => 0,
    }
}

pub struct TokenizerView {
    pub state: State,
    pub pos: int,
    pub past: bool,
    pub re_consume: bool,
    pub latest_token: Option<TokenView>,
    pub input: Seq<char>,
    pub buf: Seq<char>,
}

/// The character a re-consuming read yields: the one before the cursor, or
/// the null placeholder once the cursor has moved past the buffer.
pub open spec fn cur_char(v: TokenizerView) -> char {
    if v.past {
        '\0'
    } else if 1 <= v.pos <= v.input.len() {
        v.input[v.pos - 1]
    } else {
        '\0'
    }
}

/// The two views agree on everything but the token under construction.
pub open spec fn same_but_latest(a: TokenizerView, b: TokenizerView) -> bool {
    a.state == b.state && a.pos == b.pos && a.past == b.past && a.re_consume == b.re_consume
        && a.input == b.input && a.buf == b.buf
}

/// A fresh start tag under construction.
pub open spec fn new_start_tag() -> Option<TokenView> {
    Some(
        TokenView::StartTag {
            tag: Seq::<char>::empty(),
            self_closing: false,
            attributes: Seq::<AttributeView>::empty(),
        },
    )
}

/// A fresh end tag under construction.
pub open spec fn new_end_tag() -> Option<TokenView> {
    Some(TokenView::EndTag { tag: Seq::<char>::empty() })
}

/// `ch` appended to the name of the tag under construction; anything else is
/// left alone.
pub open spec fn with_tag_push(t: Option<TokenView>, ch: char) -> Option<TokenView> {
    match t {
        Some(TokenView::StartTag { tag, self_closing, attributes }) => Some(
            TokenView::StartTag { tag: tag.push(ch), self_closing, attributes },
        ),
        Some(TokenView::EndTag { tag }) => Some(TokenView::EndTag { tag: tag.push(ch) }),
        other => other,
    }
}

/// A fresh, empty attribute appended at the end of a start tag under
/// construction; anything else is left alone.
pub open spec fn with_new_attribute(t: Option<TokenView>) -> Option<TokenView> {
    match t {
        Some(TokenView::StartTag { tag, self_closing, attributes }) => Some(
            TokenView::StartTag {
                tag,
                self_closing,
                attributes: attributes.push(
                    AttributeView { name: Seq::<char>::empty(), value: Seq::<char>::empty() },
                ),
            },
        ),
        other => other,
    }
}

/// `ch` appended to the name of the newest attribute of a start tag under
/// construction; without one, everything is left alone.
pub open spec fn with_attr_name_push(t: Option<TokenView>, ch: char) -> Option<TokenView> {
    match t {
        Some(TokenView::StartTag { tag, self_closing, attributes }) => if attributes.len() > 0 {
            Some(
                TokenView::StartTag {
                    tag,
                    self_closing,
                    attributes: attributes.update(
                        attributes.len() - 1,
                        AttributeView {
                            name: attributes.last().name.push(ch),
                            value: attributes.last().value,
                        },
                    ),
                },
            )
        } else {
            t
        },
        other => other,
    }
}

/// `ch` appended to the value of the newest attribute of a start tag under
/// construction; without one, everything is left alone.
pub open spec fn with_attr_value_push(t: Option<TokenView>, ch: char) -> Option<TokenView> {
    match t {
        Some(TokenView::StartTag { tag, self_closing, attributes }) => if attributes.len() > 0 {
            Some(
                TokenView::StartTag {
                    tag,
                    self_closing,
                    attributes: attributes.update(
                        attributes.len() - 1,
                        AttributeView {
                            name: attributes.last().name,
                            value: attributes.last().value.push(ch),
                        },
                    ),
                },
            )
        } else {
            t
        },
        other => other,
    }
}

/// The start tag under construction marked self-closing; anything else is
/// left alone.
pub open spec fn with_self_closing(t: Option<TokenView>) -> Option<TokenView> {
    match t {
        Some(TokenView::StartTag { tag, self_closing: _, attributes }) => Some(
            TokenView::StartTag { tag, self_closing: true, attributes },
        ),
        other => other,
    }
}

pub struct HtmlTokenizer {
    state: State,
    pos: usize,
    /// Whether the cursor has been moved past the end of the buffer.
    past: bool,
    re_consume: bool,
    latest_token: Option<HtmlToken>,
    input: Vec<char>,
    buf: Vec<char>,
}

impl View for HtmlTokenizer {
    type V = TokenizerView;

    closed spec fn view(&self) -> TokenizerView {
        TokenizerView {
            state: self.state,
            pos: self.pos as int,
            past: self.past,
            re_consume: self.re_consume,
            latest_token: opt_token_view(self.latest_token),
            input: self.input@,
            buf: self.buf@,
        }
    }
}

/// The cursor stays within the buffer, a pending re-consume has something to
/// re-read and only arises where a token was just emitted, and the states
/// inside a tag hold a start or end tag with a lowercase name.
pub open spec fn tokenizer_wf(v: TokenizerView) -> bool {
    &&& 0 <= v.pos <= v.input.len()
    &&& (v.past ==> v.pos == v.input.len())
    &&& (v.re_consume ==> 1 <= v.pos)
    &&& (v.re_consume ==> (v.state == State::ScriptData || v.state == State::TemporaryBuffer))
    &&& (in_tag_state(v.state) ==> match v.latest_token {
        Some(t) => tag_token_wf(t),
        None => false,
    })
}

/// First component of the progress measure: two for every character still
/// ahead of the cursor, plus one while the cursor has not yet moved past the
/// end.
pub open spec fn m_pos(v: TokenizerView) -> int {
    2 * (v.input.len() - v.pos) + if v.past {
        0int
    } else {
        1int
    }
}

pub open spec fn m_flag(v: TokenizerView) -> int {
    if v.re_consume {
        1int
    } else {
        0int
    }
}

/// The tokenizer's progress measure, ordered lexicographically. It never
/// grows across `next`, and producing a token strictly shrinks it, so the
/// token stream over a finite input is finite.
pub open spec fn measure(v: TokenizerView) -> (int, int, int, int) {
    (m_pos(v), m_flag(v), v.buf.len() as int, st_rank(v.state))
}

pub open spec fn measure_lt(a: (int, int, int, int), b: (int, int, int, int)) -> bool {
    ||| a.0 < b.0
    ||| (a.0 == b.0 && a.1 < b.1)
    ||| (a.0 == b.0 && a.1 == b.1 && a.2 < b.2)
    ||| (a.0 == b.0 && a.1 == b.1 && a.2 == b.2 && a.3 < b.3)
}

pub open spec fn measure_le(a: (int, int, int, int), b: (int, int, int, int)) -> bool {
    a == b || measure_lt(a, b)
}

/// Tokenizer termination: the progress measure of a well-formed tokenizer is
/// bounded below, so the strict lexicographic drop that `next` guarantees
/// for every produced token cannot repeat forever — the token stream over a
/// finite input is finite.
pub proof fn lemma_measure_bounded(v: TokenizerView)
    requires
        tokenizer_wf(v),
    ensures
        m_pos(v) >= 0,
        m_flag(v) >= 0,
        v.buf.len() >= 0,
        st_rank(v.state) >= 0,
{
}

/// One step of the machine in the `Data` state.
#[verifier::opaque]
pub open spec fn step_data(ch: char, v: TokenizerView) -> (Option<Option<TokenView>>, TokenizerView) {
    if ch == '<' {
        (None, TokenizerView { state: State::TagOpen, ..v })
    } else if v.past {
        (Some(Some(TokenView::Eof)), v)
    } else {
        (Some(Some(TokenView::Char(ch))), v)
    }
}

#[verifier::opaque]
pub open spec fn step_tag_open(ch: char, v: TokenizerView) -> (Option<Option<TokenView>>, TokenizerView) {
    if ch == '/' {
        (None, TokenizerView { state: State::EndTagOpen, ..v })
    } else if spec_is_alpha(ch) {
        (
            None,
            TokenizerView {
                re_consume: true,
                state: State::TagName,
                latest_token: new_start_tag(),
                ..v
            },
        )
    } else if v.past {
        (Some(Some(TokenView::Eof)), v)
    } else {
        (None, TokenizerView { re_consume: true, state: State::Data, ..v })
    }
}

#[verifier::opaque]
pub open spec fn step_end_tag_open(ch: char, v: TokenizerView) -> (Option<Option<TokenView>>, TokenizerView) {
    if v.past {
        (Some(Some(TokenView::Eof)), v)
    } else if spec_is_alpha(ch) {
        (
            None,
            TokenizerView {
                re_consume: true,
                state: State::TagName,
                latest_token: new_end_tag(),
                ..v
            },
        )
    } else {
        (None, v)
    }
}

#[verifier::opaque]
pub open spec fn step_tag_name(ch: char, v: TokenizerView) -> (Option<Option<TokenView>>, TokenizerView) {
    if ch == ' ' {
        (None, TokenizerView { state: State::BeforeAttributeName, ..v })
    } else if ch == '/' {
        (None, TokenizerView { state: State::SelfClosingStartTag, ..v })
    } else if ch == '>' {
        (Some(v.latest_token), TokenizerView { state: State::Data, latest_token: None, ..v })
    } else if spec_is_upper(ch) {
        (None, TokenizerView { latest_token: with_tag_push(v.latest_token, lower_char(ch)), ..v })
    } else if v.past {
        (Some(Some(TokenView::Eof)), v)
    } else {
        (None, TokenizerView { latest_token: with_tag_push(v.latest_token, ch), ..v })
    }
}

#[verifier::opaque]
pub open spec fn step_before_attribute_name(ch: char, v: TokenizerView) -> (
    Option<Option<TokenView>>,
    TokenizerView,
) {
    if ch == '/' || ch == '>' || v.past {
        (None, TokenizerView { re_consume: true, state: State::AfterAttributeName, ..v })
    } else {
        (
            None,
            TokenizerView {
                re_consume: true,
                state: State::AttributeName,
                latest_token: with_new_attribute(v.latest_token),
                ..v
            },
        )
    }
}

#[verifier::opaque]
pub open spec fn step_attribute_name(ch: char, v: TokenizerView) -> (Option<Option<TokenView>>, TokenizerView) {
    if ch == ' ' || ch == '/' || ch == '>' || v.past {
        (None, TokenizerView { re_consume: true, state: State::AfterAttributeName, ..v })
    } else if ch == '=' {
        (None, TokenizerView { state: State::BeforeAttributeValue, ..v })
    } else if spec_is_upper(ch) {
        (
            None,
            TokenizerView {
                latest_token: with_attr_name_push(v.latest_token, lower_char(ch)),
                ..v
            },
        )
    } else {
        (None, TokenizerView { latest_token: with_attr_name_push(v.latest_token, ch), ..v })
    }
}

#[verifier::opaque]
pub open spec fn step_after_attribute_name(ch: char, v: TokenizerView) -> (
    Option<Option<TokenView>>,
    TokenizerView,
) {
    if ch == ' ' {
        (None, v)
    } else if ch == '/' {
        (None, TokenizerView { state: State::SelfClosingStartTag, ..v })
    } else if ch == '=' {
        (None, TokenizerView { state: State::BeforeAttributeValue, ..v })
    } else if ch == '>' {
        (Some(v.latest_token), TokenizerView { state: State::Data, latest_token: None, ..v })
    } else if v.past {
        (Some(Some(TokenView::Eof)), v)
    } else {
        (
            None,
            TokenizerView {
                re_consume: true,
                state: State::AttributeName,
                latest_token: with_new_attribute(v.latest_token),
                ..v
            },
        )
    }
}

#[verifier::opaque]
pub open spec fn step_before_attribute_value(ch: char, v: TokenizerView) -> (
    Option<Option<TokenView>>,
    TokenizerView,
) {
    if ch == ' ' {
        (None, v)
    } else if ch == '"' {
        (None, TokenizerView { state: State::AttributeValueDoubleQuoted, ..v })
    } else if ch == '\'' {
        (None, TokenizerView { state: State::AttributeValueSingleQuoted, ..v })
    } else {
        (None, TokenizerView { re_consume: true, state: State::AttributeValueUnquoted, ..v })
    }
}

#[verifier::opaque]
pub open spec fn step_value_double_quoted(ch: char, v: TokenizerView) -> (
    Option<Option<TokenView>>,
    TokenizerView,
) {
    if ch == '"' {
        (None, TokenizerView { state: State::AfterAttributeValueQuoted, ..v })
    } else if v.past {
        (Some(Some(TokenView::Eof)), v)
    } else {
        (None, TokenizerView { latest_token: with_attr_value_push(v.latest_token, ch), ..v })
    }
}

#[verifier::opaque]
pub open spec fn step_value_single_quoted(ch: char, v: TokenizerView) -> (
    Option<Option<TokenView>>,
    TokenizerView,
) {
    if ch == '\'' {
        (None, TokenizerView { state: State::AfterAttributeValueQuoted, ..v })
    } else if v.past {
        (Some(Some(TokenView::Eof)), v)
    } else {
        (None, TokenizerView { latest_token: with_attr_value_push(v.latest_token, ch), ..v })
    }
}

#[verifier::opaque]
pub open spec fn step_value_unquoted(ch: char, v: TokenizerView) -> (
    Option<Option<TokenView>>,
    TokenizerView,
) {
    if ch == ' ' {
        (None, TokenizerView { state: State::BeforeAttributeName, ..v })
    } else if ch == '>' {
        (Some(v.latest_token), TokenizerView { state: State::Data, latest_token: None, ..v })
    } else if v.past {
        (Some(Some(TokenView::Eof)), v)
    } else {
        (None, TokenizerView { latest_token: with_attr_value_push(v.latest_token, ch), ..v })
    }
}

#[verifier::opaque]
pub open spec fn step_after_value_quoted(ch: char, v: TokenizerView) -> (
    Option<Option<TokenView>>,
    TokenizerView,
) {
    if ch == ' ' {
        (None, TokenizerView { state: State::BeforeAttributeName, ..v })
    } else if ch == '/' {
        (None, TokenizerView { state: State::SelfClosingStartTag, ..v })
    } else if ch == '>' {
        (Some(v.latest_token), TokenizerView { state: State::Data, latest_token: None, ..v })
    } else if v.past {
        (Some(Some(TokenView::Eof)), v)
    } else {
        (None, TokenizerView { re_consume: true, state: State::BeforeAttributeValue, ..v })
    }
}

#[verifier::opaque]
pub open spec fn step_self_closing(ch: char, v: TokenizerView) -> (
    Option<Option<TokenView>>,
    TokenizerView,
) {
    if ch == '>' {
        (
            Some(with_self_closing(v.latest_token)),
            TokenizerView { state: State::Data, latest_token: None, ..v },
        )
    } else if v.past {
        (Some(Some(TokenView::Eof)), v)
    } else {
        (None, v)
    }
}

#[verifier::opaque]
pub open spec fn step_script_data(ch: char, v: TokenizerView) -> (
    Option<Option<TokenView>>,
    TokenizerView,
) {
    if ch == '<' {
        (None, TokenizerView { state: State::ScriptDataLessThanSign, ..v })
    } else if v.past {
        (Some(Some(TokenView::Eof)), v)
    } else {
        (Some(Some(TokenView::Char(ch))), v)
    }
}

#[verifier::opaque]
pub open spec fn step_script_less_than(ch: char, v: TokenizerView) -> (
    Option<Option<TokenView>>,
    TokenizerView,
) {
    if ch == '/' {
        (
            None,
            TokenizerView {
                buf: Seq::<char>::empty(),
                state: State::ScriptDataEndTagOpen,
                ..v
            },
        )
    } else {
        (
            Some(Some(TokenView::Char('<'))),
            TokenizerView { re_consume: true, state: State::ScriptData, ..v },
        )
    }
}

#[verifier::opaque]
pub open spec fn step_script_end_tag_open(ch: char, v: TokenizerView) -> (
    Option<Option<TokenView>>,
    TokenizerView,
) {
    if spec_is_alpha(ch) {
        (
            None,
            TokenizerView {
                re_consume: true,
                state: State::ScriptDataEndTagName,
                latest_token: new_end_tag(),
                ..v
            },
        )
    } else {
        (
            Some(Some(TokenView::Char('<'))),
            TokenizerView { re_consume: true, state: State::ScriptData, ..v },
        )
    }
}

#[verifier::opaque]
pub open spec fn step_script_end_tag_name(ch: char, v: TokenizerView) -> (
    Option<Option<TokenView>>,
    TokenizerView,
) {
    if ch == '>' {
        (Some(v.latest_token), TokenizerView { state: State::Data, latest_token: None, ..v })
    } else if spec_is_alpha(ch) {
        (
            None,
            TokenizerView {
                buf: v.buf.push(ch),
                latest_token: with_tag_push(v.latest_token, lower_char(ch)),
                ..v
            },
        )
    } else {
        (
            None,
            TokenizerView {
                state: State::TemporaryBuffer,
                buf: seq!['<', '/'] + v.buf + seq![ch],
                ..v
            },
        )
    }
}

#[verifier::opaque]
pub open spec fn step_temporary_buffer(v: TokenizerView) -> (
    Option<Option<TokenView>>,
    TokenizerView,
) {
    if v.buf.len() == 0 {
        (None, TokenizerView { re_consume: true, state: State::ScriptData, ..v })
    } else {
        (
            Some(Some(TokenView::Char(v.buf[0]))),
            TokenizerView {
                re_consume: true,
                buf: v.buf.subrange(1, v.buf.len() as int),
                ..v
            },
        )
    }
}

/// What the state the machine stands in does with the character just read:
/// nothing emitted yet (keep stepping), or the signal to hand out — a token,
/// or nothing at all.
pub open spec fn spec_dispatch(ch: char, v: TokenizerView) -> (
    Option<Option<TokenView>>,
    TokenizerView,
) {
    match v.state {
        State::Data => step_data(ch, v),
        State::TagOpen => step_tag_open(ch, v),
        State::EndTagOpen => step_end_tag_open(ch, v),
        State::TagName => step_tag_name(ch, v),
        State::BeforeAttributeName => step_before_attribute_name(ch, v),
        State::AttributeName => step_attribute_name(ch, v),
        State::AfterAttributeName => step_after_attribute_name(ch, v),
        State::BeforeAttributeValue => step_before_attribute_value(ch, v),
        State::AttributeValueDoubleQuoted => step_value_double_quoted(ch, v),
        State::AttributeValueSingleQuoted => step_value_single_quoted(ch, v),
        State::AttributeValueUnquoted => step_value_unquoted(ch, v),
        State::AfterAttributeValueQuoted => step_after_value_quoted(ch, v),
        State::SelfClosingStartTag => step_self_closing(ch, v),
        State::ScriptData => step_script_data(ch, v),
        State::ScriptDataLessThanSign => step_script_less_than(ch, v),
        State::ScriptDataEndTagOpen => step_script_end_tag_open(ch, v),
        State::ScriptDataEndTagName => step_script_end_tag_name(ch, v),
        State::TemporaryBuffer => step_temporary_buffer(v),
    }
}

/// One step of the tokenizer machine: acquire a character — re-reading the
/// one before the cursor when the re-consume flag is set, else reading under
/// the cursor, the null placeholder standing in once the buffer is out — and
/// act on it; a read attempted with the cursor already past the buffer halts
/// with no token.
pub open spec fn spec_step(v: TokenizerView) -> (Option<Option<TokenView>>, TokenizerView) {
    if v.re_consume {
        spec_dispatch(cur_char(v), TokenizerView { re_consume: false, ..v })
    } else if v.pos >= v.input.len() {
        if v.past {
            (Some(None), v)
        } else {
            spec_dispatch('\0', TokenizerView { past: true, ..v })
        }
    } else {
        spec_dispatch(v.input[v.pos], TokenizerView { pos: v.pos + 1, ..v })
    }
}

/// At most `n` machine steps from `v`: the first emitted signal with the
/// state it leaves behind, or — with nothing emitted in `n` steps — the
/// state reached.
pub open spec fn spec_run(v: TokenizerView, n: nat) -> (Option<Option<TokenView>>, TokenizerView)
    decreases n,
{
    if n == 0 {
        (None, v)
    } else {
        let s = spec_step(v);
        if s.0 is Some {
            s
        } else {
            spec_run(s.1, (n - 1) as nat)
        }
    }
}

/// Extending an emission-free run by one step performs that step on the
/// state reached.
pub proof fn lemma_spec_run_step(v: TokenizerView, n: nat)
    requires
        spec_run(v, n).0 is None,
    ensures
        ({
            let s = spec_step(spec_run(v, n).1);
            spec_run(v, n + 1) == if s.0 is Some {
                s
            } else {
                (None::<Option<TokenView>>, s.1)
            }
        }),
    decreases n,
{
    let s0 = spec_step(v);
    if n == 0 {
        assert(spec_run(v, 0) == (None::<Option<TokenView>>, v));
        if s0.0 is None {
            assert(spec_run(s0.1, 0nat) == (None::<Option<TokenView>>, s0.1));
            assert(spec_run(v, 1) == spec_run(s0.1, 0nat));
        }
    } else {
        if s0.0 is None {
            assert(spec_run(v, n) == spec_run(s0.1, (n - 1) as nat));
            assert(spec_run(v, n + 1) == spec_run(s0.1, n));
            lemma_spec_run_step(s0.1, (n - 1) as nat);
        } else {
            assert(spec_run(v, n) == s0);
        }
    }
}

impl HtmlTokenizer {
    pub fn new(html: String) -> (t: HtmlTokenizer)
        ensures
            tokenizer_wf(t@),
            t@.state == State::Data,
            t@.pos == 0,
            !t@.past,
            !t@.re_consume,
            t@.latest_token is None,
            t@.input == html@,
            t@.buf == Seq::<char>::empty(),
    {
        let s: &str = html.as_str();
        let len = s.unicode_len();
        let mut input: Vec<char> = Vec::new();
        let mut i: usize = 0;
        while i < len
            invariant
                i <= len,
                len == s@.len(),
                input@ == s@.subrange(0, i as int),
            decreases len - i,
        {
            input.push(s.get_char(i));
            proof {
                assert(s@.subrange(0, i as int).push(s@[i as int]) =~= s@.subrange(0, i + 1));
            }
            i += 1;
        }
        proof {
            assert(s@.subrange(0, len as int) =~= s@);
        }
        HtmlTokenizer {
            state: State::Data,
            pos: 0,
            past: false,
            re_consume: false,
            latest_token: None,
            input,
            buf: Vec::new(),
        }
    }

    /// Re-reads the character before the cursor and clears the re-consume
    /// flag. Once the cursor is past the buffer, the read yields the null
    /// placeholder again.
    fn re_consume_input(&mut self) -> (ch: char)
        requires
            1 <= old(self)@.pos,
        ensures
            ch == cur_char(old(self)@),
            !final(self)@.re_consume,
            final(self)@ == (TokenizerView { re_consume: false, ..old(self)@ }),
    {
        self.re_consume = false;
        if self.past {
            '\0'
        } else if self.pos - 1 < self.input.len() {
            self.input[self.pos - 1]
        } else {
            '\0'
        }
    }

    /// Reads the character under the cursor and advances it.
    fn consume_next_input(&mut self) -> (ch: char)
        requires
            old(self)@.pos < old(self)@.input.len(),
            !old(self)@.past,
        ensures
            ch == old(self)@.input[old(self)@.pos],
            final(self)@ == (TokenizerView { pos: old(self)@.pos + 1, ..old(self)@ }),
            ch == cur_char(final(self)@),
    {
        let n = self.input.len();
        let ch = self.input[self.pos];
        self.pos += 1;
        ch
    }

    /// The cursor has moved past the end of the buffer.
    fn is_eof(&self) -> (r: bool)
        ensures
            r == self@.past,
    {
        self.past
    }

    fn create_start_tag(&mut self)
        ensures
            same_but_latest(final(self)@, old(self)@),
            final(self)@.latest_token == new_start_tag(),
    {
        let attributes: Vec<Attribute> = Vec::new();
        proof {
            assert(attributes@.map_values(|a: Attribute| a@) =~= Seq::<AttributeView>::empty());
        }
        self.latest_token = Some(
            HtmlToken::StartTag { tag: String::new(), self_closing: false, attributes },
        );
    }

    fn create_end_tag(&mut self)
        ensures
            same_but_latest(final(self)@, old(self)@),
            final(self)@.latest_token == new_end_tag(),
    {
        self.latest_token = Some(HtmlToken::EndTag { tag: String::new() });
    }

    /// Hands the token under construction out and empties the slot.
    fn take_latest_token(&mut self) -> (r: Option<HtmlToken>)
        ensures
            same_but_latest(final(self)@, old(self)@),
            opt_token_view(r) == old(self)@.latest_token,
            final(self)@.latest_token is None,
    {
        self.latest_token.take()
    }

    /// Appends `ch` to the name of the tag under construction; without one,
    /// does nothing.
    fn append_tag_name(&mut self, ch: char)
        ensures
            same_but_latest(final(self)@, old(self)@),
            final(self)@.latest_token == with_tag_push(old(self)@.latest_token, ch),
    {
        match &mut self.latest_token {
            Some(HtmlToken::StartTag { tag, .. }) => crate::text::push_char(tag, ch),
            Some(HtmlToken::EndTag { tag }) => crate::text::push_char(tag, ch),
            _ => {},
        }
    }

    /// Begins a fresh, empty attribute at the end of the start tag under
    /// construction; earlier attributes are untouched. Attribute order: the
    /// attributes of a start tag accumulate in the order they are begun.
    fn start_new_attribute(&mut self)
        ensures
            same_but_latest(final(self)@, old(self)@),
            final(self)@.latest_token == with_new_attribute(old(self)@.latest_token),
    {
        match &mut self.latest_token {
            Some(HtmlToken::StartTag { attributes, .. }) => {
                let ghost m0 = attributes@.map_values(|a: Attribute| a@);
                attributes.push(Attribute::new());
                proof {
                    assert(attributes@.map_values(|a: Attribute| a@) =~= m0.push(
                        AttributeView { name: Seq::<char>::empty(), value: Seq::<char>::empty() },
                    ));
                }
            },
            _ => {},
        }
    }

    /// Appends `ch` to the name of the newest attribute; earlier attributes
    /// are untouched, and nothing happens without a start tag under
    /// construction or without an attribute begun.
    fn append_attribute_name(&mut self, ch: char)
        ensures
            same_but_latest(final(self)@, old(self)@),
            final(self)@.latest_token == with_attr_name_push(old(self)@.latest_token, ch),
    {
        match &mut self.latest_token {
            Some(HtmlToken::StartTag { attributes, .. }) => {
                let length = attributes.len();
                if length > 0 {
                    let ghost m0 = attributes@.map_values(|a: Attribute| a@);
                    let mut a = attributes.remove(length - 1);
                    a.add_name_char(ch);
                    attributes.push(a);
                    proof {
                        assert(attributes@.map_values(|a: Attribute| a@) =~= m0.update(
                            m0.len() - 1,
                            AttributeView {
                                name: m0.last().name.push(ch),
                                value: m0.last().value,
                            },
                        ));
                    }
                }
            },
            _ => {},
        }
    }

    /// Appends `ch` to the value of the newest attribute; earlier attributes
    /// are untouched, and nothing happens without a start tag under
    /// construction or without an attribute begun.
    fn append_attribute_value(&mut self, ch: char)
        ensures
            same_but_latest(final(self)@, old(self)@),
            final(self)@.latest_token == with_attr_value_push(old(self)@.latest_token, ch),
    {
        match &mut self.latest_token {
            Some(HtmlToken::StartTag { attributes, .. }) => {
                let length = attributes.len();
                if length > 0 {
                    let ghost m0 = attributes@.map_values(|a: Attribute| a@);
                    let mut a = attributes.remove(length - 1);
                    a.add_value_char(ch);
                    attributes.push(a);
                    proof {
                        assert(attributes@.map_values(|a: Attribute| a@) =~= m0.update(
                            m0.len() - 1,
                            AttributeView {
                                name: m0.last().name,
                                value: m0.last().value.push(ch),
                            },
                        ));
                    }
                }
            },
            _ => {},
        }
    }

    /// Marks the start tag under construction self-closing; without one,
    /// does nothing.
    fn set_self_closing_flag(&mut self)
        ensures
            same_but_latest(final(self)@, old(self)@),
            final(self)@.latest_token == with_self_closing(old(self)@.latest_token),
    {
        match &mut self.latest_token {
            Some(HtmlToken::StartTag { self_closing, .. }) => {
                *self_closing = true;
            },
            _ => {},
        }
    }

    /// One call of the token stream: runs the machine `spec_step` by
    /// `spec_step` until it emits, and returns that first emission with the
    /// machine's state left behind; with the cursor already at or past the
    /// end of the buffer, yields nothing and changes nothing.
    ///
    /// Tokenizer termination: the progress measure never grows, and every
    /// produced token strictly shrinks it, so the stream is finite. `Eof`
    /// only comes with the cursor past the buffer, a bare nothing only with
    /// the cursor at the end, and after either every call yields nothing, so
    /// `Eof` is produced at most once. Tokenizer lowercasing: an emitted tag
    /// name holds no uppercase letter.
    #[verifier::rlimit(100)]
    pub fn next(&mut self) -> (r: Option<HtmlToken>)
        requires
            tokenizer_wf(old(self)@),
        ensures
            tokenizer_wf(final(self)@),
            final(self)@.input == old(self)@.input,
            old(self)@.pos <= final(self)@.pos,
            old(self)@.pos >= old(self)@.input.len() ==> r is None && final(self)@ == old(self)@,
            r is None ==> final(self)@.pos >= final(self)@.input.len(),
            old(self)@.pos < old(self)@.input.len() ==> exists|n: nat|
                spec_run(old(self)@, n) == (Some(opt_token_view(r)), final(self)@),
            measure_le(measure(final(self)@), measure(old(self)@)),
            r is Some ==> measure_lt(measure(final(self)@), measure(old(self)@)),
            r == Some(HtmlToken::Eof) ==> final(self)@.past,
            match r {
                Some(t) => token_tag_no_upper(t),
                None => true,
            },
    {
        if self.pos >= self.input.len() {
            return None;
        }
        let ghost v0 = self@;
        let ghost mut k: nat = 0;
        loop
            invariant
                v0 == old(self)@,
                old(self)@.pos < old(self)@.input.len(),
                tokenizer_wf_loose(self@),
                self@.input == v0.input,
                v0.pos <= self@.pos,
                measure_le(measure(self@), measure(v0)),
                spec_run(v0, k).0 is None,
                spec_run(v0, k).1 == self@,
                self@.re_consume ==> re_consumable(self@.state),
                self@.re_consume && self@.state == State::AfterAttributeName ==> (self@.past || (
                cur_char(self@) == ' ' || cur_char(self@) == '/' || cur_char(self@) == '>')),
            decreases
                    m_pos(self@),
                    m_flag(self@),
                    self@.buf.len() as int,
                    st_rank(self@.state),
        {
            let ghost u = self@;
            proof {
                lemma_spec_run_step(v0, k);
            }
            let ch: char;
            if self.re_consume {
                ch = self.re_consume_input();
            } else {
                if self.pos >= self.input.len() {
                    if self.past {
                        // the cursor was already exhausted: nothing more comes
                        proof {
                            assert(spec_run(v0, k + 1) == (Some(opt_token_view(
                                None::<HtmlToken>,
                            )), self@));
                        }
                        return None;
                    }
                    self.past = true;
                    ch = '\0';
                } else {
                    ch = self.consume_next_input();
                }
            }
            match self.state {
                State::Data => {
                    if ch == '<' {
                        self.state = State::TagOpen;
                        proof {
                            reveal(step_data);
                            assert(spec_step(u) == (None::<Option<TokenView>>, self@));
                            k = k + 1;
                        }
                        continue;
                    }
                    if self.is_eof() {
                        proof {
                            reveal(step_data);
                            assert(spec_run(v0, k + 1) == (Some(opt_token_view(Some(
                                HtmlToken::Eof,
                            ))), self@));
                        }
                        return Some(HtmlToken::Eof);
                    }
                    proof {
                            reveal(step_data);
                        assert(spec_run(v0, k + 1) == (Some(opt_token_view(Some(
                            HtmlToken::Char(ch),
                        ))), self@));
                    }
                    return Some(HtmlToken::Char(ch));
                },
                State::TagOpen => {
                    if ch == '/' {
                        self.state = State::EndTagOpen;
                        proof {
                            reveal(step_tag_open);
                            assert(spec_step(u) == (None::<Option<TokenView>>, self@));
                            k = k + 1;
                        }
                        continue;
                    }
                    if is_ascii_alphabetic(ch) {
                        self.re_consume = true;
                        self.state = State::TagName;
                        self.create_start_tag();
                        proof {
                            reveal(step_tag_open);
                            assert(spec_step(u) == (None::<Option<TokenView>>, self@));
                            k = k + 1;
                        }
                        continue;
                    }
                    if self.is_eof() {
                        proof {
                            reveal(step_tag_open);
                            assert(spec_run(v0, k + 1) == (Some(opt_token_view(Some(
                                HtmlToken::Eof,
                            ))), self@));
                        }
                        return Some(HtmlToken::Eof);
                    }
                    self.re_consume = true;
                    self.state = State::Data;
                    proof {
                        reveal(step_tag_open);
                        assert(spec_step(u) == (None::<Option<TokenView>>, self@));
                        k = k + 1;
                    }
                },
                State::EndTagOpen => {
                    if self.is_eof() {
                        proof {
                            reveal(step_end_tag_open);
                            assert(spec_run(v0, k + 1) == (Some(opt_token_view(Some(
                                HtmlToken::Eof,
                            ))), self@));
                        }
                        return Some(HtmlToken::Eof);
                    }
                    if is_ascii_alphabetic(ch) {
                        self.re_consume = true;
                        self.state = State::TagName;
                        self.create_end_tag();
                        proof {
                            reveal(step_end_tag_open);
                            assert(spec_step(u) == (None::<Option<TokenView>>, self@));
                            k = k + 1;
                        }
                        continue;
                    }
                    proof {
                        reveal(step_end_tag_open);
                        assert(spec_step(u) == (None::<Option<TokenView>>, self@));
                        k = k + 1;
                    }
                },
                State::TagName => {
                    if ch == ' ' {
                        self.state = State::BeforeAttributeName;
                        proof {
                            reveal(step_tag_name);
                            assert(spec_step(u) == (None::<Option<TokenView>>, self@));
                            k = k + 1;
                        }
                        continue;
                    }
                    if ch == '/' {
                        self.state = State::SelfClosingStartTag;
                        proof {
                            reveal(step_tag_name);
                            assert(spec_step(u) == (None::<Option<TokenView>>, self@));
                            k = k + 1;
                        }
                        continue;
                    }
                    if ch == '>' {
                        self.state = State::Data;
                        let r = self.take_latest_token();
                        proof {
                            reveal(step_tag_name);
                            assert(spec_run(v0, k + 1) == (Some(opt_token_view(r)), self@));
                        }
                        return r;
                    }
                    if is_ascii_uppercase(ch) {
                        proof {
                            reveal(step_tag_name);
                            crate::text::lemma_lower_char_not_upper(ch);
                        }
                        self.append_tag_name(to_lowercase_char(ch));
                        proof {
                            reveal(step_tag_name);
                            assert(spec_step(u) == (None::<Option<TokenView>>, self@));
                            k = k + 1;
                        }
                        continue;
                    }
                    if self.is_eof() {
                        proof {
                            reveal(step_tag_name);
                            assert(spec_run(v0, k + 1) == (Some(opt_token_view(Some(
                                HtmlToken::Eof,
                            ))), self@));
                        }
                        return Some(HtmlToken::Eof);
                    }
                    self.append_tag_name(ch);
                    proof {
                        reveal(step_tag_name);
                        assert(spec_step(u) == (None::<Option<TokenView>>, self@));
                        k = k + 1;
                    }
                },
                State::BeforeAttributeName => {
                    if ch == '/' || ch == '>' || self.is_eof() {
                        self.re_consume = true;
                        self.state = State::AfterAttributeName;
                        proof {
                            reveal(step_before_attribute_name);
                            assert(spec_step(u) == (None::<Option<TokenView>>, self@));
                            k = k + 1;
                        }
                        continue;
                    }
                    self.re_consume = true;
                    self.state = State::AttributeName;
                    self.start_new_attribute();
                    proof {
                        reveal(step_before_attribute_name);
                        assert(spec_step(u) == (None::<Option<TokenView>>, self@));
                        k = k + 1;
                    }
                },
                State::AttributeName => {
                    if ch == ' ' || ch == '/' || ch == '>' || self.is_eof() {
                        self.re_consume = true;
                        self.state = State::AfterAttributeName;
                        proof {
                            reveal(step_attribute_name);
                            assert(spec_step(u) == (None::<Option<TokenView>>, self@));
                            k = k + 1;
                        }
                        continue;
                    }
                    if ch == '=' {
                        self.state = State::BeforeAttributeValue;
                        proof {
                            reveal(step_attribute_name);
                            assert(spec_step(u) == (None::<Option<TokenView>>, self@));
                            k = k + 1;
                        }
                        continue;
                    }
                    if is_ascii_uppercase(ch) {
                        self.append_attribute_name(to_lowercase_char(ch));
                        proof {
                            reveal(step_attribute_name);
                            assert(spec_step(u) == (None::<Option<TokenView>>, self@));
                            k = k + 1;
                        }
                        continue;
                    }
                    self.append_attribute_name(ch);
                    proof {
                        reveal(step_attribute_name);
                        assert(spec_step(u) == (None::<Option<TokenView>>, self@));
                        k = k + 1;
                    }
                },
                State::AfterAttributeName => {
                    if ch == ' ' {
                        proof {
                            reveal(step_after_attribute_name);
                            assert(spec_step(u) == (None::<Option<TokenView>>, self@));
                            k = k + 1;
                        }
                        continue;
                    }
                    if ch == '/' {
                        self.state = State::SelfClosingStartTag;
                        proof {
                            reveal(step_after_attribute_name);
                            assert(spec_step(u) == (None::<Option<TokenView>>, self@));
                            k = k + 1;
                        }
                        continue;
                    }
                    if ch == '=' {
                        self.state = State::BeforeAttributeValue;
                        proof {
                            reveal(step_after_attribute_name);
                            assert(spec_step(u) == (None::<Option<TokenView>>, self@));
                            k = k + 1;
                        }
                        continue;
                    }
                    if ch == '>' {
                        self.state = State::Data;
                        let r = self.take_latest_token();
                        proof {
                            reveal(step_after_attribute_name);
                            assert(spec_run(v0, k + 1) == (Some(opt_token_view(r)), self@));
                        }
                        return r;
                    }
                    if self.is_eof() {
                        proof {
                            reveal(step_after_attribute_name);
                            assert(spec_run(v0, k + 1) == (Some(opt_token_view(Some(
                                HtmlToken::Eof,
                            ))), self@));
                        }
                        return Some(HtmlToken::Eof);
                    }
                    self.re_consume = true;
                    self.state = State::AttributeName;
                    self.start_new_attribute();
                    proof {
                        reveal(step_after_attribute_name);
                        assert(spec_step(u) == (None::<Option<TokenView>>, self@));
                        k = k + 1;
                    }
                },
                State::BeforeAttributeValue => {
                    if ch == ' ' {
                        proof {
                            reveal(step_before_attribute_value);
                            assert(spec_step(u) == (None::<Option<TokenView>>, self@));
                            k = k + 1;
                        }
                        continue;
                    }
                    if ch == '"' {
                        self.state = State::AttributeValueDoubleQuoted;
                        proof {
                            reveal(step_before_attribute_value);
                            assert(spec_step(u) == (None::<Option<TokenView>>, self@));
                            k = k + 1;
                        }
                        continue;
                    }
                    if ch == '\'' {
                        self.state = State::AttributeValueSingleQuoted;
                        proof {
                            reveal(step_before_attribute_value);
                            assert(spec_step(u) == (None::<Option<TokenView>>, self@));
                            k = k + 1;
                        }
                        continue;
                    }
                    self.re_consume = true;
                    self.state = State::AttributeValueUnquoted;
                    proof {
                        reveal(step_before_attribute_value);
                        assert(spec_step(u) == (None::<Option<TokenView>>, self@));
                        k = k + 1;
                    }
                },
                State::AttributeValueDoubleQuoted => {
                    if ch == '"' {
                        self.state = State::AfterAttributeValueQuoted;
                        proof {
                            reveal(step_value_double_quoted);
                            assert(spec_step(u) == (None::<Option<TokenView>>, self@));
                            k = k + 1;
                        }
                        continue;
                    }
                    if self.is_eof() {
                        proof {
                            reveal(step_value_double_quoted);
                            assert(spec_run(v0, k + 1) == (Some(opt_token_view(Some(
                                HtmlToken::Eof,
                            ))), self@));
                        }
                        return Some(HtmlToken::Eof);
                    }
                    self.append_attribute_value(ch);
                    proof {
                        reveal(step_value_double_quoted);
                        assert(spec_step(u) == (None::<Option<TokenView>>, self@));
                        k = k + 1;
                    }
                },
                State::AttributeValueSingleQuoted => {
                    if ch == '\'' {
                        self.state = State::AfterAttributeValueQuoted;
                        proof {
                            reveal(step_value_single_quoted);
                            assert(spec_step(u) == (None::<Option<TokenView>>, self@));
                            k = k + 1;
                        }
                        continue;
                    }
                    if self.is_eof() {
                        proof {
                            reveal(step_value_single_quoted);
                            assert(spec_run(v0, k + 1) == (Some(opt_token_view(Some(
                                HtmlToken::Eof,
                            ))), self@));
                        }
                        return Some(HtmlToken::Eof);
                    }
                    self.append_attribute_value(ch);
                    proof {
                        reveal(step_value_single_quoted);
                        assert(spec_step(u) == (None::<Option<TokenView>>, self@));
                        k = k + 1;
                    }
                },
                State::AttributeValueUnquoted => {
                    if ch == ' ' {
                        self.state = State::BeforeAttributeName;
                        proof {
                            reveal(step_value_unquoted);
                            assert(spec_step(u) == (None::<Option<TokenView>>, self@));
                            k = k + 1;
                        }
                        continue;
                    }
                    if ch == '>' {
                        self.state = State::Data;
                        let r = self.take_latest_token();
                        proof {
                            reveal(step_value_unquoted);
                            assert(spec_run(v0, k + 1) == (Some(opt_token_view(r)), self@));
                        }
                        return r;
                    }
                    if self.is_eof() {
                        proof {
                            reveal(step_value_unquoted);
                            assert(spec_run(v0, k + 1) == (Some(opt_token_view(Some(
                                HtmlToken::Eof,
                            ))), self@));
                        }
                        return Some(HtmlToken::Eof);
                    }
                    self.append_attribute_value(ch);
                    proof {
                        reveal(step_value_unquoted);
                        assert(spec_step(u) == (None::<Option<TokenView>>, self@));
                        k = k + 1;
                    }
                },
                State::AfterAttributeValueQuoted => {
                    if ch == ' ' {
                        self.state = State::BeforeAttributeName;
                        proof {
                            reveal(step_after_value_quoted);
                            assert(spec_step(u) == (None::<Option<TokenView>>, self@));
                            k = k + 1;
                        }
                        continue;
                    }
                    if ch == '/' {
                        self.state = State::SelfClosingStartTag;
                        proof {
                            reveal(step_after_value_quoted);
                            assert(spec_step(u) == (None::<Option<TokenView>>, self@));
                            k = k + 1;
                        }
                        continue;
                    }
                    if ch == '>' {
                        self.state = State::Data;
                        let r = self.take_latest_token();
                        proof {
                            reveal(step_after_value_quoted);
                            assert(spec_run(v0, k + 1) == (Some(opt_token_view(r)), self@));
                        }
                        return r;
                    }
                    if self.is_eof() {
                        proof {
                            reveal(step_after_value_quoted);
                            assert(spec_run(v0, k + 1) == (Some(opt_token_view(Some(
                                HtmlToken::Eof,
                            ))), self@));
                        }
                        return Some(HtmlToken::Eof);
                    }
                    self.re_consume = true;
                    self.state = State::BeforeAttributeValue;
                    proof {
                        reveal(step_after_value_quoted);
                        assert(spec_step(u) == (None::<Option<TokenView>>, self@));
                        k = k + 1;
                    }
                },
                State::SelfClosingStartTag => {
                    if ch == '>' {
                        self.set_self_closing_flag();
                        self.state = State::Data;
                        let r = self.take_latest_token();
                        proof {
                            reveal(step_self_closing);
                            assert(spec_run(v0, k + 1) == (Some(opt_token_view(r)), self@));
                        }
                        return r;
                    }
                    if self.is_eof() {
                        proof {
                            reveal(step_self_closing);
                            assert(spec_run(v0, k + 1) == (Some(opt_token_view(Some(
                                HtmlToken::Eof,
                            ))), self@));
                        }
                        return Some(HtmlToken::Eof);
                    }
                    proof {
                        reveal(step_self_closing);
                        assert(spec_step(u) == (None::<Option<TokenView>>, self@));
                        k = k + 1;
                    }
                },
                State::ScriptData => {
                    if ch == '<' {
                        self.state = State::ScriptDataLessThanSign;
                        proof {
                            reveal(step_script_data);
                            assert(spec_step(u) == (None::<Option<TokenView>>, self@));
                            k = k + 1;
                        }
                        continue;
                    }
                    if self.is_eof() {
                        proof {
                            reveal(step_script_data);
                            assert(spec_run(v0, k + 1) == (Some(opt_token_view(Some(
                                HtmlToken::Eof,
                            ))), self@));
                        }
                        return Some(HtmlToken::Eof);
                    }
                    proof {
                            reveal(step_script_data);
                        assert(spec_run(v0, k + 1) == (Some(opt_token_view(Some(
                            HtmlToken::Char(ch),
                        ))), self@));
                    }
                    return Some(HtmlToken::Char(ch));
                },
                State::ScriptDataLessThanSign => {
                    if ch == '/' {
                        self.buf = Vec::new();
                        self.state = State::ScriptDataEndTagOpen;
                        proof {
                            reveal(step_script_less_than);
                            assert(spec_step(u) == (None::<Option<TokenView>>, self@));
                            k = k + 1;
                        }
                        continue;
                    }
                    self.re_consume = true;
                    self.state = State::ScriptData;
                    proof {
                            reveal(step_script_less_than);
                        assert(spec_run(v0, k + 1) == (Some(opt_token_view(Some(
                            HtmlToken::Char('<'),
                        ))), self@));
                    }
                    return Some(HtmlToken::Char('<'));
                },
                State::ScriptDataEndTagOpen => {
                    if is_ascii_alphabetic(ch) {
                        self.re_consume = true;
                        self.state = State::ScriptDataEndTagName;
                        self.create_end_tag();
                        proof {
                            reveal(step_script_end_tag_open);
                            assert(spec_step(u) == (None::<Option<TokenView>>, self@));
                            k = k + 1;
                        }
                        continue;
                    }
                    self.re_consume = true;
                    self.state = State::ScriptData;
                    proof {
                            reveal(step_script_end_tag_open);
                        assert(spec_run(v0, k + 1) == (Some(opt_token_view(Some(
                            HtmlToken::Char('<'),
                        ))), self@));
                    }
                    return Some(HtmlToken::Char('<'));
                },
                State::ScriptDataEndTagName => {
                    if ch == '>' {
                        self.state = State::Data;
                        let r = self.take_latest_token();
                        proof {
                            reveal(step_script_end_tag_name);
                            assert(spec_run(v0, k + 1) == (Some(opt_token_view(r)), self@));
                        }
                        return r;
                    }
                    if is_ascii_alphabetic(ch) {
                        proof {
                            reveal(step_script_end_tag_name);
                            crate::text::lemma_lower_char_not_upper(ch);
                        }
                        self.buf.push(ch);
                        self.append_tag_name(to_lowercase_char(ch));
                        proof {
                            reveal(step_script_end_tag_name);
                            assert(spec_step(u) == (None::<Option<TokenView>>, self@));
                            k = k + 1;
                        }
                        continue;
                    }
                    self.state = State::TemporaryBuffer;
                    let mut nb: Vec<char> = Vec::new();
                    nb.push('<');
                    nb.push('/');
                    nb.append(&mut self.buf);
                    nb.push(ch);
                    self.buf = nb;
                    proof {
                            reveal(step_script_end_tag_name);
                        assert(self@.buf =~= seq!['<', '/'] + u.buf + seq![ch]);
                        assert(spec_step(u) == (None::<Option<TokenView>>, self@));
                        k = k + 1;
                    }
                    continue;
                },
                State::TemporaryBuffer => {
                    self.re_consume = true;
                    if self.buf.is_empty() {
                        self.state = State::ScriptData;
                        proof {
                            reveal(step_temporary_buffer);
                            assert(spec_step(u) == (None::<Option<TokenView>>, self@));
                            k = k + 1;
                        }
                        continue;
                    }
                    let c = self.buf.remove(0);
                    proof {
                            reveal(step_temporary_buffer);
                        assert(spec_run(v0, k + 1) == (Some(opt_token_view(Some(
                            HtmlToken::Char(c),
                        ))), self@));
                    }
                    return Some(HtmlToken::Char(c));
                },
            }
        }
    }
}

/// The states in which a step can begin with the re-consume flag set: the
/// targets of the transitions that set the flag.
pub open spec fn re_consumable(st: State) -> bool {
    match st {
        State::Data => true,
        State::TagName => true,
        State::AttributeName => true,
        State::AfterAttributeName => true,
        State::BeforeAttributeValue => true,
        State::AttributeValueUnquoted => true,
        State::ScriptData => true,
        State::ScriptDataEndTagName => true,
        State::TemporaryBuffer => true,
        _ => false,
    }
}

/// The loop-time weakening of `tokenizer_wf`: mid-step, a pending re-consume
/// may stand in any state.
pub open spec fn tokenizer_wf_loose(v: TokenizerView) -> bool {
    &&& 0 <= v.pos <= v.input.len()
    &&& (v.past ==> v.pos == v.input.len())
    &&& (v.re_consume ==> 1 <= v.pos)
    &&& (in_tag_state(v.state) ==> match v.latest_token {
        Some(t) => tag_token_wf(t),
        None => false,
    })
}

} // verus!
