//! The whole token stream of a text, and what each step contributes to it.

use vstd::prelude::*;
use crate::chars::{separator, terminator, whitespace, word_char};
use crate::model::{
    lemma_terminator_run_bound, lemma_word_run_bound, terminator_run, word_run, LexState,
};
use crate::token::{KindView, TokenView};

verus! {

/// A word as the lexer cuts it: not empty, free of whitespace and line terminators, and not
/// begun by a brace.
pub open spec fn is_word(text: Seq<char>) -> bool {
    &&& text.len() > 0
    &&& text[0] != '{'
    &&& text[0] != '}'
    &&& forall|i: int| 0 <= i < text.len() ==> word_char(#[trigger] text[i])
}

impl LexState {
    /// A bound on the steps still to come: every step that yields a token lowers it.
    pub open spec fn budget(self) -> nat {
        3 * self.rest.len() + if self.pending is Some {
            2nat
        } else {
            0nat
        } + if self.last == Some(KindView::Semi) {
            0nat
        } else {
            1nat
        }
    }

    /// The lookahead slot holds nothing but a closing brace owed after its terminator.
    pub open spec fn settled(self) -> bool {
        self.pending is Some ==> self.pending == Some(KindView::RightBrace) && self.last == Some(
            KindView::Semi,
        )
    }
}

/// What a scan does to the state, and what it can emit.
pub proof fn lemma_scan(st: LexState)
    requires
        st.pending is None,
    ensures
        match st.scan().token {
            Some(t) => {
                &&& st.scan().state.budget() < st.budget()
                &&& st.line <= t.line <= st.scan().state.line
                &&& st.scan().state.last == Some(t.kind)
                &&& st.scan().state.settled()
                &&& st.scan().state.rest.len() <= st.rest.len()
                &&& t.kind is Word ==> is_word(t.kind->Word_0)
                &&& t.kind == KindView::RightBrace ==> st.last == Some(KindView::Semi)
                &&& t.kind == KindView::RightBrace ==> st.scan().state.pending is None
                &&& t.kind is Word || t.kind is LeftBrace ==> st.scan().state.pending is None
            },
            None => {
                &&& st.scan().state.rest.len() == 0
                &&& st.scan().state.step() == st.scan()
                &&& st.last == Some(KindView::Semi)
            },
        },
    decreases st.rest.len(),
{
    let s = st.rest;
    if s.len() == 0 {
    } else if s[0] == '{' {
        lemma_terminator_run_bound(s.skip(1));
    } else if s[0] == '}' {
    } else if terminator(s[0]) {
        lemma_terminator_run_bound(s);
        let after = st.consume(terminator_run(s));
        if st.last is None {
            lemma_scan(after);
        }
    } else if whitespace(s[0]) {
        lemma_scan(LexState { rest: s.skip(1), ..st });
    } else {
        lemma_word_run_bound(s);
        let n = word_run(s);
        assert(s.take(n as int)[0] == s[0]);
        assert(is_word(s.take(n as int)));
    }
}

/// What a step does to the state, and what it can emit.
pub proof fn lemma_step(st: LexState)
    ensures
        match st.step().token {
            Some(t) => {
                &&& st.step().state.budget() < st.budget()
                &&& st.line <= t.line <= st.step().state.line
                &&& st.step().state.last == Some(t.kind)
                &&& st.settled() ==> st.step().state.settled()
                &&& st.settled() && t.kind is Word ==> is_word(t.kind->Word_0)
                &&& st.settled() && t.kind == KindView::RightBrace ==> st.last == Some(
                    KindView::Semi,
                )
            },
            None => {
                &&& st.step().state.rest.len() == 0
                &&& st.step().state.step() == st.step()
                &&& st.pending is None
                &&& st.last == Some(KindView::Semi)
            },
        },
{
    if st.pending is None {
        lemma_scan(st);
    }
}

/// The tokens that are still to come from `st`, in order, up to the end of the stream.
pub open spec fn tokens_from(st: LexState) -> Seq<TokenView>
    decreases st.budget(),
    via tokens_from_terminates
{
    match st.step().token {
        Some(t) => seq![t] + tokens_from(st.step().state),
        None => Seq::empty(),
    }
}

#[via_fn]
proof fn tokens_from_terminates(st: LexState) {
    if st.pending is None {
        lemma_scan(st);
    }
}

/// The token stream of a text.
pub open spec fn tokens(text: Seq<char>) -> Seq<TokenView> {
    tokens_from(LexState::start(text))
}

/// The kinds of a token stream, lines left out.
pub open spec fn kinds(stream: Seq<TokenView>) -> Seq<KindView> {
    stream.map_values(|t: TokenView| t.kind)
}

/// The kinds that are still to come from `st`.
pub open spec fn kinds_from(st: LexState) -> Seq<KindView> {
    kinds(tokens_from(st))
}

/// The kinds still to come are the kind of the next token, then those that come after it.
pub proof fn lemma_kinds_from(st: LexState)
    ensures
        kinds_from(st) == match st.step().token {
            Some(t) => seq![t.kind] + kinds_from(st.step().state),
            None => Seq::empty(),
        },
        st.step().token is Some <==> kinds_from(st).len() > 0,
{
    match st.step().token {
        Some(t) => {
            assert(kinds_from(st) =~= seq![t.kind] + kinds_from(st.step().state));
        },
        None => {
            assert(kinds_from(st) =~= Seq::empty());
        },
    }
}

/// The first character of `s` that the scan does not pass over, if there is one.
pub open spec fn first_mark(s: Seq<char>) -> Option<char>
    decreases s.len(),
{
    if s.len() == 0 {
        None
    } else if separator(s[0]) {
        first_mark(s.drop_first())
    } else {
        Some(s[0])
    }
}

/// The stream ends in a terminator, every word is one that the lexer can cut, and every
/// closing brace stands directly behind a terminator. `prev` is the kind emitted before the
/// first of `ks`, if any was.
pub open spec fn shaped(prev: Option<KindView>, ks: Seq<KindView>) -> bool {
    &&& ks.len() > 0 ==> ks.last() == KindView::Semi
    &&& ks.len() == 0 ==> prev == Some(KindView::Semi)
    &&& forall|i: int| 0 <= i < ks.len() && #[trigger] ks[i] is Word ==> is_word(ks[i]->Word_0)
    &&& ks.len() > 0 && ks[0] == KindView::RightBrace ==> prev == Some(KindView::Semi)
    &&& forall|i: int|
        0 < i < ks.len() && #[trigger] ks[i] == KindView::RightBrace ==> ks[i - 1]
            == KindView::Semi
}

/// Separators in front of a text do not change its first mark.
pub proof fn lemma_first_mark_skip(s: Seq<char>, n: nat)
    requires
        n <= s.len(),
        forall|i: int| 0 <= i < n ==> separator(s[i]),
    ensures
        first_mark(s.skip(n as int)) == first_mark(s),
    decreases n,
{
    if n == 0 {
        assert(s.skip(0) =~= s);
    } else {
        let t = s.drop_first();
        assert forall|i: int| 0 <= i < n - 1 implies separator(t[i]) by {
            assert(t[i] == s[i + 1]);
        }
        lemma_first_mark_skip(t, (n - 1) as nat);
        assert(t.skip(n - 1) =~= s.skip(n as int));
    }
}

/// How a kind is written down again: a word as its text, a brace as itself, a terminator
/// as a newline.
pub open spec fn spelling(kind: KindView) -> Seq<char> {
    match kind {
        KindView::Word(text) => text,
        KindView::LeftBrace => seq!['{'],
        KindView::RightBrace => seq!['}'],
        KindView::Semi => seq!['\n'],
    }
}

/// The kinds written down again, joined by single spaces.
pub open spec fn spell(ks: Seq<KindView>) -> Seq<char>
    decreases ks.len(),
{
    if ks.len() == 0 {
        Seq::empty()
    } else if ks.len() == 1 {
        spelling(ks[0])
    } else {
        spelling(ks[0]) + seq![' '] + spell(ks.drop_first())
    }
}

} // verus!
