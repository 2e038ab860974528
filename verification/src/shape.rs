//! The shape of every token stream: how it begins and ends, what its words are, where its
//! closing braces stand, and how its lines run.

use vstd::prelude::*;
use crate::chars::{is_line_terminator, separator, terminator, whitespace};
use crate::model::{lemma_terminator_run_bound, terminator_run, LexState};
use crate::stream::{
    first_mark, is_word, kinds, kinds_from, lemma_first_mark_skip, lemma_kinds_from, lemma_step,
    shaped, tokens, tokens_from,
};
use crate::token::KindView;

verus! {

/// From a state whose lookahead slot is in order, the kinds still to come end in a
/// terminator, hold only well-cut words, and have a terminator before each closing brace.
pub proof fn lemma_shaped_from(st: LexState)
    requires
        st.settled(),
    ensures
        shaped(st.last, kinds_from(st)),
    decreases st.budget(),
{
    lemma_step(st);
    lemma_kinds_from(st);
    match st.step().token {
        Some(t) => {
            let next = st.step().state;
            let tail = kinds_from(next);
            let ks = kinds_from(st);
            lemma_shaped_from(next);
            lemma_kinds_from(next);
            assert(ks[0] == t.kind);
            assert forall|i: int| 0 < i < ks.len() implies ks[i] == tail[i - 1] by {}
            if tail.len() > 0 {
                assert(ks.last() == tail.last());
            }
            assert forall|i: int| 0 < i < ks.len() && #[trigger] ks[i]
                == KindView::RightBrace implies ks[i - 1] == KindView::Semi by {
                if i == 1 {
                    assert(tail[0] == KindView::RightBrace);
                } else {
                    assert(tail[i - 1] == KindView::RightBrace);
                }
            }
            assert forall|i: int| 0 <= i < ks.len() && #[trigger] ks[i] is Word implies is_word(
                ks[i]->Word_0,
            ) by {
                if i > 0 {
                    assert(tail[i - 1] is Word);
                }
            }
        },
        None => {},
    }
}

/// Every token stream has a token, and its last token is a statement terminator.
pub proof fn lemma_ends_in_semi(text: Seq<char>)
    ensures
        tokens(text).len() > 0,
        tokens(text).last().kind == KindView::Semi,
{
    lemma_shaped_from(LexState::start(text));
}

/// In every token stream the words are not empty, hold neither whitespace nor a line
/// terminator and do not begin with a brace, and each closing brace stands directly behind
/// a terminator.
pub proof fn lemma_stream_shape(text: Seq<char>)
    ensures
        shaped(None, kinds(tokens(text))),
        forall|i: int|
            0 <= i < tokens(text).len() && (#[trigger] tokens(text)[i]).kind is Word ==> is_word(
                tokens(text)[i].kind->Word_0,
            ),
        forall|i: int|
            0 <= i < tokens(text).len() && (#[trigger] tokens(text)[i]).kind == KindView::RightBrace
                ==> i > 0 && tokens(text)[i - 1].kind == KindView::Semi,
{
    lemma_shaped_from(LexState::start(text));
    let ks = kinds(tokens(text));
    assert forall|i: int|
        0 <= i < tokens(text).len() && (#[trigger] tokens(text)[i]).kind is Word implies is_word(
        tokens(text)[i].kind->Word_0,
    ) by {
        assert(ks[i] is Word);
    }
    assert forall|i: int|
        0 <= i < tokens(text).len() && (#[trigger] tokens(text)[i]).kind
            == KindView::RightBrace implies i > 0 && tokens(text)[i - 1].kind == KindView::Semi by {
        assert(ks[i] == KindView::RightBrace);
    }
}

/// The tokens still to come are attributed to the current line or a later one, each to
/// the line of the token before it or a later one.
pub proof fn lemma_lines_from(st: LexState)
    ensures
        forall|i: int| 0 <= i < tokens_from(st).len() ==> st.line <= (#[trigger] tokens_from(st)[i]).line,
        forall|i: int, j: int|
            0 <= i <= j < tokens_from(st).len() ==> (#[trigger] tokens_from(st)[i]).line <= (
            #[trigger] tokens_from(st)[j]).line,
    decreases st.budget(),
{
    lemma_step(st);
    match st.step().token {
        Some(t) => {
            let next = st.step().state;
            let ts = tokens_from(st);
            let tail = tokens_from(next);
            lemma_lines_from(next);
            assert(ts =~= seq![t] + tail);
            assert forall|i: int| 0 <= i < ts.len() implies st.line <= (#[trigger] ts[i]).line by {
                if i > 0 {
                    assert(ts[i] == tail[i - 1]);
                }
            }
            assert forall|i: int, j: int| 0 <= i <= j < ts.len() implies (#[trigger] ts[i]).line <= (
            #[trigger] ts[j]).line by {
                if j > 0 {
                    assert(ts[j] == tail[j - 1]);
                }
                if i > 0 {
                    assert(ts[i] == tail[i - 1]);
                }
            }
        },
        None => {},
    }
}

/// Lines are counted from 1, and no token of a stream is attributed to an earlier line
/// than the token before it.
pub proof fn lemma_lines_in_order(text: Seq<char>)
    ensures
        forall|i: int| 0 <= i < tokens(text).len() ==> 1 <= (#[trigger] tokens(text)[i]).line,
        forall|i: int, j: int|
            0 <= i <= j < tokens(text).len() ==> (#[trigger] tokens(text)[i]).line <= (
            #[trigger] tokens(text)[j]).line,
{
    lemma_lines_from(LexState::start(text));
}

/// Before anything is emitted, the first mark of the text decides the first token: a
/// terminator where there is no mark or the mark is a closing brace, which is then owed;
/// an opening brace for an opening brace; a word for anything else.
pub proof fn lemma_first_scan(st: LexState)
    requires
        st.pending is None,
        st.last is None,
    ensures
        st.scan().token is Some,
        match first_mark(st.rest) {
            None => st.scan().token->0.kind == KindView::Semi && st.scan().state.pending is None
                && st.scan().state.rest.len() == 0,
            Some(c) => if c == '}' {
                st.scan().token->0.kind == KindView::Semi && st.scan().state.pending == Some(
                    KindView::RightBrace,
                )
            } else if c == '{' {
                st.scan().token->0.kind == KindView::LeftBrace
            } else {
                st.scan().token->0.kind is Word
            },
        },
    decreases st.rest.len(),
{
    let s = st.rest;
    if s.len() == 0 {
    } else if s[0] == '{' {
    } else if s[0] == '}' {
    } else if terminator(s[0]) {
        lemma_terminator_run_bound(s);
        let after = st.consume(terminator_run(s));
        lemma_first_mark_skip(s, terminator_run(s));
        lemma_first_scan(after);
    } else if whitespace(s[0]) {
        assert(s.skip(1) =~= s.drop_first());
        lemma_first_scan(LexState { rest: s.skip(1), ..st });
    } else {
    }
}

/// The first token of a stream is a terminator exactly where the text has no mark, or has
/// a closing brace for its first mark; the closing brace then follows at once, and with no
/// mark the terminator is the whole stream.
pub proof fn lemma_first_token(text: Seq<char>)
    ensures
        kinds(tokens(text)).len() > 0,
        kinds(tokens(text))[0] == KindView::Semi <==> first_mark(text) is None || first_mark(text)
            == Some('}'),
        first_mark(text) is None ==> kinds(tokens(text)) == seq![KindView::Semi],
        first_mark(text) == Some('}') ==> kinds(tokens(text)).len() > 1 && kinds(tokens(text))[1]
            == KindView::RightBrace,
{
    let st = LexState::start(text);
    lemma_first_scan(st);
    lemma_step(st);
    lemma_kinds_from(st);
    let next = st.step().state;
    lemma_kinds_from(next);
    if first_mark(text) is None {
        assert(next.scan().token is None);
        assert(kinds(tokens(text)) =~= seq![KindView::Semi]);
    }
}

/// The first character of `src` that is neither whitespace nor a line terminator, if there
/// is one: the mark that decides how the stream begins.
pub fn first_mark_of(src: &str) -> (mark: Option<char>)
    ensures
        mark == first_mark(src@),
{
    for c in it: src.chars()
        invariant
            it.seq() == src@,
            forall|k: int| 0 <= k < it.index() ==> separator(#[trigger] src@[k]),
    {
        if c == '{' || c == '}' || !(is_line_terminator(c) || c.is_whitespace()) {
            proof {
                lemma_first_mark_skip(src@, it.index() as nat);
                assert(src@.skip(it.index() as int)[0] == c);
            }
            return Some(c);
        }
    }
    proof {
        lemma_first_mark_skip(src@, src@.len());
    }
    None
}

/// A stream does not begin with a terminator, where the text has a first mark and it is
/// not a closing brace.
pub proof fn lemma_no_leading_semi(text: Seq<char>)
    requires
        first_mark(text) is Some,
        first_mark(text) != Some('}'),
    ensures
        tokens(text).len() > 0,
        tokens(text)[0].kind != KindView::Semi,
{
    lemma_first_token(text);
}

} // verus!
