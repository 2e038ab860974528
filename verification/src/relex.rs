//! Lexing is stable: a stream that is written down again lexes to the same kinds.

use vstd::prelude::*;
use crate::chars::word_char;
use crate::model::{
    lemma_newlines_single, lemma_terminator_run_is, lemma_word_run_is, terminator_run, LexState,
};
use crate::shape::{lemma_ends_in_semi, lemma_first_token, lemma_stream_shape};
use crate::stream::{
    first_mark, is_word, kinds, kinds_from, lemma_kinds_from, lemma_step, shaped, spell, tokens,
};
use crate::token::KindView;

verus! {

/// What holds of a stream holds of what follows its first kind.
pub proof fn lemma_shaped_tail(prev: Option<KindView>, ks: Seq<KindView>)
    requires
        shaped(prev, ks),
        ks.len() > 1,
    ensures
        shaped(Some(ks[0]), ks.drop_first()),
{
    let tail = ks.drop_first();
    assert(tail.last() == ks.last());
    assert forall|i: int| 0 <= i < tail.len() && #[trigger] tail[i] is Word implies is_word(
        tail[i]->Word_0,
    ) by {
        assert(ks[i + 1] is Word);
    }
    if tail[0] == KindView::RightBrace {
        assert(ks[1] == KindView::RightBrace);
    }
    assert forall|i: int| 0 < i < tail.len() && #[trigger] tail[i]
        == KindView::RightBrace implies tail[i - 1] == KindView::Semi by {
        assert(ks[i + 1] == KindView::RightBrace);
    }
}

/// A blank in front of the text changes nothing of what a scan finds.
pub proof fn lemma_scan_past_space(st: LexState, padded: LexState)
    requires
        padded == (LexState { rest: seq![' '] + st.rest, ..st }),
    ensures
        padded.scan() == st.scan(),
{
    assert(padded.rest.skip(1) =~= st.rest);
}

/// Lexing the spelling of a well-shaped run of kinds gives those kinds back, from a state
/// that remembers the kind before them; a blank may stand in front.
pub proof fn lemma_spelling_lexes(ks: Seq<KindView>, st: LexState)
    requires
        ks.len() > 0,
        shaped(st.last, ks),
        st.pending is None,
        st.last is None ==> ks[0] != KindView::Semi,
        st.rest == spell(ks) || st.rest == seq![' '] + spell(ks),
    ensures
        kinds_from(st) == ks,
    decreases ks.len(),
{
    let bare = LexState { rest: spell(ks), ..st };
    if st.rest != spell(ks) {
        lemma_scan_past_space(bare, st);
    }
    assert(st.step() == bare.step());
    lemma_kinds_from(st);
    lemma_kinds_from(bare);
    lemma_step(bare);
    let s = spell(ks);
    let tail = ks.drop_first();
    let more = ks.len() > 1;
    if more {
        lemma_shaped_tail(st.last, ks);
    }
    let next = bare.step().state;
    assert(ks =~= seq![ks[0]] + tail);
    match ks[0] {
        KindView::Word(w) => {
            assert(more);
            assert(ks[0] is Word);
            assert(is_word(w));
            let n = w.len();
            assert(s =~= w + seq![' '] + spell(tail));
            assert forall|i: int| 0 <= i < n implies word_char(s[i]) by {
                assert(s[i] == w[i]);
            }
            assert(s[n as int] == ' ');
            assert(s[0] == w[0]);
            lemma_word_run_is(s, n);
            assert(s.take(n as int) =~= w);
            assert(s.skip(n as int + 1) =~= spell(tail));
            assert(bare.scan().token->0.kind == ks[0]);
            assert(next.rest == spell(tail));
            lemma_spelling_lexes(tail, next);
        },
        KindView::LeftBrace => {
            assert(more);
            assert(s =~= seq!['{'] + seq![' '] + spell(tail));
            assert(s[0] == '{');
            assert(s.skip(1)[0] == ' ');
            assert(terminator_run(s.skip(1)) == 0);
            assert(s.take(1) =~= seq!['{']);
            lemma_newlines_single('{');
            assert(s.skip(1) =~= seq![' '] + spell(tail));
            assert(next.rest == seq![' '] + spell(tail));
            lemma_spelling_lexes(tail, next);
        },
        KindView::RightBrace => {
            assert(more);
            assert(s =~= seq!['}'] + seq![' '] + spell(tail));
            assert(s[0] == '}');
            assert(s.skip(1) =~= seq![' '] + spell(tail));
            assert(next.rest == seq![' '] + spell(tail));
            lemma_spelling_lexes(tail, next);
        },
        KindView::Semi => {
            assert(s[0] == '\n');
            if more {
                assert(s =~= seq!['\n'] + seq![' '] + spell(tail));
                assert(s[1] == ' ');
                lemma_terminator_run_is(s, 1);
                assert(s.skip(1) =~= seq![' '] + spell(tail));
                assert(next.rest == seq![' '] + spell(tail));
                lemma_spelling_lexes(tail, next);
            } else {
                assert(s =~= seq!['\n']);
                lemma_terminator_run_is(s, 1);
                assert(next.rest.len() == 0);
                lemma_kinds_from(next);
                assert(tail =~= Seq::<KindView>::empty());
            }
        },
    }
}

/// Lexing is stable: where the kinds of a stream are written down again (words as their
/// text, braces as themselves, terminators as newlines, all joined by single spaces) and
/// lexed once more, the same kinds come out.
pub proof fn lemma_relex_stable(text: Seq<char>)
    ensures
        kinds(tokens(spell(kinds(tokens(text))))) == kinds(tokens(text)),
{
    let ks = kinds(tokens(text));
    lemma_stream_shape(text);
    lemma_ends_in_semi(text);
    lemma_first_token(text);
    let st = LexState::start(spell(ks));
    if ks[0] != KindView::Semi {
        lemma_spelling_lexes(ks, st);
    } else if ks.len() == 1 {
        let s = spell(ks);
        assert(ks =~= seq![KindView::Semi]);
        assert(s =~= seq!['\n']);
        assert(s.drop_first() =~= Seq::<char>::empty());
        assert(first_mark(s.drop_first()) is None);
        assert(first_mark(s) is None);
        lemma_first_token(s);
    } else {
        let s = spell(ks);
        let t1 = ks.drop_first();
        let t2 = t1.drop_first();
        assert(ks[1] == KindView::RightBrace);
        assert(ks.last() == KindView::Semi);
        assert(ks.len() > 2);
        lemma_shaped_tail(None, ks);
        lemma_shaped_tail(Some(ks[0]), t1);
        assert(spell(t1) =~= seq!['}'] + seq![' '] + spell(t2));
        assert(s =~= seq!['\n'] + seq![' '] + spell(t1));
        assert(s =~= seq!['\n', ' ', '}', ' '] + spell(t2));
        lemma_terminator_run_is(s, 1);
        let a = st.consume(1);
        assert(a.rest =~= seq![' ', '}', ' '] + spell(t2));
        assert(st.scan() == a.scan());
        let b = LexState { rest: a.rest.skip(1), ..a };
        assert(b.rest =~= seq!['}', ' '] + spell(t2));
        assert(a.scan() == b.scan());
        let c = b.scan().state;
        assert(b.rest.skip(1) =~= seq![' '] + spell(t2));
        assert(c.pending == Some(KindView::RightBrace));
        assert(c.rest == seq![' '] + spell(t2));
        let d = c.step().state;
        assert(d.rest == seq![' '] + spell(t2));
        assert(d.last == Some(KindView::RightBrace));
        lemma_kinds_from(st);
        lemma_kinds_from(c);
        lemma_spelling_lexes(t2, d);
        assert(ks =~= seq![KindView::Semi] + (seq![KindView::RightBrace] + t2));
    }
}

} // verus!
