//! The automaton as mathematics: one step takes a state to a token and the next state.

use vstd::prelude::*;
use crate::chars::{terminator, whitespace, word_char};
use crate::token::{KindView, TokenView};

verus! {

/// Length of the longest prefix of `s` made of line terminators.
pub open spec fn terminator_run(s: Seq<char>) -> nat
    decreases s.len(),
{
    if s.len() > 0 && terminator(s[0]) {
        1 + terminator_run(s.drop_first())
    } else {
        0
    }
}

/// A run of terminators is a prefix of terminators, as long as it can be.
pub proof fn lemma_terminator_run_bound(s: Seq<char>)
    ensures
        terminator_run(s) <= s.len(),
        forall|i: int| 0 <= i < terminator_run(s) ==> terminator(s[i]),
        terminator_run(s) < s.len() ==> !terminator(s[terminator_run(s) as int]),
    decreases s.len(),
{
    if s.len() > 0 && terminator(s[0]) {
        let t = s.drop_first();
        lemma_terminator_run_bound(t);
        assert forall|i: int| 0 <= i < terminator_run(s) implies terminator(s[i]) by {
            if i > 0 {
                assert(s[i] == t[i - 1]);
            }
        }
        if terminator_run(s) < s.len() {
            assert(s[terminator_run(s) as int] == t[terminator_run(t) as int]);
        }
    }
}

/// Length of the longest prefix of `s` made of word characters.
pub open spec fn word_run(s: Seq<char>) -> nat
    decreases s.len(),
{
    if s.len() > 0 && word_char(s[0]) {
        1 + word_run(s.drop_first())
    } else {
        0
    }
}

/// A run of word characters is a prefix of word characters, as long as it can be.
pub proof fn lemma_word_run_bound(s: Seq<char>)
    ensures
        word_run(s) <= s.len(),
        forall|i: int| 0 <= i < word_run(s) ==> word_char(s[i]),
        word_run(s) < s.len() ==> !word_char(s[word_run(s) as int]),
    decreases s.len(),
{
    if s.len() > 0 && word_char(s[0]) {
        let t = s.drop_first();
        lemma_word_run_bound(t);
        assert forall|i: int| 0 <= i < word_run(s) implies word_char(s[i]) by {
            if i > 0 {
                assert(s[i] == t[i - 1]);
            }
        }
        if word_run(s) < s.len() {
            assert(s[word_run(s) as int] == t[word_run(t) as int]);
        }
    }
}

/// Number of newline characters in `s`.
pub open spec fn newlines(s: Seq<char>) -> nat
    decreases s.len(),
{
    if s.len() == 0 {
        0
    } else {
        newlines(s.drop_last()) + if s.last() == '\n' {
            1nat
        } else {
            0nat
        }
    }
}

/// A newline count never exceeds the length of the text.
pub proof fn lemma_newlines_bound(s: Seq<char>)
    ensures
        newlines(s) <= s.len(),
    decreases s.len(),
{
    if s.len() > 0 {
        lemma_newlines_bound(s.drop_last());
    }
}

/// Newlines are counted part by part.
pub proof fn lemma_newlines_concat(a: Seq<char>, b: Seq<char>)
    ensures
        newlines(a + b) == newlines(a) + newlines(b),
    decreases b.len(),
{
    if b.len() == 0 {
        assert(a + b =~= a);
    } else {
        assert((a + b).drop_last() =~= a + b.drop_last());
        lemma_newlines_concat(a, b.drop_last());
    }
}

/// A single character counts as one newline or none.
pub proof fn lemma_newlines_single(c: char)
    ensures
        newlines(seq![c]) == if c == '\n' {
            1nat
        } else {
            0nat
        },
{
    assert(seq![c].drop_last() =~= Seq::<char>::empty());
    assert(newlines(seq![c].drop_last()) == 0);
}

/// Where the first `k` characters are terminators and the next one is not, the run of
/// terminators has length `k`.
pub proof fn lemma_terminator_run_is(s: Seq<char>, k: nat)
    requires
        k <= s.len(),
        forall|i: int| 0 <= i < k ==> terminator(s[i]),
        k < s.len() ==> !terminator(s[k as int]),
    ensures
        terminator_run(s) == k,
    decreases k,
{
    if k > 0 {
        lemma_terminator_run_is(s.drop_first(), (k - 1) as nat);
    }
}

/// Where the first `k` characters are word characters and the next one is not, the run of
/// word characters has length `k`.
pub proof fn lemma_word_run_is(s: Seq<char>, k: nat)
    requires
        k <= s.len(),
        forall|i: int| 0 <= i < k ==> word_char(s[i]),
        k < s.len() ==> !word_char(s[k as int]),
    ensures
        word_run(s) == k,
    decreases k,
{
    if k > 0 {
        lemma_word_run_is(s.drop_first(), (k - 1) as nat);
    }
}

/// Everything the lexer remembers between two tokens.
pub struct LexState {
    /// The text not yet consumed; a character that was pushed back is part of it.
    pub rest: Seq<char>,
    /// The 1-based line of the first character of `rest`.
    pub line: nat,
    /// The lookahead slot: a kind already decided, owed on the next step.
    pub pending: Option<KindView>,
    /// The kind of the token emitted last, if any was.
    pub last: Option<KindView>,
}

/// What one request for a token yields.
pub struct Step {
    pub token: Option<TokenView>,
    pub state: LexState,
}

impl LexState {
    /// The state in which lexing of `text` begins.
    pub open spec fn start(text: Seq<char>) -> LexState {
        LexState { rest: text, line: 1, pending: None, last: None }
    }

    /// The state once the first `n` characters of `rest` are consumed as well.
    pub open spec fn consume(self, n: nat) -> LexState {
        LexState {
            rest: self.rest.skip(n as int),
            line: self.line + newlines(self.rest.take(n as int)),
            ..self
        }
    }

    /// The character that a read returns: the first of `rest`, if there is one.
    pub open spec fn first(self) -> Option<char> {
        if self.rest.len() > 0 {
            Some(self.rest[0])
        } else {
            None
        }
    }

    /// The state after a read: one character consumed, if there was one.
    pub open spec fn read(self) -> LexState {
        if self.rest.len() > 0 {
            self.consume(1)
        } else {
            self
        }
    }

    /// The state after `c` is pushed back: it is first in `rest` again, and a newline gives
    /// its line back.
    pub open spec fn unread(self, c: char) -> LexState {
        LexState {
            rest: seq![c] + self.rest,
            line: if c == '\n' {
                (self.line - 1) as nat
            } else {
                self.line
            },
            ..self
        }
    }

    /// The line that a token is attributed to: `line` where one is given, else the current one.
    pub open spec fn line_or(self, line: Option<usize>) -> nat {
        match line {
            Some(n) => n as nat,
            None => self.line,
        }
    }

    /// Emission of `kind`, attributed to `line`: the token, and the state that remembers it.
    pub open spec fn emit(self, kind: KindView, line: nat) -> Step {
        Step {
            token: Some(TokenView { kind, line }),
            state: LexState { last: Some(kind), ..self },
        }
    }

    /// One request for a token: the lookahead slot is served first, then the text is scanned.
    pub open spec fn step(self) -> Step {
        match self.pending {
            Some(kind) => LexState { pending: None, ..self }.emit(kind, self.line),
            None => self.scan(),
        }
    }

    /// The next token found in the text, with an empty lookahead slot.
    pub open spec fn scan(self) -> Step
        decreases self.rest.len(),
        via Self::scan_terminates
    {
        let s = self.rest;
        if s.len() == 0 {
            if self.last == Some(KindView::Semi) {
                Step { token: None, state: self }
            } else {
                self.emit(KindView::Semi, self.line)
            }
        } else if s[0] == '{' {
            self.consume(1 + terminator_run(s.skip(1))).emit(KindView::LeftBrace, self.line)
        } else if s[0] == '}' {
            if self.last == Some(KindView::Semi) {
                self.consume(1).emit(KindView::RightBrace, self.line)
            } else {
                LexState { pending: Some(KindView::RightBrace), ..self.consume(1) }.emit(
                    KindView::Semi,
                    self.line,
                )
            }
        } else if terminator(s[0]) {
            let after = self.consume(terminator_run(s));
            if self.last is None {
                after.scan()
            } else {
                after.emit(KindView::Semi, self.line)
            }
        } else if whitespace(s[0]) {
            LexState { rest: s.skip(1), ..self }.scan()
        } else {
            let n = word_run(s);
            let ends_in_blank = n < s.len() && !terminator(s[n as int]);
            let used = if ends_in_blank {
                n as int + 1
            } else {
                n as int
            };
            LexState { rest: s.skip(used), ..self }.emit(KindView::Word(s.take(n as int)), self.line)
        }
    }

    #[via_fn]
    proof fn scan_terminates(self) {
        lemma_terminator_run_bound(self.rest);
    }
}

/// Consuming `a` characters and then `b` more is consuming `a + b`.
pub proof fn lemma_consume_twice(st: LexState, a: nat, b: nat)
    requires
        a + b <= st.rest.len(),
    ensures
        st.consume(a).consume(b) == st.consume(a + b),
        st.consume(0) == st,
{
    let s = st.rest;
    assert(s.skip(a as int).skip(b as int) =~= s.skip((a + b) as int));
    assert(s.take((a + b) as int) =~= s.take(a as int) + s.skip(a as int).take(b as int));
    lemma_newlines_concat(s.take(a as int), s.skip(a as int).take(b as int));
    assert(s.skip(0) =~= s);
    assert(s.take(0) =~= Seq::<char>::empty());
}

/// Pushing back the character just read restores the state before the read.
pub proof fn lemma_unread_restores(st: LexState)
    requires
        st.rest.len() > 0,
    ensures
        st.read().unread(st.rest[0]) == st,
{
    let s = st.rest;
    assert(seq![s[0]] + s.skip(1) =~= s);
    assert(s.take(1) =~= seq![s[0]]);
    lemma_newlines_single(s[0]);
}

} // verus!
