//! The lexer: a cursor over the source text, and the automaton that cuts it into tokens.

use vstd::prelude::*;
use crate::chars::{is_line_terminator, terminator, word_char};
use crate::model::{
    lemma_consume_twice, lemma_newlines_bound, lemma_newlines_concat, lemma_newlines_single,
    lemma_terminator_run_bound, lemma_terminator_run_is, lemma_unread_restores,
    lemma_word_run_is, newlines, terminator_run, LexState,
};
use crate::stream::{lemma_step, tokens_from};
use crate::token::{KindView, TokenView};

pub use crate::token::{Kind, Token};

verus! {

/// A lexer over one text: it hands out the text's tokens one by one.
pub struct Lexer {
    /// The text, closed by an end mark that is never read.
    src: Vec<char>,
    pos: usize,
    line: usize,
    peek: Option<char>,
    next: Option<Kind>,
    last: Option<Kind>,
}

impl View for Lexer {
    type V = LexState;

    closed spec fn view(&self) -> LexState {
        LexState {
            rest: self.remaining(),
            line: self.line as nat,
            pending: self.next.deep_view(),
            last: self.last.deep_view(),
        }
    }
}

impl Lexer {
    /// The characters still to be read: the one pushed back, if any, then the unread source.
    closed spec fn remaining(&self) -> Seq<char> {
        match self.peek {
            Some(c) => seq![c] + self.src@.subrange(self.pos as int, self.src.len() - 1),
            None => self.src@.subrange(self.pos as int, self.src.len() - 1),
        }
    }

    #[verifier::type_invariant]
    closed spec fn inv(&self) -> bool {
        &&& self.pos < self.src.len()
        &&& 1 <= self.line
        &&& self.line + newlines(self.remaining()) <= usize::MAX
    }

    /// A lexer at the start of `src`, on line 1, with nothing emitted yet.
    pub fn new(src: &str) -> (lexer: Self)
        ensures
            lexer@ == LexState::start(src@),
    {
        let mut chars: Vec<char> = Vec::new();
        for c in it: src.chars()
            invariant
                it.seq() == src@,
                chars@ == src@.take(it.index() as int),
        {
            chars.push(c);
            assert(chars@ =~= src@.take(it.index() + 1));
        }
        assert(chars@ =~= src@);
        // With the end mark in place the text is shorter than the vector, whose length can
        // be counted: so can the lines of the text.
        chars.push('\0');
        let marked: usize = chars.len();
        proof {
            lemma_newlines_bound(src@);
            assert(chars@.subrange(0, marked - 1) =~= src@);
        }
        Self { src: chars, pos: 0, line: 1, peek: None, next: None, last: None }
    }

    /// Records `kind` as the last one emitted and hands out its token, attributed to `line`
    /// or, where none is given, to the current line.
    fn emit(&mut self, kind: Kind, line: Option<usize>) -> (token: Option<Token>)
        ensures
            token.deep_view() == old(self)@.emit(kind@, old(self)@.line_or(line)).token,
            final(self)@ == old(self)@.emit(kind@, old(self)@.line_or(line)).state,
    {
        proof {
            use_type_invariant(&*self);
        }
        self.last = Some(kind.clone());
        let line = match line {
            Some(n) => n,
            None => self.line,
        };
        Some(Token::new(kind, line))
    }

    /// Consumes and returns the next character; a newline moves the line counter on.
    fn next_char(&mut self) -> (c: Option<char>)
        ensures
            final(self).peek is None,
            c == old(self)@.first(),
            final(self)@ == old(self)@.read(),
    {
        proof {
            use_type_invariant(&*self);
        }
        let ghost before = self.remaining();
        let next = match self.peek {
            Some(c) => {
                proof {
                    let unread = self.src@.subrange(self.pos as int, self.src.len() - 1);
                    lemma_newlines_single(c);
                    lemma_newlines_concat(seq![c], unread);
                    assert(before.skip(1) =~= unread);
                }
                self.peek = None;
                Some(c)
            },
            None => {
                if self.pos + 1 < self.src.len() {
                    let c = self.src[self.pos];
                    proof {
                        let unread = self.src@.subrange(self.pos + 1, self.src.len() - 1);
                        lemma_newlines_single(c);
                        lemma_newlines_concat(seq![c], unread);
                        assert(before =~= seq![c] + unread);
                        assert(before.skip(1) =~= unread);
                    }
                    self.pos += 1;
                    Some(c)
                } else {
                    None
                }
            },
        };
        proof {
            if next is Some {
                assert(before.take(1) =~= seq![next.unwrap()]);
            }
        }
        if next == Some('\n') {
            self.line += 1;
        }
        next
    }

    /// Returns `c`, the character read last, to be read again; a newline moves the line
    /// counter back.
    fn push_char(&mut self, c: char)
        requires
            old(self).peek is None,
            c == '\n' ==> old(self)@.line > 1,
        ensures
            final(self)@ == old(self)@.unread(c),
    {
        proof {
            use_type_invariant(&*self);
            lemma_newlines_single(c);
            lemma_newlines_concat(seq![c], self.remaining());
        }
        if c == '\n' {
            self.line -= 1;
        }
        self.peek = Some(c);
    }

    /// Consumes a maximal run of line terminators and returns the line on which it began
    /// to read.
    fn consume_line_terminators(&mut self) -> (line: usize)
        ensures
            line == old(self)@.line,
            final(self)@ == old(self)@.consume(terminator_run(old(self)@.rest)),
            terminator_run(final(self)@.rest) == 0,
    {
        let line = self.line;
        let ghost start = self@;
        let ghost mut k: nat = 0;
        proof {
            lemma_consume_twice(start, 0, 0);
            lemma_terminator_run_bound(start.rest);
        }
        loop
            invariant_except_break
                k <= start.rest.len(),
                forall|i: int| 0 <= i < k ==> terminator(start.rest[i]),
                self@ == start.consume(k),
            ensures
                self@ == start.consume(terminator_run(start.rest)),
            decreases start.rest.len() - k,
        {
            let ghost before = self@;
            match self.next_char() {
                None => {
                    proof {
                        lemma_terminator_run_is(start.rest, k);
                    }
                    break ;
                },
                Some(c) => {
                    if !is_line_terminator(c) {
                        self.push_char(c);
                        proof {
                            lemma_unread_restores(before);
                            lemma_terminator_run_is(start.rest, k);
                        }
                        break ;
                    }
                    proof {
                        lemma_consume_twice(start, k, 1);
                        k = k + 1;
                    }
                },
            }
        }
        line
    }

    /// Whether the token emitted last was a statement terminator.
    fn last_is_semi(&self) -> (yes: bool)
        ensures
            yes == (self@.last == Some(KindView::Semi)),
    {
        match &self.last {
            Some(Kind::Semi) => true,
            _ => false,
        }
    }

    /// The next token, or `None` once the stream has ended.
    ///
    /// A kind waiting in the lookahead slot is emitted first. Otherwise the text is scanned:
    /// an opening brace swallows the terminators behind it; a closing brace is preceded by a
    /// terminator, inserted where the stream lacks one; a run of terminators gives one
    /// terminator, or none before the first token; anything else up to the next whitespace
    /// or terminator is a word. At the end of the text one last terminator is emitted unless
    /// the stream already ends in one.
    pub fn next(&mut self) -> (token: Option<Token>)
        ensures
            token.deep_view() == old(self)@.step().token,
            final(self)@ == old(self)@.step().state,
            token is Some ==> token->0.line >= 1,
    {
        proof {
            use_type_invariant(&*self);
            lemma_step(self@);
        }
        let mut pending: Option<Kind> = None;
        std::mem::swap(&mut pending, &mut self.next);
        if let Some(kind) = pending {
            return self.emit(kind, None);
        }
        let ghost entry = self@;
        let ghost mut word = self@;
        let mut buf = String::new();
        loop
            invariant_except_break
                buf@.len() == 0 ==> self@.scan() == entry.scan(),
                buf@.len() > 0 ==> word.scan() == entry.scan(),
                buf@.len() > 0 ==> word.rest[0] != '{' && word.rest[0] != '}',
                buf@.len() > 0 ==> self@ == (LexState { rest: word.rest.skip(buf@.len() as int), ..word }),
            invariant
                old(self)@.step() == entry.scan(),
                self@.pending is None,
                1 <= self@.line,
                buf@.len() <= word.rest.len(),
                buf@ == word.rest.take(buf@.len() as int),
                forall|i: int| 0 <= i < buf@.len() ==> word_char(word.rest[i]),
            ensures
                buf@.len() == 0 ==> self@.rest.len() == 0 && self@.scan() == entry.scan(),
                buf@.len() > 0 ==> self@.emit(KindView::Word(buf@), self@.line) == entry.scan(),
            decreases self@.rest.len(),
        {
            let ghost before = self@;
            let ghost n = buf@.len() as int;
            let c = match self.next_char() {
                Some(c) => c,
                None => {
                    proof {
                        if buf@.len() > 0 {
                            lemma_word_run_is(word.rest, buf@.len());
                        }
                    }
                    break ;
                },
            };
            proof {
                lemma_newlines_single(c);
                assert(before.rest.take(1) =~= seq![c]);
            }
            if buf.as_str().is_empty() {
                if c == '{' {
                    let line = self.consume_line_terminators();
                    proof {
                        lemma_terminator_run_bound(before.rest.skip(1));
                        lemma_consume_twice(before, 1, terminator_run(before.rest.skip(1)));
                    }
                    return self.emit(Kind::LeftBrace, Some(line));
                }
                if c == '}' {
                    proof {
                        use_type_invariant(&*self);
                    }
                    let kind = if !self.last_is_semi() {
                        self.next = Some(Kind::RightBrace);
                        Kind::Semi
                    } else {
                        Kind::RightBrace
                    };
                    return self.emit(kind, None);
                }
            }
            if is_line_terminator(c) {
                if buf.as_str().is_empty() {
                    let line = self.consume_line_terminators();
                    proof {
                        assert(before.rest.drop_first() =~= before.rest.skip(1));
                        lemma_terminator_run_bound(before.rest.skip(1));
                        lemma_consume_twice(before, 1, terminator_run(before.rest.skip(1)));
                    }
                    if self.last.is_none() {
                        continue ;
                    }
                    let began = if c == '\n' {
                        line - 1
                    } else {
                        line
                    };
                    return self.emit(Kind::Semi, Some(began));
                } else {
                    self.push_char(c);
                    proof {
                        lemma_unread_restores(before);
                        lemma_word_run_is(word.rest, buf@.len());
                    }
                    break ;
                }
            }
            if c.is_whitespace() {
                if buf.as_str().is_empty() {
                    continue ;
                } else {
                    proof {
                        lemma_word_run_is(word.rest, buf@.len());
                        assert(word.rest.skip(n).skip(1) =~= word.rest.skip(n + 1));
                    }
                    break ;
                }
            }
            proof {
                if buf@.len() == 0 {
                    word = before;
                }
                assert(word.rest.skip(n).skip(1) =~= word.rest.skip(n + 1));
                assert(word.rest.take(n + 1) =~= word.rest.take(n).push(c));
            }
            buf.push(c);
        }
        if buf.as_str().is_empty() {
            if self.last_is_semi() {
                None
            } else {
                self.emit(Kind::Semi, None)
            }
        } else {
            self.emit(Kind::Word(buf), None)
        }
    }

    /// All the tokens that are still to come, in order, up to the end of the stream.
    pub fn collect(self) -> (tokens: Vec<Token>)
        ensures
            tokens.deep_view() == tokens_from(self@),
    {
        let ghost start = self@;
        let mut lexer = self;
        let mut tokens: Vec<Token> = Vec::new();
        assert(tokens.deep_view() =~= Seq::<TokenView>::empty());
        loop
            invariant_except_break
                tokens.deep_view() + tokens_from(lexer@) == tokens_from(start),
            ensures
                tokens.deep_view() == tokens_from(start),
            decreases lexer@.budget(),
        {
            let ghost before = lexer@;
            let ghost sofar = tokens.deep_view();
            proof {
                lemma_step(before);
            }
            match lexer.next() {
                Some(token) => {
                    tokens.push(token);
                    assert(tokens.deep_view() =~= sofar.push(token@));
                    assert(sofar.push(token@) + tokens_from(lexer@) =~= sofar + tokens_from(before));
                },
                None => {
                    assert(sofar + tokens_from(before) =~= sofar);
                    break ;
                },
            }
        }
        tokens
    }
}

} // verus!
