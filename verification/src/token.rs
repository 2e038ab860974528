//! Tokens and their kinds, with the mathematical values that contracts speak of.

use vstd::prelude::*;
use vstd::string::StringExecFns;

verus! {

/// What a [`Kind`] stands for in specifications: the word's text is a sequence of characters.
pub enum KindView {
    Word(Seq<char>),
    LeftBrace,
    RightBrace,
    Semi,
}

impl KindView {
    /// The text that a kind is named by: a word's own text, a brace, or a semicolon.
    pub open spec fn symbol(self) -> Seq<char> {
        match self {
            KindView::Word(text) => text,
            KindView::LeftBrace => seq!['{'],
            KindView::RightBrace => seq!['}'],
            KindView::Semi => seq![';'],
        }
    }
}

/// What a [`Token`] stands for in specifications.
pub struct TokenView {
    pub kind: KindView,
    pub line: nat,
}

/// The closed set of token kinds.
#[derive(Debug, PartialEq)]
pub enum Kind {
    /// A run of characters that are neither whitespace nor line terminators, uninterpreted.
    Word(String),
    LeftBrace,
    RightBrace,
    /// A statement terminator, written in the source or inserted.
    Semi,
}

impl View for Kind {
    type V = KindView;

    open spec fn view(&self) -> KindView {
        match *self {
            Kind::Word(text) => KindView::Word(text@),
            Kind::LeftBrace => KindView::LeftBrace,
            Kind::RightBrace => KindView::RightBrace,
            Kind::Semi => KindView::Semi,
        }
    }
}

impl DeepView for Kind {
    type V = KindView;

    open spec fn deep_view(&self) -> KindView {
        self@
    }
}

impl Kind {
    /// The kind as a reader is shown it: its symbol between single quotes.
    pub fn to_string(&self) -> (shown: String)
        ensures
            shown@ == seq!['\''] + self@.symbol() + seq!['\''],
    {
        let mut shown = String::new();
        shown.push('\'');
        match self {
            Kind::Word(word) => shown.append(word.as_str()),
            Kind::LeftBrace => shown.push('{'),
            Kind::RightBrace => shown.push('}'),
            Kind::Semi => shown.push(';'),
        }
        shown.push('\'');
        assert(shown@ =~= seq!['\''] + self@.symbol() + seq!['\'']);
        shown
    }
}

impl Clone for Kind {
    fn clone(&self) -> (copy: Self)
        ensures
            copy@ == self@,
    {
        match self {
            Kind::Word(text) => Kind::Word(text.clone()),
            Kind::LeftBrace => Kind::LeftBrace,
            Kind::RightBrace => Kind::RightBrace,
            Kind::Semi => Kind::Semi,
        }
    }
}

/// A token kind together with the 1-based source line it is attributed to.
#[derive(Debug, PartialEq)]
pub struct Token {
    pub kind: Kind,
    pub line: usize,
}

impl View for Token {
    type V = TokenView;

    open spec fn view(&self) -> TokenView {
        TokenView { kind: self.kind@, line: self.line as nat }
    }
}

impl DeepView for Token {
    type V = TokenView;

    open spec fn deep_view(&self) -> TokenView {
        self@
    }
}

impl Clone for Token {
    fn clone(&self) -> (copy: Self)
        ensures
            copy@ == self@,
    {
        Token { kind: self.kind.clone(), line: self.line }
    }
}

impl Token {
    /// The token of kind `kind` on line `line`.
    pub fn new(kind: Kind, line: usize) -> (token: Self)
        ensures
            token.kind == kind,
            token.line == line,
    {
        Self { kind, line }
    }
}

} // verus!
