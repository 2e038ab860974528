use shell_lexer::lexer::Lexer;
use shell_lexer::shape::first_mark_of;
use shell_lexer::spacing::has_split_terminators_in;
use shell_lexer::token::{Kind, Token};

fn lex(src: &str) -> Vec<Token> {
    let mut lexer = Lexer::new(src);
    let mut tokens = Vec::new();
    while let Some(token) = lexer.next() {
        tokens.push(token);
    }
    tokens
}

fn kinds(src: &str) -> Vec<Kind> {
    lex(src).into_iter().map(|t| t.kind).collect()
}

#[test]
fn command() {
    let tokens: Vec<Kind> = kinds("cat /etc/hosts /etc/passwd");
    assert_eq!(
        tokens,
        vec![
            Kind::Word("cat".into()),
            Kind::Word("/etc/hosts".into()),
            Kind::Word("/etc/passwd".into()),
            Kind::Semi,
        ],
    );
}

#[test]
fn if_stmt() {
    let tokens: Vec<Kind> = kinds("if true { echo truthy }\n");
    assert_eq!(
        tokens,
        vec![
            Kind::Word("if".into()),
            Kind::Word("true".into()),
            Kind::LeftBrace,
            Kind::Word("echo".into()),
            Kind::Word("truthy".into()),
            Kind::Semi,
            Kind::RightBrace,
            Kind::Semi,
        ],
    );
}

#[test]
fn empty_body() {
    let tokens: Vec<Kind> = kinds("if false { }\n");
    assert_eq!(
        tokens,
        vec![
            Kind::Word("if".into()),
            Kind::Word("false".into()),
            Kind::LeftBrace,
            Kind::Semi,
            Kind::RightBrace,
            Kind::Semi,
        ],
    );
}

#[test]
fn multiline_nested_if_else_stmt() {
    let src = r#"if /bin/a {
  echo a
} else if /bin/b {
  echo b
  echo 2
  if true {
    exit
  }
} else {
  echo c
}
"#;
    let tokens: Vec<Token> = lex(src);
    assert_eq!(
        tokens,
        vec![
            Token::new(Kind::Word("if".into()), 1),
            Token::new(Kind::Word("/bin/a".into()), 1),
            Token::new(Kind::LeftBrace, 1),
            Token::new(Kind::Word("echo".into()), 2),
            Token::new(Kind::Word("a".into()), 2),
            Token::new(Kind::Semi, 2),
            Token::new(Kind::RightBrace, 3),
            Token::new(Kind::Word("else".into()), 3),
            Token::new(Kind::Word("if".into()), 3),
            Token::new(Kind::Word("/bin/b".into()), 3),
            Token::new(Kind::LeftBrace, 3),
            Token::new(Kind::Word("echo".into()), 4),
            Token::new(Kind::Word("b".into()), 4),
            Token::new(Kind::Semi, 4),
            Token::new(Kind::Word("echo".into()), 5),
            Token::new(Kind::Word("2".into()), 5),
            Token::new(Kind::Semi, 5),
            Token::new(Kind::Word("if".into()), 6),
            Token::new(Kind::Word("true".into()), 6),
            Token::new(Kind::LeftBrace, 6),
            Token::new(Kind::Word("exit".into()), 7),
            Token::new(Kind::Semi, 7),
            Token::new(Kind::RightBrace, 8),
            Token::new(Kind::Semi, 8),
            Token::new(Kind::RightBrace, 9),
            Token::new(Kind::Word("else".into()), 9),
            Token::new(Kind::LeftBrace, 9),
            Token::new(Kind::Word("echo".into()), 10),
            Token::new(Kind::Word("c".into()), 10),
            Token::new(Kind::Semi, 10),
            Token::new(Kind::RightBrace, 11),
            Token::new(Kind::Semi, 11),
        ],
    );
}

fn word(text: &str) -> Kind {
    Kind::Word(text.into())
}

#[test]
fn mixed_terminators_collapse() {
    assert_eq!(kinds("a;;\n;b"), vec![word("a"), Kind::Semi, word("b"), Kind::Semi]);
    assert_eq!(kinds("a\n\nb"), vec![word("a"), Kind::Semi, word("b"), Kind::Semi]);
    assert_eq!(kinds("a\n;b"), vec![word("a"), Kind::Semi, word("b"), Kind::Semi]);
}

#[test]
fn command_is_on_line_one() {
    let tokens = lex("cat /etc/hosts /etc/passwd");
    assert_eq!(tokens.len(), 4);
    assert!(tokens.iter().all(|t| t.line == 1));
}

#[test]
fn empty_text_gives_one_terminator() {
    assert_eq!(lex(""), vec![Token::new(Kind::Semi, 1)]);
    assert_eq!(lex("  \t "), vec![Token::new(Kind::Semi, 1)]);
    assert_eq!(lex("\n;\n"), vec![Token::new(Kind::Semi, 3)]);
}

#[test]
fn stream_stays_ended() {
    let mut lexer = Lexer::new("a");
    assert_eq!(lexer.next(), Some(Token::new(word("a"), 1)));
    assert_eq!(lexer.next(), Some(Token::new(Kind::Semi, 1)));
    assert_eq!(lexer.next(), None);
    assert_eq!(lexer.next(), None);
}

#[test]
fn leading_terminators_are_suppressed() {
    assert_eq!(
        lex("\n;\n a"),
        vec![Token::new(word("a"), 3), Token::new(Kind::Semi, 3)],
    );
}

#[test]
fn terminator_is_attributed_to_the_line_its_run_begins_on() {
    assert_eq!(
        lex("a\n\n\nb"),
        vec![
            Token::new(word("a"), 1),
            Token::new(Kind::Semi, 1),
            Token::new(word("b"), 4),
            Token::new(Kind::Semi, 4),
        ],
    );
    assert_eq!(
        lex("a;b"),
        vec![
            Token::new(word("a"), 1),
            Token::new(Kind::Semi, 1),
            Token::new(word("b"), 1),
            Token::new(Kind::Semi, 1),
        ],
    );
    assert_eq!(
        lex("a\nb ;\n\nc"),
        vec![
            Token::new(word("a"), 1),
            Token::new(Kind::Semi, 1),
            Token::new(word("b"), 2),
            Token::new(Kind::Semi, 2),
            Token::new(word("c"), 4),
            Token::new(Kind::Semi, 4),
        ],
    );
}

#[test]
fn opening_brace_swallows_terminators_and_keeps_its_line() {
    assert_eq!(
        lex("{\n\n;a"),
        vec![
            Token::new(Kind::LeftBrace, 1),
            Token::new(word("a"), 3),
            Token::new(Kind::Semi, 3),
        ],
    );
}

#[test]
fn closing_brace_gets_its_terminator() {
    assert_eq!(
        lex("{ a }"),
        vec![
            Token::new(Kind::LeftBrace, 1),
            Token::new(word("a"), 1),
            Token::new(Kind::Semi, 1),
            Token::new(Kind::RightBrace, 1),
            Token::new(Kind::Semi, 1),
        ],
    );
    assert_eq!(
        kinds("{ a; }"),
        vec![Kind::LeftBrace, word("a"), Kind::Semi, Kind::RightBrace, Kind::Semi],
    );
    assert_eq!(kinds("}"), vec![Kind::Semi, Kind::RightBrace, Kind::Semi]);
    assert_eq!(
        kinds("}}"),
        vec![Kind::Semi, Kind::RightBrace, Kind::Semi, Kind::RightBrace, Kind::Semi],
    );
}

#[test]
fn braces_inside_a_word_belong_to_it() {
    assert_eq!(kinds("a{b}c"), vec![word("a{b}c"), Kind::Semi]);
    assert_eq!(kinds("{{a"), vec![Kind::LeftBrace, Kind::LeftBrace, word("a"), Kind::Semi]);
    assert_eq!(
        kinds("{}a{}"),
        vec![Kind::LeftBrace, Kind::Semi, Kind::RightBrace, word("a{}"), Kind::Semi],
    );
}

#[test]
fn whitespace_parts_words() {
    assert_eq!(kinds("a b"), vec![word("a"), word("b"), Kind::Semi]);
    assert_eq!(kinds("a\tb"), vec![word("a"), word("b"), Kind::Semi]);
    assert_eq!(kinds("a\u{a0}b"), vec![word("a"), word("b"), Kind::Semi]);
    assert_eq!(kinds("a\u{3000}  b"), vec![word("a"), word("b"), Kind::Semi]);
    assert_eq!(kinds("a-b_c"), vec![word("a-b_c"), Kind::Semi]);
}

#[test]
fn words_are_kept_as_written() {
    assert_eq!(kinds("$HOME/\"x y\""), vec![word("$HOME/\"x"), word("y\""), Kind::Semi]);
    assert_eq!(kinds("héllo wörld"), vec![word("héllo"), word("wörld"), Kind::Semi]);
}

#[test]
fn terminators_parted_by_blanks_give_two_tokens() {
    assert_eq!(
        lex("a ; ; b"),
        vec![
            Token::new(word("a"), 1),
            Token::new(Kind::Semi, 1),
            Token::new(Kind::Semi, 1),
            Token::new(word("b"), 1),
            Token::new(Kind::Semi, 1),
        ],
    );
    assert_eq!(kinds("{; ;"), vec![Kind::LeftBrace, Kind::Semi]);
    assert_eq!(kinds("; ; a"), vec![word("a"), Kind::Semi]);
}

fn has_adjacent_semis(kinds: &[Kind]) -> bool {
    kinds.windows(2).any(|w| w[0] == Kind::Semi && w[1] == Kind::Semi)
}

const SAMPLES: [&str; 12] = [
    "",
    "cat /etc/hosts /etc/passwd",
    "if true { echo truthy }\n",
    "if false { }\n",
    "a;;\n;b",
    "\n\n  a\n\n\n{\n b\n}\n",
    "{ { } }",
    "} else {",
    "a{b c}d;e",
    "x=1;;y=2\n\nz",
    "if a {\n  b\n} else if c {\n  d\n}\n",
    "  \t\n",
];

#[test]
fn streams_without_split_terminators_have_no_adjacent_terminators() {
    for src in SAMPLES {
        assert!(!has_adjacent_semis(&kinds(src)), "{:?}", src);
    }
}

#[test]
fn streams_begin_with_a_terminator_only_before_a_closing_brace_or_the_end() {
    for src in SAMPLES {
        let first_mark = src.chars().find(|c| !c.is_whitespace() && *c != ';');
        let begins_with_semi = kinds(src)[0] == Kind::Semi;
        assert_eq!(begins_with_semi, first_mark.is_none() || first_mark == Some('}'), "{:?}", src);
    }
}

#[test]
fn streams_end_in_a_terminator() {
    for src in SAMPLES {
        assert_eq!(kinds(src).last(), Some(&Kind::Semi), "{:?}", src);
    }
    assert_eq!(kinds("a ; ; b").last(), Some(&Kind::Semi));
}

#[test]
fn closing_braces_stand_behind_terminators() {
    for src in SAMPLES {
        let ks = kinds(src);
        for (i, kind) in ks.iter().enumerate() {
            if *kind == Kind::RightBrace {
                assert!(i > 0 && ks[i - 1] == Kind::Semi, "{:?}", src);
            }
        }
    }
}

fn spell(kinds: &[Kind]) -> String {
    let parts: Vec<String> = kinds
        .iter()
        .map(|kind| match kind {
            Kind::Word(text) => text.clone(),
            Kind::LeftBrace => "{".to_string(),
            Kind::RightBrace => "}".to_string(),
            Kind::Semi => "\n".to_string(),
        })
        .collect();
    parts.join(" ")
}

#[test]
fn lexing_the_spelled_stream_gives_the_same_kinds() {
    for src in SAMPLES {
        let first = kinds(src);
        assert_eq!(kinds(&spell(&first)), first, "{:?}", src);
    }
    let doubled = kinds("a ; ; b");
    assert_eq!(kinds(&spell(&doubled)), doubled);
    assert_eq!(spell(&kinds("if true { echo truthy }\n")), "if true { echo truthy \n } \n");
}

#[test]
fn collect_gives_what_next_gives() {
    for src in SAMPLES {
        assert_eq!(Lexer::new(src).collect(), lex(src), "{:?}", src);
    }
    let mut lexer = Lexer::new("a { b }");
    assert_eq!(lexer.next(), Some(Token::new(word("a"), 1)));
    assert_eq!(
        lexer.collect(),
        vec![
            Token::new(Kind::LeftBrace, 1),
            Token::new(word("b"), 1),
            Token::new(Kind::Semi, 1),
            Token::new(Kind::RightBrace, 1),
            Token::new(Kind::Semi, 1),
        ],
    );
}

#[test]
fn kinds_are_shown_between_quotes() {
    assert_eq!(word("echo").to_string(), "'echo'");
    assert_eq!(Kind::LeftBrace.to_string(), "'{'");
    assert_eq!(Kind::RightBrace.to_string(), "'}'");
    assert_eq!(Kind::Semi.to_string(), "';'");
}

#[test]
fn tokens_are_cloned_whole() {
    let token = Token::new(word("echo"), 7);
    assert_eq!(token.clone(), token);
    assert_eq!(token.kind.clone(), word("echo"));
    assert_eq!(token.line, 7);
}

#[test]
fn first_mark_is_the_first_character_that_is_not_passed_over() {
    assert_eq!(first_mark_of(""), None);
    assert_eq!(first_mark_of(" \n;\t"), None);
    assert_eq!(first_mark_of(" \n; }x"), Some('}'));
    assert_eq!(first_mark_of("{"), Some('{'));
    assert_eq!(first_mark_of("\u{a0}\u{3000}wörld"), Some('w'));
    for src in SAMPLES {
        let mark = first_mark_of(src);
        assert_eq!(kinds(src)[0] == Kind::Semi, mark.is_none() || mark == Some('}'), "{:?}", src);
    }
}

#[test]
fn split_terminators_are_found_where_terminators_follow_each_other() {
    assert!(has_split_terminators_in("a ; ; b"));
    assert!(has_split_terminators_in("a; ;b"));
    assert!(has_split_terminators_in("a\n \n"));
    assert!(has_split_terminators_in("};\t;"));
    assert!(has_split_terminators_in("a{; ;"));
    assert!(!has_split_terminators_in("{; ;"));
    assert!(!has_split_terminators_in("a {\n;\n ;"));
    assert!(!has_split_terminators_in("; ; a"));
    assert!(!has_split_terminators_in("a;;\n;b"));
    assert!(!has_split_terminators_in("a ;b; c"));
    let more = ["a ; ; b", "x {\n \n}", "{ ; ; }", "{a\n \n}", "a\n\n \n\n", "} ; ;", "{{\n }\n \n"];
    for src in SAMPLES.iter().chain(more.iter()) {
        assert_eq!(has_split_terminators_in(src), has_adjacent_semis(&kinds(src)), "{:?}", src);
    }
}

#[test]
fn terminator_runs_are_consumed_whole() {
    assert_eq!(lex("{;\n;\n;a"), vec![
        Token::new(Kind::LeftBrace, 1),
        Token::new(word("a"), 3),
        Token::new(Kind::Semi, 3),
    ]);
    assert_eq!(lex("a;\n\nb"), vec![
        Token::new(word("a"), 1),
        Token::new(Kind::Semi, 1),
        Token::new(word("b"), 3),
        Token::new(Kind::Semi, 3),
    ]);
}

#[test]
fn ascii_whitespace_is_the_space_and_five_controls() {
    for c in ['\t', '\u{b}', '\u{c}', '\r', ' '] {
        let src = format!("a{}b", c);
        assert_eq!(kinds(&src), vec![word("a"), word("b"), Kind::Semi], "{:?}", c);
    }
    for c in ['\u{8}', '\u{e}', '\u{1f}', '!', '~', '\u{7f}', '\0'] {
        let src = format!("a{}b", c);
        assert_eq!(kinds(&src), vec![Kind::Word(src.clone()), Kind::Semi], "{:?}", c);
    }
}
