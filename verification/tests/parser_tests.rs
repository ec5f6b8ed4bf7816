use raa_tt::lexer::{tokenize, Token};
use raa_tt::proposition::Proposition;
use raa_tt::raa_tt_grammar::{RaaTt, RaaTtGrammar};
use raa_tt::raa_tt_parser::{parse, SyntaxFault};

fn read(text: &str) -> Vec<Proposition> {
    let mut grammar = RaaTtGrammar::new();
    parse(text, "test", &mut grammar).unwrap();
    grammar.raa_tt.unwrap().raa_tt_list
}

fn fault(text: &str) -> SyntaxFault {
    let mut grammar = RaaTtGrammar::new();
    let error = parse(text, "broken", &mut grammar).unwrap_err();
    assert_eq!("broken", error.file_name);
    assert!(grammar.raa_tt.is_none());
    error.fault
}

fn p(name: &str) -> Proposition {
    Proposition::atom(name)
}

#[test]
fn new_grammar_holds_nothing() {
    assert!(RaaTtGrammar::new().raa_tt.is_none());
    assert!(RaaTtGrammar::default().raa_tt.is_none());
}

#[test]
fn grammar_receives_what_was_read() {
    let mut grammar = RaaTtGrammar::new();
    grammar.raa_tt(RaaTt { raa_tt_list: vec![p("a")] });
    assert_eq!(vec![p("a")], grammar.raa_tt.unwrap().raa_tt_list);
}

#[test]
fn tokens_of_every_kind() {
    let tokens = tokenize(b"! & | -> <-> ( ) ab_C9").unwrap();
    assert_eq!(8, tokens.len());
    assert!(matches!(tokens[0], Token::Not));
    assert!(matches!(tokens[1], Token::And));
    assert!(matches!(tokens[2], Token::Or));
    assert!(matches!(tokens[3], Token::Cond));
    assert!(matches!(tokens[4], Token::BiCond));
    assert!(matches!(tokens[5], Token::LPar));
    assert!(matches!(tokens[6], Token::RPar));
    match &tokens[7] {
        Token::Var(name) => assert_eq!("ab_C9", name),
        _ => panic!("a name was expected"),
    }
}

#[test]
fn tokens_need_no_blanks() {
    let tokens = tokenize(b"p<->q->!r").unwrap();
    assert_eq!(6, tokens.len());
    assert!(matches!(tokens[1], Token::BiCond));
    assert!(matches!(tokens[3], Token::Cond));
    assert!(matches!(tokens[4], Token::Not));
}

#[test]
fn lexer_refuses_what_starts_no_token() {
    assert_eq!(Err(2), tokenize(b"p P").map(|t| t.len()));
    assert_eq!(Err(0), tokenize(b"- >").map(|t| t.len()));
    assert_eq!(Err(2), tokenize(b"p <- q").map(|t| t.len()));
    assert_eq!(Err(0), tokenize(b"/ p").map(|t| t.len()));
    assert_eq!(Err(0), tokenize(b"_a").map(|t| t.len()));
    assert_eq!(Err(0), tokenize(b"1a").map(|t| t.len()));
}

#[test]
fn empty_text_holds_no_proposition() {
    assert!(read("").is_empty());
    assert!(read("  \n\t // nothing here").is_empty());
}

#[test]
fn atoms_and_negations() {
    assert_eq!(vec![p("p")], read("p"));
    assert_eq!(
        vec![Proposition::negation(Proposition::negation(p("q1")))],
        read("!!q1")
    );
}

#[test]
fn negation_binds_tighter_than_conjunction() {
    assert_eq!(
        vec![Proposition::conjunction(Proposition::negation(p("a")), p("b"))],
        read("!a & b")
    );
}

#[test]
fn operators_bind_in_their_order() {
    // a <-> ((b -> (c | (d & e))))
    let expected = Proposition::bi_implication(
        p("a"),
        Proposition::implication(
            p("b"),
            Proposition::disjunction(p("c"), Proposition::conjunction(p("d"), p("e"))),
        ),
    );
    assert_eq!(vec![expected], read("a <-> b -> c | d & e"));
    let mirrored = Proposition::bi_implication(
        Proposition::implication(
            Proposition::disjunction(Proposition::conjunction(p("a"), p("b")), p("c")),
            p("d"),
        ),
        p("e"),
    );
    assert_eq!(vec![mirrored], read("a & b | c -> d <-> e"));
}

#[test]
fn operators_associate_to_the_left() {
    let implications = Proposition::implication(
        Proposition::implication(Proposition::implication(p("a"), p("b")), p("c")),
        p("d"),
    );
    assert_eq!(vec![implications], read("a -> b -> c -> d"));
    let conjunctions = Proposition::conjunction(Proposition::conjunction(p("a"), p("b")), p("c"));
    assert_eq!(vec![conjunctions], read("a & b & c"));
    let disjunctions = Proposition::disjunction(Proposition::disjunction(p("a"), p("b")), p("c"));
    assert_eq!(vec![disjunctions], read("a | b | c"));
    let biconditionals =
        Proposition::bi_implication(Proposition::bi_implication(p("a"), p("b")), p("c"));
    assert_eq!(vec![biconditionals], read("a <-> b <-> c"));
}

#[test]
fn parentheses_override_the_order() {
    assert_eq!(
        vec![Proposition::conjunction(
            p("a"),
            Proposition::disjunction(p("b"), p("c"))
        )],
        read("a & (b | c)")
    );
    assert_eq!(
        vec![Proposition::negation(Proposition::implication(p("a"), p("b")))],
        read("!(a -> b)")
    );
}

#[test]
fn a_text_may_hold_several_propositions() {
    assert_eq!(
        vec![
            Proposition::implication(p("p"), p("q")),
            Proposition::negation(p("r")),
            p("s"),
        ],
        read("p -> q // first\n!r // second\r\n(s)")
    );
}

#[test]
fn comments_run_to_the_end_of_the_line() {
    assert_eq!(vec![p("p")], read("// p & \np // | q"));
    assert_eq!(vec![p("p")], read("p //"));
}

#[test]
fn misplaced_tokens_are_reported() {
    assert_eq!(SyntaxFault::UnexpectedToken(0), fault("& p"));
    assert_eq!(SyntaxFault::UnexpectedToken(2), fault("p & | q"));
    assert_eq!(SyntaxFault::UnexpectedToken(1), fault("p )"));
    assert_eq!(SyntaxFault::UnexpectedToken(2), fault("( p q )"));
    assert_eq!(SyntaxFault::UnexpectedToken(1), fault("()"));
}

#[test]
fn early_ends_are_reported() {
    assert_eq!(SyntaxFault::UnexpectedEnd, fault("p &"));
    assert_eq!(SyntaxFault::UnexpectedEnd, fault("!"));
    assert_eq!(SyntaxFault::UnexpectedEnd, fault("(p -> q"));
    assert_eq!(SyntaxFault::UnexpectedEnd, fault("("));
}

#[test]
fn bad_characters_are_reported_by_their_place() {
    assert_eq!(SyntaxFault::UnexpectedCharacter(4), fault("p & Q"));
    assert_eq!(SyntaxFault::UnexpectedCharacter(2), fault("p = q"));
    assert_eq!(SyntaxFault::UnexpectedCharacter(0), fault("\u{e9}"));
}

#[test]
fn a_refused_text_leaves_the_receiver_as_it_was() {
    let mut grammar = RaaTtGrammar::new();
    parse("p", "first", &mut grammar).unwrap();
    assert!(parse("p &", "second", &mut grammar).is_err());
    assert_eq!(vec![p("p")], grammar.raa_tt.unwrap().raa_tt_list);
}

#[test]
fn rendering_is_read_back() {
    for text in ["p -> q & !r", "a <-> b | c", "!(x & y) -> z"] {
        let first = read(text);
        let rendered = first[0].to_text();
        assert_eq!(first, read(&rendered));
    }
}
