use ll1_parser::grammar::NodeType;
use ll1_parser::parser::{Parser, AST};
use ll1_parser::tokenizer::{split_keep, Token, Tokenizer};

fn tokenizer(spec: &str) -> Tokenizer {
    Tokenizer::from_text(spec).expect("lexical specification loads")
}

fn pairs(tokens: &[Token]) -> Vec<(String, String)> {
    tokens.iter().map(|t| (t.name.clone(), t.value.clone())).collect()
}

fn leaf(name: &str, value: &str) -> AST {
    AST::Token { name: name.to_string(), value: value.to_string() }
}

fn node(name: &str, children: Vec<AST>) -> AST {
    AST::Grammar { name: name.to_string(), children }
}

fn leaves(ast: &AST, out: &mut Vec<(String, String)>) {
    match ast {
        AST::Token { name, value } => out.push((name.clone(), value.clone())),
        AST::Grammar { children, .. } => {
            for c in children {
                leaves(c, out);
            }
        }
    }
}

const SCIM_LEX: &str = "lparen = \\(\nrparen = \\)\nand = and\nop = eq|sw\nbool = true|false\nstring = \"[^\"]*\"\nattr = [A-Za-z]+\n";
const SCIM_GRAMMAR: &str = "Expr -> Term AndTail\nAndTail -> and Term AndTail | epsilon\nTerm -> lparen attr op value rparen\nvalue -> string | bool\n";

#[test]
fn lex_only() {
    let t = tokenizer("WS = \\s+\nID = [A-Za-z]+\nEQ = =\n");
    let tokens = t.parse("foo = bar").unwrap();
    assert_eq!(
        pairs(&tokens),
        vec![
            ("ID".to_string(), "foo".to_string()),
            ("EQ".to_string(), "=".to_string()),
            ("ID".to_string(), "bar".to_string()),
        ]
    );
    assert_eq!(tokens[2].line, 1);
    assert_eq!(tokens[2].column, 7);
}

#[test]
fn scim_filter() {
    let p = Parser::from_text(SCIM_GRAMMAR, tokenizer(SCIM_LEX));
    let ast = p.parse("(userName sw \"Steven\") and (primary eq true)").unwrap();
    let first = node(
        "Term",
        vec![
            leaf("lparen", "("),
            leaf("attr", "userName"),
            leaf("op", "sw"),
            node("value", vec![leaf("string", "\"Steven\"")]),
            leaf("rparen", ")"),
        ],
    );
    let second = node(
        "Term",
        vec![
            leaf("lparen", "("),
            leaf("attr", "primary"),
            leaf("op", "eq"),
            node("value", vec![leaf("bool", "true")]),
            leaf("rparen", ")"),
        ],
    );
    let expected = node(
        "Expr",
        vec![first, node("AndTail", vec![leaf("and", "and"), second, node("AndTail", vec![])])],
    );
    assert_eq!(ast, expected);
}

#[test]
fn empty_alternative() {
    let p = Parser::from_text("S -> A b\nA -> a | epsilon\n", tokenizer("a = a\nb = b\n"));
    assert_eq!(
        p.parse("a b").unwrap(),
        node("S", vec![node("A", vec![leaf("a", "a")]), leaf("b", "b")])
    );
    assert_eq!(p.parse("a a b").unwrap_err(), "Unexpected token a on line 1, column 3.");
}

#[test]
fn empty_alternative_taken_on_follow() {
    let p = Parser::from_text("S -> x A\nA -> a | epsilon\n", tokenizer("a = a\nx = x\n"));
    assert_eq!(p.parse("x").unwrap(), node("S", vec![leaf("x", "x"), node("A", vec![])]));
    assert_eq!(
        p.parse("x a").unwrap(),
        node("S", vec![leaf("x", "x"), node("A", vec![leaf("a", "a")])])
    );
}

#[test]
fn unknown_token() {
    let t = tokenizer("ID = [a-z]+\n");
    assert_eq!(t.parse("foo @ bar").unwrap_err(), "Unknown token @.");
}

#[test]
fn unexpected_end_of_stream() {
    let p = Parser::from_text("S -> a b\n", tokenizer("a = a\nb = b\n"));
    assert_eq!(p.parse("a").unwrap_err(), "Unexpected end of stream.");
}

#[test]
fn multi_line_tracking() {
    let t = tokenizer("ID = [a-z]+\n");
    let tokens = t.parse("a\nb\n  c").unwrap();
    assert_eq!(tokens.len(), 3);
    assert_eq!((tokens[1].line, tokens[1].column), (2, 1));
    assert_eq!((tokens[2].line, tokens[2].column), (3, 3));
}

#[test]
fn atoms_are_runs_and_single_symbols() {
    let atoms = split_keep("ab12+(x)\r\n  yz");
    let values: Vec<&str> = atoms.iter().map(|b| b.value.as_str()).collect();
    assert_eq!(values, vec!["ab12", "+", "(", "x", ")", "yz"]);
    assert_eq!((atoms[1].line, atoms[1].column, atoms[1].start), (1, 5, 4));
    assert_eq!((atoms[5].line, atoms[5].column, atoms[5].start), (2, 3, 12));
}

#[test]
fn atoms_of_unicode_letters() {
    let atoms = split_keep("été+1");
    let values: Vec<&str> = atoms.iter().map(|b| b.value.as_str()).collect();
    assert_eq!(values, vec!["été", "+", "1"]);
}

#[test]
fn tokens_commit_as_soon_as_a_pattern_matches() {
    let t = tokenizer("string = \"[^\"]*\"\nID = [a-z]+\n");
    let tokens = t.parse("\"ab\" cd").unwrap();
    assert_eq!(
        pairs(&tokens),
        vec![("string".to_string(), "\"ab\"".to_string()), ("ID".to_string(), "cd".to_string())]
    );
    assert_eq!((tokens[0].line, tokens[0].column), (1, 1));
}

#[test]
fn lexemes_give_back_the_input_without_breaks() {
    let t = tokenizer("ID = [a-z]+\nNUM = [0-9]+\nPLUS = \\+\n");
    let input = "ab + 12\n\tcd+3";
    let tokens = t.parse(input).unwrap();
    let joined: String = tokens.iter().map(|t| t.value.as_str()).collect();
    let stripped: String = input.chars().filter(|c| !matches!(c, ' ' | '\t' | '\r' | '\n')).collect();
    assert_eq!(joined, stripped);
}

#[test]
fn leaves_equal_tokens() {
    let lex = tokenizer(SCIM_LEX);
    let input = "(userName sw \"Steven\") and (primary eq true)";
    let tokens = lex.parse(input).unwrap();
    let p = Parser::from_text(SCIM_GRAMMAR, tokenizer(SCIM_LEX));
    let ast = p.parse(input).unwrap();
    let mut found = vec![];
    leaves(&ast, &mut found);
    assert_eq!(found, pairs(&tokens));
}

#[test]
fn bad_declaration_line() {
    let e = Tokenizer::from_text("ID = [a-z]+\n\nNUM = [0-9]+\n").unwrap_err();
    assert_eq!(e, "The file must contain token declarations with NAME = PATTERN format.");
}

#[test]
fn bad_regular_expression() {
    let e = Tokenizer::from_text("ID = [a-z+\n").unwrap_err();
    assert_eq!(e, "Unable to parse ID token - ^[a-z+$ is an incorrect regular expression.");
}

#[test]
fn patterns_are_anchored_and_end_with_epsilon() {
    let t = tokenizer("bool = true | false\n");
    assert_eq!(t.patterns.len(), 2);
    assert_eq!(t.patterns[0].name(), "bool");
    assert_eq!(t.patterns[0].source(), "^true$|^false$");
    assert_eq!(t.patterns[1].name(), "epsilon");
    assert_eq!(t.patterns[1].source(), "");
    assert!(t.parse("untrue").is_err());
    assert_eq!(pairs(&t.parse("false").unwrap()), vec![("bool".to_string(), "false".to_string())]);
}

#[test]
fn empty_grammar() {
    let p = Parser::from_text("# nothing here\n", tokenizer("a = a\n"));
    assert_eq!(p.parse("a").unwrap_err(), "Parser doesn't have any grammars.");
}

#[test]
fn unexpected_token_is_escaped() {
    let p = Parser::from_text("S -> a\n", tokenizer("a = a\nctl = \\x01\n"));
    assert_eq!(p.parse("\u{1}").unwrap_err(), "Unexpected token \\u{1} on line 1, column 1.");
}

#[test]
fn grammar_with_root_and_symbols() {
    let p = Parser::from_text("S -> a B\nB -> b\n", tokenizer("a = a\nb = b\n"));
    let g = p.grammars();
    assert_eq!(g.len(), 3);
    assert_eq!(g.head(0), "__ROOT");
    assert_eq!(g.head(1), "S");
    let root = g.alternatives(0);
    assert!(matches!(&root[0][0], NodeType::Grammar { name } if name == "S"));
    assert!(matches!(&root[0][1], NodeType::Token { name } if name == "$"));
    let s = g.alternatives(1);
    assert!(matches!(&s[0][0], NodeType::Token { name } if name == "a"));
    assert!(matches!(&s[0][1], NodeType::Grammar { name } if name == "B"));
}

#[test]
fn first_and_follow_sets() {
    let p = Parser::from_text(SCIM_GRAMMAR, tokenizer(SCIM_LEX));
    let names: Vec<String> = (0..p.grammars().len()).map(|i| p.grammars().head(i).clone()).collect();
    assert_eq!(names, vec!["__ROOT", "Expr", "AndTail", "Term", "value"]);
    let first: Vec<Vec<String>> = p.first().iter().map(|s| s.iter().cloned().collect()).collect();
    assert_eq!(first[0], vec!["lparen"]);
    assert_eq!(first[2], vec!["and", "epsilon"]);
    assert_eq!(first[4], vec!["string", "bool"]);
    let follow: Vec<Vec<String>> = p.follow().iter().map(|s| s.iter().cloned().collect()).collect();
    assert_eq!(follow[0], vec!["$"]);
    assert_eq!(follow[1], vec!["$"]);
    assert_eq!(follow[2], vec!["$"]);
    for set in &follow {
        assert!(!set.iter().any(|n| n == "epsilon"));
    }
    for set in &first {
        assert!(!set.iter().any(|n| n == "$"));
    }
}

#[test]
fn table_cells() {
    let p = Parser::from_text(SCIM_GRAMMAR, tokenizer(SCIM_LEX));
    let rows = p.table();
    assert_eq!(rows[2].get("and"), Some(0));
    assert_eq!(rows[2].get("$"), Some(1));
    assert_eq!(rows[2].get("epsilon"), None);
    assert_eq!(rows[4].get("string"), Some(0));
    assert_eq!(rows[4].get("bool"), Some(1));
    for row in rows {
        let keys: Vec<&String> = row.terminals().iter().collect();
        let mut unique = keys.clone();
        unique.dedup();
        assert_eq!(keys.len(), unique.len());
        assert_eq!(keys.len(), row.choices().len());
    }
}

#[test]
fn compilation_is_repeatable() {
    let a = Parser::from_text(SCIM_GRAMMAR, tokenizer(SCIM_LEX));
    let b = Parser::from_text(SCIM_GRAMMAR, tokenizer(SCIM_LEX));
    assert_eq!(a.first(), b.first());
    assert_eq!(a.follow(), b.follow());
    assert_eq!(a.table().len(), b.table().len());
    for (x, y) in a.table().iter().zip(b.table().iter()) {
        assert_eq!(x.terminals(), y.terminals());
        assert_eq!(x.choices(), y.choices());
    }
}

#[test]
fn left_recursion_stops() {
    let p = Parser::from_text("A -> a | B\nB -> A\n", tokenizer("a = a\n"));
    assert_eq!(p.parse("a").unwrap_err(), "Unexpected token a on line 1, column 1.");
}

#[test]
fn token_and_symbol_text() {
    let t = tokenizer("ID = [a-z]+\n");
    let tokens = t.parse("abc").unwrap();
    assert_eq!(tokens[0].to_text(), "ID=abc");
    let p = Parser::from_text("S -> ID\n", t);
    assert_eq!(p.grammars().alternatives(1)[0][0].to_text(), "ID");
}

#[test]
fn later_production_replaces_earlier_in_place() {
    let p = Parser::from_text("S -> a\nT -> b\nS -> b T\n", tokenizer("a = a\nb = b\n"));
    let g = p.grammars();
    assert_eq!(g.len(), 3);
    assert_eq!(g.head(1), "S");
    assert_eq!(g.head(2), "T");
    let s = g.alternatives(1);
    assert_eq!(s.len(), 1);
    assert_eq!(s[0].len(), 2);
    assert!(p.parse("a").is_err());
    assert_eq!(
        p.parse("b b").unwrap(),
        node("S", vec![leaf("b", "b"), node("T", vec![leaf("b", "b")])])
    );
}

#[test]
fn crlf_lines_and_skipped_grammar_lines() {
    let t = Tokenizer::from_text("a = a\r\nb = b\r\n").unwrap();
    assert_eq!(t.patterns[0].source(), "^a$");
    assert_eq!(t.patterns[1].name(), "b");
    let p = Parser::from_text("// start\r\nS -> a b\r\n\r\n", t);
    assert_eq!(p.grammars().head(1), "S");
    assert_eq!(p.parse("a\r\nb").unwrap(), node("S", vec![leaf("a", "a"), leaf("b", "b")]));
}

#[test]
fn whitespace_only_line_is_no_declaration() {
    let e = Tokenizer::from_text("a = a\n   \n").unwrap_err();
    assert_eq!(e, "The file must contain token declarations with NAME = PATTERN format.");
}
