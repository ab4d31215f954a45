use set_desugar::lexer::{tokanize, Token};
use set_desugar::parser::{parse, NodeType, Operator, Quantifier, Relation, SyntaxNode};
use set_desugar::Error;
use set_desugar::SetConfig;

#[test]
fn tokens_classify_and_keep_their_text() {
    let ts = tokanize("∀v0 v0 ⊆ Pot(v1)".to_string()).unwrap();
    assert_eq!(ts.len(), 8);
    assert!(matches!(&ts[0], Token::Quan(s) if s == "∀"));
    assert!(matches!(&ts[1], Token::Var(s) if s == "v0"));
    assert!(matches!(&ts[3], Token::Rel(s) if s == "⊆"));
    assert!(matches!(&ts[4], Token::UnOp(s) if s == "Pot"));
    assert!(matches!(&ts[5], Token::Brack(s) if s == "("));
}

#[test]
fn longest_spelling_wins_over_shorter_prefixes() {
    let ts = tokanize("v0 != v1".to_string()).unwrap();
    assert_eq!(ts.len(), 3);
    assert!(matches!(&ts[1], Token::Rel(s) if s == "!="));
}

#[test]
fn lexing_reports_the_character_and_position() {
    let e = tokanize("v0 § v1".to_string()).unwrap_err();
    assert_eq!(e, Error::UnexpectedChar { found: '§', position: 2 });
}

#[test]
fn parse_builds_the_quantified_tree() {
    let ts = tokanize("∀v0 v0 ∈ v1".to_string()).unwrap();
    let t = parse(ts).unwrap();
    assert!(matches!(t.entry, NodeType::Quantifier(Quantifier::Universal)));
    assert_eq!(t.children.len(), 2);
    assert!(matches!(t.children[0].entry, NodeType::Variable(0)));
    assert!(matches!(
        t.children[1].entry,
        NodeType::Relation(Relation::Element)
    ));
}

#[test]
fn parse_is_right_associative_for_binary_operators() {
    let ts = tokanize("v0 ∈ v1 ∪ v2 ∪ v3".to_string()).unwrap();
    let t = parse(ts).unwrap();
    assert!(matches!(t.entry, NodeType::Relation(Relation::Element)));
    let rhs = &t.children[1];
    assert!(matches!(rhs.entry, NodeType::Operator(Operator::Union)));
    assert!(matches!(rhs.children[0].entry, NodeType::Variable(1)));
    assert!(matches!(
        rhs.children[1].entry,
        NodeType::Operator(Operator::Union)
    ));
}

#[test]
fn letters_map_into_the_high_identifier_range() {
    let ts = tokanize("a ∈ Z".to_string()).unwrap();
    let t = parse(ts).unwrap();
    assert!(matches!(t.children[0].entry, NodeType::Variable(v) if v == u32::MAX - 'a' as u32));
    assert!(matches!(t.children[1].entry, NodeType::Variable(v) if v == u32::MAX - 'Z' as u32));
}

#[test]
fn comprehension_requires_an_element_relation() {
    let ts = tokanize("{v0 = v1 | v0 ∈ v2}".to_string()).unwrap();
    match parse(ts) {
        Err(e) => assert_eq!(e, Error::ExpectedElementRelation),
        Ok(_) => panic!("parse accepted a malformed comprehension"),
    }
}

#[test]
fn connective_pairs_need_their_close() {
    let ts = tokanize("(v0 ∈ v1 ∧ v0 ∈ v2".to_string()).unwrap();
    match parse(ts) {
        Err(e) => assert_eq!(e, Error::ExpectedClose),
        Ok(_) => panic!("parse accepted an unclosed pair"),
    }
}

#[test]
fn relations_reject_formula_operands() {
    let ts = tokanize("v0 = ∀v1 v1 ∈ v2".to_string()).unwrap();
    match parse(ts) {
        Err(e) => assert_eq!(e, Error::ExpectedSetOperand),
        Ok(_) => panic!("parse accepted a formula operand"),
    }
}

#[test]
fn transform_and_render_compose_with_parse() {
    let ts = tokanize("v0 ⊆ v1".to_string()).unwrap();
    let t = parse(ts).unwrap();
    let mut c = SetConfig::all_enabled();
    c.variables = false;
    let out = t.transform(c).render();
    assert_eq!(out, "∀v₂ (v₂ ∈ v₀ → v₂ ∈ v₁)");
}

#[test]
fn render_prints_every_notation() {
    let ts = tokanize("{v0 , v9} ∩ Durchschnitt(v2) ≠ {v3 ∈ ω | ¬v3 ∈ ∅}".to_string()).unwrap();
    let t = parse(ts).unwrap();
    assert_eq!(
        t.render(),
        "{v₀ , v₉} ∩ Durchschnitt(v₂) ≠ {v₃ ∈ ω | ¬v₃ ∈ ∅}"
    );
}

#[test]
fn render_prints_singleton_braces() {
    let inner = SyntaxNode { entry: NodeType::Variable(7), children: vec![] };
    let t = SyntaxNode {
        entry: NodeType::Operator(Operator::Singleton),
        children: vec![inner],
    };
    assert_eq!(t.render(), "{v₇}");
}

#[test]
fn subscript_output_relexes_to_the_same_index() {
    let ts = tokanize("v₁₂ ∈ v3".to_string()).unwrap();
    let t = parse(ts).unwrap();
    assert!(matches!(t.children[0].entry, NodeType::Variable(12)));
}

#[test]
fn singleton_membership_fully_unfolds() {
    let out = set_desugar::run("v0 ∈ {v1}", SetConfig::all_enabled());
    assert!(!out.contains('{'), "comprehension or singleton left in {out}");
    assert!(!out.contains("Pot"), "power set left in {out}");
}

#[test]
fn error_messages_render_their_variant() {
    assert_eq!(Error::UnexpectedEnd.message(), "Unexpected end of input.");
    assert_eq!(
        Error::UnexpectedChar { found: '#', position: 17 }.message(),
        "Unexpected character '#' at position 17."
    );
}
