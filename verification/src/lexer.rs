//! The lexer: classifies raw text into a flat sequence of tokens.
//!
//! Whitespace is stripped first; at each position the fixed symbol table is
//! tried in precedence order (relations, connectives, quantifiers, brackets,
//! constants, unary operators, binary operators) with the first matching
//! literal winning; the letter `v` followed by digits forms an indexed
//! variable, any other ASCII letter a named variable; anything else is a
//! lexical error naming the character and its position.

use vstd::prelude::*;

use crate::Error;

verus! {

/// A classified lexical unit carrying its matched literal text.
#[derive(Debug, Clone)]
pub enum Token {
    Brack(String),
    Rel(String),
    Conn(String),
    Quan(String),
    UnOp(String),
    BinOp(String),
    Var(String),
    Const(String),
}

/// The model of a token: the same classification over character sequences.
pub enum TokenModel {
    Brack(Seq<char>),
    Rel(Seq<char>),
    Conn(Seq<char>),
    Quan(Seq<char>),
    UnOp(Seq<char>),
    BinOp(Seq<char>),
    Var(Seq<char>),
    Const(Seq<char>),
}

impl View for Token {
    type V = TokenModel;

    open spec fn view(&self) -> TokenModel {
        match self {
            Token::Brack(s) => TokenModel::Brack(s@),
            Token::Rel(s) => TokenModel::Rel(s@),
            Token::Conn(s) => TokenModel::Conn(s@),
            Token::Quan(s) => TokenModel::Quan(s@),
            Token::UnOp(s) => TokenModel::UnOp(s@),
            Token::BinOp(s) => TokenModel::BinOp(s@),
            Token::Var(s) => TokenModel::Var(s@),
            Token::Const(s) => TokenModel::Const(s@),
        }
    }
}

/// The models of a token vector, elementwise.
pub open spec fn tok_views(s: Seq<Token>) -> Seq<TokenModel>
    decreases s,
{
    if s.len() == 0 {
        Seq::empty()
    } else {
        seq![s[0]@] + tok_views(s.drop_first())
    }
}

/// `tok_views` maps the view over the sequence elementwise.
pub broadcast proof fn lemma_tok_views(s: Seq<Token>)
    ensures
        (#[trigger] tok_views(s)).len() == s.len(),
        forall|i: int| 0 <= i < s.len() ==> tok_views(s)[i] == s[i]@,
    decreases s,
{
    if s.len() > 0 {
        lemma_tok_views(s.drop_first());
    }
}

/// A whitespace character, as the whitespace property defines them.
pub open spec fn is_ws_char(c: char) -> bool {
    c == ' ' || c == '\u{9}' || c == '\u{a}' || c == '\u{b}' || c == '\u{c}' || c == '\u{d}'
        || c == '\u{85}' || c == '\u{a0}' || c == '\u{1680}' || ('\u{2000}' <= c
        && c <= '\u{200a}') || c == '\u{2028}' || c == '\u{2029}' || c == '\u{202f}'
        || c == '\u{205f}' || c == '\u{3000}'
}

/// A character that may continue the digit run of an indexed variable:
/// a decimal digit or a subscript digit.
pub open spec fn is_digit_mark(c: char) -> bool {
    ('0' <= c && c <= '9') || ('\u{2080}' <= c && c <= '\u{2089}')
}

/// An ASCII letter, introducing a named variable.
pub open spec fn is_ascii_letter(c: char) -> bool {
    ('a' <= c && c <= 'z') || ('A' <= c && c <= 'Z')
}

/// `p` is a prefix of `s`.
pub open spec fn is_prefix(p: Seq<char>, s: Seq<char>) -> bool {
    p.len() <= s.len() && forall|k: int| 0 <= k < p.len() ==> p[k] == s[k]
}

/// The length of the maximal digit run starting the sequence.
pub open spec fn digit_run(s: Seq<char>) -> int
    decreases s.len(),
{
    if s.len() > 0 && is_digit_mark(s[0]) {
        1 + digit_run(s.drop_first())
    } else {
        0
    }
}

/// A digit run fits in its sequence.
pub broadcast proof fn lemma_digit_run(s: Seq<char>)
    ensures
        0 <= #[trigger] digit_run(s) <= s.len(),
    decreases s.len(),
{
    if s.len() > 0 && is_digit_mark(s[0]) {
        lemma_digit_run(s.drop_first());
    }
}

/// Prepends a token to a lexing result, keeping errors.
pub open spec fn cons_tok(t: TokenModel, r: Result<Seq<TokenModel>, Error>) -> Result<
    Seq<TokenModel>,
    Error,
> {
    match r {
        Ok(ts) => Ok(seq![t] + ts),
        Err(e) => Err(e),
    }
}

/// Every literal of the symbol table is nonempty; its lengths in characters.
pub proof fn lemma_lit_lens()
    ensures
        "="@.len() == 1,
        "∈"@.len() == 1,
        "\\in"@.len() == 3,
        "⊆"@.len() == 1,
        "\\subseteq"@.len() == 9,
        "≠"@.len() == 1,
        "!="@.len() == 2,
        "\\neq"@.len() == 4,
        "∉"@.len() == 1,
        "\\notin"@.len() == 6,
        "⊈"@.len() == 1,
        "\\nsubseteq"@.len() == 10,
        "¬"@.len() == 1,
        "∧"@.len() == 1,
        "∨"@.len() == 1,
        "→"@.len() == 1,
        "↔"@.len() == 1,
        "!"@.len() == 1,
        "&&"@.len() == 2,
        "||"@.len() == 2,
        "->"@.len() == 2,
        "<->"@.len() == 3,
        "\\lnot"@.len() == 5,
        "\\land"@.len() == 5,
        "\\lor"@.len() == 4,
        "\\rightarrow"@.len() == 11,
        "\\leftrightarrow"@.len() == 15,
        "∀"@.len() == 1,
        "∃"@.len() == 1,
        "\\forall"@.len() == 7,
        "\\exists"@.len() == 7,
        "("@.len() == 1,
        ")"@.len() == 1,
        "{"@.len() == 1,
        "}"@.len() == 1,
        "|"@.len() == 1,
        ","@.len() == 1,
        "0"@.len() == 1,
        "∅"@.len() == 1,
        "\\emptyset"@.len() == 9,
        "ω"@.len() == 1,
        "\\omega"@.len() == 6,
        "Pot"@.len() == 3,
        "Vereinigung"@.len() == 11,
        "\\bigcup"@.len() == 7,
        "Durchschnitt"@.len() == 12,
        "\\bigcap"@.len() == 7,
        "∪"@.len() == 1,
        "\\cup"@.len() == 4,
        "∩"@.len() == 1,
        "\\cap"@.len() == 4,
        "\\"@.len() == 1,
{
    reveal_strlit("=");
    reveal_strlit("∈");
    reveal_strlit("\\in");
    reveal_strlit("⊆");
    reveal_strlit("\\subseteq");
    reveal_strlit("≠");
    reveal_strlit("!=");
    reveal_strlit("\\neq");
    reveal_strlit("∉");
    reveal_strlit("\\notin");
    reveal_strlit("⊈");
    reveal_strlit("\\nsubseteq");
    reveal_strlit("¬");
    reveal_strlit("∧");
    reveal_strlit("∨");
    reveal_strlit("→");
    reveal_strlit("↔");
    reveal_strlit("!");
    reveal_strlit("&&");
    reveal_strlit("||");
    reveal_strlit("->");
    reveal_strlit("<->");
    reveal_strlit("\\lnot");
    reveal_strlit("\\land");
    reveal_strlit("\\lor");
    reveal_strlit("\\rightarrow");
    reveal_strlit("\\leftrightarrow");
    reveal_strlit("∀");
    reveal_strlit("∃");
    reveal_strlit("\\forall");
    reveal_strlit("\\exists");
    reveal_strlit("(");
    reveal_strlit(")");
    reveal_strlit("{");
    reveal_strlit("}");
    reveal_strlit("|");
    reveal_strlit(",");
    reveal_strlit("0");
    reveal_strlit("∅");
    reveal_strlit("\\emptyset");
    reveal_strlit("ω");
    reveal_strlit("\\omega");
    reveal_strlit("Pot");
    reveal_strlit("Vereinigung");
    reveal_strlit("\\bigcup");
    reveal_strlit("Durchschnitt");
    reveal_strlit("\\bigcap");
    reveal_strlit("∪");
    reveal_strlit("\\cup");
    reveal_strlit("∩");
    reveal_strlit("\\cap");
    reveal_strlit("\\");
}

/// The first literal of the rel table that starts the sequence.
pub open spec fn rel_match(cs: Seq<char>) -> Option<Seq<char>> {
    if is_prefix("="@, cs) {
        Some("="@)
    } else if is_prefix("∈"@, cs) {
        Some("∈"@)
    } else if is_prefix("\\in"@, cs) {
        Some("\\in"@)
    } else if is_prefix("⊆"@, cs) {
        Some("⊆"@)
    } else if is_prefix("\\subseteq"@, cs) {
        Some("\\subseteq"@)
    } else if is_prefix("≠"@, cs) {
        Some("≠"@)
    } else if is_prefix("!="@, cs) {
        Some("!="@)
    } else if is_prefix("\\neq"@, cs) {
        Some("\\neq"@)
    } else if is_prefix("∉"@, cs) {
        Some("∉"@)
    } else if is_prefix("\\notin"@, cs) {
        Some("\\notin"@)
    } else if is_prefix("⊈"@, cs) {
        Some("⊈"@)
    } else if is_prefix("\\nsubseteq"@, cs) {
        Some("\\nsubseteq"@)
    } else {
        None
    }
}

/// The first literal of the conn table that starts the sequence.
pub open spec fn conn_match(cs: Seq<char>) -> Option<Seq<char>> {
    if is_prefix("¬"@, cs) {
        Some("¬"@)
    } else if is_prefix("∧"@, cs) {
        Some("∧"@)
    } else if is_prefix("∨"@, cs) {
        Some("∨"@)
    } else if is_prefix("→"@, cs) {
        Some("→"@)
    } else if is_prefix("↔"@, cs) {
        Some("↔"@)
    } else if is_prefix("!"@, cs) {
        Some("!"@)
    } else if is_prefix("&&"@, cs) {
        Some("&&"@)
    } else if is_prefix("||"@, cs) {
        Some("||"@)
    } else if is_prefix("->"@, cs) {
        Some("->"@)
    } else if is_prefix("<->"@, cs) {
        Some("<->"@)
    } else if is_prefix("\\lnot"@, cs) {
        Some("\\lnot"@)
    } else if is_prefix("\\land"@, cs) {
        Some("\\land"@)
    } else if is_prefix("\\lor"@, cs) {
        Some("\\lor"@)
    } else if is_prefix("\\rightarrow"@, cs) {
        Some("\\rightarrow"@)
    } else if is_prefix("\\leftrightarrow"@, cs) {
        Some("\\leftrightarrow"@)
    } else {
        None
    }
}

/// The first literal of the quan table that starts the sequence.
pub open spec fn quan_match(cs: Seq<char>) -> Option<Seq<char>> {
    if is_prefix("∀"@, cs) {
        Some("∀"@)
    } else if is_prefix("∃"@, cs) {
        Some("∃"@)
    } else if is_prefix("\\forall"@, cs) {
        Some("\\forall"@)
    } else if is_prefix("\\exists"@, cs) {
        Some("\\exists"@)
    } else {
        None
    }
}

/// The first literal of the brack table that starts the sequence.
pub open spec fn brack_match(cs: Seq<char>) -> Option<Seq<char>> {
    if is_prefix("("@, cs) {
        Some("("@)
    } else if is_prefix(")"@, cs) {
        Some(")"@)
    } else if is_prefix("{"@, cs) {
        Some("{"@)
    } else if is_prefix("}"@, cs) {
        Some("}"@)
    } else if is_prefix("|"@, cs) {
        Some("|"@)
    } else if is_prefix(","@, cs) {
        Some(","@)
    } else {
        None
    }
}

/// The first literal of the konst table that starts the sequence.
pub open spec fn konst_match(cs: Seq<char>) -> Option<Seq<char>> {
    if is_prefix("0"@, cs) {
        Some("0"@)
    } else if is_prefix("∅"@, cs) {
        Some("∅"@)
    } else if is_prefix("\\emptyset"@, cs) {
        Some("\\emptyset"@)
    } else if is_prefix("ω"@, cs) {
        Some("ω"@)
    } else if is_prefix("\\omega"@, cs) {
        Some("\\omega"@)
    } else {
        None
    }
}

/// The first literal of the unop table that starts the sequence.
pub open spec fn unop_match(cs: Seq<char>) -> Option<Seq<char>> {
    if is_prefix("Pot"@, cs) {
        Some("Pot"@)
    } else if is_prefix("Vereinigung"@, cs) {
        Some("Vereinigung"@)
    } else if is_prefix("\\bigcup"@, cs) {
        Some("\\bigcup"@)
    } else if is_prefix("Durchschnitt"@, cs) {
        Some("Durchschnitt"@)
    } else if is_prefix("\\bigcap"@, cs) {
        Some("\\bigcap"@)
    } else {
        None
    }
}

/// The first literal of the binop table that starts the sequence.
pub open spec fn binop_match(cs: Seq<char>) -> Option<Seq<char>> {
    if is_prefix("∪"@, cs) {
        Some("∪"@)
    } else if is_prefix("\\cup"@, cs) {
        Some("\\cup"@)
    } else if is_prefix("∩"@, cs) {
        Some("∩"@)
    } else if is_prefix("\\cap"@, cs) {
        Some("\\cap"@)
    } else if is_prefix("\\"@, cs) {
        Some("\\"@)
    } else {
        None
    }
}

/// A rel match is a nonempty prefix.
pub proof fn lemma_rel_match(cs: Seq<char>)
    ensures
        match rel_match(cs) {
            Some(m) => 1 <= m.len() && is_prefix(m, cs),
            None => true,
        },
{
    lemma_lit_lens();
}

/// A conn match is a nonempty prefix.
pub proof fn lemma_conn_match(cs: Seq<char>)
    ensures
        match conn_match(cs) {
            Some(m) => 1 <= m.len() && is_prefix(m, cs),
            None => true,
        },
{
    lemma_lit_lens();
}

/// A quan match is a nonempty prefix.
pub proof fn lemma_quan_match(cs: Seq<char>)
    ensures
        match quan_match(cs) {
            Some(m) => 1 <= m.len() && is_prefix(m, cs),
            None => true,
        },
{
    lemma_lit_lens();
}

/// A brack match is a nonempty prefix.
pub proof fn lemma_brack_match(cs: Seq<char>)
    ensures
        match brack_match(cs) {
            Some(m) => 1 <= m.len() && is_prefix(m, cs),
            None => true,
        },
{
    lemma_lit_lens();
}

/// A konst match is a nonempty prefix.
pub proof fn lemma_konst_match(cs: Seq<char>)
    ensures
        match konst_match(cs) {
            Some(m) => 1 <= m.len() && is_prefix(m, cs),
            None => true,
        },
{
    lemma_lit_lens();
}

/// A unop match is a nonempty prefix.
pub proof fn lemma_unop_match(cs: Seq<char>)
    ensures
        match unop_match(cs) {
            Some(m) => 1 <= m.len() && is_prefix(m, cs),
            None => true,
        },
{
    lemma_lit_lens();
}

/// A binop match is a nonempty prefix.
pub proof fn lemma_binop_match(cs: Seq<char>)
    ensures
        match binop_match(cs) {
            Some(m) => 1 <= m.len() && is_prefix(m, cs),
            None => true,
        },
{
    lemma_lit_lens();
}

/// Tries the rel table at position `i`.
fn try_rel(cs: &Vec<char>, i: usize) -> (r: Option<(Token, usize)>)
    requires
        i <= cs@.len(),
    ensures
        match rel_match(cs@.skip(i as int)) {
            Some(m) => r matches Some(p) && p.0@ == TokenModel::Rel(m) && p.1 == m.len(),
            None => r matches None,
        },
{
    lemma_lit_lens_ex();
    if at_prefix(cs, i, "=") {
        return Some((Token::Rel(String::from_str("=")), "=".unicode_len()));
    }
    if at_prefix(cs, i, "∈") {
        return Some((Token::Rel(String::from_str("∈")), "∈".unicode_len()));
    }
    if at_prefix(cs, i, "\\in") {
        return Some((Token::Rel(String::from_str("\\in")), "\\in".unicode_len()));
    }
    if at_prefix(cs, i, "⊆") {
        return Some((Token::Rel(String::from_str("⊆")), "⊆".unicode_len()));
    }
    if at_prefix(cs, i, "\\subseteq") {
        return Some((Token::Rel(String::from_str("\\subseteq")), "\\subseteq".unicode_len()));
    }
    if at_prefix(cs, i, "≠") {
        return Some((Token::Rel(String::from_str("≠")), "≠".unicode_len()));
    }
    if at_prefix(cs, i, "!=") {
        return Some((Token::Rel(String::from_str("!=")), "!=".unicode_len()));
    }
    if at_prefix(cs, i, "\\neq") {
        return Some((Token::Rel(String::from_str("\\neq")), "\\neq".unicode_len()));
    }
    if at_prefix(cs, i, "∉") {
        return Some((Token::Rel(String::from_str("∉")), "∉".unicode_len()));
    }
    if at_prefix(cs, i, "\\notin") {
        return Some((Token::Rel(String::from_str("\\notin")), "\\notin".unicode_len()));
    }
    if at_prefix(cs, i, "⊈") {
        return Some((Token::Rel(String::from_str("⊈")), "⊈".unicode_len()));
    }
    if at_prefix(cs, i, "\\nsubseteq") {
        return Some((Token::Rel(String::from_str("\\nsubseteq")), "\\nsubseteq".unicode_len()));
    }
    None
}

/// Tries the conn table at position `i`.
fn try_conn(cs: &Vec<char>, i: usize) -> (r: Option<(Token, usize)>)
    requires
        i <= cs@.len(),
    ensures
        match conn_match(cs@.skip(i as int)) {
            Some(m) => r matches Some(p) && p.0@ == TokenModel::Conn(m) && p.1 == m.len(),
            None => r matches None,
        },
{
    lemma_lit_lens_ex();
    if at_prefix(cs, i, "¬") {
        return Some((Token::Conn(String::from_str("¬")), "¬".unicode_len()));
    }
    if at_prefix(cs, i, "∧") {
        return Some((Token::Conn(String::from_str("∧")), "∧".unicode_len()));
    }
    if at_prefix(cs, i, "∨") {
        return Some((Token::Conn(String::from_str("∨")), "∨".unicode_len()));
    }
    if at_prefix(cs, i, "→") {
        return Some((Token::Conn(String::from_str("→")), "→".unicode_len()));
    }
    if at_prefix(cs, i, "↔") {
        return Some((Token::Conn(String::from_str("↔")), "↔".unicode_len()));
    }
    if at_prefix(cs, i, "!") {
        return Some((Token::Conn(String::from_str("!")), "!".unicode_len()));
    }
    if at_prefix(cs, i, "&&") {
        return Some((Token::Conn(String::from_str("&&")), "&&".unicode_len()));
    }
    if at_prefix(cs, i, "||") {
        return Some((Token::Conn(String::from_str("||")), "||".unicode_len()));
    }
    if at_prefix(cs, i, "->") {
        return Some((Token::Conn(String::from_str("->")), "->".unicode_len()));
    }
    if at_prefix(cs, i, "<->") {
        return Some((Token::Conn(String::from_str("<->")), "<->".unicode_len()));
    }
    if at_prefix(cs, i, "\\lnot") {
        return Some((Token::Conn(String::from_str("\\lnot")), "\\lnot".unicode_len()));
    }
    if at_prefix(cs, i, "\\land") {
        return Some((Token::Conn(String::from_str("\\land")), "\\land".unicode_len()));
    }
    if at_prefix(cs, i, "\\lor") {
        return Some((Token::Conn(String::from_str("\\lor")), "\\lor".unicode_len()));
    }
    if at_prefix(cs, i, "\\rightarrow") {
        return Some((Token::Conn(String::from_str("\\rightarrow")), "\\rightarrow".unicode_len()));
    }
    if at_prefix(cs, i, "\\leftrightarrow") {
        return Some((Token::Conn(String::from_str("\\leftrightarrow")), "\\leftrightarrow".unicode_len()));
    }
    None
}

/// Tries the quan table at position `i`.
fn try_quan(cs: &Vec<char>, i: usize) -> (r: Option<(Token, usize)>)
    requires
        i <= cs@.len(),
    ensures
        match quan_match(cs@.skip(i as int)) {
            Some(m) => r matches Some(p) && p.0@ == TokenModel::Quan(m) && p.1 == m.len(),
            None => r matches None,
        },
{
    lemma_lit_lens_ex();
    if at_prefix(cs, i, "∀") {
        return Some((Token::Quan(String::from_str("∀")), "∀".unicode_len()));
    }
    if at_prefix(cs, i, "∃") {
        return Some((Token::Quan(String::from_str("∃")), "∃".unicode_len()));
    }
    if at_prefix(cs, i, "\\forall") {
        return Some((Token::Quan(String::from_str("\\forall")), "\\forall".unicode_len()));
    }
    if at_prefix(cs, i, "\\exists") {
        return Some((Token::Quan(String::from_str("\\exists")), "\\exists".unicode_len()));
    }
    None
}

/// Tries the brack table at position `i`.
fn try_brack(cs: &Vec<char>, i: usize) -> (r: Option<(Token, usize)>)
    requires
        i <= cs@.len(),
    ensures
        match brack_match(cs@.skip(i as int)) {
            Some(m) => r matches Some(p) && p.0@ == TokenModel::Brack(m) && p.1 == m.len(),
            None => r matches None,
        },
{
    lemma_lit_lens_ex();
    if at_prefix(cs, i, "(") {
        return Some((Token::Brack(String::from_str("(")), "(".unicode_len()));
    }
    if at_prefix(cs, i, ")") {
        return Some((Token::Brack(String::from_str(")")), ")".unicode_len()));
    }
    if at_prefix(cs, i, "{") {
        return Some((Token::Brack(String::from_str("{")), "{".unicode_len()));
    }
    if at_prefix(cs, i, "}") {
        return Some((Token::Brack(String::from_str("}")), "}".unicode_len()));
    }
    if at_prefix(cs, i, "|") {
        return Some((Token::Brack(String::from_str("|")), "|".unicode_len()));
    }
    if at_prefix(cs, i, ",") {
        return Some((Token::Brack(String::from_str(",")), ",".unicode_len()));
    }
    None
}

/// Tries the konst table at position `i`.
fn try_konst(cs: &Vec<char>, i: usize) -> (r: Option<(Token, usize)>)
    requires
        i <= cs@.len(),
    ensures
        match konst_match(cs@.skip(i as int)) {
            Some(m) => r matches Some(p) && p.0@ == TokenModel::Const(m) && p.1 == m.len(),
            None => r matches None,
        },
{
    lemma_lit_lens_ex();
    if at_prefix(cs, i, "0") {
        return Some((Token::Const(String::from_str("0")), "0".unicode_len()));
    }
    if at_prefix(cs, i, "∅") {
        return Some((Token::Const(String::from_str("∅")), "∅".unicode_len()));
    }
    if at_prefix(cs, i, "\\emptyset") {
        return Some((Token::Const(String::from_str("\\emptyset")), "\\emptyset".unicode_len()));
    }
    if at_prefix(cs, i, "ω") {
        return Some((Token::Const(String::from_str("ω")), "ω".unicode_len()));
    }
    if at_prefix(cs, i, "\\omega") {
        return Some((Token::Const(String::from_str("\\omega")), "\\omega".unicode_len()));
    }
    None
}

/// Tries the unop table at position `i`.
fn try_unop(cs: &Vec<char>, i: usize) -> (r: Option<(Token, usize)>)
    requires
        i <= cs@.len(),
    ensures
        match unop_match(cs@.skip(i as int)) {
            Some(m) => r matches Some(p) && p.0@ == TokenModel::UnOp(m) && p.1 == m.len(),
            None => r matches None,
        },
{
    lemma_lit_lens_ex();
    if at_prefix(cs, i, "Pot") {
        return Some((Token::UnOp(String::from_str("Pot")), "Pot".unicode_len()));
    }
    if at_prefix(cs, i, "Vereinigung") {
        return Some((Token::UnOp(String::from_str("Vereinigung")), "Vereinigung".unicode_len()));
    }
    if at_prefix(cs, i, "\\bigcup") {
        return Some((Token::UnOp(String::from_str("\\bigcup")), "\\bigcup".unicode_len()));
    }
    if at_prefix(cs, i, "Durchschnitt") {
        return Some((Token::UnOp(String::from_str("Durchschnitt")), "Durchschnitt".unicode_len()));
    }
    if at_prefix(cs, i, "\\bigcap") {
        return Some((Token::UnOp(String::from_str("\\bigcap")), "\\bigcap".unicode_len()));
    }
    None
}

/// Tries the binop table at position `i`.
fn try_binop(cs: &Vec<char>, i: usize) -> (r: Option<(Token, usize)>)
    requires
        i <= cs@.len(),
    ensures
        match binop_match(cs@.skip(i as int)) {
            Some(m) => r matches Some(p) && p.0@ == TokenModel::BinOp(m) && p.1 == m.len(),
            None => r matches None,
        },
{
    lemma_lit_lens_ex();
    if at_prefix(cs, i, "∪") {
        return Some((Token::BinOp(String::from_str("∪")), "∪".unicode_len()));
    }
    if at_prefix(cs, i, "\\cup") {
        return Some((Token::BinOp(String::from_str("\\cup")), "\\cup".unicode_len()));
    }
    if at_prefix(cs, i, "∩") {
        return Some((Token::BinOp(String::from_str("∩")), "∩".unicode_len()));
    }
    if at_prefix(cs, i, "\\cap") {
        return Some((Token::BinOp(String::from_str("\\cap")), "\\cap".unicode_len()));
    }
    if at_prefix(cs, i, "\\") {
        return Some((Token::BinOp(String::from_str("\\")), "\\".unicode_len()));
    }
    None
}

/// Establishes the literal lengths for executable callers.
fn lemma_lit_lens_ex()
    ensures
        "="@.len() == 1,
        "∈"@.len() == 1,
        "\\in"@.len() == 3,
        "⊆"@.len() == 1,
        "\\subseteq"@.len() == 9,
        "≠"@.len() == 1,
        "!="@.len() == 2,
        "\\neq"@.len() == 4,
        "∉"@.len() == 1,
        "\\notin"@.len() == 6,
        "⊈"@.len() == 1,
        "\\nsubseteq"@.len() == 10,
        "¬"@.len() == 1,
        "∧"@.len() == 1,
        "∨"@.len() == 1,
        "→"@.len() == 1,
        "↔"@.len() == 1,
        "!"@.len() == 1,
        "&&"@.len() == 2,
        "||"@.len() == 2,
        "->"@.len() == 2,
        "<->"@.len() == 3,
        "\\lnot"@.len() == 5,
        "\\land"@.len() == 5,
        "\\lor"@.len() == 4,
        "\\rightarrow"@.len() == 11,
        "\\leftrightarrow"@.len() == 15,
        "∀"@.len() == 1,
        "∃"@.len() == 1,
        "\\forall"@.len() == 7,
        "\\exists"@.len() == 7,
        "("@.len() == 1,
        ")"@.len() == 1,
        "{"@.len() == 1,
        "}"@.len() == 1,
        "|"@.len() == 1,
        ","@.len() == 1,
        "0"@.len() == 1,
        "∅"@.len() == 1,
        "\\emptyset"@.len() == 9,
        "ω"@.len() == 1,
        "\\omega"@.len() == 6,
        "Pot"@.len() == 3,
        "Vereinigung"@.len() == 11,
        "\\bigcup"@.len() == 7,
        "Durchschnitt"@.len() == 12,
        "\\bigcap"@.len() == 7,
        "∪"@.len() == 1,
        "\\cup"@.len() == 4,
        "∩"@.len() == 1,
        "\\cap"@.len() == 4,
        "\\"@.len() == 1,
{
    proof {
        lemma_lit_lens();
    }
}


/// The token sequence of the whitespace-stripped text, or the lexical
/// error: the symbol tables in precedence order, then indexed variables,
/// then named variables.
pub open spec fn lex_spec(cs: Seq<char>, pos: int) -> Result<Seq<TokenModel>, Error>
    decreases cs.len(),
    via lex_spec_decreases
{
    if cs.len() == 0 {
        Ok(Seq::empty())
    } else {
        match rel_match(cs) {
        Some(m) => cons_tok(
            TokenModel::Rel(m),
            lex_spec(cs.skip(m.len() as int), pos + m.len()),
        ),
        None => match conn_match(cs) {
        Some(m) => cons_tok(
            TokenModel::Conn(m),
            lex_spec(cs.skip(m.len() as int), pos + m.len()),
        ),
        None => match quan_match(cs) {
        Some(m) => cons_tok(
            TokenModel::Quan(m),
            lex_spec(cs.skip(m.len() as int), pos + m.len()),
        ),
        None => match brack_match(cs) {
        Some(m) => cons_tok(
            TokenModel::Brack(m),
            lex_spec(cs.skip(m.len() as int), pos + m.len()),
        ),
        None => match konst_match(cs) {
        Some(m) => cons_tok(
            TokenModel::Const(m),
            lex_spec(cs.skip(m.len() as int), pos + m.len()),
        ),
        None => match unop_match(cs) {
        Some(m) => cons_tok(
            TokenModel::UnOp(m),
            lex_spec(cs.skip(m.len() as int), pos + m.len()),
        ),
        None => match binop_match(cs) {
        Some(m) => cons_tok(
            TokenModel::BinOp(m),
            lex_spec(cs.skip(m.len() as int), pos + m.len()),
        ),
        None => if cs[0] == 'v' {
        let d = digit_run(cs.drop_first());
        cons_tok(
            TokenModel::Var(cs.take(1 + d)),
            lex_spec(cs.skip(1 + d), pos + 1 + d),
        )
    } else if is_ascii_letter(cs[0]) {
        cons_tok(TokenModel::Var(cs.take(1)), lex_spec(cs.skip(1), pos + 1))
    } else {
        Err(Error::UnexpectedChar { found: cs[0], position: pos as usize })
    },
    },
    },
    },
    },
    },
    },
    }
    }
}

#[via_fn]
proof fn lex_spec_decreases(cs: Seq<char>, pos: int) {
    if cs.len() > 0 {
        lemma_rel_match(cs);
        lemma_conn_match(cs);
        lemma_quan_match(cs);
        lemma_brack_match(cs);
        lemma_konst_match(cs);
        lemma_unop_match(cs);
        lemma_binop_match(cs);
        lemma_digit_run(cs.drop_first());
    }
}


/// Tests whether the literal matches the characters at position `i`.
fn at_prefix(cs: &Vec<char>, i: usize, lit: &str) -> (r: bool)
    requires
        i <= cs@.len(),
    ensures
        r == is_prefix(lit@, cs@.skip(i as int)),
{
    let n = lit.unicode_len();
    if n > cs.len() - i {
        proof {
            assert(!is_prefix(lit@, cs@.skip(i as int)));
        }
        return false;
    }
    let m = cs.len();
    let mut j: usize = 0;
    while j < n
        invariant
            i + n <= m,
            m == cs@.len(),
            n == lit@.len(),
            j <= n,
            forall|k: int| 0 <= k < j ==> lit@[k] == cs@[i + k],
        decreases n - j,
    {
        if lit.get_char(j) != cs[i + j] {
            proof {
                assert(cs@.skip(i as int)[j as int] == cs@[i + j]);
                assert(!is_prefix(lit@, cs@.skip(i as int)));
            }
            return false;
        }
        j = j + 1;
    }
    proof {
        assert forall|k: int| 0 <= k < lit@.len() implies lit@[k] == cs@.skip(i as int)[k] by {
            assert(cs@.skip(i as int)[k] == cs@[i + k]);
        }
    }
    true
}

/// Whitespace test, executable.
fn is_ws(c: char) -> (r: bool)
    ensures
        r == is_ws_char(c),
{
    c == ' ' || c == '\u{9}' || c == '\u{a}' || c == '\u{b}' || c == '\u{c}' || c == '\u{d}'
        || c == '\u{85}' || c == '\u{a0}' || c == '\u{1680}' || ('\u{2000}' <= c
        && c <= '\u{200a}') || c == '\u{2028}' || c == '\u{2029}' || c == '\u{202f}'
        || c == '\u{205f}' || c == '\u{3000}'
}

/// Digit-mark test, executable.
fn is_digit_m(c: char) -> (r: bool)
    ensures
        r == is_digit_mark(c),
{
    ('0' <= c && c <= '9') || ('\u{2080}' <= c && c <= '\u{2089}')
}

/// ASCII-letter test, executable.
fn is_letter_ch(c: char) -> (r: bool)
    ensures
        r == is_ascii_letter(c),
{
    ('a' <= c && c <= 'z') || ('A' <= c && c <= 'Z')
}

/// The text with every whitespace character removed.
pub open spec fn stripped(s: Seq<char>) -> Seq<char> {
    s.filter(|c: char| !is_ws_char(c))
}

/// The whitespace-stripped character sequence of the text.
fn strip_ws(s: &str) -> (r: Vec<char>)
    ensures
        r@ == stripped(s@),
{
    let n = s.unicode_len();
    let mut r: Vec<char> = Vec::new();
    let mut i: usize = 0;
    proof {
        assert(s@.take(0) =~= Seq::<char>::empty());
        reveal_with_fuel(Seq::filter, 1);
        assert(r@ =~= stripped(s@.take(0)));
    }
    while i < n
        invariant
            n == s@.len(),
            i <= n,
            r@ == stripped(s@.take(i as int)),
        decreases n - i,
    {
        let c = s.get_char(i);
        let ghost pre = r@;
        if !is_ws(c) {
            r.push(c);
        }
        proof {
            assert(s@.take(i + 1) =~= s@.take(i as int).push(c));
            seq_filter_push(s@.take(i as int), c);
        }
        i = i + 1;
    }
    proof {
        assert(s@.take(n as int) =~= s@);
    }
    r
}

/// Stripping after a push keeps or drops just the pushed character.
pub proof fn seq_filter_push(s: Seq<char>, c: char)
    ensures
        stripped(s.push(c)) == if !is_ws_char(c) {
            stripped(s).push(c)
        } else {
            stripped(s)
        },
{
    reveal_with_fuel(Seq::filter, 2);
    assert(s.push(c).drop_last() =~= s);
    assert(s.push(c).last() == c);
    if !is_ws_char(c) {
        assert(stripped(s.push(c)) =~= stripped(s).push(c));
    }
}

/// Copies the characters in `[a, b)` out of the buffer.
fn seg(cs: &Vec<char>, a: usize, b: usize) -> (r: Vec<char>)
    requires
        a <= b <= cs@.len(),
    ensures
        r@ == cs@.subrange(a as int, b as int),
{
    let mut r: Vec<char> = Vec::new();
    let mut i: usize = a;
    while i < b
        invariant
            a <= i <= b <= cs@.len(),
            r@ == cs@.subrange(a as int, i as int),
        decreases b - i,
    {
        r.push(cs[i]);
        proof {
            assert(r@ =~= cs@.subrange(a as int, i + 1));
        }
        i = i + 1;
    }
    proof {
        assert(r@ =~= cs@.subrange(a as int, b as int));
    }
    r
}

/// Relies on String's FromIterator over chars: the characters of the result
/// are exactly the input's, in order.
#[verifier::external_body]
pub(crate) fn chars_to_string(v: &Vec<char>) -> (r: String)
    ensures
        r@ == v@,
{
    v.iter().collect()
}


/// Appends every token of a lexing result after a prefix, keeping errors.
pub open spec fn cons_all(pre: Seq<TokenModel>, r: Result<Seq<TokenModel>, Error>) -> Result<
    Seq<TokenModel>,
    Error,
> {
    match r {
        Ok(ts) => Ok(pre + ts),
        Err(e) => Err(e),
    }
}

/// Taking one token off the rest and appending it to the prefix agree.
pub proof fn lemma_cons_all(pre: Seq<TokenModel>, t: TokenModel, r: Result<Seq<TokenModel>, Error>)
    ensures
        cons_all(pre + seq![t], r) == cons_all(pre, cons_tok(t, r)),
{
    match r {
        Ok(ts) => {
            assert((pre + seq![t]) + ts =~= pre + (seq![t] + ts));
        },
        Err(_) => {},
    }
}

/// One lexing step at position `i`: pushes the token found there and
/// returns the next position, or the lexical error.
#[verifier::rlimit(100)]
fn lex_step(cs: &Vec<char>, i: usize, toks: &mut Vec<Token>) -> (res: Result<usize, Error>)
    requires
        i < cs@.len(),
    ensures
        match res {
            Ok(ni) => i < ni <= cs@.len() && cons_all(
                tok_views(old(toks)@),
                lex_spec(cs@.skip(i as int), i as int),
            ) == cons_all(tok_views(final(toks)@), lex_spec(cs@.skip(ni as int), ni as int)),
            Err(e) => lex_spec(cs@.skip(i as int), i as int) == Err::<Seq<TokenModel>, Error>(e)
                && final(toks)@ == old(toks)@,
        },
{
    let m = cs.len();
        if let Some((t, l)) = try_rel(&cs, i) {
            let ghost prev = toks@;
            toks.push(t);
            proof {
                lemma_rel_match(cs@.skip(i as int));
                match rel_match(cs@.skip(i as int)) {
                    Some(mm) => {
                        lemma_tok_views(prev);
                        lemma_tok_views(toks@);
                        assert(tok_views(toks@) =~= tok_views(prev) + seq![TokenModel::Rel(mm)]);
                        assert(cs@.skip(i as int).skip(mm.len() as int) =~= cs@.skip(i + l));
                        assert(lex_spec(cs@.skip(i as int), i as int) == cons_tok(
                            TokenModel::Rel(mm),
                            lex_spec(cs@.skip(i + l), i as int + l),
                        ));
                        lemma_cons_all(
                            tok_views(prev),
                            TokenModel::Rel(mm),
                            lex_spec(cs@.skip(i + l), i as int + l),
                        );
                    },
                    None => {
                        assert(false);
                    },
                }
            }
            return Ok(i + l);
        }
        if let Some((t, l)) = try_conn(&cs, i) {
            let ghost prev = toks@;
            toks.push(t);
            proof {
                lemma_conn_match(cs@.skip(i as int));
                match conn_match(cs@.skip(i as int)) {
                    Some(mm) => {
                        lemma_tok_views(prev);
                        lemma_tok_views(toks@);
                        assert(tok_views(toks@) =~= tok_views(prev) + seq![TokenModel::Conn(mm)]);
                        assert(cs@.skip(i as int).skip(mm.len() as int) =~= cs@.skip(i + l));
                        assert(lex_spec(cs@.skip(i as int), i as int) == cons_tok(
                            TokenModel::Conn(mm),
                            lex_spec(cs@.skip(i + l), i as int + l),
                        ));
                        lemma_cons_all(
                            tok_views(prev),
                            TokenModel::Conn(mm),
                            lex_spec(cs@.skip(i + l), i as int + l),
                        );
                    },
                    None => {
                        assert(false);
                    },
                }
            }
            return Ok(i + l);
        }
        if let Some((t, l)) = try_quan(&cs, i) {
            let ghost prev = toks@;
            toks.push(t);
            proof {
                lemma_quan_match(cs@.skip(i as int));
                match quan_match(cs@.skip(i as int)) {
                    Some(mm) => {
                        lemma_tok_views(prev);
                        lemma_tok_views(toks@);
                        assert(tok_views(toks@) =~= tok_views(prev) + seq![TokenModel::Quan(mm)]);
                        assert(cs@.skip(i as int).skip(mm.len() as int) =~= cs@.skip(i + l));
                        assert(lex_spec(cs@.skip(i as int), i as int) == cons_tok(
                            TokenModel::Quan(mm),
                            lex_spec(cs@.skip(i + l), i as int + l),
                        ));
                        lemma_cons_all(
                            tok_views(prev),
                            TokenModel::Quan(mm),
                            lex_spec(cs@.skip(i + l), i as int + l),
                        );
                    },
                    None => {
                        assert(false);
                    },
                }
            }
            return Ok(i + l);
        }
        if let Some((t, l)) = try_brack(&cs, i) {
            let ghost prev = toks@;
            toks.push(t);
            proof {
                lemma_brack_match(cs@.skip(i as int));
                match brack_match(cs@.skip(i as int)) {
                    Some(mm) => {
                        lemma_tok_views(prev);
                        lemma_tok_views(toks@);
                        assert(tok_views(toks@) =~= tok_views(prev) + seq![TokenModel::Brack(mm)]);
                        assert(cs@.skip(i as int).skip(mm.len() as int) =~= cs@.skip(i + l));
                        assert(lex_spec(cs@.skip(i as int), i as int) == cons_tok(
                            TokenModel::Brack(mm),
                            lex_spec(cs@.skip(i + l), i as int + l),
                        ));
                        lemma_cons_all(
                            tok_views(prev),
                            TokenModel::Brack(mm),
                            lex_spec(cs@.skip(i + l), i as int + l),
                        );
                    },
                    None => {
                        assert(false);
                    },
                }
            }
            return Ok(i + l);
        }
        if let Some((t, l)) = try_konst(&cs, i) {
            let ghost prev = toks@;
            toks.push(t);
            proof {
                lemma_konst_match(cs@.skip(i as int));
                match konst_match(cs@.skip(i as int)) {
                    Some(mm) => {
                        lemma_tok_views(prev);
                        lemma_tok_views(toks@);
                        assert(tok_views(toks@) =~= tok_views(prev) + seq![TokenModel::Const(mm)]);
                        assert(cs@.skip(i as int).skip(mm.len() as int) =~= cs@.skip(i + l));
                        assert(lex_spec(cs@.skip(i as int), i as int) == cons_tok(
                            TokenModel::Const(mm),
                            lex_spec(cs@.skip(i + l), i as int + l),
                        ));
                        lemma_cons_all(
                            tok_views(prev),
                            TokenModel::Const(mm),
                            lex_spec(cs@.skip(i + l), i as int + l),
                        );
                    },
                    None => {
                        assert(false);
                    },
                }
            }
            return Ok(i + l);
        }
        if let Some((t, l)) = try_unop(&cs, i) {
            let ghost prev = toks@;
            toks.push(t);
            proof {
                lemma_unop_match(cs@.skip(i as int));
                match unop_match(cs@.skip(i as int)) {
                    Some(mm) => {
                        lemma_tok_views(prev);
                        lemma_tok_views(toks@);
                        assert(tok_views(toks@) =~= tok_views(prev) + seq![TokenModel::UnOp(mm)]);
                        assert(cs@.skip(i as int).skip(mm.len() as int) =~= cs@.skip(i + l));
                        assert(lex_spec(cs@.skip(i as int), i as int) == cons_tok(
                            TokenModel::UnOp(mm),
                            lex_spec(cs@.skip(i + l), i as int + l),
                        ));
                        lemma_cons_all(
                            tok_views(prev),
                            TokenModel::UnOp(mm),
                            lex_spec(cs@.skip(i + l), i as int + l),
                        );
                    },
                    None => {
                        assert(false);
                    },
                }
            }
            return Ok(i + l);
        }
        if let Some((t, l)) = try_binop(&cs, i) {
            let ghost prev = toks@;
            toks.push(t);
            proof {
                lemma_binop_match(cs@.skip(i as int));
                match binop_match(cs@.skip(i as int)) {
                    Some(mm) => {
                        lemma_tok_views(prev);
                        lemma_tok_views(toks@);
                        assert(tok_views(toks@) =~= tok_views(prev) + seq![TokenModel::BinOp(mm)]);
                        assert(cs@.skip(i as int).skip(mm.len() as int) =~= cs@.skip(i + l));
                        assert(lex_spec(cs@.skip(i as int), i as int) == cons_tok(
                            TokenModel::BinOp(mm),
                            lex_spec(cs@.skip(i + l), i as int + l),
                        ));
                        lemma_cons_all(
                            tok_views(prev),
                            TokenModel::BinOp(mm),
                            lex_spec(cs@.skip(i + l), i as int + l),
                        );
                    },
                    None => {
                        assert(false);
                    },
                }
            }
            return Ok(i + l);
        }

        if cs[i] == 'v' {
            let mut d: usize = 0;
            proof {
                assert(cs@.skip(i as int).drop_first() =~= cs@.skip(i + 1));
            }
            while i + 1 + d < m && is_digit_m(cs[i + 1 + d])
                invariant
                    m == cs@.len(),
                    i + 1 <= m,
                    i + 1 + d <= m,
                    digit_run(cs@.skip(i + 1)) == d + digit_run(cs@.skip(i + 1 + d)),
                decreases m - i - 1 - d,
            {
                proof {
                    assert(cs@.skip(i + 1 + d)[0] == cs@[i + 1 + d]);
                    assert(cs@.skip(i + 1 + d).drop_first() =~= cs@.skip(i + 1 + d + 1));
                }
                d = d + 1;
            }
            proof {
                if i + 1 + d < m {
                    assert(cs@.skip(i + 1 + d)[0] == cs@[i + 1 + d]);
                }
                assert(digit_run(cs@.skip(i + 1 + d)) == 0);
                assert(digit_run(cs@.skip(i as int).drop_first()) == d);
            }
            let text = seg(&cs, i, i + 1 + d);
            let ghost prev = toks@;
            toks.push(Token::Var(chars_to_string(&text)));
            proof {
                lemma_tok_views(prev);
                lemma_tok_views(toks@);
                assert(text@ =~= cs@.skip(i as int).take(1 + d));
                assert(tok_views(toks@) =~= tok_views(prev) + seq![
                    TokenModel::Var(cs@.skip(i as int).take(1 + d)),
                ]);
                assert(cs@.skip(i as int).skip(1 + d) =~= cs@.skip(i + 1 + d));
                assert(lex_spec(cs@.skip(i as int), i as int) == cons_tok(
                    TokenModel::Var(cs@.skip(i as int).take(1 + d)),
                    lex_spec(cs@.skip(i + 1 + d), i as int + 1 + d),
                ));
                lemma_cons_all(
                    tok_views(prev),
                    TokenModel::Var(cs@.skip(i as int).take(1 + d)),
                    lex_spec(cs@.skip(i + 1 + d), i as int + 1 + d),
                );
            }
            return Ok(i + 1 + d);
        }
        if is_letter_ch(cs[i]) {
            let text = seg(&cs, i, i + 1);
            let ghost prev = toks@;
            toks.push(Token::Var(chars_to_string(&text)));
            proof {
                lemma_tok_views(prev);
                lemma_tok_views(toks@);
                assert(text@ =~= cs@.skip(i as int).take(1));
                assert(tok_views(toks@) =~= tok_views(prev) + seq![
                    TokenModel::Var(cs@.skip(i as int).take(1)),
                ]);
                assert(cs@.skip(i as int).skip(1) =~= cs@.skip(i + 1));
                assert(lex_spec(cs@.skip(i as int), i as int) == cons_tok(
                    TokenModel::Var(cs@.skip(i as int).take(1)),
                    lex_spec(cs@.skip(i + 1), i as int + 1),
                ));
                lemma_cons_all(
                    tok_views(prev),
                    TokenModel::Var(cs@.skip(i as int).take(1)),
                    lex_spec(cs@.skip(i + 1), i as int + 1),
                );
            }
            return Ok(i + 1);
        }
        proof {
            assert(cs@.skip(i as int)[0] == cs@[i as int]);
        }
        return Err(Error::UnexpectedChar { found: cs[i], position: i });
}

/// Converts raw input text into its token sequence, or reports the first
/// unrecognized character and its position in the whitespace-stripped text.
pub fn tokanize(input: String) -> (r: Result<Vec<Token>, Error>)
    ensures
        ({
            let l = lex_spec(stripped(input@), 0);
            match r {
                Ok(ts) => l == Ok::<Seq<TokenModel>, Error>(tok_views(ts@)),
                Err(e) => l == Err::<Seq<TokenModel>, Error>(e),
            }
        }),
{
    let cs = strip_ws(input.as_str());
    let m = cs.len();
    let mut toks: Vec<Token> = Vec::new();
    let mut i: usize = 0;
    proof {
        assert(cs@.skip(0) =~= cs@);
        lemma_tok_views(toks@);
        assert(tok_views(toks@) =~= Seq::<TokenModel>::empty());
        match lex_spec(cs@, 0) {
            Ok(ts) => {
                assert(Seq::<TokenModel>::empty() + ts =~= ts);
            },
            Err(_) => {},
        }
    }
    while i < m
        invariant
            m == cs@.len(),
            cs@ == stripped(input@),
            i <= m,
            lex_spec(cs@, 0) == cons_all(tok_views(toks@), lex_spec(cs@.skip(i as int), i as int)),
        decreases m - i,
    {
        let step = lex_step(&cs, i, &mut toks);
        match step {
            Ok(ni) => {
                i = ni;
            },
            Err(e) => {
                proof {
                    assert(cs@ == stripped(input@));
                    assert(lex_spec(cs@, 0) == Err::<Seq<TokenModel>, Error>(e));
                    assert(lex_spec(stripped(input@), 0) == Err::<Seq<TokenModel>, Error>(e));
                }
                return Err(e);
            },
        }
    }
    proof {
        assert(cs@.skip(m as int) =~= Seq::<char>::empty());
        match lex_spec(cs@, 0) {
            Ok(ts) => {
                assert(tok_views(toks@) + Seq::<TokenModel>::empty() =~= tok_views(toks@));
            },
            Err(_) => {},
        }
    }
    proof {
        assert(lex_spec(stripped(input@), 0) == Ok::<Seq<TokenModel>, Error>(tok_views(toks@)));
    }
    Ok(toks)
}

} // verus!
