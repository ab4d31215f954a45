use set_desugar::run;
use set_desugar::SetConfig;

fn none_enabled() -> SetConfig {
    SetConfig {
        variables: false,
        empty_set: false,
        omega: false,
        negated_relations: false,
        subset: false,
        singleton: false,
        comprehension: false,
        power_set: false,
        big_intersection: false,
        big_union: false,
        intersection: false,
        difference: false,
        union: false,
        pair_set: false,
    }
}

#[test]
fn subset_only_introduces_fresh_universal() {
    let mut c = none_enabled();
    c.subset = true;
    assert_eq!(run("v0 ⊆ v1", c), "∀v₂ (v₂ ∈ v₀ → v₂ ∈ v₁)");
}

#[test]
fn empty_set_switch_rewrites_equality() {
    let mut c = none_enabled();
    c.empty_set = true;
    assert_eq!(run("v0 = ∅", c), "¬∃v₁ (v₁ ∈ v₀)");
}

#[test]
fn union_switch_rewrites_membership() {
    let mut c = none_enabled();
    c.union = true;
    assert_eq!(run("v0 ∈ v1 ∪ v2", c), "(v₀ ∈ v₁ ∨ v₀ ∈ v₂)");
}

#[test]
fn malformed_connective_pair_is_a_parse_error() {
    let out = run("( v0 ∧ )", SetConfig::all_enabled());
    assert_eq!(out, "Unexpected token.");
}

#[test]
fn unrecognized_character_names_itself_and_its_position() {
    let out = run("v0 # v1", SetConfig::all_enabled());
    assert_eq!(out, "Unexpected character '#' at position 2.");
}

#[test]
fn identity_when_everything_is_off() {
    assert_eq!(run("v0 ∈ v1", none_enabled()), "v₀ ∈ v₁");
}

#[test]
fn ascii_spellings_lex_like_the_symbols() {
    let mut c = none_enabled();
    c.union = true;
    assert_eq!(run("v0 \\in v1 \\cup v2", c), "(v₀ ∈ v₁ ∨ v₀ ∈ v₂)");
}

#[test]
fn letter_variables_canonicalize_to_low_indices() {
    let mut c = none_enabled();
    c.variables = true;
    assert_eq!(run("a ∈ b", c), "v₀ ∈ v₁");
}

#[test]
fn letter_variables_survive_without_the_switch() {
    assert_eq!(run("a ∈ b", none_enabled()), "a ∈ b");
}

#[test]
fn negated_relations_unfold() {
    let mut c = none_enabled();
    c.negated_relations = true;
    assert_eq!(run("v0 ≠ v1", c), "¬v₀ = v₁");
    assert_eq!(run("v0 ∉ v1", c), "¬v₀ ∈ v₁");
}

#[test]
fn negated_subset_unfolds_through_both_passes() {
    let mut c = none_enabled();
    c.negated_relations = true;
    c.subset = true;
    assert_eq!(run("v0 ⊈ v1", c), "¬∀v₂ (v₂ ∈ v₀ → v₂ ∈ v₁)");
}

#[test]
fn intersection_and_difference_rewrite_membership() {
    let mut c = none_enabled();
    c.intersection = true;
    c.difference = true;
    assert_eq!(run("v0 ∈ v1 ∩ v2", c), "(v₀ ∈ v₁ ∧ v₀ ∈ v₂)");
    assert_eq!(run("v0 ∈ v1 \\ v2", c), "(v₀ ∈ v₁ ∧ ¬v₀ ∈ v₂)");
}

#[test]
fn pair_set_membership_is_a_disjunction_of_equalities() {
    let mut c = none_enabled();
    c.pair_set = true;
    assert_eq!(run("v0 ∈ {v1 , v2}", c), "(v₀ = v₁ ∨ v₀ = v₂)");
}

#[test]
fn big_union_membership_is_an_existential() {
    let mut c = none_enabled();
    c.big_union = true;
    assert_eq!(run("v0 ∈ Vereinigung(v1)", c), "∃v₂ (v₂ ∈ v₁ ∧ v₀ ∈ v₂)");
}

#[test]
fn big_intersection_membership_requires_a_nonempty_family() {
    let mut c = none_enabled();
    c.big_intersection = true;
    assert_eq!(
        run("v0 ∈ Durchschnitt(v1)", c),
        "(¬v₁ = ∅ ∧ ∀v₂ (v₂ ∈ v₁ → v₀ ∈ v₂))"
    );
}

#[test]
fn full_elimination_leaves_only_primitive_vocabulary() {
    for input in ["v0 = Pot(v1)", "v0 ∈ {v1}", "v0 = {v2 ∈ v1 | v2 ∈ v3}", "v0 = ω"] {
        let out = run(input, SetConfig::all_enabled());
        for sugar in ["Pot", "Vereinigung", "Durchschnitt", "⊆", "∪", "∩", "{", "∅", "ω", "≠", "∉", "⊈"] {
            assert!(!out.contains(sugar), "input {input} left {sugar} in {out}");
        }
    }
}

#[test]
fn transforming_twice_changes_nothing_more() {
    let c = SetConfig::all_enabled();
    for input in ["v0 = Pot(v1)", "v0 ⊆ v1", "v0 ∈ v1 ∪ v2", "a = ∅"] {
        let once = run(input, c);
        let twice = run(&once, c);
        assert_eq!(once, twice, "input {input}");
    }
}

#[test]
fn printed_primitive_output_parses_back_unchanged() {
    let c = SetConfig::all_enabled();
    for input in ["v0 = Pot(v1)", "v0 ⊆ v1", "∀v0 ¬v0 ∈ v1"] {
        let once = run(input, c);
        let again = run(&once, none_enabled());
        assert_eq!(once, again, "input {input}");
    }
}

#[test]
fn unexpected_end_of_input() {
    let out = run("∀v0", SetConfig::all_enabled());
    assert_eq!(out, "Unexpected end of input.");
}

#[test]
fn trailing_tokens_are_rejected() {
    let out = run("v0 ∈ v1 v2", SetConfig::all_enabled());
    assert_eq!(out, "Unexpected token, expected end of input.");
}

#[test]
fn quantifier_needs_a_variable() {
    let out = run("∀( v0 ∧ v1 )", SetConfig::all_enabled());
    assert_eq!(out, "Expected a variable after the quantifier.");
}

#[test]
fn oversized_variable_index_is_rejected() {
    let out = run("v99999999999999999999", SetConfig::all_enabled());
    assert_eq!(out, "Variable index too large.");
}

#[test]
fn omega_elaborates_to_an_inductive_set_statement() {
    let mut c = none_enabled();
    c.omega = true;
    c.empty_set = true;
    c.union = true;
    c.singleton = true;
    c.comprehension = true;
    c.power_set = true;
    c.subset = true;
    let out = run("v0 = ω", c);
    assert!(!out.contains('ω'), "omega left in {out}");
    assert!(!out.contains('∅'), "empty set left in {out}");
    assert!(out.starts_with('('), "unexpected shape: {out}");
}
