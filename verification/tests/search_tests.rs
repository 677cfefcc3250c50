use trivium::mask::build_search_mask_boolean;
use trivium::search::{collect_terms, to_rpn, tokenize_search_query, SearchToken};

fn term(col: Option<&str>, text: &str) -> (Option<String>, String) {
    (col.map(|c| c.to_string()), text.to_string())
}

fn tok_summary(tokens: &[SearchToken]) -> Vec<String> {
    tokens
        .iter()
        .map(|t| match t {
            SearchToken::Term { col, text } => match col {
                Some(c) => format!("T({}:{})", c, text),
                None => format!("T({})", text),
            },
            SearchToken::QuotedTerm { col, text } => match col {
                Some(c) => format!("Q({}:{})", c, text),
                None => format!("Q({})", text),
            },
            SearchToken::And => "AND".to_string(),
            SearchToken::Or => "OR".to_string(),
            SearchToken::Not => "NOT".to_string(),
        })
        .collect()
}

#[test]
fn tokenize_simple_terms_insert_and() {
    let tokens = tokenize_search_query("alpha beta");
    assert_eq!(tok_summary(&tokens), ["T(alpha)", "AND", "T(beta)"]);
}

#[test]
fn tokenize_lowercases() {
    let tokens = tokenize_search_query("Host:WS01");
    assert_eq!(tok_summary(&tokens), ["T(host:ws01)"]);
}

#[test]
fn tokenize_or_and_carry_over() {
    let tokens = tokenize_search_query("com:WS01|WS02|WS03");
    assert_eq!(
        tok_summary(&tokens),
        ["T(com:ws01)", "OR", "T(com:ws02)", "OR", "T(com:ws03)"]
    );
}

#[test]
fn tokenize_explicit_column_clears_carry() {
    // An operand with its own column clears the carry: `z` is unscoped.
    let tokens = tokenize_search_query("a:x|b:y z");
    assert_eq!(
        tok_summary(&tokens),
        ["T(a:x)", "OR", "T(b:y)", "AND", "T(z)"]
    );
}

#[test]
fn tokenize_carry_survives_not() {
    let tokens = tokenize_search_query("com:x|-y");
    assert_eq!(tok_summary(&tokens), ["T(com:x)", "OR", "NOT", "T(com:y)"]);
}

#[test]
fn tokenize_negation() {
    let tokens = tokenize_search_query("-malware clean");
    assert_eq!(tok_summary(&tokens), ["NOT", "T(malware)", "AND", "T(clean)"]);
}

#[test]
fn tokenize_quoted_phrase() {
    let tokens = tokenize_search_query("\"two words\"");
    assert_eq!(tok_summary(&tokens), ["Q(two words)"]);
}

#[test]
fn tokenize_column_scoped_phrase() {
    let tokens = tokenize_search_query("event: \"failed login\"");
    assert_eq!(tok_summary(&tokens), ["Q(event:failed login)"]);
}

#[test]
fn tokenize_collapses_pipe_runs() {
    let tokens = tokenize_search_query("a|||b");
    assert_eq!(tok_summary(&tokens), ["T(a)", "OR", "T(b)"]);
}

#[test]
fn tokenize_pipe_space_pipe_keeps_both() {
    let tokens = tokenize_search_query("a| |b");
    assert_eq!(tok_summary(&tokens), ["T(a)", "OR", "OR", "T(b)"]);
}

#[test]
fn tokenize_operator_only_inputs() {
    assert!(tokenize_search_query("   ").is_empty());
    assert_eq!(tok_summary(&tokenize_search_query("||")), ["OR"]);
    assert_eq!(tok_summary(&tokenize_search_query("| | |")), ["OR", "OR", "OR"]);
}

#[test]
fn rpn_precedence() {
    // a b|c parses as (a AND b) OR c under NOT > AND > OR.
    let tokens = tokenize_search_query("a b|c");
    let rpn = to_rpn(&tokens);
    assert_eq!(tok_summary(&rpn), ["T(a)", "T(b)", "AND", "T(c)", "OR"]);
}

#[test]
fn rpn_not_is_right_associative() {
    let tokens = tokenize_search_query("-a -b");
    let rpn = to_rpn(&tokens);
    assert_eq!(tok_summary(&rpn), ["T(a)", "NOT", "T(b)", "NOT", "AND"]);
}

#[test]
fn collect_terms_dedups_and_skips_empty() {
    let tokens = tokenize_search_query("host:a b host:a");
    let (terms, cols) = collect_terms(&tokens);
    assert_eq!(terms.len(), 2);
    assert_eq!(cols, ["host"]);
}

#[test]
fn mask_unscoped_containment() {
    let tokens = tokenize_search_query("mal");
    let (terms, _) = collect_terms(&tokens);
    let rpn = to_rpn(&tokens);
    let texts = vec![
        "malware found".to_string(),
        "clean".to_string(),
        String::new(),
    ];
    let mask = build_search_mask_boolean(&rpn, &terms, &texts, None);
    assert_eq!(mask, [true, false, false]);
}

#[test]
fn mask_unknown_column_is_all_false() {
    // Scenario: searching a column that does not exist matches nothing.
    let tokens = tokenize_search_query("com:WS01|WS02");
    let (terms, _) = collect_terms(&tokens);
    let rpn = to_rpn(&tokens);
    let texts = vec!["ws01 alice login".to_string(), "ws02 bob logout".to_string()];
    let per_col: Vec<(String, Vec<String>)> = Vec::new();
    let mask = build_search_mask_boolean(&rpn, &terms, &texts, Some(&per_col));
    assert_eq!(mask, [false, false]);
}

#[test]
fn mask_column_scoped_with_carry() {
    let tokens = tokenize_search_query("host:WS01|WS02");
    let (terms, _) = collect_terms(&tokens);
    let rpn = to_rpn(&tokens);
    let texts = vec!["ws01 alice login".to_string(), "ws02 bob logout".to_string()];
    let per_col = vec![(
        "host".to_string(),
        vec!["ws01".to_string(), "ws02".to_string()],
    )];
    let mask = build_search_mask_boolean(&rpn, &terms, &texts, Some(&per_col));
    assert_eq!(mask, [true, true]);
}

#[test]
fn mask_negation_scenario() {
    // Rows: (malware), (clean), (clean malware); search `-malware clean`.
    let tokens = tokenize_search_query("-malware clean");
    let (terms, _) = collect_terms(&tokens);
    let rpn = to_rpn(&tokens);
    let texts = vec![
        "malware".to_string(),
        "clean".to_string(),
        "clean malware".to_string(),
    ];
    let mask = build_search_mask_boolean(&rpn, &terms, &texts, None);
    assert_eq!(mask, [false, true, false]);
}

#[test]
fn mask_empty_rpn_admits_nothing() {
    let rpn: Vec<SearchToken> = Vec::new();
    let terms = vec![term(None, "x")];
    let texts = vec!["x".to_string()];
    let mask = build_search_mask_boolean(&rpn, &terms, &texts, None);
    assert_eq!(mask, [false]);
}

#[test]
fn render_round_trip_on_canonical_queries() {
    // Rendering the token stream back and re-tokenising reproduces it, also
    // for queries with column scopes, quoted phrases and operators.
    for q in [
        "alpha beta gamma",
        "host:ws01|ws02",
        "event:\"failed login\" -user:root",
        "a b|c -d",
    ] {
        let tokens = trivium::search::tokenize_search_query(q);
        let rendered = trivium::search::render_tokens(&tokens);
        let again = trivium::search::tokenize_search_query(&rendered);
        assert_eq!(tok_summary(&tokens), tok_summary(&again), "query {:?}", q);
    }
}

#[test]
fn render_of_plain_terms_is_identity() {
    let tokens = trivium::search::tokenize_search_query("alpha beta gamma");
    assert_eq!(trivium::search::render_tokens(&tokens), "alpha beta gamma");
}
