use lang_lsp::ast::{Ast, AnnotatedAst, AnnotatedPattern, Pattern, Token, TokenKind};
use lang_lsp::semantic_tokens::{
    category_id, classify_tokens, make_tokens_of_ast, make_tokens_of_forest, make_tokens_semantic,
    Category,
};
use lang_lsp::span::Span;
use lang_lsp::types::Ty;

fn sp(start: usize, end: usize) -> Span {
    Span { start, end }
}

fn tok(kind: TokenKind, start: usize, end: usize) -> Token {
    Token { kind, span: sp(start, end) }
}

fn node(ast: Ast, start: usize, end: usize, ty: Option<Ty>) -> AnnotatedAst {
    AnnotatedAst { node: ast, span: sp(start, end), ty }
}

/// `x := 1 + 2` with the spans of the position tests.
fn decl_x_infer() -> AnnotatedAst {
    let pattern = AnnotatedPattern {
        pattern: Pattern::Var(tok(TokenKind::Ident, 0, 1)),
        span: sp(0, 1),
        ty: Some(Ty::Number),
    };
    let one = node(Ast::Literal(tok(TokenKind::Number, 5, 6)), 5, 6, Some(Ty::Number));
    let two = node(Ast::Literal(tok(TokenKind::Number, 9, 10)), 9, 10, Some(Ty::Number));
    let value = node(
        Ast::Binary(
            Box::new(one),
            tok(TokenKind::Op(b"+".to_vec()), 7, 8),
            Box::new(two),
        ),
        5,
        10,
        Some(Ty::Number),
    );
    node(
        Ast::Declaration(
            pattern,
            tok(TokenKind::Op(b":=".to_vec()), 2, 4),
            None,
            None,
            Some(Box::new(value)),
        ),
        0,
        10,
        Some(Ty::Number),
    )
}

#[test]
fn legend_ids_follow_the_fixed_order() {
    assert_eq!(category_id(Category::Function), 0);
    assert_eq!(category_id(Category::Variable), 1);
    assert_eq!(category_id(Category::Str), 2);
    assert_eq!(category_id(Category::Comment), 3);
    assert_eq!(category_id(Category::Number), 4);
    assert_eq!(category_id(Category::Keyword), 5);
    assert_eq!(category_id(Category::Operator), 6);
    assert_eq!(category_id(Category::Parameter), 7);
    assert_eq!(category_id(Category::Type), 8);
    assert_eq!(category_id(Category::EnumMember), 9);
}

#[test]
fn structural_walk_emits_in_increasing_span_order() {
    let forest = vec![decl_x_infer()];
    let table: Vec<Ty> = Vec::new();
    let cats = make_tokens_of_forest(&forest, &table).unwrap();
    assert_eq!(cats.len(), 4);
    assert_eq!(cats[0], (Category::Variable, sp(0, 1)));
    assert_eq!(cats[1], (Category::Number, sp(5, 6)));
    assert_eq!(cats[2], (Category::Operator, sp(7, 8)));
    assert_eq!(cats[3], (Category::Number, sp(9, 10)));
    for w in cats.windows(2) {
        assert!(w[0].1.end <= w[1].1.start);
        assert!(w[0].1.start < w[1].1.start);
    }
}

#[test]
fn function_shaped_names_color_as_functions() {
    let table = vec![Ty::Fn(vec![], Box::new(Ty::Number))];
    let var = node(Ast::Variable(tok(TokenKind::Ident, 0, 1)), 0, 1, Some(Ty::Var(0)));
    let mut out = Vec::new();
    assert!(make_tokens_of_ast(&var, &table, &mut out).is_ok());
    assert_eq!(out, vec![(Category::Function, sp(0, 1))]);
}

#[test]
fn logical_word_operators_color_as_keywords() {
    let l = node(Ast::Literal(tok(TokenKind::Bool, 0, 4)), 0, 4, Some(Ty::Bool));
    let r = node(Ast::Literal(tok(TokenKind::Bool, 9, 14)), 9, 14, Some(Ty::Bool));
    let and = node(
        Ast::Binary(Box::new(l), tok(TokenKind::Op(b"and".to_vec()), 5, 8), Box::new(r)),
        0,
        14,
        Some(Ty::Bool),
    );
    let table: Vec<Ty> = Vec::new();
    let mut out = Vec::new();
    assert!(make_tokens_of_ast(&and, &table, &mut out).is_ok());
    assert_eq!(out[0], (Category::EnumMember, sp(0, 4)));
    assert_eq!(out[1], (Category::Keyword, sp(5, 8)));
    assert_eq!(out[2], (Category::EnumMember, sp(9, 14)));
}

#[test]
fn loop_and_conditional_keywords_are_emitted() {
    let cond = node(Ast::Literal(tok(TokenKind::Bool, 6, 10)), 6, 10, Some(Ty::Bool));
    let body = node(Ast::Literal(tok(TokenKind::Number, 11, 12)), 11, 12, Some(Ty::Number));
    let w = node(
        Ast::While(tok(TokenKind::Keyword, 0, 5), Box::new(cond), Box::new(body)),
        0,
        12,
        Some(Ty::Number),
    );
    let table: Vec<Ty> = Vec::new();
    let mut out = Vec::new();
    assert!(make_tokens_of_ast(&w, &table, &mut out).is_ok());
    assert_eq!(out[0], (Category::Keyword, sp(0, 5)));
}

#[test]
fn annotation_site_is_colored_as_a_type() {
    // x: Number = 1 — the annotation span is emitted with the type category.
    let pattern = AnnotatedPattern {
        pattern: Pattern::Var(tok(TokenKind::Ident, 0, 1)),
        span: sp(0, 1),
        ty: Some(Ty::Number),
    };
    let ann = node(Ast::Annotation(tok(TokenKind::Ident, 3, 9)), 3, 9, None);
    let value = node(Ast::Literal(tok(TokenKind::Number, 12, 13)), 12, 13, Some(Ty::Number));
    let decl = node(
        Ast::Declaration(
            pattern,
            tok(TokenKind::Op(b":".to_vec()), 1, 2),
            Some(Box::new(ann)),
            Some(tok(TokenKind::Op(b"=".to_vec()), 10, 11)),
            Some(Box::new(value)),
        ),
        0,
        13,
        Some(Ty::Number),
    );
    let table: Vec<Ty> = Vec::new();
    let mut out = Vec::new();
    assert!(make_tokens_of_ast(&decl, &table, &mut out).is_ok());
    assert_eq!(out[1], (Category::Type, sp(3, 9)));
}

#[test]
fn uncovered_variant_is_surfaced_as_an_error() {
    // A bare annotation node has no classification rule of its own.
    let stray = node(Ast::Annotation(tok(TokenKind::Ident, 0, 6)), 0, 6, None);
    let table: Vec<Ty> = Vec::new();
    let mut out = Vec::new();
    assert!(make_tokens_of_ast(&stray, &table, &mut out).is_err());
}

#[test]
fn untyped_name_is_surfaced_as_an_error() {
    let var = node(Ast::Variable(tok(TokenKind::Ident, 0, 1)), 0, 1, None);
    let table: Vec<Ty> = Vec::new();
    let mut out = Vec::new();
    assert!(make_tokens_of_ast(&var, &table, &mut out).is_err());
}

#[test]
fn lexical_fallback_maps_kinds_and_drops_punctuation() {
    let tokens = vec![
        tok(TokenKind::Number, 0, 2),
        tok(TokenKind::Ctrl, 2, 3),
        tok(TokenKind::Ident, 4, 5),
        tok(TokenKind::Bool, 6, 10),
        tok(TokenKind::Keyword, 11, 16),
        tok(TokenKind::Op(b"+".to_vec()), 17, 18),
        tok(TokenKind::Text, 19, 24),
        tok(TokenKind::Comment, 25, 30),
    ];
    let cats = classify_tokens(&tokens);
    assert_eq!(cats.len(), 7);
    assert_eq!(cats[0], (Category::Number, sp(0, 2)));
    assert_eq!(cats[1], (Category::Variable, sp(4, 5)));
    assert_eq!(cats[2], (Category::Keyword, sp(6, 10)));
    assert_eq!(cats[3], (Category::Keyword, sp(11, 16)));
    assert_eq!(cats[4], (Category::Operator, sp(17, 18)));
    assert_eq!(cats[5], (Category::Str, sp(19, 24)));
    assert_eq!(cats[6], (Category::Comment, sp(25, 30)));
}

#[test]
fn delta_encoding_on_one_line() {
    let text = b"x := 1 + 2".to_vec();
    let forest = vec![decl_x_infer()];
    let table: Vec<Ty> = Vec::new();
    let cats = make_tokens_of_forest(&forest, &table).unwrap();
    let wire = make_tokens_semantic(&cats, &text);
    assert_eq!(wire.len(), 4);
    assert_eq!(
        (wire[0].delta_line, wire[0].delta_start, wire[0].length, wire[0].token_type),
        (0, 0, 1, 1)
    );
    assert_eq!(
        (wire[1].delta_line, wire[1].delta_start, wire[1].length, wire[1].token_type),
        (0, 5, 1, 4)
    );
    assert_eq!(
        (wire[2].delta_line, wire[2].delta_start, wire[2].length, wire[2].token_type),
        (0, 2, 1, 6)
    );
    assert_eq!(
        (wire[3].delta_line, wire[3].delta_start, wire[3].length, wire[3].token_type),
        (0, 2, 1, 4)
    );
}

#[test]
fn delta_encoding_resets_columns_across_lines() {
    let text = b"ab\ncd e".to_vec();
    let cats = vec![
        (Category::Variable, sp(0, 2)),
        (Category::Variable, sp(3, 5)),
        (Category::Number, sp(6, 7)),
    ];
    let wire = make_tokens_semantic(&cats, &text);
    assert_eq!((wire[0].delta_line, wire[0].delta_start), (0, 0));
    assert_eq!((wire[1].delta_line, wire[1].delta_start), (1, 0));
    assert_eq!((wire[2].delta_line, wire[2].delta_start), (0, 3));
}

#[test]
fn delta_encoding_counts_columns_in_code_points() {
    // "é" is two bytes but one code point: the column after it is 1.
    let text = "é x".as_bytes().to_vec();
    let cats = vec![(Category::Variable, sp(3, 4))];
    let wire = make_tokens_semantic(&cats, &text);
    assert_eq!((wire[0].delta_line, wire[0].delta_start), (0, 2));
}

#[test]
fn reconstructing_positions_from_deltas_matches_the_original() {
    let text = b"ab\ncd e\nf".to_vec();
    let cats = vec![
        (Category::Variable, sp(0, 2)),
        (Category::Variable, sp(3, 5)),
        (Category::Number, sp(6, 7)),
        (Category::Variable, sp(8, 9)),
    ];
    let wire = make_tokens_semantic(&cats, &text);
    let expected = [(0u32, 0u32), (1, 0), (1, 3), (2, 0)];
    let mut line = 0u32;
    let mut col = 0u32;
    for (i, w) in wire.iter().enumerate() {
        line += w.delta_line;
        col = if w.delta_line == 0 { col + w.delta_start } else { w.delta_start };
        assert_eq!((line, col), expected[i]);
    }
}

#[test]
fn empty_classification_encodes_to_nothing() {
    let text = b"".to_vec();
    let cats: Vec<(Category, Span)> = Vec::new();
    let wire = make_tokens_semantic(&cats, &text);
    assert_eq!(wire.len(), 0);
}
