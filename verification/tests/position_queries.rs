use lang_lsp::ast::{Ast, AnnotatedAst, AnnotatedPattern, Pattern, Token, TokenKind};
use lang_lsp::hover::{find_match, find_type_at};
use lang_lsp::span::Span;
use lang_lsp::types::Ty;

fn sp(start: usize, end: usize) -> Span {
    Span { start, end }
}

fn tok(kind: TokenKind, start: usize, end: usize) -> Token {
    Token { kind, span: sp(start, end) }
}

fn node(ast: Ast, start: usize, end: usize, ty: Option<Ty>) -> AnnotatedAst {
    AnnotatedAst { node: ast, span: sp(start, end), ty }
}

/// A document holding only the literal `42` at byte span [0, 2).
fn literal_42() -> AnnotatedAst {
    node(
        Ast::Literal(tok(TokenKind::Number, 0, 2)),
        0,
        2,
        Some(Ty::Number),
    )
}

/// `x := 1 + 2`: an infer-binding declaration without an annotation.
/// Spans: `x` [0,1), `:=` [2,4), `1` [5,6), `+` [7,8), `2` [9,10).
fn decl_x_infer() -> AnnotatedAst {
    let pattern = AnnotatedPattern {
        pattern: Pattern::Var(tok(TokenKind::Ident, 0, 1)),
        span: sp(0, 1),
        ty: Some(Ty::Number),
    };
    let one = node(Ast::Literal(tok(TokenKind::Number, 5, 6)), 5, 6, Some(Ty::Number));
    let two = node(Ast::Literal(tok(TokenKind::Number, 9, 10)), 9, 10, Some(Ty::Number));
    let plus = tok(TokenKind::Op(b"+".to_vec()), 7, 8);
    let value = node(
        Ast::Binary(Box::new(one), plus, Box::new(two)),
        5,
        10,
        Some(Ty::Number),
    );
    node(
        Ast::Declaration(
            pattern,
            tok(TokenKind::Op(b":=".to_vec()), 2, 4),
            None,
            None,
            Some(Box::new(value)),
        ),
        0,
        10,
        Some(Ty::Number),
    )
}

/// `f := |x| x + 1`. Spans: `f` [0,1), `:=` [2,4), `|` [5,6), parameter `x`
/// [6,7), body `x + 1` [9,14) with `x` [9,10), `+` [11,12), `1` [13,14).
fn decl_f_lambda() -> AnnotatedAst {
    let pattern = AnnotatedPattern {
        pattern: Pattern::Var(tok(TokenKind::Ident, 0, 1)),
        span: sp(0, 1),
        ty: Some(Ty::Fn(vec![Ty::Number], Box::new(Ty::Number))),
    };
    let param = node(Ast::Variable(tok(TokenKind::Ident, 6, 7)), 6, 7, Some(Ty::Number));
    let body_x = node(Ast::Variable(tok(TokenKind::Ident, 9, 10)), 9, 10, Some(Ty::Number));
    let body_one = node(Ast::Literal(tok(TokenKind::Number, 13, 14)), 13, 14, Some(Ty::Number));
    let body = node(
        Ast::Binary(
            Box::new(body_x),
            tok(TokenKind::Op(b"+".to_vec()), 11, 12),
            Box::new(body_one),
        ),
        9,
        14,
        Some(Ty::Number),
    );
    let lambda = node(
        Ast::Lambda(vec![param], tok(TokenKind::Op(b"|".to_vec()), 5, 6), Box::new(body)),
        5,
        14,
        Some(Ty::Fn(vec![Ty::Number], Box::new(Ty::Number))),
    );
    node(
        Ast::Declaration(
            pattern,
            tok(TokenKind::Op(b":=".to_vec()), 2, 4),
            None,
            None,
            Some(Box::new(lambda)),
        ),
        0,
        14,
        Some(Ty::Fn(vec![Ty::Number], Box::new(Ty::Number))),
    )
}

#[test]
fn literal_both_offsets_resolve() {
    let doc = literal_42();
    assert!(matches!(find_match(&doc, 0), Some(Ty::Number)));
    assert!(matches!(find_match(&doc, 1), Some(Ty::Number)));
}

#[test]
fn literal_end_offset_is_outside() {
    let doc = literal_42();
    assert!(find_match(&doc, 2).is_none());
}

#[test]
fn offsets_outside_every_top_level_span_are_absent() {
    let forest = vec![literal_42()];
    assert!(find_type_at(&forest, 2).is_none());
    assert!(find_type_at(&forest, 3).is_none());
    assert!(find_type_at(&forest, usize::MAX - 1).is_none());
}

#[test]
fn empty_forest_resolves_nothing() {
    let forest: Vec<AnnotatedAst> = Vec::new();
    assert!(find_type_at(&forest, 0).is_none());
}

#[test]
fn infer_binding_name_resolves_to_initializer_type() {
    let doc = decl_x_infer();
    assert!(matches!(find_match(&doc, 0), Some(Ty::Number)));
}

#[test]
fn infer_binding_value_offsets_resolve_structurally() {
    let doc = decl_x_infer();
    assert!(matches!(find_match(&doc, 5), Some(Ty::Number)));
    assert!(matches!(find_match(&doc, 7), Some(Ty::Number)));
    assert!(matches!(find_match(&doc, 9), Some(Ty::Number)));
}

#[test]
fn lambda_parameter_reference_resolves_to_parameter_type() {
    let doc = decl_f_lambda();
    assert!(matches!(find_match(&doc, 9), Some(Ty::Number)));
}

#[test]
fn lambda_name_resolves_to_function_type() {
    let doc = decl_f_lambda();
    assert!(matches!(find_match(&doc, 0), Some(Ty::Fn(_, _))));
}

#[test]
fn first_top_level_match_wins() {
    let forest = vec![literal_42(), node(
        Ast::Literal(tok(TokenKind::Text, 4, 6)),
        4,
        6,
        Some(Ty::Text),
    )];
    assert!(matches!(find_type_at(&forest, 1), Some(Ty::Number)));
    assert!(matches!(find_type_at(&forest, 4), Some(Ty::Text)));
    assert!(find_type_at(&forest, 3).is_none());
}

#[test]
fn comment_and_error_nodes_carry_no_type() {
    let comment = node(Ast::Comment(tok(TokenKind::Comment, 0, 4)), 0, 4, Some(Ty::Number));
    assert!(find_match(&comment, 1).is_none());
    let error = node(Ast::Error, 0, 4, None);
    assert!(find_match(&error, 1).is_none());
}

#[test]
fn tuple_pattern_resolves_by_containment() {
    // (a, b) := v — cursor over `b` resolves the sub-pattern's type.
    let sub_a = AnnotatedPattern {
        pattern: Pattern::Var(tok(TokenKind::Ident, 1, 2)),
        span: sp(1, 2),
        ty: Some(Ty::Number),
    };
    let sub_b = AnnotatedPattern {
        pattern: Pattern::Var(tok(TokenKind::Ident, 4, 5)),
        span: sp(4, 5),
        ty: Some(Ty::Text),
    };
    let pattern = AnnotatedPattern {
        pattern: Pattern::Tuple(vec![sub_a, sub_b]),
        span: sp(0, 6),
        ty: Some(Ty::Tuple(vec![Ty::Number, Ty::Text])),
    };
    let value = node(Ast::Variable(tok(TokenKind::Ident, 10, 11)), 10, 11, Some(
        Ty::Tuple(vec![Ty::Number, Ty::Text]),
    ));
    let decl = node(
        Ast::Declaration(
            pattern,
            tok(TokenKind::Op(b":=".to_vec()), 7, 9),
            None,
            None,
            Some(Box::new(value)),
        ),
        0,
        11,
        Some(Ty::Tuple(vec![Ty::Number, Ty::Text])),
    );
    assert!(matches!(find_match(&decl, 4), Some(Ty::Text)));
    assert!(matches!(find_match(&decl, 1), Some(Ty::Number)));
}
