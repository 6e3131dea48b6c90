use lang_lsp::ast::{Ast, AnnotatedAst, AnnotatedPattern, Pattern, Token, TokenKind};
use lang_lsp::inlay_hints::collect_hints;
use lang_lsp::span::Span;
use lang_lsp::types::{get_most_concrete_type, render_label, Ty};

fn sp(start: usize, end: usize) -> Span {
    Span { start, end }
}

fn tok(kind: TokenKind, start: usize, end: usize) -> Token {
    Token { kind, span: sp(start, end) }
}

fn node(ast: Ast, start: usize, end: usize, ty: Option<Ty>) -> AnnotatedAst {
    AnnotatedAst { node: ast, span: sp(start, end), ty }
}

fn var_pattern(start: usize, end: usize, ty: Ty) -> AnnotatedPattern {
    AnnotatedPattern {
        pattern: Pattern::Var(tok(TokenKind::Ident, start, end)),
        span: sp(start, end),
        ty: Some(ty),
    }
}

/// `x := 1` — spans `x` [0,1), `:=` [2,4), `1` [5,6).
fn decl_infer() -> AnnotatedAst {
    let value = node(Ast::Literal(tok(TokenKind::Number, 5, 6)), 5, 6, Some(Ty::Number));
    node(
        Ast::Declaration(
            var_pattern(0, 1, Ty::Number),
            tok(TokenKind::Op(b":=".to_vec()), 2, 4),
            None,
            None,
            Some(Box::new(value)),
        ),
        0,
        6,
        Some(Ty::Number),
    )
}

/// `x: Number = 1` — an explicit annotation; spans `x` [0,1), `:` [1,2),
/// `Number` [3,9), `=` [10,11), `1` [12,13).
fn decl_annotated() -> AnnotatedAst {
    let ann = node(Ast::Annotation(tok(TokenKind::Ident, 3, 9)), 3, 9, None);
    let value = node(Ast::Literal(tok(TokenKind::Number, 12, 13)), 12, 13, Some(Ty::Number));
    node(
        Ast::Declaration(
            var_pattern(0, 1, Ty::Number),
            tok(TokenKind::Op(b":".to_vec()), 1, 2),
            Some(Box::new(ann)),
            Some(tok(TokenKind::Op(b"=".to_vec()), 10, 11)),
            Some(Box::new(value)),
        ),
        0,
        13,
        Some(Ty::Number),
    )
}

#[test]
fn infer_binding_yields_one_hint_after_the_name() {
    let forest = vec![decl_infer()];
    let table: Vec<Ty> = Vec::new();
    let hints = collect_hints(&forest, &table);
    assert_eq!(hints.len(), 1);
    assert_eq!(hints[0].0, 1);
    assert_eq!(hints[0].1, 2);
    assert_eq!(hints[0].2, b"Number".to_vec());
}

#[test]
fn explicit_annotation_yields_no_hint() {
    let forest = vec![decl_annotated()];
    let table: Vec<Ty> = Vec::new();
    let hints = collect_hints(&forest, &table);
    assert_eq!(hints.len(), 0);
}

#[test]
fn nested_declaration_is_found_at_depth() {
    // y := { x := 1 } — the inner declaration sits inside the initializer.
    let inner = node(
        Ast::Declaration(
            var_pattern(7, 8, Ty::Number),
            tok(TokenKind::Op(b":=".to_vec()), 9, 11),
            None,
            None,
            Some(Box::new(node(
                Ast::Literal(tok(TokenKind::Number, 12, 13)),
                12,
                13,
                Some(Ty::Number),
            ))),
        ),
        7,
        13,
        Some(Ty::Number),
    );
    let block = node(Ast::Block(vec![inner]), 5, 15, Some(Ty::Number));
    let outer = node(
        Ast::Declaration(
            var_pattern(0, 1, Ty::Number),
            tok(TokenKind::Op(b":=".to_vec()), 2, 4),
            None,
            None,
            Some(Box::new(block)),
        ),
        0,
        15,
        Some(Ty::Number),
    );
    let table: Vec<Ty> = Vec::new();
    let hints = collect_hints(&vec![outer], &table);
    assert_eq!(hints.len(), 2);
    assert_eq!(hints[0].0, 1);
    assert_eq!(hints[1].0, 8);
}

#[test]
fn hint_label_resolves_indirections() {
    // The initializer's type is an inference variable pointing at Number.
    let table = vec![Ty::Var(1), Ty::Number];
    let value = node(Ast::Literal(tok(TokenKind::Number, 5, 6)), 5, 6, Some(Ty::Var(0)));
    let decl = node(
        Ast::Declaration(
            var_pattern(0, 1, Ty::Var(0)),
            tok(TokenKind::Op(b":=".to_vec()), 2, 4),
            None,
            None,
            Some(Box::new(value)),
        ),
        0,
        6,
        Some(Ty::Var(0)),
    );
    let hints = collect_hints(&vec![decl], &table);
    assert_eq!(hints.len(), 1);
    assert_eq!(hints[0].2, b"Number".to_vec());
}

#[test]
fn untyped_initializer_yields_no_hint() {
    let value = node(Ast::Literal(tok(TokenKind::Number, 5, 6)), 5, 6, None);
    let decl = node(
        Ast::Declaration(
            var_pattern(0, 1, Ty::Number),
            tok(TokenKind::Op(b":=".to_vec()), 2, 4),
            None,
            None,
            Some(Box::new(value)),
        ),
        0,
        6,
        None,
    );
    let table: Vec<Ty> = Vec::new();
    let hints = collect_hints(&vec![decl], &table);
    assert_eq!(hints.len(), 0);
}

#[test]
fn labels_render_each_shape() {
    let mut out = Vec::new();
    render_label(&Ty::Number, &mut out);
    assert_eq!(out, b"Number".to_vec());

    let mut out = Vec::new();
    render_label(&Ty::Bool, &mut out);
    assert_eq!(out, b"Bool".to_vec());

    let mut out = Vec::new();
    render_label(&Ty::Text, &mut out);
    assert_eq!(out, b"Text".to_vec());

    let mut out = Vec::new();
    render_label(&Ty::Tuple(vec![]), &mut out);
    assert_eq!(out, b"()".to_vec());

    let mut out = Vec::new();
    render_label(&Ty::Tuple(vec![Ty::Number, Ty::Bool]), &mut out);
    assert_eq!(out, b"(Number, Bool)".to_vec());

    let mut out = Vec::new();
    render_label(&Ty::Fn(vec![Ty::Number], Box::new(Ty::Text)), &mut out);
    assert_eq!(out, b"(Number) -> Text".to_vec());

    let mut out = Vec::new();
    render_label(&Ty::Var(3), &mut out);
    assert_eq!(out, b"?".to_vec());
}

#[test]
fn resolution_follows_indirection_chains() {
    let table = vec![Ty::Var(2), Ty::Bool, Ty::Number];
    let t = Ty::Var(0);
    assert!(matches!(get_most_concrete_type(&t, &table), Ty::Number));
}

#[test]
fn resolution_survives_an_indirection_cycle() {
    // A malformed table whose entry points at itself: the guard stops the
    // walk and hands back an indirection instead of looping forever.
    let table = vec![Ty::Var(0)];
    let t = Ty::Var(0);
    assert!(matches!(get_most_concrete_type(&t, &table), Ty::Var(0)));
}

#[test]
fn resolution_of_out_of_range_index_stops() {
    let table = vec![Ty::Number];
    let t = Ty::Var(7);
    assert!(matches!(get_most_concrete_type(&t, &table), Ty::Var(7)));
}

#[test]
fn resolution_of_a_concrete_type_is_itself() {
    let table: Vec<Ty> = Vec::new();
    assert!(matches!(get_most_concrete_type(&Ty::Bool, &table), Ty::Bool));
}
