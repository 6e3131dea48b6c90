use lang_lsp::ast::{Ast, AnnotatedAst, AnnotatedPattern, Pattern, Token, TokenKind};
use lang_lsp::coordinator::{on_change, on_close, translate_errors};
use lang_lsp::span::Span;
use lang_lsp::store::{hover, inlay_hints, semantic_tokens, Analysis, DocumentStore};
use lang_lsp::types::Ty;

fn sp(start: usize, end: usize) -> Span {
    Span { start, end }
}

fn tok(kind: TokenKind, start: usize, end: usize) -> Token {
    Token { kind, span: sp(start, end) }
}

fn node(ast: Ast, start: usize, end: usize, ty: Option<Ty>) -> AnnotatedAst {
    AnnotatedAst { node: ast, span: sp(start, end), ty }
}

/// The analysis of `x := 1`: spans `x` [0,1), `:=` [2,4), `1` [5,6).
fn analysis_x() -> Analysis {
    let pattern = AnnotatedPattern {
        pattern: Pattern::Var(tok(TokenKind::Ident, 0, 1)),
        span: sp(0, 1),
        ty: Some(Ty::Number),
    };
    let value = node(Ast::Literal(tok(TokenKind::Number, 5, 6)), 5, 6, Some(Ty::Number));
    let decl = node(
        Ast::Declaration(
            pattern,
            tok(TokenKind::Op(b":=".to_vec()), 2, 4),
            None,
            None,
            Some(Box::new(value)),
        ),
        0,
        6,
        Some(Ty::Number),
    );
    Analysis { forest: vec![decl], table: Vec::new() }
}

fn tokens_x() -> Vec<Token> {
    vec![
        tok(TokenKind::Ident, 0, 1),
        tok(TokenKind::Op(b":=".to_vec()), 2, 4),
        tok(TokenKind::Number, 5, 6),
    ]
}

fn open_x(store: &mut DocumentStore, uri: &str) {
    on_change(
        store,
        uri.to_string(),
        b"x := 1".to_vec(),
        1,
        tokens_x(),
        Some(analysis_x()),
        Vec::new(),
    );
}

#[test]
fn hover_answers_for_an_open_document() {
    let mut store = DocumentStore::new();
    open_x(&mut store, "file:///a");
    let label = hover(&store, &"file:///a".to_string(), 0);
    assert_eq!(label, Some(b"Number".to_vec()));
}

#[test]
fn hover_outside_every_span_is_absent() {
    let mut store = DocumentStore::new();
    open_x(&mut store, "file:///a");
    assert_eq!(hover(&store, &"file:///a".to_string(), 6), None);
}

#[test]
fn queries_for_an_unknown_uri_are_empty() {
    let store = DocumentStore::new();
    let uri = "file:///never".to_string();
    assert_eq!(hover(&store, &uri, 0), None);
    assert_eq!(inlay_hints(&store, &uri).len(), 0);
    assert_eq!(semantic_tokens(&store, &uri).len(), 0);
}

#[test]
fn queries_after_close_are_empty() {
    let mut store = DocumentStore::new();
    let uri = "file:///a".to_string();
    open_x(&mut store, "file:///a");
    assert!(hover(&store, &uri, 0).is_some());
    on_close(&mut store, &uri);
    assert_eq!(hover(&store, &uri, 0), None);
    assert_eq!(inlay_hints(&store, &uri).len(), 0);
    assert_eq!(semantic_tokens(&store, &uri).len(), 0);
}

#[test]
fn closing_one_document_leaves_the_others() {
    let mut store = DocumentStore::new();
    open_x(&mut store, "file:///a");
    open_x(&mut store, "file:///b");
    on_close(&mut store, &"file:///a".to_string());
    assert_eq!(hover(&store, &"file:///a".to_string(), 0), None);
    assert!(hover(&store, &"file:///b".to_string(), 0).is_some());
}

#[test]
fn a_change_replaces_the_whole_entry() {
    let mut store = DocumentStore::new();
    let uri = "file:///a".to_string();
    open_x(&mut store, "file:///a");
    assert_eq!(inlay_hints(&store, &uri).len(), 1);
    // The next revision fails to parse: only tokens survive, and the
    // AST-dependent queries degrade to empty rather than serving stale state.
    on_change(
        &mut store,
        uri.clone(),
        b"x :=".to_vec(),
        2,
        vec![
            tok(TokenKind::Ident, 0, 1),
            tok(TokenKind::Op(b":=".to_vec()), 2, 4),
        ],
        None,
        vec![(b"unexpected end of input".to_vec(), sp(4, 4))],
    );
    assert_eq!(hover(&store, &uri, 0), None);
    assert_eq!(inlay_hints(&store, &uri).len(), 0);
    // Degraded highlighting over the raw tokens is still available.
    let wire = semantic_tokens(&store, &uri);
    assert_eq!(wire.len(), 2);
    assert_eq!(wire[0].token_type, 1);
    assert_eq!(wire[1].token_type, 6);
}

#[test]
fn semantic_tokens_use_the_structural_walk_when_analysis_exists() {
    let mut store = DocumentStore::new();
    let uri = "file:///a".to_string();
    open_x(&mut store, "file:///a");
    let wire = semantic_tokens(&store, &uri);
    // x (variable), 1 (number): the binding token is not a semantic leaf.
    assert_eq!(wire.len(), 2);
    assert_eq!(wire[0].token_type, 1);
    assert_eq!(wire[1].token_type, 4);
    assert_eq!(wire[1].delta_start, 5);
}

#[test]
fn a_malformed_forest_is_dropped_on_ingest() {
    // The child's span leaks outside its parent: the analysis fails the
    // well-formedness check and the document keeps only its tokens.
    let bad_child = node(Ast::Literal(tok(TokenKind::Number, 8, 9)), 8, 9, Some(Ty::Number));
    let bad = node(Ast::Block(vec![bad_child]), 0, 4, Some(Ty::Number));
    let mut store = DocumentStore::new();
    let uri = "file:///bad".to_string();
    on_change(
        &mut store,
        uri.clone(),
        b"0 + 1 + 2".to_vec(),
        1,
        vec![tok(TokenKind::Number, 0, 1)],
        Some(Analysis { forest: vec![bad], table: Vec::new() }),
        Vec::new(),
    );
    assert_eq!(hover(&store, &uri, 1), None);
    assert_eq!(semantic_tokens(&store, &uri).len(), 1);
}

#[test]
fn an_unsorted_token_stream_is_dropped_on_ingest() {
    let mut store = DocumentStore::new();
    let uri = "file:///bad".to_string();
    on_change(
        &mut store,
        uri.clone(),
        b"a b".to_vec(),
        1,
        vec![tok(TokenKind::Ident, 2, 3), tok(TokenKind::Ident, 0, 1)],
        None,
        Vec::new(),
    );
    assert_eq!(semantic_tokens(&store, &uri).len(), 0);
}

#[test]
fn diagnostics_are_translated_to_line_and_column() {
    let text = b"ab\ncd".to_vec();
    let errors = vec![
        (b"first".to_vec(), sp(0, 2)),
        (b"second".to_vec(), sp(3, 5)),
    ];
    let diags = translate_errors(&errors, &text);
    assert_eq!(diags.len(), 2);
    assert_eq!(diags[0].message, b"first".to_vec());
    assert_eq!((diags[0].start_line, diags[0].start_col), (0, 0));
    assert_eq!((diags[0].end_line, diags[0].end_col), (0, 2));
    assert_eq!((diags[1].start_line, diags[1].start_col), (1, 0));
    assert_eq!((diags[1].end_line, diags[1].end_col), (1, 2));
}

#[test]
fn out_of_range_error_spans_are_clamped() {
    let text = b"ab".to_vec();
    let errors = vec![(b"late".to_vec(), sp(10, 20))];
    let diags = translate_errors(&errors, &text);
    assert_eq!((diags[0].start_line, diags[0].start_col), (0, 2));
    assert_eq!((diags[0].end_line, diags[0].end_col), (0, 2));
}

#[test]
fn on_change_reports_each_error_in_order() {
    let mut store = DocumentStore::new();
    let diags = on_change(
        &mut store,
        "file:///e".to_string(),
        b"x\ny".to_vec(),
        1,
        Vec::new(),
        None,
        vec![(b"one".to_vec(), sp(0, 1)), (b"two".to_vec(), sp(2, 3))],
    );
    assert_eq!(diags.len(), 2);
    assert_eq!(diags[0].message, b"one".to_vec());
    assert_eq!(diags[1].message, b"two".to_vec());
    assert_eq!((diags[1].start_line, diags[1].start_col), (1, 0));
}

#[test]
fn a_classification_gap_downgrades_to_lexical_highlighting() {
    // A stray annotation node has no structural rule; the classifier
    // surfaces the gap and the query falls back to the raw token stream.
    let stray = node(Ast::Annotation(tok(TokenKind::Ident, 0, 6)), 0, 6, None);
    let mut store = DocumentStore::new();
    let uri = "file:///gap".to_string();
    on_change(
        &mut store,
        uri.clone(),
        b"Number".to_vec(),
        1,
        vec![tok(TokenKind::Ident, 0, 6)],
        Some(Analysis { forest: vec![stray], table: Vec::new() }),
        Vec::new(),
    );
    let wire = semantic_tokens(&store, &uri);
    assert_eq!(wire.len(), 1);
    // VARIABLE from the lexical fallback, not TYPE from the structural walk.
    assert_eq!(wire[0].token_type, 1);
}

#[test]
fn the_latest_change_wins() {
    let mut store = DocumentStore::new();
    let uri = "file:///a".to_string();
    open_x(&mut store, "file:///a");
    // Replace `x := 1` with a document whose only node is a text literal.
    on_change(
        &mut store,
        uri.clone(),
        b"\"hi\"".to_vec(),
        2,
        vec![tok(TokenKind::Text, 0, 4)],
        Some(Analysis {
            forest: vec![node(
                Ast::Literal(tok(TokenKind::Text, 0, 4)),
                0,
                4,
                Some(Ty::Text),
            )],
            table: Vec::new(),
        }),
        Vec::new(),
    );
    assert_eq!(hover(&store, &uri, 0), Some(b"Text".to_vec()));
}
