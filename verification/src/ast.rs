use vstd::prelude::*;
use crate::span::Span;
use crate::types::Ty;

verus! {

/// A lexical unit as the tokenizer hands it over. Only what the queries read
/// is kept: the kind of token and, for an operator, its surface name.
#[derive(Debug)]
pub enum TokenKind {
    /// A boolean literal.
    Bool,
    /// A numeric literal.
    Number,
    /// A text literal.
    Text,
    /// An identifier.
    Ident,
    /// An operator, with its surface spelling in bytes.
    Op(Vec<u8>),
    /// A reserved word.
    Keyword,
    /// Punctuation or other structural tokens.
    Ctrl,
    /// A comment.
    Comment,
}

#[derive(Debug)]
pub struct Token {
    pub kind: TokenKind,
    pub span: Span,
}

/// A binding pattern on the left of a declaration, tagged with its span and
/// its resolved type when inference ran.
#[derive(Debug)]
pub struct AnnotatedPattern {
    pub pattern: Pattern,
    pub span: Span,
    pub ty: Option<Ty>,
}

#[derive(Debug)]
pub enum Pattern {
    /// A single bound name.
    Var(Token),
    /// A destructuring tuple of sub-patterns.
    Tuple(Vec<AnnotatedPattern>),
}

/// A syntax-tree node tagged with its grammar variant, its span, and its
/// resolved type when inference ran.
#[derive(Debug)]
pub struct AnnotatedAst {
    pub node: Ast,
    pub span: Span,
    pub ty: Option<Ty>,
}

/// The closed set of grammar variants. Every traversal matches on all of
/// them, so a new grammar form is a compile-time obligation in each.
#[derive(Debug)]
pub enum Ast {
    /// A node the parser could not make sense of.
    Error,
    Literal(Token),
    Variable(Token),
    /// A declaration: bound pattern, the binding token (`:=` for the infer
    /// form), an optional explicit type annotation, an optional assignment
    /// token, and an optional initializer value.
    Declaration(
        AnnotatedPattern,
        Token,
        Option<Box<AnnotatedAst>>,
        Option<Token>,
        Option<Box<AnnotatedAst>>,
    ),
    Call(Box<AnnotatedAst>, Vec<AnnotatedAst>),
    Binary(Box<AnnotatedAst>, Token, Box<AnnotatedAst>),
    While(Token, Box<AnnotatedAst>, Box<AnnotatedAst>),
    If(Token, Box<AnnotatedAst>, Box<AnnotatedAst>, Option<Token>, Box<AnnotatedAst>),
    Tuple(Vec<AnnotatedAst>),
    Block(Vec<AnnotatedAst>),
    Lambda(Vec<AnnotatedAst>, Token, Box<AnnotatedAst>),
    Comment(Token),
    /// An explicit type annotation expression.
    Annotation(Token),
}

/// A token whose span is a non-empty range inside `outer`.
pub open spec fn wf_token(t: Token, outer: Span) -> bool {
    t.span.start < t.span.end && t.span.spec_within(outer)
}

/// Well-formedness of a pattern: spans do not run backwards, every
/// sub-pattern sits inside its parent, and sub-patterns come in source
/// order without overlap.
pub open spec fn wf_pattern(p: AnnotatedPattern) -> bool
    decreases p,
{
    p.span.wf() && match p.pattern {
        Pattern::Var(tok) => wf_token(tok, p.span),
        Pattern::Tuple(items) => wf_subpatterns(items@, p.span),
    }
}

/// Well-formedness of a sequence of sibling sub-patterns inside `outer`.
pub open spec fn wf_subpatterns(items: Seq<AnnotatedPattern>, outer: Span) -> bool
    decreases items,
{
    if items.len() == 0 {
        true
    } else {
        wf_pattern(items[0]) && items[0].span.spec_within(outer) && (items.len() > 1
            ==> items[0].span.end <= items[1].span.start) && wf_subpatterns(
            items.drop_first(),
            outer,
        )
    }
}

/// Well-formedness of a sequence of sibling nodes inside `outer`: each node
/// well formed and contained, and the nodes in source order without overlap.
pub open spec fn wf_children(items: Seq<AnnotatedAst>, outer: Span) -> bool
    decreases items,
{
    if items.len() == 0 {
        true
    } else {
        wf_ast(items[0]) && items[0].span.spec_within(outer) && (items.len() > 1 ==> items[0].span.end
            <= items[1].span.start) && wf_children(items.drop_first(), outer)
    }
}

/// Well-formedness of an annotated node: its span does not run backwards and
/// its variant's constituents obey the containment and ordering rules.
pub open spec fn wf_ast(a: AnnotatedAst) -> bool
    decreases a,
{
    a.span.wf() && wf_node(a.node, a.span)
}

/// The per-variant rules: every constituent (child node or meaningful
/// token) lies inside the node's span, and the constituents appear in the
/// order the source text presents them, without overlap.
pub open spec fn wf_node(node: Ast, outer: Span) -> bool
    decreases node,
{
    match node {
        Ast::Error => true,
        Ast::Literal(tok) => wf_token(tok, outer),
        Ast::Variable(tok) => wf_token(tok, outer),
        Ast::Comment(tok) => wf_token(tok, outer),
        Ast::Annotation(tok) => wf_token(tok, outer),
        Ast::Declaration(pat, _def, ann, _eq, val) => {
            wf_pattern(pat) && pat.span.spec_within(outer) && (match ann {
                Some(t) => wf_ast(*t) && t.span.spec_within(outer) && t.span.start < t.span.end
                    && pat.span.end <= t.span.start,
                None => true,
            }) && (match val {
                Some(v) => wf_ast(*v) && v.span.spec_within(outer) && pat.span.end <= v.span.start
                    && (match ann {
                    Some(t) => t.span.end <= v.span.start,
                    None => true,
                }),
                None => true,
            })
        },
        Ast::Call(caller, args) => {
            wf_ast(*caller) && caller.span.spec_within(outer) && wf_children(args@, outer) && (
            args@.len() > 0 ==> caller.span.end <= args@[0].span.start)
        },
        Ast::Binary(l, op, r) => {
            wf_ast(*l) && l.span.spec_within(outer) && wf_token(op, outer) && wf_ast(*r)
                && r.span.spec_within(outer) && l.span.end <= op.span.start && op.span.end
                <= r.span.start
        },
        Ast::While(kw, cond, body) => {
            wf_token(kw, outer) && wf_ast(*cond) && cond.span.spec_within(outer) && wf_ast(*body)
                && body.span.spec_within(outer) && kw.span.end <= cond.span.start && cond.span.end
                <= body.span.start
        },
        Ast::If(kw, cond, then_body, else_kw, else_body) => {
            wf_token(kw, outer) && wf_ast(*cond) && cond.span.spec_within(outer) && wf_ast(
                *then_body,
            ) && then_body.span.spec_within(outer) && wf_ast(*else_body)
                && else_body.span.spec_within(outer) && kw.span.end <= cond.span.start
                && cond.span.end <= then_body.span.start && (match else_kw {
                Some(k) => wf_token(k, outer) && then_body.span.end <= k.span.start && k.span.end
                    <= else_body.span.start,
                None => then_body.span.end <= else_body.span.start,
            })
        },
        Ast::Tuple(items) => wf_children(items@, outer),
        Ast::Block(items) => wf_children(items@, outer),
        Ast::Lambda(args, op, body) => {
            wf_token(op, outer) && wf_children(args@, outer) && wf_ast(*body)
                && body.span.spec_within(outer) && (if args@.len() > 0 {
                op.span.end <= args@[0].span.start && args@[args@.len() - 1].span.end
                    <= body.span.start
            } else {
                op.span.end <= body.span.start
            })
        },
    }
}

/// A document's forest of top-level nodes: each well formed, in source
/// order, without overlap.
pub open spec fn wf_forest(forest: Seq<AnnotatedAst>) -> bool
    decreases forest,
{
    if forest.len() == 0 {
        true
    } else {
        wf_ast(forest[0]) && (forest.len() > 1 ==> forest[0].span.end <= forest[1].span.start)
            && wf_forest(forest.drop_first())
    }
}

/// Every top-level node's span ends within `limit` (with containment this
/// bounds every span in the tree).
pub open spec fn forest_bounded(forest: Seq<AnnotatedAst>, limit: int) -> bool {
    forall|i: int| 0 <= i < forest.len() ==> #[trigger] forest[i].span.end <= limit
}

/// A raw token stream as the data model demands it: spans non-empty and
/// well formed, in strictly increasing source order without overlap, and
/// ending within `limit`.
pub open spec fn wf_tokens(tokens: Seq<Token>, limit: int) -> bool {
    (forall|i: int|
        0 <= i < tokens.len() ==> (#[trigger] tokens[i].span).start < tokens[i].span.end
            && tokens[i].span.end <= limit) && (forall|i: int|
        0 <= i < tokens.len() - 1 ==> #[trigger] tokens[i].span.end <= tokens[i + 1].span.start)
}


// ---------------------------------------------------------------------------
// Runtime checks of the well-formedness invariants. The analysis results
// cross into the library from an unverified producer; a document only keeps
// what passes these checks, so every query can rely on the invariants.
// ---------------------------------------------------------------------------
fn check_token(t: &Token, outer: Span) -> (r: bool)
    ensures
        r == wf_token(*t, outer),
{
    t.span.start < t.span.end && outer.start <= t.span.start && t.span.end <= outer.end
}

fn check_within(inner: Span, outer: Span) -> (r: bool)
    ensures
        r == inner.spec_within(outer),
{
    outer.start <= inner.start && inner.end <= outer.end
}

/// Checks the pattern invariants: spans in order, contained, not backwards.
pub fn check_wf_pattern(p: &AnnotatedPattern) -> (r: bool)
    ensures
        r == wf_pattern(*p),
    decreases *p,
{
    if !(p.span.start <= p.span.end) {
        return false;
    }
    match &p.pattern {
        Pattern::Var(tok) => check_token(tok, p.span),
        Pattern::Tuple(items) => {
            proof {
                assert(items@.skip(0) =~= items@);
            }
            check_wf_subpatterns(items, 0, p.span)
        },
    }
}

fn check_wf_subpatterns(items: &Vec<AnnotatedPattern>, k: usize, outer: Span) -> (r: bool)
    requires
        k <= items@.len(),
    ensures
        r == wf_subpatterns(items@.skip(k as int), outer),
    decreases items@.skip(k as int),
{
    if k == items.len() {
        proof {
            assert(items@.skip(k as int) =~= Seq::<AnnotatedPattern>::empty());
        }
        true
    } else {
        proof {
            assert(items@.skip(k as int)[0] == items@[k as int]);
            assert(items@.skip(k as int).drop_first() =~= items@.skip(k as int + 1));
            if items@.len() - k > 1 {
                assert(items@.skip(k as int)[1] == items@[k as int + 1]);
            }
        }
        let head_ok: bool = check_wf_pattern(&items[k]) && check_within(items[k].span, outer);
        if !head_ok {
            return false;
        }
        if k + 1 < items.len() {
            if !(items[k].span.end <= items[k + 1].span.start) {
                return false;
            }
        }
        check_wf_subpatterns(items, k + 1, outer)
    }
}

/// Checks the node invariants: every constituent inside the node's span and
/// in source order, recursively.
pub fn check_wf_ast(a: &AnnotatedAst) -> (r: bool)
    ensures
        r == wf_ast(*a),
    decreases *a,
{
    if !(a.span.start <= a.span.end) {
        return false;
    }
    match &a.node {
        Ast::Error => true,
        Ast::Literal(tok) => check_token(tok, a.span),
        Ast::Variable(tok) => check_token(tok, a.span),
        Ast::Comment(tok) => check_token(tok, a.span),
        Ast::Annotation(tok) => check_token(tok, a.span),
        Ast::Declaration(pat, _def, ann, _eq, val) => {
            if !(check_wf_pattern(pat) && check_within(pat.span, a.span)) {
                return false;
            }
            let ann_ok: bool = match ann {
                Some(t) => check_wf_ast(t) && check_within(t.span, a.span) && t.span.start
                    < t.span.end && pat.span.end <= t.span.start,
                None => true,
            };
            if !ann_ok {
                return false;
            }
            match val {
                Some(v) => {
                    let after: bool = match ann {
                        Some(t) => t.span.end <= v.span.start,
                        None => true,
                    };
                    check_wf_ast(v) && check_within(v.span, a.span) && pat.span.end
                        <= v.span.start && after
                },
                None => true,
            }
        },
        Ast::Call(caller, args) => {
            if !(check_wf_ast(caller) && check_within(caller.span, a.span)) {
                return false;
            }
            proof {
                assert(args@.skip(0) =~= args@);
            }
            if !check_wf_children(args, 0, a.span) {
                return false;
            }
            if args.len() > 0 {
                caller.span.end <= args[0].span.start
            } else {
                true
            }
        },
        Ast::Binary(l, op, r) => {
            check_wf_ast(l) && check_within(l.span, a.span) && check_token(op, a.span)
                && check_wf_ast(r) && check_within(r.span, a.span) && l.span.end <= op.span.start
                && op.span.end <= r.span.start
        },
        Ast::While(kw, cond, body) => {
            check_token(kw, a.span) && check_wf_ast(cond) && check_within(cond.span, a.span)
                && check_wf_ast(body) && check_within(body.span, a.span) && kw.span.end
                <= cond.span.start && cond.span.end <= body.span.start
        },
        Ast::If(kw, cond, then_body, else_kw, else_body) => {
            if !(check_token(kw, a.span) && check_wf_ast(cond) && check_within(cond.span, a.span)
                && check_wf_ast(then_body) && check_within(then_body.span, a.span)
                && check_wf_ast(else_body) && check_within(else_body.span, a.span) && kw.span.end
                <= cond.span.start && cond.span.end <= then_body.span.start) {
                return false;
            }
            match else_kw {
                Some(k) => check_token(k, a.span) && then_body.span.end <= k.span.start
                    && k.span.end <= else_body.span.start,
                None => then_body.span.end <= else_body.span.start,
            }
        },
        Ast::Tuple(items) => {
            proof {
                assert(items@.skip(0) =~= items@);
            }
            check_wf_children(items, 0, a.span)
        },
        Ast::Block(items) => {
            proof {
                assert(items@.skip(0) =~= items@);
            }
            check_wf_children(items, 0, a.span)
        },
        Ast::Lambda(args, op, body) => {
            if !(check_token(op, a.span) && check_wf_ast(body) && check_within(body.span, a.span))
            {
                return false;
            }
            proof {
                assert(args@.skip(0) =~= args@);
            }
            if !check_wf_children(args, 0, a.span) {
                return false;
            }
            if args.len() > 0 {
                op.span.end <= args[0].span.start && args[args.len() - 1].span.end
                    <= body.span.start
            } else {
                op.span.end <= body.span.start
            }
        },
    }
}

fn check_wf_children(items: &Vec<AnnotatedAst>, k: usize, outer: Span) -> (r: bool)
    requires
        k <= items@.len(),
    ensures
        r == wf_children(items@.skip(k as int), outer),
    decreases items@.skip(k as int),
{
    if k == items.len() {
        proof {
            assert(items@.skip(k as int) =~= Seq::<AnnotatedAst>::empty());
        }
        true
    } else {
        proof {
            assert(items@.skip(k as int)[0] == items@[k as int]);
            assert(items@.skip(k as int).drop_first() =~= items@.skip(k as int + 1));
            if items@.len() - k > 1 {
                assert(items@.skip(k as int)[1] == items@[k as int + 1]);
            }
        }
        let head_ok: bool = check_wf_ast(&items[k]) && check_within(items[k].span, outer);
        if !head_ok {
            return false;
        }
        if k + 1 < items.len() {
            if !(items[k].span.end <= items[k + 1].span.start) {
                return false;
            }
        }
        check_wf_children(items, k + 1, outer)
    }
}

/// Checks a whole forest: each node well formed, in source order, and
/// ending within `limit`.
pub fn check_wf_forest(forest: &Vec<AnnotatedAst>, limit: usize) -> (r: bool)
    ensures
        r == (wf_forest(forest@) && forest_bounded(forest@, limit as int)),
{
    proof {
        assert(forest@.skip(0) =~= forest@);
    }
    if !check_wf_forest_from(forest, 0) {
        return false;
    }
    let mut k: usize = 0;
    while k < forest.len()
        invariant
            k <= forest@.len(),
            wf_forest(forest@),
            forall|i: int| 0 <= i < k ==> (#[trigger] forest@[i]).span.end <= limit,
        decreases forest@.len() - k,
    {
        if !(forest[k].span.end <= limit) {
            proof {
                assert(!forest_bounded(forest@, limit as int));
            }
            return false;
        }
        k = k + 1;
    }
    true
}

fn check_wf_forest_from(forest: &Vec<AnnotatedAst>, k: usize) -> (r: bool)
    requires
        k <= forest@.len(),
    ensures
        r == wf_forest(forest@.skip(k as int)),
    decreases forest@.skip(k as int),
{
    if k == forest.len() {
        proof {
            assert(forest@.skip(k as int) =~= Seq::<AnnotatedAst>::empty());
        }
        true
    } else {
        proof {
            assert(forest@.skip(k as int)[0] == forest@[k as int]);
            assert(forest@.skip(k as int).drop_first() =~= forest@.skip(k as int + 1));
            if forest@.len() - k > 1 {
                assert(forest@.skip(k as int)[1] == forest@[k as int + 1]);
            }
        }
        if !check_wf_ast(&forest[k]) {
            return false;
        }
        if k + 1 < forest.len() {
            if !(forest[k].span.end <= forest[k + 1].span.start) {
                return false;
            }
        }
        check_wf_forest_from(forest, k + 1)
    }
}

/// Checks the token-stream invariant: non-empty spans in strictly
/// increasing order, ending within `limit`.
pub fn check_tokens(tokens: &Vec<Token>, limit: usize) -> (r: bool)
    ensures
        r == wf_tokens(tokens@, limit as int),
{
    let mut k: usize = 0;
    while k < tokens.len()
        invariant
            k <= tokens@.len(),
            forall|i: int|
                0 <= i < k ==> (#[trigger] tokens@[i].span).start < tokens@[i].span.end && tokens@[
                i].span.end <= limit,
            forall|i: int|
                0 <= i < k - 1 ==> #[trigger] tokens@[i].span.end <= tokens@[i + 1].span.start,
        decreases tokens@.len() - k,
    {
        if !(tokens[k].span.start < tokens[k].span.end && tokens[k].span.end <= limit) {
            proof {
                assert(!wf_tokens(tokens@, limit as int));
            }
            return false;
        }
        if k > 0 {
            if !(tokens[k - 1].span.end <= tokens[k].span.start) {
                proof {
                    assert(!wf_tokens(tokens@, limit as int));
                }
                return false;
            }
        }
        k = k + 1;
    }
    true
}

} // verus!
