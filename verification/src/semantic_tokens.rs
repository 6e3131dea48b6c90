use vstd::prelude::*;
use crate::ast::{AnnotatedAst, AnnotatedPattern, Ast, Pattern, Token, TokenKind};
use crate::span::Span;
use crate::types::{spec_is_function, Ty, TypeTable};
use crate::ast::{forest_bounded, wf_ast, wf_children, wf_forest, wf_pattern, wf_subpatterns, wf_tokens};
use crate::types::is_function_shape;

verus! {

/// The highlighting categories of the fixed legend. The declaration order
/// fixes the wire ids for the whole session; it must match the legend the
/// client was handed at initialization.
#[derive(Clone, Copy, PartialEq, Eq, Structural, Debug)]
pub enum Category {
    Function,
    Variable,
    Str,
    Comment,
    Number,
    Keyword,
    Operator,
    Parameter,
    Type,
    EnumMember,
}

/// The wire id of a category: its index in the legend.
pub open spec fn spec_category_id(c: Category) -> int {
    match c {
        Category::Function => 0,
        Category::Variable => 1,
        Category::Str => 2,
        Category::Comment => 3,
        Category::Number => 4,
        Category::Keyword => 5,
        Category::Operator => 6,
        Category::Parameter => 7,
        Category::Type => 8,
        Category::EnumMember => 9,
    }
}

pub fn category_id(c: Category) -> (r: u32)
    ensures
        r == spec_category_id(c),
{
    match c {
        Category::Function => 0,
        Category::Variable => 1,
        Category::Str => 2,
        Category::Comment => 3,
        Category::Number => 4,
        Category::Keyword => 5,
        Category::Operator => 6,
        Category::Parameter => 7,
        Category::Type => 8,
        Category::EnumMember => 9,
    }
}

/// An uncovered grammar variant or a missing inferred type: an internal
/// consistency failure of the classifier, surfaced to the caller instead of
/// being silently skipped.
#[derive(Clone, Copy, PartialEq, Eq, Structural, Debug)]
pub struct ClassifyError {}

impl ClassifyError {
    pub fn new() -> (r: ClassifyError) {
        ClassifyError {  }
    }
}

// ---------------------------------------------------------------------------
// Ordering of an emitted category/span sequence
// ---------------------------------------------------------------------------
/// The emitted spans are non-empty and consecutive entries do not overlap
/// and come in increasing order.
pub open spec fn cats_ordered(s: Seq<(Category, Span)>) -> bool {
    (forall|i: int| 0 <= i < s.len() ==> (#[trigger] s[i]).1.start < s[i].1.end) && (forall|i: int|
        0 <= i < s.len() - 1 ==> (#[trigger] s[i]).1.end <= s[i + 1].1.start)
}

/// Every emitted span lies inside `outer`.
pub open spec fn cats_within(s: Seq<(Category, Span)>, outer: Span) -> bool {
    forall|i: int|
        0 <= i < s.len() ==> outer.start <= (#[trigger] s[i]).1.start && s[i].1.end <= outer.end
}

/// Every emitted span ends within `limit`.
pub open spec fn cats_bounded(s: Seq<(Category, Span)>, limit: int) -> bool {
    forall|i: int| 0 <= i < s.len() ==> (#[trigger] s[i]).1.end <= limit
}

/// Adjacent ordering extends to every pair: the sequence is strictly
/// increasing in start offset and pairwise non-overlapping.
pub proof fn lemma_cats_pairwise(s: Seq<(Category, Span)>, i: int, j: int)
    requires
        cats_ordered(s),
        0 <= i < j < s.len(),
    ensures
        s[i].1.end <= s[j].1.start,
        s[i].1.start < s[j].1.start,
    decreases j - i,
{
    if i + 1 < j {
        lemma_cats_pairwise(s, i + 1, j);
    }
}

proof fn lemma_cats_concat(s1: Seq<(Category, Span)>, s2: Seq<(Category, Span)>)
    requires
        cats_ordered(s1),
        cats_ordered(s2),
        s1.len() > 0 && s2.len() > 0 ==> s1[s1.len() - 1].1.end <= s2[0].1.start,
    ensures
        cats_ordered(s1 + s2),
{
    assert forall|i: int| 0 <= i < (s1 + s2).len() implies ((s1 + s2)[i]).1.start < (s1
        + s2)[i].1.end by {
        if i < s1.len() {
            assert((s1 + s2)[i] == s1[i]);
        } else {
            assert((s1 + s2)[i] == s2[i - s1.len()]);
        }
    }
    assert forall|i: int| 0 <= i < (s1 + s2).len() - 1 implies ((s1 + s2)[i]).1.end <= (s1 + s2)[i
        + 1].1.start by {
        if i + 1 < s1.len() {
            assert((s1 + s2)[i] == s1[i]);
            assert((s1 + s2)[i + 1] == s1[i + 1]);
        } else if i + 1 == s1.len() {
            assert((s1 + s2)[i] == s1[i]);
            assert((s1 + s2)[i + 1] == s2[0]);
        } else {
            assert((s1 + s2)[i] == s2[i - s1.len()]);
            assert((s1 + s2)[i + 1] == s2[i + 1 - s1.len()]);
        }
    }
}

// ---------------------------------------------------------------------------
// Lexical fallback classification
// ---------------------------------------------------------------------------
/// The category of one raw token, used when no syntax tree is available:
/// literals and identifiers keep their lexical class, booleans and reserved
/// words color as keywords, and punctuation is dropped.
pub open spec fn lexical_cat(k: TokenKind) -> Option<Category> {
    match k {
        TokenKind::Number => Some(Category::Number),
        TokenKind::Text => Some(Category::Str),
        TokenKind::Ident => Some(Category::Variable),
        TokenKind::Bool => Some(Category::Keyword),
        TokenKind::Keyword => Some(Category::Keyword),
        TokenKind::Op(_) => Some(Category::Operator),
        TokenKind::Comment => Some(Category::Comment),
        TokenKind::Ctrl => None,
    }
}

/// The lexical classification of a whole token stream, in stream order.
pub open spec fn lexical_spec(tokens: Seq<Token>) -> Seq<(Category, Span)>
    decreases tokens,
{
    if tokens.len() == 0 {
        Seq::empty()
    } else {
        (match lexical_cat(tokens[0].kind) {
            Some(c) => seq![(c, tokens[0].span)],
            None => Seq::empty(),
        }) + lexical_spec(tokens.drop_first())
    }
}

/// Classifies a raw token stream directly by token kind, the fallback when
/// parsing failed and no syntax tree exists.
pub fn classify_tokens(tokens: &Vec<Token>) -> (r: Vec<(Category, Span)>)
    ensures
        r@ == lexical_spec(tokens@),
{
    let mut out: Vec<(Category, Span)> = Vec::new();
    let mut k: usize = 0;
    proof {
        assert(tokens@.skip(0) =~= tokens@);
        assert(out@ + lexical_spec(tokens@) =~= lexical_spec(tokens@));
    }
    while k < tokens.len()
        invariant
            k <= tokens@.len(),
            out@ + lexical_spec(tokens@.skip(k as int)) == lexical_spec(tokens@),
        decreases tokens@.len() - k,
    {
        proof {
            assert(tokens@.skip(k as int)[0] == tokens@[k as int]);
            assert(tokens@.skip(k as int).drop_first() =~= tokens@.skip(k as int + 1));
        }
        let cat: Option<Category> = match &tokens[k].kind {
            TokenKind::Number => Some(Category::Number),
            TokenKind::Text => Some(Category::Str),
            TokenKind::Ident => Some(Category::Variable),
            TokenKind::Bool => Some(Category::Keyword),
            TokenKind::Keyword => Some(Category::Keyword),
            TokenKind::Op(_) => Some(Category::Operator),
            TokenKind::Comment => Some(Category::Comment),
            TokenKind::Ctrl => None,
        };
        match cat {
            Some(c) => {
                out.push((c, tokens[k].span));
                proof {
                    assert(out@ + lexical_spec(tokens@.skip(k as int + 1)) =~= lexical_spec(
                        tokens@,
                    ));
                }
            },
            None => {
                proof {
                    assert(out@ + lexical_spec(tokens@.skip(k as int + 1)) =~= lexical_spec(
                        tokens@,
                    ));
                }
            },
        }
        k = k + 1;
    }
    proof {
        assert(tokens@.skip(tokens@.len() as int) =~= Seq::<Token>::empty());
        assert(out@ =~= lexical_spec(tokens@));
    }
    out
}

/// A well-formed token stream classifies into an ordered, bounded sequence.
pub proof fn lemma_lexical_sorted(tokens: Seq<Token>, limit: int)
    requires
        wf_tokens(tokens, limit),
    ensures
        cats_ordered(lexical_spec(tokens)),
        cats_bounded(lexical_spec(tokens), limit),
        lexical_spec(tokens).len() > 0 ==> tokens.len() > 0 && tokens[0].span.start
            <= lexical_spec(tokens)[0].1.start,
    decreases tokens,
{
    if tokens.len() > 0 {
        let rest = tokens.drop_first();
        assert(wf_tokens(rest, limit)) by {
            assert(forall|i: int|
                0 <= i < rest.len() ==> #[trigger] rest[i] == tokens[i + 1]);
        }
        lemma_lexical_sorted(rest, limit);
        let own: Seq<(Category, Span)> = match lexical_cat(tokens[0].kind) {
            Some(c) => seq![(c, tokens[0].span)],
            None => Seq::empty(),
        };
        assert(cats_ordered(own));
        if own.len() > 0 && lexical_spec(rest).len() > 0 {
            assert(rest.len() > 0 && rest[0].span.start <= lexical_spec(rest)[0].1.start);
            assert(tokens[0].span.end <= tokens[1].span.start);
            assert(rest[0] == tokens[1]);
            assert(own[own.len() - 1].1.end <= lexical_spec(rest)[0].1.start);
        }
        lemma_cats_concat(own, lexical_spec(rest));
        assert(cats_bounded(own + lexical_spec(rest), limit)) by {
            assert(forall|i: int|
                0 <= i < lexical_spec(rest).len() ==> ((own + lexical_spec(rest))[own.len() + i])
                    == lexical_spec(rest)[i]);
        }
    }
}

// ---------------------------------------------------------------------------
// Structural classification
// ---------------------------------------------------------------------------
/// The surface names of the word-form logical operators, colored as
/// keywords rather than operators.
pub open spec fn is_logical_name(s: Seq<u8>) -> bool {
    s == seq![97u8, 110u8, 100u8] || s == seq![111u8, 114u8] || s == seq![110u8, 111u8, 116u8]
}

fn is_logical_word(name: &Vec<u8>) -> (r: bool)
    ensures
        r == is_logical_name(name@),
{
    if name.len() == 2 {
        let ok: bool = name[0] == 111 && name[1] == 114;
        proof {
            if ok {
                assert(name@ =~= seq![111u8, 114u8]);
            } else {
                assert(name@ != seq![111u8, 114u8]);
            }
            assert(name@.len() == 2 ==> name@ != seq![97u8, 110u8, 100u8] && name@ != seq![
                110u8,
                111u8,
                116u8,
            ]);
        }
        ok
    } else if name.len() == 3 {
        let is_and: bool = name[0] == 97 && name[1] == 110 && name[2] == 100;
        let is_not: bool = name[0] == 110 && name[1] == 111 && name[2] == 116;
        proof {
            if is_and {
                assert(name@ =~= seq![97u8, 110u8, 100u8]);
            } else {
                assert(name@ != seq![97u8, 110u8, 100u8]);
            }
            if is_not {
                assert(name@ =~= seq![110u8, 111u8, 116u8]);
            } else {
                assert(name@ != seq![110u8, 111u8, 116u8]);
            }
            assert(name@.len() == 3 ==> name@ != seq![111u8, 114u8]);
        }
        is_and || is_not
    } else {
        proof {
            assert(name@.len() != 2 && name@.len() != 3 ==> !is_logical_name(name@));
        }
        false
    }
}

/// Whether every variant and every leaf the structural walk meets has a
/// classification rule: literal and variable tokens of the right lexical
/// kind, a resolved type on every name, an operator token on every binary
/// node, and no stray annotation node. A gap is an internal-consistency
/// failure, never silently skipped.
pub open spec fn classify_ok_ast(a: AnnotatedAst) -> bool
    decreases a,
{
    match a.node {
        Ast::Error => true,
        Ast::Literal(tok) => tok.kind is Bool || tok.kind is Number || tok.kind is Text,
        Ast::Variable(tok) => tok.kind is Ident && a.ty is Some,
        Ast::Declaration(pat, _def, _ann, _eq, val) => classify_ok_pattern(pat) && (match val {
            Some(v) => classify_ok_ast(*v),
            None => true,
        }),
        Ast::Call(caller, args) => classify_ok_ast(*caller) && classify_ok_seq(args@),
        Ast::Binary(l, op, r) => classify_ok_ast(*l) && op.kind is Op && classify_ok_ast(*r),
        Ast::While(_kw, cond, body) => classify_ok_ast(*cond) && classify_ok_ast(*body),
        Ast::If(_kw, cond, then_body, _else_kw, else_body) => classify_ok_ast(*cond)
            && classify_ok_ast(*then_body) && classify_ok_ast(*else_body),
        Ast::Tuple(items) => classify_ok_seq(items@),
        Ast::Block(items) => classify_ok_seq(items@),
        Ast::Lambda(args, _op, body) => classify_ok_seq(args@) && classify_ok_ast(*body),
        Ast::Comment(_) => true,
        Ast::Annotation(_) => false,
    }
}

pub open spec fn classify_ok_seq(items: Seq<AnnotatedAst>) -> bool
    decreases items,
{
    if items.len() == 0 {
        true
    } else {
        classify_ok_ast(items[0]) && classify_ok_seq(items.drop_first())
    }
}

pub open spec fn classify_ok_pattern(p: AnnotatedPattern) -> bool
    decreases p,
{
    match p.pattern {
        Pattern::Var(_) => p.ty is Some,
        Pattern::Tuple(items) => classify_ok_pat_seq(items@),
    }
}

pub open spec fn classify_ok_pat_seq(items: Seq<AnnotatedPattern>) -> bool
    decreases items,
{
    if items.len() == 0 {
        true
    } else {
        classify_ok_pattern(items[0]) && classify_ok_pat_seq(items.drop_first())
    }
}

/// The category of a name: a function shape colors as a function, anything
/// else as a variable.
pub open spec fn name_cat(t: Ty, table: Seq<Ty>) -> Category {
    if spec_is_function(t, table) {
        Category::Function
    } else {
        Category::Variable
    }
}

/// The structural classification of one node: one category/span entry per
/// semantically meaningful leaf, emitted in source order.
pub open spec fn classify_ast(a: AnnotatedAst, table: Seq<Ty>) -> Seq<(Category, Span)>
    decreases a,
{
    match a.node {
        Ast::Error => Seq::empty(),
        Ast::Literal(tok) => {
            if tok.kind is Bool {
                seq![(Category::EnumMember, tok.span)]
            } else if tok.kind is Number {
                seq![(Category::Number, tok.span)]
            } else if tok.kind is Text {
                seq![(Category::Str, tok.span)]
            } else {
                Seq::empty()
            }
        },
        Ast::Variable(tok) => {
            match a.ty {
                Some(t) => seq![(name_cat(t, table), tok.span)],
                None => Seq::empty(),
            }
        },
        Ast::Declaration(pat, _def, ann, _eq, val) => {
            classify_pattern(pat, table) + (match ann {
                Some(t) => seq![(Category::Type, t.span)],
                None => Seq::empty(),
            }) + (match val {
                Some(v) => classify_ast(*v, table),
                None => Seq::empty(),
            })
        },
        Ast::Call(caller, args) => classify_ast(*caller, table) + classify_seq(args@, table),
        Ast::Binary(l, op, r) => {
            let op_cat: Category = match op.kind {
                TokenKind::Op(name) => if is_logical_name(name@) {
                    Category::Keyword
                } else {
                    Category::Operator
                },
                _ => Category::Operator,
            };
            classify_ast(*l, table) + seq![(op_cat, op.span)] + classify_ast(*r, table)
        },
        Ast::While(kw, cond, body) => seq![(Category::Keyword, kw.span)] + classify_ast(
            *cond,
            table,
        ) + classify_ast(*body, table),
        Ast::If(kw, cond, then_body, else_kw, else_body) => seq![(Category::Keyword, kw.span)]
            + classify_ast(*cond, table) + classify_ast(*then_body, table) + (match else_kw {
            Some(k) => seq![(Category::Keyword, k.span)],
            None => Seq::empty(),
        }) + classify_ast(*else_body, table),
        Ast::Tuple(items) => classify_seq(items@, table),
        Ast::Block(items) => classify_seq(items@, table),
        Ast::Lambda(args, op, body) => seq![(Category::Operator, op.span)] + classify_seq(
            args@,
            table,
        ) + classify_ast(*body, table),
        Ast::Comment(tok) => seq![(Category::Comment, tok.span)],
        Ast::Annotation(_) => Seq::empty(),
    }
}

pub open spec fn classify_seq(items: Seq<AnnotatedAst>, table: Seq<Ty>) -> Seq<(Category, Span)>
    decreases items,
{
    if items.len() == 0 {
        Seq::empty()
    } else {
        classify_ast(items[0], table) + classify_seq(items.drop_first(), table)
    }
}

/// The classification of a binding pattern: one entry per bound name,
/// colored by the resolved type's shape.
pub open spec fn classify_pattern(p: AnnotatedPattern, table: Seq<Ty>) -> Seq<(Category, Span)>
    decreases p,
{
    match p.pattern {
        Pattern::Var(tok) => match p.ty {
            Some(t) => seq![(name_cat(t, table), tok.span)],
            None => Seq::empty(),
        },
        Pattern::Tuple(items) => classify_pat_seq(items@, table),
    }
}

pub open spec fn classify_pat_seq(items: Seq<AnnotatedPattern>, table: Seq<Ty>) -> Seq<
    (Category, Span),
>
    decreases items,
{
    if items.len() == 0 {
        Seq::empty()
    } else {
        classify_pattern(items[0], table) + classify_pat_seq(items.drop_first(), table)
    }
}

/// The classification of a whole forest, in source order.
pub open spec fn classify_forest(forest: Seq<AnnotatedAst>, table: Seq<Ty>) -> Seq<
    (Category, Span),
>
    decreases forest,
{
    if forest.len() == 0 {
        Seq::empty()
    } else {
        classify_ast(forest[0], table) + classify_forest(forest.drop_first(), table)
    }
}

pub open spec fn classify_ok_forest(forest: Seq<AnnotatedAst>) -> bool
    decreases forest,
{
    if forest.len() == 0 {
        true
    } else {
        classify_ok_ast(forest[0]) && classify_ok_forest(forest.drop_first())
    }
}

proof fn lemma_prefix_extend(a: Seq<(Category, Span)>, b: Seq<(Category, Span)>)
    ensures
        a.is_prefix_of(a + b),
{
    assert(a =~= (a + b).subrange(0, a.len() as int));
}

proof fn lemma_prefix_trans(
    a: Seq<(Category, Span)>,
    b: Seq<(Category, Span)>,
    c: Seq<(Category, Span)>,
)
    requires
        a.is_prefix_of(b),
        b.is_prefix_of(c),
    ensures
        a.is_prefix_of(c),
{
    assert(a =~= c.subrange(0, a.len() as int));
}

/// Classifies the bound names of a pattern into `tokens`, one entry per
/// name, colored by the shape of its resolved type. Fails, leaving any
/// partial output behind, when a name has no resolved type.
pub fn make_tokens_of_pattern(
    pattern: &AnnotatedPattern,
    type_table: &TypeTable,
    tokens: &mut Vec<(Category, Span)>,
) -> (r: Result<(), ClassifyError>)
    ensures
        r is Ok <==> classify_ok_pattern(*pattern),
        r is Ok ==> final(tokens)@ == old(tokens)@ + classify_pattern(*pattern, type_table@),
        old(tokens)@.is_prefix_of(final(tokens)@),
    decreases *pattern,
{
    match &pattern.pattern {
        Pattern::Var(tok) => {
            match &pattern.ty {
                Some(t) => {
                    let cat: Category = if is_function_shape(t, type_table) {
                        Category::Function
                    } else {
                        Category::Variable
                    };
                    proof {
                        lemma_prefix_extend(tokens@, seq![(name_cat(pattern.ty->0, type_table@), tok.span)]);
                    }
                    tokens.push((cat, tok.span));
                    proof {
                        assert(final(tokens)@ =~= old(tokens)@ + classify_pattern(
                            *pattern,
                            type_table@,
                        ));
                    }
                    Ok(())
                },
                None => {
                    proof {
                        lemma_prefix_extend(tokens@, Seq::empty());
                        assert(tokens@ + Seq::<(Category, Span)>::empty() =~= tokens@);
                    }
                    Err(ClassifyError::new())
                },
            }
        },
        Pattern::Tuple(items) => {
            proof {
                assert(items@.skip(0) =~= items@);
            }
            make_tokens_of_pat_seq(items, 0, type_table, tokens)
        },
    }
}

fn make_tokens_of_pat_seq(
    items: &Vec<AnnotatedPattern>,
    k: usize,
    type_table: &TypeTable,
    tokens: &mut Vec<(Category, Span)>,
) -> (r: Result<(), ClassifyError>)
    requires
        k <= items@.len(),
    ensures
        r is Ok <==> classify_ok_pat_seq(items@.skip(k as int)),
        r is Ok ==> final(tokens)@ == old(tokens)@ + classify_pat_seq(
            items@.skip(k as int),
            type_table@,
        ),
        old(tokens)@.is_prefix_of(final(tokens)@),
    decreases items@.skip(k as int),
{
    if k == items.len() {
        proof {
            assert(items@.skip(k as int) =~= Seq::<AnnotatedPattern>::empty());
            assert(tokens@ + Seq::<(Category, Span)>::empty() =~= tokens@);
            lemma_prefix_extend(tokens@, Seq::empty());
        }
        Ok(())
    } else {
        proof {
            assert(items@.skip(k as int)[0] == items@[k as int]);
            assert(items@.skip(k as int).drop_first() =~= items@.skip(k as int + 1));
        }
        let ghost before: Seq<(Category, Span)> = tokens@;
        let head: Result<(), ClassifyError> = make_tokens_of_pattern(
            &items[k],
            type_table,
            tokens,
        );
        match head {
            Err(e) => Err(e),
            Ok(()) => {
                let ghost mid: Seq<(Category, Span)> = tokens@;
                let rest: Result<(), ClassifyError> = make_tokens_of_pat_seq(
                    items,
                    k + 1,
                    type_table,
                    tokens,
                );
                proof {
                    lemma_prefix_trans(before, mid, tokens@);
                    if rest is Ok {
                        assert(tokens@ =~= before + classify_pat_seq(
                            items@.skip(k as int),
                            type_table@,
                        ));
                    }
                }
                rest
            },
        }
    }
}

/// Classifies one node of the syntax tree into `tokens`, one entry per
/// semantically meaningful leaf, in source order. Fails, leaving any
/// partial output behind, on a variant with no classification rule or a
/// name with no resolved type.
#[verifier::rlimit(100)]
pub fn make_tokens_of_ast(
    node: &AnnotatedAst,
    type_table: &TypeTable,
    tokens: &mut Vec<(Category, Span)>,
) -> (r: Result<(), ClassifyError>)
    ensures
        r is Ok <==> classify_ok_ast(*node),
        r is Ok ==> final(tokens)@ == old(tokens)@ + classify_ast(*node, type_table@),
        old(tokens)@.is_prefix_of(final(tokens)@),
    decreases *node,
{
    match &node.node {
        Ast::Error => {
            proof {
                assert(tokens@ + Seq::<(Category, Span)>::empty() =~= tokens@);
                lemma_prefix_extend(tokens@, Seq::empty());
            }
            Ok(())
        },
        Ast::Annotation(_) => {
            proof {
                lemma_prefix_extend(tokens@, Seq::empty());
                assert(tokens@ + Seq::<(Category, Span)>::empty() =~= tokens@);
            }
            Err(ClassifyError::new())
        },
        Ast::Comment(tok) => {
            proof {
                lemma_prefix_extend(tokens@, seq![(Category::Comment, tok.span)]);
            }
            tokens.push((Category::Comment, tok.span));
            proof {
                assert(final(tokens)@ =~= old(tokens)@ + classify_ast(*node, type_table@));
            }
            Ok(())
        },
        Ast::Literal(tok) => {
            let cat: Option<Category> = match &tok.kind {
                TokenKind::Bool => Some(Category::EnumMember),
                TokenKind::Number => Some(Category::Number),
                TokenKind::Text => Some(Category::Str),
                _ => None,
            };
            match cat {
                Some(c) => {
                    proof {
                        lemma_prefix_extend(tokens@, seq![(c, tok.span)]);
                    }
                    tokens.push((c, tok.span));
                    proof {
                        assert(final(tokens)@ =~= old(tokens)@ + classify_ast(*node, type_table@));
                    }
                    Ok(())
                },
                None => {
                    proof {
                        lemma_prefix_extend(tokens@, Seq::empty());
                        assert(tokens@ + Seq::<(Category, Span)>::empty() =~= tokens@);
                    }
                    Err(ClassifyError::new())
                },
            }
        },
        Ast::Variable(tok) => {
            let is_ident: bool = match &tok.kind {
                TokenKind::Ident => true,
                _ => false,
            };
            if !is_ident {
                proof {
                    lemma_prefix_extend(tokens@, Seq::empty());
                    assert(tokens@ + Seq::<(Category, Span)>::empty() =~= tokens@);
                }
                return Err(ClassifyError::new());
            }
            match &node.ty {
                Some(t) => {
                    let cat: Category = if is_function_shape(t, type_table) {
                        Category::Function
                    } else {
                        Category::Variable
                    };
                    proof {
                        lemma_prefix_extend(tokens@, seq![(name_cat(node.ty->0, type_table@), tok.span)]);
                    }
                    tokens.push((cat, tok.span));
                    proof {
                        assert(final(tokens)@ =~= old(tokens)@ + classify_ast(*node, type_table@));
                    }
                    Ok(())
                },
                None => {
                    proof {
                        lemma_prefix_extend(tokens@, Seq::empty());
                        assert(tokens@ + Seq::<(Category, Span)>::empty() =~= tokens@);
                    }
                    Err(ClassifyError::new())
                },
            }
        },
        Ast::Declaration(pat, _def, ann, _eq, val) => {
            let ghost before: Seq<(Category, Span)> = tokens@;
            let head: Result<(), ClassifyError> = make_tokens_of_pattern(pat, type_table, tokens);
            match head {
                Err(e) => {
                    return Err(e);
                },
                Ok(()) => (),
            }
            match ann {
                Some(t) => {
                    proof {
                        lemma_prefix_extend(tokens@, seq![(Category::Type, t.span)]);
                    }
                    tokens.push((Category::Type, t.span));
                    proof {
                        assert(before.is_prefix_of(tokens@)) by {
                            assert(before =~= tokens@.subrange(0, before.len() as int));
                        }
                    }
                },
                None => (),
            }
            let ghost mid: Seq<(Category, Span)> = tokens@;
            proof {
                assert(mid =~= before + classify_pattern(*pat, type_table@) + (match *ann {
                    Some(t) => seq![(Category::Type, t.span)],
                    None => Seq::<(Category, Span)>::empty(),
                }));
                assert(before.is_prefix_of(mid)) by {
                    assert(before =~= mid.subrange(0, before.len() as int));
                }
            }
            match val {
                Some(v) => {
                    let rest: Result<(), ClassifyError> = make_tokens_of_ast(
                        v,
                        type_table,
                        tokens,
                    );
                    proof {
                        lemma_prefix_trans(before, mid, tokens@);
                        if rest is Ok {
                            assert(tokens@ =~= before + classify_ast(*node, type_table@));
                        }
                    }
                    rest
                },
                None => {
                    proof {
                        assert(tokens@ =~= before + classify_ast(*node, type_table@));
                    }
                    Ok(())
                },
            }
        },
        Ast::Call(caller, args) => {
            let ghost before: Seq<(Category, Span)> = tokens@;
            let head: Result<(), ClassifyError> = make_tokens_of_ast(caller, type_table, tokens);
            match head {
                Err(e) => {
                    return Err(e);
                },
                Ok(()) => (),
            }
            let ghost mid: Seq<(Category, Span)> = tokens@;
            proof {
                assert(args@.skip(0) =~= args@);
            }
            let rest: Result<(), ClassifyError> = make_tokens_of_seq(args, 0, type_table, tokens);
            proof {
                lemma_prefix_trans(before, mid, tokens@);
                if rest is Ok {
                    assert(tokens@ =~= before + classify_ast(*node, type_table@));
                }
            }
            rest
        },
        Ast::Binary(l, op, r) => {
            let op_cat: Option<Category> = match &op.kind {
                TokenKind::Op(name) => {
                    if is_logical_word(name) {
                        Some(Category::Keyword)
                    } else {
                        Some(Category::Operator)
                    }
                },
                _ => None,
            };
            let ghost before: Seq<(Category, Span)> = tokens@;
            let head: Result<(), ClassifyError> = make_tokens_of_ast(l, type_table, tokens);
            match head {
                Err(e) => {
                    return Err(e);
                },
                Ok(()) => (),
            }
            match op_cat {
                Some(c) => {
                    proof {
                        lemma_prefix_extend(tokens@, seq![(c, op.span)]);
                    }
                    tokens.push((c, op.span));
                    let ghost mid: Seq<(Category, Span)> = tokens@;
                    proof {
                        assert(before.is_prefix_of(mid)) by {
                            assert(before =~= mid.subrange(0, before.len() as int));
                        }
                    }
                    let rest: Result<(), ClassifyError> = make_tokens_of_ast(
                        r,
                        type_table,
                        tokens,
                    );
                    proof {
                        lemma_prefix_trans(before, mid, tokens@);
                        if rest is Ok {
                            assert(tokens@ =~= before + classify_ast(*node, type_table@));
                        }
                    }
                    rest
                },
                None => Err(ClassifyError::new()),
            }
        },
        Ast::While(kw, cond, body) => {
            let ghost before: Seq<(Category, Span)> = tokens@;
            proof {
                lemma_prefix_extend(tokens@, seq![(Category::Keyword, kw.span)]);
            }
            tokens.push((Category::Keyword, kw.span));
            let head: Result<(), ClassifyError> = make_tokens_of_ast(cond, type_table, tokens);
            proof {
                lemma_prefix_trans(before, before + seq![(Category::Keyword, kw.span)], tokens@);
            }
            match head {
                Err(e) => {
                    return Err(e);
                },
                Ok(()) => (),
            }
            let ghost mid: Seq<(Category, Span)> = tokens@;
            let rest: Result<(), ClassifyError> = make_tokens_of_ast(body, type_table, tokens);
            proof {
                lemma_prefix_trans(before, mid, tokens@);
                if rest is Ok {
                    assert(tokens@ =~= before + classify_ast(*node, type_table@));
                }
            }
            rest
        },
        Ast::If(kw, cond, then_body, else_kw, else_body) => {
            let ghost before: Seq<(Category, Span)> = tokens@;
            proof {
                lemma_prefix_extend(tokens@, seq![(Category::Keyword, kw.span)]);
            }
            tokens.push((Category::Keyword, kw.span));
            let head: Result<(), ClassifyError> = make_tokens_of_ast(cond, type_table, tokens);
            proof {
                lemma_prefix_trans(before, before + seq![(Category::Keyword, kw.span)], tokens@);
            }
            match head {
                Err(e) => {
                    return Err(e);
                },
                Ok(()) => (),
            }
            let ghost mid1: Seq<(Category, Span)> = tokens@;
            let then_res: Result<(), ClassifyError> = make_tokens_of_ast(
                then_body,
                type_table,
                tokens,
            );
            proof {
                lemma_prefix_trans(before, mid1, tokens@);
            }
            match then_res {
                Err(e) => {
                    return Err(e);
                },
                Ok(()) => (),
            }
            match else_kw {
                Some(k) => {
                    proof {
                        lemma_prefix_extend(tokens@, seq![(Category::Keyword, k.span)]);
                    }
                    tokens.push((Category::Keyword, k.span));
                },
                None => (),
            }
            let ghost mid2: Seq<(Category, Span)> = tokens@;
            proof {
                assert(before.is_prefix_of(mid2)) by {
                    assert(before =~= mid2.subrange(0, before.len() as int));
                }
            }
            let rest: Result<(), ClassifyError> = make_tokens_of_ast(
                else_body,
                type_table,
                tokens,
            );
            proof {
                lemma_prefix_trans(before, mid2, tokens@);
                if rest is Ok {
                    assert(tokens@ =~= before + classify_ast(*node, type_table@));
                }
            }
            rest
        },
        Ast::Tuple(items) => {
            proof {
                assert(items@.skip(0) =~= items@);
            }
            let rest: Result<(), ClassifyError> = make_tokens_of_seq(items, 0, type_table, tokens);
            proof {
                if rest is Ok {
                    assert(tokens@ =~= old(tokens)@ + classify_ast(*node, type_table@));
                }
            }
            rest
        },
        Ast::Block(items) => {
            proof {
                assert(items@.skip(0) =~= items@);
            }
            let rest: Result<(), ClassifyError> = make_tokens_of_seq(items, 0, type_table, tokens);
            proof {
                if rest is Ok {
                    assert(tokens@ =~= old(tokens)@ + classify_ast(*node, type_table@));
                }
            }
            rest
        },
        Ast::Lambda(args, op, body) => {
            let ghost before: Seq<(Category, Span)> = tokens@;
            proof {
                lemma_prefix_extend(tokens@, seq![(Category::Operator, op.span)]);
                assert(args@.skip(0) =~= args@);
            }
            tokens.push((Category::Operator, op.span));
            let head: Result<(), ClassifyError> = make_tokens_of_seq(args, 0, type_table, tokens);
            proof {
                lemma_prefix_trans(before, before + seq![(Category::Operator, op.span)], tokens@);
            }
            match head {
                Err(e) => {
                    return Err(e);
                },
                Ok(()) => (),
            }
            let ghost mid: Seq<(Category, Span)> = tokens@;
            let rest: Result<(), ClassifyError> = make_tokens_of_ast(body, type_table, tokens);
            proof {
                lemma_prefix_trans(before, mid, tokens@);
                if rest is Ok {
                    assert(tokens@ =~= before + classify_ast(*node, type_table@));
                }
            }
            rest
        },
    }
}

fn make_tokens_of_seq(
    items: &Vec<AnnotatedAst>,
    k: usize,
    type_table: &TypeTable,
    tokens: &mut Vec<(Category, Span)>,
) -> (r: Result<(), ClassifyError>)
    requires
        k <= items@.len(),
    ensures
        r is Ok <==> classify_ok_seq(items@.skip(k as int)),
        r is Ok ==> final(tokens)@ == old(tokens)@ + classify_seq(
            items@.skip(k as int),
            type_table@,
        ),
        old(tokens)@.is_prefix_of(final(tokens)@),
    decreases items@.skip(k as int),
{
    if k == items.len() {
        proof {
            assert(items@.skip(k as int) =~= Seq::<AnnotatedAst>::empty());
            assert(tokens@ + Seq::<(Category, Span)>::empty() =~= tokens@);
            lemma_prefix_extend(tokens@, Seq::empty());
        }
        Ok(())
    } else {
        proof {
            assert(items@.skip(k as int)[0] == items@[k as int]);
            assert(items@.skip(k as int).drop_first() =~= items@.skip(k as int + 1));
        }
        let ghost before: Seq<(Category, Span)> = tokens@;
        let head: Result<(), ClassifyError> = make_tokens_of_ast(&items[k], type_table, tokens);
        match head {
            Err(e) => Err(e),
            Ok(()) => {
                let ghost mid: Seq<(Category, Span)> = tokens@;
                let rest: Result<(), ClassifyError> = make_tokens_of_seq(
                    items,
                    k + 1,
                    type_table,
                    tokens,
                );
                proof {
                    lemma_prefix_trans(before, mid, tokens@);
                    if rest is Ok {
                        assert(tokens@ =~= before + classify_seq(
                            items@.skip(k as int),
                            type_table@,
                        ));
                    }
                }
                rest
            },
        }
    }
}

// ---------------------------------------------------------------------------
// Ordering of the structural classification
// ---------------------------------------------------------------------------
/// Containment in a range extends to any enclosing range.
proof fn lemma_within_widen(s: Seq<(Category, Span)>, inner: Span, outer: Span)
    requires
        cats_within(s, inner),
        outer.start <= inner.start,
        inner.end <= outer.end,
    ensures
        cats_within(s, outer),
{
}

/// Two ordered pieces over adjacent ranges concatenate into one ordered
/// piece over the joined range.
#[verifier::rlimit(100)]
proof fn lemma_two_pieces(
    s1: Seq<(Category, Span)>,
    o1: Span,
    s2: Seq<(Category, Span)>,
    o2: Span,
)
    requires
        cats_ordered(s1),
        cats_ordered(s2),
        cats_within(s1, o1),
        cats_within(s2, o2),
        o1.start <= o1.end,
        o2.start <= o2.end,
        o1.end <= o2.start,
    ensures
        cats_ordered(s1 + s2),
        cats_within(s1 + s2, Span { start: o1.start, end: o2.end }),
{
    if s1.len() > 0 && s2.len() > 0 {
        assert(s1[s1.len() - 1].1.end <= o1.end);
        assert(s2[0].1.start >= o2.start);
    }
    lemma_cats_concat(s1, s2);
    assert forall|i: int| 0 <= i < (s1 + s2).len() implies o1.start <= ((s1 + s2)[i]).1.start && ((
    s1 + s2)[i]).1.end <= o2.end by {
        if i < s1.len() {
            assert((s1 + s2)[i] == s1[i]);
        } else {
            assert((s1 + s2)[i] == s2[i - s1.len()]);
        }
    }
}

/// A well-formed pattern classifies into an ordered sequence whose spans
/// all lie inside the pattern's span.
pub proof fn lemma_classify_pattern_sorted(p: AnnotatedPattern, table: Seq<Ty>)
    requires
        wf_pattern(p),
    ensures
        cats_ordered(classify_pattern(p, table)),
        cats_within(classify_pattern(p, table), p.span),
        p.span.start <= p.span.end,
    decreases p,
{
    match p.pattern {
        Pattern::Var(tok) => {
        },
        Pattern::Tuple(items) => {
            lemma_classify_pat_seq_sorted(items@, table, p.span);
        },
    }
}

#[verifier::rlimit(100)]
proof fn lemma_classify_pat_seq_sorted(items: Seq<AnnotatedPattern>, table: Seq<Ty>, outer: Span)
    requires
        wf_subpatterns(items, outer),
    ensures
        cats_ordered(classify_pat_seq(items, table)),
        cats_within(classify_pat_seq(items, table), outer),
        items.len() > 0 ==> cats_within(
            classify_pat_seq(items, table),
            Span { start: items[0].span.start, end: items[items.len() - 1].span.end },
        ),
        items.len() > 0 ==> items[0].span.start <= items[items.len() - 1].span.end,
        items.len() > 0 ==> outer.start <= items[0].span.start && items[items.len()
            - 1].span.end <= outer.end,
    decreases items,
{
    if items.len() > 0 {
        let head = classify_pattern(items[0], table);
        let rest = classify_pat_seq(items.drop_first(), table);
        lemma_classify_pattern_sorted(items[0], table);
        lemma_classify_pat_seq_sorted(items.drop_first(), table, outer);
        if items.len() == 1 {
            assert(items.drop_first().len() == 0);
            assert(rest =~= Seq::<(Category, Span)>::empty());
            assert(head + rest =~= head);
        } else {
            assert(items.drop_first()[0] == items[1]);
            assert(items.drop_first()[items.drop_first().len() - 1] == items[items.len() - 1]);
            lemma_two_pieces(
                head,
                items[0].span,
                rest,
                Span { start: items[1].span.start, end: items[items.len() - 1].span.end },
            );
        }
        lemma_within_widen(
            head + rest,
            Span { start: items[0].span.start, end: items[items.len() - 1].span.end },
            outer,
        );
    }
}

/// A well-formed node classifies into an ordered sequence whose spans all
/// lie inside the node's span: the walk emits entries in strictly
/// increasing, non-overlapping span order.
#[verifier::rlimit(100)]
pub proof fn lemma_classify_ast_sorted(a: AnnotatedAst, table: Seq<Ty>)
    requires
        wf_ast(a),
    ensures
        cats_ordered(classify_ast(a, table)),
        cats_within(classify_ast(a, table), a.span),
        a.span.start <= a.span.end,
    decreases a,
{
    match a.node {
        Ast::Error => {
        },
        Ast::Literal(tok) => {
        },
        Ast::Variable(tok) => {
        },
        Ast::Comment(tok) => {
        },
        Ast::Annotation(tok) => {
        },
        Ast::Declaration(pat, def, ann, eq, val) => {
            lemma_classify_pattern_sorted(pat, table);
            match val {
                Some(v) => {
                    lemma_classify_ast_sorted(*v, table);
                },
                None => {
                },
            }
            lemma_sorted_decl(a, pat, def, ann, eq, val, table);
        },
        Ast::Call(caller, args) => {
            lemma_classify_ast_sorted(*caller, table);
            lemma_classify_seq_sorted(args@, table, a.span);
            lemma_sorted_call(a, *caller, args@, table);
        },
        Ast::Binary(l, op, r) => {
            lemma_classify_ast_sorted(*l, table);
            lemma_classify_ast_sorted(*r, table);
            lemma_sorted_binary(a, *l, op, *r, table);
        },
        Ast::While(kw, cond, body) => {
            lemma_classify_ast_sorted(*cond, table);
            lemma_classify_ast_sorted(*body, table);
            lemma_sorted_while(a, kw, *cond, *body, table);
        },
        Ast::If(kw, cond, then_body, else_kw, else_body) => {
            lemma_classify_ast_sorted(*cond, table);
            lemma_classify_ast_sorted(*then_body, table);
            lemma_classify_ast_sorted(*else_body, table);
            lemma_sorted_if(a, kw, *cond, *then_body, else_kw, *else_body, table);
        },
        Ast::Tuple(items) => {
            lemma_classify_seq_sorted(items@, table, a.span);
        },
        Ast::Block(items) => {
            lemma_classify_seq_sorted(items@, table, a.span);
        },
        Ast::Lambda(args, op, body) => {
            lemma_classify_seq_sorted(args@, table, a.span);
            lemma_classify_ast_sorted(*body, table);
            lemma_sorted_lambda(a, args@, op, *body, table);
        },
    }
}

/// The spans a sorted child sequence emits, summarized for its parent.
spec fn child_sorted(c: AnnotatedAst, table: Seq<Ty>) -> bool {
    cats_ordered(classify_ast(c, table)) && cats_within(classify_ast(c, table), c.span)
        && c.span.start <= c.span.end
}

/// A sorted child sequence over its items' joined range.
spec fn seq_sorted(items: Seq<AnnotatedAst>, table: Seq<Ty>, outer: Span) -> bool {
    cats_ordered(classify_seq(items, table)) && cats_within(classify_seq(items, table), outer) && (
    items.len() > 0 ==> cats_within(
        classify_seq(items, table),
        Span { start: items[0].span.start, end: items[items.len() - 1].span.end },
    ) && items[0].span.start <= items[items.len() - 1].span.end && outer.start
        <= items[0].span.start && items[items.len() - 1].span.end <= outer.end)
}

#[verifier::rlimit(100)]
proof fn lemma_sorted_decl(
    a: AnnotatedAst,
    pat: AnnotatedPattern,
    def: Token,
    ann: Option<Box<AnnotatedAst>>,
    eq: Option<Token>,
    val: Option<Box<AnnotatedAst>>,
    table: Seq<Ty>,
)
    requires
        wf_ast(a),
        a.node == Ast::Declaration(pat, def, ann, eq, val),
        cats_ordered(classify_pattern(pat, table)),
        cats_within(classify_pattern(pat, table), pat.span),
        pat.span.start <= pat.span.end,
        match val {
            Some(v) => child_sorted(*v, table),
            None => true,
        },
    ensures
        cats_ordered(classify_ast(a, table)),
        cats_within(classify_ast(a, table), a.span),
{
    let s1 = classify_pattern(pat, table);
    let s2: Seq<(Category, Span)> = match ann {
        Some(t) => seq![(Category::Type, t.span)],
        None => Seq::empty(),
    };
    let s3: Seq<(Category, Span)> = match val {
        Some(v) => classify_ast(*v, table),
        None => Seq::empty(),
    };
    let o2: Span = match ann {
        Some(t) => t.span,
        None => Span { start: pat.span.end, end: pat.span.end },
    };
    let o3: Span = match val {
        Some(v) => v.span,
        None => Span { start: o2.end, end: o2.end },
    };
    lemma_two_pieces(s1, pat.span, s2, o2);
    lemma_two_pieces(s1 + s2, Span { start: pat.span.start, end: o2.end }, s3, o3);
    lemma_within_widen(s1 + s2 + s3, Span { start: pat.span.start, end: o3.end }, a.span);
}

#[verifier::rlimit(100)]
proof fn lemma_sorted_call(
    a: AnnotatedAst,
    caller: AnnotatedAst,
    args: Seq<AnnotatedAst>,
    table: Seq<Ty>,
)
    requires
        wf_ast(a),
        a.node matches Ast::Call(c, ar) && *c == caller && ar@ == args,
        child_sorted(caller, table),
        seq_sorted(args, table, a.span),
    ensures
        cats_ordered(classify_ast(a, table)),
        cats_within(classify_ast(a, table), a.span),
{
    let s2 = classify_seq(args, table);
    let o2: Span = if args.len() > 0 {
        Span { start: args[0].span.start, end: args[args.len() - 1].span.end }
    } else {
        Span { start: caller.span.end, end: caller.span.end }
    };
    lemma_two_pieces(classify_ast(caller, table), caller.span, s2, o2);
    lemma_within_widen(
        classify_ast(caller, table) + s2,
        Span { start: caller.span.start, end: o2.end },
        a.span,
    );
}

#[verifier::rlimit(100)]
proof fn lemma_sorted_binary(
    a: AnnotatedAst,
    l: AnnotatedAst,
    op: Token,
    r: AnnotatedAst,
    table: Seq<Ty>,
)
    requires
        wf_ast(a),
        a.node matches Ast::Binary(bl, bop, br) && *bl == l && bop == op && *br == r,
        child_sorted(l, table),
        child_sorted(r, table),
    ensures
        cats_ordered(classify_ast(a, table)),
        cats_within(classify_ast(a, table), a.span),
{
    let op_cat: Category = match op.kind {
        TokenKind::Op(name) => if is_logical_name(name@) {
            Category::Keyword
        } else {
            Category::Operator
        },
        _ => Category::Operator,
    };
    lemma_two_pieces(classify_ast(l, table), l.span, seq![(op_cat, op.span)], op.span);
    lemma_two_pieces(
        classify_ast(l, table) + seq![(op_cat, op.span)],
        Span { start: l.span.start, end: op.span.end },
        classify_ast(r, table),
        r.span,
    );
    lemma_within_widen(
        classify_ast(l, table) + seq![(op_cat, op.span)] + classify_ast(r, table),
        Span { start: l.span.start, end: r.span.end },
        a.span,
    );
}

#[verifier::rlimit(100)]
proof fn lemma_sorted_while(
    a: AnnotatedAst,
    kw: Token,
    cond: AnnotatedAst,
    body: AnnotatedAst,
    table: Seq<Ty>,
)
    requires
        wf_ast(a),
        a.node matches Ast::While(k, c, b) && k == kw && *c == cond && *b == body,
        child_sorted(cond, table),
        child_sorted(body, table),
    ensures
        cats_ordered(classify_ast(a, table)),
        cats_within(classify_ast(a, table), a.span),
{
    lemma_two_pieces(
        seq![(Category::Keyword, kw.span)],
        kw.span,
        classify_ast(cond, table),
        cond.span,
    );
    lemma_two_pieces(
        seq![(Category::Keyword, kw.span)] + classify_ast(cond, table),
        Span { start: kw.span.start, end: cond.span.end },
        classify_ast(body, table),
        body.span,
    );
    lemma_within_widen(
        seq![(Category::Keyword, kw.span)] + classify_ast(cond, table) + classify_ast(body, table),
        Span { start: kw.span.start, end: body.span.end },
        a.span,
    );
}

#[verifier::rlimit(100)]
proof fn lemma_sorted_if(
    a: AnnotatedAst,
    kw: Token,
    cond: AnnotatedAst,
    then_body: AnnotatedAst,
    else_kw: Option<Token>,
    else_body: AnnotatedAst,
    table: Seq<Ty>,
)
    requires
        wf_ast(a),
        a.node matches Ast::If(k, c, t, ek, e) && k == kw && *c == cond && *t == then_body && ek
            == else_kw && *e == else_body,
        child_sorted(cond, table),
        child_sorted(then_body, table),
        child_sorted(else_body, table),
    ensures
        cats_ordered(classify_ast(a, table)),
        cats_within(classify_ast(a, table), a.span),
{
    let s1 = seq![(Category::Keyword, kw.span)];
    let s2 = classify_ast(cond, table);
    let s3 = classify_ast(then_body, table);
    let s4: Seq<(Category, Span)> = match else_kw {
        Some(k) => seq![(Category::Keyword, k.span)],
        None => Seq::empty(),
    };
    let s5 = classify_ast(else_body, table);
    let o4: Span = match else_kw {
        Some(k) => k.span,
        None => Span { start: then_body.span.end, end: then_body.span.end },
    };
    lemma_two_pieces(s1, kw.span, s2, cond.span);
    lemma_two_pieces(s1 + s2, Span { start: kw.span.start, end: cond.span.end }, s3, then_body.span);
    lemma_two_pieces(s1 + s2 + s3, Span { start: kw.span.start, end: then_body.span.end }, s4, o4);
    lemma_two_pieces(s1 + s2 + s3 + s4, Span { start: kw.span.start, end: o4.end }, s5, else_body.span);
    lemma_within_widen(
        s1 + s2 + s3 + s4 + s5,
        Span { start: kw.span.start, end: else_body.span.end },
        a.span,
    );
}

#[verifier::rlimit(100)]
proof fn lemma_sorted_lambda(
    a: AnnotatedAst,
    args: Seq<AnnotatedAst>,
    op: Token,
    body: AnnotatedAst,
    table: Seq<Ty>,
)
    requires
        wf_ast(a),
        a.node matches Ast::Lambda(ar, o, b) && ar@ == args && o == op && *b == body,
        seq_sorted(args, table, a.span),
        child_sorted(body, table),
    ensures
        cats_ordered(classify_ast(a, table)),
        cats_within(classify_ast(a, table), a.span),
{
    let s1 = seq![(Category::Operator, op.span)];
    let s2 = classify_seq(args, table);
    let s3 = classify_ast(body, table);
    let o2: Span = if args.len() > 0 {
        Span { start: args[0].span.start, end: args[args.len() - 1].span.end }
    } else {
        Span { start: op.span.end, end: op.span.end }
    };
    lemma_two_pieces(s1, op.span, s2, o2);
    lemma_two_pieces(s1 + s2, Span { start: op.span.start, end: o2.end }, s3, body.span);
    lemma_within_widen(s1 + s2 + s3, Span { start: op.span.start, end: body.span.end }, a.span);
}

#[verifier::rlimit(100)]
proof fn lemma_classify_seq_sorted(items: Seq<AnnotatedAst>, table: Seq<Ty>, outer: Span)
    requires
        wf_children(items, outer),
    ensures
        cats_ordered(classify_seq(items, table)),
        cats_within(classify_seq(items, table), outer),
        items.len() > 0 ==> cats_within(
            classify_seq(items, table),
            Span { start: items[0].span.start, end: items[items.len() - 1].span.end },
        ),
        items.len() > 0 ==> items[0].span.start <= items[items.len() - 1].span.end,
        items.len() > 0 ==> outer.start <= items[0].span.start && items[items.len()
            - 1].span.end <= outer.end,
    decreases items,
{
    if items.len() > 0 {
        let head = classify_ast(items[0], table);
        let rest = classify_seq(items.drop_first(), table);
        lemma_classify_ast_sorted(items[0], table);
        lemma_classify_seq_sorted(items.drop_first(), table, outer);
        if items.len() == 1 {
            assert(items.drop_first().len() == 0);
            assert(rest =~= Seq::<(Category, Span)>::empty());
            assert(head + rest =~= head);
        } else {
            assert(items.drop_first()[0] == items[1]);
            assert(items.drop_first()[items.drop_first().len() - 1] == items[items.len() - 1]);
            lemma_two_pieces(
                head,
                items[0].span,
                rest,
                Span { start: items[1].span.start, end: items[items.len() - 1].span.end },
            );
        }
        lemma_within_widen(
            head + rest,
            Span { start: items[0].span.start, end: items[items.len() - 1].span.end },
            outer,
        );
    }
}

/// A well-formed, bounded forest classifies into a strictly increasing,
/// pairwise non-overlapping, bounded sequence: what the delta encoder's
/// precondition demands.
pub proof fn lemma_classify_forest_sorted(forest: Seq<AnnotatedAst>, table: Seq<Ty>, limit: int)
    requires
        wf_forest(forest),
        forest_bounded(forest, limit),
    ensures
        cats_ordered(classify_forest(forest, table)),
        cats_bounded(classify_forest(forest, table), limit),
    decreases forest,
{
    if forest.len() > 0 {
        let head = classify_ast(forest[0], table);
        let rest = classify_forest(forest.drop_first(), table);
        lemma_classify_ast_sorted(forest[0], table);
        assert(forest_bounded(forest.drop_first(), limit)) by {
            assert forall|i: int|
                0 <= i < forest.drop_first().len() implies (#[trigger] forest.drop_first()[
            i]).span.end <= limit by {
                assert(forest.drop_first()[i] == forest[i + 1]);
            }
        }
        lemma_classify_forest_sorted(forest.drop_first(), table, limit);
        if head.len() > 0 && rest.len() > 0 {
            assert(forest.drop_first()[0] == forest[1]);
            lemma_classify_first_start(forest.drop_first(), table);
            assert(head[head.len() - 1].1.end <= forest[0].span.end);
            assert(rest[0].1.start >= forest[1].span.start);
        }
        lemma_cats_concat(head, rest);
        assert forall|i: int| 0 <= i < (head + rest).len() implies ((head + rest)[i]).1.end
            <= limit by {
            if i < head.len() {
                assert((head + rest)[i] == head[i]);
            } else {
                assert((head + rest)[i] == rest[i - head.len()]);
            }
        }
    }
}

/// Everything a forest emits starts at or after its first node's start.
proof fn lemma_classify_first_start(forest: Seq<AnnotatedAst>, table: Seq<Ty>)
    requires
        wf_forest(forest),
        forest.len() > 0,
        classify_forest(forest, table).len() > 0,
    ensures
        classify_forest(forest, table)[0].1.start >= forest[0].span.start,
    decreases forest,
{
    let head = classify_ast(forest[0], table);
    let rest = classify_forest(forest.drop_first(), table);
    lemma_classify_ast_sorted(forest[0], table);
    if head.len() > 0 {
        assert(classify_forest(forest, table)[0] == head[0]);
    } else {
        assert(classify_forest(forest, table) =~= rest);
        lemma_classify_first_start(forest.drop_first(), table);
        assert(forest.drop_first()[0] == forest[1]);
        assert(forest[0].span.start <= forest[0].span.end);
        assert(forest[0].span.end <= forest[1].span.start);
    }
}

/// Classifies a whole forest, in source order, with the structural rules.
pub fn make_tokens_of_forest(
    forest: &Vec<AnnotatedAst>,
    type_table: &TypeTable,
) -> (r: Result<Vec<(Category, Span)>, ClassifyError>)
    ensures
        r is Ok <==> classify_ok_forest(forest@),
        r matches Ok(v) ==> v@ == classify_forest(forest@, type_table@),
{
    let mut out: Vec<(Category, Span)> = Vec::new();
    let mut k: usize = 0;
    let ghost whole: Seq<(Category, Span)> = classify_forest(forest@, type_table@);
    proof {
        assert(forest@.skip(0) =~= forest@);
        assert(out@ + classify_forest(forest@, type_table@) =~= classify_forest(
            forest@,
            type_table@,
        ));
    }
    while k < forest.len()
        invariant
            k <= forest@.len(),
            classify_ok_forest(forest@.skip(k as int)) ==> classify_ok_forest(forest@),
            classify_ok_forest(forest@) ==> classify_ok_forest(forest@.skip(k as int)),
            out@ + classify_forest(forest@.skip(k as int), type_table@) == classify_forest(
                forest@,
                type_table@,
            ),
        decreases forest@.len() - k,
    {
        proof {
            assert(forest@.skip(k as int)[0] == forest@[k as int]);
            assert(forest@.skip(k as int).drop_first() =~= forest@.skip(k as int + 1));
        }
        let head: Result<(), ClassifyError> = make_tokens_of_ast(&forest[k], type_table, &mut out);
        match head {
            Err(e) => {
                return Err(e);
            },
            Ok(()) => (),
        }
        proof {
            assert(out@ + classify_forest(forest@.skip(k as int + 1), type_table@) =~= classify_forest(
                forest@,
                type_table@,
            ));
        }
        k = k + 1;
    }
    proof {
        assert(forest@.skip(forest@.len() as int) =~= Seq::<AnnotatedAst>::empty());
        assert(out@ =~= classify_forest(forest@, type_table@));
    }
    Ok(out)
}


// ---------------------------------------------------------------------------
// Delta encoding into the wire form
// ---------------------------------------------------------------------------
/// One wire token: position deltas against the previous token, length, and
/// the category id against the fixed legend.
#[derive(Clone, Copy, PartialEq, Eq, Structural, Debug)]
pub struct WireToken {
    pub delta_line: u32,
    pub delta_start: u32,
    pub length: u32,
    pub token_type: u32,
}

/// The delta encoding of an ordered category/span sequence: each entry's
/// line relative to the previous entry's line, its column relative to the
/// previous entry's column when the line did not change and absolute
/// otherwise, its byte length, and its category id.
pub open spec fn encode_spec(
    cats: Seq<(Category, Span)>,
    text: Seq<u8>,
    prev_line: int,
    prev_col: int,
) -> Seq<WireToken>
    decreases cats,
{
    if cats.len() == 0 {
        Seq::empty()
    } else {
        let line = crate::text::line_of(text, cats[0].1.start as int);
        let col = crate::text::col_of(text, cats[0].1.start as int);
        let w = WireToken {
            delta_line: (line - prev_line) as u32,
            delta_start: if line == prev_line {
                (col - prev_col) as u32
            } else {
                col as u32
            },
            length: (cats[0].1.end - cats[0].1.start) as u32,
            token_type: spec_category_id(cats[0].0) as u32,
        };
        seq![w] + encode_spec(cats.drop_first(), text, line, col)
    }
}

/// The absolute line/column of each entry's start offset.
pub open spec fn positions_of(cats: Seq<(Category, Span)>, text: Seq<u8>) -> Seq<(int, int)>
    decreases cats,
{
    if cats.len() == 0 {
        Seq::empty()
    } else {
        seq![
            (
                crate::text::line_of(text, cats[0].1.start as int),
                crate::text::col_of(text, cats[0].1.start as int),
            ),
        ] + positions_of(cats.drop_first(), text)
    }
}

/// Reconstructing absolute positions from the deltas, the way a client
/// consumes the wire form.
pub open spec fn decode_positions(ws: Seq<WireToken>, prev_line: int, prev_col: int) -> Seq<
    (int, int),
>
    decreases ws,
{
    if ws.len() == 0 {
        Seq::empty()
    } else {
        let line = prev_line + ws[0].delta_line;
        let col = if ws[0].delta_line == 0 {
            prev_col + ws[0].delta_start
        } else {
            ws[0].delta_start as int
        };
        seq![(line, col)] + decode_positions(ws.drop_first(), line, col)
    }
}

proof fn lemma_ordered_drop_first(cats: Seq<(Category, Span)>, limit: int)
    requires
        cats_ordered(cats),
        cats_bounded(cats, limit),
        cats.len() > 0,
    ensures
        cats_ordered(cats.drop_first()),
        cats_bounded(cats.drop_first(), limit),
{
    assert forall|i: int| 0 <= i < cats.drop_first().len() implies (#[trigger] cats.drop_first()[
    i]).1.start < cats.drop_first()[i].1.end && cats.drop_first()[i].1.end <= limit by {
        assert(cats.drop_first()[i] == cats[i + 1]);
    }
    assert forall|i: int| 0 <= i < cats.drop_first().len() - 1 implies (#[trigger] cats.drop_first()[
    i]).1.end <= cats.drop_first()[i + 1].1.start by {
        assert(cats.drop_first()[i] == cats[i + 1]);
        assert(cats.drop_first()[i + 1] == cats[i + 2]);
    }
}

/// Encoding from a reference point and decoding from the same point gives
/// back every entry's absolute line and column.
#[verifier::rlimit(100)]
proof fn lemma_decode_from(cats: Seq<(Category, Span)>, text: Seq<u8>, ps: int)
    requires
        cats_ordered(cats),
        cats_bounded(cats, text.len() as int),
        text.len() <= u32::MAX,
        0 <= ps <= text.len(),
        cats.len() > 0 ==> ps <= cats[0].1.start,
    ensures
        decode_positions(
            encode_spec(
                cats,
                text,
                crate::text::line_of(text, ps),
                crate::text::col_of(text, ps),
            ),
            crate::text::line_of(text, ps),
            crate::text::col_of(text, ps),
        ) == positions_of(cats, text),
    decreases cats,
{
    if cats.len() > 0 {
        let start = cats[0].1.start as int;
        let prev_line = crate::text::line_of(text, ps);
        let prev_col = crate::text::col_of(text, ps);
        let line = crate::text::line_of(text, start);
        let col = crate::text::col_of(text, start);
        crate::text::lemma_line_of_mono(text, ps, start);
        crate::text::lemma_line_of_bounds(text, start);
        crate::text::lemma_line_of_bounds(text, ps);
        crate::text::lemma_line_start_bounds(text, start);
        crate::text::lemma_chars_in_bounds(
            text,
            crate::text::line_start_of(text, start),
            start,
        );
        crate::text::lemma_line_start_bounds(text, ps);
        crate::text::lemma_chars_in_bounds(text, crate::text::line_start_of(text, ps), ps);
        if line == prev_line {
            crate::text::lemma_same_line_col_mono(text, ps, start);
        }
        let ws = encode_spec(cats, text, prev_line, prev_col);
        assert(ws[0].delta_line == line - prev_line);
        assert(line - prev_line == 0 <==> ws[0].delta_line == 0);
        if ws[0].delta_line == 0 {
            assert(prev_col + ws[0].delta_start == col);
        } else {
            assert(ws[0].delta_start == col);
        }
        lemma_ordered_drop_first(cats, text.len() as int);
        if cats.len() > 1 {
            assert(cats.drop_first()[0] == cats[1]);
            assert(cats[0].1.end <= cats[1].1.start);
        }
        lemma_decode_from(cats.drop_first(), text, start);
        assert(ws.drop_first() =~= encode_spec(cats.drop_first(), text, line, col));
        assert(decode_positions(ws, prev_line, prev_col) =~= positions_of(cats, text));
    }
}

/// Feeding an ordered classification to the delta encoder and
/// reconstructing absolute positions from the deltas reproduces each
/// entry's original line and column.
pub proof fn lemma_delta_round_trip(cats: Seq<(Category, Span)>, text: Seq<u8>)
    requires
        cats_ordered(cats),
        cats_bounded(cats, text.len() as int),
        text.len() <= u32::MAX,
    ensures
        decode_positions(encode_spec(cats, text, 0, 0), 0, 0) == positions_of(cats, text),
{
    assert(crate::text::line_of(text, 0) == 0);
    assert(crate::text::line_start_of(text, 0) == 0);
    assert(crate::text::chars_in(text, 0, 0) == 0);
    assert(crate::text::col_of(text, 0) == 0);
    lemma_decode_from(cats, text, 0);
}

/// Converts an ordered category/span sequence into the delta-encoded wire
/// form against the current text. The input must be strictly increasing and
/// non-overlapping — the classifier's output is proved to be — and lie
/// within the text.
pub fn make_tokens_semantic(cats: &Vec<(Category, Span)>, text: &Vec<u8>) -> (r: Vec<WireToken>)
    requires
        cats_ordered(cats@),
        cats_bounded(cats@, text@.len() as int),
        text@.len() <= u32::MAX,
    ensures
        r@ == encode_spec(cats@, text@, 0, 0),
{
    let mut out: Vec<WireToken> = Vec::new();
    let mut pre_line: usize = 0;
    let mut pre_col: usize = 0;
    let mut k: usize = 0;
    proof {
        assert(cats@.skip(0) =~= cats@);
        assert(out@ + encode_spec(cats@, text@, 0, 0) =~= encode_spec(cats@, text@, 0, 0));
    }
    while k < cats.len()
        invariant
            k <= cats@.len(),
            cats_ordered(cats@),
            cats_bounded(cats@, text@.len() as int),
            text@.len() <= u32::MAX,
            out@ + encode_spec(cats@.skip(k as int), text@, pre_line as int, pre_col as int)
                == encode_spec(cats@, text@, 0, 0),
            k == 0 ==> pre_line == 0 && pre_col == 0,
            k > 0 ==> pre_line as int == crate::text::line_of(
                text@,
                cats@[k as int - 1].1.start as int,
            ) && pre_col as int == crate::text::col_of(text@, cats@[k as int - 1].1.start as int),
            pre_line <= text@.len(),
            pre_col <= text@.len(),
        decreases cats@.len() - k,
    {
        proof {
            assert(cats@.skip(k as int)[0] == cats@[k as int]);
            assert(cats@.skip(k as int).drop_first() =~= cats@.skip(k as int + 1));
        }
        let (cat, span): (Category, Span) = cats[k];
        proof {
            assert(span.start < span.end && span.end <= text@.len());
        }
        let (line, col): (usize, usize) = crate::text::line_col_at(text, span.start);
        proof {
            if k > 0 {
                let prev = cats@[k as int - 1].1.start as int;
                assert(cats@[k as int - 1].1.end <= span.start);
                assert(prev < span.start);
                crate::text::lemma_line_of_mono(text@, prev, span.start as int);
                if line == pre_line {
                    crate::text::lemma_same_line_col_mono(text@, prev, span.start as int);
                }
            }
        }
        let delta_line: usize = line - pre_line;
        let delta_start: usize = if delta_line == 0 {
            col - pre_col
        } else {
            col
        };
        let w = WireToken {
            delta_line: delta_line as u32,
            delta_start: delta_start as u32,
            length: (span.end - span.start) as u32,
            token_type: category_id(cat),
        };
        out.push(w);
        proof {
            assert(out@ + encode_spec(cats@.skip(k as int + 1), text@, line as int, col as int)
                =~= encode_spec(cats@, text@, 0, 0));
        }
        pre_line = line;
        pre_col = col;
        k = k + 1;
    }
    proof {
        assert(cats@.skip(cats@.len() as int) =~= Seq::<(Category, Span)>::empty());
        assert(out@ =~= encode_spec(cats@, text@, 0, 0));
    }
    out
}

} // verus!
