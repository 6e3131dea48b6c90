use vstd::prelude::*;
use crate::ast::{AnnotatedAst, AnnotatedPattern, Ast, Pattern};
use crate::span::Span;
use crate::types::Ty;
use crate::ast::{wf_ast, wf_children, wf_forest};

verus! {

/// Agreement between a borrowed result and the value the specification
/// names: both absent, or the borrow points at that value.
pub open spec fn opt_ref_agrees<T>(r: Option<&T>, s: Option<T>) -> bool {
    match r {
        Some(t) => s == Some(*t),
        None => s is None,
    }
}

/// The type a cursor inside a binding pattern refers to: the most specific
/// sub-pattern whose span contains the offset wins, first match first; a
/// tuple pattern falls back to its own resolved type when no sub-pattern
/// claims the offset.
pub open spec fn pattern_match_spec(p: AnnotatedPattern, pos: usize) -> Option<Ty>
    decreases p,
{
    match p.pattern {
        Pattern::Var(tok) => if tok.span.spec_contains(pos) {
            p.ty
        } else {
            None
        },
        Pattern::Tuple(items) => match pattern_seq_match_spec(items@, pos) {
            Some(t) => Some(t),
            None => if p.span.spec_contains(pos) {
                p.ty
            } else {
                None
            },
        },
    }
}

/// First sub-pattern match in source order.
pub open spec fn pattern_seq_match_spec(items: Seq<AnnotatedPattern>, pos: usize) -> Option<Ty>
    decreases items,
{
    if items.len() == 0 {
        None
    } else {
        match pattern_match_spec(items[0], pos) {
            Some(t) => Some(t),
            None => pattern_seq_match_spec(items.drop_first(), pos),
        }
    }
}

/// The byte offset that separates a declaration's bound name from the rest
/// of the declaration: the name's length past the declaration's start.
pub open spec fn decl_cutoff(decl_span: Span, pat: AnnotatedPattern) -> int {
    match pat.pattern {
        Pattern::Var(tok) => decl_span.start + tok.span.spec_len(),
        Pattern::Tuple(_) => decl_span.start as int,
    }
}

/// The type at a cursor offset inside one node. A node only answers for
/// offsets its span contains. Compound nodes try each structural child in
/// source order, first match first, and fall back to their own resolved
/// type. A declaration resolves a cursor over the bound name to the
/// initializer's type (the infer-from-initializer shorthand), then tries
/// the explicit annotation, then the initializer, then its own type.
pub open spec fn find_match_spec(a: AnnotatedAst, pos: usize) -> Option<Ty>
    decreases a,
{
    if !a.span.spec_contains(pos) {
        None
    } else {
        match a.node {
            Ast::Error => None,
            Ast::Comment(_) => None,
            Ast::Annotation(_) => None,
            Ast::Literal(_) => a.ty,
            Ast::Variable(_) => a.ty,
            Ast::Declaration(pat, _def, ann, _eq, val) => {
                let by_name: Option<Ty> = match pat.pattern {
                    Pattern::Var(_) => if pos < decl_cutoff(a.span, pat) {
                        match val {
                            Some(v) => v.ty,
                            None => None,
                        }
                    } else {
                        None
                    },
                    Pattern::Tuple(_) => pattern_match_spec(pat, pos),
                };
                match by_name {
                    Some(t) => Some(t),
                    None => {
                        let in_ann: Option<Ty> = match ann {
                            Some(t) => find_match_spec(*t, pos),
                            None => None,
                        };
                        match in_ann {
                            Some(t) => Some(t),
                            None => {
                                let in_val: Option<Ty> = match val {
                                    Some(v) => find_match_spec(*v, pos),
                                    None => None,
                                };
                                match in_val {
                                    Some(t) => Some(t),
                                    None => a.ty,
                                }
                            },
                        }
                    },
                }
            },
            Ast::Call(caller, args) => match find_match_spec(*caller, pos) {
                Some(t) => Some(t),
                None => match seq_match_spec(args@, pos) {
                    Some(t) => Some(t),
                    None => a.ty,
                },
            },
            Ast::Binary(l, _op, r) => match find_match_spec(*l, pos) {
                Some(t) => Some(t),
                None => match find_match_spec(*r, pos) {
                    Some(t) => Some(t),
                    None => a.ty,
                },
            },
            Ast::While(_kw, cond, body) => match find_match_spec(*cond, pos) {
                Some(t) => Some(t),
                None => match find_match_spec(*body, pos) {
                    Some(t) => Some(t),
                    None => a.ty,
                },
            },
            Ast::If(_kw, cond, then_body, _else_kw, else_body) => match find_match_spec(
                *cond,
                pos,
            ) {
                Some(t) => Some(t),
                None => match find_match_spec(*then_body, pos) {
                    Some(t) => Some(t),
                    None => match find_match_spec(*else_body, pos) {
                        Some(t) => Some(t),
                        None => a.ty,
                    },
                },
            },
            Ast::Tuple(items) => match seq_match_spec(items@, pos) {
                Some(t) => Some(t),
                None => a.ty,
            },
            Ast::Block(items) => match seq_match_spec(items@, pos) {
                Some(t) => Some(t),
                None => a.ty,
            },
            Ast::Lambda(args, _op, body) => match seq_match_spec(args@, pos) {
                Some(t) => Some(t),
                None => match find_match_spec(*body, pos) {
                    Some(t) => Some(t),
                    None => a.ty,
                },
            },
        }
    }
}

/// First child match in source order.
pub open spec fn seq_match_spec(items: Seq<AnnotatedAst>, pos: usize) -> Option<Ty>
    decreases items,
{
    if items.len() == 0 {
        None
    } else {
        match find_match_spec(items[0], pos) {
            Some(t) => Some(t),
            None => seq_match_spec(items.drop_first(), pos),
        }
    }
}

/// The type of the most specific node at `pos` across the whole forest: the
/// first top-level node that answers wins.
pub open spec fn find_type_at_spec(forest: Seq<AnnotatedAst>, pos: usize) -> Option<Ty>
    decreases forest,
{
    if forest.len() == 0 {
        None
    } else {
        match find_match_spec(forest[0], pos) {
            Some(t) => Some(t),
            None => find_type_at_spec(forest.drop_first(), pos),
        }
    }
}

/// An offset outside every top-level node's span resolves to nothing.
pub proof fn lemma_find_type_at_outside(forest: Seq<AnnotatedAst>, pos: usize)
    requires
        forall|i: int| 0 <= i < forest.len() ==> !(#[trigger] forest[i].span).spec_contains(pos),
    ensures
        find_type_at_spec(forest, pos) is None,
    decreases forest,
{
    if forest.len() > 0 {
        assert(forall|i: int|
            0 <= i < forest.drop_first().len() ==> #[trigger] forest.drop_first()[i] == forest[i
                + 1]);
        lemma_find_type_at_outside(forest.drop_first(), pos);
    }
}

pub fn find_match_pattern<'a>(p: &'a AnnotatedPattern, pos: usize) -> (r: Option<&'a Ty>)
    ensures
        opt_ref_agrees(r, pattern_match_spec(*p, pos)),
    decreases *p,
{
    match &p.pattern {
        Pattern::Var(tok) => {
            if tok.span.contains(pos) {
                match &p.ty {
                    Some(t) => Some(t),
                    None => None,
                }
            } else {
                None
            }
        },
        Pattern::Tuple(items) => {
            proof {
                assert(items@.skip(0) =~= items@);
            }
            let found: Option<&Ty> = pattern_match_seq(items, 0, pos);
            match found {
                Some(t) => Some(t),
                None => {
                    if p.span.contains(pos) {
                        match &p.ty {
                            Some(t) => Some(t),
                            None => None,
                        }
                    } else {
                        None
                    }
                },
            }
        },
    }
}

fn pattern_match_seq<'a>(items: &'a Vec<AnnotatedPattern>, k: usize, pos: usize) -> (r: Option<
    &'a Ty,
>)
    requires
        k <= items@.len(),
    ensures
        opt_ref_agrees(r, pattern_seq_match_spec(items@.skip(k as int), pos)),
    decreases items@.skip(k as int),
{
    if k == items.len() {
        proof {
            assert(items@.skip(k as int) =~= Seq::<AnnotatedPattern>::empty());
        }
        None
    } else {
        proof {
            assert(items@.skip(k as int)[0] == items@[k as int]);
            assert(items@.skip(k as int).drop_first() =~= items@.skip(k as int + 1));
        }
        let found: Option<&Ty> = find_match_pattern(&items[k], pos);
        match found {
            Some(t) => Some(t),
            None => pattern_match_seq(items, k + 1, pos),
        }
    }
}

/// Resolves the most specific type at a cursor offset within one top-level
/// node, by the recursive first-match rule.
pub fn find_match<'a>(a: &'a AnnotatedAst, pos: usize) -> (r: Option<&'a Ty>)
    requires
        wf_ast(*a),
    ensures
        opt_ref_agrees(r, find_match_spec(*a, pos)),
    decreases *a,
{
    if !a.span.contains(pos) {
        return None;
    }
    match &a.node {
        Ast::Error => None,
        Ast::Comment(_) => None,
        Ast::Annotation(_) => None,
        Ast::Literal(_) => match &a.ty {
            Some(t) => Some(t),
            None => None,
        },
        Ast::Variable(_) => match &a.ty {
            Some(t) => Some(t),
            None => None,
        },
        Ast::Declaration(pat, _def, ann, _eq, val) => {
            let by_name: Option<&Ty> = match &pat.pattern {
                Pattern::Var(tok) => {
                    let cutoff: usize = a.span.start + (tok.span.end - tok.span.start);
                    if pos < cutoff {
                        match val {
                            Some(v) => match &v.ty {
                                Some(t) => Some(t),
                                None => None,
                            },
                            None => None,
                        }
                    } else {
                        None
                    }
                },
                Pattern::Tuple(_) => find_match_pattern(pat, pos),
            };
            match by_name {
                Some(t) => {
                    return Some(t);
                },
                None => {},
            }
            match ann {
                Some(t) => {
                    let found: Option<&Ty> = find_match(t, pos);
                    match found {
                        Some(x) => {
                            return Some(x);
                        },
                        None => {},
                    }
                },
                None => {},
            }
            match val {
                Some(v) => {
                    let found: Option<&Ty> = find_match(v, pos);
                    match found {
                        Some(x) => {
                            return Some(x);
                        },
                        None => {},
                    }
                },
                None => {},
            }
            match &a.ty {
                Some(t) => Some(t),
                None => None,
            }
        },
        Ast::Call(caller, args) => {
            let found: Option<&Ty> = find_match(caller, pos);
            match found {
                Some(t) => {
                    return Some(t);
                },
                None => {},
            }
            proof {
                assert(args@.skip(0) =~= args@);
            }
            let in_args: Option<&Ty> = seq_match(args, 0, pos, Ghost(a.span));
            match in_args {
                Some(t) => Some(t),
                None => match &a.ty {
                    Some(t) => Some(t),
                    None => None,
                },
            }
        },
        Ast::Binary(l, _op, r) => {
            let found: Option<&Ty> = find_match(l, pos);
            match found {
                Some(t) => {
                    return Some(t);
                },
                None => {},
            }
            let found_r: Option<&Ty> = find_match(r, pos);
            match found_r {
                Some(t) => Some(t),
                None => match &a.ty {
                    Some(t) => Some(t),
                    None => None,
                },
            }
        },
        Ast::While(_kw, cond, body) => {
            let found: Option<&Ty> = find_match(cond, pos);
            match found {
                Some(t) => {
                    return Some(t);
                },
                None => {},
            }
            let found_b: Option<&Ty> = find_match(body, pos);
            match found_b {
                Some(t) => Some(t),
                None => match &a.ty {
                    Some(t) => Some(t),
                    None => None,
                },
            }
        },
        Ast::If(_kw, cond, then_body, _else_kw, else_body) => {
            let found: Option<&Ty> = find_match(cond, pos);
            match found {
                Some(t) => {
                    return Some(t);
                },
                None => {},
            }
            let found_t: Option<&Ty> = find_match(then_body, pos);
            match found_t {
                Some(t) => {
                    return Some(t);
                },
                None => {},
            }
            let found_e: Option<&Ty> = find_match(else_body, pos);
            match found_e {
                Some(t) => Some(t),
                None => match &a.ty {
                    Some(t) => Some(t),
                    None => None,
                },
            }
        },
        Ast::Tuple(items) => {
            proof {
                assert(items@.skip(0) =~= items@);
            }
            let found: Option<&Ty> = seq_match(items, 0, pos, Ghost(a.span));
            match found {
                Some(t) => Some(t),
                None => match &a.ty {
                    Some(t) => Some(t),
                    None => None,
                },
            }
        },
        Ast::Block(items) => {
            proof {
                assert(items@.skip(0) =~= items@);
            }
            let found: Option<&Ty> = seq_match(items, 0, pos, Ghost(a.span));
            match found {
                Some(t) => Some(t),
                None => match &a.ty {
                    Some(t) => Some(t),
                    None => None,
                },
            }
        },
        Ast::Lambda(args, _op, body) => {
            proof {
                assert(args@.skip(0) =~= args@);
            }
            let found: Option<&Ty> = seq_match(args, 0, pos, Ghost(a.span));
            match found {
                Some(t) => {
                    return Some(t);
                },
                None => {},
            }
            let found_b: Option<&Ty> = find_match(body, pos);
            match found_b {
                Some(t) => Some(t),
                None => match &a.ty {
                    Some(t) => Some(t),
                    None => None,
                },
            }
        },
    }
}

fn seq_match<'a>(items: &'a Vec<AnnotatedAst>, k: usize, pos: usize, outer: Ghost<Span>) -> (r:
    Option<&'a Ty>)
    requires
        k <= items@.len(),
        wf_children(items@.skip(k as int), outer@),
    ensures
        opt_ref_agrees(r, seq_match_spec(items@.skip(k as int), pos)),
    decreases items@.skip(k as int),
{
    if k == items.len() {
        proof {
            assert(items@.skip(k as int) =~= Seq::<AnnotatedAst>::empty());
        }
        None
    } else {
        proof {
            assert(items@.skip(k as int)[0] == items@[k as int]);
            assert(items@.skip(k as int).drop_first() =~= items@.skip(k as int + 1));
        }
        let found: Option<&Ty> = find_match(&items[k], pos);
        match found {
            Some(t) => Some(t),
            None => seq_match(items, k + 1, pos, outer),
        }
    }
}

/// The most specific resolved type at a byte offset, across a document's
/// forest of top-level nodes.
pub fn find_type_at<'a>(forest: &'a Vec<AnnotatedAst>, pos: usize) -> (r: Option<&'a Ty>)
    requires
        wf_forest(forest@),
    ensures
        opt_ref_agrees(r, find_type_at_spec(forest@, pos)),
{
    proof {
        assert(forest@.skip(0) =~= forest@);
    }
    find_type_at_from(forest, 0, pos)
}

fn find_type_at_from<'a>(forest: &'a Vec<AnnotatedAst>, k: usize, pos: usize) -> (r: Option<
    &'a Ty,
>)
    requires
        k <= forest@.len(),
        wf_forest(forest@.skip(k as int)),
    ensures
        opt_ref_agrees(r, find_type_at_spec(forest@.skip(k as int), pos)),
    decreases forest@.skip(k as int),
{
    if k == forest.len() {
        proof {
            assert(forest@.skip(k as int) =~= Seq::<AnnotatedAst>::empty());
        }
        None
    } else {
        proof {
            assert(forest@.skip(k as int)[0] == forest@[k as int]);
            assert(forest@.skip(k as int).drop_first() =~= forest@.skip(k as int + 1));
        }
        let found: Option<&Ty> = find_match(&forest[k], pos);
        match found {
            Some(t) => Some(t),
            None => find_type_at_from(forest, k + 1, pos),
        }
    }
}

} // verus!

