use vstd::prelude::*;
use crate::ast::{AnnotatedAst, Ast, Token, TokenKind};
use crate::span::Span;
use crate::types::{label_of, spec_most_concrete, Ty, TypeTable};
use crate::ast::{wf_ast, wf_forest};
use crate::types::{get_most_concrete_type, render_label};

verus! {

/// Whether a declaration's binding token is the infer form `:=`.
pub open spec fn spec_is_infer_op(t: Token) -> bool {
    match t.kind {
        TokenKind::Op(name) => name@ == seq![58u8, 61u8],
        _ => false,
    }
}

pub fn is_infer_op(t: &Token) -> (r: bool)
    ensures
        r == spec_is_infer_op(*t),
{
    match &t.kind {
        TokenKind::Op(name) => {
            if name.len() == 2 {
                let ok: bool = name[0] == 58 && name[1] == 61;
                proof {
                    if ok {
                        assert(name@ =~= seq![58u8, 61u8]);
                    } else {
                        assert(name@ != seq![58u8, 61u8]);
                    }
                }
                ok
            } else {
                proof {
                    assert(name@.len() != 2 ==> name@ != seq![58u8, 61u8]);
                }
                false
            }
        },
        _ => false,
    }
}

/// The anchor of an inlay hint: the one-byte position right after the bound
/// pattern.
pub open spec fn anchor_of(pat_span: Span) -> Span {
    Span { start: pat_span.end, end: (pat_span.end + 1) as usize }
}

/// The inlay-hint sites of one node, in traversal order: at each declaration
/// written in the infer binding form, without an explicit annotation and
/// with a typed initializer, one entry anchored right after the bound name
/// and carrying the initializer's resolved type. The walk continues into
/// the initializer, so nested declarations are found at any depth.
pub open spec fn hints_spec(a: AnnotatedAst) -> Seq<(Span, Ty)>
    decreases a,
{
    match a.node {
        Ast::Error => Seq::empty(),
        Ast::Literal(_) => Seq::empty(),
        Ast::Variable(_) => Seq::empty(),
        Ast::Comment(_) => Seq::empty(),
        Ast::Annotation(_) => Seq::empty(),
        Ast::Declaration(pat, def, ann, _eq, val) => {
            let own: Seq<(Span, Ty)> = match val {
                Some(v) => if spec_is_infer_op(def) && ann is None && v.ty is Some {
                    seq![(anchor_of(pat.span), v.ty->0)]
                } else {
                    Seq::empty()
                },
                None => Seq::empty(),
            };
            own + (match val {
                Some(v) => hints_spec(*v),
                None => Seq::empty(),
            })
        },
        Ast::Call(caller, args) => hints_spec(*caller) + hints_seq(args@),
        Ast::Binary(l, _op, r) => hints_spec(*l) + hints_spec(*r),
        Ast::While(_kw, cond, body) => hints_spec(*cond) + hints_spec(*body),
        Ast::If(_kw, cond, then_body, _else_kw, else_body) => hints_spec(*cond) + hints_spec(
            *then_body,
        ) + hints_spec(*else_body),
        Ast::Tuple(items) => hints_seq(items@),
        Ast::Block(items) => hints_seq(items@),
        Ast::Lambda(args, _op, body) => hints_seq(args@) + hints_spec(*body),
    }
}

/// The concatenated hint sites of a sequence of sibling nodes.
pub open spec fn hints_seq(items: Seq<AnnotatedAst>) -> Seq<(Span, Ty)>
    decreases items,
{
    if items.len() == 0 {
        Seq::empty()
    } else {
        hints_spec(items[0]) + hints_seq(items.drop_first())
    }
}

/// The concatenated hint sites of a whole forest.
pub open spec fn hints_forest(forest: Seq<AnnotatedAst>) -> Seq<(Span, Ty)>
    decreases forest,
{
    if forest.len() == 0 {
        Seq::empty()
    } else {
        hints_spec(forest[0]) + hints_forest(forest.drop_first())
    }
}

/// How a collector's vector grew: the old entries stand unchanged and the
/// borrowed entries added behind them point at exactly the specified values.
pub open spec fn extends_with(
    grown: Seq<(Span, &Ty)>,
    before: Seq<(Span, &Ty)>,
    added: Seq<(Span, Ty)>,
) -> bool {
    grown.len() == before.len() + added.len() && (forall|i: int|
        0 <= i < before.len() ==> grown[i] == before[i]) && (forall|i: int|
        0 <= i < added.len() ==> (#[trigger] grown[before.len() + i]).0 == added[i].0 && *grown[
            before.len() + i].1 == added[i].1)
}

proof fn lemma_extends_trans(
    last: Seq<(Span, &Ty)>,
    mid: Seq<(Span, &Ty)>,
    first: Seq<(Span, &Ty)>,
    s1: Seq<(Span, Ty)>,
    s2: Seq<(Span, Ty)>,
)
    requires
        extends_with(mid, first, s1),
        extends_with(last, mid, s2),
    ensures
        extends_with(last, first, s1 + s2),
{
    assert forall|i: int| 0 <= i < (s1 + s2).len() implies (#[trigger] last[first.len() + i]).0 == (
    s1 + s2)[i].0 && *last[first.len() + i].1 == (s1 + s2)[i].1 by {
        if i < s1.len() {
            assert(last[first.len() + i] == mid[first.len() + i]);
            assert((s1 + s2)[i] == s1[i]);
        } else {
            assert(last[mid.len() + (i - s1.len())] == last[first.len() + i]);
            assert((s1 + s2)[i] == s2[i - s1.len()]);
        }
    }
}

proof fn lemma_extends_nothing(v: Seq<(Span, &Ty)>)
    ensures
        extends_with(v, v, Seq::empty()),
{
}

/// Collects the inlay-hint sites of one node into `hints`, in traversal
/// order.
pub fn get_inlay_hints<'a>(a: &'a AnnotatedAst, hints: &mut Vec<(Span, &'a Ty)>)
    requires
        wf_ast(*a),
        a.span.end < usize::MAX,
    ensures
        extends_with(final(hints)@, old(hints)@, hints_spec(*a)),
    decreases *a,
{
    match &a.node {
        Ast::Error => (),
        Ast::Literal(_) => (),
        Ast::Variable(_) => (),
        Ast::Comment(_) => (),
        Ast::Annotation(_) => (),
        Ast::Declaration(pat, def, ann, _eq, val) => {
            match val {
                Some(v) => {
                    let infer: bool = is_infer_op(def);
                    let no_ann: bool = match ann {
                        Some(_) => false,
                        None => true,
                    };
                    let ghost mid0: Seq<(Span, &Ty)> = hints@;
                    match &v.ty {
                        Some(t) => {
                            if infer && no_ann {
                                let anchor: Span = Span {
                                    start: pat.span.end,
                                    end: pat.span.end + 1,
                                };
                                hints.push((anchor, t));
                            }
                        },
                        None => (),
                    }
                    let ghost mid: Seq<(Span, &Ty)> = hints@;
                    get_inlay_hints(v, hints);
                    proof {
                        let own = if spec_is_infer_op(*def) && ann is None && v.ty is Some {
                            seq![(anchor_of(pat.span), v.ty->0)]
                        } else {
                            Seq::<(Span, Ty)>::empty()
                        };
                        assert(extends_with(mid, mid0, own));
                        lemma_extends_trans(hints@, mid, mid0, own, hints_spec(**v));
                        assert(own + hints_spec(**v) == hints_spec(*a));
                    }
                },
                None => {
                    proof {
                        assert(hints_spec(*a) =~= Seq::<(Span, Ty)>::empty());
                    }
                },
            }
        },
        Ast::Call(caller, args) => {
            let ghost before: Seq<(Span, &Ty)> = hints@;
            get_inlay_hints(caller, hints);
            let ghost mid: Seq<(Span, &Ty)> = hints@;
            proof {
                assert(args@.skip(0) =~= args@);
            }
            hints_over_seq(args, 0, hints, Ghost(a.span));
            proof {
                lemma_extends_trans(hints@, mid, before, hints_spec(**caller), hints_seq(args@));
            }
        },
        Ast::Binary(l, _op, r) => {
            let ghost before: Seq<(Span, &Ty)> = hints@;
            get_inlay_hints(l, hints);
            let ghost mid: Seq<(Span, &Ty)> = hints@;
            get_inlay_hints(r, hints);
            proof {
                lemma_extends_trans(hints@, mid, before, hints_spec(**l), hints_spec(**r));
            }
        },
        Ast::While(_kw, cond, body) => {
            let ghost before: Seq<(Span, &Ty)> = hints@;
            get_inlay_hints(cond, hints);
            let ghost mid: Seq<(Span, &Ty)> = hints@;
            get_inlay_hints(body, hints);
            proof {
                lemma_extends_trans(hints@, mid, before, hints_spec(**cond), hints_spec(**body));
            }
        },
        Ast::If(_kw, cond, then_body, _else_kw, else_body) => {
            let ghost before: Seq<(Span, &Ty)> = hints@;
            get_inlay_hints(cond, hints);
            let ghost mid: Seq<(Span, &Ty)> = hints@;
            get_inlay_hints(then_body, hints);
            proof {
                lemma_extends_trans(
                    hints@,
                    mid,
                    before,
                    hints_spec(**cond),
                    hints_spec(**then_body),
                );
            }
            let ghost mid2: Seq<(Span, &Ty)> = hints@;
            get_inlay_hints(else_body, hints);
            proof {
                lemma_extends_trans(
                    hints@,
                    mid2,
                    before,
                    hints_spec(**cond) + hints_spec(**then_body),
                    hints_spec(**else_body),
                );
            }
        },
        Ast::Tuple(items) => {
            proof {
                assert(items@.skip(0) =~= items@);
            }
            hints_over_seq(items, 0, hints, Ghost(a.span));
        },
        Ast::Block(items) => {
            proof {
                assert(items@.skip(0) =~= items@);
            }
            hints_over_seq(items, 0, hints, Ghost(a.span));
        },
        Ast::Lambda(args, _op, body) => {
            let ghost before: Seq<(Span, &Ty)> = hints@;
            proof {
                assert(args@.skip(0) =~= args@);
            }
            hints_over_seq(args, 0, hints, Ghost(a.span));
            let ghost mid: Seq<(Span, &Ty)> = hints@;
            get_inlay_hints(body, hints);
            proof {
                lemma_extends_trans(hints@, mid, before, hints_seq(args@), hints_spec(**body));
            }
        },
    }
}

fn hints_over_seq<'a>(
    items: &'a Vec<AnnotatedAst>,
    k: usize,
    hints: &mut Vec<(Span, &'a Ty)>,
    outer: Ghost<Span>,
)
    requires
        k <= items@.len(),
        crate::ast::wf_children(items@.skip(k as int), outer@),
        outer@.end < usize::MAX,
        outer@.wf(),
    ensures
        extends_with(final(hints)@, old(hints)@, hints_seq(items@.skip(k as int))),
    decreases items@.skip(k as int),
{
    if k == items.len() {
        proof {
            assert(items@.skip(k as int) =~= Seq::<AnnotatedAst>::empty());
            lemma_extends_nothing(hints@);
        }
    } else {
        proof {
            assert(items@.skip(k as int)[0] == items@[k as int]);
            assert(items@.skip(k as int).drop_first() =~= items@.skip(k as int + 1));
        }
        let ghost before: Seq<(Span, &Ty)> = hints@;
        get_inlay_hints(&items[k], hints);
        let ghost mid: Seq<(Span, &Ty)> = hints@;
        hints_over_seq(items, k + 1, hints, outer);
        proof {
            lemma_extends_trans(
                hints@,
                mid,
                before,
                hints_spec(items@[k as int]),
                hints_seq(items@.skip(k as int + 1)),
            );
        }
    }
}

/// The rendered form of a hint entry: its anchor's bounds and the label of
/// the entry's type resolved to its most concrete form.
pub open spec fn triple_of(h: (Span, Ty), table: Seq<Ty>) -> (int, int, Seq<u8>) {
    (h.0.start as int, h.0.end as int, label_of(spec_most_concrete(h.1, table)))
}

/// Collects every inlay hint of a document's forest, rendered for the
/// protocol: anchor start, anchor end, and the label of the inferred type.
pub fn collect_hints(forest: &Vec<AnnotatedAst>, table: &TypeTable) -> (r: Vec<
    (usize, usize, Vec<u8>),
>)
    requires
        wf_forest(forest@),
        forall|i: int|
            0 <= i < forest@.len() ==> (#[trigger] forest@[i]).span.end < usize::MAX,
    ensures
        r@.len() == hints_forest(forest@).len(),
        forall|i: int|
            0 <= i < r@.len() ==> {
                let t = triple_of(hints_forest(forest@)[i], table@);
                (#[trigger] r@[i]).0 == t.0 && r@[i].1 == t.1 && r@[i].2@ == t.2
            },
{
    let mut sites: Vec<(Span, &Ty)> = Vec::new();
    let mut k: usize = 0;
    proof {
        assert(forest@.take(0) =~= Seq::<AnnotatedAst>::empty());
        lemma_extends_nothing(sites@);
    }
    while k < forest.len()
        invariant
            k <= forest@.len(),
            wf_forest(forest@),
            forall|i: int| 0 <= i < forest@.len() ==> (#[trigger] forest@[i]).span.end < usize::MAX,
            extends_with(sites@, Seq::empty(), hints_forest(forest@.take(k as int))),
        decreases forest@.len() - k,
    {
        proof {
            lemma_wf_forest_index(forest@, k as int);
        }
        let ghost before: Seq<(Span, &Ty)> = sites@;
        get_inlay_hints(&forest[k], &mut sites);
        proof {
            lemma_extends_trans(
                sites@,
                before,
                Seq::empty(),
                hints_forest(forest@.take(k as int)),
                hints_spec(forest@[k as int]),
            );
            assert(forest@.take(k as int + 1) =~= forest@.take(k as int).push(forest@[k as int]));
            lemma_hints_forest_snoc(forest@.take(k as int), forest@[k as int]);
        }
        k = k + 1;
    }
    proof {
        assert(forest@.take(forest@.len() as int) =~= forest@);
    }
    let ghost collected: Seq<(Span, Ty)> = hints_forest(forest@);
    proof {
        assert forall|i: int|
            0 <= i < collected.len() implies (#[trigger] sites@[i]).0 == collected[i].0 && *sites@[
            i].1 == collected[i].1 by {
            let e = Seq::<(Span, &Ty)>::empty();
            assert(sites@[e.len() + i] == sites@[i]);
        }
    }
    let mut out: Vec<(usize, usize, Vec<u8>)> = Vec::new();
    let mut j: usize = 0;
    while j < sites.len()
        invariant
            j <= sites@.len(),
            sites@.len() == collected.len(),
            forall|i: int|
                0 <= i < collected.len() ==> (#[trigger] sites@[i]).0 == collected[i].0 && *sites@[
                i].1 == collected[i].1,
            out@.len() == j,
            forall|i: int|
                0 <= i < j ==> {
                    let t = triple_of(collected[i], table@);
                    (#[trigger] out@[i]).0 == t.0 && out@[i].1 == t.1 && out@[i].2@ == t.2
                },
        decreases sites@.len() - j,
    {
        let (anchor, t): (Span, &Ty) = sites[j];
        let concrete: &Ty = get_most_concrete_type(t, table);
        let mut label: Vec<u8> = Vec::new();
        render_label(concrete, &mut label);
        proof {
            assert(label@ =~= label_of(spec_most_concrete(collected[j as int].1, table@)));
        }
        out.push((anchor.start, anchor.end, label));
        j = j + 1;
    }
    out
}

/// Splitting off the first `k` nodes splits their hints off the front.
proof fn lemma_hints_forest_snoc(s: Seq<AnnotatedAst>, x: AnnotatedAst)
    ensures
        hints_forest(s.push(x)) == hints_forest(s) + hints_spec(x),
    decreases s,
{
    if s.len() == 0 {
        assert(s.push(x)[0] == x);
        assert(s.push(x).drop_first() =~= Seq::<AnnotatedAst>::empty());
        assert(hints_forest(s.push(x)) == hints_spec(x) + hints_forest(s.push(x).drop_first()));
        assert(hints_forest(Seq::<AnnotatedAst>::empty()) =~= Seq::<(Span, Ty)>::empty());
        assert(hints_forest(s.push(x)) =~= hints_forest(s) + hints_spec(x));
    } else {
        assert(s.push(x)[0] == s[0]);
        assert(s.push(x).drop_first() =~= s.drop_first().push(x));
        lemma_hints_forest_snoc(s.drop_first(), x);
        assert(hints_forest(s.push(x)) =~= hints_forest(s) + hints_spec(x));
    }
}

/// Each node of a well-formed forest is itself well formed.
proof fn lemma_wf_forest_index(s: Seq<AnnotatedAst>, k: int)
    requires
        wf_forest(s),
        0 <= k < s.len(),
    ensures
        wf_ast(s[k]),
    decreases k,
{
    if k > 0 {
        lemma_wf_forest_index(s.drop_first(), k - 1);
        assert(s.drop_first()[k - 1] == s[k]);
    }
}

} // verus!
