use vstd::prelude::*;

verus! {

/// A resolved or partially resolved type of the language: either a concrete
/// shape or an indirection, an inference-variable index into the type table.
#[derive(Debug)]
pub enum Ty {
    Number,
    Bool,
    Text,
    Tuple(Vec<Ty>),
    Fn(Vec<Ty>, Box<Ty>),
    Var(usize),
}

/// The table of inference results, indexed by inference-variable id. Entries
/// may themselves be further indirections.
pub type TypeTable = Vec<Ty>;

/// One resolution step after another: follow indirections through the table
/// until a concrete shape, an out-of-range index, or exhausted fuel. The fuel
/// bounds the walk so that a malformed table with an indirection cycle cannot
/// loop forever.
pub open spec fn resolve_spec(t: Ty, table: Seq<Ty>, fuel: nat) -> Ty
    decreases fuel,
{
    if fuel == 0 {
        t
    } else {
        match t {
            Ty::Var(i) => if i < table.len() {
                resolve_spec(table[i as int], table, (fuel - 1) as nat)
            } else {
                t
            },
            _ => t,
        }
    }
}

/// The most concrete form of a type: all top-level indirections followed,
/// with one fuel unit per table entry and one to spare, enough to cross any
/// cycle-free table.
pub open spec fn spec_most_concrete(t: Ty, table: Seq<Ty>) -> Ty {
    resolve_spec(t, table, (table.len() + 1) as nat)
}

/// Resolves a type to its most concrete form by iterative table lookup with
/// a step-count guard.
pub fn get_most_concrete_type<'a>(t: &'a Ty, table: &'a TypeTable) -> (r: &'a Ty)
    ensures
        *r == spec_most_concrete(*t, table@),
{
    let mut cur: &'a Ty = t;
    let mut steps: usize = 0;
    loop
        invariant
            steps <= table@.len(),
            resolve_spec(*cur, table@, (table@.len() + 1 - steps) as nat) == spec_most_concrete(
                *t,
                table@,
            ),
        decreases table@.len() - steps,
    {
        match cur {
            Ty::Var(i) => {
                if *i < table.len() {
                    let next: &'a Ty = &table[*i];
                    if steps == table.len() {
                        proof {
                            assert(resolve_spec(*cur, table@, 1nat) == resolve_spec(
                                table@[*i as int],
                                table@,
                                0nat,
                            ));
                        }
                        return next;
                    }
                    cur = next;
                    steps = steps + 1;
                } else {
                    return cur;
                }
            },
            _ => {
                return cur;
            },
        }
    }
}

/// Whether a type, once resolved through the table, is a function shape.
pub open spec fn spec_is_function(t: Ty, table: Seq<Ty>) -> bool {
    spec_most_concrete(t, table) is Fn
}

pub fn is_function_shape(t: &Ty, table: &TypeTable) -> (r: bool)
    ensures
        r == spec_is_function(*t, table@),
{
    let concrete: &Ty = get_most_concrete_type(t, table);
    match concrete {
        Ty::Fn(_, _) => true,
        _ => false,
    }
}

/// The rendered label of a type, as the editor shows it in hovers and inlay
/// hints. An indirection that survived resolution renders as a placeholder.
pub open spec fn label_of(t: Ty) -> Seq<u8>
    decreases t,
{
    match t {
        Ty::Number => seq![78u8, 117u8, 109u8, 98u8, 101u8, 114u8],
        Ty::Bool => seq![66u8, 111u8, 111u8, 108u8],
        Ty::Text => seq![84u8, 101u8, 120u8, 116u8],
        Ty::Var(_) => seq![63u8],
        Ty::Tuple(items) => seq![40u8] + labels_joined(items@) + seq![41u8],
        Ty::Fn(args, ret) => seq![40u8] + labels_joined(args@) + seq![41u8, 32u8, 45u8, 62u8, 32u8]
            + label_of(*ret),
    }
}

/// The element labels separated by a comma and a space.
pub open spec fn labels_joined(items: Seq<Ty>) -> Seq<u8>
    decreases items,
{
    if items.len() == 0 {
        Seq::empty()
    } else if items.len() == 1 {
        label_of(items[0])
    } else {
        label_of(items[0]) + seq![44u8, 32u8] + labels_joined(items.drop_first())
    }
}

/// Renders a type into the bytes of its label.
pub fn render_label(t: &Ty, out: &mut Vec<u8>)
    ensures
        final(out)@ == old(out)@ + label_of(*t),
    decreases *t,
{
    match t {
        Ty::Number => {
            out.push(78);
            out.push(117);
            out.push(109);
            out.push(98);
            out.push(101);
            out.push(114);
        },
        Ty::Bool => {
            out.push(66);
            out.push(111);
            out.push(111);
            out.push(108);
        },
        Ty::Text => {
            out.push(84);
            out.push(101);
            out.push(120);
            out.push(116);
        },
        Ty::Var(_) => {
            out.push(63);
        },
        Ty::Tuple(items) => {
            out.push(40);
            render_joined(items, out);
            out.push(41);
        },
        Ty::Fn(args, ret) => {
            out.push(40);
            render_joined(args, out);
            out.push(41);
            out.push(32);
            out.push(45);
            out.push(62);
            out.push(32);
            render_label(ret, out);
        },
    }
}

fn render_joined(items: &Vec<Ty>, out: &mut Vec<u8>)
    ensures
        final(out)@ == old(out)@ + labels_joined(items@),
    decreases items@,
{
    let ghost mut done: Seq<u8> = Seq::empty();
    proof {
        assert(items@.skip(0) =~= items@);
        assert(Seq::<u8>::empty() + labels_joined(items@) =~= labels_joined(items@));
        assert(out@ =~= out@ + Seq::<u8>::empty());
    }
    let mut k: usize = 0;
    while k < items.len()
        invariant
            k <= items@.len(),
            out@ == old(out)@ + done,
            done + labels_joined(items@.skip(k as int)) == labels_joined(items@),
        decreases items@.len() - k,
    {
        proof {
            assert(items@.skip(k as int)[0] == items@[k as int]);
            if items@.len() - k > 1 {
                assert(items@.skip(k as int).drop_first() =~= items@.skip(k as int + 1));
            } else {
                assert(items@.skip(k as int + 1) =~= Seq::<Ty>::empty());
            }
        }
        let ghost done_pre: Seq<u8> = done;
        render_label(&items[k], out);
        if k + 1 < items.len() {
            out.push(44);
            out.push(32);
            proof {
                done = done_pre + label_of(items@[k as int]) + seq![44u8, 32u8];
                assert(out@ =~= old(out)@ + done);
                assert(done + labels_joined(items@.skip(k as int + 1)) =~= done_pre
                    + labels_joined(items@.skip(k as int)));
            }
        } else {
            proof {
                done = done_pre + label_of(items@[k as int]);
                assert(out@ =~= old(out)@ + done);
                assert(done + labels_joined(items@.skip(k as int + 1)) =~= done_pre
                    + labels_joined(items@.skip(k as int)));
            }
        }
        k = k + 1;
    }
    proof {
        assert(items@.skip(items@.len() as int) =~= Seq::<Ty>::empty());
        assert(out@ =~= old(out)@ + labels_joined(items@));
    }
}

} // verus!
