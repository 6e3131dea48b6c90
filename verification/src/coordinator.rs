use vstd::prelude::*;
use crate::ast::Token;
use crate::span::Span;
use crate::store::{Analysis, Document, DocumentStore};
use crate::store::wf_document;
use crate::text::{col_of, line_col_at, line_of};

verus! {

/// A diagnostic ready for the wire: its message and the line/column range
/// of the offending span against the new text snapshot.
#[derive(Debug)]
pub struct Diagnostic {
    pub message: Vec<u8>,
    pub start_line: usize,
    pub start_col: usize,
    pub end_line: usize,
    pub end_col: usize,
}

/// An offset clamped into the text, so that even an error span a frontend
/// reports past the end of the document translates to a position.
pub open spec fn clamped(x: usize, limit: int) -> int {
    if x > limit {
        limit
    } else {
        x as int
    }
}

/// The translated range of one reported error: start and end clamped into
/// the text, the end never before the start, both as line/column.
pub open spec fn diag_range_spec(sp: Span, text: Seq<u8>) -> (int, int, int, int) {
    let s = clamped(sp.start, text.len() as int);
    let e0 = clamped(sp.end, text.len() as int);
    let e = if e0 < s {
        s
    } else {
        e0
    };
    (line_of(text, s), col_of(text, s), line_of(text, e), col_of(text, e))
}

fn clamp_to(x: usize, limit: usize) -> (r: usize)
    ensures
        r as int == clamped(x, limit as int),
        r <= limit,
{
    if x > limit {
        limit
    } else {
        x
    }
}

fn clone_bytes(v: &Vec<u8>) -> (r: Vec<u8>)
    ensures
        r@ == v@,
{
    let mut out: Vec<u8> = Vec::new();
    let mut k: usize = 0;
    while k < v.len()
        invariant
            k <= v@.len(),
            out@.len() == k,
            forall|i: int| 0 <= i < k ==> out@[i] == v@[i],
        decreases v@.len() - k,
    {
        out.push(v[k]);
        k = k + 1;
    }
    proof {
        assert(out@ =~= v@);
    }
    out
}

/// Translates the frontend's reported error spans into line/column ranges
/// against the new text snapshot, one diagnostic per error, in order.
pub fn translate_errors(errors: &Vec<(Vec<u8>, Span)>, text: &Vec<u8>) -> (r: Vec<Diagnostic>)
    ensures
        r@.len() == errors@.len(),
        forall|i: int|
            0 <= i < r@.len() ==> {
                let range = diag_range_spec(errors@[i].1, text@);
                (#[trigger] r@[i]).message@ == errors@[i].0@ && r@[i].start_line == range.0
                    && r@[i].start_col == range.1 && r@[i].end_line == range.2 && r@[i].end_col
                    == range.3
            },
{
    let mut out: Vec<Diagnostic> = Vec::new();
    let mut k: usize = 0;
    while k < errors.len()
        invariant
            k <= errors@.len(),
            out@.len() == k,
            forall|i: int|
                0 <= i < k ==> {
                    let range = diag_range_spec(errors@[i].1, text@);
                    (#[trigger] out@[i]).message@ == errors@[i].0@ && out@[i].start_line == range.0
                        && out@[i].start_col == range.1 && out@[i].end_line == range.2
                        && out@[i].end_col == range.3
                },
        decreases errors@.len() - k,
    {
        let entry: &(Vec<u8>, Span) = &errors[k];
        let sp: Span = entry.1;
        let s: usize = clamp_to(sp.start, text.len());
        let e0: usize = clamp_to(sp.end, text.len());
        let e: usize = if e0 < s {
            s
        } else {
            e0
        };
        let (start_line, start_col): (usize, usize) = line_col_at(text, s);
        let (end_line, end_col): (usize, usize) = line_col_at(text, e);
        let message: Vec<u8> = clone_bytes(&entry.0);
        out.push(Diagnostic { message, start_line, start_col, end_line, end_col });
        k = k + 1;
    }
    out
}

/// Handles an open or change notification: replaces the uri's cached state
/// with one whole new document built from the frontend's output, and hands
/// back the reported errors translated against the new snapshot. The entry
/// is swapped atomically; a failed analysis leaves the syntax forest absent
/// while the token stream, possibly partial, keeps degraded highlighting
/// available.
pub fn on_change(
    store: &mut DocumentStore,
    uri: String,
    text: Vec<u8>,
    version: i32,
    tokens: Vec<Token>,
    analysis: Option<Analysis>,
    errors: Vec<(Vec<u8>, Span)>,
) -> (diags: Vec<Diagnostic>)
    requires
        old(store).wf(),
    ensures
        final(store).wf(),
        final(store).contents().dom() == old(store).contents().dom().insert(uri@),
        forall|k: Seq<char>|
            k != uri@ && old(store).contents().dom().contains(k)
                ==> #[trigger] final(store).contents()[k] == old(store).contents()[k],
        final(store).contents().dom().contains(uri@),
        wf_document(final(store).contents()[uri@]),
        final(store).contents()[uri@].text@ == text@,
        final(store).contents()[uri@].version == version,
        (text@.len() < u32::MAX && crate::ast::wf_tokens(tokens@, text@.len() as int))
            ==> final(store).contents()[uri@].tokens@ == tokens@,
        !(text@.len() < u32::MAX && crate::ast::wf_tokens(tokens@, text@.len() as int))
            ==> final(store).contents()[uri@].tokens@ == Seq::<Token>::empty(),
        (match analysis {
            Some(a) => if text@.len() < u32::MAX && crate::ast::wf_forest(a.forest@)
                && crate::ast::forest_bounded(a.forest@, text@.len() as int) {
                final(store).contents()[uri@].analysis matches Some(kept) && kept.forest@
                    == a.forest@ && kept.table@ == a.table@
            } else {
                final(store).contents()[uri@].analysis is None
            },
            None => final(store).contents()[uri@].analysis is None,
        }),
        diags@.len() == errors@.len(),
        forall|i: int|
            0 <= i < diags@.len() ==> {
                let range = diag_range_spec(errors@[i].1, text@);
                (#[trigger] diags@[i]).message@ == errors@[i].0@ && diags@[i].start_line == range.0
                    && diags@[i].start_col == range.1 && diags@[i].end_line == range.2
                    && diags@[i].end_col == range.3
            },
{
    let diags: Vec<Diagnostic> = translate_errors(&errors, &text);
    let doc: Document = Document::new(text, version, tokens, analysis);
    store.update(uri, doc);
    diags
}

/// Handles a close notification: every cached piece of the uri's state is
/// removed in one step, and later queries for it answer absent or empty.
pub fn on_close(store: &mut DocumentStore, uri: &String)
    requires
        old(store).wf(),
    ensures
        final(store).wf(),
        final(store).contents() == old(store).contents().remove(uri@),
{
    store.close(uri);
}

} // verus!
