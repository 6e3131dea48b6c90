use vstd::prelude::*;
use std::sync::Arc;
use crate::ast::{AnnotatedAst, Token};
use crate::ast::{check_tokens, check_wf_forest, forest_bounded, wf_forest, wf_tokens};
use crate::hover::{find_type_at, find_type_at_spec};
use crate::inlay_hints::{collect_hints, hints_forest, triple_of};
use crate::semantic_tokens::{
    cats_ordered,
    classify_forest,
    classify_ok_forest,
    classify_tokens,
    decode_positions,
    encode_spec,
    lemma_cats_pairwise,
    lemma_classify_forest_sorted,
    lemma_delta_round_trip,
    lemma_lexical_sorted,
    lexical_spec,
    make_tokens_of_forest,
    make_tokens_semantic,
    positions_of,
    Category,
    ClassifyError,
    WireToken,
};
use crate::span::Span;
use crate::text::{col_of, line_col_at, line_of};
use crate::types::{get_most_concrete_type, label_of, render_label, spec_most_concrete, Ty, TypeTable};

verus! {

/// The analysis results of one successful parse and inference run.
#[derive(Debug)]
pub struct Analysis {
    pub forest: Vec<AnnotatedAst>,
    pub table: TypeTable,
}

/// Everything cached for one open document: the text snapshot, its version,
/// the token stream, and, when parsing and inference succeeded, the syntax
/// forest with its type table. An entry is replaced as a whole on every
/// change, never field by field.
#[derive(Debug)]
pub struct Document {
    pub text: Vec<u8>,
    pub version: i32,
    pub tokens: Vec<Token>,
    pub analysis: Option<Analysis>,
}

/// The invariants every stored document obeys: the token stream sorted and
/// bounded by the text, any syntax forest well formed and bounded by the
/// text, and, whenever either is present, the text short enough for the
/// wire form's 32-bit fields.
pub open spec fn wf_document(d: Document) -> bool {
    wf_tokens(d.tokens@, d.text@.len() as int) && (d.tokens@.len() > 0 ==> d.text@.len()
        < u32::MAX) && match d.analysis {
        Some(a) => wf_forest(a.forest@) && forest_bounded(a.forest@, d.text@.len() as int)
            && d.text@.len() < u32::MAX,
        None => true,
    }
}

impl Document {
    /// Assembles a document from a frontend's output, keeping the token
    /// stream and the analysis only when they pass the invariant checks, so
    /// that every later query can rely on the invariants. The text itself
    /// is always kept.
    pub fn new(text: Vec<u8>, version: i32, tokens: Vec<Token>, analysis: Option<Analysis>) -> (r:
        Document)
        ensures
            wf_document(r),
            r.text@ == text@,
            r.version == version,
            (text@.len() < u32::MAX && wf_tokens(tokens@, text@.len() as int)) ==> r.tokens@
                == tokens@,
            !(text@.len() < u32::MAX && wf_tokens(tokens@, text@.len() as int)) ==> r.tokens@
                == Seq::<Token>::empty(),
            (match analysis {
                Some(a) => if text@.len() < u32::MAX && wf_forest(a.forest@) && forest_bounded(
                    a.forest@,
                    text@.len() as int,
                ) {
                    r.analysis matches Some(kept) && kept.forest@ == a.forest@ && kept.table@
                        == a.table@
                } else {
                    r.analysis is None
                },
                None => r.analysis is None,
            }),
    {
        let text_ok: bool = (text.len() as u64) < (u32::MAX as u64);
        let tokens_ok: bool = text_ok && check_tokens(&tokens, text.len());
        let kept_tokens: Vec<Token> = if tokens_ok {
            tokens
        } else {
            Vec::new()
        };
        let kept_analysis: Option<Analysis> = match analysis {
            Some(a) => {
                if text_ok && check_wf_forest(&a.forest, text.len()) {
                    Some(a)
                } else {
                    None
                }
            },
            None => None,
        };
        Document { text, version, tokens: kept_tokens, analysis: kept_analysis }
    }
}

/// The rendered hover answer of a document at a byte offset: the label of
/// the most specific resolved type, made concrete through the type table.
pub open spec fn hover_label_spec(d: Document, offset: usize) -> Option<Seq<u8>> {
    match d.analysis {
        Some(a) => match find_type_at_spec(a.forest@, offset) {
            Some(t) => Some(label_of(spec_most_concrete(t, a.table@))),
            None => None,
        },
        None => None,
    }
}

/// Answers a hover: the most specific type at the offset, resolved and
/// rendered; absent when the offset hits nothing or no analysis exists.
pub fn hover_query(d: &Document, offset: usize) -> (r: Option<Vec<u8>>)
    requires
        wf_document(*d),
    ensures
        match r {
            Some(v) => hover_label_spec(*d, offset) == Some(v@),
            None => hover_label_spec(*d, offset) is None,
        },
{
    match &d.analysis {
        Some(a) => {
            let found: Option<&Ty> = find_type_at(&a.forest, offset);
            match found {
                Some(t) => {
                    let concrete: &Ty = get_most_concrete_type(t, &a.table);
                    let mut label: Vec<u8> = Vec::new();
                    render_label(concrete, &mut label);
                    proof {
                        assert(label@ =~= label_of(spec_most_concrete(
                            find_type_at_spec(a.forest@, offset)->0,
                            a.table@,
                        )));
                    }
                    Some(label)
                },
                None => None,
            }
        },
        None => None,
    }
}

/// The inlay-hint sites of a document, empty without analysis.
pub open spec fn inlay_entries(d: Document) -> Seq<(Span, Ty)> {
    match d.analysis {
        Some(a) => hints_forest(a.forest@),
        None => Seq::empty(),
    }
}

/// The type table the hint labels resolve through.
pub open spec fn inlay_table(d: Document) -> Seq<Ty> {
    match d.analysis {
        Some(a) => a.table@,
        None => Seq::empty(),
    }
}

/// Collects the document's inlay hints, rendered for the protocol.
pub fn inlay_query(d: &Document) -> (r: Vec<(usize, usize, Vec<u8>)>)
    requires
        wf_document(*d),
    ensures
        r@.len() == inlay_entries(*d).len(),
        forall|i: int|
            0 <= i < r@.len() ==> {
                let t = triple_of(inlay_entries(*d)[i], inlay_table(*d));
                (#[trigger] r@[i]).0 == t.0 && r@[i].1 == t.1 && r@[i].2@ == t.2
            },
{
    match &d.analysis {
        Some(a) => {
            proof {
                lemma_forest_ends(a.forest@, d.text@.len() as int);
            }
            collect_hints(&a.forest, &a.table)
        },
        None => Vec::new(),
    }
}

proof fn lemma_forest_ends(forest: Seq<AnnotatedAst>, limit: int)
    requires
        forest_bounded(forest, limit),
        limit < u32::MAX,
    ensures
        forall|i: int| 0 <= i < forest.len() ==> (#[trigger] forest[i]).span.end < usize::MAX,
{
}

/// The delta-encoded coloring of a document: the structural classification
/// when an analysis exists and covers every variant, the lexical fallback
/// over the raw token stream otherwise.
pub open spec fn semantic_tokens_spec(d: Document) -> Seq<WireToken> {
    match d.analysis {
        Some(a) => if classify_ok_forest(a.forest@) {
            encode_spec(classify_forest(a.forest@, a.table@), d.text@, 0, 0)
        } else {
            encode_spec(lexical_spec(d.tokens@), d.text@, 0, 0)
        },
        None => encode_spec(lexical_spec(d.tokens@), d.text@, 0, 0),
    }
}

/// Produces the document's semantic tokens in wire form: structural
/// classification when the analysis is available and complete, with the
/// lexical fallback otherwise, delta-encoded against the text snapshot.
pub fn semantic_tokens_query(d: &Document) -> (r: Vec<WireToken>)
    requires
        wf_document(*d),
    ensures
        r@ == semantic_tokens_spec(*d),
{
    match &d.analysis {
        Some(a) => {
            let classified: Result<Vec<(Category, Span)>, ClassifyError> = make_tokens_of_forest(
                &a.forest,
                &a.table,
            );
            match classified {
                Ok(cats) => {
                    proof {
                        lemma_classify_forest_sorted(a.forest@, a.table@, d.text@.len() as int);
                    }
                    make_tokens_semantic(&cats, &d.text)
                },
                Err(_) => lexical_wire(d),
            }
        },
        None => lexical_wire(d),
    }
}

/// The lexical fallback, delta-encoded: used when no analysis exists or a
/// classification gap was found.
fn lexical_wire(d: &Document) -> (r: Vec<WireToken>)
    requires
        wf_document(*d),
    ensures
        r@ == encode_spec(lexical_spec(d.tokens@), d.text@, 0, 0),
{
    let cats: Vec<(Category, Span)> = classify_tokens(&d.tokens);
    proof {
        lemma_lexical_sorted(d.tokens@, d.text@.len() as int);
    }
    if cats.len() == 0 {
        proof {
            assert(encode_spec(lexical_spec(d.tokens@), d.text@, 0, 0) =~= Seq::<
                WireToken,
            >::empty());
        }
        Vec::new()
    } else {
        proof {
            if d.tokens@.len() == 0 {
                assert(lexical_spec(d.tokens@) =~= Seq::<(Category, Span)>::empty());
            }
        }
        make_tokens_semantic(&cats, &d.text)
    }
}

// ---------------------------------------------------------------------------
// The concurrent per-document cache
// ---------------------------------------------------------------------------
/// The shared handle a reader receives: one consistent snapshot.
pub type DocHandle = Arc<Document>;

/// The underlying concurrent map from uri to snapshot handle.
pub type DocMap = dashmap::DashMap<String, DocHandle>;

#[verifier::external_type_specification]
#[verifier::external_body]
#[verifier::reject_recursive_types(K)]
#[verifier::reject_recursive_types(V)]
#[verifier::reject_recursive_types(S)]
pub struct ExDashMap<K, V, S>(dashmap::DashMap<K, V, S>);

/// What the cache holds: the documents, keyed by uri. Names the contents of
/// the outside concurrent map; the trusted wrappers below state how each
/// call changes them.
pub uninterp spec fn store_contents(m: DocMap) -> Map<Seq<char>, Document>;

/// A map with no documents in it.
pub open spec fn no_documents() -> Map<Seq<char>, Document> {
    Map::empty()
}

/// Relies on dashmap::DashMap::new: creates an empty map.
#[verifier::external_body]
fn dash_new() -> (created: DocMap)
    ensures
        store_contents(created) == no_documents(),
{
    dashmap::DashMap::new()
}

/// Relies on dashmap::DashMap::insert: the entry under the key is replaced
/// by the given value as one whole.
#[verifier::external_body]
fn dash_insert(m: &mut DocMap, k: String, v: DocHandle)
    ensures
        store_contents(*final(m)) == store_contents(*old(m)).insert(k@, *v),
{
    let _ = m.insert(k, v);
}

/// Relies on dashmap::DashMap::get: hands back the value stored under the
/// key, or nothing. The shared handle is cloned so the map's guard is
/// released before returning.
#[verifier::external_body]
fn dash_get(m: &DocMap, k: &String) -> (r: Option<DocHandle>)
    ensures
        match r {
            Some(d) => store_contents(*m).dom().contains(k@) && *d == store_contents(*m)[k@],
            None => !store_contents(*m).dom().contains(k@),
        },
{
    m.get(k).map(|entry| entry.value().clone())
}

/// Relies on dashmap::DashMap::remove: the entry under the key is removed.
#[verifier::external_body]
fn dash_remove(m: &mut DocMap, k: &String)
    ensures
        store_contents(*final(m)) == store_contents(*old(m)).remove(k@),
{
    let _ = m.remove(k);
}

/// The per-uri cache of document snapshots. Each update swaps a whole
/// entry — one atomic pointer replacement in the underlying concurrent
/// map — so a reader never observes a torn mix of old and new state.
pub struct DocumentStore {
    map: DocMap,
}

impl DocumentStore {
    /// The documents held, keyed by uri.
    pub closed spec fn contents(self) -> Map<Seq<char>, Document> {
        store_contents(self.map)
    }

    /// Every stored document obeys the document invariants.
    pub open spec fn wf(self) -> bool {
        forall|k: Seq<char>|
            self.contents().dom().contains(k) ==> wf_document(#[trigger] self.contents()[k])
    }

    pub fn new() -> (r: DocumentStore)
        ensures
            r.contents() == no_documents(),
            r.wf(),
    {
        DocumentStore { map: dash_new() }
    }

    /// Stores a document under a uri, replacing any previous entry as a
    /// whole.
    pub fn update(&mut self, uri: String, doc: Document)
        requires
            old(self).wf(),
            wf_document(doc),
        ensures
            final(self).contents() == old(self).contents().insert(uri@, doc),
            final(self).wf(),
    {
        let handle: DocHandle = Arc::new(doc);
        dash_insert(&mut self.map, uri, handle);
        proof {
            assert forall|k: Seq<char>|
                self.contents().dom().contains(k) implies wf_document(
                #[trigger] self.contents()[k],
            ) by {
                if self.contents()[k] == doc {
                } else {
                    assert(old(self).contents().dom().contains(k));
                    assert(self.contents()[k] == old(self).contents()[k]);
                }
            }
        }
    }

    /// Drops all cached state for a uri.
    pub fn close(&mut self, uri: &String)
        requires
            old(self).wf(),
        ensures
            final(self).contents() == old(self).contents().remove(uri@),
            final(self).wf(),
    {
        dash_remove(&mut self.map, uri);
        proof {
            assert forall|k: Seq<char>|
                self.contents().dom().contains(k) implies wf_document(
                #[trigger] self.contents()[k],
            ) by {
                assert(old(self).contents().dom().contains(k));
                assert(self.contents()[k] == old(self).contents()[k]);
            }
        }
    }

    /// One consistent snapshot of a uri's entry, or nothing for a uri that
    /// was never opened or has been closed.
    pub fn get(&self, uri: &String) -> (r: Option<DocHandle>)
        ensures
            match r {
                Some(d) => self.contents().dom().contains(uri@) && *d == self.contents()[uri@],
                None => !self.contents().dom().contains(uri@),
            },
    {
        dash_get(&self.map, uri)
    }
}

// ---------------------------------------------------------------------------
// The query surface over the store
// ---------------------------------------------------------------------------
/// The hover answer over the whole cache: absent for an unknown uri.
pub open spec fn store_hover_spec(
    m: Map<Seq<char>, Document>,
    uri: Seq<char>,
    offset: usize,
) -> Option<Seq<u8>> {
    if m.dom().contains(uri) {
        hover_label_spec(m[uri], offset)
    } else {
        None
    }
}

/// Answers a hover request against the cache: an unknown uri simply yields
/// nothing, never an error.
pub fn hover(store: &DocumentStore, uri: &String, offset: usize) -> (r: Option<Vec<u8>>)
    requires
        store.wf(),
    ensures
        match r {
            Some(v) => store_hover_spec(store.contents(), uri@, offset) == Some(v@),
            None => store_hover_spec(store.contents(), uri@, offset) is None,
        },
{
    match store.get(uri) {
        Some(d) => hover_query(&d, offset),
        None => None,
    }
}

/// The hint sites over the whole cache: empty for an unknown uri.
pub open spec fn store_inlay_entries(m: Map<Seq<char>, Document>, uri: Seq<char>) -> Seq<
    (Span, Ty),
> {
    if m.dom().contains(uri) {
        inlay_entries(m[uri])
    } else {
        Seq::empty()
    }
}

/// Answers an inlay-hint request against the cache: an unknown uri yields
/// an empty list, never an error.
pub fn inlay_hints(store: &DocumentStore, uri: &String) -> (r: Vec<(usize, usize, Vec<u8>)>)
    requires
        store.wf(),
    ensures
        r@.len() == store_inlay_entries(store.contents(), uri@).len(),
        forall|i: int|
            0 <= i < r@.len() ==> {
                let entries = store_inlay_entries(store.contents(), uri@);
                let t = triple_of(entries[i], inlay_table(store.contents()[uri@]));
                (#[trigger] r@[i]).0 == t.0 && r@[i].1 == t.1 && r@[i].2@ == t.2
            },
{
    match store.get(uri) {
        Some(d) => inlay_query(&d),
        None => Vec::new(),
    }
}

/// The wire tokens over the whole cache: empty for an unknown uri.
pub open spec fn store_tokens_spec(m: Map<Seq<char>, Document>, uri: Seq<char>) -> Seq<WireToken> {
    if m.dom().contains(uri) {
        semantic_tokens_spec(m[uri])
    } else {
        Seq::empty()
    }
}

/// Answers a semantic-tokens request against the cache: an unknown uri
/// yields an empty sequence, never an error.
pub fn semantic_tokens(store: &DocumentStore, uri: &String) -> (r: Vec<WireToken>)
    requires
        store.wf(),
    ensures
        r@ == store_tokens_spec(store.contents(), uri@),
{
    match store.get(uri) {
        Some(d) => semantic_tokens_query(&d),
        None => Vec::new(),
    }
}

/// For any document whose analysis parsed successfully, the structural
/// classification is strictly increasing and pairwise non-overlapping in
/// span, and reconstructing absolute line/column positions from the
/// delta-encoded wire form reproduces the original position of every entry.
pub proof fn lemma_document_highlighting_round_trip(d: Document)
    requires
        wf_document(d),
    ensures
        match d.analysis {
            Some(a) => {
                let cats = classify_forest(a.forest@, a.table@);
                cats_ordered(cats) && (forall|i: int, j: int|
                    0 <= i < j < cats.len() ==> (#[trigger] cats[i]).1.end <= (
                    #[trigger] cats[j]).1.start && cats[i].1.start < cats[j].1.start)
                    && decode_positions(encode_spec(cats, d.text@, 0, 0), 0, 0) == positions_of(
                    cats,
                    d.text@,
                )
            },
            None => true,
        },
{
    match d.analysis {
        Some(a) => {
            lemma_classify_forest_sorted(a.forest@, a.table@, d.text@.len() as int);
            let cats = classify_forest(a.forest@, a.table@);
            assert forall|i: int, j: int|
                0 <= i < j < cats.len() implies (#[trigger] cats[i]).1.end <= (
            #[trigger] cats[j]).1.start && cats[i].1.start < cats[j].1.start by {
                lemma_cats_pairwise(cats, i, j);
            }
            lemma_delta_round_trip(cats, d.text@);
        },
        None => {
        },
    }
}

/// After a uri is closed, every query for it is absent or empty: the hover
/// yields nothing and the hint and token lists are empty, without an error.
pub proof fn lemma_queries_after_close(m: Map<Seq<char>, Document>, uri: Seq<char>, offset: usize)
    ensures
        store_hover_spec(m.remove(uri), uri, offset) is None,
        store_inlay_entries(m.remove(uri), uri).len() == 0,
        store_tokens_spec(m.remove(uri), uri).len() == 0,
{
    assert(!m.remove(uri).dom().contains(uri));
}

} // verus!
