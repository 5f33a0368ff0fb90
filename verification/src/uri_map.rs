//! The URI-keyed document store: exactly one document per open URI,
//! reached through the store so no two accessors can observe inconsistent
//! partial state.
//!
//! A reference to an unseen URI silently initializes an empty document —
//! a deliberate lazy-creation policy, made explicit here by the
//! `contains_uri` query and the entry-ensuring step every operation
//! shares.

use vstd::prelude::*;
use vstd::slice::slice_to_vec;
use vstd::utf8::valid_utf8;

use crate::bni::collect_spec;
use crate::bni::NodeSpan;
use crate::document::apply_changes_spec;
use crate::document::doc_wf;
use crate::document::empty_doc;
use crate::document::open_doc;
use crate::document::ChangeError;
use crate::document::DocModel;
use crate::document::Document;
use crate::document::EditDescriptor;
use crate::line_list::clone_bytes;
use crate::line_list::join_lines;
use crate::line_list::TextError;
use crate::semantic_hub::hub_data_spec;
use crate::text_document::TextDocumentContentChangeEvent;

verus! {

/// One stored document and the URI that owns it.
#[derive(Debug)]
pub struct UriMapEntry {
    pub uri: Vec<u8>,
    pub doc: Document,
}

/// The store: URI-keyed documents, each URI present at most once.
#[derive(Debug)]
pub struct UriMap {
    pub entries: Vec<UriMapEntry>,
}

/// The store's mathematical model: the URIs with their document models,
/// in storage order.
pub open spec fn store_view(es: Seq<UriMapEntry>) -> Seq<(Seq<u8>, DocModel)> {
    es.map_values(|e: UriMapEntry| (e.uri@, e.doc@))
}

impl View for UriMap {
    type V = Seq<(Seq<u8>, DocModel)>;

    open spec fn view(&self) -> Seq<(Seq<u8>, DocModel)> {
        store_view(self.entries@)
    }
}

/// The index of the entry owning `uri`, if any.
pub open spec fn find_uri(v: Seq<(Seq<u8>, DocModel)>, uri: Seq<u8>) -> Option<int>
    decreases v.len(),
{
    if v.len() == 0 {
        None
    } else if v[0].0 == uri {
        Some(0int)
    } else {
        match find_uri(v.drop_first(), uri) {
            Some(j) => Some(j + 1),
            None => None,
        }
    }
}

/// Well-formedness of the store: no URI twice, every document well formed.
pub open spec fn store_wf(v: Seq<(Seq<u8>, DocModel)>) -> bool {
    &&& forall|i: int, j: int| 0 <= i < j < v.len() ==> v[i].0 != v[j].0
    &&& forall|i: int| 0 <= i < v.len() ==> doc_wf((#[trigger] v[i]).1)
}

/// The store once an entry for `uri` is present — unchanged when the URI
/// is known, grown by one empty document when it is not — together with
/// that entry's index.
pub open spec fn ensure_spec(v: Seq<(Seq<u8>, DocModel)>, uri: Seq<u8>) -> (
    Seq<(Seq<u8>, DocModel)>,
    int,
) {
    match find_uri(v, uri) {
        Some(j) => (v, j),
        None => (v.push((uri, empty_doc())), v.len() as int),
    }
}

proof fn lemma_find_uri_at(v: Seq<(Seq<u8>, DocModel)>, uri: Seq<u8>, i: int)
    requires
        0 <= i < v.len(),
        v[i].0 == uri,
        forall|k: int| 0 <= k < i ==> v[k].0 != uri,
    ensures
        find_uri(v, uri) == Some(i),
    decreases v.len(),
{
    if i > 0 {
        let d = v.drop_first();
        assert(forall|k: int| 0 <= k < i - 1 ==> d[k] == v[k + 1]);
        assert(d[i - 1] == v[i]);
        lemma_find_uri_at(d, uri, i - 1);
    }
}

proof fn lemma_find_uri_none(v: Seq<(Seq<u8>, DocModel)>, uri: Seq<u8>)
    requires
        forall|k: int| 0 <= k < v.len() ==> (#[trigger] v[k]).0 != uri,
    ensures
        find_uri(v, uri) is None,
    decreases v.len(),
{
    if v.len() > 0 {
        let d = v.drop_first();
        assert(forall|k: int| 0 <= k < d.len() ==> d[k] == v[k + 1]);
        lemma_find_uri_none(d, uri);
    }
}

/// Whatever `find_uri` returns points at `uri`, behind no earlier copy.
pub proof fn lemma_find_uri(v: Seq<(Seq<u8>, DocModel)>, uri: Seq<u8>)
    ensures
        match find_uri(v, uri) {
            Some(j) => 0 <= j < v.len() && v[j].0 == uri && forall|k: int|
                0 <= k < j ==> (#[trigger] v[k]).0 != uri,
            None => forall|k: int| 0 <= k < v.len() ==> (#[trigger] v[k]).0 != uri,
        },
    decreases v.len(),
{
    if v.len() > 0 && v[0].0 != uri {
        let d = v.drop_first();
        lemma_find_uri(d, uri);
        assert(forall|k: int| 0 <= k < d.len() ==> d[k] == v[k + 1]);
        match find_uri(d, uri) {
            Some(j) => {
                assert(v[j + 1].0 == uri);
                assert forall|k: int| 0 <= k < j + 1 implies (#[trigger] v[k]).0 != uri by {
                    if k > 0 {
                        assert(d[k - 1].0 != uri);
                    }
                }
            },
            None => {
                assert forall|k: int| 0 <= k < v.len() implies (#[trigger] v[k]).0 != uri by {
                    if k > 0 {
                        assert(d[k - 1].0 != uri);
                    }
                }
            },
        }
    }
}

/// Byte-for-byte equality of two byte strings.
fn bytes_eq(a: &[u8], b: &[u8]) -> (r: bool)
    ensures
        r == (a@ == b@),
{
    let an = a.len();
    if an != b.len() {
        return false;
    }
    let mut i: usize = 0;
    while i < an
        invariant
            an == a@.len(),
            an == b@.len(),
            i <= an,
            forall|j: int| 0 <= j < i ==> a@[j] == b@[j],
        decreases an - i,
    {
        if a[i] != b[i] {
            return false;
        }
        i = i + 1;
    }
    proof {
        assert(a@ =~= b@);
    }
    true
}

impl UriMap {
    /// Well-formedness of the store.
    pub open spec fn wf(&self) -> bool {
        store_wf(self@)
    }

    /// An empty store.
    pub fn new() -> (r: Self)
        ensures
            r@ == Seq::<(Seq<u8>, DocModel)>::empty(),
            r.wf(),
    {
        let r = UriMap { entries: Vec::new() };
        proof {
            assert(r@ =~= Seq::<(Seq<u8>, DocModel)>::empty());
        }
        r
    }

    /// Whether the store already holds a document for `uri`.
    pub fn contains_uri(&self, uri: &[u8]) -> (r: bool)
        ensures
            r == find_uri(self@, uri@).is_some(),
    {
        self.find_index(uri).is_some()
    }

    /// The index of the entry owning `uri`, if any.
    #[verifier::loop_isolation(false)]
    fn find_index(&self, uri: &[u8]) -> (r: Option<usize>)
        ensures
            match r {
                Some(i) => find_uri(self@, uri@) == Some(i as int),
                None => find_uri(self@, uri@) is None,
            },
    {
        let n = self.entries.len();
        let mut i: usize = 0;
        while i < n
            invariant
                i <= n,
                n == self@.len(),
                forall|k: int| 0 <= k < i ==> (#[trigger] self@[k]).0 != uri@,
            decreases n - i,
        {
            proof {
                assert(self@[i as int] == (self.entries@[i as int].uri@,
                    self.entries@[i as int].doc@,
                ));
            }
            if bytes_eq(self.entries[i].uri.as_slice(), uri) {
                proof {
                    lemma_find_uri_at(self@, uri@, i as int);
                }
                return Some(i);
            }
            i = i + 1;
        }
        proof {
            lemma_find_uri_none(self@, uri@);
        }
        None
    }

    /// Finds the entry for `uri`, creating an empty document for it on
    /// first reference.
    fn ensure_entry(&mut self, uri: &[u8]) -> (i: usize)
        requires
            old(self).wf(),
        ensures
            final(self).wf(),
            final(self)@ == ensure_spec(old(self)@, uri@).0,
            i as int == ensure_spec(old(self)@, uri@).1,
            i < final(self)@.len(),
            final(self)@[i as int].0 == uri@,
            final(self)@.len() == final(self).entries@.len(),
    {
        proof {
            lemma_find_uri(self@, uri@);
        }
        match self.find_index(uri) {
            Some(i) => i,
            None => {
                let ghost v0 = self@;
                let i = self.entries.len();
                self.entries.push(UriMapEntry { uri: slice_to_vec(uri), doc: Document::new() });
                proof {
                    assert(self@ =~= v0.push((uri@, empty_doc())));
                    assert forall|a: int, b: int|
                        0 <= a < b < self@.len() implies self@[a].0 != self@[b].0 by {
                        if b < v0.len() {
                            assert(self@[a] == v0[a] && self@[b] == v0[b]);
                        } else {
                            assert(self@[b].0 == uri@);
                            assert(self@[a] == v0[a]);
                        }
                    }
                }
                i
            },
        }
    }

    /// Opens or resets the document for `uri`: sets its text, clears its
    /// tokens, stores the language tag. Text that is not valid UTF-8 is
    /// rejected, leaving the entry as it was, though a previously unseen
    /// URI keeps its freshly created empty document.
    pub fn open(&mut self, uri: &[u8], language_id: &[u8], text: &[u8]) -> (r: Result<
        (),
        TextError,
    >)
        requires
            old(self).wf(),
            text@.len() < usize::MAX,
        ensures
            final(self).wf(),
            ({
                let p = ensure_spec(old(self)@, uri@);
                match r {
                    Ok(()) => valid_utf8(text@) && final(self)@ == p.0.update(
                        p.1,
                        (uri@, open_doc(text@, language_id@)),
                    ),
                    Err(e) => e == TextError::InvalidUtf8 && !valid_utf8(text@) && final(self)@
                        == p.0,
                }
            }),
    {
        let i = self.ensure_entry(uri);
        let ghost mid = self@;
        let mut e = self.entries.remove(i);
        let r = e.doc.open(language_id, text);
        self.entries.insert(i, e);
        proof {
            match r {
                Ok(()) => {
                    assert(self@ =~= mid.update(i as int, (uri@, open_doc(text@, language_id@))));
                },
                Err(_) => {
                    assert(self@ =~= mid);
                },
            }
        }
        r
    }

    /// Applies a batch of incremental edits to the document for `uri`,
    /// strictly in order, and returns one descriptor per applied edit.
    /// The first invalid edit is rejected with the edits before it kept.
    pub fn change(&mut self, uri: &[u8], changes: &Vec<TextDocumentContentChangeEvent>) -> (r:
        Result<Vec<EditDescriptor>, ChangeError>)
        requires
            old(self).wf(),
        ensures
            final(self).wf(),
            ({
                let p = ensure_spec(old(self)@, uri@);
                let m = p.0[p.1].1;
                let rec = apply_changes_spec(m.lines, changes@);
                &&& final(self)@ == p.0.update(
                    p.1,
                    (
                        uri@,
                        DocModel { lines: rec.0, tokens: m.tokens, language: m.language },
                    ),
                )
                &&& match (r, rec.1) {
                    (Ok(ds), Ok(ds2)) => ds@ == ds2,
                    (Err(e1), Err(e2)) => e1 == e2,
                    _ => false,
                }
            }),
    {
        let i = self.ensure_entry(uri);
        let ghost mid = self@;
        let mut e = self.entries.remove(i);
        let r = e.doc.apply_edits(changes);
        self.entries.insert(i, e);
        proof {
            let m = mid[i as int].1;
            let rec = apply_changes_spec(m.lines, changes@);
            assert(self@ =~= mid.update(
                i as int,
                (uri@, DocModel { lines: rec.0, tokens: m.tokens, language: m.language }),
            ));
        }
        r
    }

    /// Clears and rebuilds the token collection of the document for `uri`
    /// from a parse tree's immediate children.
    pub fn collect(&mut self, uri: &[u8], children: &Vec<NodeSpan>)
        requires
            old(self).wf(),
            forall|i: int| 0 <= i < children@.len() ==> (#[trigger] children@[i]).wf(),
        ensures
            final(self).wf(),
            ({
                let p = ensure_spec(old(self)@, uri@);
                let m = p.0[p.1].1;
                final(self)@ == p.0.update(
                    p.1,
                    (
                        uri@,
                        DocModel {
                            lines: m.lines,
                            tokens: collect_spec(children@),
                            language: m.language,
                        },
                    ),
                )
            }),
    {
        let i = self.ensure_entry(uri);
        let ghost mid = self@;
        let mut e = self.entries.remove(i);
        e.doc.collect(children);
        self.entries.insert(i, e);
        proof {
            let m = mid[i as int].1;
            assert(self@ =~= mid.update(
                i as int,
                (
                    uri@,
                    DocModel { lines: m.lines, tokens: collect_spec(children@), language: m.language },
                ),
            ));
        }
    }

    /// The encoded token array of the document for `uri`.
    pub fn semantic_data(&mut self, uri: &[u8]) -> (r: Vec<usize>)
        requires
            old(self).wf(),
        ensures
            final(self).wf(),
            final(self)@ == ensure_spec(old(self)@, uri@).0,
            r@ == hub_data_spec(
                ensure_spec(old(self)@, uri@).0[ensure_spec(old(self)@, uri@).1].1.tokens,
            ),
    {
        let i = self.ensure_entry(uri);
        proof {
            assert(self@[i as int] == (self.entries@[i as int].uri@, self.entries@[i as int].doc@));
        }
        self.entries[i].doc.semantic.data()
    }

    /// The language tag of the document for `uri`, if one was opened.
    pub fn language(&mut self, uri: &[u8]) -> (r: Option<Vec<u8>>)
        requires
            old(self).wf(),
        ensures
            final(self).wf(),
            final(self)@ == ensure_spec(old(self)@, uri@).0,
            ({
                let m = ensure_spec(old(self)@, uri@).0[ensure_spec(old(self)@, uri@).1].1;
                match (r, m.language) {
                    (Some(v), Some(l)) => v@ == l,
                    (None::<Vec<u8>>, None::<Seq<u8>>) => true,
                    _ => false,
                }
            }),
    {
        let i = self.ensure_entry(uri);
        proof {
            assert(self@[i as int] == (self.entries@[i as int].uri@, self.entries@[i as int].doc@));
        }
        match &self.entries[i].doc.lng {
            Some(v) => Some(clone_bytes(v)),
            None => None,
        }
    }

    /// The full text of the document for `uri`: its lines joined with
    /// line feeds.
    pub fn text(&mut self, uri: &[u8]) -> (r: Vec<u8>)
        requires
            old(self).wf(),
        ensures
            final(self).wf(),
            final(self)@ == ensure_spec(old(self)@, uri@).0,
            r@ == join_lines(
                ensure_spec(old(self)@, uri@).0[ensure_spec(old(self)@, uri@).1].1.lines,
            ),
    {
        let i = self.ensure_entry(uri);
        proof {
            assert(self@[i as int] == (self.entries@[i as int].uri@, self.entries@[i as int].doc@));
        }
        self.entries[i].doc.line_list.to_text()
    }

    /// Discards the document for `uri`, if any; a later reference to the
    /// same URI starts over from an empty document.
    pub fn close(&mut self, uri: &[u8])
        requires
            old(self).wf(),
        ensures
            final(self).wf(),
            final(self)@ == match find_uri(old(self)@, uri@) {
                Some(j) => old(self)@.remove(j),
                None => old(self)@,
            },
    {
        let ghost v0 = self@;
        proof {
            lemma_find_uri(self@, uri@);
            assert(self@.len() == self.entries@.len());
        }
        match self.find_index(uri) {
            Some(i) => {
                proof {
                    assert(i < self.entries@.len());
                }
                self.entries.remove(i);
                proof {
                    assert(self@ =~= v0.remove(i as int));
                    assert forall|a: int, b: int|
                        0 <= a < b < self@.len() implies self@[a].0 != self@[b].0 by {
                        let a0 = if a < i as int {
                            a
                        } else {
                            a + 1
                        };
                        let b0 = if b < i as int {
                            b
                        } else {
                            b + 1
                        };
                        assert(self@[a] == v0[a0] && self@[b] == v0[b0]);
                    }
                }
            },
            None => {},
        }
    }
}

} // verus!
