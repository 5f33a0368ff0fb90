//! One open document's full state — text buffer, token collection and
//! language tag — and the operations the protocol events drive on it:
//! (re)setting the text on open, translating a batch of incremental edits
//! into the byte descriptors an incremental parser expects, and rebuilding
//! the token collection after a reparse.

use vstd::prelude::*;
use vstd::slice::slice_to_vec;
use vstd::utf8::valid_utf8;

use crate::bni::collect_spec;
use crate::bni::collect_tokens;
use crate::bni::NodeSpan;
use crate::line_list::apply_change_spec;
use crate::line_list::fits;
use crate::line_list::lemma_change_total;
use crate::line_list::lemma_join_split_len;
use crate::line_list::lemma_range_offsets_ordered;
use crate::line_list::lemma_vec_u8_deep_view;
use crate::line_list::line_start;
use crate::line_list::lines_wf;
use crate::line_list::offset_to_position;
use crate::line_list::split_lines;
use crate::line_list::valid_range;
use crate::line_list::LineList;
use crate::line_list::TextError;
use crate::position::Position;
use crate::semantic_hub::hub_view_wf;
use crate::semantic_hub::SemanticTokenHub;
use crate::semantic_hub::Token;
use crate::text_document::TextDocumentContentChangeEvent;

verus! {

/// The mathematical model of one document: its lines, its token
/// collection, and its language tag.
pub struct DocModel {
    pub lines: Seq<Seq<u8>>,
    pub tokens: Seq<(int, Seq<Token>)>,
    pub language: Option<Seq<u8>>,
}

/// The model of a document nothing has touched.
pub open spec fn empty_doc() -> DocModel {
    DocModel { lines: Seq::empty(), tokens: Seq::empty(), language: None }
}

/// The model after an open: the text's lines, no tokens, the language set.
pub open spec fn open_doc(text: Seq<u8>, language_id: Seq<u8>) -> DocModel {
    DocModel { lines: split_lines(text), tokens: Seq::empty(), language: Some(language_id) }
}

/// Well-formedness of a document model.
pub open spec fn doc_wf(m: DocModel) -> bool {
    lines_wf(m.lines) && hub_view_wf(m.tokens)
}

/// One open document's state.
#[derive(Debug)]
pub struct Document {
    pub line_list: LineList,
    pub semantic: SemanticTokenHub,
    pub lng: Option<Vec<u8>>,
}

impl View for Document {
    type V = DocModel;

    open spec fn view(&self) -> DocModel {
        DocModel {
            lines: self.line_list@,
            tokens: self.semantic@,
            language: match self.lng {
                Some(v) => Some(v@),
                None => None,
            },
        }
    }
}

/// The error surfaced when an edit cannot be applied: a range outside the
/// buffer or running backwards is a contract violation of the caller and
/// is rejected rather than clamped or truncated; a change whose resulting
/// text could not be addressed by `usize` is rejected as too large.
#[derive(Clone, Copy, Debug, PartialEq, Eq, Structural)]
pub enum ChangeError {
    InvalidRange,
    TooLarge,
}

/// What an incremental parser is told about one applied edit: the edit's
/// byte range before the change, the replacement's end afterwards, and the
/// same three corners as positions. The start and old end are measured
/// against the buffer before the change, the new end against the buffer
/// after it.
#[derive(Clone, Copy, Debug, PartialEq, Eq, Structural)]
pub struct EditDescriptor {
    pub start_byte: usize,
    pub old_end_byte: usize,
    pub new_end_byte: usize,
    pub start_position: Position,
    pub old_end_position: Position,
    pub new_end_position: Position,
}

/// The change's range lies inside the buffer and runs forwards.
pub open spec fn change_range_ok(ls: Seq<Seq<u8>>, ch: TextDocumentContentChangeEvent) -> bool {
    valid_range(ls, ch.range.start, ch.range.end)
}

/// The changed buffer's offsets stay addressable: its total encoded size,
/// bounded by the old size minus the replaced range plus the new text,
/// fits in `usize`.
pub open spec fn change_size_ok(ls: Seq<Seq<u8>>, ch: TextDocumentContentChangeEvent) -> bool {
    let sb = line_start(ls, ch.range.start.line as int) + ch.range.start.character;
    let oeb = line_start(ls, ch.range.end.line as int) + ch.range.end.character;
    line_start(ls, ls.len() as int) - oeb + sb + ch.text@.len() <= usize::MAX
}

/// The descriptor for one change against buffer `ls`: byte offsets taken
/// before the change, the new end measured after it.
pub open spec fn descriptor_spec(
    ls: Seq<Seq<u8>>,
    ch: TextDocumentContentChangeEvent,
) -> EditDescriptor {
    let sb = line_start(ls, ch.range.start.line as int) + ch.range.start.character;
    let oeb = line_start(ls, ch.range.end.line as int) + ch.range.end.character;
    let after = apply_change_spec(ls, ch.range.start, ch.range.end, ch.text@);
    let neb = sb + ch.text@.len();
    let np = offset_to_position(after, neb);
    EditDescriptor {
        start_byte: sb as usize,
        old_end_byte: oeb as usize,
        new_end_byte: neb as usize,
        start_position: ch.range.start,
        old_end_position: ch.range.end,
        new_end_position: Position { line: np.0 as usize, character: np.1 as usize },
    }
}

/// Prefixes the descriptors of an already-applied batch onto the outcome
/// of the remaining batch.
pub open spec fn prepend_descriptors(
    ds: Seq<EditDescriptor>,
    r: Result<Seq<EditDescriptor>, ChangeError>,
) -> Result<Seq<EditDescriptor>, ChangeError> {
    match r {
        Ok(x) => Ok(ds + x),
        Err(e) => Err(e),
    }
}

/// The outcome of applying a batch of changes strictly in order, each one
/// fully completing before the next: the final buffer and, on success, one
/// descriptor per change; the first rejected change stops the batch and
/// leaves the changes before it applied.
pub open spec fn apply_changes_spec(
    ls: Seq<Seq<u8>>,
    chs: Seq<TextDocumentContentChangeEvent>,
) -> (Seq<Seq<u8>>, Result<Seq<EditDescriptor>, ChangeError>)
    decreases chs.len(),
{
    if chs.len() == 0 {
        (ls, Ok(Seq::empty()))
    } else {
        let ch = chs[0];
        if !change_range_ok(ls, ch) {
            (ls, Err(ChangeError::InvalidRange))
        } else if !change_size_ok(ls, ch) {
            (ls, Err(ChangeError::TooLarge))
        } else {
            let d = descriptor_spec(ls, ch);
            let after = apply_change_spec(ls, ch.range.start, ch.range.end, ch.text@);
            let rec = apply_changes_spec(after, chs.drop_first());
            (rec.0, prepend_descriptors(seq![d], rec.1))
        }
    }
}

/// An accepted change keeps the buffer addressable, and the new end byte
/// it reports stays within `usize`.
proof fn lemma_change_ok_fits(ls: Seq<Seq<u8>>, ch: TextDocumentContentChangeEvent)
    requires
        lines_wf(ls),
        change_range_ok(ls, ch),
        change_size_ok(ls, ch),
    ensures
        fits(apply_change_spec(ls, ch.range.start, ch.range.end, ch.text@)),
        line_start(ls, ch.range.start.line as int) + ch.range.start.character + ch.text@.len()
            <= usize::MAX,
{
    lemma_change_total(ls, ch.range.start, ch.range.end, ch.text@);
    lemma_join_split_len(ch.text@);
    lemma_range_offsets_ordered(ls, ch.range.start, ch.range.end);
}

impl Document {
    /// Well-formedness of the document.
    pub open spec fn wf(&self) -> bool {
        doc_wf(self@)
    }

    /// A document nothing has touched.
    pub fn new() -> (r: Self)
        ensures
            r@ == empty_doc(),
            r.wf(),
    {
        let r = Document {
            line_list: LineList::new(),
            semantic: SemanticTokenHub::new(),
            lng: None,
        };
        r
    }

    /// Opens or resets the document: sets its text, clears its token
    /// collection and stores the language tag. Text that is not valid
    /// UTF-8 is rejected and leaves the document untouched.
    pub fn open(&mut self, language_id: &[u8], text: &[u8]) -> (r: Result<(), TextError>)
        requires
            old(self).wf(),
            text@.len() < usize::MAX,
        ensures
            final(self).wf(),
            match r {
                Ok(()) => valid_utf8(text@) && final(self)@ == open_doc(text@, language_id@),
                Err(e) => e == TextError::InvalidUtf8 && !valid_utf8(text@) && *final(self)
                    == *old(self),
            },
    {
        match self.line_list.set_text(text) {
            Err(e) => Err(e),
            Ok(()) => {
                self.semantic.clear();
                self.lng = Some(slice_to_vec(language_id));
                Ok(())
            },
        }
    }

    /// Applies a batch of incremental edits strictly in order and returns
    /// one descriptor per applied edit, for registration against a parse
    /// tree. The first invalid edit is rejected: the buffer keeps the
    /// edits before it, the token collection and language are never
    /// touched.
    #[verifier::loop_isolation(false)]
    pub fn apply_edits(&mut self, changes: &Vec<TextDocumentContentChangeEvent>) -> (r: Result<
        Vec<EditDescriptor>,
        ChangeError,
    >)
        requires
            old(self).wf(),
        ensures
            final(self).wf(),
            final(self)@.tokens == old(self)@.tokens,
            final(self)@.language == old(self)@.language,
            ({
                let rec = apply_changes_spec(old(self)@.lines, changes@);
                &&& final(self)@.lines == rec.0
                &&& match (r, rec.1) {
                    (Ok(ds), Ok(ds2)) => ds@ == ds2,
                    (Err(e1), Err(e2)) => e1 == e2,
                    _ => false,
                }
            }),
    {
        broadcast use lemma_vec_u8_deep_view;

        let ghost orig = self.line_list@;
        let mut descs: Vec<EditDescriptor> = Vec::new();
        let n = changes.len();
        let mut i: usize = 0;
        proof {
            assert(changes@.skip(0) =~= changes@);
            assert(descs@ + apply_changes_spec(orig, changes@).1.unwrap() =~= apply_changes_spec(
                orig,
                changes@,
            ).1.unwrap());
        }
        while i < n
            invariant
                i <= n,
                self.wf(),
                self@.tokens == old(self)@.tokens,
                self@.language == old(self)@.language,
                ({
                    let rec = apply_changes_spec(orig, changes@);
                    let sub = apply_changes_spec(self.line_list@, changes@.skip(i as int));
                    rec.0 == sub.0 && rec.1 == prepend_descriptors(descs@, sub.1)
                }),
            decreases n - i,
        {
            let ghost cur = self.line_list@;
            let ghost chg = changes@[i as int];
            proof {
                assert(changes@.skip(i as int)[0] == changes@[i as int]);
                assert(changes@.skip(i as int).drop_first() =~= changes@.skip(i as int + 1));
            }
            let ch = &changes[i];
            let start = ch.range.start;
            let end = ch.range.end;
            let num_lines = self.line_list.lines.len();
            proof {
                assert(cur.len() == num_lines);
            }
            let range_ok = start.line <= end.line && end.line < num_lines && start.character
                <= self.line_list.lines[start.line].len() && end.character
                <= self.line_list.lines[end.line].len() && (start.line != end.line
                || start.character <= end.character);
            proof {
                if start.line <= end.line && end.line < num_lines {
                    assert(cur[start.line as int] == self.line_list.lines@[start.line as int]@);
                    assert(cur[end.line as int] == self.line_list.lines@[end.line as int]@);
                }
                assert(range_ok == change_range_ok(cur, chg));
            }
            if !range_ok {
                return Err(ChangeError::InvalidRange);
            }
            proof {
                lemma_range_offsets_ordered(cur, start, end);
            }
            let total = self.line_list.total_encoded();
            let sb = self.line_list.position_to_offset(&start).unwrap();
            let oeb = self.line_list.position_to_offset(&end).unwrap();
            let avail = total - oeb + sb;
            let nt_len = ch.text.len();
            proof {
                assert((nt_len <= usize::MAX - avail) == change_size_ok(cur, chg));
            }
            if nt_len > usize::MAX - avail {
                return Err(ChangeError::TooLarge);
            }
            proof {
                lemma_change_ok_fits(cur, chg);
            }
            self.line_list.apply_change(&start, &end, ch.text.as_slice());
            let neb = sb + nt_len;
            let nep = self.line_list.point_from_offset(neb);
            let d = EditDescriptor {
                start_byte: sb,
                old_end_byte: oeb,
                new_end_byte: neb,
                start_position: start,
                old_end_position: end,
                new_end_position: nep,
            };
            let ghost prev_descs = descs@;
            descs.push(d);
            proof {
                assert(d == descriptor_spec(cur, chg));
                let sub = apply_changes_spec(cur, changes@.skip(i as int));
                let sub2 = apply_changes_spec(self.line_list@, changes@.skip(i as int + 1));
                assert(sub.0 == sub2.0);
                assert(sub.1 == prepend_descriptors(seq![d], sub2.1));
                match sub2.1 {
                    Ok(x) => {
                        assert(prev_descs + (seq![d] + x) =~= descs@ + x);
                    },
                    Err(_) => {},
                }
            }
            i = i + 1;
        }
        proof {
            let sub = apply_changes_spec(self.line_list@, changes@.skip(n as int));
            assert(changes@.skip(n as int) =~= Seq::<TextDocumentContentChangeEvent>::empty());
            assert(descs@ + Seq::<EditDescriptor>::empty() =~= descs@);
        }
        Ok(descs)
    }

    /// Clears and rebuilds the token collection from the parse tree's
    /// immediate children, as the reparse protocol asks after every parse.
    pub fn collect(&mut self, children: &Vec<NodeSpan>)
        requires
            old(self).wf(),
            forall|i: int| 0 <= i < children@.len() ==> (#[trigger] children@[i]).wf(),
        ensures
            final(self).wf(),
            final(self)@.tokens == collect_spec(children@),
            final(self)@.lines == old(self)@.lines,
            final(self)@.language == old(self)@.language,
    {
        collect_tokens(&mut self.semantic, children);
    }
}

} // verus!
