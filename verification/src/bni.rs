//! Token collection for the bni language: the walk over the immediate
//! children of a parse tree's root that rebuilds a document's token
//! collection.
//!
//! The parser itself is an external collaborator; the walk only reads, of
//! each child, its syntax-kind label and its position span. A child whose
//! span crosses a line boundary cannot be represented as a single-line
//! token and is skipped deliberately.

use vstd::prelude::*;

use crate::semantic::TokenType;
use crate::semantic_hub::hub_add_spec;
use crate::semantic_hub::hub_view_wf;
use crate::semantic_hub::SemanticTokenHub;
use crate::semantic_hub::Token;

verus! {

/// What the walk reads of one immediate child of the parse tree's root:
/// its syntax-kind label and its span, as rows and byte columns.
#[derive(Debug)]
pub struct NodeSpan {
    pub kind: String,
    pub start_row: usize,
    pub start_col: usize,
    pub end_row: usize,
    pub end_col: usize,
}

impl NodeSpan {
    /// A span the walk can turn into a token: when it sits on one line,
    /// its end column does not precede its start column, and the token's
    /// inclusive-end length fits in `usize`.
    pub open spec fn wf(&self) -> bool {
        self.start_row == self.end_row ==> (self.start_col <= self.end_col && self.end_col
            < usize::MAX)
    }
}

/// Character-for-character equality of two strings.
fn str_eq(a: &str, b: &str) -> (r: bool)
    ensures
        r == (a@ == b@),
{
    let an = a.unicode_len();
    let bn = b.unicode_len();
    if an != bn {
        return false;
    }
    let mut i: usize = 0;
    while i < an
        invariant
            an == a@.len(),
            bn == b@.len(),
            an == bn,
            i <= an,
            forall|j: int| 0 <= j < i ==> a@[j] == b@[j],
        decreases an - i,
    {
        if a.get_char(i) != b.get_char(i) {
            return false;
        }
        i = i + 1;
    }
    proof {
        assert(a@ =~= b@);
    }
    true
}

/// The fixed category table: the token category a syntax-kind label maps
/// to. An unmapped kind yields no token.
pub open spec fn kind_token_type(kind: Seq<char>) -> Option<TokenType> {
    if kind == "section"@ {
        Some(TokenType::Keyword)
    } else if kind == "item"@ {
        Some(TokenType::String)
    } else {
        None
    }
}

/// Looks a syntax-kind label up in the category table.
pub fn token_of_kind(kind: &str) -> (r: Option<TokenType>)
    ensures
        r == kind_token_type(kind@),
{
    if str_eq(kind, "section") {
        Some(TokenType::Keyword)
    } else if str_eq(kind, "item") {
        Some(TokenType::String)
    } else {
        None
    }
}

/// The token a child contributes: a span on one line whose kind the table
/// maps, with the inclusive-end-column length convention; any other child
/// contributes nothing.
pub open spec fn node_token(c: NodeSpan) -> Option<Token> {
    if c.start_row == c.end_row {
        match kind_token_type(c.kind@) {
            Some(tt) => Some(
                Token {
                    line: c.start_row,
                    pos: c.start_col,
                    len: (c.end_col - c.start_col + 1) as usize,
                    token_type: tt,
                    modifier: None,
                },
            ),
            None => None,
        }
    } else {
        None
    }
}

/// The token collection built by walking the children in order, starting
/// from an empty collection.
pub open spec fn collect_spec(cs: Seq<NodeSpan>) -> Seq<(int, Seq<Token>)>
    decreases cs.len(),
{
    if cs.len() == 0 {
        Seq::empty()
    } else {
        match node_token(cs.last()) {
            Some(t) => hub_add_spec(collect_spec(cs.drop_last()), t),
            None => collect_spec(cs.drop_last()),
        }
    }
}

/// Clears the collection and repopulates it from the given children: one
/// token per single-line child with a mapped kind, in child order.
#[verifier::loop_isolation(false)]
pub fn collect_tokens(hub: &mut SemanticTokenHub, children: &Vec<NodeSpan>)
    requires
        forall|i: int| 0 <= i < children@.len() ==> (#[trigger] children@[i]).wf(),
    ensures
        final(hub)@ == collect_spec(children@),
        hub_view_wf(final(hub)@),
{
    hub.clear();
    proof {
        assert(children@.take(0) =~= Seq::<NodeSpan>::empty());
    }
    let n = children.len();
    let mut i: usize = 0;
    while i < n
        invariant
            i <= n,
            hub@ == collect_spec(children@.take(i as int)),
            hub_view_wf(hub@),
        decreases n - i,
    {
        let c = &children[i];
        proof {
            assert(children@[i as int].wf());
            assert(children@.take(i as int + 1).drop_last() =~= children@.take(i as int));
            assert(children@.take(i as int + 1).last() == children@[i as int]);
        }
        if c.start_row == c.end_row {
            match token_of_kind(c.kind.as_str()) {
                Some(tt) => {
                    hub.add(c.start_row, c.start_col, c.end_col - c.start_col + 1, tt, None);
                },
                None => {},
            }
        }
        i = i + 1;
    }
    proof {
        assert(children@.take(n as int) =~= children@);
    }
}

} // verus!
