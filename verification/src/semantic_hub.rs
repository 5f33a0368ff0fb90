//! The per-document semantic-token collection and its delta encoder.
//!
//! Tokens are grouped by line; the lines are kept sorted by line number
//! with no line listed twice, so encoding can walk them in ascending order.
//! The encoder emits five numbers per token: the line delta against the
//! previously visited line, the column delta against the previous token on
//! the same line, the token's length, its category code and its modifier
//! code. The previous-line tracker advances once per visited line; since
//! every stored line holds at least one token, that rule coincides with
//! advancing per emitted token.

use vstd::prelude::*;

use crate::semantic::modifier_code;
use crate::semantic::TokenModifier;
use crate::semantic::TokenType;

verus! {

/// A single-line highlight span: where it starts, how long it is, and how
/// it is categorized.
#[derive(Debug, Clone, Copy)]
pub struct Token {
    pub line: usize,
    pub pos: usize,
    pub len: usize,
    pub token_type: TokenType,
    pub modifier: Option<TokenModifier>,
}

/// The tokens collected for one line, in insertion order.
#[derive(Debug)]
pub struct TokenLine {
    pub index: usize,
    pub tokens: Vec<Token>,
}

impl TokenLine {
    /// An empty token line for line `index`.
    pub fn new(index: usize) -> (r: Self)
        ensures
            r.index == index,
            r.tokens@ == Seq::<Token>::empty(),
    {
        let r = TokenLine { index, tokens: Vec::new() };
        proof {
            assert(r.tokens@ =~= Seq::<Token>::empty());
        }
        r
    }

    /// Appends one token to this line.
    pub fn add(&mut self, token: Token)
        ensures
            final(self).index == old(self).index,
            final(self).tokens@ == old(self).tokens@.push(token),
    {
        self.tokens.push(token);
    }
}

/// Stable insertion of a token into a column-sorted token sequence: the
/// token lands after every token whose column does not exceed its own.
pub open spec fn insert_sorted(s: Seq<Token>, t: Token) -> Seq<Token>
    decreases s.len(),
{
    if s.len() == 0 {
        seq![t]
    } else if s.last().pos <= t.pos {
        s.push(t)
    } else {
        insert_sorted(s.drop_last(), t).push(s.last())
    }
}

/// The stable column sort of a token sequence: tokens in ascending column
/// order, tokens of equal column in their original order.
pub open spec fn sort_tokens(s: Seq<Token>) -> Seq<Token>
    decreases s.len(),
{
    if s.len() == 0 {
        Seq::<Token>::empty()
    } else {
        insert_sorted(sort_tokens(s.drop_last()), s.last())
    }
}

/// Columns never decrease along the sequence.
pub open spec fn sorted_by_pos(s: Seq<Token>) -> bool {
    forall|i: int, j: int| 0 <= i < j < s.len() ==> s[i].pos <= s[j].pos
}

pub proof fn lemma_insert_sorted(s: Seq<Token>, t: Token)
    requires
        sorted_by_pos(s),
    ensures
        sorted_by_pos(insert_sorted(s, t)),
        insert_sorted(s, t).len() == s.len() + 1,
        insert_sorted(s, t).to_multiset() == s.to_multiset().insert(t),
        forall|x: Token| insert_sorted(s, t).contains(x) <==> (s.contains(x) || x == t),
    decreases s.len(),
{
    broadcast use vstd::seq_lib::group_to_multiset_ensures;

    let r = insert_sorted(s, t);
    if s.len() == 0 {
        assert(seq![t] =~= Seq::<Token>::empty().push(t));
        assert(forall|x: Token| r.contains(x) ==> (s.contains(x) || x == t)) by {
            assert(forall|i: int| 0 <= i < r.len() ==> r[i] == t);
        }
        assert(r.contains(t)) by {
            assert(r[0] == t);
        }
    } else if s.last().pos <= t.pos {
        assert(forall|i: int| 0 <= i < s.len() ==> s[i].pos <= s.last().pos);
        assert(forall|x: Token| s.contains(x) ==> r.contains(x)) by {
            assert(forall|i: int| 0 <= i < s.len() ==> r[i] == s[i]);
        }
        assert(r.contains(t)) by {
            assert(r[r.len() - 1] == t);
        }
        assert(forall|x: Token| r.contains(x) ==> (s.contains(x) || x == t)) by {
            assert(forall|i: int| 0 <= i < s.len() ==> r[i] == s[i]);
            assert(r[r.len() - 1] == t);
        }
    } else {
        let d = s.drop_last();
        assert(sorted_by_pos(d)) by {
            assert(forall|i: int, j: int| 0 <= i < j < d.len() ==> d[i] == s[i] && d[j] == s[j]);
        }
        lemma_insert_sorted(d, t);
        let q = insert_sorted(d, t);
        assert(r == q.push(s.last()));
        // sortedness: everything in q is either from d, below the last
        // token's column, or is t, below it as well
        assert forall|i: int, j: int| 0 <= i < j < r.len() implies r[i].pos <= r[j].pos by {
            if j < q.len() {
                assert(r[i] == q[i] && r[j] == q[j]);
            } else {
                assert(r[j] == s.last());
                assert(r[i] == q[i]);
                assert(q.contains(q[i]));
                if d.contains(q[i]) {
                    let w = choose|w: int| 0 <= w < d.len() && d[w] == q[i];
                    assert(s[w].pos <= s.last().pos);
                } else {
                    assert(q[i] == t);
                }
            }
        }
        assert(s =~= d.push(s.last()));
        assert(r.to_multiset() =~= s.to_multiset().insert(t));
        assert forall|x: Token| r.contains(x) <==> (s.contains(x) || x == t) by {
            assert(r.to_multiset().contains(x) <==> r.contains(x));
            assert(s.to_multiset().contains(x) <==> s.contains(x));
            assert(r.to_multiset() == s.to_multiset().insert(t));
        }
    }
}

/// The stable sort returns the same tokens: a permutation of its input,
/// with non-decreasing columns.
pub proof fn lemma_sort_tokens(s: Seq<Token>)
    ensures
        sorted_by_pos(sort_tokens(s)),
        sort_tokens(s).len() == s.len(),
        sort_tokens(s).to_multiset() == s.to_multiset(),
        forall|x: Token| sort_tokens(s).contains(x) <==> s.contains(x),
    decreases s.len(),
{
    broadcast use vstd::seq_lib::group_to_multiset_ensures;

    if s.len() > 0 {
        let d = s.drop_last();
        lemma_sort_tokens(d);
        lemma_insert_sorted(sort_tokens(d), s.last());
        assert(s =~= d.push(s.last()));
        assert(sort_tokens(s).to_multiset() =~= s.to_multiset());
        assert forall|x: Token| sort_tokens(s).contains(x) <==> s.contains(x) by {
            assert(sort_tokens(s).to_multiset().contains(x) <==> sort_tokens(s).contains(x));
            assert(s.to_multiset().contains(x) <==> s.contains(x));
        }
    }
}

/// The hub's mathematical model: for each populated line, its line number
/// and its tokens in insertion order, ascending by line number.
pub open spec fn hub_view(lines: Seq<TokenLine>) -> Seq<(int, Seq<Token>)> {
    lines.map_values(|tl: TokenLine| (tl.index as int, tl.tokens@))
}

/// Well-formedness of the model: line numbers strictly ascend and fit
/// `usize`, every line holds at least one token, and each token carries
/// the line number of the line that holds it.
pub open spec fn hub_view_wf(v: Seq<(int, Seq<Token>)>) -> bool {
    &&& forall|i: int, j: int| 0 <= i < j < v.len() ==> v[i].0 < v[j].0
    &&& forall|i: int| 0 <= i < v.len() ==> 0 <= (#[trigger] v[i]).0 <= usize::MAX
    &&& forall|i: int| 0 <= i < v.len() ==> (#[trigger] v[i]).1.len() > 0
    &&& forall|i: int, k: int|
        0 <= i < v.len() && 0 <= k < v[i].1.len() ==> (#[trigger] v[i].1[k]).line == v[i].0
}

/// Adding a token: it joins its line's tokens at the back, and a line not
/// yet populated is opened at its sorted place.
pub open spec fn hub_add_spec(v: Seq<(int, Seq<Token>)>, t: Token) -> Seq<(int, Seq<Token>)>
    decreases v.len(),
{
    if v.len() == 0 {
        seq![(t.line as int, seq![t])]
    } else if v[0].0 == t.line {
        seq![(v[0].0, v[0].1.push(t))] + v.drop_first()
    } else if v[0].0 > t.line {
        seq![(t.line as int, seq![t])] + v
    } else {
        seq![v[0]] + hub_add_spec(v.drop_first(), t)
    }
}

pub proof fn lemma_hub_add_wf(v: Seq<(int, Seq<Token>)>, t: Token)
    requires
        hub_view_wf(v),
    ensures
        hub_view_wf(hub_add_spec(v, t)),
    decreases v.len(),
{
    let r = hub_add_spec(v, t);
    if v.len() == 0 {
        assert(r[0].1 == seq![t]);
        assert(r[0].1[0] == t);
    } else if v[0].0 == t.line {
        let line0 = (v[0].0, v[0].1.push(t));
        assert(r[0] == line0);
        assert(forall|j: int| 1 <= j < r.len() ==> r[j] == v[j]);
        assert(forall|k: int|
            0 <= k < r[0].1.len() ==> (#[trigger] r[0].1[k]).line == r[0].0) by {
            assert(forall|k: int| 0 <= k < v[0].1.len() ==> r[0].1[k] == v[0].1[k]);
            assert(r[0].1[r[0].1.len() - 1] == t);
        }
    } else if v[0].0 > t.line {
        assert(r[0].1 == seq![t]);
        assert(r[0].1[0] == t);
        assert(forall|j: int| 1 <= j < r.len() ==> r[j] == v[j - 1]);
        assert(forall|i: int, j: int| 1 <= i < j < r.len() ==> r[i].0 < r[j].0);
    } else {
        let d = v.drop_first();
        assert(hub_view_wf(d)) by {
            assert(forall|j: int| 0 <= j < d.len() ==> d[j] == v[j + 1]);
        }
        lemma_hub_add_wf(d, t);
        let q = hub_add_spec(d, t);
        assert(r == seq![v[0]] + q);
        assert(forall|j: int| 1 <= j < r.len() ==> r[j] == q[j - 1]);
        // the head line number stays below everything behind it: whatever
        // follows is either an old line or the new token's line
        assert forall|j: int| 1 <= j < r.len() implies r[0].0 < (#[trigger] r[j]).0 by {
            lemma_hub_add_line_numbers(d, t, j - 1);
            assert(v[0].0 < t.line);
            assert(forall|w: int| 0 <= w < d.len() ==> v[0].0 < d[w].0);
        }
    }
}

/// Every line number of the grown model is an old line number or the new
/// token's.
proof fn lemma_hub_add_line_numbers(v: Seq<(int, Seq<Token>)>, t: Token, j: int)
    requires
        0 <= j < hub_add_spec(v, t).len(),
    ensures
        hub_add_spec(v, t)[j].0 == t.line || exists|w: int|
            0 <= w < v.len() && (#[trigger] v[w].0) == hub_add_spec(v, t)[j].0,
    decreases v.len(),
{
    let r = hub_add_spec(v, t);
    if v.len() == 0 {
    } else if v[0].0 == t.line {
        if j >= 1 {
            assert(r[j] == v[j]);
        }
    } else if v[0].0 > t.line {
        if j >= 1 {
            assert(r[j] == v[j - 1]);
        }
    } else {
        if j >= 1 {
            let d = v.drop_first();
            assert(r[j] == hub_add_spec(d, t)[j - 1]);
            lemma_hub_add_line_numbers(d, t, j - 1);
            if hub_add_spec(d, t)[j - 1].0 != t.line {
                let w = choose|w: int|
                    0 <= w < d.len() && (#[trigger] d[w].0) == hub_add_spec(d, t)[j - 1].0;
                assert(v[w + 1].0 == r[j].0);
            }
        }
    }
}

/// The five numbers emitted for the token at rank `k` of a line's sorted
/// tokens, `ld` being the line delta emitted with the line's first token.
pub open spec fn encode_token(toks: Seq<Token>, k: int, ld: int) -> Seq<usize> {
    seq![
        (if k == 0 {
            ld
        } else {
            0
        }) as usize,
        (if k == 0 {
            toks[0].pos as int
        } else {
            toks[k].pos - toks[k - 1].pos
        }) as usize,
        toks[k].len,
        toks[k].token_type.code_spec(),
        modifier_code(toks[k].modifier),
    ]
}

/// The encoding of the first `k` tokens of one line's sorted tokens.
pub open spec fn encode_tokens(toks: Seq<Token>, ld: int, k: int) -> Seq<usize>
    decreases k,
{
    if k <= 0 {
        Seq::empty()
    } else {
        encode_tokens(toks, ld, k - 1) + encode_token(toks, k - 1, ld)
    }
}

/// The line delta emitted with line `i`'s first token: the distance to the
/// previously visited line, or to the first line of the document.
pub open spec fn line_delta(v: Seq<(int, Seq<Token>)>, i: int) -> int {
    if i == 0 {
        v[0].0
    } else {
        v[i].0 - v[i - 1].0
    }
}

/// The encoding of the first `i` lines of the model.
pub open spec fn encode_lines(v: Seq<(int, Seq<Token>)>, i: int) -> Seq<usize>
    decreases i,
{
    if i <= 0 {
        Seq::empty()
    } else {
        let sorted = sort_tokens(v[i - 1].1);
        encode_lines(v, i - 1) + encode_tokens(sorted, line_delta(v, i - 1), sorted.len() as int)
    }
}

/// The full flat array for a model: lines in ascending order, each line's
/// tokens sorted by column, five numbers per token.
pub open spec fn hub_data_spec(v: Seq<(int, Seq<Token>)>) -> Seq<usize> {
    encode_lines(v, v.len() as int)
}

/// In a sorted sequence whose tail from `j` on lies strictly above the new
/// token's column while the entry before `j` does not, stable insertion
/// means inserting exactly at `j`.
proof fn lemma_insert_sorted_at(s: Seq<Token>, t: Token, j: int)
    requires
        sorted_by_pos(s),
        0 <= j <= s.len(),
        forall|w: int| j <= w < s.len() ==> s[w].pos > t.pos,
        j > 0 ==> s[j - 1].pos <= t.pos,
    ensures
        insert_sorted(s, t) == s.insert(j, t),
    decreases s.len(),
{
    if s.len() == 0 {
        assert(insert_sorted(s, t) =~= s.insert(0, t));
    } else if s.last().pos <= t.pos {
        assert(j == s.len()) by {
            if j < s.len() {
                assert(s[s.len() - 1].pos > t.pos);
            }
        }
        assert(s.push(t) =~= s.insert(s.len() as int, t));
    } else {
        assert(j < s.len()) by {
            if j == s.len() {
                assert(s[j - 1].pos <= t.pos);
            }
        }
        let d = s.drop_last();
        assert(sorted_by_pos(d)) by {
            assert(forall|a: int, b: int| 0 <= a < b < d.len() ==> d[a] == s[a] && d[b] == s[b]);
        }
        assert(forall|w: int| j <= w < d.len() ==> d[w] == s[w]);
        if j > 0 {
            assert(d[j - 1] == s[j - 1]);
        }
        lemma_insert_sorted_at(d, t, j);
        assert(insert_sorted(d, t).push(s.last()) =~= s.insert(j, t));
    }
}

/// Stable insertion sort by column, the order the encoder walks a line's
/// tokens in.
#[verifier::loop_isolation(false)]
fn sort_by_pos_vec(tokens: &Vec<Token>) -> (r: Vec<Token>)
    ensures
        r@ == sort_tokens(tokens@),
{
    let n = tokens.len();
    let mut r: Vec<Token> = Vec::new();
    let mut i: usize = 0;
    proof {
        assert(tokens@.take(0) =~= Seq::<Token>::empty());
    }
    while i < n
        invariant
            i <= n,
            r@ == sort_tokens(tokens@.take(i as int)),
        decreases n - i,
    {
        let t = tokens[i];
        proof {
            lemma_sort_tokens(tokens@.take(i as int));
        }
        let mut j: usize = r.len();
        while j > 0 && r[j - 1].pos > t.pos
            invariant
                j <= r@.len(),
                forall|w: int| j <= w < r@.len() ==> r@[w].pos > t.pos,
            decreases j,
    {
            j = j - 1;
        }
        proof {
            lemma_insert_sorted_at(r@, t, j as int);
            assert(tokens@.take(i as int + 1).drop_last() =~= tokens@.take(i as int));
            assert(tokens@.take(i as int + 1).last() == tokens@[i as int]);
        }
        r.insert(j, t);
        i = i + 1;
    }
    proof {
        assert(tokens@.take(n as int) =~= tokens@);
    }
    r
}

/// Emits one line's sorted tokens: five numbers per token, the first
/// carrying the delta from the previously visited line.
#[verifier::loop_isolation(false)]
#[verifier::rlimit(100)]
fn encode_line_tokens(result: &mut Vec<usize>, sorted: &Vec<Token>, line_last: usize, idx: Ghost<int>)
    requires
        sorted_by_pos(sorted@),
        forall|k: int| 0 <= k < sorted@.len() ==> (#[trigger] sorted@[k]).line as int == idx@,
        line_last <= idx@ <= usize::MAX,
    ensures
        final(result)@ == old(result)@ + encode_tokens(
            sorted@,
            idx@ - line_last,
            sorted@.len() as int,
        ),
{
    let ghost base = result@;
    let ghost ld = idx@ - line_last;
    let m = sorted.len();
    let mut token_last: usize = 0;
    let mut k: usize = 0;
    proof {
        assert(base + encode_tokens(sorted@, ld, 0) =~= base);
    }
    while k < m
        invariant
            k <= m,
            result@ == base + encode_tokens(sorted@, ld, k as int),
            token_last as int == if k == 0 {
                0int
            } else {
                sorted@[k as int - 1].pos as int
            },
        decreases m - k,
    {
        let tok = sorted[k];
        proof {
            assert(sorted@[k as int] == tok);
            if k > 0 {
                assert(sorted@[k as int - 1].pos <= sorted@[k as int].pos);
            }
        }
        let ghost prev = result@;
        if k == 0 {
            result.push(tok.line - line_last);
        } else {
            result.push(0);
        }
        result.push(tok.pos - token_last);
        result.push(tok.len);
        result.push(tok.token_type.code());
        match tok.modifier {
            Some(tm) => {
                result.push(tm.code());
            },
            None => {
                result.push(0);
            },
        }
        proof {
            assert(result@ =~= prev + encode_token(sorted@, k as int, ld));
            assert(encode_tokens(sorted@, ld, k as int + 1) == encode_tokens(
                sorted@,
                ld,
                k as int,
            ) + encode_token(sorted@, k as int, ld));
        }
        token_last = tok.pos;
        k = k + 1;
    }
}

/// One reconstructed position per encoded 5-tuple: the line grows by the
/// first entry; the column grows by the second on the same line and
/// restarts from it on a new line.
pub open spec fn decode_positions(d: Seq<usize>, line: int, col: int) -> Seq<(int, int)>
    decreases d.len(),
{
    if d.len() < 5 {
        Seq::empty()
    } else {
        let l2 = line + d[0];
        let c2 = if d[0] == 0 {
            col + d[1]
        } else {
            d[1] as int
        };
        seq![(l2, c2)] + decode_positions(d.skip(5), l2, c2)
    }
}

/// Lexicographic order on (line, column) pairs.
pub open spec fn lex_leq(a: (int, int), b: (int, int)) -> bool {
    a.0 < b.0 || (a.0 == b.0 && a.1 <= b.1)
}

/// Positions reconstructed from unsigned deltas never move backwards,
/// whatever the encoded numbers are.
pub proof fn lemma_decode_positions_ordered(d: Seq<usize>, line: int, col: int)
    ensures
        forall|a: int, b: int|
            0 <= a <= b < decode_positions(d, line, col).len() ==> lex_leq(
                decode_positions(d, line, col)[a],
                decode_positions(d, line, col)[b],
            ),
        forall|a: int|
            0 <= a < decode_positions(d, line, col).len() ==> lex_leq(
                (line, col),
                decode_positions(d, line, col)[a],
            ),
    decreases d.len(),
{
    let dec = decode_positions(d, line, col);
    if d.len() >= 5 {
        let l2 = line + d[0];
        let c2 = if d[0] == 0 {
            col + d[1]
        } else {
            d[1] as int
        };
        let rest = decode_positions(d.skip(5), l2, c2);
        lemma_decode_positions_ordered(d.skip(5), l2, c2);
        assert(dec[0] == (l2, c2));
        assert(forall|b: int| 1 <= b < dec.len() ==> dec[b] == rest[b - 1]);
        assert(lex_leq((line, col), (l2, c2)));
    }
}

/// The state a decoder is left in after consuming the array: the line and
/// column of the last reconstructed position.
pub open spec fn decode_end(d: Seq<usize>, line: int, col: int) -> (int, int)
    decreases d.len(),
{
    if d.len() < 5 {
        (line, col)
    } else {
        let l2 = line + d[0];
        let c2 = if d[0] == 0 {
            col + d[1]
        } else {
            d[1] as int
        };
        decode_end(d.skip(5), l2, c2)
    }
}

/// Decoding a concatenation: the second part is decoded from where the
/// first part left off.
proof fn lemma_decode_append(d1: Seq<usize>, d2: Seq<usize>, line: int, col: int)
    requires
        d1.len() % 5 == 0,
    ensures
        decode_positions(d1 + d2, line, col) == decode_positions(d1, line, col)
            + decode_positions(d2, decode_end(d1, line, col).0, decode_end(d1, line, col).1),
        decode_end(d1 + d2, line, col) == decode_end(
            d2,
            decode_end(d1, line, col).0,
            decode_end(d1, line, col).1,
        ),
    decreases d1.len(),
{
    if d1.len() == 0 {
        assert(d1 + d2 =~= d2);
        assert(decode_positions(d1, line, col) + decode_positions(d2, line, col)
            =~= decode_positions(d2, line, col));
    } else {
        let c = d1 + d2;
        assert(c[0] == d1[0]);
        assert(c[1] == d1[1]);
        let l2 = line + d1[0];
        let c2 = if d1[0] == 0 {
            col + d1[1]
        } else {
            d1[1] as int
        };
        assert(c.skip(5) =~= d1.skip(5) + d2);
        lemma_decode_append(d1.skip(5), d2, l2, c2);
        assert(seq![(l2, c2)] + (decode_positions(d1.skip(5), l2, c2) + decode_positions(
            d2,
            decode_end(d1, line, col).0,
            decode_end(d1, line, col).1,
        )) =~= (seq![(l2, c2)] + decode_positions(d1.skip(5), l2, c2)) + decode_positions(
            d2,
            decode_end(d1, line, col).0,
            decode_end(d1, line, col).1,
        ));
    }
}

/// Decoding one line's encoding from the tracker state it was emitted
/// against reconstructs that line's sorted token positions exactly.
proof fn lemma_decode_line(toks: Seq<Token>, idx: int, prev_l: int, prev_c: int, k: int)
    requires
        sorted_by_pos(toks),
        0 <= k <= toks.len(),
        0 <= prev_l <= idx <= usize::MAX,
        idx == prev_l ==> prev_c == 0,
    ensures
        decode_positions(encode_tokens(toks, idx - prev_l, k), prev_l, prev_c) == Seq::new(
            k as nat,
            |w: int| (idx, toks[w].pos as int),
        ),
        decode_end(encode_tokens(toks, idx - prev_l, k), prev_l, prev_c) == if k == 0 {
            (prev_l, prev_c)
        } else {
            (idx, toks[k - 1].pos as int)
        },
    decreases k,
{
    let ld = idx - prev_l;
    if k == 0 {
        assert(decode_positions(encode_tokens(toks, ld, 0), prev_l, prev_c) =~= Seq::new(
            0nat,
            |w: int| (idx, toks[w].pos as int),
        ));
    } else {
        lemma_decode_line(toks, idx, prev_l, prev_c, k - 1);
        lemma_encode_tokens_len(toks, ld, k - 1);
        let d1 = encode_tokens(toks, ld, k - 1);
        let g = encode_token(toks, k - 1, ld);
        assert(encode_tokens(toks, ld, k) == d1 + g);
        lemma_decode_append(d1, g, prev_l, prev_c);
        let st = decode_end(d1, prev_l, prev_c);
        assert(g.len() == 5);
        assert(g.skip(5) =~= Seq::<usize>::empty());
        let l2 = st.0 + g[0];
        let c2 = if g[0] == 0 {
            st.1 + g[1]
        } else {
            g[1] as int
        };
        assert(decode_positions(g, st.0, st.1) == seq![(l2, c2)] + decode_positions(
            g.skip(5),
            l2,
            c2,
        ));
        assert(decode_positions(g.skip(5), l2, c2) =~= Seq::<(int, int)>::empty());
        assert(seq![(l2, c2)] + Seq::<(int, int)>::empty() =~= seq![(l2, c2)]);
        assert(decode_end(g, st.0, st.1) == decode_end(g.skip(5), l2, c2));
        assert(decode_end(g.skip(5), l2, c2) == (l2, c2));
        if k - 1 == 0 {
            assert(g[0] == ld as usize);
            assert(g[1] == toks[0].pos);
            if ld == 0 {
                assert(c2 == prev_c + toks[0].pos);
            }
        } else {
            assert(toks[k - 2].pos <= toks[k - 1].pos);
            assert(g[0] == 0);
            assert(g[1] == (toks[k - 1].pos - toks[k - 2].pos) as usize);
        }
        assert(l2 == idx && c2 == toks[k - 1].pos as int);
        assert(Seq::new((k - 1) as nat, |w: int| (idx, toks[w].pos as int)) + seq![(l2, c2)]
            =~= Seq::new(k as nat, |w: int| (idx, toks[w].pos as int)));
    }
}

/// The absolute positions of the tokens of the first `i` lines, in the
/// order the encoder emits them: lines ascending, columns sorted within a
/// line.
pub open spec fn abs_positions(v: Seq<(int, Seq<Token>)>, i: int) -> Seq<(int, int)>
    decreases i,
{
    if i <= 0 {
        Seq::empty()
    } else {
        let sorted = sort_tokens(v[i - 1].1);
        abs_positions(v, i - 1) + Seq::new(
            sorted.len(),
            |w: int| (v[i - 1].0, sorted[w].pos as int),
        )
    }
}

proof fn lemma_decode_hub(v: Seq<(int, Seq<Token>)>, i: int)
    requires
        hub_view_wf(v),
        0 <= i <= v.len(),
    ensures
        decode_positions(encode_lines(v, i), 0, 0) == abs_positions(v, i),
        decode_end(encode_lines(v, i), 0, 0) == if i == 0 {
            (0int, 0int)
        } else {
            (v[i - 1].0, sort_tokens(v[i - 1].1).last().pos as int)
        },
    decreases i,
{
    if i == 0 {
        assert(decode_positions(encode_lines(v, 0), 0, 0) =~= abs_positions(v, 0));
    } else {
        lemma_decode_hub(v, i - 1);
        lemma_encode_lines_len(v, i - 1);
        lemma_sort_tokens(v[i - 1].1);
        let sorted = sort_tokens(v[i - 1].1);
        let ld = line_delta(v, i - 1);
        let d1 = encode_lines(v, i - 1);
        let d2 = encode_tokens(sorted, ld, sorted.len() as int);
        assert(encode_lines(v, i) == d1 + d2);
        lemma_decode_append(d1, d2, 0, 0);
        let st = decode_end(d1, 0, 0);
        let idx = v[i - 1].0;
        if i - 1 == 0 {
            assert(st == (0int, 0int));
            assert(ld == idx);
        } else {
            assert(v[i - 2].0 < v[i - 1].0);
            assert(st == (v[i - 2].0, sort_tokens(v[i - 2].1).last().pos as int));
            assert(ld == idx - st.0);
        }
        assert(sorted.len() > 0);
        lemma_decode_line(sorted, idx, st.0, st.1, sorted.len() as int);
        assert(sorted[sorted.len() - 1] == sorted.last());
        assert(abs_positions(v, i - 1) + Seq::new(
            sorted.len(),
            |w: int| (idx, sorted[w].pos as int),
        ) =~= abs_positions(v, i));
    }
}

/// The encoding is faithful: reconstructing absolute positions from the
/// flat array yields exactly the collection's tokens — each line in
/// ascending order, each line's tokens in sorted column order.
pub proof fn lemma_data_reconstructs_positions(v: Seq<(int, Seq<Token>)>)
    requires
        hub_view_wf(v),
    ensures
        decode_positions(hub_data_spec(v), 0, 0) == abs_positions(v, v.len() as int),
{
    lemma_decode_hub(v, v.len() as int);
}

proof fn lemma_encode_tokens_len(toks: Seq<Token>, ld: int, k: int)
    requires
        k >= 0,
    ensures
        encode_tokens(toks, ld, k).len() == 5 * k,
    decreases k,
{
    if k > 0 {
        lemma_encode_tokens_len(toks, ld, k - 1);
    }
}

proof fn lemma_encode_lines_len(v: Seq<(int, Seq<Token>)>, i: int)
    requires
        i >= 0,
    ensures
        encode_lines(v, i).len() % 5 == 0,
    decreases i,
{
    if i > 0 {
        lemma_encode_lines_len(v, i - 1);
        let sorted = sort_tokens(v[i - 1].1);
        lemma_encode_tokens_len(sorted, line_delta(v, i - 1), sorted.len() as int);
    }
}

/// Token ordering invariant: the encoded flat array groups exactly into
/// 5-tuples, and reconstructing absolute positions from it yields a
/// sequence in non-decreasing (line, column) order. The deltas themselves
/// are non-negative by construction, being unsigned.
pub proof fn lemma_token_order_invariant(v: Seq<(int, Seq<Token>)>)
    ensures
        hub_data_spec(v).len() % 5 == 0,
        forall|a: int, b: int|
            0 <= a <= b < decode_positions(hub_data_spec(v), 0, 0).len() ==> lex_leq(
                decode_positions(hub_data_spec(v), 0, 0)[a],
                decode_positions(hub_data_spec(v), 0, 0)[b],
            ),
{
    lemma_encode_lines_len(v, v.len() as int);
    lemma_decode_positions_ordered(hub_data_spec(v), 0, 0);
}

/// The per-document token collection.
#[derive(Debug)]
pub struct SemanticTokenHub {
    pub lines: Vec<TokenLine>,
}

impl View for SemanticTokenHub {
    type V = Seq<(int, Seq<Token>)>;

    open spec fn view(&self) -> Seq<(int, Seq<Token>)> {
        hub_view(self.lines@)
    }
}

impl SemanticTokenHub {
    /// Well-formedness of the collection.
    pub open spec fn wf(&self) -> bool {
        hub_view_wf(self@)
    }

    /// An empty collection.
    pub fn new() -> (r: Self)
        ensures
            r@ == Seq::<(int, Seq<Token>)>::empty(),
            r.wf(),
    {
        let r = SemanticTokenHub { lines: Vec::new() };
        proof {
            assert(r@ =~= Seq::<(int, Seq<Token>)>::empty());
        }
        r
    }

    /// Records one token on line `line`, opening the line if it held no
    /// token yet.
    #[verifier::loop_isolation(false)]
    pub fn add(
        &mut self,
        line: usize,
        pos: usize,
        len: usize,
        token_type: TokenType,
        modifier: Option<TokenModifier>,
    ) -> (r: &mut Self)
        ensures
            r@ == hub_add_spec(
                old(self)@,
                (Token { line, pos, len, token_type, modifier }),
            ),
            old(self).wf() ==> hub_view_wf(r@),
            *final(self) == *final(r),
    {
        let token = Token { line, pos, len, token_type, modifier };
        let n = self.lines.len();
        let ghost v = self@;
        let mut i: usize = 0;
        proof {
            assert(v.len() == n);
            assert(v.skip(0) =~= v);
            assert(v.take(0) + hub_add_spec(v.skip(0), token) =~= hub_add_spec(v, token));
        }
        while i < n && self.lines[i].index < line
            invariant
                n == self.lines@.len(),
                v.len() == n,
                i <= n,
                v == self@,
                hub_add_spec(v, token) == v.take(i as int) + hub_add_spec(v.skip(i as int), token),
                forall|j: int| 0 <= j < i ==> v[j].0 < token.line,
            decreases n - i,
        {
            proof {
                let rest = v.skip(i as int);
                assert(rest[0] == v[i as int]);
                assert(v[i as int].0 == self.lines@[i as int].index as int);
                assert(rest.drop_first() =~= v.skip(i as int + 1));
                assert(hub_add_spec(rest, token) == seq![rest[0]] + hub_add_spec(
                    rest.drop_first(),
                    token,
                ));
                assert(v.take(i as int) + (seq![v[i as int]] + hub_add_spec(
                    v.skip(i as int + 1),
                    token,
                )) =~= v.take(i as int + 1) + hub_add_spec(v.skip(i as int + 1), token));
            }
            i = i + 1;
        }
        proof {
            if hub_view_wf(v) {
                lemma_hub_add_wf(v, token);
            }
        }
        if i < n && self.lines[i].index == line {
            let mut tl = self.lines.remove(i);
            tl.add(token);
            self.lines.insert(i, tl);
            proof {
                let rest = v.skip(i as int);
                assert(rest[0] == v[i as int]);
                assert(rest.drop_first() =~= v.skip(i as int + 1));
                assert(self@ =~= v.take(i as int) + (seq![(v[i as int].0, v[i as int].1.push(token))]
                    + v.skip(i as int + 1)));
            }
        } else if i < n {
            let mut tl = TokenLine::new(line);
            tl.add(token);
            self.lines.insert(i, tl);
            proof {
                let rest = v.skip(i as int);
                assert(rest[0] == v[i as int]);
                assert(Seq::<Token>::empty().push(token) =~= seq![token]);
                assert(self@ =~= v.take(i as int) + (seq![(token.line as int, seq![token])] + v.skip(
                    i as int,
                )));
            }
        } else {
            let mut tl = TokenLine::new(line);
            tl.add(token);
            self.lines.push(tl);
            proof {
                assert(v.skip(n as int) =~= Seq::<(int, Seq<Token>)>::empty());
                assert(Seq::<Token>::empty().push(token) =~= seq![token]);
                assert(self@ =~= v.take(n as int) + seq![(token.line as int, seq![token])]);
            }
        }
        self
    }

    /// Encodes the collection into the protocol's flat array: lines in
    /// ascending order, each line's tokens sorted by column, five numbers
    /// per token. Re-encoding an unchanged collection yields the identical
    /// array, since the result is a function of the collection alone.
    #[verifier::loop_isolation(false)]
    pub fn data(&self) -> (r: Vec<usize>)
        requires
            self.wf(),
        ensures
            r@ == hub_data_spec(self@),
    {
        let mut result: Vec<usize> = Vec::new();
        let mut line_last: usize = 0;
        let n = self.lines.len();
        let mut i: usize = 0;
        proof {
            assert(self@.len() == n);
        }
        while i < n
            invariant
                i <= n,
                result@ == encode_lines(self@, i as int),
                line_last as int == if i == 0 {
                    0int
                } else {
                    self@[i as int - 1].0
                },
            decreases n - i,
        {
            let tl = &self.lines[i];
            proof {
                assert(self@[i as int] == (tl.index as int, tl.tokens@));
            }
            let sorted = sort_by_pos_vec(&tl.tokens);
            proof {
                lemma_sort_tokens(tl.tokens@);
                assert forall|k: int| 0 <= k < sorted@.len() implies (#[trigger] sorted@[k]).line
                    as int == self@[i as int].0 by {
                    assert(sorted@.contains(sorted@[k]));
                    assert(tl.tokens@.contains(sorted@[k]));
                    let w = choose|w: int|
                        0 <= w < tl.tokens@.len() && tl.tokens@[w] == sorted@[k];
                    assert(self@[i as int].1[w].line == self@[i as int].0);
                }
                if i > 0 {
                    assert(self@[i as int - 1].0 < self@[i as int].0);
                }
            }
            encode_line_tokens(&mut result, &sorted, line_last, Ghost(self@[i as int].0));
            line_last = tl.index;
            i = i + 1;
            proof {
                assert(encode_lines(self@, i as int) == encode_lines(self@, i as int - 1)
                    + encode_tokens(
                    sort_tokens(self@[i as int - 1].1),
                    line_delta(self@, i as int - 1),
                    sort_tokens(self@[i as int - 1].1).len() as int,
                ));
            }
        }
        result
    }

    /// Forgets every token.
    pub fn clear(&mut self) -> (r: &mut Self)
        ensures
            r@ == Seq::<(int, Seq<Token>)>::empty(),
            *final(self) == *final(r),
    {
        self.lines.clear();
        proof {
            assert(self@ =~= Seq::<(int, Seq<Token>)>::empty());
        }
        self
    }
}

} // verus!
