//! The per-document text buffer: an ordered sequence of lines, kept as byte
//! vectors, with conversions between (line, column) positions and absolute
//! byte offsets, and an in-place range replacement.
//!
//! Columns and offsets are byte-based throughout. Text is split into lines
//! at line feeds; a carriage return immediately before a line feed is
//! dropped, and a final line feed terminates the last line rather than
//! opening an empty one, so joining the lines back with single line feeds
//! is lossy exactly for those two line-ending styles.

use vstd::prelude::*;
use vstd::utf8::valid_utf8;

use crate::position::Position;

verus! {

/// Line feed, the separator between lines.
pub const NL: u8 = 10;

/// Carriage return, dropped when it stands immediately before a line feed.
pub const CR: u8 = 13;

/// Index of the first line feed in `t`, or `t.len()` if there is none.
pub open spec fn first_nl(t: Seq<u8>) -> int
    decreases t.len(),
{
    if t.len() == 0 {
        0
    } else if t[0] == NL {
        0
    } else {
        1 + first_nl(t.drop_first())
    }
}

pub proof fn lemma_first_nl(t: Seq<u8>)
    ensures
        0 <= first_nl(t) <= t.len(),
        first_nl(t) < t.len() ==> t[first_nl(t)] == NL,
        forall|j: int| 0 <= j < first_nl(t) ==> t[j] != NL,
    decreases t.len(),
{
    if t.len() > 0 && t[0] != NL {
        lemma_first_nl(t.drop_first());
        assert forall|j: int| 0 <= j < first_nl(t) implies t[j] != NL by {
            if j > 0 {
                assert(t[j] == t.drop_first()[j - 1]);
            }
        }
    }
}

/// A byte vector's deep view is its plain view.
pub broadcast proof fn lemma_vec_u8_deep_view(v: Vec<u8>)
    ensures
        #[trigger] v.deep_view() == v@,
{
    assert(v.deep_view() =~= v@);
}

/// Drops a single trailing carriage return, if any.
pub open spec fn strip_cr(s: Seq<u8>) -> Seq<u8> {
    if s.len() > 0 && s.last() == CR {
        s.drop_last()
    } else {
        s
    }
}

/// The line split applied to incoming text: pieces between line feeds, each
/// piece with one trailing carriage return removed; a trailing piece is kept
/// only when it is non-empty.
pub open spec fn split_lines(t: Seq<u8>) -> Seq<Seq<u8>>
    decreases t.len(),
    via split_lines_decreases
{
    if t.len() == 0 {
        Seq::empty()
    } else {
        let i = first_nl(t);
        if i < t.len() {
            seq![strip_cr(t.take(i))] + split_lines(t.skip(i + 1))
        } else {
            seq![t]
        }
    }
}

#[via_fn]
proof fn split_lines_decreases(t: Seq<u8>) {
    lemma_first_nl(t);
}

/// Joins lines with a single line feed between adjacent lines.
pub open spec fn join_lines(ls: Seq<Seq<u8>>) -> Seq<u8>
    decreases ls.len(),
{
    if ls.len() == 0 {
        Seq::empty()
    } else if ls.len() == 1 {
        ls[0]
    } else {
        join_lines(ls.drop_last()) + seq![NL] + ls.last()
    }
}

/// Byte offset at which line `i` starts in the joined text: every earlier
/// line contributes its length plus one for the separator.
pub open spec fn line_start(ls: Seq<Seq<u8>>, i: int) -> int
    decreases i,
{
    if i <= 0 {
        0
    } else {
        line_start(ls, i - 1) + ls[i - 1].len() + 1
    }
}

/// No line holds a line feed.
pub open spec fn no_nl(ls: Seq<Seq<u8>>) -> bool {
    forall|i: int| 0 <= i < ls.len() ==> !ls[i].contains(NL)
}

/// Every byte offset into the buffer, one past the end included, fits in
/// `usize`.
pub open spec fn fits(ls: Seq<Seq<u8>>) -> bool {
    line_start(ls, ls.len() as int) <= usize::MAX
}

/// Well-formedness of a buffer's line sequence.
pub open spec fn lines_wf(ls: Seq<Seq<u8>>) -> bool {
    no_nl(ls) && fits(ls)
}

pub proof fn lemma_line_start_mono(ls: Seq<Seq<u8>>, i: int, j: int)
    requires
        0 <= i <= j,
    ensures
        line_start(ls, i) <= line_start(ls, j),
    decreases j,
{
    if i < j {
        lemma_line_start_mono(ls, i, j - 1);
    }
}

/// `line_start` looks only at the lines before `i`, so prepending one line
/// shifts it by that line's length plus the separator.
pub proof fn lemma_line_start_cons(p: Seq<u8>, rest: Seq<Seq<u8>>, k: int)
    requires
        0 <= k <= rest.len(),
    ensures
        line_start(seq![p] + rest, k + 1) == p.len() + 1 + line_start(rest, k),
    decreases k,
{
    let c = seq![p] + rest;
    assert(c[0] == p);
    assert(line_start(c, 0) == 0);
    assert(line_start(rest, 0) == 0);
    if k > 0 {
        lemma_line_start_cons(p, rest, k - 1);
        assert(c[k] == rest[k - 1]);
    }
}

/// The pieces of a split contain no line feed, and the split of a text of
/// `n` bytes occupies at most `n + 1` bytes once rejoined with separators.
pub proof fn lemma_split_lines_wf(t: Seq<u8>)
    ensures
        no_nl(split_lines(t)),
        line_start(split_lines(t), split_lines(t).len() as int) <= t.len() + 1,
    decreases t.len(),
{
    lemma_first_nl(t);
    if t.len() == 0 {
    } else {
        let i = first_nl(t);
        if i < t.len() {
            let p = strip_cr(t.take(i));
            let rest = split_lines(t.skip(i + 1));
            assert(split_lines(t) == seq![p] + rest);
            lemma_split_lines_wf(t.skip(i + 1));
            lemma_line_start_cons(p, rest, rest.len() as int);
            assert(t.take(i).len() == i);
            assert(p.len() <= i);
            assert(t.skip(i + 1).len() == t.len() - i - 1);
            assert(!p.contains(NL)) by {
                assert(forall|j: int| 0 <= j < p.len() ==> p[j] == t[j] && t[j] != NL);
            }
            assert(no_nl(seq![p] + rest)) by {
                assert(forall|k: int|
                    1 <= k < (seq![p] + rest).len() ==> (seq![p] + rest)[k] == rest[k - 1]);
            }
        } else {
            assert(!t.contains(NL));
            assert(split_lines(t) == seq![t]);
            assert(forall|k: int| 0 <= k < seq![t].len() ==> seq![t][k] == t);
            assert(line_start(seq![t], 0) == 0);
            assert(line_start(seq![t], 1) == t.len() + 1);
        }
    }
}

/// Splitting text with no line feed yields the text itself as the only
/// piece, or nothing when the text is empty.
pub proof fn lemma_split_lines_no_nl(t: Seq<u8>)
    requires
        !t.contains(NL),
    ensures
        split_lines(t) == if t.len() == 0 {
            Seq::<Seq<u8>>::empty()
        } else {
            seq![t]
        },
{
    lemma_first_nl(t);
    if first_nl(t) < t.len() {
        assert(t.contains(NL));
    }
}

pub proof fn lemma_first_nl_concat(a: Seq<u8>, b: Seq<u8>)
    requires
        !a.contains(NL),
    ensures
        first_nl(a + seq![NL] + b) == a.len(),
    decreases a.len(),
{
    let t = a + seq![NL] + b;
    if a.len() == 0 {
        assert(t[0] == NL);
    } else {
        assert(t[0] == a[0]);
        assert(a.contains(NL) <== a[0] == NL);
        lemma_first_nl_concat(a.drop_first(), b);
        assert(t.drop_first() =~= a.drop_first() + seq![NL] + b);
    }
}

/// Peeling one line-feed-terminated piece off the front of a split.
pub proof fn lemma_split_lines_cons(a: Seq<u8>, b: Seq<u8>)
    requires
        !a.contains(NL),
    ensures
        split_lines(a + seq![NL] + b) == seq![strip_cr(a)] + split_lines(b),
{
    let t = a + seq![NL] + b;
    lemma_first_nl_concat(a, b);
    assert(t.take(a.len() as int) =~= a);
    assert(t.skip(a.len() as int + 1) =~= b);
}

/// The position owning byte offset `off`: the first line whose span,
/// length plus separator, reaches past `off`; an offset past the end of
/// the text clamps to the end of the last line, and to the origin when
/// there are no lines at all.
pub open spec fn offset_to_position(ls: Seq<Seq<u8>>, off: int) -> (int, int)
    decreases ls.len(),
{
    if ls.len() == 0 {
        (0, 0)
    } else if off < ls[0].len() + 1 {
        (0, off)
    } else if ls.len() == 1 {
        (0, ls[0].len() as int)
    } else {
        let p = offset_to_position(ls.drop_first(), off - ls[0].len() - 1);
        (p.0 + 1, p.1)
    }
}

pub proof fn lemma_offset_to_position_clamp(ls: Seq<Seq<u8>>, off: int)
    requires
        ls.len() > 0,
        off >= line_start(ls, ls.len() as int),
    ensures
        offset_to_position(ls, off) == (ls.len() - 1, ls[ls.len() - 1].len() as int),
    decreases ls.len(),
{
    lemma_line_start_mono(ls, 1, ls.len() as int);
    assert(line_start(ls, 0) == 0);
    assert(line_start(ls, 1) == ls[0].len() + 1);
    if ls.len() > 1 {
        let d = ls.drop_first();
        assert(seq![ls[0]] + d =~= ls);
        lemma_line_start_cons(ls[0], d, d.len() as int);
        lemma_offset_to_position_clamp(d, off - ls[0].len() - 1);
        assert(d[d.len() - 1] == ls[ls.len() - 1]);
    }
}

/// Converting a valid position to its byte offset and that offset back to
/// a position returns the starting position: the two conversions are
/// mutually inverse wherever the position's line exists and its column does
/// not run past that line's end.
pub proof fn lemma_position_offset_round_trip(ls: Seq<Seq<u8>>, pos: Position)
    requires
        pos.line < ls.len(),
        pos.character <= ls[pos.line as int].len(),
    ensures
        offset_to_position(ls, line_start(ls, pos.line as int) + pos.character) == (
        pos.line as int,
        pos.character as int,
        ),
{
    lemma_round_trip_rec(ls, pos.line as int, pos.character as int);
}

proof fn lemma_round_trip_rec(ls: Seq<Seq<u8>>, line: int, c: int)
    requires
        0 <= line < ls.len(),
        0 <= c <= ls[line].len(),
    ensures
        offset_to_position(ls, line_start(ls, line) + c) == (line, c),
    decreases line,
{
    assert(line_start(ls, 0) == 0);
    if line > 0 {
        let d = ls.drop_first();
        assert(seq![ls[0]] + d =~= ls);
        lemma_line_start_cons(ls[0], d, line - 1);
        lemma_line_start_mono(d, 0, line - 1);
        assert(d[line - 1] == ls[line]);
        lemma_round_trip_rec(d, line - 1, c);
    }
}

/// True of a range whose endpoints both lie inside the buffer and whose
/// start does not come after its end.
pub open spec fn valid_range(ls: Seq<Seq<u8>>, start: Position, end: Position) -> bool {
    &&& start.line <= end.line
    &&& (end.line as int) < ls.len()
    &&& start.character <= ls[start.line as int].len()
    &&& end.character <= ls[end.line as int].len()
    &&& (start.line == end.line ==> start.character <= end.character)
}

/// The lines that replace the spliced line range: the kept prefix of the
/// start line, the replacement text's own lines, and the kept suffix of
/// the end line, fused at both seams.
pub open spec fn replacement_lines(before: Seq<u8>, pieces: Seq<Seq<u8>>, after: Seq<u8>) -> Seq<
    Seq<u8>,
> {
    if pieces.len() == 0 {
        seq![before + after]
    } else if pieces.len() == 1 {
        seq![before + pieces[0] + after]
    } else {
        seq![before + pieces[0]] + pieces.subrange(1, pieces.len() as int - 1) + seq![
            pieces.last() + after
        ]
    }
}

/// The buffer's lines after replacing the half-open range from `start` to
/// `end` with `nt`.
pub open spec fn apply_change_spec(
    ls: Seq<Seq<u8>>,
    start: Position,
    end: Position,
    nt: Seq<u8>,
) -> Seq<Seq<u8>> {
    let before = ls[start.line as int].take(start.character as int);
    let after = ls[end.line as int].skip(end.character as int);
    ls.take(start.line as int) + replacement_lines(before, split_lines(nt), after) + ls.skip(
        end.line as int + 1,
    )
}

proof fn lemma_no_nl_subrange(s: Seq<u8>, a: int, b: int)
    requires
        !s.contains(NL),
        0 <= a <= b <= s.len(),
    ensures
        !s.subrange(a, b).contains(NL),
{
    let sub = s.subrange(a, b);
    assert forall|i: int| 0 <= i < sub.len() implies sub[i] != NL by {
        assert(sub[i] == s[a + i]);
    }
}

proof fn lemma_no_nl_concat(a: Seq<u8>, b: Seq<u8>)
    requires
        !a.contains(NL),
        !b.contains(NL),
    ensures
        !(a + b).contains(NL),
{
    assert forall|i: int| 0 <= i < (a + b).len() implies (a + b)[i] != NL by {
        if i < a.len() {
            assert((a + b)[i] == a[i]);
        } else {
            assert((a + b)[i] == b[i - a.len()]);
        }
    }
}

/// A change never introduces a line feed into a line.
pub proof fn lemma_apply_change_no_nl(ls: Seq<Seq<u8>>, start: Position, end: Position, nt: Seq<u8>)
    requires
        no_nl(ls),
        valid_range(ls, start, end),
    ensures
        no_nl(apply_change_spec(ls, start, end, nt)),
{
    lemma_split_lines_wf(nt);
    let sl = start.line as int;
    let el = end.line as int;
    let before = ls[sl].take(start.character as int);
    let after = ls[el].skip(end.character as int);
    let pieces = split_lines(nt);
    let repl = replacement_lines(before, pieces, after);
    let r = apply_change_spec(ls, start, end, nt);
    lemma_no_nl_subrange(ls[sl], 0, start.character as int);
    lemma_no_nl_subrange(ls[el], end.character as int, ls[el].len() as int);
    assert(!before.contains(NL));
    assert(!after.contains(NL));
    assert forall|x: int| 0 <= x < repl.len() implies !repl[x].contains(NL) by {
        if pieces.len() == 0 {
            lemma_no_nl_concat(before, after);
        } else if pieces.len() == 1 {
            lemma_no_nl_concat(before, pieces[0]);
            lemma_no_nl_concat(before + pieces[0], after);
        } else {
            lemma_no_nl_concat(before, pieces[0]);
            lemma_no_nl_concat(pieces.last(), after);
            if 1 <= x < repl.len() - 1 {
                assert(repl[x] == pieces[x]);
            }
        }
    }
    assert forall|x: int| 0 <= x < r.len() implies !r[x].contains(NL) by {
        if x < sl {
            assert(r[x] == ls[x]);
        } else if x < sl + repl.len() {
            assert(r[x] == repl[x - sl]);
        } else {
            assert(r[x] == ls[x - sl - repl.len() + el + 1]);
        }
    }
}

/// Joining distributes over concatenation of two non-empty line groups,
/// with one separator at the seam.
pub proof fn lemma_join_concat(a: Seq<Seq<u8>>, b: Seq<Seq<u8>>)
    requires
        a.len() > 0,
        b.len() > 0,
    ensures
        join_lines(a + b) == join_lines(a) + seq![NL] + join_lines(b),
    decreases b.len(),
{
    let c = a + b;
    assert(c.last() == b.last());
    if b.len() == 1 {
        assert(c.drop_last() =~= a);
        assert(join_lines(b) == b[0]);
        assert(join_lines(c) == join_lines(a) + seq![NL] + b[0]);
    } else {
        assert(c.drop_last() =~= a + b.drop_last());
        lemma_join_concat(a, b.drop_last());
        assert(join_lines(a) + seq![NL] + (join_lines(b.drop_last()) + seq![NL] + b.last()) =~= (
        join_lines(a) + seq![NL] + join_lines(b.drop_last())) + seq![NL] + b.last());
    }
}

/// `line_start` reads only the lines before `k`.
proof fn lemma_line_start_agree(ls1: Seq<Seq<u8>>, ls2: Seq<Seq<u8>>, k: int)
    requires
        0 <= k,
        forall|j: int| 0 <= j < k ==> ls1[j] == ls2[j],
    ensures
        line_start(ls1, k) == line_start(ls2, k),
    decreases k,
{
    if k > 0 {
        lemma_line_start_agree(ls1, ls2, k - 1);
    }
}

/// The joined text of a non-empty buffer is one byte shorter than the
/// offset one past its last line.
pub proof fn lemma_join_len(ls: Seq<Seq<u8>>)
    requires
        ls.len() > 0,
    ensures
        join_lines(ls).len() == line_start(ls, ls.len() as int) - 1,
    decreases ls.len(),
{
    assert(line_start(ls, 0) == 0);
    if ls.len() == 1 {
        assert(line_start(ls, 1) == ls[0].len() + 1);
    } else {
        lemma_join_len(ls.drop_last());
        lemma_line_start_agree(ls.drop_last(), ls, ls.len() as int - 1);
    }
}

/// The separator-terminated text of the lines before line `l`.
pub open spec fn pre_part(ls: Seq<Seq<u8>>, l: int) -> Seq<u8> {
    if l == 0 {
        Seq::empty()
    } else {
        join_lines(ls.take(l)) + seq![NL]
    }
}

/// The separator-led text of the lines after line `l`.
pub open spec fn suf_part(ls: Seq<Seq<u8>>, l: int) -> Seq<u8> {
    if l == ls.len() - 1 {
        Seq::empty()
    } else {
        seq![NL] + join_lines(ls.skip(l + 1))
    }
}

/// The joined text decomposes around any line: everything before it, the
/// line itself, and everything after it; the part before starts exactly at
/// the line's start offset.
pub proof fn lemma_join_around(ls: Seq<Seq<u8>>, l: int)
    requires
        0 <= l < ls.len(),
    ensures
        join_lines(ls) == pre_part(ls, l) + ls[l] + suf_part(ls, l),
        pre_part(ls, l).len() == line_start(ls, l),
{
    let n = ls.len() as int;
    if l == 0 && l == n - 1 {
        assert(join_lines(ls) == ls[0]);
        assert(pre_part(ls, 0) + ls[0] + suf_part(ls, 0) =~= ls[0]);
    } else if l == 0 {
        assert(ls =~= seq![ls[0]] + ls.skip(1));
        lemma_join_concat(seq![ls[0]], ls.skip(1));
        assert(join_lines(seq![ls[0]]) == ls[0]);
        assert(ls[0] + seq![NL] + join_lines(ls.skip(1)) =~= pre_part(ls, 0) + ls[0] + suf_part(
            ls,
            0,
        ));
    } else if l == n - 1 {
        assert(ls =~= ls.take(l) + seq![ls[l]]);
        lemma_join_concat(ls.take(l), seq![ls[l]]);
        assert(join_lines(seq![ls[l]]) == ls[l]);
        assert(join_lines(ls.take(l)) + seq![NL] + ls[l] =~= pre_part(ls, l) + ls[l] + suf_part(
            ls,
            l,
        ));
    } else {
        assert(ls =~= ls.take(l) + (seq![ls[l]] + ls.skip(l + 1)));
        lemma_join_concat(seq![ls[l]], ls.skip(l + 1));
        assert(join_lines(seq![ls[l]]) == ls[l]);
        lemma_join_concat(ls.take(l), seq![ls[l]] + ls.skip(l + 1));
        assert(join_lines(ls.take(l)) + seq![NL] + (ls[l] + seq![NL] + join_lines(ls.skip(l + 1)))
            =~= pre_part(ls, l) + ls[l] + suf_part(ls, l));
    }
    if l > 0 {
        lemma_join_len(ls.take(l));
        lemma_line_start_agree(ls.take(l), ls, l);
    }
}

/// The prefix of the joined text up to a position inside line `l`, and the
/// suffix from that position on.
pub proof fn lemma_join_take_skip(ls: Seq<Seq<u8>>, l: int, c: int)
    requires
        0 <= l < ls.len(),
        0 <= c <= ls[l].len(),
    ensures
        join_lines(ls).take(line_start(ls, l) + c) == pre_part(ls, l) + ls[l].take(c),
        join_lines(ls).skip(line_start(ls, l) + c) == ls[l].skip(c) + suf_part(ls, l),
{
    lemma_join_around(ls, l);
    let off = line_start(ls, l) + c;
    assert(join_lines(ls).take(off) =~= pre_part(ls, l) + ls[l].take(c));
    assert(join_lines(ls).skip(off) =~= ls[l].skip(c) + suf_part(ls, l));
}

/// With a well-formed range, the start offset never exceeds the end
/// offset, and the end offset stays inside the joined text.
pub proof fn lemma_range_offsets_ordered(ls: Seq<Seq<u8>>, start: Position, end: Position)
    requires
        valid_range(ls, start, end),
    ensures
        0 <= line_start(ls, start.line as int) + start.character,
        line_start(ls, start.line as int) + start.character <= line_start(ls, end.line as int)
            + end.character,
        line_start(ls, end.line as int) + end.character <= line_start(ls, ls.len() as int) - 1,
{
    let sl = start.line as int;
    let el = end.line as int;
    lemma_line_start_mono(ls, 0, sl);
    if sl < el {
        assert(line_start(ls, sl + 1) == line_start(ls, sl) + ls[sl].len() + 1);
        lemma_line_start_mono(ls, sl + 1, el);
    }
    assert(line_start(ls, el + 1) == line_start(ls, el) + ls[el].len() + 1);
    lemma_line_start_mono(ls, el + 1, ls.len() as int);
}

/// The replacement line group joins back to the kept prefix of the start
/// line, the new text, and the kept suffix of the end line.
proof fn lemma_join_replacement(before: Seq<u8>, nt: Seq<u8>, after: Seq<u8>)
    ensures
        join_lines(replacement_lines(before, split_lines(nt), after)) == before + join_lines(
            split_lines(nt),
        ) + after,
{
    let pieces = split_lines(nt);
    let js = join_lines(pieces);
    let repl = replacement_lines(before, pieces, after);
    if pieces.len() == 0 {
        assert(join_lines(repl) == before + after);
        assert(before + js + after =~= before + after);
    } else if pieces.len() == 1 {
        assert(js == pieces[0]);
        assert(join_lines(repl) == before + pieces[0] + after);
    } else {
        let np = pieces.len() as int;
        let mid = pieces.subrange(1, np - 1);
        let b0 = before + pieces[0];
        let bl = pieces.last() + after;
        assert(repl == seq![b0] + mid + seq![bl]);
        assert(pieces =~= seq![pieces[0]] + mid + seq![pieces.last()]);
        if mid.len() == 0 {
            lemma_join_concat(seq![b0], seq![bl]);
            assert(repl =~= seq![b0] + seq![bl]);
            lemma_join_concat(seq![pieces[0]], seq![pieces.last()]);
            assert(seq![pieces[0]] + mid + seq![pieces.last()] =~= seq![pieces[0]] + seq![
                pieces.last()
            ]);
            assert(js == pieces[0] + seq![NL] + pieces.last());
            assert(b0 + seq![NL] + bl =~= before + js + after);
        } else {
            lemma_join_concat(mid, seq![bl]);
            lemma_join_concat(seq![b0], mid + seq![bl]);
            assert(repl =~= seq![b0] + (mid + seq![bl]));
            assert(join_lines(repl) == b0 + seq![NL] + (join_lines(mid) + seq![NL] + bl));
            lemma_join_concat(mid, seq![pieces.last()]);
            lemma_join_concat(seq![pieces[0]], mid + seq![pieces.last()]);
            assert(pieces =~= seq![pieces[0]] + (mid + seq![pieces.last()]));
            assert(js == pieces[0] + seq![NL] + (join_lines(mid) + seq![NL] + pieces.last()));
            assert(b0 + seq![NL] + (join_lines(mid) + seq![NL] + bl) =~= before + (pieces[0]
                + seq![NL] + (join_lines(mid) + seq![NL] + pieces.last())) + after);
        }
    }
}

/// The changed buffer joins back to the lines before the range, the
/// replacement group, and the lines after the range.
proof fn lemma_join_changed_buffer(ls: Seq<Seq<u8>>, start: Position, end: Position, nt: Seq<u8>)
    requires
        valid_range(ls, start, end),
    ensures
        ({
            let before = ls[start.line as int].take(start.character as int);
            let after = ls[end.line as int].skip(end.character as int);
            let repl = replacement_lines(before, split_lines(nt), after);
            join_lines(apply_change_spec(ls, start, end, nt)) == pre_part(ls, start.line as int)
                + join_lines(repl) + suf_part(ls, end.line as int)
        }),
{
    let sl = start.line as int;
    let el = end.line as int;
    let n = ls.len() as int;
    let before = ls[sl].take(start.character as int);
    let after = ls[el].skip(end.character as int);
    let repl = replacement_lines(before, split_lines(nt), after);
    let result = apply_change_spec(ls, start, end, nt);
    let tail = ls.skip(el + 1);
    assert(repl.len() > 0);
    if sl == 0 && el == n - 1 {
        assert(result =~= repl);
        assert(pre_part(ls, sl) + join_lines(repl) + suf_part(ls, el) =~= join_lines(repl));
    } else if sl == 0 {
        assert(result =~= repl + tail);
        lemma_join_concat(repl, tail);
        assert(pre_part(ls, sl) + join_lines(repl) + suf_part(ls, el) =~= join_lines(repl)
            + seq![NL] + join_lines(tail));
    } else if el == n - 1 {
        assert(result =~= ls.take(sl) + repl);
        lemma_join_concat(ls.take(sl), repl);
        assert(pre_part(ls, sl) + join_lines(repl) + suf_part(ls, el) =~= join_lines(ls.take(sl))
            + seq![NL] + join_lines(repl));
    } else {
        assert(result =~= ls.take(sl) + (repl + tail));
        lemma_join_concat(repl, tail);
        lemma_join_concat(ls.take(sl), repl + tail);
        assert(pre_part(ls, sl) + join_lines(repl) + suf_part(ls, el) =~= join_lines(ls.take(sl))
            + seq![NL] + (join_lines(repl) + seq![NL] + join_lines(tail)));
    }
}

/// The joined text after any change: the prefix up to the start offset,
/// what survives of the new text's line split, and the suffix from the end
/// offset on.
pub proof fn lemma_apply_change_join(ls: Seq<Seq<u8>>, start: Position, end: Position, nt: Seq<u8>)
    requires
        valid_range(ls, start, end),
    ensures
        join_lines(apply_change_spec(ls, start, end, nt)) == join_lines(ls).take(
            line_start(ls, start.line as int) + start.character,
        ) + join_lines(split_lines(nt)) + join_lines(ls).skip(
            line_start(ls, end.line as int) + end.character,
        ),
{
    let sl = start.line as int;
    let sc = start.character as int;
    let el = end.line as int;
    let ec = end.character as int;
    let before = ls[sl].take(sc);
    let after = ls[el].skip(ec);
    let js = join_lines(split_lines(nt));
    lemma_join_replacement(before, nt, after);
    lemma_join_changed_buffer(ls, start, end, nt);
    lemma_join_take_skip(ls, sl, sc);
    lemma_join_take_skip(ls, el, ec);
    assert(pre_part(ls, sl) + (before + js + after) + suf_part(ls, el) =~= (pre_part(ls, sl)
        + before) + js + (after + suf_part(ls, el)));
}

/// Splice correctness: applying a change and rejoining the buffer yields
/// the original text with the byte range from the start offset to the end
/// offset replaced by the new text, for single-line and multi-line edits
/// alike, whenever the new text survives the line split unchanged.
pub proof fn lemma_apply_change_splices_text(
    ls: Seq<Seq<u8>>,
    start: Position,
    end: Position,
    nt: Seq<u8>,
)
    requires
        valid_range(ls, start, end),
        join_lines(split_lines(nt)) == nt,
    ensures
        join_lines(apply_change_spec(ls, start, end, nt)) == join_lines(ls).take(
            line_start(ls, start.line as int) + start.character,
        ) + nt + join_lines(ls).skip(line_start(ls, end.line as int) + end.character),
{
    lemma_apply_change_join(ls, start, end, nt);
}

/// What survives of a text's line split never outgrows the text.
pub proof fn lemma_join_split_len(nt: Seq<u8>)
    ensures
        join_lines(split_lines(nt)).len() <= nt.len(),
{
    lemma_split_lines_wf(nt);
    let pieces = split_lines(nt);
    if pieces.len() > 0 {
        lemma_join_len(pieces);
    }
}

/// Size accounting for a change: the offset one past the changed buffer's
/// last line shrinks by the replaced byte range and grows by what survives
/// of the new text.
pub proof fn lemma_change_total(ls: Seq<Seq<u8>>, start: Position, end: Position, nt: Seq<u8>)
    requires
        valid_range(ls, start, end),
    ensures
        ({
            let r = apply_change_spec(ls, start, end, nt);
            let sb = line_start(ls, start.line as int) + start.character;
            let oeb = line_start(ls, end.line as int) + end.character;
            line_start(r, r.len() as int) == line_start(ls, ls.len() as int) - (oeb - sb)
                + join_lines(split_lines(nt)).len()
        }),
{
    let r = apply_change_spec(ls, start, end, nt);
    let sb = line_start(ls, start.line as int) + start.character;
    let oeb = line_start(ls, end.line as int) + end.character;
    let js = join_lines(split_lines(nt));
    lemma_range_offsets_ordered(ls, start, end);
    lemma_join_len(ls);
    lemma_apply_change_join(ls, start, end, nt);
    assert(r.len() > 0);
    lemma_join_len(r);
    assert(join_lines(ls).take(sb).len() == sb);
    assert(join_lines(ls).skip(oeb).len() == join_lines(ls).len() - oeb);
}

/// A change whose range is empty and whose replacement text is empty
/// leaves the buffer exactly as it was.
pub proof fn lemma_empty_change_is_identity(ls: Seq<Seq<u8>>, pos: Position)
    requires
        valid_range(ls, pos, pos),
    ensures
        apply_change_spec(ls, pos, pos, Seq::empty()) == ls,
{
    let l = pos.line as int;
    let c = pos.character as int;
    assert(split_lines(Seq::empty()) == Seq::<Seq<u8>>::empty());
    assert(ls[l].take(c) + ls[l].skip(c) =~= ls[l]);
    assert(apply_change_spec(ls, pos, pos, Seq::empty()) =~= ls);
}

/// The line-oriented text buffer of one document.
#[derive(Clone, Debug)]
pub struct LineList {
    pub lines: Vec<Vec<u8>>,
}

impl View for LineList {
    type V = Seq<Seq<u8>>;

    open spec fn view(&self) -> Seq<Seq<u8>> {
        self.lines.deep_view()
    }
}

/// The error surfaced when incoming text cannot be decoded.
#[derive(Clone, Copy, Debug, PartialEq, Eq, Structural)]
pub enum TextError {
    InvalidUtf8,
}

/// Relies on `std::str::from_utf8`: it returns `Ok` exactly when the bytes
/// are valid UTF-8, the property `vstd::utf8::valid_utf8` describes.
#[verifier::external_body]
fn utf8_ok(text: &[u8]) -> (r: bool)
    ensures
        r == valid_utf8(text@),
{
    core::str::from_utf8(text).is_ok()
}

/// A byte-for-byte copy of `v` whose view is provably the same.
pub(crate) fn clone_bytes(v: &Vec<u8>) -> (r: Vec<u8>)
    ensures
        r@ == v@,
{
    let r = v.clone();
    proof {
        assert(r@ =~= v@);
    }
    r
}

/// Appends `src[from..to]` to `dst`.
fn append_range(dst: &mut Vec<u8>, src: &[u8], from: usize, to: usize)
    requires
        from <= to <= src@.len(),
    ensures
        final(dst)@ == old(dst)@ + src@.subrange(from as int, to as int),
{
    let ghost base = dst@;
    let mut j: usize = from;
    while j < to
        invariant
            from <= j <= to <= src@.len(),
            dst@ == base + src@.subrange(from as int, j as int),
        decreases to - j,
    {
        dst.push(src[j]);
        proof {
            assert(base + src@.subrange(from as int, j + 1) =~= (base + src@.subrange(
                from as int,
                j as int,
            )).push(src@[j as int]));
        }
        j = j + 1;
    }
}

/// Splits raw text into its lines.
fn split_bytes(text: &[u8]) -> (r: Vec<Vec<u8>>)
    ensures
        r.deep_view() == split_lines(text@),
{
    broadcast use lemma_vec_u8_deep_view;

    let n = text.len();
    let mut out: Vec<Vec<u8>> = Vec::new();
    let mut cur: Vec<u8> = Vec::new();
    let mut i: usize = 0;
    proof {
        assert(cur@ + text@.skip(0) =~= text@);
        assert(out.deep_view() + split_lines(text@) =~~= split_lines(text@));
    }
    while i < n
        invariant
            n == text@.len(),
            i <= n,
            !cur@.contains(NL),
            split_lines(text@) == out.deep_view() + split_lines(cur@ + text@.skip(i as int)),
        decreases n - i,
    {
        let b = text[i];
        if b == NL {
            proof {
                assert(cur@ + text@.skip(i as int) =~= cur@ + seq![NL] + text@.skip(i + 1));
                lemma_split_lines_cons(cur@, text@.skip(i + 1));
            }
            if cur.len() > 0 && cur[cur.len() - 1] == CR {
                cur.pop();
            }
            let ghost old_out = out.deep_view();
            let ghost piece = cur@;
            out.push(cur);
            cur = Vec::new();
            proof {
                assert(out.deep_view() =~~= old_out + seq![piece]);
                assert(out.deep_view() + split_lines(cur@ + text@.skip(i + 1)) =~= old_out
                    + (seq![piece] + split_lines(text@.skip(i + 1))));
                assert(cur@ + text@.skip(i + 1) =~= text@.skip(i + 1));
            }
        } else {
            let ghost old_cur = cur@;
            cur.push(b);
            proof {
                assert(!cur@.contains(NL)) by {
                    assert(forall|j: int|
                        0 <= j < cur@.len() ==> cur@[j] == (if j < old_cur.len() {
                            old_cur[j]
                        } else {
                            b
                        }));
                }
                assert(cur@ + text@.skip(i + 1) =~= old_cur + text@.skip(i as int));
            }
        }
        i = i + 1;
    }
    proof {
        assert(cur@ + text@.skip(n as int) =~= cur@);
        lemma_split_lines_no_nl(cur@);
    }
    if cur.len() > 0 {
        let ghost old_out = out.deep_view();
        let ghost piece = cur@;
        out.push(cur);
        proof {
            assert(out.deep_view() =~~= old_out + seq![piece]);
        }
    } else {
        proof {
            assert(out.deep_view() + split_lines(cur@) =~= out.deep_view());
        }
    }
    out
}

impl LineList {
    /// Well-formedness: no line holds a line feed, and every offset into
    /// the buffer fits in `usize`.
    pub open spec fn wf(&self) -> bool {
        lines_wf(self@)
    }

    /// An empty buffer with no lines at all.
    pub fn new() -> (r: Self)
        ensures
            r@ == Seq::<Seq<u8>>::empty(),
            r.wf(),
    {
        let r = LineList { lines: Vec::new() };
        proof {
            assert(r@ =~= Seq::<Seq<u8>>::empty());
        }
        r
    }

    /// Replaces the whole buffer with the lines of `text`; rejects text
    /// that is not valid UTF-8 and leaves the buffer untouched then.
    pub fn set_text(&mut self, text: &[u8]) -> (r: Result<(), TextError>)
        requires
            text@.len() < usize::MAX,
        ensures
            match r {
                Ok(()) => valid_utf8(text@) && final(self)@ == split_lines(text@)
                    && final(self).wf(),
                Err(e) => e == TextError::InvalidUtf8 && !valid_utf8(text@) && *final(self)
                    == *old(self),
            },
    {
        if !utf8_ok(text) {
            return Err(TextError::InvalidUtf8);
        }
        let lines = split_bytes(text);
        proof {
            lemma_split_lines_wf(text@);
        }
        self.lines = lines;
        Ok(())
    }

    /// The buffer's full text: its lines joined with single line feeds.
    pub fn to_text(&self) -> (r: Vec<u8>)
        ensures
            r@ == join_lines(self@),
    {
        let mut out: Vec<u8> = Vec::new();
        let n = self.lines.len();
        let mut i: usize = 0;
        while i < n
            invariant
                n == self@.len(),
                i <= n,
                out@ == join_lines(self@.take(i as int)),
            decreases n - i,
        {
            if i > 0 {
                out.push(NL);
            }
            let ghost mid = out@;
            let line = &self.lines[i];
            let m = line.len();
            let mut j: usize = 0;
            while j < m
                invariant
                    j <= m,
                    m == line@.len(),
                    out@ == mid + line@.take(j as int),
                decreases m - j,
            {
                out.push(line[j]);
                proof {
                    assert(mid + line@.take(j + 1) =~= (mid + line@.take(j as int)).push(
                        line@[j as int],
                    ));
                }
                j = j + 1;
            }
            proof {
                assert(out@ == mid + self@[i as int]) by {
                    assert(self@[i as int] == line@);
                    assert(line@.take(m as int) =~= line@);
                }
                let pre = self@.take(i as int);
                let nxt = self@.take(i + 1);
                assert(nxt.drop_last() =~= pre);
                assert(nxt.last() == self@[i as int]);
                if i == 0 {
                    assert(join_lines(nxt) == self@[0]);
                    assert(out@ =~= join_lines(nxt));
                } else {
                    assert(join_lines(nxt) == join_lines(pre) + seq![NL] + self@[i as int]);
                    assert(out@ =~= join_lines(nxt));
                }
            }
            i = i + 1;
        }
        proof {
            assert(self@.take(n as int) =~= self@);
        }
        out
    }

    /// The absolute byte offset of `pos`, or `None` when `pos.line` is past
    /// the last line. The column is added as given, without clamping it to
    /// the line's length.
    pub fn position_to_offset(&self, pos: &Position) -> (r: Option<usize>)
        requires
            self.wf(),
            pos.line < self@.len() ==> line_start(self@, pos.line as int) + pos.character
                <= usize::MAX,
        ensures
            r == if pos.line < self@.len() {
                Some((line_start(self@, pos.line as int) + pos.character) as usize)
            } else {
                None::<usize>
            },
    {
        if pos.line >= self.lines.len() {
            return None;
        }
        let mut offset: usize = 0;
        let mut i: usize = 0;
        while i < pos.line
            invariant
                self.wf(),
                i <= pos.line,
                pos.line < self@.len(),
                offset == line_start(self@, i as int),
            decreases pos.line - i,
        {
            proof {
                lemma_line_start_mono(self@, i + 1, self@.len() as int);
                assert(self@[i as int] == self.lines@[i as int]@);
            }
            offset = offset + self.lines[i].len() + 1;
            i = i + 1;
        }
        Some(offset + pos.character)
    }

    /// The byte offset one past the buffer's last line: the length of the
    /// joined text plus one for a final separator.
    pub fn total_encoded(&self) -> (r: usize)
        requires
            self.wf(),
        ensures
            r as int == line_start(self@, self@.len() as int),
    {
        let n = self.lines.len();
        let mut total: usize = 0;
        let mut i: usize = 0;
        while i < n
            invariant
                self.wf(),
                n == self@.len(),
                i <= n,
                total == line_start(self@, i as int),
            decreases n - i,
        {
            proof {
                lemma_line_start_mono(self@, i + 1, n as int);
                assert(self@[i as int] == self.lines@[i as int]@);
            }
            total = total + self.lines[i].len() + 1;
            i = i + 1;
        }
        total
    }

    /// The position owning the byte at `offset`, clamped to the end of the
    /// last line when `offset` runs past the text.
    pub fn point_from_offset(&self, offset: usize) -> (r: Position)
        requires
            self.wf(),
        ensures
            (r.line as int, r.character as int) == offset_to_position(self@, offset as int),
    {
        let n = self.lines.len();
        let mut row: usize = 0;
        let mut total: usize = 0;
        proof {
            assert(self@.skip(0) =~= self@);
        }
        while row < n
            invariant
                self.wf(),
                n == self@.len(),
                row <= n,
                total == line_start(self@, row as int),
                offset >= total,
                row < n ==> ({
                    let p = offset_to_position(self@.skip(row as int), offset - total);
                    let q = offset_to_position(self@, offset as int);
                    q.0 == p.0 + row && q.1 == p.1
                }),
            decreases n - row,
        {
            let ghost rest = self@.skip(row as int);
            proof {
                assert(rest[0] == self@[row as int]);
                assert(self@[row as int] == self.lines@[row as int]@);
                lemma_line_start_mono(self@, row + 1, n as int);
            }
            let len = self.lines[row].len();
            if offset - total <= len {
                return Position { line: row, character: offset - total };
            }
            proof {
                if row + 1 < n {
                    assert(rest.drop_first() =~= self@.skip(row + 1));
                }
            }
            total = total + len + 1;
            row = row + 1;
        }
        if n == 0 {
            Position { line: 0, character: 0 }
        } else {
            proof {
                lemma_offset_to_position_clamp(self@, offset as int);
                assert(self@[n - 1] == self.lines@[n - 1]@);
            }
            Position { line: n - 1, character: self.lines[n - 1].len() }
        }
    }

    /// Replaces the half-open range from `start` to `end` with `new_text`,
    /// splicing whole lines: the prefix of the start line, the replacement
    /// text's lines and the suffix of the end line stand in for the spliced
    /// line range. Malformed ranges are a caller contract violation and are
    /// excluded here rather than clamped.
    pub fn apply_change(&mut self, start: &Position, end: &Position, new_text: &[u8])
        requires
            old(self).wf(),
            valid_range(old(self)@, *start, *end),
            fits(apply_change_spec(old(self)@, *start, *end, new_text@)),
        ensures
            final(self)@ == apply_change_spec(old(self)@, *start, *end, new_text@),
            final(self).wf(),
    {
        broadcast use lemma_vec_u8_deep_view;

        let ghost target = apply_change_spec(self@, *start, *end, new_text@);
        let ghost before_s = self@[start.line as int].take(start.character as int);
        let ghost after_s = self@[end.line as int].skip(end.character as int);
        let pieces = split_bytes(new_text);
        let ghost repl = replacement_lines(before_s, pieces.deep_view(), after_s);
        let sl = start.line;
        let sc = start.character;
        let el = end.line;
        let ec = end.character;
        let mut out: Vec<Vec<u8>> = Vec::new();
        let mut i: usize = 0;
        proof {
            assert(out.deep_view() =~~= self@.take(0));
        }
        while i < sl
            invariant
                i <= sl,
                sl < self@.len(),
                self@ == old(self)@,
                self.lines@.len() == self@.len(),
                out.deep_view() == self@.take(i as int),
            decreases sl - i,
        {
            let ghost prev = out.deep_view();
            out.push(clone_bytes(&self.lines[i]));
            proof {
                assert(out.deep_view() =~~= prev + seq![self@[i as int]]);
                assert(prev + seq![self@[i as int]] =~~= self@.take(i + 1));
            }
            i = i + 1;
        }
        // the replacement lines
        if pieces.len() == 0 {
            let mut joined: Vec<u8> = Vec::new();
            append_range(&mut joined, self.lines[sl].as_slice(), 0, sc);
            append_range(&mut joined, self.lines[el].as_slice(), ec, self.lines[el].len());
            let ghost prev = out.deep_view();
            proof {
                assert(joined@ == before_s + after_s);
            }
            out.push(joined);
            proof {
                assert(out.deep_view() =~~= prev + repl);
            }
        } else if pieces.len() == 1 {
            let mut joined: Vec<u8> = Vec::new();
            append_range(&mut joined, self.lines[sl].as_slice(), 0, sc);
            append_range(&mut joined, pieces[0].as_slice(), 0, pieces[0].len());
            append_range(&mut joined, self.lines[el].as_slice(), ec, self.lines[el].len());
            let ghost prev = out.deep_view();
            proof {
                assert(pieces@[0]@ == pieces.deep_view()[0]);
                assert(pieces@[0]@.subrange(0, pieces@[0]@.len() as int) =~= pieces@[0]@);
                assert(joined@ == before_s + pieces.deep_view()[0] + after_s);
            }
            out.push(joined);
            proof {
                assert(out.deep_view() =~~= prev + repl);
            }
        } else {
            let ghost base = out.deep_view();
            let np = pieces.len();
            let mut first: Vec<u8> = Vec::new();
            append_range(&mut first, self.lines[sl].as_slice(), 0, sc);
            append_range(&mut first, pieces[0].as_slice(), 0, pieces[0].len());
            proof {
                assert(pieces@[0]@.subrange(0, pieces@[0]@.len() as int) =~= pieces@[0]@);
                assert(first@ == before_s + pieces.deep_view()[0]);
            }
            out.push(first);
            proof {
                assert(out.deep_view() =~~= base + seq![before_s + pieces.deep_view()[0]]);
            }
            let mut k: usize = 1;
            while k < np - 1
                invariant
                    1 <= k <= np - 1,
                    np == pieces@.len(),
                    2 <= np,
                    pieces.deep_view() == split_lines(new_text@),
                    out.deep_view() == base + seq![before_s + pieces.deep_view()[0]]
                        + pieces.deep_view().subrange(1, k as int),
                decreases np - k,
            {
                let ghost prev = out.deep_view();
                out.push(clone_bytes(&pieces[k]));
                proof {
                    assert(out.deep_view() =~~= prev + seq![pieces.deep_view()[k as int]]);
                    assert(prev + seq![pieces.deep_view()[k as int]] =~~= base + seq![
                        before_s + pieces.deep_view()[0]
                    ] + pieces.deep_view().subrange(1, k + 1));
                }
                k = k + 1;
            }
            let mut lastv: Vec<u8> = Vec::new();
            append_range(&mut lastv, pieces[np - 1].as_slice(), 0, pieces[np - 1].len());
            append_range(&mut lastv, self.lines[el].as_slice(), ec, self.lines[el].len());
            proof {
                assert(pieces@[np - 1]@.subrange(0, pieces@[np - 1]@.len() as int) =~= pieces@[np
                    - 1]@);
                assert(lastv@ == pieces.deep_view().last() + after_s);
            }
            let ghost prevl = out.deep_view();
            out.push(lastv);
            proof {
                assert(out.deep_view() =~~= prevl + seq![pieces.deep_view().last() + after_s]);
                assert(out.deep_view() =~~= base + repl);
            }
        }
        proof {
            assert(out.deep_view() =~~= self@.take(sl as int) + repl);
        }
        // the lines after the replaced range
        let ghost mid = out.deep_view();
        let n = self.lines.len();
        let mut j: usize = el + 1;
        while j < n
            invariant
                el as int + 1 <= j as int <= n as int,
                n == self@.len(),
                self@ == old(self)@,
                self.lines@.len() == self@.len(),
                out.deep_view() == mid + self@.subrange(el as int + 1, j as int),
            decreases n - j,
        {
            let ghost prev = out.deep_view();
            out.push(clone_bytes(&self.lines[j]));
            proof {
                assert(out.deep_view() =~~= prev + seq![self@[j as int]]);
                assert(prev + seq![self@[j as int]] =~~= mid + self@.subrange(
                    el as int + 1,
                    j + 1,
                ));
            }
            j = j + 1;
        }
        proof {
            assert(self@.subrange(el as int + 1, n as int) =~= self@.skip(el as int + 1));
            assert(out.deep_view() =~~= target);
            lemma_apply_change_no_nl(self@, *start, *end, new_text@);
        }
        self.lines = out;
    }
}

} // verus!
