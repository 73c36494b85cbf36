//! Lines of a byte buffer.
//!
//! A line is a maximal run of bytes that ends in a newline, or the last run
//! of the buffer when that one has no newline. Cutting a buffer into its
//! lines and joining the lines again gives the buffer back.

use vstd::prelude::*;

verus! {

/// The byte that ends a line.
pub const NEWLINE: u8 = 0x0a;

/// Index just past the line of `s` that starts at `from`: past its newline,
/// or the end of `s` for a last line without one.
pub open spec fn line_end(s: Seq<u8>, from: int) -> int
    decreases s.len() - from,
{
    if from >= s.len() {
        s.len() as int
    } else if s[from] == NEWLINE {
        from + 1
    } else {
        line_end(s, from + 1)
    }
}

/// The lines of `s`, in order, each with its newline.
pub open spec fn split_lines(s: Seq<u8>) -> Seq<Seq<u8>>
    decreases s.len(),
    via split_lines_decreases
{
    if s.len() == 0 {
        Seq::empty()
    } else {
        let end = line_end(s, 0);
        seq![s.subrange(0, end)] + split_lines(s.subrange(end, s.len() as int))
    }
}

#[via_fn]
proof fn split_lines_decreases(s: Seq<u8>) {
    if s.len() != 0 {
        lemma_line_end_bounds(s, 0);
    }
}

/// The bytes of `lines`, one line after the other.
pub open spec fn join(lines: Seq<Seq<u8>>) -> Seq<u8>
    decreases lines.len(),
{
    if lines.len() == 0 {
        Seq::empty()
    } else {
        join(lines.drop_last()) + lines.last()
    }
}

/// `s` is empty or ends in a newline, so that text written after it starts
/// a line of its own.
pub open spec fn is_terminated(s: Seq<u8>) -> bool {
    s.len() == 0 || s.last() == NEWLINE
}

/// `l` is one whole line: its only newline is its last byte.
pub open spec fn is_full_line(l: Seq<u8>) -> bool {
    &&& l.len() > 0
    &&& l.last() == NEWLINE
    &&& forall|i: int| 0 <= i < l.len() - 1 ==> l[i] != NEWLINE
}

/// Every element of `lines` is one whole line.
pub open spec fn all_full_lines(lines: Seq<Seq<u8>>) -> bool {
    forall|i: int| 0 <= i < lines.len() ==> is_full_line(#[trigger] lines[i])
}

/// A line is never empty and never runs past the buffer.
pub proof fn lemma_line_end_bounds(s: Seq<u8>, from: int)
    requires
        0 <= from < s.len(),
    ensures
        from < line_end(s, from) <= s.len(),
    decreases s.len() - from,
{
    if s[from] != NEWLINE {
        if from + 1 < s.len() {
            lemma_line_end_bounds(s, from + 1);
        } else {
            assert(line_end(s, from + 1) == s.len());
        }
    }
}

/// The line that starts at `from` holds no newline before its last byte,
/// and ends in one unless it runs to the end of the buffer.
pub proof fn lemma_line_end_shape(s: Seq<u8>, from: int)
    requires
        0 <= from < s.len(),
    ensures
        forall|i: int| from <= i < line_end(s, from) - 1 ==> s[i] != NEWLINE,
        line_end(s, from) < s.len() ==> s[line_end(s, from) - 1] == NEWLINE,
        s[line_end(s, from) - 1] == NEWLINE || line_end(s, from) == s.len(),
    decreases s.len() - from,
{
    lemma_line_end_bounds(s, from);
    if s[from] != NEWLINE {
        if from + 1 < s.len() {
            lemma_line_end_shape(s, from + 1);
        } else {
            assert(line_end(s, from + 1) == s.len());
        }
    }
}

/// Dropping the first `p` bytes moves every later line end by `p`.
pub proof fn lemma_line_end_skip(s: Seq<u8>, p: int, from: int)
    requires
        0 <= p <= from <= s.len(),
    ensures
        line_end(s.skip(p), from - p) + p == line_end(s, from),
    decreases s.len() - from,
{
    if from < s.len() && s[from] != NEWLINE {
        lemma_line_end_skip(s, p, from + 1);
    }
}

/// A line that ends inside `a` ends at the same place in `a + b`.
pub proof fn lemma_line_end_concat(a: Seq<u8>, b: Seq<u8>, from: int)
    requires
        0 <= from < a.len(),
        a.last() == NEWLINE,
    ensures
        line_end(a + b, from) == line_end(a, from),
    decreases a.len() - from,
{
    if a[from] != NEWLINE {
        lemma_line_end_concat(a, b, from + 1);
    }
}

/// The lines that start at `pos` are the line found there and the lines
/// after it.
pub proof fn lemma_split_step(s: Seq<u8>, pos: int)
    requires
        0 <= pos < s.len(),
    ensures
        split_lines(s.skip(pos)) == seq![s.subrange(pos, line_end(s, pos))] + split_lines(
            s.skip(line_end(s, pos)),
        ),
{
    let rest = s.skip(pos);
    let end = line_end(s, pos);
    lemma_line_end_bounds(s, pos);
    lemma_line_end_skip(s, pos, pos);
    assert(rest.subrange(0, end - pos) =~= s.subrange(pos, end));
    assert(rest.subrange(end - pos, rest.len() as int) =~= s.skip(end));
}

/// Joining distributes over concatenation.
pub proof fn lemma_join_concat(xs: Seq<Seq<u8>>, ys: Seq<Seq<u8>>)
    ensures
        join(xs + ys) == join(xs) + join(ys),
    decreases ys.len(),
{
    if ys.len() == 0 {
        assert(xs + ys =~= xs);
    } else {
        lemma_join_concat(xs, ys.drop_last());
        assert((xs + ys).drop_last() =~= xs + ys.drop_last());
        assert(join(xs + ys) =~= join(xs) + join(ys));
    }
}

/// Joining one line gives that line.
pub proof fn lemma_join_one(l: Seq<u8>)
    ensures
        join(seq![l]) == l,
{
    assert(seq![l].drop_last() =~= Seq::<Seq<u8>>::empty());
    assert(join(seq![l].drop_last()) =~= Seq::<u8>::empty());
    assert(join(seq![l]) =~= l);
}

/// Cutting a buffer into lines loses nothing.
pub proof fn lemma_join_split(s: Seq<u8>)
    ensures
        join(split_lines(s)) == s,
    decreases s.len(),
{
    if s.len() != 0 {
        let end = line_end(s, 0);
        lemma_line_end_bounds(s, 0);
        let rest = s.subrange(end, s.len() as int);
        lemma_join_split(rest);
        lemma_join_concat(seq![s.subrange(0, end)], split_lines(rest));
        lemma_join_one(s.subrange(0, end));
        assert(s.subrange(0, end) + rest =~= s);
    }
}

/// After text that ends in a newline, the lines of what follows are found
/// as if it stood alone.
pub proof fn lemma_split_concat(a: Seq<u8>, b: Seq<u8>)
    requires
        is_terminated(a),
    ensures
        split_lines(a + b) == split_lines(a) + split_lines(b),
    decreases a.len(),
{
    if a.len() == 0 {
        assert(a + b =~= b);
        assert(split_lines(a) + split_lines(b) =~= split_lines(b));
    } else {
        let end = line_end(a, 0);
        lemma_line_end_bounds(a, 0);
        lemma_line_end_concat(a, b, 0);
        let rest = a.subrange(end, a.len() as int);
        lemma_split_concat(rest, b);
        assert((a + b).subrange(0, end) =~= a.subrange(0, end));
        assert((a + b).subrange(end, (a + b).len() as int) =~= rest + b);
        assert(split_lines(a + b) =~= split_lines(a) + split_lines(b));
    }
}

/// One whole line is its own only line.
pub proof fn lemma_split_full_line(l: Seq<u8>)
    requires
        is_full_line(l),
    ensures
        split_lines(l) == seq![l],
{
    lemma_line_end_bounds(l, 0);
    lemma_line_end_shape(l, 0);
    let end = line_end(l, 0);
    assert(end == l.len());
    assert(l.subrange(0, end) =~= l);
    assert(l.subrange(end, l.len() as int) =~= Seq::<u8>::empty());
    assert(split_lines(l.subrange(end, l.len() as int)) =~= Seq::<Seq<u8>>::empty());
    assert(split_lines(l) =~= seq![l]);
}

/// Whole lines written one after the other are read back as they were.
pub proof fn lemma_split_join(lines: Seq<Seq<u8>>)
    requires
        all_full_lines(lines),
    ensures
        split_lines(join(lines)) == lines,
        is_terminated(join(lines)),
    decreases lines.len(),
{
    if lines.len() != 0 {
        let front = lines.drop_last();
        let l = lines.last();
        assert(all_full_lines(front)) by {
            assert forall|i: int| 0 <= i < front.len() implies is_full_line(
                #[trigger] front[i],
            ) by {
                assert(front[i] == lines[i]);
            }
        }
        lemma_split_join(front);
        lemma_split_concat(join(front), l);
        lemma_split_full_line(l);
        assert(front + seq![l] =~= lines);
    }
}

/// The lines of a buffer that ends in a newline are all whole lines.
pub proof fn lemma_split_terminated(s: Seq<u8>)
    requires
        is_terminated(s),
    ensures
        all_full_lines(split_lines(s)),
    decreases s.len(),
{
    if s.len() != 0 {
        let end = line_end(s, 0);
        lemma_line_end_bounds(s, 0);
        lemma_line_end_shape(s, 0);
        let first = s.subrange(0, end);
        let rest = s.subrange(end, s.len() as int);
        lemma_split_terminated(rest);
        assert(is_full_line(first));
        assert forall|i: int| 0 <= i < split_lines(s).len() implies is_full_line(
            #[trigger] split_lines(s)[i],
        ) by {
            if i > 0 {
                assert(split_lines(s)[i] == split_lines(rest)[i - 1]);
            }
        }
    }
}

/// Finds where the line that starts at `from` ends.
pub fn find_line_end(input: &[u8], from: usize) -> (end: usize)
    requires
        from < input@.len(),
    ensures
        end == line_end(input@, from as int),
        from < end <= input@.len(),
{
    let mut i: usize = from;
    while i < input.len() && input[i] != NEWLINE
        invariant
            from <= i <= input@.len(),
            line_end(input@, from as int) == line_end(input@, i as int),
        decreases input@.len() - i,
    {
        i = i + 1;
    }
    if i < input.len() {
        i + 1
    } else {
        i
    }
}

/// A byte that a buffer does not hold is in none of its lines.
pub proof fn lemma_lines_lack_byte(s: Seq<u8>, byte: u8)
    requires
        forall|k: int| 0 <= k < s.len() ==> s[k] != byte,
    ensures
        forall|i: int, k: int|
            0 <= i < split_lines(s).len() && 0 <= k < split_lines(s)[i].len() ==> #[trigger] split_lines(
                s,
            )[i][k] != byte,
    decreases s.len(),
{
    if s.len() != 0 {
        let end = line_end(s, 0);
        lemma_line_end_bounds(s, 0);
        let rest = s.subrange(end, s.len() as int);
        lemma_lines_lack_byte(rest, byte);
        assert forall|i: int, k: int|
            0 <= i < split_lines(s).len() && 0 <= k < split_lines(s)[i].len() implies #[trigger] split_lines(
            s,
        )[i][k] != byte by {
            if i > 0 {
                assert(split_lines(s)[i] == split_lines(rest)[i - 1]);
            }
        }
    }
}

} // verus!
