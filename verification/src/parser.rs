//! Autobuild template files, and the removal of their authoring comments.
//!
//! A template is read as newline-terminated lines. Leading blanks of a line
//! are dropped. A line that is then empty, or that begins with the comment
//! marker `# bakka:`, is left out; every other line is kept with its newline.
//! Bytes after the last newline belong to no line and are left out.

use vstd::prelude::*;
use crate::error::Failure;

verus! {

/// The byte that ends a line.
pub const NEWLINE: u8 = 10;

/// The length of the comment marker.
pub const MARKER_LEN: usize = 8;

/// Space, tab, carriage return and line feed.
pub open spec fn is_blank(b: u8) -> bool {
    b == 32 || b == 9 || b == 13 || b == 10
}

/// The bytes of `# bakka:`.
pub open spec fn marker() -> Seq<u8> {
    seq![35u8, 32u8, 98u8, 97u8, 107u8, 107u8, 97u8, 58u8]
}

/// The number of blanks that `line` begins with.
pub open spec fn indent(line: Seq<u8>) -> nat
    decreases line.len(),
{
    if line.len() > 0 && is_blank(line[0]) {
        1 + indent(line.drop_first())
    } else {
        0
    }
}

/// Whether `body` begins with the comment marker.
pub open spec fn is_comment(body: Seq<u8>) -> bool {
    body.len() >= MARKER_LEN && body.subrange(0, MARKER_LEN as int) == marker()
}

/// What one line, given without its newline, adds to the output.
pub open spec fn kept(line: Seq<u8>) -> Seq<u8> {
    let body = line.skip(indent(line) as int);
    if body.len() == 0 || is_comment(body) {
        Seq::empty()
    } else {
        body.push(NEWLINE)
    }
}

/// The bytes of `s` after its last newline.
pub open spec fn open_line(s: Seq<u8>) -> Seq<u8>
    decreases s.len(),
{
    if s.len() == 0 || s.last() == NEWLINE {
        Seq::empty()
    } else {
        open_line(s.drop_last()).push(s.last())
    }
}

/// The template `s` without its blank lines, indentation and comments.
pub open spec fn stripped(s: Seq<u8>) -> Seq<u8>
    decreases s.len(),
{
    if s.len() == 0 {
        Seq::empty()
    } else if s.last() == NEWLINE {
        stripped(s.drop_last()) + kept(open_line(s.drop_last()))
    } else {
        stripped(s.drop_last())
    }
}

/// `s`, with a newline added where a last line lacks it.
pub open spec fn closed(s: Seq<u8>) -> Seq<u8> {
    if s.len() > 0 && s.last() != NEWLINE {
        s.push(NEWLINE)
    } else {
        s
    }
}

/// `indent(line)` is the length of the longest prefix of blanks.
pub proof fn lemma_indent(line: Seq<u8>, k: int)
    requires
        0 <= k <= line.len(),
        forall|i: int| 0 <= i < k ==> is_blank(#[trigger] line[i]),
        k == line.len() || !is_blank(line[k]),
    ensures
        indent(line) == k,
    decreases line.len(),
{
    if k > 0 {
        let rest = line.drop_first();
        assert forall|i: int| 0 <= i < k - 1 implies is_blank(#[trigger] rest[i]) by {
            assert(rest[i] == line[i + 1]);
        }
        lemma_indent(rest, k - 1);
    }
}

/// A line without newline in it is its own open line.
proof fn lemma_open_line_extend(s: Seq<u8>, start: int, end: int)
    requires
        0 <= start <= end < s.len(),
        open_line(s.take(end)) == s.subrange(start, end),
        s[end] != NEWLINE,
    ensures
        open_line(s.take(end + 1)) == s.subrange(start, end + 1),
{
    let t = s.take(end + 1);
    assert(t.drop_last() == s.take(end));
    assert(t.last() == s[end]);
    assert(s.subrange(start, end).push(s[end]) == s.subrange(start, end + 1));
}

/// Whether `b` is a space, a tab, a carriage return or a line feed.
pub fn is_space(b: u8) -> (r: bool)
    ensures
        r == is_blank(b),
{
    b == 32 || b == 9 || b == 13 || b == 10
}

/// Whether the bytes of `input` from `from` up to `end` begin with the
/// comment marker.
fn starts_comment(input: &[u8], from: usize, end: usize) -> (r: bool)
    requires
        from <= end <= input@.len(),
    ensures
        r == is_comment(input@.subrange(from as int, end as int)),
{
    let ghost body = input@.subrange(from as int, end as int);
    if end - from < MARKER_LEN {
        return false;
    }
    let r = input[from] == 35 && input[from + 1] == 32 && input[from + 2] == 98 && input[from
        + 3] == 97 && input[from + 4] == 107 && input[from + 5] == 107 && input[from + 6] == 97
        && input[from + 7] == 58;
    proof {
        let head = body.subrange(0, MARKER_LEN as int);
        assert(forall|i: int| 0 <= i < 8 ==> head[i] == input@[from + i]);
        if r {
            assert(head =~= marker());
        } else {
            assert(head[0] == input@[from + 0]);
            assert(head[1] == input@[from + 1]);
            assert(head[2] == input@[from + 2]);
            assert(head[3] == input@[from + 3]);
            assert(head[4] == input@[from + 4]);
            assert(head[5] == input@[from + 5]);
            assert(head[6] == input@[from + 6]);
            assert(head[7] == input@[from + 7]);
        }
    }
    r
}

/// Appends to `out` what the line of `input` from `start` up to `end` adds
/// to the output.
fn keep_line(input: &[u8], start: usize, end: usize, out: &mut Vec<u8>)
    requires
        start <= end <= input@.len(),
    ensures
        final(out)@ == old(out)@ + kept(input@.subrange(start as int, end as int)),
{
    let ghost line = input@.subrange(start as int, end as int);
    let mut from = start;
    while from < end && is_space(input[from])
        invariant
            start <= from <= end <= input@.len(),
            line == input@.subrange(start as int, end as int),
            forall|i: int| 0 <= i < from - start ==> is_blank(#[trigger] line[i]),
        decreases end - from,
    {
        from += 1;
    }
    proof {
        lemma_indent(line, from - start);
        assert(line.skip(from - start) == input@.subrange(from as int, end as int));
    }
    if from == end || starts_comment(input, from, end) {
        assert(out@ + kept(line) == out@);
        return ;
    }
    let ghost body = input@.subrange(from as int, end as int);
    let mut i = from;
    while i < end
        invariant
            from <= i <= end <= input@.len(),
            body == input@.subrange(from as int, end as int),
            out@ == old(out)@ + body.take(i - from),
        decreases end - i,
    {
        out.push(input[i]);
        i += 1;
        assert(body.take(i - from) == body.take(i - from - 1).push(input@[i - 1]));
    }
    out.push(NEWLINE);
    assert(body.take(end - from) == body);
    assert(out@ == old(out)@ + body.push(NEWLINE));
}

/// Removes blank lines, indentation and `# bakka:` comment lines from a
/// template. Never fails.
pub fn handle_autobuild_file(input: &[u8]) -> (r: Result<Vec<u8>, Failure>)
    ensures
        r matches Ok(out) && out@ == stripped(input@),
{
    let mut out: Vec<u8> = Vec::new();
    let mut start: usize = 0;
    let mut i: usize = 0;
    assert(input@.take(0) == Seq::<u8>::empty());
    while i < input.len()
        invariant
            start <= i <= input@.len(),
            out@ == stripped(input@.take(i as int)),
            open_line(input@.take(i as int)) == input@.subrange(start as int, i as int),
        decreases input@.len() - i,
    {
        let ghost before = input@.take(i as int);
        let ghost after = input@.take(i + 1);
        assert(after.drop_last() == before);
        assert(after.last() == input@[i as int]);
        if input[i] == NEWLINE {
            keep_line(input, start, i, &mut out);
            start = i + 1;
            assert(input@.subrange(start as int, start as int) == Seq::<u8>::empty());
        } else {
            proof {
                lemma_open_line_extend(input@, start as int, i as int);
            }
        }
        i += 1;
    }
    assert(input@.take(input@.len() as int) == input@);
    Ok(out)
}

/// Closes the last line of `buf` where it lacks its newline, then removes
/// blank lines, indentation and comment lines. Never fails.
pub fn bye_bakka_comment(buf: Vec<u8>) -> (r: Result<Vec<u8>, Failure>)
    ensures
        r matches Ok(out) && out@ == stripped(closed(buf@)),
{
    let mut buf = buf;
    let n = buf.len();
    if n > 0 && buf[n - 1] != NEWLINE {
        buf.push(NEWLINE);
    }
    handle_autobuild_file(buf.as_slice())
}

} // verus!
