use vstd::prelude::*;
use vstd::string::StringSliceAdditionalSpecFns;

verus! {

/// The byte `'\n'`, which ends a line.
pub const NEWLINE: u8 = 10u8;

/// The byte `'\r'`, dropped from the end of a line that `"\r\n"` ends.
pub const CARRIAGE_RETURN: u8 = 13u8;

/// Position of the first newline at or after `start`, or `s.len()` when there is none.
pub open spec fn line_end(s: Seq<u8>, start: nat) -> int
    decreases s.len() - start,
{
    if start >= s.len() {
        s.len() as int
    } else if s[start as int] == NEWLINE {
        start as int
    } else {
        line_end(s, start + 1)
    }
}

/// A line that a newline ended loses one carriage return before that newline.
pub open spec fn trim_carriage_return(line: Seq<u8>) -> Seq<u8> {
    if line.len() > 0 && line.last() == CARRIAGE_RETURN {
        line.drop_last()
    } else {
        line
    }
}

/// The lines of `s` from byte `start` on: split at `'\n'`, with `"\r\n"` also
/// accepted as a line ending; the final line ending is optional, and a
/// carriage return that no newline follows stays in the last line.
pub open spec fn lines_from(s: Seq<u8>, start: nat) -> Seq<Seq<u8>>
    decreases s.len() - start,
{
    if start >= s.len() {
        Seq::empty()
    } else {
        let end = line_end(s, start);
        if end >= s.len() {
            seq![s.subrange(start as int, s.len() as int)]
        } else {
            proof {
                lemma_line_end_bounds(s, start);
            }
            seq![trim_carriage_return(s.subrange(start as int, end))] + lines_from(
                s,
                (end + 1) as nat,
            )
        }
    }
}

/// The lines of a text, as `str::lines` yields them.
pub open spec fn lines_of(s: Seq<u8>) -> Seq<Seq<u8>> {
    lines_from(s, 0)
}

/// `needle` occurs in `hay` starting at position `i`.
pub open spec fn occurs_at(hay: Seq<u8>, needle: Seq<u8>, i: int) -> bool {
    &&& 0 <= i
    &&& i + needle.len() <= hay.len()
    &&& hay.subrange(i, i + needle.len()) == needle
}

/// `needle` occurs somewhere in `hay` (the empty needle occurs in every text).
pub open spec fn contains(hay: Seq<u8>, needle: Seq<u8>) -> bool {
    exists|i: int| #[trigger] occurs_at(hay, needle, i)
}

/// The lines among `lines` that contain `pattern`, in their order, each followed by a newline.
pub open spec fn matching_output(lines: Seq<Seq<u8>>, pattern: Seq<u8>) -> Seq<u8>
    decreases lines.len(),
{
    if lines.len() == 0 {
        Seq::empty()
    } else {
        let rest = matching_output(lines.drop_first(), pattern);
        if contains(lines[0], pattern) {
            lines[0].push(NEWLINE) + rest
        } else {
            rest
        }
    }
}

/// The lines among `lines` that contain `pattern`, in their order.
pub open spec fn selected_lines(lines: Seq<Seq<u8>>, pattern: Seq<u8>) -> Seq<Seq<u8>>
    decreases lines.len(),
{
    if lines.len() == 0 {
        Seq::empty()
    } else {
        let rest = selected_lines(lines.drop_first(), pattern);
        if contains(lines[0], pattern) {
            seq![lines[0]] + rest
        } else {
            rest
        }
    }
}

/// The lines `lines`, each followed by a newline, one after the other.
pub open spec fn join_lines(lines: Seq<Seq<u8>>) -> Seq<u8>
    decreases lines.len(),
{
    if lines.len() == 0 {
        Seq::empty()
    } else {
        lines[0].push(NEWLINE) + join_lines(lines.drop_first())
    }
}

/// `a` is `b` with some of its items left out: its items stand in `b`, in
/// the same order, at the increasing positions `positions`.
pub open spec fn subsequence_at<A>(a: Seq<A>, b: Seq<A>, positions: Seq<int>) -> bool {
    &&& positions.len() == a.len()
    &&& forall|i: int| 0 <= i < a.len() ==> 0 <= #[trigger] positions[i] < b.len() && a[i] == b[positions[i]]
    &&& forall|i: int, j: int| 0 <= i < j < a.len() ==> #[trigger] positions[i] < #[trigger] positions[j]
}

/// `a` is a subsequence of `b`.
pub open spec fn is_subsequence<A>(a: Seq<A>, b: Seq<A>) -> bool {
    exists|positions: Seq<int>| #[trigger] subsequence_at(a, b, positions)
}

/// What a search of `content` for `pattern` writes: every line of `content`
/// that contains `pattern`, in order, each followed by `'\n'`.
pub open spec fn search_output(content: Seq<u8>, pattern: Seq<u8>) -> Seq<u8> {
    matching_output(lines_of(content), pattern)
}

/// The end of a line lies between its start and the end of the text, no
/// newline comes before it, and a newline stands at it unless the text ends there.
pub proof fn lemma_line_end_bounds(s: Seq<u8>, start: nat)
    ensures
        start <= s.len() ==> start <= line_end(s, start) <= s.len(),
        forall|j: int| start <= j < line_end(s, start) ==> s[j] != NEWLINE,
        line_end(s, start) < s.len() ==> s[line_end(s, start)] == NEWLINE,
    decreases s.len() - start,
{
    if start < s.len() && s[start as int] != NEWLINE {
        lemma_line_end_bounds(s, start + 1);
    }
}

/// Position of the first newline in `text` at or after `start`, or `text.len()`.
fn find_line_end(text: &[u8], start: usize) -> (end: usize)
    requires
        start <= text@.len(),
    ensures
        end == line_end(text@, start as nat),
        start <= end <= text@.len(),
{
    let n = text.len();
    let mut i = start;
    while i < n
        invariant
            n == text@.len(),
            start <= i <= n,
            line_end(text@, i as nat) == line_end(text@, start as nat),
        decreases n - i,
    {
        if text[i] == NEWLINE {
            return i;
        }
        i = i + 1;
    }
    i
}

/// Whether `needle` occurs in the bytes `text[lo..hi]`.
fn contains_in(text: &[u8], lo: usize, hi: usize, needle: &[u8]) -> (found: bool)
    requires
        lo <= hi <= text@.len(),
    ensures
        found == contains(text@.subrange(lo as int, hi as int), needle@),
{
    let ghost hay = text@.subrange(lo as int, hi as int);
    let m = needle.len();
    if m > hi - lo {
        assert forall|i: int| !#[trigger] occurs_at(hay, needle@, i) by {}
        return false;
    }
    if m == 0 {
        assert(hay.subrange(0, 0) =~= needle@);
        assert(occurs_at(hay, needle@, 0));
        return true;
    }
    let last = hi - lo - m;
    let mut i: usize = 0;
    while i <= last
        invariant
            lo <= hi <= text@.len(),
            hay == text@.subrange(lo as int, hi as int),
            m == needle@.len(),
            last + m == hi - lo,
            m > 0,
            forall|k: int| 0 <= k < i ==> !#[trigger] occurs_at(hay, needle@, k),
        decreases last + 1 - i,
    {
        let mut j: usize = 0;
        let mut same = true;
        while j < m
            invariant
                lo <= hi <= text@.len(),
                hay == text@.subrange(lo as int, hi as int),
                m == needle@.len(),
                i <= last,
                last + m == hi - lo,
                j <= m,
                same ==> forall|k: int| 0 <= k < j ==> hay[i + k] == needle@[k],
                !same ==> !occurs_at(hay, needle@, i as int),
            decreases m - j,
        {
            if text[lo + i + j] != needle[j] {
                same = false;
                assert(hay.subrange(i as int, i + m)[j as int] != needle@[j as int]);
            }
            j = j + 1;
        }
        if same {
            assert(hay.subrange(i as int, i + m) =~= needle@);
            assert(occurs_at(hay, needle@, i as int));
            return true;
        }
        i = i + 1;
    }
    assert forall|k: int| !#[trigger] occurs_at(hay, needle@, k) by {}
    false
}

/// Appends the bytes `text[lo..hi]` to `out`.
fn append_range(out: &mut Vec<u8>, text: &[u8], lo: usize, hi: usize)
    requires
        lo <= hi <= text@.len(),
    ensures
        final(out)@ == old(out)@ + text@.subrange(lo as int, hi as int),
{
    let ghost start = out@;
    let mut k = lo;
    while k < hi
        invariant
            lo <= k <= hi <= text@.len(),
            out@ == start + text@.subrange(lo as int, k as int),
        decreases hi - k,
    {
        out.push(text[k]);
        assert(text@.subrange(lo as int, k + 1) =~= text@.subrange(lo as int, k as int).push(
            text@[k as int],
        ));
        k = k + 1;
    }
}

/// Searches `content` for `pattern` and writes each line that contains it,
/// followed by `'\n'`, to `writer`, in the order of the lines.
pub fn find_matches(content: &str, pattern: &str, writer: &mut Vec<u8>)
    ensures
        final(writer)@ == old(writer)@ + search_output(content.spec_bytes(), pattern.spec_bytes()),
        final(writer)@ == old(writer)@ + join_lines(
            selected_lines(lines_of(content.spec_bytes()), pattern.spec_bytes()),
        ),
{
    let text = content.as_bytes();
    let needle = pattern.as_bytes();
    let n = text.len();
    let ghost start = writer@;
    let mut pos: usize = 0;
    while pos < n
        invariant
            n == text@.len(),
            pos <= n,
            start + matching_output(lines_from(text@, 0), needle@) == writer@ + matching_output(
                lines_from(text@, pos as nat),
                needle@,
            ),
        decreases n - pos,
    {
        let end = find_line_end(text, pos);
        let stop = if end < n && end > pos && text[end - 1] == CARRIAGE_RETURN {
            end - 1
        } else {
            end
        };
        let ghost line = text@.subrange(pos as int, stop as int);
        let ghost rest = if end < n {
            lines_from(text@, (end + 1) as nat)
        } else {
            Seq::empty()
        };
        proof {
            if end < n {
                assert(trim_carriage_return(text@.subrange(pos as int, end as int)) =~= line);
            } else {
                assert(text@.subrange(pos as int, n as int) =~= line);
            }
            assert(lines_from(text@, pos as nat) == seq![line] + rest);
            assert((seq![line] + rest).drop_first() =~= rest);
        }
        let ghost before = writer@;
        if contains_in(text, pos, stop, needle) {
            append_range(writer, text, pos, stop);
            writer.push(NEWLINE);
            assert(writer@ =~= before + line.push(NEWLINE));
        }
        pos = if end < n {
            end + 1
        } else {
            n
        };
        assert(start + matching_output(lines_from(text@, 0), needle@) =~= writer@
            + matching_output(lines_from(text@, pos as nat), needle@));
    }
    assert(lines_of(text@) == lines_from(text@, 0));
    proof {
        crate::laws::lemma_search_output_is_selected_lines(text@, needle@);
    }
}

} // verus!
