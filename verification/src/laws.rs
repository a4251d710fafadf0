use vstd::prelude::*;

use crate::search::{
    contains, line_end, lemma_line_end_bounds, lines_from, lines_of, matching_output, occurs_at,
    search_output, trim_carriage_return, selected_lines, join_lines, subsequence_at,
    is_subsequence, CARRIAGE_RETURN, NEWLINE,
};

verus! {

/// Where a newline ends the line that starts at `start` within `s`, appending
/// more bytes after `s` does not move that end; where no newline of `s` does,
/// the end is found in the appended bytes.
proof fn lemma_line_end_append(s: Seq<u8>, t: Seq<u8>, start: nat)
    requires
        start <= s.len(),
    ensures
        line_end(s, start) < s.len() ==> line_end(s + t, start) == line_end(s, start),
        line_end(s, start) >= s.len() ==> line_end(s + t, start) == line_end(s + t, s.len()),
    decreases s.len() - start,
{
    if start < s.len() {
        assert((s + t)[start as int] == s[start as int]);
        if s[start as int] != NEWLINE {
            lemma_line_end_append(s, t, start + 1);
        }
    }
}

/// Splitting `lines_from` at its first line.
proof fn lemma_lines_from_unfold(s: Seq<u8>, start: nat)
    requires
        start < s.len(),
    ensures
        line_end(s, start) < s.len() ==> lines_from(s, start) == seq![
            trim_carriage_return(s.subrange(start as int, line_end(s, start)))
        ] + lines_from(s, (line_end(s, start) + 1) as nat),
        line_end(s, start) >= s.len() ==> lines_from(s, start) == seq![
            s.subrange(start as int, s.len() as int)
        ],
{
}

/// No line holds a newline byte.
pub proof fn lemma_lines_have_no_newline(s: Seq<u8>, start: nat)
    ensures
        forall|i: int, j: int|
            0 <= i < lines_from(s, start).len() && 0 <= j < lines_from(s, start)[i].len()
                ==> #[trigger] lines_from(s, start)[i][j] != NEWLINE,
    decreases s.len() - start,
{
    if start < s.len() {
        let e = line_end(s, start);
        lemma_line_end_bounds(s, start);
        lemma_lines_from_unfold(s, start);
        if e < s.len() {
            lemma_lines_have_no_newline(s, (e + 1) as nat);
            let first = trim_carriage_return(s.subrange(start as int, e));
            assert forall|j: int| 0 <= j < first.len() implies first[j] != NEWLINE by {
                assert(first[j] == s[start + j]);
            }
            let ls = lines_from(s, start);
            let rest = lines_from(s, (e + 1) as nat);
            assert forall|i: int, j: int| 0 <= i < ls.len() && 0 <= j < ls[i].len()
                implies #[trigger] ls[i][j] != NEWLINE by {
                if i > 0 {
                    assert(ls[i] == rest[i - 1]);
                }
            }
        } else {
            let first = s.subrange(start as int, s.len() as int);
            assert forall|j: int| 0 <= j < first.len() implies first[j] != NEWLINE by {
                assert(first[j] == s[start + j]);
            }
        }
    }
}

/// The final line ending is optional: a non-empty text that does not end a
/// line has the same lines once `"\r\n"`, or `"\n"` where the text does not
/// end in `'\r'`, is appended to it.
pub proof fn lemma_final_line_ending_optional(s: Seq<u8>, ending: Seq<u8>)
    requires
        s.len() > 0,
        s.last() != NEWLINE,
        ending == seq![CARRIAGE_RETURN, NEWLINE] || (ending == seq![NEWLINE] && s.last()
            != CARRIAGE_RETURN),
    ensures
        lines_of(s + ending) == lines_of(s),
{
    lemma_lines_from_append_ending(s, ending, 0);
}

proof fn lemma_lines_from_append_ending(s: Seq<u8>, ending: Seq<u8>, start: nat)
    requires
        start < s.len(),
        s.last() != NEWLINE,
        ending == seq![CARRIAGE_RETURN, NEWLINE] || (ending == seq![NEWLINE] && s.last()
            != CARRIAGE_RETURN),
    ensures
        lines_from(s + ending, start) == lines_from(s, start),
    decreases s.len() - start,
{
    let u = s + ending;
    let e = line_end(s, start);
    lemma_line_end_bounds(s, start);
    lemma_line_end_append(s, ending, start);
    lemma_lines_from_unfold(s, start);
    lemma_lines_from_unfold(u, start);
    if e < s.len() {
        assert(e + 1 < s.len());
        assert(u.subrange(start as int, e) =~= s.subrange(start as int, e));
        lemma_lines_from_append_ending(s, ending, (e + 1) as nat);
    } else {
        let line = s.subrange(start as int, s.len() as int);
        if ending == seq![NEWLINE] {
            assert(u[s.len() as int] == NEWLINE);
            assert(line_end(u, s.len()) == s.len());
            assert(u.subrange(start as int, s.len() as int) =~= line);
            assert(line.last() == s.last());
            assert(lines_from(u, (s.len() + 1) as nat) =~= Seq::<Seq<u8>>::empty());
        } else {
            assert(u[s.len() as int] == CARRIAGE_RETURN);
            assert(u[s.len() + 1int] == NEWLINE);
            assert(line_end(u, (s.len() + 1) as nat) == s.len() + 1);
            assert(line_end(u, s.len()) == s.len() + 1);
            assert(u.subrange(start as int, s.len() + 1int) =~= line.push(CARRIAGE_RETURN));
            assert(line.push(CARRIAGE_RETURN).drop_last() =~= line);
            assert(lines_from(u, (s.len() + 2) as nat) =~= Seq::<Seq<u8>>::empty());
        }
    }
}

/// The empty pattern occurs in every line.
pub proof fn lemma_empty_pattern_occurs_everywhere(line: Seq<u8>)
    ensures
        contains(line, Seq::empty()),
{
    assert(line.subrange(0, 0) =~= Seq::<u8>::empty());
    assert(occurs_at(line, Seq::empty(), 0));
}

/// The end of a line that starts inside the second of two joined texts is
/// found as in that text alone, shifted by the length of the first.
proof fn lemma_line_end_shift(a: Seq<u8>, b: Seq<u8>, k: nat)
    requires
        k <= b.len(),
    ensures
        line_end(a + b, a.len() + k) == a.len() + line_end(b, k),
    decreases b.len() - k,
{
    if k < b.len() {
        assert((a + b)[a.len() + k as int] == b[k as int]);
        if b[k as int] != NEWLINE {
            lemma_line_end_shift(a, b, k + 1);
            assert(a.len() + k + 1 == a.len() + (k + 1));
        }
    }
}

/// The lines that start inside the second of two joined texts are that text's own lines.
proof fn lemma_lines_from_shift(a: Seq<u8>, b: Seq<u8>, k: nat)
    requires
        k <= b.len(),
    ensures
        lines_from(a + b, a.len() + k) == lines_from(b, k),
    decreases b.len() - k,
{
    let u = a + b;
    if k < b.len() {
        let e = line_end(b, k);
        lemma_line_end_bounds(b, k);
        lemma_line_end_shift(a, b, k);
        lemma_lines_from_unfold(b, k);
        lemma_lines_from_unfold(u, a.len() + k);
        assert(u.subrange(a.len() + k as int, a.len() + e) =~= b.subrange(k as int, e));
        if e < b.len() {
            lemma_lines_from_shift(a, b, (e + 1) as nat);
            assert(a.len() + e + 1 == a.len() + ((e + 1) as nat));
        } else {
            assert(u.subrange(a.len() + k as int, u.len() as int) =~= b.subrange(k as int, b.len() as int));
        }
    }
}

proof fn lemma_lines_from_concat(a: Seq<u8>, b: Seq<u8>, start: nat)
    requires
        a.len() == 0 || a.last() == NEWLINE,
        start <= a.len(),
    ensures
        lines_from(a + b, start) == lines_from(a, start) + lines_of(b),
    decreases a.len() - start,
{
    let u = a + b;
    if start == a.len() {
        lemma_lines_from_shift(a, b, 0);
        assert(lines_from(a, start) + lines_of(b) =~= lines_of(b));
    } else {
        let e = line_end(a, start);
        lemma_line_end_bounds(a, start);
        if e >= a.len() {
            assert(a[a.len() - 1] != NEWLINE);
        }
        lemma_line_end_append(a, b, start);
        lemma_lines_from_unfold(a, start);
        lemma_lines_from_unfold(u, start);
        assert(u.subrange(start as int, e) =~= a.subrange(start as int, e));
        lemma_lines_from_concat(a, b, (e + 1) as nat);
        let first = trim_carriage_return(a.subrange(start as int, e));
        assert(seq![first] + (lines_from(a, (e + 1) as nat) + lines_of(b)) =~= (seq![first]
            + lines_from(a, (e + 1) as nat)) + lines_of(b));
    }
}

/// Joining a text that ends its last line to another joins their lines.
pub proof fn lemma_lines_of_concat(a: Seq<u8>, b: Seq<u8>)
    requires
        a.len() == 0 || a.last() == NEWLINE,
    ensures
        lines_of(a + b) == lines_of(a) + lines_of(b),
{
    lemma_lines_from_concat(a, b, 0);
}

/// The output for a list of lines is the output for its first part followed
/// by the output for the rest.
pub proof fn lemma_matching_output_concat(x: Seq<Seq<u8>>, y: Seq<Seq<u8>>, pattern: Seq<u8>)
    ensures
        matching_output(x + y, pattern) == matching_output(x, pattern) + matching_output(
            y,
            pattern,
        ),
    decreases x.len(),
{
    if x.len() == 0 {
        assert(x + y =~= y);
        assert(matching_output(x, pattern) + matching_output(y, pattern) =~= matching_output(
            y,
            pattern,
        ));
    } else {
        assert((x + y).drop_first() =~= x.drop_first() + y);
        assert((x + y)[0] == x[0]);
        lemma_matching_output_concat(x.drop_first(), y, pattern);
        let rest = matching_output(x.drop_first(), pattern);
        let tail = matching_output(y, pattern);
        if contains(x[0], pattern) {
            assert(x[0].push(NEWLINE) + (rest + tail) =~= (x[0].push(NEWLINE) + rest) + tail);
        }
    }
}

/// Searching a text in two pieces, where the first piece ends its last line,
/// writes what searching the whole text at once writes.
pub proof fn lemma_search_output_concat(a: Seq<u8>, b: Seq<u8>, pattern: Seq<u8>)
    requires
        a.len() == 0 || a.last() == NEWLINE,
    ensures
        search_output(a + b, pattern) == search_output(a, pattern) + search_output(b, pattern),
{
    lemma_lines_of_concat(a, b);
    lemma_matching_output_concat(lines_of(a), lines_of(b), pattern);
}

proof fn lemma_no_occurrence_from(s: Seq<u8>, pattern: Seq<u8>, start: nat)
    requires
        !contains(s, pattern),
    ensures
        matching_output(lines_from(s, start), pattern) == Seq::<u8>::empty(),
    decreases s.len() - start,
{
    if start < s.len() {
        let e = line_end(s, start);
        lemma_line_end_bounds(s, start);
        lemma_lines_from_unfold(s, start);
        let line = lines_from(s, start)[0];
        assert(line =~= s.subrange(start as int, start + line.len() as int));
        assert forall|i: int| !#[trigger] occurs_at(line, pattern, i) by {
            if occurs_at(line, pattern, i) {
                assert(line.subrange(i, i + pattern.len()) =~= s.subrange(
                    start + i,
                    start + i + pattern.len(),
                ));
                assert(occurs_at(s, pattern, start + i));
            }
        }
        let rest = if e < s.len() {
            lines_from(s, (e + 1) as nat)
        } else {
            Seq::empty()
        };
        assert(lines_from(s, start) =~= seq![line] + rest);
        assert(lines_from(s, start).drop_first() =~= rest);
        assert(!contains(line, pattern));
        if e < s.len() {
            lemma_no_occurrence_from(s, pattern, (e + 1) as nat);
        }
        assert(matching_output(lines_from(s, start), pattern) == matching_output(rest, pattern));
    }
}

/// A text in which the pattern occurs nowhere yields no output.
pub proof fn lemma_no_occurrence_no_output(content: Seq<u8>, pattern: Seq<u8>)
    requires
        !contains(content, pattern),
    ensures
        search_output(content, pattern) == Seq::<u8>::empty(),
{
    lemma_no_occurrence_from(content, pattern, 0);
}

/// The output for a list of lines is its selected lines, each followed by a newline.
pub proof fn lemma_matching_output_is_selected_lines(lines: Seq<Seq<u8>>, pattern: Seq<u8>)
    ensures
        matching_output(lines, pattern) == join_lines(selected_lines(lines, pattern)),
    decreases lines.len(),
{
    if lines.len() > 0 {
        lemma_matching_output_is_selected_lines(lines.drop_first(), pattern);
        let rest = selected_lines(lines.drop_first(), pattern);
        if contains(lines[0], pattern) {
            let sel = seq![lines[0]] + rest;
            assert(sel.drop_first() =~= rest);
            assert(sel[0] == lines[0]);
        }
    }
}

/// What a search writes is the lines of the text that contain the pattern,
/// each followed by a newline.
pub proof fn lemma_search_output_is_selected_lines(content: Seq<u8>, pattern: Seq<u8>)
    ensures
        search_output(content, pattern) == join_lines(selected_lines(lines_of(content), pattern)),
{
    lemma_matching_output_is_selected_lines(lines_of(content), pattern);
}

/// Where `inner` occurs in `outer` and `outer` occurs in `hay`, `inner` occurs in `hay`.
pub proof fn lemma_contains_transitive(hay: Seq<u8>, outer: Seq<u8>, inner: Seq<u8>)
    requires
        contains(outer, inner),
        contains(hay, outer),
    ensures
        contains(hay, inner),
{
    let i = choose|i: int| occurs_at(hay, outer, i);
    let j = choose|j: int| occurs_at(outer, inner, j);
    assert(hay.subrange(i + j, i + j + inner.len()) =~= outer.subrange(j, j + inner.len()));
    assert(occurs_at(hay, inner, i + j));
}

/// Selecting the lines that contain `outer` among those that contain `inner`,
/// where `inner` occurs in `outer`, selects the lines that contain `outer`.
pub proof fn lemma_selected_lines_narrow(lines: Seq<Seq<u8>>, outer: Seq<u8>, inner: Seq<u8>)
    requires
        contains(outer, inner),
    ensures
        selected_lines(selected_lines(lines, inner), outer) == selected_lines(lines, outer),
    decreases lines.len(),
{
    if lines.len() > 0 {
        lemma_selected_lines_narrow(lines.drop_first(), outer, inner);
        let rest = selected_lines(lines.drop_first(), inner);
        if contains(lines[0], outer) {
            lemma_contains_transitive(lines[0], outer, inner);
        }
        if contains(lines[0], inner) {
            let sel = seq![lines[0]] + rest;
            assert(sel.drop_first() =~= rest);
            assert(sel[0] == lines[0]);
        }
    }
}

/// The selected lines are a subsequence of the lines.
pub proof fn lemma_selected_lines_subsequence(lines: Seq<Seq<u8>>, pattern: Seq<u8>)
    ensures
        is_subsequence(selected_lines(lines, pattern), lines),
    decreases lines.len(),
{
    let sel = selected_lines(lines, pattern);
    if lines.len() == 0 {
        assert(subsequence_at(sel, lines, Seq::empty()));
    } else {
        let tail = lines.drop_first();
        let rest = selected_lines(tail, pattern);
        lemma_selected_lines_subsequence(tail, pattern);
        let pos = choose|pos: Seq<int>| subsequence_at(rest, tail, pos);
        let shifted = pos.map_values(|k: int| k + 1);
        if contains(lines[0], pattern) {
            let all = seq![0int] + shifted;
            assert forall|i: int| 0 <= i < sel.len() implies 0 <= #[trigger] all[i] < lines.len()
                && sel[i] == lines[all[i]] by {
                if i > 0 {
                    assert(all[i] == pos[i - 1] + 1);
                    assert(sel[i] == rest[i - 1]);
                }
            }
            assert forall|i: int, j: int| 0 <= i < j < sel.len() implies #[trigger] all[i]
                < #[trigger] all[j] by {
                assert(all[j] == pos[j - 1] + 1);
                if i > 0 {
                    assert(all[i] == pos[i - 1] + 1);
                    assert(pos[i - 1] < pos[j - 1]);
                } else {
                    assert(0 <= pos[j - 1]);
                }
            }
            assert(subsequence_at(sel, lines, all));
        } else {
            assert forall|i: int| 0 <= i < sel.len() implies 0 <= #[trigger] shifted[i]
                < lines.len() && sel[i] == lines[shifted[i]] by {
                assert(shifted[i] == pos[i] + 1);
            }
            assert forall|i: int, j: int| 0 <= i < j < sel.len() implies #[trigger] shifted[i]
                < #[trigger] shifted[j] by {
                assert(pos[i] < pos[j]);
            }
            assert(subsequence_at(sel, lines, shifted));
        }
    }
}

/// A pattern in which another occurs never selects more lines: the lines that
/// contain `outer` are a subsequence of the lines that contain `inner`.
pub proof fn lemma_longer_pattern_selects_subsequence(
    content: Seq<u8>,
    outer: Seq<u8>,
    inner: Seq<u8>,
)
    requires
        contains(outer, inner),
    ensures
        is_subsequence(
            selected_lines(lines_of(content), outer),
            selected_lines(lines_of(content), inner),
        ),
        selected_lines(selected_lines(lines_of(content), inner), outer) == selected_lines(
            lines_of(content),
            outer,
        ),
{
    lemma_selected_lines_narrow(lines_of(content), outer, inner);
    lemma_selected_lines_subsequence(selected_lines(lines_of(content), inner), outer);
}

/// A pattern occurs in a text exactly when the text is some bytes, then the
/// pattern's bytes unchanged, then some more bytes; nothing else about the
/// pattern or the text matters.
pub proof fn lemma_contains_iff_infix(hay: Seq<u8>, needle: Seq<u8>)
    ensures
        contains(hay, needle) <==> exists|before: Seq<u8>, after: Seq<u8>|
            hay == #[trigger] (before + needle + after),
{
    if contains(hay, needle) {
        let i = choose|i: int| occurs_at(hay, needle, i);
        let before = hay.subrange(0, i);
        let after = hay.subrange(i + needle.len(), hay.len() as int);
        assert(hay =~= before + needle + after);
    }
    if exists|before: Seq<u8>, after: Seq<u8>| hay == #[trigger] (before + needle + after) {
        let (before, after) = choose|before: Seq<u8>, after: Seq<u8>|
            hay == #[trigger] (before + needle + after);
        lemma_contains_infix(before, needle, after);
    }
}

/// A pattern is found wherever it stands in a text, whatever bytes it holds
/// and however long it is.
pub proof fn lemma_contains_infix(before: Seq<u8>, needle: Seq<u8>, after: Seq<u8>)
    ensures
        contains(before + needle + after, needle),
{
    let hay = before + needle + after;
    assert(hay.subrange(before.len() as int, before.len() + needle.len() as int) =~= needle);
    assert(occurs_at(hay, needle, before.len() as int));
}

/// Every text contains itself.
pub proof fn lemma_contains_self(s: Seq<u8>)
    ensures
        contains(s, s),
{
    lemma_contains_infix(Seq::empty(), s, Seq::empty());
    assert(Seq::<u8>::empty() + s + Seq::<u8>::empty() =~= s);
}

/// A text contains a pattern of its own length only when the two are equal.
pub proof fn lemma_contains_same_length(hay: Seq<u8>, needle: Seq<u8>)
    requires
        hay.len() == needle.len(),
    ensures
        contains(hay, needle) <==> hay == needle,
{
    if contains(hay, needle) {
        let i = choose|i: int| occurs_at(hay, needle, i);
        assert(i == 0);
        assert(hay.subrange(0, hay.len() as int) =~= hay);
    }
    if hay == needle {
        lemma_contains_self(hay);
    }
}

/// One line is selected exactly when it contains the pattern, whatever its length.
pub proof fn lemma_selected_lines_one(line: Seq<u8>, pattern: Seq<u8>)
    ensures
        selected_lines(seq![line], pattern) == (if contains(line, pattern) {
            seq![line]
        } else {
            Seq::<Seq<u8>>::empty()
        }),
{
    let one = seq![line];
    assert(one.drop_first() =~= Seq::<Seq<u8>>::empty());
    assert(one[0] == line);
    assert(selected_lines(Seq::<Seq<u8>>::empty(), pattern) == Seq::<Seq<u8>>::empty());
    assert(one + Seq::<Seq<u8>>::empty() =~= one);
}

/// Selecting from two lists of lines one after the other selects from each in turn.
pub proof fn lemma_selected_lines_concat(x: Seq<Seq<u8>>, y: Seq<Seq<u8>>, pattern: Seq<u8>)
    ensures
        selected_lines(x + y, pattern) == selected_lines(x, pattern) + selected_lines(y, pattern),
    decreases x.len(),
{
    if x.len() == 0 {
        assert(x + y =~= y);
        assert(selected_lines(x, pattern) + selected_lines(y, pattern) =~= selected_lines(
            y,
            pattern,
        ));
    } else {
        assert((x + y).drop_first() =~= x.drop_first() + y);
        assert((x + y)[0] == x[0]);
        lemma_selected_lines_concat(x.drop_first(), y, pattern);
        let rest = selected_lines(x.drop_first(), pattern);
        let tail = selected_lines(y, pattern);
        assert(seq![x[0]] + (rest + tail) =~= (seq![x[0]] + rest) + tail);
    }
}

/// One line is written as all of its bytes followed by a newline.
pub proof fn lemma_join_lines_one(line: Seq<u8>)
    ensures
        join_lines(seq![line]) == line + seq![NEWLINE],
{
    let one = seq![line];
    assert(one.drop_first() =~= Seq::<Seq<u8>>::empty());
    assert(one[0] == line);
    assert(join_lines(Seq::<Seq<u8>>::empty()) == Seq::<u8>::empty());
    assert(line.push(NEWLINE) + Seq::<u8>::empty() =~= line + seq![NEWLINE]);
}

/// Writing two lists of lines one after the other writes each in turn.
pub proof fn lemma_join_lines_concat(x: Seq<Seq<u8>>, y: Seq<Seq<u8>>)
    ensures
        join_lines(x + y) == join_lines(x) + join_lines(y),
    decreases x.len(),
{
    if x.len() == 0 {
        assert(x + y =~= y);
        assert(join_lines(x) + join_lines(y) =~= join_lines(y));
    } else {
        assert((x + y).drop_first() =~= x.drop_first() + y);
        assert((x + y)[0] == x[0]);
        lemma_join_lines_concat(x.drop_first(), y);
        assert(x[0].push(NEWLINE) + (join_lines(x.drop_first()) + join_lines(y)) =~= (
        x[0].push(NEWLINE) + join_lines(x.drop_first())) + join_lines(y));
    }
}

/// One line that contains the pattern is written whole, followed by a
/// newline; one that does not is not written at all.
pub proof fn lemma_matching_output_one(line: Seq<u8>, pattern: Seq<u8>)
    ensures
        matching_output(seq![line], pattern) == (if contains(line, pattern) {
            line + seq![NEWLINE]
        } else {
            Seq::<u8>::empty()
        }),
{
    let one = seq![line];
    assert(one.drop_first() =~= Seq::<Seq<u8>>::empty());
    assert(one[0] == line);
    assert(matching_output(Seq::<Seq<u8>>::empty(), pattern) == Seq::<u8>::empty());
    assert(line.push(NEWLINE) + Seq::<u8>::empty() =~= line + seq![NEWLINE]);
}

/// A text without newlines is one line: as it stands when nothing ends it,
/// and without its ending when `"\n"` (after a byte other than `'\r'`) or
/// `"\r\n"` ends it. The empty text has no lines.
pub proof fn lemma_lines_of_one_line(line: Seq<u8>)
    requires
        forall|k: int| 0 <= k < line.len() ==> line[k] != NEWLINE,
    ensures
        line.len() == 0 ==> lines_of(line) == Seq::<Seq<u8>>::empty(),
        line.len() > 0 ==> lines_of(line) == seq![line],
        line.len() == 0 || line.last() != CARRIAGE_RETURN ==> lines_of(line + seq![NEWLINE])
            == seq![line],
        lines_of(line + seq![CARRIAGE_RETURN, NEWLINE]) == seq![line],
{
    let n = line.len();
    lemma_line_end_bounds(line, 0);
    assert(line_end(line, 0) == n);
    if n > 0 {
        lemma_lines_from_unfold(line, 0);
        assert(line.subrange(0, n as int) =~= line);
    }
    let u = line + seq![NEWLINE];
    lemma_line_end_append(line, seq![NEWLINE], 0);
    assert(u[n as int] == NEWLINE);
    assert(line_end(u, n) == n);
    lemma_lines_from_unfold(u, 0);
    assert(u.subrange(0, n as int) =~= line);
    assert(lines_from(u, n + 1) =~= Seq::<Seq<u8>>::empty());
    let w = line + seq![CARRIAGE_RETURN, NEWLINE];
    lemma_line_end_append(line, seq![CARRIAGE_RETURN, NEWLINE], 0);
    assert(w[n as int] == CARRIAGE_RETURN);
    assert(w[n + 1int] == NEWLINE);
    assert(line_end(w, n + 1) == n + 1);
    assert(line_end(w, n) == n + 1);
    lemma_lines_from_unfold(w, 0);
    assert(w.subrange(0, n + 1int) =~= line.push(CARRIAGE_RETURN));
    assert(line.push(CARRIAGE_RETURN).drop_last() =~= line);
    assert(lines_from(w, n + 2) =~= Seq::<Seq<u8>>::empty());
}

} // verus!
