//! Text primitives shared by the readers and the writers: the bytes of a text, the runs
//! at its ends, and splitting at a separator and into lines.

use vstd::prelude::*;
use vstd::utf8::encode_utf8;

verus! {

/// `String::push` of the standard library: the character is appended at the end and
/// nothing else changes.
pub assume_specification[ String::push ](s: &mut String, ch: char)
    ensures
        final(s)@ == old(s)@.push(ch),
;

/// The number of bytes that the text `s` takes.
pub open spec fn byte_count(s: Seq<char>) -> nat {
    encode_utf8(s).len()
}

/// A text has at most as many characters as bytes.
pub proof fn lemma_characters_fit_bytes(s: Seq<char>)
    ensures
        s.len() <= byte_count(s),
    decreases s.len(),
{
    if s.len() > 0 {
        lemma_characters_fit_bytes(s.drop_first());
    }
}

/// Two texts in a row take the bytes of the one and of the other.
pub proof fn lemma_bytes_add(a: Seq<char>, b: Seq<char>)
    ensures
        encode_utf8(a + b) == encode_utf8(a) + encode_utf8(b),
        byte_count(a + b) == byte_count(a) + byte_count(b),
    decreases a.len(),
{
    if a.len() > 0 {
        lemma_bytes_add(a.drop_first(), b);
        assert((a + b).drop_first() =~= a.drop_first() + b);
    }
}

/// A part of a text takes no more bytes than the text.
pub proof fn lemma_part_fits(s: Seq<char>, from: int, to: int)
    requires
        0 <= from <= to <= s.len(),
    ensures
        byte_count(s.subrange(from, to)) <= byte_count(s),
{
    let part = s.subrange(from, to);
    assert(s =~= (s.take(from) + part) + s.skip(to));
    lemma_bytes_add(s.take(from) + part, s.skip(to));
    lemma_bytes_add(s.take(from), part);
}

/// The number of the bytes of `s`, which bounds the number of its characters.
pub fn character_bound(s: &str) -> (n: usize)
    ensures
        n == byte_count(s@),
        s@.len() <= n,
{
    proof {
        lemma_characters_fit_bytes(s@);
    }
    s.as_bytes().len()
}

/// The test for being the character `sep`.
pub open spec fn is_char(sep: char) -> spec_fn(char) -> bool {
    |c: char| c == sep
}

/// The test for being another character than `sep`.
pub open spec fn is_not_char(sep: char) -> spec_fn(char) -> bool {
    |c: char| c != sep
}

/// The number of characters at the start of `s` that all pass the test `p`.
pub open spec fn leading(s: Seq<char>, p: spec_fn(char) -> bool) -> int
    decreases s.len(),
{
    if s.len() > 0 && p(s[0]) {
        1 + leading(s.drop_first(), p)
    } else {
        0
    }
}

/// The number of characters at the end of `s` that all pass the test `p`.
pub open spec fn trailing(s: Seq<char>, p: spec_fn(char) -> bool) -> int
    decreases s.len(),
{
    if s.len() > 0 && p(s.last()) {
        1 + trailing(s.drop_last(), p)
    } else {
        0
    }
}

/// The characters that `leading` counts pass the test, and the next one fails it or is
/// missing.
pub proof fn lemma_leading_run(s: Seq<char>, p: spec_fn(char) -> bool)
    ensures
        0 <= leading(s, p) <= s.len(),
        forall|j: int| 0 <= j < leading(s, p) ==> p(s[j]),
        leading(s, p) < s.len() ==> !p(s[leading(s, p)]),
    decreases s.len(),
{
    if s.len() > 0 && p(s[0]) {
        let rest = s.drop_first();
        lemma_leading_run(rest, p);
        assert forall|j: int| 0 <= j < leading(s, p) implies p(s[j]) by {
            if j > 0 {
                assert(s[j] == rest[j - 1]);
            }
        }
    }
}

/// The characters that `trailing` counts pass the test, and the one before them fails
/// it or is missing.
pub proof fn lemma_trailing_run(s: Seq<char>, p: spec_fn(char) -> bool)
    ensures
        0 <= trailing(s, p) <= s.len(),
        forall|j: int| s.len() - trailing(s, p) <= j < s.len() ==> p(s[j]),
        trailing(s, p) < s.len() ==> !p(s[s.len() - trailing(s, p) - 1]),
    decreases s.len(),
{
    if s.len() > 0 && p(s.last()) {
        let rest = s.drop_last();
        lemma_trailing_run(rest, p);
        assert forall|j: int| s.len() - trailing(s, p) <= j < s.len() implies p(s[j]) by {
            if j < s.len() - 1 {
                assert(s[j] == rest[j]);
            }
        }
    }
}

/// `leading` is the one number of characters at the start that all pass the test while
/// the next one fails it or is missing.
pub proof fn lemma_leading(s: Seq<char>, p: spec_fn(char) -> bool, k: int)
    requires
        0 <= k <= s.len(),
        forall|j: int| 0 <= j < k ==> p(s[j]),
        k < s.len() ==> !p(s[k]),
    ensures
        leading(s, p) == k,
    decreases k,
{
    if k > 0 {
        lemma_leading(s.drop_first(), p, k - 1);
    }
}

/// `trailing` is the one number of characters at the end that all pass the test while
/// the one before them fails it or is missing.
pub proof fn lemma_trailing(s: Seq<char>, p: spec_fn(char) -> bool, k: int)
    requires
        0 <= k <= s.len(),
        forall|j: int| s.len() - k <= j < s.len() ==> p(s[j]),
        k < s.len() ==> !p(s[s.len() - k - 1]),
    ensures
        trailing(s, p) == k,
    decreases k,
{
    if k > 0 {
        lemma_trailing(s.drop_last(), p, k - 1);
    }
}

/// The pieces of `s` between the occurrences of `sep`, in order. There is always at
/// least one piece; pieces may be empty.
pub open spec fn pieces(s: Seq<char>, sep: char) -> Seq<Seq<char>>
    decreases s.len(),
{
    if s.len() == 0 {
        seq![Seq::empty()]
    } else {
        let before = pieces(s.drop_last(), sep);
        if s.last() == sep {
            before.push(Seq::empty())
        } else {
            before.drop_last().push(before.last().push(s.last()))
        }
    }
}

/// How often `sep` occurs in `s`.
pub open spec fn occurrences(s: Seq<char>, sep: char) -> nat {
    s.filter(is_char(sep)).len()
}

/// `parts` joined with one `sep` between neighbours.
pub open spec fn joined(parts: Seq<Seq<char>>, sep: char) -> Seq<char>
    decreases parts.len(),
{
    if parts.len() == 0 {
        Seq::empty()
    } else if parts.len() == 1 {
        parts[0]
    } else {
        joined(parts.drop_last(), sep).push(sep) + parts.last()
    }
}

/// Splitting is exact: one more piece than separators, no separator inside a piece,
/// and the pieces joined by the separator give the text back.
pub proof fn lemma_pieces(s: Seq<char>, sep: char)
    ensures
        pieces(s, sep).len() == occurrences(s, sep) + 1,
        forall|k: int, j: int|
            0 <= k < pieces(s, sep).len() && 0 <= j < pieces(s, sep)[k].len()
                ==> pieces(s, sep)[k][j] != sep,
        joined(pieces(s, sep), sep) == s,
    decreases s.len(),
{
    if s.len() > 0 {
        let front = s.drop_last();
        let before = pieces(front, sep);
        lemma_pieces(front, sep);
        assert(s =~= front.push(s.last()));
        Seq::lemma_filter_push(front, s.last(), is_char(sep));
        if s.last() == sep {
            assert(before.push(Seq::empty()).drop_last() =~= before);
        } else if before.len() > 1 {
            let all = before.drop_last().push(before.last().push(s.last()));
            assert(all.drop_last() =~= before.drop_last());
        }
    }
}

/// Splits `s` at every occurrence of `sep`.
pub fn split(s: &str, sep: char) -> (out: Vec<String>)
    ensures
        out.deep_view() == pieces(s@, sep),
{
    let mut out: Vec<String> = Vec::new();
    let mut current = String::new();
    for c in it: s.chars()
        invariant
            it.seq() == s@,
            out.deep_view().push(current@) == pieces(s@.take(it.index() as int), sep),
    {
        proof {
            assert(s@.take(it.index() + 1).drop_last() == s@.take(it.index() as int));
        }
        if c == sep {
            out.push(current);
            current = String::new();
        } else {
            current.push(c);
        }
    }
    proof {
        assert(s@.take(s@.len() as int) =~= s@);
    }
    out.push(current);
    out
}

/// `line` without the carriage return at its end, if it has one there.
pub open spec fn without_cr(line: Seq<char>) -> Seq<char> {
    if line.len() > 0 && line.last() == '\r' {
        line.drop_last()
    } else {
        line
    }
}

/// Each of `parts` without its final carriage return.
pub open spec fn all_without_cr(parts: Seq<Seq<char>>) -> Seq<Seq<char>> {
    parts.map_values(|line: Seq<char>| without_cr(line))
}

/// The lines of `text`. A line ends at a line feed; a carriage return directly before
/// that line feed belongs to the line ending. What follows the last line feed is a line
/// of its own, kept as it is, unless it is empty.
pub open spec fn lines_of(text: Seq<char>) -> Seq<Seq<char>> {
    let parts = pieces(text, '\n');
    let ended = all_without_cr(parts.drop_last());
    if parts.last().len() == 0 {
        ended
    } else {
        ended.push(parts.last())
    }
}

/// The number of bytes that `parts` take together.
pub open spec fn total_bytes(parts: Seq<Seq<char>>) -> nat
    decreases parts.len(),
{
    if parts.len() == 0 {
        0
    } else {
        total_bytes(parts.drop_last()) + byte_count(parts.last())
    }
}

/// Parts that are joined take no more bytes apart.
proof fn lemma_joined_bytes(parts: Seq<Seq<char>>, sep: char)
    ensures
        total_bytes(parts) <= byte_count(joined(parts, sep)),
    decreases parts.len(),
{
    if parts.len() == 1 {
        assert(total_bytes(parts.drop_last()) == 0);
    } else if parts.len() > 1 {
        lemma_joined_bytes(parts.drop_last(), sep);
        let front = joined(parts.drop_last(), sep);
        lemma_bytes_add(front.push(sep), parts.last());
        assert(front.push(sep) =~= front + seq![sep]);
        lemma_bytes_add(front, seq![sep]);
    }
}

/// Lines without their carriage returns take no more bytes than with them.
proof fn lemma_without_cr_bytes(parts: Seq<Seq<char>>)
    ensures
        total_bytes(all_without_cr(parts)) <= total_bytes(parts),
    decreases parts.len(),
{
    if parts.len() > 0 {
        lemma_without_cr_bytes(parts.drop_last());
        assert(all_without_cr(parts).drop_last() =~= all_without_cr(parts.drop_last()));
        let line = parts.last();
        if line.len() > 0 {
            lemma_part_fits(line, 0, line.len() - 1);
        }
    }
}

/// The lines of a text take no more bytes than the text.
pub proof fn lemma_lines_fit(text: Seq<char>)
    ensures
        total_bytes(lines_of(text)) <= byte_count(text),
{
    let parts = pieces(text, '\n');
    lemma_pieces(text, '\n');
    lemma_joined_bytes(parts, '\n');
    lemma_without_cr_bytes(parts.drop_last());
    let ended = all_without_cr(parts.drop_last());
    assert(ended.push(parts.last()).drop_last() =~= ended);
}

/// Splits `text` into its lines, without their line endings.
pub fn lines(text: &str) -> (out: Vec<String>)
    ensures
        out.deep_view() == lines_of(text@),
{
    let mut out: Vec<String> = Vec::new();
    let mut current = String::new();
    // A carriage return is held back until the next character shows whether it
    // belongs to a line ending.
    let mut held_cr = false;
    for c in it: text.chars()
        invariant
            it.seq() == text@,
            out.deep_view() == all_without_cr(
                pieces(text@.take(it.index() as int), '\n').drop_last(),
            ),
            pieces(text@.take(it.index() as int), '\n').last() == if held_cr {
                current@.push('\r')
            } else {
                current@
            },
            !held_cr ==> without_cr(current@) == current@,
    {
        let ghost seen = text@.take(it.index() as int);
        let ghost parts = pieces(seen, '\n');
        proof {
            assert(text@.take(it.index() + 1).drop_last() == seen);
        }
        if c == '\n' {
            proof {
                if held_cr {
                    assert(current@.push('\r').drop_last() =~= current@);
                }
                assert(parts.push(Seq::empty()).drop_last() =~= parts);
                assert(all_without_cr(parts) =~= all_without_cr(parts.drop_last()).push(
                    current@,
                ));
            }
            out.push(current);
            current = String::new();
            held_cr = false;
        } else {
            if held_cr {
                current.push('\r');
            }
            if c == '\r' {
                held_cr = true;
            } else {
                current.push(c);
                held_cr = false;
            }
        }
    }
    proof {
        assert(text@.take(text@.len() as int) =~= text@);
    }
    if held_cr {
        current.push('\r');
    }
    if !current.as_str().is_empty() {
        out.push(current);
    }
    out
}

} // verus!
