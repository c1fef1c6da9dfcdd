//! The lengths of the records of a sequence file.

use crate::fasta::is_header;
use crate::text::{
    byte_count, character_bound, leading, lemma_leading, lemma_leading_run, lemma_lines_fit,
    lemma_part_fits, lemma_trailing, lemma_trailing_run, lines, lines_of, total_bytes, trailing,
};
use vstd::prelude::*;

verus! {

/// The name and the length of one record.
#[derive(Debug)]
pub struct SequenceSize {
    /// The first word of the header line.
    pub name: String,
    /// The number of bytes of the sequence lines, each without the white space at its
    /// ends.
    pub length: usize,
}

/// What a [`SequenceSize`] holds, as mathematical values.
pub struct Size {
    pub name: Seq<char>,
    pub length: int,
}

impl View for SequenceSize {
    type V = Size;

    open spec fn view(&self) -> Size {
        Size { name: self.name@, length: self.length as int }
    }
}

impl DeepView for SequenceSize {
    type V = Size;

    open spec fn deep_view(&self) -> Size {
        self@
    }
}

/// Whether `c` is white space: whether it has the property White_Space of Unicode. These
/// are the characters from tab to carriage return, the space, and the spaces and
/// separators beyond the first 128 characters.
pub open spec fn is_white_space(c: char) -> bool {
    let n = c as u32;
    ||| 0x9 <= n <= 0xd
    ||| n == 0x20
    ||| n == 0x85
    ||| n == 0xa0
    ||| n == 0x1680
    ||| 0x2000 <= n <= 0x200a
    ||| n == 0x2028
    ||| n == 0x2029
    ||| n == 0x202f
    ||| n == 0x205f
    ||| n == 0x3000
}

/// Tests a character for being white space.
pub fn char_is_white_space(c: char) -> (b: bool)
    ensures
        b == is_white_space(c),
{
    let n = c as u32;
    (0x9 <= n && n <= 0xd) || n == 0x20 || n == 0x85 || n == 0xa0 || n == 0x1680 || (0x2000 <= n
        && n <= 0x200a) || n == 0x2028 || n == 0x2029 || n == 0x202f || n == 0x205f || n == 0x3000
}

/// The test for white space, as a value.
pub open spec fn white() -> spec_fn(char) -> bool {
    |c: char| is_white_space(c)
}

/// The test for anything but white space, as a value.
pub open spec fn black() -> spec_fn(char) -> bool {
    |c: char| !is_white_space(c)
}

/// `s` without the white space at its two ends.
pub open spec fn trimmed(s: Seq<char>) -> Seq<char> {
    if leading(s, white()) == s.len() {
        Seq::empty()
    } else {
        s.subrange(leading(s, white()), s.len() - trailing(s, white()))
    }
}

/// The first word of `s`: what stands between the white space that `s` begins with and
/// the next white space. Empty where `s` is white space only.
pub open spec fn first_word(s: Seq<char>) -> Seq<char> {
    let rest = s.skip(leading(s, white()));
    rest.take(leading(rest, black()))
}

/// The number of bytes of `line` without the white space at its two ends.
pub fn trimmed_bytes(line: &str) -> (n: usize)
    ensures
        n == byte_count(trimmed(line@)),
{
    let ghost s = line@;
    let bound = character_bound(line);
    let mut i: usize = 0;
    let mut started = false;
    // The index of the first character that is no white space, and the index behind
    // the last.
    let mut first: usize = 0;
    let mut end: usize = 0;
    for c in it: line.chars()
        invariant
            it.seq() == s,
            s.len() <= bound,
            i == it.index(),
            !started ==> forall|j: int| 0 <= j < i ==> is_white_space(s[j]),
            started ==> first < end <= i && !is_white_space(s[first as int]) && !is_white_space(
                s[end - 1],
            ) && (forall|j: int| 0 <= j < first ==> is_white_space(s[j])) && (forall|j: int|
                end <= j < i ==> is_white_space(s[j])),
    {
        if !char_is_white_space(c) {
            if !started {
                started = true;
                first = i;
            }
            end = i + 1;
        }
        i = i + 1;
    }
    if started {
        proof {
            lemma_leading(s, white(), first as int);
            lemma_trailing(s, white(), s.len() - end);
        }
        line.substring_char(first, end).as_bytes().len()
    } else {
        proof {
            lemma_leading(s, white(), s.len() as int);
        }
        0
    }
}

/// The name that a header line gives: the first word behind the marker.
pub open spec fn header_name(line: Seq<char>) -> Seq<char> {
    first_word(line.skip(1))
}

/// Reads the name off a header line.
fn read_header_name(line: &str) -> (name: String)
    requires
        is_header(line@),
    ensures
        name@ == header_name(line@),
{
    let ghost s = line@;
    let mut name = String::new();
    let mut first = true;
    let mut before_word = true;
    let mut in_word = false;
    let ghost mut from: int = 0;
    let ghost mut to: int = 0;
    for c in it: line.chars()
        invariant
            it.seq() == s,
            first <==> it.index() == 0,
            !(before_word && in_word),
            before_word ==> name@.len() == 0 && forall|j: int|
                1 <= j < it.index() ==> is_white_space(s[j]),
            !before_word ==> 1 <= from < it.index() && !is_white_space(s[from]) && (forall|j: int|
                1 <= j < from ==> is_white_space(s[j])),
            in_word ==> name@ == s.subrange(from, it.index() as int) && forall|j: int|
                from <= j < it.index() ==> !is_white_space(s[j]),
            !before_word && !in_word ==> from < to < it.index() && is_white_space(s[to]) && name@
                == s.subrange(from, to) && forall|j: int| from <= j < to ==> !is_white_space(s[j]),
    {
        let ghost i = it.index() as int;
        if first {
            first = false;
        } else if before_word {
            if !char_is_white_space(c) {
                before_word = false;
                in_word = true;
                name.push(c);
                proof {
                    from = i;
                }
            }
        } else if in_word {
            if char_is_white_space(c) {
                in_word = false;
                proof {
                    to = i;
                }
            } else {
                name.push(c);
            }
        }
    }
    proof {
        let rest = s.skip(1);
        if before_word {
            lemma_leading(rest, white(), rest.len() as int);
        } else {
            if in_word {
                to = s.len() as int;
            }
            lemma_leading(rest, white(), from - 1);
            let word = rest.skip(from - 1);
            lemma_leading(word, black(), to - from);
        }
    }
    name
}

/// How far the reader has come: the sizes that are complete, the name that the last
/// header line gave, and the length counted since.
pub struct SizeScan {
    pub done: Seq<Size>,
    pub name: Seq<char>,
    pub length: int,
}

/// The sizes that are complete once the open record, if any, has been closed. A record
/// is open while the name is not empty.
pub open spec fn sizes_closed(state: SizeScan) -> Seq<Size> {
    if state.name.len() > 0 {
        state.done.push(Size { name: state.name, length: state.length })
    } else {
        state.done
    }
}

/// One line's effect. A header line closes the open record, gives the next name and
/// starts the count anew. Any other line adds its bytes, without the white space at its
/// ends, to the count.
pub open spec fn size_step(state: SizeScan, line: Seq<char>) -> SizeScan {
    if is_header(line) {
        SizeScan { done: sizes_closed(state), name: header_name(line), length: 0 }
    } else {
        SizeScan { length: state.length + byte_count(trimmed(line)), ..state }
    }
}

/// The reader's state after `lines`.
pub open spec fn size_scan(lines: Seq<Seq<char>>) -> SizeScan
    decreases lines.len(),
{
    if lines.len() == 0 {
        SizeScan { done: Seq::empty(), name: Seq::empty(), length: 0 }
    } else {
        size_step(size_scan(lines.drop_last()), lines.last())
    }
}

/// The sizes of the records that `lines` hold.
pub open spec fn sizes_of(lines: Seq<Seq<char>>) -> Seq<Size> {
    sizes_closed(size_scan(lines))
}

/// A line without the white space at its ends takes no more bytes than the line.
proof fn lemma_trimmed_fits(line: Seq<char>)
    ensures
        byte_count(trimmed(line)) <= byte_count(line),
{
    lemma_run_bounds(line);
    if leading(line, white()) < line.len() {
        lemma_part_fits(line, leading(line, white()), line.len() - trailing(line, white()));
    }
}

/// The white space at the two ends of a text that is not white space only does not
/// overlap.
proof fn lemma_run_bounds(s: Seq<char>)
    ensures
        0 <= leading(s, white()) <= s.len(),
        0 <= trailing(s, white()) <= s.len(),
        leading(s, white()) < s.len() ==> leading(s, white()) + trailing(s, white()) <= s.len(),
{
    lemma_leading_run(s, white());
    lemma_trailing_run(s, white());
}

/// Reads the sizes off lines whose bytes can be counted.
fn sizes_of_lines(lines: &Vec<String>) -> (out: Vec<SequenceSize>)
    requires
        total_bytes(lines.deep_view()) <= usize::MAX,
    ensures
        out.deep_view() == sizes_of(lines.deep_view()),
{
    let mut out: Vec<SequenceSize> = Vec::new();
    let mut name = String::new();
    let mut length: usize = 0;
    let mut i: usize = 0;
    while i < lines.len()
        invariant
            i <= lines.len(),
            total_bytes(lines.deep_view()) <= usize::MAX,
            size_scan(lines.deep_view().take(i as int)).done == out.deep_view(),
            size_scan(lines.deep_view().take(i as int)).name == name@,
            size_scan(lines.deep_view().take(i as int)).length == length,
            length <= total_bytes(lines.deep_view().take(i as int)),
        decreases lines.len() - i,
    {
        let line = lines[i].as_str();
        proof {
            let seen = lines.deep_view().take(i as int + 1);
            assert(seen.drop_last() =~= lines.deep_view().take(i as int));
            lemma_trimmed_fits(line@);
            lemma_total_bytes_grow(lines.deep_view(), i as int + 1);
        }
        if !line.is_empty() && line.get_char(0) == '>' {
            if !name.as_str().is_empty() {
                let size = SequenceSize { name, length };
                out.push(size);
            }
            name = read_header_name(line);
            length = 0;
        } else {
            length = length + trimmed_bytes(line);
        }
        i = i + 1;
    }
    proof {
        assert(lines.deep_view().take(lines.len() as int) =~= lines.deep_view());
    }
    if !name.as_str().is_empty() {
        let size = SequenceSize { name, length };
        out.push(size);
    }
    out
}

/// The first lines of a list take no more bytes than all of them.
proof fn lemma_total_bytes_grow(parts: Seq<Seq<char>>, n: int)
    requires
        0 <= n <= parts.len(),
    ensures
        total_bytes(parts.take(n)) <= total_bytes(parts),
    decreases parts.len() - n,
{
    if n < parts.len() {
        lemma_total_bytes_grow(parts, n + 1);
        assert(parts.take(n + 1).drop_last() =~= parts.take(n));
    } else {
        assert(parts.take(n) =~= parts);
    }
}

/// Reads the name and the length of every record off the text of a sequence file.
pub fn sequence_sizes(text: &str) -> (out: Vec<SequenceSize>)
    ensures
        out.deep_view() == sizes_of(lines_of(text@)),
{
    // The bytes of the text can be counted, and so can those of its lines.
    let _ = character_bound(text);
    let all = lines(text);
    proof {
        lemma_lines_fit(text@);
    }
    sizes_of_lines(&all)
}

} // verus!
