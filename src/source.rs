//! The source buffer: the text, its characters, the byte offset of each
//! character and the byte offsets at which lines start.
use vstd::prelude::*;
use crate::text::{byte_len, lemma_byte_len_encoding, lemma_byte_len_push, lemma_byte_len_take, utf8_width};

verus! {

/// Byte offsets at which the lines of the first `n` characters of `s` start:
/// offset 0, and the offset just after each `\n`.
pub open spec fn line_starts(s: Seq<char>, n: int) -> Seq<usize>
    decreases n,
{
    if n <= 0 {
        seq![0usize]
    } else if s[n - 1] == '\n' {
        line_starts(s, n - 1).push(byte_len(s.take(n)) as usize)
    } else {
        line_starts(s, n - 1)
    }
}

/// Byte offset of each character of `s`, then the byte length of `s`.
pub open spec fn char_offsets(s: Seq<char>) -> Seq<usize> {
    Seq::new((s.len() + 1) as nat, |i: int| byte_len(s.take(i)) as usize)
}

pub open spec fn strictly_increasing(v: Seq<usize>) -> bool {
    forall|i: int, j: int| 0 <= i < j < v.len() ==> v[i] < v[j]
}

#[derive(Debug)]
pub struct Source {
    pub file_name: Option<String>,
    pub text: String,
    pub lines: Vec<usize>,
    pub chars: Vec<char>,
    pub offsets: Vec<usize>,
}

impl Source {
    pub open spec fn wf(&self) -> bool {
        &&& self.chars@ == self.text@
        &&& byte_len(self.text@) <= usize::MAX
        &&& self.offsets@ == char_offsets(self.text@)
        &&& self.lines@ == line_starts(self.text@, self.text@.len() as int)
        &&& strictly_increasing(self.offsets@)
        &&& strictly_increasing(self.lines@)
    }

    /// Byte length of the text.
    pub open spec fn len_bytes(&self) -> int {
        byte_len(self.text@) as int
    }

    /// Whether a byte offset starts a character or ends the text.
    pub open spec fn is_boundary(&self, offset: int) -> bool {
        exists|i: int| 0 <= i < self.offsets@.len() && self.offsets@[i] == offset
    }

    /// Index of the character that starts at a byte offset.
    pub open spec fn char_index(&self, offset: int) -> int {
        choose|i: int| 0 <= i < self.offsets@.len() && self.offsets@[i] == offset
    }

    /// `line` is the last line that starts at or before `offset`.
    pub open spec fn is_line_of(&self, offset: int, line: int) -> bool {
        &&& 0 <= line < self.lines@.len()
        &&& self.lines@[line] <= offset
        &&& line + 1 < self.lines@.len() ==> offset < self.lines@[line + 1]
    }

    /// The line that holds a byte offset.
    pub open spec fn line_of(&self, offset: int) -> int {
        choose|line: int| self.is_line_of(offset, line)
    }

    /// Name of the source in diagnostics.
    pub open spec fn label(&self) -> Seq<char> {
        match self.file_name {
            Some(name) => name@,
            None => "<input>"@,
        }
    }

    /// Byte range `[start, end)` of a line: up to the next line's start, or
    /// the end of the text for the last line.
    pub open spec fn line_range(&self, line: int) -> (usize, usize) {
        if line + 1 < self.lines@.len() {
            (self.lines@[line], self.lines@[line + 1])
        } else {
            (self.lines@[line], self.len_bytes() as usize)
        }
    }

    /// A source without a file name.
    pub fn from_string(text: String) -> (r: Source)
        ensures
            r.wf(),
            r.text@ == text@,
            r.file_name is None,
    {
        Self::build(None, text)
    }

    /// A source whose diagnostics carry `file_name`.
    pub fn from_named_string(file_name: String, text: String) -> (r: Source)
        ensures
            r.wf(),
            r.text@ == text@,
            r.file_name == Some(file_name),
    {
        Self::build(Some(file_name), text)
    }

    fn build(file_name: Option<String>, text: String) -> (r: Source)
        ensures
            r.wf(),
            r.text@ == text@,
            r.file_name == file_name,
    {
        let chars = decode_chars(text.as_str());
        let s = text.as_str();
        let total = s.as_bytes().len();
        proof {
            lemma_byte_len_encoding(text@);
            assert(total == byte_len(text@));
        }
        let offsets = find_offsets(&chars, total);
        let lines = find_lines(&chars, &offsets);
        Source { file_name, text, lines, chars, offsets }
    }

    /// Index of the line that holds a byte offset: the last line that starts
    /// at or before it.
    pub fn get_line(&self, offset: usize) -> (r: usize)
        requires
            self.wf(),
        ensures
            self.is_line_of(offset as int, r as int),
            r == self.line_of(offset as int),
    {
        proof {
            lemma_line_starts_first(self.text@, self.text@.len() as int);
        }
        let mut lo: usize = 0;
        let mut hi: usize = self.lines.len();
        while lo + 1 < hi
            invariant
                self.wf(),
                0 <= lo < hi <= self.lines@.len(),
                self.lines@[lo as int] <= offset,
                hi < self.lines@.len() ==> offset < self.lines@[hi as int],
            decreases hi - lo,
        {
            let mid = lo + (hi - lo) / 2;
            if self.lines[mid] <= offset {
                lo = mid;
            } else {
                hi = mid;
            }
        }
        proof {
            let l = self.line_of(offset as int);
            lemma_line_of_unique(self, offset as int, lo as int, l);
        }
        lo
    }

    /// Whether a byte offset starts a character or ends the text.
    pub fn is_char_boundary(&self, offset: usize) -> (r: bool)
        requires
            self.wf(),
        ensures
            r == self.is_boundary(offset as int),
    {
        let mut lo: usize = 0;
        let mut hi: usize = self.offsets.len();
        while lo < hi
            invariant
                self.wf(),
                0 <= lo <= hi <= self.offsets@.len(),
                forall|i: int| 0 <= i < lo ==> self.offsets@[i] < offset,
                forall|i: int| hi <= i < self.offsets@.len() ==> self.offsets@[i] > offset,
            decreases hi - lo,
        {
            let mid = lo + (hi - lo) / 2;
            if self.offsets[mid] == offset {
                return true;
            } else if self.offsets[mid] < offset {
                lo = mid + 1;
            } else {
                hi = mid;
            }
        }
        false
    }

    /// Index of the character that starts at a byte offset.
    pub(crate) fn find_char(&self, offset: usize) -> (r: usize)
        requires
            self.wf(),
            self.is_boundary(offset as int),
        ensures
            r == self.char_index(offset as int),
            r < self.offsets@.len(),
            self.offsets@[r as int] == offset,
    {
        let mut lo: usize = 0;
        let mut hi: usize = self.offsets.len();
        proof {
            let k = choose|i: int| 0 <= i < self.offsets@.len() && self.offsets@[i] == offset;
            assert(self.offsets@[0] == 0usize);
            assert(0 <= k);
        }
        while lo + 1 < hi
            invariant
                self.wf(),
                self.is_boundary(offset as int),
                0 <= lo < hi <= self.offsets@.len(),
                self.offsets@[lo as int] <= offset,
                hi < self.offsets@.len() ==> offset < self.offsets@[hi as int],
            decreases hi - lo,
        {
            let mid = lo + (hi - lo) / 2;
            if self.offsets[mid] <= offset {
                lo = mid;
            } else {
                hi = mid;
            }
        }
        proof {
            let k = choose|i: int| 0 <= i < self.offsets@.len() && self.offsets@[i] == offset;
            if k < lo {
                assert(self.offsets@[k] < self.offsets@[lo as int]);
            } else if k > lo {
                if k < hi {
                    assert(self.offsets@[lo as int] < self.offsets@[k]);
                } else {
                    assert(self.offsets@[k] >= self.offsets@[hi as int]);
                }
            }
        }
        lo
    }

    /// Line index and column of a byte offset; the column counts characters,
    /// not bytes, from the start of the line.
    pub fn get_line_column(&self, offset: usize) -> (r: (usize, usize))
        requires
            self.wf(),
            self.is_boundary(offset as int),
        ensures
            self.is_line_of(offset as int, r.0 as int),
            r.0 == self.line_of(offset as int),
            r.1 < self.offsets@.len(),
            r.1 == self.char_index(offset as int) - self.char_index(self.lines@[r.0 as int] as int),
    {
        let line = self.get_line(offset);
        let start = self.lines[line];
        proof {
            lemma_line_start_boundary(self, line as int);
        }
        let c0 = self.find_char(start);
        let c1 = self.find_char(offset);
        if c1 < c0 {
            proof {
                assert(self.offsets@[c1 as int] < self.offsets@[c0 as int]);
            }
        }
        (line, c1 - c0)
    }

    /// Byte range `[start, end)` of a line.
    pub fn get_line_offset(&self, line: usize) -> (r: (usize, usize))
        requires
            self.wf(),
            line < self.lines@.len(),
        ensures
            r == self.line_range(line as int),
    {
        let start = self.lines[line];
        let end = if line < self.lines.len() - 1 {
            self.lines[line + 1]
        } else {
            proof {
                assert(self.text@.take(self.text@.len() as int) =~= self.text@);
            }
            self.offsets[self.offsets.len() - 1]
        };
        (start, end)
    }
}

/// The characters of a string, in order.
fn decode_chars(text: &str) -> (r: Vec<char>)
    ensures
        r@ == text@,
{
    let mut out: Vec<char> = Vec::new();
    for c in it: text.chars()
        invariant
            out@ == it.seq().take(it.index() as int),
    {
        out.push(c);
    }
    out
}

/// Byte offset of every character, then the total length.
fn find_offsets(chars: &Vec<char>, total: usize) -> (r: Vec<usize>)
    requires
        byte_len(chars@) == total,
    ensures
        r@ == char_offsets(chars@),
        strictly_increasing(r@),
{
    let mut out: Vec<usize> = Vec::new();
    let mut pos: usize = 0;
    let mut i: usize = 0;
    out.push(0);
    assert(chars@.take(0) =~= Seq::<char>::empty());
    while i < chars.len()
        invariant
            byte_len(chars@) == total,
            i <= chars@.len(),
            out@.len() == i + 1,
            pos == byte_len(chars@.take(i as int)),
            forall|k: int| 0 <= k <= i ==> out@[k] == byte_len(chars@.take(k)),
        decreases chars@.len() - i,
    {
        proof {
            lemma_byte_len_take(chars@, i as int + 1, chars@.len() as int);
            assert(chars@.take(chars@.len() as int) =~= chars@);
            assert(chars@.take(i as int + 1) =~= chars@.take(i as int).push(chars@[i as int]));
            lemma_byte_len_push(chars@.take(i as int), chars@[i as int]);
        }
        pos = pos + utf8_width(chars[i]);
        i = i + 1;
        out.push(pos);
    }
    proof {
        assert(out@ =~= char_offsets(chars@));
        assert forall|a: int, b: int| 0 <= a < b < out@.len() implies out@[a] < out@[b] by {
            lemma_byte_len_take(chars@, a, b);
        }
    }
    out
}

/// Line-start table: 0, then the offset just after each `\n`.
fn find_lines(chars: &Vec<char>, offsets: &Vec<usize>) -> (r: Vec<usize>)
    requires
        offsets@ == char_offsets(chars@),
        strictly_increasing(offsets@),
    ensures
        r@ == line_starts(chars@, chars@.len() as int),
        strictly_increasing(r@),
{
    let mut out: Vec<usize> = Vec::new();
    out.push(0);
    let mut i: usize = 0;
    while i < chars.len()
        invariant
            offsets@ == char_offsets(chars@),
            strictly_increasing(offsets@),
            i <= chars@.len(),
            out@ == line_starts(chars@, i as int),
            strictly_increasing(out@),
            out@.last() <= offsets@[i as int],
        decreases chars@.len() - i,
    {
        if chars[i] == '\n' {
            out.push(offsets[i + 1]);
        }
        i = i + 1;
    }
    out
}

proof fn lemma_line_starts_first(s: Seq<char>, n: int)
    ensures
        line_starts(s, n).len() >= 1,
        line_starts(s, n)[0] == 0,
    decreases n,
{
    if n > 0 {
        lemma_line_starts_first(s, n - 1);
    }
}

/// Every line start is the offset of some character, or the end of the text.
proof fn lemma_line_starts_offsets(s: Seq<char>, n: int, k: int)
    requires
        0 <= n <= s.len(),
        byte_len(s) <= usize::MAX,
        0 <= k < line_starts(s, n).len(),
    ensures
        exists|i: int| 0 <= i <= n && line_starts(s, n)[k] == byte_len(s.take(i)),
    decreases n,
{
    if n == 0 {
        assert(line_starts(s, n)[k] == byte_len(s.take(0)));
    } else {
        lemma_line_starts_first(s, n - 1);
        if s[n - 1] == '\n' && k == line_starts(s, n - 1).len() {
            lemma_byte_len_take(s, n, s.len() as int);
            assert(s.take(s.len() as int) =~= s);
            assert(line_starts(s, n)[k] == byte_len(s.take(n)));
        } else {
            lemma_line_starts_offsets(s, n - 1, k);
        }
    }
}

proof fn lemma_line_start_boundary(src: &Source, line: int)
    requires
        src.wf(),
        0 <= line < src.lines@.len(),
    ensures
        src.is_boundary(src.lines@[line] as int),
{
    let s = src.text@;
    lemma_line_starts_offsets(s, s.len() as int, line);
    let i = choose|i: int| 0 <= i <= s.len() && line_starts(s, s.len() as int)[line] == byte_len(s.take(i));
    assert(src.offsets@[i] == src.lines@[line]);
}

/// The character that starts at the offset of character `i` is `i`.
pub proof fn lemma_char_index_of_offset(src: &Source, i: int)
    requires
        src.wf(),
        0 <= i < src.offsets@.len(),
    ensures
        src.is_boundary(src.offsets@[i] as int),
        src.char_index(src.offsets@[i] as int) == i,
{
    assert(src.is_boundary(src.offsets@[i] as int));
    let k = src.char_index(src.offsets@[i] as int);
    if k < i {
        assert(src.offsets@[k] < src.offsets@[i]);
    } else if k > i {
        assert(src.offsets@[i] < src.offsets@[k]);
    }
}

/// Both ends of a line's byte range are character boundaries, in order.
pub proof fn lemma_line_range_boundaries(src: &Source, line: int)
    requires
        src.wf(),
        0 <= line < src.lines@.len(),
    ensures
        src.is_boundary(src.line_range(line).0 as int),
        src.is_boundary(src.line_range(line).1 as int),
        src.line_range(line).0 <= src.line_range(line).1,
{
    lemma_line_start_boundary(src, line);
    if line + 1 < src.lines@.len() {
        lemma_line_start_boundary(src, line + 1);
    } else {
        let n = src.text@.len() as int;
        assert(src.text@.take(n) =~= src.text@);
        assert(src.offsets@[n] == src.len_bytes());
        lemma_line_starts_offsets(src.text@, n, line);
        let i = choose|i: int| 0 <= i <= n && line_starts(src.text@, n)[line] == byte_len(src.text@.take(i));
        lemma_byte_len_take(src.text@, i, n);
    }
}

/// The end of the text is a character boundary.
pub proof fn lemma_end_is_boundary(src: &Source)
    requires
        src.wf(),
    ensures
        src.is_boundary(src.len_bytes() as usize as int),
{
    let n = src.text@.len() as int;
    assert(src.text@.take(n) =~= src.text@);
    assert(src.offsets@[n] == src.len_bytes());
}

/// Every byte offset of the text lies in the byte range of its line, or is
/// the end of the text.
pub proof fn lemma_line_of_in_range(src: &Source, offset: int, line: int)
    requires
        src.wf(),
        0 <= offset <= src.len_bytes(),
        src.is_line_of(offset, line),
    ensures
        src.line_range(line).0 <= offset,
        offset < src.line_range(line).1 || offset == src.len_bytes(),
{
}

/// A byte offset has exactly one line.
pub proof fn lemma_line_of_unique(src: &Source, offset: int, a: int, b: int)
    requires
        src.wf(),
        src.is_line_of(offset, a),
        src.is_line_of(offset, b),
    ensures
        a == b,
{
    if a < b {
        assert(src.lines@[a + 1] <= src.lines@[b]);
    } else if b < a {
        assert(src.lines@[b + 1] <= src.lines@[a]);
    }
}

} // verus!
