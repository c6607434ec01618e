//! Line, word, byte and character counting over a text.
//!
//! A line is what one `read_line` call hands back: a chunk ending in
//! `'\n'`, or the trailing chunk of a text that does not end in one.  A
//! word is a maximal run of non-whitespace characters.  The counts over a
//! whole text equal the per-line counts summed, since a newline is
//! whitespace and every chunk boundary is a newline.

use vstd::prelude::*;

verus! {

use vstd::string::StringSliceAdditionalSpecFns;

/// `c` has the Unicode `White_Space` property, the separator that word
/// splitting goes by.
pub open spec fn is_space(c: char) -> bool {
    let u = c as u32;
    ||| u == 0x20
    ||| (0x09 <= u && u <= 0x0d)
    ||| u == 0x85
    ||| u == 0xa0
    ||| u == 0x1680
    ||| (0x2000 <= u && u <= 0x200a)
    ||| u == 0x2028
    ||| u == 0x2029
    ||| u == 0x202f
    ||| u == 0x205f
    ||| u == 0x3000
}

/// `r == is_space(c)`.
fn is_space_char(c: char) -> (r: bool)
    ensures
        r == is_space(c),
{
    let u = c as u32;
    u == 0x20 || (0x09 <= u && u <= 0x0d) || u == 0x85 || u == 0xa0 || u == 0x1680 || (0x2000 <= u
        && u <= 0x200a) || u == 0x2028 || u == 0x2029 || u == 0x202f || u == 0x205f || u == 0x3000
}

/// How many `'\n'` characters `s` holds.
pub open spec fn newline_count(s: Seq<char>) -> int
    decreases s.len(),
{
    if s.len() == 0 {
        0
    } else {
        newline_count(s.drop_last()) + if s.last() == '\n' {
            1int
        } else {
            0int
        }
    }
}

/// How many lines `s` holds: one per `'\n'`, plus a final unterminated
/// one unless the text is empty or ends in `'\n'`.
pub open spec fn line_count(s: Seq<char>) -> int {
    newline_count(s) + if s.len() > 0 && s.last() != '\n' {
        1int
    } else {
        0int
    }
}

/// How many words `s` holds: the number of positions where a
/// non-whitespace character follows the start of the text or a
/// whitespace character.
pub open spec fn word_count(s: Seq<char>) -> int
    decreases s.len(),
{
    if s.len() == 0 {
        0
    } else {
        word_count(s.drop_last()) + if !is_space(s.last()) && (s.len() == 1 || is_space(
            s[s.len() - 2],
        )) {
            1int
        } else {
            0int
        }
    }
}

/// There are no more newlines than characters.
proof fn lemma_newline_count_le(s: Seq<char>)
    ensures
        0 <= newline_count(s) <= s.len(),
    decreases s.len(),
{
    if s.len() > 0 {
        lemma_newline_count_le(s.drop_last());
    }
}

/// The per-file counters: lines, words, bytes and characters.
#[derive(Debug, Clone, Copy, PartialEq, Eq, Structural)]
pub struct FileInfo {
    pub n_lines: usize,
    pub n_words: usize,
    pub n_bytes: usize,
    pub n_chars: usize,
}

impl Default for FileInfo {
    /// All four counters start at zero.
    fn default() -> (r: Self)
        ensures
            r.n_lines == 0 && r.n_words == 0 && r.n_bytes == 0 && r.n_chars == 0,
    {
        FileInfo { n_lines: 0, n_words: 0, n_bytes: 0, n_chars: 0 }
    }
}

impl FileInfo {
    /// A fresh, all-zero set of counters.
    pub fn new() -> (r: Self)
        ensures
            r.n_lines == 0 && r.n_words == 0 && r.n_bytes == 0 && r.n_chars == 0,
    {
        Default::default()
    }

    /// The counter-wise sum of two sets of counters.
    pub fn add(self, other: Self) -> (r: Self)
        requires
            self.n_lines + other.n_lines <= usize::MAX,
            self.n_words + other.n_words <= usize::MAX,
            self.n_bytes + other.n_bytes <= usize::MAX,
            self.n_chars + other.n_chars <= usize::MAX,
        ensures
            r.n_lines == self.n_lines + other.n_lines,
            r.n_words == self.n_words + other.n_words,
            r.n_bytes == self.n_bytes + other.n_bytes,
            r.n_chars == self.n_chars + other.n_chars,
    {
        FileInfo {
            n_lines: self.n_lines + other.n_lines,
            n_words: self.n_words + other.n_words,
            n_bytes: self.n_bytes + other.n_bytes,
            n_chars: self.n_chars + other.n_chars,
        }
    }

    /// Accumulate another set of counters into this one, counter-wise.
    pub fn add_assign(&mut self, other: Self)
        requires
            old(self).n_lines + other.n_lines <= usize::MAX,
            old(self).n_words + other.n_words <= usize::MAX,
            old(self).n_bytes + other.n_bytes <= usize::MAX,
            old(self).n_chars + other.n_chars <= usize::MAX,
        ensures
            final(self).n_lines == old(self).n_lines + other.n_lines,
            final(self).n_words == old(self).n_words + other.n_words,
            final(self).n_bytes == old(self).n_bytes + other.n_bytes,
            final(self).n_chars == old(self).n_chars + other.n_chars,
    {
        *self = self.add(other);
    }
}

/// Count the lines, words, bytes and characters of one text, read whole.
pub fn count(text: &str) -> (r: FileInfo)
    ensures
        r.n_lines == line_count(text@),
        r.n_words == word_count(text@),
        r.n_chars == text@.len(),
        r.n_bytes == text.spec_bytes().len(),
{
    let n = text.unicode_len();
    let mut n_lines: usize = 0;
    let mut n_words: usize = 0;
    let mut prev_space = true;
    let mut i: usize = 0;
    proof {
        assert(text@.take(0) =~= Seq::<char>::empty());
    }
    while i < n
        invariant
            0 <= i <= n,
            n == text@.len(),
            n_lines == newline_count(text@.take(i as int)),
            n_lines <= i,
            n_words == word_count(text@.take(i as int)),
            n_words <= i,
            prev_space == (i == 0 || is_space(text@[i - 1])),
        decreases n - i,
    {
        let c = text.get_char(i);
        proof {
            assert(text@.take(i + 1).drop_last() =~= text@.take(i as int));
            assert(text@.take(i + 1).last() == text@[i as int]);
            if i > 0 {
                assert(text@.take(i + 1)[i - 1] == text@[i - 1]);
            }
        }
        if c == '\n' {
            n_lines += 1;
        }
        let sp = is_space_char(c);
        if !sp && prev_space {
            n_words += 1;
        }
        prev_space = sp;
        i += 1;
    }
    proof {
        assert(text@.take(n as int) =~= text@);
    }
    if n > 0 && text.get_char(n - 1) != '\n' {
        proof {
            lemma_newline_count_le(text@.drop_last());
            assert(newline_count(text@) == newline_count(text@.drop_last()));
        }
        n_lines += 1;
    }
    let bytes = text.as_bytes_vec();
    FileInfo { n_lines, n_words, n_bytes: bytes.len(), n_chars: n }
}

} // verus!
