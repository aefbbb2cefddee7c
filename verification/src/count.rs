//! Line, word, byte, and character counts of one input, as the word-count
//! tool accumulates them while reading line by line.

use vstd::prelude::*;

use vstd::string::StringSliceAdditionalSpecFns;
use vstd::utf8::encode_utf8;

verus! {

/// The four counts of one input.
#[derive(Debug, PartialEq, Eq, Structural)]
pub struct FileInfo {
    pub num_lines: usize,
    pub num_words: usize,
    pub num_bytes: usize,
    pub num_chars: usize,
}

/// Unicode white space, the `White_Space` property: the ASCII spacing
/// characters, NEL, NBSP, the various typographic spaces, and the line and
/// paragraph separators.
pub open spec fn is_space_char(c: char) -> bool {
    let u = c as u32;
    u == 0x20 || (0x09 <= u <= 0x0d) || u == 0x85 || u == 0xa0 || u == 0x1680 || (0x2000 <= u
        <= 0x200a) || u == 0x2028 || u == 0x2029 || u == 0x202f || u == 0x205f || u == 0x3000
}

/// Number of newline characters in `s`.
pub open spec fn newline_count(s: Seq<char>) -> nat
    decreases s.len(),
{
    if s.len() == 0 {
        0
    } else {
        newline_count(s.drop_last()) + (if s.last() == '\n' {
            1nat
        } else {
            0nat
        })
    }
}

/// Number of lines: one per newline, plus a final unterminated line.
pub open spec fn line_count(s: Seq<char>) -> nat {
    newline_count(s) + (if s.len() > 0 && s.last() != '\n' {
        1nat
    } else {
        0nat
    })
}

/// Number of words after a position: maximal runs of non-space characters,
/// where `after_space` says whether a run could begin right here.
pub open spec fn word_count_from(s: Seq<char>, after_space: bool) -> nat
    decreases s.len(),
{
    if s.len() == 0 {
        0
    } else {
        (if !is_space_char(s[0]) && after_space {
            1nat
        } else {
            0nat
        }) + word_count_from(s.drop_first(), is_space_char(s[0]))
    }
}

/// Number of words of the whole text.
pub open spec fn word_count(s: Seq<char>) -> nat {
    word_count_from(s, true)
}

/// There are never more newlines than characters.
proof fn lemma_newline_count_le(s: Seq<char>)
    ensures
        newline_count(s) <= s.len(),
    decreases s.len(),
{
    if s.len() > 0 {
        lemma_newline_count_le(s.drop_last());
    }
}

fn is_space(c: char) -> (r: bool)
    ensures
        r == is_space_char(c),
{
    let u = c as u32;
    u == 0x20 || (0x09 <= u && u <= 0x0d) || u == 0x85 || u == 0xa0 || u == 0x1680 || (0x2000 <= u
        && u <= 0x200a) || u == 0x2028 || u == 0x2029 || u == 0x202f || u == 0x205f || u == 0x3000
}

/// Counts the lines, words, bytes, and characters of one input, delimiting
/// lines exactly as reading it line by line would.
pub fn count(text: &str) -> (r: FileInfo)
    ensures
        r.num_lines == line_count(text@),
        r.num_words == word_count(text@),
        r.num_bytes == encode_utf8(text@).len() as usize,
        r.num_chars == text@.len(),
{
    let n = text.unicode_len();
    let num_bytes = text.len();
    proof {
        assert(text.spec_bytes() == encode_utf8(text@));
    }
    let mut nl: usize = 0;
    let mut words: usize = 0;
    let mut after_space = true;
    let mut i: usize = 0;
    proof {
        assert(text@.take(0) =~= Seq::<char>::empty());
        assert(text@.skip(0) =~= text@);
    }
    while i < n
        invariant
            i <= n,
            n == text@.len(),
            nl == newline_count(text@.take(i as int)),
            nl <= i,
            words + word_count_from(text@.skip(i as int), after_space) == word_count(text@),
            words <= i,
        decreases n - i,
    {
        let c = text.get_char(i);
        proof {
            assert(text@.take(i + 1).drop_last() =~= text@.take(i as int));
            assert(text@.take(i + 1).last() == text@[i as int]);
            assert(text@.skip(i as int).drop_first() =~= text@.skip(i + 1));
            assert(text@.skip(i as int)[0] == text@[i as int]);
        }
        if c == '\n' {
            nl += 1;
        }
        let sp = is_space(c);
        if !sp && after_space {
            words += 1;
        }
        after_space = sp;
        i += 1;
    }
    proof {
        assert(text@.take(n as int) =~= text@);
        assert(text@.skip(n as int) =~= Seq::<char>::empty());
    }
    let num_lines = if n > 0 && text.get_char(n - 1) != '\n' {
        proof {
            assert(text@.last() == text@[n - 1]);
            lemma_newline_count_le(text@.drop_last());
            assert(text@.drop_last() =~= text@.take(n - 1));
            assert(newline_count(text@) == newline_count(text@.drop_last()));
        }
        nl + 1
    } else {
        nl
    };
    FileInfo { num_lines, num_words: words, num_bytes, num_chars: n }
}

} // verus!
