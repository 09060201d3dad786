//! Counting lines, words, characters and bytes of a text.
//!
//! A text is modelled as its sequence of Unicode scalar values. Characters
//! are the scalar values themselves; bytes are the length of the UTF-8
//! encoding; lines are the segments between line terminators, where a
//! trailing terminator opens no further segment; words are the maximal runs
//! of non-whitespace characters.

use vstd::prelude::*;

verus! {

use crate::args::Args;
use vstd::std_specs::iter::IteratorSpec;
use vstd::string::StrSliceExecFns;

/// The Unicode scalar values with the White_Space property: the separators
/// that word counting splits on.
pub open spec fn is_wspace(c: char) -> bool {
    (0x09 <= c as u32 && c as u32 <= 0x0D) || c as u32 == 0x20 || c as u32 == 0x85 || c as u32
        == 0xA0 || c as u32 == 0x1680 || (0x2000 <= c as u32 && c as u32 <= 0x200A) || c as u32
        == 0x2028 || c as u32 == 0x2029 || c as u32 == 0x202F || c as u32 == 0x205F || c as u32
        == 0x3000
}

/// Number of bytes in the UTF-8 encoding of one scalar value.
pub open spec fn utf8_width(c: char) -> int {
    if (c as u32) < 0x80 {
        1
    } else if (c as u32) < 0x800 {
        2
    } else if (c as u32) < 0x10000 {
        3
    } else {
        4
    }
}

/// Length in bytes of the UTF-8 encoding of the text.
pub open spec fn byte_count(s: Seq<char>) -> int
    decreases s.len(),
{
    if s.len() == 0 {
        0
    } else {
        byte_count(s.drop_last()) + utf8_width(s.last())
    }
}

pub open spec fn all_ascii(s: Seq<char>) -> bool {
    forall|j: int| 0 <= j < s.len() ==> (s[j] as u32) < 0x80
}

/// Number of occurrences of the line terminator in the text.
pub open spec fn newline_count(s: Seq<char>) -> int
    decreases s.len(),
{
    if s.len() == 0 {
        0
    } else {
        newline_count(s.drop_last()) + if s.last() == '\n' {
            1int
        } else {
            0int
        }
    }
}

/// Number of line segments: a trailing terminator does not open another,
/// so `"a\nb\n"` has two lines, `"a\nb"` has two, and `""` has none.
pub open spec fn line_count(s: Seq<char>) -> int {
    if s.len() == 0 {
        0
    } else if s.last() == '\n' {
        newline_count(s)
    } else {
        newline_count(s) + 1
    }
}

/// Position `j` begins a maximal run of non-whitespace characters.
pub open spec fn is_word_start(s: Seq<char>, j: int) -> bool {
    &&& 0 <= j < s.len()
    &&& !is_wspace(s[j])
    &&& (j == 0 || is_wspace(s[j - 1]))
}

/// Number of word starts among the first `n` positions.
pub open spec fn word_starts_below(s: Seq<char>, n: int) -> int
    decreases n,
{
    if n <= 0 {
        0
    } else {
        word_starts_below(s, n - 1) + if is_word_start(s, n - 1) {
            1int
        } else {
            0int
        }
    }
}

/// Number of maximal runs of non-whitespace characters.
pub open spec fn word_count(s: Seq<char>) -> int {
    word_starts_below(s, s.len() as int)
}

/// Byte count against character count: the UTF-8 encoding spends at least
/// one byte per scalar value, and exactly one per value precisely on ASCII
/// text.
pub proof fn lemma_byte_count_vs_len(s: Seq<char>)
    ensures
        byte_count(s) >= s.len(),
        byte_count(s) == s.len() <==> all_ascii(s),
    decreases s.len(),
{
    if s.len() == 0 {
    } else {
        let d = s.drop_last();
        lemma_byte_count_vs_len(d);
        assert(forall|j: int| 0 <= j < d.len() ==> d[j] == s[j]);
        if byte_count(s) == s.len() {
            assert(byte_count(d) == d.len() && utf8_width(s.last()) == 1);
            assert forall|j: int| 0 <= j < s.len() implies (s[j] as u32) < 0x80 by {
                if j < s.len() - 1 {
                    assert(d[j] == s[j]);
                }
            }
        }
        if all_ascii(s) {
            assert(all_ascii(d));
            assert((s.last() as u32) < 0x80);
        }
    }
}

pub proof fn lemma_byte_count_take_succ(s: Seq<char>, i: int)
    requires
        0 <= i < s.len(),
    ensures
        byte_count(s.take(i + 1)) == byte_count(s.take(i)) + utf8_width(s[i]),
        newline_count(s.take(i + 1)) == newline_count(s.take(i)) + if s[i] == '\n' {
            1int
        } else {
            0int
        },
{
    assert(s.take(i + 1).drop_last() =~= s.take(i));
    assert(s.take(i + 1).last() == s[i]);
}

pub proof fn lemma_byte_count_take_le(s: Seq<char>, i: int)
    requires
        0 <= i <= s.len(),
    ensures
        byte_count(s.take(i)) <= byte_count(s),
    decreases s.len() - i,
{
    if i == s.len() {
        assert(s.take(i) =~= s);
    } else {
        lemma_byte_count_take_succ(s, i);
        lemma_byte_count_take_le(s, i + 1);
    }
}

pub proof fn lemma_newline_count_le(s: Seq<char>)
    ensures
        0 <= newline_count(s) <= s.len(),
    decreases s.len(),
{
    if s.len() > 0 {
        lemma_newline_count_le(s.drop_last());
    }
}

/// Line-count law: text holding n line terminators has n + 1 lines when it
/// does not end in a terminator, n lines when it does, and no lines when it
/// is empty.
pub proof fn lemma_line_count_terminators(s: Seq<char>)
    ensures
        s.len() == 0 ==> line_count(s) == 0,
        s.len() > 0 && s.last() == '\n' ==> line_count(s) == newline_count(s),
        s.len() > 0 && s.last() != '\n' ==> line_count(s) == newline_count(s) + 1,
{
}

/// Prefixes up to the insertion point count the same word starts.
proof fn lemma_word_starts_insert_prefix(s: Seq<char>, i: int, c: char, n: int)
    requires
        0 <= i <= s.len(),
        0 <= n <= i,
    ensures
        word_starts_below(s.insert(i, c), n) == word_starts_below(s, n),
    decreases n,
{
    s.insert_ensures(i, c);
    if n > 0 {
        lemma_word_starts_insert_prefix(s, i, c, n - 1);
        assert(is_word_start(s.insert(i, c), n - 1) == is_word_start(s, n - 1));
    }
}

/// Inserting a whitespace character at position `i` leaves every word start
/// in place, except that it exposes a fresh start when it lands inside a
/// run of non-whitespace characters.
proof fn lemma_word_starts_insert(s: Seq<char>, i: int, c: char, n: int)
    requires
        is_wspace(c),
        0 <= i <= s.len(),
        i <= n <= s.len(),
    ensures
        word_starts_below(s.insert(i, c), n + 1) == word_starts_below(s, n) + if n > i && i
            < s.len() && !is_wspace(s[i]) && i > 0 && !is_wspace(s[i - 1]) {
            1int
        } else {
            0int
        },
    decreases n - i,
{
    let t = s.insert(i, c);
    s.insert_ensures(i, c);
    if n == i {
        lemma_word_starts_insert_prefix(s, i, c, i);
        assert(!is_word_start(t, i));
    } else {
        lemma_word_starts_insert(s, i, c, n - 1);
        if n == i + 1 {
            // position i + 1 of t holds s[i], preceded by the inserted whitespace
            assert(t[i + 1] == s[i]);
            assert(t[i] == c);
            if i == 0 {
                assert(is_word_start(t, i + 1) == is_word_start(s, i));
            }
        } else {
            assert(t[n] == s[n - 1]);
            assert(t[n - 1] == s[n - 2]);
            assert(is_word_start(t, n) == is_word_start(s, n - 1));
        }
    }
}

/// Word-count law: the number of words is invariant under inserting
/// whitespace anywhere that does not split a run of non-whitespace
/// characters — between words, or as leading or trailing padding.
pub proof fn lemma_word_count_insert_ws(s: Seq<char>, i: int, c: char)
    requires
        is_wspace(c),
        0 <= i <= s.len(),
        i == 0 || i == s.len() || is_wspace(s[i - 1]) || is_wspace(s[i]),
    ensures
        word_count(s.insert(i, c)) == word_count(s),
{
    s.insert_ensures(i, c);
    lemma_word_starts_insert(s, i, c, s.len() as int);
}

/// Decides the whitespace predicate that the word count is defined over.
pub fn is_whitespace_char(c: char) -> (r: bool)
    ensures
        r == is_wspace(c),
{
    let u: u32 = c as u32;
    (0x09 <= u && u <= 0x0D) || u == 0x20 || u == 0x85 || u == 0xA0 || u == 0x1680 || (0x2000 <= u
        && u <= 0x200A) || u == 0x2028 || u == 0x2029 || u == 0x202F || u == 0x205F || u == 0x3000
}

/// Number of bytes the UTF-8 encoding spends on one character.
pub fn char_width(c: char) -> (w: usize)
    ensures
        w as int == utf8_width(c),
{
    let u: u32 = c as u32;
    if u < 0x80 {
        1
    } else if u < 0x800 {
        2
    } else if u < 0x10000 {
        3
    } else {
        4
    }
}

/// Counts lines, words, characters and bytes of a text in one pass.
pub fn scan(input: &str) -> (r: (usize, usize, usize, usize))
    requires
        byte_count(input@) <= usize::MAX,
    ensures
        r.0 as int == line_count(input@),
        r.1 as int == word_count(input@),
        r.2 as int == input@.len(),
        r.3 as int == byte_count(input@),
{
    let ghost s = input@;
    proof {
        lemma_byte_count_vs_len(s);
    }
    let n: usize = input.unicode_len();
    let mut it = input.chars();
    let mut i: usize = 0;
    let mut newlines: usize = 0;
    let mut words: usize = 0;
    let mut bytes: usize = 0;
    let mut last_nl: bool = false;
    let mut prev_ws: bool = true;
    proof {
        assert(it.remaining() =~= s.skip(0));
    }
    while i < n
        invariant
            n as int == s.len(),
            s == input@,
            byte_count(s) <= usize::MAX,
            0 <= i <= n,
            it.remaining() == s.skip(i as int),
            newlines as int == newline_count(s.take(i as int)),
            newlines <= i,
            bytes as int == byte_count(s.take(i as int)),
            words as int == word_starts_below(s, i as int),
            words <= i,
            prev_ws == (i == 0 || is_wspace(s[i as int - 1])),
            last_nl == (i > 0 && s[i as int - 1] == '\n'),
        decreases n - i,
    {
        let c: char = match it.next() {
            Some(c) => c,
            None => {
                proof {
                    assert(s.skip(i as int).len() > 0);
                    assert(false);
                }
                ' '
            },
        };
        proof {
            assert(s.skip(i as int)[0] == s[i as int]);
            assert(s.skip(i as int).drop_first() =~= s.skip(i as int + 1));
            lemma_byte_count_take_succ(s, i as int);
            lemma_byte_count_take_le(s, i as int + 1);
        }
        let w = char_width(c);
        bytes = bytes + w;
        if c == '\n' {
            newlines = newlines + 1;
            last_nl = true;
        } else {
            last_nl = false;
        }
        let ws = is_whitespace_char(c);
        if !ws && prev_ws {
            words = words + 1;
        }
        prev_ws = ws;
        i = i + 1;
    }
    proof {
        assert(s.take(n as int) =~= s);
    }
    let lines: usize = if i == 0 {
        0
    } else if last_nl {
        newlines
    } else {
        proof {
            assert(newline_count(s) == newline_count(s.drop_last()));
            lemma_newline_count_le(s.drop_last());
        }
        newlines + 1
    };
    (lines, words, i, bytes)
}

/// The counts of one source: its name and the four metrics, a disabled
/// metric standing at zero.
#[derive(Debug)]
pub struct WordCount {
    pub filename: String,
    pub bytes: usize,
    pub chars: usize,
    pub lines: usize,
    pub words: usize,
}

impl WordCount {
    /// Counts the enabled metrics of one source's text; a metric that the
    /// request leaves disabled is recorded as zero.
    pub fn parse(filename: String, input: &str, args: &Args) -> (r: WordCount)
        requires
            byte_count(input@) <= usize::MAX,
        ensures
            r.filename == filename,
            r.lines as int == if args.lines {
                line_count(input@)
            } else {
                0
            },
            r.words as int == if args.words {
                word_count(input@)
            } else {
                0
            },
            r.chars as int == if args.chars {
                input@.len() as int
            } else {
                0
            },
            r.bytes as int == if args.bytes {
                byte_count(input@)
            } else {
                0
            },
    {
        let (lines, words, chars, bytes) = scan(input);
        WordCount {
            filename,
            bytes: if args.bytes {
                bytes
            } else {
                0
            },
            chars: if args.chars {
                chars
            } else {
                0
            },
            lines: if args.lines {
                lines
            } else {
                0
            },
            words: if args.words {
                words
            } else {
                0
            },
        }
    }
}

/// Element-wise sums (lines, words, characters, bytes) over the successful
/// results; failures contribute nothing.
pub open spec fn sum_counts(rs: Seq<Result<WordCount, String>>) -> (int, int, int, int)
    decreases rs.len(),
{
    if rs.len() == 0 {
        (0int, 0int, 0int, 0int)
    } else {
        let p = sum_counts(rs.drop_last());
        match rs.last() {
            Ok(w) => (p.0 + w.lines, p.1 + w.words, p.2 + w.chars, p.3 + w.bytes),
            Err(_) => p,
        }
    }
}

pub proof fn lemma_sum_counts_take_succ(rs: Seq<Result<WordCount, String>>, i: int)
    requires
        0 <= i < rs.len(),
    ensures
        sum_counts(rs.take(i + 1)) == match rs[i] {
            Ok(w) => (
                sum_counts(rs.take(i)).0 + w.lines,
                sum_counts(rs.take(i)).1 + w.words,
                sum_counts(rs.take(i)).2 + w.chars,
                sum_counts(rs.take(i)).3 + w.bytes,
            ),
            Err(_) => sum_counts(rs.take(i)),
        },
{
    assert(rs.take(i + 1).drop_last() =~= rs.take(i));
    assert(rs.take(i + 1).last() == rs[i]);
}

pub proof fn lemma_sum_counts_take_le(rs: Seq<Result<WordCount, String>>, i: int)
    requires
        0 <= i <= rs.len(),
    ensures
        0 <= sum_counts(rs.take(i)).0 <= sum_counts(rs).0,
        0 <= sum_counts(rs.take(i)).1 <= sum_counts(rs).1,
        0 <= sum_counts(rs.take(i)).2 <= sum_counts(rs).2,
        0 <= sum_counts(rs.take(i)).3 <= sum_counts(rs).3,
    decreases rs.len() - i, i,
{
    if i == rs.len() {
        assert(rs.take(i) =~= rs);
        lemma_sum_counts_nonneg(rs);
    } else {
        lemma_sum_counts_take_succ(rs, i);
        lemma_sum_counts_take_le(rs, i + 1);
        lemma_sum_counts_nonneg(rs.take(i));
    }
}

pub proof fn lemma_sum_counts_nonneg(rs: Seq<Result<WordCount, String>>)
    ensures
        0 <= sum_counts(rs).0,
        0 <= sum_counts(rs).1,
        0 <= sum_counts(rs).2,
        0 <= sum_counts(rs).3,
    decreases rs.len(),
{
    if rs.len() > 0 {
        lemma_sum_counts_nonneg(rs.drop_last());
    }
}

/// Sums the counts of all successful results into one row named "total":
/// each of its four fields is the element-wise sum over the successes.
pub fn total(results: &[Result<WordCount, String>]) -> (r: WordCount)
    requires
        sum_counts(results@).0 <= usize::MAX,
        sum_counts(results@).1 <= usize::MAX,
        sum_counts(results@).2 <= usize::MAX,
        sum_counts(results@).3 <= usize::MAX,
    ensures
        r.lines as int == sum_counts(results@).0,
        r.words as int == sum_counts(results@).1,
        r.chars as int == sum_counts(results@).2,
        r.bytes as int == sum_counts(results@).3,
        r.filename@ == "total"@,
{
    let ghost rs = results@;
    let mut lines: usize = 0;
    let mut words: usize = 0;
    let mut chars: usize = 0;
    let mut bytes: usize = 0;
    let mut i: usize = 0;
    while i < results.len()
        invariant
            rs == results@,
            0 <= i <= rs.len(),
            sum_counts(rs).0 <= usize::MAX,
            sum_counts(rs).1 <= usize::MAX,
            sum_counts(rs).2 <= usize::MAX,
            sum_counts(rs).3 <= usize::MAX,
            lines as int == sum_counts(rs.take(i as int)).0,
            words as int == sum_counts(rs.take(i as int)).1,
            chars as int == sum_counts(rs.take(i as int)).2,
            bytes as int == sum_counts(rs.take(i as int)).3,
        decreases rs.len() - i,
    {
        proof {
            lemma_sum_counts_take_succ(rs, i as int);
            lemma_sum_counts_take_le(rs, i as int + 1);
        }
        match &results[i] {
            Ok(w) => {
                lines = lines + w.lines;
                words = words + w.words;
                chars = chars + w.chars;
                bytes = bytes + w.bytes;
            },
            Err(_) => {},
        }
        i = i + 1;
    }
    proof {
        assert(rs.take(rs.len() as int) =~= rs);
    }
    let filename: String = "total".to_owned();
    WordCount { filename, bytes, chars, lines, words }
}

} // verus!
