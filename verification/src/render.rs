//! Columnar output: decimal digits, right-aligned cells, one row per result.

use vstd::prelude::*;

verus! {

use crate::args::Args;
use crate::counts::WordCount;
use crate::counts::sum_counts;
use crate::counts::total;
use vstd::string::StrSliceExecFns;

/// The decimal digit character for one digit value.
pub open spec fn digit_char(d: int) -> char {
    if d == 0 {
        '0'
    } else if d == 1 {
        '1'
    } else if d == 2 {
        '2'
    } else if d == 3 {
        '3'
    } else if d == 4 {
        '4'
    } else if d == 5 {
        '5'
    } else if d == 6 {
        '6'
    } else if d == 7 {
        '7'
    } else if d == 8 {
        '8'
    } else {
        '9'
    }
}

/// The decimal digits of a number, most significant first.
pub open spec fn spec_dec(n: int) -> Seq<char>
    decreases n,
{
    if n < 10 {
        seq![digit_char(n)]
    } else {
        spec_dec(n / 10).push(digit_char(n % 10))
    }
}

fn digit(d: usize) -> (c: char)
    requires
        d < 10,
    ensures
        c == digit_char(d as int),
{
    if d == 0 {
        '0'
    } else if d == 1 {
        '1'
    } else if d == 2 {
        '2'
    } else if d == 3 {
        '3'
    } else if d == 4 {
        '4'
    } else if d == 5 {
        '5'
    } else if d == 6 {
        '6'
    } else if d == 7 {
        '7'
    } else if d == 8 {
        '8'
    } else {
        '9'
    }
}

/// The decimal digits of a number as characters, most significant first.
pub fn to_decimal(n: usize) -> (r: Vec<char>)
    ensures
        r@ == spec_dec(n as int),
    decreases n,
{
    if n < 10 {
        let mut v: Vec<char> = Vec::new();
        v.push(digit(n));
        proof {
            assert(v@ =~= spec_dec(n as int));
        }
        v
    } else {
        let mut v = to_decimal(n / 10);
        v.push(digit(n % 10));
        v
    }
}

/// A run of spaces, empty for non-positive lengths.
pub open spec fn spec_spaces(k: int) -> Seq<char> {
    Seq::new(
        if k <= 0 {
            0nat
        } else {
            k as nat
        },
        |i: int| ' ',
    )
}

/// One printed value: right-aligned to the column width, then one space.
pub open spec fn spec_cell(n: int, w: int) -> Seq<char> {
    spec_spaces(w - spec_dec(n).len()) + spec_dec(n) + seq![' ']
}

/// One row of counts: the enabled metrics in the fixed order lines, words,
/// characters, bytes, each as a cell, then the source name and a newline.
pub open spec fn spec_count_row(
    lines: int,
    words: int,
    chars: int,
    bytes: int,
    name: Seq<char>,
    a: Args,
    w: int,
) -> Seq<char> {
    (if a.lines {
        spec_cell(lines, w)
    } else {
        Seq::<char>::empty()
    }) + (if a.words {
        spec_cell(words, w)
    } else {
        Seq::<char>::empty()
    }) + (if a.chars {
        spec_cell(chars, w)
    } else {
        Seq::<char>::empty()
    }) + (if a.bytes {
        spec_cell(bytes, w)
    } else {
        Seq::<char>::empty()
    }) + name + seq!['\n']
}

/// One rendered result: a count row for a success, the error message
/// verbatim on a line of its own for a failure.
pub open spec fn spec_row(res: Result<WordCount, String>, a: Args, w: int) -> Seq<char> {
    match res {
        Ok(wc) => spec_count_row(
            wc.lines as int,
            wc.words as int,
            wc.chars as int,
            wc.bytes as int,
            wc.filename@,
            a,
            w,
        ),
        Err(e) => e@ + seq!['\n'],
    }
}

pub open spec fn spec_rows(rs: Seq<Result<WordCount, String>>, a: Args, w: int) -> Seq<char>
    decreases rs.len(),
{
    if rs.len() == 0 {
        Seq::empty()
    } else {
        spec_rows(rs.drop_last(), a, w) + spec_row(rs.last(), a, w)
    }
}

/// The largest of the four totals; its decimal length is the column width,
/// whether or not its metric is displayed.
pub open spec fn spec_max_total(rs: Seq<Result<WordCount, String>>) -> int {
    let t = sum_counts(rs);
    let m1 = if t.0 >= t.1 {
        t.0
    } else {
        t.1
    };
    let m2 = if m1 >= t.2 {
        m1
    } else {
        t.2
    };
    if m2 >= t.3 {
        m2
    } else {
        t.3
    }
}

/// The whole report: one row per result in order, and, when more than one
/// source was requested, a final row named "total" holding the sums.
pub open spec fn spec_output(rs: Seq<Result<WordCount, String>>, a: Args) -> Seq<char> {
    let w = spec_dec(spec_max_total(rs)).len() as int;
    let t = sum_counts(rs);
    spec_rows(rs, a, w) + if rs.len() > 1 {
        spec_count_row(t.0, t.1, t.2, t.3, "total"@, a, w)
    } else {
        Seq::<char>::empty()
    }
}

/// Total-row law: the report carries a final row named "total", holding
/// the element-wise sums over the successful rows, exactly when more than
/// one source was requested; with a single source the report is the rows
/// alone.
pub proof fn lemma_total_row(rs: Seq<Result<WordCount, String>>, a: Args)
    ensures
        rs.len() > 1 ==> spec_output(rs, a) == spec_rows(
            rs,
            a,
            spec_dec(spec_max_total(rs)).len() as int,
        ) + spec_count_row(
            sum_counts(rs).0,
            sum_counts(rs).1,
            sum_counts(rs).2,
            sum_counts(rs).3,
            "total"@,
            a,
            spec_dec(spec_max_total(rs)).len() as int,
        ),
        rs.len() <= 1 ==> spec_output(rs, a) == spec_rows(
            rs,
            a,
            spec_dec(spec_max_total(rs)).len() as int,
        ),
{
    if rs.len() <= 1 {
        let w = spec_dec(spec_max_total(rs)).len() as int;
        assert(spec_rows(rs, a, w) + Seq::<char>::empty() =~= spec_rows(rs, a, w));
    }
}

/// Relies on String implementing FromIterator over char: collecting the
/// characters yields the string of exactly those characters in order.
#[verifier::external_body]
pub(crate) fn chars_to_string(v: &Vec<char>) -> (r: String)
    ensures
        r@ == v@,
{
    v.iter().collect()
}

/// Appends the characters of a string slice.
fn push_chars_of(out: &mut Vec<char>, s: &str)
    ensures
        final(out)@ == old(out)@ + s@,
{
    let n = s.unicode_len();
    let mut j: usize = 0;
    while j < n
        invariant
            n as int == s@.len(),
            0 <= j <= n,
            out@ == old(out)@ + s@.take(j as int),
        decreases n - j,
    {
        let c = s.get_char(j);
        out.push(c);
        proof {
            assert(old(out)@ + s@.take(j as int + 1) =~= (old(out)@ + s@.take(j as int)).push(
                s@[j as int],
            ));
        }
        j = j + 1;
    }
    proof {
        assert(s@.take(n as int) =~= s@);
    }
}

/// Appends every character of the vector.
fn push_all(out: &mut Vec<char>, v: &Vec<char>)
    ensures
        final(out)@ == old(out)@ + v@,
{
    let n = v.len();
    let mut j: usize = 0;
    while j < n
        invariant
            n == v@.len(),
            0 <= j <= n,
            out@ == old(out)@ + v@.take(j as int),
        decreases n - j,
    {
        out.push(v[j]);
        proof {
            assert(old(out)@ + v@.take(j as int + 1) =~= (old(out)@ + v@.take(j as int)).push(
                v@[j as int],
            ));
        }
        j = j + 1;
    }
    proof {
        assert(v@.take(n as int) =~= v@);
    }
}

/// Appends one right-aligned cell.
fn push_cell(out: &mut Vec<char>, n: usize, w: usize)
    ensures
        final(out)@ == old(out)@ + spec_cell(n as int, w as int),
{
    let digits = to_decimal(n);
    let d = digits.len();
    let mut k: usize = d;
    #[verifier::loop_isolation(false)]
    while k < w
        invariant
            d <= k,
            k <= w || k == d,
            out@ == old(out)@ + spec_spaces(k as int - d as int),
        decreases w - k,
    {
        out.push(' ');
        proof {
            assert(spec_spaces(k as int + 1 - d as int) =~= spec_spaces(k as int - d as int).push(
                ' ',
            ));
        }
        k = k + 1;
    }
    proof {
        assert(spec_spaces(k as int - d as int) =~= spec_spaces(
            w as int - spec_dec(n as int).len(),
        ));
    }
    push_all(out, &digits);
    out.push(' ');
    proof {
        assert(out@ =~= old(out)@ + spec_cell(n as int, w as int));
    }
}

/// Appends one row of counts for a source.
#[verifier::rlimit(50)]
fn push_count_row(
    out: &mut Vec<char>,
    lines: usize,
    words: usize,
    chars: usize,
    bytes: usize,
    name: &str,
    a: &Args,
    w: usize,
)
    ensures
        final(out)@ == old(out)@ + spec_count_row(
            lines as int,
            words as int,
            chars as int,
            bytes as int,
            name@,
            *a,
            w as int,
        ),
{
    let ghost base = out@;
    let ghost c1 = if a.lines {
        spec_cell(lines as int, w as int)
    } else {
        Seq::<char>::empty()
    };
    let ghost c2 = if a.words {
        spec_cell(words as int, w as int)
    } else {
        Seq::<char>::empty()
    };
    let ghost c3 = if a.chars {
        spec_cell(chars as int, w as int)
    } else {
        Seq::<char>::empty()
    };
    let ghost c4 = if a.bytes {
        spec_cell(bytes as int, w as int)
    } else {
        Seq::<char>::empty()
    };
    if a.lines {
        push_cell(out, lines, w);
    }
    proof {
        assert(out@ =~= base + c1);
    }
    if a.words {
        push_cell(out, words, w);
    }
    proof {
        assert(out@ =~= base + c1 + c2);
    }
    if a.chars {
        push_cell(out, chars, w);
    }
    proof {
        assert(out@ =~= base + c1 + c2 + c3);
    }
    if a.bytes {
        push_cell(out, bytes, w);
    }
    proof {
        assert(out@ =~= base + c1 + c2 + c3 + c4);
    }
    push_chars_of(out, name);
    out.push('\n');
    proof {
        assert(out@ =~= base + (c1 + c2 + c3 + c4 + name@ + seq!['\n']));
    }
}

impl WordCount {
    /// Renders this source's row: the enabled metrics right-aligned to the
    /// given column width, then the source name.
    pub fn render_row(&self, offset: usize, args: &Args) -> (r: String)
        ensures
            r@ == spec_count_row(
                self.lines as int,
                self.words as int,
                self.chars as int,
                self.bytes as int,
                self.filename@,
                *args,
                offset as int,
            ),
    {
        let mut out: Vec<char> = Vec::new();
        push_count_row(
            &mut out,
            self.lines,
            self.words,
            self.chars,
            self.bytes,
            self.filename.as_str(),
            args,
            offset,
        );
        proof {
            assert(out@ =~= spec_count_row(
                self.lines as int,
                self.words as int,
                self.chars as int,
                self.bytes as int,
                self.filename@,
                *args,
                offset as int,
            ));
        }
        chars_to_string(&out)
    }
}

/// Renders the whole report: every result in order, sharing one column
/// width taken from the largest total, with a final "total" row exactly
/// when more than one source was requested.
pub fn render(results: &[Result<WordCount, String>], args: &Args) -> (out: String)
    requires
        sum_counts(results@).0 <= usize::MAX,
        sum_counts(results@).1 <= usize::MAX,
        sum_counts(results@).2 <= usize::MAX,
        sum_counts(results@).3 <= usize::MAX,
    ensures
        out@ == spec_output(results@, *args),
{
    let ghost rs = results@;
    let t = total(results);
    let m1 = if t.lines >= t.words {
        t.lines
    } else {
        t.words
    };
    let m2 = if m1 >= t.chars {
        m1
    } else {
        t.chars
    };
    let m = if m2 >= t.bytes {
        m2
    } else {
        t.bytes
    };
    proof {
        assert(m as int == spec_max_total(rs));
    }
    let digits = to_decimal(m);
    let w = digits.len();
    let mut buf: Vec<char> = Vec::new();
    let mut i: usize = 0;
    #[verifier::loop_isolation(false)]
    while i < results.len()
        invariant
            0 <= i <= rs.len(),
            buf@ == spec_rows(rs.take(i as int), *args, w as int),
        decreases rs.len() - i,
    {
        proof {
            assert(rs.take(i as int + 1).drop_last() =~= rs.take(i as int));
            assert(rs.take(i as int + 1).last() == rs[i as int]);
        }
        match &results[i] {
            Ok(wc) => {
                push_count_row(
                    &mut buf,
                    wc.lines,
                    wc.words,
                    wc.chars,
                    wc.bytes,
                    wc.filename.as_str(),
                    args,
                    w,
                );
            },
            Err(e) => {
                push_chars_of(&mut buf, e.as_str());
                buf.push('\n');
                proof {
                    assert(buf@ =~= spec_rows(rs.take(i as int), *args, w as int) + spec_row(
                        rs[i as int],
                        *args,
                        w as int,
                    ));
                }
            },
        }
        i = i + 1;
    }
    proof {
        assert(rs.take(rs.len() as int) =~= rs);
    }
    if results.len() > 1 {
        push_count_row(&mut buf, t.lines, t.words, t.chars, t.bytes, t.filename.as_str(), args, w);
    } else {
        proof {
            assert(buf@ =~= spec_output(rs, *args));
        }
    }
    chars_to_string(&buf)
}

/// The failure line for a source that could not be opened.
pub fn open_error_message(name: &str) -> (r: String)
    ensures
        r@ == "wc: "@ + name@ + ": No such file or directory"@,
{
    let mut out: Vec<char> = Vec::new();
    push_chars_of(&mut out, "wc: ");
    push_chars_of(&mut out, name);
    push_chars_of(&mut out, ": No such file or directory");
    proof {
        assert(out@ =~= "wc: "@ + name@ + ": No such file or directory"@);
    }
    chars_to_string(&out)
}

/// The error line for a long option outside the fixed vocabulary.
pub fn unrecognized_option_message(opt: &str) -> (r: String)
    ensures
        r@ == "wc: unrecognized option '"@ + opt@ + "'"@,
{
    let mut out: Vec<char> = Vec::new();
    push_chars_of(&mut out, "wc: unrecognized option '");
    push_chars_of(&mut out, opt);
    push_chars_of(&mut out, "'");
    proof {
        assert(out@ =~= "wc: unrecognized option '"@ + opt@ + "'"@);
    }
    chars_to_string(&out)
}

/// The error line for a short-option character outside the vocabulary.
pub fn invalid_option_message(c: char) -> (r: String)
    ensures
        r@ == "wc: invalid option -- '"@ + seq![c] + "'"@,
{
    let mut out: Vec<char> = Vec::new();
    push_chars_of(&mut out, "wc: invalid option -- '");
    out.push(c);
    push_chars_of(&mut out, "'");
    proof {
        assert(out@ =~= "wc: invalid option -- '"@ + seq![c] + "'"@);
    }
    chars_to_string(&out)
}

} // verus!
