//! Parsing the command-line tokens into a request.
//!
//! A token whose UTF-8 form is longer than one byte and does not start with
//! `-` is a file operand; every other token selects options. An option
//! token starting with `--` must be one of the fixed long options; any
//! other option token is read as a cluster of short flags after its leading
//! `-`, so a bare `-` selects nothing. The scan stops at the first `--help`
//! or unknown option.

use vstd::prelude::*;

verus! {

use crate::counts::byte_count;
use crate::counts::char_width;
use crate::counts::lemma_byte_count_vs_len;
use crate::counts::utf8_width;
use vstd::string::StrSliceExecFns;

/// The request built from the command-line tokens: the file operands in
/// the order given, and one flag per metric.
#[derive(Debug)]
pub struct Args {
    pub files: Vec<String>,
    pub bytes: bool,
    pub chars: bool,
    pub lines: bool,
    pub words: bool,
}

/// What parsing the tokens settles on: a request, a plea for the usage
/// text, or the first offending option.
#[derive(Debug)]
pub enum ParseResult {
    Parsed(Args),
    Help,
    UnrecognizedOption(String),
    InvalidOption(char),
}

/// A file operand: more than one byte long and not starting with `-`.
pub open spec fn is_operand(t: Seq<char>) -> bool {
    byte_count(t) > 1 && t[0] != '-'
}

/// Tokens of at most one byte that do not start with `-` cannot be read as
/// an option cluster; the parser does not accept them.
pub open spec fn tok_panics(t: Seq<char>) -> bool {
    byte_count(t) <= 1 && (t.len() == 0 || t[0] != '-')
}

/// The file operands among the tokens, in order.
pub open spec fn operands_of(toks: Seq<Seq<char>>) -> Seq<Seq<char>>
    decreases toks.len(),
{
    if toks.len() == 0 {
        Seq::empty()
    } else if is_operand(toks.last()) {
        operands_of(toks.drop_last()).push(toks.last())
    } else {
        operands_of(toks.drop_last())
    }
}

/// The option tokens among the tokens, in order.
pub open spec fn options_of(toks: Seq<Seq<char>>) -> Seq<Seq<char>>
    decreases toks.len(),
{
    if toks.len() == 0 {
        Seq::empty()
    } else if is_operand(toks.last()) {
        options_of(toks.drop_last())
    } else {
        options_of(toks.drop_last()).push(toks.last())
    }
}

/// An option token in long form, `--` and more.
pub open spec fn is_long(t: Seq<char>) -> bool {
    t.len() >= 2 && t[0] == '-' && t[1] == '-'
}

/// The characters accepted in a cluster of short flags.
pub open spec fn is_flag_char(c: char) -> bool {
    c == 'c' || c == 'm' || c == 'l' || c == 'w'
}

/// First position at or after `j` holding a character that is no short
/// flag, or the token's length when there is none.
pub open spec fn first_bad_from(t: Seq<char>, j: int) -> int
    decreases t.len() - j,
{
    if j < 0 || j >= t.len() {
        t.len() as int
    } else if !is_flag_char(t[j]) {
        j
    } else {
        first_bad_from(t, j + 1)
    }
}

/// The token ends the scan: a long option that is none of the four metric
/// selectors (`--help` among the rest), or a cluster with a bad character.
pub open spec fn tok_stops(t: Seq<char>) -> bool {
    if is_long(t) {
        !(t == "--bytes"@ || t == "--chars"@ || t == "--lines"@ || t == "--words"@)
    } else {
        first_bad_from(t, 1) < t.len()
    }
}

/// Index of the first stopping token at or after `k`, or the length.
pub open spec fn first_stop_from(opts: Seq<Seq<char>>, k: int) -> int
    decreases opts.len() - k,
{
    if k < 0 || k >= opts.len() {
        opts.len() as int
    } else if tok_stops(opts[k]) {
        k
    } else {
        first_stop_from(opts, k + 1)
    }
}

/// Flag state as (bytes, chars, lines, words), with one short flag applied.
pub open spec fn short_step(c: char, f: (bool, bool, bool, bool)) -> (bool, bool, bool, bool) {
    if c == 'c' {
        (true, f.1, f.2, f.3)
    } else if c == 'm' {
        (f.0, true, f.2, f.3)
    } else if c == 'l' {
        (f.0, f.1, true, f.3)
    } else if c == 'w' {
        (f.0, f.1, f.2, true)
    } else {
        f
    }
}

/// Flag state after the cluster's characters before position `j`.
pub open spec fn apply_short_upto(t: Seq<char>, j: int, f: (bool, bool, bool, bool)) -> (
    bool,
    bool,
    bool,
    bool,
)
    decreases j,
{
    if j <= 1 {
        f
    } else {
        short_step(t[j - 1], apply_short_upto(t, j - 1, f))
    }
}

/// Flag state after one whole option token.
pub open spec fn apply_token(t: Seq<char>, f: (bool, bool, bool, bool)) -> (
    bool,
    bool,
    bool,
    bool,
) {
    if is_long(t) {
        if t == "--bytes"@ {
            (true, f.1, f.2, f.3)
        } else if t == "--chars"@ {
            (f.0, true, f.2, f.3)
        } else if t == "--lines"@ {
            (f.0, f.1, true, f.3)
        } else if t == "--words"@ {
            (f.0, f.1, f.2, true)
        } else {
            f
        }
    } else {
        apply_short_upto(t, t.len() as int, f)
    }
}

/// Flag state after a sequence of option tokens, applied left to right.
pub open spec fn apply_tokens(opts: Seq<Seq<char>>, f: (bool, bool, bool, bool)) -> (
    bool,
    bool,
    bool,
    bool,
)
    decreases opts.len(),
{
    if opts.len() == 0 {
        f
    } else {
        apply_token(opts.last(), apply_tokens(opts.drop_last(), f))
    }
}

/// The flags a request ends up with: the fixed default of bytes, lines and
/// words when no option token was given, otherwise the accumulation over
/// all option tokens.
pub open spec fn final_flags(opts: Seq<Seq<char>>) -> (bool, bool, bool, bool) {
    if opts.len() == 0 {
        (true, false, true, true)
    } else {
        apply_tokens(opts, (false, false, false, false))
    }
}

/// The request matching the tokens: the operands as files, the flags as
/// `final_flags` settles them.
pub open spec fn args_match(a: Args, toks: Seq<Seq<char>>) -> bool {
    let f = final_flags(options_of(toks));
    &&& a.files.deep_view() == operands_of(toks)
    &&& a.bytes == f.0
    &&& a.chars == f.1
    &&& a.lines == f.2
    &&& a.words == f.3
}

/// What `Args::parse` returns for the tokens: a request when no option
/// token stops the scan, otherwise the first stopping token decides — a
/// short cluster reports its first bad character, `--help` asks for the
/// usage text, and any other long option is unrecognized.
pub open spec fn parse_result_matches(toks: Seq<Seq<char>>, r: ParseResult) -> bool {
    let opts = options_of(toks);
    let k = first_stop_from(opts, 0);
    if k == opts.len() {
        r matches ParseResult::Parsed(a) && args_match(a, toks)
    } else if !is_long(opts[k]) {
        r matches ParseResult::InvalidOption(c) && c == opts[k][first_bad_from(opts[k], 1)]
    } else if opts[k] == "--help"@ {
        r matches ParseResult::Help
    } else {
        r matches ParseResult::UnrecognizedOption(o) && o@ == opts[k]
    }
}

proof fn lemma_options_operands_concat(a: Seq<Seq<char>>, b: Seq<Seq<char>>)
    ensures
        options_of(a + b) == options_of(a) + options_of(b),
        operands_of(a + b) == operands_of(a) + operands_of(b),
    decreases b.len(),
{
    if b.len() == 0 {
        assert(a + b =~= a);
        assert(options_of(a) + options_of(b) =~= options_of(a));
        assert(operands_of(a) + operands_of(b) =~= operands_of(a));
    } else {
        lemma_options_operands_concat(a, b.drop_last());
        assert((a + b).drop_last() =~= a + b.drop_last());
        assert((a + b).last() == b.last());
        if is_operand(b.last()) {
            assert(operands_of(a) + operands_of(b) =~= (operands_of(a) + operands_of(
                b.drop_last(),
            )).push(b.last()));
        } else {
            assert(options_of(a) + options_of(b) =~= (options_of(a) + options_of(
                b.drop_last(),
            )).push(b.last()));
        }
    }
}

proof fn lemma_first_stop_from_at(opts: Seq<Seq<char>>, a: int, m: int)
    requires
        0 <= a <= m <= opts.len(),
        forall|p: int| a <= p < m ==> !tok_stops(#[trigger] opts[p]),
        m == opts.len() || tok_stops(opts[m]),
    ensures
        first_stop_from(opts, a) == m,
    decreases m - a,
{
    if a < m {
        lemma_first_stop_from_at(opts, a + 1, m);
    }
}

proof fn lemma_first_bad_from_at(t: Seq<char>, a: int, j: int)
    requires
        1 <= a <= j <= t.len(),
        forall|p: int| a <= p < j ==> is_flag_char(#[trigger] t[p]),
        j == t.len() || !is_flag_char(t[j]),
    ensures
        first_bad_from(t, a) == j,
    decreases j - a,
{
    if a < j {
        lemma_first_bad_from_at(t, a + 1, j);
    }
}

/// The option token at position `i` of the tokens is the first stopping
/// one when no option token before it stops.
proof fn lemma_stop_here(toks: Seq<Seq<char>>, i: int)
    requires
        0 <= i < toks.len(),
        !is_operand(toks[i]),
        tok_stops(toks[i]),
        forall|p: int|
            0 <= p < options_of(toks.take(i)).len() ==> !tok_stops(
                #[trigger] options_of(toks.take(i))[p],
            ),
    ensures
        0 <= options_of(toks.take(i)).len() < options_of(toks).len(),
        first_stop_from(options_of(toks), 0) == options_of(toks.take(i)).len(),
        options_of(toks)[options_of(toks.take(i)).len() as int] == toks[i],
{
    let pre = options_of(toks.take(i));
    let m = pre.len() as int;
    assert(toks =~= toks.take(i + 1) + toks.skip(i + 1));
    lemma_options_operands_concat(toks.take(i + 1), toks.skip(i + 1));
    assert(toks.take(i + 1).drop_last() =~= toks.take(i));
    assert(toks.take(i + 1).last() == toks[i]);
    assert(options_of(toks.take(i + 1)) == pre.push(toks[i]));
    assert(options_of(toks) == pre.push(toks[i]) + options_of(toks.skip(i + 1)));
    assert(options_of(toks)[m] == toks[i]);
    assert(forall|p: int| 0 <= p < m ==> options_of(toks)[p] == #[trigger] pre[p]);
    lemma_first_stop_from_at(options_of(toks), 0, m);
}

/// Tells a file operand from an option token.
fn is_operand_tok(t: &String) -> (r: bool)
    ensures
        r == is_operand(t@),
{
    let n = t.as_str().unicode_len();
    if n == 0 {
        proof {
            assert(t@ =~= Seq::<char>::empty());
        }
        return false;
    }
    let c0 = t.as_str().get_char(0);
    if c0 == '-' {
        return false;
    }
    if n > 1 {
        proof {
            lemma_byte_count_vs_len(t@);
            assert(byte_count(t@) >= t@.len() > 1);
        }
        true
    } else {
        let w = char_width(c0);
        proof {
            assert(t@.drop_last() =~= Seq::<char>::empty());
            assert(byte_count(t@.drop_last()) == 0);
            assert(t@.last() == t@[0]);
            assert(byte_count(t@) == utf8_width(t@[0]));
        }
        w > 1
    }
}

/// Compares a token against a fixed option spelling.
fn str_eq_string(tok: &String, lit: &str) -> (r: bool)
    ensures
        r == (tok@ == lit@),
{
    let s: String = lit.to_owned();
    *tok == s
}

impl Args {
    /// Splits the tokens into file operands and options, accumulates the
    /// metric flags, and stops at the first `--help` or offending option.
    /// With no option token at all, the default metrics are bytes, lines
    /// and words.
    pub fn parse(args: Vec<String>) -> (r: ParseResult)
        requires
            forall|k: int|
                0 <= k < args.deep_view().len() ==> !tok_panics(#[trigger] args.deep_view()[k]),
        ensures
            parse_result_matches(args.deep_view(), r),
    {
        let ghost toks = args.deep_view();
        proof {
            assert(forall|k: int| 0 <= k < toks.len() ==> toks[k] == #[trigger] args@[k]@);
        }
        let mut files: Vec<String> = Vec::new();
        let mut bytes: bool = false;
        let mut chars: bool = false;
        let mut lines: bool = false;
        let mut words: bool = false;
        let mut saw_option: bool = false;
        let mut idx: usize = 0;
        while idx < args.len()
            invariant
                toks == args.deep_view(),
                toks.len() == args@.len(),
                forall|k: int| 0 <= k < toks.len() ==> toks[k] == #[trigger] args@[k]@,
                forall|k: int| 0 <= k < toks.len() ==> !tok_panics(#[trigger] toks[k]),
                0 <= idx <= args@.len(),
                files.deep_view() == operands_of(toks.take(idx as int)),
                saw_option == (options_of(toks.take(idx as int)).len() != 0),
                forall|p: int|
                    0 <= p < options_of(toks.take(idx as int)).len() ==> !tok_stops(
                        #[trigger] options_of(toks.take(idx as int))[p],
                    ),
                (bytes, chars, lines, words) == apply_tokens(
                    options_of(toks.take(idx as int)),
                    (false, false, false, false),
                ),
            decreases args@.len() - idx,
        {
            let ghost pre = toks.take(idx as int);
            let ghost t = toks[idx as int];
            proof {
                assert(toks.take(idx as int + 1).drop_last() =~= pre);
                assert(toks.take(idx as int + 1).last() == t);
            }
            let tok: &String = &args[idx];
            if is_operand_tok(tok) {
                let ghost old_dv = files.deep_view();
                files.push(tok.clone());
                proof {
                    assert(files.deep_view() =~= old_dv.push(t));
                    assert(operands_of(toks.take(idx as int + 1)) == operands_of(pre).push(t));
                    assert(options_of(toks.take(idx as int + 1)) == options_of(pre));
                }
            } else {
                saw_option = true;
                proof {
                    assert(operands_of(toks.take(idx as int + 1)) == operands_of(pre));
                    assert(options_of(toks.take(idx as int + 1)) == options_of(pre).push(t));
                    // an option token the requires admits starts with '-'
                    if t.len() == 0 {
                        assert(tok_panics(t));
                        assert(false);
                    }
                    if t[0] != '-' {
                        assert(byte_count(t) <= 1);
                        assert(tok_panics(t));
                        assert(false);
                    }
                }
                let ghost f0 = (bytes, chars, lines, words);
                let n = tok.as_str().unicode_len();
                if n >= 2 && tok.as_str().get_char(1) == '-' {
                    if str_eq_string(tok, "--bytes") {
                        bytes = true;
                    } else if str_eq_string(tok, "--chars") {
                        chars = true;
                    } else if str_eq_string(tok, "--lines") {
                        lines = true;
                    } else if str_eq_string(tok, "--words") {
                        words = true;
                    } else if str_eq_string(tok, "--help") {
                        proof {
                            lemma_stop_here(toks, idx as int);
                        }
                        return ParseResult::Help;
                    } else {
                        proof {
                            lemma_stop_here(toks, idx as int);
                        }
                        return ParseResult::UnrecognizedOption(tok.clone());
                    }
                } else {
                    let mut j: usize = 1;
                    #[verifier::loop_isolation(false)]
                    while j < n
                        invariant
                            tok@ == t,
                            n as int == t.len(),
                            1 <= j <= n,
                            (bytes, chars, lines, words) == apply_short_upto(t, j as int, f0),
                            forall|p: int| 1 <= p < j ==> is_flag_char(#[trigger] t[p]),
                        decreases n - j,
                    {
                        let c = tok.as_str().get_char(j);
                        if c == 'c' {
                            bytes = true;
                        } else if c == 'm' {
                            chars = true;
                        } else if c == 'l' {
                            lines = true;
                        } else if c == 'w' {
                            words = true;
                        } else {
                            proof {
                                lemma_first_bad_from_at(t, 1, j as int);
                                assert(tok_stops(t));
                                lemma_stop_here(toks, idx as int);
                            }
                            return ParseResult::InvalidOption(c);
                        }
                        j = j + 1;
                    }
                    proof {
                        if n >= 1 {
                            lemma_first_bad_from_at(t, 1, n as int);
                        }
                        assert(!tok_stops(t));
                        assert((bytes, chars, lines, words) == apply_token(t, f0));
                    }
                }
                proof {
                    assert((bytes, chars, lines, words) == apply_token(t, f0));
                    assert(options_of(pre).push(t).drop_last() =~= options_of(pre));
                    assert(apply_tokens(options_of(pre).push(t), (false, false, false, false))
                        == apply_token(
                        t,
                        apply_tokens(options_of(pre), (false, false, false, false)),
                    ));
                }
            }
            idx = idx + 1;
        }
        proof {
            assert(toks.take(args@.len() as int) =~= toks);
            lemma_first_stop_from_at(
                options_of(toks),
                0,
                options_of(toks).len() as int,
            );
        }
        if !saw_option {
            bytes = true;
            lines = true;
            words = true;
        }
        ParseResult::Parsed(Args { files, bytes, chars, lines, words })
    }
}

} // verus!
