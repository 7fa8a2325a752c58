//! The line parser: turns one raw history line into a timestamped command
//! record or a typed rejection.
//!
//! Grammar, applied greedily and deterministically from the left:
//! optional whitespace, then an optional shell-assigned sequence number,
//! then an optional numeric timestamp, then the command text, the numeric
//! tokens each separated from what follows by at least one whitespace
//! character. A single whole number before the command is the timestamp;
//! with two the first is the (ignored) sequence number. A line with no
//! leading numeric token at all degenerates to command text only, with
//! timestamp zero standing for "not provided". A line that is all
//! whitespace is a skippable blank; one with nothing left after the
//! numeric tokens, or whose timestamp does not fit in 32 bits, is
//! malformed.

use vstd::prelude::*;

use crate::models::NewCommand;
use crate::types::Error;

verus! {

/// The whitespace characters the grammar recognizes.
pub open spec fn is_ws_char(c: char) -> bool {
    c == ' ' || c == '\t' || c == '\r' || c == '\n'
}

/// The decimal digits.
pub open spec fn is_digit_char(c: char) -> bool {
    '0' as u32 <= c as u32 && c as u32 <= '9' as u32
}

/// Index of the first non-whitespace character at or after `i`.
pub open spec fn skip_ws_idx(s: Seq<char>, i: int) -> int
    recommends
        0 <= i <= s.len(),
    decreases s.len() - i,
{
    if i < s.len() && is_ws_char(s[i]) {
        skip_ws_idx(s, i + 1)
    } else {
        i
    }
}

/// Index of the first non-digit character at or after `i`.
pub open spec fn skip_digits_idx(s: Seq<char>, i: int) -> int
    recommends
        0 <= i <= s.len(),
    decreases s.len() - i,
{
    if i < s.len() && is_digit_char(s[i]) {
        skip_digits_idx(s, i + 1)
    } else {
        i
    }
}

/// One past the last non-whitespace character strictly before `j`.
pub open spec fn trim_end_idx(s: Seq<char>, j: int) -> int
    recommends
        0 <= j <= s.len(),
    decreases j,
{
    if j > 0 && is_ws_char(s[j - 1]) {
        trim_end_idx(s, j - 1)
    } else {
        j
    }
}

/// The text with surrounding whitespace removed.
pub open spec fn trim_of(s: Seq<char>) -> Seq<char> {
    let a = skip_ws_idx(s, 0);
    let b = trim_end_idx(s, s.len() as int);
    if a <= b {
        s.subrange(a, b)
    } else {
        Seq::empty()
    }
}

/// Value of a run of decimal digits, most significant first.
pub open spec fn digits_val(s: Seq<char>) -> int
    decreases s.len(),
{
    if s.len() == 0 {
        0
    } else {
        digits_val(s.drop_last()) * 10 + (s.last() as u32 - '0' as u32)
    }
}

/// A parsed history line: the timestamp and the trimmed command text.
pub struct ParsedLine {
    pub timestamp: int,
    pub command: Seq<char>,
}

/// What the parser decides about one raw line.
pub enum ParseOutcome {
    Accepted(ParsedLine),
    Blank,
    Malformed,
}

/// Outcome when the timestamp digits are `s[ts_from .. ts_to]` and the
/// command text starts at `cmd_from`.
pub open spec fn accept_at(s: Seq<char>, ts_from: int, ts_to: int, cmd_from: int) -> ParseOutcome {
    let v = digits_val(s.subrange(ts_from, ts_to));
    if v > i32::MAX as int {
        ParseOutcome::Malformed
    } else {
        ParseOutcome::Accepted(
            ParsedLine {
                timestamp: v,
                command: s.subrange(cmd_from, trim_end_idx(s, s.len() as int)),
            },
        )
    }
}

/// The whole grammar as one deterministic function of the line. A line
/// whose text carries no whole leading number is command text only:
/// `accept_at` with an empty digit range, hence timestamp zero.
pub open spec fn parse_spec(s: Seq<char>) -> ParseOutcome {
    let n = s.len() as int;
    let i0 = skip_ws_idx(s, 0);
    if i0 == n {
        ParseOutcome::Blank
    } else if !is_digit_char(s[i0]) {
        accept_at(s, i0, i0, i0)
    } else {
        let d1 = skip_digits_idx(s, i0);
        if d1 == n {
            ParseOutcome::Malformed
        } else if !is_ws_char(s[d1]) {
            accept_at(s, i0, i0, i0)
        } else {
            let w1 = skip_ws_idx(s, d1);
            if w1 == n {
                ParseOutcome::Malformed
            } else if is_digit_char(s[w1]) {
                let d2 = skip_digits_idx(s, w1);
                if d2 == n {
                    ParseOutcome::Malformed
                } else if is_ws_char(s[d2]) {
                    let w2 = skip_ws_idx(s, d2);
                    if w2 == n {
                        ParseOutcome::Malformed
                    } else {
                        accept_at(s, w1, d2, w2)
                    }
                } else {
                    accept_at(s, i0, d1, w1)
                }
            } else {
                accept_at(s, i0, d1, w1)
            }
        }
    }
}

pub proof fn lemma_skip_ws_idx(s: Seq<char>, i: int)
    requires
        0 <= i <= s.len(),
    ensures
        i <= skip_ws_idx(s, i) <= s.len(),
        forall|k: int| i <= k < skip_ws_idx(s, i) ==> is_ws_char(s[k]),
        skip_ws_idx(s, i) == s.len() || !is_ws_char(s[skip_ws_idx(s, i)]),
    decreases s.len() - i,
{
    if i < s.len() && is_ws_char(s[i]) {
        lemma_skip_ws_idx(s, i + 1);
    }
}

pub proof fn lemma_skip_digits_idx(s: Seq<char>, i: int)
    requires
        0 <= i <= s.len(),
    ensures
        i <= skip_digits_idx(s, i) <= s.len(),
        forall|k: int| i <= k < skip_digits_idx(s, i) ==> is_digit_char(s[k]),
        skip_digits_idx(s, i) == s.len() || !is_digit_char(s[skip_digits_idx(s, i)]),
    decreases s.len() - i,
{
    if i < s.len() && is_digit_char(s[i]) {
        lemma_skip_digits_idx(s, i + 1);
    }
}

pub proof fn lemma_trim_end_idx(s: Seq<char>, j: int)
    requires
        0 <= j <= s.len(),
    ensures
        0 <= trim_end_idx(s, j) <= j,
        forall|k: int| trim_end_idx(s, j) <= k < j ==> is_ws_char(s[k]),
        trim_end_idx(s, j) == 0 || !is_ws_char(s[trim_end_idx(s, j) - 1]),
    decreases j,
{
    if j > 0 && is_ws_char(s[j - 1]) {
        lemma_trim_end_idx(s, j - 1);
    }
}

/// A run of digits has a non-negative value.
pub proof fn lemma_digits_val_nonneg(s: Seq<char>)
    requires
        forall|k: int| 0 <= k < s.len() ==> is_digit_char(s[k]),
    ensures
        digits_val(s) >= 0,
    decreases s.len(),
{
    if s.len() > 0 {
        lemma_digits_val_nonneg(s.drop_last());
    }
}

/// Extending a run of digits on the right never shrinks its value.
pub proof fn lemma_digits_val_mono(s: Seq<char>, n: int)
    requires
        forall|k: int| 0 <= k < s.len() ==> is_digit_char(s[k]),
        0 <= n <= s.len(),
    ensures
        digits_val(s.take(n)) <= digits_val(s),
    decreases s.len(),
{
    if n == s.len() {
        assert(s.take(n) =~= s);
    } else {
        assert(forall|k: int| 0 <= k < s.drop_last().len() ==> is_digit_char(s.drop_last()[k]));
        lemma_digits_val_mono(s.drop_last(), n);
        lemma_digits_val_nonneg(s.drop_last());
        assert(s.take(n) =~= s.drop_last().take(n));
    }
}

/// An accepted line carries a non-empty, trimmed command and a timestamp
/// that fits in 32 bits.
pub proof fn lemma_accepted_command(s: Seq<char>)
    requires
        parse_spec(s) is Accepted,
    ensures
        parse_spec(s)->Accepted_0.command.len() > 0,
        trim_of(parse_spec(s)->Accepted_0.command) == parse_spec(s)->Accepted_0.command,
        0 <= parse_spec(s)->Accepted_0.timestamp <= i32::MAX as int,
{
    let n = s.len() as int;
    let i0 = skip_ws_idx(s, 0);
    lemma_skip_ws_idx(s, 0);
    if !is_digit_char(s[i0]) {
        lemma_accept_at(s, i0, i0, i0);
    } else {
        let d1 = skip_digits_idx(s, i0);
        lemma_skip_digits_idx(s, i0);
        if !is_ws_char(s[d1]) {
            lemma_accept_at(s, i0, i0, i0);
        } else {
            let w1 = skip_ws_idx(s, d1);
            lemma_skip_ws_idx(s, d1);
            if is_digit_char(s[w1]) {
                let d2 = skip_digits_idx(s, w1);
                lemma_skip_digits_idx(s, w1);
                if d2 < n && is_ws_char(s[d2]) {
                    let w2 = skip_ws_idx(s, d2);
                    lemma_skip_ws_idx(s, d2);
                    lemma_accept_at(s, w1, d2, w2);
                } else {
                    lemma_accept_at(s, i0, d1, w1);
                }
            } else {
                lemma_accept_at(s, i0, d1, w1);
            }
        }
    }
}

/// The command produced by `accept_at` is non-empty and trimmed, and the
/// accepted timestamp is in range.
proof fn lemma_accept_at(s: Seq<char>, ts_from: int, ts_to: int, cmd_from: int)
    requires
        0 <= ts_from <= ts_to <= s.len(),
        0 <= cmd_from < s.len(),
        !is_ws_char(s[cmd_from]),
        forall|k: int| ts_from <= k < ts_to ==> is_digit_char(s[k]),
        accept_at(s, ts_from, ts_to, cmd_from) is Accepted,
    ensures
        accept_at(s, ts_from, ts_to, cmd_from)->Accepted_0.command.len() > 0,
        trim_of(accept_at(s, ts_from, ts_to, cmd_from)->Accepted_0.command) == accept_at(
            s,
            ts_from,
            ts_to,
            cmd_from,
        )->Accepted_0.command,
        0 <= accept_at(s, ts_from, ts_to, cmd_from)->Accepted_0.timestamp <= i32::MAX as int,
{
    let n = s.len() as int;
    let e = trim_end_idx(s, n);
    lemma_trim_end_idx(s, n);
    assert(cmd_from < e) by {
        if e <= cmd_from {
            assert(is_ws_char(s[cmd_from]));
        }
    }
    let cmd = s.subrange(cmd_from, e);
    assert(!is_ws_char(cmd[0]));
    assert(!is_ws_char(cmd[cmd.len() - 1]));
    assert(skip_ws_idx(cmd, 0) == 0);
    assert(trim_end_idx(cmd, cmd.len() as int) == cmd.len() as int);
    assert(trim_of(cmd) =~= cmd);
    lemma_digits_val_nonneg(s.subrange(ts_from, ts_to));
}

/// Trimming is idempotent: a trimmed text trims to itself.
pub proof fn lemma_trim_of_idempotent(s: Seq<char>)
    ensures
        trim_of(trim_of(s)) == trim_of(s),
{
    let n = s.len() as int;
    let a = skip_ws_idx(s, 0);
    let b = trim_end_idx(s, n);
    lemma_skip_ws_idx(s, 0);
    lemma_trim_end_idx(s, n);
    let t = trim_of(s);
    if a == n {
        if b > 0 {
            assert(is_ws_char(s[b - 1]));
        }
        assert(t.len() == 0);
        assert(trim_of(t) =~= t);
    } else {
        assert(b > a) by {
            if b <= a {
                assert(is_ws_char(s[a]));
            }
        }
        assert(t == s.subrange(a, b));
        assert(t[0] == s[a]);
        assert(skip_ws_idx(t, 0) == 0);
        assert(t[t.len() - 1] == s[b - 1]);
        assert(trim_end_idx(t, t.len() as int) == t.len() as int);
        assert(trim_of(t) =~= t);
    }
}

/// A line is blank exactly when nothing is left of it after trimming.
pub proof fn lemma_parse_blank(s: Seq<char>)
    ensures
        (parse_spec(s) is Blank) == (trim_of(s).len() == 0),
{
    let n = s.len() as int;
    let a = skip_ws_idx(s, 0);
    let b = trim_end_idx(s, n);
    lemma_skip_ws_idx(s, 0);
    lemma_trim_end_idx(s, n);
    if a == n {
        if b > 0 {
            assert(is_ws_char(s[b - 1]));
        }
    } else {
        if b <= a {
            assert(is_ws_char(s[a]));
        }
    }
}

/// The whitespace characters are not digits.
pub proof fn lemma_ws_not_digit(c: char)
    requires
        is_ws_char(c),
    ensures
        !is_digit_char(c),
{
}

/// A run of whitespace that reaches the trimmed end runs to the end of
/// the line.
proof fn lemma_skip_ws_all(s: Seq<char>, i: int)
    requires
        0 <= i <= s.len(),
        forall|k: int| i <= k < s.len() ==> is_ws_char(s[k]),
    ensures
        skip_ws_idx(s, i) == s.len(),
    decreases s.len() - i,
{
    if i < s.len() {
        lemma_skip_ws_all(s, i + 1);
    }
}

/// Digit runs translate between a line and its trimmed core.
proof fn lemma_skip_digits_shift(s: Seq<char>, a: int, b: int, i: int)
    requires
        0 <= a <= i <= b <= s.len(),
        forall|k: int| b <= k < s.len() ==> is_ws_char(s[k]),
    ensures
        skip_digits_idx(s, i) <= b,
        skip_digits_idx(s.subrange(a, b), i - a) == skip_digits_idx(s, i) - a,
    decreases b - i,
{
    let t = s.subrange(a, b);
    if i < b && is_digit_char(s[i]) {
        assert(t[i - a] == s[i]);
        lemma_skip_digits_shift(s, a, b, i + 1);
    } else if i == b {
        if i < s.len() {
            lemma_ws_not_digit(s[i]);
        }
    } else {
        assert(t[i - a] == s[i]);
    }
}

/// Whitespace runs translate between a line and its trimmed core: a run
/// that stays inside the core shifts, and one that reaches the core's
/// end runs to the end of the whole line.
proof fn lemma_skip_ws_shift(s: Seq<char>, a: int, b: int, i: int)
    requires
        0 <= a <= i <= b <= s.len(),
        forall|k: int| b <= k < s.len() ==> is_ws_char(s[k]),
    ensures
        skip_ws_idx(s, i) < b ==> skip_ws_idx(s.subrange(a, b), i - a) == skip_ws_idx(s, i) - a,
        skip_ws_idx(s, i) >= b ==> skip_ws_idx(s, i) == s.len() && skip_ws_idx(
            s.subrange(a, b),
            i - a,
        ) == b - a,
    decreases b - i,
{
    let t = s.subrange(a, b);
    if i < b && is_ws_char(s[i]) {
        assert(t[i - a] == s[i]);
        lemma_skip_ws_shift(s, a, b, i + 1);
    } else if i == b {
        lemma_skip_ws_all(s, b);
    } else {
        assert(t[i - a] == s[i]);
    }
}

/// An acceptance reads the same on a line and on its trimmed core.
proof fn lemma_accept_shift(s: Seq<char>, a: int, b: int, tf: int, tt: int, cf: int)
    requires
        0 <= a <= b <= s.len(),
        b == trim_end_idx(s, s.len() as int),
        a <= tf <= tt <= b,
        a <= cf < b,
    ensures
        accept_at(s.subrange(a, b), tf - a, tt - a, cf - a) == accept_at(s, tf, tt, cf),
{
    let t = s.subrange(a, b);
    lemma_trim_end_idx(s, s.len() as int);
    assert(t[(b - a) - 1] == s[b - 1]);
    assert(trim_end_idx(t, t.len() as int) == t.len() as int);
    assert(t.subrange(tf - a, tt - a) =~= s.subrange(tf, tt));
    assert(t.subrange(cf - a, b - a) =~= s.subrange(cf, b));
}

/// Parsing ignores surrounding whitespace: a line and its trimmed core
/// parse to the very same outcome.
pub proof fn lemma_parse_trim_invariant(s: Seq<char>)
    ensures
        parse_spec(trim_of(s)) == parse_spec(s),
{
    let n = s.len() as int;
    let a = skip_ws_idx(s, 0);
    let b = trim_end_idx(s, n);
    lemma_skip_ws_idx(s, 0);
    lemma_trim_end_idx(s, n);
    if a == n {
        if b > 0 {
            assert(is_ws_char(s[b - 1]));
        }
        assert(b == 0);
        if n == 0 {
            assert(trim_of(s) =~= Seq::<char>::empty());
        }
        assert(trim_of(s).len() == 0);
        assert(parse_spec(trim_of(s)) is Blank);
    } else {
        assert(b > a) by {
            if b <= a {
                assert(is_ws_char(s[a]));
            }
        }
        let t = s.subrange(a, b);
        assert(trim_of(s) == t);
        assert(t[0] == s[a]);
        assert(skip_ws_idx(t, 0) == 0);
        if !is_digit_char(s[a]) {
            lemma_accept_shift(s, a, b, a, a, a);
            assert(parse_spec(s) == accept_at(s, a, a, a));
            assert(parse_spec(t) == accept_at(t, 0, 0, 0));
        } else {
            lemma_skip_digits_shift(s, a, b, a);
            let d1 = skip_digits_idx(s, a);
            lemma_skip_digits_idx(s, a);
            if d1 == b {
                assert(skip_digits_idx(t, 0) == t.len() as int);
                assert(parse_spec(t) is Malformed);
                if b == n {
                    assert(parse_spec(s) is Malformed);
                } else {
                    assert(is_ws_char(s[d1]));
                    lemma_skip_ws_all(s, d1);
                    assert(skip_ws_idx(s, d1) == n);
                    assert(parse_spec(s) is Malformed);
                }
            } else {
                assert(t[d1 - a] == s[d1]);
                if !is_ws_char(s[d1]) {
                    lemma_accept_shift(s, a, b, a, a, a);
                    assert(parse_spec(s) == accept_at(s, a, a, a));
                    assert(parse_spec(t) == accept_at(t, 0, 0, 0));
                } else {
                    lemma_skip_ws_shift(s, a, b, d1);
                    let w1 = skip_ws_idx(s, d1);
                    lemma_skip_ws_idx(s, d1);
                    if w1 >= b {
                        assert(parse_spec(s) is Malformed);
                        assert(skip_ws_idx(t, d1 - a) == b - a);
                        assert(parse_spec(t) is Malformed);
                    } else {
                        assert(t[w1 - a] == s[w1]);
                        if is_digit_char(s[w1]) {
                            lemma_skip_digits_shift(s, a, b, w1);
                            let d2 = skip_digits_idx(s, w1);
                            lemma_skip_digits_idx(s, w1);
                            if d2 == b {
                                assert(skip_digits_idx(t, w1 - a) == t.len() as int);
                                assert(parse_spec(t) is Malformed);
                                if b == n {
                                    assert(parse_spec(s) is Malformed);
                                } else {
                                    assert(is_ws_char(s[d2]));
                                    lemma_skip_ws_all(s, d2);
                                    assert(parse_spec(s) is Malformed);
                                }
                            } else {
                                assert(t[d2 - a] == s[d2]);
                                if is_ws_char(s[d2]) {
                                    lemma_skip_ws_shift(s, a, b, d2);
                                    let w2 = skip_ws_idx(s, d2);
                                    lemma_skip_ws_idx(s, d2);
                                    if w2 >= b {
                                        assert(parse_spec(s) is Malformed);
                                        assert(skip_ws_idx(t, d2 - a) == b - a);
                                        assert(parse_spec(t) is Malformed);
                                    } else {
                                        lemma_accept_shift(s, a, b, w1, d2, w2);
                                        assert(parse_spec(s) == accept_at(s, w1, d2, w2));
                                        assert(parse_spec(t) == accept_at(
                                            t,
                                            w1 - a,
                                            d2 - a,
                                            w2 - a,
                                        ));
                                    }
                                } else {
                                    lemma_accept_shift(s, a, b, a, d1, w1);
                                    assert(parse_spec(s) == accept_at(s, a, d1, w1));
                                    assert(parse_spec(t) == accept_at(t, 0, d1 - a, w1 - a));
                                }
                            }
                        } else {
                            lemma_accept_shift(s, a, b, a, d1, w1);
                            assert(parse_spec(s) == accept_at(s, a, d1, w1));
                            assert(parse_spec(t) == accept_at(t, 0, d1 - a, w1 - a));
                        }
                    }
                }
            }
        }
    }
}

/// True of the characters the grammar counts as whitespace.
pub fn is_ws(c: char) -> (r: bool)
    ensures
        r == is_ws_char(c),
{
    c == ' ' || c == '\t' || c == '\r' || c == '\n'
}

/// True of the decimal digits.
fn is_digit(c: char) -> (r: bool)
    ensures
        r == is_digit_char(c),
{
    '0' <= c && c <= '9'
}

/// The characters of `s`, in order, as a vector.
pub fn chars_vec(s: &str) -> (r: Vec<char>)
    ensures
        r@ == s@,
{
    let n = s.unicode_len();
    let mut r: Vec<char> = Vec::new();
    let mut i: usize = 0;
    while i < n
        invariant
            i <= n,
            n == s@.len(),
            r@ == s@.take(i as int),
        decreases n - i,
    {
        r.push(s.get_char(i));
        assert(r@ =~= s@.take(i + 1));
        i = i + 1;
    }
    assert(r@ =~= s@);
    r
}

/// First non-whitespace position at or after `i`.
pub fn skip_ws_pos(cs: &Vec<char>, i: usize) -> (r: usize)
    requires
        i <= cs.len(),
    ensures
        r == skip_ws_idx(cs@, i as int),
        i <= r <= cs.len(),
{
    proof {
        lemma_skip_ws_idx(cs@, i as int);
    }
    let mut j: usize = i;
    while j < cs.len() && is_ws(cs[j])
        invariant
            i <= j <= cs.len(),
            skip_ws_idx(cs@, i as int) == skip_ws_idx(cs@, j as int),
        decreases cs.len() - j,
    {
        j = j + 1;
    }
    j
}

/// First non-digit position at or after `i`.
fn skip_digits(cs: &Vec<char>, i: usize) -> (r: usize)
    requires
        i <= cs.len(),
    ensures
        r == skip_digits_idx(cs@, i as int),
        i <= r <= cs.len(),
{
    proof {
        lemma_skip_digits_idx(cs@, i as int);
    }
    let mut j: usize = i;
    while j < cs.len() && is_digit(cs[j])
        invariant
            i <= j <= cs.len(),
            skip_digits_idx(cs@, i as int) == skip_digits_idx(cs@, j as int),
        decreases cs.len() - j,
    {
        j = j + 1;
    }
    j
}

/// One past the last non-whitespace character of the whole line.
fn trim_end(cs: &Vec<char>) -> (r: usize)
    ensures
        r == trim_end_idx(cs@, cs@.len() as int),
        r <= cs.len(),
{
    proof {
        lemma_trim_end_idx(cs@, cs@.len() as int);
    }
    let mut j: usize = cs.len();
    while j > 0 && is_ws(cs[j - 1])
        invariant
            j <= cs.len(),
            trim_end_idx(cs@, cs@.len() as int) == trim_end_idx(cs@, j as int),
        decreases j,
    {
        j = j - 1;
    }
    j
}

/// Value of the digit run `cs[from .. to]` when it fits in an `i32`,
/// `None` when it overflows.
fn digits_to_i32(cs: &Vec<char>, from: usize, to: usize) -> (r: Option<i32>)
    requires
        from <= to <= cs.len(),
        forall|k: int| from <= k < to ==> is_digit_char(cs@[k]),
    ensures
        match r {
            Some(v) => v as int == digits_val(cs@.subrange(from as int, to as int)) && digits_val(
                cs@.subrange(from as int, to as int),
            ) <= i32::MAX as int,
            None => digits_val(cs@.subrange(from as int, to as int)) > i32::MAX as int,
        },
{
    let ghost whole = cs@.subrange(from as int, to as int);
    let mut acc: u64 = 0;
    let mut j: usize = from;
    while j < to
        invariant
            from <= j <= to <= cs.len(),
            forall|k: int| from <= k < to ==> is_digit_char(cs@[k]),
            whole == cs@.subrange(from as int, to as int),
            acc <= i32::MAX as u64,
            acc as int == digits_val(cs@.subrange(from as int, j as int)),
        decreases to - j,
    {
        let c = cs[j];
        assert(is_digit_char(c));
        let d: u64 = (c as u32 - '0' as u32) as u64;
        let next: u64 = acc * 10 + d;
        proof {
            assert(cs@.subrange(from as int, j + 1).drop_last() =~= cs@.subrange(
                from as int,
                j as int,
            ));
        }
        if next > i32::MAX as u64 {
            proof {
                assert(whole.take(j + 1 - from) =~= cs@.subrange(from as int, j + 1));
                lemma_digits_val_mono(whole, j + 1 - from);
            }
            return None;
        }
        acc = next;
        j = j + 1;
    }
    assert(cs@.subrange(from as int, to as int) =~= whole);
    Some(acc as i32)
}

/// The text with surrounding whitespace removed, as the grammar sees
/// it. Callers use it to put a command into the canonical form that the
/// record store requires.
pub fn trimmed(s: &str) -> (r: String)
    ensures
        r@ == trim_of(s@),
{
    let cs = chars_vec(s);
    proof {
        lemma_skip_ws_idx(cs@, 0);
        lemma_trim_end_idx(cs@, cs@.len() as int);
    }
    let a = skip_ws_pos(&cs, 0);
    let b = trim_end(&cs);
    if a <= b {
        s.substring_char(a, b).to_owned()
    } else {
        String::new()
    }
}

/// Parses one raw history line.
///
/// Accepted lines yield exactly the record `parse_spec` describes, a
/// line without a timestamp getting timestamp zero; a blank line is
/// rejected with `EmptyLine`, and a line the grammar refuses — nothing
/// left after its numeric tokens, or a timestamp beyond 32 bits — is
/// rejected with `InvalidHistoryLine` carrying the offending text.
pub fn parse_history_line(line: &str) -> (r: Result<NewCommand, Error>)
    ensures
        (r is Ok) == (parse_spec(line@) is Accepted),
        parse_spec(line@) matches ParseOutcome::Accepted(p) ==> (r matches Ok(c)
            && c.timestamp as int == p.timestamp && c.command@ == p.command),
        parse_spec(line@) is Blank ==> r == Err::<NewCommand, Error>(Error::EmptyLine),
        parse_spec(line@) is Malformed ==> (r matches Err(e) && e matches Error::InvalidHistoryLine(
            t,
        ) && t@ == line@),
{
    let cs = chars_vec(line);
    let n = cs.len();
    let i0 = skip_ws_pos(&cs, 0);
    if i0 == n {
        return Err(Error::EmptyLine);
    }
    proof {
        lemma_skip_ws_idx(cs@, 0);
    }
    let (ts_from, ts_to, cmd_from): (usize, usize, usize) = if !is_digit(cs[i0]) {
        (i0, i0, i0)
    } else {
        let d1 = skip_digits(&cs, i0);
        if d1 == n {
            return Err(Error::InvalidHistoryLine(line.to_owned()));
        }
        if !is_ws(cs[d1]) {
            (i0, i0, i0)
        } else {
            let w1 = skip_ws_pos(&cs, d1);
            if w1 == n {
                return Err(Error::InvalidHistoryLine(line.to_owned()));
            }
            proof {
                lemma_skip_ws_idx(cs@, d1 as int);
            }
            if is_digit(cs[w1]) {
                let d2 = skip_digits(&cs, w1);
                if d2 == n {
                    return Err(Error::InvalidHistoryLine(line.to_owned()));
                }
                if is_ws(cs[d2]) {
                    let w2 = skip_ws_pos(&cs, d2);
                    if w2 == n {
                        return Err(Error::InvalidHistoryLine(line.to_owned()));
                    }
                    proof {
                        lemma_skip_ws_idx(cs@, d2 as int);
                    }
                    (w1, d2, w2)
                } else {
                    (i0, d1, w1)
                }
            } else {
                (i0, d1, w1)
            }
        }
    };
    assert(!is_ws_char(cs@[cmd_from as int]));
    proof {
        lemma_skip_digits_idx(cs@, ts_from as int);
    }
    let ts = match digits_to_i32(&cs, ts_from, ts_to) {
        Some(v) => v,
        None => {
            return Err(Error::InvalidHistoryLine(line.to_owned()));
        },
    };
    let e = trim_end(&cs);
    assert(cmd_from < e) by {
        lemma_trim_end_idx(cs@, cs@.len() as int);
        if e <= cmd_from {
            assert(is_ws_char(cs@[cmd_from as int]));
        }
    }
    let command = line.substring_char(cmd_from, e).to_owned();
    Ok(NewCommand { timestamp: ts, command })
}

} // verus!
