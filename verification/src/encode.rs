//! Encoding a record as one history line, with a round-trip guarantee:
//! the line `encode_record` writes parses back, under the line grammar,
//! to exactly the record it was written from. A store persisted line by
//! line in this form can therefore always be read back by the import
//! pipeline, whatever the command text holds.
//!
//! The shape is the shell's own: a sequence number, the timestamp, then
//! the command, separated by single spaces. Writing both numbers keeps
//! the line unambiguous even when the command itself begins with a
//! number: the grammar consumes exactly the two leading numeric tokens.

use vstd::prelude::*;

use crate::parse::{digits_val, is_digit_char, is_ws_char, trim_of};
use crate::parse::{skip_digits_idx, skip_ws_idx, trim_end_idx};
use crate::parse::{lemma_skip_ws_idx, lemma_trim_end_idx, lemma_ws_not_digit};
use crate::parse::{parse_spec, ParseOutcome, ParsedLine};

verus! {

/// A run of digits ending at a non-digit (or at the end) is exactly
/// what the digit scan consumes.
proof fn lemma_skip_digits_run(s: Seq<char>, i: int, j: int)
    requires
        0 <= i <= j <= s.len(),
        forall|k: int| i <= k < j ==> is_digit_char(s[k]),
        j == s.len() || !is_digit_char(s[j]),
    ensures
        skip_digits_idx(s, i) == j,
    decreases j - i,
{
    if i < j {
        lemma_skip_digits_run(s, i + 1, j);
    }
}

/// A run of whitespace ending at a non-whitespace character (or at the
/// end) is exactly what the whitespace scan consumes.
proof fn lemma_skip_ws_run(s: Seq<char>, i: int, j: int)
    requires
        0 <= i <= j <= s.len(),
        forall|k: int| i <= k < j ==> is_ws_char(s[k]),
        j == s.len() || !is_ws_char(s[j]),
    ensures
        skip_ws_idx(s, i) == j,
    decreases j - i,
{
    if i < j {
        lemma_skip_ws_run(s, i + 1, j);
    }
}

/// A non-empty trimmed text neither starts nor ends with whitespace.
proof fn lemma_trimmed_ends(c: Seq<char>)
    requires
        trim_of(c) == c,
        c.len() > 0,
    ensures
        !is_ws_char(c[0]),
        !is_ws_char(c[c.len() - 1]),
{
    let a = skip_ws_idx(c, 0);
    let b = trim_end_idx(c, c.len() as int);
    lemma_skip_ws_idx(c, 0);
    lemma_trim_end_idx(c, c.len() as int);
    if a <= b {
        assert(c.subrange(a, b).len() == c.len());
        assert(a == 0 && b == c.len() as int);
    } else {
        assert(trim_of(c).len() == 0);
    }
}

/// One decimal digit as text.
fn digit_str(d: u32) -> (r: String)
    requires
        d < 10,
    ensures
        r@.len() == 1,
        is_digit_char(r@[0]),
        r@[0] as u32 - '0' as u32 == d,
{
    let digits = "0123456789";
    proof {
        reveal_strlit("0123456789");
    }
    digits.substring_char(d as usize, d as usize + 1).to_owned()
}

/// A non-negative number in decimal, most significant digit first.
fn number_str(v: i32) -> (r: String)
    requires
        v >= 0,
    ensures
        r@.len() >= 1,
        forall|k: int| 0 <= k < r@.len() ==> is_digit_char(#[trigger] r@[k]),
        digits_val(r@) == v as int,
    decreases v,
{
    if v < 10 {
        let r = digit_str(v as u32);
        proof {
            assert(r@.drop_last() =~= Seq::<char>::empty());
            assert(digits_val(Seq::<char>::empty()) == 0);
            assert(r@.last() == r@[0]);
        }
        r
    } else {
        assert(v / 10 < v && v / 10 >= 0 && v % 10 < 10 && v % 10 >= 0) by (nonlinear_arith)
            requires
                v >= 10,
        ;
        let mut r = number_str(v / 10);
        let ghost prev = r@;
        let last = digit_str((v % 10) as u32);
        r.append(last.as_str());
        proof {
            assert(r@ =~= prev.push(last@[0]));
            assert(r@.drop_last() =~= prev);
            vstd::arithmetic::div_mod::lemma_fundamental_div_mod(v as int, 10);
        }
        r
    }
}

/// One persisted history line for a record: sequence number, timestamp,
/// command. Its round trip is part of the contract: the line parses back
/// to exactly the timestamp and command it encodes.
pub fn encode_record(seq: i32, timestamp: i32, command: &str) -> (r: String)
    requires
        seq >= 0,
        timestamp >= 0,
        command@.len() > 0,
        trim_of(command@) == command@,
    ensures
        parse_spec(r@) == ParseOutcome::Accepted(
            ParsedLine { timestamp: timestamp as int, command: command@ },
        ),
{
    let bstr = number_str(timestamp);
    let ghost b = bstr@;
    let mut out = number_str(seq);
    let ghost a = out@;
    out.append(" ");
    out.append(bstr.as_str());
    out.append(" ");
    out.append(command);
    proof {
        reveal_strlit(" ");
        let r = out@;
        let la = a.len() as int;
        let lb = b.len() as int;
        let lc = command@.len() as int;
        let n = r.len() as int;
        assert(r =~= a + seq![' '] + b + seq![' '] + command@);
        assert(n == la + 1 + lb + 1 + lc);
        assert forall|k: int| 0 <= k < la implies r[k] == a[k] by {}
        assert(r[la] == ' ');
        assert forall|k: int| 0 <= k < lb implies r[la + 1 + k] == b[k] by {}
        assert(r[la + 1 + lb] == ' ');
        assert forall|k: int| 0 <= k < lc implies r[la + 1 + lb + 1 + k] == command@[k] by {}
        lemma_trimmed_ends(command@);
        assert(!is_ws_char(r[0])) by {
            if is_ws_char(r[0]) {
                lemma_ws_not_digit(r[0]);
            }
        }
        assert(skip_ws_idx(r, 0) == 0);
        lemma_ws_not_digit(' ');
        lemma_skip_digits_run(r, 0, la);
        assert(!is_ws_char(r[la + 1])) by {
            if is_ws_char(r[la + 1]) {
                lemma_ws_not_digit(r[la + 1]);
            }
        }
        lemma_skip_ws_run(r, la, la + 1);
        lemma_skip_digits_run(r, la + 1, la + 1 + lb);
        assert(r[la + 1 + lb + 1] == command@[0]);
        lemma_skip_ws_run(r, la + 1 + lb, la + 1 + lb + 1);
        assert(r.subrange(la + 1, la + 1 + lb) =~= b);
        assert(r[n - 1] == command@[lc - 1]);
        assert(trim_end_idx(r, n) == n);
        assert(r.subrange(la + 1 + lb + 1, n) =~= command@);
    }
    out
}

} // verus!
