//! The record store: the primary table of command records, a full-text
//! index kept in step with it, the import pipeline, and the query layer.

use vstd::prelude::*;

use crate::models::{Frequency, History};
use crate::order::{lemma_sorted_records_spec, sorted_records, sorted_records_spec};
use crate::parse::{parse_spec, trim_of, ParseOutcome, ParsedLine};
use crate::parse::{lemma_accepted_command, parse_history_line};
use crate::text::matches_text;
use crate::types::Error;

verus! {

/// One entry of the full-text index: the id of a stored record and the
/// command text indexed for it.
struct IndexEntry {
    history_id: i32,
    text: String,
}

/// The record store. `records` is the primary table in insertion order;
/// `index` is the full-text index, one entry per record, created
/// atomically with it and never diverging from it.
pub struct RecordStore {
    records: Vec<History>,
    index: Vec<IndexEntry>,
}

impl View for RecordStore {
    type V = Seq<History>;

    closed spec fn view(&self) -> Seq<History> {
        self.records@
    }
}

/// What always holds of the stored records: ids count up from one in
/// insertion order, and every command is trimmed and non-empty.
pub open spec fn records_ok(rs: Seq<History>) -> bool {
    forall|i: int|
        0 <= i < rs.len() ==> {
            &&& (#[trigger] rs[i]).id as int == i + 1
            &&& rs[i].command@.len() > 0
            &&& trim_of(rs[i].command@) == rs[i].command@
        }
}

impl RecordStore {
    /// The store invariant: the records are well formed and the
    /// full-text index mirrors the primary table entry for entry.
    pub closed spec fn wf(&self) -> bool {
        &&& records_ok(self.records@)
        &&& self.index@.len() == self.records@.len()
        &&& forall|i: int|
            0 <= i < self.records@.len() ==> {
                &&& (#[trigger] self.index@[i]).history_id == self.records@[i].id
                &&& self.index@[i].text@ == self.records@[i].command@
            }
    }

    /// A well-formed store keeps well-formed records.
    pub proof fn lemma_wf_records(&self)
        requires
            self.wf(),
        ensures
            records_ok(self@),
    {
    }

    /// An empty store.
    pub fn new() -> (r: RecordStore)
        ensures
            r.wf(),
            r@ == Seq::<History>::empty(),
    {
        let r = RecordStore { records: Vec::new(), index: Vec::new() };
        assert(r@ =~= Seq::<History>::empty());
        r
    }

    /// Assigns the next sequence id, persists the record, and updates the
    /// full-text index in the same step, so the new record is immediately
    /// queryable and the index cannot lag the primary table.
    pub fn insert(&mut self, timestamp: i32, command: &str) -> (id: i32)
        requires
            old(self).wf(),
            old(self)@.len() < i32::MAX as int,
            command@.len() > 0,
            trim_of(command@) == command@,
        ensures
            final(self).wf(),
            final(self)@.len() == old(self)@.len() + 1,
            forall|k: int| 0 <= k < old(self)@.len() ==> final(self)@[k] == old(self)@[k],
            final(self)@.last().id as int == old(self)@.len() + 1,
            final(self)@.last().timestamp == timestamp,
            final(self)@.last().command@ == command@,
            id as int == old(self)@.len() + 1,
    {
        let id: i32 = (self.records.len() as i32) + 1;
        self.records.push(History { id, timestamp, command: command.to_owned() });
        self.index.push(IndexEntry { history_id: id, text: command.to_owned() });
        id
    }

    /// A copy of every record, in insertion order.
    fn all_records(&self) -> (r: Vec<History>)
        ensures
            r@ == self@,
    {
        let mut out: Vec<History> = Vec::new();
        let n = self.records.len();
        let mut i: usize = 0;
        while i < n
            invariant
                i <= n,
                n == self.records.len(),
                out@ == self.records@.take(i as int),
            decreases n - i,
        {
            out.push(self.records[i].clone());
            assert(out@ =~= self.records@.take(i + 1));
            i = i + 1;
        }
        assert(out@ =~= self@);
        out
    }

    /// Every record, in insertion order.
    pub fn log(&self) -> (r: Result<Vec<History>, Error>)
        requires
            self.wf(),
        ensures
            r matches Ok(v) && v@ == self@,
    {
        Ok(self.all_records())
    }

    /// In a well-formed store the record count fits the id space.
    proof fn lemma_len_bound(&self)
        requires
            self.wf(),
        ensures
            self@.len() <= i32::MAX as int,
    {
        if self@.len() > 0 {
            assert(self@[self@.len() - 1].id as int == self@.len());
        }
    }

    /// The `n` earliest records, by timestamp ascending (id breaking
    /// ties); `n` at most zero, or beyond the stored count, means all.
    pub fn head(&self, n: i64) -> (r: Result<Vec<History>, Error>)
        requires
            self.wf(),
        ensures
            r matches Ok(v) && v@ == sorted_records_spec(self@).take(
                limit_of(n as int, self@.len() as int),
            ),
    {
        proof {
            self.lemma_len_bound();
            lemma_sorted_records_spec(self@);
        }
        let all = self.all_records();
        let mut sorted = sorted_records(&all);
        if n > 0 && n < sorted.len() as i64 {
            sorted.truncate(n as usize);
        } else {
            assert(sorted@.take(limit_of(n as int, self@.len() as int)) =~= sorted@);
        }
        Ok(sorted)
    }

    /// The `n` latest records by timestamp, returned re-sorted ascending,
    /// so the output always reads oldest to newest; `n` at most zero, or
    /// beyond the stored count, means all.
    pub fn tail(&self, n: i64) -> (r: Result<Vec<History>, Error>)
        requires
            self.wf(),
        ensures
            r matches Ok(v) && v@ == sorted_records_spec(self@).skip(
                self@.len() - limit_of(n as int, self@.len() as int),
            ),
    {
        proof {
            self.lemma_len_bound();
            lemma_sorted_records_spec(self@);
        }
        let all = self.all_records();
        let sorted = sorted_records(&all);
        let lim: usize = if n > 0 && n < sorted.len() as i64 {
            n as usize
        } else {
            sorted.len()
        };
        let start: usize = sorted.len() - lim;
        let mut out: Vec<History> = Vec::new();
        let mut i: usize = start;
        while i < sorted.len()
            invariant
                start <= i <= sorted.len(),
                out@ == sorted@.subrange(start as int, i as int),
            decreases sorted.len() - i,
        {
            out.push(sorted[i].clone());
            assert(out@ =~= sorted@.subrange(start as int, i + 1));
            i = i + 1;
        }
        assert(out@ =~= sorted@.skip(start as int));
        Ok(out)
    }
}

/// A query limit: at most zero, or more than there is, means all.
pub open spec fn limit_of(n: int, len: int) -> int {
    if n <= 0 || n > len {
        len
    } else {
        n
    }
}

/// The command texts of the records, in stored order.
pub open spec fn cmd_views(rs: Seq<History>) -> Seq<Seq<char>> {
    rs.map_values(|h: History| h.command@)
}

/// The distinct command texts, in first-seen order.
pub open spec fn distinct_cmds(cs: Seq<Seq<char>>) -> Seq<Seq<char>>
    decreases cs.len(),
{
    if cs.len() == 0 {
        Seq::empty()
    } else {
        let d = distinct_cmds(cs.drop_last());
        if d.contains(cs.last()) {
            d
        } else {
            d.push(cs.last())
        }
    }
}

/// How many commands equal `c`.
pub open spec fn count_of(cs: Seq<Seq<char>>, c: Seq<char>) -> int
    decreases cs.len(),
{
    if cs.len() == 0 {
        0int
    } else {
        count_of(cs.drop_last(), c) + if cs.last() == c {
            1int
        } else {
            0int
        }
    }
}

/// The raw ranking pairs: for each distinct command, its count and its
/// first-seen position.
pub open spec fn rank_pairs(cs: Seq<Seq<char>>) -> Seq<(usize, usize)> {
    Seq::new(distinct_cmds(cs).len(), |i: int| (count_of(cs, distinct_cmds(cs)[i]) as usize, i as usize))
}

/// A command is among the distinct commands exactly when it occurs.
proof fn lemma_distinct_contains(cs: Seq<Seq<char>>, c: Seq<char>)
    ensures
        distinct_cmds(cs).contains(c) == cs.contains(c),
    decreases cs.len(),
{
    if cs.len() > 0 {
        let t = cs.drop_last();
        lemma_distinct_contains(t, c);
        lemma_distinct_contains(t, cs.last());
        let d = distinct_cmds(t);
        assert(cs.contains(c) == (t.contains(c) || c == cs.last())) by {
            if cs.contains(c) {
                let m = choose|m: int| 0 <= m < cs.len() && cs[m] == c;
                if m < cs.len() - 1 {
                    assert(t[m] == c);
                }
            }
            if t.contains(c) {
                let m = choose|m: int| 0 <= m < t.len() && t[m] == c;
                assert(cs[m] == c);
            }
            if c == cs.last() {
                assert(cs[cs.len() - 1] == c);
            }
        }
        if !d.contains(cs.last()) {
            assert(d.push(cs.last()).contains(c) == (d.contains(c) || c == cs.last())) by {
                if d.contains(c) {
                    let m = choose|m: int| 0 <= m < d.len() && d[m] == c;
                    assert(d.push(cs.last())[m] == c);
                }
                assert(d.push(cs.last())[d.len() as int] == cs.last());
                if d.push(cs.last()).contains(c) {
                    let m = choose|m: int| 0 <= m < d.push(cs.last()).len() && d.push(
                        cs.last(),
                    )[m] == c;
                    if m < d.len() {
                        assert(d[m] == c);
                    }
                }
            }
        }
    }
}

/// The distinct commands hold no duplicates.
proof fn lemma_distinct_nodup(cs: Seq<Seq<char>>)
    ensures
        forall|i: int, j: int|
            0 <= i < j < distinct_cmds(cs).len() ==> distinct_cmds(cs)[i] != distinct_cmds(cs)[j],
        distinct_cmds(cs).len() <= cs.len(),
    decreases cs.len(),
{
    if cs.len() > 0 {
        let t = cs.drop_last();
        lemma_distinct_nodup(t);
        let d = distinct_cmds(t);
        if !d.contains(cs.last()) {
            assert(forall|i: int| 0 <= i < d.len() ==> d[i] != cs.last());
        }
    }
}

/// A count never exceeds the number of commands, and never drops below
/// zero.
proof fn lemma_count_of_bounds(cs: Seq<Seq<char>>, c: Seq<char>)
    ensures
        0 <= count_of(cs, c) <= cs.len(),
        !cs.contains(c) ==> count_of(cs, c) == 0,
        cs.contains(c) ==> count_of(cs, c) >= 1,
    decreases cs.len(),
{
    if cs.len() > 0 {
        let t = cs.drop_last();
        lemma_count_of_bounds(t, c);
        if cs.contains(c) && cs.last() != c {
            let m = choose|m: int| 0 <= m < cs.len() && cs[m] == c;
            assert(t[m] == c);
        }
        if t.contains(c) {
            let m = choose|m: int| 0 <= m < t.len() && t[m] == c;
            assert(cs[m] == c);
        }
    }
}

/// One grouping cell while the ranking is built: a distinct command and
/// how often it has been seen so far.
struct RankCell {
    count: usize,
    command: String,
}

impl RecordStore {
    /// The `n` most frequent command texts with their counts, most
    /// frequent first, equal counts in first-seen order; `n` at most
    /// zero, or beyond the number of distinct commands, means all.
    pub fn top(&self, n: i64) -> (r: Result<Vec<Frequency>, Error>)
        requires
            self.wf(),
        ensures
            r matches Ok(v) && {
                let cs = cmd_views(self@);
                let d = distinct_cmds(cs);
                let ranked = crate::order::ranked_spec(rank_pairs(cs));
                let m = limit_of(n as int, d.len() as int);
                &&& v@.len() == m
                &&& forall|k: int|
                    0 <= k < m ==> {
                        &&& (#[trigger] v@[k]).frequency as int == ranked[k].0 as int
                        &&& v@[k].command@ == d[ranked[k].1 as int]
                    }
            },
    {
        let ghost cs = cmd_views(self@);
        proof {
            self.lemma_len_bound();
        }
        let nrec = self.records.len();
        let mut cells: Vec<RankCell> = Vec::new();
        let mut i: usize = 0;
        while i < nrec
            invariant
                self.wf(),
                i <= nrec,
                nrec == self@.len(),
                cs == cmd_views(self@),
                cells@.len() == distinct_cmds(cs.take(i as int)).len(),
                forall|j: int|
                    0 <= j < cells@.len() ==> (#[trigger] cells@[j]).command@ == distinct_cmds(
                        cs.take(i as int),
                    )[j],
                forall|j: int|
                    0 <= j < cells@.len() ==> (#[trigger] cells@[j]).count as int == count_of(
                        cs.take(i as int),
                        cells@[j].command@,
                    ),
                forall|j1: int, j2: int|
                    0 <= j1 < j2 < cells@.len() ==> (#[trigger] cells@[j1]).command@ != (
                    #[trigger] cells@[j2]).command@,
                cells@.len() <= i,
                forall|j: int| 0 <= j < cells@.len() ==> (#[trigger] cells@[j]).count <= i,
            decreases nrec - i,
        {
            let ghost done = cs.take(i as int);
            let ghost c = self@[i as int].command@;
            proof {
                assert(cs[i as int] == c);
                assert(cs.take(i + 1).drop_last() =~= done);
                assert(cs.take(i + 1).last() == c);
            }
            let mut found: Option<usize> = None;
            let mut j: usize = 0;
            while j < cells.len()
                invariant
                    j <= cells@.len(),
                    i < nrec,
                    nrec == self@.len(),
                    c == self@[i as int].command@,
                    match found {
                        Some(f) => f < j && cells@[f as int].command@ == c,
                        None => forall|k: int| 0 <= k < j ==> (#[trigger] cells@[k]).command@ != c,
                    },
                decreases cells@.len() - j,
            {
                if cells[j].command.eq(&self.records[i].command) {
                    found = Some(j);
                }
                j = j + 1;
            }
            match found {
                Some(f) => {
                    proof {
                        assert(distinct_cmds(done).contains(c)) by {
                            assert(distinct_cmds(done)[f as int] == c);
                        }
                        assert(distinct_cmds(cs.take(i + 1)) == distinct_cmds(done));
                    }
                    let newc = cells[f].count + 1;
                    let cmd2 = cells[f].command.clone();
                    cells[f] = RankCell { count: newc, command: cmd2 };
                },
                None => {
                    proof {
                        assert forall|k: int|
                            0 <= k < distinct_cmds(done).len() implies distinct_cmds(done)[k]
                            != c by {
                            assert(cells@[k].command@ == distinct_cmds(done)[k]);
                        }
                        assert(!distinct_cmds(done).contains(c));
                        lemma_distinct_contains(done, c);
                        lemma_count_of_bounds(done, c);
                        assert(distinct_cmds(cs.take(i + 1)) == distinct_cmds(done).push(c));
                    }
                    cells.push(RankCell { count: 1, command: self.records[i].command.clone() });
                },
            }
            i = i + 1;
        }
        proof {
            assert(cs.take(nrec as int) =~= cs);
            lemma_distinct_nodup(cs);
        }
        let mut pairs: Vec<(usize, usize)> = Vec::new();
        let mut j: usize = 0;
        while j < cells.len()
            invariant
                j <= cells@.len(),
                cells@.len() == distinct_cmds(cs).len(),
                forall|k: int|
                    0 <= k < cells@.len() ==> (#[trigger] cells@[k]).command@ == distinct_cmds(
                        cs,
                    )[k],
                forall|k: int|
                    0 <= k < cells@.len() ==> (#[trigger] cells@[k]).count as int == count_of(
                        cs,
                        cells@[k].command@,
                    ),
                pairs@ == rank_pairs(cs).take(j as int),
            decreases cells@.len() - j,
        {
            pairs.push((cells[j].count, j));
            assert(pairs@ =~= rank_pairs(cs).take(j + 1));
            j = j + 1;
        }
        assert(pairs@ =~= rank_pairs(cs));
        let ranked = crate::order::ranked_pairs(&pairs);
        proof {
            crate::order::lemma_ranked_spec(pairs@);
        }
        let lim: usize = if n > 0 && n < ranked.len() as i64 {
            n as usize
        } else {
            ranked.len()
        };
        let mut out: Vec<Frequency> = Vec::new();
        let mut k: usize = 0;
        while k < lim
            invariant
                self.wf(),
                k <= lim,
                lim <= ranked@.len(),
                cs == cmd_views(self@),
                ranked@ == crate::order::ranked_spec(rank_pairs(cs)),
                ranked@.len() == rank_pairs(cs).len(),
                forall|m: int|
                    0 <= m < ranked@.len() ==> rank_pairs(cs).contains(#[trigger] ranked@[m]),
                cells@.len() == distinct_cmds(cs).len(),
                forall|m: int|
                    0 <= m < cells@.len() ==> (#[trigger] cells@[m]).command@ == distinct_cmds(
                        cs,
                    )[m],
                out@.len() == k,
                forall|m: int|
                    0 <= m < k ==> {
                        &&& (#[trigger] out@[m]).frequency as int == ranked@[m].0 as int
                        &&& out@[m].command@ == distinct_cmds(cs)[ranked@[m].1 as int]
                    },
            decreases lim - k,
        {
            let (cnt, pos): (usize, usize) = ranked[k];
            proof {
                assert(rank_pairs(cs).contains(ranked@[k as int]));
                let m = choose|m: int|
                    0 <= m < rank_pairs(cs).len() && rank_pairs(cs)[m] == ranked@[k as int];
                lemma_distinct_nodup(cs);
                lemma_count_of_bounds(cs, distinct_cmds(cs)[m]);
                self.lemma_len_bound();
                assert(cs.len() == self@.len());
                assert(pos as int == m);
                assert(cnt as int == count_of(cs, distinct_cmds(cs)[m]));
            }
            out.push(Frequency { frequency: cnt as i32, command: cells[pos].command.clone() });
            k = k + 1;
        }
        Ok(out)
    }
}

/// The records of `rs` whose command matches the query, in stored order.
pub open spec fn matching_in(rs: Seq<History>, query: Seq<char>) -> Seq<History>
    decreases rs.len(),
{
    if rs.len() == 0 {
        Seq::empty()
    } else {
        let m = matching_in(rs.drop_last(), query);
        if matches_text(rs.last().command@, query) {
            m.push(rs.last())
        } else {
            m
        }
    }
}

/// A record that matches the query is among the matches.
pub proof fn lemma_matching_in_contains(rs: Seq<History>, query: Seq<char>, i: int)
    requires
        0 <= i < rs.len(),
        matches_text(rs[i].command@, query),
    ensures
        matching_in(rs, query).contains(rs[i]),
    decreases rs.len(),
{
    if i + 1 == rs.len() {
        let m = matching_in(rs.drop_last(), query);
        assert(matching_in(rs, query)[m.len() as int] == rs.last());
    } else {
        lemma_matching_in_contains(rs.drop_last(), query, i);
        let m = matching_in(rs.drop_last(), query);
        let j = choose|j: int| 0 <= j < m.len() && m[j] == rs[i];
        if matches_text(rs.last().command@, query) {
            assert(matching_in(rs, query)[j] == rs[i]);
        }
    }
}

/// Index consistency: every stored record is discoverable through the
/// full-text search by any single word drawn from its own command text.
pub proof fn lemma_index_consistency(rs: Seq<History>, i: int, w: Seq<char>)
    requires
        0 <= i < rs.len(),
        crate::text::words_of(rs[i].command@).contains(w),
    ensures
        matching_in(rs, w).contains(rs[i]),
{
    crate::text::lemma_own_word_matches(rs[i].command@, w);
    lemma_matching_in_contains(rs, w, i);
}

impl RecordStore {
    /// Full-text search: the records whose command text matches the
    /// query expression, in the index's match order (stored order).
    pub fn search(&self, expression: &str) -> (r: Result<Vec<History>, Error>)
        requires
            self.wf(),
        ensures
            r matches Ok(v) && v@ == matching_in(self@, expression@),
    {
        let mut out: Vec<History> = Vec::new();
        let n = self.index.len();
        assert(self.index@.len() == self@.len());
        let mut i: usize = 0;
        while i < n
            invariant
                self.wf(),
                i <= n,
                n == self.index@.len(),
                n == self@.len(),
                out@ == matching_in(self@.take(i as int), expression@),
            decreases n - i,
        {
            proof {
                assert(self@.take(i + 1).drop_last() =~= self@.take(i as int));
                assert(self@.take(i + 1).last() == self@[i as int]);
            }
            if crate::text::matches(self.index[i].text.as_str(), expression) {
                assert(self.index@[i as int].text@ == self@[i as int].command@);
                out.push(self.records[i].clone());
            }
            i = i + 1;
        }
        assert(self@.take(n as int) =~= self@);
        Ok(out)
    }
}

/// The views of a sequence of owned lines.
pub open spec fn line_seq(lines: Seq<String>) -> Seq<Seq<char>> {
    lines.map_values(|l: String| l@)
}

/// The parses of the accepted lines before the first malformed one,
/// blank lines skipped.
pub open spec fn accepted_prefix(ls: Seq<Seq<char>>) -> Seq<ParsedLine>
    decreases ls.len(),
{
    if ls.len() == 0 {
        Seq::empty()
    } else {
        match parse_spec(ls[0]) {
            ParseOutcome::Accepted(p) => seq![p] + accepted_prefix(ls.drop_first()),
            ParseOutcome::Blank => accepted_prefix(ls.drop_first()),
            ParseOutcome::Malformed => Seq::empty(),
        }
    }
}

/// True when no line of the batch is malformed.
pub open spec fn all_clean(ls: Seq<Seq<char>>) -> bool
    decreases ls.len(),
{
    if ls.len() == 0 {
        true
    } else {
        match parse_spec(ls[0]) {
            ParseOutcome::Malformed => false,
            _ => all_clean(ls.drop_first()),
        }
    }
}

/// The text of the first malformed line of the batch.
pub open spec fn first_bad(ls: Seq<Seq<char>>) -> Seq<char>
    recommends
        !all_clean(ls),
    decreases ls.len(),
{
    if ls.len() == 0 {
        Seq::empty()
    } else {
        match parse_spec(ls[0]) {
            ParseOutcome::Malformed => ls[0],
            _ => first_bad(ls.drop_first()),
        }
    }
}

/// A batch of nothing but blank lines is clean and yields no records:
/// together with the contract of `import`, importing such a source
/// returns a count of zero, no error, and leaves the store unchanged.
pub proof fn lemma_blank_batch(ls: Seq<Seq<char>>)
    requires
        forall|i: int| 0 <= i < ls.len() ==> parse_spec(#[trigger] ls[i]) is Blank,
    ensures
        all_clean(ls),
        accepted_prefix(ls).len() == 0,
    decreases ls.len(),
{
    if ls.len() > 0 {
        assert(forall|i: int|
            0 <= i < ls.drop_first().len() ==> parse_spec(#[trigger] ls.drop_first()[i]) is Blank);
        lemma_blank_batch(ls.drop_first());
    }
}

/// How one scanned batch continues into another: scanning `a + b` is
/// scanning `a`, and then `b` if no line of `a` was malformed.
proof fn lemma_scan_concat(a: Seq<Seq<char>>, b: Seq<Seq<char>>)
    requires
        all_clean(a),
    ensures
        accepted_prefix(a + b) == accepted_prefix(a) + accepted_prefix(b),
        all_clean(a + b) == all_clean(b),
        !all_clean(b) ==> first_bad(a + b) == first_bad(b),
    decreases a.len(),
{
    if a.len() == 0 {
        assert(a + b =~= b);
        assert(accepted_prefix(a) + accepted_prefix(b) =~= accepted_prefix(b));
    } else {
        assert((a + b).drop_first() =~= a.drop_first() + b);
        assert((a + b)[0] == a[0]);
        lemma_scan_concat(a.drop_first(), b);
        match parse_spec(a[0]) {
            ParseOutcome::Accepted(p) => {
                assert(accepted_prefix(a + b) =~= accepted_prefix(a) + accepted_prefix(b));
            },
            _ => {},
        }
    }
}

impl RecordStore {
    /// Imports a batch of raw lines, in order. Blank lines are skipped;
    /// each accepted line is inserted, and visible, before the next line
    /// is looked at; the first malformed line aborts the batch, leaving
    /// the records inserted before it committed. On success the count of
    /// inserted records equals the number of non-blank lines.
    pub fn import(&mut self, lines: &Vec<String>) -> (r: Result<usize, Error>)
        requires
            old(self).wf(),
            old(self)@.len() + lines@.len() < i32::MAX as int,
        ensures
            final(self).wf(),
            final(self)@.len() == old(self)@.len() + accepted_prefix(line_seq(lines@)).len(),
            forall|k: int| 0 <= k < old(self)@.len() ==> final(self)@[k] == old(self)@[k],
            forall|k: int|
                0 <= k < accepted_prefix(line_seq(lines@)).len() ==> {
                    &&& (#[trigger] final(self)@[old(self)@.len() + k]).timestamp as int
                        == accepted_prefix(line_seq(lines@))[k].timestamp
                    &&& final(self)@[old(self)@.len() + k].command@ == accepted_prefix(
                        line_seq(lines@),
                    )[k].command
                },
            all_clean(line_seq(lines@)) ==> (r matches Ok(n) && n == accepted_prefix(
                line_seq(lines@),
            ).len()),
            !all_clean(line_seq(lines@)) ==> (r matches Err(e) && e
                matches Error::InvalidHistoryLine(t) && t@ == first_bad(line_seq(lines@))),
    {
        let ghost ls = line_seq(lines@);
        let ghost orig = self@;
        let mut n: usize = 0;
        let mut i: usize = 0;
        while i < lines.len()
            invariant
                self.wf(),
                i <= lines.len(),
                ls == line_seq(lines@),
                orig == old(self)@,
                orig.len() + lines@.len() < i32::MAX as int,
                n <= i,
                all_clean(ls.take(i as int)),
                n == accepted_prefix(ls.take(i as int)).len(),
                self@.len() == orig.len() + n,
                forall|k: int| 0 <= k < orig.len() ==> self@[k] == orig[k],
                forall|k: int|
                    0 <= k < n ==> {
                        &&& (#[trigger] self@[orig.len() + k]).timestamp as int == accepted_prefix(
                            ls.take(i as int),
                        )[k].timestamp
                        &&& self@[orig.len() + k].command@ == accepted_prefix(
                            ls.take(i as int),
                        )[k].command
                    },
            decreases lines.len() - i,
        {
            let ghost done = ls.take(i as int);
            proof {
                assert(ls[i as int] == lines@[i as int]@);
                assert(ls.take(i + 1) =~= done + seq![ls[i as int]]);
                assert(seq![ls[i as int]].drop_first() =~= Seq::<Seq<char>>::empty());
                assert(accepted_prefix(Seq::<Seq<char>>::empty()) == Seq::<ParsedLine>::empty());
                assert(all_clean(Seq::<Seq<char>>::empty()));
                lemma_scan_concat(done, seq![ls[i as int]]);
            }
            match parse_history_line(lines[i].as_str()) {
                Ok(c) => {
                    proof {
                        lemma_accepted_command(ls[i as int]);
                        let p = parse_spec(ls[i as int])->Accepted_0;
                        assert(accepted_prefix(seq![ls[i as int]]) =~= seq![p]);
                        assert(accepted_prefix(ls.take(i + 1)) =~= accepted_prefix(done).push(p));
                    }
                    self.insert(c.timestamp, c.command.as_str());
                    n = n + 1;
                },
                Err(e) => {
                    match e {
                        Error::EmptyLine => {
                            proof {
                                assert(accepted_prefix(seq![ls[i as int]])
                                    =~= Seq::<ParsedLine>::empty());
                                assert(accepted_prefix(ls.take(i + 1)) =~= accepted_prefix(done));
                            }
                        },
                        _ => {
                            proof {
                                let rest = ls.skip(i as int);
                                assert(ls =~= done + rest);
                                assert(rest[0] == ls[i as int]);
                                lemma_scan_concat(done, rest);
                                assert(accepted_prefix(rest) =~= Seq::<ParsedLine>::empty());
                                assert(accepted_prefix(ls) =~= accepted_prefix(done));
                            }
                            return Err(e);
                        },
                    }
                },
            }
            i = i + 1;
        }
        proof {
            assert(ls.take(ls.len() as int) =~= ls);
        }
        Ok(n)
    }
}

} // verus!
