//! The record collection: ingestion of a sequence of lines into records
//! plus per-line warnings, and read-only filters over the result.

use vstd::prelude::*;
use vstd::string::{StringExecFns, StrSliceExecFns};
use crate::extract::{LogEntry, entry_matches_line, line_unrecognized, extract_date_text, scan_date_text};
use crate::level::LogLevel;
use crate::text::{is_space, is_word, space_char};
use chrono::Datelike;

verus! {

/// Why an operation on a collection failed.
#[derive(Debug)]
pub enum AnalyzerError {
    IoError(String),
    ParseError { line_number: usize, message: String },
    DateParseError(String),
    RegexError(String),
    LogMethodParseError(String),
    LogLevelParseError(String),
    EmptyLogFile,
}

/// The report text of an error.
pub open spec fn error_message(e: AnalyzerError) -> Seq<char> {
    match e {
        AnalyzerError::IoError(s) => "Failed to read file: "@ + s@,
        AnalyzerError::ParseError { line_number, message } => "Failed to parse log entry at line "@
            + crate::text::dec_digits(line_number as nat) + ": "@ + message@,
        AnalyzerError::DateParseError(s) => "Invalid date format: "@ + s@,
        AnalyzerError::RegexError(s) => "Invalid regex pattern: "@ + s@,
        AnalyzerError::LogMethodParseError(s) => "Invalid HTTP method: "@ + s@,
        AnalyzerError::LogLevelParseError(s) => "Invalid log level: "@ + s@,
        AnalyzerError::EmptyLogFile => "No log entries found in file"@,
    }
}

impl AnalyzerError {
    /// Renders the error for a report, as `error_message` describes.
    pub fn message(&self) -> (r: String)
        ensures
            r@ == error_message(*self),
    {
        match self {
            AnalyzerError::IoError(s) => {
                let mut out = String::from_str("Failed to read file: ");
                out.append(s.as_str());
                out
            },
            AnalyzerError::ParseError { line_number, message } => {
                let mut out = String::from_str("Failed to parse log entry at line ");
                crate::text::push_decimal(&mut out, *line_number as u128);
                out.append(": ");
                out.append(message.as_str());
                proof {
                    assert(out@ =~= error_message(*self));
                }
                out
            },
            AnalyzerError::DateParseError(s) => {
                let mut out = String::from_str("Invalid date format: ");
                out.append(s.as_str());
                out
            },
            AnalyzerError::RegexError(s) => {
                let mut out = String::from_str("Invalid regex pattern: ");
                out.append(s.as_str());
                out
            },
            AnalyzerError::LogMethodParseError(s) => {
                let mut out = String::from_str("Invalid HTTP method: ");
                out.append(s.as_str());
                out
            },
            AnalyzerError::LogLevelParseError(s) => {
                let mut out = String::from_str("Invalid log level: ");
                out.append(s.as_str());
                out
            },
            AnalyzerError::EmptyLogFile => String::from_str("No log entries found in file"),
        }
    }
}

/// A recoverable per-line extraction failure: the 1-based line number, the
/// offending text, and a description.
#[derive(Debug, Clone)]
pub struct ParseWarning {
    pub line_number: usize,
    pub line_content: String,
    pub error: String,
}

/// The outcome of one ingestion pass: how many records were added and the
/// warnings gathered along the way.
#[derive(Debug)]
pub struct ParseResult {
    pub warnings: Vec<ParseWarning>,
    pub entries_parsed: usize,
}

impl ParseResult {
    pub fn has_warnings(&self) -> (b: bool)
        ensures
            b == (self.warnings@.len() > 0),
    {
        self.warnings.len() > 0
    }

    pub fn warning_count(&self) -> (n: usize)
        ensures
            n == self.warnings@.len(),
    {
        self.warnings.len()
    }
}

/// A line of nothing but whitespace, or nothing at all.
pub open spec fn line_blank(s: Seq<char>) -> bool {
    forall|k: int| 0 <= k < s.len() ==> is_space(#[trigger] s[k])
}

/// The line becomes a record.
pub open spec fn line_kept(s: Seq<char>) -> bool {
    !line_blank(s) && !line_unrecognized(s)
}

/// The line becomes a warning.
pub open spec fn line_failed(s: Seq<char>) -> bool {
    !line_blank(s) && line_unrecognized(s)
}

/// 0-based positions of the lines that become records, in order.
pub open spec fn kept_indices(lines: Seq<Seq<char>>) -> Seq<int>
    decreases lines.len(),
{
    if lines.len() == 0 {
        Seq::empty()
    } else {
        let prev = kept_indices(lines.drop_last());
        if line_kept(lines.last()) {
            prev.push(lines.len() - 1)
        } else {
            prev
        }
    }
}

/// 0-based positions of the lines that become warnings, in order.
pub open spec fn failed_indices(lines: Seq<Seq<char>>) -> Seq<int>
    decreases lines.len(),
{
    if lines.len() == 0 {
        Seq::empty()
    } else {
        let prev = failed_indices(lines.drop_last());
        if line_failed(lines.last()) {
            prev.push(lines.len() - 1)
        } else {
            prev
        }
    }
}

/// Number of lines that are not blank.
pub open spec fn non_blank_count(lines: Seq<Seq<char>>) -> nat
    decreases lines.len(),
{
    if lines.len() == 0 {
        0
    } else {
        non_blank_count(lines.drop_last()) + if line_blank(lines.last()) {
            0nat
        } else {
            1nat
        }
    }
}

pub proof fn lemma_kept_indices_bounds(lines: Seq<Seq<char>>)
    ensures
        forall|k: int|
            0 <= k < kept_indices(lines).len() ==> 0 <= #[trigger] kept_indices(lines)[k]
                < lines.len() && line_kept(lines[kept_indices(lines)[k]]),
    decreases lines.len(),
{
    if lines.len() > 0 {
        lemma_kept_indices_bounds(lines.drop_last());
        assert(forall|k: int|
            0 <= k < kept_indices(lines.drop_last()).len() ==> lines.drop_last()[kept_indices(
                lines.drop_last(),
            )[k]] == lines[kept_indices(lines.drop_last())[k]]);
    }
}

pub proof fn lemma_failed_indices_bounds(lines: Seq<Seq<char>>)
    ensures
        forall|k: int|
            0 <= k < failed_indices(lines).len() ==> 0 <= #[trigger] failed_indices(lines)[k]
                < lines.len() && line_failed(lines[failed_indices(lines)[k]]),
    decreases lines.len(),
{
    if lines.len() > 0 {
        lemma_failed_indices_bounds(lines.drop_last());
        assert(forall|k: int|
            0 <= k < failed_indices(lines.drop_last()).len() ==> lines.drop_last()[failed_indices(
                lines.drop_last(),
            )[k]] == lines[failed_indices(lines.drop_last())[k]]);
    }
}

/// The lines that become records are taken in file order: the positions
/// in `kept_indices` strictly increase, so insertion order is line order.
pub proof fn lemma_kept_indices_increasing(lines: Seq<Seq<char>>)
    ensures
        forall|j: int, k: int|
            0 <= j < k < kept_indices(lines).len() ==> #[trigger] kept_indices(lines)[j]
                < #[trigger] kept_indices(lines)[k],
    decreases lines.len(),
{
    if lines.len() > 0 {
        lemma_kept_indices_increasing(lines.drop_last());
        lemma_kept_indices_bounds(lines.drop_last());
        let prev = kept_indices(lines.drop_last());
        let cur = kept_indices(lines);
        assert forall|j: int, k: int| 0 <= j < k < cur.len() implies #[trigger] cur[j]
            < #[trigger] cur[k] by {
            if line_kept(lines.last()) {
                if k < prev.len() {
                    assert(cur[j] == prev[j] && cur[k] == prev[k]);
                } else {
                    assert(cur[k] == lines.len() - 1);
                    assert(cur[j] == prev[j]);
                    assert(prev[j] < lines.drop_last().len());
                }
            } else {
                assert(cur[j] == prev[j] && cur[k] == prev[k]);
            }
        }
    }
}

/// Every non-blank line becomes exactly one record or one warning: with N
/// non-blank lines of which K fail, there are N - K records and K
/// warnings.
pub proof fn lemma_ingest_partition(lines: Seq<Seq<char>>)
    ensures
        kept_indices(lines).len() + failed_indices(lines).len() == non_blank_count(lines),
    decreases lines.len(),
{
    if lines.len() > 0 {
        lemma_ingest_partition(lines.drop_last());
    }
}

/// An append-only ordered collection of records, insertion order being
/// file line order.
#[derive(Debug)]
pub struct Logs {
    pub entries: Vec<LogEntry>,
}

impl Default for Logs {
    fn default() -> (r: Self)
        ensures
            r.entries@.len() == 0,
    {
        Logs { entries: Vec::new() }
    }
}

impl Logs {
    pub fn new() -> (r: Self)
        ensures
            r.entries@.len() == 0,
    {
        Logs { entries: Vec::new() }
    }

    /// Ingests the lines of a log, 1-indexed and in order. Blank lines are
    /// skipped silently; a line with no recognizable structure at all
    /// becomes a warning; every other line is appended as a record. When
    /// no line at all became a record the whole ingestion fails with the
    /// empty-log condition and the collection is left unchanged.
    pub fn read_and_parse_log(&mut self, lines: &Vec<String>) -> (r: Result<
        ParseResult,
        AnalyzerError,
    >)
        ensures
            r is Err <==> kept_indices(lines.deep_view()).len() == 0,
            r matches Err(e) ==> e is EmptyLogFile && final(self).entries@ == old(self).entries@,
            r matches Ok(pr) ==> {
                let dv = lines.deep_view();
                let ki = kept_indices(dv);
                let fi = failed_indices(dv);
                &&& final(self).entries@.len() == old(self).entries@.len() + ki.len()
                &&& final(self).entries@.subrange(0, old(self).entries@.len() as int) == old(
                    self,
                ).entries@
                &&& forall|k: int|
                    0 <= k < ki.len() ==> entry_matches_line(
                        #[trigger] final(self).entries@[old(self).entries@.len() + k],
                        dv[ki[k]],
                    )
                &&& pr.entries_parsed == ki.len()
                &&& pr.warnings@.len() == fi.len()
                &&& forall|k: int|
                    0 <= k < fi.len() ==> (#[trigger] pr.warnings@[k]).line_number == fi[k] + 1
                        && pr.warnings@[k].line_content@ == dv[fi[k]] && pr.warnings@[k].error@
                        == "no recognizable fields in line"@
            },
    {
        let ghost old_entries = self.entries@;
        let ghost dv = lines.deep_view();
        let mut warnings: Vec<ParseWarning> = Vec::new();
        let mut parsed: usize = 0;
        let mut idx: usize = 0;
        let total = lines.len();
        proof {
            assert(dv.subrange(0, 0) =~= Seq::<Seq<char>>::empty());
        }
        while idx < total
            invariant
                idx <= total,
                total == lines@.len(),
                dv == lines.deep_view(),
                dv.len() == lines@.len(),
                forall|k: int| 0 <= k < dv.len() ==> #[trigger] dv[k] == lines@[k]@,
                self.entries@.len() == old_entries.len() + kept_indices(
                    dv.subrange(0, idx as int),
                ).len(),
                self.entries@.subrange(0, old_entries.len() as int) == old_entries,
                parsed <= idx,
                parsed == kept_indices(dv.subrange(0, idx as int)).len(),
                forall|k: int|
                    0 <= k < kept_indices(dv.subrange(0, idx as int)).len()
                        ==> entry_matches_line(
                        #[trigger] self.entries@[old_entries.len() + k],
                        dv[kept_indices(dv.subrange(0, idx as int))[k]],
                    ),
                warnings@.len() == failed_indices(dv.subrange(0, idx as int)).len(),
                forall|k: int|
                    0 <= k < failed_indices(dv.subrange(0, idx as int)).len() ==> (
                    #[trigger] warnings@[k]).line_number == failed_indices(
                        dv.subrange(0, idx as int),
                    )[k] + 1 && warnings@[k].line_content@ == dv[failed_indices(
                        dv.subrange(0, idx as int),
                    )[k]] && warnings@[k].error@ == "no recognizable fields in line"@,
            decreases total - idx,
        {
            let ghost pre = dv.subrange(0, idx as int);
            let ghost pre1 = dv.subrange(0, idx as int + 1);
            proof {
                assert(pre1.drop_last() =~= pre);
                assert(pre1.last() == dv[idx as int]);
                lemma_kept_indices_bounds(pre);
                lemma_failed_indices_bounds(pre);
            }
            let line = &lines[idx];
            if blank_line(line.as_str()) {
                proof {
                    assert(kept_indices(pre1) == kept_indices(pre));
                    assert(failed_indices(pre1) == failed_indices(pre));
                }
            } else {
                let entry = LogEntry::parse_log(line.as_str());
                if entry.is_empty_record() {
                    proof {
                        assert(line_unrecognized(dv[idx as int]));
                        assert(kept_indices(pre1) == kept_indices(pre));
                        assert(failed_indices(pre1) == failed_indices(pre).push(idx as int));
                    }
                    warnings.push(
                        ParseWarning {
                            line_number: idx + 1,
                            line_content: line.clone(),
                            error: String::from_str("no recognizable fields in line"),
                        },
                    );
                } else {
                    proof {
                        assert(!line_unrecognized(dv[idx as int]));
                        assert(kept_indices(pre1) == kept_indices(pre).push(idx as int));
                        assert(failed_indices(pre1) == failed_indices(pre));
                    }
                    self.entries.push(entry);
                    parsed = parsed + 1;
                }
            }
            idx = idx + 1;
        }
        proof {
            assert(dv.subrange(0, total as int) =~= dv);
        }
        if parsed == 0 {
            proof {
                assert(self.entries@.subrange(0, old_entries.len() as int) =~= self.entries@);
            }
            return Err(AnalyzerError::EmptyLogFile);
        }
        Ok(ParseResult { warnings, entries_parsed: parsed })
    }
}

// ---------------------------------------------------------------------------
// Filters. Each one walks the collection in order and keeps the records
// its predicate accepts, never touching the collection itself.
// ---------------------------------------------------------------------------

/// Records whose level equals `l`, in their original order.
pub open spec fn filter_level_seq(s: Seq<LogEntry>, l: LogLevel) -> Seq<LogEntry>
    decreases s.len(),
{
    if s.len() == 0 {
        Seq::empty()
    } else {
        let prev = filter_level_seq(s.drop_last(), l);
        if s.last().level == Some(l) {
            prev.push(s.last())
        } else {
            prev
        }
    }
}

/// The level a canonical name denotes; meaningful only for the three
/// canonical names.
pub open spec fn spec_level_of(s: Seq<char>) -> LogLevel {
    if s == "INFO"@ {
        LogLevel::Info
    } else if s == "WARNING"@ {
        LogLevel::Warning
    } else {
        LogLevel::Error
    }
}

/// A word boundary of `t` at position `i`: exactly one of the adjacent
/// positions holds a word character, the outside of the text counting as
/// none.
pub open spec fn word_boundary(t: Seq<char>, i: int) -> bool {
    (i - 1 >= 0 && i - 1 < t.len() && is_word(t[i - 1])) != (0 <= i && i < t.len() && is_word(
        t[i],
    ))
}

/// The pattern occurs literally at `i` with word boundaries on both
/// sides.
pub open spec fn word_bounded_occurrence(t: Seq<char>, pat: Seq<char>, i: int) -> bool {
    &&& 0 <= i
    &&& i + pat.len() <= t.len()
    &&& (forall|k: int| 0 <= k < pat.len() ==> t[i + k] == pat[k])
    &&& word_boundary(t, i)
    &&& word_boundary(t, i + pat.len())
}

/// The pattern occurs somewhere in `t` as a whole word.
pub open spec fn word_match(t: Seq<char>, pat: Seq<char>) -> bool {
    exists|i: int| word_bounded_occurrence(t, pat, i)
}

/// Records whose endpoint contains the pattern as a whole word.
pub open spec fn filter_endpoint_seq(s: Seq<LogEntry>, pat: Seq<char>) -> Seq<LogEntry>
    decreases s.len(),
{
    if s.len() == 0 {
        Seq::empty()
    } else {
        let prev = filter_endpoint_seq(s.drop_last(), pat);
        let keep = match s.last().endpoint {
            Some(ep) => word_match(ep@, pat),
            None => false,
        };
        if keep {
            prev.push(s.last())
        } else {
            prev
        }
    }
}

/// What chrono makes of a text under the "%Y-%m-%d" format: either the
/// (year, month, day) of the date it denotes, or nothing.
pub uninterp spec fn ymd_of(s: Seq<char>) -> Option<(i32, u8, u8)>;

/// Relies on chrono::NaiveDate::parse_from_str with the "%Y-%m-%d" format
/// and the Datelike accessors: whether a text parses, and which calendar
/// date it denotes, depend on the text alone; `ymd_of` names that result.
/// chrono orders dates chronologically, so the verified code compares the
/// (year, month, day) triples lexicographically.
#[verifier::external_body]
fn parse_ymd(s: &str) -> (r: Result<(i32, u8, u8), String>)
    ensures
        r is Ok <==> ymd_of(s@) is Some,
        r matches Ok(d) ==> Some(d) == ymd_of(s@),
{
    match chrono::NaiveDate::parse_from_str(s, "%Y-%m-%d") {
        Ok(d) => Ok((d.year(), d.month() as u8, d.day() as u8)),
        Err(e) => Err(e.to_string()),
    }
}

/// Calendar order on (year, month, day) triples.
pub open spec fn ymd_le(a: (i32, u8, u8), b: (i32, u8, u8)) -> bool {
    a.0 < b.0 || (a.0 == b.0 && (a.1 < b.1 || (a.1 == b.1 && a.2 <= b.2)))
}

fn ymd_le_exec(a: (i32, u8, u8), b: (i32, u8, u8)) -> (r: bool)
    ensures
        r == ymd_le(a, b),
{
    a.0 < b.0 || (a.0 == b.0 && (a.1 < b.1 || (a.1 == b.1 && a.2 <= b.2)))
}

/// The record's timestamp carries a date in the closed interval
/// [start, end]: the first date-shaped substring of the timestamp must
/// parse and fall within it.
pub open spec fn entry_in_date_range(e: LogEntry, start: (i32, u8, u8), end: (i32, u8, u8)) -> bool {
    match e.timestamp {
        Some(ts) => match extract_date_text(ts@) {
            Some(d) => match ymd_of(d) {
                Some(x) => ymd_le(start, x) && ymd_le(x, end),
                None => false,
            },
            None => false,
        },
        None => false,
    }
}

/// Records whose timestamp date falls in the closed interval, in their
/// original order.
pub open spec fn filter_date_seq(
    s: Seq<LogEntry>,
    start: (i32, u8, u8),
    end: (i32, u8, u8),
) -> Seq<LogEntry>
    decreases s.len(),
{
    if s.len() == 0 {
        Seq::empty()
    } else {
        let prev = filter_date_seq(s.drop_last(), start, end);
        if entry_in_date_range(s.last(), start, end) {
            prev.push(s.last())
        } else {
            prev
        }
    }
}

fn occurrence_check(t: &str, pat: &str, i: usize) -> (b: bool)
    requires
        i <= t@.len(),
    ensures
        b == word_bounded_occurrence(t@, pat@, i as int),
{
    let n = t.unicode_len();
    let m = pat.unicode_len();
    if n - i < m {
        return false;
    }
    let mut k: usize = 0;
    while k < m
        invariant
            k <= m,
            m == pat@.len(),
            n == t@.len(),
            i + m <= n,
            forall|q: int| 0 <= q < k ==> t@[i + q] == pat@[q],
        decreases m - k,
    {
        if t.get_char(i + k) != pat.get_char(k) {
            return false;
        }
        k = k + 1;
    }
    let lead_word = i >= 1 && crate::text::word_char(t.get_char(i - 1));
    let here_word = i < n && crate::text::word_char(t.get_char(i));
    let end_prev_word = i + m >= 1 && i + m - 1 < n && crate::text::word_char(
        t.get_char(i + m - 1),
    );
    let end_word = i + m < n && crate::text::word_char(t.get_char(i + m));
    (lead_word != here_word) && (end_prev_word != end_word)
}

/// Whether the pattern occurs in `t` as a whole word, as `word_match`
/// describes.
pub fn word_match_check(t: &str, pat: &str) -> (b: bool)
    ensures
        b == word_match(t@, pat@),
{
    let n = t.unicode_len();
    let mut i: usize = 0;
    while i < n
        invariant
            i <= n,
            n == t@.len(),
            forall|k: int| 0 <= k < i ==> !word_bounded_occurrence(t@, pat@, k),
        decreases n - i,
    {
        if occurrence_check(t, pat, i) {
            proof {
                assert(word_bounded_occurrence(t@, pat@, i as int));
                assert(word_match(t@, pat@));
            }
            return true;
        }
        i = i + 1;
    }
    if occurrence_check(t, pat, n) {
        proof {
            assert(word_bounded_occurrence(t@, pat@, n as int));
            assert(word_match(t@, pat@));
        }
        return true;
    }
    proof {
        assert forall|k: int| !word_bounded_occurrence(t@, pat@, k) by {
            if word_bounded_occurrence(t@, pat@, k) {
                assert(0 <= k <= n);
            }
        }
        assert(!word_match(t@, pat@));
    }
    false
}

impl Logs {
    /// Keeps the records whose level equals the named one; a text that
    /// names no level fails the call and leaves the collection alone.
    pub fn filter_by_level(&self, log_level: &str) -> (r: Result<Vec<LogEntry>, AnalyzerError>)
        ensures
            r is Ok <==> (log_level@ == "INFO"@ || log_level@ == "WARNING"@ || log_level@
                == "ERROR"@),
            r matches Ok(v) ==> v@ == filter_level_seq(self.entries@, spec_level_of(log_level@)),
            r matches Err(e) ==> e is LogLevelParseError,
    {
        let parsed = LogLevel::from_str(log_level);
        let lvl = match parsed {
            Ok(l) => l,
            Err(_) => {
                return Err(AnalyzerError::LogLevelParseError(log_level.to_owned()));
            },
        };
        let ghost entries = self.entries@;
        let mut out: Vec<LogEntry> = Vec::new();
        let total = self.entries.len();
        let mut idx: usize = 0;
        proof {
            assert(entries.subrange(0, 0) =~= Seq::<LogEntry>::empty());
        }
        while idx < total
            invariant
                idx <= total,
                total == self.entries@.len(),
                entries == self.entries@,
                out@ == filter_level_seq(entries.subrange(0, idx as int), lvl),
            decreases total - idx,
        {
            let ghost pre = entries.subrange(0, idx as int);
            let ghost pre1 = entries.subrange(0, idx as int + 1);
            proof {
                assert(pre1.drop_last() =~= pre);
                assert(pre1.last() == entries[idx as int]);
            }
            let e = &self.entries[idx];
            let keep = match &e.level {
                Some(el) => *el == lvl,
                None => false,
            };
            if keep {
                out.push(e.duplicate());
            }
            idx = idx + 1;
        }
        proof {
            assert(entries.subrange(0, total as int) =~= entries);
        }
        Ok(out)
    }

    /// Keeps the records whose timestamp carries a date within the closed
    /// interval named by the two texts; a text that names no date fails
    /// the call.
    pub fn filter_by_date_range(&self, start: &str, end: &str) -> (r: Result<
        Vec<LogEntry>,
        AnalyzerError,
    >)
        ensures
            r is Ok <==> (ymd_of(start@) is Some && ymd_of(end@) is Some),
            r matches Ok(v) ==> v@ == filter_date_seq(
                self.entries@,
                ymd_of(start@)->0,
                ymd_of(end@)->0,
            ),
            r matches Err(e) ==> e is DateParseError,
    {
        let sd = match parse_ymd(start) {
            Ok(d) => d,
            Err(msg) => {
                return Err(AnalyzerError::DateParseError(msg));
            },
        };
        let ed = match parse_ymd(end) {
            Ok(d) => d,
            Err(msg) => {
                return Err(AnalyzerError::DateParseError(msg));
            },
        };
        let ghost entries = self.entries@;
        let mut out: Vec<LogEntry> = Vec::new();
        let total = self.entries.len();
        let mut idx: usize = 0;
        proof {
            assert(entries.subrange(0, 0) =~= Seq::<LogEntry>::empty());
        }
        while idx < total
            invariant
                idx <= total,
                total == self.entries@.len(),
                entries == self.entries@,
                out@ == filter_date_seq(entries.subrange(0, idx as int), sd, ed),
            decreases total - idx,
        {
            let ghost pre = entries.subrange(0, idx as int);
            let ghost pre1 = entries.subrange(0, idx as int + 1);
            proof {
                assert(pre1.drop_last() =~= pre);
                assert(pre1.last() == entries[idx as int]);
            }
            let e = &self.entries[idx];
            let mut keep = false;
            match &e.timestamp {
                Some(ts) => match scan_date_text(ts.as_str()) {
                    Some(d) => match parse_ymd(d.as_str()) {
                        Ok(x) => {
                            keep = ymd_le_exec(sd, x) && ymd_le_exec(x, ed);
                        },
                        Err(_) => {},
                    },
                    None => {},
                },
                None => {},
            }
            if keep {
                out.push(e.duplicate());
            }
            idx = idx + 1;
        }
        proof {
            assert(entries.subrange(0, total as int) =~= entries);
        }
        Ok(out)
    }

    /// Keeps the records whose endpoint contains the literal pattern as a
    /// whole word.
    pub fn filter_by_endpoint(&self, pattern: &str) -> (r: Result<Vec<LogEntry>, AnalyzerError>)
        ensures
            r is Ok,
            r matches Ok(v) ==> v@ == filter_endpoint_seq(self.entries@, pattern@),
    {
        let ghost entries = self.entries@;
        let mut out: Vec<LogEntry> = Vec::new();
        let total = self.entries.len();
        let mut idx: usize = 0;
        proof {
            assert(entries.subrange(0, 0) =~= Seq::<LogEntry>::empty());
        }
        while idx < total
            invariant
                idx <= total,
                total == self.entries@.len(),
                entries == self.entries@,
                out@ == filter_endpoint_seq(entries.subrange(0, idx as int), pattern@),
            decreases total - idx,
        {
            let ghost pre = entries.subrange(0, idx as int);
            let ghost pre1 = entries.subrange(0, idx as int + 1);
            proof {
                assert(pre1.drop_last() =~= pre);
                assert(pre1.last() == entries[idx as int]);
            }
            let e = &self.entries[idx];
            let keep = match &e.endpoint {
                Some(ep) => word_match_check(ep.as_str(), pattern),
                None => false,
            };
            if keep {
                out.push(e.duplicate());
            }
            idx = idx + 1;
        }
        proof {
            assert(entries.subrange(0, total as int) =~= entries);
        }
        Ok(out)
    }
}

/// Whether a line holds only whitespace.
pub fn blank_line(s: &str) -> (b: bool)
    ensures
        b == line_blank(s@),
{
    let n = s.unicode_len();
    let mut i: usize = 0;
    while i < n
        invariant
            i <= n,
            n == s@.len(),
            forall|k: int| 0 <= k < i ==> is_space(#[trigger] s@[k]),
        decreases n - i,
    {
        if !space_char(s.get_char(i)) {
            return false;
        }
        i = i + 1;
    }
    true
}

} // verus!
