//! The machine-readable export: a JSON rendering of a statistics
//! snapshot, built by verified string concatenation.

use vstd::prelude::*;
use vstd::string::{StringExecFns, StrSliceExecFns};
use crate::extract::{LogEntry, IpAddress};
use crate::level::{LogLevel, LogMethod, level_name, method_name};
use crate::stats::LogStats;
use crate::text::{dec_digits, digit_char_of, push_decimal};

verus! {

/// The hexadecimal digit for a value below sixteen.
pub open spec fn hex_digit(d: nat) -> char {
    if d < 10 {
        digit_char_of(d)
    } else if d == 10 {
        'a'
    } else if d == 11 {
        'b'
    } else if d == 12 {
        'c'
    } else if d == 13 {
        'd'
    } else if d == 14 {
        'e'
    } else {
        'f'
    }
}

/// How one character is written inside a JSON string: quote and backslash
/// get a backslash escape, control characters a \u escape, everything
/// else stands as itself.
pub open spec fn json_escape_char(c: char) -> Seq<char> {
    if c == '"' {
        "\\\""@
    } else if c == '\\' {
        "\\\\"@
    } else if (c as u32) < 32 {
        "\\u00"@ + seq![hex_digit((c as u32 / 16) as nat)] + seq![hex_digit((c as u32 % 16) as nat)]
    } else {
        seq![c]
    }
}

/// A text written inside a JSON string, character by character.
pub open spec fn json_escaped(s: Seq<char>) -> Seq<char>
    decreases s.len(),
{
    if s.len() == 0 {
        Seq::empty()
    } else {
        json_escaped(s.drop_last()) + json_escape_char(s.last())
    }
}

/// A quoted JSON string.
pub open spec fn json_string(s: Seq<char>) -> Seq<char> {
    "\""@ + json_escaped(s) + "\""@
}

/// A quoted JSON string, or null when the text is absent.
pub open spec fn opt_json_string(o: Option<Seq<char>>) -> Seq<char> {
    match o {
        Some(s) => json_string(s),
        None => "null"@,
    }
}

/// Three decimal digits, zero-padded.
pub open spec fn pad3(n: nat) -> Seq<char> {
    seq![digit_char_of((n / 100) % 10)] + seq![digit_char_of((n / 10) % 10)] + seq![
        digit_char_of(n % 10),
    ]
}

/// A value held in thousandths, written as a decimal number with three
/// fraction digits.
pub open spec fn thousandths_text(v: nat) -> Seq<char> {
    dec_digits(v / 1000) + "."@ + pad3(v % 1000)
}

/// The dotted-quad text of an IP address.
pub open spec fn ip_text(ip: IpAddress) -> Seq<char> {
    dec_digits(ip.a as nat) + "."@ + dec_digits(ip.b as nat) + "."@ + dec_digits(ip.c as nat)
        + "."@ + dec_digits(ip.d as nat)
}

/// One record as a JSON object; absent fields are null.
pub open spec fn json_entry(e: LogEntry) -> Seq<char> {
    "{\"timestamp\":"@ + opt_json_string(crate::extract::opt_string_view(e.timestamp))
        + ",\"level\":"@ + (match e.level {
        Some(l) => json_string(level_name(l)),
        None => "null"@,
    }) + ",\"ip_address\":"@ + (match e.ip_address {
        Some(ip) => json_string(ip_text(ip)),
        None => "null"@,
    }) + ",\"method\":"@ + (match e.method {
        Some(m) => json_string(method_name(m)),
        None => "null"@,
    }) + ",\"endpoint\":"@ + opt_json_string(crate::extract::opt_string_view(e.endpoint))
        + ",\"status_code\":"@ + (match e.status_code {
        Some(v) => dec_digits(v as nat),
        None => "null"@,
    }) + ",\"response_time\":"@ + (match e.response_time {
        Some(v) => thousandths_text(v as nat),
        None => "null"@,
    }) + ",\"message\":"@ + opt_json_string(crate::extract::opt_string_view(e.message)) + "}"@
}

/// One key of a frequency mapping with its count.
pub open spec fn json_pair(p: (String, usize)) -> Seq<char> {
    json_string(p.0@) + ":"@ + dec_digits(p.1 as nat)
}

/// The pairs of a frequency mapping, comma-separated, in their recorded
/// order.
pub open spec fn json_pairs(ps: Seq<(String, usize)>) -> Seq<char>
    decreases ps.len(),
{
    if ps.len() == 0 {
        Seq::empty()
    } else if ps.len() == 1 {
        json_pair(ps[0])
    } else {
        json_pairs(ps.drop_last()) + ","@ + json_pair(ps.last())
    }
}

/// The records of the ranking, comma-separated, in order.
pub open spec fn json_entries(s: Seq<LogEntry>) -> Seq<char>
    decreases s.len(),
{
    if s.len() == 0 {
        Seq::empty()
    } else if s.len() == 1 {
        json_entry(s[0])
    } else {
        json_entries(s.drop_last()) + ","@ + json_entry(s.last())
    }
}

/// The counts and the mean; the mean divides by the total record count
/// and is null for an empty snapshot.
pub open spec fn json_counts_text(st: LogStats) -> Seq<char> {
    "{\"total_requests\":"@ + dec_digits(st.total_requests as nat) + ",\"error_count\":"@
        + dec_digits(st.error_count as nat) + ",\"warning_count\":"@ + dec_digits(
        st.warning_count as nat,
    ) + ",\"info_count\":"@ + dec_digits(st.info_count as nat) + ",\"avg_response_time\":"@ + (
    if st.total_requests == 0 {
        "null"@
    } else {
        thousandths_text((st.response_time_sum as nat) / (st.total_requests as nat))
    })
}

pub open spec fn json_maps_text(st: LogStats) -> Seq<char> {
    ",\"endpoint_frequency\":{"@ + json_pairs(st.endpoint_frequency.pairs@)
        + "},\"errors_by_endpoint\":{"@ + json_pairs(st.errors_by_endpoint.pairs@) + "}"@
}

pub open spec fn json_slowest_text(st: LogStats) -> Seq<char> {
    ",\"slowest_requests\":["@ + json_entries(st.slowest_requests@) + "]}"@
}

/// The whole snapshot as one JSON object.
pub open spec fn json_of_stats(st: LogStats) -> Seq<char> {
    json_counts_text(st) + json_maps_text(st) + json_slowest_text(st)
}

fn append_hex(out: &mut String, d: u32)
    requires
        d < 16,
    ensures
        final(out)@ == old(out)@ + seq![hex_digit(d as nat)],
{
    let piece: &str = if d == 0 {
        "0"
    } else if d == 1 {
        "1"
    } else if d == 2 {
        "2"
    } else if d == 3 {
        "3"
    } else if d == 4 {
        "4"
    } else if d == 5 {
        "5"
    } else if d == 6 {
        "6"
    } else if d == 7 {
        "7"
    } else if d == 8 {
        "8"
    } else if d == 9 {
        "9"
    } else if d == 10 {
        "a"
    } else if d == 11 {
        "b"
    } else if d == 12 {
        "c"
    } else if d == 13 {
        "d"
    } else if d == 14 {
        "e"
    } else {
        "f"
    };
    proof {
        reveal_strlit("0");
        reveal_strlit("1");
        reveal_strlit("2");
        reveal_strlit("3");
        reveal_strlit("4");
        reveal_strlit("5");
        reveal_strlit("6");
        reveal_strlit("7");
        reveal_strlit("8");
        reveal_strlit("9");
        reveal_strlit("a");
        reveal_strlit("b");
        reveal_strlit("c");
        reveal_strlit("d");
        reveal_strlit("e");
        reveal_strlit("f");
    }
    out.append(piece);
    proof {
        assert(piece@ =~= seq![hex_digit(d as nat)]);
    }
}

/// Writes the text inside a JSON string, escaping as `json_escaped`
/// describes.
fn push_json_escaped(out: &mut String, s: &str)
    ensures
        final(out)@ == old(out)@ + json_escaped(s@),
{
    let n = s.unicode_len();
    let mut i: usize = 0;
    proof {
        assert(s@.subrange(0, 0) =~= Seq::<char>::empty());
        assert(out@ + Seq::<char>::empty() =~= out@);
    }
    while i < n
        invariant
            i <= n,
            n == s@.len(),
            out@ == old(out)@ + json_escaped(s@.subrange(0, i as int)),
        decreases n - i,
    {
        let ghost before = out@;
        let ghost pre = s@.subrange(0, i as int);
        let ghost pre1 = s@.subrange(0, i as int + 1);
        proof {
            assert(pre1.drop_last() =~= pre);
            assert(pre1.last() == s@[i as int]);
        }
        let c = s.get_char(i);
        if c == '"' {
            out.append("\\\"");
        } else if c == '\\' {
            out.append("\\\\");
        } else if (c as u32) < 32 {
            let u = c as u32;
            out.append("\\u00");
            append_hex(out, u / 16);
            append_hex(out, u % 16);
            proof {
                assert(out@ =~= before + json_escape_char(c));
            }
        } else {
            let piece = s.substring_char(i, i + 1);
            out.append(piece);
            proof {
                assert(piece@ =~= seq![c]);
            }
        }
        proof {
            assert(out@ =~= old(out)@ + json_escaped(pre1));
        }
        i = i + 1;
    }
    proof {
        assert(s@.subrange(0, n as int) =~= s@);
    }
}

/// A quoted JSON string of the given text.
fn json_string_of(s: &str) -> (r: String)
    ensures
        r@ == json_string(s@),
{
    let mut out = String::from_str("\"");
    push_json_escaped(&mut out, s);
    out.append("\"");
    proof {
        assert(out@ =~= json_string(s@));
    }
    out
}

fn dec_str(n: u128) -> (r: String)
    ensures
        r@ == dec_digits(n as nat),
{
    let mut out = String::new();
    push_decimal(&mut out, n);
    proof {
        assert(out@ =~= dec_digits(n as nat));
    }
    out
}

fn pad3_str(n: u128) -> (r: String)
    ensures
        r@ == pad3(n as nat),
{
    let mut out = String::new();
    crate::text::append_digit(&mut out, (n / 100) % 10);
    crate::text::append_digit(&mut out, (n / 10) % 10);
    crate::text::append_digit(&mut out, n % 10);
    proof {
        assert(out@ =~= pad3(n as nat));
    }
    out
}

fn thousandths_str(v: u128) -> (r: String)
    ensures
        r@ == thousandths_text(v as nat),
{
    let mut out = dec_str(v / 1000);
    out.append(".");
    let frac = pad3_str(v % 1000);
    out.append(frac.as_str());
    proof {
        assert(out@ =~= thousandths_text(v as nat));
    }
    out
}

fn ip_text_str(ip: &IpAddress) -> (r: String)
    ensures
        r@ == ip_text(*ip),
{
    let mut out = dec_str(ip.a as u128);
    out.append(".");
    let b = dec_str(ip.b as u128);
    out.append(b.as_str());
    out.append(".");
    let c = dec_str(ip.c as u128);
    out.append(c.as_str());
    out.append(".");
    let d = dec_str(ip.d as u128);
    out.append(d.as_str());
    proof {
        assert(out@ =~= ip_text(*ip));
    }
    out
}

fn json_entry_str(e: &LogEntry) -> (r: String)
    ensures
        r@ == json_entry(*e),
{
    let mut out = String::from_str("{\"timestamp\":");
    match &e.timestamp {
        Some(t) => {
            let piece = json_string_of(t.as_str());
            out.append(piece.as_str());
        },
        None => {
            out.append("null");
        },
    }
    out.append(",\"level\":");
    match &e.level {
        Some(l) => {
            let piece = json_string_of(l.as_str());
            out.append(piece.as_str());
        },
        None => {
            out.append("null");
        },
    }
    out.append(",\"ip_address\":");
    match &e.ip_address {
        Some(ip) => {
            let text = ip_text_str(ip);
            let piece = json_string_of(text.as_str());
            out.append(piece.as_str());
        },
        None => {
            out.append("null");
        },
    }
    out.append(",\"method\":");
    match &e.method {
        Some(m) => {
            let piece = json_string_of(m.as_str());
            out.append(piece.as_str());
        },
        None => {
            out.append("null");
        },
    }
    out.append(",\"endpoint\":");
    match &e.endpoint {
        Some(t) => {
            let piece = json_string_of(t.as_str());
            out.append(piece.as_str());
        },
        None => {
            out.append("null");
        },
    }
    out.append(",\"status_code\":");
    match &e.status_code {
        Some(v) => {
            let piece = dec_str(*v as u128);
            out.append(piece.as_str());
        },
        None => {
            out.append("null");
        },
    }
    out.append(",\"response_time\":");
    match &e.response_time {
        Some(v) => {
            let piece = thousandths_str(*v as u128);
            out.append(piece.as_str());
        },
        None => {
            out.append("null");
        },
    }
    out.append(",\"message\":");
    match &e.message {
        Some(t) => {
            let piece = json_string_of(t.as_str());
            out.append(piece.as_str());
        },
        None => {
            out.append("null");
        },
    }
    out.append("}");
    proof {
        assert(out@ =~= json_entry(*e));
    }
    out
}

fn json_pairs_str(ps: &Vec<(String, usize)>) -> (r: String)
    ensures
        r@ == json_pairs(ps@),
{
    let mut out = String::new();
    let total = ps.len();
    let mut i: usize = 0;
    proof {
        assert(ps@.subrange(0, 0) =~= Seq::<(String, usize)>::empty());
    }
    while i < total
        invariant
            i <= total,
            total == ps@.len(),
            out@ == json_pairs(ps@.subrange(0, i as int)),
        decreases total - i,
    {
        let ghost pre = ps@.subrange(0, i as int);
        let ghost pre1 = ps@.subrange(0, i as int + 1);
        proof {
            assert(pre1.drop_last() =~= pre);
            assert(pre1.last() == ps@[i as int]);
            assert(pre1[0] == ps@[0]);
        }
        if i > 0 {
            out.append(",");
        }
        let piece = json_string_of(ps[i].0.as_str());
        out.append(piece.as_str());
        out.append(":");
        let count = dec_str(ps[i].1 as u128);
        out.append(count.as_str());
        proof {
            assert(out@ =~= json_pairs(pre1));
        }
        i = i + 1;
    }
    proof {
        assert(ps@.subrange(0, total as int) =~= ps@);
    }
    out
}

fn json_entries_str(v: &Vec<LogEntry>) -> (r: String)
    ensures
        r@ == json_entries(v@),
{
    let mut out = String::new();
    let total = v.len();
    let mut i: usize = 0;
    proof {
        assert(v@.subrange(0, 0) =~= Seq::<LogEntry>::empty());
    }
    while i < total
        invariant
            i <= total,
            total == v@.len(),
            out@ == json_entries(v@.subrange(0, i as int)),
        decreases total - i,
    {
        let ghost pre = v@.subrange(0, i as int);
        let ghost pre1 = v@.subrange(0, i as int + 1);
        proof {
            assert(pre1.drop_last() =~= pre);
            assert(pre1.last() == v@[i as int]);
            assert(pre1[0] == v@[0]);
        }
        if i > 0 {
            out.append(",");
        }
        let piece = json_entry_str(&v[i]);
        out.append(piece.as_str());
        proof {
            assert(out@ =~= json_entries(pre1));
        }
        i = i + 1;
    }
    proof {
        assert(v@.subrange(0, total as int) =~= v@);
    }
    out
}

impl LogStats {
    /// The snapshot as JSON text, as `json_of_stats` describes it.
    pub fn to_json(&self) -> (r: String)
        ensures
            r@ == json_of_stats(*self),
    {
        let mut out = String::from_str("{\"total_requests\":");
        let piece = dec_str(self.total_requests as u128);
        out.append(piece.as_str());
        out.append(",\"error_count\":");
        let piece = dec_str(self.error_count as u128);
        out.append(piece.as_str());
        out.append(",\"warning_count\":");
        let piece = dec_str(self.warning_count as u128);
        out.append(piece.as_str());
        out.append(",\"info_count\":");
        let piece = dec_str(self.info_count as u128);
        out.append(piece.as_str());
        out.append(",\"avg_response_time\":");
        if self.total_requests == 0 {
            out.append("null");
        } else {
            let piece = thousandths_str(self.response_time_sum / (self.total_requests as u128));
            out.append(piece.as_str());
        }
        proof {
            assert(out@ =~= json_counts_text(*self));
        }
        out.append(",\"endpoint_frequency\":{");
        let piece = json_pairs_str(&self.endpoint_frequency.pairs);
        out.append(piece.as_str());
        out.append("},\"errors_by_endpoint\":{");
        let piece = json_pairs_str(&self.errors_by_endpoint.pairs);
        out.append(piece.as_str());
        out.append("}");
        proof {
            assert(out@ =~= json_counts_text(*self) + json_maps_text(*self));
        }
        out.append(",\"slowest_requests\":[");
        let piece = json_entries_str(&self.slowest_requests);
        out.append(piece.as_str());
        out.append("]}");
        proof {
            assert(out@ =~= json_of_stats(*self));
        }
        out
    }
}

} // verus!
