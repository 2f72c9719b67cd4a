//! The access-log line parser: a leading timestamp token followed by six
//! double-quoted fields, split on the double-quote character into exactly
//! fifteen segments.
use vstd::prelude::*;

use chrono::Datelike;

use crate::bytes::{
    split_on, split_bytes, all_digits, dec_val, valid_u16, valid_u64, parse_u16, parse_u64,
    is_digit, lemma_dec_val_bound, pow10, copy_bytes,
};

verus! {

// ---------------------------------------------------------------------------
// Timestamp (trusted wrapper over chrono)
// ---------------------------------------------------------------------------

/// A calendar date, as the log timestamp's own UTC offset sees it.
#[derive(Clone, Copy, Debug, PartialEq, Eq, Structural)]
pub struct LogDate {
    pub year: i32,
    pub month: u8,
    pub day: u8,
}

/// What parsing a log timestamp (format `%d/%b/%Y:%H:%M:%S %z`) and taking
/// its local calendar date yields on the given bytes: `(year, month, day)`,
/// or nothing when the bytes do not match the format. A function of the
/// bytes alone.
pub uninterp spec fn ts_date_of(s: Seq<u8>) -> Option<(int, int, int)>;

/// Relies on chrono's `DateTime::parse_from_str` with the fixed format
/// `%d/%b/%Y:%H:%M:%S %z`, and on `DateTime::date_naive`: both are functions
/// of the text alone, and chrono documents the month in 1..=12 and the day
/// in 1..=31.
#[verifier::external_body]
fn timestamp_date(s: &[u8]) -> (r: Option<LogDate>)
    ensures
        match r {
            Some(d) => ts_date_of(s@) == Some((d.year as int, d.month as int, d.day as int))
                && 1 <= d.month <= 12 && 1 <= d.day <= 31,
            None => ts_date_of(s@) == None::<(int, int, int)>,
        },
{
    let text = match core::str::from_utf8(s) {
        Ok(t) => t,
        Err(_) => return None,
    };
    let dt = match chrono::DateTime::parse_from_str(text, "%d/%b/%Y:%H:%M:%S %z") {
        Ok(dt) => dt,
        Err(_) => return None,
    };
    let nd = dt.date_naive();
    Some(LogDate { year: nd.year(), month: nd.month() as u8, day: nd.day() as u8 })
}

// ---------------------------------------------------------------------------
// Client addresses: dotted-decimal or colon-hex
// ---------------------------------------------------------------------------

/// A dotted-decimal octet: one to three digits, no surplus leading zero,
/// value at most 255.
pub open spec fn valid_octet(s: Seq<u8>) -> bool {
    &&& 1 <= s.len() <= 3
    &&& all_digits(s)
    &&& dec_val(s) <= 255
    &&& (s.len() > 1 ==> s[0] != 48)
}

/// Dotted-decimal address: four octets separated by dots.
pub open spec fn valid_ipv4(s: Seq<u8>) -> bool {
    let p = split_on(s, 46);
    p.len() == 4 && forall|i: int| 0 <= i < 4 ==> valid_octet(#[trigger] p[i])
}

/// A hexadecimal digit.
pub open spec fn is_hex(c: u8) -> bool {
    is_digit(c) || (97 <= c <= 102) || (65 <= c <= 70)
}

/// A colon-hex group: one to four hexadecimal digits.
pub open spec fn valid_h16(s: Seq<u8>) -> bool {
    1 <= s.len() <= 4 && forall|i: int| 0 <= i < s.len() ==> is_hex(#[trigger] s[i])
}

/// One interior `::` compression at group position `q` of the colon-split
/// `g`: it stands for at least one zero group, so at most seven groups are
/// written out.
pub open spec fn ipv6_interior_at(g: Seq<Seq<u8>>, q: int) -> bool {
    &&& 0 < q < g.len() - 1
    &&& g[q].len() == 0
    &&& forall|i: int| 0 <= i < q ==> valid_h16(#[trigger] g[i])
    &&& forall|i: int| q < i < g.len() ==> valid_h16(#[trigger] g[i])
    &&& g.len() - 1 <= 7
}

/// Leading `::`: the colon-split starts with two empty groups.
pub open spec fn ipv6_leading(g: Seq<Seq<u8>>) -> bool {
    &&& g.len() >= 3
    &&& g[0].len() == 0
    &&& g[1].len() == 0
    &&& forall|i: int| 2 <= i < g.len() ==> valid_h16(#[trigger] g[i])
    &&& g.len() - 2 <= 7
}

/// Trailing `::`: the colon-split ends with two empty groups.
pub open spec fn ipv6_trailing(g: Seq<Seq<u8>>) -> bool {
    &&& g.len() >= 3
    &&& g[g.len() - 1].len() == 0
    &&& g[g.len() - 2].len() == 0
    &&& forall|i: int| 0 <= i < g.len() - 2 ==> valid_h16(#[trigger] g[i])
    &&& g.len() - 2 <= 7
}

/// Colon-hex address: eight groups, or one `::` compression (interior,
/// leading, trailing, or the bare `::`). Embedded dotted-decimal tails are
/// not part of this grammar.
pub open spec fn valid_ipv6(s: Seq<u8>) -> bool {
    let g = split_on(s, 58);
    ||| (g.len() == 8 && forall|i: int| 0 <= i < 8 ==> valid_h16(#[trigger] g[i]))
    ||| s == seq![58u8, 58u8]
    ||| exists|q: int| ipv6_interior_at(g, q)
    ||| ipv6_leading(g)
    ||| ipv6_trailing(g)
}

/// A client address: dotted-decimal or colon-hex.
pub open spec fn valid_ip(s: Seq<u8>) -> bool {
    valid_ipv4(s) || valid_ipv6(s)
}

/// Decides `valid_octet`.
fn check_octet(s: &Vec<u8>) -> (r: bool)
    ensures
        r == valid_octet(s@),
{
    let n: usize = s.len();
    if n < 1 || n > 3 {
        return false;
    }
    if n > 1 && s[0] == 48 {
        return false;
    }
    match parse_u64(s.as_slice()) {
        Some(v) => {
            proof {
                if all_digits(s@) {
                    lemma_dec_val_bound(s@);
                }
            }
            v <= 255
        },
        None => {
            proof {
                if all_digits(s@) {
                    lemma_dec_val_bound(s@);
                    assert(pow10(s@.len()) <= pow10(3)) by {
                        assert(pow10(0) == 1);
                        assert(pow10(1) == 10);
                        assert(pow10(2) == 100);
                        assert(pow10(3) == 1000);
                    }
                }
            }
            false
        },
    }
}

/// Decides `valid_h16`.
fn check_h16(s: &Vec<u8>) -> (r: bool)
    ensures
        r == valid_h16(s@),
{
    let n: usize = s.len();
    if n < 1 || n > 4 {
        return false;
    }
    let mut i: usize = 0;
    while i < n
        invariant
            0 <= i <= n,
            n == s@.len(),
            forall|j: int| 0 <= j < i ==> is_hex(#[trigger] s@[j]),
        decreases n - i,
    {
        let c = s[i];
        let hex = (48 <= c && c <= 57) || (97 <= c && c <= 102) || (65 <= c && c <= 70);
        if !hex {
            return false;
        }
        i += 1;
    }
    true
}

/// Decides `valid_h16` on every group in `g[lo..hi]`.
fn all_h16_range(g: &Vec<Vec<u8>>, lo: usize, hi: usize) -> (r: bool)
    requires
        lo <= hi <= g@.len(),
    ensures
        r == (forall|i: int| lo <= i < hi ==> valid_h16(#[trigger] g.deep_view()[i])),
{
    let mut i: usize = lo;
    while i < hi
        invariant
            lo <= i <= hi <= g@.len(),
            g@.len() == g.deep_view().len(),
            forall|j: int| lo <= j < i ==> valid_h16(#[trigger] g.deep_view()[j]),
        decreases hi - i,
    {
        proof {
            assert(g.deep_view()[i as int] == g@[i as int]@);
        }
        if !check_h16(&g[i]) {
            return false;
        }
        i += 1;
    }
    true
}

/// Decides `valid_ip`: dotted-decimal or colon-hex.
pub fn is_ip(s: &Vec<u8>) -> (r: bool)
    ensures
        r == valid_ip(s@),
{
    // Dotted-decimal.
    let p = split_bytes(s.as_slice(), 46);
    proof {
        assert(p@.len() == p.deep_view().len());
    }
    if p.len() == 4 {
        let mut ok = true;
        let mut i: usize = 0;
        while i < 4
            invariant
                0 <= i <= 4,
                p@.len() == 4,
                p.deep_view() == split_on(s@, 46),
                ok == (forall|j: int| 0 <= j < i ==> valid_octet(#[trigger] p.deep_view()[j])),
            decreases 4 - i,
        {
            proof {
                assert(p.deep_view()[i as int] == p@[i as int]@);
            }
            if !check_octet(&p[i]) {
                ok = false;
            }
            i += 1;
        }
        if ok {
            return true;
        }
    }
    // Bare `::`.
    if s.len() == 2 && s[0] == 58 && s[1] == 58 {
        proof {
            assert(s@ =~= seq![58u8, 58u8]);
        }
        return true;
    }
    // Colon-hex.
    let g = split_bytes(s.as_slice(), 58);
    let ghost gv = split_on(s@, 58);
    let glen: usize = g.len();
    proof {
        assert(g@.len() == g.deep_view().len());
    }
    // Eight plain groups.
    if glen == 8 && all_h16_range(&g, 0, 8) {
        return true;
    }
    // Leading `::`.
    if glen >= 3 && glen - 2 <= 7 && g[0].len() == 0 && g[1].len() == 0 && all_h16_range(
        &g,
        2,
        glen,
    ) {
        proof {
            assert(gv[0] == g@[0]@);
            assert(gv[1] == g@[1]@);
            assert(ipv6_leading(gv));
        }
        return true;
    }
    // Trailing `::`.
    if glen >= 3 && glen - 2 <= 7 && g[glen - 1].len() == 0 && g[glen - 2].len() == 0
        && all_h16_range(&g, 0, glen - 2) {
        proof {
            assert(gv[glen - 1] == g@[glen - 1]@);
            assert(gv[glen - 2] == g@[glen - 2]@);
            assert(ipv6_trailing(gv));
        }
        return true;
    }
    // Interior `::`.
    if glen >= 3 && glen - 1 <= 7 {
        let mut q: usize = 1;
        while q < glen - 1
            invariant
                1 <= q <= glen - 1,
                3 <= glen == g@.len() == gv.len(),
                glen - 1 <= 7,
                g.deep_view() == gv,
                gv == split_on(s@, 58),
                forall|j: int| 1 <= j < q ==> !ipv6_interior_at(gv, j),
            decreases glen - 1 - q,
        {
            proof {
                assert(gv[q as int] == g@[q as int]@);
            }
            if g[q].len() == 0 && all_h16_range(&g, 0, q) && all_h16_range(&g, q + 1, glen) {
                proof {
                    assert(ipv6_interior_at(gv, q as int));
                    assert(ipv6_interior_at(split_on(s@, 58), q as int));
                    assert(valid_ipv6(s@));
                }
                return true;
            }
            q += 1;
        }
    }
    proof {
        // None of the colon-hex shapes matched.
        if exists|q: int| ipv6_interior_at(gv, q) {
            let q = choose|q: int| ipv6_interior_at(gv, q);
            assert(0 < q < gv.len() - 1);
            assert(gv.len() >= 3);
            assert(gv.len() - 1 <= 7);
        }
        if s@ == seq![58u8, 58u8] {
            assert(s@.len() == 2 && s@[0] == 58 && s@[1] == 58);
        }
        if valid_ipv4(s@) {
            assert(p.deep_view()[0] == p@[0]@);
        }
    }
    false
}

// ---------------------------------------------------------------------------
// The log line
// ---------------------------------------------------------------------------

/// One parsed log line. String-like fields are owned copies of the line's
/// bytes; of the timestamp the local calendar date is kept, which is all the
/// pipeline reads of it.
#[derive(Debug)]
pub struct LogEntry {
    pub date: LogDate,
    pub ip: Vec<u8>,
    pub method: Vec<u8>,
    pub path: Vec<u8>,
    pub version: Vec<u8>,
    pub status: u16,
    pub bytes_sent: u64,
    pub bytes_received: u64,
    pub user_agent: Vec<u8>,
}

/// Ghost form of a parsed log line.
#[verifier::ext_equal]
pub ghost struct LogEntryV {
    pub date: (int, int, int),
    pub ip: Seq<u8>,
    pub method: Seq<u8>,
    pub path: Seq<u8>,
    pub version: Seq<u8>,
    pub status: u16,
    pub bytes_sent: u64,
    pub bytes_received: u64,
    pub user_agent: Seq<u8>,
}

impl LogEntry {
    /// Abstraction of the entry.
    pub open spec fn model(self) -> LogEntryV {
        LogEntryV {
            date: (self.date.year as int, self.date.month as int, self.date.day as int),
            ip: self.ip@,
            method: self.method@,
            path: self.path@,
            version: self.version@,
            status: self.status,
            bytes_sent: self.bytes_sent,
            bytes_received: self.bytes_received,
            user_agent: self.user_agent@,
        }
    }
}

/// Why a log line is malformed.
#[derive(Clone, Copy, Debug, PartialEq, Eq, Structural)]
pub enum LineError {
    /// Splitting on double quotes did not give exactly fifteen segments.
    Segments,
    /// The timestamp does not match the expected format.
    Timestamp,
    /// The client address is neither dotted-decimal nor colon-hex.
    Ip,
    /// The request line does not have exactly three space-separated fields.
    Request,
    /// The status is not a decimal u16.
    Status,
    /// A byte counter is not a decimal u64.
    Bytes,
}

/// What parsing a log line yields: the line splits on `"` into fifteen
/// segments, whose odd positions carry timestamp, client address, request
/// line (`METHOD SP PATH SP VERSION`), status, bytes sent, bytes received
/// and user agent; or the first reason it is malformed.
pub open spec fn spec_parse_line(l: Seq<u8>) -> Result<LogEntryV, LineError> {
    let q = split_on(l, 34);
    if q.len() != 15 {
        Err(LineError::Segments)
    } else if ts_date_of(q[1]) is None {
        Err(LineError::Timestamp)
    } else if !valid_ip(q[3]) {
        Err(LineError::Ip)
    } else {
        let r = split_on(q[5], 32);
        if r.len() != 3 {
            Err(LineError::Request)
        } else if !valid_u16(q[7]) {
            Err(LineError::Status)
        } else if !valid_u64(q[9]) || !valid_u64(q[11]) {
            Err(LineError::Bytes)
        } else {
            Ok(
                LogEntryV {
                    date: match ts_date_of(q[1]) {
                        Some(d) => d,
                        None => (0, 0, 0),
                    },
                    ip: q[3],
                    method: r[0],
                    path: r[1],
                    version: r[2],
                    status: dec_val(q[7]) as u16,
                    bytes_sent: dec_val(q[9]) as u64,
                    bytes_received: dec_val(q[11]) as u64,
                    user_agent: q[13],
                },
            )
        }
    }
}

/// Parses one access-log line, exactly as `spec_parse_line` reads it.
/// Malformed lines do not halt the pipeline: the caller drops them.
pub fn parse_line(line: &[u8]) -> (r: Result<LogEntry, LineError>)
    ensures
        match r {
            Ok(e) => spec_parse_line(line@) == Ok::<LogEntryV, LineError>(e.model()),
            Err(k) => spec_parse_line(line@) == Err::<LogEntryV, LineError>(k),
        },
{
    let q = split_bytes(line, 34);
    proof {
        assert(q@.len() == q.deep_view().len());
    }
    if q.len() != 15 {
        return Err(LineError::Segments);
    }
    proof {
        assert(q.deep_view()[1] == q@[1]@);
        assert(q.deep_view()[3] == q@[3]@);
        assert(q.deep_view()[5] == q@[5]@);
        assert(q.deep_view()[7] == q@[7]@);
        assert(q.deep_view()[9] == q@[9]@);
        assert(q.deep_view()[11] == q@[11]@);
        assert(q.deep_view()[13] == q@[13]@);
    }
    let date = match timestamp_date(q[1].as_slice()) {
        Some(d) => d,
        None => {
            return Err(LineError::Timestamp);
        },
    };
    if !is_ip(&q[3]) {
        return Err(LineError::Ip);
    }
    let req = split_bytes(q[5].as_slice(), 32);
    proof {
        assert(req@.len() == req.deep_view().len());
    }
    if req.len() != 3 {
        return Err(LineError::Request);
    }
    proof {
        assert(req.deep_view()[0] == req@[0]@);
        assert(req.deep_view()[1] == req@[1]@);
        assert(req.deep_view()[2] == req@[2]@);
    }
    let status = match parse_u16(q[7].as_slice()) {
        Some(v) => v,
        None => {
            return Err(LineError::Status);
        },
    };
    let bytes_sent = match parse_u64(q[9].as_slice()) {
        Some(v) => v,
        None => {
            return Err(LineError::Bytes);
        },
    };
    let bytes_received = match parse_u64(q[11].as_slice()) {
        Some(v) => v,
        None => {
            return Err(LineError::Bytes);
        },
    };
    let e = LogEntry {
        date,
        ip: copy_bytes(&q[3]),
        method: copy_bytes(&req[0]),
        path: copy_bytes(&req[1]),
        version: copy_bytes(&req[2]),
        status,
        bytes_sent,
        bytes_received,
        user_agent: copy_bytes(&q[13]),
    };
    proof {
        let sv = spec_parse_line(line@);
        assert(sv is Ok);
        assert(e.model() =~= sv->Ok_0);
    }
    Ok(e)
}

} // verus!
