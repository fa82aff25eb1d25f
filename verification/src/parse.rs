//! Structural parser for one DNS query-log line.
//!
//! The fixed grammar is
//!
//! ```text
//! [INFO] <source> - <digits> "<type> IN <name> udp <digits> <word> <digits>" <code>
//! ```
//!
//! where `<source>` is one or more digits, dots or colons, `<type>`, `<word>`
//! and `<code>` are word characters, and `<name>` allows word characters,
//! dots and hyphens. Each token is the maximal run of its class. The
//! grammar may begin at any offset — the first offset where it matches
//! wins — and anything after the response code is ignored. A line that
//! matches nowhere is skipped by the ingestion pipeline, never an error.

use vstd::prelude::*;
use vstd::string::StrSliceExecFns;

use crate::text::match_at;

verus! {

/// The fields captured from one well-formed log line.
#[derive(Clone, Debug, PartialEq, Eq)]
pub struct LogRecord {
    /// Source address of the query, possibly with a port suffix.
    pub source: String,
    /// Query type, e.g. `A` or `AAAA`.
    pub qtype: String,
    /// The queried name.
    pub qname: String,
    /// The response code, e.g. `NOERROR` or `NXDOMAIN`.
    pub code: String,
}

/// The character classes of the line grammar.
#[derive(Clone, Copy, Debug)]
pub enum CharClass {
    /// `0`..`9`
    Digit,
    /// digits, `.` and `:`
    AddrChar,
    /// letters, digits and `_`
    WordChar,
    /// word characters, `.` and `-`
    NameChar,
}

pub open spec fn in_class(cls: CharClass, c: char) -> bool {
    match cls {
        CharClass::Digit => '0' <= c && c <= '9',
        CharClass::AddrChar => ('0' <= c && c <= '9') || c == '.' || c == ':',
        CharClass::WordChar => ('0' <= c && c <= '9') || ('a' <= c && c <= 'z') || ('A' <= c
            && c <= 'Z') || c == '_',
        CharClass::NameChar => ('0' <= c && c <= '9') || ('a' <= c && c <= 'z') || ('A' <= c
            && c <= 'Z') || c == '_' || c == '.' || c == '-',
    }
}

pub fn in_class_exec(cls: CharClass, c: char) -> (r: bool)
    ensures
        r == in_class(cls, c),
{
    match cls {
        CharClass::Digit => '0' <= c && c <= '9',
        CharClass::AddrChar => ('0' <= c && c <= '9') || c == '.' || c == ':',
        CharClass::WordChar => ('0' <= c && c <= '9') || ('a' <= c && c <= 'z') || ('A' <= c
            && c <= 'Z') || c == '_',
        CharClass::NameChar => ('0' <= c && c <= '9') || ('a' <= c && c <= 'z') || ('A' <= c
            && c <= 'Z') || c == '_' || c == '.' || c == '-',
    }
}

/// Where the maximal run of `cls` characters beginning at `i` ends.
pub open spec fn run_end(s: Seq<char>, i: int, cls: CharClass) -> int
    decreases s.len() - i
        when 0 <= i <= s.len()
{
    if i < s.len() && in_class(cls, s[i]) {
        run_end(s, i + 1, cls)
    } else {
        i
    }
}

proof fn lemma_run_end_bounds(s: Seq<char>, i: int, cls: CharClass)
    requires
        0 <= i <= s.len(),
    ensures
        i <= run_end(s, i, cls) <= s.len(),
    decreases s.len() - i,
{
    if i < s.len() && in_class(cls, s[i]) {
        lemma_run_end_bounds(s, i + 1, cls);
    }
}

/// `lit` stands in `s` at position `i`.
pub open spec fn lit_at(s: Seq<char>, i: int, lit: Seq<char>) -> bool {
    i + lit.len() <= s.len() && s.subrange(i, i + lit.len()) == lit
}

fn lit_at_exec(s: &str, i: usize, lit: &str) -> (r: bool)
    requires
        i <= s@.len(),
    ensures
        r == lit_at(s@, i as int, lit@),
{
    let n = s.unicode_len();
    let m = lit.unicode_len();
    if m > n - i {
        return false;
    }
    match_at(s, lit, i)
}

fn scan_run(s: &str, start: usize, cls: CharClass) -> (e: usize)
    requires
        start <= s@.len(),
    ensures
        e == run_end(s@, start as int, cls),
        start <= e <= s@.len(),
{
    let n = s.unicode_len();
    let mut i = start;
    while i < n && in_class_exec(cls, s.get_char(i))
        invariant
            n == s@.len(),
            start <= i <= n,
            run_end(s@, start as int, cls) == run_end(s@, i as int, cls),
        decreases n - i,
    {
        i += 1;
    }
    proof {
        assert(run_end(s@, i as int, cls) == i);
    }
    i
}

/// The structural parse of the grammar beginning at offset `k`: the four
/// captured fields, or nothing when the text there does not match.
pub open spec fn parse_at(s: Seq<char>, k: int) -> Option<(Seq<char>, Seq<char>, Seq<char>, Seq<char>)> {
    let p1 = k + "[INFO] "@.len();
    if !lit_at(s, k, "[INFO] "@) {
        None
    } else {
        let a_end = run_end(s, p1, CharClass::AddrChar);
        if a_end == p1 || !lit_at(s, a_end, " - "@) {
            None
        } else {
            let p2 = a_end + " - "@.len();
            let d1 = run_end(s, p2, CharClass::Digit);
            if d1 == p2 || !lit_at(s, d1, " \""@) {
                None
            } else {
                let p3 = d1 + " \""@.len();
                let t_end = run_end(s, p3, CharClass::WordChar);
                if t_end == p3 || !lit_at(s, t_end, " IN "@) {
                    None
                } else {
                    let p4 = t_end + " IN "@.len();
                    let q_end = run_end(s, p4, CharClass::NameChar);
                    if q_end == p4 || !lit_at(s, q_end, " udp "@) {
                        None
                    } else {
                        let p5 = q_end + " udp "@.len();
                        let d2 = run_end(s, p5, CharClass::Digit);
                        if d2 == p5 || !lit_at(s, d2, " "@) {
                            None
                        } else {
                            let p6 = d2 + " "@.len();
                            let w_end = run_end(s, p6, CharClass::WordChar);
                            if w_end == p6 || !lit_at(s, w_end, " "@) {
                                None
                            } else {
                                let p7 = w_end + " "@.len();
                                let d3 = run_end(s, p7, CharClass::Digit);
                                if d3 == p7 || !lit_at(s, d3, "\" "@) {
                                    None
                                } else {
                                    let p8 = d3 + "\" "@.len();
                                    let c_end = run_end(s, p8, CharClass::WordChar);
                                    if c_end == p8 {
                                        None
                                    } else {
                                        Some(
                                            (
                                                s.subrange(p1, a_end),
                                                s.subrange(p3, t_end),
                                                s.subrange(p4, q_end),
                                                s.subrange(p8, c_end),
                                            ),
                                        )
                                    }
                                }
                            }
                        }
                    }
                }
            }
        }
    }
}

/// The first offset at or after `k` where the grammar matches, if any.
pub open spec fn first_parse(s: Seq<char>, k: int) -> Option<(Seq<char>, Seq<char>, Seq<char>, Seq<char>)>
    decreases s.len() - k
        when 0 <= k <= s.len()
{
    match parse_at(s, k) {
        Some(f) => Some(f),
        None => if k >= s.len() {
            None
        } else {
            first_parse(s, k + 1)
        },
    }
}

/// The structural parse of one line: the grammar may begin at any offset,
/// and the first offset where it matches wins.
pub open spec fn parse_line_spec(s: Seq<char>) -> Option<(Seq<char>, Seq<char>, Seq<char>, Seq<char>)> {
    first_parse(s, 0)
}

proof fn lemma_first_parse_skip(s: Seq<char>, k: int)
    requires
        0 <= k <= s.len(),
        forall|j: int| 0 <= j < k ==> #[trigger] parse_at(s, j) is None,
    ensures
        first_parse(s, 0) == first_parse(s, k),
    decreases k,
{
    if k > 0 {
        lemma_first_parse_skip(s, k - 1);
        assert(parse_at(s, k - 1) is None);
    }
}

/// One attempt of the grammar at offset `k`.
fn parse_at_exec(line: &str, k: usize) -> (r: Option<LogRecord>)
    requires
        k <= line@.len(),
    ensures
        (r is Some) == (parse_at(line@, k as int) is Some),
        r matches Some(rec) ==> parse_at(line@, k as int) matches Some(f) && rec.source@ == f.0
            && rec.qtype@ == f.1 && rec.qname@ == f.2 && rec.code@ == f.3,
{
    let n = line.unicode_len();
    let head = "[INFO] ";
    if !lit_at_exec(line, k, head) {
        return None;
    }
    let p1 = k + head.unicode_len();
    let a_end = scan_run(line, p1, CharClass::AddrChar);
    if a_end == p1 || !lit_at_exec(line, a_end, " - ") {
        return None;
    }
    let p2 = a_end + " - ".unicode_len();
    let d1 = scan_run(line, p2, CharClass::Digit);
    if d1 == p2 || !lit_at_exec(line, d1, " \"") {
        return None;
    }
    let p3 = d1 + " \"".unicode_len();
    let t_end = scan_run(line, p3, CharClass::WordChar);
    if t_end == p3 || !lit_at_exec(line, t_end, " IN ") {
        return None;
    }
    let p4 = t_end + " IN ".unicode_len();
    let q_end = scan_run(line, p4, CharClass::NameChar);
    if q_end == p4 || !lit_at_exec(line, q_end, " udp ") {
        return None;
    }
    let p5 = q_end + " udp ".unicode_len();
    let d2 = scan_run(line, p5, CharClass::Digit);
    if d2 == p5 || !lit_at_exec(line, d2, " ") {
        return None;
    }
    let p6 = d2 + " ".unicode_len();
    let w_end = scan_run(line, p6, CharClass::WordChar);
    if w_end == p6 || !lit_at_exec(line, w_end, " ") {
        return None;
    }
    let p7 = w_end + " ".unicode_len();
    let d3 = scan_run(line, p7, CharClass::Digit);
    if d3 == p7 || !lit_at_exec(line, d3, "\" ") {
        return None;
    }
    let p8 = d3 + "\" ".unicode_len();
    let c_end = scan_run(line, p8, CharClass::WordChar);
    if c_end == p8 {
        return None;
    }
    let rec = LogRecord {
        source: line.substring_char(p1, a_end).to_owned(),
        qtype: line.substring_char(p3, t_end).to_owned(),
        qname: line.substring_char(p4, q_end).to_owned(),
        code: line.substring_char(p8, c_end).to_owned(),
    };
    Some(rec)
}

/// Parses one log line: the grammar is sought from the start of the line
/// and the first offset where it matches yields the captured fields; a line
/// without a match anywhere yields nothing.
pub fn parse_line(line: &str) -> (r: Option<LogRecord>)
    ensures
        (r is Some) == (parse_line_spec(line@) is Some),
        r matches Some(rec) ==> parse_line_spec(line@) matches Some(f) && rec.source@ == f.0
            && rec.qtype@ == f.1 && rec.qname@ == f.2 && rec.code@ == f.3,
{
    let n = line.unicode_len();
    let mut k: usize = 0;
    loop
        invariant
            n == line@.len(),
            0 <= k <= n,
            forall|j: int| 0 <= j < k ==> #[trigger] parse_at(line@, j) is None,
        decreases n - k,
    {
        let attempt = parse_at_exec(line, k);
        if attempt.is_some() {
            proof {
                lemma_first_parse_skip(line@, k as int);
            }
            return attempt;
        }
        if k == n {
            proof {
                lemma_first_parse_skip(line@, k as int);
            }
            return None;
        }
        k += 1;
    }
}

} // verus!
