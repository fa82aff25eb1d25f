//! The per-event logic of the ingestion pipeline: resolving a source
//! address to its owning workload, and turning one log line into at most one
//! append on the aggregated state.
//!
//! The lookup of candidate workloads in the cluster is a capability of the
//! surrounding program; this module takes the returned descriptors as plain
//! values and makes every decision about them here, verified.

use vstd::prelude::*;
use vstd::string::StrSliceExecFns;
use vstd::string::StringExecFns;

use crate::classify::class_kind_of;
use crate::classify::classify;
use crate::classify::first_label;
use crate::classify::is_external_query;
use crate::classify::is_internal_query;
use crate::classify::strip_root;
use crate::classify::success_code;
use crate::classify::ClassKind;
use crate::classify::Classification;
use crate::parse::parse_line;
use crate::parse::parse_line_spec;
use crate::state::AggregatedState;
use crate::text::prefix_before;
use crate::text::prefix_before_exec;
use crate::text::str_eq;
use crate::text::views_of;

verus! {

/// A workload descriptor as the cluster lookup returns it: an identifier
/// and the network address it owns.
#[derive(Clone, Debug)]
pub struct Workload {
    pub name: String,
    pub address: String,
}

/// The source address without a `:port` suffix.
pub open spec fn strip_port_spec(addr: Seq<char>) -> Seq<char> {
    prefix_before(addr, ':')
}

pub fn strip_port(addr: &str) -> (r: String)
    ensures
        r@ == strip_port_spec(addr@),
{
    prefix_before_exec(addr, ':')
}

/// The name of the first workload owning `ip`, when one does.
pub open spec fn first_match(pods: Seq<Workload>, ip: Seq<char>) -> Option<Seq<char>>
    decreases pods.len(),
{
    if pods.len() == 0 {
        None
    } else if pods[0].address@ == ip {
        Some(pods[0].name@)
    } else {
        first_match(pods.drop_first(), ip)
    }
}

/// What the resolver answers for `addr`: the first matching workload's
/// name, or the sentinel when none matches.
pub open spec fn resolved_name(pods: Seq<Workload>, addr: Seq<char>) -> Seq<char> {
    match first_match(pods, strip_port_spec(addr)) {
        Some(n) => n,
        None => "unknown"@,
    }
}

proof fn lemma_first_match_at(pods: Seq<Workload>, ip: Seq<char>, i: int)
    requires
        0 <= i <= pods.len(),
        forall|j: int| 0 <= j < i ==> #[trigger] pods[j].address@ != ip,
        i == pods.len() || pods[i].address@ == ip,
    ensures
        first_match(pods, ip) == (if i < pods.len() {
            Some(pods[i].name@)
        } else {
            None::<Seq<char>>
        }),
    decreases i,
{
    if i == 0 {
    } else {
        assert(pods[0].address@ != ip);
        assert(forall|j: int|
            0 <= j < i - 1 ==> #[trigger] pods.drop_first()[j].address@ == pods[j
                + 1].address@);
        lemma_first_match_at(pods.drop_first(), ip, i - 1);
    }
}

/// Resolves a source address (port suffix allowed) to the owning workload:
/// the first candidate whose address equals the stripped source address,
/// or the sentinel `"unknown"` when none matches — a failed lookup is
/// handed in as an empty candidate list and lands on the same sentinel.
pub fn resolve_workload(addr: &str, pods: &Vec<Workload>) -> (name: String)
    ensures
        name@ == resolved_name(pods@, addr@),
{
    let ip = strip_port(addr);
    let n = pods.len();
    let mut i: usize = 0;
    while i < n
        invariant
            n == pods@.len(),
            0 <= i <= n,
            ip@ == strip_port_spec(addr@),
            forall|j: int| 0 <= j < i ==> #[trigger] pods@[j].address@ != ip@,
        decreases n - i,
    {
        if str_eq(pods[i].address.as_str(), ip.as_str()) {
            proof {
                lemma_first_match_at(pods@, ip@, i as int);
            }
            return pods[i].name.clone();
        }
        i += 1;
    }
    proof {
        lemma_first_match_at(pods@, ip@, n as int);
    }
    "unknown".to_owned()
}

/// One classified observation, ready to be attributed and recorded.
#[derive(Clone, Debug)]
pub struct DnsEvent {
    /// The querying source address, port suffix included.
    pub source_addr: String,
    /// The domain key to record: short label when internal, full name when
    /// external.
    pub domain: String,
    /// Whether the query was cluster-internal.
    pub is_internal: bool,
}

/// What one line contributes: source address, domain key and scope — or
/// nothing, for lines that do not parse and queries that stay unclassified.
pub open spec fn event_of_line(line: Seq<char>, suffixes: Seq<Seq<char>>) -> Option<
    (Seq<char>, Seq<char>, bool),
> {
    match parse_line_spec(line) {
        None => None,
        Some(f) => match class_kind_of(f.2, f.3, suffixes) {
            ClassKind::Internal => Some((f.0, first_label(strip_root(f.2)), true)),
            ClassKind::External => Some((f.0, strip_root(f.2), false)),
            ClassKind::Unclassified => None,
        },
    }
}

/// Parses and classifies one log line. Lines outside the grammar and
/// unclassified queries yield nothing and are meant to be skipped silently.
pub fn extract_event(line: &str, suffixes: &Vec<String>) -> (r: Option<DnsEvent>)
    ensures
        (r is Some) == (event_of_line(line@, views_of(suffixes@)) is Some),
        r matches Some(ev) ==> event_of_line(line@, views_of(suffixes@)) matches Some(e)
            && ev.source_addr@ == e.0 && ev.domain@ == e.1 && ev.is_internal == e.2,
{
    let rec = match parse_line(line) {
        Some(rec) => rec,
        None => {
            return None;
        },
    };
    match classify(rec.qname.as_str(), rec.code.as_str(), suffixes) {
        Classification::Internal(label) => Some(
            DnsEvent { source_addr: rec.source, domain: label, is_internal: true },
        ),
        Classification::External(full) => Some(
            DnsEvent { source_addr: rec.source, domain: full, is_internal: false },
        ),
        Classification::Unclassified => None,
    }
}

/// Records one attributed event: appends the domain key under the workload
/// in the map its scope selects; the other map is untouched.
pub fn apply_event(state: &mut AggregatedState, ev: &DnsEvent, workload: &str)
    requires
        old(state).wf(),
    ensures
        final(state).wf(),
        ev.is_internal ==> old(state).internal.appended_in(
            final(state).internal,
            workload@,
            ev.domain@,
        ) && final(state).external == old(state).external,
        !ev.is_internal ==> old(state).external.appended_in(
            final(state).external,
            workload@,
            ev.domain@,
        ) && final(state).internal == old(state).internal,
{
    if ev.is_internal {
        state.internal.append(workload, ev.domain.as_str());
    } else {
        state.external.append(workload, ev.domain.as_str());
    }
}

/// One full ingestion step for one line: parse, classify, resolve against
/// the given candidate workloads, and record. Returns whether the state
/// changed; a line that yields no event leaves the state exactly as it was.
pub fn ingest_line(
    state: &mut AggregatedState,
    line: &str,
    suffixes: &Vec<String>,
    pods: &Vec<Workload>,
) -> (applied: bool)
    requires
        old(state).wf(),
    ensures
        final(state).wf(),
        applied == (event_of_line(line@, views_of(suffixes@)) is Some),
        event_of_line(line@, views_of(suffixes@)) matches Some(e) ==> {
            let owner = resolved_name(pods@, e.0);
            &&& (e.2 ==> old(state).internal.appended_in(final(state).internal, owner, e.1)
                && final(state).external == old(state).external)
            &&& (!e.2 ==> old(state).external.appended_in(final(state).external, owner, e.1)
                && final(state).internal == old(state).internal)
        },
        event_of_line(line@, views_of(suffixes@)) is None ==> *final(state) == *old(state),
{
    let ev = match extract_event(line, suffixes) {
        Some(ev) => ev,
        None => {
            return false;
        },
    };
    let owner = resolve_workload(ev.source_addr.as_str(), pods);
    apply_event(state, &ev, owner.as_str());
    true
}

/// Law: a line that parses, with a success response code and a query name
/// under the cluster-local suffix, yields exactly one internal event: the
/// query's first label, to be recorded under the workload that resolves
/// from the captured source address. Together with `ingest_line`'s
/// contract, such a line appends that label to the internal map under
/// `resolved_name` of the source, and leaves the external map untouched.
pub proof fn lemma_internal_line_event(
    line: Seq<char>,
    suffixes: Seq<Seq<char>>,
    f: (Seq<char>, Seq<char>, Seq<char>, Seq<char>),
)
    requires
        parse_line_spec(line) == Some(f),
        success_code(f.3),
        is_internal_query(f.2),
    ensures
        event_of_line(line, suffixes) == Some((f.0, first_label(strip_root(f.2)), true)),
{
}

/// Law: a line that parses, with a success response code, a query name not
/// under the cluster-local suffix but with a known public suffix, yields
/// exactly one external event carrying the full stripped name; recorded,
/// by `ingest_line`'s contract, in the external map under the resolved
/// workload, with the internal map untouched.
pub proof fn lemma_external_line_event(
    line: Seq<char>,
    suffixes: Seq<Seq<char>>,
    f: (Seq<char>, Seq<char>, Seq<char>, Seq<char>),
)
    requires
        parse_line_spec(line) == Some(f),
        success_code(f.3),
        !is_internal_query(f.2),
        is_external_query(f.2, suffixes),
    ensures
        event_of_line(line, suffixes) == Some((f.0, strip_root(f.2), false)),
{
}

} // verus!
