//! The query classifier: decides, from a query name and a response code,
//! whether a DNS query was cluster-internal, external under a known public
//! suffix, or of no interest.
//!
//! Rules, in order: strip one trailing root-label separator; a successful
//! query ending in the cluster-local service suffix is internal, keyed by
//! its left-most label; otherwise a successful query whose suffix matches a
//! known public suffix case-insensitively is external, keyed by the full
//! stripped name; everything else is unclassified.

use vstd::prelude::*;
use vstd::string::StrSliceExecFns;
use vstd::string::StringExecFns;

use crate::text::lower_seq;
use crate::text::prefix_before;
use crate::text::prefix_before_exec;
use crate::text::seq_ends_with;
use crate::text::str_ends_with;
use crate::text::str_eq;
use crate::text::to_lowercase;
use crate::text::views_of;

verus! {

/// The decision for one observed query.
#[derive(Clone, Debug, PartialEq, Eq)]
pub enum Classification {
    /// A cluster-internal service query; carries the short service label.
    Internal(String),
    /// A query for an external domain; carries the full stripped name.
    External(String),
    /// Failed lookups, unmatched suffixes, uninteresting traffic.
    Unclassified,
}

/// The spec-level shape of a classification decision.
pub enum ClassKind {
    Internal,
    External,
    Unclassified,
}

/// The query name with one trailing root-label separator removed.
pub open spec fn strip_root(q: Seq<char>) -> Seq<char> {
    if q.len() > 0 && q.last() == '.' {
        q.drop_last()
    } else {
        q
    }
}

/// The cluster-local service-discovery suffix.
pub open spec fn internal_suffix() -> Seq<char> {
    ".svc.cluster.local"@
}

/// A response code that indicates a successful lookup.
pub open spec fn success_code(code: Seq<char>) -> bool {
    code == "NOERROR"@
}

/// The stripped name ends with the cluster-local suffix.
pub open spec fn is_internal_query(name: Seq<char>) -> bool {
    seq_ends_with(strip_root(name), internal_suffix())
}

/// A public suffix as it must appear at the end of a name: after a dot.
pub open spec fn dotted(suffix: Seq<char>) -> Seq<char> {
    seq!['.'] + suffix
}

/// The stripped name, lowercased, ends with a dot followed by one of the
/// known public suffixes.
pub open spec fn is_external_query(name: Seq<char>, suffixes: Seq<Seq<char>>) -> bool {
    exists|i: int|
        0 <= i < suffixes.len() && #[trigger] seq_ends_with(
            lower_seq(strip_root(name)),
            dotted(suffixes[i]),
        )
}

/// The left-most dot-delimited label of a name.
pub open spec fn first_label(q: Seq<char>) -> Seq<char> {
    prefix_before(q, '.')
}

/// Which of the three outcomes the classification rules select.
pub open spec fn class_kind_of(name: Seq<char>, code: Seq<char>, suffixes: Seq<Seq<char>>) -> ClassKind {
    if success_code(code) && is_internal_query(name) {
        ClassKind::Internal
    } else if success_code(code) && is_external_query(name, suffixes) {
        ClassKind::External
    } else {
        ClassKind::Unclassified
    }
}

fn strip_root_exec(q: &str) -> (r: String)
    ensures
        r@ == strip_root(q@),
{
    let n = q.unicode_len();
    if n > 0 && q.get_char(n - 1) == '.' {
        let r = q.substring_char(0, n - 1).to_owned();
        proof {
            assert(q@.subrange(0, n - 1) =~= q@.drop_last());
        }
        r
    } else {
        q.to_owned()
    }
}

/// Classifies one query. Pure and deterministic; the outcome and the carried
/// key are pinned down exactly by `class_kind_of`, `first_label` and
/// `strip_root`.
pub fn classify(query_name: &str, response_code: &str, suffixes: &Vec<String>) -> (c:
    Classification)
    ensures
        (c is Internal) == (class_kind_of(query_name@, response_code@, views_of(suffixes@))
            is Internal),
        (c is External) == (class_kind_of(query_name@, response_code@, views_of(suffixes@))
            is External),
        (c is Unclassified) == (class_kind_of(query_name@, response_code@, views_of(suffixes@))
            is Unclassified),
        c matches Classification::Internal(label) ==> label@ == first_label(
            strip_root(query_name@),
        ),
        c matches Classification::External(full) ==> full@ == strip_root(query_name@),
{
    let q = strip_root_exec(query_name);
    if !str_eq(response_code, "NOERROR") {
        return Classification::Unclassified;
    }
    if str_ends_with(q.as_str(), ".svc.cluster.local") {
        let label = prefix_before_exec(q.as_str(), '.');
        return Classification::Internal(label);
    }
    let lowered = to_lowercase(q.as_str());
    let n = suffixes.len();
    let mut i: usize = 0;
    while i < n
        invariant
            n == suffixes@.len(),
            0 <= i <= n,
            q@ == strip_root(query_name@),
            success_code(response_code@),
            !is_internal_query(query_name@),
            lowered@ == lower_seq(strip_root(query_name@)),
            forall|j: int|
                0 <= j < i ==> !#[trigger] seq_ends_with(
                    lower_seq(strip_root(query_name@)),
                    dotted(views_of(suffixes@)[j]),
                ),
        decreases n - i,
    {
        let mut needle = String::new();
        needle.push('.');
        needle.append(suffixes[i].as_str());
        proof {
            assert(needle@ =~= dotted(views_of(suffixes@)[i as int]));
        }
        if str_ends_with(lowered.as_str(), needle.as_str()) {
            proof {
                assert(seq_ends_with(
                    lower_seq(strip_root(query_name@)),
                    dotted(views_of(suffixes@)[i as int]),
                ));
                assert(is_external_query(query_name@, views_of(suffixes@)));
            }
            return Classification::External(q);
        }
        i += 1;
    }
    Classification::Unclassified
}

/// Law: a successful response whose stripped name carries the cluster-local
/// suffix always classifies as internal; the external rule never takes over.
pub proof fn lemma_internal_rule(name: Seq<char>, code: Seq<char>, suffixes: Seq<Seq<char>>)
    requires
        success_code(code),
        is_internal_query(name),
    ensures
        class_kind_of(name, code, suffixes) is Internal,
{
}

/// Law: a successful response that misses the internal rule but whose
/// lowercased stripped name ends in a dotted known public suffix classifies
/// as external.
pub proof fn lemma_external_rule(name: Seq<char>, code: Seq<char>, suffixes: Seq<Seq<char>>)
    requires
        success_code(code),
        !is_internal_query(name),
        is_external_query(name, suffixes),
    ensures
        class_kind_of(name, code, suffixes) is External,
{
}

/// Law: with a non-success response code the classification is Unclassified,
/// whatever the query name and whatever the suffix set.
pub proof fn lemma_non_success_unclassified(name: Seq<char>, code: Seq<char>, suffixes: Seq<Seq<char>>)
    requires
        !success_code(code),
    ensures
        class_kind_of(name, code, suffixes) is Unclassified,
{
}

/// Law: the external rule is case-insensitive — two names whose stripped
/// forms agree up to ASCII case match exactly the same public suffixes.
pub proof fn lemma_external_case_insensitive(
    name1: Seq<char>,
    name2: Seq<char>,
    suffixes: Seq<Seq<char>>,
)
    requires
        lower_seq(strip_root(name1)) == lower_seq(strip_root(name2)),
    ensures
        is_external_query(name1, suffixes) == is_external_query(name2, suffixes),
{
}

/// Law: for a name that does not already end in a root-label separator,
/// appending one changes neither the outcome of any classification rule nor
/// the internal label: classification is independent of trailing-dot
/// presence.
pub proof fn lemma_trailing_dot_irrelevant(
    name: Seq<char>,
    code: Seq<char>,
    suffixes: Seq<Seq<char>>,
)
    requires
        name.len() == 0 || name.last() != '.',
    ensures
        strip_root(name.push('.')) == strip_root(name),
        is_internal_query(name.push('.')) == is_internal_query(name),
        is_external_query(name.push('.'), suffixes) == is_external_query(name, suffixes),
        first_label(strip_root(name.push('.'))) == first_label(strip_root(name)),
        class_kind_of(name.push('.'), code, suffixes) == class_kind_of(name, code, suffixes),
{
    assert(name.push('.').last() == '.');
    assert(name.push('.').drop_last() =~= name);
    assert(strip_root(name) =~= name);
}

} // verus!
