//! The aggregated view of observed DNS traffic.
//!
//! Two insertion-ordered maps from workload identifier to the sequence of
//! domain keys observed for that workload: one for cluster-internal queries,
//! one for external ones. Appends are strictly append-only and duplicates
//! are kept on purpose — the length of a list doubles as a frequency signal.
//! A snapshot is a plain copy of this state; its identity is its content.

use vstd::prelude::*;
use vstd::string::StrSliceExecFns;
use vstd::string::StringExecFns;

use crate::text::str_eq;
use crate::text::views_of;

verus! {

/// One workload and the domain keys observed for it, in insertion order.
#[derive(Clone, Debug)]
pub struct WorkloadEntry {
    pub workload: String,
    pub domains: Vec<String>,
}

/// An insertion-ordered map from workload identifier to domain keys.
#[derive(Clone, Debug)]
pub struct DomainMap {
    pub entries: Vec<WorkloadEntry>,
}

impl DomainMap {
    /// Workload identifiers are pairwise distinct.
    pub open spec fn wf(self) -> bool {
        forall|i: int, j: int|
            0 <= i < j < self.entries@.len() ==> #[trigger] self.entries@[i].workload@
                != #[trigger] self.entries@[j].workload@
    }

    pub open spec fn len_spec(self) -> int {
        self.entries@.len() as int
    }

    pub open spec fn key_at(self, i: int) -> Seq<char> {
        self.entries@[i].workload@
    }

    pub open spec fn domains_at(self, i: int) -> Seq<Seq<char>> {
        views_of(self.entries@[i].domains@)
    }

    /// Some entry carries the key `k`.
    pub open spec fn has_key(self, k: Seq<char>) -> bool {
        exists|i: int| 0 <= i < self.len_spec() && #[trigger] self.key_at(i) == k
    }

    /// The index of the entry carrying `k`, meaningful when `has_key(k)`.
    pub open spec fn index_of_key(self, k: Seq<char>) -> int {
        choose|i: int| 0 <= i < self.len_spec() && #[trigger] self.key_at(i) == k
    }

    pub fn new() -> (m: DomainMap)
        ensures
            m.wf(),
            m.len_spec() == 0,
    {
        DomainMap { entries: Vec::new() }
    }

    /// Domain `d` was appended under key `k`: either the entry that carried
    /// `k` grew by exactly `d` at its end, or a fresh entry `k -> [d]` stands
    /// at the end of the map; all other entries are untouched.
    pub open spec fn appended_in(self, m1: DomainMap, k: Seq<char>, d: Seq<char>) -> bool {
        &&& (self.has_key(k) ==> {
            let i = self.index_of_key(k);
            &&& m1.len_spec() == self.len_spec()
            &&& m1.key_at(i) == k
            &&& m1.domains_at(i) == self.domains_at(i).push(d)
            &&& forall|j: int|
                0 <= j < self.len_spec() && j != i ==> m1.entries@[j] == self.entries@[j]
        })
        &&& (!self.has_key(k) ==> {
            &&& m1.len_spec() == self.len_spec() + 1
            &&& m1.key_at(self.len_spec()) == k
            &&& m1.domains_at(self.len_spec()) == seq![d]
            &&& forall|j: int|
                0 <= j < self.len_spec() ==> m1.entries@[j] == self.entries@[j]
        })
    }

    /// Appends `domain` to the sequence kept for `workload`, creating the
    /// entry at the end of the map when the workload is new. Nothing else
    /// moves: existing entries keep their place and their content.
    pub fn append(&mut self, workload: &str, domain: &str)
        requires
            old(self).wf(),
        ensures
            final(self).wf(),
            old(self).appended_in(*final(self), workload@, domain@),
            final(self).has_key(workload@),
    {
        let n = self.entries.len();
        let mut i: usize = 0;
        while i < n
            invariant
                old(self).wf(),
                n == self.entries@.len(),
                0 <= i <= n,
                *self == *old(self),
                forall|j: int| 0 <= j < i ==> #[trigger] self.key_at(j) != workload@,
            decreases n - i,
        {
            if str_eq(self.entries[i].workload.as_str(), workload) {
                proof {
                    assert(old(self).key_at(i as int) == workload@);
                    assert(old(self).has_key(workload@));
                    assert(old(self).index_of_key(workload@) == i) by {
                        let k = old(self).index_of_key(workload@);
                        assert(0 <= k < old(self).len_spec() && old(self).key_at(k)
                            == workload@);
                        assert(old(self).entries@[k].workload@ == workload@);
                        assert(old(self).entries@[i as int].workload@ == workload@);
                        if k < i {
                            assert(old(self).entries@[k].workload@ != old(
                                self,
                            ).entries@[i as int].workload@);
                        } else if i < k {
                            assert(old(self).entries@[i as int].workload@ != old(
                                self,
                            ).entries@[k].workload@);
                        }
                    }
                }
                let entry = &mut self.entries[i];
                entry.domains.push(domain.to_owned());
                proof {
                    assert(self.domains_at(i as int) =~= old(self).domains_at(i as int).push(
                        domain@,
                    ));
                    assert forall|a: int, b: int|
                        0 <= a < b < self.entries@.len() implies self.entries@[a].workload@
                        != self.entries@[b].workload@ by {
                        assert(self.entries@[a].workload@ == old(self).entries@[a].workload@);
                        assert(self.entries@[b].workload@ == old(self).entries@[b].workload@);
                    }
                    assert(self.key_at(i as int) == workload@);
                }
                return ;
            }
            i += 1;
        }
        proof {
            assert(!old(self).has_key(workload@));
        }
        let mut domains: Vec<String> = Vec::new();
        domains.push(domain.to_owned());
        self.entries.push(WorkloadEntry { workload: workload.to_owned(), domains });
        proof {
            assert(self.domains_at(old(self).len_spec()) =~= seq![domain@]);
            assert(self.key_at(old(self).len_spec()) == workload@);
            assert forall|a: int, b: int|
                0 <= a < b < self.entries@.len() implies self.entries@[a].workload@
                != self.entries@[b].workload@ by {
                if b < old(self).len_spec() {
                    assert(old(self).entries@[a].workload@ != old(self).entries@[b].workload@);
                } else {
                    assert(old(self).key_at(a) != workload@);
                }
            }
        }
    }

    /// Whether an entry carries `workload` as its key.
    pub fn contains_key(&self, workload: &str) -> (r: bool)
        ensures
            r == self.has_key(workload@),
    {
        let n = self.entries.len();
        let mut i: usize = 0;
        while i < n
            invariant
                n == self.entries@.len(),
                0 <= i <= n,
                forall|j: int| 0 <= j < i ==> #[trigger] self.key_at(j) != workload@,
            decreases n - i,
        {
            if str_eq(self.entries[i].workload.as_str(), workload) {
                proof {
                    assert(self.key_at(i as int) == workload@);
                }
                return true;
            }
            i += 1;
        }
        false
    }

    /// The domain keys kept for `workload`; empty when the workload is
    /// unknown.
    pub fn domains_of(&self, workload: &str) -> (r: Vec<String>)
        requires
            self.wf(),
        ensures
            self.has_key(workload@) ==> views_of(r@) == self.domains_at(
                self.index_of_key(workload@),
            ),
            !self.has_key(workload@) ==> r@.len() == 0,
    {
        let n = self.entries.len();
        let mut i: usize = 0;
        while i < n
            invariant
                self.wf(),
                n == self.entries@.len(),
                0 <= i <= n,
                forall|j: int| 0 <= j < i ==> #[trigger] self.key_at(j) != workload@,
            decreases n - i,
        {
            if str_eq(self.entries[i].workload.as_str(), workload) {
                proof {
                    assert(self.key_at(i as int) == workload@);
                    assert(self.has_key(workload@));
                    assert(self.index_of_key(workload@) == i) by {
                        let k = self.index_of_key(workload@);
                        assert(0 <= k < self.len_spec() && self.key_at(k) == workload@);
                        assert(self.entries@[k].workload@ == workload@);
                        assert(self.entries@[i as int].workload@ == workload@);
                        if k < i {
                            assert(self.entries@[k].workload@ != self.entries@[i as int].workload@);
                        } else if i < k {
                            assert(self.entries@[i as int].workload@ != self.entries@[k].workload@);
                        }
                    }
                }
                return self.entries[i].domains.clone();
            }
            i += 1;
        }
        Vec::new()
    }
}

/// The whole aggregated state: internal and external observations. A copy
/// of this structure is what the publisher freezes into a snapshot.
#[derive(Clone, Debug)]
pub struct AggregatedState {
    pub internal: DomainMap,
    pub external: DomainMap,
}

impl AggregatedState {
    pub open spec fn wf(self) -> bool {
        self.internal.wf() && self.external.wf()
    }

    pub fn new() -> (s: AggregatedState)
        ensures
            s.wf(),
            s.internal.len_spec() == 0,
            s.external.len_spec() == 0,
    {
        AggregatedState { internal: DomainMap::new(), external: DomainMap::new() }
    }
}

} // verus!
