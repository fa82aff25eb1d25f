//! The radial layout engine, up to the trigonometry: three fixed concentric
//! rings, one per node kind, and for each ring its visible identifiers in a
//! stable sorted order with equally spaced angular slots.
//!
//! Slot `j` of `N` stands at the angle fraction `j / N` of a full turn —
//! consecutive slots differ by exactly one `N`-th of a turn, so the discrete
//! spacing law holds by construction. Radii are kept in thousandths of the
//! normalized plane unit; the renderer divides and applies sine and cosine.

use vstd::prelude::*;
use vstd::string::StrSliceExecFns;

use crate::graph::NodeKind;
use crate::text::views_of;

verus! {

/// Lexicographic order on character sequences, by code point.
pub open spec fn lex_le(a: Seq<char>, b: Seq<char>) -> bool
    decreases a.len(),
{
    if a.len() == 0 {
        true
    } else if b.len() == 0 {
        false
    } else if a[0] != b[0] {
        (a[0] as int) < (b[0] as int)
    } else {
        lex_le(a.drop_first(), b.drop_first())
    }
}

/// Nondecreasing under `lex_le`.
pub open spec fn sorted_by_lex(s: Seq<Seq<char>>) -> bool {
    forall|i: int, j: int| 0 <= i < j < s.len() ==> lex_le(#[trigger] s[i], #[trigger] s[j])
}

/// `lex_le` is total.
pub proof fn lemma_lex_total(a: Seq<char>, b: Seq<char>)
    ensures
        lex_le(a, b) || lex_le(b, a),
    decreases a.len(),
{
    if a.len() > 0 && b.len() > 0 && a[0] == b[0] {
        lemma_lex_total(a.drop_first(), b.drop_first());
    }
}

/// `lex_le` is transitive.
pub proof fn lemma_lex_trans(a: Seq<char>, b: Seq<char>, c: Seq<char>)
    requires
        lex_le(a, b),
        lex_le(b, c),
    ensures
        lex_le(a, c),
    decreases a.len(),
{
    if a.len() > 0 && b.len() > 0 && c.len() > 0 && a[0] == b[0] && b[0] == c[0] {
        lemma_lex_trans(a.drop_first(), b.drop_first(), c.drop_first());
    }
}

proof fn lemma_lex_at(a: Seq<char>, b: Seq<char>, i: int)
    requires
        0 <= i <= a.len(),
        0 <= i <= b.len(),
        forall|j: int| 0 <= j < i ==> a[j] == b[j],
    ensures
        i < a.len() && i < b.len() && a[i] != b[i] ==> lex_le(a, b) == ((a[i] as int) < (
        b[i] as int)),
        i == a.len() ==> lex_le(a, b),
        i == b.len() && i < a.len() ==> !lex_le(a, b),
    decreases i,
{
    if i > 0 {
        assert(a[0] == b[0]);
        assert(forall|j: int|
            0 <= j < i - 1 ==> a.drop_first()[j] == #[trigger] b.drop_first()[j]);
        lemma_lex_at(a.drop_first(), b.drop_first(), i - 1);
    }
}

/// Lexicographic comparison, character by character.
pub fn str_le(a: &str, b: &str) -> (r: bool)
    ensures
        r == lex_le(a@, b@),
{
    let an = a.unicode_len();
    let bn = b.unicode_len();
    let mut i: usize = 0;
    loop
        invariant
            an == a@.len(),
            bn == b@.len(),
            0 <= i <= an,
            0 <= i <= bn,
            forall|j: int| 0 <= j < i ==> a@[j] == b@[j],
        decreases an - i,
    {
        if i == an {
            proof {
                lemma_lex_at(a@, b@, i as int);
            }
            return true;
        }
        if i == bn {
            proof {
                lemma_lex_at(a@, b@, i as int);
            }
            return false;
        }
        let ca = a.get_char(i);
        let cb = b.get_char(i);
        if ca != cb {
            proof {
                lemma_lex_at(a@, b@, i as int);
            }
            return (ca as u32) < (cb as u32);
        }
        i += 1;
    }
}

/// Sorts identifiers into the stable display order: lexicographic, with the
/// same strings coming out as went in.
pub fn sort_ids(v: &Vec<String>) -> (r: Vec<String>)
    ensures
        r@.len() == v@.len(),
        sorted_by_lex(views_of(r@)),
        views_of(r@).to_multiset() == views_of(v@).to_multiset(),
{
    broadcast use vstd::seq_lib::group_to_multiset_ensures;

    let mut out: Vec<String> = Vec::new();
    let n = v.len();
    let mut i: usize = 0;
    proof {
        assert(views_of(out@) =~= Seq::<Seq<char>>::empty());
        assert(views_of(v@).take(0) =~= Seq::<Seq<char>>::empty());
        assert(views_of(out@).to_multiset() =~= views_of(v@).take(0).to_multiset());
    }
    while i < n
        invariant
            n == v@.len(),
            0 <= i <= n,
            out@.len() == i,
            sorted_by_lex(views_of(out@)),
            views_of(out@).to_multiset() == views_of(v@).take(i as int).to_multiset(),
        decreases n - i,
    {
        broadcast use vstd::seq_lib::group_to_multiset_ensures;

        let x = &v[i];
        let m = out.len();
        let mut p: usize = 0;
        while p < m && str_le(out[p].as_str(), x.as_str())
            invariant
                m == out@.len(),
                0 <= p <= m,
                forall|j: int| 0 <= j < p ==> lex_le(#[trigger] views_of(out@)[j], x@),
            decreases m - p,
        {
            p += 1;
        }
        let ghost pre = out@;
        out.insert(p, x.clone());
        proof {
            assert(views_of(out@) =~= views_of(pre).insert(p as int, x@));
            assert forall|c: int, d: int|
                0 <= c < d < views_of(out@).len() implies lex_le(
                #[trigger] views_of(out@)[c],
                #[trigger] views_of(out@)[d],
            ) by {
                let s = views_of(out@);
                if c == p {
                    // x against an element that stood at d - 1 before
                    assert(s[d] == views_of(pre)[d - 1]);
                    if p < m {
                        assert(!lex_le(views_of(pre)[p as int], x@));
                        lemma_lex_total(views_of(pre)[p as int], x@);
                        if d - 1 > p {
                            lemma_lex_trans(x@, views_of(pre)[p as int], views_of(pre)[d - 1]);
                        }
                    }
                } else if d == p {
                    assert(s[c] == views_of(pre)[c]);
                    assert(lex_le(views_of(pre)[c], x@));
                } else {
                    let c0: int = if c < p {
                        c
                    } else {
                        c - 1
                    };
                    let d0: int = if d < p {
                        d
                    } else {
                        d - 1
                    };
                    assert(s[c] == views_of(pre)[c0]);
                    assert(s[d] == views_of(pre)[d0]);
                }
            }
            assert(views_of(v@).take(i + 1).drop_last() =~= views_of(v@).take(i as int));
            assert(views_of(v@).take(i + 1).last() == x@);
            assert(views_of(v@).take(i + 1) =~= views_of(v@).take(i as int).push(x@));
            assert(views_of(out@).to_multiset() =~= views_of(v@).take(i + 1).to_multiset());
        }
        i += 1;
    }
    proof {
        assert(views_of(v@).take(n as int) =~= views_of(v@));
    }
    out
}

/// One node's place on its ring: slot `index` of `count`, i.e. the target
/// angle is the fraction `index / count` of a full turn.
#[derive(Clone, Debug)]
pub struct RingSlot {
    pub id: String,
    pub index: usize,
    pub count: usize,
}

/// The ring radii, in thousandths of the normalized plane unit:
/// external outermost, pods in the middle, services innermost.
pub open spec fn ring_radius_spec(kind: NodeKind) -> int {
    match kind {
        NodeKind::External => 950,
        NodeKind::Pod => 550,
        NodeKind::Service => 150,
    }
}

pub fn ring_radius_milli(kind: NodeKind) -> (r: u32)
    ensures
        r == ring_radius_spec(kind),
{
    match kind {
        NodeKind::External => 950,
        NodeKind::Pod => 550,
        NodeKind::Service => 150,
    }
}

/// Lays out one ring: the visible identifiers in stable sorted order, slot
/// `j` carrying index `j` and the shared count, so the `N` angular
/// positions come out equally spaced by construction.
pub fn layout_ring(ids: &Vec<String>) -> (slots: Vec<RingSlot>)
    ensures
        slots@.len() == ids@.len(),
        forall|j: int|
            0 <= j < slots@.len() ==> (#[trigger] slots@[j]).index == j && slots@[j].count
                == ids@.len(),
        sorted_by_lex(slots@.map_values(|s: RingSlot| s.id@)),
        slots@.map_values(|s: RingSlot| s.id@).to_multiset() == views_of(ids@).to_multiset(),
{
    let sorted = sort_ids(ids);
    let n = sorted.len();
    let mut slots: Vec<RingSlot> = Vec::new();
    let mut j: usize = 0;
    while j < n
        invariant
            n == sorted@.len(),
            0 <= j <= n,
            slots@.len() == j,
            forall|k: int|
                0 <= k < j ==> (#[trigger] slots@[k]).index == k && slots@[k].count == n,
            forall|k: int| 0 <= k < j ==> (#[trigger] slots@[k]).id@ == views_of(sorted@)[k],
        decreases n - j,
    {
        slots.push(RingSlot { id: sorted[j].clone(), index: j, count: n });
        j += 1;
    }
    proof {
        assert(slots@.map_values(|s: RingSlot| s.id@) =~= views_of(sorted@));
    }
    slots
}

/// Law (equal spacing): slots that carry index `j` of `count == n` stand at
/// the angle fraction `j / n` of a full turn, so any two consecutive slots
/// of one ring differ by exactly one `n`-th of a turn, and all of a ring's
/// slots share that ring's single radius. This is the discrete content of
/// the layout; the renderer multiplies the fraction by the full turn.
pub proof fn lemma_ring_spacing(slots: Seq<RingSlot>, n: int)
    requires
        n == slots.len(),
        forall|j: int| 0 <= j < n ==> (#[trigger] slots[j]).index == j && slots[j].count == n,
    ensures
        forall|j: int| 0 <= j < n - 1 ==> (#[trigger] slots[j + 1]).index - slots[j].index == 1,
        forall|j: int| 0 <= j < n ==> (#[trigger] slots[j]).index < n,
{
}

} // verus!
