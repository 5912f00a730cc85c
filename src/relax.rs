use crate::grid::{is_same_reference, paths_intersection, ref_paths_intersection, same_reference, GridIx};
use vstd::prelude::*;

verus! {

/// What the search knows of an explored rook neighbour of the cell it relaxes.
/// `distance_key` orders neighbours by their distance from the start (the bits
/// of a non-negative distance order as the distance does).
#[derive(Clone, Copy, Debug)]
pub struct NeighborInfo {
    pub ix: GridIx,
    pub reference: Option<GridIx>,
    pub reachable: bool,
    pub distance_key: u32,
}

/// One proposal for the cell being relaxed.
#[derive(Clone, Copy, Debug)]
pub enum Proposal {
    /// Record the cell as unreachable.
    MarkUnreachable,
    /// Glide in via this neighbour, choosing its reference by the usual rule;
    /// `force_check` asks to try the neighbour's own reference even in weak wind.
    FromNeighbor { neighbor: GridIx, force_check: bool },
    /// Glide in straight from this common ancestor of two neighbours.
    FromAncestor { ancestor: GridIx },
}

/// The reachable ones among `ns`, in order.
pub open spec fn reachable_of(ns: Seq<NeighborInfo>) -> Seq<NeighborInfo>
    decreases ns.len(),
{
    if ns.len() == 0 {
        ns
    } else {
        let rest = reachable_of(ns.drop_last());
        if ns.last().reachable {
            rest.push(ns.last())
        } else {
            rest
        }
    }
}

pub open spec fn plan_one(n: NeighborInfo) -> Seq<Proposal> {
    if n.reachable {
        seq![Proposal::FromNeighbor { neighbor: n.ix, force_check: false }]
    } else {
        seq![]
    }
}

/// Two explored neighbours: through their common straight ancestor if they
/// have one, else through each of them with the terrain check forced.
pub open spec fn plan_two(a: NeighborInfo, b: NeighborInfo) -> Seq<Proposal> {
    if a.reachable && b.reachable {
        match paths_intersection(a.ix, a.reference, b.ix, b.reference) {
            Some(g) => seq![Proposal::FromAncestor { ancestor: g }],
            None => seq![
                Proposal::FromNeighbor { neighbor: a.ix, force_check: true },
                Proposal::FromNeighbor { neighbor: b.ix, force_check: true },
            ],
        }
    } else if a.reachable {
        plan_one(a)
    } else {
        plan_one(b)
    }
}

/// Three neighbours in the order of their distance keys, ties kept in place.
pub open spec fn sorted_three(a: NeighborInfo, b: NeighborInfo, c: NeighborInfo) -> Seq<NeighborInfo> {
    if a.distance_key <= b.distance_key {
        if b.distance_key <= c.distance_key {
            seq![a, b, c]
        } else if a.distance_key <= c.distance_key {
            seq![a, c, b]
        } else {
            seq![c, a, b]
        }
    } else {
        if a.distance_key <= c.distance_key {
            seq![b, a, c]
        } else if b.distance_key <= c.distance_key {
            seq![b, c, a]
        } else {
            seq![c, b, a]
        }
    }
}

/// The first of `ns` with the least distance key.
pub open spec fn closest(ns: Seq<NeighborInfo>) -> NeighborInfo
    recommends
        ns.len() > 0,
    decreases ns.len(),
{
    if ns.len() <= 1 {
        ns[0]
    } else {
        let best = closest(ns.drop_last());
        if ns.last().distance_key < best.distance_key {
            ns.last()
        } else {
            best
        }
    }
}

/// The proposals for one, two or three reachable neighbours.
pub open spec fn plan_reachable(r: Seq<NeighborInfo>) -> Seq<Proposal> {
    if r.len() == 1 {
        plan_one(r[0])
    } else if r.len() == 2 {
        plan_two(r[0], r[1])
    } else if r.len() == 3 {
        let d01 = same_reference(r[0].reference, r[1].reference);
        let d02 = same_reference(r[0].reference, r[2].reference);
        let d12 = same_reference(r[1].reference, r[2].reference);
        if !d01 && !d02 && !d12 {
            let s = sorted_three(r[0], r[1], r[2]);
            plan_one(s[0]) + plan_one(s[1]) + plan_one(s[2])
        } else if d01 && d02 {
            seq![]
        } else if d01 {
            plan_two(r[0], r[1]) + plan_one(r[2])
        } else if d02 {
            plan_two(r[0], r[2]) + plan_one(r[1])
        } else {
            plan_two(r[1], r[2]) + plan_one(r[0])
        }
    } else {
        seq![]
    }
}

/// No two of the four references name the same cell.
pub open spec fn four_distinct(r: Seq<NeighborInfo>) -> bool {
    forall|i: int, j: int|
        0 <= i < j < 4 ==> !same_reference(#[trigger] r[i].reference, #[trigger] r[j].reference)
}

/// What relaxing a cell proposes, given its explored neighbours in the order
/// up, left, down, right. A cell whose four neighbours are all explored and
/// unreachable is itself unreachable; one surrounded by four reachable
/// neighbours with distinct references is reached from the closest only.
pub open spec fn relaxation_plan(ns: Seq<NeighborInfo>) -> Seq<Proposal> {
    if ns.len() == 1 {
        plan_one(ns[0])
    } else if ns.len() == 2 {
        plan_two(ns[0], ns[1])
    } else if ns.len() == 3 {
        plan_reachable(reachable_of(ns))
    } else if ns.len() == 4 {
        let r = reachable_of(ns);
        if r.len() == 0 {
            seq![Proposal::MarkUnreachable]
        } else if r.len() < 4 {
            plan_reachable(r)
        } else if four_distinct(r) {
            plan_one(closest(r))
        } else {
            seq![]
        }
    } else {
        seq![]
    }
}

fn push_one(n: &NeighborInfo, out: &mut Vec<Proposal>)
    ensures
        final(out)@ == old(out)@ + plan_one(*n),
{
    if n.reachable {
        out.push(Proposal::FromNeighbor { neighbor: n.ix, force_check: false });
    }
    assert(final(out)@ =~= old(out)@ + plan_one(*n));
}

fn push_two(a: &NeighborInfo, b: &NeighborInfo, out: &mut Vec<Proposal>)
    ensures
        final(out)@ == old(out)@ + plan_two(*a, *b),
{
    if a.reachable && b.reachable {
        match ref_paths_intersection(&a.ix, &a.reference, &b.ix, &b.reference) {
            Some(g) => {
                out.push(Proposal::FromAncestor { ancestor: g });
            },
            None => {
                out.push(Proposal::FromNeighbor { neighbor: a.ix, force_check: true });
                out.push(Proposal::FromNeighbor { neighbor: b.ix, force_check: true });
            },
        }
        assert(final(out)@ =~= old(out)@ + plan_two(*a, *b));
    } else if a.reachable {
        push_one(a, out);
    } else {
        push_one(b, out);
    }
}

fn push_reachable(r: &Vec<NeighborInfo>, out: &mut Vec<Proposal>)
    ensures
        final(out)@ == old(out)@ + plan_reachable(r@),
{
    if r.len() == 1 {
        push_one(&r[0], out);
    } else if r.len() == 2 {
        push_two(&r[0], &r[1], out);
    } else if r.len() == 3 {
        let d01 = is_same_reference(&r[0].reference, &r[1].reference);
        let d02 = is_same_reference(&r[0].reference, &r[2].reference);
        let d12 = is_same_reference(&r[1].reference, &r[2].reference);
        if !d01 && !d02 && !d12 {
            let (a, b, c) = (r[0], r[1], r[2]);
            let (x, y, z) = if a.distance_key <= b.distance_key {
                if b.distance_key <= c.distance_key {
                    (a, b, c)
                } else if a.distance_key <= c.distance_key {
                    (a, c, b)
                } else {
                    (c, a, b)
                }
            } else {
                if a.distance_key <= c.distance_key {
                    (b, a, c)
                } else if b.distance_key <= c.distance_key {
                    (b, c, a)
                } else {
                    (c, b, a)
                }
            };
            assert(sorted_three(a, b, c) == seq![x, y, z]);
            push_one(&x, out);
            push_one(&y, out);
            push_one(&z, out);
            assert(final(out)@ =~= old(out)@ + plan_reachable(r@));
        } else if d01 && d02 {
        } else if d01 {
            push_two(&r[0], &r[1], out);
            push_one(&r[2], out);
            assert(final(out)@ =~= old(out)@ + plan_reachable(r@));
        } else if d02 {
            push_two(&r[0], &r[2], out);
            push_one(&r[1], out);
            assert(final(out)@ =~= old(out)@ + plan_reachable(r@));
        } else {
            push_two(&r[1], &r[2], out);
            push_one(&r[0], out);
            assert(final(out)@ =~= old(out)@ + plan_reachable(r@));
        }
    }
}

/// The proposals for relaxing a cell from its explored neighbours, listed in
/// the order up, left, down, right.
pub fn relaxation_proposals(explored_neighbors: &Vec<NeighborInfo>) -> (r: Vec<Proposal>)
    ensures
        r@ == relaxation_plan(explored_neighbors@),
{
    let ns = explored_neighbors;
    let mut out: Vec<Proposal> = Vec::new();
    if ns.len() == 1 {
        push_one(&ns[0], &mut out);
    } else if ns.len() == 2 {
        push_two(&ns[0], &ns[1], &mut out);
    } else if ns.len() == 3 || ns.len() == 4 {
        let mut reachable: Vec<NeighborInfo> = Vec::new();
        let mut i: usize = 0;
        while i < ns.len()
            invariant
                i <= ns@.len(),
                reachable@ == reachable_of(ns@.take(i as int)),
                reachable@.len() <= i,
            decreases ns@.len() - i,
        {
            assert(ns@.take(i + 1).drop_last() =~= ns@.take(i as int));
            if ns[i].reachable {
                reachable.push(ns[i]);
            }
            i = i + 1;
        }
        assert(ns@.take(i as int) =~= ns@);
        if ns.len() == 3 {
            push_reachable(&reachable, &mut out);
        } else if reachable.len() == 0 {
            out.push(Proposal::MarkUnreachable);
        } else if reachable.len() < 4 {
            push_reachable(&reachable, &mut out);
        } else {
            let mut distinct = true;
            let mut i: usize = 0;
            while i < 4
                invariant
                    reachable@.len() == 4,
                    i <= 4,
                    distinct == (forall|a: int, b: int|
                        0 <= a < b < 4 && a < i ==> !same_reference(
                            #[trigger] reachable@[a].reference,
                            #[trigger] reachable@[b].reference,
                        )),
                decreases 4 - i,
            {
                let mut j: usize = i + 1;
                while j < 4
                    invariant
                        reachable@.len() == 4,
                        i < 4,
                        i < j <= 4,
                        distinct == ((forall|a: int, b: int|
                            0 <= a < b < 4 && a < i ==> !same_reference(
                                #[trigger] reachable@[a].reference,
                                #[trigger] reachable@[b].reference,
                            )) && (forall|b: int|
                            i < b < j ==> !same_reference(reachable@[i as int].reference, #[trigger] reachable@[b].reference))),
                    decreases 4 - j,
                {
                    if is_same_reference(&reachable[i].reference, &reachable[j].reference) {
                        distinct = false;
                    }
                    j = j + 1;
                }
                i = i + 1;
            }
            if distinct {
                let mut best = reachable[0];
                let mut k: usize = 1;
                while k < 4
                    invariant
                        reachable@.len() == 4,
                        1 <= k <= 4,
                        best == closest(reachable@.take(k as int)),
                    decreases 4 - k,
                {
                    assert(reachable@.take(k + 1).drop_last() =~= reachable@.take(k as int));
                    if reachable[k].distance_key < best.distance_key {
                        best = reachable[k];
                    }
                    k = k + 1;
                }
                assert(reachable@.take(4) =~= reachable@);
                push_one(&best, &mut out);
            }
        }
    }
    assert(out@ =~= relaxation_plan(explored_neighbors@));
    out
}


/// A proposal comes from what the explored neighbours offer: a neighbour it
/// glides from is reachable, an ancestor is the reference of a reachable
/// neighbour, and a cell is marked unreachable only when no neighbour is
/// reachable.
pub open spec fn proposal_grounded(ns: Seq<NeighborInfo>, p: Proposal) -> bool {
    match p {
        Proposal::FromNeighbor { neighbor, force_check } => exists|i: int|
            0 <= i < ns.len() && (#[trigger] ns[i]).ix == neighbor && ns[i].reachable,
        Proposal::FromAncestor { ancestor } => exists|i: int|
            0 <= i < ns.len() && (#[trigger] ns[i]).reachable && ns[i].reference == Some(ancestor),
        Proposal::MarkUnreachable => forall|i: int| 0 <= i < ns.len() ==> !(#[trigger] ns[i]).reachable,
    }
}

proof fn lemma_reachable_of(ns: Seq<NeighborInfo>)
    ensures
        forall|k: int| 0 <= k < reachable_of(ns).len() ==> exists|i: int|
            0 <= i < ns.len() && ns[i] == #[trigger] reachable_of(ns)[k],
        forall|k: int| 0 <= k < reachable_of(ns).len() ==> (#[trigger] reachable_of(ns)[k]).reachable,
        reachable_of(ns).len() == 0 ==> forall|i: int| 0 <= i < ns.len() ==> !(#[trigger] ns[i]).reachable,
    decreases ns.len(),
{
    if ns.len() > 0 {
        let rest = ns.drop_last();
        lemma_reachable_of(rest);
        assert forall|k: int| 0 <= k < reachable_of(ns).len() implies exists|i: int|
            0 <= i < ns.len() && ns[i] == #[trigger] reachable_of(ns)[k] by {
            if k < reachable_of(rest).len() {
                let i = choose|i: int| 0 <= i < rest.len() && rest[i] == reachable_of(rest)[k];
                assert(ns[i] == rest[i]);
            } else {
                assert(ns[ns.len() - 1] == reachable_of(ns)[k]);
            }
        }
        if reachable_of(ns).len() == 0 {
            assert forall|i: int| 0 <= i < ns.len() implies !(#[trigger] ns[i]).reachable by {
                if i < rest.len() {
                    assert(ns[i] == rest[i]);
                }
            }
        }
    }
}

proof fn lemma_two_grounded(ns: Seq<NeighborInfo>, a: int, b: int)
    requires
        0 <= a < ns.len(),
        0 <= b < ns.len(),
    ensures
        forall|k: int| 0 <= k < plan_two(ns[a], ns[b]).len() ==> proposal_grounded(ns, #[trigger] plan_two(ns[a], ns[b])[k]),
{
    let (x, y) = (ns[a], ns[b]);
    if x.reachable && y.reachable {
        match paths_intersection(x.ix, x.reference, y.ix, y.reference) {
            Some(g) => {
                assert(x.reference == Some(g) || y.reference == Some(g));
                assert(proposal_grounded(ns, Proposal::FromAncestor { ancestor: g }));
            },
            None => {
                assert(proposal_grounded(ns, Proposal::FromNeighbor { neighbor: x.ix, force_check: true }));
                assert(proposal_grounded(ns, Proposal::FromNeighbor { neighbor: y.ix, force_check: true }));
            },
        }
    } else if x.reachable {
        assert(proposal_grounded(ns, Proposal::FromNeighbor { neighbor: x.ix, force_check: false }));
    } else if y.reachable {
        assert(proposal_grounded(ns, Proposal::FromNeighbor { neighbor: y.ix, force_check: false }));
    }
}

proof fn lemma_one_grounded(ns: Seq<NeighborInfo>, a: int)
    requires
        0 <= a < ns.len(),
    ensures
        forall|k: int| 0 <= k < plan_one(ns[a]).len() ==> proposal_grounded(ns, #[trigger] plan_one(ns[a])[k]),
{
    if ns[a].reachable {
        assert(proposal_grounded(ns, Proposal::FromNeighbor { neighbor: ns[a].ix, force_check: false }));
    }
}

proof fn lemma_concat_grounded(ns: Seq<NeighborInfo>, x: Seq<Proposal>, y: Seq<Proposal>)
    requires
        forall|k: int| 0 <= k < x.len() ==> proposal_grounded(ns, #[trigger] x[k]),
        forall|k: int| 0 <= k < y.len() ==> proposal_grounded(ns, #[trigger] y[k]),
    ensures
        forall|k: int| 0 <= k < (x + y).len() ==> proposal_grounded(ns, #[trigger] (x + y)[k]),
{
    assert forall|k: int| 0 <= k < (x + y).len() implies proposal_grounded(ns, #[trigger] (x + y)[k]) by {
        if k < x.len() {
            assert((x + y)[k] == x[k]);
        } else {
            assert((x + y)[k] == y[k - x.len()]);
        }
    }
}

/// Every proposal of a relaxation is grounded in the explored neighbours.
pub proof fn lemma_proposals_grounded(ns: Seq<NeighborInfo>)
    ensures
        forall|k: int| 0 <= k < relaxation_plan(ns).len() ==> proposal_grounded(ns, #[trigger] relaxation_plan(ns)[k]),
{
    if ns.len() == 1 {
        lemma_one_grounded(ns, 0);
    } else if ns.len() == 2 {
        lemma_two_grounded(ns, 0, 1);
    } else if ns.len() == 3 || ns.len() == 4 {
        let r = reachable_of(ns);
        lemma_reachable_of(ns);
        if r.len() == 0 {
        } else if r.len() < 4 {
            lemma_reachable_grounded(ns, r);
        } else if four_distinct(r) {
            lemma_closest_in(r);
            let c = closest(r);
            let k = choose|k: int| 0 <= k < r.len() && r[k] == c;
            let i = choose|i: int| 0 <= i < ns.len() && ns[i] == #[trigger] r[k];
            assert(r[k].reachable);
            lemma_one_grounded(ns, i);
        }
    }
}

proof fn lemma_closest_in(r: Seq<NeighborInfo>)
    requires
        r.len() > 0,
    ensures
        exists|k: int| 0 <= k < r.len() && r[k] == closest(r),
    decreases r.len(),
{
    if r.len() > 1 {
        lemma_closest_in(r.drop_last());
        let k = choose|k: int| 0 <= k < r.drop_last().len() && r.drop_last()[k] == closest(r.drop_last());
        assert(r[k] == r.drop_last()[k]);
        if closest(r) == r.last() {
            assert(r[r.len() - 1] == closest(r));
        }
    } else {
        assert(r[0] == closest(r));
    }
}

proof fn lemma_reachable_grounded(ns: Seq<NeighborInfo>, r: Seq<NeighborInfo>)
    requires
        r == reachable_of(ns),
        1 <= r.len() < 4,
        forall|k: int| 0 <= k < r.len() ==> exists|i: int| 0 <= i < ns.len() && ns[i] == #[trigger] r[k],
        forall|k: int| 0 <= k < r.len() ==> (#[trigger] r[k]).reachable,
    ensures
        forall|k: int| 0 <= k < plan_reachable(r).len() ==> proposal_grounded(ns, #[trigger] plan_reachable(r)[k]),
{
    let i0 = choose|i: int| 0 <= i < ns.len() && ns[i] == #[trigger] r[0];
    if r.len() == 1 {
        lemma_one_grounded(ns, i0);
    } else {
        let i1 = choose|i: int| 0 <= i < ns.len() && ns[i] == #[trigger] r[1];
        if r.len() == 2 {
            lemma_two_grounded(ns, i0, i1);
        } else {
            let i2 = choose|i: int| 0 <= i < ns.len() && ns[i] == #[trigger] r[2];
            let d01 = same_reference(r[0].reference, r[1].reference);
            let d02 = same_reference(r[0].reference, r[2].reference);
            let d12 = same_reference(r[1].reference, r[2].reference);
            if !d01 && !d02 && !d12 {
                let s = sorted_three(r[0], r[1], r[2]);
                assert(s[0] == ns[i0] || s[0] == ns[i1] || s[0] == ns[i2]);
                assert(s[1] == ns[i0] || s[1] == ns[i1] || s[1] == ns[i2]);
                assert(s[2] == ns[i0] || s[2] == ns[i1] || s[2] == ns[i2]);
                lemma_one_grounded(ns, i0);
                lemma_one_grounded(ns, i1);
                lemma_one_grounded(ns, i2);
                lemma_concat_grounded(ns, plan_one(s[0]), plan_one(s[1]));
                lemma_concat_grounded(ns, plan_one(s[0]) + plan_one(s[1]), plan_one(s[2]));
            } else if d01 && d02 {
            } else if d01 {
                lemma_two_grounded(ns, i0, i1);
                lemma_one_grounded(ns, i2);
                lemma_concat_grounded(ns, plan_two(r[0], r[1]), plan_one(r[2]));
            } else if d02 {
                lemma_two_grounded(ns, i0, i2);
                lemma_one_grounded(ns, i1);
                lemma_concat_grounded(ns, plan_two(r[0], r[2]), plan_one(r[1]));
            } else {
                lemma_two_grounded(ns, i1, i2);
                lemma_one_grounded(ns, i0);
                lemma_concat_grounded(ns, plan_two(r[1], r[2]), plan_one(r[0]));
            }
        }
    }
}

} // verus!
