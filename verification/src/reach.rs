//! Reachability over a (possibly partially built) edge map.
//!
//! The edge classifier asks, at each back edge, which side of the loop
//! header's conditional already leads back to the jump, following every
//! edge kind; the join finder asks where the two sides of an `if/else`
//! reconverge in the forward flow, where a loop's back edge leads nowhere.
//! Both questions reduce to reachability, decided by a verified graph
//! search.

use vstd::prelude::*;

use vstd::seq_lib::lemma_seq_contains_after_push;
use vstd::set_lib::lemma_len_subset;

use crate::cfg::OutgoingEdge;
use crate::label::Label;
use crate::label_map::LabelMap;

verus! {

/// The successor labels of one edge; every edge kind's successors count as
/// plain forward neighbours.
pub open spec fn edge_succs(e: OutgoingEdge) -> Set<Label> {
    match e {
        OutgoingEdge::If { true_case, false_case } => set![true_case, false_case],
        OutgoingEdge::Pass { next } => set![next],
        OutgoingEdge::LoopBack { header } => set![header],
        OutgoingEdge::WhileTrue { body_start, after } => set![body_start, after],
        OutgoingEdge::WhileFalse { body_start, after } => set![body_start, after],
    }
}

/// One step of the successor relation of an edge map.
pub open spec fn step(m: Map<Label, OutgoingEdge>, a: Label, b: Label) -> bool {
    m.dom().contains(a) && edge_succs(m[a]).contains(b)
}

/// Whether consecutive entries of `p` are linked by `step`.
pub open spec fn is_path(m: Map<Label, OutgoingEdge>, p: Seq<Label>) -> bool {
    forall|k: int| 0 <= k < p.len() - 1 ==> step(m, #[trigger] p[k], p[k + 1])
}

/// Whether `b` can be reached from `a` by following edges of `m`.  Every
/// label reaches itself.
pub open spec fn reaches(m: Map<Label, OutgoingEdge>, a: Label, b: Label) -> bool {
    exists|p: Seq<Label>|
        p.len() >= 1 && p.first() == a && p.last() == b && is_path(m, p)
}

pub proof fn lemma_reaches_refl(m: Map<Label, OutgoingEdge>, a: Label)
    ensures
        reaches(m, a, a),
{
    let p = seq![a];
    assert(p.len() >= 1 && p.first() == a && p.last() == a && is_path(m, p));
}

pub proof fn lemma_reaches_extend(m: Map<Label, OutgoingEdge>, a: Label, b: Label, c: Label)
    requires
        reaches(m, a, b),
        step(m, b, c),
    ensures
        reaches(m, a, c),
{
    let p = choose|p: Seq<Label>|
        p.len() >= 1 && p.first() == a && p.last() == b && is_path(m, p);
    let q = p.push(c);
    assert forall|k: int| 0 <= k < q.len() - 1 implies step(m, #[trigger] q[k], q[k + 1]) by {
        if k < p.len() - 1 {
            assert(step(m, p[k], p[k + 1]));
        } else {
            assert(q[k] == b && q[k + 1] == c);
        }
    }
    assert(q.len() >= 1 && q.first() == a && q.last() == c && is_path(m, q));
}

/// Reachability survives any rewriting of the map that keeps every old
/// key and loses no successor of it.
pub proof fn lemma_reaches_monotone(
    m1: Map<Label, OutgoingEdge>,
    m2: Map<Label, OutgoingEdge>,
    a: Label,
    b: Label,
)
    requires
        reaches(m1, a, b),
        forall|x: Label, y: Label| step(m1, x, y) ==> #[trigger] step(m2, x, y),
    ensures
        reaches(m2, a, b),
{
    let p = choose|p: Seq<Label>|
        p.len() >= 1 && p.first() == a && p.last() == b && is_path(m1, p);
    assert forall|k: int| 0 <= k < p.len() - 1 implies step(m2, #[trigger] p[k], p[k + 1]) by {
        assert(step(m1, p[k], p[k + 1]));
    }
    assert(p.len() >= 1 && p.first() == a && p.last() == b && is_path(m2, p));
}

/// No path leaves a set that contains its start and is closed under `step`.
proof fn lemma_path_stays_closed(
    m: Map<Label, OutgoingEdge>,
    vis: Seq<Label>,
    p: Seq<Label>,
)
    requires
        p.len() >= 1,
        is_path(m, p),
        vis.contains(p.first()),
        forall|x: Label, y: Label| vis.contains(x) && #[trigger] step(m, x, y) ==> vis.contains(y),
    ensures
        vis.contains(p.last()),
    decreases p.len(),
{
    if p.len() > 1 {
        let q = p.drop_last();
        assert forall|k: int| 0 <= k < q.len() - 1 implies step(m, #[trigger] q[k], q[k + 1]) by {
            assert(step(m, p[k], p[k + 1]));
        }
        lemma_path_stays_closed(m, vis, q);
        assert(step(m, p[p.len() - 2], p[p.len() - 1]));
        assert(vis.contains(p[p.len() - 2]));
    }
}

/// Union of the successor sets of a pair sequence.
pub open spec fn succ_union(s: Seq<(Label, OutgoingEdge)>) -> Set<Label>
    decreases s.len(),
{
    if s.len() == 0 {
        Set::empty()
    } else {
        succ_union(s.drop_last()).union(edge_succs(s.last().1))
    }
}

proof fn lemma_succ_union_finite(s: Seq<(Label, OutgoingEdge)>)
    ensures
        succ_union(s).finite(),
    decreases s.len(),
{
    if s.len() > 0 {
        lemma_succ_union_finite(s.drop_last());
    }
}

proof fn lemma_succ_union_covers(s: Seq<(Label, OutgoingEdge)>, i: int)
    requires
        0 <= i < s.len(),
    ensures
        edge_succs(s[i].1).subset_of(succ_union(s)),
    decreases s.len(),
{
    if i < s.len() - 1 {
        lemma_succ_union_covers(s.drop_last(), i);
        assert(s.drop_last()[i] == s[i]);
    }
}

/// Any label one `step` away is in the successor union of the entries.
proof fn lemma_step_in_candidates(edges: &LabelMap<OutgoingEdge>, x: Label, y: Label)
    requires
        edges.wf(),
        step(edges@, x, y),
    ensures
        succ_union(edges.entries_seq()).contains(y),
{
    edges.lemma_contains(x);
    let i = choose|i: int|
        0 <= i < edges.entries_seq().len() && (#[trigger] edges.entries_seq()[i]).0 == x;
    edges.lemma_index(i);
    assert(edges.entries_seq()[i].1 == edges@[x]);
    lemma_succ_union_covers(edges.entries_seq(), i);
}

/// The forward successors of one edge: as [`edge_succs`], except that a
/// loop's back edge leads to no forward label at all.
pub open spec fn forward_succs(e: OutgoingEdge) -> Set<Label> {
    match e {
        OutgoingEdge::LoopBack { header } => Set::empty(),
        _ => edge_succs(e),
    }
}

/// One step of the forward successor relation.
pub open spec fn forward_step(m: Map<Label, OutgoingEdge>, a: Label, b: Label) -> bool {
    m.dom().contains(a) && forward_succs(m[a]).contains(b)
}

/// Whether consecutive entries of `p` are linked by `forward_step`.
pub open spec fn forward_is_path(m: Map<Label, OutgoingEdge>, p: Seq<Label>) -> bool {
    forall|k: int| 0 <= k < p.len() - 1 ==> forward_step(m, #[trigger] p[k], p[k + 1])
}

/// Whether `b` can be reached from `a` by following forward edges only.
pub open spec fn forward_reaches(m: Map<Label, OutgoingEdge>, a: Label, b: Label) -> bool {
    exists|p: Seq<Label>|
        p.len() >= 1 && p.first() == a && p.last() == b && forward_is_path(m, p)
}

pub proof fn lemma_forward_reaches_refl(m: Map<Label, OutgoingEdge>, a: Label)
    ensures
        forward_reaches(m, a, a),
{
    let p = seq![a];
    assert(p.len() >= 1 && p.first() == a && p.last() == a && forward_is_path(m, p));
}

pub proof fn lemma_forward_reaches_extend(
    m: Map<Label, OutgoingEdge>,
    a: Label,
    b: Label,
    c: Label,
)
    requires
        forward_reaches(m, a, b),
        forward_step(m, b, c),
    ensures
        forward_reaches(m, a, c),
{
    let p = choose|p: Seq<Label>|
        p.len() >= 1 && p.first() == a && p.last() == b && forward_is_path(m, p);
    let q = p.push(c);
    assert forall|k: int| 0 <= k < q.len() - 1 implies forward_step(m, #[trigger] q[k], q[k + 1]) by {
        if k < p.len() - 1 {
            assert(forward_step(m, p[k], p[k + 1]));
        } else {
            assert(q[k] == b && q[k + 1] == c);
        }
    }
    assert(q.len() >= 1 && q.first() == a && q.last() == c && forward_is_path(m, q));
}

/// A forward-reached label other than the start is some edge's forward
/// successor.
pub proof fn lemma_forward_reaches_last_step(m: Map<Label, OutgoingEdge>, a: Label, b: Label)
    requires
        forward_reaches(m, a, b),
        a != b,
    ensures
        exists|k: Label| #[trigger] m.dom().contains(k) && forward_succs(m[k]).contains(b),
{
    let p = choose|p: Seq<Label>|
        p.len() >= 1 && p.first() == a && p.last() == b && forward_is_path(m, p);
    assert(p.len() >= 2);
    assert(forward_step(m, p[p.len() - 2], p[p.len() - 1]));
    assert(m.dom().contains(p[p.len() - 2]) && forward_succs(m[p[p.len() - 2]]).contains(b));
}

/// No forward path leaves a set that contains its start and is closed
/// under `forward_step`.
proof fn lemma_forward_path_stays_closed(
    m: Map<Label, OutgoingEdge>,
    vis: Seq<Label>,
    p: Seq<Label>,
)
    requires
        p.len() >= 1,
        forward_is_path(m, p),
        vis.contains(p.first()),
        forall|x: Label, y: Label|
            vis.contains(x) && #[trigger] forward_step(m, x, y) ==> vis.contains(y),
    ensures
        vis.contains(p.last()),
    decreases p.len(),
{
    if p.len() > 1 {
        let q = p.drop_last();
        assert forall|k: int| 0 <= k < q.len() - 1 implies forward_step(
            m,
            #[trigger] q[k],
            q[k + 1],
        ) by {
            assert(forward_step(m, p[k], p[k + 1]));
        }
        lemma_forward_path_stays_closed(m, vis, q);
        assert(forward_step(m, p[p.len() - 2], p[p.len() - 1]));
        assert(vis.contains(p[p.len() - 2]));
    }
}

/// Any label one forward step away is in the successor union of the
/// entries (forward successors are a subset of all successors).
proof fn lemma_forward_step_in_candidates(edges: &LabelMap<OutgoingEdge>, x: Label, y: Label)
    requires
        edges.wf(),
        forward_step(edges@, x, y),
    ensures
        succ_union(edges.entries_seq()).contains(y),
{
    assert(edge_succs(edges@[x]).contains(y));
    lemma_step_in_candidates(edges, x, y);
}

/// Whether a label occurs in the vector.
fn contains_label(v: &Vec<Label>, l: &Label) -> (r: bool)
    ensures
        r == v@.contains(*l),
{
    let n = v.len();
    for i in 0..n
        invariant
            n == v@.len(),
            forall|j: int| 0 <= j < i ==> v@[j] != *l,
    {
        if v[i] == *l {
            return true;
        }
    }
    false
}

/// After visiting `l`, every successor of the now-visited set is itself
/// visited or still queued.
proof fn lemma_bfs_closure_step(
    m: Map<Label, OutgoingEdge>,
    vis0: Seq<Label>,
    q0: Seq<Label>,
    qnew: Seq<Label>,
    l: Label,
)
    requires
        q0.len() >= 1,
        q0.last() == l,
        forall|x: Label, y: Label|
            vis0.contains(x) && #[trigger] step(m, x, y) ==> vis0.contains(y) || q0.contains(y),
        forall|y: Label| q0.drop_last().contains(y) ==> #[trigger] qnew.contains(y),
        forall|y: Label|
            m.dom().contains(l) && edge_succs(m[l]).contains(y) ==> #[trigger] qnew.contains(y),
    ensures
        forall|x: Label, y: Label|
            vis0.push(l).contains(x) && #[trigger] step(m, x, y) ==> vis0.push(l).contains(y)
                || qnew.contains(y),
{
    assert forall|x: Label, y: Label|
        vis0.push(l).contains(x) && #[trigger] step(m, x, y) implies vis0.push(l).contains(y)
        || qnew.contains(y) by {
        lemma_seq_contains_after_push(vis0, l, x);
        lemma_seq_contains_after_push(vis0, l, y);
        if x == l {
            assert(qnew.contains(y));
        } else {
            assert(vis0.contains(x));
            if !vis0.contains(y) {
                assert(q0.contains(y));
                let i = choose|i: int| 0 <= i < q0.len() && q0[i] == y;
                if i < q0.len() - 1 {
                    assert(q0.drop_last()[i] == y);
                } else {
                    assert(y == l);
                }
            }
        }
    }
}

/// Decides, by breadth-first search over `edges`, whether there is a path
/// from `start` to `target`.
#[verifier::rlimit(100)]
pub fn has_path(edges: &LabelMap<OutgoingEdge>, start: &Label, target: &Label) -> (r: bool)
    requires
        edges.wf(),
    ensures
        r == reaches(edges@, *start, *target),
{
    broadcast use vstd::set::axiom_set_insert_len;

    let ghost m = edges@;
    let ghost cands = succ_union(edges.entries_seq()).insert(*start);
    proof {
        lemma_succ_union_finite(edges.entries_seq());
        lemma_reaches_refl(m, *start);
    }
    let mut visited: Vec<Label> = Vec::new();
    let mut queue: Vec<Label> = Vec::new();
    queue.push(*start);
    proof {
        assert(queue@[0] == *start);
        assert forall|x: Label| queue@.contains(x) implies x == *start by {
            let i = choose|i: int| 0 <= i < queue@.len() && queue@[i] == x;
        }
    }
    loop
        invariant
            edges.wf(),
            m == edges@,
            cands == succ_union(edges.entries_seq()).insert(*start),
            cands.finite(),
            forall|x: Label|
                #[trigger] visited@.contains(x) ==> cands.contains(x) && reaches(m, *start, x)
                    && x != *target,
            forall|x: Label|
                #[trigger] queue@.contains(x) ==> cands.contains(x) && reaches(m, *start, x),
            forall|x: Label, y: Label|
                visited@.contains(x) && #[trigger] step(m, x, y) ==> visited@.contains(y)
                    || queue@.contains(y),
            visited@.contains(*start) || queue@.contains(*start),
        ensures
            queue@.len() == 0,
            forall|x: Label| #[trigger] visited@.contains(x) ==> x != *target,
            forall|x: Label, y: Label|
                visited@.contains(x) && #[trigger] step(m, x, y) ==> visited@.contains(y),
            visited@.contains(*start),
        decreases cands.len() - visited@.to_set().len(), queue@.len(),
    {
        proof {
            lemma_len_subset(visited@.to_set(), cands);
        }
        if queue.len() == 0 {
            break;
        }
        let ghost q0 = queue@;
        let l = queue.pop().unwrap();
        let ghost qd = q0.drop_last();
        proof {
            assert(q0[q0.len() - 1] == l);
            assert(q0.contains(l));
            assert(queue@ == qd);
            assert forall|x: Label| qd.contains(x) implies q0.contains(x) by {
                let i = choose|i: int| 0 <= i < qd.len() && qd[i] == x;
                assert(q0[i] == x);
            }
        }
        if contains_label(&visited, &l) {
            proof {
                assert forall|x: Label, y: Label|
                    visited@.contains(x) && #[trigger] step(m, x, y) implies visited@.contains(y)
                        || queue@.contains(y) by {
                    if !visited@.contains(y) && q0.contains(y) {
                        let i = choose|i: int| 0 <= i < q0.len() && q0[i] == y;
                        if i < q0.len() - 1 {
                            assert(qd[i] == y);
                        } else {
                            assert(y == l);
                        }
                    }
                }
                if !visited@.contains(*start) {
                    assert(q0.contains(*start));
                    let i = choose|i: int| 0 <= i < q0.len() && q0[i] == *start;
                    if i < q0.len() - 1 {
                        assert(qd[i] == *start);
                    } else {
                        assert(*start == l);
                    }
                }
            }
            continue;
        }
        if l == *target {
            return true;
        }
        let ghost vis0 = visited@;
        visited.push(l);
        proof {
            assert(visited@[vis0.len() as int] == l);
            assert(visited@.contains(l));
            assert forall|x: Label| vis0.contains(x) implies #[trigger] visited@.contains(x) by {
                let i = choose|i: int| 0 <= i < vis0.len() && vis0[i] == x;
                assert(visited@[i] == x);
            }
            vis0.lemma_push_to_set_commute(l);
            assert(!vis0.to_set().contains(l));
            assert forall|x: Label| visited@.contains(x) implies cands.contains(x)
                && reaches(m, *start, x) && x != *target by {
                lemma_seq_contains_after_push(vis0, l, x);
            }
        }
        match edges.get(&l) {
            None => {
                proof {
                    lemma_bfs_closure_step(m, vis0, q0, qd, l);
                    assert forall|x: Label| #[trigger] queue@.contains(x) implies cands.contains(
                        x,
                    ) && reaches(m, *start, x) by {
                        assert(q0.contains(x));
                    }
                    if !vis0.contains(*start) {
                        assert(q0.contains(*start));
                        let i = choose|i: int| 0 <= i < q0.len() && q0[i] == *start;
                        if i < q0.len() - 1 {
                            assert(qd[i] == *start);
                        } else {
                            assert(*start == l);
                        }
                    }
                }
            },
            Some(e) => {
                let (s1, s2): (Label, Option<Label>) = match *e {
                    OutgoingEdge::If { true_case, false_case } => (true_case, Some(false_case)),
                    OutgoingEdge::Pass { next } => (next, None),
                    OutgoingEdge::LoopBack { header } => (header, None),
                    OutgoingEdge::WhileTrue { body_start, after } => (body_start, Some(after)),
                    OutgoingEdge::WhileFalse { body_start, after } => (body_start, Some(after)),
                };
                proof {
                    assert(edge_succs(m[l]).contains(s1));
                    assert(step(m, l, s1));
                    lemma_step_in_candidates(edges, l, s1);
                    lemma_reaches_extend(m, *start, l, s1);
                    if s2 is Some {
                        assert(edge_succs(m[l]).contains(s2->0));
                        assert(step(m, l, s2->0));
                        lemma_step_in_candidates(edges, l, s2->0);
                        lemma_reaches_extend(m, *start, l, s2->0);
                    }
                }
                queue.push(s1);
                match s2 {
                    Some(s2v) => {
                        queue.push(s2v);
                    },
                    None => {},
                }
                proof {
                    assert forall|x: Label| queue@.contains(x) implies qd.contains(x) || x == s1
                        || (s2 is Some && x == s2->0) by {
                        if s2 is Some {
                            lemma_seq_contains_after_push(qd.push(s1), s2->0, x);
                        }
                        lemma_seq_contains_after_push(qd, s1, x);
                    }
                    assert forall|y: Label| qd.contains(y) implies #[trigger] queue@.contains(
                        y,
                    ) by {
                        if s2 is Some {
                            lemma_seq_contains_after_push(qd.push(s1), s2->0, y);
                        }
                        lemma_seq_contains_after_push(qd, s1, y);
                    }
                    assert(queue@.contains(s1)) by {
                        if s2 is Some {
                            lemma_seq_contains_after_push(qd.push(s1), s2->0, s1);
                        }
                        lemma_seq_contains_after_push(qd, s1, s1);
                    }
                    if s2 is Some {
                        assert(queue@.contains(s2->0)) by {
                            lemma_seq_contains_after_push(qd.push(s1), s2->0, s2->0);
                        }
                    }
                    assert forall|y: Label|
                        m.dom().contains(l) && edge_succs(m[l]).contains(y)
                            implies #[trigger] queue@.contains(y) by {
                        assert(y == s1 || (s2 is Some && y == s2->0));
                    }
                    lemma_bfs_closure_step(m, vis0, q0, queue@, l);
                    assert forall|x: Label| #[trigger] queue@.contains(x) implies cands.contains(
                        x,
                    ) && reaches(m, *start, x) by {
                        if qd.contains(x) {
                            assert(q0.contains(x));
                        } else {
                            assert(x == s1 || (s2 is Some && x == s2->0));
                        }
                    }
                    if !vis0.contains(*start) {
                        assert(q0.contains(*start));
                        let i = choose|i: int| 0 <= i < q0.len() && q0[i] == *start;
                        if i < q0.len() - 1 {
                            assert(qd[i] == *start);
                            assert(queue@.contains(*start));
                        } else {
                            assert(*start == l);
                        }
                    }
                }
            },
        }
        proof {
            lemma_len_subset(visited@.to_set(), cands);
        }
    }
    proof {
        if reaches(m, *start, *target) {
            let p = choose|p: Seq<Label>|
                p.len() >= 1 && p.first() == *start && p.last() == *target && is_path(m, p);
            lemma_path_stays_closed(m, visited@, p);
        }
    }
    false
}

/// After visiting `l`, every forward successor of the now-visited set is
/// itself visited or still queued.
proof fn lemma_forward_bfs_closure_step(
    m: Map<Label, OutgoingEdge>,
    vis0: Seq<Label>,
    q0: Seq<Label>,
    qnew: Seq<Label>,
    l: Label,
)
    requires
        q0.len() >= 1,
        q0.last() == l,
        forall|x: Label, y: Label|
            vis0.contains(x) && #[trigger] forward_step(m, x, y) ==> vis0.contains(y)
                || q0.contains(y),
        forall|y: Label| q0.drop_last().contains(y) ==> #[trigger] qnew.contains(y),
        forall|y: Label|
            m.dom().contains(l) && forward_succs(m[l]).contains(y) ==> #[trigger] qnew.contains(
                y,
            ),
    ensures
        forall|x: Label, y: Label|
            vis0.push(l).contains(x) && #[trigger] forward_step(m, x, y) ==> vis0.push(
                l,
            ).contains(y) || qnew.contains(y),
{
    assert forall|x: Label, y: Label|
        vis0.push(l).contains(x) && #[trigger] forward_step(m, x, y) implies vis0.push(
        l,
    ).contains(y) || qnew.contains(y) by {
        lemma_seq_contains_after_push(vis0, l, x);
        lemma_seq_contains_after_push(vis0, l, y);
        if x == l {
            assert(qnew.contains(y));
        } else {
            assert(vis0.contains(x));
            if !vis0.contains(y) {
                assert(q0.contains(y));
                let i = choose|i: int| 0 <= i < q0.len() && q0[i] == y;
                if i < q0.len() - 1 {
                    assert(q0.drop_last()[i] == y);
                } else {
                    assert(y == l);
                }
            }
        }
    }
}

/// Decides, by the same search as [`has_path`] but following forward edges
/// only, whether there is a forward path from `start` to `target`.
#[verifier::rlimit(100)]
fn has_forward_path(edges: &LabelMap<OutgoingEdge>, start: &Label, target: &Label) -> (r: bool)
    requires
        edges.wf(),
    ensures
        r == forward_reaches(edges@, *start, *target),
{
    broadcast use vstd::set::axiom_set_insert_len;

    let ghost m = edges@;
    let ghost cands = succ_union(edges.entries_seq()).insert(*start);
    proof {
        lemma_succ_union_finite(edges.entries_seq());
        lemma_forward_reaches_refl(m, *start);
    }
    let mut visited: Vec<Label> = Vec::new();
    let mut queue: Vec<Label> = Vec::new();
    queue.push(*start);
    proof {
        assert(queue@[0] == *start);
        assert forall|x: Label| queue@.contains(x) implies x == *start by {
            let i = choose|i: int| 0 <= i < queue@.len() && queue@[i] == x;
        }
    }
    loop
        invariant
            edges.wf(),
            m == edges@,
            cands == succ_union(edges.entries_seq()).insert(*start),
            cands.finite(),
            forall|x: Label|
                #[trigger] visited@.contains(x) ==> cands.contains(x) && forward_reaches(
                    m,
                    *start,
                    x,
                ) && x != *target,
            forall|x: Label|
                #[trigger] queue@.contains(x) ==> cands.contains(x) && forward_reaches(
                    m,
                    *start,
                    x,
                ),
            forall|x: Label, y: Label|
                visited@.contains(x) && #[trigger] forward_step(m, x, y) ==> visited@.contains(y)
                    || queue@.contains(y),
            visited@.contains(*start) || queue@.contains(*start),
        ensures
            queue@.len() == 0,
            forall|x: Label| #[trigger] visited@.contains(x) ==> x != *target,
            forall|x: Label, y: Label|
                visited@.contains(x) && #[trigger] forward_step(m, x, y) ==> visited@.contains(
                    y,
                ),
            visited@.contains(*start),
        decreases cands.len() - visited@.to_set().len(), queue@.len(),
    {
        proof {
            lemma_len_subset(visited@.to_set(), cands);
        }
        if queue.len() == 0 {
            break;
        }
        let ghost q0 = queue@;
        let l = queue.pop().unwrap();
        let ghost qd = q0.drop_last();
        proof {
            assert(q0[q0.len() - 1] == l);
            assert(q0.contains(l));
            assert(queue@ == qd);
            assert forall|x: Label| qd.contains(x) implies q0.contains(x) by {
                let i = choose|i: int| 0 <= i < qd.len() && qd[i] == x;
                assert(q0[i] == x);
            }
        }
        if contains_label(&visited, &l) {
            proof {
                assert forall|x: Label, y: Label|
                    visited@.contains(x) && #[trigger] forward_step(m, x, y) implies
                    visited@.contains(y) || queue@.contains(y) by {
                    if !visited@.contains(y) && q0.contains(y) {
                        let i = choose|i: int| 0 <= i < q0.len() && q0[i] == y;
                        if i < q0.len() - 1 {
                            assert(qd[i] == y);
                        } else {
                            assert(y == l);
                        }
                    }
                }
                if !visited@.contains(*start) {
                    assert(q0.contains(*start));
                    let i = choose|i: int| 0 <= i < q0.len() && q0[i] == *start;
                    if i < q0.len() - 1 {
                        assert(qd[i] == *start);
                    } else {
                        assert(*start == l);
                    }
                }
            }
            continue;
        }
        if l == *target {
            return true;
        }
        let ghost vis0 = visited@;
        visited.push(l);
        proof {
            assert(visited@[vis0.len() as int] == l);
            assert(visited@.contains(l));
            assert forall|x: Label| vis0.contains(x) implies #[trigger] visited@.contains(x) by {
                let i = choose|i: int| 0 <= i < vis0.len() && vis0[i] == x;
                assert(visited@[i] == x);
            }
            vis0.lemma_push_to_set_commute(l);
            assert(!vis0.to_set().contains(l));
            assert forall|x: Label| visited@.contains(x) implies cands.contains(x)
                && forward_reaches(m, *start, x) && x != *target by {
                lemma_seq_contains_after_push(vis0, l, x);
            }
        }
        let fwd: Option<(Label, Option<Label>)> = match edges.get(&l) {
            None => None,
            Some(e) => match *e {
                OutgoingEdge::If { true_case, false_case } => Some((true_case, Some(false_case))),
                OutgoingEdge::Pass { next } => Some((next, None)),
                // a back edge leads to no forward label
                OutgoingEdge::LoopBack { header } => None,
                OutgoingEdge::WhileTrue { body_start, after } => Some((body_start, Some(after))),
                OutgoingEdge::WhileFalse { body_start, after } => Some((body_start, Some(after))),
            },
        };
        match fwd {
            None => {
                proof {
                    assert(forall|y: Label|
                        m.dom().contains(l) ==> !forward_succs(m[l]).contains(y));
                    lemma_forward_bfs_closure_step(m, vis0, q0, qd, l);
                    assert forall|x: Label| #[trigger] queue@.contains(x) implies cands.contains(
                        x,
                    ) && forward_reaches(m, *start, x) by {
                        assert(q0.contains(x));
                    }
                    if !vis0.contains(*start) {
                        assert(q0.contains(*start));
                        let i = choose|i: int| 0 <= i < q0.len() && q0[i] == *start;
                        if i < q0.len() - 1 {
                            assert(qd[i] == *start);
                        } else {
                            assert(*start == l);
                        }
                    }
                }
            },
            Some((s1, s2)) => {
                proof {
                    assert(forward_succs(m[l]).contains(s1));
                    assert(forward_step(m, l, s1));
                    lemma_forward_step_in_candidates(edges, l, s1);
                    lemma_forward_reaches_extend(m, *start, l, s1);
                    if s2 is Some {
                        assert(forward_succs(m[l]).contains(s2->0));
                        assert(forward_step(m, l, s2->0));
                        lemma_forward_step_in_candidates(edges, l, s2->0);
                        lemma_forward_reaches_extend(m, *start, l, s2->0);
                    }
                }
                queue.push(s1);
                match s2 {
                    Some(s2v) => {
                        queue.push(s2v);
                    },
                    None => {},
                }
                proof {
                    assert forall|x: Label| queue@.contains(x) implies qd.contains(x) || x == s1
                        || (s2 is Some && x == s2->0) by {
                        if s2 is Some {
                            lemma_seq_contains_after_push(qd.push(s1), s2->0, x);
                        }
                        lemma_seq_contains_after_push(qd, s1, x);
                    }
                    assert forall|y: Label| qd.contains(y) implies #[trigger] queue@.contains(
                        y,
                    ) by {
                        if s2 is Some {
                            lemma_seq_contains_after_push(qd.push(s1), s2->0, y);
                        }
                        lemma_seq_contains_after_push(qd, s1, y);
                    }
                    assert(queue@.contains(s1)) by {
                        if s2 is Some {
                            lemma_seq_contains_after_push(qd.push(s1), s2->0, s1);
                        }
                        lemma_seq_contains_after_push(qd, s1, s1);
                    }
                    if s2 is Some {
                        assert(queue@.contains(s2->0)) by {
                            lemma_seq_contains_after_push(qd.push(s1), s2->0, s2->0);
                        }
                    }
                    assert forall|y: Label|
                        m.dom().contains(l) && forward_succs(m[l]).contains(y)
                            implies #[trigger] queue@.contains(y) by {
                        assert(y == s1 || (s2 is Some && y == s2->0));
                    }
                    lemma_forward_bfs_closure_step(m, vis0, q0, queue@, l);
                    assert forall|x: Label| #[trigger] queue@.contains(x) implies cands.contains(
                        x,
                    ) && forward_reaches(m, *start, x) by {
                        if qd.contains(x) {
                            assert(q0.contains(x));
                        } else {
                            assert(x == s1 || (s2 is Some && x == s2->0));
                        }
                    }
                    if !vis0.contains(*start) {
                        assert(q0.contains(*start));
                        let i = choose|i: int| 0 <= i < q0.len() && q0[i] == *start;
                        if i < q0.len() - 1 {
                            assert(qd[i] == *start);
                            assert(queue@.contains(*start));
                        } else {
                            assert(*start == l);
                        }
                    }
                }
            },
        }
        proof {
            lemma_len_subset(visited@.to_set(), cands);
        }
    }
    proof {
        if forward_reaches(m, *start, *target) {
            let p = choose|p: Seq<Label>|
                p.len() >= 1 && p.first() == *start && p.last() == *target && forward_is_path(
                    m,
                    p,
                );
            lemma_forward_path_stays_closed(m, visited@, p);
        }
    }
    false
}

/// The first label, in ascending label order, that both `a` and `b` reach
/// following the forward flow (a loop's back edge leads to no forward
/// label); `Exit` if they reach no common label at all.
pub fn first_common_ancestor(
    edges: &LabelMap<OutgoingEdge>,
    a: &Label,
    b: &Label,
) -> (r: Label)
    requires
        edges.wf(),
    ensures
        (forward_reaches(edges@, *a, r) && forward_reaches(edges@, *b, r)) || (r == Label::Exit
            && forall|l: Label|
            !(forward_reaches(edges@, *a, l) && #[trigger] forward_reaches(edges@, *b, l))),
        forall|l: Label|
            forward_reaches(edges@, *a, l) && #[trigger] forward_reaches(edges@, *b, l)
                ==> !l.before(r),
{
    let ghost m = edges@;
    // gather every label that can end a path from `a`: `a` itself or some
    // edge's successor; keys of a LabelMap come out sorted
    let mut cands: LabelMap<()> = LabelMap::new();
    cands.insert(*a, ());
    let n = edges.len();
    for idx in 0..n
        invariant
            edges.wf(),
            m == edges@,
            cands.wf(),
            n == edges.entries_seq().len(),
            cands@.dom().contains(*a),
            forall|j: int, y: Label|
                0 <= j < idx && #[trigger] edge_succs(edges.entries_seq()[j].1).contains(y)
                    ==> cands@.dom().contains(y),
    {
        let edge = &edges.entry_at(idx).1;
        let (s1, s2): (Label, Option<Label>) = match *edge {
            OutgoingEdge::If { true_case, false_case } => (true_case, Some(false_case)),
            OutgoingEdge::Pass { next } => (next, None),
            OutgoingEdge::LoopBack { header } => (header, None),
            OutgoingEdge::WhileTrue { body_start, after } => (body_start, Some(after)),
            OutgoingEdge::WhileFalse { body_start, after } => (body_start, Some(after)),
        };
        cands.insert(s1, ());
        match s2 {
            Some(s2v) => {
                cands.insert(s2v, ());
            },
            None => {},
        }
        proof {
            assert forall|j: int, y: Label|
                0 <= j < idx + 1 && #[trigger] edge_succs(
                    edges.entries_seq()[j].1,
                ).contains(y) implies cands@.dom().contains(y) by {
                if j == idx {
                    assert(y == s1 || (s2 is Some && y == s2->0));
                }
            }
        }
    }
    // every label forward-reachable from `a` is now a candidate key
    proof {
        assert forall|l: Label|
            forward_reaches(m, *a, l) && #[trigger] forward_reaches(m, *b, l) implies
            cands@.dom().contains(l) by {
            if l != *a {
                lemma_forward_reaches_last_step(m, *a, l);
                let k = choose|k: Label|
                    #[trigger] m.dom().contains(k) && forward_succs(m[k]).contains(l);
                assert(edge_succs(m[k]).contains(l));
                edges.lemma_contains(k);
                let j = choose|j: int|
                    0 <= j < edges.entries_seq().len() && (#[trigger] edges.entries_seq()[j]).0
                        == k;
                edges.lemma_index(j);
            }
        }
    }
    // walk the candidates in label order and keep the first common one
    let nc = cands.len();
    for idx in 0..nc
        invariant
            edges.wf(),
            m == edges@,
            cands.wf(),
            nc == cands.entries_seq().len(),
            forall|l: Label|
                forward_reaches(m, *a, l) && #[trigger] forward_reaches(m, *b, l)
                    ==> cands@.dom().contains(l),
            forall|j: int|
                0 <= j < idx ==> !(forward_reaches(m, *a, (#[trigger] cands.entries_seq()[j]).0)
                    && forward_reaches(m, *b, cands.entries_seq()[j].0)),
    {
        let l = cands.entry_at(idx).0;
        if has_forward_path(edges, a, &l) && has_forward_path(edges, b, &l) {
            proof {
                assert forall|x: Label|
                    forward_reaches(m, *a, x) && #[trigger] forward_reaches(m, *b, x) implies
                    !x.before(l) by {
                    cands.lemma_contains(x);
                    let j = choose|j: int|
                        0 <= j < cands.entries_seq().len() && (#[trigger] cands.entries_seq()[j]).0
                            == x;
                    if j < idx {
                        assert(!(forward_reaches(m, *a, cands.entries_seq()[j].0)
                            && forward_reaches(m, *b, cands.entries_seq()[j].0)));
                    } else if j > idx {
                        assert(cands.entries_seq()[idx as int].0.before(
                            cands.entries_seq()[j].0,
                        ));
                    }
                }
            }
            return l;
        }
    }
    proof {
        assert forall|l: Label|
            !(forward_reaches(m, *a, l) && #[trigger] forward_reaches(m, *b, l)) by {
            if forward_reaches(m, *a, l) && forward_reaches(m, *b, l) {
                cands.lemma_contains(l);
                let j = choose|j: int|
                    0 <= j < cands.entries_seq().len() && (#[trigger] cands.entries_seq()[j]).0
                        == l;
                assert(!(forward_reaches(m, *a, cands.entries_seq()[j].0) && forward_reaches(
                    m,
                    *b,
                    cands.entries_seq()[j].0,
                )));
            }
        }
    }
    Label::Exit
}

} // verus!
