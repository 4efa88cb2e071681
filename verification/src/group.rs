use vstd::prelude::*;
use crate::circle::{Circle, circles_disjoint, lemma_disjoint_symmetric};
use vstd::pervasive::VecAdditionalExecFns;

verus! {

/// The value `x` appears in the index list `v`.
pub open spec fn list_has(v: Seq<usize>, x: int) -> bool {
    exists|m: int| 0 <= m < v.len() && v[m] as int == x
}

/// The value `x` appears in group `g`.
pub open spec fn member(gr: Seq<Vec<usize>>, g: int, x: int) -> bool {
    list_has(gr[g]@, x)
}

/// The indices `x` and `y` lie in a common group.
pub open spec fn share_group(gr: Seq<Vec<usize>>, x: int, y: int) -> bool {
    exists|g: int| 0 <= g < gr.len() && member(gr, g, x) && member(gr, g, y)
}

/// Every stored index points into a circle list of length `n`.
pub open spec fn groups_in_bounds(gr: Seq<Vec<usize>>, n: int) -> bool {
    forall|g: int, m: int|
        0 <= g < gr.len() && 0 <= m < gr[g]@.len() ==> (#[trigger] gr[g]@[m]) < n
}

/// No index appears at two different positions, across or within groups.
pub open spec fn groups_disjoint(gr: Seq<Vec<usize>>) -> bool {
    forall|g1: int, m1: int, g2: int, m2: int|
        0 <= g1 < gr.len() && 0 <= m1 < gr[g1]@.len() && 0 <= g2 < gr.len() && 0 <= m2
            < gr[g2]@.len() && (g1 != g2 || m1 != m2) ==> #[trigger] gr[g1]@[m1]
            != #[trigger] gr[g2]@[m2]
}

/// The two structural invariants of the grouping.
pub open spec fn groups_wf(gr: Seq<Vec<usize>>, s: Seq<Circle>) -> bool {
    groups_in_bounds(gr, s.len() as int) && groups_disjoint(gr)
}

/// Pairs `(p, q)` with `p < q` that the double scan has already visited
/// when it stands at outer index `i`, inner index `j`.
pub open spec fn gpair_seen(p: int, q: int, i: int, j: int) -> bool {
    p < i || (p == i && q < j)
}

/// Every overlapping pair already seen shares a group.
pub open spec fn seen_pairs_joined(gr: Seq<Vec<usize>>, s: Seq<Circle>, i: int, j: int) -> bool {
    forall|p: int, q: int|
        0 <= p < q < s.len() && gpair_seen(p, q, i, j) && !circles_disjoint(
            #[trigger] s[p],
            #[trigger] s[q],
        ) ==> share_group(gr, p, q)
}

/// The indices along `path` walk from `x` to `y` through pairwise
/// overlapping circles of `s`.
pub open spec fn path_connects(s: Seq<Circle>, path: Seq<int>, x: int, y: int) -> bool {
    &&& path.len() >= 1
    &&& path[0] == x
    &&& path[path.len() - 1] == y
    &&& forall|i: int| 0 <= i < path.len() ==> 0 <= #[trigger] path[i] < s.len()
    &&& forall|i: int|
        0 <= i < path.len() - 1 ==> !circles_disjoint(s[#[trigger] path[i]], s[path[i + 1]])
}

/// The indices `x` and `y` are connected by a chain of pairwise
/// overlapping circles.
pub open spec fn connected(s: Seq<Circle>, x: int, y: int) -> bool {
    exists|path: Seq<int>| path_connects(s, path, x, y)
}

/// Any two members of one group are connected by a chain of overlaps.
pub open spec fn groups_sound(gr: Seq<Vec<usize>>, s: Seq<Circle>) -> bool {
    forall|g: int, m1: int, m2: int|
        0 <= g < gr.len() && 0 <= m1 < gr[g]@.len() && 0 <= m2 < gr[g]@.len() ==> connected(
            s,
            (#[trigger] gr[g]@[m1]) as int,
            (#[trigger] gr[g]@[m2]) as int,
        )
}

/// Every group holds at least two entries.
pub open spec fn groups_big_enough(gr: Seq<Vec<usize>>) -> bool {
    forall|g: int| 0 <= g < gr.len() ==> (#[trigger] gr[g]@).len() >= 2
}

/// Every overlapping pair of distinct indices shares a group.
pub open spec fn overlapping_pairs_joined(gr: Seq<Vec<usize>>, s: Seq<Circle>) -> bool {
    forall|p: int, q: int|
        0 <= p < q < s.len() && !circles_disjoint(#[trigger] s[p], #[trigger] s[q])
            ==> share_group(gr, p, q)
}

/// The entry at position `(g, m)` overlaps the circle of some other
/// entry of the same group.
pub open spec fn has_overlapping_partner(
    gr: Seq<Vec<usize>>,
    s: Seq<Circle>,
    g: int,
    m: int,
) -> bool {
    exists|m2: int|
        0 <= m2 < gr[g]@.len() && m2 != m && !circles_disjoint(
            s[(gr[g]@[m]) as int],
            s[(#[trigger] gr[g]@[m2]) as int],
        )
}

/// Every member of every group overlaps some other member of its group.
pub open spec fn groups_linked(gr: Seq<Vec<usize>>, s: Seq<Circle>) -> bool {
    forall|g: int, m: int|
        0 <= g < gr.len() && 0 <= m < gr[g]@.len() ==> #[trigger] has_overlapping_partner(
            gr,
            s,
            g,
            m,
        )
}

/// The index `x` appears in some group.
pub open spec fn grouped(gr: Seq<Vec<usize>>, x: int) -> bool {
    exists|g: int| 0 <= g < gr.len() && member(gr, g, x)
}

/// An index is connected to itself.
proof fn lemma_connected_refl(s: Seq<Circle>, x: int)
    requires
        0 <= x < s.len(),
    ensures
        connected(s, x, x),
{
    let path = seq![x];
    assert(path_connects(s, path, x, x));
}

/// Overlapping indices are connected.
proof fn lemma_connected_step(s: Seq<Circle>, x: int, y: int)
    requires
        0 <= x < s.len(),
        0 <= y < s.len(),
        !circles_disjoint(s[x], s[y]),
    ensures
        connected(s, x, y),
{
    let path = seq![x, y];
    assert(path_connects(s, path, x, y));
}

/// Connectivity runs both ways: a chain reverses.
proof fn lemma_connected_sym(s: Seq<Circle>, x: int, y: int)
    requires
        connected(s, x, y),
    ensures
        connected(s, y, x),
{
    let path = choose|path: Seq<int>| path_connects(s, path, x, y);
    let n = path.len() as int;
    let back = Seq::new(path.len(), |i: int| path[n - 1 - i]);
    assert(path_connects(s, back, y, x)) by {
        assert(back[0] == path[n - 1]);
        assert(back[n - 1] == path[0]);
        assert forall|i: int| 0 <= i < back.len() implies 0 <= #[trigger] back[i] < s.len() by {
            assert(back[i] == path[n - 1 - i]);
        }
        assert forall|i: int|
            0 <= i < back.len() - 1 implies !circles_disjoint(
            s[#[trigger] back[i]],
            s[back[i + 1]],
        ) by {
            assert(back[i] == path[n - 1 - i] && back[i + 1] == path[n - 2 - i]);
            assert(!circles_disjoint(s[path[n - 2 - i]], s[path[n - 2 - i + 1]]));
            lemma_disjoint_symmetric(s[path[n - 2 - i]], s[path[n - 1 - i]]);
        }
    }
}

/// Chains concatenate: connectivity is transitive.
proof fn lemma_connected_trans(s: Seq<Circle>, x: int, y: int, z: int)
    requires
        connected(s, x, y),
        connected(s, y, z),
    ensures
        connected(s, x, z),
{
    let p = choose|p: Seq<int>| path_connects(s, p, x, y);
    let q = choose|q: Seq<int>| path_connects(s, q, y, z);
    if q.len() == 1 {
        assert(z == y);
        assert(path_connects(s, p, x, z));
    } else {
        let np = p.len() as int;
        let joined = p + q.subrange(1, q.len() as int);
        assert(path_connects(s, joined, x, z)) by {
            assert(joined.len() == np + q.len() - 1);
            assert(joined[0] == p[0]);
            assert(joined[joined.len() - 1] == q[q.len() - 1]);
            assert forall|i: int| 0 <= i < joined.len() implies 0 <= #[trigger] joined[i]
                < s.len() by {
                if i < np {
                    assert(joined[i] == p[i]);
                } else {
                    assert(joined[i] == q[i - np + 1]);
                }
            }
            assert forall|i: int|
                0 <= i < joined.len() - 1 implies !circles_disjoint(
                s[#[trigger] joined[i]],
                s[joined[i + 1]],
            ) by {
                if i + 1 < np {
                    assert(joined[i] == p[i] && joined[i + 1] == p[i + 1]);
                    assert(!circles_disjoint(s[p[i]], s[p[i + 1]]));
                } else if i + 1 == np {
                    assert(joined[i] == p[np - 1] && joined[i + 1] == q[1]);
                    assert(p[np - 1] == y && q[0] == y);
                    assert(!circles_disjoint(s[q[0]], s[q[1]]));
                } else {
                    assert(joined[i] == q[i - np + 1] && joined[i + 1] == q[i - np + 2]);
                    assert(!circles_disjoint(s[q[i - np + 1]], s[q[i - np + 1 + 1]]));
                }
            }
        }
    }
}

/// No index lies in two different groups.
proof fn lemma_member_unique_group(gr: Seq<Vec<usize>>, x: int, g1: int, g2: int)
    requires
        groups_disjoint(gr),
        0 <= g1 < gr.len(),
        0 <= g2 < gr.len(),
        member(gr, g1, x),
        member(gr, g2, x),
    ensures
        g1 == g2,
{
    let m1 = choose|m1: int| 0 <= m1 < gr[g1]@.len() && gr[g1]@[m1] as int == x;
    let m2 = choose|m2: int| 0 <= m2 < gr[g2]@.len() && gr[g2]@[m2] as int == x;
    if g1 != g2 {
        assert(gr[g1]@[m1] != gr[g2]@[m2]);
        assert(false);
    }
}

/// A connected pair of distinct indices gives the first a distinct
/// overlapping neighbor somewhere on the chain.
proof fn lemma_connected_distinct_neighbor(s: Seq<Circle>, path: Seq<int>, x: int, y: int)
    requires
        path_connects(s, path, x, y),
        x != y,
    ensures
        exists|z: int| 0 <= z < s.len() && z != x && !circles_disjoint(s[x], #[trigger] s[z]),
    decreases path.len(),
{
    assert(path.len() >= 2);
    if path[1] != x {
        let z = path[1];
        let i0: int = 0;
        assert(!circles_disjoint(s[path[i0]], s[path[i0 + 1]]));
        assert(0 <= z < s.len() && z != x && !circles_disjoint(s[x], s[z]));
    } else {
        let rest = path.subrange(1, path.len() as int);
        assert(path_connects(s, rest, x, y)) by {
            assert(rest[0] == path[1]);
            assert(rest[rest.len() - 1] == path[path.len() - 1]);
            assert forall|i: int| 0 <= i < rest.len() implies 0 <= #[trigger] rest[i] < s.len() by {
                assert(rest[i] == path[i + 1]);
            }
            assert forall|i: int|
                0 <= i < rest.len() - 1 implies !circles_disjoint(
                s[#[trigger] rest[i]],
                s[rest[i + 1]],
            ) by {
                assert(rest[i] == path[i + 1] && rest[i + 1] == path[i + 2]);
                assert(!circles_disjoint(s[path[i + 1]], s[path[i + 1 + 1]]));
            }
        }
        lemma_connected_distinct_neighbor(s, rest, x, y);
    }
}

/// Walking a chain of overlaps never leaves the group of the start: each
/// overlapping step shares a group, and group disjointness makes that
/// group the same one throughout.
proof fn lemma_chain_joins(gr: Seq<Vec<usize>>, s: Seq<Circle>, path: Seq<int>, x: int, y: int)
    requires
        path_connects(s, path, x, y),
        x != y,
        groups_disjoint(gr),
        overlapping_pairs_joined(gr, s),
    ensures
        share_group(gr, x, y),
    decreases path.len(),
{
    assert(path.len() >= 2);
    let w = path[1];
    let rest = path.subrange(1, path.len() as int);
    assert(path_connects(s, rest, w, y)) by {
        assert(rest[0] == path[1]);
        assert(rest[rest.len() - 1] == path[path.len() - 1]);
        assert forall|i: int| 0 <= i < rest.len() implies 0 <= #[trigger] rest[i] < s.len() by {
            assert(rest[i] == path[i + 1]);
        }
        assert forall|i: int|
            0 <= i < rest.len() - 1 implies !circles_disjoint(
            s[#[trigger] rest[i]],
            s[rest[i + 1]],
        ) by {
            assert(rest[i] == path[i + 1] && rest[i + 1] == path[i + 2]);
            assert(!circles_disjoint(s[path[i + 1]], s[path[i + 1 + 1]]));
        }
    }
    if w == x {
        lemma_chain_joins(gr, s, rest, x, y);
    } else {
        let i0: int = 0;
        assert(!circles_disjoint(s[path[i0]], s[path[i0 + 1]]));
        assert(share_group(gr, x, w)) by {
            if x < w {
                assert(share_group(gr, x, w));
            } else {
                lemma_disjoint_symmetric(s[w], s[x]);
                assert(share_group(gr, w, x));
                let g = choose|g: int|
                    0 <= g < gr.len() && member(gr, g, w) && member(gr, g, x);
                assert(member(gr, g, x) && member(gr, g, w));
            }
        }
        if w == y {
        } else {
            lemma_chain_joins(gr, s, rest, w, y);
            let g1 = choose|g1: int|
                0 <= g1 < gr.len() && member(gr, g1, x) && member(gr, g1, w);
            let g2 = choose|g2: int|
                0 <= g2 < gr.len() && member(gr, g2, w) && member(gr, g2, y);
            lemma_member_unique_group(gr, w, g1, g2);
            assert(member(gr, g1, x) && member(gr, g1, y));
        }
    }
}

/// Whether `x` appears in the index list `v`.
fn list_contains(v: &Vec<usize>, x: usize) -> (r: bool)
    ensures
        r == list_has(v@, x as int),
{
    let mut m: usize = 0;
    while m < v.len()
        invariant
            m <= v@.len(),
            forall|k: int| 0 <= k < m ==> v@[k] != x,
        decreases v@.len() - m,
    {
        if v[m] == x {
            return true;
        }
        m = m + 1;
    }
    false
}

/// The position of the group that holds `x`, if any.
fn find_containing(groups: &Vec<Vec<usize>>, x: usize) -> (r: Option<usize>)
    ensures
        match r {
            Some(g) => g < groups@.len() && member(groups@, g as int, x as int),
            None => forall|g: int| 0 <= g < groups@.len() ==> !member(groups@, g, x as int),
        },
{
    let mut g: usize = 0;
    while g < groups.len()
        invariant
            g <= groups@.len(),
            forall|k: int| 0 <= k < g ==> !member(groups@, k, x as int),
        decreases groups@.len() - g,
    {
        if list_contains(&groups[g], x) {
            return Some(g);
        }
        g = g + 1;
    }
    None
}

/// Opening a fresh group of the overlapping pair `(i, j)`, neither of
/// which was grouped before, keeps all invariants.
#[verifier::spinoff_prover]
#[verifier::rlimit(100)]
proof fn lemma_fresh_preserves(
    before: Seq<Vec<usize>>,
    after: Seq<Vec<usize>>,
    s: Seq<Circle>,
    i: usize,
    j: usize,
)
    requires
        (i as int) < (j as int) < s.len(),
        !circles_disjoint(s[i as int], s[j as int]),
        groups_wf(before, s),
        forall|g: int| 0 <= g < before.len() ==> !member(before, g, i as int),
        forall|g: int| 0 <= g < before.len() ==> !member(before, g, j as int),
        after.len() == before.len() + 1,
        forall|g: int| 0 <= g < before.len() ==> after[g] == before[g],
        after[after.len() - 1]@ == seq![i, j],
        groups_sound(before, s),
        groups_big_enough(before),
    ensures
        groups_wf(after, s),
        share_group(after, i as int, j as int),
        forall|x: int, y: int| share_group(before, x, y) ==> share_group(after, x, y),
        groups_sound(after, s),
        groups_big_enough(after),
{
    let gn = after.len() - 1;
    assert(after[gn]@[0] == i && after[gn]@[1] == j);
    assert(member(after, gn, i as int) && member(after, gn, j as int));
    assert forall|g: int, m: int|
        0 <= g < after.len() && 0 <= m < after[g]@.len() implies (#[trigger] after[g]@[m])
        < s.len() by {
        if g < before.len() {
            assert(after[g] == before[g]);
            assert(before[g]@[m] < s.len());
        } else {
            assert(g == gn);
            assert(m == 0 || m == 1);
        }
    }
    assert forall|g1: int, m1: int, g2: int, m2: int|
        0 <= g1 < after.len() && 0 <= m1 < after[g1]@.len() && 0 <= g2 < after.len() && 0 <= m2
            < after[g2]@.len() && (g1 != g2 || m1 != m2) implies #[trigger] after[g1]@[m1]
        != #[trigger] after[g2]@[m2] by {
        if g1 < before.len() && g2 < before.len() {
            assert(after[g1]@[m1] == before[g1]@[m1] && after[g2]@[m2] == before[g2]@[m2]);
            assert(groups_disjoint(before));
        } else if g1 == gn && g2 == gn {
            assert(m1 != m2);
            assert((m1 == 0 || m1 == 1) && (m2 == 0 || m2 == 1));
        } else if g1 == gn {
            assert(after[g2]@[m2] == before[g2]@[m2]);
            if after[g1]@[m1] == after[g2]@[m2] {
                assert(member(before, g2, after[g1]@[m1] as int));
            }
        } else {
            assert(after[g1]@[m1] == before[g1]@[m1]);
            if after[g1]@[m1] == after[g2]@[m2] {
                assert(member(before, g1, after[g2]@[m2] as int));
            }
        }
    }
    assert forall|x: int, y: int| share_group(before, x, y) implies share_group(after, x, y) by {
        let g = choose|g: int| 0 <= g < before.len() && member(before, g, x) && member(before, g, y);
        assert(after[g] == before[g]);
        assert(member(after, g, x) && member(after, g, y));
    }
    assert forall|g: int| 0 <= g < after.len() implies (#[trigger] after[g]@).len() >= 2 by {
        if g < before.len() {
            assert(after[g] == before[g]);
            assert(before[g]@.len() >= 2);
        }
    }
    assert forall|g: int, m1: int, m2: int|
        0 <= g < after.len() && 0 <= m1 < after[g]@.len() && 0 <= m2 < after[g]@.len()
        implies connected(
        s,
        (#[trigger] after[g]@[m1]) as int,
        (#[trigger] after[g]@[m2]) as int,
    ) by {
        if g < before.len() {
            assert(after[g] == before[g]);
            assert(connected(s, (before[g]@[m1]) as int, (before[g]@[m2]) as int));
        } else {
            assert(g == gn);
            assert((m1 == 0 || m1 == 1) && (m2 == 0 || m2 == 1));
            lemma_disjoint_symmetric(s[i as int], s[j as int]);
            if m1 == m2 {
                lemma_connected_refl(s, (after[g]@[m1]) as int);
            } else if m1 == 0 {
                lemma_connected_step(s, i as int, j as int);
            } else {
                lemma_connected_step(s, j as int, i as int);
            }
        }
    }
}

/// Extending the group that holds `present` with the ungrouped index
/// `missing` keeps all invariants.
#[verifier::spinoff_prover]
#[verifier::rlimit(100)]
proof fn lemma_extend_preserves(
    before: Seq<Vec<usize>>,
    after: Seq<Vec<usize>>,
    s: Seq<Circle>,
    a: int,
    missing: usize,
    present: usize,
)
    requires
        0 <= a < before.len(),
        (missing as int) < s.len(),
        (present as int) < s.len(),
        present != missing,
        !circles_disjoint(s[present as int], s[missing as int]),
        groups_wf(before, s),
        member(before, a, present as int),
        forall|g: int| 0 <= g < before.len() ==> !member(before, g, missing as int),
        after.len() == before.len(),
        after[a]@ == before[a]@.push(missing),
        forall|g: int| 0 <= g < after.len() && g != a ==> after[g] == before[g],
        groups_sound(before, s),
        groups_big_enough(before),
    ensures
        groups_wf(after, s),
        share_group(after, present as int, missing as int),
        forall|x: int, y: int| share_group(before, x, y) ==> share_group(after, x, y),
        groups_sound(after, s),
        groups_big_enough(after),
{
    let la = before[a]@.len() as int;
    assert(after[a]@[la] == missing);
    assert forall|m: int| 0 <= m < la implies after[a]@[m] == before[a]@[m] by {}
    assert(member(after, a, missing as int));
    assert(member(after, a, present as int)) by {
        let m = choose|m: int| 0 <= m < before[a]@.len() && before[a]@[m] as int == present as int;
        assert(after[a]@[m] == before[a]@[m]);
    }
    assert forall|g: int, m: int|
        0 <= g < after.len() && 0 <= m < after[g]@.len() implies (#[trigger] after[g]@[m])
        < s.len() by {
        if g == a {
            if m < la {
                assert(after[g]@[m] == before[g]@[m]);
            } else {
                assert(after[g]@[m] == missing);
            }
        } else {
            assert(after[g] == before[g]);
        }
    }
    assert forall|g1: int, m1: int, g2: int, m2: int|
        0 <= g1 < after.len() && 0 <= m1 < after[g1]@.len() && 0 <= g2 < after.len() && 0 <= m2
            < after[g2]@.len() && (g1 != g2 || m1 != m2) implies #[trigger] after[g1]@[m1]
        != #[trigger] after[g2]@[m2] by {
        let new1 = g1 == a && m1 == la;
        let new2 = g2 == a && m2 == la;
        if new1 && new2 {
        } else if new1 {
            assert(after[g1]@[m1] == missing);
            if g2 == a {
                assert(after[g2]@[m2] == before[g2]@[m2]);
            } else {
                assert(after[g2] == before[g2]);
            }
            if after[g2]@[m2] == missing {
                assert(member(before, g2, missing as int));
            }
        } else if new2 {
            assert(after[g2]@[m2] == missing);
            if g1 == a {
                assert(after[g1]@[m1] == before[g1]@[m1]);
            } else {
                assert(after[g1] == before[g1]);
            }
            if after[g1]@[m1] == missing {
                assert(member(before, g1, missing as int));
            }
        } else {
            assert(after[g1]@[m1] == before[g1]@[m1]);
            assert(after[g2]@[m2] == before[g2]@[m2]);
            assert(groups_disjoint(before));
        }
    }
    assert forall|x: int, y: int| share_group(before, x, y) implies share_group(after, x, y) by {
        let g = choose|g: int| 0 <= g < before.len() && member(before, g, x) && member(before, g, y);
        assert(member(after, g, x)) by {
            let mx = choose|mx: int| 0 <= mx < before[g]@.len() && before[g]@[mx] as int == x;
            if g == a {
                assert(after[g]@[mx] == before[g]@[mx]);
            } else {
                assert(after[g] == before[g]);
            }
        }
        assert(member(after, g, y)) by {
            let my = choose|my: int| 0 <= my < before[g]@.len() && before[g]@[my] as int == y;
            if g == a {
                assert(after[g]@[my] == before[g]@[my]);
            } else {
                assert(after[g] == before[g]);
            }
        }
    }
    assert forall|g: int| 0 <= g < after.len() implies (#[trigger] after[g]@).len() >= 2 by {
        if g == a {
            assert(after[g]@.len() == before[g]@.len() + 1);
            assert(before[g]@.len() >= 2);
        } else {
            assert(after[g] == before[g]);
            assert(before[g]@.len() >= 2);
        }
    }
    assert forall|g: int, m1: int, m2: int|
        0 <= g < after.len() && 0 <= m1 < after[g]@.len() && 0 <= m2 < after[g]@.len()
        implies connected(
        s,
        (#[trigger] after[g]@[m1]) as int,
        (#[trigger] after[g]@[m2]) as int,
    ) by {
        if g != a {
            assert(after[g] == before[g]);
            assert(connected(s, (before[g]@[m1]) as int, (before[g]@[m2]) as int));
        } else {
            let mp = choose|mp: int|
                0 <= mp < before[a]@.len() && before[a]@[mp] as int == present as int;
            lemma_disjoint_symmetric(s[present as int], s[missing as int]);
            if m1 < la && m2 < la {
                assert(after[a]@[m1] == before[a]@[m1] && after[a]@[m2] == before[a]@[m2]);
                assert(connected(s, (before[a]@[m1]) as int, (before[a]@[m2]) as int));
            } else if m1 == la && m2 == la {
                lemma_connected_refl(s, missing as int);
            } else if m1 == la {
                lemma_connected_step(s, missing as int, present as int);
                assert(connected(s, (before[a]@[mp]) as int, (before[a]@[m2]) as int));
                lemma_connected_trans(
                    s,
                    missing as int,
                    present as int,
                    (before[a]@[m2]) as int,
                );
                assert(after[a]@[m2] == before[a]@[m2]);
            } else {
                assert(connected(s, (before[a]@[m1]) as int, (before[a]@[mp]) as int));
                lemma_connected_step(s, present as int, missing as int);
                lemma_connected_trans(
                    s,
                    (before[a]@[m1]) as int,
                    present as int,
                    missing as int,
                );
                assert(after[a]@[m1] == before[a]@[m1]);
            }
        }
    }
}

/// Maps a position of the merged structure back to the position of the
/// same entry before the merge: positions in the merged group `lo` split
/// at the old length `la` of group `lo`, later groups shift up by one.
pub open spec fn origin_pos(lo: int, hi: int, la: int, g: int, m: int) -> (int, int) {
    if g == lo {
        if m < la {
            (lo, m)
        } else {
            (hi, m - la)
        }
    } else if g < hi {
        (g, m)
    } else {
        (g + 1, m)
    }
}

/// Merging group `hi` into group `lo` keeps all invariants, and old
/// co-membership survives the merge.
#[verifier::spinoff_prover]
#[verifier::rlimit(100)]
proof fn lemma_merge_preserves(
    before: Seq<Vec<usize>>,
    after: Seq<Vec<usize>>,
    s: Seq<Circle>,
    lo: int,
    hi: int,
    xl: int,
    xh: int,
)
    requires
        0 <= lo < hi < before.len(),
        groups_wf(before, s),
        after.len() == before.len() - 1,
        after[lo]@ == before[lo]@ + before[hi]@,
        forall|g: int|
            0 <= g < after.len() && g != lo ==> (#[trigger] after[g])@ == (if g < hi {
                before[g]@
            } else {
                before[g + 1]@
            }),
        groups_sound(before, s),
        groups_big_enough(before),
        member(before, lo, xl),
        member(before, hi, xh),
        connected(s, xl, xh),
    ensures
        groups_wf(after, s),
        forall|x: int, y: int| share_group(before, x, y) ==> share_group(after, x, y),
        forall|x: int, y: int|
            member(before, lo, x) && member(before, hi, y) ==> share_group(after, x, y),
        groups_sound(after, s),
        groups_big_enough(after),
{
    let la = before[lo]@.len() as int;
    assert forall|g: int, m: int|
        0 <= g < after.len() && 0 <= m < after[g]@.len() implies {
        let (og, om) = origin_pos(lo, hi, la, g, m);
        &&& 0 <= og < before.len()
        &&& 0 <= om < before[og]@.len()
        &&& (#[trigger] after[g]@[m]) == before[og]@[om]
    } by {
        if g == lo {
            if m < la {
                assert(after[g]@[m] == before[lo]@[m]);
            } else {
                assert(after[g]@[m] == before[hi]@[m - la]);
            }
        }
    }
    assert forall|g: int, m: int|
        0 <= g < after.len() && 0 <= m < after[g]@.len() implies (#[trigger] after[g]@[m])
        < s.len() by {
        let (og, om) = origin_pos(lo, hi, la, g, m);
        assert(after[g]@[m] == before[og]@[om]);
        assert(before[og]@[om] < s.len());
    }
    assert forall|g1: int, m1: int, g2: int, m2: int|
        0 <= g1 < after.len() && 0 <= m1 < after[g1]@.len() && 0 <= g2 < after.len() && 0 <= m2
            < after[g2]@.len() && (g1 != g2 || m1 != m2) implies #[trigger] after[g1]@[m1]
        != #[trigger] after[g2]@[m2] by {
        let (og1, om1) = origin_pos(lo, hi, la, g1, m1);
        let (og2, om2) = origin_pos(lo, hi, la, g2, m2);
        assert(after[g1]@[m1] == before[og1]@[om1]);
        assert(after[g2]@[m2] == before[og2]@[om2]);
        assert(og1 != og2 || om1 != om2);
        assert(groups_disjoint(before));
    }
    assert forall|x: int, y: int| share_group(before, x, y) implies share_group(after, x, y) by {
        let g = choose|g: int| 0 <= g < before.len() && member(before, g, x) && member(before, g, y);
        let gnew = if g == hi {
            lo
        } else if g < hi {
            g
        } else {
            g - 1
        };
        assert(member(after, gnew, x)) by {
            let m = choose|m: int| 0 <= m < before[g]@.len() && before[g]@[m] as int == x;
            let mnew = if g == hi {
                la + m
            } else {
                m
            };
            assert(after[gnew]@[mnew] == before[g]@[m]);
        }
        assert(member(after, gnew, y)) by {
            let m = choose|m: int| 0 <= m < before[g]@.len() && before[g]@[m] as int == y;
            let mnew = if g == hi {
                la + m
            } else {
                m
            };
            assert(after[gnew]@[mnew] == before[g]@[m]);
        }
    }
    assert forall|x: int, y: int|
        member(before, lo, x) && member(before, hi, y) implies share_group(after, x, y) by {
        assert(member(after, lo, x)) by {
            let m = choose|m: int| 0 <= m < before[lo]@.len() && before[lo]@[m] as int == x;
            assert(after[lo]@[m] == before[lo]@[m]);
        }
        assert(member(after, lo, y)) by {
            let m = choose|m: int| 0 <= m < before[hi]@.len() && before[hi]@[m] as int == y;
            assert(after[lo]@[la + m] == before[hi]@[m]);
        }
    }
    assert forall|g: int| 0 <= g < after.len() implies (#[trigger] after[g]@).len() >= 2 by {
        if g == lo {
            assert(before[lo]@.len() >= 2 && before[hi]@.len() >= 2);
        } else if g < hi {
            assert(after[g]@ == before[g]@);
            assert(before[g]@.len() >= 2);
        } else {
            assert(after[g]@ == before[g + 1]@);
            assert(before[g + 1]@.len() >= 2);
        }
    }
    let ml = choose|ml: int| 0 <= ml < before[lo]@.len() && before[lo]@[ml] as int == xl;
    let mh = choose|mh: int| 0 <= mh < before[hi]@.len() && before[hi]@[mh] as int == xh;
    assert forall|g: int, m1: int, m2: int|
        0 <= g < after.len() && 0 <= m1 < after[g]@.len() && 0 <= m2 < after[g]@.len()
        implies connected(
        s,
        (#[trigger] after[g]@[m1]) as int,
        (#[trigger] after[g]@[m2]) as int,
    ) by {
        let (og1, om1) = origin_pos(lo, hi, la, g, m1);
        let (og2, om2) = origin_pos(lo, hi, la, g, m2);
        assert(after[g]@[m1] == before[og1]@[om1]);
        assert(after[g]@[m2] == before[og2]@[om2]);
        if og1 == og2 {
            assert(connected(s, (before[og1]@[om1]) as int, (before[og1]@[om2]) as int));
        } else if og1 == lo {
            assert(og2 == hi);
            assert(connected(s, (before[lo]@[om1]) as int, (before[lo]@[ml]) as int));
            assert(connected(s, (before[hi]@[mh]) as int, (before[hi]@[om2]) as int));
            lemma_connected_trans(s, (before[lo]@[om1]) as int, xl, xh);
            lemma_connected_trans(s, (before[lo]@[om1]) as int, xh, (before[hi]@[om2]) as int);
        } else {
            assert(og1 == hi && og2 == lo);
            assert(connected(s, (before[hi]@[om1]) as int, (before[hi]@[mh]) as int));
            assert(connected(s, (before[lo]@[ml]) as int, (before[lo]@[om2]) as int));
            lemma_connected_sym(s, xl, xh);
            lemma_connected_trans(s, (before[hi]@[om1]) as int, xh, xl);
            lemma_connected_trans(s, (before[hi]@[om1]) as int, xl, (before[lo]@[om2]) as int);
        }
    }
}

/// Replaces group `a` by the concatenation of groups `a` and `b`, and
/// removes group `b`.
fn merge_groups(groups: &mut Vec<Vec<usize>>, a: usize, b: usize)
    requires
        a < b < old(groups)@.len(),
    ensures
        final(groups)@.len() == old(groups)@.len() - 1,
        final(groups)@[a as int]@ == old(groups)@[a as int]@ + old(groups)@[b as int]@,
        forall|g: int|
            0 <= g < final(groups)@.len() && g != a ==> (#[trigger] final(groups)@[g])@ == (if g
                < b {
                old(groups)@[g]@
            } else {
                old(groups)@[g + 1]@
            }),
{
    let mut merged: Vec<usize> = Vec::new();
    let mut m: usize = 0;
    let la = groups[a].len();
    while m < la
        invariant
            a < groups@.len(),
            la == groups@[a as int]@.len(),
            m <= la,
            merged@ == groups@[a as int]@.subrange(0, m as int),
        decreases la - m,
    {
        merged.push(groups[a][m]);
        proof {
            assert(merged@ =~= groups@[a as int]@.subrange(0, m as int + 1));
        }
        m = m + 1;
    }
    let lb = groups[b].len();
    m = 0;
    while m < lb
        invariant
            a < b < groups@.len(),
            la == groups@[a as int]@.len(),
            lb == groups@[b as int]@.len(),
            m <= lb,
            merged@ == groups@[a as int]@.subrange(0, la as int) + groups@[b as int]@.subrange(
                0,
                m as int,
            ),
        decreases lb - m,
    {
        merged.push(groups[b][m]);
        proof {
            assert(merged@ =~= groups@[a as int]@.subrange(0, la as int)
                + groups@[b as int]@.subrange(0, m as int + 1));
        }
        m = m + 1;
    }
    proof {
        assert(groups@[a as int]@.subrange(0, la as int) =~= groups@[a as int]@);
        assert(groups@[b as int]@.subrange(0, lb as int) =~= groups@[b as int]@);
    }
    groups.set(a, merged);
    groups.remove(b);
}

/// Joins the overlapping pair `(i, j)` into the group structure: extends
/// the group holding either index with the other, merges the two groups
/// holding them, or opens a new group of the two.
#[verifier::rlimit(100)]
fn join_pair(groups: &mut Vec<Vec<usize>>, circles: &Vec<Circle>, i: usize, j: usize)
    requires
        i < j < circles@.len(),
        !circles_disjoint(circles@[i as int], circles@[j as int]),
        groups_wf(old(groups)@, circles@),
        groups_sound(old(groups)@, circles@),
        groups_big_enough(old(groups)@),
    ensures
        groups_wf(final(groups)@, circles@),
        share_group(final(groups)@, i as int, j as int),
        forall|x: int, y: int|
            share_group(old(groups)@, x, y) ==> share_group(final(groups)@, x, y),
        groups_sound(final(groups)@, circles@),
        groups_big_enough(final(groups)@),
{
    let ghost s = circles@;
    let gi = find_containing(groups, i);
    let gj = find_containing(groups, j);
    match (gi, gj) {
        (None, None) => {
            let mut fresh: Vec<usize> = Vec::new();
            fresh.push(i);
            fresh.push(j);
            let ghost before = groups@;
            groups.push(fresh);
            proof {
                assert(groups@[before.len() as int]@ =~= seq![i, j]);
                assert forall|g: int| 0 <= g < before.len() implies groups@[g] == before[g] by {}
                lemma_fresh_preserves(before, groups@, s, i, j);
            }
        },
        (Some(a), None) => {
            extend_group(groups, circles, a, j, i);
        },
        (None, Some(b)) => {
            proof {
                lemma_disjoint_symmetric(s[i as int], s[j as int]);
            }
            extend_group(groups, circles, b, i, j);
        },
        (Some(a), Some(b)) => {
            if a == b {
                proof {
                    assert(member(groups@, a as int, i as int) && member(
                        groups@,
                        a as int,
                        j as int,
                    ));
                    assert(share_group(groups@, i as int, j as int));
                }
            } else {
                let ghost before = groups@;
                let (lo, hi) = if a < b {
                    (a, b)
                } else {
                    (b, a)
                };
                merge_groups(groups, lo, hi);
                proof {
                    let (xl, xh) = if a == lo {
                        (i as int, j as int)
                    } else {
                        (j as int, i as int)
                    };
                    assert(connected(s, xl, xh)) by {
                        if a == lo {
                            lemma_connected_step(s, i as int, j as int);
                        } else {
                            lemma_disjoint_symmetric(s[i as int], s[j as int]);
                            lemma_connected_step(s, j as int, i as int);
                        }
                    }
                    lemma_merge_preserves(before, groups@, s, lo as int, hi as int, xl, xh);
                    if a == lo {
                        assert(share_group(groups@, i as int, j as int));
                    } else {
                        assert(share_group(groups@, j as int, i as int));
                        let g = choose|g: int|
                            0 <= g < groups@.len() && member(groups@, g, j as int) && member(
                                groups@,
                                g,
                                i as int,
                            );
                        assert(share_group(groups@, i as int, j as int));
                    }
                }
            }
        },
    }
}

/// Extends group `a`, which holds `present`, with `missing`, which lies in
/// no group; the circles of `present` and `missing` overlap.
fn extend_group(
    groups: &mut Vec<Vec<usize>>,
    circles: &Vec<Circle>,
    a: usize,
    missing: usize,
    present: usize,
)
    requires
        a < old(groups)@.len(),
        (missing as int) < circles@.len(),
        (present as int) < circles@.len(),
        present != missing,
        !circles_disjoint(circles@[present as int], circles@[missing as int]),
        member(old(groups)@, a as int, present as int),
        forall|g: int| 0 <= g < old(groups)@.len() ==> !member(old(groups)@, g, missing as int),
        groups_wf(old(groups)@, circles@),
        groups_sound(old(groups)@, circles@),
        groups_big_enough(old(groups)@),
    ensures
        groups_wf(final(groups)@, circles@),
        share_group(final(groups)@, present as int, missing as int),
        forall|x: int, y: int|
            share_group(old(groups)@, x, y) ==> share_group(final(groups)@, x, y),
        groups_sound(final(groups)@, circles@),
        groups_big_enough(final(groups)@),
{
    let ghost s = circles@;
    let ghost before = groups@;
    let mut extended: Vec<usize> = Vec::new();
    let la = groups[a].len();
    let mut m: usize = 0;
    while m < la
        invariant
            a < groups@.len(),
            la == groups@[a as int]@.len(),
            m <= la,
            extended@ == groups@[a as int]@.subrange(0, m as int),
        decreases la - m,
    {
        extended.push(groups[a][m]);
        proof {
            assert(extended@ =~= groups@[a as int]@.subrange(0, m as int + 1));
        }
        m = m + 1;
    }
    extended.push(missing);
    proof {
        assert(groups@[a as int]@.subrange(0, la as int) =~= groups@[a as int]@);
        assert(extended@ == groups@[a as int]@.push(missing));
    }
    groups.set(a, extended);
    proof {
        assert forall|g: int| 0 <= g < groups@.len() && g != a implies groups@[g] == before[g] by {}
        lemma_extend_preserves(before, groups@, s, a as int, missing, present);
    }
}

/// Chains of overlaps stay within one group: connected distinct indices
/// share a group.
#[verifier::spinoff_prover]
#[verifier::rlimit(100)]
proof fn lemma_chain_completeness(gr: Seq<Vec<usize>>, s: Seq<Circle>)
    requires
        groups_disjoint(gr),
        overlapping_pairs_joined(gr, s),
    ensures
        forall|x: int, y: int|
            0 <= x < s.len() && 0 <= y < s.len() && x != y && connected(s, x, y)
                ==> share_group(gr, x, y),
{
    assert forall|x: int, y: int|
            0 <= x < s.len() && 0 <= y < s.len() && x != y && connected(s, x, y)
            implies share_group(gr, x, y) by {
            let path = choose|path: Seq<int>| path_connects(s, path, x, y);
            lemma_chain_joins(gr, s, path, x, y);
        }
    }

/// Every grouped index overlaps another member of its own group.
#[verifier::spinoff_prover]
#[verifier::rlimit(100)]
proof fn lemma_groups_are_linked(gr: Seq<Vec<usize>>, s: Seq<Circle>)
    requires
        groups_in_bounds(gr, s.len() as int),
        groups_disjoint(gr),
        groups_sound(gr, s),
        groups_big_enough(gr),
        overlapping_pairs_joined(gr, s),
    ensures
        groups_linked(gr, s),
{
    assert forall|g: int, m: int|
        0 <= g < gr.len() && 0 <= m < gr[g]@.len() implies #[trigger] has_overlapping_partner(
        gr,
        s,
        g,
        m,
    ) by {
            let x = (gr[g]@[m]) as int;
            let m_other: int = if m == 0 {
                1
            } else {
                0
            };
            let y = (gr[g]@[m_other]) as int;
            assert(gr[g]@[m] != gr[g]@[m_other]);
            assert(connected(s, x, y));
            let path = choose|path: Seq<int>| path_connects(s, path, x, y);
            lemma_connected_distinct_neighbor(s, path, x, y);
            let z = choose|z: int|
                0 <= z < s.len() && z != x && !circles_disjoint(s[x], s[z]);
            assert(share_group(gr, x, z)) by {
                if x < z {
                    assert(share_group(gr, x, z));
                } else {
                    lemma_disjoint_symmetric(s[z], s[x]);
                    let g0 = choose|g0: int|
                        0 <= g0 < gr.len() && member(gr, g0, z) && member(
                            gr,
                            g0,
                            x,
                        );
                    assert(member(gr, g0, x) && member(gr, g0, z));
                }
            }
            let gz = choose|gz: int|
                0 <= gz < gr.len() && member(gr, gz, x) && member(gr, gz, z);
            assert(member(gr, g, x)) by {
                assert(gr[g]@[m] as int == x);
            }
            lemma_member_unique_group(gr, x, g, gz);
            let mz = choose|mz: int|
                0 <= mz < gr[g]@.len() && gr[g]@[mz] as int == z;
            assert(0 <= mz < gr[g]@.len() && mz != m && !circles_disjoint(
                s[(gr[g]@[m]) as int],
                s[(gr[g]@[mz]) as int],
            ));
        assert(has_overlapping_partner(gr, s, g, m));
    }
}

/// Exactly the indices whose circles overlap some other circle are
/// grouped.
#[verifier::spinoff_prover]
#[verifier::rlimit(100)]
proof fn lemma_membership_exact(gr: Seq<Vec<usize>>, s: Seq<Circle>)
    requires
        groups_in_bounds(gr, s.len() as int),
        groups_disjoint(gr),
        groups_linked(gr, s),
        overlapping_pairs_joined(gr, s),
    ensures
        forall|x: int|
            0 <= x < s.len() ==> (#[trigger] grouped(gr, x) <==> exists|z: int|
                0 <= z < s.len() && z != x && !circles_disjoint(s[x], #[trigger] s[z])),
{
    assert forall|x: int| 0 <= x < s.len() implies (#[trigger] grouped(gr, x)
            <==> exists|z: int|
            0 <= z < s.len() && z != x && !circles_disjoint(s[x], #[trigger] s[z])) by {
            if grouped(gr, x) {
                let g = choose|g: int| 0 <= g < gr.len() && member(gr, g, x);
                let m = choose|m: int|
                    0 <= m < gr[g]@.len() && gr[g]@[m] as int == x;
                assert(has_overlapping_partner(gr, s, g, m));
                let m2 = choose|m2: int|
                    0 <= m2 < gr[g]@.len() && m2 != m && !circles_disjoint(
                        s[(gr[g]@[m]) as int],
                        s[(gr[g]@[m2]) as int],
                    );
                let z = (gr[g]@[m2]) as int;
                assert(gr[g]@[m2] != gr[g]@[m]);
                assert(0 <= z < s.len() && z != x && !circles_disjoint(s[x], s[z]));
            }
            if exists|z: int| 0 <= z < s.len() && z != x && !circles_disjoint(
                s[x],
                #[trigger] s[z],
            ) {
                let z = choose|z: int|
                    0 <= z < s.len() && z != x && !circles_disjoint(s[x], s[z]);
                if x < z {
                    assert(share_group(gr, x, z));
                } else {
                    lemma_disjoint_symmetric(s[z], s[x]);
                    assert(share_group(gr, z, x));
                }
                assert(grouped(gr, x)) by {
                    if x < z {
                        let gx = choose|gx: int|
                            0 <= gx < gr.len() && member(gr, gx, x) && member(
                                gr,
                                gx,
                                z,
                            );
                        assert(member(gr, gx, x));
                    } else {
                        let gx = choose|gx: int|
                            0 <= gx < gr.len() && member(gr, gx, z) && member(
                                gr,
                                gx,
                                x,
                            );
                        assert(member(gr, gx, x));
                    }
                }
            }
        }
}

impl Circle {
    /// Partitions the overlapping members of `circles` into maximal
    /// clusters: two indices share a group exactly when their circles are
    /// connected by a chain of pairwise overlaps, no index lies in two
    /// groups, every grouped index overlaps another member of its group,
    /// and exactly the indices whose circles overlap some other circle
    /// are grouped.
    #[verifier::rlimit(100)]
    pub fn group(circles: &Vec<Circle>) -> (groups: Vec<Vec<usize>>)
        requires
            forall|i: int| 0 <= i < circles@.len() ==> (#[trigger] circles@[i]).wf(),
        ensures
            groups_in_bounds(groups@, circles@.len() as int),
            groups_disjoint(groups@),
            groups_big_enough(groups@),
            overlapping_pairs_joined(groups@, circles@),
            groups_sound(groups@, circles@),
            groups_linked(groups@, circles@),
            forall|x: int, y: int|
                0 <= x < circles@.len() && 0 <= y < circles@.len() && x != y && connected(
                    circles@,
                    x,
                    y,
                ) ==> share_group(groups@, x, y),
            forall|x: int|
                0 <= x < circles@.len() ==> (#[trigger] grouped(groups@, x) <==> exists|z: int|
                    0 <= z < circles@.len() && z != x && !circles_disjoint(
                        circles@[x],
                        #[trigger] circles@[z],
                    )),
    {
        let ghost s = circles@;
        let n = circles.len();
        let mut groups: Vec<Vec<usize>> = Vec::new();

        let mut i: usize = 0;
        while i < n
            invariant
                n == s.len(),
                s == circles@,
                forall|k: int| 0 <= k < s.len() ==> (#[trigger] s[k]).wf(),
                i <= n,
                groups_wf(groups@, s),
                groups_sound(groups@, s),
                groups_big_enough(groups@),
                seen_pairs_joined(groups@, s, i as int, i as int + 1),
            decreases n - i,
        {
            let mut j: usize = i + 1;
            while j < n
                invariant
                    n == s.len(),
                    s == circles@,
                    forall|k: int| 0 <= k < s.len() ==> (#[trigger] s[k]).wf(),
                    i < j <= n,
                    i < n,
                    groups_wf(groups@, s),
                    groups_sound(groups@, s),
                    groups_big_enough(groups@),
                    seen_pairs_joined(groups@, s, i as int, j as int),
                decreases n - j,
            {
                let ci = circles[i];
                let cj = circles[j];
                if ci.intersect(&cj).intersects() {
                    join_pair(&mut groups, circles, i, j);
                }
                proof {
                    assert forall|p: int, q: int|
                        0 <= p < q < s.len() && gpair_seen(p, q, i as int, j as int + 1)
                            && !circles_disjoint(#[trigger] s[p], #[trigger] s[q]) implies share_group(
                        groups@,
                        p,
                        q,
                    ) by {
                        if !gpair_seen(p, q, i as int, j as int) {
                            assert(p == i as int && q == j as int);
                        }
                    }
                }
                j = j + 1;
            }
            proof {
                assert forall|p: int, q: int|
                    0 <= p < q < s.len() && gpair_seen(p, q, i as int + 1, i as int + 2)
                        && !circles_disjoint(#[trigger] s[p], #[trigger] s[q]) implies share_group(
                    groups@,
                    p,
                    q,
                ) by {
                    assert(gpair_seen(p, q, i as int, n as int));
                }
            }
            i = i + 1;
        }
        proof {
            assert(overlapping_pairs_joined(groups@, s)) by {
                assert forall|p: int, q: int|
                    0 <= p < q < s.len() && !circles_disjoint(#[trigger] s[p], #[trigger] s[q])
                    implies share_group(groups@, p, q) by {
                    assert(gpair_seen(p, q, n as int, n as int + 1));
                }
            }
            lemma_chain_completeness(groups@, s);
            lemma_groups_are_linked(groups@, s);
            lemma_membership_exact(groups@, s);
        }
        groups
    }
}

} // verus!