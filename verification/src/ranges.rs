//! Byte ranges of the matches in a line, and how overlapping or touching
//! ranges are merged into the ranges that get highlighted.
use vstd::prelude::*;

verus! {

/// A sequence of `usize` ranges seen as integer pairs.
pub open spec fn as_int_ranges(s: Seq<(usize, usize)>) -> Seq<(int, int)> {
    s.map_values(|p: (usize, usize)| (p.0 as int, p.1 as int))
}

/// The ranges are ordered by their start.
pub open spec fn sorted_by_start(s: Seq<(int, int)>) -> bool {
    forall|i: int, j: int| 0 <= i <= j < s.len() ==> (#[trigger] s[i]).0 <= (#[trigger] s[j]).0
}

/// Every range starts no later than it ends.
pub open spec fn well_formed_ranges(s: Seq<(int, int)>) -> bool {
    forall|k: int| 0 <= k < s.len() ==> (#[trigger] s[k]).0 <= s[k].1
}

/// `r` contains the range `m`.
pub open spec fn covers(r: (int, int), m: (int, int)) -> bool {
    r.0 <= m.0 && m.1 <= r.1
}

/// The position `x` lies in the range `r` (its end excluded).
pub open spec fn in_range(r: (int, int), x: int) -> bool {
    r.0 <= x < r.1
}

/// Consecutive merged ranges are strictly apart (they neither overlap nor touch).
#[verifier::opaque]
pub open spec fn strictly_apart(rs: Seq<(int, int)>) -> bool {
    forall|k: int| 0 <= k < rs.len() - 1 ==> (#[trigger] rs[k]).1 < rs[k + 1].0
}

/// Some range of `rs` contains `m`.
pub open spec fn covered_by_some(rs: Seq<(int, int)>, m: (int, int)) -> bool {
    exists|k: int| 0 <= k < rs.len() && covers(#[trigger] rs[k], m)
}

/// Some range of `ms` inside `r` starts where `r` starts.
pub open spec fn start_witnessed(ms: Seq<(int, int)>, r: (int, int)) -> bool {
    exists|j: int| 0 <= j < ms.len() && (#[trigger] ms[j]).0 == r.0 && covers(r, ms[j])
}

/// Some range of `ms` inside `r` ends where `r` ends.
pub open spec fn end_witnessed(ms: Seq<(int, int)>, r: (int, int)) -> bool {
    exists|j: int| 0 <= j < ms.len() && (#[trigger] ms[j]).1 == r.1 && covers(r, ms[j])
}

/// Some range of `ms` inside `r` holds the position `x`.
pub open spec fn position_witnessed(ms: Seq<(int, int)>, r: (int, int), x: int) -> bool {
    exists|j: int| 0 <= j < ms.len() && covers(r, #[trigger] ms[j]) && in_range(ms[j], x)
}

/// Every range of `ms` lies inside some range of `rs`.
#[verifier::opaque]
pub open spec fn all_covered(rs: Seq<(int, int)>, ms: Seq<(int, int)>) -> bool {
    forall|j: int| 0 <= j < ms.len() ==> #[trigger] covered_by_some(rs, ms[j])
}

/// Every range of `rs` starts where a range of `ms` inside it starts.
#[verifier::opaque]
pub open spec fn starts_at_members(rs: Seq<(int, int)>, ms: Seq<(int, int)>) -> bool {
    forall|k: int| 0 <= k < rs.len() ==> #[trigger] start_witnessed(ms, rs[k])
}

/// Every range of `rs` ends where a range of `ms` inside it ends.
#[verifier::opaque]
pub open spec fn ends_at_members(rs: Seq<(int, int)>, ms: Seq<(int, int)>) -> bool {
    forall|k: int| 0 <= k < rs.len() ==> #[trigger] end_witnessed(ms, rs[k])
}

/// Every position inside a range of `rs` lies in a range of `ms` inside it.
#[verifier::opaque]
pub open spec fn without_gaps(rs: Seq<(int, int)>, ms: Seq<(int, int)>) -> bool {
    forall|k: int, x: int| 0 <= k < rs.len() && in_range(rs[k], x) ==> #[trigger] position_witnessed(ms, rs[k], x)
}

/// `rs` is the merge of the ranges `ms`: the ranges where ranges of `ms`
/// that overlap or touch are joined, in order and strictly apart.
/// Each merged range contains the ranges it was joined from, starts where
/// one of them starts, ends where one of them ends, and has no gap.
pub open spec fn is_merge_of(rs: Seq<(int, int)>, ms: Seq<(int, int)>) -> bool {
    &&& well_formed_ranges(rs)
    &&& strictly_apart(rs)
    &&& all_covered(rs, ms)
    &&& starts_at_members(rs, ms)
    &&& ends_at_members(rs, ms)
    &&& without_gaps(rs, ms)
}

/// Sorts the ranges by their start (insertion sort); the result holds
/// exactly the ranges of the input.
pub fn sort_by_start(v: &Vec<(usize, usize)>) -> (r: Vec<(usize, usize)>)
    ensures
        sorted_by_start(as_int_ranges(r@)),
        r@.len() == v@.len(),
        r@.to_multiset() == v@.to_multiset(),
        forall|p: (int, int)| as_int_ranges(r@).contains(p) <==> as_int_ranges(v@).contains(p),
{
    let mut r: Vec<(usize, usize)> = Vec::new();
    let n = v.len();
    let mut i: usize = 0;
    assert(v@.take(0) =~= r@);
    while i < n
        invariant
            n == v@.len(),
            i <= n,
            r@.len() == i,
            r@.to_multiset() == v@.take(i as int).to_multiset(),
            sorted_by_start(as_int_ranges(r@)),
            forall|p: (int, int)|
                as_int_ranges(r@).contains(p) <==> as_int_ranges(v@.take(i as int)).contains(p),
        decreases n - i,
    {
        let x = v[i];
        let mut j: usize = 0;
        while j < r.len() && r[j].0 <= x.0
            invariant
                j <= r@.len(),
                forall|k: int| 0 <= k < j ==> (#[trigger] r@[k]).0 <= x.0,
            decreases r@.len() - j,
        {
            j = j + 1;
        }
        let ghost old_r = r@;
        r.insert(j, x);
        proof {
            let xi = (x.0 as int, x.1 as int);
            assert(as_int_ranges(r@) =~= as_int_ranges(old_r).insert(j as int, xi));
            assert(v@.take(i + 1) =~= v@.take(i as int).push(x));
            vstd::seq_lib::to_multiset_insert(old_r, j as int, x);
            vstd::seq_lib::to_multiset_build(v@.take(i as int), x);
            assert(as_int_ranges(v@.take(i + 1)) =~= as_int_ranges(v@.take(i as int)).push(xi));
            let ro = as_int_ranges(old_r);
            let rn = as_int_ranges(r@);
            assert forall|a: int, b: int| 0 <= a <= b < rn.len() implies (#[trigger] rn[a]).0 <= (#[trigger] rn[b]).0 by {
                if j < old_r.len() {
                    assert(!(old_r[j as int].0 <= x.0));
                }
                if a < j && b < j {
                    assert(rn[a] == ro[a] && rn[b] == ro[b]);
                } else if a < j && b == j {
                    assert(rn[a] == ro[a]);
                } else if a < j {
                    assert(rn[a] == ro[a] && rn[b] == ro[b - 1]);
                    assert(ro[a].0 <= ro[j as int].0);
                    assert(ro[j as int].0 <= ro[b - 1].0);
                } else if a == j && b == j {
                } else if a == j {
                    assert(rn[b] == ro[b - 1]);
                    assert(ro[j as int].0 <= ro[b - 1].0);
                } else {
                    assert(rn[a] == ro[a - 1] && rn[b] == ro[b - 1]);
                }
            }
            assert forall|p: (int, int)| rn.contains(p) <==> as_int_ranges(v@.take(i + 1)).contains(p) by {
                let vp = as_int_ranges(v@.take(i as int));
                if rn.contains(p) {
                    let k = choose|k: int| 0 <= k < rn.len() && rn[k] == p;
                    if k == j {
                        assert(vp.push(xi)[vp.len() as int] == p);
                    } else {
                        if k < j {
                            assert(ro[k] == p);
                        } else {
                            assert(ro[k - 1] == p);
                        }
                        assert(ro.contains(p));
                        assert(vp.contains(p));
                        let m = choose|m: int| 0 <= m < vp.len() && vp[m] == p;
                        assert(vp.push(xi)[m] == p);
                    }
                    assert(vp.push(xi).contains(p));
                }
                if as_int_ranges(v@.take(i + 1)).contains(p) {
                    if p != xi {
                        let k = choose|k: int| 0 <= k < vp.push(xi).len() && vp.push(xi)[k] == p;
                        assert(vp.contains(p));
                        assert(ro.contains(p));
                        let m = choose|m: int| 0 <= m < ro.len() && ro[m] == p;
                        if m < j {
                            assert(rn[m] == p);
                        } else {
                            assert(rn[m + 1] == p);
                        }
                    } else {
                        assert(rn[j as int] == p);
                    }
                }
            }
        }
        i = i + 1;
    }
    assert(v@.take(n as int) =~= v@);
    r
}


/// Joining the next range `m`, which starts inside or right at the end of the
/// last merged range `cur`, extends `cur` to cover `m`.
proof fn lemma_merge_extend(rs: Seq<(int, int)>, cur: (int, int), ms: Seq<(int, int)>, m: (int, int))
    requires
        is_merge_of(rs.push(cur), ms),
        cur.0 <= m.0 <= cur.1,
        m.0 <= m.1,
    ensures
        is_merge_of(rs.push((cur.0, if m.1 > cur.1 { m.1 } else { cur.1 })), ms.push(m)),
{
    let c2 = (cur.0, if m.1 > cur.1 { m.1 } else { cur.1 });
    let r1 = rs.push(cur);
    let r2 = rs.push(c2);
    let last = rs.len() as int;
    assert(r1[last] == cur && r2[last] == c2);
    assert forall|k: int| 0 <= k < r2.len() implies (#[trigger] r2[k]).0 <= r2[k].1 by {
        if k < last {
            assert(r2[k] == r1[k]);
        }
    }
    extend_apart(rs, cur, c2);
    extend_covered(rs, cur, c2, ms, m);
    extend_starts(rs, cur, c2, ms, m);
    extend_ends(rs, cur, c2, ms, m);
    extend_gaps(rs, cur, c2, ms, m);
}

/// Widening the last range to the right keeps the ranges apart.
proof fn extend_apart(rs: Seq<(int, int)>, cur: (int, int), c2: (int, int))
    requires
        strictly_apart(rs.push(cur)),
        c2.0 == cur.0,
    ensures
        strictly_apart(rs.push(c2)),
{
    reveal(strictly_apart);
    let r1 = rs.push(cur);
    let r2 = rs.push(c2);
    let last = rs.len() as int;
    assert forall|k: int| 0 <= k < r2.len() - 1 implies (#[trigger] r2[k]).1 < r2[k + 1].0 by {
        assert(r2[k] == r1[k]);
        assert(r1[k].1 < r1[k + 1].0);
        if k + 1 < last {
            assert(r2[k + 1] == r1[k + 1]);
        }
    }
}

/// A witness in `ms` stays one in `ms.push(m)`.
proof fn witness_kept(ms: Seq<(int, int)>, m: (int, int), r: (int, int), x: int)
    ensures
        start_witnessed(ms, r) ==> start_witnessed(ms.push(m), r),
        end_witnessed(ms, r) ==> end_witnessed(ms.push(m), r),
        position_witnessed(ms, r, x) ==> position_witnessed(ms.push(m), r, x),
{
    let m2 = ms.push(m);
    if start_witnessed(ms, r) {
        let j = choose|j: int| 0 <= j < ms.len() && (#[trigger] ms[j]).0 == r.0 && covers(r, ms[j]);
        assert(m2[j] == ms[j]);
    }
    if end_witnessed(ms, r) {
        let j = choose|j: int| 0 <= j < ms.len() && (#[trigger] ms[j]).1 == r.1 && covers(r, ms[j]);
        assert(m2[j] == ms[j]);
    }
    if position_witnessed(ms, r, x) {
        let j = choose|j: int| 0 <= j < ms.len() && covers(r, #[trigger] ms[j]) && in_range(ms[j], x);
        assert(m2[j] == ms[j]);
    }
}

/// A witness for `r` is one for any `r2` around `r` that starts and ends
/// where `r` does (as far as the witness needs).
proof fn witness_widened(ms: Seq<(int, int)>, r: (int, int), r2: (int, int), x: int)
    requires
        covers(r2, r),
    ensures
        start_witnessed(ms, r) && r2.0 == r.0 ==> start_witnessed(ms, r2),
        end_witnessed(ms, r) && r2.1 == r.1 ==> end_witnessed(ms, r2),
        position_witnessed(ms, r, x) ==> position_witnessed(ms, r2, x),
{
    if start_witnessed(ms, r) && r2.0 == r.0 {
        let j = choose|j: int| 0 <= j < ms.len() && (#[trigger] ms[j]).0 == r.0 && covers(r, ms[j]);
        assert(ms[j].0 == r2.0 && covers(r2, ms[j]));
    }
    if end_witnessed(ms, r) && r2.1 == r.1 {
        let j = choose|j: int| 0 <= j < ms.len() && (#[trigger] ms[j]).1 == r.1 && covers(r, ms[j]);
        assert(ms[j].1 == r2.1 && covers(r2, ms[j]));
    }
    if position_witnessed(ms, r, x) {
        let j = choose|j: int| 0 <= j < ms.len() && covers(r, #[trigger] ms[j]) && in_range(ms[j], x);
        assert(covers(r2, ms[j]));
    }
}

/// After widening the last range over `m`, every range is still covered,
/// `m` too.
proof fn extend_covered(rs: Seq<(int, int)>, cur: (int, int), c2: (int, int), ms: Seq<(int, int)>, m: (int, int))
    requires
        all_covered(rs.push(cur), ms),
        covers(c2, cur),
        covers(c2, m),
    ensures
        all_covered(rs.push(c2), ms.push(m)),
{
    reveal(all_covered);
    let r1 = rs.push(cur);
    let r2 = rs.push(c2);
    let m2 = ms.push(m);
    let last = rs.len() as int;
    assert(r2[last] == c2);
    assert forall|j: int| 0 <= j < m2.len() implies #[trigger] covered_by_some(r2, m2[j]) by {
        if j < ms.len() {
            assert(m2[j] == ms[j]);
            assert(covered_by_some(r1, ms[j]));
            let k = choose|k: int| 0 <= k < r1.len() && covers(#[trigger] r1[k], ms[j]);
            if k < last {
                assert(r2[k] == r1[k]);
            }
            assert(covers(r2[k], m2[j]));
        } else {
            assert(m2[j] == m);
            assert(covers(r2[last], m2[j]));
        }
    }
}

/// Widening the last range to the right keeps every start witnessed.
proof fn extend_starts(rs: Seq<(int, int)>, cur: (int, int), c2: (int, int), ms: Seq<(int, int)>, m: (int, int))
    requires
        starts_at_members(rs.push(cur), ms),
        covers(c2, cur),
        c2.0 == cur.0,
    ensures
        starts_at_members(rs.push(c2), ms.push(m)),
{
    reveal(starts_at_members);
    let r1 = rs.push(cur);
    let r2 = rs.push(c2);
    let last = rs.len() as int;
    assert forall|k: int| 0 <= k < r2.len() implies #[trigger] start_witnessed(ms.push(m), r2[k]) by {
        assert(start_witnessed(ms, r1[k]));
        witness_kept(ms, m, r1[k], 0);
        if k < last {
            assert(r2[k] == r1[k]);
        } else {
            assert(r2[k] == c2 && r1[k] == cur);
            witness_widened(ms.push(m), cur, c2, 0);
        }
    }
}

/// After widening the last range to the end of `m` (or keeping its end), every
/// end is still witnessed.
proof fn extend_ends(rs: Seq<(int, int)>, cur: (int, int), c2: (int, int), ms: Seq<(int, int)>, m: (int, int))
    requires
        ends_at_members(rs.push(cur), ms),
        covers(c2, cur),
        covers(c2, m),
        c2.1 == cur.1 || c2.1 == m.1,
    ensures
        ends_at_members(rs.push(c2), ms.push(m)),
{
    reveal(ends_at_members);
    let r1 = rs.push(cur);
    let r2 = rs.push(c2);
    let m2 = ms.push(m);
    let last = rs.len() as int;
    assert forall|k: int| 0 <= k < r2.len() implies #[trigger] end_witnessed(m2, r2[k]) by {
        assert(end_witnessed(ms, r1[k]));
        witness_kept(ms, m, r1[k], 0);
        if k < last {
            assert(r2[k] == r1[k]);
        } else if c2.1 == cur.1 {
            assert(r2[k] == c2 && r1[k] == cur);
            witness_widened(m2, cur, c2, 0);
        } else {
            assert(r2[k] == c2);
            let j = ms.len() as int;
            assert(m2[j] == m);
            assert(m2[j].1 == c2.1 && covers(c2, m2[j]));
        }
    }
}

/// Widening the last range over `m`, which starts inside it, leaves no gap.
proof fn extend_gaps(rs: Seq<(int, int)>, cur: (int, int), c2: (int, int), ms: Seq<(int, int)>, m: (int, int))
    requires
        without_gaps(rs.push(cur), ms),
        covers(c2, cur),
        covers(c2, m),
        c2.0 == cur.0,
        m.0 <= cur.1,
        c2.1 == cur.1 || c2.1 == m.1,
    ensures
        without_gaps(rs.push(c2), ms.push(m)),
{
    reveal(without_gaps);
    let r1 = rs.push(cur);
    let r2 = rs.push(c2);
    let m2 = ms.push(m);
    let last = rs.len() as int;
    assert forall|k: int, x: int| 0 <= k < r2.len() && in_range(r2[k], x) implies #[trigger] position_witnessed(m2, r2[k], x) by {
        if k < last {
            assert(r2[k] == r1[k]);
            assert(position_witnessed(ms, r1[k], x));
            witness_kept(ms, m, r1[k], x);
        } else if x < cur.1 {
            assert(r2[k] == c2 && r1[k] == cur);
            assert(in_range(r1[k], x));
            assert(position_witnessed(ms, r1[k], x));
            witness_kept(ms, m, cur, x);
            witness_widened(m2, cur, c2, x);
        } else {
            assert(r2[k] == c2);
            let j = ms.len() as int;
            assert(m2[j] == m);
            assert(covers(c2, m2[j]) && in_range(m2[j], x));
        }
    }
}

/// A next range `m` that starts after the last merged range `cur` ends
/// becomes a merged range of its own.
proof fn lemma_merge_new(rs: Seq<(int, int)>, cur: (int, int), ms: Seq<(int, int)>, m: (int, int))
    requires
        is_merge_of(rs.push(cur), ms),
        cur.1 < m.0,
        m.0 <= m.1,
    ensures
        is_merge_of(rs.push(cur).push(m), ms.push(m)),
{
    let r1 = rs.push(cur);
    let r2 = r1.push(m);
    let last = r1.len() as int;
    assert(r2[last] == m);
    assert forall|k: int| 0 <= k < r2.len() implies (#[trigger] r2[k]).0 <= r2[k].1 by {
        if k < last {
            assert(r2[k] == r1[k]);
        }
    }
    new_apart(rs, cur, m);
    new_covered(r1, ms, m);
    new_witnessed(r1, ms, m);
}

/// A range that starts after the end of the last one keeps the ranges apart.
proof fn new_apart(rs: Seq<(int, int)>, cur: (int, int), m: (int, int))
    requires
        strictly_apart(rs.push(cur)),
        cur.1 < m.0,
    ensures
        strictly_apart(rs.push(cur).push(m)),
{
    reveal(strictly_apart);
    let r1 = rs.push(cur);
    let r2 = r1.push(m);
    let last = r1.len() as int;
    assert forall|k: int| 0 <= k < r2.len() - 1 implies (#[trigger] r2[k]).1 < r2[k + 1].0 by {
        assert(r2[k] == r1[k]);
        if k + 1 < last {
            assert(r2[k + 1] == r1[k + 1]);
        } else {
            assert(r1[k] == cur);
            assert(r2[k + 1] == m);
        }
    }
}

/// Adding `m` as a range of its own keeps every range covered.
proof fn new_covered(r1: Seq<(int, int)>, ms: Seq<(int, int)>, m: (int, int))
    requires
        all_covered(r1, ms),
        m.0 <= m.1,
    ensures
        all_covered(r1.push(m), ms.push(m)),
{
    reveal(all_covered);
    let r2 = r1.push(m);
    let m2 = ms.push(m);
    let last = r1.len() as int;
    assert(r2[last] == m);
    assert forall|j: int| 0 <= j < m2.len() implies #[trigger] covered_by_some(r2, m2[j]) by {
        if j < ms.len() {
            assert(m2[j] == ms[j]);
            assert(covered_by_some(r1, ms[j]));
            let k = choose|k: int| 0 <= k < r1.len() && covers(#[trigger] r1[k], ms[j]);
            assert(r2[k] == r1[k]);
        } else {
            assert(m2[j] == m);
            assert(covers(r2[last], m2[j]));
        }
    }
}

/// Adding `m` as a range of its own keeps every start, end and position
/// witnessed, and witnesses `m` itself.
proof fn new_witnessed(r1: Seq<(int, int)>, ms: Seq<(int, int)>, m: (int, int))
    requires
        starts_at_members(r1, ms),
        ends_at_members(r1, ms),
        without_gaps(r1, ms),
        m.0 <= m.1,
    ensures
        starts_at_members(r1.push(m), ms.push(m)),
        ends_at_members(r1.push(m), ms.push(m)),
        without_gaps(r1.push(m), ms.push(m)),
{
    reveal(starts_at_members);
    reveal(ends_at_members);
    reveal(without_gaps);
    let r2 = r1.push(m);
    let m2 = ms.push(m);
    let last = r1.len() as int;
    let j = ms.len() as int;
    assert(r2[last] == m && m2[j] == m);
    assert(covers(m, m));
    assert forall|k: int| 0 <= k < r2.len() implies #[trigger] start_witnessed(m2, r2[k]) by {
        if k < last {
            assert(r2[k] == r1[k]);
            assert(start_witnessed(ms, r1[k]));
            witness_kept(ms, m, r1[k], 0);
        } else {
            assert(m2[j].0 == r2[k].0 && covers(r2[k], m2[j]));
        }
    }
    assert forall|k: int| 0 <= k < r2.len() implies #[trigger] end_witnessed(m2, r2[k]) by {
        if k < last {
            assert(r2[k] == r1[k]);
            assert(end_witnessed(ms, r1[k]));
            witness_kept(ms, m, r1[k], 0);
        } else {
            assert(m2[j].1 == r2[k].1 && covers(r2[k], m2[j]));
        }
    }
    assert forall|k: int, x: int| 0 <= k < r2.len() && in_range(r2[k], x) implies #[trigger] position_witnessed(m2, r2[k], x) by {
        if k < last {
            assert(r2[k] == r1[k]);
            assert(position_witnessed(ms, r1[k], x));
            witness_kept(ms, m, r1[k], x);
        } else {
            assert(covers(r2[k], m2[j]) && in_range(m2[j], x));
        }
    }
}

/// The last merged range starts where some range of `ms` starts, so no later
/// than a range that comes after all of `ms` in start order.
proof fn lemma_last_start(rs: Seq<(int, int)>, cur: (int, int), ms: Seq<(int, int)>, all: Seq<(int, int)>, i: int)
    requires
        starts_at_members(rs.push(cur), ms),
        ms == all.take(i),
        0 <= i < all.len(),
        sorted_by_start(all),
    ensures
        cur.0 <= all[i].0,
{
    reveal(starts_at_members);
    let r1 = rs.push(cur);
    let last = rs.len() as int;
    assert(r1[last] == cur);
    assert(start_witnessed(ms, r1[last]));
    let j = choose|j: int| 0 <= j < ms.len() && (#[trigger] ms[j]).0 == cur.0 && covers(cur, ms[j]);
    assert(ms[j] == all[j]);
}

/// No ranges merge into no ranges.
proof fn lemma_merge_empty()
    ensures
        is_merge_of(Seq::<(int, int)>::empty(), Seq::<(int, int)>::empty()),
{
    reveal(strictly_apart);
    reveal(all_covered);
    reveal(starts_at_members);
    reveal(ends_at_members);
    reveal(without_gaps);
}

/// A single range is its own merge.
proof fn lemma_merge_single(c: (int, int))
    requires
        c.0 <= c.1,
    ensures
        is_merge_of(seq![c], seq![c]),
{
    let s = seq![c];
    assert(s[0] == c);
    assert(covers(s[0], s[0]));
    assert(covered_by_some(s, s[0]));
    assert(start_witnessed(s, s[0]));
    assert(end_witnessed(s, s[0]));
    assert forall|x: int| in_range(s[0], x) implies #[trigger] position_witnessed(s, s[0], x) by {}
    reveal(strictly_apart);
    reveal(all_covered);
    reveal(starts_at_members);
    reveal(ends_at_members);
    reveal(without_gaps);
}

/// Merges ranges ordered by their start: ranges that overlap or touch are
/// joined into one.
pub fn merge_sorted(s: &Vec<(usize, usize)>) -> (r: Vec<(usize, usize)>)
    requires
        sorted_by_start(as_int_ranges(s@)),
        well_formed_ranges(as_int_ranges(s@)),
    ensures
        is_merge_of(as_int_ranges(r@), as_int_ranges(s@)),
{
    let mut merged: Vec<(usize, usize)> = Vec::new();
    let n = s.len();
    let ghost ms = as_int_ranges(s@);
    if n == 0 {
        assert(as_int_ranges(merged@) =~= Seq::<(int, int)>::empty());
        assert(ms =~= Seq::<(int, int)>::empty());
        proof {
            lemma_merge_empty();
        }
        return merged;
    }
    let mut cur = s[0];
    proof {
        let c0 = (cur.0 as int, cur.1 as int);
        assert(as_int_ranges(merged@).push(c0) =~= seq![c0]);
        assert(ms[0] == c0);
        assert(ms.take(1) =~= seq![c0]);
        lemma_merge_single(c0);
    }
    let mut i: usize = 1;
    while i < n
        invariant
            n == s@.len(),
            1 <= i <= n,
            ms == as_int_ranges(s@),
            sorted_by_start(ms),
            well_formed_ranges(ms),
            is_merge_of(as_int_ranges(merged@).push((cur.0 as int, cur.1 as int)), ms.take(i as int)),
        decreases n - i,
    {
        let next = s[i];
        let ghost rs = as_int_ranges(merged@);
        let ghost ci = (cur.0 as int, cur.1 as int);
        let ghost mi = (next.0 as int, next.1 as int);
        assert(ms[i as int] == mi);
        assert(ms.take(i + 1) =~= ms.take(i as int).push(mi));
        if next.0 <= cur.1 {
            proof {
                lemma_last_start(rs, ci, ms.take(i as int), ms, i as int);
                lemma_merge_extend(rs, ci, ms.take(i as int), mi);
            }
            if next.1 > cur.1 {
                cur = (cur.0, next.1);
            }
            assert(as_int_ranges(merged@).push((cur.0 as int, cur.1 as int))
                == rs.push((ci.0, if mi.1 > ci.1 { mi.1 } else { ci.1 })));
            assert(is_merge_of(as_int_ranges(merged@).push((cur.0 as int, cur.1 as int)), ms.take(i + 1)));
        } else {
            proof {
                lemma_merge_new(rs, ci, ms.take(i as int), mi);
            }
            merged.push(cur);
            assert(as_int_ranges(merged@) =~= rs.push(ci));
            cur = next;
            assert(as_int_ranges(merged@).push((cur.0 as int, cur.1 as int)) =~= rs.push(ci).push(mi));
            assert(is_merge_of(as_int_ranges(merged@).push((cur.0 as int, cur.1 as int)), ms.take(i + 1)));
        }
        i = i + 1;
    }
    let ghost before = as_int_ranges(merged@).push((cur.0 as int, cur.1 as int));
    merged.push(cur);
    assert(as_int_ranges(merged@) =~= before);
    assert(ms.take(n as int) =~= ms);
    merged
}

/// Witnesses carry over between sequences with the same members.
proof fn witness_transfer(a: Seq<(int, int)>, b: Seq<(int, int)>, r: (int, int), x: int)
    requires
        forall|p: (int, int)| a.contains(p) <==> b.contains(p),
    ensures
        start_witnessed(a, r) ==> start_witnessed(b, r),
        end_witnessed(a, r) ==> end_witnessed(b, r),
        position_witnessed(a, r, x) ==> position_witnessed(b, r, x),
{
    if start_witnessed(a, r) {
        let j = choose|j: int| 0 <= j < a.len() && (#[trigger] a[j]).0 == r.0 && covers(r, a[j]);
        assert(a.contains(a[j]));
        assert(b.contains(a[j]));
        let jb = choose|jb: int| 0 <= jb < b.len() && b[jb] == a[j];
        assert(b[jb].0 == r.0 && covers(r, b[jb]));
    }
    if end_witnessed(a, r) {
        let j = choose|j: int| 0 <= j < a.len() && (#[trigger] a[j]).1 == r.1 && covers(r, a[j]);
        assert(a.contains(a[j]));
        assert(b.contains(a[j]));
        let jb = choose|jb: int| 0 <= jb < b.len() && b[jb] == a[j];
        assert(b[jb].1 == r.1 && covers(r, b[jb]));
    }
    if position_witnessed(a, r, x) {
        let j = choose|j: int| 0 <= j < a.len() && covers(r, #[trigger] a[j]) && in_range(a[j], x);
        assert(a.contains(a[j]));
        assert(b.contains(a[j]));
        let jb = choose|jb: int| 0 <= jb < b.len() && b[jb] == a[j];
        assert(covers(r, b[jb]) && in_range(b[jb], x));
    }
}

/// The merge depends only on which ranges there are, not on their order or
/// repetition.
pub proof fn lemma_merge_same_members(rs: Seq<(int, int)>, a: Seq<(int, int)>, b: Seq<(int, int)>)
    requires
        is_merge_of(rs, a),
        forall|p: (int, int)| a.contains(p) <==> b.contains(p),
    ensures
        is_merge_of(rs, b),
{
    reveal(all_covered);
    reveal(starts_at_members);
    reveal(ends_at_members);
    reveal(without_gaps);
    assert forall|j: int| 0 <= j < b.len() implies #[trigger] covered_by_some(rs, b[j]) by {
        assert(b.contains(b[j]));
        assert(a.contains(b[j]));
        let ja = choose|ja: int| 0 <= ja < a.len() && a[ja] == b[j];
        assert(covered_by_some(rs, a[ja]));
    }
    assert forall|k: int| 0 <= k < rs.len() implies #[trigger] start_witnessed(b, rs[k]) by {
        assert(start_witnessed(a, rs[k]));
        witness_transfer(a, b, rs[k], 0);
    }
    assert forall|k: int| 0 <= k < rs.len() implies #[trigger] end_witnessed(b, rs[k]) by {
        assert(end_witnessed(a, rs[k]));
        witness_transfer(a, b, rs[k], 0);
    }
    assert forall|k: int, x: int| 0 <= k < rs.len() && in_range(rs[k], x) implies #[trigger] position_witnessed(b, rs[k], x) by {
        assert(position_witnessed(a, rs[k], x));
        witness_transfer(a, b, rs[k], x);
    }
}

/// In a merge, every range ends before any later range starts.
proof fn lemma_merge_ordered(r: Seq<(int, int)>, i: int, j: int)
    requires
        well_formed_ranges(r),
        strictly_apart(r),
        0 <= i < j < r.len(),
    ensures
        r[i].1 < r[j].0,
    decreases j - i,
{
    reveal(strictly_apart);
    assert(r[j - 1].1 < r[j].0);
    if i < j - 1 {
        lemma_merge_ordered(r, i, j - 1);
        assert(r[j - 1].0 <= r[j - 1].1);
    }
}

/// A well-formed range lies in at most one range of a merge.
proof fn lemma_cover_unique(r: Seq<(int, int)>, m: (int, int), i: int, j: int)
    requires
        well_formed_ranges(r),
        strictly_apart(r),
        0 <= i < r.len(),
        0 <= j < r.len(),
        covers(r[i], m),
        covers(r[j], m),
        m.0 <= m.1,
    ensures
        i == j,
{
    if i < j {
        lemma_merge_ordered(r, i, j);
    } else if j < i {
        lemma_merge_ordered(r, j, i);
    }
}

/// The range of `r` that covers `m`, with the fact that it does.
proof fn lemma_covering_index(r: Seq<(int, int)>, ms: Seq<(int, int)>, jm: int) -> (k: int)
    requires
        all_covered(r, ms),
        0 <= jm < ms.len(),
    ensures
        0 <= k < r.len(),
        covers(r[k], ms[jm]),
{
    reveal(all_covered);
    assert(covered_by_some(r, ms[jm]));
    choose|k: int| 0 <= k < r.len() && covers(#[trigger] r[k], ms[jm])
}

/// Two merges that agree before `k` agree at `k` (and one has a `k`-th range
/// exactly when the other has).
proof fn lemma_merge_unique_at(r1: Seq<(int, int)>, r2: Seq<(int, int)>, ms: Seq<(int, int)>, k: int)
    requires
        is_merge_of(r1, ms),
        is_merge_of(r2, ms),
        well_formed_ranges(ms),
        0 <= k,
        forall|i: int| 0 <= i < k && i < r1.len() && i < r2.len() ==> r1[i] == r2[i],
        k <= r1.len(),
        k <= r2.len(),
    ensures
        k < r1.len() <==> k < r2.len(),
        k < r1.len() ==> r1[k] == r2[k],
{
    reveal(starts_at_members);
    reveal(without_gaps);
    if k < r1.len() {
        lemma_unique_start(r1, r2, ms, k);
    }
    if k < r2.len() {
        lemma_unique_start(r2, r1, ms, k);
    }
    if k < r1.len() && k < r2.len() {
        lemma_unique_end(r1, r2, ms, k);
        lemma_unique_end(r2, r1, ms, k);
    }
}

/// The `k`-th range of `r1` starts no earlier than that of `r2`, and `r2`
/// has a `k`-th range, given agreement before `k`.
proof fn lemma_unique_start(r1: Seq<(int, int)>, r2: Seq<(int, int)>, ms: Seq<(int, int)>, k: int)
    requires
        is_merge_of(r1, ms),
        is_merge_of(r2, ms),
        well_formed_ranges(ms),
        0 <= k < r1.len(),
        forall|i: int| 0 <= i < k && i < r1.len() && i < r2.len() ==> r1[i] == r2[i],
        k <= r2.len(),
    ensures
        k < r2.len(),
        r2[k].0 <= r1[k].0,
{
    reveal(starts_at_members);
    assert(start_witnessed(ms, r1[k]));
    let jm = choose|j: int| 0 <= j < ms.len() && (#[trigger] ms[j]).0 == r1[k].0 && covers(r1[k], ms[j]);
    assert(ms[jm].0 <= ms[jm].1);
    let k2 = lemma_covering_index(r2, ms, jm);
    if k2 < k {
        assert(r1[k2] == r2[k2]);
        lemma_cover_unique(r1, ms[jm], k2, k);
    }
    if k < k2 {
        lemma_merge_ordered(r2, k, k2);
        assert(r2[k].0 <= r2[k].1);
    }
}

/// The `k`-th range of `r1` ends no earlier than that of `r2`, given that
/// they agree before `k` and start together.
proof fn lemma_unique_end(r1: Seq<(int, int)>, r2: Seq<(int, int)>, ms: Seq<(int, int)>, k: int)
    requires
        is_merge_of(r1, ms),
        is_merge_of(r2, ms),
        well_formed_ranges(ms),
        0 <= k < r1.len(),
        k < r2.len(),
        forall|i: int| 0 <= i < k && i < r1.len() && i < r2.len() ==> r1[i] == r2[i],
        r1[k].0 == r2[k].0,
    ensures
        r2[k].1 <= r1[k].1,
{
    reveal(without_gaps);
    if r1[k].1 < r2[k].1 {
        let x = r1[k].1;
        assert(r1[k].0 <= r1[k].1);
        assert(in_range(r2[k], x));
        assert(position_witnessed(ms, r2[k], x));
        let jm = choose|j: int| 0 <= j < ms.len() && covers(r2[k], #[trigger] ms[j]) && in_range(ms[j], x);
        let k1 = lemma_covering_index(r1, ms, jm);
        if k1 < k {
            assert(r1[k1] == r2[k1]);
            lemma_cover_unique(r2, ms[jm], k1, k);
        } else if k1 > k {
            lemma_merge_ordered(r1, k, k1);
        }
    }
}

/// Two merges of the same ranges agree on their first `k` ranges (as far
/// as both have them).
proof fn lemma_merge_agree_upto(r1: Seq<(int, int)>, r2: Seq<(int, int)>, ms: Seq<(int, int)>, k: int)
    requires
        is_merge_of(r1, ms),
        is_merge_of(r2, ms),
        well_formed_ranges(ms),
        0 <= k,
    ensures
        forall|i: int| 0 <= i < k && i < r1.len() && i < r2.len() ==> r1[i] == r2[i],
    decreases k,
{
    if k > 0 {
        lemma_merge_agree_upto(r1, r2, ms, k - 1);
        if k - 1 < r1.len() && k - 1 < r2.len() {
            lemma_merge_unique_at(r1, r2, ms, k - 1);
        }
    }
}

/// A merge is determined by the ranges it merges: two merges of the same
/// well-formed ranges are equal.
pub proof fn lemma_merge_unique(r1: Seq<(int, int)>, r2: Seq<(int, int)>, ms: Seq<(int, int)>)
    requires
        is_merge_of(r1, ms),
        is_merge_of(r2, ms),
        well_formed_ranges(ms),
    ensures
        r1 == r2,
{
    let k = if r1.len() < r2.len() { r1.len() as int } else { r2.len() as int };
    lemma_merge_agree_upto(r1, r2, ms, k);
    lemma_merge_unique_at(r1, r2, ms, k);
    assert(r1 =~= r2);
}

} // verus!
