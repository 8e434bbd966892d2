//! 2D convex hull of a point set by the monotone-chain algorithm.
//!
//! The input points are sorted lexicographically, exact duplicates are
//! removed, and a lower and an upper chain of strict left turns are built;
//! their concatenation (dropping each chain's final point) is the hull in
//! counter-clockwise order. Fewer than three distinct points are returned
//! as they are: a degenerate hull that draws nothing.

use vstd::prelude::*;
use crate::geom::{Point2, bounded, cross, lex_lt, lex_le, cross_sign, lex_lt_exec};

verus! {

/// Every pair of positions is strictly increasing: sorted and duplicate-free.
pub open spec fn strictly_sorted(s: Seq<Point2>) -> bool {
    forall|i: int, j: int| 0 <= i < j < s.len() ==> lex_lt(s[i], s[j])
}

/// Every pair of positions is non-decreasing.
pub open spec fn sorted_le(s: Seq<Point2>) -> bool {
    forall|i: int, j: int| 0 <= i < j < s.len() ==> lex_le(s[i], s[j])
}

/// The two sequences hold the same set of points.
pub open spec fn same_points(a: Seq<Point2>, b: Seq<Point2>) -> bool {
    forall|q: Point2| a.contains(q) <==> b.contains(q)
}

/// All points of the sequence are within the coordinate bound.
pub open spec fn all_bounded(s: Seq<Point2>) -> bool {
    forall|i: int| 0 <= i < s.len() ==> bounded(#[trigger] s[i])
}

/// Inserts a point into a sorted duplicate-free sequence, keeping it so.
pub open spec fn insert_unique(s: Seq<Point2>, p: Point2) -> Seq<Point2>
    decreases s.len(),
{
    if s.len() == 0 {
        seq![p]
    } else if p == s[0] {
        s
    } else if lex_lt(p, s[0]) {
        seq![p] + s
    } else {
        seq![s[0]] + insert_unique(s.drop_first(), p)
    }
}

/// The canonical form of a point sequence: its set of points, sorted
/// lexicographically with duplicates removed.
pub open spec fn canon(s: Seq<Point2>) -> Seq<Point2>
    decreases s.len(),
{
    if s.len() == 0 {
        Seq::empty()
    } else {
        insert_unique(canon(s.drop_last()), s.last())
    }
}

proof fn lemma_insert_unique_props(s: Seq<Point2>, p: Point2)
    requires
        strictly_sorted(s),
    ensures
        strictly_sorted(insert_unique(s, p)),
        forall|q: Point2| #[trigger] insert_unique(s, p).contains(q) <==> s.contains(q) || q == p,
        insert_unique(s, p).len() >= s.len(),
    decreases s.len(),
{
    broadcast use vstd::seq_lib::group_seq_properties;

    if s.len() == 0 {
    } else if p == s[0] {
        assert(s.contains(p)) by {
            assert(s[0] == p);
        }
    } else if lex_lt(p, s[0]) {
        let r = seq![p] + s;
        assert forall|i: int, j: int| 0 <= i < j < r.len() implies lex_lt(r[i], r[j]) by {
            if i == 0 {
                assert(r[j] == s[j - 1]);
                if j > 1 {
                    assert(lex_lt(s[0], s[j - 1]));
                }
            } else {
                assert(r[i] == s[i - 1] && r[j] == s[j - 1]);
            }
        }
    } else {
        let t = s.drop_first();
        assert(strictly_sorted(t)) by {
            assert(forall|i: int| 0 <= i < t.len() ==> t[i] == s[i + 1]);
        }
        lemma_insert_unique_props(t, p);
        let u = insert_unique(t, p);
        let r = seq![s[0]] + u;
        assert(insert_unique(s, p) == r);
        // s[0] is lexicographically below everything in u
        assert forall|k: int| 0 <= k < u.len() implies lex_lt(s[0], u[k]) by {
            assert(u.contains(u[k]));
            if u[k] == p {
                // !lex_lt(p, s[0]) and p != s[0], so lex_lt(s[0], p)
            } else {
                assert(t.contains(u[k]));
                let m = choose|m: int| 0 <= m < t.len() && t[m] == u[k];
                assert(s[m + 1] == t[m]);
            }
        }
        assert forall|i: int, j: int| 0 <= i < j < r.len() implies lex_lt(r[i], r[j]) by {
            if i == 0 {
                assert(r[j] == u[j - 1]);
            } else {
                assert(r[i] == u[i - 1] && r[j] == u[j - 1]);
            }
        }
        assert forall|q: Point2| s.contains(q) || q == p implies r.contains(q) by {
            if q == p || t.contains(q) {
                assert(u.contains(q));
                let m = choose|m: int| 0 <= m < u.len() && u[m] == q;
                assert(r[m + 1] == q);
            } else {
                let m = choose|m: int| 0 <= m < s.len() && s[m] == q;
                if m == 0 {
                    assert(r[0] == q);
                } else {
                    assert(t[m - 1] == q);
                    assert(t.contains(q));
                }
            }
        }
        assert forall|q: Point2| r.contains(q) implies s.contains(q) || q == p by {
            let m = choose|m: int| 0 <= m < r.len() && r[m] == q;
            if m == 0 {
                assert(s[0] == q);
            } else {
                assert(u[m - 1] == q);
                assert(u.contains(q));
                if t.contains(q) {
                    let n = choose|n: int| 0 <= n < t.len() && t[n] == q;
                    assert(s[n + 1] == q);
                }
            }
        }
    }
}

proof fn lemma_canon_props(s: Seq<Point2>)
    ensures
        strictly_sorted(canon(s)),
        forall|q: Point2| #[trigger] canon(s).contains(q) <==> s.contains(q),
    decreases s.len(),
{
    broadcast use vstd::seq_lib::group_seq_properties;

    if s.len() == 0 {
    } else {
        let t = s.drop_last();
        lemma_canon_props(t);
        lemma_insert_unique_props(canon(t), s.last());
        assert(canon(s) == insert_unique(canon(t), s.last()));
        assert forall|q: Point2| s.contains(q) implies canon(s).contains(q) by {
            let m = choose|m: int| 0 <= m < s.len() && s[m] == q;
            if m < s.len() - 1 {
                assert(t[m] == q);
                assert(t.contains(q));
                assert(canon(t).contains(q));
            } else {
                assert(q == s.last());
            }
            assert(insert_unique(canon(t), s.last()).contains(q));
        }
        assert forall|q: Point2| canon(s).contains(q) implies s.contains(q) by {
            if t.contains(q) {
                let m = choose|m: int| 0 <= m < t.len() && t[m] == q;
                assert(s[m] == q);
            } else {
                assert(q == s.last());
            }
        }
    }
}

/// Two sorted duplicate-free sequences over the same point set are equal:
/// the canonical form is determined by the set alone.
proof fn lemma_strictly_sorted_unique(a: Seq<Point2>, b: Seq<Point2>)
    requires
        strictly_sorted(a),
        strictly_sorted(b),
        same_points(a, b),
    ensures
        a == b,
    decreases a.len(),
{
    broadcast use vstd::seq_lib::group_seq_properties;

    if a.len() == 0 {
        if b.len() > 0 {
            assert(b.contains(b[0]));
            assert(a.contains(b[0]));
        }
        assert(a =~= b);
    } else {
        assert(a.contains(a[0]));
        assert(b.contains(a[0]));
        assert(a.contains(b[0]));
        let i = choose|i: int| 0 <= i < b.len() && b[i] == a[0];
        let j = choose|j: int| 0 <= j < a.len() && a[j] == b[0];
        // both heads are the minimum of the shared set, so they coincide
        assert(a[0] == b[0]) by {
            if i > 0 {
                assert(lex_lt(b[0], a[0]));
                if j > 0 {
                    assert(lex_lt(a[0], b[0]));
                }
            }
        }
        let at = a.drop_first();
        let bt = b.drop_first();
        assert(strictly_sorted(at) && strictly_sorted(bt)) by {
            assert(forall|k: int| 0 <= k < at.len() ==> at[k] == a[k + 1]);
            assert(forall|k: int| 0 <= k < bt.len() ==> bt[k] == b[k + 1]);
        }
        assert forall|q: Point2| at.contains(q) implies bt.contains(q) by {
            let m = choose|m: int| 0 <= m < at.len() && at[m] == q;
            assert(a[m + 1] == q);
            assert(a.contains(q));
            assert(lex_lt(a[0], q));
            let n = choose|n: int| 0 <= n < b.len() && b[n] == q;
            assert(n > 0) by {
                if n == 0 {
                    assert(q == a[0]);
                }
            }
            assert(bt[n - 1] == q);
        }
        assert forall|q: Point2| bt.contains(q) implies at.contains(q) by {
            let m = choose|m: int| 0 <= m < bt.len() && bt[m] == q;
            assert(b[m + 1] == q);
            assert(b.contains(q));
            assert(lex_lt(b[0], q));
            let n = choose|n: int| 0 <= n < a.len() && a[n] == q;
            assert(n > 0) by {
                if n == 0 {
                    assert(q == b[0]);
                }
            }
            assert(at[n - 1] == q);
        }
        lemma_strictly_sorted_unique(at, bt);
        assert(a =~= b) by {
            assert(forall|k: int| 1 <= k < a.len() ==> a[k] == at[k - 1]);
            assert(forall|k: int| 1 <= k < b.len() ==> b[k] == bt[k - 1]);
        }
    }
}

/// Sorts the points lexicographically by (x, then z), by insertion.
#[verifier::rlimit(60)]
pub fn sort_points(v: &Vec<Point2>) -> (r: Vec<Point2>)
    ensures
        sorted_le(r@),
        same_points(r@, v@),
        r@.len() == v@.len(),
{
    broadcast use vstd::seq_lib::group_seq_properties;

    let mut r: Vec<Point2> = Vec::new();
    let mut i: usize = 0;
    while i < v.len()
        invariant
            i <= v.len(),
            r@.len() == i,
            sorted_le(r@),
            same_points(r@, v@.take(i as int)),
        decreases v.len() - i,
    {
        let p = v[i];
        let mut j: usize = 0;
        while j < r.len() && lex_lt_exec(&r[j], &p)
            invariant
                j <= r@.len(),
                forall|k: int| 0 <= k < j ==> lex_lt(r@[k], p),
            decreases r.len() - j,
        {
            j = j + 1;
        }
        let ghost old_r = r@;
        r.insert(j, p);
        proof {
            old_r.insert_ensures(j as int, p);
            assert forall|m: int, n: int| 0 <= m < n < r@.len() implies lex_le(r@[m], r@[n]) by {
                if n < j {
                    assert(r@[m] == old_r[m] && r@[n] == old_r[n]);
                } else if m > j {
                    assert(r@[m] == old_r[m - 1] && r@[n] == old_r[n - 1]);
                } else if m < j && n == j as int {
                    assert(r@[m] == old_r[m] && r@[n] == p);
                    assert(lex_lt(old_r[m], p));
                } else if m == j as int {
                    // the insertion scan stopped at j, so p sorts at or below old_r[j]
                    assert(n > j);
                    assert(r@[m] == p && r@[n] == old_r[n - 1]);
                    assert(j < old_r.len());
                    assert(!lex_lt(old_r[j as int], p));
                    assert(lex_le(p, old_r[j as int]));
                    if n - 1 > j {
                        assert(lex_le(old_r[j as int], old_r[n - 1]));
                    }
                } else {
                    assert(m < j && n > j);
                    assert(r@[m] == old_r[m] && r@[n] == old_r[n - 1]);
                    assert(lex_lt(old_r[m], p));
                    assert(j < old_r.len() ==> !lex_lt(old_r[j as int], p));
                    if m < n - 1 {
                        assert(lex_le(old_r[m], old_r[n - 1]));
                    }
                }
            }
            assert(same_points(r@, v@.take(i as int + 1))) by {
                assert forall|q: Point2| r@.contains(q) implies v@.take(i as int + 1).contains(q) by {
                    let m = choose|m: int| 0 <= m < r@.len() && r@[m] == q;
                    if m < j {
                        assert(old_r[m] == q);
                    } else if m > j {
                        assert(old_r[m - 1] == q);
                    } else {
                        assert(v@.take(i as int + 1)[i as int] == p);
                    }
                    if q != p || m != j {
                        assert(old_r.contains(q));
                        assert(v@.take(i as int).contains(q));
                        let n = choose|n: int| 0 <= n < i && v@.take(i as int)[n] == q;
                        assert(v@.take(i as int + 1)[n] == q);
                    }
                }
                assert forall|q: Point2| v@.take(i as int + 1).contains(q) implies r@.contains(q) by {
                    let n = choose|n: int| 0 <= n < i + 1 && (#[trigger] v@.take(i as int + 1)[n]) == q;
                    if n < i {
                        assert(v@.take(i as int)[n] == q);
                        assert(old_r.contains(q));
                        let m = choose|m: int| 0 <= m < old_r.len() && old_r[m] == q;
                        if m < j {
                            assert(r@[m] == q);
                        } else {
                            assert(r@[m + 1] == q);
                        }
                    } else {
                        assert(q == p);
                        assert(r@[j as int] == p);
                    }
                }
            }
        }
        i = i + 1;
    }
    proof {
        assert(v@.take(v@.len() as int) =~= v@);
    }
    r
}

/// Removes exact duplicates from a sorted sequence of points.
pub fn dedup_sorted(v: &Vec<Point2>) -> (r: Vec<Point2>)
    requires
        sorted_le(v@),
    ensures
        strictly_sorted(r@),
        same_points(r@, v@),
        r@.len() <= v@.len(),
{
    broadcast use vstd::seq_lib::group_seq_properties;

    let mut r: Vec<Point2> = Vec::new();
    let mut i: usize = 0;
    while i < v.len()
        invariant
            i <= v.len(),
            r@.len() <= i,
            strictly_sorted(r@),
            same_points(r@, v@.take(i as int)),
            sorted_le(v@),
            i > 0 ==> r@.len() > 0 && r@.last() == v@[i as int - 1],
        decreases v.len() - i,
    {
        let p = v[i];
        let keep: bool = if r.len() == 0 {
            true
        } else {
            let last = r[r.len() - 1];
            !(last == p)
        };
        if keep {
            let ghost old_r = r@;
            proof {
                if old_r.len() > 0 {
                    // everything in r is at most v[i - 1], which is below p
                    assert forall|k: int| 0 <= k < old_r.len() implies lex_lt(old_r[k], p) by {
                        assert(lex_le(v@[i as int - 1], v@[i as int]));
                        if k < old_r.len() - 1 {
                            assert(lex_lt(old_r[k], old_r[old_r.len() - 1]));
                        }
                    }
                }
            }
            r.push(p);
            proof {
                assert forall|q: Point2| r@.contains(q) implies v@.take(i as int + 1).contains(q) by {
                    if old_r.contains(q) {
                        assert(v@.take(i as int).contains(q));
                        let n = choose|n: int| 0 <= n < i && v@.take(i as int)[n] == q;
                        assert(v@.take(i as int + 1)[n] == q);
                    } else {
                        assert(q == p);
                        assert(v@.take(i as int + 1)[i as int] == p);
                    }
                }
                assert forall|q: Point2| v@.take(i as int + 1).contains(q) implies r@.contains(q) by {
                    let n = choose|n: int| 0 <= n < i + 1 && (#[trigger] v@.take(i as int + 1)[n]) == q;
                    if n < i {
                        assert(v@.take(i as int)[n] == q);
                        assert(v@.take(i as int).contains(q));
                        assert(old_r.contains(q));
                        let m = choose|m: int| 0 <= m < old_r.len() && old_r[m] == q;
                        assert(r@[m] == q);
                    } else {
                        assert(q == p);
                        assert(r@.last() == p);
                    }
                }
            }
        } else {
            proof {
                assert(r@.last() == p);
                assert(r@.contains(p));
                assert forall|q: Point2| v@.take(i as int + 1).contains(q) implies r@.contains(q) by {
                    let n = choose|n: int| 0 <= n < i + 1 && (#[trigger] v@.take(i as int + 1)[n]) == q;
                    if n < i {
                        assert(v@.take(i as int)[n] == q);
                    }
                }
                assert forall|q: Point2| r@.contains(q) implies v@.take(i as int + 1).contains(q) by {
                    assert(v@.take(i as int).contains(q));
                    let n = choose|n: int| 0 <= n < i && v@.take(i as int)[n] == q;
                    assert(v@.take(i as int + 1)[n] == q);
                }
            }
        }
        i = i + 1;
    }
    proof {
        assert(v@.take(v@.len() as int) =~= v@);
    }
    r
}

/// Sorting and removing duplicates yields exactly the canonical sequence of
/// the input's point set.
pub fn canonical_points(v: &Vec<Point2>) -> (r: Vec<Point2>)
    ensures
        r@ == canon(v@),
        strictly_sorted(r@),
        same_points(r@, v@),
{
    let s = sort_points(v);
    let r = dedup_sorted(&s);
    proof {
        lemma_canon_props(v@);
        assert forall|q: Point2| r@.contains(q) <==> canon(v@).contains(q) by {
            assert(r@.contains(q) <==> v@.contains(q));
            assert(canon(v@).contains(q) <==> v@.contains(q));
        }
        lemma_strictly_sorted_unique(r@, canon(v@));
    }
    r
}

/// Sequences with the same point set have the same canonical form.
pub proof fn lemma_canon_same_points(a: Seq<Point2>, b: Seq<Point2>)
    requires
        same_points(a, b),
    ensures
        canon(a) == canon(b),
{
    lemma_canon_props(a);
    lemma_canon_props(b);
    assert forall|q: Point2| canon(a).contains(q) <==> canon(b).contains(q) by {
        assert(canon(a).contains(q) <==> a.contains(q));
        assert(canon(b).contains(q) <==> b.contains(q));
        assert(a.contains(q) <==> b.contains(q));
    }
    lemma_strictly_sorted_unique(canon(a), canon(b));
}


/// Every pair of positions is strictly decreasing.
pub open spec fn strictly_sorted_desc(s: Seq<Point2>) -> bool {
    forall|i: int, j: int| 0 <= i < j < s.len() ==> lex_lt(s[j], s[i])
}

/// Every three consecutive points of the sequence make a strict left turn.
pub open spec fn chain_turns(s: Seq<Point2>) -> bool {
    forall|k: int| 2 <= k < s.len() ==> cross(s[k - 2], s[k - 1], #[trigger] s[k]) > 0
}

/// One monotone-chain step: pop the chain's tail while it fails to make a
/// strict left turn toward `p`, then append `p`.
pub open spec fn chain_push(h: Seq<Point2>, p: Point2) -> Seq<Point2>
    decreases h.len(),
{
    if h.len() >= 2 && cross(h[h.len() - 2], h[h.len() - 1], p) <= 0 {
        chain_push(h.drop_last(), p)
    } else {
        h.push(p)
    }
}

/// Runs the monotone-chain step over a whole sequence of candidates.
pub open spec fn chain_fold(h: Seq<Point2>, s: Seq<Point2>) -> Seq<Point2>
    decreases s.len(),
{
    if s.len() == 0 {
        h
    } else {
        chain_fold(chain_push(h, s[0]), s.drop_first())
    }
}

/// The lower chain of the hull of the points of `s`.
pub open spec fn lower_chain_of(s: Seq<Point2>) -> Seq<Point2> {
    chain_fold(Seq::empty(), canon(s))
}

/// The upper chain of the hull of the points of `s`.
pub open spec fn upper_chain_of(s: Seq<Point2>) -> Seq<Point2> {
    chain_fold(Seq::empty(), canon(s).reverse())
}

/// The convex hull of the points of `s`, in counter-clockwise order starting
/// from the lexicographically smallest point; fewer than three distinct
/// points are handed back sorted, as a degenerate hull.
pub open spec fn hull_spec(s: Seq<Point2>) -> Seq<Point2> {
    let u = canon(s);
    if u.len() < 3 {
        u
    } else {
        lower_chain_of(s).drop_last() + upper_chain_of(s).drop_last()
    }
}

proof fn lemma_chain_fold_snoc(h: Seq<Point2>, s: Seq<Point2>, p: Point2)
    ensures
        chain_fold(h, s.push(p)) == chain_push(chain_fold(h, s), p),
    decreases s.len(),
{
    if s.len() == 0 {
        assert(s.push(p).drop_first() =~= Seq::<Point2>::empty());
        assert(s.push(p)[0] == p);
        assert(chain_fold(h, s.push(p)) == chain_fold(
            chain_push(h, p),
            Seq::<Point2>::empty(),
        ));
        assert(chain_fold(chain_push(h, p), Seq::<Point2>::empty()) == chain_push(h, p));
        assert(chain_fold(h, s) == h);
    } else {
        assert(s.push(p)[0] == s[0]);
        assert(s.push(p).drop_first() =~= s.drop_first().push(p));
        lemma_chain_fold_snoc(chain_push(h, s[0]), s.drop_first(), p);
        assert(chain_fold(h, s.push(p)) == chain_fold(chain_push(h, s[0]), s.drop_first().push(p)));
        assert(chain_fold(h, s) == chain_fold(chain_push(h, s[0]), s.drop_first()));
    }
}

/// How many chain points the monotone-chain step keeps before appending the
/// candidate.
pub open spec fn chain_push_keep(h: Seq<Point2>, p: Point2) -> int
    decreases h.len(),
{
    if h.len() >= 2 && cross(h[h.len() - 2], h[h.len() - 1], p) <= 0 {
        chain_push_keep(h.drop_last(), p)
    } else {
        h.len() as int
    }
}

/// The shape of one monotone-chain step: it keeps a prefix of the chain and
/// appends the candidate; the last kept pair turns strictly left toward the
/// candidate, and the first dropped point did not.
proof fn lemma_chain_push_shape(h: Seq<Point2>, p: Point2)
    ensures
        0 <= chain_push_keep(h, p) <= h.len(),
        h.len() > 0 ==> chain_push_keep(h, p) >= 1,
        chain_push(h, p) == h.take(chain_push_keep(h, p)).push(p),
        chain_push_keep(h, p) >= 2 ==> cross(
            h[chain_push_keep(h, p) - 2],
            h[chain_push_keep(h, p) - 1],
            p,
        ) > 0,
        1 <= chain_push_keep(h, p) < h.len() ==> cross(
            h[chain_push_keep(h, p) - 1],
            h[chain_push_keep(h, p)],
            p,
        ) <= 0,
    decreases h.len(),
{
    let k = chain_push_keep(h, p);
    if h.len() >= 2 && cross(h[h.len() - 2], h[h.len() - 1], p) <= 0 {
        let g = h.drop_last();
        lemma_chain_push_shape(g, p);
        assert(forall|j: int| 0 <= j < g.len() ==> g[j] == h[j]);
        assert(g.take(k) =~= h.take(k));
        if 1 <= k < h.len() {
            if k < g.len() {
                assert(cross(g[k - 1], g[k], p) <= 0);
            } else {
                assert(k == h.len() - 1);
            }
        }
    } else {
        assert(h.take(h.len() as int) =~= h);
    }
}

/// The facts the chain builder establishes, at the specification level: the
/// chain starts and ends with the input's endpoints, turns strictly left,
/// inherits the input's order and bounds, and draws only input points.
proof fn lemma_chain_fold_basic(u: Seq<Point2>)
    requires
        all_bounded(u),
        strictly_sorted(u) || strictly_sorted_desc(u),
        u.len() >= 1,
    ensures
        chain_fold(Seq::empty(), u).len() >= 1,
        chain_fold(Seq::empty(), u)[0] == u[0],
        chain_fold(Seq::empty(), u).last() == u.last(),
        chain_turns(chain_fold(Seq::empty(), u)),
        strictly_sorted(u) ==> strictly_sorted(chain_fold(Seq::empty(), u)),
        strictly_sorted_desc(u) ==> strictly_sorted_desc(chain_fold(Seq::empty(), u)),
        forall|j: int|
            0 <= j < chain_fold(Seq::empty(), u).len() ==> u.contains(
                #[trigger] chain_fold(Seq::empty(), u)[j],
            ),
        all_bounded(chain_fold(Seq::empty(), u)),
    decreases u.len(),
{
    let ll = chain_fold(Seq::empty(), u);
    if u.len() == 1 {
        assert(u =~= Seq::empty().push(u[0]));
        lemma_chain_fold_snoc(Seq::empty(), Seq::empty(), u[0]);
        assert(chain_fold(Seq::empty(), Seq::empty()) == Seq::<Point2>::empty());
        assert(ll == chain_push(Seq::empty(), u[0]));
        assert(ll == Seq::empty().push(u[0]));
        assert(u.contains(u[0]));
    } else {
        let v = u.drop_last();
        let p = u.last();
        assert(strictly_sorted(u) ==> strictly_sorted(v)) by {
            assert(forall|j: int| 0 <= j < v.len() ==> v[j] == u[j]);
        }
        assert(strictly_sorted_desc(u) ==> strictly_sorted_desc(v)) by {
            assert(forall|j: int| 0 <= j < v.len() ==> v[j] == u[j]);
        }
        assert(all_bounded(v)) by {
            assert(forall|j: int| 0 <= j < v.len() ==> v[j] == u[j]);
        }
        lemma_chain_fold_basic(v);
        let lv = chain_fold(Seq::empty(), v);
        assert(u =~= v.push(p));
        lemma_chain_fold_snoc(Seq::empty(), v, p);
        assert(ll == chain_push(lv, p));
        lemma_chain_push_shape(lv, p);
        let k = chain_push_keep(lv, p);
        let kept = lv.take(k);
        assert(ll == kept.push(p));
        assert(forall|j: int| 0 <= j < k ==> kept[j] == lv[j]);
        // each kept point is an input point strictly before the candidate
        assert forall|j: int| 0 <= j < k implies u.contains(#[trigger] ll[j]) && bounded(ll[j]) && (
        strictly_sorted(u) ==> lex_lt(ll[j], p)) && (strictly_sorted_desc(u) ==> lex_lt(
            p,
            ll[j],
        )) by {
            assert(ll[j] == lv[j]);
            assert(v.contains(lv[j]));
            let m = choose|m: int| 0 <= m < v.len() && v[m] == lv[j];
            assert(u[m] == lv[j]);
            assert(u.contains(lv[j]));
            assert(bounded(u[m]));
            if strictly_sorted(u) {
                assert(lex_lt(u[m], u[u.len() - 1]));
            } else {
                assert(lex_lt(u[u.len() - 1], u[m]));
            }
        }
        assert(ll[ll.len() - 1] == p && u.contains(p)) by {
            assert(u[u.len() - 1] == p);
        }
        assert(ll[0] == u[0]) by {
            assert(k >= 1);
            assert(ll[0] == lv[0] && lv[0] == v[0] && v[0] == u[0]);
        }
        assert(chain_turns(ll)) by {
            assert forall|t: int| 2 <= t < ll.len() implies cross(ll[t - 2], ll[t - 1], #[trigger] ll[t])
                > 0 by {
                if t < ll.len() - 1 {
                    assert(ll[t - 2] == lv[t - 2] && ll[t - 1] == lv[t - 1] && ll[t] == lv[t]);
                    assert(cross(lv[t - 2], lv[t - 1], lv[t]) > 0);
                } else {
                    assert(k >= 2);
                    assert(ll[t - 2] == lv[k - 2] && ll[t - 1] == lv[k - 1] && ll[t] == p);
                    assert(cross(lv[k - 2], lv[k - 1], p) > 0);
                }
            }
        }
        assert(strictly_sorted(u) ==> strictly_sorted(ll)) by {
            if strictly_sorted(u) {
                assert forall|i: int, j: int| 0 <= i < j < ll.len() implies lex_lt(
                    ll[i],
                    ll[j],
                ) by {
                    if j < ll.len() - 1 {
                        assert(lex_lt(lv[i], lv[j]));
                    }
                }
            }
        }
        assert(strictly_sorted_desc(u) ==> strictly_sorted_desc(ll)) by {
            if strictly_sorted_desc(u) {
                assert forall|i: int, j: int| 0 <= i < j < ll.len() implies lex_lt(
                    ll[j],
                    ll[i],
                ) by {
                    if j < ll.len() - 1 {
                        assert(lex_lt(lv[j], lv[i]));
                    }
                }
            }
        }
        assert(bounded(p)) by {
            assert(bounded(u[u.len() - 1]));
        }
    }
}

/// A candidate that turns strictly left from the chain's last edge is
/// strictly left of every edge of the chain, whichever way the chain runs.
proof fn lemma_point_above_chain(h: Seq<Point2>, p: Point2)
    requires
        all_bounded(h),
        bounded(p),
        chain_turns(h),
        h.len() >= 2,
        strictly_sorted(h) && lex_lt(h.last(), p) || strictly_sorted_desc(h) && lex_lt(
            p,
            h.last(),
        ),
        cross(h[h.len() - 2], h[h.len() - 1], p) > 0,
    ensures
        forall|t: int| 1 <= t < h.len() ==> cross(h[t - 1], #[trigger] h[t], p) > 0,
    decreases h.len(),
{
    if h.len() > 2 {
        let a = h[h.len() - 3];
        let b = h[h.len() - 2];
        let c = h[h.len() - 1];
        let asc = strictly_sorted(h) && lex_lt(h.last(), p);
        if asc {
            assert(lex_lt(a, b) && lex_lt(b, c) && lex_lt(c, p));
            crate::geom::lemma_turn_extends(a, b, c, p);
        } else {
            assert(strictly_sorted_desc(h) && lex_lt(p, h.last()));
            assert(lex_lt(b, a) && lex_lt(c, b) && lex_lt(p, c));
            crate::geom::lemma_neg_mirror(a, b, c);
            crate::geom::lemma_neg_mirror(a, b, p);
            crate::geom::lemma_neg_mirror(b, c, p);
            crate::geom::lemma_turn_extends(
                crate::geom::neg_pt(a),
                crate::geom::neg_pt(b),
                crate::geom::neg_pt(c),
                crate::geom::neg_pt(p),
            );
        }
        assert(cross(h[h.len() - 3], h[h.len() - 2], p) > 0);
        let g = h.drop_last();
        assert(strictly_sorted(g) || strictly_sorted_desc(g)) by {
            assert(forall|t: int| 0 <= t < g.len() ==> g[t] == h[t]);
        }
        assert(chain_turns(g)) by {
            assert(forall|t: int| 0 <= t < g.len() ==> g[t] == h[t]);
        }
        assert(all_bounded(g)) by {
            assert(forall|t: int| 0 <= t < g.len() ==> g[t] == h[t]);
        }
        assert(g[g.len() - 2] == h[h.len() - 3] && g[g.len() - 1] == h[h.len() - 2]);
        assert(g.last() == h[h.len() - 2]);
        if asc {
            assert(lex_lt(h[h.len() - 2], h[h.len() - 1]));
            assert(strictly_sorted(g) && lex_lt(g.last(), p));
        } else {
            assert(lex_lt(h[h.len() - 1], h[h.len() - 2]));
            assert(strictly_sorted_desc(g) && lex_lt(p, g.last()));
        }
        lemma_point_above_chain(g, p);
        assert forall|t: int| 1 <= t < h.len() implies cross(h[t - 1], #[trigger] h[t], p) > 0 by {
            if t < h.len() - 1 {
                assert(g[t - 1] == h[t - 1] && g[t] == h[t]);
                assert(cross(g[t - 1], g[t], p) > 0);
            }
        }
    }
}

/// After the pops, every earlier point is on or left of the edge from the
/// chain's new tail to the candidate, whichever way the chain runs.
#[verifier::rlimit(100)]
proof fn lemma_new_edge_above(h_entry: Seq<Point2>, h_pop: Seq<Point2>, p: Point2, q: Point2)
    requires
        all_bounded(h_entry),
        bounded(p),
        bounded(q),
        1 <= h_pop.len() <= h_entry.len(),
        h_pop == h_entry.take(h_pop.len() as int),
        (strictly_sorted(h_entry) && (forall|j: int|
            0 <= j < h_entry.len() ==> lex_lt(#[trigger] h_entry[j], p)) && lex_le(h_entry[0], q)
            && lex_le(q, h_entry.last())) || (strictly_sorted_desc(h_entry) && (forall|j: int|
            0 <= j < h_entry.len() ==> lex_lt(p, #[trigger] h_entry[j])) && lex_le(q, h_entry[0])
            && lex_le(h_entry.last(), q)),
        forall|t: int| 1 <= t < h_entry.len() ==> cross(h_entry[t - 1], #[trigger] h_entry[t], q)
            >= 0,
        h_pop.len() >= 2 ==> cross(h_pop[h_pop.len() - 2], h_pop[h_pop.len() - 1], p) > 0,
        h_pop.len() < h_entry.len() ==> cross(h_pop.last(), h_entry[h_pop.len() as int], p) <= 0,
    ensures
        cross(h_pop.last(), p, q) >= 0,
{
    let b = h_pop.last();
    let m = h_pop.len() as int;
    assert(forall|j: int| 0 <= j < m ==> h_pop[j] == h_entry[j]);
    assert(b == h_entry[m - 1]);
    assert(bounded(b));
    let asc = strictly_sorted(h_entry) && (forall|j: int|
        0 <= j < h_entry.len() ==> lex_lt(#[trigger] h_entry[j], p)) && lex_le(h_entry[0], q)
        && lex_le(q, h_entry.last());
    assert(asc || (strictly_sorted_desc(h_entry) && (forall|j: int|
        0 <= j < h_entry.len() ==> lex_lt(p, #[trigger] h_entry[j])) && lex_le(q, h_entry[0])
        && lex_le(h_entry.last(), q)));
    if q == b {
        assert(cross(b, p, q) == 0);
    } else if m < h_entry.len() {
        // pops happened; the popped neighbour e carries the turn that failed
        let e = h_entry[m];
        assert(bounded(e));
        assert(cross(h_entry[m - 1], h_entry[m], q) >= 0);
        if asc {
            assert(lex_lt(b, e) && lex_lt(e, p));
            if b.x < q.x {
                assert(q.x <= p.x);
                crate::geom::lemma_edge_keeps_right_point(b, e, p, q);
            } else if m >= 2 {
                let a = h_pop[m - 2];
                assert(cross(h_entry[m - 2], h_entry[m - 1], q) >= 0);
                crate::geom::lemma_edge_keeps_left_point(a, b, p, q);
            } else {
                // the chain shrank to its first point, the leftmost of all
                assert(b == h_entry[0]);
                assert(lex_le(b, q) && q.x <= b.x);
                assert(q.x == b.x && q.z >= b.z);
                crate::geom::lemma_edge_keeps_vertical_point(b, p, q);
            }
        } else {
            crate::geom::lemma_neg_mirror(b, e, p);
            crate::geom::lemma_neg_mirror(b, e, q);
            crate::geom::lemma_neg_mirror(b, p, q);
            let nb = crate::geom::neg_pt(b);
            let ne = crate::geom::neg_pt(e);
            let np = crate::geom::neg_pt(p);
            let nq = crate::geom::neg_pt(q);
            assert(lex_lt(nb, ne) && lex_lt(ne, np));
            if q.x < b.x {
                assert(nb.x < nq.x && nq.x <= np.x);
                crate::geom::lemma_edge_keeps_right_point(nb, ne, np, nq);
            } else if m >= 2 {
                let a = h_pop[m - 2];
                assert(bounded(a));
                crate::geom::lemma_neg_mirror(a, b, p);
                crate::geom::lemma_neg_mirror(a, b, q);
                let na = crate::geom::neg_pt(a);
                assert(cross(h_entry[m - 2], h_entry[m - 1], q) >= 0);
                assert(lex_lt(na, nb) && lex_lt(nb, np));
                assert(nq.x <= nb.x);
                crate::geom::lemma_edge_keeps_left_point(na, nb, np, nq);
            } else {
                assert(b == h_entry[0]);
                assert(lex_le(q, b) && q.x >= b.x);
                assert(nq.x == nb.x && nq.z >= nb.z && np.x >= nb.x);
                crate::geom::lemma_edge_keeps_vertical_point(nb, np, nq);
            }
        }
    } else {
        // no pops: the chain still ends with its old last edge
        if m >= 2 {
            let a = h_pop[m - 2];
            assert(bounded(a));
            assert(cross(h_entry[m - 2], h_entry[m - 1], q) >= 0);
            if asc {
                assert(lex_le(q, b) && q.x <= b.x);
                crate::geom::lemma_edge_keeps_left_point(a, b, p, q);
            } else {
                crate::geom::lemma_neg_mirror(a, b, p);
                crate::geom::lemma_neg_mirror(a, b, q);
                crate::geom::lemma_neg_mirror(b, p, q);
                let na = crate::geom::neg_pt(a);
                let nb = crate::geom::neg_pt(b);
                let np = crate::geom::neg_pt(p);
                let nq = crate::geom::neg_pt(q);
                assert(lex_le(b, q) && q.x >= b.x);
                assert(lex_lt(na, nb) && lex_lt(nb, np) && nq.x <= nb.x);
                crate::geom::lemma_edge_keeps_left_point(na, nb, np, nq);
            }
        } else {
            // a single point: q is at or after it yet at or before it
            assert(lex_le(h_entry[0], q) && lex_le(q, h_entry[0]));
            assert(q == b);
        }
    }
}

/// Every input point lies on or left of every edge of the chain the fold
/// builds: kept edges keep it by induction, and the new tail edge keeps it
/// by the turn facts of the step.
#[verifier::rlimit(100)]
proof fn lemma_chain_fold_keeps(u: Seq<Point2>, q: Point2)
    requires
        all_bounded(u),
        strictly_sorted(u) || strictly_sorted_desc(u),
        u.contains(q),
    ensures
        forall|t: int|
            1 <= t < chain_fold(Seq::empty(), u).len() ==> cross(
                chain_fold(Seq::empty(), u)[t - 1],
                #[trigger] chain_fold(Seq::empty(), u)[t],
                q,
            ) >= 0,
    decreases u.len(),
{
    let ll = chain_fold(Seq::empty(), u);
    let qi = choose|qi: int| 0 <= qi < u.len() && u[qi] == q;
    assert(bounded(q)) by {
        assert(bounded(u[qi]));
    }
    if u.len() == 1 {
        assert(u =~= Seq::empty().push(u[0]));
        lemma_chain_fold_snoc(Seq::empty(), Seq::empty(), u[0]);
        assert(ll == Seq::empty().push(u[0]));
    } else {
        let v = u.drop_last();
        let p = u.last();
        assert(strictly_sorted(u) ==> strictly_sorted(v)) by {
            assert(forall|j: int| 0 <= j < v.len() ==> v[j] == u[j]);
        }
        assert(strictly_sorted_desc(u) ==> strictly_sorted_desc(v)) by {
            assert(forall|j: int| 0 <= j < v.len() ==> v[j] == u[j]);
        }
        assert(all_bounded(v)) by {
            assert(forall|j: int| 0 <= j < v.len() ==> v[j] == u[j]);
        }
        assert(bounded(p)) by {
            assert(bounded(u[u.len() - 1]));
        }
        lemma_chain_fold_basic(v);
        let lv = chain_fold(Seq::empty(), v);
        assert(u =~= v.push(p));
        lemma_chain_fold_snoc(Seq::empty(), v, p);
        assert(ll == chain_push(lv, p));
        lemma_chain_push_shape(lv, p);
        let k = chain_push_keep(lv, p);
        let kept = lv.take(k);
        assert(ll == kept.push(p));
        assert(forall|j: int| 0 <= j < k ==> #[trigger] kept[j] == lv[j]);
        // every chain point of the shorter fold lies strictly before (after) p
        assert forall|j: int| 0 <= j < lv.len() implies (strictly_sorted(u) ==> lex_lt(
            #[trigger] lv[j],
            p,
        )) && (strictly_sorted_desc(u) ==> lex_lt(p, lv[j])) by {
            assert(v.contains(lv[j]));
            let m = choose|m: int| 0 <= m < v.len() && v[m] == lv[j];
            assert(u[m] == lv[j]);
            if strictly_sorted(u) {
                assert(lex_lt(u[m], u[u.len() - 1]));
            } else {
                assert(lex_lt(u[u.len() - 1], u[m]));
            }
        }
        if q == p {
            // the candidate itself: strictly left of every kept edge
            if k >= 2 {
                assert(all_bounded(kept) && chain_turns(kept) && (strictly_sorted(kept)
                    || strictly_sorted_desc(kept))) by {
                    assert(forall|j: int| 0 <= j < k ==> kept[j] == lv[j]);
                }
                assert(kept.last() == lv[k - 1]);
                assert(cross(kept[k - 2], kept[k - 1], p) > 0);
                if strictly_sorted(u) {
                    assert(lex_lt(kept.last(), p));
                } else {
                    assert(lex_lt(p, kept.last()));
                }
                lemma_point_above_chain(kept, p);
            }
            assert forall|t: int| 1 <= t < ll.len() implies cross(ll[t - 1], #[trigger] ll[t], q)
                >= 0 by {
                if t < ll.len() - 1 {
                    assert(ll[t - 1] == kept[t - 1] && ll[t] == kept[t]);
                    assert(cross(kept[t - 1], kept[t], p) > 0);
                } else {
                    assert(ll[t - 1] == kept.last() && ll[t] == p);
                    assert(cross(kept.last(), p, p) == 0);
                }
            }
        } else {
            assert(v.contains(q)) by {
                assert(qi < u.len() - 1);
                assert(v[qi] == q);
            }
            lemma_chain_fold_keeps(v, q);
            // the kept edges are edges of the shorter fold
            // the new tail edge keeps q by the pop facts
            assert(lv.len() >= 1 && 1 <= k <= lv.len());
            if strictly_sorted(u) {
                assert(lex_le(lv[0], q) && lex_le(q, lv.last())) by {
                    assert(lv[0] == v[0] && lv.last() == v.last());
                    let m = choose|m: int| 0 <= m < v.len() && v[m] == q;
                    if m > 0 {
                        assert(lex_lt(v[0], v[m]));
                    }
                    if m < v.len() - 1 {
                        assert(lex_lt(v[m], v[v.len() - 1]));
                    }
                }
            } else {
                assert(lex_le(q, lv[0]) && lex_le(lv.last(), q)) by {
                    assert(lv[0] == v[0] && lv.last() == v.last());
                    let m = choose|m: int| 0 <= m < v.len() && v[m] == q;
                    if m > 0 {
                        assert(lex_lt(v[m], v[0]));
                    }
                    if m < v.len() - 1 {
                        assert(lex_lt(v[v.len() - 1], v[m]));
                    }
                }
            }
            assert(k >= 2 ==> cross(kept[k - 2], kept[k - 1], p) > 0);
            lemma_new_edge_above(lv, kept, p, q);
            assert(cross(kept.last(), p, q) >= 0);
            assert forall|t: int| 1 <= t < ll.len() implies cross(ll[t - 1], #[trigger] ll[t], q)
                >= 0 by {
                if t < ll.len() - 1 {
                    assert(ll[t - 1] == kept[t - 1] && ll[t] == kept[t]);
                    assert(kept[t - 1] == lv[t - 1] && kept[t] == lv[t]);
                    assert(cross(lv[t - 1], lv[t], q) >= 0);
                } else {
                    assert(ll[t - 1] == kept.last() && ll[t] == p);
                }
            }
        }
    }
}

/// A seam of the hull turns strictly: the corner between two edges that
/// keep every point on their left cannot be straight unless all points are
/// collinear, which the strict turn among `w0, w1, w2` rules out.
proof fn lemma_seam_strict(
    u: Seq<Point2>,
    a: Point2,
    r: Point2,
    b: Point2,
    w0: Point2,
    w1: Point2,
    w2: Point2,
)
    requires
        lex_lt(a, r),
        lex_lt(b, r),
        forall|j: int| 0 <= j < u.len() ==> cross(a, r, #[trigger] u[j]) >= 0,
        forall|j: int| 0 <= j < u.len() ==> cross(r, b, #[trigger] u[j]) >= 0,
        u.contains(w0),
        u.contains(w1),
        u.contains(w2),
        cross(w0, w1, w2) > 0,
        cross(a, r, b) >= 0,
    ensures
        cross(a, r, b) > 0,
{
    if cross(a, r, b) == 0 {
        assert forall|j: int| 0 <= j < u.len() implies cross(a, r, #[trigger] u[j]) == 0 by {
            if b == a {
                // the two edges run the same line in opposite directions
                crate::geom::lemma_cross_cyclic(r, a, u[j]);
                assert(cross(r, a, u[j]) == -cross(a, r, u[j]));
            } else {
                crate::geom::lemma_opposing_edges_pin(a, r, b, u[j]);
            }
        }
        let i0 = choose|i0: int| 0 <= i0 < u.len() && u[i0] == w0;
        let i1 = choose|i1: int| 0 <= i1 < u.len() && u[i1] == w1;
        let i2 = choose|i2: int| 0 <= i2 < u.len() && u[i2] == w2;
        assert(cross(a, r, w0) == 0 && cross(a, r, w1) == 0 && cross(a, r, w2) == 0);
        crate::geom::lemma_collinear_transfer(a, r, w0, w1, w2);
        assert(cross(a, r, b) > 0);
    }
}

/// The point lies on or left of every directed edge of the closed
/// counter-clockwise polygon: on its boundary or inside it.
pub open spec fn point_in_hull(q: Point2, h: Seq<Point2>) -> bool {
    forall|t: int|
        0 <= t < h.len() ==> cross(
            #[trigger] h[t],
            h[if t + 1 == h.len() {
                0int
            } else {
                t + 1
            }],
            q,
        ) >= 0
}

/// Both hull chains of a point set keep any of its points on or to the
/// left of each of their edges, and begin and end at the set's extremes.
#[verifier::rlimit(100)]
proof fn lemma_hull_chains_keep(s: Seq<Point2>, q: Point2)
    requires
        all_bounded(s),
        s.contains(q),
        canon(s).len() >= 2,
    ensures
        lower_chain_of(s).len() >= 2,
        upper_chain_of(s).len() >= 2,
        lower_chain_of(s)[0] == canon(s)[0],
        lower_chain_of(s).last() == canon(s).last(),
        upper_chain_of(s)[0] == canon(s).last(),
        upper_chain_of(s).last() == canon(s)[0],
        forall|t: int|
            1 <= t < lower_chain_of(s).len() ==> cross(
                lower_chain_of(s)[t - 1],
                #[trigger] lower_chain_of(s)[t],
                q,
            ) >= 0,
        forall|t: int|
            1 <= t < upper_chain_of(s).len() ==> cross(
                upper_chain_of(s)[t - 1],
                #[trigger] upper_chain_of(s)[t],
                q,
            ) >= 0,
{
    let u = canon(s);
    lemma_canon_props(s);
    assert forall|k: int| 0 <= k < u.len() implies bounded(#[trigger] u[k]) by {
        assert(u.contains(u[k]));
        assert(s.contains(u[k]));
        let m = choose|m: int| 0 <= m < s.len() && s[m] == u[k];
        assert(bounded(s[m]));
    }
    assert(u.contains(q));
    let n = u.len() as int;
    let ur = u.reverse();
    assert(strictly_sorted_desc(ur)) by {
        assert forall|i: int, j: int| 0 <= i < j < ur.len() implies lex_lt(ur[j], ur[i]) by {
            assert(ur[i] == u[n - 1 - i] && ur[j] == u[n - 1 - j]);
        }
    }
    assert(all_bounded(ur)) by {
        assert forall|k: int| 0 <= k < ur.len() implies bounded(#[trigger] ur[k]) by {
            assert(ur[k] == u[n - 1 - k]);
        }
    }
    assert(ur.contains(q)) by {
        let m = choose|m: int| 0 <= m < u.len() && u[m] == q;
        assert(ur[n - 1 - m] == q);
    }
    lemma_chain_fold_basic(u);
    lemma_chain_fold_basic(ur);
    lemma_chain_fold_keeps(u, q);
    lemma_chain_fold_keeps(ur, q);
    let lo = lower_chain_of(s);
    let hi = upper_chain_of(s);
    assert(lo == chain_fold(Seq::empty(), u) && hi == chain_fold(Seq::empty(), ur));
    assert(hi[0] == u[n - 1] && hi.last() == u[0]) by {
        assert(ur[0] == u[n - 1] && ur[ur.len() - 1] == u[0]);
    }
    assert(lo.len() >= 2) by {
        if lo.len() == 1 {
            assert(lo[0] == lo.last());
            assert(lex_lt(u[0], u[n - 1]));
        }
    }
    assert(hi.len() >= 2) by {
        if hi.len() == 1 {
            assert(hi[0] == hi.last());
            assert(lex_lt(u[0], u[n - 1]));
        }
    }
}

/// The structural facts of both hull chains: lengths, endpoints, strict
/// turns, order and membership.
#[verifier::rlimit(100)]
proof fn lemma_hull_chains_struct(s: Seq<Point2>)
    requires
        all_bounded(s),
        canon(s).len() >= 2,
    ensures
        lower_chain_of(s).len() >= 2,
        upper_chain_of(s).len() >= 2,
        lower_chain_of(s)[0] == canon(s)[0],
        lower_chain_of(s).last() == canon(s).last(),
        upper_chain_of(s)[0] == canon(s).last(),
        upper_chain_of(s).last() == canon(s)[0],
        chain_turns(lower_chain_of(s)),
        chain_turns(upper_chain_of(s)),
        strictly_sorted(lower_chain_of(s)),
        strictly_sorted_desc(upper_chain_of(s)),
        all_bounded(canon(s)),
        strictly_sorted(canon(s)),
        forall|j: int|
            0 <= j < lower_chain_of(s).len() ==> canon(s).contains(
                #[trigger] lower_chain_of(s)[j],
            ),
        forall|j: int|
            0 <= j < upper_chain_of(s).len() ==> canon(s).contains(
                #[trigger] upper_chain_of(s)[j],
            ),
{
    let u = canon(s);
    lemma_canon_props(s);
    assert forall|k: int| 0 <= k < u.len() implies bounded(#[trigger] u[k]) by {
        assert(u.contains(u[k]));
        assert(s.contains(u[k]));
        let m = choose|m: int| 0 <= m < s.len() && s[m] == u[k];
        assert(bounded(s[m]));
    }
    let n = u.len() as int;
    let ur = u.reverse();
    assert(strictly_sorted_desc(ur)) by {
        assert forall|i: int, j: int| 0 <= i < j < ur.len() implies lex_lt(ur[j], ur[i]) by {
            assert(ur[i] == u[n - 1 - i] && ur[j] == u[n - 1 - j]);
        }
    }
    assert(all_bounded(ur)) by {
        assert forall|k: int| 0 <= k < ur.len() implies bounded(#[trigger] ur[k]) by {
            assert(ur[k] == u[n - 1 - k]);
        }
    }
    lemma_chain_fold_basic(u);
    lemma_chain_fold_basic(ur);
    let lo = lower_chain_of(s);
    let hi = upper_chain_of(s);
    assert(lo == chain_fold(Seq::empty(), u) && hi == chain_fold(Seq::empty(), ur));
    assert(hi[0] == u[n - 1] && hi.last() == u[0]) by {
        assert(ur[0] == u[n - 1] && ur[ur.len() - 1] == u[0]);
    }
    assert(lo.len() >= 2) by {
        if lo.len() == 1 {
            assert(lo[0] == lo.last());
            assert(lex_lt(u[0], u[n - 1]));
        }
    }
    assert(hi.len() >= 2) by {
        if hi.len() == 1 {
            assert(hi[0] == hi.last());
            assert(lex_lt(u[0], u[n - 1]));
        }
    }
    assert forall|j: int| 0 <= j < hi.len() implies u.contains(#[trigger] hi[j]) by {
        assert(ur.contains(hi[j]));
        let m = choose|m: int| 0 <= m < ur.len() && ur[m] == hi[j];
        assert(u[n - 1 - m] == hi[j]);
    }
}

/// The mirrored seam: the same strictness with the corner at the
/// lexicographically smallest point, shown by reflecting everything through
/// the origin.
#[verifier::rlimit(100)]
proof fn lemma_seam_strict_desc(
    u: Seq<Point2>,
    a: Point2,
    r: Point2,
    b: Point2,
    w0: Point2,
    w1: Point2,
    w2: Point2,
)
    requires
        all_bounded(u),
        bounded(a),
        bounded(r),
        bounded(b),
        lex_lt(r, a),
        lex_lt(r, b),
        forall|j: int| 0 <= j < u.len() ==> cross(a, r, #[trigger] u[j]) >= 0,
        forall|j: int| 0 <= j < u.len() ==> cross(r, b, #[trigger] u[j]) >= 0,
        u.contains(w0),
        u.contains(w1),
        u.contains(w2),
        cross(w0, w1, w2) > 0,
        cross(a, r, b) >= 0,
    ensures
        cross(a, r, b) > 0,
{
    assert(bounded(w0) && bounded(w1) && bounded(w2)) by {
        let j0 = choose|j0: int| 0 <= j0 < u.len() && u[j0] == w0;
        let j1 = choose|j1: int| 0 <= j1 < u.len() && u[j1] == w1;
        let j2 = choose|j2: int| 0 <= j2 < u.len() && u[j2] == w2;
        assert(bounded(u[j0]) && bounded(u[j1]) && bounded(u[j2]));
    }
    let un = u.map(|i: int, pp: Point2| crate::geom::neg_pt(pp));
    assert(forall|j: int| 0 <= j < un.len() ==> #[trigger] un[j] == crate::geom::neg_pt(u[j]));
    let na = crate::geom::neg_pt(a);
    let nr = crate::geom::neg_pt(r);
    let nb = crate::geom::neg_pt(b);
    let nw0 = crate::geom::neg_pt(w0);
    let nw1 = crate::geom::neg_pt(w1);
    let nw2 = crate::geom::neg_pt(w2);
    crate::geom::lemma_neg_mirror(a, r, b);
    crate::geom::lemma_neg_mirror(w0, w1, w2);
    assert(lex_lt(na, nr) && lex_lt(nb, nr)) by {
        crate::geom::lemma_neg_mirror(a, r, r);
        crate::geom::lemma_neg_mirror(b, r, r);
    }
    assert forall|j: int| 0 <= j < un.len() implies cross(na, nr, #[trigger] un[j]) >= 0 by {
        assert(bounded(u[j]));
        crate::geom::lemma_neg_mirror(a, r, u[j]);
        assert(un[j] == crate::geom::neg_pt(u[j]));
    }
    assert forall|j: int| 0 <= j < un.len() implies cross(nr, nb, #[trigger] un[j]) >= 0 by {
        assert(bounded(u[j]));
        crate::geom::lemma_neg_mirror(r, b, u[j]);
        assert(un[j] == crate::geom::neg_pt(u[j]));
    }
    assert(un.contains(nw0) && un.contains(nw1) && un.contains(nw2)) by {
        let j0 = choose|j0: int| 0 <= j0 < u.len() && u[j0] == w0;
        let j1 = choose|j1: int| 0 <= j1 < u.len() && u[j1] == w1;
        let j2 = choose|j2: int| 0 <= j2 < u.len() && u[j2] == w2;
        assert(un[j0] == nw0 && un[j1] == nw1 && un[j2] == nw2);
    }
    lemma_seam_strict(un, na, nr, nb, nw0, nw1, nw2);
    assert(cross(na, nr, nb) == cross(a, r, b));
}

/// A witness that not every input point is collinear: the first strict turn
/// of whichever chain has three vertices.
#[verifier::rlimit(100)]
proof fn lemma_hull_turn_witness(s: Seq<Point2>) -> (w: (Point2, Point2, Point2))
    requires
        all_bounded(s),
        hull_spec(s).len() >= 3,
    ensures
        canon(s).len() >= 3,
        canon(s).contains(w.0),
        canon(s).contains(w.1),
        canon(s).contains(w.2),
        cross(w.0, w.1, w.2) > 0,
{
    let u = canon(s);
    assert(u.len() >= 3) by {
        if u.len() < 3 {
            assert(hull_spec(s) == u);
        }
    }
    lemma_hull_chains_struct(s);
    let lo = lower_chain_of(s);
    let hi = upper_chain_of(s);
    let m = lo.len() as int;
    let k = hi.len() as int;
    assert(hull_spec(s) == lo.drop_last() + hi.drop_last());
    assert(hull_spec(s).len() == m + k - 2);
    if m >= 3 {
        assert(cross(lo[0], lo[1], lo[2]) > 0);
        (lo[0], lo[1], lo[2])
    } else {
        assert(k >= 3);
        assert(cross(hi[0], hi[1], hi[2]) > 0);
        (hi[0], hi[1], hi[2])
    }
}

/// The seam of the hull at the rightmost point turns strictly left.
#[verifier::rlimit(100)]
proof fn lemma_hull_seam_right(s: Seq<Point2>)
    requires
        all_bounded(s),
        hull_spec(s).len() >= 3,
    ensures
        lower_chain_of(s).len() >= 2 && upper_chain_of(s).len() >= 2,
        cross(
            lower_chain_of(s)[lower_chain_of(s).len() - 2],
            lower_chain_of(s)[lower_chain_of(s).len() - 1],
            upper_chain_of(s)[1],
        ) > 0,
{
    let w = lemma_hull_turn_witness(s);
    let u = canon(s);
    lemma_canon_props(s);
    lemma_hull_chains_struct(s);
    let lo = lower_chain_of(s);
    let hi = upper_chain_of(s);
    let m = lo.len() as int;
    let a1 = lo[m - 2];
    let r1 = lo[m - 1];
    let b1 = hi[1];
    assert(lex_lt(a1, r1));
    assert(lex_lt(b1, r1)) by {
        assert(hi[0] == u.last() && lo.last() == u.last());
        assert(lex_lt(hi[1], hi[0]));
    }
    assert(r1 == hi[0]) by {
        assert(hi[0] == u.last() && lo.last() == u.last());
    }
    assert forall|j: int|
        0 <= j < u.len() implies cross(a1, r1, #[trigger] u[j]) >= 0 && cross(r1, b1, u[j])
        >= 0 by {
        assert(u.contains(u[j]));
        assert(s.contains(u[j]));
        lemma_hull_chains_keep(s, u[j]);
        assert(cross(lo[m - 2], lo[m - 1], u[j]) >= 0);
        assert(cross(hi[0], hi[1], u[j]) >= 0);
    }
    assert(cross(a1, r1, b1) >= 0) by {
        assert(u.contains(b1));
        let j = choose|j: int| 0 <= j < u.len() && u[j] == b1;
        assert(cross(a1, r1, u[j]) >= 0);
    }
    lemma_seam_strict(u, a1, r1, b1, w.0, w.1, w.2);
}

/// The seam of the hull at the leftmost point turns strictly left.
#[verifier::rlimit(100)]
proof fn lemma_hull_seam_left(s: Seq<Point2>)
    requires
        all_bounded(s),
        hull_spec(s).len() >= 3,
    ensures
        lower_chain_of(s).len() >= 2 && upper_chain_of(s).len() >= 2,
        cross(
            upper_chain_of(s)[upper_chain_of(s).len() - 2],
            upper_chain_of(s)[upper_chain_of(s).len() - 1],
            lower_chain_of(s)[1],
        ) > 0,
{
    let w = lemma_hull_turn_witness(s);
    let u = canon(s);
    lemma_canon_props(s);
    lemma_hull_chains_struct(s);
    let lo = lower_chain_of(s);
    let hi = upper_chain_of(s);
    let k = hi.len() as int;
    let a2 = hi[k - 2];
    let r2 = hi[k - 1];
    let b2 = lo[1];
    assert(r2 == u[0] && lo[0] == u[0]);
    assert(lex_lt(r2, a2)) by {
        assert(lex_lt(hi[k - 1], hi[k - 2]));
    }
    assert(lex_lt(r2, b2)) by {
        assert(lex_lt(lo[0], lo[1]));
    }
    assert(bounded(a2) && bounded(r2) && bounded(b2)) by {
        assert(all_bounded(u));
        let ja = choose|ja: int| 0 <= ja < u.len() && u[ja] == a2;
        let jb = choose|jb: int| 0 <= jb < u.len() && u[jb] == b2;
        assert(bounded(u[ja]) && bounded(u[jb]) && bounded(u[0]));
    }
    assert forall|j: int|
        0 <= j < u.len() implies cross(a2, r2, #[trigger] u[j]) >= 0 && cross(r2, b2, u[j])
        >= 0 by {
        assert(u.contains(u[j]));
        assert(s.contains(u[j]));
        lemma_hull_chains_keep(s, u[j]);
        assert(cross(hi[k - 2], hi[k - 1], u[j]) >= 0);
        assert(r2 == lo[0] && b2 == lo[1]);
        assert(cross(lo[0], lo[1], u[j]) >= 0);
    }
    assert(cross(a2, r2, b2) >= 0) by {
        assert(u.contains(b2));
        let jb = choose|jb: int| 0 <= jb < u.len() && u[jb] == b2;
        assert(cross(a2, r2, u[jb]) >= 0);
    }
    lemma_seam_strict_desc(u, a2, r2, b2, w.0, w.1, w.2);
}

/// Law: a hull of three or more vertices is a strictly convex polygon in
/// counter-clockwise winding — every three cyclically consecutive vertices
/// make a strict left turn, so a fan triangulation is consistent.
#[verifier::rlimit(100)]
pub proof fn lemma_hull_ccw(s: Seq<Point2>)
    requires
        all_bounded(s),
        hull_spec(s).len() >= 3,
    ensures
        forall|t: int|
            0 <= t < hull_spec(s).len() ==> cross(
                #[trigger] hull_spec(s)[t],
                hull_spec(s)[if t + 1 < hull_spec(s).len() {
                    t + 1
                } else {
                    t + 1 - hull_spec(s).len()
                }],
                hull_spec(s)[if t + 2 < hull_spec(s).len() {
                    t + 2
                } else {
                    t + 2 - hull_spec(s).len()
                }],
            ) > 0,
{
    let u = canon(s);
    assert(u.len() >= 3) by {
        if u.len() < 3 {
            assert(hull_spec(s) == u);
        }
    }
    lemma_hull_chains_struct(s);
    lemma_hull_seam_right(s);
    lemma_hull_seam_left(s);
    let lo = lower_chain_of(s);
    let hi = upper_chain_of(s);
    let h = hull_spec(s);
    let m = lo.len() as int;
    let k = hi.len() as int;
    assert(h == lo.drop_last() + hi.drop_last());
    assert(h.len() == m + k - 2);
    assert(forall|t: int| 0 <= t < m - 1 ==> #[trigger] h[t] == lo[t]);
    assert(forall|t: int| m - 1 <= t < m + k - 2 ==> #[trigger] h[t] == hi[t - (m - 1)]);
    let a1 = lo[m - 2];
    let r1 = lo[m - 1];
    let b1 = hi[1];
    let a2 = hi[k - 2];
    let r2 = hi[k - 1];
    let b2 = lo[1];
    assert forall|t: int| 0 <= t < h.len() implies cross(
        #[trigger] h[t],
        h[if t + 1 < h.len() {
            t + 1
        } else {
            t + 1 - h.len()
        }],
        h[if t + 2 < h.len() {
            t + 2
        } else {
            t + 2 - h.len()
        }],
    ) > 0 by {
        if t + 2 <= m - 2 {
            assert(h[t] == lo[t] && h[t + 1] == lo[t + 1] && h[t + 2] == lo[t + 2]);
            assert(cross(lo[t], lo[t + 1], lo[t + 2]) > 0);
        } else if t + 2 == m - 1 {
            assert(h[t] == lo[t] && h[t + 1] == lo[t + 1] && h[t + 2] == hi[0]);
            assert(hi[0] == u.last() && lo.last() == u.last());
            assert(hi[0] == lo[m - 1]);
            assert(cross(lo[t], lo[t + 1], lo[t + 2]) > 0);
        } else if t == m - 2 {
            assert(t + 1 < h.len());
            assert(h[t] == lo[m - 2] && h[t + 1] == hi[0]);
            if t + 2 < h.len() {
                assert(h[t + 2] == hi[1]);
            } else {
                assert(k == 2);
                assert(h[t + 2 - h.len()] == h[0] && h[0] == lo[0]);
                assert(lo[0] == u[0] && hi.last() == u[0]);
                assert(h[0] == hi[1]);
            }
            assert(hi[0] == u.last() && lo.last() == u.last());
            assert(hi[0] == lo[m - 1]);
            assert(cross(a1, r1, b1) > 0);
        } else if t + 2 <= m + k - 3 {
            assert(t >= m - 1);
            assert(h[t] == hi[t - (m - 1)] && h[t + 1] == hi[t - (m - 1) + 1] && h[t + 2] == hi[t
                - (m - 1) + 2]);
            assert(cross(hi[t - (m - 1)], hi[t - (m - 1) + 1], hi[t - (m - 1) + 2]) > 0);
        } else if t + 2 == m + k - 2 {
            assert(t >= m - 1);
            assert(h[t] == hi[t - (m - 1)] && h[t + 1] == hi[t - (m - 1) + 1]);
            assert(h[t + 2 - h.len()] == h[0] && h[0] == lo[0]);
            assert(lo[0] == u[0] && hi[k - 1] == u[0]);
            assert(t - (m - 1) + 2 == k - 1);
            assert(cross(hi[k - 3], hi[k - 2], hi[k - 1]) > 0);
        } else {
            assert(t == m + k - 3);
            assert(h[t] == hi[k - 2]);
            assert(h[t + 1 - h.len()] == h[0] && h[0] == lo[0]);
            assert(lo[0] == u[0] && hi[k - 1] == u[0]);
            assert(h[t + 2 - h.len()] == h[1]);
            assert(h[1] == b2) by {
                if m >= 3 {
                    assert(h[1] == lo[1]);
                } else {
                    assert(h[1] == hi[0]);
                    assert(hi[0] == u.last() && lo.last() == u.last());
                    assert(lo[1] == lo.last());
                }
            }
            assert(cross(a2, r2, b2) > 0);
        }
    }
}

/// Law: the hull contains every input point — each lies on the boundary or
/// inside the closed polygon whenever three or more distinct points remain.
#[verifier::rlimit(100)]
pub proof fn lemma_hull_contains_points(s: Seq<Point2>, q: Point2)
    requires
        all_bounded(s),
        s.contains(q),
        canon(s).len() >= 3,
    ensures
        point_in_hull(q, hull_spec(s)),
{
    lemma_hull_chains_keep(s, q);
    let lo = lower_chain_of(s);
    let hi = upper_chain_of(s);
    let h = hull_spec(s);
    let m = lo.len() as int;
    let k = hi.len() as int;
    assert(h == lo.drop_last() + hi.drop_last());
    assert(h.len() == m + k - 2);
    assert(forall|t: int| 0 <= t < m - 1 ==> #[trigger] h[t] == lo[t]);
    assert(forall|t: int| m - 1 <= t < m + k - 2 ==> #[trigger] h[t] == hi[t - (m - 1)]);
    assert forall|t: int| 0 <= t < h.len() implies cross(
        #[trigger] h[t],
        h[if t + 1 == h.len() {
            0int
        } else {
            t + 1
        }],
        q,
    ) >= 0 by {
        if t < m - 2 {
            assert(h[t] == lo[t] && h[t + 1] == lo[t + 1]);
            assert(cross(lo[t], lo[t + 1], q) >= 0);
        } else if t == m - 2 {
            assert(h[t] == lo[m - 2] && h[t + 1] == hi[0]);
            assert(hi[0] == canon(s).last() && lo[m - 1] == canon(s).last());
            assert(cross(lo[m - 2], lo[m - 1], q) >= 0);
        } else if t < h.len() - 1 {
            assert(h[t] == hi[t - (m - 1)] && h[t + 1] == hi[t - (m - 1) + 1]);
            assert(cross(hi[t - (m - 1)], hi[t - (m - 1) + 1], q) >= 0);
        } else {
            assert(h[t] == hi[k - 2]);
            assert(h[0] == lo[0]);
            assert(lo[0] == canon(s)[0] && hi[k - 1] == canon(s)[0]);
            assert(cross(hi[k - 2], hi[k - 1], q) >= 0);
        }
    }
}

/// Reverses a vector of points.
fn reversed(v: &Vec<Point2>) -> (r: Vec<Point2>)
    ensures
        r@ == v@.reverse(),
{
    let mut r: Vec<Point2> = Vec::new();
    let mut i: usize = 0;
    while i < v.len()
        invariant
            i <= v.len(),
            r@.len() == i,
            forall|k: int| 0 <= k < i ==> r@[k] == v@[v@.len() - 1 - k],
        decreases v.len() - i,
    {
        r.push(v[v.len() - 1 - i]);
        i = i + 1;
    }
    proof {
        assert(r@ =~= v@.reverse());
    }
    r
}

/// Builds one chain of the hull over candidates that are strictly monotone
/// in the lexicographic order.
#[verifier::rlimit(80)]
fn build_chain(u: &Vec<Point2>) -> (r: Vec<Point2>)
    requires
        all_bounded(u@),
        strictly_sorted(u@) || strictly_sorted_desc(u@),
    ensures
        r@ == chain_fold(Seq::empty(), u@),
        forall|k: int| 0 <= k < r@.len() ==> u@.contains(#[trigger] r@[k]),
        u@.len() > 0 ==> r@.len() >= 1 && r@[0] == u@[0] && r@.last() == u@.last(),
        u@.len() >= 2 ==> r@.len() >= 2,
        chain_turns(r@),
        strictly_sorted(u@) ==> strictly_sorted(r@),
        strictly_sorted_desc(u@) ==> strictly_sorted_desc(r@),
{
    broadcast use vstd::seq_lib::group_seq_properties;

    let mut h: Vec<Point2> = Vec::new();
    let mut i: usize = 0;
    while i < u.len()
        invariant
            i <= u.len(),
            all_bounded(u@),
            strictly_sorted(u@) || strictly_sorted_desc(u@),
            h@ == chain_fold(Seq::empty(), u@.take(i as int)),
            forall|k: int| 0 <= k < h@.len() ==> u@.take(i as int).contains(#[trigger] h@[k]),
            i > 0 ==> h@.len() >= 1 && h@[0] == u@[0] && h@.last() == u@[i as int - 1],
            i >= 2 ==> h@.len() >= 2,
            chain_turns(h@),
            strictly_sorted(u@) ==> strictly_sorted(h@),
            strictly_sorted_desc(u@) ==> strictly_sorted_desc(h@),
        decreases u.len() - i,
    {
        let p = u[i];
        let ghost h_entry = h@;
        while h.len() >= 2 && cross_le_zero(&h, &p)
            invariant
                all_bounded(u@),
                all_bounded(h@),
                bounded(p),
                chain_push(h_entry, p) == chain_push(h@, p),
                forall|k: int| 0 <= k < h@.len() ==> u@.take(i as int).contains(#[trigger] h@[k]),
                h_entry.len() > 0 ==> h@.len() >= 1 && h@[0] == h_entry[0],
                chain_turns(h@),
                strictly_sorted(h_entry) ==> strictly_sorted(h@),
                strictly_sorted_desc(h_entry) ==> strictly_sorted_desc(h@),
            decreases h@.len(),
        {
            let ghost before = h@;
            h.pop();
            proof {
                assert(h@ =~= before.drop_last());
                assert(chain_push(before, p) == chain_push(h@, p));
            }
        }
        let ghost h_pop = h@;
        h.push(p);
        proof {
            assert(chain_push(h_pop, p) == h_pop.push(p));
            assert(h@ == chain_push(h_entry, p));
            assert(u@.take(i as int + 1) =~= u@.take(i as int).push(p));
            lemma_chain_fold_snoc(Seq::empty(), u@.take(i as int), p);
            assert(h@ == chain_fold(Seq::empty(), u@.take(i as int + 1)));
            // the new point is one of the candidates seen so far
            assert forall|k: int| 0 <= k < h@.len() implies u@.take(i as int + 1).contains(
                #[trigger] h@[k],
            ) by {
                if k < h@.len() - 1 {
                    assert(h_pop.contains(h@[k]));
                    let m = choose|m: int|
                        0 <= m < u@.take(i as int).len() && u@.take(i as int)[m] == h@[k];
                    assert(u@.take(i as int + 1)[m] == h@[k]);
                } else {
                    assert(h@[k] == p);
                    assert(u@.take(i as int + 1)[i as int] == p);
                }
            }
            // every earlier chain point is strictly before (or after) p
            if h_pop.len() > 0 {
                assert forall|k: int| 0 <= k < h_pop.len() implies h_pop[k] != p && (
                strictly_sorted(u@) ==> lex_lt(h_pop[k], p)) && (strictly_sorted_desc(u@)
                    ==> lex_lt(p, h_pop[k])) by {
                    assert(h@[k] == h_pop[k]);
                    assert(u@.take(i as int).contains(h_pop[k]));
                    let m = choose|m: int|
                        0 <= m < u@.take(i as int).len() && (#[trigger] u@.take(i as int)[m])
                            == h_pop[k];
                    assert(u@.take(i as int)[m] == u@[m]);
                    assert(u@[m] == h_pop[k] && 0 <= m < i);
                    assert(u@[i as int] == p);
                    if strictly_sorted(u@) {
                        assert(lex_lt(u@[m], u@[i as int]));
                    } else {
                        assert(lex_lt(u@[i as int], u@[m]));
                    }
                }
            }
            if i >= 1 {
                assert(h@[0] == u@[0]) by {
                    if h_pop.len() > 0 {
                        assert(h@[0] == h_pop[0]);
                    }
                }
                // once first and current points both sit in the chain it has two
                assert(h@.len() >= 2) by {
                    assert(h@.last() == p);
                }
            }
        }
        i = i + 1;
    }
    proof {
        assert(u@.take(u@.len() as int) =~= u@);
    }
    h
}

/// Tests whether the chain's last two points fail to make a strict left turn
/// toward the candidate.
fn cross_le_zero(h: &Vec<Point2>, p: &Point2) -> (r: bool)
    requires
        h@.len() >= 2,
        all_bounded(h@),
        bounded(*p),
    ensures
        r == (cross(h@[h@.len() - 2], h@[h@.len() - 1], *p) <= 0),
{
    let c = cross_sign(h[h.len() - 2], h[h.len() - 1], *p);
    c <= 0
}


/// Computes the convex hull of the given points: sorts them, removes exact
/// duplicates, and joins the lower and upper monotone chains, dropping each
/// chain's final point. Three or more distinct points yield the hull in
/// counter-clockwise order starting at the lexicographically smallest point;
/// fewer are handed back sorted, a degenerate hull that draws nothing.
#[verifier::rlimit(100)]
pub fn convex_hull(points: &Vec<Point2>) -> (r: Vec<Point2>)
    requires
        all_bounded(points@),
    ensures
        r@ == hull_spec(points@),
        forall|k: int| 0 <= k < r@.len() ==> points@.contains(#[trigger] r@[k]),
        (r@.len() == 0) <==> (points@.len() == 0),
        canon(points@).len() < 3 ==> r@ == canon(points@),
        canon(points@).len() >= 3 ==> r@.len() >= 2 && chain_turns(lower_chain_of(points@))
            && chain_turns(upper_chain_of(points@)) && r@ == lower_chain_of(
            points@,
        ).drop_last() + upper_chain_of(points@).drop_last(),
        canon(points@).len() >= 3 ==> forall|k: int|
            0 <= k < points@.len() ==> point_in_hull(#[trigger] points@[k], r@),
{
    broadcast use vstd::seq_lib::group_seq_properties;

    let u = canonical_points(points);
    proof {
        assert forall|k: int| 0 <= k < u@.len() implies bounded(#[trigger] u@[k]) by {
            assert(u@.contains(u@[k]));
            assert(points@.contains(u@[k]));
            let m = choose|m: int| 0 <= m < points@.len() && points@[m] == u@[k];
        }
        if points@.len() > 0 {
            assert(points@.contains(points@[0]));
            assert(u@.contains(points@[0]));
        }
        if u@.len() > 0 {
            assert(u@.contains(u@[0]));
            assert(points@.contains(u@[0]));
        }
    }
    if u.len() < 3 {
        return u;
    }
    let lo = build_chain(&u);
    let urev = reversed(&u);
    proof {
        assert(strictly_sorted_desc(urev@)) by {
            assert forall|i: int, j: int| 0 <= i < j < urev@.len() implies lex_lt(
                urev@[j],
                urev@[i],
            ) by {
                assert(urev@[i] == u@[u@.len() - 1 - i]);
                assert(urev@[j] == u@[u@.len() - 1 - j]);
            }
        }
        assert(all_bounded(urev@)) by {
            assert forall|k: int| 0 <= k < urev@.len() implies bounded(#[trigger] urev@[k]) by {
                assert(urev@[k] == u@[u@.len() - 1 - k]);
            }
        }
    }
    let hi = build_chain(&urev);
    let ghost lo_seq = lo@;
    let mut r = lo;
    let _dropped = r.pop();
    let mut k: usize = 0;
    while k + 1 < hi.len()
        invariant
            k < hi@.len(),
            r@ == lo_seq.drop_last() + hi@.take(k as int),
        decreases hi.len() - k,
    {
        r.push(hi[k]);
        proof {
            assert(r@ =~= lo_seq.drop_last() + hi@.take(k as int + 1));
        }
        k = k + 1;
    }
    proof {
        assert(r@ =~= lo_seq.drop_last() + hi@.drop_last()) by {
            assert(k == hi@.len() - 1);
            assert(hi@.take(k as int) =~= hi@.drop_last());
        }
        assert(u@ == canon(points@));
        assert(lo_seq == lower_chain_of(points@));
        assert(urev@ == canon(points@).reverse());
        assert(hi@ == upper_chain_of(points@));
        assert(r@ == hull_spec(points@));
        assert(r@.len() >= 2);
        assert forall|k: int| 0 <= k < points@.len() implies point_in_hull(
            #[trigger] points@[k],
            r@,
        ) by {
            assert(points@.contains(points@[k]));
            lemma_hull_contains_points(points@, points@[k]);
        }
        assert forall|m: int| 0 <= m < r@.len() implies points@.contains(#[trigger] r@[m]) by {
            if m < lo_seq.len() - 1 {
                assert(r@[m] == lo_seq[m]);
                assert(u@.contains(lo_seq[m]));
                assert(points@.contains(lo_seq[m]));
            } else {
                let n = m - (lo_seq.len() - 1);
                assert(r@[m] == hi@[n]);
                assert(urev@.contains(hi@[n]));
                let t = choose|t: int| 0 <= t < urev@.len() && urev@[t] == hi@[n];
                assert(urev@[t] == u@[u@.len() - 1 - t]);
                assert(u@.contains(hi@[n]));
                assert(points@.contains(hi@[n]));
            }
        }
    }
    r
}


/// Law: the hull depends only on the set of input points. Reordering or
/// duplicating inputs leaves the polygon unchanged, starting index included.
pub proof fn lemma_hull_same_points(a: Seq<Point2>, b: Seq<Point2>)
    requires
        same_points(a, b),
    ensures
        hull_spec(a) == hull_spec(b),
{
    lemma_canon_same_points(a, b);
}

} // verus!
