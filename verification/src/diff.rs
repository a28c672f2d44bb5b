//! Line-level diff engine: a longest-common-subsequence alignment of two
//! line sequences into an edit script of `Same`, `Added` and `Removed`
//! lines, with the distance counting the non-`Same` operations. Ties
//! resolve by marking earlier lines `Same`, and on equal subproblem scores
//! by removing before adding, so the script is a function of the inputs.

use vstd::prelude::*;

use crate::strutil::str_eq;

verus! {

/// One tagged line of an edit script.
pub enum DiffLine {
    Same(String),
    Added(String),
    Removed(String),
}

/// The mathematical shape of one tagged line.
pub enum DiffOp {
    Same(Seq<char>),
    Added(Seq<char>),
    Removed(Seq<char>),
}

impl View for DiffLine {
    type V = DiffOp;

    open spec fn view(&self) -> DiffOp {
        match self {
            DiffLine::Same(l) => DiffOp::Same(l@),
            DiffLine::Added(l) => DiffOp::Added(l@),
            DiffLine::Removed(l) => DiffOp::Removed(l@),
        }
    }
}

impl DeepView for DiffLine {
    type V = DiffOp;

    open spec fn deep_view(&self) -> DiffOp {
        self.view()
    }
}

/// Length of a longest common subsequence of the two line sequences.
pub open spec fn lcs_len(x: Seq<Seq<char>>, y: Seq<Seq<char>>) -> int
    decreases x.len() + y.len(),
{
    if x.len() == 0 || y.len() == 0 {
        0
    } else if x[0] == y[0] {
        1 + lcs_len(x.drop_first(), y.drop_first())
    } else if lcs_len(x.drop_first(), y) >= lcs_len(x, y.drop_first()) {
        lcs_len(x.drop_first(), y)
    } else {
        lcs_len(x, y.drop_first())
    }
}

pub proof fn lemma_lcs_bounds(x: Seq<Seq<char>>, y: Seq<Seq<char>>)
    ensures
        0 <= lcs_len(x, y),
        lcs_len(x, y) <= x.len(),
        lcs_len(x, y) <= y.len(),
    decreases x.len() + y.len(),
{
    if x.len() == 0 || y.len() == 0 {
    } else {
        lemma_lcs_bounds(x.drop_first(), y.drop_first());
        lemma_lcs_bounds(x.drop_first(), y);
        lemma_lcs_bounds(x, y.drop_first());
    }
}

pub proof fn lemma_lcs_self(x: Seq<Seq<char>>)
    ensures
        lcs_len(x, x) == x.len(),
    decreases x.len(),
{
    if x.len() > 0 {
        lemma_lcs_self(x.drop_first());
    }
}

/// A common subsequence as long as both sequences means they are equal.
pub proof fn lemma_lcs_full(x: Seq<Seq<char>>, y: Seq<Seq<char>>)
    requires
        lcs_len(x, y) == x.len(),
        lcs_len(x, y) == y.len(),
    ensures
        x == y,
    decreases x.len() + y.len(),
{
    if x.len() == 0 || y.len() == 0 {
        assert(x =~= y);
    } else if x[0] == y[0] {
        lemma_lcs_bounds(x.drop_first(), y.drop_first());
        lemma_lcs_full(x.drop_first(), y.drop_first());
        assert forall|i: int| 0 <= i < x.len() implies x[i] == y[i] by {
            if i > 0 {
                assert(x.drop_first()[i - 1] == x[i]);
                assert(y.drop_first()[i - 1] == y[i]);
            }
        }
        assert(x =~= y);
    } else {
        lemma_lcs_bounds(x.drop_first(), y);
        lemma_lcs_bounds(x, y.drop_first());
    }
}

/// The edit script: matches are taken as early as possible; otherwise the
/// side with the better remaining score advances, removals first on ties.
pub open spec fn diff_spec(x: Seq<Seq<char>>, y: Seq<Seq<char>>) -> Seq<DiffOp>
    decreases x.len() + y.len(),
{
    if x.len() == 0 && y.len() == 0 {
        Seq::empty()
    } else if x.len() == 0 {
        seq![DiffOp::Added(y[0])] + diff_spec(x, y.drop_first())
    } else if y.len() == 0 {
        seq![DiffOp::Removed(x[0])] + diff_spec(x.drop_first(), y)
    } else if x[0] == y[0] {
        seq![DiffOp::Same(x[0])] + diff_spec(x.drop_first(), y.drop_first())
    } else if lcs_len(x.drop_first(), y) >= lcs_len(x, y.drop_first()) {
        seq![DiffOp::Removed(x[0])] + diff_spec(x.drop_first(), y)
    } else {
        seq![DiffOp::Added(y[0])] + diff_spec(x, y.drop_first())
    }
}

/// The number of non-`Same` operations.
pub open spec fn distance_spec(ops: Seq<DiffOp>) -> int
    decreases ops.len(),
{
    if ops.len() == 0 {
        0
    } else {
        (if ops[0] is Same {
            0int
        } else {
            1int
        }) + distance_spec(ops.drop_first())
    }
}

/// The number of `Added` operations.
pub open spec fn add_count(ops: Seq<DiffOp>) -> int
    decreases ops.len(),
{
    if ops.len() == 0 {
        0
    } else {
        (if ops[0] is Added {
            1int
        } else {
            0int
        }) + add_count(ops.drop_first())
    }
}

/// The number of `Removed` operations.
pub open spec fn rem_count(ops: Seq<DiffOp>) -> int
    decreases ops.len(),
{
    if ops.len() == 0 {
        0
    } else {
        (if ops[0] is Removed {
            1int
        } else {
            0int
        }) + rem_count(ops.drop_first())
    }
}

pub proof fn lemma_counts_cons(op: DiffOp, rest: Seq<DiffOp>)
    ensures
        distance_spec(seq![op] + rest) == (if op is Same {
            0int
        } else {
            1int
        }) + distance_spec(rest),
        add_count(seq![op] + rest) == (if op is Added {
            1int
        } else {
            0int
        }) + add_count(rest),
        rem_count(seq![op] + rest) == (if op is Removed {
            1int
        } else {
            0int
        }) + rem_count(rest),
{
    let s = seq![op] + rest;
    assert(s[0] == op);
    assert(s.drop_first() =~= rest);
}

pub proof fn lemma_counts_snoc(ops: Seq<DiffOp>, op: DiffOp)
    ensures
        distance_spec(ops.push(op)) == distance_spec(ops) + (if op is Same {
            0int
        } else {
            1int
        }),
        add_count(ops.push(op)) == add_count(ops) + (if op is Added {
            1int
        } else {
            0int
        }),
        rem_count(ops.push(op)) == rem_count(ops) + (if op is Removed {
            1int
        } else {
            0int
        }),
    decreases ops.len(),
{
    let p = ops.push(op);
    if ops.len() == 0 {
        assert(p[0] == op);
        assert(p.drop_first() =~= Seq::<DiffOp>::empty());
        assert(distance_spec(Seq::<DiffOp>::empty()) == 0);
        assert(add_count(Seq::<DiffOp>::empty()) == 0);
        assert(rem_count(Seq::<DiffOp>::empty()) == 0);
        assert(distance_spec(p) == (if op is Same {
            0int
        } else {
            1int
        }) + distance_spec(p.drop_first()));
        assert(add_count(p) == (if op is Added {
            1int
        } else {
            0int
        }) + add_count(p.drop_first()));
        assert(rem_count(p) == (if op is Removed {
            1int
        } else {
            0int
        }) + rem_count(p.drop_first()));
    } else {
        assert(p[0] == ops[0]);
        assert(p.drop_first() =~= ops.drop_first().push(op));
        lemma_counts_snoc(ops.drop_first(), op);
    }
}

/// The script's distance is exactly what the alignment misses: the lines
/// outside a longest common subsequence, on both sides.
pub proof fn lemma_diff_distance(x: Seq<Seq<char>>, y: Seq<Seq<char>>)
    ensures
        distance_spec(diff_spec(x, y)) == x.len() + y.len() - 2 * lcs_len(x, y),
    decreases x.len() + y.len(),
{
    if x.len() == 0 && y.len() == 0 {
    } else if x.len() == 0 {
        lemma_diff_distance(x, y.drop_first());
        lemma_counts_cons(DiffOp::Added(y[0]), diff_spec(x, y.drop_first()));
    } else if y.len() == 0 {
        lemma_diff_distance(x.drop_first(), y);
        lemma_counts_cons(DiffOp::Removed(x[0]), diff_spec(x.drop_first(), y));
    } else if x[0] == y[0] {
        lemma_diff_distance(x.drop_first(), y.drop_first());
        lemma_counts_cons(DiffOp::Same(x[0]), diff_spec(x.drop_first(), y.drop_first()));
    } else if lcs_len(x.drop_first(), y) >= lcs_len(x, y.drop_first()) {
        lemma_diff_distance(x.drop_first(), y);
        lemma_counts_cons(DiffOp::Removed(x[0]), diff_spec(x.drop_first(), y));
    } else {
        lemma_diff_distance(x, y.drop_first());
        lemma_counts_cons(DiffOp::Added(y[0]), diff_spec(x, y.drop_first()));
    }
}

/// The distance is zero exactly on equal inputs: diffing a sequence with
/// itself gives distance zero, and any line-for-line difference gives a
/// positive distance.
pub proof fn lemma_diff_zero_distance(x: Seq<Seq<char>>, y: Seq<Seq<char>>)
    ensures
        distance_spec(diff_spec(x, x)) == 0,
        x != y ==> distance_spec(diff_spec(x, y)) > 0,
{
    lemma_lcs_self(x);
    lemma_diff_distance(x, x);
    lemma_diff_distance(x, y);
    lemma_lcs_bounds(x, y);
    if x != y && distance_spec(diff_spec(x, y)) <= 0 {
        assert(lcs_len(x, y) == x.len());
        assert(lcs_len(x, y) == y.len());
        lemma_lcs_full(x, y);
    }
}

/// The edit script together with its distance.
pub struct EditScript {
    pub diffs: Vec<DiffLine>,
    pub distance: usize,
}

/// The counts of `Added` and `Removed` lines of a script.
pub fn get_diff(diffs: &Vec<DiffLine>) -> (r: (usize, usize))
    ensures
        r.0 == add_count(diffs.deep_view()),
        r.1 == rem_count(diffs.deep_view()),
{
    let ghost dv = diffs.deep_view();
    let mut add: usize = 0;
    let mut rem: usize = 0;
    let mut k: usize = 0;
    let n: usize = diffs.len();
    proof {
        assert(dv.take(0) =~= Seq::<DiffOp>::empty());
    }
    while k < n
        invariant
            0 <= k <= n,
            n == diffs@.len(),
            dv == diffs.deep_view(),
            dv.len() == n,
            add == add_count(dv.take(k as int)),
            rem == rem_count(dv.take(k as int)),
            add + rem <= k,
        decreases n - k,
    {
        proof {
            assert(dv.take(k + 1) =~= dv.take(k as int).push(dv[k as int]));
            lemma_counts_snoc(dv.take(k as int), dv[k as int]);
        }
        match &diffs[k] {
            DiffLine::Same(_) => {},
            DiffLine::Added(_) => {
                add = add + 1;
            },
            DiffLine::Removed(_) => {
                rem = rem + 1;
            },
        }
        k = k + 1;
    }
    proof {
        assert(dv.take(n as int) =~= dv);
    }
    (add, rem)
}

/// The number of non-`Same` lines of a script.
fn count_distance(diffs: &Vec<DiffLine>) -> (r: usize)
    ensures
        r == distance_spec(diffs.deep_view()),
{
    let ghost dv = diffs.deep_view();
    let mut dist: usize = 0;
    let mut k: usize = 0;
    let n: usize = diffs.len();
    proof {
        assert(dv.take(0) =~= Seq::<DiffOp>::empty());
    }
    while k < n
        invariant
            0 <= k <= n,
            n == diffs@.len(),
            dv == diffs.deep_view(),
            dv.len() == n,
            dist == distance_spec(dv.take(k as int)),
            dist <= k,
        decreases n - k,
    {
        proof {
            assert(dv.take(k + 1) =~= dv.take(k as int).push(dv[k as int]));
            lemma_counts_snoc(dv.take(k as int), dv[k as int]);
        }
        match &diffs[k] {
            DiffLine::Same(_) => {},
            DiffLine::Added(_) => {
                dist = dist + 1;
            },
            DiffLine::Removed(_) => {
                dist = dist + 1;
            },
        }
        k = k + 1;
    }
    proof {
        assert(dv.take(n as int) =~= dv);
    }
    dist
}

/// Computes the edit script between two line sequences.
pub fn diff(x: &Vec<String>, y: &Vec<String>) -> (r: EditScript)
    ensures
        r.diffs.deep_view() == diff_spec(x.deep_view(), y.deep_view()),
        r.distance == distance_spec(diff_spec(x.deep_view(), y.deep_view())),
{
    let ghost xv = x.deep_view();
    let ghost yv = y.deep_view();
    let n: usize = x.len();
    let m: usize = y.len();
    proof {
        assert(xv.len() == n);
        assert(yv.len() == m);
    }
    // Score table, one row per suffix of `x`, built from the last suffix
    // backwards: dp_rev[t][j] scores x's suffix from n - t against y's
    // suffix from j.
    let mut dp_rev: Vec<Vec<usize>> = Vec::new();
    let mut row0: Vec<usize> = Vec::new();
    while row0.len() <= m
        invariant
            row0@.len() <= m + 1,
            forall|jj: int| 0 <= jj < row0@.len() ==> row0@[jj] == 0,
        decreases m + 1 - row0@.len(),
    {
        row0.push(0);
    }
    proof {
        assert forall|jj: int| 0 <= jj <= m implies row0@[jj] == lcs_len(
            xv.skip(n as int),
            yv.skip(jj),
        ) by {
            assert(xv.skip(n as int).len() == 0);
        }
    }
    dp_rev.push(row0);
    while dp_rev.len() <= n
        invariant
            1 <= dp_rev@.len() <= n + 1,
            n == xv.len(),
            m == yv.len(),
            xv == x.deep_view(),
            yv == y.deep_view(),
            n == x@.len(),
            m == y@.len(),
            forall|t: int| 0 <= t < dp_rev@.len() ==> (#[trigger] dp_rev@[t])@.len() == m + 1,
            forall|t: int, jj: int|
                0 <= t < dp_rev@.len() && 0 <= jj <= m ==> #[trigger] dp_rev@[t]@[jj] == lcs_len(
                    xv.skip(n - t),
                    yv.skip(jj),
                ),
        decreases n + 1 - dp_rev@.len(),
    {
        let i: usize = n - dp_rev.len();
        let t: usize = dp_rev.len() - 1;
        let mut row: Vec<usize> = Vec::new();
        while row.len() <= m
            invariant
                row@.len() <= m + 1,
                forall|jj: int| 0 <= jj < row@.len() ==> row@[jj] == 0,
            decreases m + 1 - row@.len(),
        {
            row.push(0);
        }
        let mut j: usize = m;
        proof {
            assert(row@[m as int] == lcs_len(xv.skip(i as int), yv.skip(m as int))) by {
                assert(yv.skip(m as int).len() == 0);
            }
        }
        while j > 0
            invariant
                0 <= j <= m,
                n == xv.len(),
                m == yv.len(),
                xv == x.deep_view(),
                yv == y.deep_view(),
                n == x@.len(),
                m == y@.len(),
                i == n - dp_rev@.len(),
                t == dp_rev@.len() - 1,
                1 <= dp_rev@.len() <= n,
                row@.len() == m + 1,
                forall|tt: int| 0 <= tt < dp_rev@.len() ==> (#[trigger] dp_rev@[tt])@.len() == m
                    + 1,
                forall|tt: int, jj: int|
                    0 <= tt < dp_rev@.len() && 0 <= jj <= m ==> #[trigger] dp_rev@[tt]@[jj]
                        == lcs_len(xv.skip(n - tt), yv.skip(jj)),
                forall|jj: int|
                    j <= jj <= m ==> #[trigger] row@[jj] == lcs_len(xv.skip(i as int), yv.skip(jj)),
            decreases j,
        {
            j = j - 1;
            let v: usize;
            proof {
                lemma_lcs_bounds(xv.skip(i + 1), yv.skip(j + 1));
                lemma_lcs_bounds(xv.skip(i + 1), yv.skip(j as int));
                lemma_lcs_bounds(xv.skip(i as int), yv.skip(j + 1));
                assert(xv.skip(i as int)[0] == xv[i as int]);
                assert(yv.skip(j as int)[0] == yv[j as int]);
                assert(xv.skip(i as int).drop_first() =~= xv.skip(i + 1));
                assert(yv.skip(j as int).drop_first() =~= yv.skip(j + 1));
                assert(xv[i as int] == x@[i as int]@);
                assert(yv[j as int] == y@[j as int]@);
            }
            if str_eq(x[i].as_str(), y[j].as_str()) {
                v = 1 + dp_rev[t][j + 1];
            } else {
                let a: usize = dp_rev[t][j];
                let b: usize = row[j + 1];
                v = if a >= b {
                    a
                } else {
                    b
                };
            }
            let ghost rv = row@;
            row[j] = v;
            proof {
                assert(row@ =~= rv.update(j as int, v));
                assert(row@[j as int] == lcs_len(xv.skip(i as int), yv.skip(j as int)));
            }
        }
        dp_rev.push(row);
        proof {
            assert forall|tt: int, jj: int|
                0 <= tt < dp_rev@.len() && 0 <= jj <= m implies #[trigger] dp_rev@[tt]@[jj]
                == lcs_len(xv.skip(n - tt), yv.skip(jj)) by {
                if tt < dp_rev@.len() - 1 {
                } else {
                    assert(dp_rev@[tt] == row);
                }
            }
        }
    }
    // Walk the table from the front of both sequences, emitting the script.
    let mut ops: Vec<DiffLine> = Vec::new();
    let mut i: usize = 0;
    let mut j: usize = 0;
    proof {
        assert(ops.deep_view() =~= Seq::<DiffOp>::empty());
        assert(xv.skip(0) =~= xv);
        assert(yv.skip(0) =~= yv);
    }
    while i < n || j < m
        invariant
            0 <= i <= n,
            0 <= j <= m,
            n == xv.len(),
            m == yv.len(),
            xv == x.deep_view(),
            yv == y.deep_view(),
            n == x@.len(),
            m == y@.len(),
            dp_rev@.len() == n + 1,
            forall|t: int| 0 <= t <= n ==> (#[trigger] dp_rev@[t])@.len() == m + 1,
            forall|t: int, jj: int|
                0 <= t <= n && 0 <= jj <= m ==> #[trigger] dp_rev@[t]@[jj] == lcs_len(
                    xv.skip(n - t),
                    yv.skip(jj),
                ),
            diff_spec(xv, yv) == ops.deep_view() + diff_spec(xv.skip(i as int), yv.skip(j as int)),
        decreases n - i + m - j,
    {
        let ghost ov = ops.deep_view();
        let ghost xs = xv.skip(i as int);
        let ghost ys = yv.skip(j as int);
        proof {
            if i < n {
                assert(xs[0] == xv[i as int]);
                assert(xs.drop_first() =~= xv.skip(i + 1));
                assert(xv[i as int] == x@[i as int]@);
            }
            if j < m {
                assert(ys[0] == yv[j as int]);
                assert(ys.drop_first() =~= yv.skip(j + 1));
                assert(yv[j as int] == y@[j as int]@);
            }
        }
        if i == n {
            ops.push(DiffLine::Added(y[j].clone()));
            proof {
                assert(ops.deep_view() =~= ov.push(DiffOp::Added(ys[0])));
                assert(diff_spec(xs, ys) == seq![DiffOp::Added(ys[0])] + diff_spec(
                    xs,
                    ys.drop_first(),
                ));
                assert(ov.push(DiffOp::Added(ys[0])) + diff_spec(xv.skip(i as int), yv.skip(j + 1))
                    =~= ov + (seq![DiffOp::Added(ys[0])] + diff_spec(xs, ys.drop_first())));
            }
            j = j + 1;
        } else if j == m {
            ops.push(DiffLine::Removed(x[i].clone()));
            proof {
                assert(ops.deep_view() =~= ov.push(DiffOp::Removed(xs[0])));
                assert(diff_spec(xs, ys) == seq![DiffOp::Removed(xs[0])] + diff_spec(
                    xs.drop_first(),
                    ys,
                ));
                assert(ov.push(DiffOp::Removed(xs[0])) + diff_spec(xv.skip(i + 1), yv.skip(j as int))
                    =~= ov + (seq![DiffOp::Removed(xs[0])] + diff_spec(xs.drop_first(), ys)));
            }
            i = i + 1;
        } else if str_eq(x[i].as_str(), y[j].as_str()) {
            ops.push(DiffLine::Same(x[i].clone()));
            proof {
                assert(ops.deep_view() =~= ov.push(DiffOp::Same(xs[0])));
                assert(diff_spec(xs, ys) == seq![DiffOp::Same(xs[0])] + diff_spec(
                    xs.drop_first(),
                    ys.drop_first(),
                ));
                assert(ov.push(DiffOp::Same(xs[0])) + diff_spec(xv.skip(i + 1), yv.skip(j + 1)) =~= ov
                    + (seq![DiffOp::Same(xs[0])] + diff_spec(xs.drop_first(), ys.drop_first())));
            }
            i = i + 1;
            j = j + 1;
        } else {
            let a: usize = dp_rev[n - i - 1][j];
            let b: usize = dp_rev[n - i][j + 1];
            proof {
                assert(a == lcs_len(xv.skip(i + 1), yv.skip(j as int)));
                assert(b == lcs_len(xv.skip(i as int), yv.skip(j + 1)));
                assert(xs.drop_first() =~= xv.skip(i + 1));
                assert(ys.drop_first() =~= yv.skip(j + 1));
            }
            if a >= b {
                ops.push(DiffLine::Removed(x[i].clone()));
                proof {
                    assert(ops.deep_view() =~= ov.push(DiffOp::Removed(xs[0])));
                    assert(diff_spec(xs, ys) == seq![DiffOp::Removed(xs[0])] + diff_spec(
                        xs.drop_first(),
                        ys,
                    ));
                    assert(ov.push(DiffOp::Removed(xs[0])) + diff_spec(
                        xv.skip(i + 1),
                        yv.skip(j as int),
                    ) =~= ov + (seq![DiffOp::Removed(xs[0])] + diff_spec(xs.drop_first(), ys)));
                }
                i = i + 1;
            } else {
                ops.push(DiffLine::Added(y[j].clone()));
                proof {
                    assert(ops.deep_view() =~= ov.push(DiffOp::Added(ys[0])));
                    assert(diff_spec(xs, ys) == seq![DiffOp::Added(ys[0])] + diff_spec(
                        xs,
                        ys.drop_first(),
                    ));
                    assert(ov.push(DiffOp::Added(ys[0])) + diff_spec(
                        xv.skip(i as int),
                        yv.skip(j + 1),
                    ) =~= ov + (seq![DiffOp::Added(ys[0])] + diff_spec(xs, ys.drop_first())));
                }
                j = j + 1;
            }
        }
    }
    proof {
        assert(diff_spec(xv.skip(n as int), yv.skip(m as int)) =~= Seq::<DiffOp>::empty());
        assert(ops.deep_view() + Seq::<DiffOp>::empty() =~= ops.deep_view());
    }
    let distance = count_distance(&ops);
    EditScript { diffs: ops, distance }
}

} // verus!
