//! The set reconciler: from the relative paths found under each root, the
//! paths found under one and not under the other.

use vstd::prelude::*;
use crate::order::{
    lex_lt,
    lex_le,
    sorted,
    strictly_sorted,
    lemma_lex_irreflexive,
    lemma_lex_transitive,
    lemma_lex_total,
    sort_paths,
    lex_less,
};

verus! {

proof fn lemma_bytes_deep_view(b: &Vec<u8>)
    ensures
        b.deep_view() == b@,
{
    assert(b.deep_view() =~= b@);
}

proof fn lemma_push_contains(s: Seq<Seq<u8>>, y: Seq<u8>)
    ensures
        forall|x: Seq<u8>| #[trigger] s.push(y).contains(x) <==> (s.contains(x) || x == y),
{
    assert forall|x: Seq<u8>| s.push(y).contains(x) <==> (s.contains(x) || x == y) by {
        if s.contains(x) {
            let p = choose|p: int| 0 <= p < s.len() && s[p] == x;
            assert(s.push(y)[p] == x);
        }
        if x == y {
            assert(s.push(y)[s.len() as int] == x);
        }
    }
}

/// The elements of a sorted sequence, each kept once.
fn dedup_sorted(v: &Vec<Vec<u8>>) -> (r: Vec<Vec<u8>>)
    requires
        sorted(v.deep_view()),
    ensures
        strictly_sorted(r.deep_view()),
        forall|x: Seq<u8>| #[trigger] r.deep_view().contains(x) <==> v.deep_view().contains(x),
{
    let ghost dv = v.deep_view();
    let mut r: Vec<Vec<u8>> = Vec::new();
    let mut i: usize = 0;
    while i < v.len()
        invariant
            i <= v.len(),
            dv == v.deep_view(),
            sorted(dv),
            strictly_sorted(r.deep_view()),
            forall|x: Seq<u8>| r.deep_view().contains(x) <==> dv.take(i as int).contains(x),
            i == 0 ==> r.len() == 0,
            i > 0 ==> r.len() > 0 && r.deep_view().last() == dv[i - 1],
        decreases v.len() - i,
    {
        let ghost rv = r.deep_view();
        proof {
            lemma_bytes_deep_view(&v[i as int]);
        }
        let fresh = if i == 0 {
            true
        } else {
            proof {
                lemma_bytes_deep_view(&v[i - 1]);
            }
            lex_less(&v[i - 1], &v[i])
        };
        if fresh {
            let item = v[i].clone();
            r.push(item);
            proof {
                assert(r.deep_view() =~= rv.push(dv[i as int]));
                if i > 0 {
                    assert(lex_lt(dv[i - 1], dv[i as int]));
                    assert forall|p: int| 0 <= p < rv.len() implies lex_lt(
                        #[trigger] rv[p],
                        dv[i as int],
                    ) by {
                        if p < rv.len() - 1 {
                            assert(lex_lt(rv[p], rv[rv.len() - 1]));
                            lemma_lex_transitive(rv[p], dv[i - 1], dv[i as int]);
                        }
                    }
                }
                lemma_push_contains(rv, dv[i as int]);
                assert forall|p: int, q: int| 0 <= p < q < r.len() implies lex_lt(
                    #[trigger] r.deep_view()[p],
                    #[trigger] r.deep_view()[q],
                ) by {
                    if q < rv.len() {
                        assert(lex_lt(rv[p], rv[q]));
                    } else {
                        assert(lex_lt(rv[p], dv[i as int]));
                    }
                }
            }
        } else {
            assert(lex_le(dv[i - 1], dv[i as int]));
            assert(dv.take(i as int)[i - 1] == dv[i as int]);
        }
        proof {
            assert(dv.take(i + 1) =~= dv.take(i as int).push(dv[i as int]));
            lemma_push_contains(dv.take(i as int), dv[i as int]);
            assert forall|x: Seq<u8>| r.deep_view().contains(x) <==> dv.take(i + 1).contains(x) by {
                assert(dv.take(i + 1).contains(x) <==> (dv.take(i as int).contains(x) || x == dv[i as int]));
                assert(rv.contains(x) <==> dv.take(i as int).contains(x));
                if fresh {
                    assert(r.deep_view().contains(x) <==> (rv.contains(x) || x == dv[i as int]));
                } else {
                    assert(r.deep_view() == rv);
                }
            }
        }
        i = i + 1;
    }
    assert(dv.take(i as int) =~= dv);
    r
}

/// The elements of `a` that are not in `b`, and those of `b` that are not
/// in `a`, found by one simultaneous pass over both sorted sequences.
fn merge_differences(a: &Vec<Vec<u8>>, b: &Vec<Vec<u8>>) -> (r: (Vec<Vec<u8>>, Vec<Vec<u8>>))
    requires
        strictly_sorted(a.deep_view()),
        strictly_sorted(b.deep_view()),
    ensures
        strictly_sorted(r.0.deep_view()),
        strictly_sorted(r.1.deep_view()),
        forall|x: Seq<u8>|
            #[trigger] r.0.deep_view().contains(x) <==> (a.deep_view().contains(x) && !b.deep_view().contains(x)),
        forall|x: Seq<u8>|
            #[trigger] r.1.deep_view().contains(x) <==> (b.deep_view().contains(x) && !a.deep_view().contains(x)),
{
    let ghost da = a.deep_view();
    let ghost db = b.deep_view();
    let mut a_only: Vec<Vec<u8>> = Vec::new();
    let mut b_only: Vec<Vec<u8>> = Vec::new();
    let mut i: usize = 0;
    let mut j: usize = 0;
    while i < a.len() || j < b.len()
        invariant
            i <= a.len(),
            j <= b.len(),
            da == a.deep_view(),
            db == b.deep_view(),
            strictly_sorted(da),
            strictly_sorted(db),
            strictly_sorted(a_only.deep_view()),
            strictly_sorted(b_only.deep_view()),
            forall|k: int| 0 <= k < j && i < da.len() ==> lex_lt(#[trigger] db[k], da[i as int]),
            forall|k: int| 0 <= k < i && j < db.len() ==> lex_lt(#[trigger] da[k], db[j as int]),
            forall|x: Seq<u8>|
                #[trigger] a_only.deep_view().contains(x) <==> (da.take(i as int).contains(x) && !db.contains(x)),
            forall|x: Seq<u8>|
                #[trigger] b_only.deep_view().contains(x) <==> (db.take(j as int).contains(x) && !da.contains(x)),
        decreases a.len() + b.len() - i - j,
    {
        let ghost ao = a_only.deep_view();
        let ghost bo = b_only.deep_view();
        let ghost i0 = i as int;
        let ghost j0 = j as int;
        if i < a.len() {
            proof {
                lemma_bytes_deep_view(&a[i0]);
            }
        }
        if j < b.len() {
            proof {
                lemma_bytes_deep_view(&b[j0]);
            }
        }
        if i < a.len() && (j == b.len() || lex_less(&a[i], &b[j])) {
            proof {
                let x = da[i0];
                assert forall|k: int| 0 <= k < db.len() implies #[trigger] db[k] != x by {
                    if k < j0 {
                        assert(lex_lt(db[k], x));
                    } else {
                        if k > j0 {
                            lemma_lex_transitive(x, db[j0], db[k]);
                        }
                    }
                    lemma_lex_irreflexive(x);
                }
                assert forall|p: int| 0 <= p < ao.len() implies lex_lt(#[trigger] ao[p], x) by {
                    assert(ao.contains(ao[p]));
                    assert(da.take(i0).contains(ao[p]));
                    let q = choose|q: int| 0 <= q < da.take(i0).len() && da.take(i0)[q] == ao[p];
                    assert(da.take(i0)[q] == da[q]);
                    assert(lex_lt(da[q], da[i0]));
                }
            }
            let item = a[i].clone();
            a_only.push(item);
            proof {
                let x = da[i0];
                assert(a_only.deep_view() =~= ao.push(x));
                lemma_push_contains(ao, x);
                lemma_push_contains(da.take(i0), x);
                assert(da.take(i0 + 1) =~= da.take(i0).push(x));
                assert forall|y: Seq<u8>| a_only.deep_view().contains(y) <==> (da.take(i0 + 1).contains(y)
                    && !db.contains(y)) by {
                    assert(a_only.deep_view().contains(y) <==> (ao.contains(y) || y == x));
                    assert(da.take(i0 + 1).contains(y) <==> (da.take(i0).contains(y) || y == x));
                }
                assert forall|p: int, q: int| 0 <= p < q < a_only.len() implies lex_lt(
                    #[trigger] a_only.deep_view()[p],
                    #[trigger] a_only.deep_view()[q],
                ) by {
                    if q < ao.len() {
                        assert(lex_lt(ao[p], ao[q]));
                    }
                }
                assert forall|k: int| 0 <= k < j0 && i0 + 1 < da.len() implies lex_lt(
                    #[trigger] db[k],
                    da[i0 + 1],
                ) by {
                    assert(lex_lt(da[i0], da[i0 + 1]));
                    lemma_lex_transitive(db[k], da[i0], da[i0 + 1]);
                }
            }
            i = i + 1;
        } else if j < b.len() && (i == a.len() || lex_less(&b[j], &a[i])) {
            proof {
                let x = db[j0];
                assert forall|k: int| 0 <= k < da.len() implies #[trigger] da[k] != x by {
                    if k < i0 {
                        assert(lex_lt(da[k], x));
                    } else {
                        if k > i0 {
                            lemma_lex_transitive(x, da[i0], da[k]);
                        }
                    }
                    lemma_lex_irreflexive(x);
                }
                assert forall|p: int| 0 <= p < bo.len() implies lex_lt(#[trigger] bo[p], x) by {
                    assert(bo.contains(bo[p]));
                    assert(db.take(j0).contains(bo[p]));
                    let q = choose|q: int| 0 <= q < db.take(j0).len() && db.take(j0)[q] == bo[p];
                    assert(db.take(j0)[q] == db[q]);
                    assert(lex_lt(db[q], db[j0]));
                }
            }
            let item = b[j].clone();
            b_only.push(item);
            proof {
                let x = db[j0];
                assert(b_only.deep_view() =~= bo.push(x));
                lemma_push_contains(bo, x);
                lemma_push_contains(db.take(j0), x);
                assert(db.take(j0 + 1) =~= db.take(j0).push(x));
                assert forall|y: Seq<u8>| b_only.deep_view().contains(y) <==> (db.take(j0 + 1).contains(y)
                    && !da.contains(y)) by {
                    assert(b_only.deep_view().contains(y) <==> (bo.contains(y) || y == x));
                    assert(db.take(j0 + 1).contains(y) <==> (db.take(j0).contains(y) || y == x));
                }
                assert forall|p: int, q: int| 0 <= p < q < b_only.len() implies lex_lt(
                    #[trigger] b_only.deep_view()[p],
                    #[trigger] b_only.deep_view()[q],
                ) by {
                    if q < bo.len() {
                        assert(lex_lt(bo[p], bo[q]));
                    }
                }
                assert forall|k: int| 0 <= k < i0 && j0 + 1 < db.len() implies lex_lt(
                    #[trigger] da[k],
                    db[j0 + 1],
                ) by {
                    assert(lex_lt(db[j0], db[j0 + 1]));
                    lemma_lex_transitive(da[k], db[j0], db[j0 + 1]);
                }
            }
            j = j + 1;
        } else {
            proof {
                let x = da[i0];
                if x != db[j0] {
                    lemma_lex_total(x, db[j0]);
                }
                assert(da.take(i0 + 1) =~= da.take(i0).push(x));
                assert(db.take(j0 + 1) =~= db.take(j0).push(x));
                lemma_push_contains(da.take(i0), x);
                lemma_push_contains(db.take(j0), x);
                assert(db.contains(x) && da.contains(x)) by {
                    assert(db[j0] == x);
                }
                assert forall|y: Seq<u8>| a_only.deep_view().contains(y) <==> (da.take(i0 + 1).contains(
                    y,
                ) && !db.contains(y)) by {
                    assert(da.take(i0 + 1).contains(y) <==> (da.take(i0).contains(y) || y == x));
                }
                assert forall|y: Seq<u8>| b_only.deep_view().contains(y) <==> (db.take(j0 + 1).contains(
                    y,
                ) && !da.contains(y)) by {
                    assert(db.take(j0 + 1).contains(y) <==> (db.take(j0).contains(y) || y == x));
                }
                assert forall|k: int| 0 <= k < j0 + 1 && i0 + 1 < da.len() implies lex_lt(
                    #[trigger] db[k],
                    da[i0 + 1],
                ) by {
                    assert(lex_lt(da[i0], da[i0 + 1]));
                    if k < j0 {
                        lemma_lex_transitive(db[k], da[i0], da[i0 + 1]);
                    }
                }
                assert forall|k: int| 0 <= k < i0 + 1 && j0 + 1 < db.len() implies lex_lt(
                    #[trigger] da[k],
                    db[j0 + 1],
                ) by {
                    assert(lex_lt(db[j0], db[j0 + 1]));
                    if k < i0 {
                        lemma_lex_transitive(da[k], db[j0], db[j0 + 1]);
                    }
                }
            }
            i = i + 1;
            j = j + 1;
        }
    }
    assert(da.take(i as int) =~= da);
    assert(db.take(j as int) =~= db);
    (a_only, b_only)
}

/// The paths of `a` that are not paths of `b`.
pub open spec fn one_sided(a: Seq<Seq<u8>>, b: Seq<Seq<u8>>) -> Set<Seq<u8>> {
    a.to_set().difference(b.to_set())
}

/// `s` lists the members of `m`, each once, in lexicographic order.
pub open spec fn lists(s: Seq<Seq<u8>>, m: Set<Seq<u8>>) -> bool {
    strictly_sorted(s) && s.to_set() == m
}

/// The outcome of reconciling two file sets.
#[derive(Debug, PartialEq, Eq)]
pub struct ComparisonReport {
    /// No path is found under one root and not under the other.
    pub identical: bool,
    /// The paths found under the first root only.
    pub a_only: Vec<Vec<u8>>,
    /// The paths found under the second root only.
    pub b_only: Vec<Vec<u8>>,
}

impl ComparisonReport {
    /// This report is the reconciliation of the file sets listed by `a` and `b`.
    pub open spec fn describes(self, a: Seq<Seq<u8>>, b: Seq<Seq<u8>>) -> bool {
        &&& lists(self.a_only.deep_view(), one_sided(a, b))
        &&& lists(self.b_only.deep_view(), one_sided(b, a))
        &&& self.identical == (a.to_set() == b.to_set())
    }
}

proof fn lemma_same_multiset_same_members(s: Seq<Seq<u8>>, t: Seq<Seq<u8>>)
    requires
        s.to_multiset() == t.to_multiset(),
    ensures
        forall|x: Seq<u8>| #[trigger] s.contains(x) <==> t.contains(x),
{
    assert forall|x: Seq<u8>| #[trigger] s.contains(x) <==> t.contains(x) by {
        s.to_multiset_ensures();
        t.to_multiset_ensures();
        assert(s.contains(x) <==> s.to_multiset().count(x) > 0);
        assert(t.contains(x) <==> t.to_multiset().count(x) > 0);
    }
}

/// Reconciles two file sets, given as the relative paths found under each
/// root (in any order, repeats allowed): the paths under the first root only
/// and those under the second root only, each listed once in lexicographic
/// order, and whether the two sets are equal. Both inputs are sorted first,
/// then walked side by side once.
pub fn reconcile(a: Vec<Vec<u8>>, b: Vec<Vec<u8>>) -> (r: ComparisonReport)
    ensures
        r.describes(a.deep_view(), b.deep_view()),
{
    let ghost da = a.deep_view();
    let ghost db = b.deep_view();
    let mut a = a;
    let mut b = b;
    sort_paths(&mut a);
    sort_paths(&mut b);
    proof {
        lemma_same_multiset_same_members(a.deep_view(), da);
        lemma_same_multiset_same_members(b.deep_view(), db);
    }
    let ua = dedup_sorted(&a);
    let ub = dedup_sorted(&b);
    let (a_only, b_only) = merge_differences(&ua, &ub);
    let identical = a_only.len() == 0 && b_only.len() == 0;
    proof {
        let ao = a_only.deep_view();
        let bo = b_only.deep_view();
        assert(ao.to_set() =~= one_sided(da, db));
        assert(bo.to_set() =~= one_sided(db, da));
        if identical {
            assert forall|x: Seq<u8>| da.contains(x) <==> db.contains(x) by {
                if da.contains(x) && !db.contains(x) {
                    assert(ao.contains(x));
                }
                if db.contains(x) && !da.contains(x) {
                    assert(bo.contains(x));
                }
            }
            assert(da.to_set() =~= db.to_set());
        } else if ao.len() > 0 {
            assert(ao.contains(ao[0]));
            assert(!da.to_set().contains(ao[0]) || !db.to_set().contains(ao[0]));
        } else {
            assert(bo.contains(bo[0]));
            assert(!da.to_set().contains(bo[0]) || !db.to_set().contains(bo[0]));
        }
    }
    ComparisonReport { identical, a_only, b_only }
}

} // verus!
