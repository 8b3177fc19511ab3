//! Laws that every comparison obeys.

use vstd::prelude::*;
use crate::order::{lex_lt, strictly_sorted, lemma_lex_irreflexive, lemma_lex_transitive};
use crate::reconcile::ComparisonReport;
use crate::compare::{Failure, TreeListing, outcome};

verus! {

/// Two lexicographically sorted sequences without repeats that hold the same
/// members are the same sequence.
pub proof fn lemma_sorted_listing_unique(s: Seq<Seq<u8>>, t: Seq<Seq<u8>>)
    requires
        strictly_sorted(s),
        strictly_sorted(t),
        s.to_set() == t.to_set(),
    ensures
        s == t,
    decreases s.len(),
{
    if s.len() == 0 {
        if t.len() > 0 {
            assert(t.to_set().contains(t[0]));
        }
        assert(s =~= t);
    } else {
        assert(s.to_set().contains(s[0]));
        assert(t.to_set().contains(s[0]));
        let k = choose|k: int| 0 <= k < t.len() && t[k] == s[0];
        assert(t.to_set().contains(t[0]));
        assert(s.to_set().contains(t[0]));
        let m = choose|m: int| 0 <= m < s.len() && s[m] == t[0];
        if k > 0 {
            assert(lex_lt(t[0], t[k]));
            if m > 0 {
                assert(lex_lt(s[0], s[m]));
                lemma_lex_transitive(t[0], s[0], t[0]);
            }
            lemma_lex_irreflexive(t[0]);
        }
        assert(t[0] == s[0]);
        let s1 = s.drop_first();
        let t1 = t.drop_first();
        assert forall|x: Seq<u8>| s1.to_set().contains(x) implies t1.to_set().contains(x) by {
            let i = choose|i: int| 0 <= i < s1.len() && s1[i] == x;
            assert(lex_lt(s[0], s[i + 1]));
            lemma_lex_irreflexive(x);
            assert(t.to_set().contains(x));
            let j = choose|j: int| 0 <= j < t.len() && t[j] == x;
            assert(j != 0);
            assert(t1[j - 1] == x);
        }
        assert forall|x: Seq<u8>| t1.to_set().contains(x) implies s1.to_set().contains(x) by {
            let i = choose|i: int| 0 <= i < t1.len() && t1[i] == x;
            assert(lex_lt(t[0], t[i + 1]));
            lemma_lex_irreflexive(x);
            assert(s.to_set().contains(x));
            let j = choose|j: int| 0 <= j < s.len() && s[j] == x;
            assert(j != 0);
            assert(s1[j - 1] == x);
        }
        assert(s1.to_set() =~= t1.to_set());
        lemma_sorted_listing_unique(s1, t1);
        assert(s =~= seq![s[0]] + s1);
        assert(t =~= seq![t[0]] + t1);
    }
}

/// Comparing a tree with itself succeeds whenever its root is a directory and
/// its files lie under it, and then finds the trees identical, with nothing
/// on either side.
pub proof fn law_self_comparison(t: TreeListing, r: Result<ComparisonReport, Failure>)
    requires
        outcome(t, t, r),
    ensures
        t.root_is_dir && t.normalizable() ==> r is Ok,
        r is Ok ==> r->Ok_0.identical && r->Ok_0.a_only.len() == 0 && r->Ok_0.b_only.len() == 0,
{
    if r is Ok {
        let report = r->Ok_0;
        let ao = report.a_only.deep_view();
        let bo = report.b_only.deep_view();
        if ao.len() > 0 {
            assert(ao.to_set().contains(ao[0]));
        }
        if bo.len() > 0 {
            assert(bo.to_set().contains(bo[0]));
        }
    }
}

/// The two sides of a report never share a path, and comparing the trees the
/// other way round gives the same report with its sides swapped.
pub proof fn law_symmetry(
    a: TreeListing,
    b: TreeListing,
    r: Result<ComparisonReport, Failure>,
    swapped: Result<ComparisonReport, Failure>,
)
    requires
        outcome(a, b, r),
        outcome(b, a, swapped),
    ensures
        r is Ok <==> swapped is Ok,
        r is Ok ==> r->Ok_0.a_only.deep_view().to_set().disjoint(
            r->Ok_0.b_only.deep_view().to_set(),
        ),
        r is Ok ==> swapped->Ok_0.a_only.deep_view() == r->Ok_0.b_only.deep_view(),
        r is Ok ==> swapped->Ok_0.b_only.deep_view() == r->Ok_0.a_only.deep_view(),
        r is Ok ==> swapped->Ok_0.identical == r->Ok_0.identical,
{
    if r is Ok && swapped is Ok {
        let x = r->Ok_0;
        let y = swapped->Ok_0;
        lemma_sorted_listing_unique(y.a_only.deep_view(), x.b_only.deep_view());
        lemma_sorted_listing_unique(y.b_only.deep_view(), x.a_only.deep_view());
    }
}

/// Comparing the same two trees twice gives the same outcome.
pub proof fn law_repeatable(
    a: TreeListing,
    b: TreeListing,
    first: Result<ComparisonReport, Failure>,
    second: Result<ComparisonReport, Failure>,
)
    requires
        outcome(a, b, first),
        outcome(a, b, second),
    ensures
        first is Ok <==> second is Ok,
        first is Err ==> first->Err_0 == second->Err_0,
        first is Ok ==> first->Ok_0.identical == second->Ok_0.identical,
        first is Ok ==> first->Ok_0.a_only.deep_view() == second->Ok_0.a_only.deep_view(),
        first is Ok ==> first->Ok_0.b_only.deep_view() == second->Ok_0.b_only.deep_view(),
{
    if first is Ok && second is Ok {
        let x = first->Ok_0;
        let y = second->Ok_0;
        lemma_sorted_listing_unique(x.a_only.deep_view(), y.a_only.deep_view());
        lemma_sorted_listing_unique(x.b_only.deep_view(), y.b_only.deep_view());
    }
}

} // verus!
