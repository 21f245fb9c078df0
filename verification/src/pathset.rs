//! A set of paths, kept as a strictly increasing list in the order that
//! `derive(Ord)` gives paths, so that it can be listed in that order.
use vstd::prelude::*;
use crate::path::{
    PathSeg, SegView, path_view, path_lt, path_eq, path_less, copy_path,
    lemma_path_lt_irreflexive, lemma_path_lt_transitive, lemma_path_lt_total,
    lemma_path_lt_asymmetric,
};

verus! {

/// Whether `s` is strictly increasing by `path_lt`.
pub open spec fn strictly_sorted(s: Seq<Seq<SegView>>) -> bool {
    forall|i: int, j: int| 0 <= i < j < s.len() ==> path_lt(#[trigger] s[i], #[trigger] s[j])
}

/// The values of a list of paths.
pub open spec fn paths_view(v: Seq<Vec<PathSeg>>) -> Seq<Seq<SegView>> {
    v.map_values(|p: Vec<PathSeg>| path_view(p@))
}

/// Two strictly increasing lists that hold the same paths are the same list:
/// the listing of a set in path order is unique.
pub proof fn lemma_sorted_unique(a: Seq<Seq<SegView>>, b: Seq<Seq<SegView>>)
    requires
        strictly_sorted(a),
        strictly_sorted(b),
        a.to_set() == b.to_set(),
    ensures
        a == b,
    decreases a.len() + b.len(),
{
    if a.len() == 0 {
        if b.len() > 0 {
            assert(b.to_set().contains(b[0]));
            assert(!a.to_set().contains(b[0]));
        }
        assert(a =~= b);
    } else if b.len() == 0 {
        assert(a.to_set().contains(a[0]));
    } else {
        // the first elements are both the least element
        assert(a.to_set().contains(a[0]));
        assert(b.to_set().contains(b[0]));
        assert(b.contains(a[0]));
        assert(a.contains(b[0]));
        let ia = choose|i: int| 0 <= i < a.len() && a[i] == b[0];
        let ib = choose|i: int| 0 <= i < b.len() && b[i] == a[0];
        if a[0] != b[0] {
            assert(ia > 0 && ib > 0);
            assert(path_lt(a[0], b[0]));
            assert(path_lt(b[0], a[0]));
            lemma_path_lt_asymmetric(a[0], b[0]);
        }
        let ra = a.drop_first();
        let rb = b.drop_first();
        assert forall|x: Seq<SegView>| ra.to_set().contains(x) implies rb.to_set().contains(x) by {
            let i = choose|i: int| 0 <= i < ra.len() && ra[i] == x;
            assert(a[i + 1] == x);
            assert(path_lt(a[0], x));
            assert(a.to_set().contains(x));
            assert(b.contains(x));
            let j = choose|j: int| 0 <= j < b.len() && b[j] == x;
            if j == 0 {
                lemma_path_lt_irreflexive(x);
            }
            assert(rb[j - 1] == x);
        }
        assert forall|x: Seq<SegView>| rb.to_set().contains(x) implies ra.to_set().contains(x) by {
            let i = choose|i: int| 0 <= i < rb.len() && rb[i] == x;
            assert(b[i + 1] == x);
            assert(path_lt(b[0], x));
            assert(b.to_set().contains(x));
            assert(a.contains(x));
            let j = choose|j: int| 0 <= j < a.len() && a[j] == x;
            if j == 0 {
                lemma_path_lt_irreflexive(x);
            }
            assert(ra[j - 1] == x);
        }
        assert(ra.to_set() =~= rb.to_set());
        lemma_sorted_unique(ra, rb);
        assert(a =~= seq![a[0]] + ra);
        assert(b =~= seq![b[0]] + rb);
    }
}

/// A finite set of paths.
pub struct PathSet {
    items: Vec<Vec<PathSeg>>,
}

impl PathSet {
    /// The paths of the set in increasing order.
    pub closed spec fn paths(&self) -> Seq<Seq<SegView>> {
        paths_view(self.items@)
    }

    /// The set's invariant: its list is strictly increasing.
    pub closed spec fn wf(&self) -> bool {
        strictly_sorted(self.paths())
    }

    /// The paths of the set.
    pub open spec fn view(&self) -> Set<Seq<SegView>> {
        self.paths().to_set()
    }

    /// The list is the increasing listing of the set.
    pub proof fn lemma_listing(&self)
        requires
            self.wf(),
        ensures
            strictly_sorted(self.paths()),
            self.paths().to_set() == self.view(),
            self.view().finite(),
            self.view().len() == self.paths().len(),
    {
        let s = self.paths();
        assert forall|i: int, j: int| 0 <= i < s.len() && 0 <= j < s.len() && i != j implies s[i]
            != s[j] by {
            if i < j {
                assert(path_lt(s[i], s[j]));
            } else {
                assert(path_lt(s[j], s[i]));
            }
            lemma_path_lt_irreflexive(s[i]);
        }
        assert(s.no_duplicates());
        s.unique_seq_to_set();
    }

    /// The empty set.
    pub fn new() -> (res: PathSet)
        ensures
            res.wf(),
            res.view() == Set::<Seq<SegView>>::empty(),
            res.paths().len() == 0,
    {
        let res = PathSet { items: Vec::new() };
        assert(res.paths().to_set() =~= Set::<Seq<SegView>>::empty());
        res
    }

    /// Number of paths in the set.
    pub fn len(&self) -> (n: usize)
        ensures
            n == self.paths().len(),
    {
        self.items.len()
    }

    /// Whether the set is empty.
    pub fn is_empty(&self) -> (r: bool)
        ensures
            r == (self.paths().len() == 0),
            r == (self.view() == Set::<Seq<SegView>>::empty()),
    {
        if self.items.len() == 0 {
            assert(self.paths().to_set() =~= Set::<Seq<SegView>>::empty());
            true
        } else {
            assert(self.paths().to_set().contains(self.paths()[0]));
            false
        }
    }

    /// Whether `p` is in the set.
    pub fn contains(&self, p: &[PathSeg]) -> (r: bool)
        ensures
            r == self.view().contains(path_view(p@)),
    {
        let mut i: usize = 0;
        while i < self.items.len()
            invariant
                i <= self.items@.len(),
                forall|j: int| 0 <= j < i ==> self.paths()[j] != path_view(p@),
            decreases self.items.len() - i,
        {
            if path_eq(self.items[i].as_slice(), p) {
                assert(self.paths()[i as int] == path_view(p@));
                assert(self.paths().contains(path_view(p@)));
                return true;
            }
            i = i + 1;
        }
        assert(!self.paths().contains(path_view(p@)));
        false
    }

    /// The paths of the set, in increasing order.
    pub fn to_vec(&self) -> (res: Vec<Vec<PathSeg>>)
        ensures
            paths_view(res@) == self.paths(),
    {
        let mut res: Vec<Vec<PathSeg>> = Vec::new();
        let mut i: usize = 0;
        while i < self.items.len()
            invariant
                i <= self.items@.len(),
                res@.len() == i,
                forall|j: int| 0 <= j < i ==> path_view(#[trigger] res@[j]@) == self.paths()[j],
            decreases self.items.len() - i,
        {
            let c = copy_path(self.items[i].as_slice());
            res.push(c);
            i = i + 1;
        }
        assert(paths_view(res@) =~= self.paths());
        res
    }

    /// Adds `p` to the set.
    pub fn insert(&mut self, p: &[PathSeg])
        requires
            old(self).wf(),
        ensures
            final(self).wf(),
            final(self).view() == old(self).view().insert(path_view(p@)),
    {
        let ghost pv = path_view(p@);
        let ghost s = self.paths();
        let n = self.items.len();
        let mut k: usize = 0;
        while k < n && path_less(self.items[k].as_slice(), p)
            invariant
                k <= n == self.items@.len(),
                s == self.paths(),
                pv == path_view(p@),
                forall|j: int| 0 <= j < k ==> path_lt(s[j], pv),
            decreases n - k,
        {
            k = k + 1;
        }
        if k < n && path_eq(self.items[k].as_slice(), p) {
            assert(s[k as int] == path_view(self.items@[k as int]@));
            assert(s.contains(pv));
            assert(s.to_set().contains(pv));
            assert(s.to_set().insert(pv) =~= s.to_set());
            return;
        }
        let c = copy_path(p);
        self.items.insert(k, c);
        proof {
            let t = self.paths();
            assert(t =~= s.insert(k as int, pv));
            if k < n {
                lemma_path_lt_total(s[k as int], pv);
            }
            assert forall|i: int, j: int| 0 <= i < j < t.len() implies path_lt(
                #[trigger] t[i],
                #[trigger] t[j],
            ) by {
                if j < k {
                } else if j == k {
                } else if i < k {
                    // t[i] < pv <= s[k] <= t[j]
                    if j - 1 > k {
                        lemma_path_lt_transitive(pv, s[k as int], s[j - 1]);
                    }
                    lemma_path_lt_transitive(s[i], pv, s[j - 1]);
                } else if i == k {
                    if j - 1 > k {
                        lemma_path_lt_transitive(pv, s[k as int], s[j - 1]);
                    }
                } else {
                    assert(path_lt(s[i - 1], s[j - 1]));
                }
            }
            assert forall|x: Seq<SegView>| t.to_set().contains(x) <==> s.to_set().insert(
                pv,
            ).contains(x) by {
                if t.contains(x) {
                    let i = choose|i: int| 0 <= i < t.len() && t[i] == x;
                    if i < k {
                        assert(s[i] == x);
                    } else if i > k {
                        assert(s[i - 1] == x);
                    }
                }
                if s.contains(x) {
                    let i = choose|i: int| 0 <= i < s.len() && s[i] == x;
                    if i < k {
                        assert(t[i] == x);
                    } else {
                        assert(t[i + 1] == x);
                    }
                }
                if x == pv {
                    assert(t[k as int] == x);
                }
            }
            assert(t.to_set() =~= s.to_set().insert(pv));
        }
    }

    /// Takes `p` out of the set.
    pub fn remove(&mut self, p: &[PathSeg])
        requires
            old(self).wf(),
        ensures
            final(self).wf(),
            final(self).view() == old(self).view().remove(path_view(p@)),
    {
        let ghost pv = path_view(p@);
        let ghost s = self.paths();
        let n = self.items.len();
        let mut k: usize = 0;
        while k < n && !path_eq(self.items[k].as_slice(), p)
            invariant
                k <= n == self.items@.len(),
                s == self.paths(),
                pv == path_view(p@),
                forall|j: int| 0 <= j < k ==> s[j] != pv,
            decreases n - k,
        {
            assert(s[k as int] == path_view(self.items@[k as int]@));
            k = k + 1;
        }
        if k == n {
            assert(!s.contains(pv));
            assert(s.to_set().remove(pv) =~= s.to_set());
            return;
        }
        let _ = self.items.remove(k);
        proof {
            let t = self.paths();
            assert(t =~= s.remove(k as int));
            assert(s[k as int] == path_view(old(self).items@[k as int]@));
            assert(s[k as int] == pv);
            assert forall|i: int, j: int| 0 <= i < j < t.len() implies path_lt(
                #[trigger] t[i],
                #[trigger] t[j],
            ) by {
                if i < k && j >= k {
                    assert(path_lt(s[i], s[j + 1]));
                } else if i >= k {
                    assert(path_lt(s[i + 1], s[j + 1]));
                }
            }
            assert forall|x: Seq<SegView>| t.to_set().contains(x) <==> s.to_set().remove(
                pv,
            ).contains(x) by {
                if t.contains(x) {
                    let i = choose|i: int| 0 <= i < t.len() && t[i] == x;
                    if i < k {
                        assert(s[i] == x);
                        assert(path_lt(s[i], s[k as int]));
                        lemma_path_lt_irreflexive(x);
                    } else {
                        assert(s[i + 1] == x);
                        assert(path_lt(s[k as int], s[i + 1]));
                        lemma_path_lt_irreflexive(x);
                    }
                }
                if s.contains(x) && x != pv {
                    let i = choose|i: int| 0 <= i < s.len() && s[i] == x;
                    if i < k {
                        assert(t[i] == x);
                    } else {
                        assert(i != k);
                        assert(t[i - 1] == x);
                    }
                }
            }
            assert(t.to_set() =~= s.to_set().remove(pv));
        }
    }
}

} // verus!
