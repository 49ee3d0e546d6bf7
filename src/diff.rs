//! Comparing partitions by membership alone: each partition becomes a set of
//! sets of identifiers, and two partitions are compared as such sets.
use vstd::prelude::*;
use crate::order::{
    lemma_insert_to_set, lemma_list_lt_total, lemma_lower_bound, lemma_orders_strict,
    lemma_sorted_unique, lemma_str_lt_total, list_lower_bound, list_lt, list_lt_fn, lists_equal,
    lists_strictly_sorted, sorted_by, str_lower_bound, str_lt, str_lt_fn, strict_order,
    strictly_sorted,
};

verus! {

/// The member sets of the clusters of `p`, cluster by cluster.
pub open spec fn member_sets(p: Seq<Seq<Seq<char>>>) -> Seq<Set<Seq<char>>> {
    p.map_values(|c: Seq<Seq<char>>| c.to_set())
}

/// A partition as a set of sets: cluster order, member order, numbering and
/// repeated identifiers are all forgotten.
pub open spec fn set_of_sets_spec(p: Seq<Seq<Seq<char>>>) -> Set<Set<Seq<char>>> {
    member_sets(p).to_set()
}

/// Appending `x` to a sequence adds `x` to its set.
pub proof fn lemma_push_to_set<A>(s: Seq<A>, x: A)
    ensures
        s.push(x).to_set() == s.to_set().insert(x),
{
    assert forall|y: A| #[trigger] s.push(x).contains(y) <==> s.to_set().insert(x).contains(y) by {
        if s.contains(y) {
            let j = choose|j: int| 0 <= j < s.len() && s[j] == y;
            assert(s.push(x)[j] == y);
        }
        if y == x {
            assert(s.push(x)[s.len() as int] == x);
        }
        if s.push(x).contains(y) {
            let j = choose|j: int| 0 <= j < s.push(x).len() && s.push(x)[j] == y;
            if j < s.len() {
                assert(s[j] == y);
            }
        }
    }
    assert(s.push(x).to_set() =~= s.to_set().insert(x));
}

/// The outcome of comparing partitions `a` and `b`: the member sets only
/// `a` has, and those only `b` has.
pub open spec fn diff_spec(a: Seq<Seq<Seq<char>>>, b: Seq<Seq<Seq<char>>>) -> (Set<Set<Seq<char>>>, Set<Set<Seq<char>>>) {
    (
        set_of_sets_spec(a).difference(set_of_sets_spec(b)),
        set_of_sets_spec(b).difference(set_of_sets_spec(a)),
    )
}

/// A sorted list of identifiers is the only one with its members.
proof fn lemma_sorted_members_unique(a: Seq<Seq<char>>, b: Seq<Seq<char>>)
    requires
        strictly_sorted(a),
        strictly_sorted(b),
        a.to_set() == b.to_set(),
    ensures
        a == b,
{
    lemma_orders_strict();
    lemma_sorted_unique(a, b, str_lt_fn());
}

/// A canonical form is determined by its set of sets: two with the same
/// clusters list them identically.
pub proof fn lemma_listing_determined(a: ClusterSets, b: ClusterSets)
    requires
        a.wf(),
        b.wf(),
        a@ == b@,
    ensures
        a.listing() == b.listing(),
{
    let (la, lb) = (a.listing(), b.listing());
    let (ma, mb) = (member_sets(la), member_sets(lb));
    assert forall|x: Seq<Seq<char>>| la.to_set().contains(x) implies lb.to_set().contains(x) by {
        let i = choose|i: int| 0 <= i < la.len() && la[i] == x;
        assert(ma[i] == x.to_set());
        assert(ma.to_set().contains(x.to_set()));
        assert(mb.to_set().contains(x.to_set()));
        let j = choose|j: int| 0 <= j < mb.len() && mb[j] == x.to_set();
        assert(strictly_sorted(lb[j]));
        lemma_sorted_members_unique(lb[j], x);
        assert(lb[j] == x);
    }
    assert forall|x: Seq<Seq<char>>| lb.to_set().contains(x) implies la.to_set().contains(x) by {
        let i = choose|i: int| 0 <= i < lb.len() && lb[i] == x;
        assert(mb[i] == x.to_set());
        assert(mb.to_set().contains(x.to_set()));
        assert(ma.to_set().contains(x.to_set()));
        let j = choose|j: int| 0 <= j < ma.len() && ma[j] == x.to_set();
        assert(strictly_sorted(la[j]));
        lemma_sorted_members_unique(la[j], x);
        assert(la[j] == x);
    }
    assert(la.to_set() =~= lb.to_set());
    lemma_orders_strict();
    lemma_sorted_unique(la, lb, list_lt_fn());
}

/// Canonicalizing the clusters of a canonical form again gives the same
/// canonical form, listed identically.
pub proof fn lemma_canonical_twice(p: Seq<Seq<Seq<char>>>, once: ClusterSets, twice: ClusterSets)
    requires
        once.wf(),
        once@ == set_of_sets_spec(p),
        twice.wf(),
        twice@ == set_of_sets_spec(once.listing()),
    ensures
        twice@ == once@,
        twice.listing() == once.listing(),
{
    lemma_listing_determined(twice, once);
}

/// The canonical form depends only on which member sets occur, and how
/// often: reordering the clusters, or the members within a cluster, leaves it
/// unchanged.
pub proof fn lemma_canonical_order_independent(p: Seq<Seq<Seq<char>>>, q: Seq<Seq<Seq<char>>>)
    requires
        member_sets(p).to_multiset() == member_sets(q).to_multiset(),
    ensures
        set_of_sets_spec(p) == set_of_sets_spec(q),
{
    let (mp, mq) = (member_sets(p), member_sets(q));
    assert forall|x: Set<Seq<char>>| mp.contains(x) <==> mq.contains(x) by {
        vstd::seq_lib::to_multiset_contains(mp, x);
        vstd::seq_lib::to_multiset_contains(mq, x);
    }
    assert(set_of_sets_spec(p) =~= set_of_sets_spec(q));
}

/// A partition compared with itself is equal to it, with nothing on either
/// side.
pub proof fn lemma_diff_reflexive(p: Seq<Seq<Seq<char>>>)
    ensures
        diff_spec(p, p).0 == Set::<Set<Seq<char>>>::empty(),
        diff_spec(p, p).1 == Set::<Set<Seq<char>>>::empty(),
        set_of_sets_spec(p) == set_of_sets_spec(p),
{
    assert(diff_spec(p, p).0 =~= Set::<Set<Seq<char>>>::empty());
    assert(diff_spec(p, p).1 =~= Set::<Set<Seq<char>>>::empty());
}

/// Two partitions without clusters compare equal.
pub proof fn lemma_empty_partitions_equal()
    ensures
        set_of_sets_spec(Seq::empty()) == Set::<Set<Seq<char>>>::empty(),
        diff_spec(Seq::empty(), Seq::empty()).0 == Set::<Set<Seq<char>>>::empty(),
        diff_spec(Seq::empty(), Seq::empty()).1 == Set::<Set<Seq<char>>>::empty(),
{
    assert(set_of_sets_spec(Seq::empty()) =~= Set::<Set<Seq<char>>>::empty());
    lemma_diff_reflexive(Seq::empty());
}

/// What only A has when A is compared with B is what only the second has
/// when B is compared with A, and the other way round.
pub proof fn lemma_diff_symmetric(a: Seq<Seq<Seq<char>>>, b: Seq<Seq<Seq<char>>>)
    ensures
        diff_spec(a, b).0 == diff_spec(b, a).1,
        diff_spec(a, b).1 == diff_spec(b, a).0,
{
}

/// Two partitions are equal exactly when neither has a cluster that the
/// other lacks.
pub proof fn lemma_equal_iff_no_difference(a: Seq<Seq<Seq<char>>>, b: Seq<Seq<Seq<char>>>)
    ensures
        (set_of_sets_spec(a) == set_of_sets_spec(b)) == (diff_spec(a, b).0.is_empty() && diff_spec(a, b).1.is_empty()),
{
    let (sa, sb) = (set_of_sets_spec(a), set_of_sets_spec(b));
    if diff_spec(a, b).0.is_empty() && diff_spec(a, b).1.is_empty() {
        assert forall|x| sa.contains(x) <==> sb.contains(x) by {
            if sa.contains(x) && !sb.contains(x) {
                assert(diff_spec(a, b).0.contains(x));
            }
            if sb.contains(x) && !sa.contains(x) {
                assert(diff_spec(a, b).1.contains(x));
            }
        }
        assert(sa =~= sb);
    }
    if sa == sb {
        assert(diff_spec(a, b).0 =~= Set::empty());
        assert(diff_spec(a, b).1 =~= Set::empty());
    }
}

/// A copy of `v`.
fn copy_strings(v: &Vec<String>) -> (r: Vec<String>)
    ensures
        r.deep_view() == v.deep_view(),
{
    let mut r: Vec<String> = Vec::new();
    let mut i: usize = 0;
    while i < v.len()
        invariant
            i <= v@.len(),
            r.deep_view() == v.deep_view().subrange(0, i as int),
        decreases v@.len() - i,
    {
        let ghost before = r.deep_view();
        r.push(v[i].clone());
        assert(r.deep_view() =~= before.push(v.deep_view()[i as int]));
        i += 1;
        assert(r.deep_view() =~= v.deep_view().subrange(0, i as int));
    }
    assert(v.deep_view().subrange(0, i as int) =~= v.deep_view());
    r
}

/// The identifiers of `c`, each once, in lexicographic order.
fn sorted_members(c: &Vec<String>) -> (r: Vec<String>)
    ensures
        r.deep_view().to_set() == c.deep_view().to_set(),
        r.deep_view().no_duplicates(),
        strictly_sorted(r.deep_view()),
{
    proof {
        lemma_orders_strict();
    }
    let mut r: Vec<String> = Vec::new();
    let mut i: usize = 0;
    while i < c.len()
        invariant
            i <= c@.len(),
            r.deep_view().no_duplicates(),
            strictly_sorted(r.deep_view()),
            r.deep_view().to_set() == c.deep_view().subrange(0, i as int).to_set(),
            strict_order(str_lt_fn()),
            forall|s: Seq<Seq<char>>| strictly_sorted(s) ==> #[trigger] sorted_by(s, str_lt_fn()),
        decreases c@.len() - i,
    {
        let ghost before = r.deep_view();
        let ghost seen = c.deep_view().subrange(0, i as int);
        let ghost next = c.deep_view().subrange(0, i + 1);
        let ghost x = c.deep_view()[i as int];
        assert(next =~= seen.push(x));
        proof {
            lemma_push_to_set(seen, x);
        }
        let k = str_lower_bound(&r, c[i].as_str());
        let found = k < r.len() && r[k] == c[i];
        proof {
            assert(sorted_by(before, str_lt_fn()));
            lemma_lower_bound(before, x, k as int, str_lt_fn());
        }
        if !found {
            r.insert(k, c[i].clone());
            assert(r.deep_view() =~= before.insert(k as int, x));
            proof {
                lemma_insert_to_set(before, k as int, x);
                before.insert_ensures(k as int, x);
                let n = r.deep_view();
                assert forall|j: int| 0 <= j < n.len() - 1 implies #[trigger] str_lt(n[j], n[j + 1]) by {
                    if j + 1 < k {
                        assert(str_lt(before[j], before[j + 1]));
                    } else if j == k {
                        lemma_str_lt_total(before[k as int], x);
                    } else if j > k {
                        assert(n[j] == before[j - 1]);
                        assert(str_lt(before[j - 1], before[j]));
                    }
                }
            }
        } else {
            assert(before.contains(x));
        }
        assert(r.deep_view().to_set() =~= next.to_set());
        i += 1;
    }
    assert(c.deep_view().subrange(0, i as int) =~= c.deep_view());
    r
}

/// In a listing of sorted clusters, a sorted cluster's member set occurs
/// exactly where the cluster itself does.
proof fn lemma_member_sets_contains(la: Seq<Seq<Seq<char>>>, cs: Seq<Seq<char>>)
    requires
        forall|i: int| 0 <= i < la.len() ==> strictly_sorted(#[trigger] la[i]),
        strictly_sorted(cs),
    ensures
        member_sets(la).contains(cs.to_set()) == la.contains(cs),
{
    let ms = member_sets(la);
    if ms.contains(cs.to_set()) {
        let j = choose|j: int| 0 <= j < ms.len() && ms[j] == cs.to_set();
        assert(strictly_sorted(la[j]));
        lemma_sorted_members_unique(la[j], cs);
        assert(la[j] == cs);
    }
    if la.contains(cs) {
        let j = choose|j: int| 0 <= j < la.len() && la[j] == cs;
        assert(ms[j] == cs.to_set());
    }
}

/// A partition in canonical form: clusters as sets of identifiers, each set
/// once.
pub struct ClusterSets {
    sets: Vec<Vec<String>>,
}

impl View for ClusterSets {
    type V = Set<Set<Seq<char>>>;

    closed spec fn view(&self) -> Set<Set<Seq<char>>> {
        set_of_sets_spec(self.sets.deep_view())
    }
}

impl ClusterSets {
    /// The clusters as listed: each a sorted list of distinct identifiers,
    /// no two with the same members, in lexicographic order.
    pub closed spec fn listing(&self) -> Seq<Seq<Seq<char>>> {
        self.sets.deep_view()
    }

    /// The form that canonical values keep.
    pub open spec fn wf(&self) -> bool {
        &&& forall|i: int| 0 <= i < self.listing().len() ==> (#[trigger] self.listing()[i]).no_duplicates()
        &&& forall|i: int| 0 <= i < self.listing().len() ==> strictly_sorted(#[trigger] self.listing()[i])
        &&& lists_strictly_sorted(self.listing())
        &&& member_sets(self.listing()).no_duplicates()
        &&& set_of_sets_spec(self.listing()) == self@
    }

    /// No cluster at all.
    pub fn new() -> (r: Self)
        ensures
            r.wf(),
            r@ == Set::<Set<Seq<char>>>::empty(),
            r.listing().len() == 0,
    {
        let r = ClusterSets { sets: Vec::new() };
        assert(r@ =~= Set::<Set<Seq<char>>>::empty());
        r
    }

    /// The clusters, each as a sorted list of distinct identifiers, in
    /// lexicographic order.
    pub fn clusters(&self) -> (r: &Vec<Vec<String>>)
        ensures
            r.deep_view() == self.listing(),
    {
        &self.sets
    }

    /// The number of distinct clusters.
    pub fn len(&self) -> (r: usize)
        requires
            self.wf(),
        ensures
            r == self@.len(),
            r == self.listing().len(),
    {
        proof {
            member_sets(self.listing()).unique_seq_to_set();
        }
        self.sets.len()
    }

    /// Whether some cluster has exactly the identifiers of `c`.
    pub fn contains_cluster(&self, c: &Vec<String>) -> (r: bool)
        requires
            self.wf(),
        ensures
            r == self@.contains(c.deep_view().to_set()),
    {
        let s = sorted_members(c);
        let k = list_lower_bound(&self.sets, &s);
        let r = k < self.sets.len() && lists_equal(&self.sets[k], &s);
        proof {
            lemma_orders_strict();
            lemma_lower_bound(self.listing(), s.deep_view(), k as int, list_lt_fn());
            lemma_member_sets_contains(self.listing(), s.deep_view());
        }
        r
    }

    /// Adds `c`, whose identifiers are distinct and sorted, unless a cluster
    /// with the same identifiers is there already.
    fn insert_distinct(&mut self, c: Vec<String>)
        requires
            old(self).wf(),
            c.deep_view().no_duplicates(),
            strictly_sorted(c.deep_view()),
        ensures
            final(self).wf(),
            final(self)@ == old(self)@.insert(c.deep_view().to_set()),
    {
        let ghost before = self.sets.deep_view();
        let ghost cs = c.deep_view();
        let k = list_lower_bound(&self.sets, &c);
        let found = k < self.sets.len() && lists_equal(&self.sets[k], &c);
        proof {
            lemma_orders_strict();
            lemma_lower_bound(before, cs, k as int, list_lt_fn());
            lemma_member_sets_contains(before, cs);
        }
        if !found {
            self.sets.insert(k, c);
            assert(self.sets.deep_view() =~= before.insert(k as int, cs));
            assert(member_sets(self.sets.deep_view()) =~= member_sets(before).insert(k as int, cs.to_set()));
            proof {
                let ms = member_sets(before);
                lemma_insert_to_set(ms, k as int, cs.to_set());
                before.insert_ensures(k as int, cs);
                let n = self.sets.deep_view();
                assert forall|i: int| 0 <= i < n.len() implies strictly_sorted(#[trigger] n[i]) by {
                    if i < k {
                        assert(n[i] == before[i]);
                    } else if i > k {
                        assert(n[i] == before[i - 1]);
                    }
                }
                assert forall|j: int| 0 <= j < n.len() - 1 implies #[trigger] list_lt(n[j], n[j + 1]) by {
                    if j + 1 < k {
                        assert(list_lt(before[j], before[j + 1]));
                    } else if j == k {
                        lemma_list_lt_total(before[k as int], cs);
                    } else if j > k {
                        assert(n[j] == before[j - 1]);
                        assert(list_lt(before[j - 1], before[j]));
                    }
                }
            }
            assert(self@ =~= old(self)@.insert(cs.to_set()));
        } else {
            assert(self@ =~= old(self)@.insert(c.deep_view().to_set()));
        }
    }

    /// The clusters of `self` that `other` does not have.
    pub fn difference(&self, other: &ClusterSets) -> (r: ClusterSets)
        requires
            self.wf(),
            other.wf(),
        ensures
            r.wf(),
            r@ == self@.difference(other@),
    {
        let mut r = ClusterSets::new();
        let ghost ms = member_sets(self.sets.deep_view());
        let mut i: usize = 0;
        while i < self.sets.len()
            invariant
                i <= self.sets@.len(),
                self.wf(),
                other.wf(),
                ms == member_sets(self.sets.deep_view()),
                r.wf(),
                r@ == ms.subrange(0, i as int).to_set().difference(other@),
            decreases self.sets@.len() - i,
        {
            let ghost next = ms.subrange(0, i + 1);
            assert(next =~= ms.subrange(0, i as int).push(ms[i as int]));
            proof {
                lemma_push_to_set(ms.subrange(0, i as int), ms[i as int]);
            }
            assert(ms[i as int] == self.sets.deep_view()[i as int].to_set());
            if !other.contains_cluster(&self.sets[i]) {
                let c = copy_strings(&self.sets[i]);
                assert(c.deep_view() == self.listing()[i as int]);
                r.insert_distinct(c);
            }
            assert(r@ =~= next.to_set().difference(other@));
            i += 1;
        }
        assert(ms.subrange(0, i as int) =~= ms);
        r
    }
}

/// The canonical form of a partition: its clusters as sets of identifiers.
pub fn to_set_of_sets(clusters: Vec<Vec<String>>) -> (r: ClusterSets)
    ensures
        r.wf(),
        r@ == set_of_sets_spec(clusters.deep_view()),
{
    let ghost ms = member_sets(clusters.deep_view());
    let mut r = ClusterSets::new();
    let mut i: usize = 0;
    while i < clusters.len()
        invariant
            i <= clusters@.len(),
            ms == member_sets(clusters.deep_view()),
            r.wf(),
            r@ == ms.subrange(0, i as int).to_set(),
        decreases clusters@.len() - i,
    {
        let ghost next = ms.subrange(0, i + 1);
        assert(next =~= ms.subrange(0, i as int).push(ms[i as int]));
        proof {
            lemma_push_to_set(ms.subrange(0, i as int), ms[i as int]);
        }
        let d = sorted_members(&clusters[i]);
        assert(d.deep_view().to_set() == ms[i as int]);
        r.insert_distinct(d);
        i += 1;
    }
    assert(ms.subrange(0, i as int) =~= ms);
    r
}

/// The most clusters a report lists per side; the rest are only counted.
pub const REPORT_LIMIT: usize = 10;

/// The outcome of comparing two partitions A and B.
pub struct ClstrDiff {
    /// Clusters of A that B does not have.
    pub only_a: ClusterSets,
    /// Clusters of B that A does not have.
    pub only_b: ClusterSets,
    /// Whether A and B have the same clusters.
    pub equal: bool,
}

/// Compares partitions `a` and `b` by their member sets.
pub fn diff_partitions(a: Vec<Vec<String>>, b: Vec<Vec<String>>) -> (r: ClstrDiff)
    ensures
        r.only_a.wf(),
        r.only_b.wf(),
        r.only_a@ == diff_spec(a.deep_view(), b.deep_view()).0,
        r.only_b@ == diff_spec(a.deep_view(), b.deep_view()).1,
        r.equal == (set_of_sets_spec(a.deep_view()) == set_of_sets_spec(b.deep_view())),
{
    let sa = to_set_of_sets(a);
    let sb = to_set_of_sets(b);
    let only_a = sa.difference(&sb);
    let only_b = sb.difference(&sa);
    let na = only_a.len();
    let nb = only_b.len();
    let equal = na == 0 && nb == 0;
    proof {
        lemma_equal_iff_no_difference(a.deep_view(), b.deep_view());
        if !equal {
            if na != 0 {
                assert(only_a@.len() != 0);
            } else {
                assert(only_b@.len() != 0);
            }
        } else {
            assert(only_a@ =~= Set::empty());
            assert(only_b@ =~= Set::empty());
        }
    }
    ClstrDiff { only_a, only_b, equal }
}

impl ClstrDiff {
    /// The exit status of a comparison: 0 where the partitions are equal, 1
    /// where they differ.
    pub fn exit_code(&self) -> (r: u8)
        ensures
            r == (if self.equal { 0u8 } else { 1u8 }),
    {
        if self.equal {
            0
        } else {
            1
        }
    }
}

/// How many of `n` differing clusters a report lists, and how many it only
/// counts.
pub fn report_split(n: usize) -> (r: (usize, usize))
    ensures
        r.0 == (if n <= REPORT_LIMIT { n } else { REPORT_LIMIT }),
        r.0 + r.1 == n,
{
    if n <= REPORT_LIMIT {
        (n, 0)
    } else {
        (REPORT_LIMIT, n - REPORT_LIMIT)
    }
}

} // verus!
