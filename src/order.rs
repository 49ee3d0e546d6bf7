//! Lexicographic order on identifiers (by code point) and on clusters (as
//! sorted lists of identifiers), which fixes the order of canonical listings.
use vstd::prelude::*;

verus! {

/// `a` comes before `b` in code-point lexicographic order.
pub open spec fn str_lt(a: Seq<char>, b: Seq<char>) -> bool
    decreases a.len(),
{
    if a.len() == 0 {
        b.len() > 0
    } else if b.len() == 0 {
        false
    } else if a[0] != b[0] {
        a[0] < b[0]
    } else {
        str_lt(a.drop_first(), b.drop_first())
    }
}

/// `a` comes before `b` in the lexicographic order on lists of identifiers.
pub open spec fn list_lt(a: Seq<Seq<char>>, b: Seq<Seq<char>>) -> bool
    decreases a.len(),
{
    if a.len() == 0 {
        b.len() > 0
    } else if b.len() == 0 {
        false
    } else if a[0] != b[0] {
        str_lt(a[0], b[0])
    } else {
        list_lt(a.drop_first(), b.drop_first())
    }
}

/// Each identifier comes before the next one.
pub open spec fn strictly_sorted(s: Seq<Seq<char>>) -> bool {
    forall|i: int| 0 <= i < s.len() - 1 ==> #[trigger] str_lt(s[i], s[i + 1])
}

/// Each list comes before the next one.
pub open spec fn lists_strictly_sorted(s: Seq<Seq<Seq<char>>>) -> bool {
    forall|i: int| 0 <= i < s.len() - 1 ==> #[trigger] list_lt(s[i], s[i + 1])
}

/// Of two different identifiers, one comes first.
pub proof fn lemma_str_lt_total(a: Seq<char>, b: Seq<char>)
    requires
        a != b,
    ensures
        str_lt(a, b) || str_lt(b, a),
    decreases a.len(),
{
    if a.len() == 0 {
        assert(b.len() > 0) by {
            if b.len() == 0 {
                assert(a =~= b);
            }
        }
    } else if b.len() > 0 && a[0] == b[0] {
        if a.drop_first() == b.drop_first() {
            assert(a.drop_first().len() == b.drop_first().len());
            assert(a.len() == b.len());
            assert(a =~= b) by {
                assert forall|i: int| 0 <= i < a.len() implies a[i] == b[i] by {
                    if i > 0 {
                        assert(a[i] == a.drop_first()[i - 1]);
                        assert(b[i] == b.drop_first()[i - 1]);
                    }
                }
            }
        }
        lemma_str_lt_total(a.drop_first(), b.drop_first());
    }
}

/// Of two different lists, one comes first.
pub proof fn lemma_list_lt_total(a: Seq<Seq<char>>, b: Seq<Seq<char>>)
    requires
        a != b,
    ensures
        list_lt(a, b) || list_lt(b, a),
    decreases a.len(),
{
    if a.len() == 0 {
        assert(b.len() > 0) by {
            if b.len() == 0 {
                assert(a =~= b);
            }
        }
    } else if b.len() > 0 && a[0] == b[0] {
        if a.drop_first() == b.drop_first() {
            assert(a.drop_first().len() == b.drop_first().len());
            assert(a.len() == b.len());
            assert(a =~= b) by {
                assert forall|i: int| 0 <= i < a.len() implies a[i] == b[i] by {
                    if i > 0 {
                        assert(a[i] == a.drop_first()[i - 1]);
                        assert(b[i] == b.drop_first()[i - 1]);
                    }
                }
            }
        }
        lemma_list_lt_total(a.drop_first(), b.drop_first());
    } else if b.len() > 0 {
        lemma_str_lt_total(a[0], b[0]);
    }
}

/// Whether `a` comes before `b`.
pub fn str_less(a: &str, b: &str) -> (r: bool)
    ensures
        r == str_lt(a@, b@),
{
    let x = crate::reader::chars_of(a);
    let y = crate::reader::chars_of(b);
    let mut i: usize = 0;
    assert(x@.subrange(0, x@.len() as int) =~= x@);
    assert(y@.subrange(0, y@.len() as int) =~= y@);
    loop
        invariant
            i <= x@.len(),
            i <= y@.len(),
            str_lt(a@, b@) == str_lt(x@.subrange(i as int, x@.len() as int), y@.subrange(i as int, y@.len() as int)),
            x@ == a@,
            y@ == b@,
        decreases x@.len() - i,
    {
        let ghost xs = x@.subrange(i as int, x@.len() as int);
        let ghost ys = y@.subrange(i as int, y@.len() as int);
        if i == x.len() {
            return i < y.len();
        }
        if i == y.len() {
            return false;
        }
        assert(xs[0] == x@[i as int]);
        assert(ys[0] == y@[i as int]);
        if x[i] != y[i] {
            return x[i] < y[i];
        }
        assert(xs.drop_first() =~= x@.subrange(i + 1, x@.len() as int));
        assert(ys.drop_first() =~= y@.subrange(i + 1, y@.len() as int));
        i += 1;
    }
}

/// Whether the list `a` comes before the list `b`.
pub fn list_less(a: &Vec<String>, b: &Vec<String>) -> (r: bool)
    ensures
        r == list_lt(a.deep_view(), b.deep_view()),
{
    let ghost x = a.deep_view();
    let ghost y = b.deep_view();
    let mut i: usize = 0;
    assert(x.subrange(0, x.len() as int) =~= x);
    assert(y.subrange(0, y.len() as int) =~= y);
    loop
        invariant
            i <= x.len(),
            i <= y.len(),
            x == a.deep_view(),
            y == b.deep_view(),
            list_lt(x, y) == list_lt(x.subrange(i as int, x.len() as int), y.subrange(i as int, y.len() as int)),
        decreases x.len() - i,
    {
        let ghost xs = x.subrange(i as int, x.len() as int);
        let ghost ys = y.subrange(i as int, y.len() as int);
        if i == a.len() {
            return i < b.len();
        }
        if i == b.len() {
            return false;
        }
        assert(xs[0] == a[i as int]@);
        assert(ys[0] == b[i as int]@);
        if a[i] != b[i] {
            return str_less(a[i].as_str(), b[i].as_str());
        }
        assert(xs.drop_first() =~= x.subrange(i + 1, x.len() as int));
        assert(ys.drop_first() =~= y.subrange(i + 1, y.len() as int));
        i += 1;
    }
}

/// Inserting `x` into a sequence adds `x` to its set.
pub proof fn lemma_insert_to_set<A>(s: Seq<A>, k: int, x: A)
    requires
        0 <= k <= s.len(),
    ensures
        s.insert(k, x).to_set() == s.to_set().insert(x),
        s.insert(k, x).no_duplicates() == (s.no_duplicates() && !s.contains(x)),
{
    s.insert_ensures(k, x);
    let n = s.insert(k, x);
    assert forall|y: A| #[trigger] n.contains(y) <==> s.to_set().insert(x).contains(y) by {
        if n.contains(y) {
            let j = choose|j: int| 0 <= j < n.len() && n[j] == y;
            if j < k {
                assert(s[j] == y);
            } else if j > k {
                assert(s[j - 1] == y);
            }
        }
        if s.contains(y) {
            let j = choose|j: int| 0 <= j < s.len() && s[j] == y;
            if j < k {
                assert(n[j] == y);
            } else {
                assert(n[j + 1] == y);
            }
        }
        if y == x {
            assert(n[k] == x);
        }
    }
    assert(n.to_set() =~= s.to_set().insert(x));
    if s.no_duplicates() && !s.contains(x) {
        assert forall|i: int, j: int| 0 <= i < n.len() && 0 <= j < n.len() && i != j implies n[i] != n[j] by {
            let si = if i < k { i } else { i - 1 };
            let sj = if j < k { j } else { j - 1 };
            if i != k && j != k {
                assert(n[i] == s[si]);
                assert(n[j] == s[sj]);
            } else if i == k {
                assert(n[j] == s[sj]);
            } else {
                assert(n[i] == s[si]);
            }
        }
    }
    if n.no_duplicates() {
        if s.contains(x) {
            let j = choose|j: int| 0 <= j < s.len() && s[j] == x;
            if j < k {
                assert(n[j] == x);
            } else {
                assert(n[j + 1] == x);
            }
            assert(n[k] == x);
        }
        assert forall|i: int, j: int| 0 <= i < s.len() && 0 <= j < s.len() && i != j implies s[i] != s[j] by {
            let ni = if i < k { i } else { i + 1 };
            let nj = if j < k { j } else { j + 1 };
            assert(n[ni] == s[i]);
            assert(n[nj] == s[j]);
        }
    }
}

/// No identifier comes before itself.
pub proof fn lemma_str_lt_irreflexive(a: Seq<char>)
    ensures
        !str_lt(a, a),
    decreases a.len(),
{
    if a.len() > 0 {
        lemma_str_lt_irreflexive(a.drop_first());
    }
}

/// The order on identifiers is transitive.
pub proof fn lemma_str_lt_transitive(a: Seq<char>, b: Seq<char>, c: Seq<char>)
    requires
        str_lt(a, b),
        str_lt(b, c),
    ensures
        str_lt(a, c),
    decreases a.len(),
{
    if a.len() > 0 && b.len() > 0 && c.len() > 0 && a[0] == b[0] && b[0] == c[0] {
        lemma_str_lt_transitive(a.drop_first(), b.drop_first(), c.drop_first());
    }
}

/// No list comes before itself.
pub proof fn lemma_list_lt_irreflexive(a: Seq<Seq<char>>)
    ensures
        !list_lt(a, a),
    decreases a.len(),
{
    if a.len() > 0 {
        lemma_list_lt_irreflexive(a.drop_first());
    }
}

/// The order on lists is transitive.
pub proof fn lemma_list_lt_transitive(a: Seq<Seq<char>>, b: Seq<Seq<char>>, c: Seq<Seq<char>>)
    requires
        list_lt(a, b),
        list_lt(b, c),
    ensures
        list_lt(a, c),
    decreases a.len(),
{
    if a.len() > 0 && b.len() > 0 && c.len() > 0 {
        if a[0] == b[0] && b[0] == c[0] {
            lemma_list_lt_transitive(a.drop_first(), b.drop_first(), c.drop_first());
        } else if a[0] != b[0] && b[0] != c[0] {
            lemma_str_lt_transitive(a[0], b[0], c[0]);
            if a[0] == c[0] {
                lemma_str_lt_irreflexive(a[0]);
            }
        }
    }
}

/// `lt` is irreflexive and transitive.
pub open spec fn strict_order<A>(lt: spec_fn(A, A) -> bool) -> bool {
    &&& forall|x: A| !#[trigger] lt(x, x)
    &&& forall|x: A, y: A, z: A| #[trigger] lt(x, y) && #[trigger] lt(y, z) ==> lt(x, z)
}

/// Every element of `s` comes before every later one.
pub open spec fn sorted_by<A>(s: Seq<A>, lt: spec_fn(A, A) -> bool) -> bool {
    forall|i: int, j: int| 0 <= i < j < s.len() ==> #[trigger] lt(s[i], s[j])
}

/// A sequence in which each element comes before the next is sorted.
pub proof fn lemma_adjacent_sorted<A>(s: Seq<A>, lt: spec_fn(A, A) -> bool)
    requires
        strict_order(lt),
        forall|i: int| 0 <= i < s.len() - 1 ==> #[trigger] lt(s[i], s[i + 1]),
    ensures
        sorted_by(s, lt),
    decreases s.len(),
{
    if s.len() > 0 {
        let t = s.drop_last();
        assert forall|i: int| 0 <= i < t.len() - 1 implies #[trigger] lt(t[i], t[i + 1]) by {
            assert(lt(s[i], s[i + 1]));
        }
        lemma_adjacent_sorted(t, lt);
        assert forall|i: int, j: int| 0 <= i < j < s.len() implies #[trigger] lt(s[i], s[j]) by {
            if j < s.len() - 1 {
                assert(lt(t[i], t[j]));
            } else {
                let k = j - 1;
                assert(lt(s[k], s[k + 1]));
                if i < k {
                    assert(lt(t[i], t[k]));
                }
            }
        }
    }
}

/// Two sorted sequences with the same elements are the same sequence.
pub proof fn lemma_sorted_unique<A>(a: Seq<A>, b: Seq<A>, lt: spec_fn(A, A) -> bool)
    requires
        strict_order(lt),
        sorted_by(a, lt),
        sorted_by(b, lt),
        a.to_set() == b.to_set(),
    ensures
        a == b,
    decreases a.len(),
{
    if a.len() == 0 || b.len() == 0 {
        if a.len() > 0 {
            assert(a.to_set().contains(a[0]));
        }
        if b.len() > 0 {
            assert(b.to_set().contains(b[0]));
        }
        assert(a =~= b);
    } else {
        assert(a.to_set().contains(a[0]));
        assert(b.to_set().contains(b[0]));
        let j = choose|j: int| 0 <= j < b.len() && b[j] == a[0];
        let i = choose|i: int| 0 <= i < a.len() && a[i] == b[0];
        if j > 0 {
            assert(lt(b[0], b[j]));
            if i > 0 {
                assert(lt(a[0], a[i]));
            }
            assert(false);
        }
        let (a1, b1) = (a.drop_first(), b.drop_first());
        assert forall|x: A| a1.to_set().contains(x) <==> b1.to_set().contains(x) by {
            if a1.contains(x) {
                let k = choose|k: int| 0 <= k < a1.len() && a1[k] == x;
                assert(lt(a[0], a[k + 1]));
                assert(a.to_set().contains(x));
                let m = choose|m: int| 0 <= m < b.len() && b[m] == x;
                assert(m != 0);
                assert(b1[m - 1] == x);
            }
            if b1.contains(x) {
                let k = choose|k: int| 0 <= k < b1.len() && b1[k] == x;
                assert(lt(b[0], b[k + 1]));
                assert(b.to_set().contains(x));
                let m = choose|m: int| 0 <= m < a.len() && a[m] == x;
                assert(m != 0);
                assert(a1[m - 1] == x);
            }
        }
        assert(a1.to_set() =~= b1.to_set());
        assert(sorted_by(a1, lt)) by {
            assert forall|p: int, q: int| 0 <= p < q < a1.len() implies #[trigger] lt(a1[p], a1[q]) by {
                assert(lt(a[p + 1], a[q + 1]));
            }
        }
        assert(sorted_by(b1, lt)) by {
            assert forall|p: int, q: int| 0 <= p < q < b1.len() implies #[trigger] lt(b1[p], b1[q]) by {
                assert(lt(b[p + 1], b[q + 1]));
            }
        }
        lemma_sorted_unique(a1, b1, lt);
        assert(a =~= b) by {
            assert forall|k: int| 0 <= k < a.len() implies a[k] == b[k] by {
                if k > 0 {
                    assert(a[k] == a1[k - 1]);
                    assert(b[k] == b1[k - 1]);
                }
            }
        }
    }
}

/// The order on identifiers, as a value.
pub open spec fn str_lt_fn() -> spec_fn(Seq<char>, Seq<char>) -> bool {
    |x: Seq<char>, y: Seq<char>| str_lt(x, y)
}

/// The order on lists, as a value.
pub open spec fn list_lt_fn() -> spec_fn(Seq<Seq<char>>, Seq<Seq<char>>) -> bool {
    |x: Seq<Seq<char>>, y: Seq<Seq<char>>| list_lt(x, y)
}

/// Both orders are strict orders, and sequences sorted step by step are
/// sorted throughout.
pub proof fn lemma_orders_strict()
    ensures
        strict_order(str_lt_fn()),
        strict_order(list_lt_fn()),
        forall|s: Seq<Seq<char>>| strictly_sorted(s) ==> #[trigger] sorted_by(s, str_lt_fn()),
        forall|s: Seq<Seq<Seq<char>>>| lists_strictly_sorted(s) ==> #[trigger] sorted_by(s, list_lt_fn()),
{
    let lt = str_lt_fn();
    assert forall|x: Seq<char>| !#[trigger] lt(x, x) by {
        lemma_str_lt_irreflexive(x);
    }
    assert forall|x: Seq<char>, y: Seq<char>, z: Seq<char>| #[trigger] lt(x, y) && #[trigger] lt(y, z) implies lt(x, z) by {
        lemma_str_lt_transitive(x, y, z);
    }
    let ll = list_lt_fn();
    assert forall|x: Seq<Seq<char>>| !#[trigger] ll(x, x) by {
        lemma_list_lt_irreflexive(x);
    }
    assert forall|x: Seq<Seq<char>>, y: Seq<Seq<char>>, z: Seq<Seq<char>>|
        #[trigger] ll(x, y) && #[trigger] ll(y, z) implies ll(x, z) by {
        lemma_list_lt_transitive(x, y, z);
    }
    assert forall|s: Seq<Seq<char>>| strictly_sorted(s) implies #[trigger] sorted_by(s, str_lt_fn()) by {
        assert forall|i: int| 0 <= i < s.len() - 1 implies #[trigger] lt(s[i], s[i + 1]) by {
            assert(str_lt(s[i], s[i + 1]));
        }
        lemma_adjacent_sorted(s, lt);
    }
    assert forall|s: Seq<Seq<Seq<char>>>| lists_strictly_sorted(s) implies #[trigger] sorted_by(s, list_lt_fn()) by {
        assert forall|i: int| 0 <= i < s.len() - 1 implies #[trigger] ll(s[i], s[i + 1]) by {
            assert(list_lt(s[i], s[i + 1]));
        }
        lemma_adjacent_sorted(s, ll);
    }
}

/// In a sorted sequence, `x` occurs exactly where the elements before it
/// stop coming before it.
pub proof fn lemma_lower_bound<A>(s: Seq<A>, x: A, k: int, lt: spec_fn(A, A) -> bool)
    requires
        strict_order(lt),
        sorted_by(s, lt),
        0 <= k <= s.len(),
        forall|j: int| 0 <= j < k ==> #[trigger] lt(s[j], x),
        k < s.len() ==> !lt(s[k], x),
    ensures
        s.contains(x) == (k < s.len() && s[k] == x),
{
    if s.contains(x) {
        let j = choose|j: int| 0 <= j < s.len() && s[j] == x;
        if j < k {
            assert(lt(s[j], x));
        } else if j > k {
            assert(lt(s[k], s[j]));
        }
    }
    if k < s.len() && s[k] == x {
        assert(s.contains(x));
    }
}

/// Where `x` goes in the sorted `v`: after every identifier that comes before
/// it.
pub fn str_lower_bound(v: &Vec<String>, x: &str) -> (k: usize)
    requires
        strictly_sorted(v.deep_view()),
    ensures
        k <= v@.len(),
        forall|j: int| 0 <= j < k ==> #[trigger] str_lt(v.deep_view()[j], x@),
        k < v@.len() ==> !str_lt(v.deep_view()[k as int], x@),
{
    proof {
        lemma_orders_strict();
    }
    let ghost s = v.deep_view();
    let ghost lt = str_lt_fn();
    assert(sorted_by(s, lt));
    let mut lo: usize = 0;
    let mut hi: usize = v.len();
    while lo < hi
        invariant
            lo <= hi <= v@.len(),
            s == v.deep_view(),
            lt == str_lt_fn(),
            strict_order(lt),
            sorted_by(s, lt),
            forall|j: int| 0 <= j < lo ==> #[trigger] str_lt(s[j], x@),
            forall|j: int| hi <= j < s.len() ==> !#[trigger] str_lt(s[j], x@),
        decreases hi - lo,
    {
        let mid = lo + (hi - lo) / 2;
        if str_less(v[mid].as_str(), x) {
            assert forall|j: int| 0 <= j < mid + 1 implies #[trigger] str_lt(s[j], x@) by {
                if j < mid {
                    assert(lt(s[j], s[mid as int]));
                    assert(lt(s[mid as int], x@));
                }
            }
            lo = mid + 1;
        } else {
            assert forall|j: int| mid <= j < s.len() implies !#[trigger] str_lt(s[j], x@) by {
                if j > mid && str_lt(s[j], x@) {
                    assert(lt(s[mid as int], s[j]));
                    assert(lt(s[j], x@));
                }
            }
            hi = mid;
        }
    }
    lo
}

/// Where `c` goes in the sorted `v`: after every list that comes before it.
pub fn list_lower_bound(v: &Vec<Vec<String>>, c: &Vec<String>) -> (k: usize)
    requires
        lists_strictly_sorted(v.deep_view()),
    ensures
        k <= v@.len(),
        forall|j: int| 0 <= j < k ==> #[trigger] list_lt(v.deep_view()[j], c.deep_view()),
        k < v@.len() ==> !list_lt(v.deep_view()[k as int], c.deep_view()),
{
    proof {
        lemma_orders_strict();
    }
    let ghost s = v.deep_view();
    let ghost lt = list_lt_fn();
    assert(sorted_by(s, lt));
    let mut lo: usize = 0;
    let mut hi: usize = v.len();
    while lo < hi
        invariant
            lo <= hi <= v@.len(),
            s == v.deep_view(),
            lt == list_lt_fn(),
            strict_order(lt),
            sorted_by(s, lt),
            forall|j: int| 0 <= j < lo ==> #[trigger] list_lt(s[j], c.deep_view()),
            forall|j: int| hi <= j < s.len() ==> !#[trigger] list_lt(s[j], c.deep_view()),
        decreases hi - lo,
    {
        let mid = lo + (hi - lo) / 2;
        assert(s[mid as int] == v[mid as int].deep_view());
        if list_less(&v[mid], c) {
            assert forall|j: int| 0 <= j < mid + 1 implies #[trigger] list_lt(s[j], c.deep_view()) by {
                if j < mid {
                    assert(lt(s[j], s[mid as int]));
                    assert(lt(s[mid as int], c.deep_view()));
                }
            }
            lo = mid + 1;
        } else {
            assert forall|j: int| mid <= j < s.len() implies !#[trigger] list_lt(s[j], c.deep_view()) by {
                if j > mid && list_lt(s[j], c.deep_view()) {
                    assert(lt(s[mid as int], s[j]));
                    assert(lt(s[j], c.deep_view()));
                }
            }
            hi = mid;
        }
    }
    lo
}

/// Whether the lists `a` and `b` are the same.
pub fn lists_equal(a: &Vec<String>, b: &Vec<String>) -> (r: bool)
    ensures
        r == (a.deep_view() == b.deep_view()),
{
    if a.len() != b.len() {
        assert(a.deep_view().len() != b.deep_view().len());
        return false;
    }
    let mut i: usize = 0;
    while i < a.len()
        invariant
            i <= a@.len(),
            a@.len() == b@.len(),
            forall|j: int| 0 <= j < i ==> a.deep_view()[j] == b.deep_view()[j],
        decreases a@.len() - i,
    {
        if a[i] != b[i] {
            assert(a.deep_view()[i as int] != b.deep_view()[i as int]);
            return false;
        }
        i += 1;
    }
    assert(a.deep_view() =~= b.deep_view());
    true
}

} // verus!
