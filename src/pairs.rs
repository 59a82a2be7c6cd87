//! Adjacent pairs from point incidences: the core of the adjacency engine.
use vstd::prelude::*;

verus! {

broadcast use vstd::seq_lib::group_seq_properties;

/// An incidence `(point, region)`: the region's boundary passes through the point.
pub type Incidence = (u64, u64);

/// Two distinct regions share a point.
pub open spec fn touching(inc: Seq<Incidence>, a: u64, b: u64) -> bool {
    a != b && exists|k: u64| #[trigger] inc.contains((k, a)) && inc.contains((k, b))
}

/// Lexicographic order on integer pairs.
pub open spec fn pair_le(p: (u64, u64), q: (u64, u64)) -> bool {
    p.0 < q.0 || (p.0 == q.0 && p.1 <= q.1)
}

pub open spec fn pair_lt(p: (u64, u64), q: (u64, u64)) -> bool {
    p.0 < q.0 || (p.0 == q.0 && p.1 < q.1)
}

pub open spec fn pairs_sorted(s: Seq<(u64, u64)>) -> bool {
    forall|i: int, j: int| 0 <= i < j < s.len() ==> pair_le(#[trigger] s[i], #[trigger] s[j])
}

pub open spec fn pairs_strictly_sorted(s: Seq<(u64, u64)>) -> bool {
    forall|i: int, j: int| 0 <= i < j < s.len() ==> pair_lt(#[trigger] s[i], #[trigger] s[j])
}

/// Relies on `slice::sort_unstable`: the items are permuted into ascending
/// order, tuples comparing lexicographically.
#[verifier::external_body]
fn sort_pairs(v: &mut Vec<(u64, u64)>)
    ensures
        final(v)@.to_multiset() == old(v)@.to_multiset(),
        pairs_sorted(final(v)@),
{
    v.sort_unstable();
}

pub(crate) proof fn lemma_same_contents<A>(s: Seq<A>, t: Seq<A>)
    requires
        s.to_multiset() == t.to_multiset(),
    ensures
        forall|x: A| s.contains(x) <==> t.contains(x),
{
    s.to_multiset_ensures();
    t.to_multiset_ensures();
    assert forall|x: A| s.contains(x) <==> t.contains(x) by {
        if s.contains(x) {
            assert(s.to_multiset().count(x) > 0);
            assert(t.to_multiset().count(x) > 0);
        }
        if t.contains(x) {
            assert(t.to_multiset().count(x) > 0);
            assert(s.to_multiset().count(x) > 0);
        }
    }
}

/// Two distinct regions both incident to one point among the first `m` incidences.
pub open spec fn touching_prefix(v: Seq<Incidence>, m: int, a: u64, b: u64) -> bool {
    a != b && exists|x: int, y: int|
        0 <= x < m && 0 <= y < m && #[trigger] v[x].0 == #[trigger] v[y].0 && v[x].1 == a
            && v[y].1 == b
}

/// Pairs contributed by incidence `i` against incidences `gs..j`.
pub open spec fn fresh_pairs(v: Seq<Incidence>, gs: int, j: int, i: int, a: u64, b: u64) -> bool {
    exists|y: int|
        gs <= y < j && v[y].1 != v[i].1 && ((a == v[i].1 && b == #[trigger] v[y].1) || (a
            == v[y].1 && b == v[i].1))
}

/// Every ordered pair of distinct regions that share a point, each once, in
/// ascending order.
pub fn adjacency_pairs(incidences: &Vec<Incidence>) -> (r: Vec<(u64, u64)>)
    ensures
        pairs_strictly_sorted(r@),
        forall|a: u64, b: u64| r@.contains((a, b)) <==> touching(incidences@, a, b),
{
    let mut v = copy_pairs(incidences);
    sort_pairs(&mut v);
    proof {
        lemma_same_contents(v@, incidences@);
    }
    let n = v.len();
    let mut emitted: Vec<(u64, u64)> = Vec::new();
    let mut gs: usize = 0;
    let mut i: usize = 0;
    while i < n
        invariant
            gs <= i <= n,
            n == v.len(),
            pairs_sorted(v@),
            i > 0 ==> gs < i,
            forall|x: int| gs <= x < i ==> #[trigger] v@[x].0 == v@[gs as int].0,
            0 < gs < n ==> v@[gs - 1].0 < v@[gs as int].0,
            forall|a: u64, b: u64|
                emitted@.contains((a, b)) <==> touching_prefix(v@, i as int, a, b),
        decreases n - i,
    {
        if i > 0 && v[i].0 != v[i - 1].0 {
            gs = i;
        }
        proof {
            if i > 0 && v@[i as int].0 == v@[i - 1].0 {
                assert(v@[i - 1].0 == v@[gs as int].0);
            }
        }
        let mut j: usize = gs;
        while j < i
            invariant
                gs <= j <= i < n,
                n == v.len(),
                forall|x: int| gs <= x <= i ==> #[trigger] v@[x].0 == v@[gs as int].0,
                forall|a: u64, b: u64|
                    emitted@.contains((a, b)) <==> (touching_prefix(v@, i as int, a, b)
                        || fresh_pairs(v@, gs as int, j as int, i as int, a, b)),
            decreases i - j,
        {
            let ghost before = emitted@;
            if v[j].1 != v[i].1 {
                emitted.push((v[i].1, v[j].1));
                emitted.push((v[j].1, v[i].1));
            }
            proof {
                assert forall|a: u64, b: u64|
                    emitted@.contains((a, b)) <==> (touching_prefix(v@, i as int, a, b)
                        || fresh_pairs(v@, gs as int, j + 1, i as int, a, b)) by {
                    if emitted@.contains((a, b)) && !before.contains((a, b)) {
                        assert(fresh_pairs(v@, gs as int, j + 1, i as int, a, b));
                    }
                    if fresh_pairs(v@, gs as int, j + 1, i as int, a, b) && !fresh_pairs(
                        v@,
                        gs as int,
                        j as int,
                        i as int,
                        a,
                        b,
                    ) {
                        let y = choose|y: int|
                            gs <= y < j + 1 && v@[y].1 != v@[i as int].1 && ((a == v@[i as int].1
                                && b == #[trigger] v@[y].1) || (a == v@[y].1 && b == v@[i as int].1));
                        assert(y == j);
                        if a == v@[i as int].1 {
                            assert(emitted@[emitted@.len() - 2] == (a, b) || emitted@.last() == (
                                a,
                                b,
                            ));
                        } else {
                            assert(emitted@.last() == (a, b));
                        }
                    }
                }
            }
            j = j + 1;
        }
        proof {
            assert forall|a: u64, b: u64|
                emitted@.contains((a, b)) <==> touching_prefix(v@, i + 1, a, b) by {
                if touching_prefix(v@, i + 1, a, b) && !touching_prefix(v@, i as int, a, b) {
                    let (x, y) = choose|x: int, y: int|
                        0 <= x < i + 1 && 0 <= y < i + 1 && #[trigger] v@[x].0 == #[trigger] v@[y].0
                            && v@[x].1 == a && v@[y].1 == b;
                    if x == i {
                        lemma_same_group(v@, gs as int, i as int, y);
                        assert(fresh_pairs(v@, gs as int, i as int, i as int, a, b));
                    } else {
                        assert(y == i);
                        lemma_same_group(v@, gs as int, i as int, x);
                        assert(fresh_pairs(v@, gs as int, i as int, i as int, a, b));
                    }
                }
                if fresh_pairs(v@, gs as int, i as int, i as int, a, b) {
                    let y = choose|y: int|
                        gs <= y < i && v@[y].1 != v@[i as int].1 && ((a == v@[i as int].1 && b
                            == #[trigger] v@[y].1) || (a == v@[y].1 && b == v@[i as int].1));
                    assert(v@[y].0 == v@[i as int].0);
                    if a == v@[i as int].1 {
                        assert(touching_prefix(v@, i + 1, a, b)) by {
                            assert(v@[i as int].0 == v@[y].0);
                        }
                    } else {
                        assert(touching_prefix(v@, i + 1, a, b)) by {
                            assert(v@[y].0 == v@[i as int].0);
                        }
                    }
                }
                if touching_prefix(v@, i as int, a, b) {
                    let (x, y) = choose|x: int, y: int|
                        0 <= x < i && 0 <= y < i && #[trigger] v@[x].0 == #[trigger] v@[y].0
                            && v@[x].1 == a && v@[y].1 == b;
                    assert(touching_prefix(v@, i + 1, a, b)) by {
                        assert(v@[x].0 == v@[y].0);
                    }
                }
            }
        }
        i = i + 1;
    }
    proof {
        assert forall|a: u64, b: u64|
            touching_prefix(v@, n as int, a, b) <==> touching(incidences@, a, b) by {
            if touching_prefix(v@, n as int, a, b) {
                let (x, y) = choose|x: int, y: int|
                    0 <= x < n && 0 <= y < n && #[trigger] v@[x].0 == #[trigger] v@[y].0
                        && v@[x].1 == a && v@[y].1 == b;
                assert(v@.contains(v@[x]));
                assert(v@.contains(v@[y]));
                assert(incidences@.contains((v@[x].0, a)));
            }
            if touching(incidences@, a, b) {
                let k = choose|k: u64| #[trigger] incidences@.contains((k, a)) && incidences@.contains((k, b));
                assert(v@.contains((k, a)));
                assert(v@.contains((k, b)));
                let x = choose|x: int| 0 <= x < n && v@[x] == (k, a);
                let y = choose|y: int| 0 <= y < n && v@[y] == (k, b);
                assert(v@[x].0 == v@[y].0);
            }
        }
    }
    let ghost unsorted = emitted@;
    sort_pairs(&mut emitted);
    proof {
        lemma_same_contents(emitted@, unsorted);
    }
    let r = dedup_sorted(&emitted);
    proof {
        assert forall|a: u64, b: u64| r@.contains((a, b)) <==> touching(incidences@, a, b) by {
            assert(r@.contains((a, b)) == emitted@.contains((a, b)));
            assert(emitted@.contains((a, b)) == unsorted.contains((a, b)));
        }
    }
    r
}

/// Splits incidences into `n` parts by point key: every incidence of a point
/// lands in part `key % n`, so each part holds whole points.
pub fn partition_incidences(incidences: &Vec<Incidence>, n: u64) -> (r: Vec<Vec<Incidence>>)
    requires
        n > 0,
    ensures
        r@.len() == n,
        forall|p: int, x: Incidence|
            0 <= p < n ==> (#[trigger] r@[p]@.contains(x) <==> (incidences@.contains(x) && x.0 % n
                == p)),
{
    let mut r: Vec<Vec<Incidence>> = Vec::new();
    let mut p: u64 = 0;
    while p < n
        invariant
            p <= n,
            r@.len() == p,
            forall|q: int, x: Incidence|
                0 <= q < p ==> (#[trigger] r@[q]@.contains(x) <==> (incidences@.contains(x) && x.0
                    % n == q)),
        decreases n - p,
    {
        let mut part: Vec<Incidence> = Vec::new();
        let mut k: usize = 0;
        while k < incidences.len()
            invariant
                k <= incidences.len(),
                n > 0,
                forall|x: Incidence|
                    part@.contains(x) <==> (incidences@.subrange(0, k as int).contains(x) && x.0 % n
                        == p),
            decreases incidences.len() - k,
        {
            let x = incidences[k];
            let ghost before = part@;
            if x.0 % n == p {
                part.push(x);
            }
            proof {
                let pre = incidences@.subrange(0, k as int);
                let post = incidences@.subrange(0, k + 1);
                assert(post =~= pre.push(x));
                assert forall|y: Incidence|
                    part@.contains(y) <==> (post.contains(y) && y.0 % n == p) by {
                    if post.contains(y) && y != x {
                        let m = choose|m: int| 0 <= m < post.len() && post[m] == y;
                        assert(pre[m] == y);
                    }
                    if part@.contains(y) && y != x {
                        let m = choose|m: int| 0 <= m < part@.len() && part@[m] == y;
                        if part@.len() > before.len() {
                            assert(m < before.len());
                            assert(before[m] == y);
                        }
                    }
                    if before.contains(y) {
                        let m = choose|m: int| 0 <= m < before.len() && before[m] == y;
                        assert(part@[m] == y);
                    }
                    if pre.contains(y) {
                        let m = choose|m: int| 0 <= m < pre.len() && pre[m] == y;
                        assert(post[m] == y);
                    }
                }
            }
            k = k + 1;
        }
        proof {
            assert(incidences@.subrange(0, incidences@.len() as int) =~= incidences@);
        }
        r.push(part);
        p = p + 1;
    }
    r
}

/// Merges partial pair lists: every pair of any of them, each once, ascending.
pub fn merge_pairs(partials: &Vec<Vec<(u64, u64)>>) -> (r: Vec<(u64, u64)>)
    ensures
        pairs_strictly_sorted(r@),
        forall|q: (u64, u64)|
            r@.contains(q) <==> exists|p: int| 0 <= p < partials@.len() && #[trigger] partials@[p]@.contains(q),
{
    let mut all: Vec<(u64, u64)> = Vec::new();
    let mut p: usize = 0;
    while p < partials.len()
        invariant
            p <= partials.len(),
            forall|q: (u64, u64)|
                all@.contains(q) <==> exists|t: int| 0 <= t < p && #[trigger] partials@[t]@.contains(q),
        decreases partials.len() - p,
    {
        let part = &partials[p];
        let mut k: usize = 0;
        let ghost start = all@;
        while k < part.len()
            invariant
                k <= part.len(),
                p < partials@.len(),
                part@ == partials@[p as int]@,
                forall|q: (u64, u64)|
                    all@.contains(q) <==> (start.contains(q) || part@.subrange(0, k as int).contains(q)),
            decreases part.len() - k,
        {
            let ghost before = all@;
            all.push(part[k]);
            proof {
                let pre = part@.subrange(0, k as int);
                let post = part@.subrange(0, k + 1);
                assert(post =~= pre.push(part@[k as int]));
                assert(all@[all@.len() - 1] == part@[k as int]);
                assert(post[k as int] == part@[k as int]);
                assert forall|q: (u64, u64)| all@.contains(q) <==> (start.contains(q) || post.contains(q)) by {
                    assert(before.contains(q) <==> (start.contains(q) || pre.contains(q)));
                    if q == part@[k as int] {
                        assert(all@.contains(q));
                        assert(post.contains(q));
                    }
                    if post.contains(q) && q != part@[k as int] {
                        let m = choose|m: int| 0 <= m < post.len() && post[m] == q;
                        assert(pre[m] == q);
                    }
                    if all@.contains(q) && q != part@[k as int] {
                        let m = choose|m: int| 0 <= m < all@.len() && all@[m] == q;
                        assert(before[m] == q);
                    }
                    if before.contains(q) {
                        let m = choose|m: int| 0 <= m < before.len() && before[m] == q;
                        assert(all@[m] == q);
                    }
                    if pre.contains(q) {
                        let m = choose|m: int| 0 <= m < pre.len() && pre[m] == q;
                        assert(post[m] == q);
                    }
                }
            }
            k = k + 1;
        }
        proof {
            assert(part@.subrange(0, part@.len() as int) =~= part@);
            assert forall|q: (u64, u64)|
                all@.contains(q) <==> exists|t: int| 0 <= t < p + 1 && #[trigger] partials@[t]@.contains(q) by {
                if all@.contains(q) && !start.contains(q) {
                    assert(partials@[p as int]@.contains(q));
                }
                if exists|t: int| 0 <= t < p + 1 && #[trigger] partials@[t]@.contains(q) {
                    let t = choose|t: int| 0 <= t < p + 1 && #[trigger] partials@[t]@.contains(q);
                    if t < p {
                        assert(start.contains(q));
                    } else {
                        assert(part@.contains(q));
                    }
                }
            }
        }
        p = p + 1;
    }
    let ghost unsorted = all@;
    sort_pairs(&mut all);
    proof {
        lemma_same_contents(all@, unsorted);
    }
    dedup_sorted(&all)
}

/// A strictly ascending sequence of pairs is fixed by the pairs it holds.
pub proof fn lemma_pairs_unique(s1: Seq<(u64, u64)>, s2: Seq<(u64, u64)>)
    requires
        pairs_strictly_sorted(s1),
        pairs_strictly_sorted(s2),
        forall|q: (u64, u64)| s1.contains(q) <==> s2.contains(q),
    ensures
        s1 == s2,
    decreases s1.len(),
{
    if s1.len() == 0 {
        if s2.len() > 0 {
            assert(s2.contains(s2[0]));
        }
        assert(s1 =~= s2);
    } else if s2.len() == 0 {
        assert(s1.contains(s1[0]));
    } else {
        assert(s1.contains(s1[0]));
        assert(s2.contains(s2[0]));
        let j = choose|j: int| 0 <= j < s2.len() && s2[j] == s1[0];
        let i = choose|i: int| 0 <= i < s1.len() && s1[i] == s2[0];
        if i != 0 && j != 0 {
            assert(pair_lt(s1[0], s1[i]));
            assert(pair_lt(s2[0], s2[j]));
        }
        let t1 = s1.drop_first();
        let t2 = s2.drop_first();
        assert forall|i1: int, j1: int| 0 <= i1 < j1 < t1.len() implies pair_lt(
            #[trigger] t1[i1],
            #[trigger] t1[j1],
        ) by {
            assert(s1[i1 + 1] == t1[i1] && s1[j1 + 1] == t1[j1]);
        }
        assert forall|i1: int, j1: int| 0 <= i1 < j1 < t2.len() implies pair_lt(
            #[trigger] t2[i1],
            #[trigger] t2[j1],
        ) by {
            assert(s2[i1 + 1] == t2[i1] && s2[j1 + 1] == t2[j1]);
        }
        assert forall|q: (u64, u64)| t1.contains(q) <==> t2.contains(q) by {
            if t1.contains(q) {
                let a = choose|a: int| 0 <= a < t1.len() && t1[a] == q;
                assert(s1[a + 1] == q);
                assert(pair_lt(s1[0], s1[a + 1]));
                assert(s2.contains(q));
                let b = choose|b: int| 0 <= b < s2.len() && s2[b] == q;
                assert(b != 0);
                assert(t2[b - 1] == q);
            }
            if t2.contains(q) {
                let a = choose|a: int| 0 <= a < t2.len() && t2[a] == q;
                assert(s2[a + 1] == q);
                assert(pair_lt(s2[0], s2[a + 1]));
                assert(s1.contains(q));
                let b = choose|b: int| 0 <= b < s1.len() && s1[b] == q;
                assert(b != 0);
                assert(t1[b - 1] == q);
            }
        }
        lemma_pairs_unique(t1, t2);
        assert(s1 =~= seq![s1[0]] + t1);
        assert(s2 =~= seq![s2[0]] + t2);
    }
}

/// Determinism across workers: splitting the incidences into any number of
/// parts by point, computing the pairs of each part, and merging them gives
/// exactly the pairs of the whole.
pub proof fn lemma_partitioned_pairs(
    incidences: Seq<Incidence>,
    n: u64,
    parts: Seq<Seq<Incidence>>,
    partials: Seq<Seq<(u64, u64)>>,
    merged: Seq<(u64, u64)>,
    whole: Seq<(u64, u64)>,
)
    requires
        n > 0,
        parts.len() == n,
        forall|p: int, x: Incidence|
            0 <= p < n ==> (#[trigger] parts[p].contains(x) <==> (incidences.contains(x) && x.0 % n
                == p)),
        partials.len() == n,
        forall|p: int, a: u64, b: u64|
            0 <= p < n ==> (#[trigger] partials[p].contains((a, b)) <==> touching(parts[p], a, b)),
        pairs_strictly_sorted(merged),
        forall|q: (u64, u64)|
            merged.contains(q) <==> exists|p: int| 0 <= p < partials.len() && #[trigger] partials[p].contains(q),
        pairs_strictly_sorted(whole),
        forall|a: u64, b: u64| whole.contains((a, b)) <==> touching(incidences, a, b),
    ensures
        merged == whole,
{
    assert forall|q: (u64, u64)| merged.contains(q) <==> whole.contains(q) by {
        let (a, b) = q;
        if whole.contains(q) {
            assert(touching(incidences, a, b));
            let k = choose|k: u64| #[trigger] incidences.contains((k, a)) && incidences.contains((k, b));
            let p = (k % n) as int;
            assert(parts[p].contains((k, a)) && parts[p].contains((k, b)));
            assert(touching(parts[p], a, b));
            assert(partials[p].contains(q));
        }
        if merged.contains(q) {
            let p = choose|p: int| 0 <= p < partials.len() && #[trigger] partials[p].contains(q);
            assert(partials[p].contains((a, b)));
            assert(touching(parts[p], a, b));
            let k = choose|k: u64| #[trigger] parts[p].contains((k, a)) && parts[p].contains((k, b));
            assert(incidences.contains((k, a)) && incidences.contains((k, b)));
            assert(touching(incidences, a, b));
        }
    }
    lemma_pairs_unique(merged, whole);
}

fn copy_pairs(s: &Vec<(u64, u64)>) -> (r: Vec<(u64, u64)>)
    ensures
        r@ == s@,
{
    let mut r: Vec<(u64, u64)> = Vec::new();
    let mut k: usize = 0;
    while k < s.len()
        invariant
            k <= s.len(),
            r@ == s@.subrange(0, k as int),
        decreases s.len() - k,
    {
        r.push(s[k]);
        k = k + 1;
    }
    r
}

proof fn lemma_same_group(v: Seq<Incidence>, gs: int, i: int, y: int)
    requires
        0 <= gs <= i < v.len(),
        0 <= y <= i,
        pairs_sorted(v),
        forall|x: int| gs <= x <= i ==> #[trigger] v[x].0 == v[gs].0,
        0 < gs ==> v[gs - 1].0 < v[gs].0,
        v[y].0 == v[i].0,
    ensures
        gs <= y,
{
    if y < gs {
        assert(pair_le(v[y], v[gs - 1]));
    }
}

/// The distinct items of a sorted sequence, in order.
fn dedup_sorted(s: &Vec<(u64, u64)>) -> (r: Vec<(u64, u64)>)
    requires
        pairs_sorted(s@),
    ensures
        pairs_strictly_sorted(r@),
        forall|p: (u64, u64)| r@.contains(p) <==> s@.contains(p),
{
    let mut r: Vec<(u64, u64)> = Vec::new();
    let mut k: usize = 0;
    while k < s.len()
        invariant
            k <= s.len(),
            pairs_sorted(s@),
            pairs_strictly_sorted(r@),
            k > 0 ==> r@.len() > 0 && r@.last() == s@[k - 1],
            k == 0 ==> r@.len() == 0,
            forall|p: (u64, u64)| r@.contains(p) <==> s@.subrange(0, k as int).contains(p),
        decreases s.len() - k,
    {
        let item = s[k];
        if r.len() == 0 || r[r.len() - 1].0 != item.0 || r[r.len() - 1].1 != item.1 {
            proof {
                if r@.len() > 0 {
                    assert(pair_le(s@[k - 1], s@[k as int]));
                }
            }
            r.push(item);
        }
        proof {
            assert(s@.subrange(0, k + 1) =~= s@.subrange(0, k as int).push(item));
        }
        k = k + 1;
    }
    proof {
        assert(s@.subrange(0, s@.len() as int) =~= s@);
    }
    r
}

} // verus!
