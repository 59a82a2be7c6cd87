//! The adjacency graph as ordered (region, neighbor) pairs, and its text form.
use vstd::prelude::*;
use vstd::string::*;

use crate::pairs::lemma_same_contents;

verus! {

broadcast use vstd::seq_lib::group_seq_properties;

/// Lexicographic order on character sequences, a proper prefix first; for
/// strings this is the order of `str`'s `Ord`.
pub open spec fn text_le(a: Seq<char>, b: Seq<char>) -> bool
    decreases a.len(),
{
    if a.len() == 0 {
        true
    } else if b.len() == 0 {
        false
    } else if a[0] != b[0] {
        a[0] < b[0]
    } else {
        text_le(a.drop_first(), b.drop_first())
    }
}

pub type TextPair = (Seq<char>, Seq<char>);

/// Lexicographic order on pairs of texts.
pub open spec fn text_pair_le(p: TextPair, q: TextPair) -> bool {
    (text_le(p.0, q.0) && p.0 != q.0) || (p.0 == q.0 && text_le(p.1, q.1))
}

pub open spec fn text_pairs_sorted(s: Seq<TextPair>) -> bool {
    forall|i: int, j: int| 0 <= i < j < s.len() ==> text_pair_le(#[trigger] s[i], #[trigger] s[j])
}

/// Ascending, each pair once.
pub open spec fn text_pairs_strictly_sorted(s: Seq<TextPair>) -> bool {
    forall|i: int, j: int|
        0 <= i < j < s.len() ==> text_pair_le(#[trigger] s[i], #[trigger] s[j]) && s[i] != s[j]
}

pub open spec fn pair_view(p: (String, String)) -> TextPair {
    (p.0@, p.1@)
}

pub open spec fn pairs_view(s: Seq<(String, String)>) -> Seq<TextPair> {
    s.map_values(|p: (String, String)| pair_view(p))
}

pub proof fn lemma_text_le_reflexive(a: Seq<char>)
    ensures
        text_le(a, a),
    decreases a.len(),
{
    if a.len() > 0 {
        lemma_text_le_reflexive(a.drop_first());
    }
}

pub proof fn lemma_text_le_antisymmetric(a: Seq<char>, b: Seq<char>)
    requires
        text_le(a, b),
        text_le(b, a),
    ensures
        a == b,
    decreases a.len(),
{
    if a.len() > 0 && b.len() > 0 {
        lemma_text_le_antisymmetric(a.drop_first(), b.drop_first());
        assert(a =~= seq![a[0]] + a.drop_first());
        assert(b =~= seq![b[0]] + b.drop_first());
    } else {
        assert(a =~= b);
    }
}

pub proof fn lemma_text_le_transitive(a: Seq<char>, b: Seq<char>, c: Seq<char>)
    requires
        text_le(a, b),
        text_le(b, c),
    ensures
        text_le(a, c),
    decreases a.len(),
{
    if a.len() > 0 && b.len() > 0 && c.len() > 0 {
        if a[0] == b[0] && b[0] == c[0] {
            lemma_text_le_transitive(a.drop_first(), b.drop_first(), c.drop_first());
        }
    }
}

pub proof fn lemma_text_le_total(a: Seq<char>, b: Seq<char>)
    ensures
        text_le(a, b) || text_le(b, a),
    decreases a.len(),
{
    if a.len() > 0 && b.len() > 0 && a[0] == b[0] {
        lemma_text_le_total(a.drop_first(), b.drop_first());
    }
}

proof fn lemma_text_pair_le_transitive(p: TextPair, q: TextPair, r: TextPair)
    requires
        text_pair_le(p, q),
        text_pair_le(q, r),
    ensures
        text_pair_le(p, r),
{
    if p.0 == q.0 && q.0 == r.0 {
        lemma_text_le_transitive(p.1, q.1, r.1);
    } else if p.0 == q.0 {
    } else if q.0 == r.0 {
    } else {
        lemma_text_le_transitive(p.0, q.0, r.0);
        if p.0 == r.0 {
            lemma_text_le_antisymmetric(p.0, q.0);
        }
    }
}

proof fn lemma_text_pair_le_antisymmetric(p: TextPair, q: TextPair)
    requires
        text_pair_le(p, q),
        text_pair_le(q, p),
    ensures
        p == q,
{
    if p.0 == q.0 {
        lemma_text_le_antisymmetric(p.1, q.1);
    } else {
        lemma_text_le_antisymmetric(p.0, q.0);
    }
}

/// A strictly ascending sequence of text pairs is fixed by the pairs it holds:
/// two that hold the same pairs are equal.
pub proof fn lemma_sorted_pairs_unique(s1: Seq<TextPair>, s2: Seq<TextPair>)
    requires
        text_pairs_strictly_sorted(s1),
        text_pairs_strictly_sorted(s2),
        forall|p: TextPair| s1.contains(p) <==> s2.contains(p),
    ensures
        s1 == s2,
    decreases s1.len(),
{
    if s1.len() == 0 {
        if s2.len() > 0 {
            assert(s2.contains(s2[0]));
        }
        assert(s1 =~= s2);
    } else if s2.len() == 0 {
        assert(s1.contains(s1[0]));
    } else {
        assert(s1.contains(s1[0]));
        assert(s2.contains(s2[0]));
        let j = choose|j: int| 0 <= j < s2.len() && s2[j] == s1[0];
        let i = choose|i: int| 0 <= i < s1.len() && s1[i] == s2[0];
        if i != 0 && j != 0 {
            assert(text_pair_le(s1[0], s1[i]));
            assert(text_pair_le(s2[0], s2[j]));
            lemma_text_pair_le_antisymmetric(s1[0], s2[0]);
        }
        let t1 = s1.drop_first();
        let t2 = s2.drop_first();
        assert forall|i1: int, j1: int| 0 <= i1 < j1 < t1.len() implies text_pair_le(
            #[trigger] t1[i1],
            #[trigger] t1[j1],
        ) && t1[i1] != t1[j1] by {
            assert(s1[i1 + 1] == t1[i1] && s1[j1 + 1] == t1[j1]);
        }
        assert forall|i1: int, j1: int| 0 <= i1 < j1 < t2.len() implies text_pair_le(
            #[trigger] t2[i1],
            #[trigger] t2[j1],
        ) && t2[i1] != t2[j1] by {
            assert(s2[i1 + 1] == t2[i1] && s2[j1 + 1] == t2[j1]);
        }
        assert forall|p: TextPair| t1.contains(p) <==> t2.contains(p) by {
            if t1.contains(p) {
                let a = choose|a: int| 0 <= a < t1.len() && t1[a] == p;
                assert(s1[a + 1] == p);
                assert(s1[0] != s1[a + 1]);
                assert(s2.contains(p));
                let b = choose|b: int| 0 <= b < s2.len() && s2[b] == p;
                assert(b != 0);
                assert(t2[b - 1] == p);
            }
            if t2.contains(p) {
                let a = choose|a: int| 0 <= a < t2.len() && t2[a] == p;
                assert(s2[a + 1] == p);
                assert(s2[0] != s2[a + 1]);
                assert(s1.contains(p));
                let b = choose|b: int| 0 <= b < s1.len() && s1[b] == p;
                assert(b != 0);
                assert(t1[b - 1] == p);
            }
        }
        lemma_sorted_pairs_unique(t1, t2);
        assert(s1 =~= seq![s1[0]] + t1);
        assert(s2 =~= seq![s2[0]] + t2);
    }
}

/// Relies on `slice::sort`: the items are permuted into ascending order;
/// tuples compare lexicographically, and strings lexicographically by their
/// UTF-8 bytes, which is the order of their characters.
#[verifier::external_body]
fn sort_text_pairs(v: &mut Vec<(String, String)>)
    ensures
        final(v)@.to_multiset() == old(v)@.to_multiset(),
        text_pairs_sorted(pairs_view(final(v)@)),
{
    v.sort();
}

proof fn lemma_text_le_skip(a: Seq<char>, b: Seq<char>, i: int)
    requires
        0 <= i <= a.len(),
        i <= b.len(),
        a.subrange(0, i) == b.subrange(0, i),
    ensures
        text_le(a, b) == text_le(a.subrange(i, a.len() as int), b.subrange(i, b.len() as int)),
    decreases i,
{
    if i == 0 {
        assert(a.subrange(0, a.len() as int) =~= a);
        assert(b.subrange(0, b.len() as int) =~= b);
    } else {
        assert(a[0] == a.subrange(0, i)[0]);
        assert(b[0] == b.subrange(0, i)[0]);
        assert(a.drop_first().subrange(0, i - 1) =~= a.subrange(0, i).drop_first());
        assert(b.drop_first().subrange(0, i - 1) =~= b.subrange(0, i).drop_first());
        lemma_text_le_skip(a.drop_first(), b.drop_first(), i - 1);
        assert(a.drop_first().subrange(i - 1, a.len() - 1) =~= a.subrange(i, a.len() as int));
        assert(b.drop_first().subrange(i - 1, b.len() - 1) =~= b.subrange(i, b.len() as int));
    }
}

/// Whether `a` comes strictly before `b` in text order.
pub fn text_lt(a: &str, b: &str) -> (r: bool)
    ensures
        r == (text_le(a@, b@) && a@ != b@),
{
    let na = a.unicode_len();
    let nb = b.unicode_len();
    let m = if na < nb { na } else { nb };
    let mut i: usize = 0;
    while i < m
        invariant
            i <= m,
            m <= na,
            m <= nb,
            na == a@.len(),
            nb == b@.len(),
            a@.subrange(0, i as int) == b@.subrange(0, i as int),
        decreases m - i,
    {
        let ca = a.get_char(i);
        let cb = b.get_char(i);
        if ca != cb {
            proof {
                lemma_text_le_skip(a@, b@, i as int);
                assert(a@.subrange(i as int, na as int)[0] == ca);
                assert(b@.subrange(i as int, nb as int)[0] == cb);
            }
            return ca < cb;
        }
        proof {
            assert(a@.subrange(0, i + 1) =~= a@.subrange(0, i as int).push(ca));
            assert(b@.subrange(0, i + 1) =~= b@.subrange(0, i as int).push(cb));
        }
        i = i + 1;
    }
    proof {
        lemma_text_le_skip(a@, b@, m as int);
        if na == nb {
            assert(a@ =~= a@.subrange(0, m as int));
            assert(b@ =~= b@.subrange(0, m as int));
        }
    }
    na < nb
}

/// Whether two strings hold the same characters.
pub fn same_text(a: &str, b: &str) -> (r: bool)
    ensures
        r == (a@ == b@),
{
    let n = a.unicode_len();
    if n != b.unicode_len() {
        return false;
    }
    let mut i: usize = 0;
    while i < n
        invariant
            i <= n,
            n == a@.len(),
            n == b@.len(),
            a@.subrange(0, i as int) == b@.subrange(0, i as int),
        decreases n - i,
    {
        if a.get_char(i) != b.get_char(i) {
            return false;
        }
        proof {
            assert(a@.subrange(0, i + 1) =~= a@.subrange(0, i as int).push(a@[i as int]));
            assert(b@.subrange(0, i + 1) =~= b@.subrange(0, i as int).push(b@[i as int]));
        }
        i = i + 1;
    }
    proof {
        assert(a@ =~= a@.subrange(0, n as int));
        assert(b@ =~= b@.subrange(0, n as int));
    }
    true
}

/// Sorts text pairs and keeps each once.
pub fn sort_dedup_text_pairs(v: Vec<(String, String)>) -> (r: Vec<(String, String)>)
    ensures
        text_pairs_strictly_sorted(pairs_view(r@)),
        forall|p: TextPair| pairs_view(r@).contains(p) <==> pairs_view(v@).contains(p),
{
    let mut s = v;
    let ghost unsorted = s@;
    sort_text_pairs(&mut s);
    proof {
        lemma_same_contents(s@, unsorted);
        assert forall|p: TextPair| pairs_view(s@).contains(p) <==> pairs_view(unsorted).contains(p) by {
            if pairs_view(s@).contains(p) {
                let k = choose|k: int| 0 <= k < s@.len() && #[trigger] pairs_view(s@)[k] == p;
                assert(unsorted.contains(s@[k]));
                let m = choose|m: int| 0 <= m < unsorted.len() && #[trigger] unsorted[m] == s@[k];
                assert(pairs_view(unsorted)[m] == p);
            }
            if pairs_view(unsorted).contains(p) {
                let k = choose|k: int| 0 <= k < unsorted.len() && #[trigger] pairs_view(unsorted)[k] == p;
                assert(s@.contains(unsorted[k]));
                let m = choose|m: int| 0 <= m < s@.len() && #[trigger] s@[m] == unsorted[k];
                assert(pairs_view(s@)[m] == p);
            }
        }
    }
    let mut r: Vec<(String, String)> = Vec::new();
    let mut k: usize = 0;
    while k < s.len()
        invariant
            k <= s.len(),
            text_pairs_sorted(pairs_view(s@)),
            text_pairs_strictly_sorted(pairs_view(r@)),
            k > 0 ==> r@.len() > 0 && pair_view(r@.last()) == pair_view(s@[k - 1]),
            k == 0 ==> r@.len() == 0,
            forall|p: TextPair|
                pairs_view(r@).contains(p) <==> pairs_view(s@.subrange(0, k as int)).contains(p),
        decreases s.len() - k,
    {
        let ghost before = r@;
        let fresh = r.len() == 0 || !same_text(r[r.len() - 1].0.as_str(), s[k].0.as_str())
            || !same_text(r[r.len() - 1].1.as_str(), s[k].1.as_str());
        if fresh {
            let item = (s[k].0.clone(), s[k].1.clone());
            proof {
                if before.len() > 0 {
                    let last = pair_view(before.last());
                    assert(pairs_view(s@)[k - 1] == last);
                    assert(pairs_view(s@)[k as int] == pair_view(s@[k as int]));
                    assert(text_pair_le(pairs_view(s@)[k - 1], pairs_view(s@)[k as int]));
                    assert forall|i: int, j: int|
                        0 <= i < j < before.len() + 1 implies text_pair_le(
                        #[trigger] pairs_view(before.push(item))[i],
                        #[trigger] pairs_view(before.push(item))[j],
                    ) && pairs_view(before.push(item))[i] != pairs_view(before.push(item))[j] by {
                        if j == before.len() {
                            assert(pairs_view(before.push(item))[j] == pair_view(s@[k as int]));
                            if i < before.len() - 1 {
                                assert(pairs_view(before)[before.len() - 1] == last);
                                assert(text_pair_le(
                                    pairs_view(before)[i],
                                    pairs_view(before)[before.len() - 1],
                                ));
                                lemma_text_pair_le_transitive(
                                    pairs_view(before)[i],
                                    last,
                                    pair_view(s@[k as int]),
                                );
                                if pairs_view(before)[i] == pair_view(s@[k as int]) {
                                    lemma_text_pair_le_antisymmetric(last, pair_view(s@[k as int]));
                                }
                            }
                        } else {
                            assert(pairs_view(before.push(item))[i] == pairs_view(before)[i]);
                            assert(pairs_view(before.push(item))[j] == pairs_view(before)[j]);
                        }
                    }
                }
            }
            r.push(item);
            proof {
                assert(pairs_view(r@) =~= pairs_view(before).push(pair_view(s@[k as int])));
            }
        }
        proof {
            assert(pairs_view(s@.subrange(0, k + 1)) =~= pairs_view(s@.subrange(0, k as int)).push(
                pair_view(s@[k as int]),
            ));
            if !fresh {
                assert(pairs_view(r@).contains(pair_view(s@[k as int]))) by {
                    assert(pairs_view(r@)[r@.len() - 1] == pair_view(r@.last()));
                }
            }
            assert forall|p: TextPair|
                pairs_view(r@).contains(p) <==> pairs_view(s@.subrange(0, k + 1)).contains(p) by {
                let pre = pairs_view(s@.subrange(0, k as int));
                if pairs_view(s@.subrange(0, k + 1)).contains(p) && p != pair_view(s@[k as int]) {
                    let m = choose|m: int|
                        0 <= m < k + 1 && #[trigger] pairs_view(s@.subrange(0, k + 1))[m] == p;
                    assert(pre[m] == p);
                }
                if pre.contains(p) {
                    let m = choose|m: int| 0 <= m < k && #[trigger] pre[m] == p;
                    assert(pairs_view(s@.subrange(0, k + 1))[m] == p);
                }
                if fresh && pairs_view(r@).contains(p) && p != pair_view(s@[k as int]) {
                    let m = choose|m: int| 0 <= m < r@.len() && #[trigger] pairs_view(r@)[m] == p;
                    assert(pairs_view(before)[m] == p);
                }
                if fresh && pairs_view(before).contains(p) {
                    let m = choose|m: int| 0 <= m < before.len() && #[trigger] pairs_view(before)[m] == p;
                    assert(pairs_view(r@)[m] == p);
                }
            }
        }
        k = k + 1;
    }
    proof {
        assert(s@.subrange(0, s@.len() as int) =~= s@);
    }
    r
}

/// The adjacency graph: every ordered (region, neighbor) pair of identifiers,
/// ascending, each once.
pub struct AdjacencyGraph {
    pairs: Vec<(String, String)>,
}

/// The text form of pairs: one `region,neighbor` line each.
pub open spec fn lines_of(s: Seq<TextPair>) -> Seq<char>
    decreases s.len(),
{
    if s.len() == 0 {
        Seq::empty()
    } else {
        lines_of(s.drop_last()) + s.last().0 + seq![','] + s.last().1 + seq!['\n']
    }
}

impl AdjacencyGraph {
    pub closed spec fn view(&self) -> Seq<TextPair> {
        pairs_view(self.pairs@)
    }

    /// A graph of the given pairs, sorted, each kept once.
    pub fn from_pairs(pairs: Vec<(String, String)>) -> (r: AdjacencyGraph)
        ensures
            text_pairs_strictly_sorted(r.view()),
            forall|p: TextPair| r.view().contains(p) <==> pairs_view(pairs@).contains(p),
    {
        AdjacencyGraph { pairs: sort_dedup_text_pairs(pairs) }
    }

    /// The number of ordered pairs.
    pub fn len(&self) -> (r: usize)
        ensures
            r == self.view().len(),
    {
        self.pairs.len()
    }

    /// The pair at `index`, in ascending order.
    pub fn pair(&self, index: usize) -> (r: (String, String))
        requires
            index < self.view().len(),
        ensures
            pair_view(r) == self.view()[index as int],
    {
        (self.pairs[index].0.clone(), self.pairs[index].1.clone())
    }

    /// The neighbors of `region`, ascending, each once.
    pub fn neighbors(&self, region: &str) -> (r: Vec<String>)
        ensures
            forall|y: Seq<char>|
                r@.map_values(|s: String| s@).contains(y) <==> self.view().contains((region@, y)),
            text_pairs_strictly_sorted(self.view()) ==> forall|i: int, j: int|
                0 <= i < j < r@.len() ==> text_le(#[trigger] r@[i]@, #[trigger] r@[j]@) && r@[i]@
                    != r@[j]@,
    {
        let mut r: Vec<String> = Vec::new();
        let mut k: usize = 0;
        let ghost sorted = text_pairs_strictly_sorted(self.view());
        while k < self.pairs.len()
            invariant
                k <= self.pairs.len(),
                sorted == text_pairs_strictly_sorted(self.view()),
                forall|y: Seq<char>|
                    r@.map_values(|s: String| s@).contains(y) <==> pairs_view(
                        self.pairs@.subrange(0, k as int),
                    ).contains((region@, y)),
                sorted ==> forall|i: int, j: int|
                    0 <= i < j < r@.len() ==> text_le(#[trigger] r@[i]@, #[trigger] r@[j]@)
                        && r@[i]@ != r@[j]@,
                sorted && r@.len() > 0 ==> exists|m: int|
                    0 <= m < k && #[trigger] pairs_view(self.pairs@)[m] == (region@, r@.last()@),
            decreases self.pairs.len() - k,
        {
            let ghost before = r@;
            if same_text(self.pairs[k].0.as_str(), region) {
                let y = self.pairs[k].1.clone();
                proof {
                    if sorted && before.len() > 0 {
                        let m = choose|m: int|
                            0 <= m < k && #[trigger] pairs_view(self.pairs@)[m] == (
                                region@,
                                before.last()@,
                            );
                        let pm = pairs_view(self.pairs@)[m];
                        let pk = pairs_view(self.pairs@)[k as int];
                        assert(pk == (region@, y@));
                        assert(text_pair_le(pm, pk) && pm != pk);
                        assert(text_le(before.last()@, y@) && before.last()@ != y@);
                        assert forall|i: int, j: int|
                            0 <= i < j < before.len() + 1 implies text_le(
                            #[trigger] before.push(y)[i]@,
                            #[trigger] before.push(y)[j]@,
                        ) && before.push(y)[i]@ != before.push(y)[j]@ by {
                            if j == before.len() && i < before.len() - 1 {
                                assert(text_le(before[i]@, before[before.len() - 1]@));
                                lemma_text_le_transitive(before[i]@, before.last()@, y@);
                                if before[i]@ == y@ {
                                    lemma_text_le_antisymmetric(before.last()@, y@);
                                }
                            }
                        }
                    }
                }
                r.push(y);
                proof {
                    assert(r@.map_values(|s: String| s@) =~= before.map_values(|s: String| s@).push(
                        self.pairs@[k as int].1@,
                    ));
                    assert(pairs_view(self.pairs@)[k as int] == (region@, r@.last()@));
                }
            }
            proof {
                let pre = pairs_view(self.pairs@.subrange(0, k as int));
                let post = pairs_view(self.pairs@.subrange(0, k + 1));
                assert(post =~= pre.push(pair_view(self.pairs@[k as int])));
                let rv = r@.map_values(|s: String| s@);
                let bv = before.map_values(|s: String| s@);
                assert forall|y: Seq<char>| rv.contains(y) <==> post.contains((region@, y)) by {
                    if post.contains((region@, y)) && (region@, y) != pair_view(self.pairs@[k as int]) {
                        let m = choose|m: int| 0 <= m < k + 1 && #[trigger] post[m] == (region@, y);
                        assert(pre[m] == (region@, y));
                    }
                    if pre.contains((region@, y)) {
                        let m = choose|m: int| 0 <= m < k && #[trigger] pre[m] == (region@, y);
                        assert(post[m] == (region@, y));
                    }
                    if rv.contains(y) && rv.len() > bv.len() && y != rv.last() {
                        let m = choose|m: int| 0 <= m < rv.len() && #[trigger] rv[m] == y;
                        assert(bv[m] == y);
                    }
                    if bv.contains(y) {
                        let m = choose|m: int| 0 <= m < bv.len() && #[trigger] bv[m] == y;
                        assert(rv[m] == y);
                    }
                }
            }
            k = k + 1;
        }
        proof {
            assert(self.pairs@.subrange(0, self.pairs@.len() as int) =~= self.pairs@);
        }
        r
    }

    /// The text form: one `region,neighbor` line per pair, in order.
    pub fn to_text(&self) -> (r: String)
        ensures
            r@ == lines_of(self.view()),
    {
        let comma = ",";
        let newline = "\n";
        proof {
            reveal_strlit(",");
            reveal_strlit("\n");
        }
        let mut out = String::new();
        let mut k: usize = 0;
        while k < self.pairs.len()
            invariant
                k <= self.pairs.len(),
                comma@ == seq![','],
                newline@ == seq!['\n'],
                out@ == lines_of(pairs_view(self.pairs@.subrange(0, k as int))),
            decreases self.pairs.len() - k,
        {
            out.append(self.pairs[k].0.as_str());
            out.append(comma);
            out.append(self.pairs[k].1.as_str());
            out.append(newline);
            proof {
                let pre = pairs_view(self.pairs@.subrange(0, k + 1));
                assert(pre.drop_last() =~= pairs_view(self.pairs@.subrange(0, k as int)));
                assert(pre.last() == pair_view(self.pairs@[k as int]));
            }
            k = k + 1;
        }
        proof {
            assert(self.pairs@.subrange(0, self.pairs@.len() as int) =~= self.pairs@);
        }
        out
    }
}

} // verus!
