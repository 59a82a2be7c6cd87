//! Finding a region's identifier among a feature's properties.
use vstd::prelude::*;
use vstd::string::*;

use crate::graph::{
    lemma_text_le_antisymmetric, lemma_text_le_transitive, same_text, text_le, text_lt,
};

verus! {

/// One property of a feature: its name, and its value where that is a string.
pub struct Property {
    pub key: String,
    pub value: Option<String>,
}

/// A feature's properties as its property map holds them: each name once,
/// in ascending text order (see `FeatureProperties::wf`).
pub struct FeatureProperties {
    pub entries: Vec<Property>,
}

/// The names are strictly ascending in text order, so each occurs once.
pub open spec fn keys_ascending(entries: Seq<Property>) -> bool {
    forall|i: int, j: int|
        0 <= i < j < entries.len() ==> text_le(#[trigger] entries[i].key@, #[trigger] entries[j].key@)
            && entries[i].key@ != entries[j].key@
}

/// What a property holds: its name and its string value, if any.
pub open spec fn property_view(p: Property) -> (Seq<char>, Option<Seq<char>>) {
    (p.key@, opt_view(p.value))
}

pub open spec fn properties_view(entries: Seq<Property>) -> Seq<(Seq<char>, Option<Seq<char>>)> {
    entries.map_values(|p: Property| property_view(p))
}

impl FeatureProperties {
    /// Well-formed as a property map: names unique and ascending.
    pub open spec fn wf(&self) -> bool {
        keys_ascending(self.entries@)
    }

    /// Whether the names are unique and ascending.
    pub fn is_well_formed(&self) -> (r: bool)
        ensures
            r == self.wf(),
    {
        let entries = &self.entries;
        if entries.len() == 0 {
            return true;
        }
        let mut k: usize = 1;
        while k < entries.len()
            invariant
                1 <= k <= entries.len(),
                entries@ == self.entries@,
                keys_ascending(entries@.subrange(0, k as int)),
            decreases entries.len() - k,
        {
            if !text_lt(entries[k - 1].key.as_str(), entries[k].key.as_str()) {
                proof {
                    assert(!keys_ascending(entries@)) by {
                        assert(entries@[k - 1].key@ == entries@[k - 1].key@);
                    }
                }
                return false;
            }
            proof {
                let pre = entries@.subrange(0, k as int);
                let post = entries@.subrange(0, k + 1);
                assert forall|i: int, j: int| 0 <= i < j < post.len() implies text_le(
                    #[trigger] post[i].key@,
                    #[trigger] post[j].key@,
                ) && post[i].key@ != post[j].key@ by {
                    if j < k {
                        assert(pre[i] == post[i] && pre[j] == post[j]);
                    } else if i < k - 1 {
                        let a = post[i].key@;
                        let b = post[k - 1].key@;
                        let c = post[j].key@;
                        assert(pre[i] == post[i] && pre[k - 1] == post[k - 1]);
                        assert(text_le(a, b) && a != b);
                        lemma_text_le_transitive(a, b, c);
                        if a == c {
                            lemma_text_le_antisymmetric(b, c);
                        }
                    }
                }
            }
            k = k + 1;
        }
        proof {
            assert(entries@.subrange(0, entries@.len() as int) =~= entries@);
        }
        true
    }
}

pub open spec fn opt_view(o: Option<String>) -> Option<Seq<char>> {
    match o {
        Some(s) => Some(s@),
        None => None,
    }
}

/// The value of the first property named `key`: `None` where there is no such
/// property, `Some(None)` where its value is not a string.
pub open spec fn lookup(entries: Seq<Property>, key: Seq<char>) -> Option<Option<Seq<char>>>
    decreases entries.len(),
{
    if entries.len() == 0 {
        None
    } else if entries[0].key@ == key {
        Some(opt_view(entries[0].value))
    } else {
        lookup(entries.drop_first(), key)
    }
}

pub open spec fn known_key_10() -> Seq<char> {
    seq!['G', 'E', 'O', 'I', 'D', '1', '0']
}

pub open spec fn known_key_20() -> Seq<char> {
    seq!['G', 'E', 'O', 'I', 'D', '2', '0']
}

pub open spec fn geoid_prefix() -> Seq<char> {
    seq!['G', 'E', 'O', 'I', 'D']
}

/// A property name that looks like an identifier: it starts with `GEOID`.
pub open spec fn geoid_like(key: Seq<char>) -> bool {
    key.len() >= 5 && key.subrange(0, 5) == geoid_prefix()
}

/// The string value of the first well-known identifier property present.
pub open spec fn known_spec(entries: Seq<Property>) -> Option<Seq<char>> {
    match lookup(entries, known_key_10()) {
        Some(Some(v)) => Some(v),
        _ => match lookup(entries, known_key_20()) {
            Some(Some(v)) => Some(v),
            _ => None,
        },
    }
}

/// The value of the first identifier-like property, where it is a string.
pub open spec fn unknown_spec(entries: Seq<Property>) -> Option<Seq<char>>
    decreases entries.len(),
{
    if entries.len() == 0 {
        None
    } else if geoid_like(entries[0].key@) {
        opt_view(entries[0].value)
    } else {
        unknown_spec(entries.drop_first())
    }
}

pub open spec fn feature_id_spec(entries: Seq<Property>) -> Option<Seq<char>> {
    match known_spec(entries) {
        Some(v) => Some(v),
        None => unknown_spec(entries),
    }
}

/// Which way an identifier was found: a well-known property, or the
/// fallback scan for an identifier-like one.
#[derive(Clone, Copy, Debug, PartialEq, Eq, Structural)]
pub enum IdSource {
    Known,
    Fallback,
}

/// The identifier of a feature depends only on what its property map holds:
/// two well-formed property lists with the same properties give the same
/// identifier, whatever their construction.
pub proof fn lemma_feature_id_depends_on_contents(e1: Seq<Property>, e2: Seq<Property>)
    requires
        keys_ascending(e1),
        keys_ascending(e2),
        forall|p: (Seq<char>, Option<Seq<char>>)|
            properties_view(e1).contains(p) <==> properties_view(e2).contains(p),
    ensures
        feature_id_spec(e1) == feature_id_spec(e2),
{
    lemma_views_unique(e1, e2);
    lemma_specs_by_view(e1, e2);
}

proof fn lemma_views_unique(e1: Seq<Property>, e2: Seq<Property>)
    requires
        keys_ascending(e1),
        keys_ascending(e2),
        forall|p: (Seq<char>, Option<Seq<char>>)|
            properties_view(e1).contains(p) <==> properties_view(e2).contains(p),
    ensures
        properties_view(e1) == properties_view(e2),
    decreases e1.len(),
{
    let v1 = properties_view(e1);
    let v2 = properties_view(e2);
    if e1.len() == 0 {
        if e2.len() > 0 {
            assert(v2.contains(v2[0]));
        }
        assert(v1 =~= v2);
    } else if e2.len() == 0 {
        assert(v1.contains(v1[0]));
    } else {
        assert(v1.contains(v1[0]));
        assert(v2.contains(v2[0]));
        let j = choose|j: int| 0 <= j < v2.len() && v2[j] == v1[0];
        let i = choose|i: int| 0 <= i < v1.len() && v1[i] == v2[0];
        if i != 0 && j != 0 {
            assert(text_le(e1[0].key@, e1[i].key@));
            assert(text_le(e2[0].key@, e2[j].key@));
            lemma_text_le_antisymmetric(e1[0].key@, e2[0].key@);
            assert(e1[0].key@ == e1[i].key@);
        }
        assert(v1[0] == v2[0]);
        let t1 = e1.drop_first();
        let t2 = e2.drop_first();
        assert(properties_view(t1) =~= v1.drop_first());
        assert(properties_view(t2) =~= v2.drop_first());
        assert forall|i1: int, j1: int| 0 <= i1 < j1 < t1.len() implies text_le(
            #[trigger] t1[i1].key@,
            #[trigger] t1[j1].key@,
        ) && t1[i1].key@ != t1[j1].key@ by {
            assert(e1[i1 + 1] == t1[i1] && e1[j1 + 1] == t1[j1]);
        }
        assert forall|i1: int, j1: int| 0 <= i1 < j1 < t2.len() implies text_le(
            #[trigger] t2[i1].key@,
            #[trigger] t2[j1].key@,
        ) && t2[i1].key@ != t2[j1].key@ by {
            assert(e2[i1 + 1] == t2[i1] && e2[j1 + 1] == t2[j1]);
        }
        assert forall|p: (Seq<char>, Option<Seq<char>>)|
            properties_view(t1).contains(p) <==> properties_view(t2).contains(p) by {
            if properties_view(t1).contains(p) {
                let a = choose|a: int| 0 <= a < t1.len() && properties_view(t1)[a] == p;
                assert(v1[a + 1] == p);
                assert(e1[0].key@ != e1[a + 1].key@);
                assert(v2.contains(p));
                let b = choose|b: int| 0 <= b < v2.len() && v2[b] == p;
                assert(b != 0);
                assert(properties_view(t2)[b - 1] == p);
            }
            if properties_view(t2).contains(p) {
                let a = choose|a: int| 0 <= a < t2.len() && properties_view(t2)[a] == p;
                assert(v2[a + 1] == p);
                assert(e2[0].key@ != e2[a + 1].key@);
                assert(v1.contains(p));
                let b = choose|b: int| 0 <= b < v1.len() && v1[b] == p;
                assert(b != 0);
                assert(properties_view(t1)[b - 1] == p);
            }
        }
        lemma_views_unique(t1, t2);
        assert(v1 =~= seq![v1[0]] + v1.drop_first());
        assert(v2 =~= seq![v2[0]] + v2.drop_first());
    }
}

proof fn lemma_specs_by_view(e1: Seq<Property>, e2: Seq<Property>)
    requires
        properties_view(e1) == properties_view(e2),
    ensures
        lookup(e1, known_key_10()) == lookup(e2, known_key_10()),
        lookup(e1, known_key_20()) == lookup(e2, known_key_20()),
        unknown_spec(e1) == unknown_spec(e2),
        feature_id_spec(e1) == feature_id_spec(e2),
    decreases e1.len(),
{
    let v1 = properties_view(e1);
    let v2 = properties_view(e2);
    assert(v1.len() == v2.len());
    if e1.len() > 0 {
        assert(v1[0] == v2[0]);
        assert(properties_view(e1.drop_first()) =~= v1.drop_first());
        assert(properties_view(e2.drop_first()) =~= v2.drop_first());
        lemma_specs_by_view(e1.drop_first(), e2.drop_first());
    }
}

fn clone_opt(o: &Option<String>) -> (r: Option<String>)
    ensures
        opt_view(r) == opt_view(*o),
{
    match o {
        Some(s) => Some(s.clone()),
        None => None,
    }
}

/// The value of the first property named `key`.
fn property(properties: &FeatureProperties, key: &str) -> (r: Option<Option<String>>)
    ensures
        match r {
            Some(v) => lookup(properties.entries@, key@) == Some(opt_view(v)),
            None => lookup(properties.entries@, key@) is None,
        },
{
    let entries = &properties.entries;
    let mut i: usize = 0;
    assert(entries@.subrange(0, entries@.len() as int) =~= entries@);
    while i < entries.len()
        invariant
            i <= entries.len(),
            entries@ == properties.entries@,
            lookup(entries@, key@) == lookup(entries@.subrange(i as int, entries@.len() as int), key@),
        decreases entries.len() - i,
    {
        proof {
            let rest = entries@.subrange(i as int, entries@.len() as int);
            assert(rest.drop_first() =~= entries@.subrange(i + 1, entries@.len() as int));
            assert(rest[0] == entries@[i as int]);
        }
        if same_text(entries[i].key.as_str(), key) {
            let v = clone_opt(&entries[i].value);
            proof {
                let rest = entries@.subrange(i as int, entries@.len() as int);
                assert(rest[0].key@ == key@);
                assert(lookup(rest, key@) == Some(opt_view(rest[0].value)));
            }
            return Some(v);
        }
        i = i + 1;
    }
    None
}

/// Whether a property name starts with `GEOID`.
pub fn is_geoid_like(key: &str) -> (r: bool)
    ensures
        r == geoid_like(key@),
{
    let prefix = "GEOID";
    proof {
        reveal_strlit("GEOID");
        assert(prefix@ =~= geoid_prefix());
    }
    if key.unicode_len() < 5 {
        return false;
    }
    let mut i: usize = 0;
    while i < 5
        invariant
            i <= 5,
            key@.len() >= 5,
            prefix@ == geoid_prefix(),
            key@.subrange(0, i as int) == prefix@.subrange(0, i as int),
        decreases 5 - i,
    {
        if key.get_char(i) != prefix.get_char(i) {
            proof {
                assert(key@.subrange(0, 5)[i as int] != geoid_prefix()[i as int]);
            }
            return false;
        }
        proof {
            assert(key@.subrange(0, i + 1) =~= key@.subrange(0, i as int).push(key@[i as int]));
            assert(prefix@.subrange(0, i + 1) =~= prefix@.subrange(0, i as int).push(
                prefix@[i as int],
            ));
        }
        i = i + 1;
    }
    proof {
        assert(prefix@.subrange(0, 5) =~= prefix@);
    }
    true
}

/// The value of the first of the well-known identifier properties (`GEOID10`,
/// then `GEOID20`) that is present with a string value.
pub fn known(properties: &FeatureProperties) -> (r: Option<String>)
    requires
        properties.wf(),
    ensures
        opt_view(r) == known_spec(properties.entries@),
{
    let key10 = "GEOID10";
    let key20 = "GEOID20";
    proof {
        reveal_strlit("GEOID10");
        reveal_strlit("GEOID20");
        assert(key10@ =~= known_key_10());
        assert(key20@ =~= known_key_20());
    }
    match property(properties, key10) {
        Some(Some(v)) => Some(v),
        _ => match property(properties, key20) {
            Some(Some(v)) => Some(v),
            _ => None,
        },
    }
}

/// The value of the identifier-like property with the least name, by a scan
/// of the properties in order; nothing where that value is not a string.
pub fn unknown(properties: &FeatureProperties) -> (r: Option<String>)
    requires
        properties.wf(),
    ensures
        opt_view(r) == unknown_spec(properties.entries@),
{
    let entries = &properties.entries;
    let mut i: usize = 0;
    assert(entries@.subrange(0, entries@.len() as int) =~= entries@);
    while i < entries.len()
        invariant
            i <= entries.len(),
            entries@ == properties.entries@,
            unknown_spec(entries@) == unknown_spec(
                entries@.subrange(i as int, entries@.len() as int),
            ),
        decreases entries.len() - i,
    {
        proof {
            let rest = entries@.subrange(i as int, entries@.len() as int);
            assert(rest.drop_first() =~= entries@.subrange(i + 1, entries@.len() as int));
            assert(rest[0] == entries@[i as int]);
        }
        if is_geoid_like(entries[i].key.as_str()) {
            let v = clone_opt(&entries[i].value);
            proof {
                let rest = entries@.subrange(i as int, entries@.len() as int);
                assert(geoid_like(rest[0].key@));
                assert(unknown_spec(rest) == opt_view(rest[0].value));
            }
            return v;
        }
        i = i + 1;
    }
    None
}

/// Whether a feature's identifier would come from a well-known property or
/// from the fallback scan; nothing where it has none.
pub fn identifier_source(properties: &FeatureProperties) -> (r: Option<IdSource>)
    requires
        properties.wf(),
    ensures
        r == Some(IdSource::Known) <==> known_spec(properties.entries@) is Some,
        r == Some(IdSource::Fallback) <==> (known_spec(properties.entries@) is None
            && unknown_spec(properties.entries@) is Some),
        r is None <==> feature_id_spec(properties.entries@) is None,
{
    if known(properties).is_some() {
        Some(IdSource::Known)
    } else if unknown(properties).is_some() {
        Some(IdSource::Fallback)
    } else {
        None
    }
}

/// A feature's identifier: a well-known identifier property first, else the
/// first identifier-like one.
pub fn feature_id(properties: &FeatureProperties) -> (r: Option<String>)
    requires
        properties.wf(),
    ensures
        opt_view(r) == feature_id_spec(properties.entries@),
{
    match known(properties) {
        Some(v) => Some(v),
        None => unknown(properties),
    }
}

} // verus!
