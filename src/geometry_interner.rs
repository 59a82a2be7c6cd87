//! Region ingestion and the adjacency computation over shared vertices.
use vstd::prelude::*;

use crate::error::Error;
use crate::feature_id::{feature_id, feature_id_spec, FeatureProperties};
use crate::graph::{
    lemma_sorted_pairs_unique, pairs_view, text_pairs_strictly_sorted, AdjacencyGraph, TextPair,
};
use crate::interner::{interned_after, interned_all, no_duplicates, GeoIdInterner, InternedGeoId};
use crate::pairs::{adjacency_pairs, partition_incidences, touching, Incidence};
use crate::point::{key_of, lemma_key_injective, point_spec, GeometryPoint};

verus! {

broadcast use vstd::seq_lib::group_seq_properties;

/// One input feature: its properties, and its vertices as decimal
/// (longitude, latitude) text, or nothing where it has no usable geometry.
pub struct Feature {
    pub properties: FeatureProperties,
    pub geometry: Option<Vec<(String, String)>>,
}

/// A loaded region: its identifier and its quantized vertices.
pub type Region = (Seq<char>, Seq<GeometryPoint>);

/// Two distinct regions share a vertex.
pub open spec fn adjacent(regions: Seq<Region>, x: Seq<char>, y: Seq<char>) -> bool {
    x != y && exists|i: int, j: int, p: GeometryPoint|
        0 <= i < regions.len() && 0 <= j < regions.len() && regions[i].0 == x && regions[j].0 == y
            && #[trigger] regions[i].1.contains(p) && #[trigger] regions[j].1.contains(p)
}

/// The quantized vertices of a feature's geometry, or the first failure.
pub open spec fn vertices_spec(v: Seq<(String, String)>) -> Result<Seq<GeometryPoint>, Error>
    decreases v.len(),
{
    if v.len() == 0 {
        Ok(Seq::empty())
    } else {
        match vertices_spec(v.drop_last()) {
            Err(e) => Err(e),
            Ok(ps) => match point_spec(v.last().0@, v.last().1@) {
                Err(e) => Err(e),
                Ok(p) => Ok(ps.push(p)),
            },
        }
    }
}

/// What reading one feature gives: its region, or why it cannot be read.
pub open spec fn feature_spec(f: Feature) -> Result<Region, Error> {
    match feature_id_spec(f.properties.entries@) {
        None => Err(Error::MissingIdentifier),
        Some(name) => match f.geometry {
            None => Err(Error::UnresolvableFeature),
            Some(g) => match vertices_spec(g@) {
                Err(e) => Err(e),
                Ok(ps) => Ok((name, ps)),
            },
        },
    }
}

/// What reading features in order gives: their regions, or the first failure.
pub open spec fn features_spec(fs: Seq<Feature>) -> Result<Seq<Region>, Error>
    decreases fs.len(),
{
    if fs.len() == 0 {
        Ok(Seq::empty())
    } else {
        match features_spec(fs.drop_last()) {
            Err(e) => Err(e),
            Ok(rs) => match feature_spec(fs.last()) {
                Err(e) => Err(e),
                Ok(r) => Ok(rs.push(r)),
            },
        }
    }
}

/// The identifiers of regions, in order.
pub open spec fn region_names(regions: Seq<Region>) -> Seq<Seq<char>> {
    regions.map_values(|r: Region| r.0)
}

/// Regions, their interned identifiers, and the point index: the incidences
/// `(point key, region identifier)` of every region vertex.
pub struct GeometryInterner {
    geoid_interner: GeoIdInterner,
    incidences: Vec<Incidence>,
    regions: Ghost<Seq<Region>>,
}

impl GeometryInterner {
    /// The regions loaded so far, in order.
    pub closed spec fn regions(&self) -> Seq<Region> {
        self.regions@
    }

    /// The number of distinct region identifiers loaded so far.
    pub closed spec fn region_count(&self) -> nat {
        self.geoid_interner.strings().len()
    }

    pub closed spec fn wf(&self) -> bool {
        let names = self.geoid_interner.strings();
        let inc = self.incidences@;
        let regions = self.regions@;
        &&& self.geoid_interner.wf()
        &&& forall|k: int|
            0 <= k < inc.len() ==> (#[trigger] inc[k]).1 < names.len() && exists|i: int, p: GeometryPoint|
                0 <= i < regions.len() && regions[i].0 == names[inc[k].1 as int]
                    && #[trigger] regions[i].1.contains(p) && key_of(p) == inc[k].0
        &&& forall|i: int, p: GeometryPoint|
            0 <= i < regions.len() && #[trigger] regions[i].1.contains(p) ==> exists|id: u64|
                id < names.len() && names[id as int] == regions[i].0 && #[trigger] inc.contains(
                    (key_of(p), id),
                )
        &&& forall|id: int| 0 <= id < names.len() ==> exists|i: int|
            0 <= i < regions.len() && #[trigger] names[id] == regions[i].0
    }

    /// An interner that holds no region.
    pub fn new() -> (r: GeometryInterner)
        ensures
            r.wf(),
            r.regions() == Seq::<Region>::empty(),
            r.region_count() == 0,
    {
        GeometryInterner {
            geoid_interner: GeoIdInterner::new(),
            incidences: Vec::new(),
            regions: Ghost(Seq::empty()),
        }
    }

    /// Adds a region: interns its identifier and records every vertex in
    /// the point index.
    pub fn insert(&mut self, name: &str, points: &Vec<GeometryPoint>)
        requires
            old(self).wf(),
            old(self).region_count() + 1 < u32::MAX,
        ensures
            final(self).wf(),
            final(self).regions() == old(self).regions().push((name@, points@)),
            final(self).names() == interned_after(old(self).names(), name@),
            final(self).region_count() <= old(self).region_count() + 1,
    {
        let ghost old_names = self.geoid_interner.strings();
        let geoid = self.geoid_interner.intern(name);
        let ghost names = self.geoid_interner.strings();
        let ghost old_inc = self.incidences@;
        let ghost regions = self.regions@.push((name@, points@));
        let ghost ri = self.regions@.len() as int;
        proof {
            assert forall|k: int| 0 <= k < old_inc.len() implies names[old_inc[k].1 as int]
                == old_names[old_inc[k].1 as int] by {
            }
        }
        let mut m: usize = 0;
        while m < points.len()
            invariant
                m <= points.len(),
                self.geoid_interner.strings() == names,
                self.geoid_interner.wf(),
                names.len() < u32::MAX,
                geoid.0 < names.len(),
                names[geoid.0 as int] == name@,
                ri == regions.len() - 1,
                regions[ri] == (name@, points@),
                forall|k: int| 0 <= k < old_inc.len() ==> names[old_inc[k].1 as int] == old_names[old_inc[k].1 as int],
                old_names.len() <= names.len(),
                old_names == old(self).geoid_interner.strings(),
                old_inc == old(self).incidences@,
                self.regions@ == old(self).regions@,
                regions == old(self).regions@.push((name@, points@)),
                self.incidences@.len() == old_inc.len() + m,
                forall|k: int| 0 <= k < old_inc.len() ==> self.incidences@[k] == old_inc[k],
                forall|k: int| 0 <= k < m ==> #[trigger] self.incidences@[old_inc.len() + k] == (
                    key_of(points@[k]),
                    geoid.0 as u64,
                ),
            decreases points.len() - m,
        {
            let key = points[m].key();
            self.incidences.push((key, geoid.0 as u64));
            m = m + 1;
        }
        proof {
            let inc = self.incidences@;
            let old_regions = old(self).regions@;
            assert forall|k: int| 0 <= k < inc.len() implies (#[trigger] inc[k]).1 < names.len()
                && exists|i: int, p: GeometryPoint|
                0 <= i < regions.len() && regions[i].0 == names[inc[k].1 as int]
                    && #[trigger] regions[i].1.contains(p) && key_of(p) == inc[k].0 by {
                if k < old_inc.len() {
                    assert(inc[k] == old_inc[k]);
                    let (i, p) = choose|i: int, p: GeometryPoint|
                        0 <= i < old_regions.len() && old_regions[i].0 == old_names[old_inc[k].1 as int]
                            && #[trigger] old_regions[i].1.contains(p) && key_of(p) == old_inc[k].0;
                    assert(regions[i] == old_regions[i]);
                    assert(regions[i].1.contains(p));
                } else {
                    let t = k - old_inc.len();
                    assert(inc[old_inc.len() + t] == (key_of(points@[t]), geoid.0 as u64));
                    assert(regions[ri].1[t] == points@[t]);
                    assert(regions[ri].1.contains(points@[t]));
                }
            }
            assert forall|i: int, p: GeometryPoint|
                0 <= i < regions.len() && #[trigger] regions[i].1.contains(p) implies exists|id: u64|
                id < names.len() && names[id as int] == regions[i].0 && #[trigger] inc.contains(
                    (key_of(p), id),
                ) by {
                if i < old_regions.len() {
                    assert(old_regions[i] == regions[i]);
                    let id = choose|id: u64|
                        id < old_names.len() && old_names[id as int] == old_regions[i].0
                            && #[trigger] old_inc.contains((key_of(p), id));
                    let k = choose|k: int| 0 <= k < old_inc.len() && old_inc[k] == (key_of(p), id);
                    assert(inc[k] == (key_of(p), id));
                    assert(inc.contains((key_of(p), id)));
                    assert(names[id as int] == regions[i].0);
                } else {
                    let t = choose|t: int| 0 <= t < points@.len() && points@[t] == p;
                    assert(inc[old_inc.len() + t] == (key_of(p), geoid.0 as u64));
                    assert(inc.contains((key_of(p), geoid.0 as u64)));
                }
            }
            assert forall|id: int| 0 <= id < names.len() implies exists|i: int|
                0 <= i < regions.len() && #[trigger] names[id] == regions[i].0 by {
                if id < old_names.len() {
                    let i = choose|i: int| 0 <= i < old_regions.len() && #[trigger] old_names[id] == old_regions[i].0;
                    assert(regions[i] == old_regions[i]);
                } else {
                    assert(names[id] == regions[ri].0);
                }
            }
        }
        self.regions = Ghost(regions);
        assert(self.wf());
    }

    /// Reads one feature: its identifier, then its vertices. Nothing is
    /// changed where the feature cannot be read.
    pub fn load_feature(&mut self, feature: &Feature) -> (r: Result<(), Error>)
        requires
            old(self).wf(),
            old(self).region_count() + 1 < u32::MAX,
            feature.properties.wf(),
        ensures
            final(self).wf(),
            match feature_spec(*feature) {
                Err(e) => r == Err::<(), Error>(e) && *final(self) == *old(self),
                Ok(region) => r is Ok && final(self).regions() == old(self).regions().push(region)
                    && final(self).names() == interned_after(old(self).names(), region.0)
                    && final(self).region_count() <= old(self).region_count() + 1,
            },
    {
        let name = match feature_id(&feature.properties) {
            Some(name) => name,
            None => return Err(Error::MissingIdentifier),
        };
        let vertices = match &feature.geometry {
            Some(g) => g,
            None => return Err(Error::UnresolvableFeature),
        };
        let mut points: Vec<GeometryPoint> = Vec::new();
        let mut m: usize = 0;
        while m < vertices.len()
            invariant
                m <= vertices.len(),
                *self == *old(self),
                old(self).wf(),
                feature.geometry is Some,
                feature.geometry->Some_0@ == vertices@,
                feature_id_spec(feature.properties.entries@) == Some(name@),
                vertices_spec(vertices@.subrange(0, m as int)) == Ok::<Seq<GeometryPoint>, Error>(points@),
            decreases vertices.len() - m,
        {
            let p = GeometryPoint::from_decimal(vertices[m].0.as_str(), vertices[m].1.as_str());
            proof {
                let pre = vertices@.subrange(0, m + 1);
                assert(pre.drop_last() =~= vertices@.subrange(0, m as int));
                assert(pre.last() == vertices@[m as int]);
            }
            match p {
                Ok(p) => points.push(p),
                Err(e) => {
                    proof {
                        lemma_vertices_failure(vertices@, m as int);
                    }
                    return Err(e);
                },
            }
            m = m + 1;
        }
        proof {
            assert(vertices@.subrange(0, vertices@.len() as int) =~= vertices@);
        }
        self.insert(name.as_str(), &points);
        Ok(())
    }

    /// Reads features in order, stopping at the first that cannot be read.
    pub fn load_features(&mut self, features: &Vec<Feature>) -> (r: Result<(), Error>)
        requires
            old(self).wf(),
            old(self).region_count() + features@.len() + 1 < u32::MAX,
            forall|k: int| 0 <= k < features@.len() ==> (#[trigger] features@[k]).properties.wf(),
        ensures
            final(self).wf(),
            match features_spec(features@) {
                Err(e) => r == Err::<(), Error>(e) && exists|k: int|
                    0 <= k < features@.len() && #[trigger] features_spec(features@.subrange(0, k))
                        is Ok && feature_spec(features@[k]) == Err::<Region, Error>(e)
                        && final(self).regions() == old(self).regions() + features_spec(
                        features@.subrange(0, k),
                    )->Ok_0 && final(self).names() == interned_all(
                        old(self).names(),
                        region_names(features_spec(features@.subrange(0, k))->Ok_0),
                    ),
                Ok(regions) => r is Ok && final(self).regions() == old(self).regions() + regions
                    && final(self).names() == interned_all(old(self).names(), region_names(regions)),
            },
    {
        let mut k: usize = 0;
        while k < features.len()
            invariant
                k <= features.len(),
                self.wf(),
                forall|j: int| 0 <= j < features@.len() ==> (#[trigger] features@[j]).properties.wf(),
                self.region_count() <= old(self).region_count() + k,
                old(self).region_count() + features@.len() + 1 < u32::MAX,
                match features_spec(features@.subrange(0, k as int)) {
                    Err(e) => false,
                    Ok(regions) => self.regions() == old(self).regions() + regions && self.names()
                        == interned_all(old(self).names(), region_names(regions)),
                },
            decreases features.len() - k,
        {
            let r = self.load_feature(&features[k]);
            proof {
                let pre = features@.subrange(0, k + 1);
                assert(pre.drop_last() =~= features@.subrange(0, k as int));
                assert(pre.last() == features@[k as int]);
            }
            if r.is_err() {
                proof {
                    lemma_features_failure(features@, k as int);
                    assert(features_spec(features@.subrange(0, k as int)) is Ok);
                }
                return r;
            }
            proof {
                let pre = features@.subrange(0, k + 1);
                let rs = features_spec(features@.subrange(0, k as int))->Ok_0;
                let reg = feature_spec(features@[k as int])->Ok_0;
                assert(self.regions() =~= old(self).regions() + rs.push(reg));
                assert(region_names(rs.push(reg)).drop_last() =~= region_names(rs));
            }
            k = k + 1;
        }
        proof {
            assert(features@.subrange(0, features@.len() as int) =~= features@);
        }
        Ok(())
    }

    /// The point index: `(point key, region identifier)` per region vertex.
    pub closed spec fn incidences(&self) -> Seq<Incidence> {
        self.incidences@
    }

    /// The interned region identifiers; identifier `i` is the `i`th string.
    pub closed spec fn names(&self) -> Seq<Seq<char>> {
        self.geoid_interner.strings()
    }

    /// The point index split into `n` parts by point, for independent work:
    /// every incidence of a point lands in the same part.
    pub fn point_partition(&self, n: u64) -> (r: Vec<Vec<Incidence>>)
        requires
            n > 0,
        ensures
            r@.len() == n,
            forall|p: int, x: Incidence|
                0 <= p < n ==> (#[trigger] r@[p]@.contains(x) <==> (self.incidences().contains(x)
                    && x.0 % n == p)),
    {
        partition_incidences(&self.incidences, n)
    }

    /// The graph of identifier pairs: each pair of issued identifiers
    /// becomes the pair of their strings; others are skipped.
    pub fn graph_of_pairs(&self, ids: &Vec<(u64, u64)>) -> (r: AdjacencyGraph)
        requires
            self.wf(),
        ensures
            text_pairs_strictly_sorted(r.view()),
            forall|x: Seq<char>, y: Seq<char>|
                r.view().contains((x, y)) <==> exists|a: u64, b: u64|
                    #![trigger ids@.contains((a, b))]
                    ids@.contains((a, b)) && a < self.names().len() && b < self.names().len()
                        && self.names()[a as int] == x && self.names()[b as int] == y,
    {
        let count = self.geoid_interner.len() as u64;
        let ghost names = self.geoid_interner.strings();
        let mut named: Vec<(String, String)> = Vec::new();
        let mut k: usize = 0;
        while k < ids.len()
            invariant
                k <= ids.len(),
                self.geoid_interner.wf(),
                names == self.geoid_interner.strings(),
                count == names.len(),
                forall|x: Seq<char>, y: Seq<char>|
                    pairs_view(named@).contains((x, y)) <==> exists|a: u64, b: u64|
                        #![trigger ids@.subrange(0, k as int).contains((a, b))]
                        ids@.subrange(0, k as int).contains((a, b)) && a < names.len() && b
                            < names.len() && names[a as int] == x && names[b as int] == y,
            decreases ids.len() - k,
        {
            let (a, b) = ids[k];
            let ghost before = pairs_view(named@);
            if a < count && b < count {
                let x = self.resolve_geoid(InternedGeoId(a as u32));
                let y = self.resolve_geoid(InternedGeoId(b as u32));
                named.push((x, y));
                proof {
                    assert(pairs_view(named@) =~= before.push((x@, y@)));
                }
            }
            proof {
                let pre = ids@.subrange(0, k as int);
                let post = ids@.subrange(0, k + 1);
                assert(post =~= pre.push((a, b)));
                assert forall|x: Seq<char>, y: Seq<char>|
                    pairs_view(named@).contains((x, y)) <==> exists|a2: u64, b2: u64|
                        #![trigger post.contains((a2, b2))]
                        post.contains((a2, b2)) && a2 < names.len() && b2 < names.len()
                            && names[a2 as int] == x && names[b2 as int] == y by {
                    if pairs_view(named@).contains((x, y)) {
                        if before.contains((x, y)) {
                            let (a2, b2) = choose|a2: u64, b2: u64|
                                #![trigger pre.contains((a2, b2))]
                                pre.contains((a2, b2)) && a2 < names.len() && b2 < names.len()
                                    && names[a2 as int] == x && names[b2 as int] == y;
                            let m = choose|m: int| 0 <= m < pre.len() && pre[m] == (a2, b2);
                            assert(post[m] == (a2, b2));
                            assert(post.contains((a2, b2)));
                        } else {
                            let m = choose|m: int|
                                0 <= m < pairs_view(named@).len() && pairs_view(named@)[m] == (x, y);
                            assert(m == before.len());
                            assert(post[k as int] == (a, b));
                            assert(post.contains((a, b)));
                        }
                    }
                    if exists|a2: u64, b2: u64|
                        #![trigger post.contains((a2, b2))]
                        post.contains((a2, b2)) && a2 < names.len() && b2 < names.len()
                            && names[a2 as int] == x && names[b2 as int] == y {
                        let (a2, b2) = choose|a2: u64, b2: u64|
                            #![trigger post.contains((a2, b2))]
                            post.contains((a2, b2)) && a2 < names.len() && b2 < names.len()
                                && names[a2 as int] == x && names[b2 as int] == y;
                        let m = choose|m: int| 0 <= m < post.len() && post[m] == (a2, b2);
                        if m < k {
                            assert(pre[m] == (a2, b2));
                            assert(pre.contains((a2, b2)));
                            assert(before.contains((x, y)));
                            let i = choose|i: int| 0 <= i < before.len() && before[i] == (x, y);
                            assert(pairs_view(named@)[i] == (x, y));
                        } else {
                            assert((a2, b2) == (a, b));
                            let last = pairs_view(named@).len() - 1;
                            assert(pairs_view(named@)[last] == (x, y));
                        }
                    }
                }
            }
            k = k + 1;
        }
        proof {
            assert(ids@.subrange(0, ids@.len() as int) =~= ids@);
        }
        AdjacencyGraph::from_pairs(named)
    }

    /// Every ordered (region, neighbor) pair of identifiers of regions that
    /// share a vertex, ascending, each once. A region that shares no vertex
    /// appears in no pair.
    pub fn compute_adjacencies(&self) -> (r: AdjacencyGraph)
        requires
            self.wf(),
        ensures
            text_pairs_strictly_sorted(r.view()),
            forall|x: Seq<char>, y: Seq<char>|
                r.view().contains((x, y)) <==> adjacent(self.regions(), x, y),
    {
        let ids = adjacency_pairs(&self.incidences);
        let r = self.graph_of_pairs(&ids);
        proof {
            assert forall|x: Seq<char>, y: Seq<char>|
                r.view().contains((x, y)) <==> adjacent(self.regions(), x, y) by {
                if r.view().contains((x, y)) {
                    let (a, b) = choose|a: u64, b: u64|
                        #![trigger ids@.contains((a, b))]
                        ids@.contains((a, b)) && a < self.names().len() && b < self.names().len()
                            && self.names()[a as int] == x && self.names()[b as int] == y;
                    self.lemma_touching_adjacent(a, b);
                }
                if adjacent(self.regions(), x, y) {
                    let (a, b) = self.lemma_adjacent_touching(x, y);
                    assert(ids@.contains((a, b)));
                }
            }
        }
        r
    }

    /// The identifier string of an interned identifier that this holds.
    fn resolve_geoid(&self, geoid: InternedGeoId) -> (r: String)
        requires
            self.geoid_interner.wf(),
            geoid.0 < self.geoid_interner.strings().len(),
        ensures
            r@ == self.geoid_interner.strings()[geoid.0 as int],
    {
        match self.geoid_interner.resolve(geoid) {
            Some(s) => s,
            None => String::new(),
        }
    }

    /// The point index holds exactly the region vertices: the incidence of
    /// point `p` and identifier `id` is recorded when, and only when, `id` was
    /// issued and a loaded region of that identifier has `p` as a vertex;
    /// and every incidence is of some point.
    pub proof fn lemma_point_index(&self, p: GeometryPoint, k: u64, id: u64)
        requires
            self.wf(),
        ensures
            self.incidences().contains((key_of(p), id)) <==> (id < self.names().len() && exists|i: int|
                0 <= i < self.regions().len() && self.regions()[i].0 == self.names()[id as int]
                    && #[trigger] self.regions()[i].1.contains(p)),
            self.incidences().contains((k, id)) ==> exists|q: GeometryPoint| key_of(q) == k,
    {
        let inc = self.incidences@;
        let names = self.geoid_interner.strings();
        let regions = self.regions@;
        if inc.contains((key_of(p), id)) {
            let x = choose|x: int| 0 <= x < inc.len() && inc[x] == (key_of(p), id);
            assert(inc[x].1 < names.len());
            let (i, q) = choose|i: int, q: GeometryPoint|
                0 <= i < regions.len() && regions[i].0 == names[inc[x].1 as int]
                    && #[trigger] regions[i].1.contains(q) && key_of(q) == inc[x].0;
            lemma_key_injective(p, q);
            assert(p == q);
            assert(regions[i].0 == names[id as int]);
            assert(regions[i].1.contains(p));
            assert(self.regions()[i].1.contains(p));
            assert(self.regions()[i].0 == self.names()[id as int]);
        }
        if id < self.names().len() && exists|i: int|
            0 <= i < self.regions().len() && self.regions()[i].0 == self.names()[id as int]
                && #[trigger] self.regions()[i].1.contains(p) {
            let i = choose|i: int|
                0 <= i < self.regions().len() && self.regions()[i].0 == self.names()[id as int]
                    && #[trigger] self.regions()[i].1.contains(p);
            assert(regions[i].1.contains(p));
            let id2 = choose|id2: u64|
                id2 < names.len() && names[id2 as int] == regions[i].0 && #[trigger] inc.contains(
                    (key_of(p), id2),
                );
            assert(names[id2 as int] == names[id as int]);
            assert(names.no_duplicates());
            assert(id2 == id);
            assert(inc.contains((key_of(p), id)));
        }
        if inc.contains((k, id)) {
            let x = choose|x: int| 0 <= x < inc.len() && inc[x] == (k, id);
            assert(inc[x].1 < names.len());
            let (i, q) = choose|i: int, q: GeometryPoint|
                0 <= i < regions.len() && regions[i].0 == names[inc[x].1 as int]
                    && #[trigger] regions[i].1.contains(q) && key_of(q) == inc[x].0;
            assert(key_of(q) == k);
        }
    }

    /// Two identifiers share a point of the index exactly when both were
    /// issued and their regions are adjacent.
    pub proof fn lemma_index_adjacency(&self, a: u64, b: u64)
        requires
            self.wf(),
        ensures
            touching(self.incidences(), a, b) <==> (a < self.names().len() && b < self.names().len()
                && adjacent(self.regions(), self.names()[a as int], self.names()[b as int])),
    {
        if touching(self.incidences@, a, b) {
            self.lemma_touching_adjacent(a, b);
        }
        if a < self.names().len() && b < self.names().len() && adjacent(
            self.regions(),
            self.names()[a as int],
            self.names()[b as int],
        ) {
            self.lemma_adjacent_ids_touching(a, b);
        }
    }

    proof fn lemma_adjacent_ids_touching(&self, a: u64, b: u64)
        requires
            self.wf(),
            a < self.names().len(),
            b < self.names().len(),
            adjacent(self.regions(), self.names()[a as int], self.names()[b as int]),
        ensures
            touching(self.incidences(), a, b),
    {
        let names = self.geoid_interner.strings();
        let (a2, b2) = self.lemma_adjacent_touching(names[a as int], names[b as int]);
        assert(names[a2 as int] == names[a as int]);
        assert(names[b2 as int] == names[b as int]);
        assert(names.no_duplicates());
        assert(a2 == a);
        assert(b2 == b);
    }

    proof fn lemma_touching_adjacent(&self, a: u64, b: u64)
        requires
            self.wf(),
            touching(self.incidences@, a, b),
        ensures
            a < self.region_count(),
            b < self.region_count(),
            adjacent(
                self.regions(),
                self.geoid_interner.strings()[a as int],
                self.geoid_interner.strings()[b as int],
            ),
    {
        let inc = self.incidences@;
        let names = self.geoid_interner.strings();
        let regions = self.regions@;
        let k = choose|k: u64| #[trigger] inc.contains((k, a)) && inc.contains((k, b));
        let x = choose|x: int| 0 <= x < inc.len() && inc[x] == (k, a);
        let y = choose|y: int| 0 <= y < inc.len() && inc[y] == (k, b);
        assert(inc[x].1 < names.len());
        assert(inc[y].1 < names.len());
        let (i, p) = choose|i: int, p: GeometryPoint|
            0 <= i < regions.len() && regions[i].0 == names[inc[x].1 as int]
                && #[trigger] regions[i].1.contains(p) && key_of(p) == inc[x].0;
        let (j, q) = choose|j: int, q: GeometryPoint|
            0 <= j < regions.len() && regions[j].0 == names[inc[y].1 as int]
                && #[trigger] regions[j].1.contains(q) && key_of(q) == inc[y].0;
        lemma_key_injective(p, q);
        assert(p == q);
        assert(names[a as int] != names[b as int]) by {
            assert(no_duplicates(names));
        }
        assert(regions[i].1.contains(p) && regions[j].1.contains(p));
    }

    proof fn lemma_adjacent_touching(&self, x: Seq<char>, y: Seq<char>) -> (r: (u64, u64))
        requires
            self.wf(),
            adjacent(self.regions(), x, y),
        ensures
            touching(self.incidences@, r.0, r.1),
            r.0 < self.region_count(),
            r.1 < self.region_count(),
            self.geoid_interner.strings()[r.0 as int] == x,
            self.geoid_interner.strings()[r.1 as int] == y,
    {
        let inc = self.incidences@;
        let names = self.geoid_interner.strings();
        let regions = self.regions@;
        let (i, j, p) = choose|i: int, j: int, p: GeometryPoint|
            0 <= i < regions.len() && 0 <= j < regions.len() && regions[i].0 == x && regions[j].0 == y
                && #[trigger] regions[i].1.contains(p) && #[trigger] regions[j].1.contains(p);
        let a = choose|id: u64|
            id < names.len() && names[id as int] == regions[i].0 && #[trigger] inc.contains(
                (key_of(p), id),
            );
        let b = choose|id: u64|
            id < names.len() && names[id as int] == regions[j].0 && #[trigger] inc.contains(
                (key_of(p), id),
            );
        assert(inc.contains((key_of(p), a)) && inc.contains((key_of(p), b)));
        (a, b)
    }
}

/// Adjacency is symmetric: if `y` is a neighbor of `x`, then `x` is a neighbor of `y`.
pub proof fn lemma_adjacency_symmetric(regions: Seq<Region>, x: Seq<char>, y: Seq<char>)
    ensures
        adjacent(regions, x, y) == adjacent(regions, y, x),
{
    if adjacent(regions, x, y) {
        let (i, j, p) = choose|i: int, j: int, p: GeometryPoint|
            0 <= i < regions.len() && 0 <= j < regions.len() && regions[i].0 == x && regions[j].0 == y
                && #[trigger] regions[i].1.contains(p) && #[trigger] regions[j].1.contains(p);
        assert(regions[j].1.contains(p) && regions[i].1.contains(p));
    }
    if adjacent(regions, y, x) {
        let (i, j, p) = choose|i: int, j: int, p: GeometryPoint|
            0 <= i < regions.len() && 0 <= j < regions.len() && regions[i].0 == y && regions[j].0 == x
                && #[trigger] regions[i].1.contains(p) && #[trigger] regions[j].1.contains(p);
        assert(regions[j].1.contains(p) && regions[i].1.contains(p));
    }
}

/// No region is its own neighbor.
pub proof fn lemma_no_self_adjacency(regions: Seq<Region>, x: Seq<char>)
    ensures
        !adjacent(regions, x, x),
{
}

/// The adjacency graph is determined by the set of regions alone: two runs
/// over the same regions, in any order, give the same sequence of pairs.
pub proof fn lemma_adjacency_deterministic(
    regions1: Seq<Region>,
    regions2: Seq<Region>,
    g1: Seq<TextPair>,
    g2: Seq<TextPair>,
)
    requires
        forall|r: Region| regions1.contains(r) <==> regions2.contains(r),
        text_pairs_strictly_sorted(g1),
        text_pairs_strictly_sorted(g2),
        forall|x: Seq<char>, y: Seq<char>| g1.contains((x, y)) <==> adjacent(regions1, x, y),
        forall|x: Seq<char>, y: Seq<char>| g2.contains((x, y)) <==> adjacent(regions2, x, y),
    ensures
        g1 == g2,
{
    assert forall|x: Seq<char>, y: Seq<char>| adjacent(regions1, x, y) implies adjacent(regions2, x, y) by {
        lemma_adjacent_same_regions(regions1, regions2, x, y);
    }
    assert forall|x: Seq<char>, y: Seq<char>| adjacent(regions2, x, y) implies adjacent(regions1, x, y) by {
        lemma_adjacent_same_regions(regions2, regions1, x, y);
    }
    assert forall|p: TextPair| g1.contains(p) <==> g2.contains(p) by {
        assert(g1.contains((p.0, p.1)) == adjacent(regions1, p.0, p.1));
        assert(g2.contains((p.0, p.1)) == adjacent(regions2, p.0, p.1));
    }
    lemma_sorted_pairs_unique(g1, g2);
}

proof fn lemma_adjacent_same_regions(
    regions1: Seq<Region>,
    regions2: Seq<Region>,
    x: Seq<char>,
    y: Seq<char>,
)
    requires
        forall|r: Region| regions1.contains(r) ==> regions2.contains(r),
        adjacent(regions1, x, y),
    ensures
        adjacent(regions2, x, y),
{
    let (i, j, p) = choose|i: int, j: int, p: GeometryPoint|
        0 <= i < regions1.len() && 0 <= j < regions1.len() && regions1[i].0 == x && regions1[j].0 == y
            && #[trigger] regions1[i].1.contains(p) && #[trigger] regions1[j].1.contains(p);
    assert(regions1.contains(regions1[i]));
    assert(regions1.contains(regions1[j]));
    let i2 = choose|i2: int| 0 <= i2 < regions2.len() && regions2[i2] == regions1[i];
    let j2 = choose|j2: int| 0 <= j2 < regions2.len() && regions2[j2] == regions1[j];
    assert(regions2[i2].1.contains(p) && regions2[j2].1.contains(p));
}

proof fn lemma_vertices_failure(v: Seq<(String, String)>, m: int)
    requires
        0 <= m < v.len(),
        vertices_spec(v.subrange(0, m)) is Ok,
        point_spec(v[m].0@, v[m].1@) is Err,
    ensures
        vertices_spec(v) == Err::<Seq<GeometryPoint>, Error>(point_spec(v[m].0@, v[m].1@)->Err_0),
    decreases v.len() - m,
{
    let e = point_spec(v[m].0@, v[m].1@)->Err_0;
    assert(v.subrange(0, m + 1).drop_last() =~= v.subrange(0, m));
    assert(vertices_spec(v.subrange(0, m + 1)) == Err::<Seq<GeometryPoint>, Error>(e));
    lemma_vertices_err_extends(v, m + 1, e);
}

proof fn lemma_vertices_err_extends(v: Seq<(String, String)>, n: int, e: Error)
    requires
        0 <= n <= v.len(),
        vertices_spec(v.subrange(0, n)) == Err::<Seq<GeometryPoint>, Error>(e),
    ensures
        vertices_spec(v) == Err::<Seq<GeometryPoint>, Error>(e),
    decreases v.len() - n,
{
    if n < v.len() {
        assert(v.subrange(0, n + 1).drop_last() =~= v.subrange(0, n));
        lemma_vertices_err_extends(v, n + 1, e);
    } else {
        assert(v.subrange(0, n) =~= v);
    }
}

proof fn lemma_features_failure(fs: Seq<Feature>, k: int)
    requires
        0 <= k < fs.len(),
        features_spec(fs.subrange(0, k)) is Ok,
        feature_spec(fs[k]) is Err,
    ensures
        features_spec(fs) == Err::<Seq<Region>, Error>(feature_spec(fs[k])->Err_0),
{
    let e = feature_spec(fs[k])->Err_0;
    assert(fs.subrange(0, k + 1).drop_last() =~= fs.subrange(0, k));
    assert(features_spec(fs.subrange(0, k + 1)) == Err::<Seq<Region>, Error>(e));
    lemma_features_err_extends(fs, k + 1, e);
}

proof fn lemma_features_err_extends(fs: Seq<Feature>, n: int, e: Error)
    requires
        0 <= n <= fs.len(),
        features_spec(fs.subrange(0, n)) == Err::<Seq<Region>, Error>(e),
    ensures
        features_spec(fs) == Err::<Seq<Region>, Error>(e),
    decreases fs.len() - n,
{
    if n < fs.len() {
        assert(fs.subrange(0, n + 1).drop_last() =~= fs.subrange(0, n));
        lemma_features_err_extends(fs, n + 1, e);
    } else {
        assert(fs.subrange(0, n) =~= fs);
    }
}

} // verus!
