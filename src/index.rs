//! Facts about the point index that follow from the engine's public lemmas.
use vstd::prelude::*;

use crate::geometry_interner::GeometryInterner;
use crate::point::{key_of, GeometryPoint};

verus! {

/// The point index only grows: where a later state extends an earlier
/// one's regions and identifiers (as loading does, also when it stops at
/// a feature that cannot be read), every incidence of the earlier index
/// stands in the later one.
pub proof fn lemma_index_grows(
    earlier: &GeometryInterner,
    later: &GeometryInterner,
    p: GeometryPoint,
    id: u64,
)
    requires
        earlier.wf(),
        later.wf(),
        earlier.regions().len() <= later.regions().len(),
        later.regions().subrange(0, earlier.regions().len() as int) == earlier.regions(),
        earlier.names().len() <= later.names().len(),
        later.names().subrange(0, earlier.names().len() as int) == earlier.names(),
        earlier.incidences().contains((key_of(p), id)),
    ensures
        later.incidences().contains((key_of(p), id)),
{
    earlier.lemma_point_index(p, 0, id);
    let i = choose|i: int|
        0 <= i < earlier.regions().len() && earlier.regions()[i].0 == earlier.names()[id as int]
            && #[trigger] earlier.regions()[i].1.contains(p);
    assert(later.regions()[i] == later.regions().subrange(0, earlier.regions().len() as int)[i]);
    assert(later.names()[id as int] == later.names().subrange(
        0,
        earlier.names().len() as int,
    )[id as int]);
    assert(later.regions()[i].1.contains(p));
    later.lemma_point_index(p, 0, id);
}

} // verus!
