use crate::entity::Entity;
use crate::geom::{Coord, Size};
use crate::table::ComponentTable;
use vstd::prelude::*;

verus! {

/// One of the mutually independent occupancy planes of a cell. Exactly one
/// entity may occupy a given (coordinate, layer) pair at a time.
#[derive(Clone, Copy, PartialEq, Eq, Structural, Debug)]
pub enum Layer {
    Floor,
    Character,
    Object,
    Feature,
    Projectile,
}

/// Where an entity stands: a coordinate, and the layer it occupies there, if
/// any. An entity whose layer is `None` is tracked at a coordinate without
/// occupying any plane.
#[derive(Clone, Copy, PartialEq, Debug)]
pub struct Location {
    pub coord: Coord,
    pub layer: Option<Layer>,
}

/// The occupants of each layer of one cell.
#[derive(Clone, Copy, PartialEq, Debug)]
pub struct Layers {
    pub floor: Option<Entity>,
    pub character: Option<Entity>,
    pub object: Option<Entity>,
    pub feature: Option<Entity>,
    pub projectile: Option<Entity>,
}

pub open spec fn spec_slot(c: Layers, l: Layer) -> Option<Entity> {
    match l {
        Layer::Floor => c.floor,
        Layer::Character => c.character,
        Layer::Object => c.object,
        Layer::Feature => c.feature,
        Layer::Projectile => c.projectile,
    }
}

pub open spec fn spec_empty_cell() -> Layers {
    Layers { floor: None, character: None, object: None, feature: None, projectile: None }
}

/// The occupant of slot (`c2`, `l2`) after the single slot (`c`, `l`) of
/// `pre` has been overwritten with `v`.
pub open spec fn spec_slot_written(
    pre: SpatialTable,
    c: Coord,
    l: Layer,
    v: Option<Entity>,
    c2: Coord,
    l2: Layer,
) -> Option<Entity> {
    if c2 == c && l2 == l {
        v
    } else {
        pre.occupant(c2, l2)
    }
}

/// The occupant of slot (`c2`, `l2`) after entity `e` has been moved to
/// `location` in `pre`: the destination slot now holds `e`, the slot `e` held
/// before is vacated, and every other slot is untouched.
pub open spec fn spec_moved_occupant(
    pre: SpatialTable,
    e: Entity,
    location: Location,
    c2: Coord,
    l2: Layer,
) -> Option<Entity> {
    if location.layer == Some(l2) && c2 == location.coord {
        Some(e)
    } else if pre.occupant(c2, l2) == Some(e) {
        None
    } else {
        pre.occupant(c2, l2)
    }
}

/// The occupant of slot (`c2`, `l2`) after entity `e` has been removed from
/// `pre`: the slot `e` held is vacated and every other slot is untouched.
pub open spec fn spec_removed_occupant(
    pre: SpatialTable,
    e: Entity,
    c2: Coord,
    l2: Layer,
) -> Option<Entity> {
    if pre.occupant(c2, l2) == Some(e) {
        None
    } else {
        pre.occupant(c2, l2)
    }
}

/// A layered occupancy grid: each cell holds at most one entity per layer,
/// and each entity is tracked back to at most one location.
pub struct SpatialTable {
    width: u32,
    height: u32,
    cells: Vec<Vec<Layers>>,
    locations: ComponentTable<Location>,
}

impl SpatialTable {
    pub closed spec fn spec_width(self) -> u32 {
        self.width
    }

    pub closed spec fn spec_height(self) -> u32 {
        self.height
    }

    pub open spec fn spec_size(self) -> Size {
        Size { width: self.spec_width(), height: self.spec_height() }
    }

    pub open spec fn spec_in_bounds(self, c: Coord) -> bool {
        c.spec_is_valid(self.spec_size())
    }

    /// The entity-to-location map.
    pub closed spec fn locs(self) -> Map<Entity, Location> {
        self.locations@
    }

    /// The occupant of layer `l` at cell `c`.
    pub closed spec fn occupant(self, c: Coord, l: Layer) -> Option<Entity> {
        spec_slot(self.cells@[c.y as int]@[c.x as int], l)
    }

    closed spec fn dims_ok(self) -> bool {
        &&& self.width <= i32::MAX
        &&& self.height <= i32::MAX
        &&& self.cells@.len() == self.height
        &&& forall|y: int| 0 <= y < self.height ==> (#[trigger] self.cells@[y])@.len() == self.width
    }

    pub closed spec fn wf(self) -> bool {
        &&& self.dims_ok()
        &&& forall|e: Entity| #[trigger]
            self.locations@.contains_key(e) ==> {
                let loc = self.locations@[e];
                &&& self.spec_in_bounds(loc.coord)
                &&& match loc.layer {
                    Some(l) => self.occupant(loc.coord, l) == Some(e),
                    None => true,
                }
            }
        &&& forall|c: Coord, l: Layer|
            self.spec_in_bounds(c) && (#[trigger] self.occupant(c, l)) is Some ==> {
                let e = self.occupant(c, l)->Some_0;
                &&& self.locations@.contains_key(e)
                &&& self.locations@[e] == Location { coord: c, layer: Some(l) }
            }
    }

    /// A well-formed grid's dimensions fit in `i32`.
    pub proof fn lemma_size_bounds(self)
        requires
            self.wf(),
        ensures
            self.spec_size().width <= i32::MAX,
            self.spec_size().height <= i32::MAX,
    {
    }

    /// A placed entity's recorded slot indeed holds it.
    pub proof fn lemma_forward(self, e: Entity)
        requires
            self.wf(),
            self.locs().contains_key(e),
        ensures
            self.spec_in_bounds(self.locs()[e].coord),
            (self.locs()[e].layer is Some ==> self.occupant(
                self.locs()[e].coord,
                self.locs()[e].layer->Some_0,
            ) == Some(e)),
    {
    }

    /// The occupant of a slot is tracked at exactly that slot.
    pub proof fn lemma_backward(self, c: Coord, l: Layer)
        requires
            self.wf(),
            self.spec_in_bounds(c),
            self.occupant(c, l) is Some,
        ensures
            self.locs().contains_key(self.occupant(c, l)->Some_0),
            (self.locs()[self.occupant(c, l)->Some_0] == Location { coord: c, layer: Some(l) }),
    {
    }

    /// An entity occupies at most one (coordinate, layer) slot.
    pub proof fn lemma_occupancy_unique(self, c1: Coord, l1: Layer, c2: Coord, l2: Layer, e: Entity)
        requires
            self.wf(),
            self.spec_in_bounds(c1),
            self.spec_in_bounds(c2),
            self.occupant(c1, l1) == Some(e),
            self.occupant(c2, l2) == Some(e),
        ensures
            c1 == c2,
            l1 == l2,
    {
        self.lemma_backward(c1, l1);
        self.lemma_backward(c2, l2);
    }

    pub fn new(size: Size) -> (r: SpatialTable)
        requires
            size.width <= i32::MAX,
            size.height <= i32::MAX,
        ensures
            r.wf(),
            r.spec_size() == size,
            r.locs() == Map::<Entity, Location>::empty(),
            forall|c: Coord, l: Layer| r.spec_in_bounds(c) ==> #[trigger] r.occupant(c, l) is None,
    {
        let mut cells: Vec<Vec<Layers>> = Vec::new();
        let mut y: usize = 0;
        while y < size.height as usize
            invariant
                y <= size.height,
                cells@.len() == y,
                forall|yy: int|
                    0 <= yy < y ==> (#[trigger] cells@[yy])@.len() == size.width && forall|xx: int|
                        0 <= xx < size.width ==> cells@[yy]@[xx] == spec_empty_cell(),
            decreases size.height - y,
        {
            let mut row: Vec<Layers> = Vec::new();
            let mut x: usize = 0;
            while x < size.width as usize
                invariant
                    x <= size.width,
                    row@.len() == x,
                    forall|xx: int| 0 <= xx < x ==> row@[xx] == spec_empty_cell(),
                decreases size.width - x,
            {
                row.push(
                    Layers {
                        floor: None,
                        character: None,
                        object: None,
                        feature: None,
                        projectile: None,
                    },
                );
                x += 1;
            }
            cells.push(row);
            y += 1;
        }
        let r = SpatialTable {
            width: size.width,
            height: size.height,
            cells,
            locations: ComponentTable::new(),
        };
        r
    }

    pub fn grid_size(&self) -> (r: Size)
        ensures
            r == self.spec_size(),
    {
        Size { width: self.width, height: self.height }
    }

    /// The occupants of every layer at `c`; the caller warrants that `c` is
    /// in bounds.
    pub fn layers_at_checked(&self, c: Coord) -> (r: Layers)
        requires
            self.wf(),
            self.spec_in_bounds(c),
        ensures
            r.floor == self.occupant(c, Layer::Floor),
            r.character == self.occupant(c, Layer::Character),
            r.object == self.occupant(c, Layer::Object),
            r.feature == self.occupant(c, Layer::Feature),
            r.projectile == self.occupant(c, Layer::Projectile),
    {
        self.cells[c.y as usize][c.x as usize]
    }

    /// The occupants of every layer at `c`, or `None` if `c` is out of
    /// bounds.
    pub fn layers_at(&self, c: Coord) -> (r: Option<Layers>)
        requires
            self.wf(),
        ensures
            match r {
                Some(cell) => {
                    &&& self.spec_in_bounds(c)
                    &&& cell.floor == self.occupant(c, Layer::Floor)
                    &&& cell.character == self.occupant(c, Layer::Character)
                    &&& cell.object == self.occupant(c, Layer::Object)
                    &&& cell.feature == self.occupant(c, Layer::Feature)
                    &&& cell.projectile == self.occupant(c, Layer::Projectile)
                },
                None => !self.spec_in_bounds(c),
            },
    {
        if c.is_valid(self.grid_size()) {
            Some(self.layers_at_checked(c))
        } else {
            None
        }
    }

    /// The coordinate the entity is tracked at, if any.
    pub fn coord_of(&self, e: Entity) -> (r: Option<Coord>)
        ensures
            match r {
                Some(c) => self.locs().contains_key(e) && c == self.locs()[e].coord,
                None => !self.locs().contains_key(e),
            },
    {
        match self.locations.get(e) {
            Some(loc) => Some(loc.coord),
            None => None,
        }
    }

    /// The layer the entity occupies, if it is tracked and occupies one.
    pub fn layer_of(&self, e: Entity) -> (r: Option<Layer>)
        ensures
            match r {
                Some(l) => self.locs().contains_key(e) && self.locs()[e].layer == Some(l),
                None => !self.locs().contains_key(e) || self.locs()[e].layer is None,
            },
    {
        match self.locations.get(e) {
            Some(loc) => loc.layer,
            None => None,
        }
    }

    /// Writes `v` into slot (`c`, `l`), touching nothing else.
    fn set_slot(&mut self, c: Coord, l: Layer, v: Option<Entity>)
        requires
            old(self).dims_ok(),
            old(self).spec_in_bounds(c),
        ensures
            final(self).dims_ok(),
            final(self).spec_width() == old(self).spec_width(),
            final(self).spec_height() == old(self).spec_height(),
            final(self).locs() == old(self).locs(),
            forall|c2: Coord, l2: Layer|
                old(self).spec_in_bounds(c2) ==> final(self).occupant(c2, l2)
                    == spec_slot_written(*old(self), c, l, v, c2, l2),
    {
        let row = &mut self.cells[c.y as usize];
        let mut cell = row[c.x as usize];
        match l {
            Layer::Floor => {
                cell.floor = v;
            },
            Layer::Character => {
                cell.character = v;
            },
            Layer::Object => {
                cell.object = v;
            },
            Layer::Feature => {
                cell.feature = v;
            },
            Layer::Projectile => {
                cell.projectile = v;
            },
        }
        row[c.x as usize] = cell;
        proof {
            assert forall|c2: Coord, l2: Layer|
                old(self).spec_in_bounds(c2) implies self.occupant(c2, l2) == spec_slot_written(
                *old(self),
                c,
                l,
                v,
                c2,
                l2,
            ) by {
                if c2.y == c.y {
                    assert(self.cells@[c2.y as int]@ == old(self).cells@[c.y as int]@.update(
                        c.x as int,
                        self.cells@[c.y as int]@[c.x as int],
                    ));
                } else {
                    assert(self.cells@[c2.y as int] == old(self).cells@[c2.y as int]);
                }
            }
        }
    }

    /// Places or relocates `e` at `location`. If the destination layer slot
    /// is held by another entity, fails and returns that occupant, changing
    /// nothing. The caller must know that no other handle with `e`'s slot
    /// index is tracked, which holds whenever every tracked handle is live
    /// and `e` is live or fresh.
    pub fn update(&mut self, e: Entity, location: Location) -> (r: Result<(), Entity>)
        requires
            old(self).wf(),
            old(self).spec_in_bounds(location.coord),
            forall|e2: Entity|
                old(self).locs().contains_key(e2) && e2.index == e.index ==> e2 == e,
        ensures
            final(self).wf(),
            final(self).spec_size() == old(self).spec_size(),
            match r {
                Err(occ) => {
                    &&& *final(self) == *old(self)
                    &&& location.layer is Some
                    &&& old(self).occupant(location.coord, location.layer->Some_0) == Some(occ)
                    &&& occ != e
                },
                Ok(_) => {
                    &&& final(self).locs() == old(self).locs().insert(e, location)
                    &&& (location.layer is Some ==> old(self).occupant(
                        location.coord,
                        location.layer->Some_0,
                    ) is None || old(self).occupant(location.coord, location.layer->Some_0)
                        == Some(e))
                    &&& forall|c2: Coord, l2: Layer|
                        old(self).spec_in_bounds(c2) ==> final(self).occupant(c2, l2)
                            == spec_moved_occupant(*old(self), e, location, c2, l2)
                },
            },
    {
        match location.layer {
            Some(l) => {
                let cell = self.layers_at_checked(location.coord);
                let occ = match l {
                    Layer::Floor => cell.floor,
                    Layer::Character => cell.character,
                    Layer::Object => cell.object,
                    Layer::Feature => cell.feature,
                    Layer::Projectile => cell.projectile,
                };
                match occ {
                    Some(o) => {
                        if !(o.index == e.index && o.generation == e.generation) {
                            return Err(o);
                        }
                    },
                    None => {},
                }
            },
            None => {},
        }
        let old_loc = match self.locations.get(e) {
            Some(loc) => Some(*loc),
            None => None,
        };
        proof {
            assert forall|e2: Entity|
                self.locations@.contains_key(e2) && e2.index == e.index implies e2 == e by {
                assert(old(self).locs().contains_key(e2));
            }
        }
        self.locations.insert(e, location);
        match old_loc {
            Some(loc0) => {
                proof {
                    old(self).lemma_forward(e);
                }
                match loc0.layer {
                    Some(l0) => {
                        self.set_slot(loc0.coord, l0, None);
                    },
                    None => {},
                }
            },
            None => {},
        }
        match location.layer {
            Some(l) => {
                self.set_slot(location.coord, l, Some(e));
            },
            None => {},
        }
        proof {
            assert(self.locs() =~= old(self).locs().insert(e, location));
            assert forall|c2: Coord, l2: Layer|
                old(self).spec_in_bounds(c2) implies self.occupant(c2, l2) == spec_moved_occupant(
                *old(self),
                e,
                location,
                c2,
                l2,
            ) by {
                if location.layer == Some(l2) && c2 == location.coord {
                    assert(self.occupant(c2, l2) == Some(e));
                } else if old(self).occupant(c2, l2) == Some(e) {
                    old(self).lemma_backward(c2, l2);
                    assert(old(self).locs()[e] == Location { coord: c2, layer: Some(l2) });
                    assert(self.occupant(c2, l2) is None);
                } else {
                    assert(self.occupant(c2, l2) == old(self).occupant(c2, l2));
                }
            }
            assert forall|e2: Entity| #[trigger]
                self.locations@.contains_key(e2) implies {
                let loc = self.locations@[e2];
                &&& self.spec_in_bounds(loc.coord)
                &&& match loc.layer {
                    Some(l) => self.occupant(loc.coord, l) == Some(e2),
                    None => true,
                }
            } by {
                if e2 != e {
                    assert(old(self).locations@.contains_key(e2));
                    if old(self).locations@[e2].layer is Some {
                        let c2 = old(self).locations@[e2].coord;
                        let l2 = old(self).locations@[e2].layer->Some_0;
                        old(self).lemma_backward(c2, l2);
                        assert(self.occupant(c2, l2) == spec_moved_occupant(
                            *old(self),
                            e,
                            location,
                            c2,
                            l2,
                        ));
                    }
                } else {
                    if location.layer is Some {
                        assert(self.occupant(location.coord, location.layer->Some_0)
                            == spec_moved_occupant(
                            *old(self),
                            e,
                            location,
                            location.coord,
                            location.layer->Some_0,
                        ));
                    }
                }
            }
            assert forall|c2: Coord, l2: Layer|
                self.spec_in_bounds(c2) && (#[trigger] self.occupant(c2, l2)) is Some implies {
                let o = self.occupant(c2, l2)->Some_0;
                &&& self.locations@.contains_key(o)
                &&& self.locations@[o] == Location { coord: c2, layer: Some(l2) }
            } by {
                let o = self.occupant(c2, l2)->Some_0;
                assert(self.occupant(c2, l2) == spec_moved_occupant(
                    *old(self),
                    e,
                    location,
                    c2,
                    l2,
                ));
                if !(location.layer == Some(l2) && c2 == location.coord) {
                    assert(old(self).occupant(c2, l2) == Some(o));
                    old(self).lemma_backward(c2, l2);
                }
            }
        }
        Ok(())
    }

    /// Moves `e` to `coord` within the layer it currently occupies; fails and
    /// returns the occupant if that layer at `coord` is held by another
    /// entity.
    pub fn update_coord(&mut self, e: Entity, coord: Coord) -> (r: Result<(), Entity>)
        requires
            old(self).wf(),
            old(self).locs().contains_key(e),
            old(self).spec_in_bounds(coord),
        ensures
            final(self).wf(),
            final(self).spec_size() == old(self).spec_size(),
            match r {
                Err(occ) => {
                    &&& *final(self) == *old(self)
                    &&& old(self).locs()[e].layer is Some
                    &&& old(self).occupant(coord, old(self).locs()[e].layer->Some_0) == Some(occ)
                    &&& occ != e
                },
                Ok(_) => {
                    &&& final(self).locs() == old(self).locs().insert(
                        e,
                        Location { coord, layer: old(self).locs()[e].layer },
                    )
                    &&& forall|c2: Coord, l2: Layer|
                        old(self).spec_in_bounds(c2) ==> final(self).occupant(c2, l2)
                            == spec_moved_occupant(
                            *old(self),
                            e,
                            Location { coord, layer: old(self).locs()[e].layer },
                            c2,
                            l2,
                        )
                },
            },
    {
        let layer = match self.locations.get(e) {
            Some(loc) => loc.layer,
            None => None,
        };
        proof {
            assert forall|e2: Entity|
                self.locs().contains_key(e2) && e2.index == e.index implies e2 == e by {
                self.locations.lemma_key_same_index(e2, e);
            }
        }
        self.update(e, Location { coord, layer })
    }

    /// Moves `e` to `layer` at its current coordinate; fails and returns the
    /// occupant if that slot is held by another entity.
    pub fn update_layer(&mut self, e: Entity, layer: Layer) -> (r: Result<(), Entity>)
        requires
            old(self).wf(),
            old(self).locs().contains_key(e),
        ensures
            final(self).wf(),
            final(self).spec_size() == old(self).spec_size(),
            match r {
                Err(occ) => {
                    &&& *final(self) == *old(self)
                    &&& old(self).occupant(old(self).locs()[e].coord, layer) == Some(occ)
                    &&& occ != e
                },
                Ok(_) => {
                    &&& final(self).locs() == old(self).locs().insert(
                        e,
                        Location { coord: old(self).locs()[e].coord, layer: Some(layer) },
                    )
                    &&& (old(self).occupant(old(self).locs()[e].coord, layer) is None || old(
                        self,
                    ).occupant(old(self).locs()[e].coord, layer) == Some(e))
                    &&& forall|c2: Coord, l2: Layer|
                        old(self).spec_in_bounds(c2) ==> final(self).occupant(c2, l2)
                            == spec_moved_occupant(
                            *old(self),
                            e,
                            Location { coord: old(self).locs()[e].coord, layer: Some(layer) },
                            c2,
                            l2,
                        )
                },
            },
    {
        let coord = match self.locations.get(e) {
            Some(loc) => loc.coord,
            None => {
                proof {
                    assert(false);
                }
                Coord { x: 0, y: 0 }
            },
        };
        proof {
            self.lemma_forward(e);
            assert forall|e2: Entity|
                self.locs().contains_key(e2) && e2.index == e.index implies e2 == e by {
                self.locations.lemma_key_same_index(e2, e);
            }
        }
        self.update(e, Location { coord, layer: Some(layer) })
    }

    /// Stops tracking `e`, vacating any slot it occupied.
    pub fn remove(&mut self, e: Entity)
        requires
            old(self).wf(),
        ensures
            final(self).wf(),
            final(self).spec_size() == old(self).spec_size(),
            final(self).locs() == old(self).locs().remove(e),
            forall|c2: Coord, l2: Layer|
                old(self).spec_in_bounds(c2) ==> final(self).occupant(c2, l2)
                    == spec_removed_occupant(*old(self), e, c2, l2),
    {
        let taken = self.locations.take(e);
        match taken {
            Some(loc) => {
                proof {
                    old(self).lemma_forward(e);
                }
                match loc.layer {
                    Some(l) => {
                        self.set_slot(loc.coord, l, None);
                    },
                    None => {},
                }
            },
            None => {},
        }
        proof {
            assert(self.locs() =~= old(self).locs().remove(e));
            assert forall|c2: Coord, l2: Layer|
                old(self).spec_in_bounds(c2) implies self.occupant(c2, l2)
                == spec_removed_occupant(*old(self), e, c2, l2) by {
                if old(self).occupant(c2, l2) is Some && old(self).occupant(c2, l2) != Some(e) {
                    old(self).lemma_backward(c2, l2);
                }
            }
            assert forall|e2: Entity| #[trigger]
                self.locations@.contains_key(e2) implies {
                let loc = self.locations@[e2];
                &&& self.spec_in_bounds(loc.coord)
                &&& match loc.layer {
                    Some(l) => self.occupant(loc.coord, l) == Some(e2),
                    None => true,
                }
            } by {
                assert(old(self).locations@.contains_key(e2));
                if old(self).locations@[e2].layer is Some {
                    let c2 = old(self).locations@[e2].coord;
                    let l2 = old(self).locations@[e2].layer->Some_0;
                    old(self).lemma_backward(c2, l2);
                    assert(self.occupant(c2, l2) == spec_removed_occupant(*old(self), e, c2, l2));
                }
            }
            assert forall|c2: Coord, l2: Layer|
                self.spec_in_bounds(c2) && (#[trigger] self.occupant(c2, l2)) is Some implies {
                let o = self.occupant(c2, l2)->Some_0;
                &&& self.locations@.contains_key(o)
                &&& self.locations@[o] == Location { coord: c2, layer: Some(l2) }
            } by {
                assert(self.occupant(c2, l2) == spec_removed_occupant(*old(self), e, c2, l2));
                assert(old(self).occupant(c2, l2) == Some(self.occupant(c2, l2)->Some_0));
                old(self).lemma_backward(c2, l2);
            }
        }
    }
}

} // verus!
