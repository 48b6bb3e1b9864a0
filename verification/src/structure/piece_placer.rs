//! Structure pieces: which placer a piece goes to, whether it may share its
//! start with other chunks, and what the placers put down in common.

use vstd::prelude::*;

use crate::pos::BlockPos;
use crate::text;

verus! {

// ---------------------------------------------------------------------------
// Dispatch
// ---------------------------------------------------------------------------
/// An element of a jigsaw pool.
#[derive(Debug)]
pub enum PoolElement {
    Feature,
    List(Vec<PoolElement>),
    Single,
    LegacySingle,
    Empty,
}

/// A piece of a mineshaft.
#[derive(Debug, Clone, Copy)]
pub enum MineshaftPieceKind {
    Corridor { spider_corridor: bool },
    Crossing,
    Room,
    Stairs,
}

/// A piece that is built by code.
#[derive(Debug, Clone, Copy)]
pub enum ProceduralPieceData {
    Mineshaft(MineshaftPieceKind),
    BuriedTreasure,
    DesertPyramid,
    JungleTemple,
    NetherFortress,
    Stronghold,
    SwampHut,
    OceanMonument,
    Unimplemented,
}

/// What a piece is made of.
#[derive(Debug)]
pub enum StructurePiecePayload {
    Jigsaw(PoolElement),
    Template,
    Procedural(ProceduralPieceData),
}

/// The placers that only read a piece.
#[derive(Debug, Clone, Copy, PartialEq, Eq, Structural)]
pub enum SharedPlacer {
    PoolElement,
    Mineshaft,
    OceanMonument,
    /// Nothing is placed, and the placement fails.
    Unimplemented,
}

/// The placers that change a piece.
#[derive(Debug, Clone, Copy, PartialEq, Eq, Structural)]
pub enum ExclusivePlacer {
    Template,
    MineshaftSpiderCorridor,
    NetherFortress,
    Stronghold,
    BuriedTreasure,
    DesertPyramid,
    JungleTemple,
    SwampHut,
}

/// The element, or one within it, places a feature.
pub open spec fn places_feature(element: PoolElement) -> bool
    decreases element, 0nat,
{
    match element {
        PoolElement::Feature => true,
        PoolElement::List(elements) => one_places_feature(elements@, elements@.len()),
        _ => false,
    }
}

/// One of the first `n` elements places a feature.
pub open spec fn one_places_feature(elements: Seq<PoolElement>, n: nat) -> bool
    decreases elements, n,
{
    if n == 0 || n > elements.len() {
        false
    } else {
        one_places_feature(elements, (n - 1) as nat) || places_feature(elements[n - 1])
    }
}

proof fn lemma_one_places_feature(elements: Seq<PoolElement>, i: int, n: nat)
    requires
        0 <= i < n <= elements.len(),
        places_feature(elements[i]),
    ensures
        one_places_feature(elements, n),
    decreases n,
{
    if i < n - 1 {
        lemma_one_places_feature(elements, i, (n - 1) as nat);
    }
}

/// The placer that takes the piece through a shared borrow, if one does.
pub open spec fn shared_placer_of(payload: StructurePiecePayload) -> Option<SharedPlacer> {
    match payload {
        StructurePiecePayload::Jigsaw(_) => Some(SharedPlacer::PoolElement),
        StructurePiecePayload::Template => None,
        StructurePiecePayload::Procedural(data) => match data {
            ProceduralPieceData::Mineshaft(_) => Some(SharedPlacer::Mineshaft),
            ProceduralPieceData::OceanMonument => Some(SharedPlacer::OceanMonument),
            ProceduralPieceData::Unimplemented => Some(SharedPlacer::Unimplemented),
            _ => None,
        },
    }
}

/// The placer that takes the piece for itself, if one does.
pub open spec fn exclusive_placer_of(payload: StructurePiecePayload) -> Option<ExclusivePlacer> {
    match payload {
        StructurePiecePayload::Jigsaw(_) => None,
        StructurePiecePayload::Template => Some(ExclusivePlacer::Template),
        StructurePiecePayload::Procedural(data) => match data {
            ProceduralPieceData::Mineshaft(_) => Some(ExclusivePlacer::MineshaftSpiderCorridor),
            ProceduralPieceData::BuriedTreasure => Some(ExclusivePlacer::BuriedTreasure),
            ProceduralPieceData::DesertPyramid => Some(ExclusivePlacer::DesertPyramid),
            ProceduralPieceData::JungleTemple => Some(ExclusivePlacer::JungleTemple),
            ProceduralPieceData::NetherFortress => Some(ExclusivePlacer::NetherFortress),
            ProceduralPieceData::Stronghold => Some(ExclusivePlacer::Stronghold),
            ProceduralPieceData::SwampHut => Some(ExclusivePlacer::SwampHut),
            ProceduralPieceData::OceanMonument | ProceduralPieceData::Unimplemented => None,
        },
    }
}

/// Placing the piece touches state shared with the other chunks that decorate
/// the same start.
pub open spec fn needs_exclusive(payload: StructurePiecePayload) -> bool {
    match payload {
        StructurePiecePayload::Jigsaw(element) => places_feature(element),
        StructurePiecePayload::Template => true,
        StructurePiecePayload::Procedural(data) => match data {
            ProceduralPieceData::Mineshaft(kind) => kind == (MineshaftPieceKind::Corridor {
                spider_corridor: true,
            }),
            ProceduralPieceData::OceanMonument | ProceduralPieceData::Unimplemented => false,
            _ => true,
        },
    }
}

/// Whether the element tree places a feature rather than a template.
pub fn pool_element_places_feature(element: &PoolElement) -> (r: bool)
    ensures
        r == places_feature(*element),
    decreases *element,
{
    match element {
        PoolElement::Feature => true,
        PoolElement::List(elements) => {
            let mut i: usize = 0;
            while i < elements.len()
                invariant
                    *element == PoolElement::List(*elements),
                    i <= elements@.len(),
                    !one_places_feature(elements@, i as nat),
                decreases elements@.len() - i,
            {
                assert(decreases_to!(*element => element->List_0));
                assert(decreases_to!(*element => elements@[i as int]));
                if pool_element_places_feature(&elements[i]) {
                    proof {
                        lemma_one_places_feature(elements@, i as int, elements@.len());
                    }
                    return true;
                }
                i += 1;
            }
            false
        },
        PoolElement::Single => false,
        PoolElement::LegacySingle => false,
        PoolElement::Empty => false,
    }
}

/// Whether placing the piece touches state shared with the other chunks that
/// decorate the same start.
pub fn piece_needs_exclusive_placement(payload: &StructurePiecePayload) -> (r: bool)
    ensures
        r == needs_exclusive(*payload),
{
    match payload {
        StructurePiecePayload::Jigsaw(element) => pool_element_places_feature(element),
        StructurePiecePayload::Template => true,
        StructurePiecePayload::Procedural(data) => match data {
            ProceduralPieceData::Mineshaft(kind) => match kind {
                MineshaftPieceKind::Corridor { spider_corridor } => *spider_corridor,
                _ => false,
            },
            ProceduralPieceData::OceanMonument | ProceduralPieceData::Unimplemented => false,
            _ => true,
        },
    }
}

/// The placer that takes the piece through a shared borrow, or `None` for the
/// payloads that need a piece of their own.
pub fn shared_placer(payload: &StructurePiecePayload) -> (r: Option<SharedPlacer>)
    ensures
        r == shared_placer_of(*payload),
{
    match payload {
        StructurePiecePayload::Jigsaw(_) => Some(SharedPlacer::PoolElement),
        StructurePiecePayload::Template => None,
        StructurePiecePayload::Procedural(data) => match data {
            ProceduralPieceData::Mineshaft(_) => Some(SharedPlacer::Mineshaft),
            ProceduralPieceData::OceanMonument => Some(SharedPlacer::OceanMonument),
            ProceduralPieceData::Unimplemented => Some(SharedPlacer::Unimplemented),
            _ => None,
        },
    }
}

/// How the placement of a piece goes on once the shared placers were tried.
#[derive(Debug, Clone, Copy, PartialEq, Eq, Structural)]
pub enum PieceStep {
    /// The piece is done with, placed or not.
    Done(bool),
    /// The piece goes to a placer that changes it.
    Exclusive(ExclusivePlacer),
}

/// What shared placement comes to, given what the shared placer reported: an
/// unimplemented payload fails with nothing placed, one without a shared placer
/// is declined, and else the report stands.
pub open spec fn shared_outcome(payload: StructurePiecePayload, reported: Option<bool>) -> Option<
    bool,
> {
    match shared_placer_of(payload) {
        Some(SharedPlacer::Unimplemented) => Some(false),
        Some(_) => reported,
        None => None,
    }
}

/// The report is one that the payload's shared placer can make: only a
/// mineshaft piece is declined by its placer.
pub open spec fn can_report(payload: StructurePiecePayload, reported: Option<bool>) -> bool {
    match shared_placer_of(payload) {
        Some(SharedPlacer::PoolElement) | Some(SharedPlacer::OceanMonument) => reported is Some,
        _ => true,
    }
}

/// Placement for the payloads that only need a shared borrow of the piece, given
/// what the payload's shared placer reported. `None` stands for a piece that has
/// to be placed through a piece of its own.
pub fn try_place_piece_shared(payload: &StructurePiecePayload, reported: Option<bool>) -> (r:
    Option<bool>)
    ensures
        r == shared_outcome(*payload, reported),
{
    match shared_placer(payload) {
        Some(SharedPlacer::Unimplemented) => Some(false),
        Some(_) => reported,
        None => None,
    }
}

/// How the placement of a piece goes on, given what its shared placer reported:
/// it is done with where shared placement settled it, and goes to the exclusive
/// placer of its payload where that was declined.
pub fn place_piece(payload: &StructurePiecePayload, reported: Option<bool>) -> (r: PieceStep)
    requires
        can_report(*payload, reported),
    ensures
        r == match shared_outcome(*payload, reported) {
            Some(placed) => PieceStep::Done(placed),
            None => PieceStep::Exclusive(exclusive_placer_of(*payload)->0),
        },
        r is Exclusive ==> exclusive_placer_of(*payload) is Some,
        *payload == StructurePiecePayload::Procedural(ProceduralPieceData::Unimplemented) ==> r
            == PieceStep::Done(false),
{
    if let Some(placed) = try_place_piece_shared(payload, reported) {
        return PieceStep::Done(placed);
    }
    match payload {
        StructurePiecePayload::Template => PieceStep::Exclusive(ExclusivePlacer::Template),
        StructurePiecePayload::Procedural(data) => match data {
            ProceduralPieceData::Mineshaft(_) => PieceStep::Exclusive(
                ExclusivePlacer::MineshaftSpiderCorridor,
            ),
            ProceduralPieceData::NetherFortress => PieceStep::Exclusive(
                ExclusivePlacer::NetherFortress,
            ),
            ProceduralPieceData::Stronghold => PieceStep::Exclusive(ExclusivePlacer::Stronghold),
            ProceduralPieceData::BuriedTreasure => PieceStep::Exclusive(
                ExclusivePlacer::BuriedTreasure,
            ),
            ProceduralPieceData::DesertPyramid => PieceStep::Exclusive(
                ExclusivePlacer::DesertPyramid,
            ),
            ProceduralPieceData::JungleTemple => PieceStep::Exclusive(
                ExclusivePlacer::JungleTemple,
            ),
            ProceduralPieceData::SwampHut => PieceStep::Exclusive(ExclusivePlacer::SwampHut),
            ProceduralPieceData::OceanMonument | ProceduralPieceData::Unimplemented => {
                PieceStep::Done(false)
            },
        },
        StructurePiecePayload::Jigsaw(_) => PieceStep::Done(false),
    }
}

/// A piece of a structure.
pub struct StructurePiece {
    pub bounding_box: BoundingBox,
    pub orientation: Option<Direction>,
    pub payload: StructurePiecePayload,
}

/// What an exclusive placer reports: whether it placed the piece, and the box
/// that it left it with.
#[derive(Debug, Clone, Copy)]
pub struct PlacerReport {
    pub placed: bool,
    pub bounding_box: BoundingBox,
}

/// The placers that move the piece's box, by fitting it to the terrain or to a
/// template; the others take the box as it is.
pub open spec fn moves_the_box(placer: ExclusivePlacer) -> bool {
    match placer {
        ExclusivePlacer::Template => true,
        ExclusivePlacer::BuriedTreasure => true,
        ExclusivePlacer::DesertPyramid => true,
        ExclusivePlacer::JungleTemple => true,
        ExclusivePlacer::SwampHut => true,
        ExclusivePlacer::MineshaftSpiderCorridor => false,
        ExclusivePlacer::NetherFortress => false,
        ExclusivePlacer::Stronghold => false,
    }
}

impl StructurePiece {
    /// Settles a step of the piece's placement and tells whether the piece was
    /// placed. What shared placement did leaves the piece as it is; an exclusive
    /// placer's box is written back.
    pub fn settle(&mut self, step: PieceStep, report: PlacerReport) -> (placed: bool)
        ensures
            final(self).orientation == old(self).orientation,
            final(self).payload == old(self).payload,
            match step {
                PieceStep::Done(shared) => placed == shared && *final(self) == *old(self),
                PieceStep::Exclusive(placer) => placed == report.placed
                    && final(self).bounding_box == if moves_the_box(placer) {
                    report.bounding_box
                } else {
                    old(self).bounding_box
                },
            },
    {
        match step {
            PieceStep::Done(shared) => shared,
            PieceStep::Exclusive(placer) => {
                match placer {
                    ExclusivePlacer::Template
                    | ExclusivePlacer::BuriedTreasure
                    | ExclusivePlacer::DesertPyramid
                    | ExclusivePlacer::JungleTemple
                    | ExclusivePlacer::SwampHut => {
                        self.bounding_box = report.bounding_box;
                    },
                    _ => {},
                }
                report.placed
            },
        }
    }
}

/// What shared placement does not settle has an exclusive placer; an
/// unimplemented piece is always settled, and never placed.
pub proof fn shared_placement_settles_a_piece(
    payload: StructurePiecePayload,
    reported: Option<bool>,
)
    requires
        can_report(payload, reported),
    ensures
        shared_outcome(payload, reported) is None ==> exclusive_placer_of(payload) is Some,
        payload == StructurePiecePayload::Procedural(ProceduralPieceData::Unimplemented)
            ==> shared_outcome(payload, reported) == Some(false),
{
}

/// Every payload has a placer; one that no shared placer takes has an exclusive
/// one.
pub proof fn every_piece_has_a_placer(payload: StructurePiecePayload)
    ensures
        shared_placer_of(payload) is Some || exclusive_placer_of(payload) is Some,
{
}

/// Where no piece of a start needs exclusive placement, the shared placers take
/// them all: each has one, and a mineshaft piece that its placer may decline,
/// which only a spider corridor is, would have needed exclusive placement.
pub proof fn shared_starts_are_never_declined(payload: StructurePiecePayload)
    requires
        !needs_exclusive(payload),
    ensures
        shared_placer_of(payload) is Some,
        shared_placer_of(payload) == Some(SharedPlacer::Mineshaft) ==> payload
            != StructurePiecePayload::Procedural(
            ProceduralPieceData::Mineshaft(
                MineshaftPieceKind::Corridor { spider_corridor: true },
            ),
        ),
{
}

/// A piece that the shared placers do not take needs exclusive placement.
pub proof fn what_is_not_shared_is_exclusive(payload: StructurePiecePayload)
    requires
        shared_placer_of(payload) is None,
    ensures
        needs_exclusive(payload),
{
}

/// Whether a structure has something to do once its pieces are placed.
pub fn after_place_structure(namespace: &str, path: &str) -> (r: bool)
    ensures
        r == (namespace@ == "minecraft"@ && path@ == "desert_pyramid"@),
{
    text::same_text(namespace, "minecraft") && text::same_text(path, "desert_pyramid")
}

// ---------------------------------------------------------------------------
// Chests
// ---------------------------------------------------------------------------
/// A direction.
#[derive(Debug, Clone, Copy, PartialEq, Eq, Structural)]
pub enum Direction {
    Down,
    Up,
    North,
    South,
    West,
    East,
}

/// A horizontal direction, in the order in which neighbours are looked at.
#[derive(Debug, Clone, Copy, PartialEq, Eq, Structural)]
pub enum Facing {
    North,
    East,
    South,
    West,
}

/// The place of a direction in the order.
pub open spec fn facing_index(facing: Facing) -> int {
    match facing {
        Facing::North => 0,
        Facing::East => 1,
        Facing::South => 2,
        Facing::West => 3,
    }
}

/// The direction at a place of the order.
pub open spec fn facing_at(index: int) -> Facing {
    if index == 0 {
        Facing::North
    } else if index == 1 {
        Facing::East
    } else if index == 2 {
        Facing::South
    } else {
        Facing::West
    }
}

impl Facing {
    /// The other way.
    pub open spec fn turned_around(&self) -> Facing {
        facing_at((facing_index(*self) + 2) % 4)
    }

    /// A quarter turn clockwise.
    pub open spec fn turned_right(&self) -> Facing {
        facing_at((facing_index(*self) + 1) % 4)
    }

    /// The other way.
    pub fn opposite(self) -> (r: Facing)
        ensures
            r == self.turned_around(),
    {
        match self {
            Facing::North => Facing::South,
            Facing::East => Facing::West,
            Facing::South => Facing::North,
            Facing::West => Facing::East,
        }
    }

    /// A quarter turn clockwise.
    pub fn rotate_y_clockwise(self) -> (r: Facing)
        ensures
            r == self.turned_right(),
    {
        match self {
            Facing::North => Facing::East,
            Facing::East => Facing::South,
            Facing::South => Facing::West,
            Facing::West => Facing::North,
        }
    }

    fn index(self) -> (r: usize)
        ensures
            r == facing_index(self),
            r < 4,
    {
        match self {
            Facing::North => 0,
            Facing::East => 1,
            Facing::South => 2,
            Facing::West => 3,
        }
    }

    fn at(index: usize) -> (r: Facing)
        requires
            index < 4,
        ensures
            r == facing_at(index as int),
    {
        match index {
            0 => Facing::North,
            1 => Facing::East,
            2 => Facing::South,
            _ => Facing::West,
        }
    }
}

/// What stands around a chest, in the order of the directions.
#[derive(Debug, Clone, Copy)]
pub struct Surroundings {
    pub chest: [bool; 4],
    pub solid: [bool; 4],
}

/// How many of the first `n` neighbours are solid.
pub open spec fn solids(around: Surroundings, n: int) -> int
    decreases n,
{
    if n <= 0 {
        0
    } else {
        solids(around, n - 1) + if around.solid@[n - 1] {
            1int
        } else {
            0
        }
    }
}

/// A chest stands next to the place and is seen before a second solid
/// neighbour ends the search.
pub open spec fn sees_chest(around: Surroundings) -> bool {
    exists|i: int| 0 <= i < 4 && #[trigger] around.chest@[i] && solids(around, i) < 2
}

/// The direction, or the one the other way if that neighbour is solid.
pub open spec fn turned_from_solid(around: Surroundings, facing: Facing, turned: Facing) -> Facing {
    if around.solid@[facing_index(facing)] {
        turned
    } else {
        facing
    }
}

/// The way a chest faces that has no or several solid neighbours: away from a
/// solid neighbour, as far as the search goes.
pub open spec fn searched_facing(around: Surroundings, facing: Facing) -> Facing {
    let first = turned_from_solid(around, facing, facing.turned_around());
    let second = turned_from_solid(around, first, first.turned_right());
    turned_from_solid(around, second, second.turned_around())
}

/// The way a chest is to face, or nothing if it stays as it is.
pub open spec fn chest_facing(around: Surroundings, facing: Facing) -> Option<Facing> {
    if sees_chest(around) {
        None
    } else if solids(around, 4) == 1 {
        Some(only_solid(around).turned_around())
    } else {
        Some(searched_facing(around, facing))
    }
}

/// The one solid neighbour.
pub open spec fn only_solid(around: Surroundings) -> Facing {
    facing_at(choose|i: int| 0 <= i < 4 && #[trigger] around.solid@[i])
}

proof fn lemma_solids(around: Surroundings)
    ensures
        solids(around, 1) == if around.solid@[0] {
            1int
        } else {
            0
        },
        solids(around, 2) == solids(around, 1) + if around.solid@[1] {
            1int
        } else {
            0
        },
        solids(around, 3) == solids(around, 2) + if around.solid@[2] {
            1int
        } else {
            0
        },
        solids(around, 4) == solids(around, 3) + if around.solid@[3] {
            1int
        } else {
            0
        },
        solids(around, 0) == 0,
{
    reveal_with_fuel(solids, 5);
}

/// Turns a chest away from its one solid neighbour, or finds it a free side; a
/// chest next to another one stays as it is.
pub fn reorient_chest(around: &Surroundings, facing: Facing) -> (r: Option<Facing>)
    ensures
        r == chest_facing(*around, facing),
{
    let mut found: Option<usize> = None;
    let mut several: bool = false;
    let mut i: usize = 0;
    proof {
        lemma_solids(*around);
    }
    while i < 4 && !several
        invariant
            i <= 4,
            forall|k: int| 0 <= k < i ==> !(#[trigger] around.chest@[k]) || solids(*around, k) >= 2,
            !several ==> solids(*around, i as int) == (if found is Some {
                1int
            } else {
                0
            }),
            !several ==> (found matches Some(at) ==> at < i && around.solid@[at as int] && forall|
                k: int,
            | 0 <= k < i && #[trigger] around.solid@[k] ==> k == at),
            several ==> solids(*around, i as int) >= 2 && 0 < i,
        decreases 4 - i,
    {
        if around.chest[i] {
            assert(around.chest@[i as int]);
            return None;
        }
        if around.solid[i] {
            if found.is_some() {
                several = true;
            } else {
                proof {
                    assert forall|k: int| 0 <= k < i implies !#[trigger] around.solid@[k] by {
                        lemma_no_solid(*around, i as int, k);
                    }
                }
                found = Some(i);
            }
        }
        i += 1;
    }
    proof {
        lemma_solids(*around);
        if several {
            lemma_solids_grow(*around, i as int, 4);
            assert forall|k: int| i <= k < 4 implies solids(*around, k) >= 2 by {
                lemma_solids_grow(*around, i as int, k);
            }
        }
    }
    if !several {
        if let Some(at) = found {
            proof {
                let k = choose|k: int| 0 <= k < 4 && #[trigger] around.solid@[k];
                assert(k == at);
            }
            return Some(Facing::at(at).opposite());
        }
    }
    let mut lock: Facing = facing;
    if around.solid[lock.index()] {
        lock = lock.opposite();
    }
    if around.solid[lock.index()] {
        lock = lock.rotate_y_clockwise();
    }
    if around.solid[lock.index()] {
        lock = lock.opposite();
    }
    Some(lock)
}

proof fn lemma_no_solid(around: Surroundings, n: int, k: int)
    requires
        0 <= k < n <= 4,
        solids(around, n) == 0,
    ensures
        !around.solid@[k],
    decreases n,
{
    lemma_solids_grow(around, 0, n - 1);
    if k < n - 1 {
        lemma_no_solid(around, n - 1, k);
    }
}

proof fn lemma_solids_grow(around: Surroundings, n: int, m: int)
    requires
        0 <= n <= m,
    ensures
        solids(around, n) <= solids(around, m),
        0 <= solids(around, n),
    decreases m,
{
    if m > 0 {
        if n < m {
            lemma_solids_grow(around, n, m - 1);
        } else {
            lemma_solids_grow(around, n - 1, m - 1);
        }
    }
}

/// A chest that is turned faces a neighbour that is not solid, if there is one.
pub proof fn a_turned_chest_faces_a_free_side(around: Surroundings, facing: Facing)
    requires
        chest_facing(around, facing) is Some,
        exists|i: int| 0 <= i < 4 && !(#[trigger] around.solid@[i]),
    ensures
        !around.solid@[facing_index(chest_facing(around, facing)->0)],
{
    lemma_solids(around);
    let i = choose|i: int| 0 <= i < 4 && !(#[trigger] around.solid@[i]);
    assert(i == 0 || i == 1 || i == 2 || i == 3);
    if solids(around, 4) == 1 {
        let k = choose|k: int| 0 <= k < 4 && #[trigger] around.solid@[k];
        assert(around.solid@[0] || around.solid@[1] || around.solid@[2] || around.solid@[3]);
        assert(k == 0 || k == 1 || k == 2 || k == 3);
    }
}

/// A box of blocks, both corners within.
#[derive(Debug, Clone, Copy)]
pub struct BoundingBox {
    pub min_x: i32,
    pub min_y: i32,
    pub min_z: i32,
    pub max_x: i32,
    pub max_y: i32,
    pub max_z: i32,
}

impl BoundingBox {
    /// The box holds the position.
    pub open spec fn holds(&self, at: BlockPos) -> bool {
        &&& self.min_x <= at.x <= self.max_x
        &&& self.min_y <= at.y <= self.max_y
        &&& self.min_z <= at.z <= self.max_z
    }

    /// Whether the box holds the position.
    pub fn contains_blockpos(&self, at: BlockPos) -> (r: bool)
        ensures
            r == self.holds(at),
    {
        self.min_x <= at.x && at.x <= self.max_x && self.min_y <= at.y && at.y <= self.max_y
            && self.min_z <= at.z && at.z <= self.max_z
    }
}

/// Whether a loot chest is put at a position: within the clip, and where no
/// chest is.
pub fn create_loot_chest(clip: &BoundingBox, at: BlockPos, is_chest: bool) -> (r: bool)
    ensures
        r == (clip.holds(at) && !is_chest),
{
    clip.contains_blockpos(at) && !is_chest
}

// ---------------------------------------------------------------------------
// Block entity data
// ---------------------------------------------------------------------------
/// A named value of a block entity.
#[derive(Debug)]
pub enum NbtValue {
    Text(String),
    Short(i16),
    Long(i64),
    Compound(Vec<(String, NbtValue)>),
    /// A list of compounds.
    Compounds(Vec<Vec<(String, NbtValue)>>),
}

/// An entry with a text.
pub open spec fn is_text(entry: (String, NbtValue), name: Seq<char>, value: Seq<char>) -> bool {
    entry.0@ == name && (entry.1 matches NbtValue::Text(t) && t@ == value)
}

/// An entry with a short number.
pub open spec fn is_short(entry: (String, NbtValue), name: Seq<char>, value: i16) -> bool {
    entry.0@ == name && entry.1 == NbtValue::Short(value)
}

/// An entry with a long number.
pub open spec fn is_long(entry: (String, NbtValue), name: Seq<char>, value: i64) -> bool {
    entry.0@ == name && entry.1 == NbtValue::Long(value)
}

/// The data of a block entity with a loot table: the table, and the seed unless
/// it is zero.
pub fn loot_table_data(loot_table: &str, seed: i64) -> (r: Vec<(String, NbtValue)>)
    ensures
        r@.len() == if seed != 0 {
            2int
        } else {
            1
        },
        is_text(r@[0], "LootTable"@, loot_table@),
        seed != 0 ==> is_long(r@[1], "LootTableSeed"@, seed),
{
    let mut nbt: Vec<(String, NbtValue)> = Vec::new();
    nbt.push(("LootTable".to_owned(), NbtValue::Text(loot_table.to_owned())));
    if seed != 0 {
        nbt.push(("LootTableSeed".to_owned(), NbtValue::Long(seed)));
    }
    nbt
}

/// The data of a mob spawner.
pub fn spawner_data(entity_id: &str) -> (r: Vec<(String, NbtValue)>)
    ensures
        r@.len() == 9,
        is_short(r@[0], "Delay"@, 20),
        is_short(r@[1], "MinSpawnDelay"@, 200),
        is_short(r@[2], "MaxSpawnDelay"@, 800),
        is_short(r@[3], "SpawnCount"@, 4),
        is_short(r@[4], "MaxNearbyEntities"@, 6),
        is_short(r@[5], "RequiredPlayerRange"@, 16),
        is_short(r@[6], "SpawnRange"@, 4),
        r@[7].0@ == "SpawnData"@,
        r@[7].1 matches NbtValue::Compound(data) && data@.len() == 1 && data@[0].0@ == "entity"@
            && (data@[0].1 matches NbtValue::Compound(entity) && entity@.len() == 1 && is_text(
            entity@[0],
            "id"@,
            entity_id@,
        )),
        r@[8].0@ == "SpawnPotentials"@,
        r@[8].1 matches NbtValue::Compounds(list) && list@.len() == 0,
{
    let mut entity: Vec<(String, NbtValue)> = Vec::new();
    entity.push(("id".to_owned(), NbtValue::Text(entity_id.to_owned())));
    let mut data: Vec<(String, NbtValue)> = Vec::new();
    data.push(("entity".to_owned(), NbtValue::Compound(entity)));
    let mut nbt: Vec<(String, NbtValue)> = Vec::new();
    nbt.push(("Delay".to_owned(), NbtValue::Short(20)));
    nbt.push(("MinSpawnDelay".to_owned(), NbtValue::Short(200)));
    nbt.push(("MaxSpawnDelay".to_owned(), NbtValue::Short(800)));
    nbt.push(("SpawnCount".to_owned(), NbtValue::Short(4)));
    nbt.push(("MaxNearbyEntities".to_owned(), NbtValue::Short(6)));
    nbt.push(("RequiredPlayerRange".to_owned(), NbtValue::Short(16)));
    nbt.push(("SpawnRange".to_owned(), NbtValue::Short(4)));
    nbt.push(("SpawnData".to_owned(), NbtValue::Compound(data)));
    nbt.push(("SpawnPotentials".to_owned(), NbtValue::Compounds(Vec::new())));
    nbt
}

// ---------------------------------------------------------------------------
// Orientation
// ---------------------------------------------------------------------------
/// How a structure is mirrored.
#[derive(Debug, Clone, Copy, PartialEq, Eq, Structural)]
pub enum StructureMirror {
    Unmirrored,
    LeftRight,
}

/// How a structure is turned.
#[derive(Debug, Clone, Copy, PartialEq, Eq, Structural)]
pub enum Rotation {
    Unturned,
    Clockwise90,
}

/// How a piece of this orientation is mirrored and turned.
pub fn orientation_transform(orientation: Option<Direction>) -> (r: (StructureMirror, Rotation))
    ensures
        r.0 == StructureMirror::LeftRight <==> orientation == Some(Direction::South) || orientation
            == Some(Direction::West),
        r.1 == Rotation::Clockwise90 <==> orientation == Some(Direction::West) || orientation
            == Some(Direction::East),
{
    match orientation {
        Some(Direction::South) => (StructureMirror::LeftRight, Rotation::Unturned),
        Some(Direction::West) => (StructureMirror::LeftRight, Rotation::Clockwise90),
        Some(Direction::East) => (StructureMirror::Unmirrored, Rotation::Clockwise90),
        _ => (StructureMirror::Unmirrored, Rotation::Unturned),
    }
}

/// The blocks whose shape depends on their neighbours.
pub open spec fn is_shaped(block: Seq<char>) -> bool {
    ||| block == "nether_brick_fence"@
    ||| block == "torch"@
    ||| block == "wall_torch"@
    ||| block == "oak_fence"@
    ||| block == "spruce_fence"@
    ||| block == "dark_oak_fence"@
    ||| block == "pale_oak_fence"@
    ||| block == "acacia_fence"@
    ||| block == "birch_fence"@
    ||| block == "jungle_fence"@
    ||| block == "ladder"@
    ||| block == "iron_bars"@
}

/// Whether a block that a structure placed has its shape settled afterwards.
pub fn needs_structure_shape_postprocessing(block: &str) -> (r: bool)
    ensures
        r == is_shaped(block@),
{
    text::same_text(block, "nether_brick_fence") || text::same_text(block, "torch")
        || text::same_text(block, "wall_torch") || text::same_text(block, "oak_fence")
        || text::same_text(block, "spruce_fence") || text::same_text(block, "dark_oak_fence")
        || text::same_text(block, "pale_oak_fence") || text::same_text(block, "acacia_fence")
        || text::same_text(block, "birch_fence") || text::same_text(block, "jungle_fence")
        || text::same_text(block, "ladder") || text::same_text(block, "iron_bars")
}

} // verus!
