//! Applying a vein's plan to the world.

use vstd::prelude::*;

use crate::feature::ore;
use crate::feature::ore::{
    OrePlan, OreReplacementMemo, PendingOreSection, PendingOreSectionKey, ResolvedOreTargets,
};
use crate::feature::tree::StateBox;
use crate::pos::BlockPos;

verus! {

/// The position of a place in a section, where the bottom of the world is
/// `min_y`.
pub open spec fn position_in(min_y: int, key: PendingOreSectionKey, place: u16) -> (int, int, int) {
    (
        key.chunk_x * 16 + place as int % 16,
        min_y + key.section_index * 16 + place as int / 256,
        key.chunk_z * 16 + place as int / 16 % 16,
    )
}

/// The section's positions have coordinates.
pub open spec fn section_in_range(min_y: int, key: PendingOreSectionKey) -> bool {
    &&& i32::MIN <= key.chunk_x * 16
    &&& key.chunk_x * 16 + 15 <= i32::MAX
    &&& i32::MIN <= key.chunk_z * 16
    &&& key.chunk_z * 16 + 15 <= i32::MAX
    &&& min_y + key.section_index * 16 + 15 <= i32::MAX
}

/// No section is listed twice, no place twice in its section, every place is one
/// of a section, and every section has coordinates.
pub open spec fn sections_apart(
    sections: Seq<(PendingOreSectionKey, Seq<u16>)>,
    min_y: int,
) -> bool {
    &&& ore::distinct_sections(sections)
    &&& forall|g: int|
        0 <= g < sections.len() ==> (#[trigger] sections[g]).1.no_duplicates()
            && section_in_range(min_y, sections[g].0)
    &&& forall|g: int, k: int|
        0 <= g < sections.len() && 0 <= k < sections[g].1.len() ==> (#[trigger] sections[g].1[k])
            < 4096
}

/// The position is one of the places of the sections.
pub open spec fn sections_name(
    sections: Seq<(PendingOreSectionKey, Seq<u16>)>,
    min_y: int,
    at: (int, int, int),
) -> bool {
    exists|g: int, k: int|
        0 <= g < sections.len() && 0 <= k < sections[g].1.len() && position_in(
            min_y,
            sections[g].0,
            #[trigger] sections[g].1[k],
        ) == at
}

/// The plan needs no look at exposure, and its sections are apart.
pub open spec fn applicable(plan: OrePlan, min_y: int) -> bool {
    match plan {
        OrePlan::Nothing => true,
        OrePlan::Sections(sections) => sections_apart(ore::pending(sections@), min_y),
        OrePlan::Positions(_) => false,
    }
}

/// The plan tries the position.
pub open spec fn plan_names(plan: OrePlan, min_y: int, at: (int, int, int)) -> bool {
    match plan {
        OrePlan::Sections(sections) => sections_name(ore::pending(sections@), min_y, at),
        _ => false,
    }
}

/// What a state becomes where a vein tries it.
pub open spec fn replaced(targets: ResolvedOreTargets, blocks: Seq<usize>, state: u16) -> u16 {
    match targets.replacement_of(blocks, state) {
        Some(new) => new,
        None => state,
    }
}

/// A block of the box is replaced: the plan tries it, and a target matches it.
pub open spec fn replaces(
    plan: OrePlan,
    min_y: int,
    targets: ResolvedOreTargets,
    blocks: Seq<usize>,
    before: StateBox,
    at: (int, int, int),
) -> bool {
    before.covers(at.0, at.1, at.2) && plan_names(plan, min_y, at) && targets.replacement_of(
        blocks,
        before.state(at.0, at.1, at.2),
    ) is Some
}

/// The two boxes lie at the same place.
pub open spec fn same_box(a: StateBox, b: StateBox) -> bool {
    a.low == b.low && a.size_x == b.size_x && a.size_z == b.size_z && a.states@.len()
        == b.states@.len()
}

/// The place `k` of section `g` comes before the place `l` of section `h`.
pub open spec fn done_before(g: int, k: int, h: int, l: int) -> bool {
    g < h || (g == h && k < l)
}

/// One of the places before the place `l` of section `h` is this position.
pub open spec fn done(
    sections: Seq<(PendingOreSectionKey, Seq<u16>)>,
    min_y: int,
    h: int,
    l: int,
    at: (int, int, int),
) -> bool {
    exists|g: int, k: int|
        0 <= g < sections.len() && 0 <= k < sections[g].1.len() && done_before(g, k, h, l)
            && position_in(min_y, sections[g].0, #[trigger] sections[g].1[k]) == at
}

/// Places that are apart name distinct positions.
proof fn lemma_positions_apart(
    sections: Seq<(PendingOreSectionKey, Seq<u16>)>,
    min_y: int,
    g: int,
    k: int,
    h: int,
    l: int,
)
    requires
        sections_apart(sections, min_y),
        0 <= g < sections.len(),
        0 <= k < sections[g].1.len(),
        0 <= h < sections.len(),
        0 <= l < sections[h].1.len(),
        position_in(min_y, sections[g].0, sections[g].1[k]) == position_in(
            min_y,
            sections[h].0,
            sections[h].1[l],
        ),
    ensures
        g == h,
        k == l,
{
    let (a, b) = (sections[g].1[k] as int, sections[h].1[l] as int);
    assert(a < 4096 && b < 4096);
    assert(a == a / 256 * 256 + a / 16 % 16 * 16 + a % 16);
    assert(b == b / 256 * 256 + b / 16 % 16 * 16 + b % 16);
    assert(sections[g].0 == sections[h].0);
    if g < h {
        assert(sections[g].0 != sections[h].0);
    } else if h < g {
        assert(sections[h].0 != sections[g].0);
    }
}

/// Applies a plan that needs no look at exposure: where a position that it tries
/// lies in the box and a target matches the block there, the block becomes the
/// state of the first such target. Tells whether a block was replaced.
///
/// `state_to_block_id` gives the block that each state belongs to.
pub fn apply_plan(
    plan: &OrePlan,
    targets: &ResolvedOreTargets,
    state_to_block_id: &Vec<usize>,
    min_y: i32,
    states: &mut StateBox,
) -> (placed: bool)
    requires
        applicable(*plan, min_y as int),
        forall|i: int|
            0 <= i < old(states).states@.len() ==> (#[trigger] old(states).states@[i])
                < state_to_block_id@.len(),
    ensures
        same_box(*final(states), *old(states)),
        forall|x: int, y: int, z: int|
            old(states).covers(x, y, z) ==> #[trigger] final(states).state(x, y, z) == if plan_names(
                *plan,
                min_y as int,
                (x, y, z),
            ) {
                replaced(*targets, state_to_block_id@, old(states).state(x, y, z))
            } else {
                old(states).state(x, y, z)
            },
        placed <==> exists|x: int, y: int, z: int| #[trigger]
            replaces(
                *plan,
                min_y as int,
                *targets,
                state_to_block_id@,
                *old(states),
                (x, y, z),
            ),
{
    match plan {
        OrePlan::Sections(sections) => {
            let placed = apply_sections(sections, targets, state_to_block_id, min_y, states);
            proof {
                let before = *old(states);
                if exists|at: (int, int, int)| #[trigger]
                    replaces(*plan, min_y as int, *targets, state_to_block_id@, before, at) {
                    let at = choose|at: (int, int, int)| #[trigger]
                        replaces(*plan, min_y as int, *targets, state_to_block_id@, before, at);
                    assert(replaces(
                        *plan,
                        min_y as int,
                        *targets,
                        state_to_block_id@,
                        before,
                        (at.0, at.1, at.2),
                    ));
                }
            }
            placed
        },
        _ => false,
    }
}

fn apply_sections(
    sections: &Vec<PendingOreSection>,
    targets: &ResolvedOreTargets,
    state_to_block_id: &Vec<usize>,
    min_y: i32,
    states: &mut StateBox,
) -> (placed: bool)
    requires
        sections_apart(ore::pending(sections@), min_y as int),
        forall|i: int|
            0 <= i < old(states).states@.len() ==> (#[trigger] old(states).states@[i])
                < state_to_block_id@.len(),
    ensures
        same_box(*final(states), *old(states)),
        forall|x: int, y: int, z: int|
            old(states).covers(x, y, z) ==> #[trigger] final(states).state(x, y, z)
                == if sections_name(ore::pending(sections@), min_y as int, (x, y, z)) {
                replaced(*targets, state_to_block_id@, old(states).state(x, y, z))
            } else {
                old(states).state(x, y, z)
            },
        placed <==> exists|at: (int, int, int)| #[trigger]
            replaces(
                OrePlan::Sections(*sections),
                min_y as int,
                *targets,
                state_to_block_id@,
                *old(states),
                at,
            ),
{
    let ghost all = ore::pending(sections@);
    let ghost before = *states;
    let ghost blocks = state_to_block_id@;
    let ghost plan = OrePlan::Sections(*sections);
    let mut memo = OreReplacementMemo::new();
    let mut placed: bool = false;
    let mut h: usize = 0;
    while h < sections.len()
        invariant
            h <= sections@.len(),
            all == ore::pending(sections@),
            plan == OrePlan::Sections(*sections),
            blocks == state_to_block_id@,
            sections_apart(all, min_y as int),
            same_box(*states, before),
            memo.agrees(*targets, blocks),
            forall|i: int|
                0 <= i < before.states@.len() ==> (#[trigger] before.states@[i]) < blocks.len(),
            forall|x: int, y: int, z: int|
                before.covers(x, y, z) ==> #[trigger] states.state(x, y, z) == if done(
                    all,
                    min_y as int,
                    h as int,
                    0,
                    (x, y, z),
                ) {
                    replaced(*targets, blocks, before.state(x, y, z))
                } else {
                    before.state(x, y, z)
                },
            placed ==> exists|at: (int, int, int)| #[trigger]
                replaces(plan, min_y as int, *targets, blocks, before, at),
            !placed ==> forall|at: (int, int, int)| #[trigger]
                replaces(plan, min_y as int, *targets, blocks, before, at) ==> !done(
                    all,
                    min_y as int,
                    h as int,
                    0,
                    at,
                ),
        decreases sections@.len() - h,
    {
        let key = sections[h].key;
        let places = sections[h].places();
        assert(all[h as int] == (key, places@));
        let mut l: usize = 0;
        while l < places.len()
            invariant
                h < sections@.len(),
                l <= places@.len(),
                all == ore::pending(sections@),
                all[h as int] == (key, places@),
                plan == OrePlan::Sections(*sections),
                blocks == state_to_block_id@,
                sections_apart(all, min_y as int),
                same_box(*states, before),
                memo.agrees(*targets, blocks),
                forall|i: int|
                    0 <= i < before.states@.len() ==> (#[trigger] before.states@[i]) < blocks.len(),
                forall|x: int, y: int, z: int|
                    before.covers(x, y, z) ==> #[trigger] states.state(x, y, z) == if done(
                        all,
                        min_y as int,
                        h as int,
                        l as int,
                        (x, y, z),
                    ) {
                        replaced(*targets, blocks, before.state(x, y, z))
                    } else {
                        before.state(x, y, z)
                    },
                placed ==> exists|at: (int, int, int)| #[trigger]
                    replaces(plan, min_y as int, *targets, blocks, before, at),
                !placed ==> forall|at: (int, int, int)| #[trigger]
                    replaces(plan, min_y as int, *targets, blocks, before, at) ==> !done(
                        all,
                        min_y as int,
                        h as int,
                        l as int,
                        at,
                    ),
            decreases places@.len() - l,
        {
            let place: u16 = places[l];
            assert(all[h as int].1[l as int] == place);
            assert(place < 4096 && section_in_range(min_y as int, key));
            let x: i32 = key.chunk_x * 16 + (place % 16) as i32;
            let y: i32 = (min_y as i64 + key.section_index as i64 * 16 + (place / 256) as i64)
                as i32;
            let z: i32 = key.chunk_z * 16 + (place / 16 % 16) as i32;
            let ghost here = (x as int, y as int, z as int);
            let ghost now = *states;
            assert(here == position_in(min_y as int, key, place));
            proof {
                lemma_step(all, min_y as int, h as int, l as int);
            }
            let mut answer: Option<u16> = None;
            if states.holds(x, y, z) {
                let state: u16 = states.block_state(x, y, z);
                assert(before.covers(here.0, here.1, here.2));
                assert(!done(all, min_y as int, h as int, l as int, here));
                assert(now.state(here.0, here.1, here.2) == before.state(here.0, here.1, here.2));
                proof {
                    before.lemma_place(here.0, here.1, here.2);
                }
                assert(state == before.states@[before.place(here.0, here.1, here.2)]);
                answer = memo.replacement(targets, state_to_block_id, state);
                if let Some(new) = answer {
                    states.set_block_state(x, y, z, new);
                    placed = true;
                    assert(sections_name(all, min_y as int, here));
                    assert(replaces(plan, min_y as int, *targets, blocks, before, here));
                }
            }
            proof {
                assert forall|x: int, y: int, z: int|
                    before.covers(x, y, z) implies #[trigger] states.state(x, y, z) == if done(
                    all,
                    min_y as int,
                    h as int,
                    l + 1,
                    (x, y, z),
                ) {
                    replaced(*targets, blocks, before.state(x, y, z))
                } else {
                    before.state(x, y, z)
                } by {
                    before.lemma_place(x, y, z);
                    assert(states.place(x, y, z) == before.place(x, y, z));
                    assert(now.place(x, y, z) == before.place(x, y, z));
                    if (x, y, z) == here {
                        assert(answer == targets.replacement_of(blocks, before.state(x, y, z)));
                        assert(states.state(x, y, z) == replaced(
                            *targets,
                            blocks,
                            before.state(x, y, z),
                        ));
                    } else {
                        if before.covers(here.0, here.1, here.2) && before.place(x, y, z)
                            == before.place(here.0, here.1, here.2) {
                            before.places_are_apart(x, y, z, here.0, here.1, here.2);
                        }
                        assert(states.state(x, y, z) == now.state(x, y, z));
                        assert(done(all, min_y as int, h as int, l + 1, (x, y, z)) == done(
                            all,
                            min_y as int,
                            h as int,
                            l as int,
                            (x, y, z),
                        ));
                    }
                }
                if !placed {
                    assert forall|at: (int, int, int)| #[trigger]
                        replaces(
                            plan,
                            min_y as int,
                            *targets,
                            blocks,
                            before,
                            at,
                        ) implies !done(all, min_y as int, h as int, l + 1, at) by {
                        assert(!done(all, min_y as int, h as int, l as int, at));
                    }
                }
            }
            l += 1;
        }
        proof {
            assert forall|at: (int, int, int)| #[trigger]
                done(all, min_y as int, h + 1, 0, at) == done(
                    all,
                    min_y as int,
                    h as int,
                    places@.len() as int,
                    at,
                ) by {
                lemma_section_done(all, min_y as int, h as int, at);
            }
        }
        h += 1;
    }
    proof {
        assert forall|at: (int, int, int)| #[trigger]
            done(all, min_y as int, h as int, 0, at) == sections_name(all, min_y as int, at) by {
            if sections_name(all, min_y as int, at) {
                let (g, k) = choose|g: int, k: int|
                    0 <= g < all.len() && 0 <= k < all[g].1.len() && position_in(
                        min_y as int,
                        all[g].0,
                        #[trigger] all[g].1[k],
                    ) == at;
                assert(done_before(g, k, h as int, 0));
                assert(position_in(min_y as int, all[g].0, all[g].1[k]) == at);
            }
        }
    }
    placed
}

/// One place more is done, and was not before.
proof fn lemma_step(
    sections: Seq<(PendingOreSectionKey, Seq<u16>)>,
    min_y: int,
    h: int,
    l: int,
)
    requires
        sections_apart(sections, min_y),
        0 <= h < sections.len(),
        0 <= l < sections[h].1.len(),
    ensures
        !done(sections, min_y, h, l, position_in(min_y, sections[h].0, sections[h].1[l])),
        forall|at: (int, int, int)| #[trigger]
            done(sections, min_y, h, l + 1, at) <==> done(sections, min_y, h, l, at) || at
                == position_in(min_y, sections[h].0, sections[h].1[l]),
{
    let here = position_in(min_y, sections[h].0, sections[h].1[l]);
    if done(sections, min_y, h, l, here) {
        let (g, k) = choose|g: int, k: int|
            0 <= g < sections.len() && 0 <= k < sections[g].1.len() && done_before(g, k, h, l)
                && position_in(min_y, sections[g].0, #[trigger] sections[g].1[k]) == here;
        lemma_positions_apart(sections, min_y, g, k, h, l);
    }
    assert forall|at: (int, int, int)| #[trigger]
        done(sections, min_y, h, l + 1, at) <==> done(sections, min_y, h, l, at) || at == here by {
        if done(sections, min_y, h, l + 1, at) {
            let (g, k) = choose|g: int, k: int|
                0 <= g < sections.len() && 0 <= k < sections[g].1.len() && done_before(
                    g,
                    k,
                    h,
                    l + 1,
                ) && position_in(min_y, sections[g].0, #[trigger] sections[g].1[k]) == at;
            if !(g == h && k == l) {
                assert(done_before(g, k, h, l));
                assert(position_in(min_y, sections[g].0, sections[g].1[k]) == at);
            }
        }
        if done(sections, min_y, h, l, at) {
            let (g, k) = choose|g: int, k: int|
                0 <= g < sections.len() && 0 <= k < sections[g].1.len() && done_before(g, k, h, l)
                    && position_in(min_y, sections[g].0, #[trigger] sections[g].1[k]) == at;
            assert(done_before(g, k, h, l + 1));
            assert(position_in(min_y, sections[g].0, sections[g].1[k]) == at);
        }
        if at == here {
            assert(done_before(h, l, h, l + 1));
            assert(position_in(min_y, sections[h].0, sections[h].1[l]) == at);
        }
    }
}

/// With the last place of a section, the section is done.
proof fn lemma_section_done(
    sections: Seq<(PendingOreSectionKey, Seq<u16>)>,
    min_y: int,
    h: int,
    at: (int, int, int),
)
    requires
        0 <= h < sections.len(),
    ensures
        done(sections, min_y, h + 1, 0, at) == done(
            sections,
            min_y,
            h,
            sections[h].1.len() as int,
            at,
        ),
{
    let n = sections[h].1.len() as int;
    if done(sections, min_y, h + 1, 0, at) {
        let (g, k) = choose|g: int, k: int|
            0 <= g < sections.len() && 0 <= k < sections[g].1.len() && done_before(g, k, h + 1, 0)
                && position_in(min_y, sections[g].0, #[trigger] sections[g].1[k]) == at;
        assert(done_before(g, k, h, n));
        assert(position_in(min_y, sections[g].0, sections[g].1[k]) == at);
    }
    if done(sections, min_y, h, n, at) {
        let (g, k) = choose|g: int, k: int|
            0 <= g < sections.len() && 0 <= k < sections[g].1.len() && done_before(g, k, h, n)
                && position_in(min_y, sections[g].0, #[trigger] sections[g].1[k]) == at;
        assert(done_before(g, k, h + 1, 0));
        assert(position_in(min_y, sections[g].0, sections[g].1[k]) == at);
    }
}

// ---------------------------------------------------------------------------
// Plans of veins
// ---------------------------------------------------------------------------
/// The coordinates of a position.
pub open spec fn coordinates_of(at: BlockPos) -> (int, int, int) {
    (at.x as int, at.y as int, at.z as int)
}

/// A group holds the place of one of the positions.
pub open spec fn holds_place(
    groups: Seq<(PendingOreSectionKey, Seq<u16>)>,
    g: int,
    k: int,
    min_y: int,
    at: BlockPos,
) -> bool {
    &&& 0 <= g < groups.len()
    &&& 0 <= k < groups[g].1.len()
    &&& groups[g].0 == ore::section_key(min_y, at)
    &&& groups[g].1[k] == ore::packed_place(at)
}

/// A position's section and place tell the position.
proof fn lemma_position_in(min_y: int, at: BlockPos)
    requires
        i32::MIN <= min_y <= at.y,
        min_y % 16 == 0,
    ensures
        position_in(min_y, ore::section_key(min_y, at), ore::packed_place(at)) == coordinates_of(
            at,
        ),
        section_in_range(min_y, ore::section_key(min_y, at)),
        ore::packed_place(at) < 4096,
{
    let up = at.y - min_y;
    assert(0 <= up / 16 <= 0x1000_0000);
    assert(ore::section_key(min_y, at).section_index == up / 16);
    assert(at.y as int % 16 == up % 16);
    assert(up == up / 16 * 16 + up % 16);
}

/// What the groups hold are places of the positions.
pub open spec fn groups_hold_only(
    groups: Seq<(PendingOreSectionKey, Seq<u16>)>,
    min_y: int,
    positions: Seq<BlockPos>,
) -> bool {
    forall|g: int, k: int|
        0 <= g < groups.len() && 0 <= k < groups[g].1.len() ==> #[trigger] comes_from(
            groups,
            g,
            k,
            min_y,
            positions,
        )
}

/// The place is that of one of the positions.
pub open spec fn comes_from(
    groups: Seq<(PendingOreSectionKey, Seq<u16>)>,
    g: int,
    k: int,
    min_y: int,
    positions: Seq<BlockPos>,
) -> bool {
    exists|i: int|
        0 <= i < positions.len() && holds_place(groups, g, k, min_y, #[trigger] positions[i])
}

/// One of the groups holds the position's place.
pub open spec fn is_held(
    groups: Seq<(PendingOreSectionKey, Seq<u16>)>,
    min_y: int,
    at: BlockPos,
) -> bool {
    exists|g: int, k: int| #[trigger] holds_place(groups, g, k, min_y, at)
}

/// The groups hold the place of every position.
pub open spec fn groups_hold_all(
    groups: Seq<(PendingOreSectionKey, Seq<u16>)>,
    min_y: int,
    positions: Seq<BlockPos>,
) -> bool {
    forall|i: int| 0 <= i < positions.len() ==> is_held(groups, min_y, #[trigger] positions[i])
}

/// Where a place goes: into its section, or into a new one at the end.
pub open spec fn slot_for(
    groups: Seq<(PendingOreSectionKey, Seq<u16>)>,
    key: PendingOreSectionKey,
) -> int {
    if exists|i: int| 0 <= i < groups.len() && (#[trigger] groups[i]).0 == key {
        choose|i: int| 0 <= i < groups.len() && (#[trigger] groups[i]).0 == key
    } else {
        groups.len() as int
    }
}

/// The places that wait in a section.
pub open spec fn waiting_in(
    groups: Seq<(PendingOreSectionKey, Seq<u16>)>,
    at: int,
) -> Seq<u16> {
    if at < groups.len() {
        groups[at].1
    } else {
        Seq::empty()
    }
}

proof fn lemma_with_place(
    before: Seq<(PendingOreSectionKey, Seq<u16>)>,
    key: PendingOreSectionKey,
    place: u16,
)
    ensures
        ({
            let now = ore::with_place(before, key, place);
            let at = slot_for(before, key);
            &&& 0 <= at <= before.len()
            &&& now.len() == if at < before.len() {
                before.len()
            } else {
                before.len() + 1
            }
            &&& now[at] == (key, waiting_in(before, at).push(place))
            &&& at < before.len() ==> before[at].0 == key
            &&& at == before.len() ==> forall|i: int|
                0 <= i < before.len() ==> (#[trigger] before[i]).0 != key
            &&& forall|g: int| 0 <= g < before.len() && g != at ==> #[trigger] now[g] == before[g]
        }),
{
    let at = slot_for(before, key);
    if at == before.len() {
        assert(seq![place] =~= Seq::<u16>::empty().push(place));
    }
}

/// With a place that is new in its section, sections stay apart.
proof fn lemma_still_apart(
    before: Seq<(PendingOreSectionKey, Seq<u16>)>,
    min_y: int,
    key: PendingOreSectionKey,
    place: u16,
)
    requires
        sections_apart(before, min_y),
        section_in_range(min_y, key),
        place < 4096,
        !waiting_in(before, slot_for(before, key)).contains(place),
    ensures
        sections_apart(ore::with_place(before, key, place), min_y),
{
    let now = ore::with_place(before, key, place);
    let at = slot_for(before, key);
    let places = waiting_in(before, at);
    lemma_with_place(before, key, place);
    assert forall|g: int| 0 <= g < now.len() implies (#[trigger] now[g]).1.no_duplicates()
        && section_in_range(min_y, now[g].0) by {
        if g == at {
            assert(at < before.len() ==> before[at].1.no_duplicates());
            assert(places.no_duplicates());
            assert forall|i: int, j: int|
                0 <= i < places.push(place).len() && 0 <= j < places.push(place).len() && i
                    != j implies places.push(place)[i] != places.push(place)[j] by {
                if i == places.len() {
                    assert(places.contains(places[j]));
                } else if j == places.len() {
                    assert(places.contains(places[i]));
                }
            }
        } else {
            assert(now[g] == before[g]);
        }
    }
    assert forall|g: int, k: int|
        0 <= g < now.len() && 0 <= k < now[g].1.len() implies (#[trigger] now[g].1[k]) < 4096 by {
        if g != at {
            assert(now[g] == before[g]);
            assert(before[g].1[k] < 4096);
        } else if k < places.len() {
            assert(before[at].1[k] < 4096);
        }
    }
    assert forall|i: int, j: int| 0 <= i < j < now.len() implies now[i].0 != now[j].0 by {
        if i != at {
            assert(now[i] == before[i]);
        }
        if j != at {
            assert(now[j] == before[j]);
        }
        if j < before.len() {
            assert(before[i].0 != before[j].0);
        } else {
            assert(before[i].0 != key);
        }
    }
}

proof fn lemma_still_only(
    before: Seq<(PendingOreSectionKey, Seq<u16>)>,
    min_y: int,
    positions: Seq<BlockPos>,
)
    requires
        positions.len() > 0,
        groups_hold_only(before, min_y, positions.drop_last()),
    ensures
        groups_hold_only(
            ore::with_place(
                before,
                ore::section_key(min_y, positions.last()),
                ore::packed_place(positions.last()),
            ),
            min_y,
            positions,
        ),
{
    let rest = positions.drop_last();
    let last = positions.last();
    let n = positions.len() - 1;
    let key = ore::section_key(min_y, last);
    let place = ore::packed_place(last);
    let now = ore::with_place(before, key, place);
    let at = slot_for(before, key);
    let places = waiting_in(before, at);
    lemma_with_place(before, key, place);
    assert forall|g: int, k: int|
        0 <= g < now.len() && 0 <= k < now[g].1.len() implies #[trigger] comes_from(
        now,
        g,
        k,
        min_y,
        positions,
    ) by {
        if g == at && k == places.len() {
            assert(holds_place(now, g, k, min_y, positions[n]));
        } else {
            assert(g < before.len() && before[g].1[k] == now[g].1[k]);
            assert(comes_from(before, g, k, min_y, rest));
            let i = choose|i: int|
                0 <= i < rest.len() && holds_place(before, g, k, min_y, #[trigger] rest[i]);
            assert(holds_place(now, g, k, min_y, positions[i]));
        }
    }
}

proof fn lemma_still_all(
    before: Seq<(PendingOreSectionKey, Seq<u16>)>,
    min_y: int,
    positions: Seq<BlockPos>,
)
    requires
        positions.len() > 0,
        groups_hold_all(before, min_y, positions.drop_last()),
    ensures
        groups_hold_all(
            ore::with_place(
                before,
                ore::section_key(min_y, positions.last()),
                ore::packed_place(positions.last()),
            ),
            min_y,
            positions,
        ),
{
    let rest = positions.drop_last();
    let last = positions.last();
    let n = positions.len() - 1;
    let key = ore::section_key(min_y, last);
    let place = ore::packed_place(last);
    let now = ore::with_place(before, key, place);
    let at = slot_for(before, key);
    let places = waiting_in(before, at);
    lemma_with_place(before, key, place);
    assert forall|i: int| 0 <= i < positions.len() implies is_held(
        now,
        min_y,
        #[trigger] positions[i],
    ) by {
        if i == n {
            assert(holds_place(now, at, places.len() as int, min_y, positions[i]));
        } else {
            assert(rest[i] == positions[i]);
            assert(is_held(before, min_y, rest[i]));
            let (g, k) = choose|g: int, k: int| #[trigger]
                holds_place(before, g, k, min_y, rest[i]);
            if g == at {
                assert(now[g].1[k] == before[g].1[k]);
            } else {
                assert(now[g] == before[g]);
            }
            assert(holds_place(now, g, k, min_y, positions[i]));
        }
    }
}

/// The groups of distinct positions are apart and hold their places.
proof fn lemma_grouped(min_y: int, positions: Seq<BlockPos>)
    requires
        i32::MIN <= min_y,
        min_y % 16 == 0,
        positions.no_duplicates(),
        forall|i: int| 0 <= i < positions.len() ==> min_y <= (#[trigger] positions[i]).y
            && positions[i].y - min_y <= i32::MAX,
    ensures
        sections_apart(ore::grouped(min_y, positions), min_y),
        groups_hold_only(ore::grouped(min_y, positions), min_y, positions),
        groups_hold_all(ore::grouped(min_y, positions), min_y, positions),
    decreases positions.len(),
{
    if positions.len() > 0 {
        let rest = positions.drop_last();
        let last = positions.last();
        let n = positions.len() - 1;
        assert forall|i: int| 0 <= i < rest.len() implies min_y <= (#[trigger] rest[i]).y
            && rest[i].y - min_y <= i32::MAX by {
            assert(rest[i] == positions[i]);
        }
        lemma_grouped(min_y, rest);
        assert(positions[n] == last);
        lemma_position_in(min_y, last);
        let before = ore::grouped(min_y, rest);
        let key = ore::section_key(min_y, last);
        let place = ore::packed_place(last);
        let at = slot_for(before, key);
        let places = waiting_in(before, at);
        lemma_with_place(before, key, place);
        if places.contains(place) {
            let k = choose|k: int| 0 <= k < places.len() && places[k] == place;
            assert(before[at].1[k] == place);
            assert(comes_from(before, at, k, min_y, rest));
            let i = choose|i: int|
                0 <= i < rest.len() && holds_place(before, at, k, min_y, #[trigger] rest[i]);
            assert(rest[i] == positions[i]);
            ore::places_are_distinct(min_y, rest[i], last);
            assert(positions[i] == positions[n]);
        }
        lemma_still_apart(before, min_y, key, place);
        lemma_still_only(before, min_y, positions);
        lemma_still_all(before, min_y, positions);
    }
}

/// The plan tries exactly these positions.
pub open spec fn plan_tries(plan: OrePlan, min_y: int, positions: Seq<BlockPos>) -> bool {
    &&& forall|at: BlockPos| #[trigger]
        plan_names(plan, min_y, coordinates_of(at)) <==> positions.contains(at)
    &&& forall|at: (int, int, int)| #[trigger]
        plan_names(plan, min_y, at) ==> exists|i: int|
            0 <= i < positions.len() && coordinates_of(#[trigger] positions[i]) == at
}

/// A plan that groups distinct positions into sections can be applied, and
/// tries exactly these positions.
pub proof fn a_grouped_plan_tries_its_positions(
    min_y: int,
    positions: Seq<BlockPos>,
    sections: Vec<PendingOreSection>,
)
    requires
        i32::MIN <= min_y,
        min_y % 16 == 0,
        positions.no_duplicates(),
        forall|i: int| 0 <= i < positions.len() ==> min_y <= (#[trigger] positions[i]).y
            && positions[i].y - min_y <= i32::MAX,
        ore::pending(sections@) == ore::grouped(min_y, positions),
    ensures
        applicable(OrePlan::Sections(sections), min_y),
        plan_tries(OrePlan::Sections(sections), min_y, positions),
{
    let groups = ore::grouped(min_y, positions);
    lemma_grouped(min_y, positions);
    assert forall|at: (int, int, int)| #[trigger]
        plan_names(OrePlan::Sections(sections), min_y, at) implies exists|i: int|
        0 <= i < positions.len() && coordinates_of(#[trigger] positions[i]) == at by {
        let (g, k) = choose|g: int, k: int|
            0 <= g < groups.len() && 0 <= k < groups[g].1.len() && position_in(
                min_y,
                groups[g].0,
                #[trigger] groups[g].1[k],
            ) == at;
        assert(comes_from(groups, g, k, min_y, positions));
        let i = choose|i: int|
            0 <= i < positions.len() && holds_place(groups, g, k, min_y, #[trigger] positions[i]);
        lemma_position_in(min_y, positions[i]);
    }
    assert forall|at: BlockPos| #[trigger]
        plan_names(OrePlan::Sections(sections), min_y, coordinates_of(at))
            <==> positions.contains(at) by {
        if positions.contains(at) {
            let i = choose|i: int| 0 <= i < positions.len() && positions[i] == at;
            assert(is_held(groups, min_y, positions[i]));
            let (g, k) = choose|g: int, k: int| #[trigger]
                holds_place(groups, g, k, min_y, positions[i]);
            lemma_position_in(min_y, at);
            assert(position_in(min_y, groups[g].0, groups[g].1[k]) == coordinates_of(at));
        }
    }
}

} // verus!
