//! What lowering surface rules promises, in levels and depths.

use crate::density::surface_meaning;
use crate::density::surface_meaning::SurfaceEnv;
use crate::density::surface_rules;
use crate::density::surface_rules::{
    BiomeIdJson, BoolCode, Cond, ContextField, Extent, Facts, IntCode, PassState, SingleOrList,
    SurfaceCode, SurfaceConditionJson, SurfaceRuleJson, VerticalAnchorJson,
};
use crate::text;
use vstd::prelude::*;

verus! {

// ---------------------------------------------------------------------------
// Anchors
// ---------------------------------------------------------------------------
/// The anchor stands at the level: at its number, or as far above the lowest
/// block as it says, or as far below the topmost one.
pub open spec fn stands_at(anchor: VerticalAnchorJson, extent: Extent, level: int) -> bool {
    match anchor {
        VerticalAnchorJson::Absolute { absolute } => level == absolute,
        VerticalAnchorJson::AboveBottom { above_bottom } => level - above_bottom == extent.min_y,
        VerticalAnchorJson::BelowTop { below_top } => level + below_top == extent.min_y
            + extent.height - 1,
    }
}

/// Counted from the top, an anchor and its distance make up the topmost block;
/// counted from the bottom, the anchor less its distance is the lowest one; and
/// an absolute anchor is its number. One more below the top is one block lower,
/// one more above the bottom is one higher.
pub proof fn anchors_count_from_their_edge(extent: Extent, n: i32)
    requires
        n < i32::MAX,
    ensures
        surface_rules::anchor_y(VerticalAnchorJson::BelowTop { below_top: n }, extent) + n
            == extent.min_y + extent.height - 1,
        surface_rules::anchor_y(VerticalAnchorJson::AboveBottom { above_bottom: n }, extent) - n
            == extent.min_y,
        surface_rules::anchor_y(VerticalAnchorJson::Absolute { absolute: n }, extent) == n,
        surface_rules::anchor_y(
            VerticalAnchorJson::BelowTop { below_top: (n + 1) as i32 },
            extent,
        ) == surface_rules::anchor_y(VerticalAnchorJson::BelowTop { below_top: n }, extent) - 1,
        surface_rules::anchor_y(
            VerticalAnchorJson::AboveBottom { above_bottom: (n + 1) as i32 },
            extent,
        ) == surface_rules::anchor_y(VerticalAnchorJson::AboveBottom { above_bottom: n }, extent)
            + 1,
{
}

/// A lowered vertical gradient runs between the levels at which its two anchors
/// stand, and goes by its own random name.
pub proof fn a_gradient_runs_between_its_anchors(
    st: PassState,
    facts: Facts,
    extent: Extent,
    cond: SurfaceConditionJson,
)
    requires
        cond is VerticalGradient,
        surface_rules::condition_fits(cond, extent),
        st.gradient_ids.len() < usize::MAX,
    ensures
        ({
            let (after, lowered) = surface_rules::emit_condition(st, facts, extent, cond);
            &&& lowered is Expr
            &&& lowered->Expr_0 is Gradient
            &&& stands_at(cond->true_at_and_below, extent, lowered->Expr_0->true_y as int)
            &&& stands_at(cond->false_at_and_above, extent, lowered->Expr_0->false_y as int)
            &&& lowered->Expr_0->gradient < after.gradient_ids.len()
            &&& after.gradient_ids[lowered->Expr_0->gradient as int] == cond->random_name@
        }),
{
    let after = surface_rules::emit_condition(st, facts, extent, cond).0;
    let name = cond->random_name@;
    if st.gradient_ids.contains(name) {
        let i = surface_rules::lemma_first(st.gradient_ids, name);
        surface_rules::lemma_slot(after.gradient_ids, name, i);
    } else {
        let i = surface_rules::lemma_first_after(st.gradient_ids, name);
        surface_rules::lemma_slot(after.gradient_ids, name, i);
    }
}

/// A gradient is false from the level on at which its upper anchor stands.
pub proof fn a_gradient_ends_at_its_upper_anchor(cond: SurfaceConditionJson, extent: Extent)
    requires
        surface_rules::condition_fits(cond, extent),
    ensures
        cond is VerticalGradient ==> surface_rules::false_at_and_above(cond, extent) is Some
            && stands_at(
            cond->false_at_and_above,
            extent,
            surface_rules::false_at_and_above(cond, extent)->0 as int,
        ),
        cond !is VerticalGradient ==> surface_rules::false_at_and_above(cond, extent) is None,
{
}

// ---------------------------------------------------------------------------
// Conditions
// ---------------------------------------------------------------------------
/// The value that a condition has once it is lowered without any facts.
pub open spec fn lowered_value(
    cond: SurfaceConditionJson,
    st: PassState,
    extent: Extent,
    env: SurfaceEnv,
) -> bool {
    let (after, lowered) = surface_rules::emit_condition(
        st,
        surface_rules::no_facts(),
        extent,
        cond,
    );
    surface_meaning::cond_value(lowered, env, after)
}

/// A stone depth condition holds up to its offset below the first block, counted
/// from the floor's surface or up from the ceiling's, deeper by the surface depth
/// and the secondary depth where it asks for them.
pub proof fn stone_depth_is_counted_from_its_surface(
    st: PassState,
    extent: Extent,
    env: SurfaceEnv,
    cond: SurfaceConditionJson,
)
    requires
        cond is StoneDepth,
    ensures
        ({
            let depth = if cond->surface_type@ == "floor"@ {
                env.stone_depth_above
            } else {
                env.stone_depth_below
            };
            let more = (if cond->StoneDepth_add_surface_depth {
                env.surface_depth
            } else {
                0
            }) + (if cond->secondary_depth_range > 0 {
                (env.secondary_depth)(cond->secondary_depth_range as int)
            } else {
                0
            });
            lowered_value(cond, st, extent, env) <==> depth - 1 - more <= cond->StoneDepth_offset
        }),
{
    reveal_with_fuel(surface_meaning::int_value, 5);
    reveal_with_fuel(surface_meaning::bool_value, 3);
}

/// A condition on height holds from its anchor on, farther up by the surface
/// depth times its multiplier; the stone above counts toward the height where it
/// asks for that.
pub proof fn a_height_condition_holds_from_its_anchor_on(
    st: PassState,
    extent: Extent,
    env: SurfaceEnv,
    cond: SurfaceConditionJson,
    level: int,
)
    requires
        cond is YAbove,
        surface_rules::condition_fits(cond, extent),
        stands_at(cond->anchor, extent, level),
    ensures
        lowered_value(cond, st, extent, env) <==> env.block_y - level + (
        if cond->YAbove_add_stone_depth {
            env.stone_depth_above
        } else {
            0
        }) >= env.surface_depth * cond->YAbove_surface_depth_multiplier,
{
    reveal_with_fuel(surface_meaning::int_value, 5);
    reveal_with_fuel(surface_meaning::bool_value, 3);
}

/// A water condition holds where there is no water, and else from its offset
/// above the water on, farther up by the surface depth times its multiplier.
pub proof fn a_water_condition_holds_above_the_water(
    st: PassState,
    extent: Extent,
    env: SurfaceEnv,
    cond: SurfaceConditionJson,
)
    requires
        cond is Water,
    ensures
        env.water_height == i32::MIN ==> lowered_value(cond, st, extent, env),
        env.water_height != i32::MIN ==> (lowered_value(cond, st, extent, env) <==> env.block_y
            - env.water_height + (if cond->Water_add_stone_depth {
            env.stone_depth_above
        } else {
            0
        }) >= cond->Water_offset + env.surface_depth * cond->Water_surface_depth_multiplier),
{
    reveal_with_fuel(surface_meaning::int_value, 6);
    reveal_with_fuel(surface_meaning::bool_value, 3);
}

/// The other conditions: above the preliminary surface from that level on, a hole
/// where there is no surface depth, cold and steep as the position is, a noise
/// between its two thresholds; and a negation holds where the negated does not.
pub proof fn plain_conditions_hold_as_the_position_says(
    st: PassState,
    extent: Extent,
    env: SurfaceEnv,
    cond: SurfaceConditionJson,
)
    requires
        st.noise_ids.len() < usize::MAX,
    ensures
        cond is AbovePreliminarySurface ==> (lowered_value(cond, st, extent, env) <==> env.block_y
            >= env.min_surface_level),
        cond is Hole ==> (lowered_value(cond, st, extent, env) <==> env.surface_depth <= 0),
        cond is Temperature ==> lowered_value(cond, st, extent, env) == env.cold_enough_to_snow,
        cond is Steep ==> lowered_value(cond, st, extent, env) == env.steep,
        cond is NoiseThreshold ==> lowered_value(cond, st, extent, env) == (env.noise_between)(
            cond->noise@,
            cond->is_3d,
            cond->min_threshold,
            cond->max_threshold,
        ),
        cond is Not ==> lowered_value(cond, st, extent, env) == !lowered_value(
            *cond->invert,
            st,
            extent,
            env,
        ),
{
    reveal_with_fuel(surface_meaning::int_value, 3);
    reveal_with_fuel(surface_meaning::bool_value, 3);
    if cond is NoiseThreshold {
        let name = cond->noise@;
        let after = surface_rules::interned(st.noise_ids, name);
        if st.noise_ids.contains(name) {
            let i = surface_rules::lemma_first(st.noise_ids, name);
            surface_rules::lemma_slot(after, name, i);
        } else {
            let i = surface_rules::lemma_first_after(st.noise_ids, name);
            surface_rules::lemma_slot(after, name, i);
        }
    }
}

/// A biome condition holds in the biomes that it names, one or several, and in no
/// other; where the biome is not known it does not hold.
pub proof fn a_biome_condition_holds_in_the_named_biomes(
    st: PassState,
    extent: Extent,
    env: SurfaceEnv,
    cond: SurfaceConditionJson,
)
    requires
        cond is BiomeIs,
        surface_meaning::tables_fit(
            surface_rules::emit_condition(st, surface_rules::no_facts(), extent, cond).0,
        ),
    ensures
        env.biome is None ==> !lowered_value(cond, st, extent, env),
        env.biome is Some ==> (lowered_value(cond, st, extent, env) <==> match cond->biome_is {
            SingleOrList::Single(id) => text::uppercase(
                text::without_prefix(id.0@, "minecraft:"@),
            ) == env.biome->0,
            SingleOrList::List(ids) => exists|i: int|
                0 <= i < ids@.len() && text::uppercase(
                    text::without_prefix((#[trigger] ids@[i]).0@, "minecraft:"@),
                ) == env.biome->0,
        }),
{
    let after = surface_rules::emit_condition(st, surface_rules::no_facts(), extent, cond).0;
    surface_meaning::lemma_extends_itself(after);
    surface_meaning::lowered_condition_keeps_its_value(
        st,
        surface_rules::no_facts(),
        extent,
        cond,
        env,
        after,
    );
    let ids = cond->biome_is.items();
    let names = surface_rules::biome_names(ids);
    assert forall|i: int| 0 <= i < ids.len() implies #[trigger] names[i] == ids[i].0@ by {}
    match cond->biome_is {
        SingleOrList::Single(id) => {
            assert(ids[0] == id);
            assert(surface_rules::biome_ident(names[0]) == text::uppercase(
                text::without_prefix(id.0@, "minecraft:"@),
            ));
        },
        SingleOrList::List(list) => {
            if env.biome is Some {
                if surface_meaning::biome_named(names, env.biome->0) {
                    let i = choose|i: int|
                        0 <= i < names.len() && #[trigger] surface_rules::biome_ident(names[i])
                            == env.biome->0;
                    assert(names[i] == list@[i].0@);
                }
                if exists|i: int|
                    0 <= i < list@.len() && text::uppercase(
                        text::without_prefix((#[trigger] list@[i]).0@, "minecraft:"@),
                    ) == env.biome->0 {
                    let i = choose|i: int|
                        0 <= i < list@.len() && text::uppercase(
                            text::without_prefix((#[trigger] list@[i]).0@, "minecraft:"@),
                        ) == env.biome->0;
                    assert(surface_rules::biome_ident(names[i]) == env.biome->0);
                }
            }
        },
    }
}

/// A text without a prefix is the text that follows it; one that does not start
/// with it stays whole.
pub proof fn a_prefix_is_taken_off_once(prefix: Seq<char>, rest: Seq<char>, other: Seq<char>)
    requires
        !(prefix.len() <= other.len() && forall|i: int|
            0 <= i < prefix.len() ==> other[i] == prefix[i]),
    ensures
        text::without_prefix(prefix + rest, prefix) == rest,
        text::without_prefix(other, prefix) == other,
{
    let all = prefix + rest;
    assert(all.subrange(0, prefix.len() as int) =~= prefix);
    assert(all.subrange(prefix.len() as int, all.len() as int) =~= rest);
    if text::starts_with(other, prefix) {
        assert forall|i: int| 0 <= i < prefix.len() implies other[i] == prefix[i] by {
            assert(other.subrange(0, prefix.len() as int)[i] == other[i]);
        }
    }
}

// ---------------------------------------------------------------------------
// What is known and what is noted
// ---------------------------------------------------------------------------
/// A known answer on the preliminary surface is taken, also negated; a biome
/// condition all of whose biomes are known to be absent is false; and what the
/// facts say nothing of is not decided.
pub proof fn facts_decide_what_they_speak_of(
    cond: SurfaceConditionJson,
    inner: SurfaceConditionJson,
    facts: Facts,
    known: bool,
    ids: Vec<BiomeIdJson>,
)
    requires
        facts.above == Some(known),
        inner is AbovePreliminarySurface,
        cond == (SurfaceConditionJson::BiomeIs { biome_is: SingleOrList::List(ids) }),
        ids@.len() > 0,
    ensures
        surface_rules::decided(inner, facts) == Some(known),
        surface_rules::decided(
            SurfaceConditionJson::Not { invert: Box::new(inner) },
            facts,
        ) == Some(!known),
        (forall|i: int| 0 <= i < ids@.len() ==> facts.absent.contains((#[trigger] ids@[i]).0@))
            ==> surface_rules::decided(cond, facts) == Some(false),
        (exists|i: int| 0 <= i < ids@.len() && !facts.absent.contains((#[trigger] ids@[i]).0@))
            ==> surface_rules::decided(cond, facts) is None,
{
    reveal_with_fuel(surface_rules::decided, 2);
    let names = surface_rules::biome_names(ids@);
    assert(names.len() == ids@.len());
    if forall|i: int| 0 <= i < ids@.len() ==> facts.absent.contains((#[trigger] ids@[i]).0@) {
        assert forall|i: int| 0 <= i < names.len() implies #[trigger] facts.absent.contains(
            names[i],
        ) by {
            assert(names[i] == ids@[i].0@);
        }
    }
    if exists|i: int| 0 <= i < ids@.len() && !facts.absent.contains((#[trigger] ids@[i]).0@) {
        let i = choose|i: int|
            0 <= i < ids@.len() && !facts.absent.contains((#[trigger] ids@[i]).0@);
        assert(names[i] == ids@[i].0@);
        assert(!facts.absent.contains(names[i]));
    }
}

/// A rule behind a condition that the facts make false is lowered to nothing, and
/// one behind a condition that they make true to the rule alone.
pub proof fn a_decided_branch_is_folded_away(
    st: PassState,
    facts: Facts,
    extent: Extent,
    cond: SurfaceConditionJson,
    rule: SurfaceRuleJson,
)
    requires
        surface_rules::decided(cond, facts) is Some,
    ensures
        ({
            let whole = surface_rules::emit_rule(
                st,
                facts,
                extent,
                SurfaceRuleJson::Condition { if_true: cond, then_run: Box::new(rule) },
            ).1;
            let after = surface_rules::emit_condition(st, facts, extent, cond).0;
            if surface_rules::decided(cond, facts)->0 {
                whole == surface_rules::emit_rule(after, facts, extent, rule).1
            } else {
                whole is Empty
            }
        }),
{
    reveal_with_fuel(surface_rules::emit_rule, 2);
    surface_meaning::folding_agrees_with_the_dead_branch_test(st, facts, extent, cond);
}

/// Lowering a condition notes that steepness, the secondary noise or the biome is
/// read exactly where the condition reads it.
pub proof fn a_condition_notes_what_it_reads(
    st: PassState,
    facts: Facts,
    extent: Extent,
    cond: SurfaceConditionJson,
)
    requires
        cond !is Not,
    ensures
        ({
            let after = surface_rules::emit_condition(st, facts, extent, cond).0;
            &&& after.uses_steep <==> st.uses_steep || cond is Steep
            &&& after.uses_surface_secondary <==> st.uses_surface_secondary || (cond is StoneDepth
                && cond->secondary_depth_range > 0)
            &&& after.uses_biome <==> st.uses_biome || cond is BiomeIs || cond is Temperature
            &&& after.uses_preliminary_surface <==> st.uses_preliminary_surface
                || cond is AbovePreliminarySurface
        }),
{
}

/// The recorded depth below grows to cover a ceiling's constant limit, and to no
/// more: it is what it was or that limit; a limit that is no constant leaves it
/// open for good, and a floor's limit does not count.
pub proof fn the_depth_bound_covers_constant_ceilings(
    st: PassState,
    facts: Facts,
    extent: Extent,
    cond: SurfaceConditionJson,
)
    requires
        cond is StoneDepth,
        surface_rules::condition_fits(cond, extent),
    ensures
        ({
            let before = st.stone_depth_below_bound;
            let after = surface_rules::emit_condition(
                st,
                facts,
                extent,
                cond,
            ).0.stone_depth_below_bound;
            let constant = !cond->StoneDepth_add_surface_depth && cond->secondary_depth_range <= 0;
            let floor = cond->surface_type@ == "floor"@;
            &&& floor ==> after == before
            &&& !floor && !constant ==> after is None
            &&& !floor && before is None ==> after is None
            &&& !floor && constant && before is Some ==> {
                &&& after is Some
                &&& after->0 >= before->0
                &&& after->0 >= cond->StoneDepth_offset + 1
                &&& after->0 == before->0 || after->0 == cond->StoneDepth_offset + 1 || after->0
                    == 0
            }
        }),
{
}

/// The condition, or the one it negates, asks for the preliminary surface.
pub proof fn asking_for_the_preliminary_surface_is_found(
    cond: SurfaceConditionJson,
    rule: SurfaceRuleJson,
    rules: Vec<SurfaceRuleJson>,
    n: nat,
)
    ensures
        cond is AbovePreliminarySurface ==> surface_rules::condition_names_preliminary(cond),
        cond is Not ==> surface_rules::condition_names_preliminary(cond)
            == surface_rules::condition_names_preliminary(*cond->invert),
        cond !is AbovePreliminarySurface && cond !is Not
            ==> !surface_rules::condition_names_preliminary(cond),
        surface_rules::rule_names_preliminary(
            SurfaceRuleJson::Condition { if_true: cond, then_run: Box::new(rule) },
        ) <==> surface_rules::condition_names_preliminary(cond)
            || surface_rules::rule_names_preliminary(rule),
        n <= rules@.len() ==> (surface_rules::rules_name_preliminary(rules@, n) <==> exists|i: int|
            0 <= i < n && surface_rules::rule_names_preliminary(#[trigger] rules@[i])),
        surface_rules::rule_names_preliminary(SurfaceRuleJson::Sequence { sequence: rules })
            == surface_rules::rules_name_preliminary(rules@, rules@.len()),
        rule !is Sequence && rule !is Condition ==> !surface_rules::rule_names_preliminary(rule),
    decreases n,
{
    reveal_with_fuel(surface_rules::rule_names_preliminary, 2);
    if 0 < n <= rules@.len() {
        asking_for_the_preliminary_surface_is_found(cond, rule, rules, (n - 1) as nat);
        if exists|i: int|
            0 <= i < n && surface_rules::rule_names_preliminary(#[trigger] rules@[i]) {
            let i = choose|i: int|
                0 <= i < n && surface_rules::rule_names_preliminary(#[trigger] rules@[i]);
            if i < n - 1 {
                assert(0 <= i < n - 1 && surface_rules::rule_names_preliminary(rules@[i]));
            }
        }
    }
}

// ---------------------------------------------------------------------------
// Ceilings
// ---------------------------------------------------------------------------
/// What a gradient guards is written below the level at which the gradient's
/// upper anchor stands, and below whatever bounds it otherwise; a bare block is
/// written at any height.
pub proof fn a_gradient_caps_what_it_guards(
    cond: SurfaceConditionJson,
    rule: SurfaceRuleJson,
    facts: Facts,
    extent: Extent,
)
    requires
        cond is VerticalGradient,
        surface_rules::condition_fits(cond, extent),
    ensures
        ({
            let guarded = surface_rules::ceiling_of(
                SurfaceRuleJson::Condition { if_true: cond, then_run: Box::new(rule) },
                facts,
                extent,
            );
            let bare = surface_rules::ceiling_of(rule, facts, extent);
            &&& guarded is Some
            &&& bare is Some ==> guarded->0 <= bare->0
            &&& bare is None ==> stands_at(cond->false_at_and_above, extent, guarded->0 as int)
            &&& bare is Some && guarded->0 != bare->0 ==> stands_at(
                cond->false_at_and_above,
                extent,
                guarded->0 as int,
            )
        }),
        rule is Block || rule is Bandlands ==> surface_rules::ceiling_of(rule, facts, extent) is None,
{
    reveal_with_fuel(surface_rules::ceiling_of, 2);
}

/// A sequence has a ceiling exactly if each of its rules has one: the highest of
/// theirs.
pub proof fn a_sequence_is_as_high_as_its_highest_rule(
    rules: Seq<SurfaceRuleJson>,
    facts: Facts,
    extent: Extent,
    n: nat,
)
    requires
        n <= rules.len(),
    ensures
        ({
            let all = surface_rules::ceiling_of_all(rules, facts, extent, n);
            &&& all is Some <==> forall|i: int|
                0 <= i < n ==> surface_rules::ceiling_of(
                    #[trigger] rules[i],
                    facts,
                    extent,
                ) is Some
            &&& all is Some ==> forall|i: int|
                0 <= i < n ==> surface_rules::ceiling_of(#[trigger] rules[i], facts, extent)->0
                    <= all->0
            &&& all is Some && all->0 > i32::MIN ==> exists|i: int|
                0 <= i < n && surface_rules::ceiling_of(#[trigger] rules[i], facts, extent)->0
                    == all->0
        }),
    decreases n,
{
    if n > 0 {
        a_sequence_is_as_high_as_its_highest_rule(rules, facts, extent, (n - 1) as nat);
        let before = surface_rules::ceiling_of_all(rules, facts, extent, (n - 1) as nat);
        let all = surface_rules::ceiling_of_all(rules, facts, extent, n);
        let last = surface_rules::ceiling_of(rules[n - 1], facts, extent);
        if all is Some && all->0 > i32::MIN {
            if all->0 == last->0 {
                assert(surface_rules::ceiling_of(rules[n - 1], facts, extent)->0 == all->0);
            } else {
                let i = choose|i: int|
                    0 <= i < n - 1 && surface_rules::ceiling_of(
                        #[trigger] rules[i],
                        facts,
                        extent,
                    )->0 == before->0;
                assert(surface_rules::ceiling_of(rules[i], facts, extent)->0 == all->0);
            }
        }
        if all is None && before is Some {
            assert(surface_rules::ceiling_of(rules[n - 1], facts, extent) is None);
        }
    }
}

// ---------------------------------------------------------------------------
// Tables and the running state of the scan
// ---------------------------------------------------------------------------
/// A rule that puts a block returns the entry of that block's name; sequences
/// return what their rules return, in order.
pub proof fn a_block_is_returned_by_its_name(
    st: PassState,
    facts: Facts,
    extent: Extent,
    rule: SurfaceRuleJson,
)
    requires
        rule is Block,
        st.block_state_names.len() < usize::MAX,
    ensures
        ({
            let (after, code) = surface_rules::emit_rule(st, facts, extent, rule);
            &&& code is ReturnBlock
            &&& code->ReturnBlock_0 < after.block_state_names.len()
            &&& after.block_state_names[code->ReturnBlock_0 as int] == rule->result_state.name@
        }),
{
    let name = rule->result_state.name@;
    let after = surface_rules::interned(st.block_state_names, name);
    if st.block_state_names.contains(name) {
        let i = surface_rules::lemma_first(st.block_state_names, name);
        surface_rules::lemma_slot(after, name, i);
    } else {
        let i = surface_rules::lemma_first_after(st.block_state_names, name);
        surface_rules::lemma_slot(after, name, i);
    }
}

/// Only stone depths and the water's height belong to the running state of the
/// scan: a field is read from it exactly if it is one of them, a comparison
/// exactly if one of its sides is, and gradients, noises, biomes, cold and
/// steepness never are.
pub proof fn only_depths_and_water_belong_to_the_scan(
    field: ContextField,
    n: i32,
    code: BoolCode,
)
    ensures
        surface_rules::int_reads_scan(IntCode::Field(field)) <==> !(field == ContextField::BlockY
            || field == ContextField::SurfaceDepth || field == ContextField::MinSurfaceLevel),
        !surface_rules::int_reads_scan(IntCode::Literal(n)),
        !surface_rules::int_reads_scan(IntCode::SecondaryDepth(n)),
        surface_rules::bool_reads_scan(
            BoolCode::AtMost(IntCode::Field(field), IntCode::Literal(n)),
        ) == surface_rules::int_reads_scan(IntCode::Field(field)),
        surface_rules::bool_reads_scan(
            BoolCode::AtLeast(IntCode::Literal(n), IntCode::Field(field)),
        ) == surface_rules::int_reads_scan(IntCode::Field(field)),
        surface_rules::bool_reads_scan(BoolCode::Not(Box::new(code)))
            == surface_rules::bool_reads_scan(code),
        code is Gradient || code is NoiseBetween || code is BiomeEquals || code is ColdEnoughToSnow
            || code is Steep ==> !surface_rules::bool_reads_scan(code),
        !surface_rules::code_reads_scan(SurfaceCode::ReturnBand),
        surface_rules::code_reads_scan(
            SurfaceCode::If { cond: code, body: Box::new(SurfaceCode::ReturnBand) },
        ) == surface_rules::bool_reads_scan(code),
{
    reveal_with_fuel(surface_rules::int_reads_scan, 2);
    reveal_with_fuel(surface_rules::bool_reads_scan, 2);
    reveal_with_fuel(surface_rules::code_reads_scan, 2);
}

/// A pass starts with no names, nothing used but what it is told of the
/// preliminary surface, and no depth asked for.
pub proof fn a_pass_starts_with_nothing(uses_preliminary: bool, absent: Seq<Seq<char>>)
    ensures
        ({
            let st = surface_rules::fresh_state(uses_preliminary);
            &&& st.noise_ids.len() == 0
            &&& st.gradient_ids.len() == 0
            &&& st.block_state_names.len() == 0
            &&& st.biome_idents.len() == 0
            &&& st.referenced_biomes.len() == 0
            &&& !st.uses_biome && !st.uses_surface_secondary && !st.uses_steep
            &&& st.uses_preliminary_surface == uses_preliminary
            &&& st.stone_depth_below_bound == Some(0i32)
        }),
        !surface_rules::all_absent(Seq::empty(), absent),
{
}

} // verus!
