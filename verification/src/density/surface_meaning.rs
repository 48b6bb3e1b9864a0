//! What surface rules and their lowered code mean, and the laws that tie the
//! two together.

use crate::density::surface_rules;
use crate::density::surface_rules::{
    BoolCode, Cond, ContextField, Extent, Facts, IntCode, PassState, SurfaceCode,
    SurfaceConditionJson, SurfaceRuleJson,
};
use vstd::prelude::*;

verus! {

/// What a position offers to a surface rule.
#[verifier::ext_equal]
pub struct SurfaceEnv {
    pub block_y: int,
    pub stone_depth_above: int,
    pub stone_depth_below: int,
    pub surface_depth: int,
    pub water_height: int,
    pub min_surface_level: int,
    /// Identifier of the biome constant at the position, where it is known.
    pub biome: Option<Seq<char>>,
    /// Secondary surface noise, scaled to a depth range.
    pub secondary_depth: spec_fn(int) -> int,
    /// Whether a noise (by id, in two or three dimensions) lies between two thresholds.
    pub noise_between: spec_fn(Seq<char>, bool, u64, u64) -> bool,
    /// Outcome of a vertical gradient (by random id) between two levels.
    pub gradient: spec_fn(Seq<char>, int, int) -> bool,
    pub cold_enough_to_snow: bool,
    pub steep: bool,
}

/// What a surface rule puts at a position.
pub enum Outcome {
    Block(Seq<char>),
    Band,
}

// ---------------------------------------------------------------------------
// Meaning of rules
// ---------------------------------------------------------------------------
/// Some of the named biomes is the one at the position.
pub open spec fn biome_named(names: Seq<Seq<char>>, biome: Seq<char>) -> bool {
    exists|i: int|
        0 <= i < names.len() && #[trigger] surface_rules::biome_ident(names[i]) == biome
}

/// A condition holds at a position.
pub open spec fn condition_holds(
    cond: SurfaceConditionJson,
    env: SurfaceEnv,
    extent: Extent,
) -> bool
    decreases cond,
{
    match cond {
        SurfaceConditionJson::StoneDepth {
            offset,
            add_surface_depth,
            secondary_depth_range,
            surface_type,
        } => {
            let depth = if surface_type@ == "floor"@ {
                env.stone_depth_above
            } else {
                env.stone_depth_below
            };
            let surface = if add_surface_depth {
                env.surface_depth
            } else {
                0
            };
            let secondary = if secondary_depth_range > 0 {
                (env.secondary_depth)(secondary_depth_range as int)
            } else {
                0
            };
            depth <= 1 + offset + surface + secondary
        },
        SurfaceConditionJson::AbovePreliminarySurface {  } => env.block_y >= env.min_surface_level,
        SurfaceConditionJson::BiomeIs { biome_is } => env.biome is Some && biome_named(
            surface_rules::biome_names(biome_is.items()),
            env.biome->0,
        ),
        SurfaceConditionJson::NoiseThreshold { noise, is_3d, min_threshold, max_threshold } => (
        env.noise_between)(noise@, is_3d, min_threshold, max_threshold),
        SurfaceConditionJson::VerticalGradient {
            random_name,
            true_at_and_below,
            false_at_and_above,
        } => (env.gradient)(
            random_name@,
            surface_rules::anchor_y(true_at_and_below, extent),
            surface_rules::anchor_y(false_at_and_above, extent),
        ),
        SurfaceConditionJson::YAbove { anchor, surface_depth_multiplier, add_stone_depth } => {
            let stone = if add_stone_depth {
                env.stone_depth_above
            } else {
                0
            };
            env.block_y + stone >= surface_rules::anchor_y(anchor, extent) + env.surface_depth
                * surface_depth_multiplier
        },
        SurfaceConditionJson::Water { offset, surface_depth_multiplier, add_stone_depth } => {
            let stone = if add_stone_depth {
                env.stone_depth_above
            } else {
                0
            };
            env.water_height == i32::MIN || env.block_y + stone >= env.water_height + offset
                + env.surface_depth * surface_depth_multiplier
        },
        SurfaceConditionJson::Temperature {  } => env.cold_enough_to_snow,
        SurfaceConditionJson::Steep {  } => env.steep,
        SurfaceConditionJson::Hole {  } => env.surface_depth <= 0,
        SurfaceConditionJson::Not { invert } => !condition_holds(*invert, env, extent),
    }
}

/// What a rule puts at a position: the first block its members produce.
pub open spec fn rule_outcome(rule: SurfaceRuleJson, env: SurfaceEnv, extent: Extent) -> Option<
    Outcome,
>
    decreases rule, 0nat,
{
    match rule {
        SurfaceRuleJson::Block { result_state } => Some(Outcome::Block(result_state.name@)),
        SurfaceRuleJson::Bandlands {  } => Some(Outcome::Band),
        SurfaceRuleJson::Sequence { sequence } => first_outcome(
            sequence@,
            env,
            extent,
            sequence@.len(),
        ),
        SurfaceRuleJson::Condition { if_true, then_run } => if condition_holds(
            if_true,
            env,
            extent,
        ) {
            rule_outcome(*then_run, env, extent)
        } else {
            None
        },
    }
}

/// The first block that the first `n` rules of a sequence produce.
pub open spec fn first_outcome(
    rules: Seq<SurfaceRuleJson>,
    env: SurfaceEnv,
    extent: Extent,
    n: nat,
) -> Option<Outcome>
    decreases rules, n,
{
    if n == 0 || n > rules.len() {
        None
    } else {
        match first_outcome(rules, env, extent, (n - 1) as nat) {
            Some(outcome) => Some(outcome),
            None => rule_outcome(rules[n - 1], env, extent),
        }
    }
}

/// The facts of a pass are true at a position.
pub open spec fn facts_hold(facts: Facts, env: SurfaceEnv) -> bool {
    &&& facts.above is Some ==> facts.above->0 == (env.block_y >= env.min_surface_level)
    &&& env.biome is Some ==> forall|i: int|
        0 <= i < facts.absent.len() ==> #[trigger] surface_rules::biome_ident(facts.absent[i])
            != env.biome->0
}

/// Every vertical gradient is false at and above its upper level.
pub open spec fn gradients_end(env: SurfaceEnv) -> bool {
    forall|name: Seq<char>, low: int, high: int|
        env.block_y >= high ==> !#[trigger] (env.gradient)(name, low, high)
}

// ---------------------------------------------------------------------------
// Meaning of emitted code
// ---------------------------------------------------------------------------
pub open spec fn field_value(field: ContextField, env: SurfaceEnv) -> int {
    match field {
        ContextField::BlockY => env.block_y,
        ContextField::StoneDepthAbove => env.stone_depth_above,
        ContextField::StoneDepthBelow => env.stone_depth_below,
        ContextField::SurfaceDepth => env.surface_depth,
        ContextField::WaterHeight => env.water_height,
        ContextField::MinSurfaceLevel => env.min_surface_level,
    }
}

pub open spec fn int_value(code: IntCode, env: SurfaceEnv) -> int
    decreases code,
{
    match code {
        IntCode::Literal(value) => value as int,
        IntCode::Field(field) => field_value(field, env),
        IntCode::SecondaryDepth(range) => (env.secondary_depth)(range as int),
        IntCode::Plus(a, b) => int_value(*a, env) + int_value(*b, env),
        IntCode::Times(a, b) => int_value(*a, env) * int_value(*b, env),
    }
}

/// The value of a boolean expression, with names looked up in the tables.
pub open spec fn bool_value(code: BoolCode, env: SurfaceEnv, tables: PassState) -> bool
    decreases code,
{
    match code {
        BoolCode::False => false,
        BoolCode::AtMost(a, b) => int_value(a, env) <= int_value(b, env),
        BoolCode::AtLeast(a, b) => int_value(a, env) >= int_value(b, env),
        BoolCode::Equal(a, b) => int_value(a, env) == int_value(b, env),
        BoolCode::Or(a, b) => bool_value(*a, env, tables) || bool_value(*b, env, tables),
        BoolCode::Not(a) => !bool_value(*a, env, tables),
        BoolCode::InBiome { resolve, check } => env.biome is Some && bool_value(
            *check,
            env,
            tables,
        ),
        BoolCode::BiomeEquals(i) => env.biome == Some(tables.biome_idents[i as int]),
        BoolCode::NoiseBetween { noise, is_3d, min, max } => (env.noise_between)(
            tables.noise_ids[noise as int],
            is_3d,
            min,
            max,
        ),
        BoolCode::Gradient { gradient, true_y, false_y } => (env.gradient)(
            tables.gradient_ids[gradient as int],
            true_y as int,
            false_y as int,
        ),
        BoolCode::ColdEnoughToSnow => env.cold_enough_to_snow,
        BoolCode::Steep => env.steep,
    }
}

/// What running a program returns.
pub open spec fn run(code: SurfaceCode, env: SurfaceEnv, tables: PassState) -> Option<Outcome>
    decreases code,
{
    match code {
        SurfaceCode::Empty => None,
        SurfaceCode::ReturnBlock(i) => Some(Outcome::Block(tables.block_state_names[i as int])),
        SurfaceCode::ReturnBand => Some(Outcome::Band),
        SurfaceCode::If { cond, body } => if bool_value(cond, env, tables) {
            run(*body, env, tables)
        } else {
            None
        },
        SurfaceCode::Then(first, second) => match run(*first, env, tables) {
            Some(outcome) => Some(outcome),
            None => run(*second, env, tables),
        },
    }
}

/// `later` holds every table entry of `st` at its place.
pub open spec fn extends(st: PassState, later: PassState) -> bool {
    &&& surface_rules::appended(st.noise_ids, later.noise_ids)
    &&& surface_rules::appended(st.gradient_ids, later.gradient_ids)
    &&& surface_rules::appended(st.block_state_names, later.block_state_names)
    &&& surface_rules::appended(st.biome_idents, later.biome_idents)
}

/// The tables are as long as machine vectors can be.
pub open spec fn tables_fit(st: PassState) -> bool {
    &&& st.noise_ids.len() <= usize::MAX
    &&& st.gradient_ids.len() <= usize::MAX
    &&& st.block_state_names.len() <= usize::MAX
    &&& st.biome_idents.len() <= usize::MAX
}

// ---------------------------------------------------------------------------
// Tables only grow
// ---------------------------------------------------------------------------
proof fn lemma_appended_trans(a: Seq<Seq<char>>, b: Seq<Seq<char>>, c: Seq<Seq<char>>)
    requires
        surface_rules::appended(a, b),
        surface_rules::appended(b, c),
    ensures
        surface_rules::appended(a, c),
{
    assert(c.subrange(0, a.len() as int) == b.subrange(0, a.len() as int)) by {
        assert forall|i: int| 0 <= i < a.len() implies c[i] == b[i] by {
            assert(c.subrange(0, b.len() as int)[i] == c[i]);
        }
    }
}

proof fn lemma_extends_trans(a: PassState, b: PassState, c: PassState)
    requires
        extends(a, b),
        extends(b, c),
    ensures
        extends(a, c),
{
    lemma_appended_trans(a.noise_ids, b.noise_ids, c.noise_ids);
    lemma_appended_trans(a.gradient_ids, b.gradient_ids, c.gradient_ids);
    lemma_appended_trans(a.block_state_names, b.block_state_names, c.block_state_names);
    lemma_appended_trans(a.biome_idents, b.biome_idents, c.biome_idents);
}

proof fn lemma_interned(table: Seq<Seq<char>>, name: Seq<char>)
    ensures
        surface_rules::appended(table, surface_rules::interned(table, name)),
        surface_rules::interned(table, name).contains(name),
{
    let after = surface_rules::interned(table, name);
    assert(after.subrange(0, table.len() as int) == table);
    if !table.contains(name) {
        assert(after[table.len() as int] == name);
    }
}

proof fn lemma_same_tables(a: PassState, b: PassState)
    requires
        a.noise_ids == b.noise_ids,
        a.gradient_ids == b.gradient_ids,
        a.block_state_names == b.block_state_names,
        a.biome_idents == b.biome_idents,
    ensures
        extends(a, b),
{
    assert(b.noise_ids.subrange(0, a.noise_ids.len() as int) == a.noise_ids);
    assert(b.gradient_ids.subrange(0, a.gradient_ids.len() as int) == a.gradient_ids);
    assert(b.block_state_names.subrange(0, a.block_state_names.len() as int)
        == a.block_state_names);
    assert(b.biome_idents.subrange(0, a.biome_idents.len() as int) == a.biome_idents);
}

/// Tables hold their own entries.
pub proof fn lemma_extends_itself(st: PassState)
    ensures
        extends(st, st),
{
    lemma_same_tables(st, st);
}

proof fn lemma_condition_extends(
    st: PassState,
    facts: Facts,
    extent: Extent,
    cond: SurfaceConditionJson,
)
    ensures
        extends(st, surface_rules::emit_condition(st, facts, extent, cond).0),
    decreases cond,
{
    lemma_same_tables(st, st);
    match cond {
        SurfaceConditionJson::BiomeIs { biome_is } => {
            let names = surface_rules::biome_names(biome_is.items());
            surface_rules::lemma_interned_all(
                st.biome_idents,
                surface_rules::biome_idents_of(names),
                names.len(),
            );
        },
        SurfaceConditionJson::NoiseThreshold { noise, is_3d, min_threshold, max_threshold } => {
            lemma_interned(st.noise_ids, noise@);
        },
        SurfaceConditionJson::VerticalGradient {
            random_name,
            true_at_and_below,
            false_at_and_above,
        } => {
            lemma_interned(st.gradient_ids, random_name@);
        },
        SurfaceConditionJson::Not { invert } => {
            lemma_condition_extends(st, facts, extent, *invert);
        },
        _ => {},
    }
}

/// Lowering a rule only appends to the tables: a name keeps its place.
pub proof fn lowering_only_appends_names(
    st: PassState,
    facts: Facts,
    extent: Extent,
    rule: SurfaceRuleJson,
)
    ensures
        extends(st, surface_rules::emit_rule(st, facts, extent, rule).0),
    decreases rule, 0nat,
{
    match rule {
        SurfaceRuleJson::Block { result_state } => {
            lemma_same_tables(st, st);
            lemma_interned(st.block_state_names, result_state.name@);
        },
        SurfaceRuleJson::Sequence { sequence } => {
            lemma_sequence_extends(st, facts, extent, sequence@, sequence@.len());
        },
        SurfaceRuleJson::Condition { if_true, then_run } => {
            let after = surface_rules::emit_condition(st, facts, extent, if_true).0;
            lemma_condition_extends(st, facts, extent, if_true);
            lowering_only_appends_names(after, facts, extent, *then_run);
            lemma_extends_trans(
                st,
                after,
                surface_rules::emit_rule(after, facts, extent, *then_run).0,
            );
        },
        SurfaceRuleJson::Bandlands {  } => {
            lemma_same_tables(st, st);
        },
    }
}

proof fn lemma_sequence_extends(
    st: PassState,
    facts: Facts,
    extent: Extent,
    rules: Seq<SurfaceRuleJson>,
    n: nat,
)
    ensures
        extends(st, surface_rules::emit_sequence(st, facts, extent, rules, n).0),
    decreases rules, n,
{
    if n == 0 || n > rules.len() {
        lemma_same_tables(st, st);
    } else {
        let before = surface_rules::emit_sequence(st, facts, extent, rules, (n - 1) as nat).0;
        lemma_sequence_extends(st, facts, extent, rules, (n - 1) as nat);
        lowering_only_appends_names(before, facts, extent, rules[n - 1]);
        lemma_extends_trans(
            st,
            before,
            surface_rules::emit_rule(before, facts, extent, rules[n - 1]).0,
        );
    }
}

// ---------------------------------------------------------------------------
// Emitted code means the rule
// ---------------------------------------------------------------------------
proof fn lemma_biome_check_means(
    idents: Seq<Seq<char>>,
    names: Seq<Seq<char>>,
    n: nat,
    env: SurfaceEnv,
    later: PassState,
)
    requires
        n <= names.len(),
        env.biome is Some,
        surface_rules::appended(idents, later.biome_idents),
        later.biome_idents.len() <= usize::MAX,
        forall|i: int|
            0 <= i < n ==> #[trigger] idents.contains(surface_rules::biome_ident(names[i])),
    ensures
        bool_value(surface_rules::biome_check(idents, names, n), env, later) == (exists|i: int|
            0 <= i < n && #[trigger] surface_rules::biome_ident(names[i]) == env.biome->0),
    decreases n,
{
    if n > 0 {
        let m = (n - 1) as nat;
        let ident = surface_rules::biome_ident(names[m as int]);
        lemma_biome_check_means(idents, names, m, env, later);
        surface_rules::lemma_slot_appended(idents, later.biome_idents, ident);
        let place = surface_rules::slot(idents, ident) as int;
        assert(later.biome_idents.subrange(0, idents.len() as int)[place]
            == later.biome_idents[place]);
        let last = BoolCode::BiomeEquals(surface_rules::slot(idents, ident));
        assert(bool_value(last, env, later) == (ident == env.biome->0));
        let earlier = surface_rules::biome_check(idents, names, m);
        let code = surface_rules::biome_check(idents, names, n);
        if n == 1 {
            assert(code == last);
        } else {
            assert(code == BoolCode::Or(Box::new(earlier), Box::new(last)));
            assert(bool_value(code, env, later) == (bool_value(earlier, env, later) || bool_value(
                last,
                env,
                later,
            )));
        }
        if exists|i: int|
            0 <= i < n && #[trigger] surface_rules::biome_ident(names[i]) == env.biome->0 {
            let i = choose|i: int|
                0 <= i < n && #[trigger] surface_rules::biome_ident(names[i]) == env.biome->0;
            if i < m {
                assert(0 <= i < m && surface_rules::biome_ident(names[i]) == env.biome->0);
            }
        }
    }
}

/// The value a folded or emitted condition has.
pub open spec fn cond_value(cond: Cond, env: SurfaceEnv, tables: PassState) -> bool {
    match cond {
        Cond::Known(known) => known,
        Cond::Expr(code) => bool_value(code, env, tables),
    }
}

/// A lowered condition, folded or not, has the condition's value wherever the
/// facts are true.
pub proof fn lowered_condition_keeps_its_value(
    st: PassState,
    facts: Facts,
    extent: Extent,
    cond: SurfaceConditionJson,
    env: SurfaceEnv,
    later: PassState,
)
    requires
        surface_rules::condition_fits(cond, extent),
        facts_hold(facts, env),
        extends(surface_rules::emit_condition(st, facts, extent, cond).0, later),
        tables_fit(later),
    ensures
        cond_value(surface_rules::emit_condition(st, facts, extent, cond).1, env, later)
            == condition_holds(cond, env, extent),
    decreases cond,
{
    reveal_with_fuel(int_value, 5);
    reveal_with_fuel(bool_value, 3);
    match cond {
        SurfaceConditionJson::BiomeIs { biome_is } => {
            let names = surface_rules::biome_names(biome_is.items());
            if surface_rules::all_absent(names, facts.absent) {
                if env.biome is Some && biome_named(names, env.biome->0) {
                    let i = choose|i: int|
                        0 <= i < names.len() && #[trigger] surface_rules::biome_ident(names[i])
                            == env.biome->0;
                    assert(facts.absent.contains(names[i]));
                    let k = choose|k: int| 0 <= k < facts.absent.len() && facts.absent[k] == names[i];
                    assert(surface_rules::biome_ident(facts.absent[k]) != env.biome->0);
                }
            } else {
                let named = surface_rules::biome_idents_of(names);
                let idents = surface_rules::interned_all(st.biome_idents, named, names.len());
                surface_rules::lemma_interned_all(st.biome_idents, named, names.len());
                assert forall|i: int| 0 <= i < names.len() implies #[trigger] idents.contains(
                    surface_rules::biome_ident(names[i]),
                ) by {
                    assert(idents.contains(named[i]));
                }
                if env.biome is Some {
                    lemma_biome_check_means(idents, names, names.len(), env, later);
                }
            }
        },
        SurfaceConditionJson::NoiseThreshold { noise, is_3d, min_threshold, max_threshold } => {
            let after = surface_rules::interned(st.noise_ids, noise@);
            lemma_interned(st.noise_ids, noise@);
            surface_rules::lemma_slot_appended(after, later.noise_ids, noise@);
            let place = surface_rules::slot(after, noise@) as int;
            assert(later.noise_ids.subrange(0, after.len() as int)[place]
                == later.noise_ids[place]);
        },
        SurfaceConditionJson::VerticalGradient {
            random_name,
            true_at_and_below,
            false_at_and_above,
        } => {
            let after = surface_rules::interned(st.gradient_ids, random_name@);
            lemma_interned(st.gradient_ids, random_name@);
            surface_rules::lemma_slot_appended(after, later.gradient_ids, random_name@);
            let place = surface_rules::slot(after, random_name@) as int;
            assert(later.gradient_ids.subrange(0, after.len() as int)[place]
                == later.gradient_ids[place]);
        },
        SurfaceConditionJson::Not { invert } => {
            lowered_condition_keeps_its_value(st, facts, extent, *invert, env, later);
        },
        _ => {},
    }
}

/// Lowered code returns what the rule puts at the position, wherever the facts
/// it was lowered under are true: folding is sound.
pub proof fn lowered_rule_keeps_its_outcome(
    st: PassState,
    facts: Facts,
    extent: Extent,
    rule: SurfaceRuleJson,
    env: SurfaceEnv,
    later: PassState,
)
    requires
        surface_rules::rule_fits(rule, extent),
        facts_hold(facts, env),
        extends(surface_rules::emit_rule(st, facts, extent, rule).0, later),
        tables_fit(later),
    ensures
        run(surface_rules::emit_rule(st, facts, extent, rule).1, env, later) == rule_outcome(
            rule,
            env,
            extent,
        ),
    decreases rule, 0nat,
{
    match rule {
        SurfaceRuleJson::Block { result_state } => {
            let name = result_state.name@;
            let after = surface_rules::interned(st.block_state_names, name);
            lemma_interned(st.block_state_names, name);
            surface_rules::lemma_slot_appended(after, later.block_state_names, name);
            let place = surface_rules::slot(after, name) as int;
            assert(later.block_state_names.subrange(0, after.len() as int)[place]
                == later.block_state_names[place]);
        },
        SurfaceRuleJson::Sequence { sequence } => {
            lemma_sequence_means(st, facts, extent, sequence@, sequence@.len(), env, later);
        },
        SurfaceRuleJson::Condition { if_true, then_run } => {
            let (after, cond) = surface_rules::emit_condition(st, facts, extent, if_true);
            let (last, body) = surface_rules::emit_rule(after, facts, extent, *then_run);
            lowering_only_appends_names(after, facts, extent, *then_run);
            if cond != Cond::Known(false) {
                lemma_extends_trans(after, last, later);
                lowered_rule_keeps_its_outcome(after, facts, extent, *then_run, env, later);
            }
            lowered_condition_keeps_its_value(st, facts, extent, if_true, env, later);
        },
        SurfaceRuleJson::Bandlands {  } => {},
    }
}

proof fn lemma_sequence_means(
    st: PassState,
    facts: Facts,
    extent: Extent,
    rules: Seq<SurfaceRuleJson>,
    n: nat,
    env: SurfaceEnv,
    later: PassState,
)
    requires
        surface_rules::rules_fit(rules, extent, n),
        n <= rules.len(),
        facts_hold(facts, env),
        extends(surface_rules::emit_sequence(st, facts, extent, rules, n).0, later),
        tables_fit(later),
    ensures
        run(surface_rules::emit_sequence(st, facts, extent, rules, n).1, env, later)
            == first_outcome(rules, env, extent, n),
    decreases rules, n,
{
    if n > 0 {
        let m = (n - 1) as nat;
        let (before, code) = surface_rules::emit_sequence(st, facts, extent, rules, m);
        let (after, last) = surface_rules::emit_rule(before, facts, extent, rules[n - 1]);
        lowering_only_appends_names(before, facts, extent, rules[n - 1]);
        lemma_extends_trans(before, after, later);
        lemma_sequence_means(st, facts, extent, rules, m, env, later);
        lowered_rule_keeps_its_outcome(before, facts, extent, rules[n - 1], env, later);
    }
}

/// The facts of a pass decide a condition exactly when lowering folds it, and
/// to the same value.
pub proof fn folding_agrees_with_the_dead_branch_test(
    st: PassState,
    facts: Facts,
    extent: Extent,
    cond: SurfaceConditionJson,
)
    ensures
        match surface_rules::emit_condition(st, facts, extent, cond).1 {
            Cond::Known(known) => surface_rules::decided(cond, facts) == Some(known),
            Cond::Expr(code) => surface_rules::decided(cond, facts) is None,
        },
    decreases cond,
{
    if let SurfaceConditionJson::Not { invert } = cond {
        folding_agrees_with_the_dead_branch_test(st, facts, extent, *invert);
    }
}

proof fn lemma_decided_value(
    facts: Facts,
    extent: Extent,
    cond: SurfaceConditionJson,
    env: SurfaceEnv,
)
    requires
        facts_hold(facts, env),
        surface_rules::decided(cond, facts) is Some,
    ensures
        condition_holds(cond, env, extent) == surface_rules::decided(cond, facts)->0,
    decreases cond,
{
    match cond {
        SurfaceConditionJson::BiomeIs { biome_is } => {
            let names = surface_rules::biome_names(biome_is.items());
            if env.biome is Some && biome_named(names, env.biome->0) {
                let i = choose|i: int|
                    0 <= i < names.len() && #[trigger] surface_rules::biome_ident(names[i])
                        == env.biome->0;
                assert(facts.absent.contains(names[i]));
                let k = choose|k: int| 0 <= k < facts.absent.len() && facts.absent[k] == names[i];
                assert(surface_rules::biome_ident(facts.absent[k]) != env.biome->0);
            }
        },
        SurfaceConditionJson::Not { invert } => {
            lemma_decided_value(facts, extent, *invert, env);
        },
        _ => {},
    }
}

// ---------------------------------------------------------------------------
// Write ceilings
// ---------------------------------------------------------------------------
/// At and above its write ceiling a rule puts nothing, wherever the facts are
/// true and vertical gradients end at their upper level.
pub proof fn nothing_is_written_at_or_above_the_ceiling(
    rule: SurfaceRuleJson,
    facts: Facts,
    extent: Extent,
    env: SurfaceEnv,
)
    requires
        surface_rules::rule_fits(rule, extent),
        facts_hold(facts, env),
        gradients_end(env),
        surface_rules::ceiling_of(rule, facts, extent) is Some,
        env.block_y >= surface_rules::ceiling_of(rule, facts, extent)->0,
    ensures
        rule_outcome(rule, env, extent) is None,
    decreases rule, 0nat,
{
    match rule {
        SurfaceRuleJson::Sequence { sequence } => {
            lemma_sequence_ceiling(sequence@, facts, extent, env, sequence@.len());
        },
        SurfaceRuleJson::Condition { if_true, then_run } => {
            if surface_rules::decided(if_true, facts) is Some {
                lemma_decided_value(facts, extent, if_true, env);
            }
            if surface_rules::decided(if_true, facts) != Some(false) {
                let body = surface_rules::ceiling_of(*then_run, facts, extent);
                if body is Some && env.block_y >= body->0 {
                    nothing_is_written_at_or_above_the_ceiling(*then_run, facts, extent, env);
                }
            }
        },
        _ => {},
    }
}

proof fn lemma_sequence_ceiling(
    rules: Seq<SurfaceRuleJson>,
    facts: Facts,
    extent: Extent,
    env: SurfaceEnv,
    n: nat,
)
    requires
        surface_rules::rules_fit(rules, extent, n),
        n <= rules.len(),
        facts_hold(facts, env),
        gradients_end(env),
        surface_rules::ceiling_of_all(rules, facts, extent, n) is Some,
        env.block_y >= surface_rules::ceiling_of_all(rules, facts, extent, n)->0,
    ensures
        first_outcome(rules, env, extent, n) is None,
    decreases rules, n,
{
    if n > 0 {
        lemma_sequence_ceiling(rules, facts, extent, env, (n - 1) as nat);
        nothing_is_written_at_or_above_the_ceiling(rules[n - 1], facts, extent, env);
    }
}

// ---------------------------------------------------------------------------
// Ceiling depths past the recorded bound
// ---------------------------------------------------------------------------
/// Two positions that differ at most in the depth below, which exceeds `bound`
/// at both.
pub open spec fn differ_past_bound(a: SurfaceEnv, b: SurfaceEnv, bound: int) -> bool {
    &&& a.stone_depth_below > bound
    &&& b.stone_depth_below > bound
    &&& b == (SurfaceEnv { stone_depth_below: b.stone_depth_below, ..a })
}

/// `bound` covers everything that `other` does.
pub open spec fn bound_covers(bound: Option<i32>, other: Option<i32>) -> bool {
    bound is Some ==> other is Some && other->0 <= bound->0
}

proof fn lemma_condition_bound(
    st: PassState,
    facts: Facts,
    extent: Extent,
    cond: SurfaceConditionJson,
)
    ensures
        bound_covers(
            surface_rules::emit_condition(st, facts, extent, cond).0.stone_depth_below_bound,
            st.stone_depth_below_bound,
        ),
    decreases cond,
{
    if let SurfaceConditionJson::Not { invert } = cond {
        lemma_condition_bound(st, facts, extent, *invert);
    }
}

/// The recorded depth bound is only ever widened.
pub proof fn depth_bound_only_widens(
    st: PassState,
    facts: Facts,
    extent: Extent,
    rule: SurfaceRuleJson,
)
    ensures
        bound_covers(
            surface_rules::emit_rule(st, facts, extent, rule).0.stone_depth_below_bound,
            st.stone_depth_below_bound,
        ),
    decreases rule, 0nat,
{
    match rule {
        SurfaceRuleJson::Sequence { sequence } => {
            lemma_sequence_bound(st, facts, extent, sequence@, sequence@.len());
        },
        SurfaceRuleJson::Condition { if_true, then_run } => {
            lemma_condition_bound(st, facts, extent, if_true);
            depth_bound_only_widens(
                surface_rules::emit_condition(st, facts, extent, if_true).0,
                facts,
                extent,
                *then_run,
            );
        },
        _ => {},
    }
}

proof fn lemma_sequence_bound(
    st: PassState,
    facts: Facts,
    extent: Extent,
    rules: Seq<SurfaceRuleJson>,
    n: nat,
)
    ensures
        bound_covers(
            surface_rules::emit_sequence(st, facts, extent, rules, n).0.stone_depth_below_bound,
            st.stone_depth_below_bound,
        ),
    decreases rules, n,
{
    if n > 0 && n <= rules.len() {
        lemma_sequence_bound(st, facts, extent, rules, (n - 1) as nat);
        depth_bound_only_widens(
            surface_rules::emit_sequence(st, facts, extent, rules, (n - 1) as nat).0,
            facts,
            extent,
            rules[n - 1],
        );
    }
}

proof fn lemma_condition_past_bound(
    st: PassState,
    extent: Extent,
    cond: SurfaceConditionJson,
    a: SurfaceEnv,
    b: SurfaceEnv,
)
    requires
        surface_rules::condition_fits(cond, extent),
        ({
            let bound = surface_rules::emit_condition(
                st,
                surface_rules::no_facts(),
                extent,
                cond,
            ).0.stone_depth_below_bound;
            bound is Some && differ_past_bound(a, b, bound->0 as int)
        }),
    ensures
        condition_holds(cond, a, extent) == condition_holds(cond, b, extent),
    decreases cond,
{
    if let SurfaceConditionJson::Not { invert } = cond {
        lemma_condition_past_bound(st, extent, *invert, a, b);
    }
}

/// Depths below that exceed the recorded bound are indistinguishable: the rule
/// has one outcome for all of them.
pub proof fn depths_past_the_bound_are_indistinguishable(
    st: PassState,
    extent: Extent,
    rule: SurfaceRuleJson,
    a: SurfaceEnv,
    b: SurfaceEnv,
)
    requires
        surface_rules::rule_fits(rule, extent),
        ({
            let bound = surface_rules::emit_rule(
                st,
                surface_rules::no_facts(),
                extent,
                rule,
            ).0.stone_depth_below_bound;
            bound is Some && differ_past_bound(a, b, bound->0 as int)
        }),
    ensures
        rule_outcome(rule, a, extent) == rule_outcome(rule, b, extent),
    decreases rule, 0nat,
{
    let facts = surface_rules::no_facts();
    match rule {
        SurfaceRuleJson::Sequence { sequence } => {
            lemma_sequence_past_bound(st, extent, sequence@, sequence@.len(), a, b);
        },
        SurfaceRuleJson::Condition { if_true, then_run } => {
            let (after, cond) = surface_rules::emit_condition(st, facts, extent, if_true);
            folding_agrees_with_the_dead_branch_test(st, facts, extent, if_true);
            lemma_nothing_decided(if_true);
            depth_bound_only_widens(after, facts, extent, *then_run);
            lemma_condition_past_bound(st, extent, if_true, a, b);
            depths_past_the_bound_are_indistinguishable(after, extent, *then_run, a, b);
        },
        _ => {},
    }
}

proof fn lemma_nothing_decided(cond: SurfaceConditionJson)
    ensures
        surface_rules::decided(cond, surface_rules::no_facts()) is None,
    decreases cond,
{
    match cond {
        SurfaceConditionJson::Not { invert } => {
            lemma_nothing_decided(*invert);
        },
        SurfaceConditionJson::BiomeIs { biome_is } => {
            let names = surface_rules::biome_names(biome_is.items());
            if names.len() > 0 {
                assert(!Seq::<Seq<char>>::empty().contains(names[0]));
            }
        },
        _ => {},
    }
}

proof fn lemma_sequence_past_bound(
    st: PassState,
    extent: Extent,
    rules: Seq<SurfaceRuleJson>,
    n: nat,
    a: SurfaceEnv,
    b: SurfaceEnv,
)
    requires
        surface_rules::rules_fit(rules, extent, n),
        n <= rules.len(),
        ({
            let bound = surface_rules::emit_sequence(
                st,
                surface_rules::no_facts(),
                extent,
                rules,
                n,
            ).0.stone_depth_below_bound;
            bound is Some && differ_past_bound(a, b, bound->0 as int)
        }),
    ensures
        first_outcome(rules, a, extent, n) == first_outcome(rules, b, extent, n),
    decreases rules, n,
{
    if n > 0 {
        let facts = surface_rules::no_facts();
        let before = surface_rules::emit_sequence(st, facts, extent, rules, (n - 1) as nat).0;
        depth_bound_only_widens(before, facts, extent, rules[n - 1]);
        lemma_sequence_past_bound(st, extent, rules, (n - 1) as nat, a, b);
        depths_past_the_bound_are_indistinguishable(before, extent, rules[n - 1], a, b);
    }
}

// ---------------------------------------------------------------------------
// Code that reads nothing of the downward scan
// ---------------------------------------------------------------------------
/// Two positions that differ at most in the downward scan's running state.
pub open spec fn differ_in_scan_state(a: SurfaceEnv, b: SurfaceEnv) -> bool {
    b == (SurfaceEnv {
        stone_depth_above: b.stone_depth_above,
        stone_depth_below: b.stone_depth_below,
        water_height: b.water_height,
        ..a
    })
}

proof fn lemma_number_ignores_the_scan(code: IntCode, a: SurfaceEnv, b: SurfaceEnv)
    requires
        differ_in_scan_state(a, b),
        !surface_rules::int_reads_scan(code),
    ensures
        int_value(code, a) == int_value(code, b),
    decreases code,
{
    match code {
        IntCode::Plus(x, y) => {
            lemma_number_ignores_the_scan(*x, a, b);
            lemma_number_ignores_the_scan(*y, a, b);
        },
        IntCode::Times(x, y) => {
            lemma_number_ignores_the_scan(*x, a, b);
            lemma_number_ignores_the_scan(*y, a, b);
        },
        _ => {},
    }
}

proof fn lemma_condition_ignores_the_scan(
    code: BoolCode,
    a: SurfaceEnv,
    b: SurfaceEnv,
    tables: PassState,
)
    requires
        differ_in_scan_state(a, b),
        !surface_rules::bool_reads_scan(code),
    ensures
        bool_value(code, a, tables) == bool_value(code, b, tables),
    decreases code,
{
    match code {
        BoolCode::AtMost(x, y) => {
            lemma_number_ignores_the_scan(x, a, b);
            lemma_number_ignores_the_scan(y, a, b);
        },
        BoolCode::AtLeast(x, y) => {
            lemma_number_ignores_the_scan(x, a, b);
            lemma_number_ignores_the_scan(y, a, b);
        },
        BoolCode::Equal(x, y) => {
            lemma_number_ignores_the_scan(x, a, b);
            lemma_number_ignores_the_scan(y, a, b);
        },
        BoolCode::Or(x, y) => {
            lemma_condition_ignores_the_scan(*x, a, b, tables);
            lemma_condition_ignores_the_scan(*y, a, b, tables);
        },
        BoolCode::Not(x) => {
            lemma_condition_ignores_the_scan(*x, a, b, tables);
        },
        BoolCode::InBiome { resolve, check } => {
            lemma_condition_ignores_the_scan(*check, a, b, tables);
        },
        _ => {},
    }
}

/// Code that reads nothing of the scan state returns the same whatever that
/// state is.
pub proof fn code_without_scan_reads_ignores_the_scan(
    code: SurfaceCode,
    a: SurfaceEnv,
    b: SurfaceEnv,
    tables: PassState,
)
    requires
        differ_in_scan_state(a, b),
        !surface_rules::code_reads_scan(code),
    ensures
        run(code, a, tables) == run(code, b, tables),
    decreases code,
{
    match code {
        SurfaceCode::If { cond, body } => {
            lemma_condition_ignores_the_scan(cond, a, b, tables);
            code_without_scan_reads_ignores_the_scan(*body, a, b, tables);
        },
        SurfaceCode::Then(first, second) => {
            code_without_scan_reads_ignores_the_scan(*first, a, b, tables);
            code_without_scan_reads_ignores_the_scan(*second, a, b, tables);
        },
        _ => {},
    }
}

// ---------------------------------------------------------------------------
// Specialized passes name nothing new
// ---------------------------------------------------------------------------
/// Every name a condition mentions has its place in the tables.
pub open spec fn condition_covered(cond: SurfaceConditionJson, st: PassState) -> bool
    decreases cond,
{
    match cond {
        SurfaceConditionJson::BiomeIs { biome_is } => {
            let idents = surface_rules::biome_idents_of(
                surface_rules::biome_names(biome_is.items()),
            );
            forall|i: int|
                0 <= i < idents.len() ==> #[trigger] st.biome_idents.contains(idents[i])
        },
        SurfaceConditionJson::NoiseThreshold { noise, is_3d, min_threshold, max_threshold } =>
            st.noise_ids.contains(noise@),
        SurfaceConditionJson::VerticalGradient {
            random_name,
            true_at_and_below,
            false_at_and_above,
        } => st.gradient_ids.contains(random_name@),
        SurfaceConditionJson::Not { invert } => condition_covered(*invert, st),
        _ => true,
    }
}

/// Every name a rule mentions has its place in the tables.
pub open spec fn rule_covered(rule: SurfaceRuleJson, st: PassState) -> bool
    decreases rule, 0nat,
{
    match rule {
        SurfaceRuleJson::Block { result_state } => st.block_state_names.contains(
            result_state.name@,
        ),
        SurfaceRuleJson::Bandlands {  } => true,
        SurfaceRuleJson::Sequence { sequence } => rules_covered(sequence@, st, sequence@.len()),
        SurfaceRuleJson::Condition { if_true, then_run } => condition_covered(if_true, st)
            && rule_covered(*then_run, st),
    }
}

/// The same for the first `n` rules of a sequence.
pub open spec fn rules_covered(rules: Seq<SurfaceRuleJson>, st: PassState, n: nat) -> bool
    decreases rules, n,
{
    if n == 0 || n > rules.len() {
        true
    } else {
        rules_covered(rules, st, (n - 1) as nat) && rule_covered(rules[n - 1], st)
    }
}

/// The two states name the same things at the same places.
pub open spec fn same_names(a: PassState, b: PassState) -> bool {
    &&& a.noise_ids == b.noise_ids
    &&& a.gradient_ids == b.gradient_ids
    &&& a.block_state_names == b.block_state_names
    &&& a.biome_idents == b.biome_idents
}

proof fn lemma_contains_appended(table: Seq<Seq<char>>, larger: Seq<Seq<char>>, name: Seq<char>)
    requires
        surface_rules::appended(table, larger),
        table.contains(name),
    ensures
        larger.contains(name),
{
    let k = choose|k: int| 0 <= k < table.len() && table[k] == name;
    assert(larger.subrange(0, table.len() as int)[k] == larger[k]);
}

proof fn lemma_condition_covered_later(
    cond: SurfaceConditionJson,
    st: PassState,
    later: PassState,
)
    requires
        condition_covered(cond, st),
        extends(st, later),
    ensures
        condition_covered(cond, later),
    decreases cond,
{
    match cond {
        SurfaceConditionJson::BiomeIs { biome_is } => {
            let idents = surface_rules::biome_idents_of(
                surface_rules::biome_names(biome_is.items()),
            );
            assert forall|i: int| 0 <= i < idents.len() implies #[trigger] later.biome_idents.contains(
                idents[i],
            ) by {
                lemma_contains_appended(st.biome_idents, later.biome_idents, idents[i]);
            }
        },
        SurfaceConditionJson::NoiseThreshold { noise, is_3d, min_threshold, max_threshold } => {
            lemma_contains_appended(st.noise_ids, later.noise_ids, noise@);
        },
        SurfaceConditionJson::VerticalGradient {
            random_name,
            true_at_and_below,
            false_at_and_above,
        } => {
            lemma_contains_appended(st.gradient_ids, later.gradient_ids, random_name@);
        },
        SurfaceConditionJson::Not { invert } => {
            lemma_condition_covered_later(*invert, st, later);
        },
        _ => {},
    }
}

proof fn lemma_rule_covered_later(rule: SurfaceRuleJson, st: PassState, later: PassState)
    requires
        rule_covered(rule, st),
        extends(st, later),
    ensures
        rule_covered(rule, later),
    decreases rule, 0nat,
{
    match rule {
        SurfaceRuleJson::Block { result_state } => {
            lemma_contains_appended(
                st.block_state_names,
                later.block_state_names,
                result_state.name@,
            );
        },
        SurfaceRuleJson::Sequence { sequence } => {
            lemma_rules_covered_later(sequence@, st, later, sequence@.len());
        },
        SurfaceRuleJson::Condition { if_true, then_run } => {
            lemma_condition_covered_later(if_true, st, later);
            lemma_rule_covered_later(*then_run, st, later);
        },
        _ => {},
    }
}

proof fn lemma_rules_covered_later(
    rules: Seq<SurfaceRuleJson>,
    st: PassState,
    later: PassState,
    n: nat,
)
    requires
        rules_covered(rules, st, n),
        extends(st, later),
    ensures
        rules_covered(rules, later, n),
    decreases rules, n,
{
    if n > 0 && n <= rules.len() {
        lemma_rules_covered_later(rules, st, later, (n - 1) as nat);
        lemma_rule_covered_later(rules[n - 1], st, later);
    }
}

proof fn lemma_condition_covers(
    st: PassState,
    extent: Extent,
    cond: SurfaceConditionJson,
)
    ensures
        condition_covered(
            cond,
            surface_rules::emit_condition(st, surface_rules::no_facts(), extent, cond).0,
        ),
    decreases cond,
{
    lemma_nothing_decided(cond);
    match cond {
        SurfaceConditionJson::BiomeIs { biome_is } => {
            let names = surface_rules::biome_names(biome_is.items());
            surface_rules::lemma_interned_all(
                st.biome_idents,
                surface_rules::biome_idents_of(names),
                names.len(),
            );
        },
        SurfaceConditionJson::NoiseThreshold { noise, is_3d, min_threshold, max_threshold } => {
            lemma_interned(st.noise_ids, noise@);
        },
        SurfaceConditionJson::VerticalGradient {
            random_name,
            true_at_and_below,
            false_at_and_above,
        } => {
            lemma_interned(st.gradient_ids, random_name@);
        },
        SurfaceConditionJson::Not { invert } => {
            lemma_condition_covers(st, extent, *invert);
        },
        _ => {},
    }
}

/// A pass that assumes nothing names everything the rule mentions.
pub proof fn a_full_pass_names_everything(st: PassState, extent: Extent, rule: SurfaceRuleJson)
    ensures
        rule_covered(
            rule,
            surface_rules::emit_rule(st, surface_rules::no_facts(), extent, rule).0,
        ),
    decreases rule, 0nat,
{
    let facts = surface_rules::no_facts();
    match rule {
        SurfaceRuleJson::Block { result_state } => {
            lemma_interned(st.block_state_names, result_state.name@);
        },
        SurfaceRuleJson::Sequence { sequence } => {
            lemma_sequence_covers(st, extent, sequence@, sequence@.len());
        },
        SurfaceRuleJson::Condition { if_true, then_run } => {
            let after = surface_rules::emit_condition(st, facts, extent, if_true).0;
            folding_agrees_with_the_dead_branch_test(st, facts, extent, if_true);
            lemma_nothing_decided(if_true);
            lemma_condition_covers(st, extent, if_true);
            a_full_pass_names_everything(after, extent, *then_run);
            lowering_only_appends_names(after, facts, extent, *then_run);
            lemma_condition_covered_later(
                if_true,
                after,
                surface_rules::emit_rule(after, facts, extent, *then_run).0,
            );
        },
        _ => {},
    }
}

proof fn lemma_sequence_covers(
    st: PassState,
    extent: Extent,
    rules: Seq<SurfaceRuleJson>,
    n: nat,
)
    requires
        n <= rules.len(),
    ensures
        rules_covered(
            rules,
            surface_rules::emit_sequence(st, surface_rules::no_facts(), extent, rules, n).0,
            n,
        ),
    decreases rules, n,
{
    if n > 0 {
        let facts = surface_rules::no_facts();
        let before = surface_rules::emit_sequence(st, facts, extent, rules, (n - 1) as nat).0;
        let after = surface_rules::emit_rule(before, facts, extent, rules[n - 1]).0;
        lemma_sequence_covers(st, extent, rules, (n - 1) as nat);
        a_full_pass_names_everything(before, extent, rules[n - 1]);
        lowering_only_appends_names(before, facts, extent, rules[n - 1]);
        lemma_rules_covered_later(rules, before, after, (n - 1) as nat);
    }
}

proof fn lemma_interned_all_covered(table: Seq<Seq<char>>, names: Seq<Seq<char>>, n: nat)
    requires
        n <= names.len(),
        forall|i: int| 0 <= i < names.len() ==> #[trigger] table.contains(names[i]),
    ensures
        surface_rules::interned_all(table, names, n) == table,
    decreases n,
{
    if n > 0 {
        lemma_interned_all_covered(table, names, (n - 1) as nat);
        assert(table.contains(names[n - 1]));
    }
}

proof fn lemma_condition_adds_nothing(
    st: PassState,
    facts: Facts,
    extent: Extent,
    cond: SurfaceConditionJson,
)
    requires
        condition_covered(cond, st),
    ensures
        same_names(st, surface_rules::emit_condition(st, facts, extent, cond).0),
    decreases cond,
{
    match cond {
        SurfaceConditionJson::BiomeIs { biome_is } => {
            let idents = surface_rules::biome_idents_of(
                surface_rules::biome_names(biome_is.items()),
            );
            lemma_interned_all_covered(st.biome_idents, idents, idents.len());
        },
        SurfaceConditionJson::Not { invert } => {
            lemma_condition_adds_nothing(st, facts, extent, *invert);
        },
        _ => {},
    }
}

/// Lowering a rule whose names all have their place adds no name, whatever the
/// pass assumes.
pub proof fn a_specialized_pass_names_nothing_new(
    st: PassState,
    facts: Facts,
    extent: Extent,
    rule: SurfaceRuleJson,
)
    requires
        rule_covered(rule, st),
    ensures
        same_names(st, surface_rules::emit_rule(st, facts, extent, rule).0),
    decreases rule, 0nat,
{
    match rule {
        SurfaceRuleJson::Sequence { sequence } => {
            lemma_sequence_adds_nothing(st, facts, extent, sequence@, sequence@.len());
        },
        SurfaceRuleJson::Condition { if_true, then_run } => {
            let after = surface_rules::emit_condition(st, facts, extent, if_true).0;
            lemma_condition_adds_nothing(st, facts, extent, if_true);
            lemma_same_tables(st, after);
            lemma_rule_covered_later(*then_run, st, after);
            a_specialized_pass_names_nothing_new(after, facts, extent, *then_run);
        },
        _ => {},
    }
}

proof fn lemma_sequence_adds_nothing(
    st: PassState,
    facts: Facts,
    extent: Extent,
    rules: Seq<SurfaceRuleJson>,
    n: nat,
)
    requires
        rules_covered(rules, st, n),
        n <= rules.len(),
    ensures
        same_names(st, surface_rules::emit_sequence(st, facts, extent, rules, n).0),
    decreases rules, n,
{
    if n > 0 {
        let before = surface_rules::emit_sequence(st, facts, extent, rules, (n - 1) as nat).0;
        lemma_sequence_adds_nothing(st, facts, extent, rules, (n - 1) as nat);
        lemma_same_tables(st, before);
        lemma_rule_covered_later(rules[n - 1], st, before);
        a_specialized_pass_names_nothing_new(before, facts, extent, rules[n - 1]);
    }
}

// ---------------------------------------------------------------------------
// Whole functions
// ---------------------------------------------------------------------------
/// The deep-band passes reuse the names of the full pass and add none.
pub proof fn the_deep_band_reuses_the_full_rules_names(rule: SurfaceRuleJson, extent: Extent)
    ensures
        ({
            let st = surface_rules::full_pass(rule, extent).0;
            same_names(st, surface_rules::deep_state(st, extent, rule))
        }),
{
    let st = surface_rules::full_pass(rule, extent).0;
    a_full_pass_names_everything(
        surface_rules::fresh_state(surface_rules::rule_names_preliminary(rule)),
        extent,
        rule,
    );
    let first = PassState { referenced_biomes: Seq::empty(), ..st };
    lemma_same_tables(st, first);
    lemma_rule_covered_later(rule, st, first);
    a_specialized_pass_names_nothing_new(
        first,
        surface_rules::deep_facts(Seq::empty()),
        extent,
        rule,
    );
    let survey = surface_rules::deep_survey(st, extent, rule);
    let second = PassState { referenced_biomes: Seq::empty(), ..survey };
    lemma_same_tables(st, second);
    lemma_rule_covered_later(rule, st, second);
    a_specialized_pass_names_nothing_new(
        second,
        surface_rules::deep_facts(survey.referenced_biomes),
        extent,
        rule,
    );
}

/// The generated body returns, at every position, what the rule puts there.
pub proof fn the_generated_body_applies_the_rule(
    rule: SurfaceRuleJson,
    extent: Extent,
    env: SurfaceEnv,
)
    requires
        surface_rules::rule_fits(rule, extent),
        tables_fit(surface_rules::full_pass(rule, extent).0),
    ensures
        ({
            let (st, body) = surface_rules::full_pass(rule, extent);
            run(body, env, st) == rule_outcome(rule, env, extent)
        }),
{
    let st = surface_rules::full_pass(rule, extent).0;
    lemma_same_tables(st, st);
    lowered_rule_keeps_its_outcome(
        surface_rules::fresh_state(surface_rules::rule_names_preliminary(rule)),
        surface_rules::no_facts(),
        extent,
        rule,
        env,
        st,
    );
}

/// Below the preliminary surface, and away from the biomes the deep band asks
/// to be absent, the deep body returns what the full rule puts there, whatever
/// the state of the downward scan; and at or above the band's ceiling the full
/// rule puts nothing.
pub proof fn the_deep_body_applies_the_rule_in_its_band(
    rule: SurfaceRuleJson,
    extent: Extent,
    env: SurfaceEnv,
    scanned: SurfaceEnv,
)
    requires
        surface_rules::rule_fits(rule, extent),
        tables_fit(surface_rules::full_pass(rule, extent).0),
        surface_rules::deep_band_of(
            surface_rules::full_pass(rule, extent).0,
            extent,
            rule,
        ) is Some,
        env.block_y < env.min_surface_level,
        ({
            let st = surface_rules::full_pass(rule, extent).0;
            let band = surface_rules::deep_band_of(st, extent, rule)->0;
            env.biome is Some ==> forall|i: int|
                0 <= i < band.required_absent.len() ==> #[trigger] surface_rules::biome_ident(
                    band.required_absent[i],
                ) != env.biome->0
        }),
        differ_in_scan_state(env, scanned),
    ensures
        ({
            let st = surface_rules::full_pass(rule, extent).0;
            let band = surface_rules::deep_band_of(st, extent, rule)->0;
            &&& run(band.code, env, st) == rule_outcome(rule, env, extent)
            &&& run(band.code, scanned, st) == run(band.code, env, st)
            &&& gradients_end(env) && env.block_y >= band.ceiling ==> rule_outcome(
                rule,
                env,
                extent,
            ) is None
        }),
{
    let st = surface_rules::full_pass(rule, extent).0;
    let band = surface_rules::deep_band_of(st, extent, rule)->0;
    let survey = surface_rules::deep_survey(st, extent, rule);
    let second = PassState { referenced_biomes: Seq::empty(), ..survey };
    let facts = surface_rules::deep_facts(survey.referenced_biomes);
    the_deep_band_reuses_the_full_rules_names(rule, extent);
    let after = surface_rules::deep_emit(st, extent, rule).0;
    lemma_same_tables(after, st);
    assert(band.required_absent == survey.referenced_biomes);
    assert(facts_hold(facts, env)) by {
        if env.biome is Some {
            assert forall|i: int| 0 <= i < facts.absent.len() implies #[trigger] surface_rules::biome_ident(
                facts.absent[i],
            ) != env.biome->0 by {
                assert(facts.absent[i] == band.required_absent[i]);
            }
        }
    }
    lowered_rule_keeps_its_outcome(second, facts, extent, rule, env, st);
    code_without_scan_reads_ignores_the_scan(band.code, env, scanned, st);
    if gradients_end(env) && env.block_y >= band.ceiling {
        nothing_is_written_at_or_above_the_ceiling(rule, facts, extent, env);
    }
}

/// Past the depth bound that the artifacts record, the rule does not tell
/// depths apart.
pub proof fn the_recorded_bound_suffices(
    rule: SurfaceRuleJson,
    extent: Extent,
    a: SurfaceEnv,
    b: SurfaceEnv,
)
    requires
        surface_rules::rule_fits(rule, extent),
        ({
            let st = surface_rules::full_pass(rule, extent).0;
            let bound = surface_rules::deep_state(st, extent, rule).stone_depth_below_bound;
            bound is Some && differ_past_bound(a, b, bound->0 as int)
        }),
    ensures
        rule_outcome(rule, a, extent) == rule_outcome(rule, b, extent),
{
    let st = surface_rules::full_pass(rule, extent).0;
    let survey = surface_rules::deep_survey(st, extent, rule);
    depth_bound_only_widens(
        PassState { referenced_biomes: Seq::empty(), ..st },
        surface_rules::deep_facts(Seq::empty()),
        extent,
        rule,
    );
    depth_bound_only_widens(
        PassState { referenced_biomes: Seq::empty(), ..survey },
        surface_rules::deep_facts(survey.referenced_biomes),
        extent,
        rule,
    );
    depths_past_the_bound_are_indistinguishable(
        surface_rules::fresh_state(surface_rules::rule_names_preliminary(rule)),
        extent,
        rule,
        a,
        b,
    );
}

} // verus!
