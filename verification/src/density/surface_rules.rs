//! Lowering of surface rule trees to straight-line code.
//!
//! A surface rule tree (from a dimension's noise settings) is lowered to a
//! [`SurfaceCode`] program that is rendered as the dimension's surface
//! function. Conditions that the current facts decide are folded away, which is
//! what makes the copy for the deep band below the preliminary surface small.

use crate::text;
use crate::text::{same_text, strip_prefix_or_all};
use vstd::prelude::*;

verus! {

// ---------------------------------------------------------------------------
// Rule trees
// ---------------------------------------------------------------------------
/// Surface rule source (top-level rule node).
pub enum SurfaceRuleJson {
    Block { result_state: ResultStateJson },
    Sequence { sequence: Vec<SurfaceRuleJson> },
    Condition { if_true: SurfaceConditionJson, then_run: Box<SurfaceRuleJson> },
    Bandlands {  },
}

/// Block state reference in a surface rule: the block's name.
pub struct ResultStateJson {
    pub name: String,
}

/// Surface rule condition. Noise thresholds are the bit patterns of the
/// floating-point bounds.
pub enum SurfaceConditionJson {
    StoneDepth {
        offset: i32,
        add_surface_depth: bool,
        secondary_depth_range: i32,
        surface_type: String,
    },
    AbovePreliminarySurface {  },
    BiomeIs { biome_is: SingleOrList<BiomeIdJson> },
    NoiseThreshold { noise: String, is_3d: bool, min_threshold: u64, max_threshold: u64 },
    VerticalGradient {
        random_name: String,
        true_at_and_below: VerticalAnchorJson,
        false_at_and_above: VerticalAnchorJson,
    },
    YAbove { anchor: VerticalAnchorJson, surface_depth_multiplier: i32, add_stone_depth: bool },
    Water { offset: i32, surface_depth_multiplier: i32, add_stone_depth: bool },
    Temperature {  },
    Steep {  },
    Hole {  },
    Not { invert: Box<SurfaceConditionJson> },
}

/// Biome reference: a plain biome id.
pub struct BiomeIdJson(pub String);

/// A holder set is either a single id or a list of ids.
pub enum SingleOrList<T> {
    Single(T),
    List(Vec<T>),
}

/// Vertical anchor for Y-level resolution.
pub enum VerticalAnchorJson {
    Absolute { absolute: i32 },
    AboveBottom { above_bottom: i32 },
    BelowTop { below_top: i32 },
}

impl BiomeIdJson {
    pub fn as_str(&self) -> (r: &str)
        ensures
            r@ == self.0@,
    {
        self.0.as_str()
    }
}

impl<T> SingleOrList<T> {
    /// The ids in the order they are written.
    pub open spec fn items(&self) -> Seq<T> {
        match self {
            SingleOrList::Single(value) => seq![*value],
            SingleOrList::List(values) => values@,
        }
    }

    /// How many ids there are.
    fn count(&self) -> (n: usize)
        ensures
            n == self.items().len(),
    {
        match self {
            SingleOrList::Single(_) => 1,
            SingleOrList::List(values) => values.len(),
        }
    }

    /// The id at position `i`.
    fn item(&self, i: usize) -> (r: &T)
        requires
            i < self.items().len(),
        ensures
            *r == self.items()[i as int],
    {
        match self {
            SingleOrList::Single(value) => value,
            SingleOrList::List(values) => &values[i],
        }
    }
}

/// The biome ids of a biome condition.
pub open spec fn biome_names(ids: Seq<BiomeIdJson>) -> Seq<Seq<char>> {
    Seq::new(ids.len(), |i: int| ids[i].0@)
}

/// The identifier of the registry constant for a biome id: the id without the
/// default namespace, in upper case.
pub open spec fn biome_ident(name: Seq<char>) -> Seq<char> {
    text::uppercase(text::without_prefix(name, "minecraft:"@))
}

/// A dimension's vertical extent.
pub struct Extent {
    pub min_y: i32,
    pub height: i32,
}

/// The Y level that an anchor stands for.
pub open spec fn anchor_y(anchor: VerticalAnchorJson, extent: Extent) -> int {
    match anchor {
        VerticalAnchorJson::Absolute { absolute } => absolute as int,
        VerticalAnchorJson::AboveBottom { above_bottom } => extent.min_y + above_bottom,
        VerticalAnchorJson::BelowTop { below_top } => extent.height - 1 + extent.min_y - below_top,
    }
}

/// The anchor's level, and each step of its computation, is a 32-bit integer.
pub open spec fn anchor_fits(anchor: VerticalAnchorJson, extent: Extent) -> bool {
    match anchor {
        VerticalAnchorJson::Absolute { absolute } => true,
        VerticalAnchorJson::AboveBottom { above_bottom } => i32::MIN <= extent.min_y + above_bottom
            <= i32::MAX,
        VerticalAnchorJson::BelowTop { below_top } => {
            &&& i32::MIN <= extent.height - 1
            &&& i32::MIN <= extent.height - 1 + extent.min_y <= i32::MAX
            &&& i32::MIN <= extent.height - 1 + extent.min_y - below_top <= i32::MAX
        },
    }
}

// ---------------------------------------------------------------------------
// Emitted code
// ---------------------------------------------------------------------------
/// Integer inputs of the generated function.
#[derive(Clone, Copy, PartialEq, Eq, Structural)]
pub enum ContextField {
    BlockY,
    StoneDepthAbove,
    StoneDepthBelow,
    SurfaceDepth,
    WaterHeight,
    MinSurfaceLevel,
}

/// Integer expressions of the generated function.
pub enum IntCode {
    Literal(i32),
    Field(ContextField),
    /// The secondary surface noise scaled to a depth range.
    SecondaryDepth(i32),
    Plus(Box<IntCode>, Box<IntCode>),
    Times(Box<IntCode>, Box<IntCode>),
}

/// Boolean expressions of the generated function. Noises, gradients, blocks and
/// biomes are referred to by their place in the transpiler's tables.
pub enum BoolCode {
    False,
    AtMost(IntCode, IntCode),
    AtLeast(IntCode, IntCode),
    Equal(IntCode, IntCode),
    Or(Box<BoolCode>, Box<BoolCode>),
    Not(Box<BoolCode>),
    /// The biome at the position is known and satisfies the check. `resolve`
    /// tells whether the biome is looked up on demand.
    InBiome { resolve: bool, check: Box<BoolCode> },
    /// Inside `InBiome`: the biome is the one of this table entry.
    BiomeEquals(usize),
    NoiseBetween { noise: usize, is_3d: bool, min: u64, max: u64 },
    Gradient { gradient: usize, true_y: i32, false_y: i32 },
    ColdEnoughToSnow,
    Steep,
}

/// The body of the generated function.
pub enum SurfaceCode {
    /// No statement.
    Empty,
    /// `return` of the block state of this table entry.
    ReturnBlock(usize),
    /// `return` of the clay band at the position.
    ReturnBand,
    If { cond: BoolCode, body: Box<SurfaceCode> },
    Then(Box<SurfaceCode>, Box<SurfaceCode>),
}

/// A transpiled condition, folded to a constant where the facts decide it.
pub enum Cond {
    Known(bool),
    Expr(BoolCode),
}

/// One program after another, with nothing emitted for an empty one.
pub open spec fn joined(first: SurfaceCode, second: SurfaceCode) -> SurfaceCode {
    if first is Empty {
        second
    } else if second is Empty {
        first
    } else {
        SurfaceCode::Then(Box::new(first), Box::new(second))
    }
}

fn join(first: SurfaceCode, second: SurfaceCode) -> (r: SurfaceCode)
    ensures
        r == joined(first, second),
{
    if let SurfaceCode::Empty = first {
        return second;
    }
    if let SurfaceCode::Empty = second {
        return first;
    }
    SurfaceCode::Then(Box::new(first), Box::new(second))
}

pub open spec fn plus_code(a: IntCode, b: IntCode) -> IntCode {
    IntCode::Plus(Box::new(a), Box::new(b))
}

fn plus(a: IntCode, b: IntCode) -> (r: IntCode)
    ensures
        r == plus_code(a, b),
{
    IntCode::Plus(Box::new(a), Box::new(b))
}

pub open spec fn times_code(a: IntCode, b: IntCode) -> IntCode {
    IntCode::Times(Box::new(a), Box::new(b))
}

fn times(a: IntCode, b: IntCode) -> (r: IntCode)
    ensures
        r == times_code(a, b),
{
    IntCode::Times(Box::new(a), Box::new(b))
}

// ---------------------------------------------------------------------------
// What a pass reads and collects
// ---------------------------------------------------------------------------
/// What a specialized copy of a surface rule is allowed to assume.
///
/// Every fact here has to be established by the caller before it uses the copy;
/// the transpiler folds the matching conditions away and emits neither the test
/// nor the branch behind it.
pub struct SurfaceRuleFacts {
    /// Known value of `above_preliminary_surface`, if the caller knows it.
    pub above_preliminary_surface: Option<bool>,
    /// Biomes known not to occur anywhere the copy will be applied.
    pub absent_biomes: Vec<String>,
}

/// The facts of a pass as mathematical values.
#[verifier::ext_equal]
pub struct Facts {
    pub above: Option<bool>,
    pub absent: Seq<Seq<char>>,
}

impl View for SurfaceRuleFacts {
    type V = Facts;

    open spec fn view(&self) -> Facts {
        Facts { above: self.above_preliminary_surface, absent: text::texts(self.absent_biomes@) }
    }
}

impl Default for SurfaceRuleFacts {
    fn default() -> (r: Self)
        ensures
            r@ == no_facts(),
    {
        SurfaceRuleFacts { above_preliminary_surface: None, absent_biomes: Vec::new() }
    }
}

/// Nothing is assumed.
pub open spec fn no_facts() -> Facts {
    Facts { above: None, absent: Seq::empty() }
}

/// What a transpiler has collected so far.
#[verifier::ext_equal]
pub struct PassState {
    pub noise_ids: Seq<Seq<char>>,
    pub gradient_ids: Seq<Seq<char>>,
    pub block_state_names: Seq<Seq<char>>,
    pub biome_idents: Seq<Seq<char>>,
    pub uses_biome: bool,
    pub uses_preliminary_surface: bool,
    pub uses_surface_secondary: bool,
    pub uses_steep: bool,
    pub stone_depth_below_bound: Option<i32>,
    pub referenced_biomes: Seq<Seq<char>>,
}

/// Context for surface rule transpilation.
pub struct SurfaceRuleTranspiler {
    /// Noise ids referenced by `NoiseThreshold` conditions.
    pub noise_ids: Vec<String>,
    /// Random ids referenced by `VerticalGradient` conditions.
    pub gradient_ids: Vec<String>,
    /// Block state names returned by block-result rules.
    pub block_state_names: Vec<String>,
    /// Identifiers of the biome constants that emitted checks compare with.
    pub biome_idents: Vec<String>,
    /// Whether generated conditions read the biome directly or indirectly.
    pub uses_biome: bool,
    /// Whether generated conditions use the preliminary surface level.
    pub uses_preliminary_surface: bool,
    /// Whether generated conditions use the secondary surface noise.
    pub uses_surface_secondary: bool,
    /// Whether generated conditions use the steepness flag.
    pub uses_steep: bool,
    /// The largest depth any ceiling-type `StoneDepth` condition compares
    /// the depth below against, or `None` when some comparison bound is
    /// not a compile-time constant.
    ///
    /// Every such condition has the shape `stone_depth_below <= bound`, so a
    /// depth greater than the largest bound is indistinguishable from any other
    /// depth greater than it, and the caller need not count past that. `Some(0)`
    /// means the value is never read at all.
    pub stone_depth_below_bound: Option<i32>,
    /// Facts held true for the copy currently being emitted.
    pub facts: SurfaceRuleFacts,
    /// Biomes named by `BiomeIs` conditions that survived the current pass.
    pub referenced_biomes: Vec<String>,
    /// Vertical extent of this dimension.
    pub extent: Extent,
}

impl View for SurfaceRuleTranspiler {
    type V = PassState;

    open spec fn view(&self) -> PassState {
        PassState {
            noise_ids: text::texts(self.noise_ids@),
            gradient_ids: text::texts(self.gradient_ids@),
            block_state_names: text::texts(self.block_state_names@),
            biome_idents: text::texts(self.biome_idents@),
            uses_biome: self.uses_biome,
            uses_preliminary_surface: self.uses_preliminary_surface,
            uses_surface_secondary: self.uses_surface_secondary,
            uses_steep: self.uses_steep,
            stone_depth_below_bound: self.stone_depth_below_bound,
            referenced_biomes: text::texts(self.referenced_biomes@),
        }
    }
}

/// `i` is the first place of `name` in `table`.
pub open spec fn first_at(table: Seq<Seq<char>>, name: Seq<char>, i: int) -> bool {
    &&& 0 <= i < table.len()
    &&& table[i] == name
    &&& forall|j: int| 0 <= j < i ==> table[j] != name
}

/// The first place of `name` in `table`.
pub open spec fn slot(table: Seq<Seq<char>>, name: Seq<char>) -> usize {
    (choose|i: int| first_at(table, name, i)) as usize
}

/// `table` with `name` in it: appended where it was not there yet.
pub open spec fn interned(table: Seq<Seq<char>>, name: Seq<char>) -> Seq<Seq<char>> {
    if table.contains(name) {
        table
    } else {
        table.push(name)
    }
}

/// `table` with each of the first `n` names interned in turn.
pub open spec fn interned_all(table: Seq<Seq<char>>, names: Seq<Seq<char>>, n: nat) -> Seq<
    Seq<char>,
>
    decreases n,
{
    if n == 0 {
        table
    } else {
        interned(interned_all(table, names, (n - 1) as nat), names[n - 1])
    }
}

/// The depth bound widened to cover one more comparison; `None` absorbs.
pub open spec fn widened(seen: Option<i32>, bound: Option<i32>) -> Option<i32> {
    match (seen, bound) {
        (Some(a), Some(b)) => Some(if a >= b { a } else { b }),
        _ => None,
    }
}

fn position_of(table: &Vec<String>, name: &str) -> (r: Option<usize>)
    ensures
        match r {
            Some(i) => first_at(text::texts(table@), name@, i as int),
            None => !text::texts(table@).contains(name@),
        },
{
    let mut i: usize = 0;
    while i < table.len()
        invariant
            i <= table.len(),
            forall|j: int| 0 <= j < i ==> text::texts(table@)[j] != name@,
        decreases table.len() - i,
    {
        if same_text(table[i].as_str(), name) {
            return Some(i);
        }
        i += 1;
    }
    None
}

fn intern(table: &mut Vec<String>, name: &str) -> (r: usize)
    ensures
        text::texts(final(table)@) == interned(text::texts(old(table)@), name@),
        r == slot(text::texts(final(table)@), name@),
{
    match position_of(table, name) {
        Some(i) => {
            proof {
                lemma_slot(text::texts(table@), name@, i as int);
            }
            i
        },
        None => {
            let i: usize = table.len();
            table.push(name.to_owned());
            proof {
                assert(text::texts(table@) == text::texts(old(table)@).push(name@));
                lemma_slot(text::texts(table@), name@, i as int);
            }
            i
        },
    }
}

pub proof fn lemma_slot(table: Seq<Seq<char>>, name: Seq<char>, i: int)
    requires
        first_at(table, name, i),
        i <= usize::MAX,
    ensures
        slot(table, name) == i,
{
    let k = choose|k: int| first_at(table, name, k);
    assert(first_at(table, name, k));
    if k < i {
        assert(table[k] != name);
    }
    if i < k {
        assert(table[i] != name);
    }
}

/// Whether `names` holds `name`.
fn holds_name(names: &Vec<String>, name: &str) -> (r: bool)
    ensures
        r == text::texts(names@).contains(name@),
{
    match position_of(names, name) {
        Some(i) => {
            assert(text::texts(names@)[i as int] == name@);
            true
        },
        None => false,
    }
}

// ---------------------------------------------------------------------------
// What a pass emits
// ---------------------------------------------------------------------------
/// Every named biome is among the absent ones (and at least one is named).
pub open spec fn all_absent(names: Seq<Seq<char>>, absent: Seq<Seq<char>>) -> bool {
    names.len() > 0 && forall|i: int|
        0 <= i < names.len() ==> #[trigger] absent.contains(names[i])
}

/// The value the facts give a condition, if they decide it.
pub open spec fn decided(cond: SurfaceConditionJson, facts: Facts) -> Option<bool>
    decreases cond,
{
    match cond {
        SurfaceConditionJson::AbovePreliminarySurface {  } => facts.above,
        SurfaceConditionJson::BiomeIs { biome_is } => if all_absent(
            biome_names(biome_is.items()),
            facts.absent,
        ) {
            Some(false)
        } else {
            None
        },
        SurfaceConditionJson::Not { invert } => match decided(*invert, facts) {
            Some(known) => Some(!known),
            None => None,
        },
        _ => None,
    }
}

/// The comparison chain for the first `n` biomes of a condition, over the
/// identifier table.
pub open spec fn biome_check(idents: Seq<Seq<char>>, names: Seq<Seq<char>>, n: nat) -> BoolCode
    decreases n,
{
    if n == 0 {
        BoolCode::False
    } else {
        let last = BoolCode::BiomeEquals(slot(idents, biome_ident(names[n - 1])));
        if n == 1 {
            last
        } else {
            BoolCode::Or(Box::new(biome_check(idents, names, (n - 1) as nat)), Box::new(last))
        }
    }
}

/// The identifiers of the named biomes.
pub open spec fn biome_idents_of(names: Seq<Seq<char>>) -> Seq<Seq<char>> {
    Seq::new(names.len(), |i: int| biome_ident(names[i]))
}

/// The right-hand side of a stone depth comparison.
pub open spec fn depth_limit_code(offset: i32, add_surface_depth: bool, range: i32) -> IntCode {
    let base = plus_code(IntCode::Literal(1), IntCode::Literal(offset));
    let with_depth = if add_surface_depth {
        plus_code(base, IntCode::Field(ContextField::SurfaceDepth))
    } else {
        base
    };
    if range > 0 {
        plus_code(with_depth, IntCode::SecondaryDepth(range))
    } else {
        with_depth
    }
}

/// The height a condition compares: the block's, raised by the stone above it
/// where the condition asks for that.
pub open spec fn height_code(add_stone_depth: bool) -> IntCode {
    if add_stone_depth {
        plus_code(
            IntCode::Field(ContextField::BlockY),
            IntCode::Field(ContextField::StoneDepthAbove),
        )
    } else {
        IntCode::Field(ContextField::BlockY)
    }
}

/// The surface depth times a constant.
pub open spec fn scaled_depth_code(multiplier: i32) -> IntCode {
    times_code(IntCode::Field(ContextField::SurfaceDepth), IntCode::Literal(multiplier))
}

/// The constant a ceiling depth is compared with, where it is one.
pub open spec fn ceiling_bound(offset: i32, add_surface_depth: bool, range: i32) -> Option<i32> {
    if !add_surface_depth && range <= 0 {
        Some(if 1 + offset >= 0 { (1 + offset) as i32 } else { 0i32 })
    } else {
        None
    }
}

/// What lowering one condition adds to the pass and emits.
pub open spec fn emit_condition(
    st: PassState,
    facts: Facts,
    extent: Extent,
    cond: SurfaceConditionJson,
) -> (PassState, Cond)
    decreases cond,
{
    match cond {
        SurfaceConditionJson::StoneDepth {
            offset,
            add_surface_depth,
            secondary_depth_range,
            surface_type,
        } => {
            let floor = surface_type@ == "floor"@;
            let after = PassState {
                stone_depth_below_bound: if floor {
                    st.stone_depth_below_bound
                } else {
                    widened(
                        st.stone_depth_below_bound,
                        ceiling_bound(offset, add_surface_depth, secondary_depth_range),
                    )
                },
                uses_surface_secondary: st.uses_surface_secondary || secondary_depth_range > 0,
                ..st
            };
            let field = if floor {
                ContextField::StoneDepthAbove
            } else {
                ContextField::StoneDepthBelow
            };
            (
                after,
                Cond::Expr(
                    BoolCode::AtMost(
                        IntCode::Field(field),
                        depth_limit_code(offset, add_surface_depth, secondary_depth_range),
                    ),
                ),
            )
        },
        SurfaceConditionJson::AbovePreliminarySurface {  } => {
            let after = PassState { uses_preliminary_surface: true, ..st };
            (
                after,
                match facts.above {
                    Some(known) => Cond::Known(known),
                    None => Cond::Expr(
                        BoolCode::AtLeast(
                            IntCode::Field(ContextField::BlockY),
                            IntCode::Field(ContextField::MinSurfaceLevel),
                        ),
                    ),
                },
            )
        },
        SurfaceConditionJson::BiomeIs { biome_is } => {
            let names = biome_names(biome_is.items());
            if all_absent(names, facts.absent) {
                (PassState { uses_biome: true, ..st }, Cond::Known(false))
            } else {
                let idents = interned_all(st.biome_idents, biome_idents_of(names), names.len());
                let after = PassState {
                    uses_biome: true,
                    referenced_biomes: interned_all(st.referenced_biomes, names, names.len()),
                    biome_idents: idents,
                    ..st
                };
                (
                    after,
                    Cond::Expr(
                        BoolCode::InBiome {
                            resolve: st.uses_preliminary_surface,
                            check: Box::new(biome_check(idents, names, names.len())),
                        },
                    ),
                )
            }
        },
        SurfaceConditionJson::NoiseThreshold { noise, is_3d, min_threshold, max_threshold } => {
            let after = PassState { noise_ids: interned(st.noise_ids, noise@), ..st };
            (
                after,
                Cond::Expr(
                    BoolCode::NoiseBetween {
                        noise: slot(after.noise_ids, noise@),
                        is_3d,
                        min: min_threshold,
                        max: max_threshold,
                    },
                ),
            )
        },
        SurfaceConditionJson::VerticalGradient {
            random_name,
            true_at_and_below,
            false_at_and_above,
        } => {
            let after = PassState { gradient_ids: interned(st.gradient_ids, random_name@), ..st };
            (
                after,
                Cond::Expr(
                    BoolCode::Gradient {
                        gradient: slot(after.gradient_ids, random_name@),
                        true_y: anchor_y(true_at_and_below, extent) as i32,
                        false_y: anchor_y(false_at_and_above, extent) as i32,
                    },
                ),
            )
        },
        SurfaceConditionJson::YAbove { anchor, surface_depth_multiplier, add_stone_depth } => {
            (
                st,
                Cond::Expr(
                    BoolCode::AtLeast(
                        height_code(add_stone_depth),
                        plus_code(
                            IntCode::Literal(anchor_y(anchor, extent) as i32),
                            scaled_depth_code(surface_depth_multiplier),
                        ),
                    ),
                ),
            )
        },
        SurfaceConditionJson::Water { offset, surface_depth_multiplier, add_stone_depth } => {
            let no_water = BoolCode::Equal(
                IntCode::Field(ContextField::WaterHeight),
                IntCode::Literal(i32::MIN),
            );
            let above = BoolCode::AtLeast(
                height_code(add_stone_depth),
                plus_code(
                    plus_code(
                        IntCode::Field(ContextField::WaterHeight),
                        IntCode::Literal(offset),
                    ),
                    scaled_depth_code(surface_depth_multiplier),
                ),
            );
            (st, Cond::Expr(BoolCode::Or(Box::new(no_water), Box::new(above))))
        },
        SurfaceConditionJson::Temperature {  } => (
            PassState { uses_biome: true, ..st },
            Cond::Expr(BoolCode::ColdEnoughToSnow),
        ),
        SurfaceConditionJson::Steep {  } => (
            PassState { uses_steep: true, ..st },
            Cond::Expr(BoolCode::Steep),
        ),
        SurfaceConditionJson::Hole {  } => (
            st,
            Cond::Expr(
                BoolCode::AtMost(
                    IntCode::Field(ContextField::SurfaceDepth),
                    IntCode::Literal(0),
                ),
            ),
        ),
        SurfaceConditionJson::Not { invert } => {
            let (after, inner) = emit_condition(st, facts, extent, *invert);
            (
                after,
                match inner {
                    Cond::Known(known) => Cond::Known(!known),
                    Cond::Expr(code) => Cond::Expr(BoolCode::Not(Box::new(code))),
                },
            )
        },
    }
}

/// What lowering a rule adds to the pass and emits.
pub open spec fn emit_rule(
    st: PassState,
    facts: Facts,
    extent: Extent,
    rule: SurfaceRuleJson,
) -> (PassState, SurfaceCode)
    decreases rule, 0nat,
{
    match rule {
        SurfaceRuleJson::Block { result_state } => {
            let names = interned(st.block_state_names, result_state.name@);
            (
                PassState { block_state_names: names, ..st },
                SurfaceCode::ReturnBlock(slot(names, result_state.name@)),
            )
        },
        SurfaceRuleJson::Sequence { sequence } => emit_sequence(
            st,
            facts,
            extent,
            sequence@,
            sequence@.len(),
        ),
        SurfaceRuleJson::Condition { if_true, then_run } => {
            let (after, cond) = emit_condition(st, facts, extent, if_true);
            match cond {
                Cond::Known(false) => (after, SurfaceCode::Empty),
                Cond::Known(true) => emit_rule(after, facts, extent, *then_run),
                Cond::Expr(code) => {
                    let (last, body) = emit_rule(after, facts, extent, *then_run);
                    (
                        last,
                        if body is Empty {
                            SurfaceCode::Empty
                        } else {
                            SurfaceCode::If { cond: code, body: Box::new(body) }
                        },
                    )
                },
            }
        },
        SurfaceRuleJson::Bandlands {  } => (st, SurfaceCode::ReturnBand),
    }
}

/// What lowering the first `n` rules of a sequence adds and emits.
pub open spec fn emit_sequence(
    st: PassState,
    facts: Facts,
    extent: Extent,
    rules: Seq<SurfaceRuleJson>,
    n: nat,
) -> (PassState, SurfaceCode)
    decreases rules, n,
{
    if n == 0 || n > rules.len() {
        (st, SurfaceCode::Empty)
    } else {
        let (before, code) = emit_sequence(st, facts, extent, rules, (n - 1) as nat);
        let (after, last) = emit_rule(before, facts, extent, rules[n - 1]);
        (after, joined(code, last))
    }
}

/// Every anchor and constant bound in a condition is a 32-bit integer.
pub open spec fn condition_fits(cond: SurfaceConditionJson, extent: Extent) -> bool
    decreases cond,
{
    match cond {
        SurfaceConditionJson::StoneDepth {
            offset,
            add_surface_depth,
            secondary_depth_range,
            surface_type,
        } => surface_type@ == "floor"@ || add_surface_depth || secondary_depth_range > 0 || offset
            < i32::MAX,
        SurfaceConditionJson::VerticalGradient {
            random_name,
            true_at_and_below,
            false_at_and_above,
        } => anchor_fits(true_at_and_below, extent) && anchor_fits(false_at_and_above, extent),
        SurfaceConditionJson::YAbove { anchor, surface_depth_multiplier, add_stone_depth } =>
            anchor_fits(anchor, extent),
        SurfaceConditionJson::Not { invert } => condition_fits(*invert, extent),
        _ => true,
    }
}

/// Every anchor and constant bound in a rule is a 32-bit integer.
pub open spec fn rule_fits(rule: SurfaceRuleJson, extent: Extent) -> bool
    decreases rule, 0nat,
{
    match rule {
        SurfaceRuleJson::Sequence { sequence } => rules_fit(sequence@, extent, sequence@.len()),
        SurfaceRuleJson::Condition { if_true, then_run } => condition_fits(if_true, extent)
            && rule_fits(*then_run, extent),
        _ => true,
    }
}

/// The same for the first `n` rules of a sequence.
pub open spec fn rules_fit(rules: Seq<SurfaceRuleJson>, extent: Extent, n: nat) -> bool
    decreases rules, n,
{
    if n == 0 || n > rules.len() {
        true
    } else {
        rules_fit(rules, extent, (n - 1) as nat) && rule_fits(rules[n - 1], extent)
    }
}

// ---------------------------------------------------------------------------
// Transpiler
// ---------------------------------------------------------------------------
fn depth_limit(offset: i32, add_surface_depth: bool, range: i32) -> (r: IntCode)
    ensures
        r == depth_limit_code(offset, add_surface_depth, range),
{
    let base = plus(IntCode::Literal(1), IntCode::Literal(offset));
    let with_depth = if add_surface_depth {
        plus(base, IntCode::Field(ContextField::SurfaceDepth))
    } else {
        base
    };
    if range > 0 {
        plus(with_depth, IntCode::SecondaryDepth(range))
    } else {
        with_depth
    }
}

fn compared_height(add_stone_depth: bool) -> (r: IntCode)
    ensures
        r == height_code(add_stone_depth),
{
    if add_stone_depth {
        plus(
            IntCode::Field(ContextField::BlockY),
            IntCode::Field(ContextField::StoneDepthAbove),
        )
    } else {
        IntCode::Field(ContextField::BlockY)
    }
}

fn scaled_depth(multiplier: i32) -> (r: IntCode)
    ensures
        r == scaled_depth_code(multiplier),
{
    times(IntCode::Field(ContextField::SurfaceDepth), IntCode::Literal(multiplier))
}

impl SurfaceRuleTranspiler {
    pub fn new(min_y: i32, height: i32, uses_preliminary_surface: bool) -> (r: Self)
        ensures
            r@ == fresh_state(uses_preliminary_surface),
            r.facts@ == no_facts(),
            r.extent == (Extent { min_y, height }),
    {
        let r = SurfaceRuleTranspiler {
            noise_ids: Vec::new(),
            gradient_ids: Vec::new(),
            block_state_names: Vec::new(),
            biome_idents: Vec::new(),
            uses_biome: false,
            uses_preliminary_surface,
            uses_surface_secondary: false,
            uses_steep: false,
            stone_depth_below_bound: Some(0),
            facts: SurfaceRuleFacts::default(),
            referenced_biomes: Vec::new(),
            extent: Extent { min_y, height },
        };
        assert(r@ == fresh_state(uses_preliminary_surface));
        r
    }

    /// Widen the recorded `stone_depth_below` bound to cover one more condition.
    ///
    /// `None` is absorbing: once one condition compares against a runtime value
    /// the exact depth is needed and no later constant bound can take that back.
    /// The bound is otherwise the maximum, and is only ever widened, so passes
    /// that fold conditions away (the deep-band copies) cannot narrow what
    /// the full rule established.
    pub fn note_stone_depth_below_bound(&mut self, bound: Option<i32>)
        ensures
            final(self)@ == (PassState {
                stone_depth_below_bound: widened(old(self)@.stone_depth_below_bound, bound),
                ..old(self)@
            }),
            final(self).facts == old(self).facts,
            final(self).extent == old(self).extent,
    {
        self.stone_depth_below_bound = match (self.stone_depth_below_bound, bound) {
            (Some(seen), Some(limit)) => Some(if seen >= limit { seen } else { limit }),
            _ => None,
        };
    }

    /// Resolve a vertical anchor to a constant Y value.
    pub fn resolve_anchor(&self, anchor: &VerticalAnchorJson) -> (y: i32)
        requires
            anchor_fits(*anchor, self.extent),
        ensures
            y == anchor_y(*anchor, self.extent),
            match *anchor {
                VerticalAnchorJson::Absolute { absolute } => y == absolute,
                VerticalAnchorJson::AboveBottom { above_bottom } => y - above_bottom
                    == self.extent.min_y,
                VerticalAnchorJson::BelowTop { below_top } => y + below_top == self.extent.min_y
                    + self.extent.height - 1,
            },
    {
        match anchor {
            VerticalAnchorJson::Absolute { absolute } => *absolute,
            VerticalAnchorJson::AboveBottom { above_bottom } => self.extent.min_y + *above_bottom,
            VerticalAnchorJson::BelowTop { below_top } => self.extent.height - 1 + self.extent.min_y
                - *below_top,
        }
    }

    /// Whether every named biome is known to be absent.
    fn names_only_absent(&self, biome_is: &SingleOrList<BiomeIdJson>) -> (r: bool)
        ensures
            r == all_absent(biome_names(biome_is.items()), self.facts@.absent),
    {
        let n: usize = biome_is.count();
        let ghost names = biome_names(biome_is.items());
        if n == 0 {
            return false;
        }
        let mut i: usize = 0;
        while i < n
            invariant
                i <= n,
                n == biome_is.items().len(),
                names == biome_names(biome_is.items()),
                forall|j: int|
                    0 <= j < i ==> #[trigger] self.facts@.absent.contains(names[j]),
            decreases n - i,
        {
            if !holds_name(&self.facts.absent_biomes, biome_is.item(i).as_str()) {
                assert(!self.facts@.absent.contains(names[i as int]));
                return false;
            }
            i += 1;
        }
        true
    }

    /// Emits the comparison chain of a biome condition and records its biomes.
    fn lower_biomes(&mut self, biome_is: &SingleOrList<BiomeIdJson>) -> (check: BoolCode)
        ensures
            ({
                let names = biome_names(biome_is.items());
                let idents = interned_all(
                    old(self)@.biome_idents,
                    biome_idents_of(names),
                    names.len(),
                );
                &&& check == biome_check(idents, names, names.len())
                &&& final(self)@ == (PassState {
                    referenced_biomes: interned_all(
                        old(self)@.referenced_biomes,
                        names,
                        names.len(),
                    ),
                    biome_idents: idents,
                    ..old(self)@
                })
                &&& final(self).facts == old(self).facts
                &&& final(self).extent == old(self).extent
            }),
    {
        let n: usize = biome_is.count();
        let ghost names = biome_names(biome_is.items());
        let ghost start = self@;
        let ghost idents = biome_idents_of(names);
        let mut check = BoolCode::False;
        let mut i: usize = 0;
        while i < n
            invariant
                i <= n,
                n == biome_is.items().len(),
                names == biome_names(biome_is.items()),
                idents == biome_idents_of(names),
                self.facts == old(self).facts,
                self.extent == old(self).extent,
                self@ == (PassState {
                    referenced_biomes: interned_all(start.referenced_biomes, names, i as nat),
                    biome_idents: interned_all(start.biome_idents, idents, i as nat),
                    ..start
                }),
                check == biome_check(self@.biome_idents, names, i as nat),
            decreases n - i,
        {
            let ghost before = self@;
            let id = biome_is.item(i);
            let name = id.as_str();
            assert(name@ == names[i as int]);
            let _ = intern(&mut self.referenced_biomes, name);
            let stripped = strip_prefix_or_all(name, "minecraft:");
            let ident = stripped.as_str().to_uppercase();
            assert(ident@ == idents[i as int]);
            let index: usize = intern(&mut self.biome_idents, ident.as_str());
            proof {
                assert(self@.biome_idents.subrange(0, before.biome_idents.len() as int)
                    == before.biome_idents);
                assert(self@.biome_idents.len() == self.biome_idents.len());
                lemma_biome_check_extends(
                    before.biome_idents,
                    self@.biome_idents,
                    names,
                    i as nat,
                    start.biome_idents,
                );
                assert(self@.referenced_biomes == interned_all(
                    start.referenced_biomes,
                    names,
                    (i + 1) as nat,
                ));
                assert(self@.biome_idents == interned_all(
                    start.biome_idents,
                    idents,
                    (i + 1) as nat,
                ));
            }
            let last = BoolCode::BiomeEquals(index);
            check = if i == 0 {
                last
            } else {
                BoolCode::Or(Box::new(check), Box::new(last))
            };
            i += 1;
            assert(check == biome_check(self@.biome_idents, names, i as nat));
        }
        check
    }

    /// Transpile a condition into a boolean expression.
    pub fn transpile_condition(&mut self, cond: &SurfaceConditionJson) -> (r: Cond)
        requires
            condition_fits(*cond, old(self).extent),
        ensures
            (final(self)@, r) == emit_condition(
                old(self)@,
                old(self).facts@,
                old(self).extent,
                *cond,
            ),
            final(self).facts == old(self).facts,
            final(self).extent == old(self).extent,
        decreases *cond,
    {
        match cond {
            SurfaceConditionJson::StoneDepth {
                offset,
                add_surface_depth,
                secondary_depth_range,
                surface_type,
            } => {
                let is_floor = same_text(surface_type.as_str(), "floor");
                let field = if is_floor {
                    ContextField::StoneDepthAbove
                } else {
                    // Ceiling depth is counted by the caller one block at a
                    // time, so record how far it has to count. A bound that is
                    // not a compile-time constant poisons the answer and the
                    // caller falls back to counting the run out in full.
                    let bound = if !*add_surface_depth && *secondary_depth_range <= 0 {
                        let limit: i32 = 1 + *offset;
                        Some(if limit >= 0 { limit } else { 0i32 })
                    } else {
                        None
                    };
                    self.note_stone_depth_below_bound(bound);
                    ContextField::StoneDepthBelow
                };
                if *secondary_depth_range > 0 {
                    self.uses_surface_secondary = true;
                }
                let r = Cond::Expr(
                    BoolCode::AtMost(
                        IntCode::Field(field),
                        depth_limit(*offset, *add_surface_depth, *secondary_depth_range),
                    ),
                );
                assert(self@ == emit_condition(
                    old(self)@,
                    old(self).facts@,
                    old(self).extent,
                    *cond,
                ).0);
                r
            },
            SurfaceConditionJson::AbovePreliminarySurface {  } => {
                self.uses_preliminary_surface = true;
                match self.facts.above_preliminary_surface {
                    Some(known) => Cond::Known(known),
                    None => Cond::Expr(
                        BoolCode::AtLeast(
                            IntCode::Field(ContextField::BlockY),
                            IntCode::Field(ContextField::MinSurfaceLevel),
                        ),
                    ),
                }
            },
            SurfaceConditionJson::BiomeIs { biome_is } => {
                self.uses_biome = true;
                if self.names_only_absent(biome_is) {
                    return Cond::Known(false);
                }
                let resolve = self.uses_preliminary_surface;
                let check = self.lower_biomes(biome_is);
                Cond::Expr(BoolCode::InBiome { resolve, check: Box::new(check) })
            },
            SurfaceConditionJson::NoiseThreshold { noise, is_3d, min_threshold, max_threshold } => {
                let index: usize = intern(&mut self.noise_ids, noise.as_str());
                Cond::Expr(
                    BoolCode::NoiseBetween {
                        noise: index,
                        is_3d: *is_3d,
                        min: *min_threshold,
                        max: *max_threshold,
                    },
                )
            },
            SurfaceConditionJson::VerticalGradient {
                random_name,
                true_at_and_below,
                false_at_and_above,
            } => {
                let index: usize = intern(&mut self.gradient_ids, random_name.as_str());
                let true_y: i32 = self.resolve_anchor(true_at_and_below);
                let false_y: i32 = self.resolve_anchor(false_at_and_above);
                Cond::Expr(BoolCode::Gradient { gradient: index, true_y, false_y })
            },
            SurfaceConditionJson::YAbove { anchor, surface_depth_multiplier, add_stone_depth } => {
                let level: i32 = self.resolve_anchor(anchor);
                Cond::Expr(
                    BoolCode::AtLeast(
                        compared_height(*add_stone_depth),
                        plus(IntCode::Literal(level), scaled_depth(*surface_depth_multiplier)),
                    ),
                )
            },
            SurfaceConditionJson::Water { offset, surface_depth_multiplier, add_stone_depth } => {
                let no_water = BoolCode::Equal(
                    IntCode::Field(ContextField::WaterHeight),
                    IntCode::Literal(i32::MIN),
                );
                let above = BoolCode::AtLeast(
                    compared_height(*add_stone_depth),
                    plus(
                        plus(IntCode::Field(ContextField::WaterHeight), IntCode::Literal(*offset)),
                        scaled_depth(*surface_depth_multiplier),
                    ),
                );
                Cond::Expr(BoolCode::Or(Box::new(no_water), Box::new(above)))
            },
            SurfaceConditionJson::Temperature {  } => {
                self.uses_biome = true;
                Cond::Expr(BoolCode::ColdEnoughToSnow)
            },
            SurfaceConditionJson::Steep {  } => {
                self.uses_steep = true;
                Cond::Expr(BoolCode::Steep)
            },
            SurfaceConditionJson::Hole {  } => Cond::Expr(
                BoolCode::AtMost(IntCode::Field(ContextField::SurfaceDepth), IntCode::Literal(0)),
            ),
            SurfaceConditionJson::Not { invert } => match self.transpile_condition(invert) {
                Cond::Known(known) => Cond::Known(!known),
                Cond::Expr(inner) => Cond::Expr(BoolCode::Not(Box::new(inner))),
            },
        }
    }

    /// Transpile a surface rule tree into a function body.
    pub fn transpile_rule(&mut self, rule: &SurfaceRuleJson) -> (r: SurfaceCode)
        requires
            rule_fits(*rule, old(self).extent),
        ensures
            (final(self)@, r) == emit_rule(old(self)@, old(self).facts@, old(self).extent, *rule),
            final(self).facts == old(self).facts,
            final(self).extent == old(self).extent,
        decreases *rule,
    {
        match rule {
            SurfaceRuleJson::Block { result_state } => {
                let index: usize = intern(
                    &mut self.block_state_names,
                    result_state.name.as_str(),
                );
                SurfaceCode::ReturnBlock(index)
            },
            SurfaceRuleJson::Sequence { sequence } => {
                let ghost start = self@;
                let ghost facts = self.facts@;
                let mut code = SurfaceCode::Empty;
                let mut i: usize = 0;
                while i < sequence.len()
                    invariant
                        i <= sequence.len(),
                        *rule == (SurfaceRuleJson::Sequence { sequence: *sequence }),
                        rules_fit(sequence@, self.extent, sequence@.len()),
                        self.facts == old(self).facts,
                        self.extent == old(self).extent,
                        facts == self.facts@,
                        (self@, code) == emit_sequence(
                            start,
                            facts,
                            self.extent,
                            sequence@,
                            i as nat,
                        ),
                    decreases sequence.len() - i,
                {
                    proof {
                        lemma_rules_fit(sequence@, self.extent, sequence@.len(), i as nat + 1);
                        assert(decreases_to!(*rule => rule->sequence));
                        assert(decreases_to!(*rule => sequence@[i as int]));
                    }
                    let next = self.transpile_rule(&sequence[i]);
                    code = join(code, next);
                    i += 1;
                }
                code
            },
            SurfaceRuleJson::Condition { if_true, then_run } => {
                // The condition is lowered first even when it folds, so that a
                // pass still registers the ids its live siblings share. Every
                // surface condition is a pure function of position and
                // per-column values, so dropping one changes nothing but the
                // work done.
                match self.transpile_condition(if_true) {
                    Cond::Known(known) => if known {
                        self.transpile_rule(then_run)
                    } else {
                        SurfaceCode::Empty
                    },
                    Cond::Expr(cond) => {
                        let body = self.transpile_rule(then_run);
                        if let SurfaceCode::Empty = body {
                            SurfaceCode::Empty
                        } else {
                            SurfaceCode::If { cond, body: Box::new(body) }
                        }
                    },
                }
            },
            SurfaceRuleJson::Bandlands {  } => SurfaceCode::ReturnBand,
        }
    }
}

/// Nothing collected yet.
pub open spec fn fresh_state(uses_preliminary_surface: bool) -> PassState {
    PassState {
        noise_ids: Seq::empty(),
        gradient_ids: Seq::empty(),
        block_state_names: Seq::empty(),
        biome_idents: Seq::empty(),
        uses_biome: false,
        uses_preliminary_surface,
        uses_surface_secondary: false,
        uses_steep: false,
        stone_depth_below_bound: Some(0),
        referenced_biomes: Seq::empty(),
    }
}

proof fn lemma_rules_fit(rules: Seq<SurfaceRuleJson>, extent: Extent, n: nat, k: nat)
    requires
        rules_fit(rules, extent, n),
        k <= n <= rules.len(),
    ensures
        rules_fit(rules, extent, k),
    decreases n - k,
{
    if k < n {
        lemma_rules_fit(rules, extent, (n - 1) as nat, k);
    }
}

/// `larger` is `table` with entries appended.
pub open spec fn appended(table: Seq<Seq<char>>, larger: Seq<Seq<char>>) -> bool {
    table.len() <= larger.len() && larger.subrange(0, table.len() as int) == table
}

pub proof fn lemma_slot_appended(table: Seq<Seq<char>>, larger: Seq<Seq<char>>, name: Seq<char>)
    requires
        appended(table, larger),
        table.contains(name),
        larger.len() <= usize::MAX,
    ensures
        slot(larger, name) == slot(table, name),
        0 <= slot(table, name) < table.len(),
        table[slot(table, name) as int] == name,
{
    let i = lemma_first(table, name);
    lemma_slot(table, name, i);
    assert forall|j: int| 0 <= j < table.len() implies table[j] == larger[j] by {
        assert(larger.subrange(0, table.len() as int)[j] == larger[j]);
    }
    assert(first_at(larger, name, i));
    lemma_slot(larger, name, i);
}

/// A contained name has a first place.
pub proof fn lemma_first(table: Seq<Seq<char>>, name: Seq<char>) -> (i: int)
    requires
        table.contains(name),
    ensures
        first_at(table, name, i),
    decreases table.len(),
{
    let k = choose|k: int| 0 <= k < table.len() && table[k] == name;
    if forall|j: int| 0 <= j < k ==> table[j] != name {
        k
    } else {
        let shorter = table.subrange(0, k);
        let j = choose|j: int| 0 <= j < k && table[j] == name;
        assert(shorter[j] == name);
        let i = lemma_first(shorter, name);
        assert forall|m: int| 0 <= m < i implies table[m] != name by {
            assert(shorter[m] == table[m]);
        }
        assert(shorter[i] == table[i]);
        i
    }
}

/// A name that is added at the end has its first place there.
pub proof fn lemma_first_after(table: Seq<Seq<char>>, name: Seq<char>) -> (i: int)
    requires
        !table.contains(name),
    ensures
        i == table.len(),
        first_at(table.push(name), name, i),
{
    let after = table.push(name);
    assert forall|j: int| 0 <= j < table.len() implies after[j] != name by {
        assert(after[j] == table[j]);
    }
    table.len() as int
}

pub proof fn lemma_interned_all(table: Seq<Seq<char>>, names: Seq<Seq<char>>, n: nat)
    requires
        n <= names.len(),
    ensures
        appended(table, interned_all(table, names, n)),
        forall|i: int| 0 <= i < n ==> #[trigger] interned_all(table, names, n).contains(names[i]),
    decreases n,
{
    if n > 0 {
        let m = (n - 1) as nat;
        lemma_interned_all(table, names, m);
        let before = interned_all(table, names, m);
        let after = interned_all(table, names, n);
        assert(after.subrange(0, table.len() as int) == before.subrange(0, table.len() as int));
        assert(after.contains(names[m as int])) by {
            if !before.contains(names[m as int]) {
                assert(after[before.len() as int] == names[m as int]);
            }
        }
        assert forall|i: int| 0 <= i < n implies #[trigger] after.contains(names[i]) by {
            if i < m {
                assert(before.contains(names[i]));
                let k = choose|k: int| 0 <= k < before.len() && before[k] == names[i];
                assert(after[k] == names[i]);
            }
        }
    } else {
        assert(table.subrange(0, table.len() as int) == table);
    }
}

proof fn lemma_biome_check_extends(
    idents: Seq<Seq<char>>,
    larger: Seq<Seq<char>>,
    names: Seq<Seq<char>>,
    n: nat,
    start: Seq<Seq<char>>,
)
    requires
        n <= names.len(),
        appended(idents, larger),
        larger.len() <= usize::MAX,
        idents == interned_all(start, biome_idents_of(names), n),
    ensures
        biome_check(larger, names, n) == biome_check(idents, names, n),
{
    lemma_interned_all(start, biome_idents_of(names), n);
    assert forall|i: int| 0 <= i < n implies #[trigger] idents.contains(biome_ident(names[i])) by {
        assert(idents.contains(biome_idents_of(names)[i]));
    }
    lemma_check_same(idents, larger, names, n);
}

proof fn lemma_check_same(
    idents: Seq<Seq<char>>,
    larger: Seq<Seq<char>>,
    names: Seq<Seq<char>>,
    n: nat,
)
    requires
        n <= names.len(),
        appended(idents, larger),
        larger.len() <= usize::MAX,
        forall|i: int| 0 <= i < n ==> #[trigger] idents.contains(biome_ident(names[i])),
    ensures
        biome_check(larger, names, n) == biome_check(idents, names, n),
    decreases n,
{
    if n > 0 {
        lemma_slot_appended(idents, larger, biome_ident(names[n - 1]));
        lemma_check_same(idents, larger, names, (n - 1) as nat);
    }
}

impl SurfaceRuleTranspiler {
    /// Evaluates a condition against the current facts without emitting code.
    ///
    /// Agrees with the folding `transpile_condition` does on which branches are
    /// dead.
    pub fn const_condition(&self, cond: &SurfaceConditionJson) -> (r: Option<bool>)
        ensures
            r == decided(*cond, self.facts@),
        decreases *cond,
    {
        match cond {
            SurfaceConditionJson::AbovePreliminarySurface {  } =>
                self.facts.above_preliminary_surface,
            SurfaceConditionJson::BiomeIs { biome_is } => if self.names_only_absent(biome_is) {
                Some(false)
            } else {
                None
            },
            SurfaceConditionJson::Not { invert } => match self.const_condition(invert) {
                Some(known) => Some(!known),
                None => None,
            },
            _ => None,
        }
    }

    /// The `block_y` at and above which `cond` is always false, if it has one.
    pub fn condition_false_at_and_above(&self, cond: &SurfaceConditionJson) -> (r: Option<i32>)
        requires
            condition_fits(*cond, self.extent),
        ensures
            r == false_at_and_above(*cond, self.extent),
    {
        match cond {
            SurfaceConditionJson::VerticalGradient {
                random_name: _,
                true_at_and_below: _,
                false_at_and_above,
            } => Some(self.resolve_anchor(false_at_and_above)),
            _ => None,
        }
    }

    /// The `block_y` at and above which `rule` never returns a block.
    ///
    /// `None` when no such bound can be proven, which is the answer for any rule
    /// that can write at an unbounded height. The bound lets the caller skip the
    /// rule outright over a whole span of a column rather than calling it once
    /// per block to be told `None`.
    pub fn write_ceiling(&self, rule: &SurfaceRuleJson) -> (r: Option<i32>)
        requires
            rule_fits(*rule, self.extent),
        ensures
            r == ceiling_of(*rule, self.facts@, self.extent),
        decreases *rule,
    {
        match rule {
            SurfaceRuleJson::Block { result_state: _ } => None,
            SurfaceRuleJson::Bandlands {  } => None,
            SurfaceRuleJson::Sequence { sequence } => {
                let mut highest: i32 = i32::MIN;
                let mut i: usize = 0;
                while i < sequence.len()
                    invariant
                        i <= sequence.len(),
                        *rule == (SurfaceRuleJson::Sequence { sequence: *sequence }),
                        rules_fit(sequence@, self.extent, sequence@.len()),
                        ceiling_of_all(sequence@, self.facts@, self.extent, i as nat) == Some(
                            highest,
                        ),
                    decreases sequence.len() - i,
                {
                    proof {
                        lemma_rules_fit(sequence@, self.extent, sequence@.len(), i as nat + 1);
                        assert(decreases_to!(*rule => rule->sequence));
                        assert(decreases_to!(*rule => sequence@[i as int]));
                    }
                    match self.write_ceiling(&sequence[i]) {
                        Some(inner) => {
                            if inner > highest {
                                highest = inner;
                            }
                        },
                        None => {
                            proof {
                                lemma_no_ceiling(
                                    sequence@,
                                    self.facts@,
                                    self.extent,
                                    i as nat + 1,
                                    sequence@.len(),
                                );
                            }
                            return None;
                        },
                    }
                    i += 1;
                }
                Some(highest)
            },
            SurfaceRuleJson::Condition { if_true, then_run } => {
                if let Some(known) = self.const_condition(if_true) {
                    if !known {
                        // Dead branch: it writes nowhere, so it bounds nothing.
                        return Some(i32::MIN);
                    }
                }
                let body = self.write_ceiling(then_run);
                match self.condition_false_at_and_above(if_true) {
                    Some(bound) => match body {
                        Some(inner) => Some(if inner <= bound { inner } else { bound }),
                        None => Some(bound),
                    },
                    None => body,
                }
            },
        }
    }
}

/// The level from which a condition's own shape makes it false.
pub open spec fn false_at_and_above(cond: SurfaceConditionJson, extent: Extent) -> Option<i32> {
    match cond {
        SurfaceConditionJson::VerticalGradient {
            random_name,
            true_at_and_below,
            false_at_and_above,
        } => Some(anchor_y(false_at_and_above, extent) as i32),
        _ => None,
    }
}

/// The level from which a rule writes nothing: a dead branch writes nowhere, a
/// gradient caps what it guards, a sequence is as high as its highest member.
pub open spec fn ceiling_of(rule: SurfaceRuleJson, facts: Facts, extent: Extent) -> Option<i32>
    decreases rule, 0nat,
{
    match rule {
        SurfaceRuleJson::Block { result_state } => None,
        SurfaceRuleJson::Bandlands {  } => None,
        SurfaceRuleJson::Sequence { sequence } => ceiling_of_all(
            sequence@,
            facts,
            extent,
            sequence@.len(),
        ),
        SurfaceRuleJson::Condition { if_true, then_run } => if decided(if_true, facts) == Some(
            false,
        ) {
            Some(i32::MIN)
        } else {
            match (ceiling_of(*then_run, facts, extent), false_at_and_above(if_true, extent)) {
                (Some(body), Some(bound)) => Some(if body <= bound { body } else { bound }),
                (None, Some(bound)) => Some(bound),
                (body, None) => body,
            }
        },
    }
}

/// The highest ceiling among the first `n` rules; none if one of them has none.
pub open spec fn ceiling_of_all(
    rules: Seq<SurfaceRuleJson>,
    facts: Facts,
    extent: Extent,
    n: nat,
) -> Option<i32>
    decreases rules, n,
{
    if n == 0 || n > rules.len() {
        Some(i32::MIN)
    } else {
        match (
            ceiling_of_all(rules, facts, extent, (n - 1) as nat),
            ceiling_of(rules[n - 1], facts, extent),
        ) {
            (Some(seen), Some(inner)) => Some(if inner > seen { inner } else { seen }),
            _ => None,
        }
    }
}

proof fn lemma_no_ceiling(
    rules: Seq<SurfaceRuleJson>,
    facts: Facts,
    extent: Extent,
    k: nat,
    n: nat,
)
    requires
        ceiling_of_all(rules, facts, extent, k) is None,
        k <= n <= rules.len(),
    ensures
        ceiling_of_all(rules, facts, extent, n) is None,
    decreases n,
{
    if k < n {
        lemma_no_ceiling(rules, facts, extent, k, (n - 1) as nat);
    }
}

/// A condition tests the preliminary surface.
pub open spec fn condition_names_preliminary(cond: SurfaceConditionJson) -> bool
    decreases cond,
{
    match cond {
        SurfaceConditionJson::AbovePreliminarySurface {  } => true,
        SurfaceConditionJson::Not { invert } => condition_names_preliminary(*invert),
        _ => false,
    }
}

/// Some condition of a rule tests the preliminary surface.
pub open spec fn rule_names_preliminary(rule: SurfaceRuleJson) -> bool
    decreases rule, 0nat,
{
    match rule {
        SurfaceRuleJson::Sequence { sequence } => rules_name_preliminary(
            sequence@,
            sequence@.len(),
        ),
        SurfaceRuleJson::Condition { if_true, then_run } => condition_names_preliminary(if_true)
            || rule_names_preliminary(*then_run),
        _ => false,
    }
}

/// Some condition of the first `n` rules tests the preliminary surface.
pub open spec fn rules_name_preliminary(rules: Seq<SurfaceRuleJson>, n: nat) -> bool
    decreases rules, n,
{
    if n == 0 || n > rules.len() {
        false
    } else {
        rules_name_preliminary(rules, (n - 1) as nat) || rule_names_preliminary(rules[n - 1])
    }
}

proof fn lemma_rules_name_preliminary(rules: Seq<SurfaceRuleJson>, k: nat, n: nat)
    requires
        rules_name_preliminary(rules, k),
        k <= n <= rules.len(),
    ensures
        rules_name_preliminary(rules, n),
    decreases n,
{
    if k < n {
        lemma_rules_name_preliminary(rules, k, (n - 1) as nat);
    }
}

pub fn rule_uses_preliminary_surface(rule: &SurfaceRuleJson) -> (r: bool)
    ensures
        r == rule_names_preliminary(*rule),
    decreases *rule,
{
    match rule {
        SurfaceRuleJson::Block { result_state: _ } => false,
        SurfaceRuleJson::Bandlands {  } => false,
        SurfaceRuleJson::Sequence { sequence } => {
            let mut i: usize = 0;
            while i < sequence.len()
                invariant
                    i <= sequence.len(),
                    *rule == (SurfaceRuleJson::Sequence { sequence: *sequence }),
                    !rules_name_preliminary(sequence@, i as nat),
                decreases sequence.len() - i,
            {
                proof {
                    assert(decreases_to!(*rule => rule->sequence));
                    assert(decreases_to!(*rule => sequence@[i as int]));
                }
                if rule_uses_preliminary_surface(&sequence[i]) {
                    proof {
                        assert(rules_name_preliminary(sequence@, i as nat + 1));
                        lemma_rules_name_preliminary(sequence@, i as nat + 1, sequence@.len());
                    }
                    return true;
                }
                i += 1;
            }
            false
        },
        SurfaceRuleJson::Condition { if_true, then_run } => condition_uses_preliminary_surface(
            if_true,
        ) || rule_uses_preliminary_surface(then_run),
    }
}

pub fn condition_uses_preliminary_surface(condition: &SurfaceConditionJson) -> (r: bool)
    ensures
        r == condition_names_preliminary(*condition),
    decreases *condition,
{
    match condition {
        SurfaceConditionJson::AbovePreliminarySurface {  } => true,
        SurfaceConditionJson::Not { invert } => condition_uses_preliminary_surface(invert),
        _ => false,
    }
}

// ---------------------------------------------------------------------------
// Whole functions
// ---------------------------------------------------------------------------
/// The generated bodies of one dimension's surface rule.
pub struct SurfaceFunctions {
    /// Body of the rule at any position.
    pub body: SurfaceCode,
    /// Body of the copy for below the preliminary surface, if there is one.
    pub deep_body: Option<SurfaceCode>,
}

/// Everything the density-function generator needs from one dimension's surface rule.
pub struct SurfaceRuleFunctionArtifacts {
    /// The bodies of the generated functions.
    pub functions: SurfaceFunctions,
    pub noise_ids: Vec<String>,
    pub gradient_ids: Vec<String>,
    pub block_state_names: Vec<String>,
    /// Identifiers of the biome constants the bodies compare with.
    pub biome_idents: Vec<String>,
    pub uses_biome: bool,
    pub uses_preliminary_surface: bool,
    pub uses_surface_secondary: bool,
    pub uses_steep: bool,
    /// Largest `stone_depth_below` any condition distinguishes, or `None` when
    /// the rule needs the exact depth. See the transpiler field of the same name.
    pub stone_depth_below_bound: Option<i32>,
    /// The deep-band specialization, absent when the rule does not admit one.
    pub deep_band: Option<DeepBandArtifacts>,
}

/// A copy of the surface rule specialized to below the preliminary surface.
///
/// Below that level the rule is a much smaller function: everything guarded by
/// `above_preliminary_surface` is gone, and so is everything that only fires in
/// a biome the caller has proven cannot occur nearby.
pub struct DeepBandArtifacts {
    /// Biomes the caller must prove absent before using the specialization.
    pub required_absent_biomes: Vec<String>,
    /// `block_y` at and above which the specialization never writes, so the
    /// caller can skip it over that whole span instead of calling it per block.
    pub write_ceiling: i32,
}

/// The deep-band copy as mathematical values.
pub struct DeepBand {
    pub required_absent: Seq<Seq<char>>,
    pub ceiling: i32,
    pub code: SurfaceCode,
}

/// Below the preliminary surface, with the given biomes absent.
pub open spec fn deep_facts(absent: Seq<Seq<char>>) -> Facts {
    Facts { above: Some(false), absent }
}

/// The first deep pass: which biomes the rule still tests once it is known to
/// be below the preliminary surface.
pub open spec fn deep_survey(st: PassState, extent: Extent, rule: SurfaceRuleJson) -> PassState {
    emit_rule(
        PassState { referenced_biomes: Seq::empty(), ..st },
        deep_facts(Seq::empty()),
        extent,
        rule,
    ).0
}

/// The second deep pass, which also assumes those biomes absent.
pub open spec fn deep_emit(st: PassState, extent: Extent, rule: SurfaceRuleJson) -> (
    PassState,
    SurfaceCode,
) {
    let survey = deep_survey(st, extent, rule);
    emit_rule(
        PassState { referenced_biomes: Seq::empty(), ..survey },
        deep_facts(survey.referenced_biomes),
        extent,
        rule,
    )
}

/// The expression reads the downward scan's running state: stone depth or water
/// height, rather than position and per-column values alone.
pub open spec fn int_reads_scan(code: IntCode) -> bool
    decreases code,
{
    match code {
        IntCode::Field(field) => field == ContextField::StoneDepthAbove || field
            == ContextField::StoneDepthBelow || field == ContextField::WaterHeight,
        IntCode::Plus(a, b) => int_reads_scan(*a) || int_reads_scan(*b),
        IntCode::Times(a, b) => int_reads_scan(*a) || int_reads_scan(*b),
        _ => false,
    }
}

/// The condition reads the downward scan's running state.
pub open spec fn bool_reads_scan(code: BoolCode) -> bool
    decreases code,
{
    match code {
        BoolCode::AtMost(a, b) => int_reads_scan(a) || int_reads_scan(b),
        BoolCode::AtLeast(a, b) => int_reads_scan(a) || int_reads_scan(b),
        BoolCode::Equal(a, b) => int_reads_scan(a) || int_reads_scan(b),
        BoolCode::Or(a, b) => bool_reads_scan(*a) || bool_reads_scan(*b),
        BoolCode::Not(a) => bool_reads_scan(*a),
        BoolCode::InBiome { resolve, check } => bool_reads_scan(*check),
        _ => false,
    }
}

/// The program reads the downward scan's running state.
pub open spec fn code_reads_scan(code: SurfaceCode) -> bool
    decreases code,
{
    match code {
        SurfaceCode::If { cond, body } => bool_reads_scan(cond) || code_reads_scan(*body),
        SurfaceCode::Then(first, second) => code_reads_scan(*first) || code_reads_scan(*second),
        _ => false,
    }
}

fn number_reads_scan(code: &IntCode) -> (r: bool)
    ensures
        r == int_reads_scan(*code),
    decreases *code,
{
    match code {
        IntCode::Field(field) => *field == ContextField::StoneDepthAbove || *field
            == ContextField::StoneDepthBelow || *field == ContextField::WaterHeight,
        IntCode::Plus(a, b) => number_reads_scan(a) || number_reads_scan(b),
        IntCode::Times(a, b) => number_reads_scan(a) || number_reads_scan(b),
        _ => false,
    }
}

fn condition_reads_scan(code: &BoolCode) -> (r: bool)
    ensures
        r == bool_reads_scan(*code),
    decreases *code,
{
    match code {
        BoolCode::AtMost(a, b) => number_reads_scan(a) || number_reads_scan(b),
        BoolCode::AtLeast(a, b) => number_reads_scan(a) || number_reads_scan(b),
        BoolCode::Equal(a, b) => number_reads_scan(a) || number_reads_scan(b),
        BoolCode::Or(a, b) => condition_reads_scan(a) || condition_reads_scan(b),
        BoolCode::Not(a) => condition_reads_scan(a),
        BoolCode::InBiome { resolve: _, check } => condition_reads_scan(check),
        _ => false,
    }
}

/// Whether a program reads the downward scan's running state.
pub fn reads_scan_state(code: &SurfaceCode) -> (r: bool)
    ensures
        r == code_reads_scan(*code),
    decreases *code,
{
    match code {
        SurfaceCode::If { cond, body } => condition_reads_scan(cond) || reads_scan_state(body),
        SurfaceCode::Then(first, second) => reads_scan_state(first) || reads_scan_state(second),
        _ => false,
    }
}

/// The deep-band copy of a rule, if one is worth having: it must read nothing
/// of the downward scan's running state, and must have a write ceiling.
pub open spec fn deep_band_of(st: PassState, extent: Extent, rule: SurfaceRuleJson) -> Option<
    DeepBand,
> {
    let required = deep_survey(st, extent, rule).referenced_biomes;
    let code = deep_emit(st, extent, rule).1;
    match ceiling_of(rule, deep_facts(required), extent) {
        Some(ceiling) => if code_reads_scan(code) {
            None
        } else {
            Some(DeepBand { required_absent: required, ceiling, code })
        },
        None => None,
    }
}

/// The transpiler's state after both deep passes.
pub open spec fn deep_state(st: PassState, extent: Extent, rule: SurfaceRuleJson) -> PassState {
    PassState {
        referenced_biomes: Seq::empty(),
        ..deep_emit(st, extent, rule).0
    }
}

fn copy_names(names: &Vec<String>) -> (r: Vec<String>)
    ensures
        text::texts(r@) == text::texts(names@),
{
    let mut out: Vec<String> = Vec::with_capacity(names.len());
    let mut i: usize = 0;
    while i < names.len()
        invariant
            i <= names.len(),
            out.len() == i,
            forall|j: int| 0 <= j < i ==> out@[j]@ == names@[j]@,
        decreases names.len() - i,
    {
        out.push(names[i].clone());
        i += 1;
    }
    out
}

/// Emits the below-preliminary-surface copy of `rule`, if one is worth having.
///
/// Two passes. The first establishes only that `above_preliminary_surface` is
/// false and records which biomes the surviving conditions still test; the
/// second additionally assumes those biomes absent, which is what collapses the
/// rule. Returns `None` when the result would still read the downward scan's
/// running state, or when no height bound can be proven: in both cases the
/// caller is better off with the full rule.
pub fn generate_deep_band(transpiler: &mut SurfaceRuleTranspiler, rule: &SurfaceRuleJson) -> (r:
    Option<(DeepBandArtifacts, SurfaceCode)>)
    requires
        rule_fits(*rule, old(transpiler).extent),
    ensures
        match r {
            Some((band, code)) => {
                &&& deep_band_of(old(transpiler)@, old(transpiler).extent, *rule) == Some(
                    DeepBand {
                        required_absent: text::texts(band.required_absent_biomes@),
                        ceiling: band.write_ceiling,
                        code,
                    },
                )
            },
            None => deep_band_of(old(transpiler)@, old(transpiler).extent, *rule) is None,
        },
        final(transpiler)@ == deep_state(old(transpiler)@, old(transpiler).extent, *rule),
        final(transpiler).facts@ == no_facts(),
        final(transpiler).extent == old(transpiler).extent,
{
    let ghost start = transpiler@;
    let ghost extent = transpiler.extent;
    transpiler.facts =
    SurfaceRuleFacts { above_preliminary_surface: Some(false), absent_biomes: Vec::new() };
    transpiler.referenced_biomes.clear();
    assert(transpiler@ == (PassState { referenced_biomes: Seq::empty(), ..start }));
    assert(transpiler.facts@ == deep_facts(Seq::empty()));
    let _ = transpiler.transpile_rule(rule);
    let ghost survey = deep_survey(start, extent, *rule);
    assert(transpiler@ == survey);
    let required = copy_names(&transpiler.referenced_biomes);

    transpiler.facts =
    SurfaceRuleFacts {
        above_preliminary_surface: Some(false),
        absent_biomes: copy_names(&required),
    };
    transpiler.referenced_biomes.clear();
    assert(transpiler@ == (PassState { referenced_biomes: Seq::empty(), ..survey }));
    let body = transpiler.transpile_rule(rule);
    let ceiling = transpiler.write_ceiling(rule);
    transpiler.facts = SurfaceRuleFacts::default();
    transpiler.referenced_biomes.clear();
    assert(transpiler@ == deep_state(start, extent, *rule));

    if reads_scan_state(&body) {
        return None;
    }
    match ceiling {
        Some(write_ceiling) => Some(
            (DeepBandArtifacts { required_absent_biomes: required, write_ceiling }, body),
        ),
        None => None,
    }
}

/// The state and body of the pass over the whole rule.
pub open spec fn full_pass(rule: SurfaceRuleJson, extent: Extent) -> (PassState, SurfaceCode) {
    emit_rule(fresh_state(rule_names_preliminary(rule)), no_facts(), extent, rule)
}

/// What a generated function's artifacts hold besides its bodies.
pub open spec fn collected(artifacts: SurfaceRuleFunctionArtifacts, st: PassState) -> bool {
    &&& text::texts(artifacts.noise_ids@) == st.noise_ids
    &&& text::texts(artifacts.gradient_ids@) == st.gradient_ids
    &&& text::texts(artifacts.block_state_names@) == st.block_state_names
    &&& text::texts(artifacts.biome_idents@) == st.biome_idents
    &&& artifacts.uses_biome == st.uses_biome
    &&& artifacts.uses_preliminary_surface == st.uses_preliminary_surface
    &&& artifacts.uses_surface_secondary == st.uses_surface_secondary
    &&& artifacts.uses_steep == st.uses_steep
    &&& artifacts.stone_depth_below_bound == st.stone_depth_below_bound
}

/// Lowers a dimension's surface rule, with its deep-band copy where the rule
/// tests the preliminary surface and admits one.
pub fn generate_surface_rule_function(rule: &SurfaceRuleJson, min_y: i32, height: i32) -> (r:
    SurfaceRuleFunctionArtifacts)
    requires
        rule_fits(*rule, (Extent { min_y, height })),
    ensures
        ({
            let extent = Extent { min_y, height };
            let (st, body) = full_pass(*rule, extent);
            &&& r.functions.body == body
            &&& if rule_names_preliminary(*rule) {
                &&& collected(r, deep_state(st, extent, *rule))
                &&& match deep_band_of(st, extent, *rule) {
                    Some(band) => {
                        &&& r.functions.deep_body == Some(band.code)
                        &&& r.deep_band is Some
                        &&& text::texts(r.deep_band->0.required_absent_biomes@)
                            == band.required_absent
                        &&& r.deep_band->0.write_ceiling == band.ceiling
                    },
                    None => r.functions.deep_body is None && r.deep_band is None,
                }
            } else {
                collected(r, st) && r.functions.deep_body is None && r.deep_band is None
            }
        }),
{
    let uses_preliminary_surface = rule_uses_preliminary_surface(rule);
    let mut transpiler = SurfaceRuleTranspiler::new(min_y, height, uses_preliminary_surface);
    let body = transpiler.transpile_rule(rule);

    // The deep-band copy is emitted second so that it can only reuse ids the
    // full rule already registered; folding conditions away never introduces a
    // new noise, gradient or block state.
    let deep = if uses_preliminary_surface {
        generate_deep_band(&mut transpiler, rule)
    } else {
        None
    };
    let (deep_band, deep_body) = match deep {
        Some((band, code)) => (Some(band), Some(code)),
        None => (None, None),
    };
    SurfaceRuleFunctionArtifacts {
        functions: SurfaceFunctions { body, deep_body },
        noise_ids: transpiler.noise_ids,
        gradient_ids: transpiler.gradient_ids,
        block_state_names: transpiler.block_state_names,
        biome_idents: transpiler.biome_idents,
        uses_biome: transpiler.uses_biome,
        uses_preliminary_surface: transpiler.uses_preliminary_surface,
        uses_surface_secondary: transpiler.uses_surface_secondary,
        uses_steep: transpiler.uses_steep,
        stone_depth_below_bound: transpiler.stone_depth_below_bound,
        deep_band,
    }
}

} // verus!
