//! Climate parameters, points and targets.

use vstd::prelude::*;

verus! {

/// Dimensions of the climate space: six climate parameters and the offset.
pub const PARAMETER_COUNT: usize = 7;

/// An inclusive range of quantized climate values.
#[derive(Clone, Copy, Debug, PartialEq, Eq, Structural)]
pub struct Parameter {
    pub min: i64,
    pub max: i64,
}

/// The smallest range around two.
pub open spec fn spanned(a: Parameter, b: Parameter) -> Parameter {
    Parameter {
        min: if a.min <= b.min { a.min } else { b.min },
        max: if a.max >= b.max { a.max } else { b.max },
    }
}

impl Parameter {
    pub fn new(min: i64, max: i64) -> (r: Self)
        ensures
            r == (Parameter { min, max }),
    {
        Parameter { min, max }
    }

    /// The range around this one and `other`, if there is one.
    pub fn span_with(&self, other: Option<&Parameter>) -> (r: Parameter)
        ensures
            r == match other {
                Some(o) => spanned(*self, *o),
                None => *self,
            },
    {
        match other {
            Some(o) => Parameter {
                min: if self.min <= o.min {
                    self.min
                } else {
                    o.min
                },
                max: if self.max >= o.max {
                    self.max
                } else {
                    o.max
                },
            },
            None => *self,
        }
    }
}

/// A biome's place in the climate space.
#[derive(Clone, Copy, Debug, PartialEq, Eq, Structural)]
pub struct ParameterPoint {
    pub temperature: Parameter,
    pub humidity: Parameter,
    pub continentalness: Parameter,
    pub erosion: Parameter,
    pub depth: Parameter,
    pub weirdness: Parameter,
    pub offset: i64,
}

impl ParameterPoint {
    /// The seven ranges of the point; the offset is a range of one value.
    pub open spec fn space(self) -> Seq<Parameter> {
        seq![
            self.temperature,
            self.humidity,
            self.continentalness,
            self.erosion,
            self.depth,
            self.weirdness,
            Parameter { min: self.offset, max: self.offset },
        ]
    }

    pub fn new(
        temperature: Parameter,
        humidity: Parameter,
        continentalness: Parameter,
        erosion: Parameter,
        depth: Parameter,
        weirdness: Parameter,
        offset: i64,
    ) -> (r: Self)
        ensures
            r == (ParameterPoint {
                temperature,
                humidity,
                continentalness,
                erosion,
                depth,
                weirdness,
                offset,
            }),
    {
        ParameterPoint {
            temperature,
            humidity,
            continentalness,
            erosion,
            depth,
            weirdness,
            offset,
        }
    }

    pub fn parameter_space(&self) -> (r: [Parameter; 7])
        ensures
            r@ == self.space(),
    {
        let r = [
            self.temperature,
            self.humidity,
            self.continentalness,
            self.erosion,
            self.depth,
            self.weirdness,
            Parameter { min: self.offset, max: self.offset },
        ];
        assert(r@ == self.space());
        r
    }
}

/// A sampled climate to look a biome up for.
#[derive(Clone, Copy, Debug, PartialEq, Eq, Structural)]
pub struct TargetPoint {
    pub temperature: i64,
    pub humidity: i64,
    pub continentalness: i64,
    pub erosion: i64,
    pub depth: i64,
    pub weirdness: i64,
}

impl TargetPoint {
    /// The seven coordinates of the target; its offset is zero.
    pub open spec fn coordinates(self) -> Seq<i64> {
        seq![
            self.temperature,
            self.humidity,
            self.continentalness,
            self.erosion,
            self.depth,
            self.weirdness,
            0i64,
        ]
    }

    pub fn new(
        temperature: i64,
        humidity: i64,
        continentalness: i64,
        erosion: i64,
        depth: i64,
        weirdness: i64,
    ) -> (r: Self)
        ensures
            r == (TargetPoint {
                temperature,
                humidity,
                continentalness,
                erosion,
                depth,
                weirdness,
            }),
    {
        TargetPoint { temperature, humidity, continentalness, erosion, depth, weirdness }
    }

    pub fn to_parameter_array(&self) -> (r: [i64; 7])
        ensures
            r@ == self.coordinates(),
    {
        let r = [
            self.temperature,
            self.humidity,
            self.continentalness,
            self.erosion,
            self.depth,
            self.weirdness,
            0i64,
        ];
        assert(r@ == self.coordinates());
        r
    }
}

} // verus!
