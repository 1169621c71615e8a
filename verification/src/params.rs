//! The configuration of a simulation.

use vstd::prelude::*;
use crate::fixed::{clamp, clamp_spec, LIMIT, ONE};

verus! {

/// The coefficients of the force model and of the integrator.
///
/// All numbers are fixed-point numbers. One record applies to every node
/// and edge of a graph.
#[derive(Debug, PartialEq, Eq, Structural, Clone, Copy)]
pub struct Parameters {
    /// Rest separation of two nodes; the force bands are measured against it.
    pub ideal_distance: i64,
    /// Separation below which two nodes count as coincident.
    pub really_close_distance: i64,
    /// Scale of the velocity that an accumulated acceleration gives.
    pub spring_factor: i64,
    /// Factor applied to the impulse that frees a node from a crossing.
    pub escape_intersection_factor: i64,
    /// Exponent of the distance in the force law, between zero and one.
    pub distance_factor: i64,
    /// Bound on the magnitude of each accumulated force component.
    pub force_max: i64,
    /// Factor applied to every velocity in every step, above zero, at most one.
    pub damping_factor: i64,
    /// Whether the force between two nodes depends on their being
    /// neighbours and on the band their distance lies in. Where it does
    /// not, every pair repels by the inverse square of the distance and
    /// neighbours attract like a spring.
    pub neighbor_aware: bool,
    /// Strength of the inverse-square repulsion.
    pub repulsion_coefficient: i64,
    /// Strength of the spring between neighbours.
    pub attraction_coefficient: i64,
}

impl Parameters {
    /// Whether every field lies in the range that the engine works with.
    pub open spec fn is_valid(self) -> bool {
        &&& 1 <= self.ideal_distance <= LIMIT
        &&& 1 <= self.really_close_distance <= LIMIT
        &&& 0 <= self.spring_factor <= LIMIT
        &&& 0 <= self.escape_intersection_factor <= LIMIT
        &&& 0 <= self.distance_factor <= ONE
        &&& 0 <= self.force_max <= LIMIT
        &&& 1 <= self.damping_factor <= ONE
        &&& 0 <= self.repulsion_coefficient <= LIMIT
        &&& 0 <= self.attraction_coefficient <= LIMIT
    }

    /// The record with each field brought into its valid range.
    pub open spec fn normalized_spec(self) -> Parameters {
        Parameters {
            ideal_distance: clamp_spec(self.ideal_distance as int, 1, LIMIT as int) as i64,
            really_close_distance: clamp_spec(
                self.really_close_distance as int,
                1,
                LIMIT as int,
            ) as i64,
            spring_factor: clamp_spec(self.spring_factor as int, 0, LIMIT as int) as i64,
            escape_intersection_factor: clamp_spec(
                self.escape_intersection_factor as int,
                0,
                LIMIT as int,
            ) as i64,
            distance_factor: clamp_spec(self.distance_factor as int, 0, ONE as int) as i64,
            force_max: clamp_spec(self.force_max as int, 0, LIMIT as int) as i64,
            damping_factor: clamp_spec(self.damping_factor as int, 1, ONE as int) as i64,
            neighbor_aware: self.neighbor_aware,
            repulsion_coefficient: clamp_spec(
                self.repulsion_coefficient as int,
                0,
                LIMIT as int,
            ) as i64,
            attraction_coefficient: clamp_spec(
                self.attraction_coefficient as int,
                0,
                LIMIT as int,
            ) as i64,
        }
    }

    /// The documented defaults: an ideal distance of 45, a coincidence
    /// distance of one tenth, a speed scale of 10000, an escape factor of
    /// 100, an exponent of three tenths, a force bound of 1000, a damping
    /// of one half, forces that depend on neighbourhood, a repulsion of
    /// 1000 and a spring of one half.
    pub open spec fn default_spec() -> Parameters {
        Parameters {
            ideal_distance: 2949120,
            really_close_distance: 6554,
            spring_factor: 655360000,
            escape_intersection_factor: 6553600,
            distance_factor: 19661,
            force_max: 65536000,
            damping_factor: 32768,
            neighbor_aware: true,
            repulsion_coefficient: 65536000,
            attraction_coefficient: 32768,
        }
    }

    /// Brings each field into its valid range; a valid record is unchanged.
    pub fn normalized(self) -> (r: Parameters)
        ensures
            r == self.normalized_spec(),
            r.is_valid(),
            self.is_valid() ==> r == self,
    {
        Parameters {
            ideal_distance: clamp(self.ideal_distance, 1, LIMIT),
            really_close_distance: clamp(self.really_close_distance, 1, LIMIT),
            spring_factor: clamp(self.spring_factor, 0, LIMIT),
            escape_intersection_factor: clamp(self.escape_intersection_factor, 0, LIMIT),
            distance_factor: clamp(self.distance_factor, 0, ONE),
            force_max: clamp(self.force_max, 0, LIMIT),
            damping_factor: clamp(self.damping_factor, 1, ONE),
            neighbor_aware: self.neighbor_aware,
            repulsion_coefficient: clamp(self.repulsion_coefficient, 0, LIMIT),
            attraction_coefficient: clamp(self.attraction_coefficient, 0, LIMIT),
        }
    }

    /// Whether the record is valid, computed.
    pub fn check(&self) -> (ok: bool)
        ensures
            ok == self.is_valid(),
    {
        1 <= self.ideal_distance && self.ideal_distance <= LIMIT && 1 <= self.really_close_distance
            && self.really_close_distance <= LIMIT && 0 <= self.spring_factor && self.spring_factor
            <= LIMIT && 0 <= self.escape_intersection_factor && self.escape_intersection_factor
            <= LIMIT && 0 <= self.distance_factor && self.distance_factor <= ONE && 0
            <= self.force_max && self.force_max <= LIMIT && 1 <= self.damping_factor
            && self.damping_factor <= ONE && 0 <= self.repulsion_coefficient
            && self.repulsion_coefficient <= LIMIT && 0 <= self.attraction_coefficient
            && self.attraction_coefficient <= LIMIT
    }
}

impl Default for Parameters {
    fn default() -> (r: Self)
        ensures
            r == Parameters::default_spec(),
            r.is_valid(),
    {
        Parameters {
            ideal_distance: 2949120,
            really_close_distance: 6554,
            spring_factor: 655360000,
            escape_intersection_factor: 6553600,
            distance_factor: 19661,
            force_max: 65536000,
            damping_factor: 32768,
            neighbor_aware: true,
            repulsion_coefficient: 65536000,
            attraction_coefficient: 32768,
        }
    }
}

} // verus!
