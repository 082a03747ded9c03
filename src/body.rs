//! Point masses and the mass aggregates that a force pass reads.
use vstd::prelude::*;
use crate::geometry::Position;

verus! {

/// A point mass; its mass is positive. Once in a tree it is never changed, and the tree refers to
/// it by its index in the order of insertion.
#[derive(Clone, Copy, Debug)]
pub struct Body {
    pub mass: u32,
    pub position: Position,
}

impl Body {
    pub fn new(mass: u32, position: Position) -> (r: Body)
        requires
            mass > 0,
        ensures
            r.mass == mass,
            r.position == position,
    {
        Body { mass, position }
    }
}

/// What a body adds to its subtree's mass.
pub open spec fn mass_weight() -> spec_fn(Body) -> int {
    |b: Body| b.mass as int
}

/// What a body adds to its subtree's first moment along x.
pub open spec fn moment_x_weight() -> spec_fn(Body) -> int {
    |b: Body| b.mass * b.position.0
}

/// What a body adds to its subtree's first moment along y.
pub open spec fn moment_y_weight() -> spec_fn(Body) -> int {
    |b: Body| b.mass * b.position.1
}

/// The total mass of a group of bodies and its first moments: the sums of
/// `mass * x` and of `mass * y`. The center of mass is the moments divided
/// by the mass.
#[derive(Clone, Copy, Debug, PartialEq, Eq, Structural)]
pub struct Aggregate {
    pub mass: i128,
    pub moment_x: i128,
    pub moment_y: i128,
}

/// `n / d` rounded down, for `d > 0`.
pub open spec fn floor_div(n: int, d: int) -> int {
    n / d
}

impl Aggregate {
    /// The center of mass, rounded down to the grid on each axis; `None`
    /// where the mass is not positive.
    pub fn center_of_mass(&self) -> (r: Option<(i128, i128)>)
        ensures
            self.mass <= 0 ==> r is None,
            self.mass > 0 ==> r == Some(
                (
                    floor_div(self.moment_x as int, self.mass as int) as i128,
                    floor_div(self.moment_y as int, self.mass as int) as i128,
                ),
            ),
    {
        if self.mass <= 0 {
            None
        } else {
            Some((div_floor(self.moment_x, self.mass), div_floor(self.moment_y, self.mass)))
        }
    }
}

fn div_floor(n: i128, d: i128) -> (r: i128)
    requires
        d > 0,
    ensures
        r == floor_div(n as int, d as int),
{
    if n >= 0 {
        proof {
            vstd::arithmetic::div_mod::lemma_div_pos_is_pos(n as int, d as int);
            vstd::arithmetic::div_mod::lemma_div_is_ordered_by_denominator(n as int, 1, d as int);
        }
        n / d
    } else {
        let k = -(n + 1);
        let q = k / d;
        proof {
            let qi = q as int;
            let ri = k as int % d as int;
            vstd::arithmetic::div_mod::lemma_fundamental_div_mod(k as int, d as int);
            vstd::arithmetic::div_mod::lemma_div_pos_is_pos(k as int, d as int);
            vstd::arithmetic::div_mod::lemma_div_is_ordered_by_denominator(k as int, 1, d as int);
            assert(n as int == (-qi - 1) * d + (d - ri - 1)) by (nonlinear_arith)
                requires
                    k as int == d * qi + ri,
                    k as int == -(n + 1),
            ;
            vstd::arithmetic::div_mod::lemma_fundamental_div_mod_converse(
                n as int,
                d as int,
                -qi - 1,
                d - ri - 1,
            );
        }
        -q - 1
    }
}

} // verus!
