//! Board coordinates and the eight principal directions.

use vstd::prelude::*;
use vstd::std_specs::ops::{AddSpecImpl, MulSpecImpl};

verus! {

/// A coordinate pair (file, rank), also used as a displacement.
#[derive(Clone, Copy, PartialEq, Eq, Hash, Debug, Structural)]
pub struct Pos(pub i32, pub i32);

impl Pos {
    /// Component-wise sum.
    pub open spec fn plus(self, rhs: Pos) -> Pos {
        Pos((self.0 + rhs.0) as i32, (self.1 + rhs.1) as i32)
    }

    /// Both components of the sum are representable.
    pub open spec fn can_add(self, rhs: Pos) -> bool {
        &&& i32::MIN <= self.0 + rhs.0 <= i32::MAX
        &&& i32::MIN <= self.1 + rhs.1 <= i32::MAX
    }

    /// Component-wise product with a scalar.
    pub open spec fn times(self, k: int) -> Pos {
        Pos((self.0 * k) as i32, (self.1 * k) as i32)
    }

    /// Both components of the product are representable.
    pub open spec fn can_scale(self, k: int) -> bool {
        &&& i32::MIN <= self.0 * k <= i32::MAX
        &&& i32::MIN <= self.1 * k <= i32::MAX
    }
}

impl core::ops::Add for Pos {
    type Output = Pos;

    fn add(self, rhs: Pos) -> (sum: Pos) {
        Pos(self.0 + rhs.0, self.1 + rhs.1)
    }
}

impl AddSpecImpl for Pos {
    open spec fn obeys_add_spec() -> bool {
        true
    }

    open spec fn add_req(self, rhs: Pos) -> bool {
        self.can_add(rhs)
    }

    open spec fn add_spec(self, rhs: Pos) -> Pos {
        self.plus(rhs)
    }
}

impl core::ops::Mul<i32> for Pos {
    type Output = Pos;

    fn mul(self, rhs: i32) -> (product: Pos) {
        Pos(self.0 * rhs, self.1 * rhs)
    }
}

impl MulSpecImpl<i32> for Pos {
    open spec fn obeys_mul_spec() -> bool {
        true
    }

    open spec fn mul_req(self, rhs: i32) -> bool {
        self.can_scale(rhs as int)
    }

    open spec fn mul_spec(self, rhs: i32) -> Pos {
        self.times(rhs as int)
    }
}

impl Pos {
    /// One step along a file or a rank.
    pub open spec fn is_line(self) -> bool {
        (self.0 == 0 && (self.1 == 1 || self.1 == -1)) || (self.1 == 0 && (self.0 == 1 || self.0
            == -1))
    }

    /// One step along a diagonal.
    pub open spec fn is_diag(self) -> bool {
        (self.0 == 1 || self.0 == -1) && (self.1 == 1 || self.1 == -1)
    }

    /// One of the eight principal directions.
    pub open spec fn is_direction(self) -> bool {
        self.is_line() || self.is_diag()
    }

    /// Two directions are adjacent when they are an eighth of a turn apart.
    pub open spec fn adjacent(self, other: Pos) -> bool {
        &&& self.is_direction()
        &&& other.is_direction()
        &&& (self.0 == other.0 && (self.1 - other.1 == 1 || other.1 - self.1 == 1)) || (self.1
            == other.1 && (self.0 - other.0 == 1 || other.0 - self.0 == 1))
    }

    /// The pair that `neighbors` returns.
    pub open spec fn side_steps(self) -> Seq<Pos> {
        if self.0 == 0 {
            seq![Pos(1, self.1), Pos(-1i32, self.1)]
        } else if self.1 == 0 {
            seq![Pos(self.0, 1), Pos(self.0, -1i32)]
        } else {
            seq![Pos(self.0, 0), Pos(0, self.1)]
        }
    }

    /// The two directions next to this one: for a step along a file or a
    /// rank, the two diagonals on either side of it; for a diagonal, the two
    /// orthogonal steps it is made of.
    pub fn neighbors(&self) -> (pair: [Pos; 2])
        ensures
            pair@ == self.side_steps(),
    {
        if self.0 == 0 {
            [Pos(1, self.1), Pos(-1, self.1)]
        } else if self.1 == 0 {
            [Pos(self.0, 1), Pos(self.0, -1)]
        } else {
            [Pos(self.0, 0), Pos(0, self.1)]
        }
    }
}

/// The four orthogonal directions, in the order in which rays are cast.
pub open spec fn line_dirs() -> Seq<Pos> {
    seq![Pos(0, 1), Pos(0, -1i32), Pos(1, 0), Pos(-1i32, 0)]
}

/// The four diagonal directions, in the order in which rays are cast.
pub open spec fn diag_dirs() -> Seq<Pos> {
    seq![Pos(1, 1), Pos(1, -1i32), Pos(-1i32, 1), Pos(-1i32, -1i32)]
}

/// All eight directions: the orthogonal ones, then the diagonal ones.
pub open spec fn all_dirs() -> Seq<Pos> {
    line_dirs() + diag_dirs()
}

/// The four orthogonal directions.
pub fn lines() -> (dirs: [Pos; 4])
    ensures
        dirs@ == line_dirs(),
{
    [Pos(0, 1), Pos(0, -1), Pos(1, 0), Pos(-1, 0)]
}

/// The four diagonal directions.
pub fn diags() -> (dirs: [Pos; 4])
    ensures
        dirs@ == diag_dirs(),
{
    [Pos(1, 1), Pos(1, -1), Pos(-1, 1), Pos(-1, -1)]
}

/// The eight lines of sight.
pub fn los() -> (dirs: [Pos; 8])
    ensures
        dirs@ == all_dirs(),
{
    [
        Pos(0, 1),
        Pos(0, -1),
        Pos(1, 0),
        Pos(-1, 0),
        Pos(1, 1),
        Pos(1, -1),
        Pos(-1, 1),
        Pos(-1, -1),
    ]
}

/// Stepping in a direction and then back returns to the starting point,
/// wherever the step itself is representable.
pub proof fn lemma_step_and_back(p: Pos, d: Pos)
    requires
        d.is_direction(),
        p.can_add(d),
    ensures
        d.can_scale(-1),
        p.plus(d).can_add(d.times(-1)),
        p.plus(d).plus(d.times(-1)) == p,
{
}

/// `neighbors` gives exactly the directions adjacent to a direction, and for
/// an orthogonal direction both of them are diagonals.
pub proof fn lemma_neighbors_adjacent(d: Pos)
    requires
        d.is_direction(),
    ensures
        d.side_steps().len() == 2,
        d.side_steps()[0] != d.side_steps()[1],
        forall|n: Pos| d.adjacent(n) <==> (n == d.side_steps()[0] || n == d.side_steps()[1]),
        d.is_line() ==> d.side_steps()[0].is_diag() && d.side_steps()[1].is_diag(),
        d.is_diag() ==> d.side_steps()[0].is_line() && d.side_steps()[1].is_line(),
{
}

} // verus!
