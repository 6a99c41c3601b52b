//! Neighbourhoods: which cells around a cell count as its neighbours.
//!
//! A neighbourhood is a list of relative offsets `(dx, dy)`. The list depends
//! on the neighbourhood alone; the grid wraps the offsets around its edges.

use vstd::prelude::*;
use vstd::arithmetic::div_mod::{
    lemma_div_pos_is_pos, lemma_fundamental_div_mod, lemma_fundamental_div_mod_converse,
    lemma_mod_bound, lemma_multiply_divide_lt,
};

verus! {

/// The shape of the region whose cells are counted for a cell.
#[derive(Clone, Copy, Debug, PartialEq, Eq)]
pub enum Neighbourhood {
    /// The cell itself, and nothing else.
    Individual,
    /// The square of side `2 * range + 1` around the cell.
    Moore { range: usize, include_self: bool },
    /// The four arms of length `range` that leave the cell along the axes.
    VonNeuman { range: usize, include_self: bool },
}

/// The entry at position `i` of the full square of radius `r`, which is
/// listed column by column: `dx` changes slowest.
pub open spec fn moore_at(r: int, i: int) -> (int, int) {
    (i / (2 * r + 1) - r, i % (2 * r + 1) - r)
}

/// The position of `(dx, dy)` in the full square of radius `r`.
pub open spec fn moore_index(r: int, dx: int, dy: int) -> int {
    (dx + r) * (2 * r + 1) + (dy + r)
}

/// The entry at position `i` of the arms: distance `i / 4 + 1`, in the order
/// right, down, left, up.
pub open spec fn arm_at(i: int) -> (int, int) {
    let d = i / 4 + 1;
    if i % 4 == 0 {
        (d, 0)
    } else if i % 4 == 1 {
        (0, d)
    } else if i % 4 == 2 {
        (-d, 0)
    } else {
        (0, -d)
    }
}

/// The offsets as pairs of mathematical integers.
pub open spec fn offsets_view(v: Seq<(isize, isize)>) -> Seq<(int, int)> {
    Seq::new(v.len(), |i: int| (v[i].0 as int, v[i].1 as int))
}

impl Neighbourhood {
    /// How many offsets the neighbourhood has.
    pub open spec fn count(self) -> int {
        match self {
            Neighbourhood::Individual => 1,
            Neighbourhood::Moore { range, include_self } => (2 * range + 1) * (2 * range + 1) - (
            if include_self {
                0int
            } else {
                1int
            }),
            Neighbourhood::VonNeuman { range, include_self } => 4 * range + (if include_self {
                1int
            } else {
                0int
            }),
        }
    }

    /// The list of offsets can be held in memory: its length is a `usize`.
    pub open spec fn fits(self) -> bool {
        self.count() <= usize::MAX
    }

    /// The offsets of the neighbourhood, in the order in which they are listed.
    pub open spec fn offsets(self) -> Seq<(int, int)> {
        match self {
            Neighbourhood::Individual => seq![(0int, 0int)],
            Neighbourhood::Moore { range, include_self } => {
                let r = range as int;
                if include_self {
                    Seq::new(self.count() as nat, |i: int| moore_at(r, i))
                } else {
                    Seq::new(
                        self.count() as nat,
                        |i: int|
                            moore_at(
                                r,
                                if i < moore_index(r, 0, 0) {
                                    i
                                } else {
                                    i + 1
                                },
                            ),
                    )
                }
            },
            Neighbourhood::VonNeuman { range, include_self } => {
                if include_self {
                    Seq::new(
                        self.count() as nat,
                        |i: int|
                            if i == 0 {
                                (0int, 0int)
                            } else {
                                arm_at(i - 1)
                            },
                    )
                } else {
                    Seq::new(self.count() as nat, |i: int| arm_at(i))
                }
            },
        }
    }

    /// Whether the list of offsets can be held in memory.
    pub fn is_listable(&self) -> (yes: bool)
        ensures
            yes == self.fits(),
    {
        match self {
            Neighbourhood::Individual => true,
            Neighbourhood::Moore { range, include_self } => {
                let side = match range.checked_mul(2) {
                    Some(twice) => twice.checked_add(1),
                    None => None,
                };
                proof {
                    lemma_side_squared(2 * *range + 1, *range as int);
                }
                match side {
                    Some(side) => side.checked_mul(side).is_some(),
                    None => false,
                }
            },
            Neighbourhood::VonNeuman { range, include_self } => {
                let lead: usize = if *include_self {
                    1
                } else {
                    0
                };
                match range.checked_mul(4) {
                    Some(arms) => arms.checked_add(lead).is_some(),
                    None => false,
                }
            },
        }
    }

    /// Lists the offsets of the neighbourhood. The list depends on the
    /// neighbourhood alone.
    pub fn get_neighbours(&self) -> (neighbours: Vec<(isize, isize)>)
        requires
            self.fits(),
        ensures
            offsets_view(neighbours@) == self.offsets(),
            neighbours@.len() == self.count(),
    {
        match self {
            Neighbourhood::Individual => {
                let neighbours: Vec<(isize, isize)> = vec![(0isize, 0isize)];
                assert(offsets_view(neighbours@) =~= self.offsets());
                neighbours
            },
            Neighbourhood::Moore { range, include_self } => moore_offsets(*range, *include_self),
            Neighbourhood::VonNeuman { range, include_self } => von_neumann_offsets(
                *range,
                *include_self,
            ),
        }
    }
}

/// The square of an odd side is odd, so it is not one more than the largest
/// `usize`; and the square of a side that is no `usize` is none either.
proof fn lemma_side_squared(side: int, r: int)
    requires
        0 <= r,
        side == 2 * r + 1,
    ensures
        side * side != usize::MAX + 1,
        side > usize::MAX ==> side * side > usize::MAX + 1,
{
    assert(side * side == 2 * (2 * r * r + 2 * r) + 1) by (nonlinear_arith)
        requires
            side == 2 * r + 1,
    ;
    assert(usize::MAX + 1 == 2 * (isize::MAX + 1));
    if side > usize::MAX {
        assert(side * side > usize::MAX + 1) by (nonlinear_arith)
            requires
                side > usize::MAX,
                usize::MAX >= 1,
        ;
    }
}

/// The side of the square is small: the loops below count past it.
proof fn lemma_moore_side(range: usize, include_self: bool)
    requires
        (Neighbourhood::Moore { range, include_self }).fits(),
    ensures
        range + 1 < isize::MAX,
{
    let side = 2 * range + 1;
    assert(usize::MAX + 1 == 2 * (isize::MAX + 1));
    if side >= 4 {
        assert(side * side >= 4 * side) by (nonlinear_arith)
            requires
                side >= 4,
        ;
    }
}

/// The position of an offset of the square, taken apart again.
proof fn lemma_moore_at_index(r: int, dx: int, dy: int)
    requires
        0 <= r,
        -r <= dx <= r,
        -r <= dy <= r,
    ensures
        moore_at(r, moore_index(r, dx, dy)) == (dx, dy),
        0 <= moore_index(r, dx, dy) < (2 * r + 1) * (2 * r + 1),
{
    let side = 2 * r + 1;
    let i = moore_index(r, dx, dy);
    lemma_fundamental_div_mod_converse(i, side, dx + r, dy + r);
    assert(0 <= (dx + r) * side) by (nonlinear_arith)
        requires
            0 <= dx + r,
            0 < side,
    ;
    assert((dx + r) * side + side <= side * side) by (nonlinear_arith)
        requires
            dx + r + 1 <= side,
            0 < side,
    ;
}

/// Lists the square of radius `range` column by column, and leaves the
/// cell itself out where it is not included.
fn moore_offsets(range: usize, include_self: bool) -> (neighbours: Vec<(isize, isize)>)
    requires
        (Neighbourhood::Moore { range, include_self }).fits(),
    ensures
        offsets_view(neighbours@) == (Neighbourhood::Moore { range, include_self }).offsets(),
        neighbours@.len() == (Neighbourhood::Moore { range, include_self }).count(),
{
    proof {
        lemma_moore_side(range, include_self);
    }
    let ghost shape = Neighbourhood::Moore { range, include_self };
    let ghost centre = moore_index(range as int, 0, 0);
    let r: isize = range as isize;
    let mut neighbours: Vec<(isize, isize)> = Vec::new();
    let mut dx: isize = -r;
    proof {
        assert(moore_index(r as int, -r, -r) == 0) by (nonlinear_arith);
        lemma_moore_at_index(r as int, 0, 0);
    }
    while dx <= r
        invariant
            shape == (Neighbourhood::Moore { range, include_self }),
            shape.fits(),
            r == range,
            range + 1 < isize::MAX,
            centre == moore_index(r as int, 0, 0),
            -r <= dx <= r + 1,
            neighbours@.len() == moore_index(r as int, dx as int, -r) - (if !include_self
                && moore_index(r as int, dx as int, -r) > centre {
                1int
            } else {
                0int
            }),
            forall|k: int|
                0 <= k < neighbours@.len() ==> (neighbours@[k].0 as int, neighbours@[k].1 as int)
                    == #[trigger] shape.offsets()[k],
        decreases r + 1 - dx,
    {
        let mut dy: isize = -r;
        while dy <= r
            invariant
                shape == (Neighbourhood::Moore { range, include_self }),
                shape.fits(),
                r == range,
                range + 1 < isize::MAX,
                centre == moore_index(r as int, 0, 0),
                -r <= dx <= r,
                -r <= dy <= r + 1,
                neighbours@.len() == moore_index(r as int, dx as int, dy as int) - (
                if !include_self && moore_index(r as int, dx as int, dy as int) > centre {
                    1int
                } else {
                    0int
                }),
                forall|k: int|
                    0 <= k < neighbours@.len() ==> (
                    neighbours@[k].0 as int,
                    neighbours@[k].1 as int,
                    ) == #[trigger] shape.offsets()[k],
            decreases r + 1 - dy,
        {
            proof {
                lemma_moore_at_index(r as int, dx as int, dy as int);
                lemma_moore_at_index(r as int, 0, 0);
            }
            if include_self || dx != 0 || dy != 0 {
                proof {
                    let i = moore_index(r as int, dx as int, dy as int);
                    if !include_self {
                        assert(i != centre) by (nonlinear_arith)
                            requires
                                i == (dx + r) * (2 * r + 1) + (dy + r),
                                centre == (0 + r) * (2 * r + 1) + (0 + r),
                                -r <= dx <= r,
                                -r <= dy <= r,
                                dx != 0 || dy != 0,
                        ;
                    }
                }
                neighbours.push((dx, dy));
            }
            dy = dy + 1;
        }
        dx = dx + 1;
        assert(moore_index(r as int, dx as int, -r) == moore_index(
            r as int,
            (dx - 1) as int,
            (r + 1) as int,
        )) by (nonlinear_arith)
            requires
                true,
        ;
    }
    proof {
        assert(moore_index(r as int, (r + 1) as int, -r) == (2 * r + 1) * (2 * r + 1))
            by (nonlinear_arith);
        lemma_moore_at_index(r as int, 0, 0);
        assert(offsets_view(neighbours@) =~= shape.offsets());
    }
    neighbours
}

/// Lists the cell itself, where it is included, and then the four arms
/// distance by distance.
fn von_neumann_offsets(range: usize, include_self: bool) -> (neighbours: Vec<(isize, isize)>)
    requires
        (Neighbourhood::VonNeuman { range, include_self }).fits(),
    ensures
        offsets_view(neighbours@) == (Neighbourhood::VonNeuman { range, include_self }).offsets(),
        neighbours@.len() == (Neighbourhood::VonNeuman { range, include_self }).count(),
{
    let ghost shape = Neighbourhood::VonNeuman { range, include_self };
    let ghost lead: int = if include_self {
        1
    } else {
        0
    };
    let r: isize = range as isize;
    let mut neighbours: Vec<(isize, isize)> = Vec::new();
    if include_self {
        neighbours.push((0, 0));
    }
    let mut d: isize = 1;
    while d <= r
        invariant
            shape == (Neighbourhood::VonNeuman { range, include_self }),
            shape.fits(),
            r == range,
            lead == (if include_self {
                1int
            } else {
                0int
            }),
            1 <= d <= r + 1,
            neighbours@.len() == lead + 4 * (d - 1),
            forall|k: int|
                0 <= k < neighbours@.len() ==> (neighbours@[k].0 as int, neighbours@[k].1 as int)
                    == #[trigger] shape.offsets()[k],
        decreases r + 1 - d,
    {
        neighbours.push((d, 0));
        neighbours.push((0, d));
        neighbours.push((-d, 0));
        neighbours.push((0, -d));
        d = d + 1;
    }
    proof {
        assert(offsets_view(neighbours@) =~= shape.offsets());
    }
    neighbours
}

/// An entry of the full square lies in the square, and stands at its position.
proof fn lemma_moore_at_bounds(r: int, i: int)
    requires
        0 <= r,
        0 <= i < (2 * r + 1) * (2 * r + 1),
    ensures
        -r <= moore_at(r, i).0 <= r,
        -r <= moore_at(r, i).1 <= r,
        moore_index(r, moore_at(r, i).0, moore_at(r, i).1) == i,
{
    let side = 2 * r + 1;
    lemma_div_pos_is_pos(i, side);
    lemma_multiply_divide_lt(i, side, side);
    lemma_mod_bound(i, side);
    lemma_fundamental_div_mod(i, side);
    assert(side * (i / side) == (i / side) * side) by (nonlinear_arith);
}

/// The position in the full square of radius `r` that entry `k` of the
/// offsets of a Moore neighbourhood is taken from.
pub open spec fn moore_source(r: int, include_self: bool, k: int) -> int {
    if include_self || k < moore_index(r, 0, 0) {
        k
    } else {
        k + 1
    }
}

/// A Moore neighbourhood holds the offsets of the square around the cell,
/// all of them and nothing else, and the offset `(0, 0)` of the cell itself
/// only where the cell is included.
pub proof fn lemma_moore_offsets(range: usize, include_self: bool, dx: int, dy: int)
    ensures
        (Neighbourhood::Moore { range, include_self }).offsets().contains((dx, dy)) <==> {
            &&& -range <= dx <= range
            &&& -range <= dy <= range
            &&& (include_self || dx != 0 || dy != 0)
        },
{
    let shape = Neighbourhood::Moore { range, include_self };
    let offsets = shape.offsets();
    let r = range as int;
    let side = 2 * r + 1;
    let centre = moore_index(r, 0, 0);
    lemma_moore_at_index(r, 0, 0);
    assert(side * side >= 1) by (nonlinear_arith)
        requires
            side >= 1,
    ;
    if offsets.contains((dx, dy)) {
        let k = choose|k: int| 0 <= k < offsets.len() && offsets[k] == (dx, dy);
        let i = moore_source(r, include_self, k);
        assert(offsets[k] == moore_at(r, i));
        lemma_moore_at_bounds(r, i);
    }
    if -r <= dx <= r && -r <= dy <= r && (include_self || dx != 0 || dy != 0) {
        lemma_moore_at_index(r, dx, dy);
        let i = moore_index(r, dx, dy);
        if !include_self {
            assert(i != centre) by (nonlinear_arith)
                requires
                    i == (dx + r) * (2 * r + 1) + (dy + r),
                    centre == (0 + r) * (2 * r + 1) + (0 + r),
                    -r <= dx <= r,
                    -r <= dy <= r,
                    dx != 0 || dy != 0,
            ;
        }
        let k = if include_self || i < centre {
            i
        } else {
            i - 1
        };
        assert(moore_source(r, include_self, k) == i);
        assert(offsets[k] == (dx, dy));
    }
}

/// A von Neumann neighbourhood holds the offsets along the four axes up to
/// the distance `range`, all of them and nothing else, and the offset
/// `(0, 0)` of the cell itself only where the cell is included.
pub proof fn lemma_von_neumann_offsets(range: usize, include_self: bool, dx: int, dy: int)
    ensures
        (Neighbourhood::VonNeuman { range, include_self }).offsets().contains((dx, dy)) <==> {
            ||| include_self && dx == 0 && dy == 0
            ||| dy == 0 && (1 <= dx <= range || 1 <= -dx <= range)
            ||| dx == 0 && (1 <= dy <= range || 1 <= -dy <= range)
        },
{
    let shape = Neighbourhood::VonNeuman { range, include_self };
    let offsets = shape.offsets();
    let lead: int = if include_self {
        1
    } else {
        0
    };
    if offsets.contains((dx, dy)) {
        let k = choose|k: int| 0 <= k < offsets.len() && offsets[k] == (dx, dy);
        if !(include_self && k == 0) {
            assert(offsets[k] == arm_at(k - lead));
        }
    }
    if include_self && dx == 0 && dy == 0 {
        assert(offsets[0] == (dx, dy));
    }
    let arm: int = if dy == 0 && 1 <= dx <= range {
        4 * (dx - 1)
    } else if dx == 0 && 1 <= dy <= range {
        4 * (dy - 1) + 1
    } else if dy == 0 && 1 <= -dx <= range {
        4 * (-dx - 1) + 2
    } else if dx == 0 && 1 <= -dy <= range {
        4 * (-dy - 1) + 3
    } else {
        -1
    };
    if arm >= 0 {
        assert(arm_at(arm) == (dx, dy));
        assert(offsets[arm + lead] == (dx, dy));
    }
}

/// No offset is listed twice.
pub proof fn lemma_offsets_distinct(shape: Neighbourhood)
    ensures
        shape.offsets().no_duplicates(),
{
    let offsets = shape.offsets();
    assert forall|a: int, b: int|
        0 <= a < offsets.len() && 0 <= b < offsets.len() && a != b implies offsets[a]
        != offsets[b] by {
        match shape {
            Neighbourhood::Individual => {},
            Neighbourhood::Moore { range, include_self } => {
                let r = range as int;
                lemma_moore_at_index(r, 0, 0);
                lemma_moore_at_bounds(r, moore_source(r, include_self, a));
                lemma_moore_at_bounds(r, moore_source(r, include_self, b));
            },
            Neighbourhood::VonNeuman { range, include_self } => {
                let lead: int = if include_self {
                    1
                } else {
                    0
                };
                if a >= lead {
                    assert(offsets[a] == arm_at(a - lead));
                }
                if b >= lead {
                    assert(offsets[b] == arm_at(b - lead));
                }
            },
        }
    }
}

} // verus!
