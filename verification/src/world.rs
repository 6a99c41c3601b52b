//! The world: a grid of cells that wraps around at its edges.

use vstd::prelude::*;
use vstd::arithmetic::div_mod::{
    lemma_fundamental_div_mod_converse, lemma_mod_bound, lemma_mod_multiples_vanish,
};
use macroquad::rand::RandGenerator;
use crate::cell::{Cell, CellView};
use crate::census::{lemma_tally_empty, lemma_tally_push, tally, Census};
use crate::neighbourhood::offsets_view;
use crate::random::{draw, pick, should_spawn};
use crate::ruleset::{Ruleset, RulesetView};
use crate::state::RulesetState;

verus! {

/// The position in the list of cells of the cell at column `x` and row `y`
/// of a grid that wraps around: the rows follow one another, and a
/// coordinate outside the grid stands for the one inside it that differs
/// from it by a multiple of the width or of the height.
pub open spec fn index_of(width: int, height: int, x: int, y: int) -> int {
    (y % height) * width + (x % width)
}

/// What a world holds: its cells row by row, and the ruleset they follow.
pub ghost struct WorldView {
    pub width: int,
    pub height: int,
    pub cells: Seq<CellView>,
    pub ruleset: RulesetView,
}

impl WorldView {
    /// The grid has a cell for each column of each row; a new grid can be
    /// filled; and the offsets of the neighbourhood can be listed.
    pub open spec fn wf(self) -> bool {
        &&& 0 <= self.width
        &&& 0 <= self.height
        &&& self.cells.len() == self.width * self.height
        &&& self.ruleset.default_ok()
        &&& self.ruleset.neighbourhood.fits()
    }

    /// The grid has cells.
    pub open spec fn is_inhabited(self) -> bool {
        0 < self.width && 0 < self.height
    }

    /// The position in the list of cells of the cell at `(x, y)`.
    pub open spec fn index(self, x: int, y: int) -> int {
        index_of(self.width, self.height, x, y)
    }

    /// The cell at `(x, y)`.
    pub open spec fn cell(self, x: int, y: int) -> CellView {
        self.cells[self.index(x, y)]
    }

    /// The states of the neighbours of the cell at `(x, y)`, one for each
    /// offset of the neighbourhood and in the order of the offsets.
    pub open spec fn neighbour_states(self, x: int, y: int) -> Seq<Seq<char>> {
        Seq::new(
            self.ruleset.neighbourhood.offsets().len(),
            |i: int|
                self.cell(
                    x + self.ruleset.neighbourhood.offsets()[i].0,
                    y + self.ruleset.neighbourhood.offsets()[i].1,
                ).state,
        )
    }

    /// The census of the cell at `(x, y)`.
    pub open spec fn census(self, x: int, y: int) -> Map<Seq<char>, usize> {
        tally(self.neighbour_states(x, y))
    }

    /// The cell that follows the cell at position `p` of the list of cells.
    pub open spec fn next_cell_at(self, p: int) -> CellView {
        self.ruleset.next_cell(self.cells[p], self.census(p % self.width, p / self.width))
    }

    /// The world one generation on: each cell is followed by the cell that
    /// the ruleset gives for it and for its neighbours as they are now.
    pub open spec fn next_generation(self) -> WorldView {
        WorldView {
            width: self.width,
            height: self.height,
            cells: Seq::new(self.cells.len(), |p: int| self.next_cell_at(p)),
            ruleset: self.ruleset,
        }
    }

    /// The world with every cell in the state that a grid starts in.
    pub open spec fn cleared(self) -> WorldView {
        WorldView {
            width: self.width,
            height: self.height,
            cells: Seq::new(
                self.cells.len(),
                |p: int| self.ruleset.cell_in(self.ruleset.default_state),
            ),
            ruleset: self.ruleset,
        }
    }

    /// The world with the cell at `(x, y)` replaced.
    pub open spec fn with_cell(self, x: int, y: int, cell: CellView) -> WorldView {
        WorldView {
            width: self.width,
            height: self.height,
            cells: self.cells.update(self.index(x, y), cell),
            ruleset: self.ruleset,
        }
    }

    /// The cell at position `p` of the list of cells lies in the square of
    /// side `size` whose corner is one column left of and one row above
    /// `(x, y)`, at a place of the square that is a place of the grid: the
    /// square is cut off at the edges of the grid, and does not wrap around.
    pub open spec fn is_in_square(self, p: int, x: int, y: int, size: int) -> bool {
        exists|dx: int, dy: int|
            {
                &&& 0 <= dx < size
                &&& 0 <= dy < size
                &&& 0 <= x + dx - 1 < self.width
                &&& 0 <= y + dy - 1 < self.height
                &&& p == #[trigger] self.index(x + dx - 1, y + dy - 1)
            }
    }

    /// The world differs from `before` in its cells at most: the grid has
    /// the same size and follows the same ruleset.
    pub open spec fn is_same_grid(self, before: WorldView) -> bool {
        &&& self.width == before.width
        &&& self.height == before.height
        &&& self.ruleset == before.ruleset
        &&& self.cells.len() == before.cells.len()
    }
}

/// The position of a cell lies in the list of cells.
pub proof fn lemma_index_in_range(width: int, height: int, x: int, y: int)
    requires
        0 < width,
        0 < height,
    ensures
        0 <= index_of(width, height, x, y) < width * height,
        0 <= x % width < width,
        0 <= y % height < height,
{
    lemma_mod_bound(x, width);
    lemma_mod_bound(y, height);
    let row = y % height;
    assert(0 <= row * width) by (nonlinear_arith)
        requires
            0 <= row,
            0 < width,
    ;
    assert(row * width + width <= height * width) by (nonlinear_arith)
        requires
            row + 1 <= height,
            0 < width,
    ;
    assert(height * width == width * height) by (nonlinear_arith);
}

/// The grid wraps around: a cell is found again a whole number of widths to
/// the side, and a whole number of heights up or down.
pub proof fn lemma_index_wraps(width: int, height: int, x: int, y: int, k: int)
    requires
        0 < width,
        0 < height,
    ensures
        index_of(width, height, x + k * width, y) == index_of(width, height, x, y),
        index_of(width, height, x, y + k * height) == index_of(width, height, x, y),
{
    lemma_mod_multiples_vanish(k, x, width);
    lemma_mod_multiples_vanish(k, y, height);
    assert(x + k * width == width * k + x) by (nonlinear_arith);
    assert(y + k * height == height * k + y) by (nonlinear_arith);
}

/// Inside the grid nothing wraps: the cell at column `x` of row `y` stands
/// at position `y * width + x`.
pub proof fn lemma_index_inside(width: int, height: int, x: int, y: int)
    requires
        0 <= x < width,
        0 <= y < height,
    ensures
        index_of(width, height, x, y) == y * width + x,
{
    lemma_fundamental_div_mod_converse(x, width, 0, x);
    lemma_fundamental_div_mod_converse(y, height, 0, y);
}

/// A coordinate less than one width or height outside the grid is brought
/// back by one step: a negative one by adding the width or the height, one
/// beyond the last column or row by subtracting it.
pub proof fn lemma_index_single_wrap(width: int, height: int, x: int, y: int)
    requires
        -width <= x < 2 * width,
        -height <= y < 2 * height,
        0 < width,
        0 < height,
    ensures
        index_of(width, height, x, y) == (if y < 0 {
            y + height
        } else if y >= height {
            y - height
        } else {
            y
        }) * width + (if x < 0 {
            x + width
        } else if x >= width {
            x - width
        } else {
            x
        }),
{
    let column = if x < 0 {
        x + width
    } else if x >= width {
        x - width
    } else {
        x
    };
    let row = if y < 0 {
        y + height
    } else if y >= height {
        y - height
    } else {
        y
    };
    let turns_x = if x < 0 {
        -1int
    } else if x >= width {
        1int
    } else {
        0int
    };
    let turns_y = if y < 0 {
        -1int
    } else if y >= height {
        1int
    } else {
        0int
    };
    lemma_fundamental_div_mod_converse(x, width, turns_x, column);
    lemma_fundamental_div_mod_converse(y, height, turns_y, row);
}

/// One generation on, the cell at `(x, y)` is the cell that the ruleset
/// gives for the cell that was there and for the census of its neighbours
/// as they were.
pub proof fn lemma_next_generation_at(world: WorldView, x: int, y: int)
    requires
        world.wf(),
        0 <= x < world.width,
        0 <= y < world.height,
    ensures
        world.next_generation().cell(x, y) == world.ruleset.next_cell(
            world.cell(x, y),
            world.census(x, y),
        ),
{
    lemma_index_inside(world.width, world.height, x, y);
    lemma_index_in_range(world.width, world.height, x, y);
    let p = y * world.width + x;
    lemma_fundamental_div_mod_converse(p, world.width, y, x);
}

/// A grid of cells that wraps around at its edges, and the ruleset that
/// its cells follow.
pub struct World {
    width: isize,
    height: isize,
    cells: Vec<Cell>,
    ruleset: Ruleset,
}

/// What a list of cells holds.
pub open spec fn cells_view(cells: Seq<Cell>) -> Seq<CellView> {
    Seq::new(cells.len(), |i: int| cells[i]@)
}

impl View for World {
    type V = WorldView;

    closed spec fn view(&self) -> WorldView {
        WorldView {
            width: self.width as int,
            height: self.height as int,
            cells: cells_view(self.cells@),
            ruleset: self.ruleset@,
        }
    }
}

/// The remainder of `v` by `n` that is not negative.
fn wrap(v: i128, n: isize) -> (r: usize)
    requires
        0 < n,
    ensures
        r == (v as int) % (n as int),
        r < n,
{
    proof {
        lemma_mod_bound(v as int, n as int);
    }
    match v.checked_rem_euclid(n as i128) {
        Some(r) => r as usize,
        None => 0,
    }
}

impl World {
    #[verifier::type_invariant]
    closed spec fn inv(&self) -> bool {
        self@.wf()
    }

    /// A world of `width` columns and `height` rows whose cells are all in
    /// the state that a grid starts in, or `None` where the ruleset has no
    /// such state.
    pub fn new(width: isize, height: isize, ruleset: Ruleset) -> (world: Option<World>)
        requires
            0 <= width,
            0 <= height,
            width * height <= usize::MAX,
            ruleset@.neighbourhood.fits(),
        ensures
            match world {
                Some(w) => {
                    &&& ruleset@.default_ok()
                    &&& w@.wf()
                    &&& w@.width == width
                    &&& w@.height == height
                    &&& w@.ruleset == ruleset@
                    &&& w@ == w@.cleared()
                },
                None => !ruleset@.default_ok(),
            },
    {
        let first = match ruleset.cell_in(ruleset.default_state().as_str()) {
            Some(cell) => cell,
            None => {
                return None;
            },
        };
        let count: usize = (width as usize) * (height as usize);
        let cells = filled(&first, count);
        let world = World { width, height, cells, ruleset };
        assert(world@.cells =~= world@.cleared().cells);
        Some(world)
    }

    /// The number of columns.
    pub fn width(&self) -> (width: isize)
        ensures
            width == self@.width,
            self@.wf(),
    {
        proof {
            use_type_invariant(self);
        }
        self.width
    }

    /// The number of rows.
    pub fn height(&self) -> (height: isize)
        ensures
            height == self@.height,
            self@.wf(),
    {
        proof {
            use_type_invariant(self);
        }
        self.height
    }

    /// The ruleset that the cells follow.
    pub fn ruleset(&self) -> (ruleset: &Ruleset)
        ensures
            ruleset@ == self@.ruleset,
            self@.wf(),
    {
        proof {
            use_type_invariant(self);
        }
        &self.ruleset
    }

    /// Puts every cell in the state that a grid starts in.
    pub fn reset(&mut self)
        ensures
            final(self)@ == old(self)@.cleared(),
    {
        proof {
            use_type_invariant(&*self);
        }
        let first = match self.ruleset.cell_in(self.ruleset.default_state().as_str()) {
            Some(cell) => cell,
            None => {
                return ;
            },
        };
        let count: usize = self.cells.len();
        self.cells = filled(&first, count);
        assert(self@.cells =~= old(self)@.cleared().cells);
    }

    /// Puts each cell in a state of the ruleset that the generator picks
    /// for it, in the colour of that state. A cell for which the generator
    /// picks nothing is put in the state that a grid starts in.
    pub fn randomise(&mut self, rng: &RandGenerator)
        ensures
            final(self)@.is_same_grid(old(self)@),
            forall|p: int|
                0 <= p < old(self)@.cells.len() ==> exists|i: int|
                    0 <= i < old(self)@.ruleset.states.len() && (#[trigger] final(self)@.cells[p])
                        == old(self)@.ruleset.cell_in(#[trigger] old(self)@.ruleset.states[i].0),
    {
        proof {
            use_type_invariant(&*self);
        }
        let ghost before = self@;
        let ghost rules = before.ruleset;
        let first = match self.ruleset.cell_in(self.ruleset.default_state().as_str()) {
            Some(cell) => cell,
            None => {
                return ;
            },
        };
        let mut p: usize = 0;
        while p < self.cells.len()
            invariant
                self@.wf(),
                self@.is_same_grid(before),
                before == old(self)@,
                rules == before.ruleset,
                rules.default_ok(),
                first@ == rules.cell_in(rules.default_state),
                p <= self.cells@.len(),
                forall|q: int|
                    0 <= q < p ==> exists|i: int|
                        0 <= i < rules.states.len() && (#[trigger] self@.cells[q]) == rules.cell_in(
                            #[trigger] rules.states[i].0,
                        ),
            decreases self.cells.len() - p,
        {
            let ghost current = self@;
            let states = self.ruleset.states();
            let picked = pick(states.as_slice(), rng);
            let cell = picked_cell(picked, &first);
            proof {
                let i = match picked {
                    Some(entry) => choose|i: int| 0 <= i < states@.len() && states@[i] == *entry,
                    None => choose|i: int| rules.is_at(i, rules.default_state),
                };
                assert(rules.is_at(i, rules.states[i].0));
                let chosen = choose|k: int| rules.is_at(k, rules.states[i].0);
                if chosen != i {
                    if chosen < i {
                        assert(rules.is_duplicate(i));
                    } else {
                        assert(rules.is_at(i, rules.states[chosen].0));
                        assert(rules.is_duplicate(chosen));
                    }
                }
                assert(cell@ == rules.cell_in(rules.states[i].0));
            }
            self.cells[p] = cell;
            proof {
                assert forall|q: int| 0 <= q < p + 1 implies exists|i: int|
                    0 <= i < rules.states.len() && (#[trigger] self@.cells[q]) == rules.cell_in(
                        #[trigger] rules.states[i].0,
                    ) by {
                    if q < p {
                        assert(self@.cells[q] == current.cells[q]);
                    }
                }
            }
            p = p + 1;
        }
    }

    /// The position in the list of cells of the cell at `(x, y)`, where
    /// the coordinates may be wider than those of a cell.
    fn index_wide(&self, x: i128, y: i128) -> (index: usize)
        requires
            self@.is_inhabited(),
        ensures
            index == self@.index(x as int, y as int),
            index < self@.cells.len(),
            self@.wf(),
    {
        proof {
            use_type_invariant(self);
            lemma_index_in_range(self@.width, self@.height, x as int, y as int);
        }
        let column = wrap(x, self.width);
        let row = wrap(y, self.height);
        let count = self.cells.len();
        assert(row * self.width + column < self.width * self.height) by {
            assert(row * self.width + column == index_of(
                self@.width,
                self@.height,
                x as int,
                y as int,
            ));
        }
        assert(0 <= row * self.width) by (nonlinear_arith)
            requires
                0 <= row,
                0 < self.width,
        ;
        row * (self.width as usize) + column
    }

    /// The position in the list of cells of the cell at `(x, y)`. The grid
    /// wraps around: a coordinate that is negative or beyond the last column
    /// or row is counted on from the other side.
    pub fn get_index(&self, x: isize, y: isize) -> (index: usize)
        requires
            self@.is_inhabited(),
        ensures
            index == self@.index(x as int, y as int),
            index < self@.cells.len(),
            self@.wf(),
    {
        self.index_wide(x as i128, y as i128)
    }

    /// The cell at `(x, y)` of the grid, which wraps around.
    pub fn get_cell(&self, x: isize, y: isize) -> (cell: &Cell)
        requires
            self@.is_inhabited(),
        ensures
            cell@ == self@.cell(x as int, y as int),
    {
        let index = self.get_index(x, y);
        &self.cells[index]
    }

    /// Replaces the cell at `(x, y)` of the grid, which wraps around.
    pub fn set_cell(&mut self, x: isize, y: isize, cell: Cell)
        requires
            old(self)@.is_inhabited(),
        ensures
            final(self)@ == old(self)@.with_cell(x as int, y as int, cell@),
            final(self)@.is_same_grid(old(self)@),
    {
        let index = self.get_index(x, y);
        self.cells[index] = cell;
        assert(self@.cells =~= old(self)@.with_cell(x as int, y as int, cell@).cells);
    }

    /// Counts the neighbours of the cell at `(x, y)` by their states, over
    /// the offsets given, which are those of the neighbourhood.
    fn census_over(&self, offsets: &Vec<(isize, isize)>, x: isize, y: isize) -> (census: Census)
        requires
            self@.is_inhabited(),
            offsets_view(offsets@) == self@.ruleset.neighbourhood.offsets(),
        ensures
            census@ == self@.census(x as int, y as int),
    {
        let ghost states = self@.neighbour_states(x as int, y as int);
        let mut census = Census::new();
        let mut i: usize = 0;
        proof {
            lemma_tally_empty();
            assert(states.take(0) =~= Seq::<Seq<char>>::empty());
        }
        while i < offsets.len()
            invariant
                self@.is_inhabited(),
                offsets_view(offsets@) == self@.ruleset.neighbourhood.offsets(),
                states == self@.neighbour_states(x as int, y as int),
                i <= offsets@.len(),
                states.len() == offsets@.len(),
                census@ == tally(states.take(i as int)),
            decreases offsets.len() - i,
        {
            let (dx, dy) = offsets[i];
            let index = self.index_wide(x as i128 + dx as i128, y as i128 + dy as i128);
            let state = &self.cells[index].state;
            proof {
                assert(offsets_view(offsets@)[i as int] == (dx as int, dy as int));
                assert(state@ == states[i as int]);
                lemma_tally_push(states.take(i as int), state@);
                assert(states.take(i + 1) =~= states.take(i as int).push(state@));
            }
            census.record(state.as_str());
            i = i + 1;
        }
        assert(states.take(i as int) =~= states);
        census
    }

    /// Counts the neighbours of the cell at `(x, y)` by their states: for each
    /// offset of the neighbourhood, the cell that lies at that offset from
    /// `(x, y)` on the grid, which wraps around. A state that no neighbour
    /// is in has no entry.
    pub fn get_neighbourhood(&self, x: isize, y: isize) -> (census: Census)
        requires
            self@.is_inhabited(),
        ensures
            census@ == self@.census(x as int, y as int),
    {
        proof {
            use_type_invariant(self);
        }
        let offsets = self.ruleset.neighbourhood().get_neighbours();
        self.census_over(&offsets, x, y)
    }

    /// Advances the world by one generation. Each new cell is decided from
    /// the cells as they were: none sees a neighbour that has changed already.
    pub fn next_generation(&mut self)
        ensures
            final(self)@ == old(self)@.next_generation(),
    {
        proof {
            use_type_invariant(&*self);
        }
        let ghost before = self@;
        let offsets = self.ruleset.neighbourhood().get_neighbours();
        let mut next: Vec<Cell> = Vec::new();
        let mut y: isize = 0;
        while y < self.height
            invariant
                *self == *old(self),
                before == self@,
                before.wf(),
                offsets_view(offsets@) == before.ruleset.neighbourhood.offsets(),
                0 <= y <= self.height,
                next@.len() == y * self.width,
                forall|p: int| 0 <= p < next@.len() ==> (#[trigger] next@[p])@ == before.next_cell_at(p),
            decreases self.height - y,
        {
            let mut x: isize = 0;
            while x < self.width
                invariant
                    *self == *old(self),
                    before == self@,
                    before.wf(),
                    offsets_view(offsets@) == before.ruleset.neighbourhood.offsets(),
                    0 <= y < self.height,
                    0 <= x <= self.width,
                    next@.len() == y * self.width + x,
                    forall|p: int|
                        0 <= p < next@.len() ==> (#[trigger] next@[p])@ == before.next_cell_at(p),
                decreases self.width - x,
            {
                let census = self.census_over(&offsets, x, y);
                let position = next.len();
                proof {
                    lemma_fundamental_div_mod_converse(
                        position as int,
                        before.width,
                        y as int,
                        x as int,
                    );
                    assert(y * self.width + self.width <= self.height * self.width)
                        by (nonlinear_arith)
                        requires
                            y + 1 <= self.height,
                            0 < self.width,
                    ;
                    assert(self.height * self.width == self.width * self.height)
                        by (nonlinear_arith);
                }
                let cell = self.ruleset.next_cell(&self.cells[position], &census);
                next.push(cell);
                x = x + 1;
            }
            y = y + 1;
            assert(y * self.width == (y - 1) * self.width + self.width) by (nonlinear_arith);
        }
        proof {
            assert(y * self.width == self.width * self.height) by (nonlinear_arith)
                requires
                    y == self.height,
            ;
        }
        self.cells = next;
        assert(self@.cells =~= before.next_generation().cells);
    }

    /// Spawns cells in `state` around `(x, y)`. Nothing is spawned where
    /// the ruleset has no such state, where `size` is less than 1, or
    /// where the grid has no cells. With a `size` of 1 the cell at `(x, y)`
    /// is put in `state`. With a larger `size`, each cell of the grid that
    /// lies in the square of that side whose corner is one column left of
    /// and one row above `(x, y)` is put in `state` at one draw in three of
    /// the generator. The square does not wrap around: what of it lies
    /// outside the grid is left out.
    pub fn spawn_group(&mut self, x: isize, y: isize, size: isize, state: &str, rng: &RandGenerator)
        ensures
            final(self)@.is_same_grid(old(self)@),
            !old(self)@.ruleset.has_state(state@) || size <= 0 || !old(self)@.is_inhabited()
                ==> final(self)@ == old(self)@,
            old(self)@.ruleset.has_state(state@) && size == 1 && old(self)@.is_inhabited()
                ==> final(self)@ == old(self)@.with_cell(
                x as int,
                y as int,
                old(self)@.ruleset.cell_in(state@),
            ),
            old(self)@.ruleset.has_state(state@) && size > 1 && old(self)@.is_inhabited()
                ==> forall|p: int|
                0 <= p < old(self)@.cells.len() ==> {
                    ||| (#[trigger] final(self)@.cells[p]) == old(self)@.cells[p]
                    ||| final(self)@.cells[p] == old(self)@.ruleset.cell_in(state@) && old(
                        self,
                    )@.is_in_square(p, x as int, y as int, size as int)
                },
    {
        proof {
            use_type_invariant(&*self);
        }
        let ghost before = self@;
        let spawned = match self.ruleset.cell_in(state) {
            Some(cell) => cell,
            None => {
                return ;
            },
        };
        if size <= 0 || self.width == 0 || self.height == 0 {
            return ;
        }
        if size == 1 {
            self.set_cell(x, y, spawned);
            return ;
        }
        let mut dx: isize = 0;
        while dx < size
            invariant
                self@.wf(),
                self@.is_inhabited(),
                self@.is_same_grid(before),
                before == old(self)@,
                spawned@ == before.ruleset.cell_in(state@),
                0 <= dx <= size,
                forall|p: int|
                    0 <= p < before.cells.len() ==> {
                        ||| (#[trigger] self@.cells[p]) == before.cells[p]
                        ||| self@.cells[p] == spawned@ && before.is_in_square(
                            p,
                            x as int,
                            y as int,
                            size as int,
                        )
                    },
            decreases size - dx,
        {
            let mut dy: isize = 0;
            while dy < size
                invariant
                    self@.wf(),
                    self@.is_inhabited(),
                    self@.is_same_grid(before),
                    before == old(self)@,
                    spawned@ == before.ruleset.cell_in(state@),
                    0 <= dx < size,
                    0 <= dy <= size,
                    forall|p: int|
                        0 <= p < before.cells.len() ==> {
                            ||| (#[trigger] self@.cells[p]) == before.cells[p]
                            ||| self@.cells[p] == spawned@ && before.is_in_square(
                                p,
                                x as int,
                                y as int,
                                size as int,
                            )
                        },
                decreases size - dy,
            {
                let nx: i128 = x as i128 + dx as i128 - 1;
                let ny: i128 = y as i128 + dy as i128 - 1;
                if 0 <= nx && nx < self.width as i128 && 0 <= ny && ny < self.height as i128 {
                    if should_spawn(draw(rng)) {
                        let ghost current = self@;
                        let index = self.index_wide(nx, ny);
                        self.cells[index] = spawned.clone();
                        proof {
                            assert(index == before.index(x + dx - 1, y + dy - 1));
                            assert(before.is_in_square(index as int, x as int, y as int, size as int));
                            assert forall|p: int| 0 <= p < before.cells.len() implies {
                                ||| (#[trigger] self@.cells[p]) == before.cells[p]
                                ||| self@.cells[p] == spawned@ && before.is_in_square(
                                    p,
                                    x as int,
                                    y as int,
                                    size as int,
                                )
                            } by {
                                if p != index {
                                    assert(self@.cells[p] == current.cells[p]);
                                }
                            }
                        }
                    }
                }
                dy = dy + 1;
            }
            dx = dx + 1;
        }
    }
}

/// The cell in a state as it is declared: under its name, and in its colour.
pub fn cell_of(entry: &(String, RulesetState)) -> (cell: Cell)
    ensures
        cell@ == (CellView { state: entry.0@, colour: entry.1@.colour.rgba() }),
{
    Cell { state: entry.0.clone(), colour: entry.1.colour.rgba() }
}

/// The cell that a pick of the generator makes: the cell in the state
/// picked, as it is declared; or a copy of `fallback` where nothing was
/// picked.
pub fn picked_cell(picked: Option<&(String, RulesetState)>, fallback: &Cell) -> (cell: Cell)
    ensures
        cell@ == (match picked {
            Some(entry) => CellView { state: entry.0@, colour: entry.1@.colour.rgba() },
            None => fallback@,
        }),
{
    match picked {
        Some(entry) => cell_of(entry),
        None => fallback.clone(),
    }
}

/// A list of `count` cells, each a copy of `cell`.
fn filled(cell: &Cell, count: usize) -> (cells: Vec<Cell>)
    ensures
        cells@.len() == count,
        forall|i: int| 0 <= i < count ==> (#[trigger] cells@[i])@ == cell@,
{
    let mut cells: Vec<Cell> = Vec::new();
    let mut i: usize = 0;
    while i < count
        invariant
            i <= count,
            cells@.len() == i,
            forall|k: int| 0 <= k < i ==> (#[trigger] cells@[k])@ == cell@,
        decreases count - i,
    {
        cells.push(cell.clone());
        i = i + 1;
    }
    cells
}

} // verus!
