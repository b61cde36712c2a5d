//! The grid: where each habit is drawn, how much room all of them need, and
//! where the focus goes when it is moved.

use vstd::prelude::*;
use vstd::arithmetic::div_mod::lemma_fundamental_div_mod;
use crate::event::Direction;

verus! {

/// `n` divided by `d` and rounded up, for a positive `d`.
pub open spec fn ceil_div(n: nat, d: nat) -> nat {
    if n % d == 0 {
        n / d
    } else {
        n / d + 1
    }
}

/// A width and a height, in screen cells.
#[derive(Clone, Copy, Debug, PartialEq, Eq, Structural)]
pub struct Extent {
    pub width: usize,
    pub height: usize,
}

/// A place on the screen, in screen cells from the top left corner.
#[derive(Clone, Copy, Debug, PartialEq, Eq, Structural)]
pub struct Offset {
    pub x: usize,
    pub y: usize,
}

/// What a [`GridLayout`] stands for.
pub struct GridView {
    /// The width of one habit's view.
    pub cell_width: nat,
    /// The height of one habit's view.
    pub cell_height: nat,
    /// The number of habits in a row.
    pub grid_width: nat,
}

impl GridView {
    /// A row holds at least one habit.
    pub open spec fn wf(self) -> bool {
        self.grid_width >= 1
    }

    /// The room that `habit_count` habits need, as width and height:
    /// nothing for no habit, else a full row's width and the height of all
    /// the rows, the last of which may be partly empty.
    pub open spec fn required_size(self, habit_count: nat) -> (nat, nat) {
        if habit_count == 0 {
            (0, 0)
        } else {
            (
                self.grid_width * self.cell_width,
                self.cell_height * ceil_div(habit_count, self.grid_width),
            )
        }
    }

    /// Where the habit at `index` is drawn, as distance from the left and
    /// from the top.
    pub open spec fn offset_of(self, index: nat) -> (nat, nat) {
        (
            (index % self.grid_width) * self.cell_width,
            (index / self.grid_width) * self.cell_height,
        )
    }

    /// Where the focus goes from `focus` among `habit_count` habits.
    ///
    /// Right and left move by one and stop at the last and the first habit.
    /// Down moves by a row where that ends before the last habit and goes to
    /// the last habit otherwise; up moves by a row where there is one above
    /// and goes to the first habit otherwise. With no habit the focus stays.
    pub open spec fn next_focus(self, focus: nat, habit_count: nat, direction: Direction) -> nat {
        if habit_count == 0 {
            focus
        } else {
            match direction {
                Direction::Right => if focus != habit_count - 1 {
                    focus + 1
                } else {
                    focus
                },
                Direction::Left => if focus != 0 {
                    (focus - 1) as nat
                } else {
                    focus
                },
                Direction::Down => if focus + self.grid_width < habit_count - 1 {
                    focus + self.grid_width
                } else {
                    (habit_count - 1) as nat
                },
                Direction::Up => if focus - self.grid_width >= 0 {
                    (focus - self.grid_width) as nat
                } else {
                    0
                },
            }
        }
    }

    /// Where the focus is after all of `moves`, one after the other.
    pub open spec fn after_moves(self, focus: nat, habit_count: nat, moves: Seq<Direction>) -> nat
        decreases moves.len(),
    {
        if moves.len() == 0 {
            focus
        } else {
            self.next_focus(
                self.after_moves(focus, habit_count, moves.drop_last()),
                habit_count,
                moves.last(),
            )
        }
    }
}

/// The row of the status line under an extent of `height` rows: the row
/// above the last one, where there is one.
pub open spec fn status_row(height: nat) -> Option<nat> {
    if height >= 2 {
        Some((height - 2) as nat)
    } else {
        None
    }
}

/// However the focus is moved among one or more habits, it stays on one of
/// them.
pub proof fn lemma_focus_stays_on_a_habit(
    grid: GridView,
    focus: nat,
    habit_count: nat,
    moves: Seq<Direction>,
)
    requires
        habit_count > 0,
        focus < habit_count,
    ensures
        grid.after_moves(focus, habit_count, moves) < habit_count,
    decreases moves.len(),
{
    if moves.len() > 0 {
        lemma_focus_stays_on_a_habit(grid, focus, habit_count, moves.drop_last());
    }
}

/// At the edges the focus rests: up from the first habit leaves it on the
/// first, down from the last leaves it on the last.
pub proof fn lemma_focus_rests_at_the_edges(grid: GridView, habit_count: nat)
    requires
        habit_count > 0,
    ensures
        grid.next_focus(0, habit_count, Direction::Up) == 0,
        grid.next_focus((habit_count - 1) as nat, habit_count, Direction::Down) == habit_count - 1,
{
}

/// Where the whole grid has room, each of its habits has a place: if the
/// extent of `habit_count` habits fits the machine's numbers, so does the
/// offset of each of them.
pub proof fn lemma_offsets_within_extent(grid: GridView, habit_count: nat, index: nat)
    requires
        grid.wf(),
        index < habit_count,
    ensures
        grid.offset_of(index).0 <= grid.required_size(habit_count).0,
        grid.offset_of(index).1 <= grid.required_size(habit_count).1,
{
    let gw = grid.grid_width as int;
    let col = (index % grid.grid_width) as int;
    let row = (index / grid.grid_width) as int;
    let rows = ceil_div(habit_count, grid.grid_width) as int;
    lemma_fundamental_div_mod(index as int, gw);
    lemma_fundamental_div_mod(habit_count as int, gw);
    assert(0 <= col < gw);
    assert(row < rows) by (nonlinear_arith)
        requires
            index < habit_count,
            gw >= 1,
            index == gw * row + col,
            0 <= col < gw,
            habit_count == gw * (habit_count as int / gw) + (habit_count as int % gw),
            0 <= habit_count as int % gw < gw,
            rows == if habit_count as int % gw == 0 {
                habit_count as int / gw
            } else {
                habit_count as int / gw + 1
            },
    ;
    assert(col * grid.cell_width <= gw * grid.cell_width) by (nonlinear_arith)
        requires
            0 <= col < gw,
    ;
    assert(row * grid.cell_height <= grid.cell_height * rows) by (nonlinear_arith)
        requires
            0 <= row < rows,
    ;
}

/// The fixed measures of the grid.
#[derive(Clone, Copy, Debug, PartialEq, Eq, Structural)]
pub struct GridLayout {
    cell_width: usize,
    cell_height: usize,
    grid_width: usize,
}

impl View for GridLayout {
    type V = GridView;

    closed spec fn view(&self) -> GridView {
        GridView {
            cell_width: self.cell_width as nat,
            cell_height: self.cell_height as nat,
            grid_width: self.grid_width as nat,
        }
    }
}

impl Default for GridLayout {
    /// Three habits in a row, each 25 cells wide and 8 cells high.
    fn default() -> (layout: GridLayout)
        ensures
            layout@ == (GridView { cell_width: 25, cell_height: 8, grid_width: 3 }),
    {
        GridLayout { cell_width: 25, cell_height: 8, grid_width: 3 }
    }
}

impl GridLayout {
    /// What holds of every `GridLayout`: a row holds at least one habit.
    #[verifier::type_invariant]
    pub open spec fn is_valid(self) -> bool {
        self@.wf()
    }

    /// The layout with these measures, if a row holds at least one habit.
    pub fn new(cell_width: usize, cell_height: usize, grid_width: usize) -> (layout: Option<
        GridLayout,
    >)
        ensures
            layout is Some <==> grid_width >= 1,
            layout matches Some(l) ==> l@ == (GridView {
                cell_width: cell_width as nat,
                cell_height: cell_height as nat,
                grid_width: grid_width as nat,
            }),
    {
        if grid_width >= 1 {
            Some(GridLayout { cell_width, cell_height, grid_width })
        } else {
            None
        }
    }

    /// The width of one habit's view.
    pub fn cell_width(&self) -> (width: usize)
        ensures
            width == self@.cell_width,
    {
        self.cell_width
    }

    /// The height of one habit's view.
    pub fn cell_height(&self) -> (height: usize)
        ensures
            height == self@.cell_height,
    {
        self.cell_height
    }

    /// The number of habits in a row.
    pub fn grid_width(&self) -> (width: usize)
        ensures
            width == self@.grid_width,
            width >= 1,
    {
        proof {
            use_type_invariant(self);
        }
        self.grid_width
    }

    /// The room that `habit_count` habits need, unless a side of it is
    /// beyond the machine's numbers.
    pub fn required_size(&self, habit_count: usize) -> (size: Option<Extent>)
        ensures
            size is Some <==> self@.required_size(habit_count as nat).0 <= usize::MAX
                && self@.required_size(habit_count as nat).1 <= usize::MAX,
            size matches Some(extent) ==> extent.width == self@.required_size(habit_count as nat).0
                && extent.height == self@.required_size(habit_count as nat).1,
    {
        proof {
            use_type_invariant(self);
        }
        if habit_count == 0 {
            return Some(Extent { width: 0, height: 0 });
        }
        let full_rows = habit_count / self.grid_width;
        let rows = if habit_count % self.grid_width == 0 {
            full_rows
        } else {
            proof {
                let gw = self.grid_width as int;
                lemma_fundamental_div_mod(habit_count as int, gw);
                assert(full_rows < habit_count) by (nonlinear_arith)
                    requires
                        gw >= 1,
                        full_rows >= 0,
                        habit_count == gw * full_rows + (habit_count as int % gw),
                        habit_count as int % gw > 0,
                ;
            }
            full_rows + 1
        };
        match (self.grid_width.checked_mul(self.cell_width), self.cell_height.checked_mul(rows)) {
            (Some(width), Some(height)) => Some(Extent { width, height }),
            _ => None,
        }
    }

    /// Where the habit at `index` is drawn, unless that is beyond the
    /// machine's numbers.
    pub fn offset_of(&self, index: usize) -> (offset: Option<Offset>)
        ensures
            offset is Some <==> self@.offset_of(index as nat).0 <= usize::MAX && self@.offset_of(
                index as nat,
            ).1 <= usize::MAX,
            offset matches Some(o) ==> o.x == self@.offset_of(index as nat).0 && o.y
                == self@.offset_of(index as nat).1,
    {
        proof {
            use_type_invariant(self);
        }
        let column = index % self.grid_width;
        let row = index / self.grid_width;
        match (column.checked_mul(self.cell_width), row.checked_mul(self.cell_height)) {
            (Some(x), Some(y)) => Some(Offset { x, y }),
            _ => None,
        }
    }

    /// Where the focus goes from `focus` among `habit_count` habits.
    pub fn move_focus(&self, focus: usize, habit_count: usize, direction: Direction) -> (next:
        usize)
        requires
            habit_count > 0 ==> focus < habit_count,
        ensures
            next == self@.next_focus(focus as nat, habit_count as nat, direction),
            habit_count > 0 ==> next < habit_count,
            habit_count == 0 ==> next == focus,
            direction == Direction::Up && focus == 0 ==> next == 0,
            direction == Direction::Down && focus == habit_count - 1 ==> next == focus,
    {
        proof {
            use_type_invariant(self);
        }
        if habit_count == 0 {
            return focus;
        }
        let last = habit_count - 1;
        match direction {
            Direction::Right => if focus != last {
                focus + 1
            } else {
                focus
            },
            Direction::Left => if focus != 0 {
                focus - 1
            } else {
                focus
            },
            Direction::Down => if self.grid_width < last - focus {
                focus + self.grid_width
            } else {
                last
            },
            Direction::Up => if focus >= self.grid_width {
                focus - self.grid_width
            } else {
                0
            },
        }
    }
}

impl Extent {
    /// The row of the status line: the row above the last one of the
    /// extent, where the extent has two rows or more.
    pub fn status_row(&self) -> (row: Option<usize>)
        ensures
            row == match status_row(self.height as nat) {
                Some(r) => Some(r as usize),
                None => None,
            },
            row is Some <==> self.height >= 2,
            row matches Some(r) ==> r == self.height - 2,
    {
        if self.height >= 2 {
            Some(self.height - 2)
        } else {
            None
        }
    }
}

} // verus!
