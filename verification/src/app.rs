//! The tracker itself: the habits in their order, the focus and the
//! reactions to input.

use vstd::prelude::*;
use crate::date::{Date, Ymd};
use crate::event::{Command, Direction, Event};
use crate::grid::{lemma_offsets_within_extent, status_row, Extent, GridLayout, GridView, Offset};
use crate::habit::{lemma_remaining_within_total, sample_habit, Count, Habit, HabitView};
use crate::snapshot::{from_text, to_text, views_of, Snapshot};
use crate::text::{decimal, push_decimal, push_str, to_string};

verus! {

/// The span of time that the habits are asked to show.
#[derive(Clone, Copy, Debug, PartialEq, Eq, Structural)]
pub enum ViewMode {
    Day,
    Month,
    Year,
}

impl Default for ViewMode {
    fn default() -> (mode: ViewMode)
        ensures
            mode == ViewMode::Month,
    {
        ViewMode::Month
    }
}

/// The recorded days of all of `habits` together.
pub open spec fn total_of(habits: Seq<HabitView>) -> nat
    decreases habits.len(),
{
    if habits.len() == 0 {
        0
    } else {
        total_of(habits.drop_last()) + habits.last().total()
    }
}

/// The recorded days up to `as_of` that are not done, of all of `habits`
/// together.
pub open spec fn remaining_of(habits: Seq<HabitView>, as_of: Ymd) -> nat
    decreases habits.len(),
{
    if habits.len() == 0 {
        0
    } else {
        remaining_of(habits.drop_last(), as_of) + habits.last().remaining(as_of)
    }
}

/// The status line for these two numbers.
pub open spec fn status_text(completed: nat, remaining: nat) -> Seq<char> {
    decimal(completed) + " completed, "@ + decimal(remaining) + " remaining"@
}

/// What a [`Reaction`] stands for.
pub enum ReactionView {
    Ignored,
    Consumed,
    Save(Seq<char>),
    SaveAndQuit(Seq<char>),
}

/// What the tracker answers to an input.
#[derive(Clone, Debug, PartialEq, Eq)]
pub enum Reaction {
    /// The input meant nothing here.
    Ignored,
    /// The input was used.
    Consumed,
    /// The input was used, and this snapshot is to be written in place of
    /// what the store holds.
    Save(String),
    /// As [`Reaction::Save`]; once the snapshot is written the program is
    /// to end.
    SaveAndQuit(String),
}

impl View for Reaction {
    type V = ReactionView;

    open spec fn view(&self) -> ReactionView {
        match self {
            Reaction::Ignored => ReactionView::Ignored,
            Reaction::Consumed => ReactionView::Consumed,
            Reaction::Save(text) => ReactionView::Save(text@),
            Reaction::SaveAndQuit(text) => ReactionView::SaveAndQuit(text@),
        }
    }
}

impl Reaction {
    /// Whether the program is to end once the reaction was carried out:
    /// only after a request to save and quit, and only if the snapshot was
    /// written.
    pub fn ends_program(&self, written: bool) -> (ends: bool)
        ensures
            ends == (self@ is SaveAndQuit && written),
    {
        match self {
            Reaction::SaveAndQuit(_) => written,
            _ => false,
        }
    }
}

/// A text that is no snapshot of a tracker.
#[derive(Clone, Copy, Debug, PartialEq, Eq, Structural)]
pub struct DeserializationError;

/// Where one habit is drawn, and whether it is drawn as the focused one.
#[derive(Clone, Copy, Debug, PartialEq, Eq, Structural)]
pub struct Cell {
    pub offset: Offset,
    pub focused: bool,
}

/// What a draw request shows.
#[derive(Clone, Debug, PartialEq, Eq)]
pub struct Frame {
    /// The room that the habits need.
    pub size: Extent,
    /// A cell for each habit, in the order of the habits.
    pub cells: Vec<Cell>,
    /// Where the status line is drawn, if the extent has room for it.
    pub status_at: Option<Offset>,
    /// The status line.
    pub status: String,
}

/// What an [`App`] stands for.
pub struct AppView {
    /// The habits in the order in which they were added, which is the order
    /// in which they are drawn and walked through.
    pub habits: Seq<HabitView>,
    /// The place of the focused habit.
    pub focus: nat,
    pub mode: ViewMode,
    pub layout: GridView,
}

impl AppView {
    /// Every habit is well formed and the focus is on a habit; with no habit
    /// it is zero.
    pub open spec fn wf(self) -> bool {
        &&& forall|i: int| 0 <= i < self.habits.len() ==> (#[trigger] self.habits[i]).wf()
        &&& self.layout.wf()
        &&& if self.habits.len() == 0 {
            self.focus == 0
        } else {
            self.focus < self.habits.len()
        }
    }

    /// The recorded days of all habits.
    pub open spec fn total(self) -> nat {
        total_of(self.habits)
    }

    /// The recorded days up to `as_of` that are not done, over all habits.
    pub open spec fn remaining(self, as_of: Ymd) -> nat {
        remaining_of(self.habits, as_of)
    }

    /// The recorded days that are not among the remaining ones. This is a
    /// running tally over the whole ledger, not a count for one day.
    pub open spec fn completed(self, as_of: Ymd) -> int {
        self.total() - self.remaining(as_of)
    }

    /// The tracker with `habit` after the others; the focus stays.
    pub open spec fn with_habit(self, habit: HabitView) -> AppView {
        AppView { habits: self.habits.push(habit), ..self }
    }

    /// The tracker with the focus moved.
    pub open spec fn moved(self, direction: Direction) -> AppView {
        AppView {
            focus: self.layout.next_focus(self.focus, self.habits.len(), direction),
            ..self
        }
    }

    /// What is kept of the tracker on disk: the habits and the focus.
    pub open spec fn snapshot(self) -> Snapshot {
        Snapshot { habits: self.habits, focus: self.focus }
    }

    /// The status line as of `as_of`.
    pub open spec fn status(self, as_of: Ymd) -> Seq<char> {
        status_text(self.completed(as_of) as nat, self.remaining(as_of))
    }

    /// The tracker after an input on `today`: what the command of the input
    /// makes of it. An input that is no command goes to the focused habit,
    /// or nowhere with no habit.
    pub open spec fn after(self, event: Event, today: Ymd) -> AppView {
        match event.command() {
            Command::Focus(direction) => self.moved(direction),
            Command::AddSample => self.with_habit(HabitView::Count(sample_habit())),
            Command::RemoveFocused => self.without_focused(),
            Command::Save => self,
            Command::SaveAndQuit => self,
            Command::Forward => if self.habits.len() == 0 {
                self
            } else {
                AppView {
                    habits: self.habits.update(
                        self.focus as int,
                        self.habits[self.focus as int].after_input(event, today),
                    ),
                    ..self
                }
            },
        }
    }

    /// What the tracker answers to an input: a command is consumed, the two
    /// saving ones with the snapshot to write; what goes to the focused
    /// habit is consumed if it means a step to a habit, else ignored.
    pub open spec fn reaction(self, event: Event) -> ReactionView {
        match event.command() {
            Command::Focus(_) => ReactionView::Consumed,
            Command::AddSample => ReactionView::Consumed,
            Command::RemoveFocused => ReactionView::Consumed,
            Command::Save => ReactionView::Save(self.snapshot().text()),
            Command::SaveAndQuit => ReactionView::SaveAndQuit(self.snapshot().text()),
            Command::Forward => if self.habits.len() > 0 && event.step() is Some {
                ReactionView::Consumed
            } else {
                ReactionView::Ignored
            },
        }
    }

    /// The tracker without the focused habit. The focus stays where it was,
    /// or goes to the habit that is now the last; with no habit left it is
    /// zero. A tracker without habits stays as it is.
    pub open spec fn without_focused(self) -> AppView {
        if self.habits.len() == 0 {
            self
        } else {
            let rest = self.habits.remove(self.focus as int);
            AppView {
                habits: rest,
                focus: if rest.len() == 0 {
                    0
                } else if self.focus > rest.len() - 1 {
                    (rest.len() - 1) as nat
                } else {
                    self.focus
                },
                ..self
            }
        }
    }
}

/// The remaining days of any habits are among their recorded days.
pub proof fn lemma_remaining_of_within_total(habits: Seq<HabitView>, as_of: Ymd)
    requires
        forall|i: int| 0 <= i < habits.len() ==> (#[trigger] habits[i]).wf(),
    ensures
        remaining_of(habits, as_of) <= total_of(habits),
    decreases habits.len(),
{
    if habits.len() > 0 {
        let front = habits.drop_last();
        assert forall|i: int| 0 <= i < front.len() implies (#[trigger] front[i]).wf() by {
            assert(front[i] == habits[i]);
        }
        lemma_remaining_of_within_total(front, as_of);
        assert(habits[habits.len() - 1].wf());
        lemma_remaining_within_total(habits.last(), as_of);
    }
}

/// The status always adds up: the completed and the remaining days are the
/// recorded days, neither negative, whatever was recorded and whatever day
/// is asked about.
pub proof fn lemma_status_adds_up(app: AppView, as_of: Ymd)
    requires
        app.wf(),
    ensures
        app.completed(as_of) + app.remaining(as_of) == app.total(),
        app.completed(as_of) >= 0,
{
    lemma_remaining_of_within_total(app.habits, as_of);
}

/// Moving the focus and adding habits keep a tracker well formed, and so
/// keep the focus on a habit.
pub proof fn lemma_focus_stays_valid(app: AppView, direction: Direction, habit: HabitView)
    requires
        app.wf(),
        habit.wf(),
    ensures
        app.moved(direction).wf(),
        app.with_habit(habit).wf(),
        app.without_focused().wf(),
{
    let added = app.with_habit(habit);
    assert forall|i: int| 0 <= i < added.habits.len() implies (#[trigger] added.habits[i]).wf() by {
        if i < app.habits.len() {
            assert(added.habits[i] == app.habits[i]);
        }
    }
    let removed = app.without_focused();
    assert forall|i: int| 0 <= i < removed.habits.len() implies (#[trigger] removed.habits[i]).wf() by {
        if i < app.focus {
            assert(removed.habits[i] == app.habits[i]);
        } else {
            assert(removed.habits[i] == app.habits[i + 1]);
        }
    }
}

/// The tracker: habits, focus, view mode and layout.
#[derive(Clone, Debug, PartialEq, Eq)]
pub struct App {
    habits: Vec<Habit>,
    focus: usize,
    view_mode: ViewMode,
    layout: GridLayout,
}

impl View for App {
    type V = AppView;

    closed spec fn view(&self) -> AppView {
        AppView {
            habits: views_of(self.habits@),
            focus: self.focus as nat,
            mode: self.view_mode,
            layout: self.layout@,
        }
    }
}

impl App {
    /// Every habit is well formed and the focus is on a habit; with no habit
    /// it is zero.
    pub open spec fn wf(&self) -> bool {
        self@.wf()
    }

    /// A tracker without habits, in day mode, with the default layout.
    pub fn new() -> (app: App)
        ensures
            app.wf(),
            app@ == (AppView {
                habits: Seq::empty(),
                focus: 0,
                mode: ViewMode::Day,
                layout: GridView { cell_width: 25, cell_height: 8, grid_width: 3 },
            }),
    {
        let app = App {
            habits: Vec::new(),
            focus: 0,
            view_mode: ViewMode::Day,
            layout: GridLayout::default(),
        };
        assert(app@.habits =~= Seq::empty());
        app
    }

    /// A tracker without habits, in day mode, with the given layout.
    pub fn with_layout(layout: GridLayout) -> (app: App)
        ensures
            app.wf(),
            app@ == (AppView {
                habits: Seq::empty(),
                focus: 0,
                mode: ViewMode::Day,
                layout: layout@,
            }),
    {
        proof {
            use_type_invariant(&layout);
        }
        let app = App { habits: Vec::new(), focus: 0, view_mode: ViewMode::Day, layout };
        assert(app@.habits =~= Seq::empty());
        app
    }

    /// Adds `habit` after the others. The focus stays where it is.
    pub fn add_habit(&mut self, habit: Habit)
        requires
            old(self).wf(),
            habit.wf(),
        ensures
            final(self).wf(),
            final(self)@ == old(self)@.with_habit(habit@),
    {
        let ghost before = self@;
        self.habits.push(habit);
        proof {
            assert(self@.habits =~= before.habits.push(habit@));
            lemma_focus_stays_valid(before, Direction::Left, habit@);
        }
    }

    /// Sets the view mode.
    pub fn set_mode(&mut self, set_mode: ViewMode)
        ensures
            final(self)@ == (AppView { mode: set_mode, ..old(self)@ }),
            old(self).wf() ==> final(self).wf(),
    {
        if set_mode != self.view_mode {
            self.view_mode = set_mode;
        }
    }

    /// Moves the focus. With no habit nothing happens.
    pub fn set_focus(&mut self, direction: Direction)
        requires
            old(self).wf(),
        ensures
            final(self).wf(),
            final(self)@ == old(self)@.moved(direction),
            final(self)@.habits.len() > 0 ==> final(self)@.focus < final(self)@.habits.len(),
    {
        self.focus = self.layout.move_focus(self.focus, self.habits.len(), direction);
    }

    /// Removes the focused habit and hands it out; with no habit nothing
    /// happens and nothing is handed out. The focus stays where it was, or
    /// goes to the habit that is now the last.
    pub fn remove_focused(&mut self) -> (removed: Option<Habit>)
        requires
            old(self).wf(),
        ensures
            final(self).wf(),
            final(self)@ == old(self)@.without_focused(),
            removed is Some <==> old(self)@.habits.len() > 0,
            removed matches Some(habit) ==> habit@ == old(self)@.habits[old(self)@.focus as int],
    {
        let ghost before = self@;
        if self.habits.len() == 0 {
            return None;
        }
        let habit = self.habits.remove(self.focus);
        let len = self.habits.len();
        if len == 0 {
            self.focus = 0;
        } else if self.focus > len - 1 {
            self.focus = len - 1;
        }
        proof {
            assert(self@.habits =~= before.habits.remove(before.focus as int));
            lemma_focus_stays_valid(before, Direction::Left, before.habits[0]);
        }
        Some(habit)
    }

    /// The completed and the remaining days as of `as_of`, in this order.
    ///
    /// The remaining days are the recorded days up to `as_of` that are not
    /// done, over all habits; the completed days are all other recorded
    /// days. The numbers are wide enough for any tracker.
    pub fn status_summary(&self, as_of: Date) -> (status: (u128, u128))
        requires
            self.wf(),
        ensures
            status.1 == self@.remaining(as_of@),
            status.0 == self@.completed(as_of@),
            status.0 + status.1 == self@.total(),
    {
        let mut total: u128 = 0;
        let mut remaining: u128 = 0;
        let mut i: usize = 0;
        while i < self.habits.len()
            invariant
                self.wf(),
                i <= self.habits.len(),
                self@.habits.len() == self.habits.len(),
                total == total_of(self@.habits.take(i as int)),
                remaining == remaining_of(self@.habits.take(i as int), as_of@),
                remaining <= total <= i * 0x1_0000_0000,
            decreases self.habits.len() - i,
        {
            let habit = &self.habits[i];
            proof {
                let upto = self@.habits.take(i + 1);
                assert(upto.drop_last() =~= self@.habits.take(i as int));
                assert(upto.last() == self@.habits[i as int]);
                assert(self@.habits[i as int] == habit@);
                assert(habit.wf());
            }
            total = total + habit.total() as u128;
            remaining = remaining + habit.remaining(as_of) as u128;
            i += 1;
        }
        proof {
            assert(self@.habits.take(i as int) =~= self@.habits);
        }
        (total - remaining, remaining)
    }

    /// The place of the focused habit; zero where there is no habit.
    pub fn focus(&self) -> (focus: usize)
        ensures
            focus == self@.focus,
    {
        self.focus
    }

    /// The number of habits.
    pub fn habit_count(&self) -> (count: usize)
        ensures
            count == self@.habits.len(),
    {
        self.habits.len()
    }

    /// The habit at place `index`.
    pub fn habit(&self, index: usize) -> (habit: &Habit)
        requires
            index < self@.habits.len(),
        ensures
            habit@ == self@.habits[index as int],
    {
        &self.habits[index]
    }

    /// The view mode.
    pub fn view_mode(&self) -> (mode: ViewMode)
        ensures
            mode == self@.mode,
    {
        self.view_mode
    }

    /// The layout of the grid.
    pub fn layout(&self) -> (layout: GridLayout)
        ensures
            layout@ == self@.layout,
    {
        self.layout
    }

    /// The status line as of `as_of`: the completed days, then the
    /// remaining ones.
    pub fn status_at(&self, as_of: Date) -> (line: String)
        requires
            self.wf(),
        ensures
            line@ == self@.status(as_of@),
    {
        let (completed, remaining) = self.status_summary(as_of);
        let mut out: Vec<char> = Vec::new();
        push_decimal(&mut out, completed);
        push_str(&mut out, " completed, ");
        push_decimal(&mut out, remaining);
        push_str(&mut out, " remaining");
        assert(out@ =~= self@.status(as_of@));
        to_string(&out)
    }

    /// The status line as of today, the day that the system clock shows.
    pub fn status(&self) -> (line: String)
        requires
            self.wf(),
        ensures
            exists|today: Ymd| today.is_calendar_date() && line@ == self@.status(today),
    {
        let today = Date::today();
        self.status_at(today)
    }

    /// The room that the habits need, unless a side of it is beyond the
    /// machine's numbers.
    pub fn required_size(&self) -> (size: Option<Extent>)
        ensures
            size is Some <==> self@.layout.required_size(self@.habits.len()).0 <= usize::MAX
                && self@.layout.required_size(self@.habits.len()).1 <= usize::MAX,
            size matches Some(extent) ==> extent.width == self@.layout.required_size(
                self@.habits.len(),
            ).0 && extent.height == self@.layout.required_size(self@.habits.len()).1,
    {
        self.layout.required_size(self.habits.len())
    }

    /// What a draw request shows as of `as_of`: the room needed, for each
    /// habit its place and whether it has the focus, and the status line in
    /// the row above the last, at the left edge. Nothing is shown where the
    /// room needed is beyond the machine's numbers; the status line has no
    /// place where the room is less than two rows high.
    pub fn frame_at(&self, as_of: Date) -> (frame: Option<Frame>)
        requires
            self.wf(),
        ensures
            frame is Some <==> self@.layout.required_size(self@.habits.len()).0 <= usize::MAX
                && self@.layout.required_size(self@.habits.len()).1 <= usize::MAX,
            frame matches Some(shown) ==> {
                &&& shown.size.width == self@.layout.required_size(self@.habits.len()).0
                &&& shown.size.height == self@.layout.required_size(self@.habits.len()).1
                &&& shown.cells@.len() == self@.habits.len()
                &&& forall|i: int|
                    0 <= i < shown.cells@.len() ==> {
                        &&& (#[trigger] shown.cells@[i]).offset.x == self@.layout.offset_of(
                            i as nat,
                        ).0
                        &&& shown.cells@[i].offset.y == self@.layout.offset_of(i as nat).1
                        &&& shown.cells@[i].focused == (i == self@.focus)
                    }
                &&& shown.status_at == match status_row(shown.size.height as nat) {
                    Some(row) => Some(Offset { x: 0, y: row as usize }),
                    None => None,
                }
                &&& shown.status@ == self@.status(as_of@)
            },
    {
        let count = self.habits.len();
        let size = match self.layout.required_size(count) {
            Some(size) => size,
            None => {
                return None;
            },
        };
        let mut cells: Vec<Cell> = Vec::new();
        let mut i: usize = 0;
        while i < count
            invariant
                i <= count,
                count == self@.habits.len(),
                self.wf(),
                size.width == self@.layout.required_size(count as nat).0,
                size.height == self@.layout.required_size(count as nat).1,
                cells@.len() == i,
                forall|j: int|
                    0 <= j < i ==> {
                        &&& (#[trigger] cells@[j]).offset.x == self@.layout.offset_of(j as nat).0
                        &&& cells@[j].offset.y == self@.layout.offset_of(j as nat).1
                        &&& cells@[j].focused == (j == self@.focus)
                    },
            decreases count - i,
        {
            proof {
                lemma_offsets_within_extent(self@.layout, count as nat, i as nat);
            }
            match self.layout.offset_of(i) {
                Some(offset) => {
                    cells.push(Cell { offset, focused: i == self.focus });
                },
                None => {
                    assert(false);
                },
            }
            i += 1;
        }
        let status_at = match size.status_row() {
            Some(row) => Some(Offset { x: 0, y: row }),
            None => None,
        };
        Some(Frame { size, cells, status_at, status: self.status_at(as_of) })
    }

    /// The snapshot of the tracker as text, to be written in place of what
    /// the store holds. Loading that text gives the habits and the focus
    /// back.
    pub fn save_state(&self) -> (text: String)
        requires
            self.wf(),
        ensures
            text@ == self@.snapshot().text(),
            Snapshot::of(text@) == Some(self@.snapshot()),
    {
        proof {
            assert(self@.snapshot().wf());
            crate::snapshot::lemma_round_trip(self@.snapshot());
        }
        assert forall|i: int| 0 <= i < self.habits@.len() implies (#[trigger] self.habits@[i]).wf() by {
            assert(self@.habits[i].wf());
        }
        to_text(&self.habits, self.focus)
    }

    /// The tracker that `text` is the snapshot of, in month mode and with
    /// the given layout; an error where `text` is the snapshot of no
    /// tracker.
    pub fn load_state(text: &str, layout: GridLayout) -> (loaded: Result<App, DeserializationError>)
        ensures
            match Snapshot::of(text@) {
                Some(snapshot) => loaded matches Ok(app) && app.wf() && app@ == (AppView {
                    habits: snapshot.habits,
                    focus: snapshot.focus,
                    mode: ViewMode::Month,
                    layout: layout@,
                }),
                None => loaded is Err,
            },
    {
        proof {
            use_type_invariant(&layout);
        }
        match from_text(text) {
            Some((habits, focus)) => {
                proof {
                    crate::snapshot::lemma_one_snapshot(text@);
                    crate::snapshot::lemma_snapshot_read(text@, Snapshot::of(text@).unwrap());
                }
                Ok(App { habits, focus, view_mode: ViewMode::default(), layout })
            },
            None => Err(DeserializationError),
        }
    }

    /// Reacts to an input on `today`: carries out its command, or hands it
    /// to the focused habit.
    pub fn on_event_at(&mut self, event: Event, today: Date) -> (reaction: Reaction)
        requires
            old(self).wf(),
        ensures
            final(self).wf(),
            final(self)@ == old(self)@.after(event, today@),
            reaction@ == old(self)@.reaction(event),
    {
        let ghost before = self@;
        match event.to_command() {
            Command::Focus(direction) => {
                self.set_focus(direction);
                Reaction::Consumed
            },
            Command::AddSample => {
                self.add_habit(Habit::Count(Count::sample()));
                Reaction::Consumed
            },
            Command::RemoveFocused => {
                let _ = self.remove_focused();
                Reaction::Consumed
            },
            Command::Save => Reaction::Save(self.save_state()),
            Command::SaveAndQuit => Reaction::SaveAndQuit(self.save_state()),
            Command::Forward => {
                if self.habits.len() == 0 {
                    return Reaction::Ignored;
                }
                let focus = self.focus;
                assert(self.habits@[focus as int].wf()) by {
                    assert(before.habits[focus as int].wf());
                }
                let consumed = self.habits[focus].handle_input(&event, today);
                proof {
                    assert(self@.habits =~= before.habits.update(
                        focus as int,
                        before.habits[focus as int].after_input(event, today@),
                    ));
                    assert forall|i: int| 0 <= i < self@.habits.len() implies (
                    #[trigger] self@.habits[i]).wf() by {
                        if i != focus {
                            assert(self@.habits[i] == before.habits[i]);
                        }
                    }
                }
                if consumed {
                    Reaction::Consumed
                } else {
                    Reaction::Ignored
                }
            },
        }
    }

    /// Reacts to an input on the day that the system clock shows.
    pub fn on_event(&mut self, event: Event) -> (reaction: Reaction)
        requires
            old(self).wf(),
        ensures
            final(self).wf(),
            reaction@ == old(self)@.reaction(event),
            exists|today: Ymd|
                today.is_calendar_date() && final(self)@ == old(self)@.after(event, today),
    {
        let today = Date::today();
        self.on_event_at(event, today)
    }

    /// Whether the tracker wants the keyboard focus for itself: never. The
    /// input comes to it first in any case, and it hands on what it does not
    /// use.
    pub fn take_focus(&self) -> (taken: bool)
        ensures
            !taken,
    {
        false
    }
}

} // verus!
