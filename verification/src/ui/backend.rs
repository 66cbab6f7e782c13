//! The handler that carries out the commands of the user on a view and
//! makes the states that are shown to the user.
//!
//! The handler is driven from outside: whoever owns it hands it each command
//! and each tick of the clock, and sends on the states that it makes.

use crate::errors::ViewError;
use crate::file_buffer::pattern::{regex_compiles, SearchPattern};
use crate::file_buffer::FileBuffer;
use crate::file_view::file_view::{scale, FileView, ViewState};
use crate::file_view::motion::{newlines, stalled_down};
use std::sync::atomic::AtomicBool;
use vstd::prelude::*;

verus! {

/// The number of lines that the view is asked to go down at once while it
/// follows the end of the file.
pub const FOLLOW_STEP: u64 = 1_000_000;

/// The time between two looks at the size of the file while the view
/// follows its end, in milliseconds.
pub const FOLLOW_TICK_MS: u64 = 100;

/// The time between two looks at the size of the file otherwise, in
/// milliseconds.
pub const IDLE_TICK_MS: u64 = 10_000;

/// What the user can ask for.
#[derive(Debug, Clone, PartialEq)]
pub enum Command {
    /// Move by that many lines: down where the number is positive, up where
    /// it is negative.
    MoveLine(i64),
    /// Go to the line of that number.
    JumpLine(i64),
    /// Go to the part of the file given by the ratio of the two numbers,
    /// which is taken as 1 where it is larger.
    JumpFileRatio(u64, u64),
    /// Search for the pattern from the line of the cursor on.
    SearchDown(String),
    /// Search for the pattern below the line of the cursor.
    SearchDownNext(String),
    /// Search for the pattern above the cursor.
    SearchUp(String),
    /// Follow the end of the file, or stop following it.
    Follow(bool),
    /// The screen now wraps lines after that many columns, if at all, and
    /// shows that many rows.
    Resize(Option<usize>, usize),
    /// Remember the place of the view under the name.
    SaveMark(String),
    /// Go back to the place remembered under the name.
    LoadMark(String),
}

/// What is to be done about the file before the next state is made.
#[derive(Debug, Clone, Copy, PartialEq, Eq)]
pub enum Reload {
    /// Another file has taken the place of the file: it is opened anew.
    Open,
    /// The file has another length than the view holds: it is mapped again.
    Remap,
    /// The file is the one that the view holds.
    Keep,
}

/// What is shown to the user.
pub struct BackendState {
    /// The path that the user gave for the file.
    pub file_path: String,
    /// The path under which the file was found.
    pub real_file_path: String,
    /// The length of the file.
    pub file_size: u64,
    /// What went wrong with the last command and with making this state.
    pub errors: Vec<ViewError>,
    /// The number of the first line shown, if it is known.
    pub current_line: Option<i64>,
    /// The place in the file of the first line shown.
    pub offset: u64,
    /// The lines shown.
    pub text: Vec<String>,
    /// Whether the view follows the end of the file.
    pub follow: bool,
    /// The names of the marks.
    pub marks: Vec<String>,
}

impl BackendState {
    /// The state before anything is known of the file.
    pub fn new() -> (state: Self)
        ensures
            state.file_path@ == Seq::<char>::empty(),
            state.real_file_path@ == Seq::<char>::empty(),
            state.file_size == 0,
            state.errors@ == Seq::<ViewError>::empty(),
            state.current_line == None::<i64>,
            state.offset == 0,
            state.text@ == Seq::<String>::empty(),
            !state.follow,
            state.marks@ == Seq::<String>::empty(),
    {
        BackendState {
            file_path: String::new(),
            real_file_path: String::new(),
            text: Vec::new(),
            errors: Vec::new(),
            follow: false,
            file_size: 0,
            current_line: None,
            offset: 0,
            marks: Vec::new(),
        }
    }
}

/// The place saved under `name`: that of the first mark of this name.
pub open spec fn mark_of(marks: Seq<(String, ViewState)>, name: Seq<char>) -> Option<ViewState>
    decreases marks.len(),
{
    if marks.len() == 0 {
        None
    } else if marks[0].0@ == name {
        Some(marks[0].1)
    } else {
        mark_of(marks.skip(1), name)
    }
}

/// Whether no two marks have the same name.
pub open spec fn distinct_names(marks: Seq<(String, ViewState)>) -> bool {
    forall|i: int, j: int|
        0 <= i < j < marks.len() ==> (#[trigger] marks[i]).0@ != (#[trigger] marks[j]).0@
}

/// The place saved under a name that no mark before `at` has is the place
/// saved under it from `at` on.
proof fn lemma_mark_of_skip(marks: Seq<(String, ViewState)>, name: Seq<char>, at: int)
    requires
        0 <= at <= marks.len(),
        forall|i: int| 0 <= i < at ==> (#[trigger] marks[i]).0@ != name,
    ensures
        mark_of(marks, name) == mark_of(marks.skip(at), name),
    decreases at,
{
    if at > 0 {
        assert(marks[0].0@ != name);
        let rest = marks.skip(1);
        assert forall|i: int| 0 <= i < at - 1 implies (#[trigger] rest[i]).0@ != name by {
            assert(rest[i] == marks[i + 1]);
        }
        lemma_mark_of_skip(rest, name, at - 1);
        assert(rest.skip(at - 1) =~= marks.skip(at));
    } else {
        assert(marks.skip(0) =~= marks);
    }
}

/// A mark put in the place of the mark at `at` is found under its name, and
/// the marks of other names are found as before.
proof fn lemma_mark_of_update(
    marks: Seq<(String, ViewState)>,
    at: int,
    entry: (String, ViewState),
    name: Seq<char>,
)
    requires
        0 <= at < marks.len(),
        marks[at].0@ == entry.0@,
        forall|i: int| 0 <= i < at ==> (#[trigger] marks[i]).0@ != entry.0@,
    ensures
        mark_of(marks.update(at, entry), name) == if name == entry.0@ {
            Some(entry.1)
        } else {
            mark_of(marks, name)
        },
    decreases at,
{
    let changed = marks.update(at, entry);
    if at == 0 {
        assert(changed.skip(1) =~= marks.skip(1));
    } else {
        assert(changed[0] == marks[0]);
        let rest = marks.skip(1);
        assert forall|i: int| 0 <= i < at - 1 implies (#[trigger] rest[i]).0@ != entry.0@ by {
            assert(rest[i] == marks[i + 1]);
        }
        lemma_mark_of_update(rest, at - 1, entry, name);
        assert(changed.skip(1) =~= rest.update(at - 1, entry));
    }
}

/// A mark added behind marks of other names is found under its name, and
/// the marks of other names are found as before.
proof fn lemma_mark_of_push(marks: Seq<(String, ViewState)>, entry: (String, ViewState),
    name: Seq<char>)
    requires
        forall|i: int| 0 <= i < marks.len() ==> (#[trigger] marks[i]).0@ != entry.0@,
    ensures
        mark_of(marks.push(entry), name) == if name == entry.0@ {
            Some(entry.1)
        } else {
            mark_of(marks, name)
        },
    decreases marks.len(),
{
    let more = marks.push(entry);
    if marks.len() == 0 {
        assert(more.skip(1) =~= Seq::<(String, ViewState)>::empty());
        assert(more[0] == entry);
        assert(mark_of(more.skip(1), name) is None);
        assert(mark_of(marks, name) is None);
    } else {
        assert(more[0] == marks[0]);
        let rest = marks.skip(1);
        assert forall|i: int| 0 <= i < rest.len() implies (#[trigger] rest[i]).0@ != entry.0@ by {
            assert(rest[i] == marks[i + 1]);
        }
        lemma_mark_of_push(rest, entry, name);
        assert(more.skip(1) =~= rest.push(entry));
    }
}

/// The handler of commands for one view.
pub struct Backend<B: FileBuffer> {
    file_path: String,
    file_view: FileView<B>,
    view_width: Option<usize>,
    view_height: usize,
    marks: Vec<(String, ViewState)>,
    follow: bool,
    command_errors: Vec<ViewError>,
    last_file_size: u64,
}

impl<B: FileBuffer> Backend<B> {
    /// The view is well formed and no two marks have the same name.
    pub closed spec fn wf(&self) -> bool {
        &&& self.file_view.wf()
        &&& distinct_names(self.marks@)
    }

    /// The view.
    pub closed spec fn view(&self) -> FileView<B> {
        self.file_view
    }

    /// The view of a well-formed handler is well formed, and no two of its
    /// marks have the same name.
    pub proof fn lemma_wf(&self)
        requires
            self.wf(),
        ensures
            self.view().wf(),
            distinct_names(self.marks_view()),
    {
    }

    /// The marks, in the order in which their names were first used.
    pub closed spec fn marks_view(&self) -> Seq<(String, ViewState)> {
        self.marks@
    }

    /// Whether the view follows the end of the file.
    pub closed spec fn follow_view(&self) -> bool {
        self.follow
    }

    /// The number of columns after which lines are wrapped, if they are,
    /// and the number of rows of the screen.
    pub closed spec fn size_view(&self) -> (Option<usize>, usize) {
        (self.view_width, self.view_height)
    }

    /// The errors of the last command.
    pub closed spec fn errors_view(&self) -> Seq<ViewError> {
        self.command_errors@
    }

    /// The path that the user gave for the file.
    pub closed spec fn path_view(&self) -> Seq<char> {
        self.file_path@
    }

    /// The size of the file when it was last looked at.
    pub closed spec fn seen_size(&self) -> u64 {
        self.last_file_size
    }

    /// Whether the handler is as `other` but for its view and the errors of
    /// the last command.
    pub open spec fn same_setup(&self, other: &Self) -> bool {
        &&& self.marks_view() == other.marks_view()
        &&& self.follow_view() == other.follow_view()
        &&& self.size_view() == other.size_view()
        &&& self.path_view() == other.path_view()
        &&& self.seen_size() == other.seen_size()
    }

    /// A handler for the view of the file that the user named `file_path`.
    /// It has no marks, does not follow, and knows of no screen yet.
    pub fn new(file_path: String, file_view: FileView<B>) -> (backend: Self)
        requires
            file_view.wf(),
        ensures
            backend.wf(),
            backend.view() == file_view,
            backend.marks_view() == Seq::<(String, ViewState)>::empty(),
            !backend.follow_view(),
            backend.size_view() == (None::<usize>, 0usize),
            backend.errors_view() == Seq::<ViewError>::empty(),
            backend.path_view() == file_path@,
            backend.seen_size() == 0,
    {
        Backend {
            file_path,
            file_view,
            view_width: None,
            view_height: 0,
            marks: Vec::new(),
            follow: false,
            command_errors: Vec::new(),
            last_file_size: 0,
        }
    }

    /// Whether the view follows the end of the file.
    pub fn follow(&self) -> (follow: bool)
        ensures
            follow == self.follow_view(),
    {
        self.follow
    }

    /// The time to wait for a command before the size of the file is looked
    /// at again, in milliseconds.
    pub fn sleep_time_ms(&self) -> (ms: u64)
        ensures
            ms == if self.follow_view() {
                FOLLOW_TICK_MS
            } else {
                IDLE_TICK_MS
            },
    {
        if self.follow {
            FOLLOW_TICK_MS
        } else {
            IDLE_TICK_MS
        }
    }

    /// The length of the file as the view sees it.
    pub fn mapped_size(&self) -> (size: u64)
        requires
            self.wf(),
        ensures
            size == self.view().buffer().file().len(),
    {
        self.file_view.file_size()
    }

    /// The path that the view was opened with.
    pub fn real_file_path(&self) -> (path: &str)
        ensures
            path@ == self.view().path_view(),
    {
        self.file_view.real_file_path()
    }

    /// What is to be done about the file, which is now found under
    /// `real_path` and has `file_size` bytes: it is opened anew where the
    /// path is not the one that the view was opened with, mapped again
    /// where its length is not the one that the view holds, and kept else.
    pub fn reload_needed(&self, real_path: &String, file_size: u64) -> (what: Reload)
        requires
            self.wf(),
        ensures
            what == (if real_path@ != self.view().path_view() {
                Reload::Open
            } else if file_size != self.view().file().len() {
                Reload::Remap
            } else {
                Reload::Keep
            }),
    {
        if !self.file_view.has_path(real_path) {
            Reload::Open
        } else if file_size != self.file_view.file_size() {
            Reload::Remap
        } else {
            Reload::Keep
        }
    }

    /// Takes note of the size that the file has now, and tells whether it
    /// differs from the size noted before, so that a new state is due.
    pub fn tick(&mut self, file_size: u64) -> (changed: bool)
        ensures
            changed == (file_size != old(self).seen_size()),
            final(self).seen_size() == file_size,
            final(self).view() == old(self).view(),
            final(self).marks_view() == old(self).marks_view(),
            final(self).follow_view() == old(self).follow_view(),
            final(self).size_view() == old(self).size_view(),
            final(self).errors_view() == old(self).errors_view(),
            final(self).path_view() == old(self).path_view(),
            old(self).wf() ==> final(self).wf(),
    {
        let changed = file_size != self.last_file_size;
        self.last_file_size = file_size;
        changed
    }

    /// The index of the mark of that name.
    fn find_mark(&self, name: &String) -> (found: Option<usize>)
        ensures
            match found {
                Some(at) => {
                    &&& at < self.marks@.len()
                    &&& self.marks@[at as int].0@ == name@
                    &&& forall|i: int| 0 <= i < at ==> (#[trigger] self.marks@[i]).0@ != name@
                    &&& mark_of(self.marks@, name@) == Some(self.marks@[at as int].1)
                },
                None => {
                    &&& forall|i: int|
                        0 <= i < self.marks@.len() ==> (#[trigger] self.marks@[i]).0@ != name@
                    &&& mark_of(self.marks@, name@) is None
                },
            },
    {
        let mut i: usize = 0;
        while i < self.marks.len()
            invariant
                i <= self.marks@.len(),
                forall|k: int| 0 <= k < i ==> (#[trigger] self.marks@[k]).0@ != name@,
            decreases self.marks@.len() - i,
        {
            if self.marks[i].0 == *name {
                proof {
                    lemma_mark_of_skip(self.marks@, name@, i as int);
                    assert(self.marks@.skip(i as int)[0] == self.marks@[i as int]);
                }
                return Some(i);
            }
            i = i + 1;
        }
        proof {
            lemma_mark_of_skip(self.marks@, name@, self.marks@.len() as int);
            assert(self.marks@.skip(self.marks@.len() as int) =~= Seq::<
                (String, ViewState),
            >::empty());
        }
        None
    }

    /// Remembers the place of the view under `name`, in the place of an
    /// older mark of that name if there is one.
    fn save_mark(&mut self, name: String)
        requires
            old(self).wf(),
        ensures
            final(self).wf(),
            final(self).view() == old(self).view(),
            final(self).follow_view() == old(self).follow_view(),
            final(self).size_view() == old(self).size_view(),
            final(self).errors_view() == old(self).errors_view(),
            final(self).path_view() == old(self).path_view(),
            final(self).seen_size() == old(self).seen_size(),
            forall|other: Seq<char>|
                #[trigger] mark_of(final(self).marks_view(), other) == if other == name@ {
                    Some(old(self).view().state_view())
                } else {
                    mark_of(old(self).marks_view(), other)
                },
    {
        let state = self.file_view.save_state();
        let ghost before = self.marks@;
        let ghost label = name@;
        match self.find_mark(&name) {
            Some(at) => {
                let entry = (name, state);
                self.marks[at] = entry;
                proof {
                    assert forall|other: Seq<char>| #[trigger]
                        mark_of(self.marks@, other) == if other == label {
                            Some(state)
                        } else {
                            mark_of(before, other)
                        } by {
                        lemma_mark_of_update(before, at as int, entry, other);
                    }
                    assert forall|i: int, j: int| 0 <= i < j < self.marks@.len() implies (
                    #[trigger] self.marks@[i]).0@ != (#[trigger] self.marks@[j]).0@ by {
                        assert(self.marks@[i].0@ == before[i].0@);
                        assert(self.marks@[j].0@ == before[j].0@);
                    }
                }
            },
            None => {
                let entry = (name, state);
                self.marks.push(entry);
                proof {
                    assert forall|other: Seq<char>| #[trigger]
                        mark_of(self.marks@, other) == if other == label {
                            Some(state)
                        } else {
                            mark_of(before, other)
                        } by {
                        lemma_mark_of_push(before, entry, other);
                    }
                    assert forall|i: int, j: int| 0 <= i < j < self.marks@.len() implies (
                    #[trigger] self.marks@[i]).0@ != (#[trigger] self.marks@[j]).0@ by {
                        if j < before.len() {
                            assert(self.marks@[i] == before[i]);
                            assert(self.marks@[j] == before[j]);
                        } else {
                            assert(self.marks@[i] == before[i]);
                        }
                    }
                }
            },
        }
    }

    /// What holds of the handler before and after it carried out a command,
    /// leaving aside the errors that it keeps of the last command.
    pub open spec fn carried_out(
        before: Self,
        command: Command,
        after: Self,
        done: Result<(), ViewError>,
    ) -> bool {
        &&& after.wf()
        &&& after.view().same_file(&before.view())
        &&& after.path_view() == before.path_view()
        &&& after.seen_size() == before.seen_size()
        &&& !(command is Follow) ==> after.follow_view() == before.follow_view()
        &&& !(command is Resize) ==> after.size_view() == before.size_view()
        &&& !(command is SaveMark) ==> after.marks_view() == before.marks_view()
        &&& match command {
                Command::MoveLine(lines) => {
                    &&& lines == 0 ==> done is Ok && after.view() == before.view()
                    &&& lines > 0 ==> FileView::<B>::down_post(
                        before.view(),
                        lines as u64,
                        after.view(),
                        done,
                    )
                    &&& lines < 0 ==> FileView::<B>::up_post(
                        before.view(),
                        (-lines) as u64,
                        after.view(),
                        done,
                    )
                },
                Command::JumpLine(line) => FileView::<B>::jump_to_line_post(
                    before.view(),
                    line,
                    after.view(),
                    done,
                ),
                Command::JumpFileRatio(part, whole) => FileView::<B>::jump_to_byte_post(
                    before.view(),
                    self::ratio_byte(before.view().file().len(), part, whole),
                    after.view(),
                    done,
                ),
                Command::SearchDown(pattern) => if regex_compiles(pattern@) {
                    FileView::<B>::down_to_line_matching_post(
                        before.view(),
                        pattern@,
                        false,
                        after.view(),
                        done,
                    )
                } else {
                    done == Err::<(), ViewError>(ViewError::InvalidRegex) && after.view()
                        == before.view()
                },
                Command::SearchDownNext(pattern) => if regex_compiles(pattern@) {
                    FileView::<B>::down_to_line_matching_post(
                        before.view(),
                        pattern@,
                        true,
                        after.view(),
                        done,
                    )
                } else {
                    done == Err::<(), ViewError>(ViewError::InvalidRegex) && after.view()
                        == before.view()
                },
                Command::SearchUp(pattern) => if regex_compiles(pattern@) {
                    FileView::<B>::up_to_line_matching_post(
                        before.view(),
                        pattern@,
                        after.view(),
                        done,
                    )
                } else {
                    done == Err::<(), ViewError>(ViewError::InvalidRegex) && after.view()
                        == before.view()
                },
                Command::Follow(follow) => {
                    &&& after.follow_view() == follow
                    &&& follow ==> FileView::<B>::bottom_post(
                        before.view(),
                        after.view(),
                        done,
                    )
                    &&& !follow ==> done is Ok && after.view() == before.view()
                },
                Command::Resize(width, height) => {
                    &&& done is Ok
                    &&& after.size_view() == (width, height)
                    &&& after.view() == before.view()
                },
                Command::SaveMark(name) => {
                    &&& done is Ok
                    &&& after.view() == before.view()
                    &&& forall|other: Seq<char>|
                        #[trigger] mark_of(after.marks_view(), other) == if other == name@ {
                            Some(before.view().state_view())
                        } else {
                            mark_of(before.marks_view(), other)
                        }
                },
                Command::LoadMark(name) => match mark_of(before.marks_view(), name@) {
                    Some(state) => FileView::<B>::load_state_post(
                        before.view(),
                        &state,
                        after.view(),
                        done,
                    ),
                    None => {
                        &&& done == Err::<(), ViewError>(ViewError::UnknownMark(name))
                        &&& after.view() == before.view()
                    },
                },
            }
    }

    /// Carries out a command on the view.
    ///
    /// A search with a pattern that does not compile fails with
    /// `InvalidRegex` and nothing else does; asking for a mark that was not
    /// saved fails with `UnknownMark` and nothing else does. Only `Follow`
    /// changes whether the view follows, only `Resize` the size of the
    /// screen, only `SaveMark` the marks.
    pub fn handle_command(&mut self, command: Command, cancelled: &AtomicBool) -> (done: Result<
        (),
        ViewError,
    >)
        requires
            old(self).wf(),
        ensures
            Self::carried_out(*old(self), command, *final(self), done),
            final(self).errors_view() == old(self).errors_view(),
    {
        match command {
            Command::Follow(follow) => {
                self.follow = follow;
                if follow {
                    self.file_view.bottom()
                } else {
                    Ok(())
                }
            },
            Command::SearchDown(pattern) => {
                match SearchPattern::new(pattern.as_str()) {
                    Ok(compiled) => self.file_view.down_to_line_matching(
                        &compiled,
                        false,
                        cancelled,
                    ),
                    Err(e) => Err(e),
                }
            },
            Command::SearchDownNext(pattern) => {
                match SearchPattern::new(pattern.as_str()) {
                    Ok(compiled) => self.file_view.down_to_line_matching(
                        &compiled,
                        true,
                        cancelled,
                    ),
                    Err(e) => Err(e),
                }
            },
            Command::SearchUp(pattern) => {
                match SearchPattern::new(pattern.as_str()) {
                    Ok(compiled) => self.file_view.up_to_line_matching(&compiled, cancelled),
                    Err(e) => Err(e),
                }
            },
            Command::MoveLine(lines) => {
                if lines > 0 {
                    self.file_view.down(lines as u64)
                } else if lines < 0 {
                    let steps: u64 = if lines == i64::MIN {
                        0x8000_0000_0000_0000u64
                    } else {
                        (-lines) as u64
                    };
                    self.file_view.up(steps)
                } else {
                    Ok(())
                }
            },
            Command::JumpLine(line) => self.file_view.jump_to_line(line),
            Command::JumpFileRatio(part, whole) => {
                let size = self.file_view.file_size();
                let byte: u64 = if whole == 0 {
                    0
                } else if part >= whole {
                    size
                } else {
                    scale(part, size, whole) as u64
                };
                self.file_view.jump_to_byte(byte)
            },
            Command::Resize(width, height) => {
                self.view_width = width;
                self.view_height = height;
                Ok(())
            },
            Command::SaveMark(name) => {
                self.save_mark(name);
                Ok(())
            },
            Command::LoadMark(name) => {
                match self.find_mark(&name) {
                    Some(at) => {
                        let state = self.marks[at].1;
                        self.file_view.load_state(&state)
                    },
                    None => Err(ViewError::UnknownMark(name)),
                }
            },
        }
    }

    /// Carries out a command and keeps its error, if it fails, as the only
    /// error of the last command.
    pub fn execute(&mut self, command: Command, cancelled: &AtomicBool)
        requires
            old(self).wf(),
        ensures
            exists|done: Result<(), ViewError>|
                {
                    &&& #[trigger] Self::carried_out(*old(self), command, *final(self), done)
                    &&& final(self).errors_view() == match done {
                        Ok(_) => Seq::<ViewError>::empty(),
                        Err(e) => seq![e],
                    }
                },
    {
        self.command_errors = Vec::new();
        let ghost cleared = *self;
        let done = self.handle_command(command, cancelled);
        let ghost outcome = done;
        if let Err(e) = done {
            self.command_errors.push(e);
        }
        proof {
            assert(self.errors_view() =~= match outcome {
                Ok(_) => Seq::<ViewError>::empty(),
                Err(e) => seq![e],
            });
            assert(Self::carried_out(cleared, command, *self, outcome));
            assert(Self::carried_out(*old(self), command, *self, outcome));
        }
    }

    /// Puts the handler on another buffer, which stands on a later state of
    /// the same file. The view goes back to where it was if it can.
    pub fn remap(&mut self, buffer: B) -> (moved: Result<(), ViewError>)
        requires
            old(self).wf(),
            buffer.wf(),
        ensures
            final(self).wf(),
            final(self).same_setup(old(self)),
            final(self).errors_view() == old(self).errors_view(),
            final(self).view().buffer().file() == buffer.file(),
            final(self).view().path_view() == old(self).view().path_view(),
            moved is Ok ==> final(self).view().state_view() == old(self).view().state_view(),
            moved matches Err(e) ==> e is Other,
    {
        self.file_view.reopen(buffer)
    }

    /// Puts the handler on a new view, which stands at the first line of the
    /// file that is now found under the path of the user.
    pub fn reload(&mut self, file_view: FileView<B>)
        requires
            old(self).wf(),
            file_view.wf(),
        ensures
            final(self).wf(),
            final(self).same_setup(old(self)),
            final(self).errors_view() == old(self).errors_view(),
            final(self).view() == file_view,
    {
        self.file_view = file_view;
    }

    /// What holds of the handler before and after its view went to the end of the
    /// file.
    pub open spec fn settled(
        before: Self,
        after: Self,
        ended: ViewError,
    ) -> bool {
        &&& after.wf()
        &&& after.same_setup(&before)
        &&& after.errors_view() == before.errors_view()
        &&& after.view().same_file(&before.view())
        &&& ended is EOF || ended is InfiniteLoop || ended is Other
        &&& ended is EOF ==> newlines(after.view().below()) == 0
        &&& ended is InfiniteLoop ==> stalled_down(after.view().below())
        &&& ended is InfiniteLoop ==> exists|walk: Seq<FileView<B>>| #[trigger]
            FileView::<B>::idled_down(walk) && walk.last() == after.view()
        &&& before.view().buffer().plain() ==> {
                &&& ended is EOF || ended is InfiniteLoop
                &&& before.view().cursor() <= after.view().cursor()
                &&& ended is EOF ==> newlines(
                    before.view().file().skip(after.view().cursor()),
                ) == 0
            }
    }

    /// Moves the view to the end of the file by going down as long as that
    /// works, and returns the error that ended the way: `EOF` where the
    /// view has passed the last line end of the file.
    pub fn settle(&mut self) -> (ended: ViewError)
        requires
            old(self).wf(),
        ensures
            Self::settled(*old(self), *final(self), ended),
    {
        loop
            invariant
                self.wf(),
                self.same_setup(old(self)),
                self.errors_view() == old(self).errors_view(),
                self.view().same_file(&old(self).view()),
                old(self).view().buffer().plain() ==> old(self).view().cursor()
                    <= self.view().cursor(),
            decreases
                    self.view().buffer().file().len() - self.view().buffer().range_end(),
                    self.view().below().len(),
        {
            proof {
                self.file_view.lemma_view_bounds();
            }
            let moved = self.file_view.down(FOLLOW_STEP);
            proof {
                self.file_view.lemma_view_bounds();
            }
            if let Err(e) = moved {
                return e;
            }
        }
    }

    /// The names of the marks.
    fn mark_names(&self) -> (names: Vec<String>)
        ensures
            names@.len() == self.marks@.len(),
            forall|i: int| 0 <= i < names@.len() ==> (#[trigger] names@[i])@ == self.marks@[i].0@,
    {
        let mut names: Vec<String> = Vec::new();
        let mut i: usize = 0;
        while i < self.marks.len()
            invariant
                i <= self.marks@.len(),
                names@.len() == i,
                forall|k: int| 0 <= k < i ==> (#[trigger] names@[k])@ == self.marks@[k].0@,
            decreases self.marks@.len() - i,
        {
            names.push(self.marks[i].0.clone());
            i = i + 1;
        }
        names
    }

    /// A copy of the errors of the last command.
    fn errors(&self) -> (errors: Vec<ViewError>)
        ensures
            errors@ == self.command_errors@,
    {
        let mut errors: Vec<ViewError> = Vec::new();
        let mut i: usize = 0;
        while i < self.command_errors.len()
            invariant
                i <= self.command_errors@.len(),
                errors@ == self.command_errors@.take(i as int),
            decreases self.command_errors@.len() - i,
        {
            errors.push(self.command_errors[i].copy());
            assert(errors@ =~= self.command_errors@.take(i + 1));
            i = i + 1;
        }
        assert(self.command_errors@.take(i as int) =~= self.command_errors@);
        errors
    }

    /// What holds of the handler before and after it made a state to show.
    pub open spec fn state_made(
        before: Self,
        after: Self,
        state: BackendState,
    ) -> bool {
        &&& after.wf()
        &&& after.same_setup(&before)
        &&& after.errors_view() == before.errors_view()
        &&& after.view().same_file(&before.view())
        &&& state.file_path@ == before.path_view()
        &&& state.real_file_path@ == before.view().path_view()
        &&& state.file_size == before.view().file().len()
        &&& state.current_line == after.view().line_view()
        &&& state.offset == after.view().offset_spec()
        &&& state.follow == before.follow_view()
        &&& state.marks@.len() == before.marks_view().len()
        &&& forall|i: int|
                0 <= i < state.marks@.len() ==> (#[trigger] state.marks@[i])@
                    == before.marks_view()[i].0@
        &&& exists|shown: Result<Vec<String>, ViewError>|
                {
                    &&& #[trigger] FileView::<B>::view_post(
                        before.view(),
                        before.size_view().1,
                        self::wrap_of(before.size_view().0),
                        after.view(),
                        shown,
                    )
                    &&& state.text@ == match shown {
                        Ok(lines) => lines@,
                        Err(_) => Seq::<String>::empty(),
                    }
                    &&& state.errors@ == before.errors_view() + match shown {
                        Ok(_) => Seq::<ViewError>::empty(),
                        Err(e) => seq![e],
                    } + if state.offset < before.view().offset_spec() {
                        seq![ViewError::EOF]
                    } else {
                        Seq::<ViewError>::empty()
                    }
                }
    }

    /// Makes the state that is shown to the user: the lines that the screen
    /// shows from the cursor on, the place and the line number of the
    /// cursor, the names of the marks and the errors of the last command.
    /// An error of making the lines is added to the errors, and so is `EOF`
    /// where the cursor had to go up for the lines to fill the screen. A
    /// screen without columns is taken as one that does not wrap.
    pub fn generate_state(&mut self) -> (state: BackendState)
        requires
            old(self).wf(),
        ensures
            Self::state_made(*old(self), *final(self), state),
    {
        let mut state = BackendState::new();
        state.file_path = self.file_path.clone();
        state.real_file_path = self.file_view.real_file_path().to_owned();
        state.errors = self.errors();
        let offset_before = self.file_view.offset();
        let ncols = match self.view_width {
            Some(0) => None,
            width => width,
        };
        let shown = self.file_view.view(self.view_height, ncols);
        let ghost made = shown;
        let ghost first = state.errors@;
        match shown {
            Ok(lines) => {
                state.text = lines;
            },
            Err(e) => {
                state.errors.push(e);
            },
        }
        let ghost second = state.errors@;
        state.file_size = self.file_view.file_size();
        state.current_line = self.file_view.current_line();
        state.offset = self.file_view.offset();
        state.follow = self.follow;
        state.marks = self.mark_names();
        if offset_before > state.offset {
            state.errors.push(ViewError::EOF);
        }
        proof {
            assert(second =~= first + match made {
                Ok(_) => Seq::<ViewError>::empty(),
                Err(e) => seq![e],
            });
            assert(state.errors@ =~= second + if state.offset < old(self).view().offset_spec() {
                seq![ViewError::EOF]
            } else {
                Seq::<ViewError>::empty()
            });
            assert(FileView::<B>::view_post(
                old(self).view(),
                old(self).size_view().1,
                self::wrap_of(old(self).size_view().0),
                self.view(),
                made,
            ));
        }
        state
    }

    /// Makes the state that is due after a command or a change of the file:
    /// the view first goes to the end of the file if it follows it.
    pub fn publish(&mut self) -> (state: BackendState)
        requires
            old(self).wf(),
        ensures
            final(self).wf(),
            if old(self).follow_view() {
                exists|middle: Self, ended: ViewError|
                    {
                        &&& #[trigger] Self::settled(*old(self), middle, ended)
                        &&& Self::state_made(middle, *final(self), state)
                    }
            } else {
                Self::state_made(*old(self), *final(self), state)
            },
    {
        if self.follow {
            let ended = self.settle();
            let ghost middle = *self;
            let state = self.generate_state();
            proof {
                assert(Self::settled(*old(self), middle, ended));
                assert(Self::state_made(middle, *self, state));
            }
            state
        } else {
            self.generate_state()
        }
    }
}

/// The byte of a file of `size` bytes that lies at the part of the file
/// given by the ratio of `part` to `whole`, which is taken as 1 where it is
/// larger and as 0 where `whole` is 0.
pub open spec fn ratio_byte(size: nat, part: u64, whole: u64) -> u64 {
    if whole == 0 {
        0
    } else if part >= whole {
        size as u64
    } else {
        ((part * size) / (whole as int)) as u64
    }
}

/// The number of columns after which the view wraps lines for a screen of
/// that width: a screen without columns is taken as one that does not wrap.
pub open spec fn wrap_of(width: Option<usize>) -> Option<usize> {
    match width {
        Some(cols) => if cols == 0 {
            None
        } else {
            Some(cols)
        },
        None => None,
    }
}

} // verus!
