//! The run command: how the external engine is started for each selected
//! playbook, and what is done with what comes back.
//!
//! The library starts no process. It says what is to be done next, is told
//! what came of it, and keeps the state of the run between the two.

use crate::error::{ErrorView, PlaybookError};
use crate::selection::{EnvOverride, Pairs, SelectedView, Selection};
use crate::text::{decimal, decimal_string, join_path, joined_path, texts};
use vstd::prelude::*;

verus! {

/// One start of a program.
#[derive(Debug, Clone, PartialEq, Eq)]
pub struct Invocation {
    /// The program to start.
    pub program: String,
    /// Its arguments.
    pub args: Vec<String>,
    /// Whether the program's output is captured, to be streamed to the
    /// caller's output, or discarded.
    pub capture: bool,
}

/// One start of a program, over sequences of characters.
pub struct InvocationView {
    pub program: Seq<char>,
    pub args: Seq<Seq<char>>,
    pub capture: bool,
}

impl View for Invocation {
    type V = InvocationView;

    open spec fn view(&self) -> InvocationView {
        InvocationView { program: self.program@, args: texts(self.args@), capture: self.capture }
    }
}

/// The argument that hands one override to the engine: `-e KEY=VALUE`, as
/// one argument.
pub open spec fn env_arg(pair: (Seq<char>, Seq<char>)) -> Seq<char> {
    "-e "@ + pair.0 + "="@ + pair.1
}

/// The arguments that hand the overrides to the engine, one for each, in
/// the order of the overrides.
pub open spec fn env_args(envs: Pairs) -> Seq<Seq<char>> {
    envs.map_values(|pair: (Seq<char>, Seq<char>)| env_arg(pair))
}

/// The name of the external engine.
pub open spec fn engine() -> Seq<char> {
    "ansible-playbook"@
}

/// The arguments of the engine for one playbook: the inventory, the path
/// of the playbook in its directory, and the overrides.
pub open spec fn engine_args(inventory: Seq<char>, dir: Seq<char>, book: SelectedView) -> Seq<
    Seq<char>,
> {
    seq!["-i"@, inventory, joined_path(dir, book.name)] + env_args(book.envs)
}

/// `args` followed by one `-e KEY=VALUE` argument for each override.
fn with_env_args(args: Vec<String>, envs: &EnvOverride) -> (r: Vec<String>)
    ensures
        texts(r@) == texts(args@) + env_args(envs@),
{
    let mut args = args;
    let ghost base = texts(args@);
    let mut i: usize = 0;
    proof {
        assert(texts(args@) =~= base + env_args(envs@).take(0));
    }
    while i < envs.len()
        invariant
            i <= envs@.len(),
            texts(args@) == base + env_args(envs@).take(i as int),
        decreases envs@.len() - i,
    {
        let mut arg = "-e ".to_owned();
        arg.append(envs.key_at(i).as_str());
        arg.append("=");
        arg.append(envs.value_at(i).as_str());
        proof {
            assert(arg@ =~= env_arg(envs@[i as int]));
            assert(env_args(envs@).take(i + 1) =~= env_args(envs@).take(i as int).push(arg@));
            assert(texts(args@.push(arg)) =~= texts(args@).push(arg@));
        }
        args.push(arg);
        i += 1;
    }
    proof {
        assert(env_args(envs@).take(envs@.len() as int) =~= env_args(envs@));
    }
    args
}

/// The start of `cmd` with `args` and one `-e KEY=VALUE` argument for each
/// override, its output discarded: only its exit status is observed.
pub fn run_command(cmd: String, args: Vec<String>, envs: &EnvOverride) -> (r: Invocation)
    ensures
        r@ == (InvocationView {
            program: cmd@,
            args: texts(args@) + env_args(envs@),
            capture: false,
        }),
{
    Invocation { program: cmd, args: with_env_args(args, envs), capture: false }
}

/// The start of `cmd` with `args` and one `-e KEY=VALUE` argument for each
/// override, its output captured, to be streamed line by line.
pub fn run_command_verbose(cmd: String, args: Vec<String>, envs: &EnvOverride) -> (r: Invocation)
    ensures
        r@ == (InvocationView {
            program: cmd@,
            args: texts(args@) + env_args(envs@),
            capture: true,
        }),
{
    Invocation { program: cmd, args: with_env_args(args, envs), capture: true }
}

/// One of the two output streams of a started program.
#[derive(Debug, Clone, Copy, PartialEq, Eq)]
pub enum Stream {
    Stdout,
    Stderr,
}

/// Where the run stands with one playbook. Without streaming a playbook
/// goes from `Pending` to `Spawned` to `Exited`; with streaming it goes
/// from `Pending` to `Spawned`, to `Streaming` of the standard output, to
/// `Streaming` of the standard error, to `Drained`, to `Exited`.
#[derive(Debug, Clone, Copy, PartialEq, Eq)]
pub enum Phase {
    /// The engine has not been started for it.
    Pending,
    /// The engine has been started. Its exit is awaited or, where its
    /// output is streamed, its streams are to be taken up.
    Spawned,
    /// This stream of the engine's output is being drained.
    Streaming(Stream),
    /// Both streams have been drained, and the engine's exit is awaited.
    Drained,
    /// The engine has exited; the playbook succeeded or failed.
    Exited(bool),
}

/// What came of the last action.
#[derive(Debug, Clone, Copy, PartialEq, Eq)]
pub enum Event {
    /// The engine was started.
    Launched,
    /// The engine could not be started.
    LaunchFailed,
    /// The two streams of the engine's output were taken up.
    Captured,
    /// The stream was drained to its end.
    Drained,
    /// The engine exited, with this exit code if it has one.
    Exited(Option<i32>),
}

/// What is to be done next.
#[derive(Debug, Clone, PartialEq, Eq)]
pub enum Action {
    /// Start the engine.
    Spawn(Invocation),
    /// Take up the two streams of the engine's output.
    Capture,
    /// Read this stream of the engine's output to its end, and print each
    /// line as it comes.
    Drain(Stream),
    /// Wait for the engine to exit.
    Wait,
    /// The run is over; this is its report.
    Finish(String),
    /// The run has failed.
    Abort(PlaybookError),
}

/// What is to be done next, over sequences of characters.
pub enum ActionView {
    Spawn(InvocationView),
    Capture,
    Drain(Stream),
    Wait,
    Finish(Seq<char>),
    Abort(ErrorView),
}

impl View for Action {
    type V = ActionView;

    open spec fn view(&self) -> ActionView {
        match *self {
            Action::Spawn(invocation) => ActionView::Spawn(invocation@),
            Action::Capture => ActionView::Capture,
            Action::Drain(stream) => ActionView::Drain(stream),
            Action::Wait => ActionView::Wait,
            Action::Finish(report) => ActionView::Finish(report@),
            Action::Abort(e) => ActionView::Abort(e@),
        }
    }
}

/// A run of the selected playbooks, one after the other in the order of
/// their ordinals.
pub struct Run {
    books: Selection,
    verbose: bool,
    playbook_dir: String,
    inventory: String,
    phase: Phase,
    outcomes: Vec<bool>,
    failed: bool,
}

/// The state of a run.
pub struct RunView {
    /// The selected playbooks, in the order in which they run.
    pub books: Seq<SelectedView>,
    /// Whether the engine's output is streamed.
    pub verbose: bool,
    /// The path of the directory of the playbooks.
    pub playbook_dir: Seq<char>,
    /// The path of the inventory.
    pub inventory: Seq<char>,
    /// Where the run stands with the playbook that is next: never `Exited`.
    pub phase: Phase,
    /// Whether the engine succeeded, for each playbook that has run.
    pub outcomes: Seq<bool>,
    /// Whether the engine could not be started.
    pub failed: bool,
}

impl View for Run {
    type V = RunView;

    closed spec fn view(&self) -> RunView {
        RunView {
            books: self.books@,
            verbose: self.verbose,
            playbook_dir: self.playbook_dir@,
            inventory: self.inventory@,
            phase: self.phase,
            outcomes: self.outcomes@,
            failed: self.failed,
        }
    }
}

/// Whether an exit with this code is a success: the code is zero.
pub open spec fn succeeded(code: Option<i32>) -> bool {
    code == Some(0i32)
}

/// The line that reports one playbook.
pub open spec fn report_line(book: SelectedView, success: bool) -> Seq<char> {
    decimal(book.ordinal as nat) + ": "@ + book.name + if success {
        " - Success\n"@
    } else {
        " - Failed\n"@
    }
}

/// The report of the first `outcomes.len()` playbooks: one line for each,
/// in the order in which they ran.
pub open spec fn report(books: Seq<SelectedView>, outcomes: Seq<bool>) -> Seq<char>
    decreases outcomes.len(),
{
    if outcomes.len() == 0 || outcomes.len() > books.len() {
        Seq::empty()
    } else {
        report(books, outcomes.drop_last()) + report_line(
            books[outcomes.len() - 1],
            outcomes.last(),
        )
    }
}

impl RunView {
    /// As many playbooks have an outcome as have run, and no more than were
    /// selected; between two playbooks nothing is under way.
    pub open spec fn wf(self) -> bool {
        &&& self.outcomes.len() <= self.books.len()
        &&& self.outcomes.len() == self.books.len() ==> self.phase == Phase::Pending
        &&& self.failed ==> self.phase == Phase::Pending
        &&& !(self.phase is Exited)
        &&& !self.verbose ==> self.phase == Phase::Pending || self.phase == Phase::Spawned
    }

    /// Where the run stands with the playbook at position `k`: the playbooks
    /// that have run have exited, the one that is next is in the phase of
    /// the run, and the others are pending.
    pub open spec fn phase_of(self, k: int) -> Phase {
        if 0 <= k < self.outcomes.len() {
            Phase::Exited(self.outcomes[k])
        } else if k == self.outcomes.len() {
            self.phase
        } else {
            Phase::Pending
        }
    }

    /// Whether the run is over: every playbook has run, or the engine could
    /// not be started.
    pub open spec fn over(self) -> bool {
        self.failed || self.outcomes.len() >= self.books.len()
    }

    /// The start of the engine for the playbook that is next.
    pub open spec fn invocation(self) -> InvocationView {
        InvocationView {
            program: engine(),
            args: engine_args(
                self.inventory,
                self.playbook_dir,
                self.books[self.outcomes.len() as int],
            ),
            capture: self.verbose,
        }
    }

    /// The state after the engine has exited with `code`: the outcome is
    /// recorded, and the next playbook is pending.
    pub open spec fn exited(self, code: Option<i32>) -> RunView {
        RunView {
            phase: Phase::Pending,
            outcomes: self.outcomes.push(succeeded(code)),
            ..self
        }
    }

    /// What is to be done in this state.
    pub open spec fn action(self) -> ActionView {
        if self.failed {
            ActionView::Abort(ErrorView::ExecutionLaunchFailure(engine()))
        } else if self.outcomes.len() >= self.books.len() {
            ActionView::Finish(report(self.books, self.outcomes))
        } else {
            match self.phase {
                Phase::Pending => ActionView::Spawn(self.invocation()),
                Phase::Spawned => if self.verbose {
                    ActionView::Capture
                } else {
                    ActionView::Wait
                },
                Phase::Streaming(stream) => ActionView::Drain(stream),
                Phase::Drained => ActionView::Wait,
                Phase::Exited(_) => ActionView::Wait,
            }
        }
    }

    /// The state after `event`. A run that is over stays as it is, and so
    /// does a run to which an event comes that its phase does not await.
    /// An engine that cannot be started fails the run. The standard output
    /// is drained to its end before the standard error is begun, and both
    /// before the exit is awaited. An engine that exits, with whatever
    /// code, has its outcome recorded, and the run goes on with the next
    /// playbook.
    pub open spec fn next(self, event: Event) -> RunView {
        if self.over() {
            self
        } else {
            match (self.phase, event) {
                (Phase::Pending, Event::Launched) => RunView { phase: Phase::Spawned, ..self },
                (Phase::Pending, Event::LaunchFailed) => RunView { failed: true, ..self },
                (Phase::Spawned, Event::Captured) => if self.verbose {
                    RunView { phase: Phase::Streaming(Stream::Stdout), ..self }
                } else {
                    self
                },
                (Phase::Streaming(Stream::Stdout), Event::Drained) => RunView {
                    phase: Phase::Streaming(Stream::Stderr),
                    ..self
                },
                (Phase::Streaming(Stream::Stderr), Event::Drained) => RunView {
                    phase: Phase::Drained,
                    ..self
                },
                (Phase::Spawned, Event::Exited(code)) => if self.verbose {
                    self
                } else {
                    self.exited(code)
                },
                (Phase::Drained, Event::Exited(code)) => self.exited(code),
                _ => self,
            }
        }
    }
}

/// The state in which a run begins: no playbook has run.
pub open spec fn initial(
    books: Seq<SelectedView>,
    verbose: bool,
    playbook_dir: Seq<char>,
    inventory: Seq<char>,
) -> RunView {
    RunView {
        books,
        verbose,
        playbook_dir,
        inventory,
        phase: Phase::Pending,
        outcomes: Seq::empty(),
        failed: false,
    }
}

/// Begins a run of the selected playbooks `books` of the directory at
/// `playbook_dir`, with the inventory at `inventory`. With `verbose` the
/// engine's output is streamed.
pub fn call_run(books: &Selection, verbose: &bool, playbook_dir: &str, inventory: &str) -> (r: Run)
    ensures
        r@ == initial(books@, *verbose, playbook_dir@, inventory@),
        r@.wf(),
{
    Run {
        books: books.copy(),
        verbose: *verbose,
        playbook_dir: playbook_dir.to_owned(),
        inventory: inventory.to_owned(),
        phase: Phase::Pending,
        outcomes: Vec::new(),
        failed: false,
    }
}

impl Run {
    /// The report of the playbooks that have run so far.
    pub fn results(&self) -> (r: String)
        ensures
            r@ == report(self@.books, self@.outcomes),
    {
        let mut r = String::new();
        let mut i: usize = 0;
        if self.outcomes.len() > self.books.len() {
            return r;
        }
        proof {
            assert(self@.outcomes.take(0) =~= Seq::<bool>::empty());
        }
        while i < self.outcomes.len()
            invariant
                i <= self.outcomes.len() <= self@.books.len(),
                self@.outcomes == self.outcomes@,
                self@.books == self.books@,
                r@ == report(self@.books, self@.outcomes.take(i as int)),
            decreases self.outcomes.len() - i,
        {
            proof {
                assert(self@.outcomes.take(i + 1).drop_last() =~= self@.outcomes.take(i as int));
            }
            let book = self.books.get(i);
            let ghost before = r@;
            r.append(decimal_string(book.ordinal).as_str());
            r.append(": ");
            r.append(book.name.as_str());
            if self.outcomes[i] {
                r.append(" - Success\n");
            } else {
                r.append(" - Failed\n");
            }
            assert(r@ =~= before + report_line(book@, self.outcomes@[i as int]));
            i += 1;
        }
        proof {
            assert(self@.outcomes.take(self.outcomes.len() as int) =~= self@.outcomes);
        }
        r
    }

    /// What is to be done next.
    pub fn action(&self) -> (r: Action)
        ensures
            r@ == self@.action(),
    {
        if self.failed {
            return Action::Abort(PlaybookError::ExecutionLaunchFailure("ansible-playbook".to_owned()));
        }
        let k = self.outcomes.len();
        if k >= self.books.len() {
            return Action::Finish(self.results());
        }
        match self.phase {
            Phase::Pending => {
                let book = self.books.get(k);
                let mut args: Vec<String> = Vec::new();
                args.push("-i".to_owned());
                args.push(self.inventory.clone());
                args.push(join_path(self.playbook_dir.as_str(), book.name.as_str()));
                proof {
                    assert(texts(args@) =~= seq![
                        "-i"@,
                        self.inventory@,
                        joined_path(self.playbook_dir@, book.name@),
                    ]);
                }
                let invocation = if self.verbose {
                    run_command_verbose("ansible-playbook".to_owned(), args, &book.envs)
                } else {
                    run_command("ansible-playbook".to_owned(), args, &book.envs)
                };
                Action::Spawn(invocation)
            },
            Phase::Spawned => if self.verbose {
                Action::Capture
            } else {
                Action::Wait
            },
            Phase::Streaming(stream) => Action::Drain(stream),
            Phase::Drained => Action::Wait,
            Phase::Exited(_) => Action::Wait,
        }
    }

    /// Where the run stands with the playbook at position `k`, counted in
    /// the order in which the playbooks run.
    pub fn phase_of(&self, k: usize) -> (r: Phase)
        ensures
            r == self@.phase_of(k as int),
    {
        if k < self.outcomes.len() {
            Phase::Exited(self.outcomes[k])
        } else if k == self.outcomes.len() {
            self.phase
        } else {
            Phase::Pending
        }
    }

    /// Records the outcome of the playbook that is next.
    fn record(&mut self, code: Option<i32>)
        ensures
            final(self)@ == old(self)@.exited(code),
    {
        let success = match code {
            Some(c) => c == 0,
            None => false,
        };
        self.outcomes.push(success);
        self.phase = Phase::Pending;
    }

    /// Takes in what came of the last action.
    pub fn observe(&mut self, event: Event)
        ensures
            final(self)@ == old(self)@.next(event),
            old(self)@.wf() ==> final(self)@.wf(),
    {
        if self.failed || self.outcomes.len() >= self.books.len() {
            return ;
        }
        match (self.phase, event) {
            (Phase::Pending, Event::Launched) => {
                self.phase = Phase::Spawned;
            },
            (Phase::Pending, Event::LaunchFailed) => {
                self.failed = true;
            },
            (Phase::Spawned, Event::Captured) => {
                if self.verbose {
                    self.phase = Phase::Streaming(Stream::Stdout);
                }
            },
            (Phase::Streaming(Stream::Stdout), Event::Drained) => {
                self.phase = Phase::Streaming(Stream::Stderr);
            },
            (Phase::Streaming(Stream::Stderr), Event::Drained) => {
                self.phase = Phase::Drained;
            },
            (Phase::Spawned, Event::Exited(code)) => {
                if !self.verbose {
                    self.record(code);
                }
            },
            (Phase::Drained, Event::Exited(code)) => {
                self.record(code);
            },
            _ => {},
        }
    }

    /// Takes in what came of the last action, and says what is to be done
    /// next.
    pub fn step(&mut self, event: Event) -> (r: Action)
        ensures
            final(self)@ == old(self)@.next(event),
            r@ == old(self)@.next(event).action(),
            old(self)@.wf() ==> final(self)@.wf(),
    {
        self.observe(event);
        self.action()
    }
}

/// The events of running one playbook to its exit with `code`: the start
/// and the exit and, between them where the output is streamed, the taking
/// up of the streams and the end of the one stream and then of the other.
pub open spec fn events_of(verbose: bool, code: Option<i32>) -> Seq<Event> {
    if verbose {
        seq![
            Event::Launched,
            Event::Captured,
            Event::Drained,
            Event::Drained,
            Event::Exited(code),
        ]
    } else {
        seq![Event::Launched, Event::Exited(code)]
    }
}

/// The state after the events, taken in order.
pub open spec fn after(state: RunView, events: Seq<Event>) -> RunView
    decreases events.len(),
{
    if events.len() == 0 {
        state
    } else {
        after(state, events.drop_last()).next(events.last())
    }
}

/// The state after the playbooks that are next have run, one after the
/// other, to their exits with `codes`.
pub open spec fn after_exits(state: RunView, codes: Seq<Option<i32>>) -> RunView
    decreases codes.len(),
{
    if codes.len() == 0 {
        state
    } else {
        after(
            after_exits(state, codes.drop_last()),
            events_of(state.verbose, codes.last()),
        )
    }
}

/// An exit never fails the run: whatever the code, the outcome of the
/// playbook is recorded, a success exactly if the code is zero, and the run
/// goes on with the next playbook.
pub proof fn lemma_exit_is_recorded(state: RunView, code: Option<i32>)
    requires
        state.wf(),
        !state.over(),
        state.action() == ActionView::Wait,
    ensures
        state.next(Event::Exited(code)).outcomes == state.outcomes.push(succeeded(code)),
        state.next(Event::Exited(code)).phase == Phase::Pending,
        !state.next(Event::Exited(code)).failed,
        state.next(Event::Exited(code)).wf(),
{
}

/// Whether a playbook in phase `a` may next be in phase `b`: the phase that
/// follows `a` on the way from `Pending` to `Exited`.
pub open spec fn follows(verbose: bool, a: Phase, b: Phase) -> bool {
    match a {
        Phase::Pending => b == Phase::Spawned,
        Phase::Spawned => if verbose {
            b == Phase::Streaming(Stream::Stdout)
        } else {
            b is Exited
        },
        Phase::Streaming(Stream::Stdout) => b == Phase::Streaming(Stream::Stderr),
        Phase::Streaming(Stream::Stderr) => b == Phase::Drained,
        Phase::Drained => b is Exited,
        Phase::Exited(_) => false,
    }
}

/// An event leaves every playbook in its phase or moves one playbook, the
/// one that is next, to the phase that follows. A playbook that has exited
/// stays as it is: none is run again.
pub proof fn lemma_phases_in_order(state: RunView, event: Event, k: int)
    requires
        state.wf(),
        0 <= k < state.books.len(),
    ensures
        state.next(event).phase_of(k) == state.phase_of(k) || (k == state.outcomes.len()
            && follows(state.verbose, state.phase_of(k), state.next(event).phase_of(k))),
        state.phase_of(k) is Exited ==> state.next(event).phase_of(k) == state.phase_of(k),
{
}

/// The events never change what was selected or how the run was set up,
/// never take an outcome back, and keep the state well formed.
pub proof fn lemma_next_keeps(state: RunView, event: Event)
    requires
        state.wf(),
    ensures
        state.next(event).wf(),
        state.next(event).books == state.books,
        state.next(event).verbose == state.verbose,
        state.next(event).playbook_dir == state.playbook_dir,
        state.next(event).inventory == state.inventory,
        state.outcomes.is_prefix_of(state.next(event).outcomes),
        state.failed ==> state.next(event).failed,
{
}

/// Running one playbook to its exit records its outcome and changes
/// nothing else.
pub proof fn lemma_one_playbook(state: RunView, code: Option<i32>)
    requires
        state.wf(),
        !state.over(),
        state.phase == Phase::Pending,
    ensures
        after(state, events_of(state.verbose, code)) == (RunView {
            outcomes: state.outcomes.push(succeeded(code)),
            ..state
        }),
{
    let events = events_of(state.verbose, code);
    if state.verbose {
        let e4 = events.drop_last();
        let e3 = e4.drop_last();
        let e2 = e3.drop_last();
        let e1 = e2.drop_last();
        assert(e1.drop_last().len() == 0);
        assert(after(state, e1.drop_last()) == state);
        assert(e1.last() == Event::Launched);
        assert(after(state, e1) == state.next(Event::Launched));
        assert(after(state, e2) == after(state, e1).next(Event::Captured));
        assert(after(state, e3) == after(state, e2).next(Event::Drained));
        assert(after(state, e4) == after(state, e3).next(Event::Drained));
        assert(after(state, events) == after(state, e4).next(Event::Exited(code)));
    } else {
        let e1 = events.drop_last();
        assert(e1.drop_last().len() == 0);
        assert(after(state, e1.drop_last()) == state);
        assert(e1.last() == Event::Launched);
        assert(after(state, e1) == state.next(Event::Launched));
        assert(after(state, events) == after(state, e1).next(Event::Exited(code)));
    }
}

/// A run whose engine starts every time ends with one outcome for each
/// playbook, whatever the exit codes were: the playbooks whose engine
/// exited with zero succeeded, the others failed, and no exit fails the
/// run. When every playbook has run, the action is to finish with the
/// report of these outcomes.
pub proof fn lemma_run_to_the_end(
    books: Seq<SelectedView>,
    verbose: bool,
    playbook_dir: Seq<char>,
    inventory: Seq<char>,
    codes: Seq<Option<i32>>,
)
    requires
        codes.len() <= books.len(),
    ensures
        after_exits(initial(books, verbose, playbook_dir, inventory), codes) == (RunView {
            outcomes: codes.map_values(|c: Option<i32>| succeeded(c)),
            ..initial(books, verbose, playbook_dir, inventory)
        }),
        codes.len() == books.len() ==> after_exits(
            initial(books, verbose, playbook_dir, inventory),
            codes,
        ).action() == ActionView::Finish(
            report(books, codes.map_values(|c: Option<i32>| succeeded(c))),
        ),
    decreases codes.len(),
{
    let start = initial(books, verbose, playbook_dir, inventory);
    let outcomes = codes.map_values(|c: Option<i32>| succeeded(c));
    if codes.len() == 0 {
        assert(outcomes =~= Seq::<bool>::empty());
    } else {
        let earlier = codes.drop_last();
        lemma_run_to_the_end(books, verbose, playbook_dir, inventory, earlier);
        let before = after_exits(start, earlier);
        lemma_one_playbook(before, codes.last());
        assert(earlier.map_values(|c: Option<i32>| succeeded(c)).push(succeeded(codes.last()))
            =~= outcomes);
    }
}

} // verus!
