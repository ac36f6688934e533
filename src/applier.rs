//! The apply run as a state machine. The caller performs each returned
//! action (connect, read a script, execute a statement, report progress) and
//! feeds back the event that came of it; the machine decides what comes next.
//! Statements run one at a time, in order; the first failure ends the run,
//! with nothing rolled back.

use vstd::prelude::*;
use crate::error::MigrationError;
use crate::migration::{Migration, MigrationView, views_of, canonical_of};
use crate::splitter::{split_statements, statements_of, views};

verus! {

/// Where a run stands.
#[derive(PartialEq, Eq, Structural, Clone, Copy, Debug)]
pub enum Phase {
    Idle,
    Connecting,
    Loading,
    Executing,
    Reporting,
    Succeeded,
    Failed,
}

/// What came of the last action.
#[derive(Debug)]
pub enum Event {
    /// Begin the run.
    Start,
    Connected,
    ConnectFailed { reason: String },
    /// The current migration's script was read.
    Loaded { content: String },
    LoadFailed { reason: String },
    /// The current statement completed.
    Executed,
    ExecuteFailed { reason: String },
    /// The progress report was delivered.
    Reported,
}

/// What the caller is to do next.
#[derive(Debug)]
pub enum Action {
    /// Open the session to `host`.
    Connect { host: String },
    /// Read the script at `path`.
    Load { path: String },
    /// Execute `statement` and wait for it to complete.
    Execute { statement: String },
    /// Report that the migration `label` has been applied.
    Advance { label: String },
    /// Every migration was applied; report that the run is over.
    Finish,
    /// The run failed with `error`.
    Abort { error: MigrationError },
    /// The event does not apply in this phase; nothing to do.
    Nothing,
}

pub ghost enum EventView {
    Start,
    Connected,
    ConnectFailed(Seq<char>),
    Loaded(Seq<char>),
    LoadFailed(Seq<char>),
    Executed,
    ExecuteFailed(Seq<char>),
    Reported,
}

pub ghost enum ErrorView {
    InvalidIdentityFormat(Seq<char>),
    DirectoryUnreadable(Seq<char>),
    FilesystemError(Seq<char>),
    ConnectionError(Seq<char>),
    ContentLoadError(Seq<char>, Seq<char>),
    StatementExecutionError(Seq<char>, nat, nat, Seq<char>, Seq<char>),
}

pub ghost enum ActionView {
    Connect(Seq<char>),
    Load(Seq<char>),
    Execute(Seq<char>),
    Advance(Seq<char>),
    Finish,
    Abort(ErrorView),
    Nothing,
}

impl View for Event {
    type V = EventView;

    open spec fn view(&self) -> EventView {
        match self {
            Event::Start => EventView::Start,
            Event::Connected => EventView::Connected,
            Event::ConnectFailed { reason } => EventView::ConnectFailed(reason@),
            Event::Loaded { content } => EventView::Loaded(content@),
            Event::LoadFailed { reason } => EventView::LoadFailed(reason@),
            Event::Executed => EventView::Executed,
            Event::ExecuteFailed { reason } => EventView::ExecuteFailed(reason@),
            Event::Reported => EventView::Reported,
        }
    }
}

impl View for MigrationError {
    type V = ErrorView;

    open spec fn view(&self) -> ErrorView {
        match self {
            MigrationError::InvalidIdentityFormat { identifier } => ErrorView::InvalidIdentityFormat(
                identifier@,
            ),
            MigrationError::DirectoryUnreadable { reason } => ErrorView::DirectoryUnreadable(reason@),
            MigrationError::FilesystemError { reason } => ErrorView::FilesystemError(reason@),
            MigrationError::ConnectionError { reason } => ErrorView::ConnectionError(reason@),
            MigrationError::ContentLoadError { migration, reason } => ErrorView::ContentLoadError(
                migration@,
                reason@,
            ),
            MigrationError::StatementExecutionError {
                migration,
                position,
                total,
                statement,
                reason,
            } => ErrorView::StatementExecutionError(
                migration@,
                *position as nat,
                *total as nat,
                statement@,
                reason@,
            ),
        }
    }
}

impl View for Action {
    type V = ActionView;

    open spec fn view(&self) -> ActionView {
        match self {
            Action::Connect { host } => ActionView::Connect(host@),
            Action::Load { path } => ActionView::Load(path@),
            Action::Execute { statement } => ActionView::Execute(statement@),
            Action::Advance { label } => ActionView::Advance(label@),
            Action::Finish => ActionView::Finish,
            Action::Abort { error } => ActionView::Abort(error@),
            Action::Nothing => ActionView::Nothing,
        }
    }
}

/// The state of a run, as plain values.
pub ghost struct RunView {
    pub migrations: Seq<MigrationView>,
    pub host: Seq<char>,
    pub phase: Phase,
    pub index: nat,
    pub statements: Seq<Seq<char>>,
    pub position: nat,
}

/// One apply run over an ordered set of migrations.
pub struct Run {
    migrations: Vec<Migration>,
    host: String,
    phase: Phase,
    index: usize,
    statements: Vec<String>,
    position: usize,
}

impl View for Run {
    type V = RunView;

    closed spec fn view(&self) -> RunView {
        RunView {
            migrations: views_of(self.migrations@),
            host: self.host@,
            phase: self.phase,
            index: self.index as nat,
            statements: views(self.statements@),
            position: self.position as nat,
        }
    }
}

/// The identifier of a migration.
pub open spec fn id_of(m: MigrationView) -> Seq<char> {
    canonical_of(m.timestamp, m.name)
}

/// The script path of a migration.
pub open spec fn path_of(m: MigrationView) -> Seq<char> {
    "migrations/"@ + id_of(m) + ".cql"@
}

/// The indices that a run's phase relies on are in range.
pub open spec fn well_formed(s: RunView) -> bool {
    &&& (s.phase == Phase::Loading || s.phase == Phase::Executing || s.phase == Phase::Reporting)
        ==> s.index < s.migrations.len()
    &&& s.phase == Phase::Executing ==> s.position < s.statements.len()
}

/// Whether a run has ended, one way or the other.
pub open spec fn is_terminal(p: Phase) -> bool {
    p == Phase::Succeeded || p == Phase::Failed
}

/// Moves to migration `i`: read its script, or finish when none is left.
pub open spec fn begin_migration(s: RunView, i: nat) -> (RunView, ActionView) {
    if i < s.migrations.len() {
        (
            RunView { phase: Phase::Loading, index: i, ..s },
            ActionView::Load(path_of(s.migrations[i as int])),
        )
    } else {
        (RunView { phase: Phase::Succeeded, index: i, ..s }, ActionView::Finish)
    }
}

/// Moves to statement `j` of the current migration: execute it, or report the
/// migration as applied when none is left.
pub open spec fn begin_statement(s: RunView, j: nat) -> (RunView, ActionView) {
    if j < s.statements.len() {
        (
            RunView { phase: Phase::Executing, position: j, ..s },
            ActionView::Execute(s.statements[j as int]),
        )
    } else {
        (
            RunView { phase: Phase::Reporting, position: j, ..s },
            ActionView::Advance(id_of(s.migrations[s.index as int])),
        )
    }
}

/// The transition of a run on an event, and the action it asks for.
pub open spec fn next(s: RunView, e: EventView) -> (RunView, ActionView) {
    match (s.phase, e) {
        (Phase::Idle, EventView::Start) => (
            RunView { phase: Phase::Connecting, ..s },
            ActionView::Connect(s.host),
        ),
        (Phase::Connecting, EventView::Connected) => begin_migration(s, 0),
        (Phase::Connecting, EventView::ConnectFailed(reason)) => (
            RunView { phase: Phase::Failed, ..s },
            ActionView::Abort(ErrorView::ConnectionError(reason)),
        ),
        (Phase::Loading, EventView::Loaded(content)) => begin_statement(
            RunView { statements: statements_of(content), ..s },
            0,
        ),
        (Phase::Loading, EventView::LoadFailed(reason)) => (
            RunView { phase: Phase::Failed, ..s },
            ActionView::Abort(ErrorView::ContentLoadError(id_of(s.migrations[s.index as int]), reason)),
        ),
        (Phase::Executing, EventView::Executed) => begin_statement(s, s.position + 1),
        (Phase::Executing, EventView::ExecuteFailed(reason)) => (
            RunView { phase: Phase::Failed, ..s },
            ActionView::Abort(
                ErrorView::StatementExecutionError(
                    id_of(s.migrations[s.index as int]),
                    s.index + 1,
                    s.migrations.len(),
                    s.statements[s.position as int],
                    reason,
                ),
            ),
        ),
        (Phase::Reporting, EventView::Reported) => begin_migration(s, s.index + 1),
        _ => (s, ActionView::Nothing),
    }
}

impl Run {
    /// A run over `migrations`, in the order given, against `host`.
    pub fn new(migrations: Vec<Migration>, host: String) -> (r: Run)
        ensures
            r@ == (RunView {
                migrations: views_of(migrations@),
                host: host@,
                phase: Phase::Idle,
                index: 0,
                statements: Seq::empty(),
                position: 0,
            }),
            well_formed(r@),
    {
        let statements: Vec<String> = Vec::new();
        assert(views(statements@) =~= Seq::empty());
        Run { migrations, host, phase: Phase::Idle, index: 0, statements, position: 0 }
    }

    /// Where the run stands.
    pub fn phase(&self) -> (r: Phase)
        ensures
            r == self@.phase,
    {
        self.phase
    }

    /// Number of migrations in the run.
    pub fn total(&self) -> (r: usize)
        ensures
            r == self@.migrations.len(),
    {
        self.migrations.len()
    }

    fn enter_migration(&mut self, i: usize) -> (r: Action)
        requires
            i <= old(self).migrations@.len(),
        ensures
            (final(self)@, r@) == begin_migration(old(self)@, i as nat),
    {
        if i < self.migrations.len() {
            self.phase = Phase::Loading;
            self.index = i;
            Action::Load { path: self.migrations[i].filename() }
        } else {
            self.phase = Phase::Succeeded;
            self.index = i;
            Action::Finish
        }
    }

    fn enter_statement(&mut self, j: usize) -> (r: Action)
        requires
            j <= old(self).statements@.len(),
            old(self).index < old(self).migrations@.len(),
        ensures
            (final(self)@, r@) == begin_statement(old(self)@, j as nat),
    {
        if j < self.statements.len() {
            self.phase = Phase::Executing;
            self.position = j;
            Action::Execute { statement: self.statements[j].clone() }
        } else {
            self.phase = Phase::Reporting;
            self.position = j;
            Action::Advance { label: self.migrations[self.index].canonical() }
        }
    }

    /// Takes `event`, moves the run on, and returns what to do next.
    pub fn step(&mut self, event: Event) -> (r: Action)
        requires
            well_formed(old(self)@),
        ensures
            (final(self)@, r@) == next(old(self)@, event@),
            well_formed(final(self)@),
    {
        match (self.phase, event) {
            (Phase::Idle, Event::Start) => {
                self.phase = Phase::Connecting;
                Action::Connect { host: self.host.clone() }
            },
            (Phase::Connecting, Event::Connected) => self.enter_migration(0),
            (Phase::Connecting, Event::ConnectFailed { reason }) => {
                self.phase = Phase::Failed;
                Action::Abort { error: MigrationError::ConnectionError { reason } }
            },
            (Phase::Loading, Event::Loaded { content }) => {
                self.statements = split_statements(content.as_str());
                self.enter_statement(0)
            },
            (Phase::Loading, Event::LoadFailed { reason }) => {
                self.phase = Phase::Failed;
                let migration = self.migrations[self.index].canonical();
                Action::Abort { error: MigrationError::ContentLoadError { migration, reason } }
            },
            (Phase::Executing, Event::Executed) => {
                let n = self.statements.len();
                assert(self.position < n);
                self.enter_statement(self.position + 1)
            },
            (Phase::Executing, Event::ExecuteFailed { reason }) => {
                self.phase = Phase::Failed;
                let total = self.migrations.len();
                let migration = self.migrations[self.index].canonical();
                let statement = self.statements[self.position].clone();
                Action::Abort {
                    error: MigrationError::StatementExecutionError {
                        migration,
                        position: self.index + 1,
                        total,
                        statement,
                        reason,
                    },
                }
            },
            (Phase::Reporting, Event::Reported) => {
                let n = self.migrations.len();
                assert(self.index < n);
                self.enter_migration(self.index + 1)
            },
            (_, _) => Action::Nothing,
        }
    }
}

/// A run that has ended stays as it is: after a failure (or after success) no
/// event leads to any further action.
pub proof fn lemma_terminal_absorbing(s: RunView, e: EventView)
    requires
        is_terminal(s.phase),
    ensures
        next(s, e) == (s, ActionView::Nothing),
{
}

/// A failed statement ends the run at once: the remaining statements of its
/// migration and all later migrations are never asked for, and the error
/// names the migration, its position counted from one, the total, the
/// statement and the database's reason.
pub proof fn lemma_fail_fast(s: RunView, reason: Seq<char>)
    requires
        s.phase == Phase::Executing,
    ensures
        next(s, EventView::ExecuteFailed(reason)).0.phase == Phase::Failed,
        next(s, EventView::ExecuteFailed(reason)).1 == ActionView::Abort(
            ErrorView::StatementExecutionError(
                id_of(s.migrations[s.index as int]),
                s.index + 1,
                s.migrations.len(),
                s.statements[s.position as int],
                reason,
            ),
        ),
{
}

/// Progress is reported only for a migration all of whose statements have
/// run, and it names that migration.
pub proof fn lemma_advance_after_all_statements(s: RunView, e: EventView, label: Seq<char>)
    requires
        well_formed(s),
        next(s, e).1 == ActionView::Advance(label),
    ensures
        label == id_of(s.migrations[s.index as int]),
        next(s, e).0.phase == Phase::Reporting,
        next(s, e).0.position == next(s, e).0.statements.len(),
        s.phase == Phase::Executing ==> e == EventView::Executed && s.position + 1 == s.statements.len(),
        s.phase == Phase::Loading ==> (e matches EventView::Loaded(c) && statements_of(c).len() == 0),
{
}

/// The state a run reaches, and the actions it asks for, when fed `events`
/// one after another from `s`.
pub open spec fn feed(s: RunView, events: Seq<EventView>) -> (RunView, Seq<ActionView>)
    decreases events.len(),
{
    if events.len() == 0 {
        (s, Seq::empty())
    } else {
        let (s1, a) = next(s, events[0]);
        let (s2, rest) = feed(s1, events.drop_first());
        (s2, seq![a] + rest)
    }
}

/// `k` reports of a completed statement.
pub open spec fn executed(k: nat) -> Seq<EventView> {
    Seq::new(k, |i: int| EventView::Executed)
}

/// The requests to execute `statements`, in order.
pub open spec fn executions(statements: Seq<Seq<char>>) -> Seq<ActionView> {
    statements.map_values(|t: Seq<char>| ActionView::Execute(t))
}

proof fn lemma_feed_one(s: RunView, e: EventView)
    ensures
        feed(s, seq![e]) == (next(s, e).0, seq![next(s, e).1]),
{
    assert(seq![e].drop_first() =~= Seq::<EventView>::empty());
    assert(feed(next(s, e).0, Seq::<EventView>::empty()).1 =~= Seq::<ActionView>::empty());
    assert(seq![next(s, e).1] + Seq::<ActionView>::empty() =~= seq![next(s, e).1]);
}

proof fn lemma_feed_append(s: RunView, a: Seq<EventView>, b: Seq<EventView>)
    ensures
        feed(s, a + b) == ({
            let (s1, x) = feed(s, a);
            let (s2, y) = feed(s1, b);
            (s2, x + y)
        }),
    decreases a.len(),
{
    if a.len() == 0 {
        assert(a + b =~= b);
        assert(feed(s, a).1 + feed(s, b).1 =~= feed(s, b).1);
    } else {
        assert((a + b).drop_first() =~= a.drop_first() + b);
        assert((a + b)[0] == a[0]);
        let s1 = next(s, a[0]).0;
        lemma_feed_append(s1, a.drop_first(), b);
        let x = feed(s1, a.drop_first()).1;
        let y = feed(feed(s1, a.drop_first()).0, b).1;
        assert(seq![next(s, a[0]).1] + (x + y) =~= (seq![next(s, a[0]).1] + x) + y);
    }
}

/// While statement `j` of a migration runs, `len - j` completed statements
/// run the rest in order and then report the migration as applied.
proof fn lemma_run_statements(s: RunView, j: nat)
    requires
        well_formed(s),
        s.phase == Phase::Executing,
        s.position == j,
    ensures
        feed(s, executed((s.statements.len() - j) as nat)) == (
            RunView { phase: Phase::Reporting, position: s.statements.len(), ..s },
            executions(s.statements.subrange(j as int + 1, s.statements.len() as int)).push(
                ActionView::Advance(id_of(s.migrations[s.index as int])),
            ),
        ),
    decreases s.statements.len() - j,
{
    let len = s.statements.len();
    let ev = executed((len - j) as nat);
    if j + 1 == len {
        let ev1 = executed(1);
        assert(ev1 =~= seq![EventView::Executed]);
        lemma_feed_one(s, EventView::Executed);
        assert(executions(s.statements.subrange(j as int + 1, len as int)) =~= Seq::empty());
        assert(feed(s, ev1).1 =~= seq![ActionView::Advance(id_of(s.migrations[s.index as int]))]);
    } else {
        let s1 = next(s, EventView::Executed).0;
        assert(s1 == RunView { phase: Phase::Executing, position: j + 1, ..s });
        lemma_run_statements(s1, j + 1);
        assert(ev =~= seq![EventView::Executed] + executed((len - j - 1) as nat));
        lemma_feed_one(s, EventView::Executed);
        lemma_feed_append(s, seq![EventView::Executed], executed((len - j - 1) as nat));
        assert(executions(s.statements.subrange(j as int + 1, len as int)) =~= seq![
            ActionView::Execute(s.statements[j as int + 1]),
        ] + executions(s.statements.subrange(j as int + 2, len as int)));
        assert(feed(s, ev).1 =~= seq![ActionView::Execute(s.statements[j as int + 1])] + executions(
            s.statements.subrange(j as int + 2, len as int),
        ).push(ActionView::Advance(id_of(s.migrations[s.index as int]))));
    }
}

/// One migration applied in full: once its script `content` is read and every
/// statement completes, the run has executed the script's statements in
/// order, reported this migration, and only this one, exactly once, and moved
/// on to the next migration (or finished).
pub proof fn lemma_migration_applied(s: RunView, content: Seq<char>)
    requires
        well_formed(s),
        s.phase == Phase::Loading,
    ensures
        ({
            let events = seq![EventView::Loaded(content)] + executed(
                statements_of(content).len(),
            ) + seq![EventView::Reported];
            let (s2, actions) = feed(s, events);
            let s1 = RunView {
                phase: Phase::Reporting,
                statements: statements_of(content),
                position: statements_of(content).len(),
                ..s
            };
            &&& s2 == begin_migration(s1, s.index + 1).0
            &&& actions == executions(statements_of(content)) + seq![
                ActionView::Advance(id_of(s.migrations[s.index as int])),
                begin_migration(s1, s.index + 1).1,
            ]
        }),
{
    let st = statements_of(content);
    let k = st.len();
    let loaded = seq![EventView::Loaded(content)];
    let ex = executed(k);
    let rep = seq![EventView::Reported];
    let s0 = RunView { statements: st, ..s };
    let s1 = RunView { phase: Phase::Reporting, statements: st, position: k, ..s };
    let adv = ActionView::Advance(id_of(s.migrations[s.index as int]));
    lemma_feed_append(s, loaded + ex, rep);
    lemma_feed_append(s, loaded, ex);
    lemma_feed_one(s, EventView::Loaded(content));
    let (sa, xa) = feed(s, loaded);
    if k == 0 {
        assert(sa == s1);
        assert(xa =~= seq![adv]);
        assert(ex =~= Seq::<EventView>::empty());
        assert(executions(st) =~= Seq::empty());
    } else {
        let se = RunView { phase: Phase::Executing, statements: st, position: 0, ..s };
        assert(sa == se);
        assert(xa =~= seq![ActionView::Execute(st[0])]);
        lemma_run_statements(se, 0);
        assert(ex =~= executed((k - 0) as nat));
        assert(executions(st) =~= seq![ActionView::Execute(st[0])] + executions(
            st.subrange(1, k as int),
        ));
        assert(feed(s, loaded + ex).0 == s1);
        assert(feed(s, loaded + ex).1 =~= executions(st) + seq![adv]);
    }
    lemma_feed_one(s1, EventView::Reported);
    assert(feed(s1, rep).0 == begin_migration(s1, s.index + 1).0);
    assert(feed(s1, rep).1 =~= seq![begin_migration(s1, s.index + 1).1]);
    assert(feed(s, loaded + ex + rep).1 =~= executions(st) + seq![
        adv,
        begin_migration(s1, s.index + 1).1,
    ]);
}

/// While statement `j` runs, `m` completions with statements still left run
/// the next `m` statements in order.
proof fn lemma_run_some(s: RunView, j: nat, m: nat)
    requires
        well_formed(s),
        s.phase == Phase::Executing,
        s.position == j,
        j + m < s.statements.len(),
    ensures
        feed(s, executed(m)) == (
            RunView { position: j + m, ..s },
            executions(s.statements.subrange(j as int + 1, (j + m + 1) as int)),
        ),
    decreases m,
{
    if m == 0 {
        assert(executed(0) =~= Seq::<EventView>::empty());
        assert(executions(s.statements.subrange(j as int + 1, j as int + 1)) =~= Seq::empty());
        assert(RunView { position: j + 0, ..s } == s);
    } else {
        let s1 = next(s, EventView::Executed).0;
        assert(s1 == RunView { position: j + 1, ..s });
        lemma_run_some(s1, j + 1, (m - 1) as nat);
        assert(executed(m) =~= seq![EventView::Executed] + executed((m - 1) as nat));
        lemma_feed_one(s, EventView::Executed);
        lemma_feed_append(s, seq![EventView::Executed], executed((m - 1) as nat));
        assert(executions(s.statements.subrange(j as int + 1, (j + m + 1) as int)) =~= seq![
            ActionView::Execute(s.statements[j as int + 1]),
        ] + executions(s.statements.subrange(j as int + 2, (j + m + 1) as int)));
    }
}

/// A run that has ended asks for nothing more, whatever it is fed.
pub proof fn lemma_feed_terminal(s: RunView, events: Seq<EventView>)
    requires
        is_terminal(s.phase),
    ensures
        feed(s, events).0 == s,
        forall|i: int| 0 <= i < events.len() ==> #[trigger] feed(s, events).1[i] == ActionView::Nothing,
        feed(s, events).1.len() == events.len(),
    decreases events.len(),
{
    if events.len() > 0 {
        lemma_feed_terminal(s, events.drop_first());
        assert forall|i: int| 0 <= i < events.len() implies #[trigger] feed(s, events).1[i]
            == ActionView::Nothing by {
            if i > 0 {
                assert(feed(s, events).1[i] == feed(s, events.drop_first()).1[i - 1]);
            }
        }
    }
}

/// Fail-fast within a migration: when statement `j` of its script fails, the
/// run has executed exactly the statements up to and including `j`, reported
/// no progress for this migration, and ended failed with an error that names
/// the migration, its position counted from one, the total, the statement and
/// the reason.
pub proof fn lemma_migration_failed(s: RunView, content: Seq<char>, j: nat, reason: Seq<char>)
    requires
        well_formed(s),
        s.phase == Phase::Loading,
        j < statements_of(content).len(),
    ensures
        ({
            let st = statements_of(content);
            let events = seq![EventView::Loaded(content)] + executed(j) + seq![
                EventView::ExecuteFailed(reason),
            ];
            let (s2, actions) = feed(s, events);
            &&& s2.phase == Phase::Failed
            &&& actions == executions(st.subrange(0, j as int + 1)) + seq![
                ActionView::Abort(
                    ErrorView::StatementExecutionError(
                        id_of(s.migrations[s.index as int]),
                        s.index + 1,
                        s.migrations.len(),
                        st[j as int],
                        reason,
                    ),
                ),
            ]
        }),
{
    let st = statements_of(content);
    let loaded = seq![EventView::Loaded(content)];
    let ex = executed(j);
    let fail = seq![EventView::ExecuteFailed(reason)];
    let se = RunView { phase: Phase::Executing, statements: st, position: 0, ..s };
    lemma_feed_one(s, EventView::Loaded(content));
    assert(feed(s, loaded).0 == se);
    lemma_run_some(se, 0, j);
    let sj = RunView { position: 0 + j, ..se };
    lemma_feed_append(s, loaded, ex);
    lemma_feed_append(s, loaded + ex, fail);
    lemma_feed_one(sj, EventView::ExecuteFailed(reason));
    assert(executions(st.subrange(0, j as int + 1)) =~= seq![ActionView::Execute(st[0])] + executions(
        st.subrange(1, j as int + 1),
    ));
    assert(feed(s, loaded + ex + fail).1 =~= executions(st.subrange(0, j as int + 1)) + seq![
        ActionView::Abort(
            ErrorView::StatementExecutionError(
                id_of(s.migrations[s.index as int]),
                s.index + 1,
                s.migrations.len(),
                st[j as int],
                reason,
            ),
        ),
    ]);
}

/// What a caller feeds back for one migration whose script reads `content`
/// and all of whose statements succeed.
pub open spec fn migration_events(content: Seq<char>) -> Seq<EventView> {
    seq![EventView::Loaded(content)] + executed(statements_of(content).len()) + seq![
        EventView::Reported,
    ]
}

/// The events of migrations `i..` whose scripts are `scripts`, all succeeding.
pub open spec fn events_from(scripts: Seq<Seq<char>>, i: nat) -> Seq<EventView>
    decreases scripts.len() - i,
{
    if i >= scripts.len() {
        Seq::empty()
    } else {
        migration_events(scripts[i as int]) + events_from(scripts, i + 1)
    }
}

/// What the run asks for after reading the script of migration `i`: its
/// statements in order, the report of `i`, then reading `i + 1` or finishing;
/// and so on for every later migration.
pub open spec fn actions_from(ms: Seq<MigrationView>, scripts: Seq<Seq<char>>, i: nat) -> Seq<
    ActionView,
>
    decreases ms.len() - i,
{
    if i >= ms.len() {
        Seq::empty()
    } else {
        executions(statements_of(scripts[i as int])) + seq![
            ActionView::Advance(id_of(ms[i as int])),
            if i + 1 < ms.len() {
                ActionView::Load(path_of(ms[i as int + 1]))
            } else {
                ActionView::Finish
            },
        ] + actions_from(ms, scripts, i + 1)
    }
}

proof fn lemma_run_from(s: RunView, scripts: Seq<Seq<char>>)
    requires
        well_formed(s),
        s.phase == Phase::Loading,
        s.migrations.len() == scripts.len(),
    ensures
        feed(s, events_from(scripts, s.index)).0.phase == Phase::Succeeded,
        feed(s, events_from(scripts, s.index)).1 == actions_from(s.migrations, scripts, s.index),
    decreases s.migrations.len() - s.index,
{
    let i = s.index;
    let c = scripts[i as int];
    lemma_migration_applied(s, c);
    let s1 = RunView {
        phase: Phase::Reporting,
        statements: statements_of(c),
        position: statements_of(c).len(),
        ..s
    };
    let s2 = begin_migration(s1, i + 1).0;
    lemma_feed_append(s, migration_events(c), events_from(scripts, i + 1));
    if i + 1 < s.migrations.len() {
        lemma_run_from(s2, scripts);
    } else {
        assert(events_from(scripts, i + 1) =~= Seq::<EventView>::empty());
        assert(actions_from(s.migrations, scripts, i + 1) =~= Seq::<ActionView>::empty());
    }
    assert(feed(s, events_from(scripts, i)).1 =~= actions_from(s.migrations, scripts, i));
}

/// A whole run in which every script is read and every statement succeeds:
/// the run connects to its host, then for each migration in the order given
/// reads its script, executes its statements in order and reports it exactly
/// once, then finishes; it ends succeeded.
pub proof fn lemma_run_succeeds(s: RunView, scripts: Seq<Seq<char>>)
    requires
        s.phase == Phase::Idle,
        s.migrations.len() == scripts.len(),
    ensures
        ({
            let (s2, actions) = feed(
                s,
                seq![EventView::Start, EventView::Connected] + events_from(scripts, 0),
            );
            &&& s2.phase == Phase::Succeeded
            &&& actions == seq![
                ActionView::Connect(s.host),
                if s.migrations.len() > 0 {
                    ActionView::Load(path_of(s.migrations[0]))
                } else {
                    ActionView::Finish
                },
            ] + actions_from(s.migrations, scripts, 0)
        }),
{
    let start = seq![EventView::Start, EventView::Connected];
    let sc = RunView { phase: Phase::Connecting, ..s };
    lemma_feed_append(s, seq![EventView::Start], seq![EventView::Connected]);
    assert(start =~= seq![EventView::Start] + seq![EventView::Connected]);
    lemma_feed_one(s, EventView::Start);
    lemma_feed_one(sc, EventView::Connected);
    lemma_feed_append(s, start, events_from(scripts, 0));
    let s0 = begin_migration(sc, 0).0;
    if s.migrations.len() > 0 {
        lemma_run_from(s0, scripts);
    } else {
        assert(events_from(scripts, 0) =~= Seq::<EventView>::empty());
        assert(actions_from(s.migrations, scripts, 0) =~= Seq::<ActionView>::empty());
    }
    assert(feed(s, start + events_from(scripts, 0)).1 =~= seq![
        ActionView::Connect(s.host),
        if s.migrations.len() > 0 {
            ActionView::Load(path_of(s.migrations[0]))
        } else {
            ActionView::Finish
        },
    ] + actions_from(s.migrations, scripts, 0));
}

/// A run over one explicitly named migration, whose script reads `content`
/// and whose statements all succeed, executes exactly that script's
/// statements and reports progress exactly once.
pub proof fn lemma_single_migration(s: RunView, content: Seq<char>)
    requires
        s.phase == Phase::Idle,
        s.migrations.len() == 1,
    ensures
        feed(s, seq![EventView::Start, EventView::Connected] + migration_events(content)).1 == seq![
            ActionView::Connect(s.host),
            ActionView::Load(path_of(s.migrations[0])),
        ] + executions(statements_of(content)) + seq![
            ActionView::Advance(id_of(s.migrations[0])),
            ActionView::Finish,
        ],
{
    let scripts = seq![content];
    lemma_run_succeeds(s, scripts);
    assert(events_from(scripts, 1) =~= Seq::<EventView>::empty());
    assert(events_from(scripts, 0) =~= migration_events(content));
    assert(actions_from(s.migrations, scripts, 1) =~= Seq::<ActionView>::empty());
    assert(actions_from(s.migrations, scripts, 0) =~= executions(statements_of(content)) + seq![
        ActionView::Advance(id_of(s.migrations[0])),
        ActionView::Finish,
    ]);
    assert(seq![ActionView::Connect(s.host), ActionView::Load(path_of(s.migrations[0]))]
        + actions_from(s.migrations, scripts, 0) =~= seq![
        ActionView::Connect(s.host),
        ActionView::Load(path_of(s.migrations[0])),
    ] + executions(statements_of(content)) + seq![
        ActionView::Advance(id_of(s.migrations[0])),
        ActionView::Finish,
    ]);
}

} // verus!
