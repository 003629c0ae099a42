//! Which client is live, and the one arbiter for every operation that ends in a
//! reboot.

use crate::device_status::DeviceStatus;
use crate::flash::{changes, Change, FlashAction, FlashView, Namespace};
use crate::mirror::whole_reset;
use crate::recovery::{is_wiped, reset_wipes_flash};
use crate::storage::NvsStore;
use vstd::prelude::*;

verus! {

/// The client that is currently run, known by the number of its run, so that
/// events from a superseded one can be ignored.
pub struct ActiveClient<C> {
    current: Option<(u64, C)>,
}

impl<C> ActiveClient<C> {
    /// The number of the live client's run, and the client.
    pub closed spec fn live(&self) -> Option<(u64, C)> {
        self.current
    }

    /// No client is live.
    pub fn new() -> (r: ActiveClient<C>)
        ensures
            r.live() is None,
    {
        ActiveClient { current: None }
    }

    /// Makes a client the live one.
    pub fn set(&mut self, run: u64, client: C)
        ensures
            final(self).live() == Some((run, client)),
    {
        self.current = Some((run, client));
    }

    /// The live client.
    pub fn current(&self) -> (r: Option<&(u64, C)>)
        ensures
            r is Some == self.live() is Some,
            r matches Some(live) ==> self.live() == Some(*live),
    {
        match &self.current {
            Some(live) => Some(live),
            None => None,
        }
    }

    /// Whether the client of this run is the live one.
    pub open spec fn spec_is_current(&self, run: u64) -> bool {
        self.live() matches Some((live, _)) && live == run
    }

    /// Whether the client of this run is the live one.
    pub fn is_current(&self, run: u64) -> (r: bool)
        ensures
            r == self.spec_is_current(run),
    {
        match &self.current {
            Some((live, _)) => *live == run,
            None => false,
        }
    }

    /// No client is live any more, if the one of this run was.
    pub fn clear_if(&mut self, run: u64)
        ensures
            final(self).live() == if old(self).spec_is_current(run) {
                None
            } else {
                old(self).live()
            },
    {
        if self.is_current(run) {
            self.current = None;
        }
    }
}

/// What a maintenance request asks for, ordered by how much it destroys: a
/// request can only be upgraded, never downgraded, while one is in flight.
#[derive(Clone, Copy, Debug, PartialEq, Eq, PartialOrd, Ord, Structural)]
pub enum MaintenanceAction {
    Reboot,
    ClearSessions,
    Reset,
}

impl MaintenanceAction {
    /// How much it destroys.
    pub open spec fn spec_rank(self) -> int {
        match self {
            MaintenanceAction::Reboot => 0,
            MaintenanceAction::ClearSessions => 1,
            MaintenanceAction::Reset => 2,
        }
    }

    /// How much it destroys.
    pub fn rank(&self) -> (r: u8)
        ensures
            r == self.spec_rank(),
    {
        match *self {
            MaintenanceAction::Reboot => 0,
            MaintenanceAction::ClearSessions => 1,
            MaintenanceAction::Reset => 2,
        }
    }
}

/// The more destructive of what was asked for and what is asked for now.
pub open spec fn upgraded(
    requested: Option<MaintenanceAction>,
    action: MaintenanceAction,
) -> MaintenanceAction {
    match requested {
        Some(current) if current.spec_rank() > action.spec_rank() => current,
        _ => action,
    }
}

/// What becomes of a maintenance request.
#[derive(Clone, Copy, Debug, PartialEq, Eq, Structural)]
pub enum MaintenanceRequest {
    /// The caller has to start the maintenance task.
    Start,
    /// A task is already running and will pick this request up.
    Queued,
    /// The reboot is under way; nothing more can be queued.
    Rejected,
}

/// What becomes of a request, and the arbiter after it.
pub open spec fn asked(
    coordinator: MaintenanceCoordinator,
    action: MaintenanceAction,
) -> (MaintenanceCoordinator, MaintenanceRequest) {
    if !coordinator.accepting {
        (coordinator, MaintenanceRequest::Rejected)
    } else {
        (
            MaintenanceCoordinator {
                highest: Some(upgraded(coordinator.highest, action)),
                running: true,
                accepting: true,
            },
            if coordinator.running {
                MaintenanceRequest::Queued
            } else {
                MaintenanceRequest::Start
            },
        )
    }
}

/// Arbitrates every operation that ends in a reboot. Requests can only upgrade in
/// priority, so a forced credential reset wins over a concurrent session clear or
/// plain reboot, and two requests never race two erase-and-reboot sequences.
#[derive(Clone, Copy, Debug, PartialEq, Eq, Structural)]
pub struct MaintenanceCoordinator {
    pub highest: Option<MaintenanceAction>,
    pub running: bool,
    pub accepting: bool,
}

impl MaintenanceCoordinator {
    /// Nothing is requested.
    pub fn new() -> (r: MaintenanceCoordinator)
        ensures
            r == (MaintenanceCoordinator { highest: None, running: false, accepting: true }),
    {
        MaintenanceCoordinator { highest: None, running: false, accepting: true }
    }

    /// Asks for an action.
    pub fn request(&mut self, action: MaintenanceAction) -> (r: MaintenanceRequest)
        ensures
            (*final(self), r) == asked(*old(self), action),
    {
        if !self.accepting {
            return MaintenanceRequest::Rejected;
        }
        let wanted = match self.highest {
            Some(current) => if current.rank() > action.rank() {
                current
            } else {
                action
            },
            None => action,
        };
        self.highest = Some(wanted);
        if self.running {
            MaintenanceRequest::Queued
        } else {
            self.running = true;
            MaintenanceRequest::Start
        }
    }

    /// What is asked for, a reboot at the least.
    pub open spec fn spec_requested(self) -> MaintenanceAction {
        match self.highest {
            Some(action) => action,
            None => MaintenanceAction::Reboot,
        }
    }

    /// What is asked for, a reboot at the least.
    pub fn requested(&self) -> (r: MaintenanceAction)
        ensures
            r == self.spec_requested(),
    {
        match self.highest {
            Some(action) => action,
            None => MaintenanceAction::Reboot,
        }
    }

    /// Closes the request window once the highest requested action has been
    /// applied. A higher request that came meanwhile makes the caller apply that
    /// first.
    pub fn begin_reboot(&mut self, applied: MaintenanceAction) -> (r: bool)
        ensures
            r == !(old(self).highest matches Some(requested) && requested.spec_rank()
                > applied.spec_rank()),
            r ==> *final(self) == (MaintenanceCoordinator { accepting: false, ..*old(self) }),
            !r ==> *final(self) == *old(self),
    {
        if let Some(requested) = self.highest {
            if requested.rank() > applied.rank() {
                return false;
            }
        }
        self.accepting = false;
        true
    }

    /// Whether nothing is requested or under way.
    pub fn is_idle(&self) -> (r: bool)
        ensures
            r == (self.accepting && !self.running),
    {
        self.accepting && !self.running
    }

    /// The task that `Start` asked for could not be queued; reopens the window.
    pub fn cancel_start(&mut self)
        ensures
            *final(self) == (MaintenanceCoordinator {
                highest: None,
                running: false,
                ..*old(self)
            }),
    {
        self.running = false;
        self.highest = None;
    }
}

impl Default for MaintenanceCoordinator {
    fn default() -> (r: MaintenanceCoordinator)
        ensures
            r == (MaintenanceCoordinator { highest: None, running: false, accepting: true }),
    {
        MaintenanceCoordinator::new()
    }
}

impl<C> Default for ActiveClient<C> {
    fn default() -> (r: ActiveClient<C>)
        ensures
            r.live() is None,
    {
        ActiveClient::new()
    }
}

/// How a client is stopped.
#[derive(Clone, Copy, Debug, PartialEq, Eq, Structural)]
pub enum ClientStop {
    Logout,
    Disconnect,
}

/// What maintenance does next.
#[derive(Clone, Copy, Debug, PartialEq, Eq, Structural)]
pub enum MaintenanceStep {
    /// Log the stopped client out: a reset came while it was being disconnected.
    Logout,
    /// Apply this action.
    Apply(MaintenanceAction),
    /// Reboot; requests are no longer taken.
    Restart,
}

/// Maintenance under way: stops the live client first, applies the highest action
/// requested by the time it gets there, and reboots.
#[derive(Clone, Copy, Debug, PartialEq, Eq, Structural)]
pub struct MaintenanceRun {
    /// Whether there was a client to stop.
    pub had_client: bool,
    pub logout_attempted: bool,
    /// The highest action that has been applied.
    pub applied: MaintenanceAction,
}

/// What maintenance does next, and how it and the arbiter stand after that. An action
/// higher than what was applied is applied; a reset is preceded by a logout, where the
/// client was only disconnected. Once nothing higher is requested the request window is
/// closed and the device restarts.
pub open spec fn stepped(run: MaintenanceRun, coordinator: MaintenanceCoordinator) -> (
    MaintenanceRun,
    MaintenanceCoordinator,
    MaintenanceStep,
) {
    let requested = coordinator.spec_requested();
    if requested.spec_rank() <= run.applied.spec_rank() {
        (
            run,
            MaintenanceCoordinator { accepting: false, ..coordinator },
            MaintenanceStep::Restart,
        )
    } else if requested == MaintenanceAction::Reset && run.owes_logout() {
        (MaintenanceRun { logout_attempted: true, ..run }, coordinator, MaintenanceStep::Logout)
    } else {
        (run, coordinator, MaintenanceStep::Apply(requested))
    }
}

/// The arbiter after requests, made in order.
pub open spec fn asked_all(
    coordinator: MaintenanceCoordinator,
    actions: Seq<MaintenanceAction>,
) -> MaintenanceCoordinator
    decreases actions.len(),
{
    if actions.len() == 0 {
        coordinator
    } else {
        asked(asked_all(coordinator, actions.drop_last()), actions.last()).0
    }
}

/// How long to wait before an action that failed is tried again, in seconds.
pub const RETRY_DELAY_S: u64 = 1;

impl MaintenanceRun {
    /// Begins with what is requested by now: the run, and how to stop the live
    /// client, if there is one. A reset logs out, anything else disconnects.
    pub fn start(initial: MaintenanceAction, has_client: bool) -> (r: (
        MaintenanceRun,
        Option<ClientStop>,
    ))
        ensures
            r.0 == (MaintenanceRun {
                had_client: has_client,
                logout_attempted: has_client && initial == MaintenanceAction::Reset,
                applied: MaintenanceAction::Reboot,
            }),
            r.1 == if !has_client {
                None
            } else if initial == MaintenanceAction::Reset {
                Some(ClientStop::Logout)
            } else {
                Some(ClientStop::Disconnect)
            },
    {
        let resetting = initial == MaintenanceAction::Reset;
        let run = MaintenanceRun {
            had_client: has_client,
            logout_attempted: has_client && resetting,
            applied: MaintenanceAction::Reboot,
        };
        let stop = if !has_client {
            None
        } else if resetting {
            Some(ClientStop::Logout)
        } else {
            Some(ClientStop::Disconnect)
        };
        (run, stop)
    }

    /// Whether the client has still to be logged out before a reset.
    pub open spec fn owes_logout(self) -> bool {
        self.had_client && !self.logout_attempted
    }

    /// What to do next. A restart is decided only once nothing higher than what
    /// was applied is requested, and closes the request window with it.
    pub fn next(&mut self, coordinator: &mut MaintenanceCoordinator) -> (r: MaintenanceStep)
        ensures
            (*final(self), *final(coordinator), r) == stepped(*old(self), *old(coordinator)),
    {
        let requested = coordinator.requested();
        if requested.rank() > self.applied.rank() {
            if requested == MaintenanceAction::Reset && self.had_client && !self.logout_attempted {
                self.logout_attempted = true;
                return MaintenanceStep::Logout;
            }
            return MaintenanceStep::Apply(requested);
        }
        let closed = coordinator.begin_reboot(self.applied);
        assert(closed);
        MaintenanceStep::Restart
    }

    /// Notes how an action went: how many seconds to wait before the next step.
    pub fn applied(&mut self, action: MaintenanceAction, succeeded: bool) -> (wait: u64)
        ensures
            succeeded ==> wait == 0 && *final(self) == (MaintenanceRun {
                applied: action,
                ..*old(self)
            }),
            !succeeded ==> wait == 1 && *final(self) == *old(self),
    {
        if succeeded {
            self.applied = action;
            0
        } else {
            RETRY_DELAY_S
        }
    }
}

/// The changes to flash that an action makes.
pub open spec fn maintenance_changes(action: MaintenanceAction) -> Seq<Change> {
    match action {
        MaintenanceAction::Reset => whole_reset(),
        MaintenanceAction::ClearSessions => seq![Change::Erase { space: Namespace::Session }],
        MaintenanceAction::Reboot => Seq::empty(),
    }
}

/// Readies the store for an action, and says what to change in flash: nothing is
/// erased before writes are sealed, so that no stale background work recreates
/// what is erased. A reset also forgets the account that is shown.
pub fn prepare_maintenance(
    action: MaintenanceAction,
    store: &mut NvsStore,
    status: &mut DeviceStatus,
) -> (r: Vec<FlashAction>)
    requires
        old(store).wf(),
        old(status).wf(),
    ensures
        final(store).wf(),
        final(status).wf(),
        final(store).mirror() == old(store).mirror(),
        final(store).cached() == old(store).cached(),
        final(store).counter() == old(store).counter(),
        final(store).accepting() == (old(store).accepting() && action == MaintenanceAction::Reboot),
        final(status)@ == if action == MaintenanceAction::Reset {
            old(status)@.logged_out()
        } else {
            old(status)@
        },
        changes(r@) == maintenance_changes(action),
{
    match action {
        MaintenanceAction::Reset => {
            status.set_logged_out();
            store.seal_writes();
            NvsStore::begin_reset()
        },
        MaintenanceAction::ClearSessions => {
            store.seal_writes();
            let mut out: Vec<FlashAction> = Vec::new();
            out.push(NvsStore::begin_clear_sessions());
            assert(changes(out@) =~= maintenance_changes(action));
            out
        },
        MaintenanceAction::Reboot => {
            let out: Vec<FlashAction> = Vec::new();
            assert(changes(out@) =~= Seq::empty());
            out
        },
    }
}

/// Follows in the store what an action changed in flash. How many sessions were
/// cleared by themselves.
pub fn finish_maintenance(action: MaintenanceAction, store: &mut NvsStore) -> (n: usize)
    requires
        old(store).wf(),
    ensures
        final(store).wf(),
        final(store).accepting() == old(store).accepting(),
        match action {
            MaintenanceAction::Reset => {
                &&& n == 0
                &&& final(store).mirror() == crate::mirror::MirrorView::none()
                &&& final(store).cached() == crate::caches::CachesView::none()
                &&& final(store).counter() == 0
            },
            MaintenanceAction::ClearSessions => {
                &&& n == old(store).mirror().sessions.dom().len()
                &&& final(store).mirror() == (crate::mirror::MirrorView {
                    sessions: Map::empty(),
                    ..old(store).mirror()
                })
                &&& final(store).cached() == old(store).cached()
                &&& final(store).counter() == old(store).counter()
            },
            MaintenanceAction::Reboot => n == 0 && *final(store) == *old(store),
        },
{
    match action {
        MaintenanceAction::Reset => {
            store.reset();
            0
        },
        MaintenanceAction::ClearSessions => store.clear_sessions(),
        MaintenanceAction::Reboot => 0,
    }
}

/// Nothing that was requested is left behind by a restart: the highest action was
/// applied, and every request from then on is rejected.
pub proof fn restart_leaves_nothing_behind(
    run: MaintenanceRun,
    coordinator: MaintenanceCoordinator,
    actions: Seq<MaintenanceAction>,
    last: MaintenanceAction,
)
    requires
        stepped(run, coordinator).2 == MaintenanceStep::Restart,
    ensures
        ({
            let closed = stepped(run, coordinator).1;
            &&& coordinator.spec_requested().spec_rank() <= run.applied.spec_rank()
            &&& asked_all(closed, actions) == closed
            &&& asked(asked_all(closed, actions), last).1 == MaintenanceRequest::Rejected
        }),
    decreases actions.len(),
{
    if actions.len() > 0 {
        restart_leaves_nothing_behind(run, coordinator, actions.drop_last(), last);
    }
}

/// Of all requests until a restart only the first starts a task.
pub proof fn one_task_at_a_time(
    coordinator: MaintenanceCoordinator,
    actions: Seq<MaintenanceAction>,
    last: MaintenanceAction,
)
    requires
        actions.len() > 0,
        coordinator.accepting,
    ensures
        asked(asked_all(coordinator, actions), last).1 == MaintenanceRequest::Queued,
        forall|i: int|
            0 <= i < actions.len() ==> asked_all(
                coordinator,
                actions,
            ).spec_requested().spec_rank() >= (#[trigger] actions[i]).spec_rank(),
    decreases actions.len(),
{
    let before = asked_all(coordinator, actions.drop_last());
    if actions.len() > 1 {
        one_task_at_a_time(coordinator, actions.drop_last(), last);
        assert forall|i: int| 0 <= i < actions.len() implies asked_all(
            coordinator,
            actions,
        ).spec_requested().spec_rank() >= (#[trigger] actions[i]).spec_rank() by {
            if i < actions.len() - 1 {
                assert(actions.drop_last()[i] == actions[i]);
            }
        }
    }
}

/// Two requests merge into the more destructive one, in whatever order they come.
pub proof fn requests_merge(
    highest: Option<MaintenanceAction>,
    a: MaintenanceAction,
    b: MaintenanceAction,
)
    ensures
        upgraded(Some(upgraded(highest, a)), b) == upgraded(Some(upgraded(highest, b)), a),
        upgraded(highest, a).spec_rank() >= a.spec_rank(),
        highest matches Some(before) ==> upgraded(highest, a).spec_rank() >= before.spec_rank(),
{
}

/// A reset destroys more than clearing the sessions, which destroys more than a reboot;
/// what is asked for is the most destructive of all requests.
pub proof fn the_most_destructive_request_wins(
    highest: Option<MaintenanceAction>,
    action: MaintenanceAction,
)
    ensures
        MaintenanceAction::Reboot.spec_rank() < MaintenanceAction::ClearSessions.spec_rank()
            < MaintenanceAction::Reset.spec_rank(),
        upgraded(None, action) == action,
        upgraded(Some(MaintenanceAction::Reset), action) == MaintenanceAction::Reset,
        upgraded(highest, MaintenanceAction::Reset) == MaintenanceAction::Reset,
        upgraded(Some(MaintenanceAction::Reboot), action) == action,
        upgraded(highest, MaintenanceAction::Reboot) == match highest {
            Some(before) => before,
            None => MaintenanceAction::Reboot,
        },
        action != MaintenanceAction::Reset ==> upgraded(
            Some(MaintenanceAction::ClearSessions),
            action,
        ) == MaintenanceAction::ClearSessions,
{
}

/// A request is turned down only once the reboot is under way; the first one starts the
/// task, and the ones after it are queued.
pub proof fn requests_are_taken_until_the_reboot(
    coordinator: MaintenanceCoordinator,
    action: MaintenanceAction,
)
    ensures
        ({
            let (then_coordinator, answer) = asked(coordinator, action);
            &&& answer == MaintenanceRequest::Rejected <==> !coordinator.accepting
            &&& answer == MaintenanceRequest::Start <==> coordinator.accepting
                && !coordinator.running
            &&& answer == MaintenanceRequest::Rejected ==> then_coordinator == coordinator
            &&& answer != MaintenanceRequest::Rejected ==> then_coordinator.running
                && then_coordinator.accepting && then_coordinator.highest is Some
                && then_coordinator.spec_requested() == upgraded(coordinator.highest, action)
        }),
        coordinator.highest is None ==> coordinator.spec_requested() == MaintenanceAction::Reboot,
        coordinator.highest is Some ==> coordinator.spec_requested() == coordinator.highest->0,
{
}

/// Each step of maintenance does what is still owed: a logout before a reset where the
/// client was only disconnected, then the action that was asked for, then the restart,
/// which alone closes the window for requests.
pub proof fn maintenance_does_what_is_owed(run: MaintenanceRun, coordinator: MaintenanceCoordinator)
    ensures
        ({
            let asked_for = coordinator.spec_requested();
            let (then_run, then_coordinator, step) = stepped(run, coordinator);
            let done = asked_for == MaintenanceAction::Reboot || run.applied
                == MaintenanceAction::Reset || run.applied == asked_for;
            &&& step == MaintenanceStep::Restart <==> done
            &&& step == MaintenanceStep::Logout <==> !done && asked_for == MaintenanceAction::Reset
                && run.had_client && !run.logout_attempted
            &&& step != MaintenanceStep::Restart && step != MaintenanceStep::Logout ==> step
                == MaintenanceStep::Apply(asked_for)
            &&& then_coordinator.accepting == (coordinator.accepting && !done)
            &&& then_coordinator.highest == coordinator.highest
            &&& then_coordinator.running == coordinator.running
            &&& then_run.had_client == run.had_client
            &&& then_run.applied == run.applied
            &&& then_run.logout_attempted == (run.logout_attempted || step
                == MaintenanceStep::Logout)
            &&& run.owes_logout() <==> run.had_client && !run.logout_attempted
        }),
{
}

/// A reset wipes flash, clearing the sessions erases them and nothing else, and a reboot
/// changes nothing.
pub proof fn actions_erase_what_they_say(flash: FlashView, space: Namespace, name: Seq<char>)
    ensures
        is_wiped(flash.after_all(maintenance_changes(MaintenanceAction::Reset))),
        flash.after_all(maintenance_changes(MaintenanceAction::ClearSessions)).blob(space, name)
            == if space == Namespace::Session {
            None
        } else {
            flash.blob(space, name)
        },
        flash.after_all(maintenance_changes(MaintenanceAction::Reboot)) == flash,
{
    reset_wipes_flash(flash);
    let clear = seq![Change::Erase { space: Namespace::Session }];
    assert(clear.drop_last() =~= Seq::empty());
    assert(clear.last() == Change::Erase { space: Namespace::Session });
    assert(flash.after_all(Seq::empty()) == flash);
    assert(flash.after_all(clear) == flash.after(clear.last()));
}

/// A client is the live one by the number of its run.
pub proof fn the_live_client_is_known_by_its_run<C>(active: ActiveClient<C>, run: u64)
    ensures
        active.live() is None ==> !active.spec_is_current(run),
        active.live() is Some ==> (active.spec_is_current(run) <==> (active.live()->0).0 == run),
{
}

} // verus!
