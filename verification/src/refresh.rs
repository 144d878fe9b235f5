//! The refresh scheduler: when a refresh is due, and the steps of one.
//!
//! A refresh fetches the leaderboard page, normalises its rows and commits
//! the batch. The scheduler decides; its driver fetches, persists and
//! reports back. At most one refresh runs at a time: a trigger that comes
//! while one is running starts nothing.

use vstd::prelude::*;

use crate::normalize::normalized_batch;
use crate::record::PlayerRecord;
use crate::scrape::{leaderboard_rows, parse_leaderboard};
use crate::store::{is_table_of, Store};

verus! {

/// Seconds after which the table is due for a refresh.
pub const REFRESH_INTERVAL: i64 = 86_400;

/// Address of the leaderboard page.
pub const LEADERBOARD_URL: &'static str = "https://prosettings.net/lists/valorant/";

/// The `User-Agent` header that a fetch sends: the source may refuse a
/// client that does not look like a browser.
pub const USER_AGENT: &'static str = "Mozilla/5.0 (Windows NT 10.0; Win64; x64) AppleWebKit/537.36";

/// Seconds after which a fetch is given up.
pub const FETCH_TIMEOUT: u64 = 30;

/// What asks for a refresh.
#[derive(Clone, Copy, Debug, PartialEq, Eq, Structural)]
pub enum Trigger {
    /// The process has started.
    Startup,
    /// The recurring timer has fired.
    Timer,
    /// A read is about to be served.
    Read,
}

/// Why a refresh failed.
#[derive(Clone, Copy, Debug, PartialEq, Eq, Structural)]
pub enum RefreshError {
    /// The page could not be fetched.
    Fetch,
    /// The batch could not be persisted.
    Store,
}

/// Where a refresh stands.
#[derive(Clone, Copy, Debug, PartialEq, Eq, Structural)]
pub enum Phase {
    Idle,
    Fetching,
    Normalizing,
    Committing,
    Failed(RefreshError),
}

/// What moves a refresh on.
#[derive(Clone, Copy, Debug, PartialEq, Eq, Structural)]
pub enum Event {
    Start,
    FetchSucceeded,
    FetchFailed,
    Normalized,
    CommitSucceeded,
    CommitFailed,
    Acknowledged,
}

/// The phase after an event. An event that the phase does not wait for
/// changes nothing.
pub open spec fn next_phase(phase: Phase, event: Event) -> Phase {
    match (phase, event) {
        (Phase::Idle, Event::Start) => Phase::Fetching,
        (Phase::Fetching, Event::FetchSucceeded) => Phase::Normalizing,
        (Phase::Fetching, Event::FetchFailed) => Phase::Failed(RefreshError::Fetch),
        (Phase::Normalizing, Event::Normalized) => Phase::Committing,
        (Phase::Committing, Event::CommitSucceeded) => Phase::Idle,
        (Phase::Committing, Event::CommitFailed) => Phase::Failed(RefreshError::Store),
        (Phase::Failed(_), Event::Acknowledged) => Phase::Idle,
        _ => phase,
    }
}

/// The table is due for a refresh: it was never refreshed, or the last
/// refresh lies a full interval back.
pub open spec fn is_due(last_refresh: Option<i64>, now: i64) -> bool {
    match last_refresh {
        Some(then) => now - then >= REFRESH_INTERVAL,
        None => true,
    }
}

/// The trigger asks for a refresh: at startup and on the timer always,
/// before a read only if the table is due.
pub open spec fn fires(trigger: Trigger, last_refresh: Option<i64>, now: i64) -> bool {
    match trigger {
        Trigger::Startup => true,
        Trigger::Timer => true,
        Trigger::Read => is_due(last_refresh, now),
    }
}

/// The trigger starts a refresh: it asks for one and none is running.
pub open spec fn starts(
    phase: Phase,
    trigger: Trigger,
    last_refresh: Option<i64>,
    now: i64,
) -> bool {
    phase == Phase::Idle && fires(trigger, last_refresh, now)
}

/// A refresh whose every step succeeds ends where it began, in `Idle`.
pub proof fn lemma_refresh_returns_to_idle()
    ensures
        next_phase(
            next_phase(
                next_phase(next_phase(Phase::Idle, Event::Start), Event::FetchSucceeded),
                Event::Normalized,
            ),
            Event::CommitSucceeded,
        ) == Phase::Idle,
{
}

/// A refresh that fails, at the fetch or at the commit, is back in `Idle`
/// once the failure is acknowledged.
pub proof fn lemma_failure_returns_to_idle(failure: RefreshError)
    ensures
        next_phase(next_phase(Phase::Fetching, Event::FetchFailed), Event::Acknowledged)
            == Phase::Idle,
        next_phase(next_phase(Phase::Committing, Event::CommitFailed), Event::Acknowledged)
            == Phase::Idle,
        next_phase(Phase::Failed(failure), Event::Acknowledged) == Phase::Idle,
{
}

/// While a refresh is running no trigger starts another.
pub proof fn lemma_one_refresh_at_a_time(
    phase: Phase,
    trigger: Trigger,
    last_refresh: Option<i64>,
    now: i64,
)
    requires
        phase != Phase::Idle,
    ensures
        !starts(phase, trigger, last_refresh, now),
        next_phase(phase, Event::Start) == phase,
{
}

/// A read, with the scheduler idle, starts a refresh exactly when the last
/// one lies a full interval back; the refresh then running, a second read
/// starts none.
pub proof fn lemma_lazy_refresh(last: i64, now: i64)
    ensures
        starts(Phase::Idle, Trigger::Read, Some(last), now) <==> now - last >= REFRESH_INTERVAL,
        !starts(next_phase(Phase::Idle, Event::Start), Trigger::Read, Some(last), now),
{
}

/// Moves a refresh on by one event.
pub fn advance(phase: Phase, event: Event) -> (next: Phase)
    ensures
        next == next_phase(phase, event),
{
    match (phase, event) {
        (Phase::Idle, Event::Start) => Phase::Fetching,
        (Phase::Fetching, Event::FetchSucceeded) => Phase::Normalizing,
        (Phase::Fetching, Event::FetchFailed) => Phase::Failed(RefreshError::Fetch),
        (Phase::Normalizing, Event::Normalized) => Phase::Committing,
        (Phase::Committing, Event::CommitSucceeded) => Phase::Idle,
        (Phase::Committing, Event::CommitFailed) => Phase::Failed(RefreshError::Store),
        (Phase::Failed(_), Event::Acknowledged) => Phase::Idle,
        _ => phase,
    }
}

/// Tells whether a trigger asks for a refresh.
pub fn trigger_fires(trigger: Trigger, last_refresh: Option<i64>, now: i64) -> (wanted: bool)
    ensures
        wanted == fires(trigger, last_refresh, now),
{
    match trigger {
        Trigger::Startup => true,
        Trigger::Timer => true,
        Trigger::Read => refresh_due(last_refresh, now),
    }
}

/// Tells whether the table is due for a refresh.
pub fn refresh_due(last_refresh: Option<i64>, now: i64) -> (due: bool)
    ensures
        due == is_due(last_refresh, now),
{
    match last_refresh {
        Some(then) => (now as i128) - (then as i128) >= (REFRESH_INTERVAL as i128),
        None => true,
    }
}

/// A table built from a batch, stamped with the time `now`, to be
/// persisted and then put in the place of the live one.
pub fn stage(batch: &Vec<PlayerRecord>, now: i64) -> (staged: Store)
    ensures
        is_table_of(staged@.players, batch.deep_view()),
        staged@.last_refresh == Some(now),
{
    let mut staged = Store::new();
    staged.replace_all(batch, now);
    staged
}

/// The state of the refresh scheduler.
pub struct Scheduler {
    phase: Phase,
}

impl View for Scheduler {
    type V = Phase;

    closed spec fn view(&self) -> Phase {
        self.phase
    }
}

impl Scheduler {
    /// An idle scheduler.
    pub fn new() -> (scheduler: Scheduler)
        ensures
            scheduler@ == Phase::Idle,
    {
        Scheduler { phase: Phase::Idle }
    }

    /// Where the refresh stands.
    pub fn phase(&self) -> (phase: Phase)
        ensures
            phase == self@,
    {
        self.phase
    }

    /// Takes a trigger. Returns `true`, and goes to `Fetching`, when a
    /// refresh starts: the driver then fetches the page. A trigger that
    /// does not fire, or that comes while a refresh is running, changes
    /// nothing.
    pub fn request(&mut self, trigger: Trigger, last_refresh: Option<i64>, now: i64) -> (started:
        bool)
        ensures
            started == starts(old(self)@, trigger, last_refresh, now),
            final(self)@ == if started {
                next_phase(old(self)@, Event::Start)
            } else {
                old(self)@
            },
    {
        match self.phase {
            Phase::Idle => {
                let started = trigger_fires(trigger, last_refresh, now);
                if started {
                    self.phase = advance(self.phase, Event::Start);
                }
                started
            },
            _ => false,
        }
    }

    /// Takes the outcome of the fetch: the page, or `None` if it could not
    /// be had.
    ///
    /// With a page the batch is normalised at once and handed back for the
    /// driver to persist, and the scheduler waits in `Committing`. Without
    /// one the refresh has failed. Outside `Fetching` nothing happens.
    pub fn fetch_finished(&mut self, page: Option<&str>) -> (batch: Option<Vec<PlayerRecord>>)
        ensures
            old(self)@ == Phase::Fetching ==> final(self)@ == match page {
                Some(_) => next_phase(
                    next_phase(Phase::Fetching, Event::FetchSucceeded),
                    Event::Normalized,
                ),
                None => next_phase(Phase::Fetching, Event::FetchFailed),
            },
            old(self)@ != Phase::Fetching ==> final(self)@ == old(self)@,
            batch is Some <==> old(self)@ == Phase::Fetching && page is Some,
            batch is Some ==> batch->0.deep_view() == normalized_batch(leaderboard_rows(page->0@)),
    {
        match self.phase {
            Phase::Fetching => match page {
                Some(html) => {
                    self.phase = advance(self.phase, Event::FetchSucceeded);
                    let batch = parse_leaderboard(html);
                    self.phase = advance(self.phase, Event::Normalized);
                    Some(batch)
                },
                None => {
                    self.phase = advance(self.phase, Event::FetchFailed);
                    None
                },
            },
            _ => None,
        }
    }

    /// Takes the outcome of persisting the staged table.
    ///
    /// In `Committing`, the staged table takes the place of the live one
    /// if it was persisted; if not, the live table stays as it was and the
    /// refresh has failed. Outside `Committing` nothing happens.
    pub fn commit_finished(&mut self, store: &mut Store, staged: Store, persisted: bool)
        ensures
            final(self)@ == next_phase(
                old(self)@,
                if persisted {
                    Event::CommitSucceeded
                } else {
                    Event::CommitFailed
                },
            ),
            final(store)@ == if old(self)@ == Phase::Committing && persisted {
                staged@
            } else {
                old(store)@
            },
    {
        match self.phase {
            Phase::Committing => {
                if persisted {
                    *store = staged;
                    self.phase = advance(self.phase, Event::CommitSucceeded);
                } else {
                    self.phase = advance(self.phase, Event::CommitFailed);
                }
            },
            _ => {},
        }
    }

    /// Acknowledges a failure, once the driver has reported it, and goes
    /// back to `Idle`. Returns the failure, or `None` if there was none.
    pub fn acknowledge(&mut self) -> (failure: Option<RefreshError>)
        ensures
            final(self)@ == next_phase(old(self)@, Event::Acknowledged),
            failure == match old(self)@ {
                Phase::Failed(e) => Some(e),
                _ => None,
            },
    {
        let failure = match self.phase {
            Phase::Failed(e) => Some(e),
            _ => None,
        };
        self.phase = advance(self.phase, Event::Acknowledged);
        failure
    }
}

} // verus!
