//! The lobby: players ready up, and once both are ready the game starts after a countdown.

use vstd::prelude::*;

verus! {

/// How long the startup countdown lasts, in nanoseconds: five seconds.
pub const STARTUP_COUNTDOWN: u64 = 5_000_000_000;

/// The ready state of the game: still waiting for players to ready up, or starting with a
/// countdown (in nanoseconds). Once the countdown has run out the game is on and there is no
/// ready state any more.
#[derive(Clone, Copy, Debug, PartialEq, Eq, Structural)]
pub enum ReadyState {
    AwaitingClients,
    Starting { countdown: u64 },
}

/// The ready state after `delta` nanoseconds, or `None` once the countdown has run out.
pub open spec fn advanced(s: ReadyState, delta: u64) -> Option<ReadyState> {
    match s {
        ReadyState::AwaitingClients => Some(ReadyState::AwaitingClients),
        ReadyState::Starting { countdown } => if delta <= countdown {
            Some(ReadyState::Starting { countdown: (countdown - delta) as u64 })
        } else {
            None
        },
    }
}

/// The ready state after `n` steps of `delta` nanoseconds each, or `None` once the countdown
/// has run out.
pub open spec fn advanced_n(s: ReadyState, delta: u64, n: nat) -> Option<ReadyState>
    decreases n,
{
    if n == 0 {
        Some(s)
    } else {
        match advanced(s, delta) {
            Some(t) => advanced_n(t, delta, (n - 1) as nat),
            None => None,
        }
    }
}

impl ReadyState {
    /// The state a fresh lobby starts in: waiting for players.
    pub fn default() -> (r: Self)
        ensures
            r == ReadyState::AwaitingClients,
    {
        ReadyState::AwaitingClients
    }

    /// Whether ready notifications from players are still taken into account: only while
    /// waiting for players; once the game is starting they are discarded.
    pub fn accepts_ready(&self) -> (r: bool)
        ensures
            r == (*self == ReadyState::AwaitingClients),
    {
        match self {
            ReadyState::AwaitingClients => true,
            ReadyState::Starting { .. } => false,
        }
    }

    /// Starts the countdown once exactly two players are connected and both are ready
    /// (`clients_ready` holds whether each connected player is ready). Otherwise the state stays.
    pub fn start_game(&self, clients_ready: &Vec<bool>) -> (r: Self)
        ensures
            r == (if *self == ReadyState::AwaitingClients && clients_ready@.len() == 2 && (forall|
                i: int,
            | 0 <= i < 2 ==> #[trigger] clients_ready@[i]) {
                ReadyState::Starting { countdown: STARTUP_COUNTDOWN }
            } else {
                *self
            }),
    {
        match self {
            ReadyState::AwaitingClients => {
                if clients_ready.len() == 2 && clients_ready[0] && clients_ready[1] {
                    ReadyState::Starting { countdown: STARTUP_COUNTDOWN }
                } else {
                    proof {
                        if clients_ready@.len() == 2 {
                            assert(!clients_ready@[0] || !clients_ready@[1]);
                        }
                    }
                    *self
                }
            },
            ReadyState::Starting { .. } => *self,
        }
    }

    /// Advances the countdown by `delta` nanoseconds (see [`advanced`]). Returns `None` once the
    /// countdown has run out: the game is on.
    pub fn advance_countdown(&self, delta: u64) -> (r: Option<Self>)
        ensures
            r == advanced(*self, delta),
    {
        match self {
            ReadyState::AwaitingClients => Some(ReadyState::AwaitingClients),
            ReadyState::Starting { countdown } => match countdown.checked_sub(delta) {
                Some(c) => Some(ReadyState::Starting { countdown: c }),
                None => None,
            },
        }
    }
}

/// Each step of a positive duration shortens a running countdown by that much, until it runs
/// out.
pub proof fn lemma_countdown_decreases(countdown: u64, delta: u64)
    requires
        delta > 0,
    ensures
        match advanced(ReadyState::Starting { countdown }, delta) {
            Some(ReadyState::Starting { countdown: c }) => c < countdown && c == countdown - delta,
            Some(ReadyState::AwaitingClients) => false,
            None => delta > countdown,
        },
{
}

/// A running countdown always ends: with steps of a positive duration `delta`, the game is on
/// after `countdown / delta + 1` steps.
pub proof fn lemma_countdown_ends(countdown: u64, delta: u64)
    requires
        delta > 0,
    ensures
        advanced_n(ReadyState::Starting { countdown }, delta, (countdown / delta + 1) as nat) is None,
    decreases countdown,
{
    if delta > countdown {
        assert(countdown / delta == 0) by (nonlinear_arith)
            requires
                delta > countdown,
        ;
        assert(advanced_n(ReadyState::Starting { countdown }, delta, 1) is None);
    } else {
        let c = (countdown - delta) as u64;
        lemma_countdown_ends(c, delta);
        assert(c / delta + 1 == countdown / delta) by (nonlinear_arith)
            requires
                c == countdown - delta,
                delta > 0,
                delta <= countdown,
        ;
        assert(advanced(ReadyState::Starting { countdown }, delta) == Some(
            ReadyState::Starting { countdown: c },
        ));
    }
}

} // verus!
