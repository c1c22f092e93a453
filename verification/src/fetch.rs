//! The rounds of a fetch: what to do after each attempt to resolve the share.

use crate::dnsparser::Resource;
use crate::error::DnsError;
use vstd::prelude::*;

verus! {

/// The service under which shares are announced.
pub const SERVICE: &'static str = "_http._tcp.local";

/// How many tries a fetch may count and still go on.
pub const MAX_TRY: u32 = 5;

/// How long a pause lasts, in seconds.
pub const PAUSE_SECS: u64 = 2;

/// What a fetch does after one round.
#[derive(Debug, Clone, Copy, PartialEq, Eq)]
pub enum Move {
    /// The share of the wanted user was found: download it.
    Download,
    /// Resolve again at once.
    Resolve,
    /// Pause, then resolve again.
    PauseThenResolve,
    /// Pause, then give up.
    PauseThenGiveUp,
}

/// The tries that a fetch has counted.
pub struct Fetch {
    tries: u32,
}

impl View for Fetch {
    type V = nat;

    closed spec fn view(&self) -> nat {
        self.tries as nat
    }
}

/// Whether a round found the share of `name`.
pub open spec fn found(round: Result<Resource, DnsError>, name: Seq<char>) -> bool {
    round matches Ok(resource) && resource@.user == name
}

/// Whether a failed round is followed by a pause: every one is, but the one
/// that met a pointer without the marker.
pub open spec fn pauses(round: Result<Resource, DnsError>) -> bool {
    round != Err::<Resource, DnsError>(DnsError::Unverified)
}

/// The move after a round, and the tries counted with it, where `tries`
/// were counted before. The share of `name` is downloaded and costs no try.
/// Any other round counts as one: while no more than `MAX_TRY` are counted
/// the fetch resolves again, after a pause or at once; the round that brings
/// the count over `MAX_TRY` is the last.
pub open spec fn next_move(tries: nat, round: Result<Resource, DnsError>, name: Seq<char>) -> (
    Move,
    nat,
) {
    if found(round, name) {
        (Move::Download, tries)
    } else if tries >= MAX_TRY {
        (Move::PauseThenGiveUp, (MAX_TRY + 1) as nat)
    } else if pauses(round) {
        (Move::PauseThenResolve, tries + 1)
    } else {
        (Move::Resolve, tries + 1)
    }
}

/// The moves of a fetch over `rounds`, in their order, where `tries` were
/// counted before the first of them.
pub open spec fn moves(tries: nat, rounds: Seq<Result<Resource, DnsError>>, name: Seq<char>) -> Seq<
    Move,
>
    decreases rounds.len(),
{
    if rounds.len() == 0 {
        Seq::empty()
    } else {
        let (first, counted) = next_move(tries, rounds[0], name);
        seq![first] + moves(counted, rounds.drop_first(), name)
    }
}

impl Fetch {
    #[verifier::type_invariant]
    spec fn bounded(self) -> bool {
        self.tries <= MAX_TRY + 1
    }

    /// A fetch that has counted no try yet.
    pub fn new() -> (fetch: Fetch)
        ensures
            fetch@ == 0,
    {
        Fetch { tries: 0 }
    }

    /// How many tries were counted.
    pub fn tries(&self) -> (tries: u32)
        ensures
            tries == self@,
    {
        self.tries
    }

    /// Decides what follows a round. The share of `name` is downloaded.
    /// Every other round counts as a try, whatever made it fail. While tries
    /// are left the fetch resolves again: at once after a pointer without
    /// the marker, after a pause otherwise. The round that brings the count
    /// over `MAX_TRY` is followed by a last pause, and the fetch gives up.
    pub fn after_round(&mut self, round: &Result<Resource, DnsError>, name: &String) -> (next: Move)
        ensures
            (next, final(self)@) == next_move(old(self)@, *round, name@),
    {
        proof {
            use_type_invariant(&*self);
        }
        let at_once = match round {
            Ok(resource) => {
                if *resource.user() == *name {
                    return Move::Download;
                }
                false
            },
            Err(DnsError::Unverified) => true,
            Err(_) => false,
        };
        if self.tries >= MAX_TRY {
            self.tries = MAX_TRY + 1;
            Move::PauseThenGiveUp
        } else {
            self.tries = self.tries + 1;
            if at_once {
                Move::Resolve
            } else {
                Move::PauseThenResolve
            }
        }
    }
}

/// The retries of a fetch are bounded. Where no round finds the share, the
/// fetch goes on through the first `MAX_TRY` rounds and gives up after the
/// next one, whatever made the rounds fail.
pub proof fn lemma_retries_are_bounded(rounds: Seq<Result<Resource, DnsError>>, name: Seq<char>)
    requires
        rounds.len() > MAX_TRY,
        forall|i: int| 0 <= i < rounds.len() ==> !found(#[trigger] rounds[i], name),
    ensures
        moves(0, rounds, name).len() == rounds.len(),
        forall|i: int|
            0 <= i < MAX_TRY ==> #[trigger] moves(0, rounds, name)[i] == (if pauses(rounds[i]) {
                Move::PauseThenResolve
            } else {
                Move::Resolve
            }),
        moves(0, rounds, name)[MAX_TRY as int] == Move::PauseThenGiveUp,
{
    lemma_failed_rounds(0, rounds, name);
}

/// The moves over rounds that all fail, from any count on.
proof fn lemma_failed_rounds(tries: nat, rounds: Seq<Result<Resource, DnsError>>, name: Seq<char>)
    requires
        tries <= MAX_TRY + 1,
        forall|i: int| 0 <= i < rounds.len() ==> !found(#[trigger] rounds[i], name),
    ensures
        moves(tries, rounds, name).len() == rounds.len(),
        forall|i: int|
            0 <= i < rounds.len() ==> #[trigger] moves(tries, rounds, name)[i] == (if tries + i
                >= MAX_TRY {
                Move::PauseThenGiveUp
            } else if pauses(rounds[i]) {
                Move::PauseThenResolve
            } else {
                Move::Resolve
            }),
    decreases rounds.len(),
{
    if rounds.len() > 0 {
        let later = rounds.drop_first();
        let (first, counted) = next_move(tries, rounds[0], name);
        assert forall|i: int| 0 <= i < later.len() implies !found(#[trigger] later[i], name) by {
            assert(later[i] == rounds[i + 1]);
        }
        lemma_failed_rounds(counted, later, name);
        let all = moves(tries, rounds, name);
        assert forall|i: int| 0 <= i < rounds.len() implies #[trigger] all[i] == (if tries + i
            >= MAX_TRY {
            Move::PauseThenGiveUp
        } else if pauses(rounds[i]) {
            Move::PauseThenResolve
        } else {
            Move::Resolve
        }) by {
            if i > 0 {
                assert(all[i] == moves(counted, later, name)[i - 1]);
                assert(later[i - 1] == rounds[i]);
            }
        }
    }
}

} // verus!
