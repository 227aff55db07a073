//! From a requested action to the call on the bus that carries it out.
//!
//! An action is a method name and an argument, where an empty argument means
//! that none was given. Some actions are a plain call of the method; a few
//! read a property of the player and write it back changed.

use crate::bus_name::{segments, texts};
use crate::offset::{offset_of, parse_offset};
use crate::priority::{
    lemma_matched_none, lemma_ranked_descending, lemma_ranked_keeps_entries,
    matched, ranked, sort_players, Config, Ranking,
};
use vstd::prelude::*;
use vstd::string::*;

verus! {

/// The way in which the volume moves by one step.
#[derive(Clone, Copy, Debug, PartialEq, Eq)]
pub enum VolumeStep {
    Raise,
    Lower,
}

/// What to do on the bus for one player.
#[derive(Clone, Copy, Debug, PartialEq, Eq)]
pub enum BusCall {
    /// Do nothing at all.
    Nothing,
    /// Invoke the method without parameters.
    Method,
    /// Invoke the method with `offset` as its one parameter. `malformed`
    /// says that the argument was no offset and zero took its place, which
    /// the caller reports.
    MethodWithOffset { offset: i64, malformed: bool },
    /// Read whether the player shuffles, and write back the opposite.
    ToggleShuffle,
    /// Read the volume, and write it back one step higher or lower.
    StepVolume { step: VolumeStep },
}

/// The object on which every player takes its calls.
pub const PLAYER_OBJECT_PATH: &'static str = "/org/mpris/MediaPlayer2";

/// The interface that holds the methods and properties of a player.
pub const PLAYER_INTERFACE: &'static str = "org.mpris.MediaPlayer2.Player";

/// How long a call on the bus may take, in milliseconds.
pub const CALL_TIMEOUT_MS: u64 = 5000;

/// The size of one volume step, in hundredths of the full volume.
pub const VOLUME_STEP_HUNDREDTHS: i8 = 5;

/// The call that the action `method` with the argument `arg` stands for.
pub open spec fn call_for(method: Seq<char>, arg: Seq<char>) -> BusCall {
    if arg.len() == 0 {
        if method == "Shuffle"@ {
            BusCall::ToggleShuffle
        } else {
            BusCall::Method
        }
    } else if method == "Volume"@ {
        if arg == "+"@ {
            BusCall::StepVolume { step: VolumeStep::Raise }
        } else if arg == "-"@ {
            BusCall::StepVolume { step: VolumeStep::Lower }
        } else {
            BusCall::Nothing
        }
    } else {
        match offset_of(arg) {
            Some(offset) => BusCall::MethodWithOffset { offset, malformed: false },
            None => BusCall::MethodWithOffset { offset: 0, malformed: true },
        }
    }
}

/// Whether `a` and `b` are the same text.
fn same_text(a: &str, b: &str) -> (same: bool)
    ensures
        same == (a@ == b@),
{
    String::from_str(a) == String::from_str(b)
}

/// Decides what the action `method` with the argument `arg` asks of a player.
///
/// Without an argument, `Shuffle` toggles the shuffle state and every other
/// method is invoked as it is. With one, `Volume` moves the volume a step up
/// for `+` and down for `-`, and does nothing for anything else; every other
/// method is invoked with the argument as its offset, or with zero where the
/// argument is no offset.
pub fn plan_call(method: &str, arg: &str) -> (call: BusCall)
    ensures
        call == call_for(method@, arg@),
{
    if arg.unicode_len() == 0 {
        if same_text(method, "Shuffle") {
            BusCall::ToggleShuffle
        } else {
            BusCall::Method
        }
    } else if same_text(method, "Volume") {
        if same_text(arg, "+") {
            BusCall::StepVolume { step: VolumeStep::Raise }
        } else if same_text(arg, "-") {
            BusCall::StepVolume { step: VolumeStep::Lower }
        } else {
            BusCall::Nothing
        }
    } else {
        match parse_offset(arg) {
            Some(offset) => BusCall::MethodWithOffset { offset, malformed: false },
            None => BusCall::MethodWithOffset { offset: 0, malformed: true },
        }
    }
}

/// What to write as the shuffle state once it has been read: the opposite of
/// what was read, and nothing where the read failed.
pub fn shuffle_to_write(current: Option<bool>) -> (next: Option<bool>)
    ensures
        next == match current {
            Some(state) => Some(!state),
            None => None::<bool>,
        },
{
    match current {
        Some(state) => Some(!state),
        None => None,
    }
}

impl VolumeStep {
    /// By how many hundredths of the full volume this step moves it: one step
    /// up or one step down. The result is not held within the full volume;
    /// that is left to the player.
    pub fn hundredths(&self) -> (delta: i8)
        ensures
            *self == VolumeStep::Raise ==> delta == VOLUME_STEP_HUNDREDTHS,
            *self == VolumeStep::Lower ==> delta == -VOLUME_STEP_HUNDREDTHS,
    {
        match self {
            VolumeStep::Raise => VOLUME_STEP_HUNDREDTHS,
            VolumeStep::Lower => -VOLUME_STEP_HUNDREDTHS,
        }
    }
}

/// The bus names that an action goes to. Sent to all, it goes to every player
/// in the order in which they were found; otherwise to the first of the
/// ranking alone, and to nobody where the ranking is empty.
pub open spec fn targets_of(players: Seq<Seq<char>>, entries: Seq<Ranking>, all: bool) -> Seq<
    Seq<char>,
> {
    if all {
        players
    } else if ranked(matched(players, entries)).len() == 0 {
        Seq::empty()
    } else {
        seq![ranked(matched(players, entries))[0].name]
    }
}

/// Where no player was found, an action goes to nobody.
pub proof fn lemma_no_players_no_targets(entries: Seq<Ranking>, all: bool)
    ensures
        matched(Seq::empty(), entries).len() == 0,
        ranked(matched(Seq::empty(), entries)).len() == 0,
        targets_of(Seq::empty(), entries, all).len() == 0,
{
    lemma_matched_none(entries);
}

/// The one player that an action goes to is a ranked player that no other
/// ranked player outranks.
pub proof fn lemma_target_outranks(players: Seq<Seq<char>>, entries: Seq<Ranking>, other: int)
    requires
        0 <= other < matched(players, entries).len(),
    ensures
        ranked(matched(players, entries)).len() > 0,
        targets_of(players, entries, false) == seq![ranked(matched(players, entries))[0].name],
        matched(players, entries).contains(ranked(matched(players, entries))[0]),
        ranked(matched(players, entries))[0].priority >= matched(players, entries)[other].priority,
{
    broadcast use vstd::seq_lib::group_to_multiset_ensures;

    let found = matched(players, entries);
    let order = ranked(found);
    lemma_ranked_descending(found);
    lemma_ranked_keeps_entries(found);
    assert(order.contains(order[0]));
    assert(found.to_multiset().count(order[0]) > 0);
    assert(found.contains(found[other]));
    assert(order.to_multiset().count(found[other]) > 0);
    assert(order.contains(found[other]));
    let at = choose|at: int| 0 <= at < order.len() && order[at] == found[other];
    if at > 0 {
        assert(order[0].priority >= order[at].priority);
    }
}

/// The players that an action goes to: all of `players` where `all` is set,
/// else the one that `cfg` ranks first, if it ranks any.
pub fn dispatch_targets(players: &Vec<String>, cfg: &Config, all: bool) -> (targets: Vec<String>)
    requires
        !all ==> forall|i: int|
            0 <= i < players.len() ==> segments(#[trigger] players[i]@).len() >= 4,
    ensures
        texts(targets@) == targets_of(texts(players@), cfg@, all),
        players.len() == 0 ==> targets.len() == 0,
{
    let mut targets: Vec<String> = Vec::new();
    if all {
        let mut i: usize = 0;
        while i < players.len()
            invariant
                i <= players.len(),
                texts(targets@) =~~= texts(players@).subrange(0, i as int),
            decreases players.len() - i,
        {
            let ghost before = targets@;
            targets.push(players[i].clone());
            assert(texts(targets@) =~~= texts(before).push(players[i as int]@));
            i = i + 1;
        }
        assert(texts(targets@) =~~= texts(players@));
    } else {
        let sorted_players = sort_players(players, cfg);
        if sorted_players.len() > 0 {
            targets.push(sorted_players[0].player_name.clone());
        }
        assert(texts(targets@) =~~= targets_of(texts(players@), cfg@, all));
    }
    targets
}

} // verus!
