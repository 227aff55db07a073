//! The ranking of players: the priorities that the user has given to player
//! names, and the order in which they put the players that are running.

use crate::bus_name::{get_player_name_from_bus, identifier_of, segments, texts};
use vstd::prelude::*;
use vstd::string::*;

verus! {

/// A name with the priority that goes with it. In the configuration the name
/// is a player name; in a ranking it is the full bus name of a running player.
#[derive(Clone, Debug)]
pub struct PlayerPriority {
    pub player_name: String,
    pub priority: i8,
}

/// What a `PlayerPriority` stands for in contracts.
pub ghost struct Ranking {
    pub name: Seq<char>,
    pub priority: i8,
}

impl View for PlayerPriority {
    type V = Ranking;

    open spec fn view(&self) -> Ranking {
        Ranking { name: self.player_name@, priority: self.priority }
    }
}

/// The views of the entries of `v`, in order.
pub open spec fn rankings(v: Seq<PlayerPriority>) -> Seq<Ranking> {
    Seq::new(v.len(), |i: int| v[i]@)
}

/// The priorities that the user has given. The order of the entries matters
/// only where a player name stands twice: the first entry then counts.
#[derive(Clone, Debug)]
pub struct Config {
    pub priorities: Vec<PlayerPriority>,
}

impl View for Config {
    type V = Seq<Ranking>;

    open spec fn view(&self) -> Seq<Ranking> {
        rankings(self.priorities@)
    }
}

/// The priorities that a fresh configuration starts with.
pub open spec fn default_rankings() -> Seq<Ranking> {
    seq![
        Ranking { name: "spotify"@, priority: 25 },
        Ranking { name: "Lollypop"@, priority: 20 },
        Ranking { name: "rhythmbox"@, priority: 15 },
        Ranking { name: "io.github.GnomeMpv"@, priority: 10 },
        Ranking { name: "brave"@, priority: 5 },
    ]
}

impl Default for Config {
    fn default() -> (cfg: Config)
        ensures
            cfg@ == default_rankings(),
    {
        let mut priorities: Vec<PlayerPriority> = Vec::new();
        priorities.push(PlayerPriority { player_name: String::from_str("spotify"), priority: 25 });
        priorities.push(PlayerPriority { player_name: String::from_str("Lollypop"), priority: 20 });
        priorities.push(
            PlayerPriority { player_name: String::from_str("rhythmbox"), priority: 15 },
        );
        priorities.push(
            PlayerPriority { player_name: String::from_str("io.github.GnomeMpv"), priority: 10 },
        );
        priorities.push(PlayerPriority { player_name: String::from_str("brave"), priority: 5 });
        let cfg = Config { priorities };
        assert(cfg@ =~= default_rankings());
        cfg
    }
}

/// The priority that `entries` give to the player name `identifier`: that of
/// the first entry with exactly this name, if there is one.
pub open spec fn priority_of(entries: Seq<Ranking>, identifier: Seq<char>) -> Option<i8>
    decreases entries.len(),
{
    if entries.len() == 0 {
        None
    } else if entries[0].name == identifier {
        Some(entries[0].priority)
    } else {
        priority_of(entries.skip(1), identifier)
    }
}

/// Whether `entries` give the player name of the bus name a priority.
pub open spec fn is_ranked(entries: Seq<Ranking>) -> spec_fn(Seq<char>) -> bool {
    |bus_name: Seq<char>| priority_of(entries, identifier_of(bus_name)) is Some
}

/// A bus name with the priority that `entries` give to its player name.
pub open spec fn with_rank(entries: Seq<Ranking>) -> spec_fn(Seq<char>) -> Ranking {
    |bus_name: Seq<char>|
        Ranking {
            name: bus_name,
            priority: priority_of(entries, identifier_of(bus_name)).unwrap(),
        }
}

/// The bus names of `players` whose player name has a priority in `entries`,
/// each with that priority, in the order of `players`. The others are left out.
pub open spec fn matched(players: Seq<Seq<char>>, entries: Seq<Ranking>) -> Seq<Ranking> {
    players.filter(is_ranked(entries)).map_values(with_rank(entries))
}

/// The entries of `order` that have the priority `priority`, in their order.
pub open spec fn with_priority(order: Seq<Ranking>, priority: i8) -> Seq<Ranking> {
    order.filter(has_priority(priority))
}

/// Whether an entry has the priority `priority`.
pub open spec fn has_priority(priority: i8) -> spec_fn(Ranking) -> bool {
    |entry: Ranking| entry.priority == priority
}

/// No entry stands ahead of one with a higher priority.
pub open spec fn is_descending(order: Seq<Ranking>) -> bool {
    forall|i: int, j: int|
        0 <= i < j < order.len() ==> (#[trigger] order[i]).priority >= (#[trigger] order[j]).priority
}

/// How many entries at the head of `order` have a priority above `priority`.
pub open spec fn place_of(order: Seq<Ranking>, priority: i8) -> nat
    decreases order.len(),
{
    if order.len() == 0 || order[0].priority <= priority {
        0
    } else {
        1 + place_of(order.skip(1), priority)
    }
}

/// The entries of `found` from the highest priority to the lowest. Each entry
/// in turn goes in behind those of a higher priority and ahead of all others,
/// so that of two entries with one priority the later of `found` comes first.
pub open spec fn ranked(found: Seq<Ranking>) -> Seq<Ranking>
    decreases found.len(),
{
    if found.len() == 0 {
        Seq::empty()
    } else {
        let order = ranked(found.drop_last());
        order.insert(place_of(order, found.last().priority) as int, found.last())
    }
}

/// The place of a priority lies within the order: every entry ahead of it has
/// a higher priority, and the entry at it, if there is one, has not.
pub proof fn lemma_place_in_bounds(order: Seq<Ranking>, priority: i8)
    ensures
        place_of(order, priority) <= order.len(),
        forall|j: int| 0 <= j < place_of(order, priority) ==> (#[trigger] order[j]).priority > priority,
        place_of(order, priority) < order.len() ==> order[place_of(order, priority) as int].priority
            <= priority,
    decreases order.len(),
{
    if order.len() == 0 || order[0].priority <= priority {
    } else {
        let rest = order.skip(1);
        lemma_place_in_bounds(rest, priority);
        assert forall|j: int| 0 <= j < place_of(order, priority) implies (#[trigger] order[j]).priority
            > priority by {
            if j > 0 {
                assert(order[j] == rest[j - 1]);
            }
        }
        if place_of(order, priority) < order.len() {
            assert(order[place_of(order, priority) as int] == rest[place_of(rest, priority) as int]);
        }
    }
}

/// No players, no matches.
pub proof fn lemma_matched_none(entries: Seq<Ranking>)
    ensures
        matched(Seq::empty(), entries) == Seq::<Ranking>::empty(),
{
    reveal(Seq::filter);
    assert(matched(Seq::empty(), entries) =~= Seq::<Ranking>::empty());
}

/// One more player adds one match at the end if `entries` rank it, and
/// nothing otherwise.
pub proof fn lemma_matched_push(players: Seq<Seq<char>>, bus_name: Seq<char>, entries: Seq<Ranking>)
    ensures
        matched(players.push(bus_name), entries) == match priority_of(
            entries,
            identifier_of(bus_name),
        ) {
            Some(priority) => matched(players, entries).push(Ranking { name: bus_name, priority }),
            None => matched(players, entries),
        },
{
    players.lemma_filter_push(bus_name, is_ranked(entries));
    match priority_of(entries, identifier_of(bus_name)) {
        Some(priority) => {
            assert(matched(players.push(bus_name), entries) =~= matched(players, entries).push(
                Ranking { name: bus_name, priority },
            ));
        },
        None => {},
    }
}

/// Where no entry has the priority, none is found.
pub proof fn lemma_with_priority_none(order: Seq<Ranking>, priority: i8)
    requires
        forall|j: int| 0 <= j < order.len() ==> (#[trigger] order[j]).priority != priority,
    ensures
        with_priority(order, priority) == Seq::<Ranking>::empty(),
    decreases order.len(),
{
    reveal(Seq::filter);
    if order.len() > 0 {
        lemma_with_priority_none(order.drop_last(), priority);
    }
    assert(with_priority(order, priority) =~= Seq::<Ranking>::empty());
}

/// A ranking is as long as what was ranked, and descends.
pub proof fn lemma_ranked_descending(found: Seq<Ranking>)
    ensures
        ranked(found).len() == found.len(),
        is_descending(ranked(found)),
    decreases found.len(),
{
    if found.len() > 0 {
        let order = ranked(found.drop_last());
        let entry = found.last();
        lemma_ranked_descending(found.drop_last());
        lemma_place_in_bounds(order, entry.priority);
        let k = place_of(order, entry.priority) as int;
        let out = order.insert(k, entry);
        assert forall|i: int, j: int| 0 <= i < j < out.len() implies (#[trigger] out[i]).priority
            >= (#[trigger] out[j]).priority by {
            if i < k {
                assert(out[i] == order[i]);
            } else if i > k {
                assert(out[i] == order[i - 1]);
            }
            if j < k {
                assert(out[j] == order[j]);
            } else if j > k {
                assert(out[j] == order[j - 1]);
                if k < j - 1 {
                    assert(order[k].priority >= order[j - 1].priority);
                }
            }
        }
    }
}

/// A ranking holds what was ranked, each entry as often as it was there.
pub proof fn lemma_ranked_keeps_entries(found: Seq<Ranking>)
    ensures
        ranked(found).to_multiset() == found.to_multiset(),
    decreases found.len(),
{
    broadcast use vstd::seq_lib::group_to_multiset_ensures;

    if found.len() > 0 {
        let order = ranked(found.drop_last());
        let entry = found.last();
        lemma_ranked_keeps_entries(found.drop_last());
        lemma_place_in_bounds(order, entry.priority);
        let k = place_of(order, entry.priority) as int;
        vstd::seq_lib::to_multiset_insert(order, k, entry);
        assert(found =~= found.drop_last().push(entry));
    } else {
        assert(found =~= Seq::empty());
    }
}

/// Among the entries of one priority a ranking turns the order round: the
/// entry that was found last stands first.
pub proof fn lemma_ranked_ties_reversed(found: Seq<Ranking>, priority: i8)
    ensures
        with_priority(ranked(found), priority) == with_priority(found, priority).reverse(),
    decreases found.len(),
{
    let pred = has_priority(priority);
    if found.len() == 0 {
        reveal(Seq::filter);
        assert(with_priority(ranked(found), priority) =~= with_priority(found, priority).reverse());
    } else {
        let earlier = found.drop_last();
        let order = ranked(earlier);
        let entry = found.last();
        lemma_ranked_ties_reversed(earlier, priority);
        lemma_ranked_descending(earlier);
        lemma_place_in_bounds(order, entry.priority);
        let k = place_of(order, entry.priority) as int;
        let head = order.subrange(0, k);
        let tail = order.subrange(k, order.len() as int);
        assert(order =~= head + tail);
        assert(order.insert(k, entry) =~= head.push(entry) + tail);
        Seq::filter_distributes_over_add(head, tail, pred);
        Seq::filter_distributes_over_add(head.push(entry), tail, pred);
        head.lemma_filter_push(entry, pred);
        assert(found =~= earlier.push(entry));
        earlier.lemma_filter_push(entry, pred);
        if entry.priority == priority {
            assert forall|j: int| 0 <= j < head.len() implies (#[trigger] head[j]).priority
                != priority by {
                assert(head[j] == order[j]);
            }
            lemma_with_priority_none(head, priority);
            assert(with_priority(ranked(found), priority) =~= with_priority(
                found,
                priority,
            ).reverse());
        }
    }
}

/// Whoever stands in a ranking is one of the players, and holds the priority
/// that the entries give to its player name.
pub proof fn lemma_ranked_are_known(players: Seq<Seq<char>>, entries: Seq<Ranking>, k: int)
    requires
        0 <= k < ranked(matched(players, entries)).len(),
    ensures
        players.contains(ranked(matched(players, entries))[k].name),
        priority_of(entries, identifier_of(ranked(matched(players, entries))[k].name)) == Some(
            ranked(matched(players, entries))[k].priority,
        ),
{
    broadcast use vstd::seq_lib::group_to_multiset_ensures;

    let found = matched(players, entries);
    let order = ranked(found);
    let kept = players.filter(is_ranked(entries));
    lemma_ranked_keeps_entries(found);
    assert(order.contains(order[k]));
    assert(found.to_multiset().count(order[k]) > 0);
    assert(found.contains(order[k]));
    let at = choose|at: int| 0 <= at < found.len() && found[at] == order[k];
    assert(found[at] == with_rank(entries)(kept[at]));
    players.lemma_filter_pred(is_ranked(entries), at);
    assert(kept.contains(kept[at]));
    players.lemma_filter_contains_rev(is_ranked(entries), kept[at]);
}

/// Every player whose player name has a priority stands in the ranking, under
/// its bus name and with that priority.
pub proof fn lemma_known_are_ranked(players: Seq<Seq<char>>, entries: Seq<Ranking>, i: int)
    requires
        0 <= i < players.len(),
        priority_of(entries, identifier_of(players[i])) is Some,
    ensures
        ranked(matched(players, entries)).contains(
            Ranking {
                name: players[i],
                priority: priority_of(entries, identifier_of(players[i])).unwrap(),
            },
        ),
{
    broadcast use vstd::seq_lib::group_to_multiset_ensures;

    let found = matched(players, entries);
    let kept = players.filter(is_ranked(entries));
    let entry = with_rank(entries)(players[i]);
    players.lemma_filter_contains(is_ranked(entries), i);
    let at = choose|at: int| 0 <= at < kept.len() && kept[at] == players[i];
    assert(found[at] == entry);
    assert(found.contains(entry));
    lemma_ranked_keeps_entries(found);
    assert(ranked(found).to_multiset().count(entry) > 0);
}

impl Config {
    /// The priority of the player name `identifier`, if the configuration
    /// names it.
    pub fn priority_of(&self, identifier: &str) -> (found: Option<i8>)
        ensures
            found == priority_of(self@, identifier@),
    {
        let wanted: String = String::from_str(identifier);
        let mut i: usize = 0;
        assert(self@.skip(0) =~= self@);
        while i < self.priorities.len()
            invariant
                i <= self.priorities.len(),
                wanted@ == identifier@,
                priority_of(self@, identifier@) == priority_of(self@.skip(i as int), identifier@),
            decreases self.priorities.len() - i,
        {
            proof {
                assert(self@.skip(i as int)[0] == self.priorities[i as int]@);
                assert(self@.skip(i as int).skip(1) =~= self@.skip(i + 1));
            }
            if self.priorities[i].player_name == wanted {
                return Some(self.priorities[i].priority);
            }
            i = i + 1;
        }
        None
    }
}

/// Puts `entry` into `order` at its place.
fn insert_ranked(order: &mut Vec<PlayerPriority>, entry: PlayerPriority)
    ensures
        rankings(final(order)@) == rankings(old(order)@).insert(
            place_of(rankings(old(order)@), entry.priority) as int,
            entry@,
        ),
{
    let ghost before = rankings(order@);
    let mut k: usize = 0;
    assert(before.skip(0) =~= before);
    while k < order.len() && order[k].priority > entry.priority
        invariant
            k <= order.len(),
            before == rankings(order@),
            place_of(before, entry.priority) == k + place_of(before.skip(k as int), entry.priority),
        decreases order.len() - k,
    {
        proof {
            assert(before.skip(k as int)[0] == order[k as int]@);
            assert(before.skip(k as int).skip(1) =~= before.skip(k + 1));
        }
        k = k + 1;
    }
    proof {
        if k < order.len() {
            assert(before.skip(k as int)[0] == order[k as int]@);
        }
    }
    let ghost shown = entry@;
    order.insert(k, entry);
    assert(rankings(order@) =~= before.insert(k as int, shown));
}

/// The running players that the configuration ranks, the one to act on first.
///
/// Of `players`, bus names as `find_media_players` gives them, those stay
/// whose player name has a priority in `cfg`; the others are dropped without
/// a word. Each comes back under its full bus name with that priority, from
/// the highest priority to the lowest. Where two have the same priority, the
/// one that stood later in `players` comes first.
pub fn sort_players(players: &Vec<String>, cfg: &Config) -> (ordered_players: Vec<PlayerPriority>)
    requires
        forall|i: int| 0 <= i < players.len() ==> segments(#[trigger] players[i]@).len() >= 4,
    ensures
        rankings(ordered_players@) == ranked(matched(texts(players@), cfg@)),
        rankings(ordered_players@).to_multiset() == matched(texts(players@), cfg@).to_multiset(),
        is_descending(rankings(ordered_players@)),
        forall|priority: i8| #[trigger]
            with_priority(rankings(ordered_players@), priority) == with_priority(
                matched(texts(players@), cfg@),
                priority,
            ).reverse(),
        players.len() == 0 ==> ordered_players.len() == 0,
{
    let mut ordered_players: Vec<PlayerPriority> = Vec::new();
    let mut i: usize = 0;
    proof {
        assert(texts(players@).subrange(0, 0) =~= Seq::empty());
        lemma_matched_none(cfg@);
        assert(rankings(ordered_players@) =~= Seq::empty());
    }
    while i < players.len()
        invariant
            i <= players.len(),
            forall|j: int| 0 <= j < players.len() ==> segments(#[trigger] players[j]@).len() >= 4,
            rankings(ordered_players@) == ranked(
                matched(texts(players@).subrange(0, i as int), cfg@),
            ),
        decreases players.len() - i,
    {
        proof {
            let seen = texts(players@).subrange(0, i as int);
            assert(texts(players@).subrange(0, i + 1) =~~= seen.push(players[i as int]@));
            lemma_matched_push(seen, players[i as int]@, cfg@);
        }
        let player: String = get_player_name_from_bus(players[i].as_str());
        match cfg.priority_of(player.as_str()) {
            Some(priority) => {
                let entry = PlayerPriority { player_name: players[i].clone(), priority };
                proof {
                    let earlier = matched(texts(players@).subrange(0, i as int), cfg@);
                    assert(earlier.push(entry@).drop_last() =~= earlier);
                }
                insert_ranked(&mut ordered_players, entry);
            },
            None => {},
        }
        i = i + 1;
    }
    proof {
        assert(texts(players@).subrange(0, i as int) =~= texts(players@));
        let found = matched(texts(players@), cfg@);
        lemma_ranked_descending(found);
        lemma_ranked_keeps_entries(found);
        assert forall|priority: i8| #[trigger]
            with_priority(ranked(found), priority) == with_priority(found, priority).reverse() by {
            lemma_ranked_ties_reversed(found, priority);
        }
        if players.len() == 0 {
            assert(texts(players@) =~= Seq::empty());
            lemma_matched_none(cfg@);
        }
    }
    ordered_players
}

} // verus!
