//! Bus names of media players: telling them apart from the other names on the
//! bus, and the short player name that each one carries.

use vstd::prelude::*;
use vstd::string::*;

verus! {

/// The segments of `s` between its dots, read from left to right: a dot closes
/// the segment before it and opens a new, empty one; any other character
/// lengthens the segment that is open. A text without dots is one segment.
pub open spec fn segments(s: Seq<char>) -> Seq<Seq<char>>
    decreases s.len(),
{
    if s.len() == 0 {
        seq![Seq::empty()]
    } else {
        let before = segments(s.drop_last());
        if s.last() == '.' {
            before.push(Seq::empty())
        } else {
            before.update(before.len() - 1, before.last().push(s.last()))
        }
    }
}

/// The parts written one after another with a dot between neighbours.
pub open spec fn joined(parts: Seq<Seq<char>>) -> Seq<char>
    decreases parts.len(),
{
    if parts.len() == 0 {
        Seq::empty()
    } else if parts.len() == 1 {
        parts[0]
    } else {
        joined(parts.drop_last()) + seq!['.'] + parts.last()
    }
}

/// The player name inside a bus name. A name of exactly four segments carries
/// it as the fourth. A longer name ends in a segment that tells instances of
/// one player apart; the player name is what stands between the third segment
/// and that last one, dots included.
pub open spec fn identifier_of(bus_name: Seq<char>) -> Seq<char>
    recommends
        segments(bus_name).len() >= 4,
{
    let parts = segments(bus_name);
    if parts.len() == 4 {
        parts[3]
    } else {
        joined(parts.subrange(3, parts.len() - 1))
    }
}

/// The views of the strings of `v`, in order.
pub open spec fn texts(v: Seq<String>) -> Seq<Seq<char>> {
    Seq::new(v.len(), |i: int| v[i]@)
}

/// There is always at least one segment.
pub proof fn lemma_segments_nonempty(s: Seq<char>)
    ensures
        segments(s).len() >= 1,
    decreases s.len(),
{
    if s.len() > 0 {
        lemma_segments_nonempty(s.drop_last());
    }
}

/// No segment holds a dot.
pub proof fn lemma_segments_have_no_dots(s: Seq<char>)
    ensures
        forall|i: int, j: int|
            0 <= i < segments(s).len() && 0 <= j < segments(s)[i].len() ==> segments(s)[i][j]
                != '.',
    decreases s.len(),
{
    if s.len() > 0 {
        lemma_segments_have_no_dots(s.drop_last());
        lemma_segments_nonempty(s.drop_last());
    }
}

/// The segments of a text, joined with dots, are the text again.
pub proof fn lemma_segments_join(s: Seq<char>)
    ensures
        joined(segments(s)) == s,
    decreases s.len(),
{
    if s.len() == 0 {
        assert(joined(segments(s)) =~= s);
    } else {
        let before = segments(s.drop_last());
        lemma_segments_join(s.drop_last());
        lemma_segments_nonempty(s.drop_last());
        let now = segments(s);
        if s.last() == '.' {
            assert(now.drop_last() =~= before);
            assert(joined(now) =~= s.drop_last() + seq!['.'] + Seq::<char>::empty());
        } else if before.len() == 1 {
            assert(joined(now) =~= s.drop_last().push(s.last()));
        } else {
            assert(now.drop_last() =~= before.drop_last());
            assert(joined(now) =~= (joined(before.drop_last()) + seq!['.'] + before.last()).push(
                s.last(),
            ));
        }
        assert(s =~= s.drop_last().push(s.last()));
    }
}

/// Splits `s` at its dots.
pub fn split_on_dots(s: &str) -> (parts: Vec<String>)
    ensures
        texts(parts@) == segments(s@),
{
    let n: usize = s.unicode_len();
    let mut parts: Vec<String> = Vec::new();
    let mut start: usize = 0;
    let mut i: usize = 0;
    while i < n
        invariant
            n == s@.len(),
            start <= i <= n,
            segments(s@.subrange(0, i as int)) =~~= texts(parts@).push(
                s@.subrange(start as int, i as int),
            ),
        decreases n - i,
    {
        let c: char = s.get_char(i);
        proof {
            let before = s@.subrange(0, i as int);
            let now = s@.subrange(0, i + 1);
            assert(now.drop_last() =~= before);
            assert(now.last() == c);
        }
        if c == '.' {
            let piece: String = String::from_str(s.substring_char(start, i));
            parts.push(piece);
            start = i + 1;
        }
        assert(texts(parts@).push(s@.subrange(start as int, i + 1)) =~~= segments(
            s@.subrange(0, i + 1),
        ));
        i = i + 1;
    }
    let piece: String = String::from_str(s.substring_char(start, n));
    parts.push(piece);
    assert(s@.subrange(0, n as int) == s@);
    assert(texts(parts@) =~~= segments(s@));
    parts
}

/// Writes `parts[from..to]` one after another with a dot between neighbours.
pub fn join_with_dots(parts: &Vec<String>, from: usize, to: usize) -> (text: String)
    requires
        from <= to <= parts.len(),
    ensures
        text@ == joined(texts(parts@).subrange(from as int, to as int)),
{
    let mut text: String = String::new();
    let mut k: usize = from;
    while k < to
        invariant
            from <= k <= to <= parts.len(),
            text@ =~= joined(texts(parts@).subrange(from as int, k as int)),
        decreases to - k,
    {
        proof {
            let now = texts(parts@).subrange(from as int, k + 1);
            assert(now.drop_last() =~~= texts(parts@).subrange(from as int, k as int));
            assert(now.last() == parts[k as int]@);
            reveal_strlit(".");
            assert("."@ =~= seq!['.']);
        }
        if k > from {
            text.append(".");
        }
        text.append(parts[k].as_str());
        assert(text@ =~= joined(texts(parts@).subrange(from as int, k + 1)));
        k = k + 1;
    }
    text
}

/// The player name that the bus name `interface` carries.
///
/// A bus name of fewer than four segments carries none, and is not accepted.
pub fn get_player_name_from_bus(interface: &str) -> (player: String)
    requires
        segments(interface@).len() >= 4,
    ensures
        player@ == identifier_of(interface@),
{
    let strings: Vec<String> = split_on_dots(interface);
    if strings.len() == 4 {
        strings[3].clone()
    } else {
        join_with_dots(&strings, 3, strings.len() - 1)
    }
}

/// The namespace under which media players register on the bus, with the dot
/// that ends it.
pub open spec fn player_namespace() -> Seq<char> {
    "org.mpris.MediaPlayer2."@
}

/// A bus name is a player's when it starts with the namespace and its dot and
/// goes on for at least one more character.
pub open spec fn is_player_name(name: Seq<char>) -> bool {
    &&& name.len() > player_namespace().len()
    &&& name.subrange(0, player_namespace().len() as int) == player_namespace()
}

/// The player names among `names`, in the order in which `names` has them.
pub open spec fn players_among(names: Seq<Seq<char>>) -> Seq<Seq<char>> {
    names.filter(|name: Seq<char>| is_player_name(name))
}

/// Reading further into a text never loses a segment.
pub proof fn lemma_segments_grow(s: Seq<char>, k: int)
    requires
        0 <= k <= s.len(),
    ensures
        segments(s.subrange(0, k)).len() <= segments(s).len(),
    decreases s.len() - k,
{
    if k == s.len() {
        assert(s.subrange(0, k) =~= s);
    } else {
        lemma_segments_grow(s, k + 1);
        assert(s.subrange(0, k + 1).drop_last() =~= s.subrange(0, k));
    }
}

/// A dot at `k` gives the text up to and with it one segment more than the
/// text before it has.
pub proof fn lemma_segments_after_dot(s: Seq<char>, k: int)
    requires
        0 <= k < s.len(),
        s[k] == '.',
    ensures
        segments(s.subrange(0, k + 1)).len() == segments(s.subrange(0, k)).len() + 1,
{
    assert(s.subrange(0, k + 1).drop_last() =~= s.subrange(0, k));
}

/// Every player name has the four segments that its player name is read from.
pub proof fn lemma_player_name_has_identifier(name: Seq<char>)
    requires
        is_player_name(name),
    ensures
        segments(name).len() >= 4,
{
    reveal_strlit("org.mpris.MediaPlayer2.");
    let ns = player_namespace();
    assert(ns.len() == 23);
    assert(name[3] == ns[3] && name[9] == ns[9] && name[22] == ns[22]) by {
        assert(name.subrange(0, 23)[3] == name[3]);
        assert(name.subrange(0, 23)[9] == name[9]);
        assert(name.subrange(0, 23)[22] == name[22]);
    }
    lemma_segments_nonempty(name.subrange(0, 3));
    lemma_segments_after_dot(name, 3);
    lemma_segments_grow(name.subrange(0, 9), 4);
    assert(name.subrange(0, 9).subrange(0, 4) =~= name.subrange(0, 4));
    lemma_segments_after_dot(name, 9);
    lemma_segments_grow(name.subrange(0, 22), 10);
    assert(name.subrange(0, 22).subrange(0, 10) =~= name.subrange(0, 10));
    lemma_segments_after_dot(name, 22);
    lemma_segments_grow(name, 23);
}

/// Whether `name` is the bus name of a media player.
pub fn is_media_player(name: &str) -> (found: bool)
    ensures
        found == is_player_name(name@),
{
    let namespace: &str = "org.mpris.MediaPlayer2.";
    let n: usize = namespace.unicode_len();
    if name.unicode_len() <= n {
        return false;
    }
    let mut i: usize = 0;
    while i < n
        invariant
            namespace@ == player_namespace(),
            n == namespace@.len(),
            n < name@.len(),
            i <= n,
            name@.subrange(0, i as int) =~= namespace@.subrange(0, i as int),
        decreases n - i,
    {
        if name.get_char(i) != namespace.get_char(i) {
            assert(name@.subrange(0, n as int)[i as int] != namespace@[i as int]);
            return false;
        }
        i = i + 1;
    }
    assert(namespace@.subrange(0, n as int) =~= namespace@);
    true
}

/// The media players among the names that the bus lists, in the order of the
/// list. None at all is a result like any other: no player is running.
pub fn find_media_players(names: &Vec<String>) -> (detected_players: Vec<String>)
    ensures
        texts(detected_players@) == players_among(texts(names@)),
        forall|i: int|
            0 <= i < detected_players.len() ==> is_player_name(#[trigger] detected_players[i]@),
        forall|i: int|
            0 <= i < detected_players.len() ==> segments(#[trigger] detected_players[i]@).len()
                >= 4,
{
    let mut detected_players: Vec<String> = Vec::new();
    let mut i: usize = 0;
    assert(texts(names@).subrange(0, 0) =~= Seq::empty());
    while i < names.len()
        invariant
            i <= names.len(),
            texts(detected_players@) =~~= players_among(texts(names@).subrange(0, i as int)),
            forall|j: int|
                0 <= j < detected_players.len() ==> is_player_name(
                    #[trigger] detected_players[j]@,
                ),
        decreases names.len() - i,
    {
        proof {
            let seen = texts(names@).subrange(0, i as int);
            assert(texts(names@).subrange(0, i + 1) =~~= seen.push(names[i as int]@));
            seen.lemma_filter_push(names[i as int]@, |name: Seq<char>| is_player_name(name));
        }
        if is_media_player(names[i].as_str()) {
            detected_players.push(names[i].clone());
        }
        i = i + 1;
    }
    assert(texts(names@).subrange(0, i as int) =~~= texts(names@));
    proof {
        assert forall|j: int| 0 <= j < detected_players.len() implies segments(
            #[trigger] detected_players[j]@,
        ).len() >= 4 by {
            lemma_player_name_has_identifier(detected_players[j]@);
        }
    }
    detected_players
}

} // verus!
