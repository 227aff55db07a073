use mediaplayer_controller::priority::{sort_players, Config, PlayerPriority};

fn names_of(items: &[&str]) -> Vec<String> {
    items.iter().map(|s| s.to_string()).collect()
}

fn config(entries: &[(&str, i8)]) -> Config {
    Config {
        priorities: entries
            .iter()
            .map(|(name, priority)| PlayerPriority { player_name: name.to_string(), priority: *priority })
            .collect(),
    }
}

fn pairs(order: &[PlayerPriority]) -> Vec<(String, i8)> {
    order.iter().map(|p| (p.player_name.clone(), p.priority)).collect()
}

fn expect(items: &[(&str, i8)]) -> Vec<(String, i8)> {
    items.iter().map(|(name, priority)| (name.to_string(), *priority)).collect()
}

#[test]
fn default_config_is_the_built_in_ranking() {
    let cfg = Config::default();
    assert_eq!(
        pairs(&cfg.priorities),
        expect(&[
            ("spotify", 25),
            ("Lollypop", 20),
            ("rhythmbox", 15),
            ("io.github.GnomeMpv", 10),
            ("brave", 5),
        ])
    );
}

#[test]
fn lookup_takes_the_first_entry_of_a_name() {
    let cfg = config(&[("a", 3), ("b", 7), ("a", 9)]);
    assert_eq!(cfg.priority_of("a"), Some(3));
    assert_eq!(cfg.priority_of("b"), Some(7));
    assert_eq!(cfg.priority_of("c"), None);
    assert_eq!(cfg.priority_of("A"), None);
    assert_eq!(cfg.priority_of(""), None);
    assert_eq!(config(&[]).priority_of("a"), None);
}

#[test]
fn ranking_puts_the_highest_priority_first() {
    let players = names_of(&[
        "org.mpris.MediaPlayer2.rhythmbox",
        "org.mpris.MediaPlayer2.brave.instance2",
        "org.mpris.MediaPlayer2.spotify",
    ]);
    let order = sort_players(&players, &Config::default());
    assert_eq!(
        pairs(&order),
        expect(&[
            ("org.mpris.MediaPlayer2.spotify", 25),
            ("org.mpris.MediaPlayer2.rhythmbox", 15),
            ("org.mpris.MediaPlayer2.brave.instance2", 5),
        ])
    );
}

#[test]
fn ranking_drops_players_without_a_priority() {
    let players = names_of(&[
        "org.mpris.MediaPlayer2.vlc",
        "org.mpris.MediaPlayer2.spotify",
        "org.mpris.MediaPlayer2.firefox.instance1",
    ]);
    let order = sort_players(&players, &Config::default());
    assert_eq!(pairs(&order), expect(&[("org.mpris.MediaPlayer2.spotify", 25)]));
    assert!(sort_players(&players, &config(&[])).is_empty());
}

#[test]
fn ranking_of_equal_priorities_puts_the_later_first() {
    let cfg = config(&[("a", 1), ("b", 1), ("c", 2), ("d", 1)]);
    let players = names_of(&["x.y.z.a", "x.y.z.c", "x.y.z.b", "x.y.z.d"]);
    let order = sort_players(&players, &cfg);
    assert_eq!(
        pairs(&order),
        expect(&[("x.y.z.c", 2), ("x.y.z.d", 1), ("x.y.z.b", 1), ("x.y.z.a", 1)])
    );
}

#[test]
fn ranking_agrees_with_a_stable_sort_turned_round() {
    let cfg = config(&[("a", -128), ("b", 127), ("c", 0), ("d", 0), ("e", -1), ("f", 127)]);
    let players = names_of(&[
        "x.y.z.c", "x.y.z.a", "x.y.z.f", "x.y.z.d", "x.y.z.q", "x.y.z.b", "x.y.z.e", "x.y.z.c.1",
        "x.y.z.a.2",
    ]);
    let mut expected: Vec<(String, i8)> = players
        .iter()
        .filter_map(|name| {
            let id = mediaplayer_controller::bus_name::get_player_name_from_bus(name);
            cfg.priority_of(&id).map(|p| (name.clone(), p))
        })
        .collect();
    expected.sort_by_key(|x| x.1);
    expected.reverse();
    assert_eq!(expected.len(), 8);
    assert_eq!(pairs(&sort_players(&players, &cfg)), expected);
}

#[test]
fn ranking_of_instances_uses_the_name_without_the_suffix() {
    let cfg = config(&[("io.github.GnomeMpv", 10), ("chromium", 4)]);
    let players = names_of(&[
        "org.mpris.MediaPlayer2.chromium.instance9",
        "org.mpris.MediaPlayer2.io.github.GnomeMpv.instance-1",
        "org.mpris.MediaPlayer2.chromium",
    ]);
    let order = sort_players(&players, &cfg);
    assert_eq!(
        pairs(&order),
        expect(&[
            ("org.mpris.MediaPlayer2.io.github.GnomeMpv.instance-1", 10),
            ("org.mpris.MediaPlayer2.chromium", 4),
            ("org.mpris.MediaPlayer2.chromium.instance9", 4),
        ])
    );
}

#[test]
fn ranking_with_a_name_listed_twice_takes_its_first_priority() {
    let cfg = config(&[("a", 1), ("b", 5), ("a", 9)]);
    let players = names_of(&["x.y.z.a", "x.y.z.b"]);
    assert_eq!(
        pairs(&sort_players(&players, &cfg)),
        expect(&[("x.y.z.b", 5), ("x.y.z.a", 1)])
    );
}

#[test]
fn ranking_of_no_players_is_empty() {
    assert!(sort_players(&Vec::new(), &Config::default()).is_empty());
}
