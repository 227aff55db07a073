use mediaplayer_controller::bus_name::find_media_players;
use mediaplayer_controller::dispatch::{
    dispatch_targets, plan_call, shuffle_to_write, BusCall, VolumeStep, VOLUME_STEP_HUNDREDTHS,
};
use mediaplayer_controller::offset::parse_offset;
use mediaplayer_controller::priority::{Config, PlayerPriority};

fn owned(items: &[&str]) -> Vec<String> {
    items.iter().map(|s| s.to_string()).collect()
}

#[test]
fn offsets_are_read_as_decimal_numbers() {
    assert_eq!(parse_offset("0"), Some(0));
    assert_eq!(parse_offset("5000000"), Some(5_000_000));
    assert_eq!(parse_offset("-5000000"), Some(-5_000_000));
    assert_eq!(parse_offset("+17"), Some(17));
    assert_eq!(parse_offset("007"), Some(7));
    assert_eq!(parse_offset("-0"), Some(0));
}

#[test]
fn offsets_reach_both_ends_of_64_bits() {
    assert_eq!(parse_offset("9223372036854775807"), Some(i64::MAX));
    assert_eq!(parse_offset("-9223372036854775808"), Some(i64::MIN));
    assert_eq!(parse_offset("+9223372036854775807"), Some(i64::MAX));
    assert_eq!(parse_offset("9223372036854775808"), None);
    assert_eq!(parse_offset("-9223372036854775809"), None);
    assert_eq!(parse_offset("99999999999999999999999999999999999999999999"), None);
    assert_eq!(parse_offset("0000000000000000000000000000000000000000012"), Some(12));
}

#[test]
fn what_is_no_number_is_no_offset() {
    for text in ["", "+", "-", "abc", "12a", "a12", " 1", "1 ", "1_000", "--1", "+-1", "1.5", "٣"] {
        assert_eq!(parse_offset(text), None, "{:?}", text);
    }
}

#[test]
fn offsets_agree_with_std_parse() {
    for text in [
        "", "+", "-", "0", "-0", "+0", "42", "-42", "+42", "4x", "x4", "9223372036854775807",
        "9223372036854775808", "-9223372036854775808", "-9223372036854775809", "18446744073709551616",
        "00000000000000000000001", " 7", "7\n", "١٢",
    ] {
        assert_eq!(parse_offset(text), text.parse::<i64>().ok(), "{:?}", text);
    }
}

#[test]
fn shuffle_without_argument_toggles() {
    assert_eq!(plan_call("Shuffle", ""), BusCall::ToggleShuffle);
    assert_eq!(shuffle_to_write(Some(true)), Some(false));
    assert_eq!(shuffle_to_write(Some(false)), Some(true));
    assert_eq!(shuffle_to_write(None), None);
}

#[test]
fn a_method_without_argument_is_called_as_it_is() {
    assert_eq!(plan_call("PlayPause", ""), BusCall::Method);
    assert_eq!(plan_call("Next", ""), BusCall::Method);
    assert_eq!(plan_call("Volume", ""), BusCall::Method);
    assert_eq!(plan_call("shuffle", ""), BusCall::Method);
}

#[test]
fn volume_moves_by_a_step_for_plus_and_minus() {
    assert_eq!(plan_call("Volume", "+"), BusCall::StepVolume { step: VolumeStep::Raise });
    assert_eq!(plan_call("Volume", "-"), BusCall::StepVolume { step: VolumeStep::Lower });
    assert_eq!(VOLUME_STEP_HUNDREDTHS, 5);
    assert_eq!(VolumeStep::Raise.hundredths(), 5);
    assert_eq!(VolumeStep::Lower.hundredths(), -5);
}

#[test]
fn a_volume_step_is_five_hundredths_as_a_fraction() {
    let up = f64::from(VolumeStep::Raise.hundredths()) / 100.0;
    let down = f64::from(VolumeStep::Lower.hundredths()) / 100.0;
    assert_eq!(up, 0.05);
    assert_eq!(down, -0.05);
    assert_eq!(0.5 + up, 0.5 + 0.05);
    assert_eq!(0.5 + down, 0.5 - 0.05);
    assert_eq!(1.0 + up, 1.05);
}

#[test]
fn volume_with_any_other_argument_does_nothing() {
    for arg in ["++", "up", "0.05", "5", " ", "+ ", "-1"] {
        assert_eq!(plan_call("Volume", arg), BusCall::Nothing, "{:?}", arg);
    }
}

#[test]
fn a_method_with_argument_is_called_with_the_offset() {
    assert_eq!(
        plan_call("Seek", "5000000"),
        BusCall::MethodWithOffset { offset: 5_000_000, malformed: false }
    );
    assert_eq!(
        plan_call("Seek", "-250"),
        BusCall::MethodWithOffset { offset: -250, malformed: false }
    );
    assert_eq!(plan_call("Shuffle", "1"), BusCall::MethodWithOffset { offset: 1, malformed: false });
    assert_eq!(plan_call("volume", "+"), BusCall::MethodWithOffset { offset: 0, malformed: true });
}

#[test]
fn an_argument_that_is_no_offset_counts_as_zero() {
    assert_eq!(plan_call("Seek", "soon"), BusCall::MethodWithOffset { offset: 0, malformed: true });
    assert_eq!(plan_call("Seek", "1.5"), BusCall::MethodWithOffset { offset: 0, malformed: true });
    assert_eq!(
        plan_call("Seek", "9223372036854775808"),
        BusCall::MethodWithOffset { offset: 0, malformed: true }
    );
    assert_eq!(plan_call("Seek", "0"), BusCall::MethodWithOffset { offset: 0, malformed: false });
}

#[test]
fn one_target_is_the_player_ranked_first() {
    let names = owned(&["org.mpris.MediaPlayer2.rhythmbox", "org.mpris.MediaPlayer2.spotify"]);
    let players = find_media_players(&names);
    let targets = dispatch_targets(&players, &Config::default(), false);
    assert_eq!(targets, owned(&["org.mpris.MediaPlayer2.spotify"]));
    assert_eq!(plan_call("PlayPause", ""), BusCall::Method);
}

#[test]
fn all_targets_are_the_players_in_the_order_found() {
    let players = owned(&[
        "org.mpris.MediaPlayer2.rhythmbox",
        "org.mpris.MediaPlayer2.vlc",
        "org.mpris.MediaPlayer2.spotify",
    ]);
    assert_eq!(dispatch_targets(&players, &Config::default(), true), players);
}

#[test]
fn no_players_no_targets() {
    let none: Vec<String> = Vec::new();
    assert!(dispatch_targets(&none, &Config::default(), false).is_empty());
    assert!(dispatch_targets(&none, &Config::default(), true).is_empty());
}

#[test]
fn no_ranked_player_no_target() {
    let players = owned(&["org.mpris.MediaPlayer2.vlc", "org.mpris.MediaPlayer2.mpv"]);
    assert!(dispatch_targets(&players, &Config::default(), false).is_empty());
    let cfg = Config { priorities: vec![PlayerPriority { player_name: "mpv".to_string(), priority: -3 }] };
    assert_eq!(dispatch_targets(&players, &cfg, false), owned(&["org.mpris.MediaPlayer2.mpv"]));
}

#[test]
fn of_two_equal_players_the_later_is_the_target() {
    let cfg = Config {
        priorities: vec![
            PlayerPriority { player_name: "a".to_string(), priority: 4 },
            PlayerPriority { player_name: "b".to_string(), priority: 4 },
        ],
    };
    let players = owned(&["org.mpris.MediaPlayer2.a", "org.mpris.MediaPlayer2.b"]);
    assert_eq!(dispatch_targets(&players, &cfg, false), owned(&["org.mpris.MediaPlayer2.b"]));
}
