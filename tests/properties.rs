use log_parser::{extract_player_name, Action, LogParser};

fn lines(v: &[&str]) -> Vec<String> {
    v.iter().map(|s| s.to_string()).collect()
}

fn run(v: &[&str]) -> LogParser {
    let mut parser = LogParser::new();
    parser.parse_lines(&lines(v));
    parser
}

#[test]
fn games_closed_and_open_with_event_counts() {
    let parser = run(&[
        "0:00 InitGame: x",
        "0:01 ClientConnect: 1",
        "0:02 ShutdownGame:",
        "0:03 InitGame: y",
        "0:04 ClientConnect: 2",
    ]);
    let games = parser.get_games();
    assert_eq!(games.len(), 2);
    assert!(games[0].completed);
    assert_eq!(games[0].events.len(), 3);
    assert_eq!(games[0].id, 1);
    assert_eq!(games[0].init_details, Some("x".to_string()));
    assert!(!games[1].completed);
    assert_eq!(games[1].events.len(), 2);
    assert_eq!(games[1].id, 2);
    assert!(parser.current_game().is_none());
}

#[test]
fn restart_without_shutdown_force_closes() {
    let parser = run(&["0:00 InitGame: a", "0:01 InitGame: b", "0:02 ClientBegin: 4"]);
    let games = parser.get_games();
    assert_eq!(games.len(), 2);
    assert!(!games[0].completed);
    assert_eq!(games[0].events.len(), 1);
    assert!(!games[1].completed);
    assert_eq!(games[1].events.len(), 2);
}

#[test]
fn one_game_per_init_line() {
    let parser = run(&[
        "0:00 ClientConnect: 9",
        "0:01 ShutdownGame:",
        "0:02 InitGame: a",
        "0:03 InitGame: b",
        "0:04 ShutdownGame:",
        "0:05 ShutdownGame:",
        "0:06 InitGame: c",
    ]);
    assert_eq!(parser.get_games().len(), 3);
    assert_eq!(parser.get_games()[1].events.len(), 2);
}

#[test]
fn events_before_first_init_are_dropped() {
    let mut parser = LogParser::new();
    let e = parser.parse_line("0:00 ClientConnect: 1").unwrap();
    parser.handle_event(e);
    assert!(parser.current_game().is_none());
    assert_eq!(parser.get_games().len(), 0);
}

#[test]
fn empty_log_gives_nothing() {
    let parser = run(&[]);
    assert_eq!(parser.get_games().len(), 0);
    assert!(parser.overall_killers().is_empty());
    assert!(parser.overall_kills_by_means().is_empty());
}

#[test]
fn overall_is_sum_of_games_including_flushed_one() {
    let parser = run(&[
        "0:00 InitGame: a",
        "0:01 Kill: 1 2 3: Alice killed Bob by MOD_SHOTGUN",
        "0:02 Kill: 1 1022 3: <world> killed Bob by MOD_FALLING",
        "0:03 ShutdownGame:",
        "0:04 InitGame: b",
        "0:05 Kill: 1 2 3: Alice killed Bob by MOD_SHOTGUN",
    ]);
    let games = parser.get_games();
    assert_eq!(games[0].kills_by_means.get("MOD_SHOTGUN"), Some(&1));
    assert_eq!(games[0].kills_by_means.get("MOD_FALLING"), Some(&1));
    assert_eq!(games[1].kills_by_means.get("MOD_SHOTGUN"), Some(&1));
    assert_eq!(parser.overall_kills_by_means().get("MOD_SHOTGUN"), Some(&2));
    assert_eq!(parser.overall_kills_by_means().get("MOD_FALLING"), Some(&1));
    assert_eq!(parser.overall_killers().get("Alice"), Some(&2));
    assert_eq!(parser.overall_killers().get("<world>"), None);
    assert_eq!(parser.overall_killers().to_vec().len(), 1);
}

#[test]
fn kill_fields_round_trip() {
    let parser = LogParser::new();
    let a = parser.parse_action("Kill: 4294967295 0 17: Dono da Bola killed Zeh by MOD_RAILGUN");
    match a {
        Some(Action::Kill { kill_id, player_id, victim_id, player_name, victim_name, method }) => {
            assert_eq!(kill_id, 4294967295);
            assert_eq!(player_id, 0);
            assert_eq!(victim_id, 17);
            assert_eq!(player_name, "Dono da Bola");
            assert_eq!(victim_name, "Zeh");
            assert_eq!(method, "MOD_RAILGUN");
        }
        _ => panic!("expected a kill"),
    }
}

#[test]
fn kill_name_split_is_non_greedy() {
    let parser = LogParser::new();
    match parser.parse_kill_action("1 2 3: A killed B by C by D") {
        Some(Action::Kill { player_name, victim_name, method, .. }) => {
            assert_eq!(player_name, "A");
            assert_eq!(victim_name, "B");
            assert_eq!(method, "C by D");
        }
        _ => panic!("expected a kill"),
    }
    match parser.parse_kill_action("1 2 3: A killed by killed B by M") {
        Some(Action::Kill { player_name, victim_name, method, .. }) => {
            assert_eq!(player_name, "A");
            assert_eq!(victim_name, "by killed B");
            assert_eq!(method, "M");
        }
        _ => panic!("expected a kill"),
    }
}

#[test]
fn kill_with_wrong_id_count_is_dropped() {
    let parser = LogParser::new();
    assert!(parser.parse_line("1:00 Kill: 1 2: A killed B by M").is_none());
    assert!(parser.parse_line("1:00 Kill: 1 2 3 4: A killed B by M").is_none());
    assert!(parser.parse_line("1:00 Kill: 1 x 3: A killed B by M").is_none());
    assert!(parser.parse_line("1:00 Kill: 1 2 3: A shot B by M").is_none());
    assert!(parser.parse_line("1:00 Kill: 1 2 3 A killed B by M").is_none());
}

#[test]
fn timestamp_shapes() {
    let parser = LogParser::new();
    assert!(parser.parse_line("  9:59   ClientBegin: 3  ").is_some());
    assert_eq!(parser.parse_line("  9:59   ClientBegin: 3  ").unwrap().timestamp, "9:59");
    assert!(parser.parse_line("123:45 ClientBegin: 3").is_none());
    assert!(parser.parse_line("1:5 ClientBegin: 3").is_none());
    assert!(parser.parse_line("1:555 ClientBegin: 3").is_none());
    assert!(parser.parse_line("12:34ClientBegin: 3").is_none());
    assert!(parser.parse_line("12:34    ").is_none());
}

#[test]
fn numbers_follow_u32_parsing() {
    let parser = LogParser::new();
    assert!(matches!(
        parser.parse_action("ClientConnect: +7"),
        Some(Action::ClientConnect { player_id: 7 })
    ));
    assert!(parser.parse_action("ClientConnect: 4294967296").is_none());
    assert!(matches!(
        parser.parse_action("ClientConnect: 4294967295"),
        Some(Action::ClientConnect { player_id: 4294967295 })
    ));
    assert!(parser.parse_action("ClientConnect: -1").is_none());
    assert!(parser.parse_action("ClientConnect: +").is_none());
    assert!(parser.parse_action("ClientConnect:").is_none());
}

#[test]
fn fallback_and_dropped_contents() {
    let parser = LogParser::new();
    match parser.parse_action("ShutdownGame: now") {
        Some(Action::Other { action_name, details }) => {
            assert_eq!(action_name, "ShutdownGame");
            assert_eq!(details, "now");
        }
        _ => panic!("expected other"),
    }
    match parser.parse_action("say: hi: there ") {
        Some(Action::Other { action_name, details }) => {
            assert_eq!(action_name, "say");
            assert_eq!(details, "hi: there");
        }
        _ => panic!("expected other"),
    }
    assert!(parser.parse_action("no colon here").is_none());
    assert!(parser.parse_action("ClientUserinfoChanged: 2").is_none());
    assert!(parser.parse_action("Item: x weapon").is_none());
}

#[test]
fn userinfo_name_extraction() {
    assert_eq!(
        extract_player_name("n\\Isgalamido\\t\\0\\model\\xian/default"),
        Some("Isgalamido".to_string())
    );
    assert_eq!(extract_player_name("t\\0\\model\\x"), None);
    assert_eq!(extract_player_name("n\\"), None);
    assert_eq!(extract_player_name("n\\\\x\\n\\Bob"), Some("Bob".to_string()));
    assert_eq!(extract_player_name("n\\Zed"), Some("Zed".to_string()));
}

#[test]
fn players_and_kills_of_a_game() {
    let parser = run(&[
        "0:00 InitGame: a",
        "0:01 ClientUserinfoChanged: 2 n\\Oldname\\t\\0",
        "0:02 ClientUserinfoChanged: 3 t\\0",
        "0:03 ClientUserinfoChanged: 2 n\\Newname\\t\\0",
        "0:04 Kill: 1 2 3: Newname killed X by MOD_GAUNTLET",
        "0:05 Item: 2 weapon_shotgun",
    ]);
    let game = &parser.get_games()[0];
    let players = game.get_players();
    assert_eq!(players.len(), 1);
    assert_eq!(players.get(&2), Some(&"Newname".to_string()));
    let kills = game.get_kills();
    assert_eq!(kills.len(), 1);
    assert_eq!(kills[0].timestamp, "0:04");
}

#[test]
fn kill_victim_may_be_whitespace() {
    let parser = LogParser::new();
    match parser.parse_kill_action("1 2 3: A killed   by M") {
        Some(Action::Kill { kill_id, player_id, victim_id, player_name, victim_name, method }) => {
            assert_eq!((kill_id, player_id, victim_id), (1, 2, 3));
            assert_eq!(player_name, "A");
            assert_eq!(victim_name, " ");
            assert_eq!(method, "M");
        }
        _ => panic!("expected a kill"),
    }
    assert!(parser.parse_line("0:01 Kill: 1 2 3: A killed   by M").is_some());
    assert!(parser.parse_kill_action("1 2 3: A killed  by M").is_none());
}

#[test]
fn kill_split_prefers_latest_victim_start() {
    let parser = LogParser::new();
    match parser.parse_kill_action("1 2 3: A killed   by M killed B by N") {
        Some(Action::Kill { player_name, victim_name, method, .. }) => {
            assert_eq!(player_name, "A");
            assert_eq!(victim_name, "by M killed B");
            assert_eq!(method, "N");
        }
        _ => panic!("expected a kill"),
    }
}
