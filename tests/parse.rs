use log_parser::{extract_player_name, Action, Game, GameEvent, LogParser};

fn feed(parser: &mut LogParser, lines: &[&str]) {
    for line in lines {
        if let Some(event) = parser.parse_line(line) {
            parser.handle_event(event);
        }
    }
}

fn kill(ts: &str, kill_id: u32, player_id: u32, victim_id: u32, p: &str, v: &str, m: &str) -> GameEvent {
    GameEvent {
        timestamp: ts.to_string(),
        action: Action::Kill {
            kill_id,
            player_id,
            victim_id,
            player_name: p.to_string(),
            victim_name: v.to_string(),
            method: m.to_string(),
        },
    }
}

#[test]
fn test_parse_client_connect() {
    let parser = LogParser::new();
    let event = parser.parse_line("20:34 ClientConnect: 2").unwrap();
    assert_eq!(event.timestamp, "20:34");
    assert!(matches!(event.action, Action::ClientConnect { player_id: 2 }));
}

#[test]
fn test_parse_client_disconnect() {
    let parser = LogParser::new();
    let event = parser.parse_line("21:10 ClientDisconnect: 2").unwrap();
    assert_eq!(event.timestamp, "21:10");
    assert!(matches!(event.action, Action::ClientDisconnect { player_id: 2 }));
}

#[test]
fn test_parse_client_userinfo_changed() {
    let parser = LogParser::new();
    let event = parser
        .parse_line("20:34 ClientUserinfoChanged: 2 n\\Isgalamido\\t\\0\\model\\xian/default")
        .unwrap();
    assert_eq!(event.timestamp, "20:34");
    if let Action::ClientUserinfoChanged { player_id, info } = event.action {
        assert_eq!(player_id, 2);
        assert!(info.contains("Isgalamido"));
    } else {
        panic!("Expected ClientUserinfoChanged action");
    }
}

#[test]
fn test_parse_client_begin() {
    let parser = LogParser::new();
    let event = parser.parse_line("20:37 ClientBegin: 2").unwrap();
    assert_eq!(event.timestamp, "20:37");
    assert!(matches!(event.action, Action::ClientBegin { player_id: 2 }));
}

#[test]
fn test_parse_item() {
    let parser = LogParser::new();
    let event = parser.parse_line("20:40 Item: 2 weapon_rocketlauncher").unwrap();
    assert_eq!(event.timestamp, "20:40");
    if let Action::Item { item_id, description } = event.action {
        assert_eq!(item_id, 2);
        assert_eq!(description, "weapon_rocketlauncher");
    } else {
        panic!("Expected Item action");
    }
}

#[test]
fn test_parse_kill() {
    let parser = LogParser::new();
    let event = parser
        .parse_line("22:06 Kill: 2 3 7: Isgalamido killed Mocinha by MOD_ROCKET_SPLASH")
        .unwrap();
    assert_eq!(event.timestamp, "22:06");
    if let Action::Kill { kill_id, player_id, victim_id, player_name, victim_name, method } =
        event.action
    {
        assert_eq!(kill_id, 2);
        assert_eq!(player_id, 3);
        assert_eq!(victim_id, 7);
        assert_eq!(player_name, "Isgalamido");
        assert_eq!(victim_name, "Mocinha");
        assert_eq!(method, "MOD_ROCKET_SPLASH");
    } else {
        panic!("Expected Kill action");
    }
}

#[test]
fn test_parse_init_game() {
    let parser = LogParser::new();
    let event = parser.parse_line("0:00 InitGame: \\sv_floodProtect\\1\\sv_maxPing\\0").unwrap();
    assert_eq!(event.timestamp, "0:00");
    if let Action::InitGame { details } = event.action {
        assert!(details.contains("sv_floodProtect"));
    } else {
        panic!("Expected InitGame action");
    }
}

#[test]
fn test_parse_shutdown_game() {
    let parser = LogParser::new();
    let event = parser.parse_line("20:37 ShutdownGame:").unwrap();
    assert_eq!(event.timestamp, "20:37");
    assert!(matches!(event.action, Action::ShutdownGame));
}

#[test]
fn test_extract_player_name() {
    let userinfo = "n\\Isgalamido\\t\\0\\model\\xian/default\\hmodel\\xian/default";
    let name = extract_player_name(userinfo).unwrap();
    assert_eq!(name, "Isgalamido");
}

#[test]
fn test_game_parser_multiple_games() {
    let mut parser = LogParser::new();
    feed(
        &mut parser,
        &[
            "0:00 InitGame: \\sv_hostname\\Test Server",
            "0:01 ClientConnect: 1",
            "0:02 ShutdownGame:",
            "0:03 InitGame: \\sv_hostname\\Test Server 2",
            "0:04 ClientConnect: 2",
        ],
    );
    parser.finish();
    assert_eq!(parser.get_games().len(), 2);
    assert!(parser.get_games()[0].completed);
    assert!(!parser.get_games()[1].completed);
}

#[test]
fn test_game_parser_duplicate_init() {
    let mut parser = LogParser::new();
    feed(
        &mut parser,
        &[
            "0:00 InitGame: \\sv_hostname\\Test Server 1",
            "0:01 ClientConnect: 1",
            "0:02 InitGame: \\sv_hostname\\Test Server 2",
            "0:03 ClientConnect: 2",
            "0:04 ShutdownGame:",
        ],
    );
    assert_eq!(parser.get_games().len(), 2);
    assert!(!parser.get_games()[0].completed);
    assert!(parser.get_games()[1].completed);
}

#[test]
fn test_parse_file_integration() {
    let temp_content = r#"0:00 InitGame: \sv_hostname\Test Server
0:01 ClientConnect: 1
0:02 ClientUserinfoChanged: 1 n\TestPlayer\t\0
0:03 Item: 1 weapon_shotgun
0:04 Kill: 1 1 2: TestPlayer killed Bot by MOD_SHOTGUN
0:05 ShutdownGame:"#;
    let lines: Vec<String> = temp_content.lines().map(String::from).collect();
    let mut parser = LogParser::new();
    parser.parse_lines(&lines);

    assert_eq!(parser.get_games().len(), 1);
    let game = &parser.get_games()[0];
    assert!(game.completed);
    assert_eq!(game.events.len(), 6);

    let players = game.get_players();
    assert_eq!(players.len(), 1);
    assert_eq!(players.get(&1), Some(&"TestPlayer".to_string()));

    let kills = game.get_kills();
    assert_eq!(kills.len(), 1);
}

#[test]
fn test_parse_kill_with_world() {
    let parser = LogParser::new();
    let event = parser
        .parse_line("20:54 Kill: 1022 2 22: <world> killed Isgalamido by MOD_TRIGGER_HURT")
        .unwrap();
    assert_eq!(event.timestamp, "20:54");
    if let Action::Kill { kill_id, player_id, victim_id, player_name, victim_name, method } =
        event.action
    {
        assert_eq!(kill_id, 1022);
        assert_eq!(player_id, 2);
        assert_eq!(victim_id, 22);
        assert_eq!(player_name, "<world>");
        assert_eq!(victim_name, "Isgalamido");
        assert_eq!(method, "MOD_TRIGGER_HURT");
    } else {
        panic!("Expected Kill action");
    }
}

#[test]
fn test_parse_other_actions() {
    let parser = LogParser::new();
    let event = parser.parse_line("15:00 Exit: Timelimit hit.").unwrap();
    assert_eq!(event.timestamp, "15:00");
    if let Action::Other { action_name, details } = event.action {
        assert_eq!(action_name, "Exit");
        assert_eq!(details, "Timelimit hit.");
    } else {
        panic!("Expected Other action");
    }
}

#[test]
fn test_empty_and_invalid_lines() {
    let parser = LogParser::new();
    assert!(parser.parse_line("").is_none());
    assert!(parser.parse_line("   ").is_none());
    assert!(parser.parse_line("invalid line without timestamp").is_none());
    assert!(parser.parse_line("20:34").is_none());
}

#[test]
fn test_kills_by_means_aggregation() {
    let mut game = Game::new(1);
    game.add_event(kill("20:00", 1, 2, 3, "Alice", "Bob", "MOD_ROCKET_SPLASH"));
    game.add_event(kill("20:01", 2, 2, 4, "Alice", "Charlie", "MOD_ROCKET_SPLASH"));
    game.add_event(kill("20:02", 3, 3, 2, "Bob", "Alice", "MOD_SHOTGUN"));

    assert_eq!(game.kills_by_means.get("MOD_ROCKET_SPLASH"), Some(&2));
    assert_eq!(game.kills_by_means.get("MOD_SHOTGUN"), Some(&1));
    assert_eq!(game.killers.get("Alice"), Some(&2));
    assert_eq!(game.killers.get("Bob"), Some(&1));
    assert_eq!(game.killers.get("<world>"), None);
}

#[test]
fn test_overall_aggregation() {
    let mut parser = LogParser::new();
    feed(
        &mut parser,
        &[
            "0:00 InitGame: \\sv_hostname\\Test Server",
            "0:01 Kill: 1 2 3: Alice killed Bob by MOD_ROCKET_SPLASH",
            "0:02 Kill: 2 2 4: Alice killed Charlie by MOD_SHOTGUN",
            "0:03 ShutdownGame:",
            "0:04 InitGame: \\sv_hostname\\Test Server 2",
            "0:05 Kill: 3 3 2: Bob killed Alice by MOD_ROCKET_SPLASH",
            "0:06 ShutdownGame:",
        ],
    );
    assert_eq!(parser.overall_kills_by_means().get("MOD_ROCKET_SPLASH"), Some(&2));
    assert_eq!(parser.overall_kills_by_means().get("MOD_SHOTGUN"), Some(&1));
    assert_eq!(parser.overall_killers().get("Alice"), Some(&2));
    assert_eq!(parser.overall_killers().get("Bob"), Some(&1));
}

#[test]
fn test_world_kills_excluded() {
    let mut game = Game::new(1);
    game.add_event(kill("20:00", 1022, 2, 22, "<world>", "Alice", "MOD_TRIGGER_HURT"));
    assert_eq!(game.kills_by_means.get("MOD_TRIGGER_HURT"), Some(&1));
    assert_eq!(game.killers.get("<world>"), None);
    assert!(game.killers.is_empty());
}

#[test]
fn test_ranking_order() {
    let mut parser = LogParser::new();
    feed(
        &mut parser,
        &[
            "0:00 InitGame: \\sv_hostname\\Test Server",
            "0:01 Kill: 1 1 2: Charlie killed Alice by MOD_ROCKET_SPLASH",
            "0:02 Kill: 2 2 1: Alice killed Charlie by MOD_SHOTGUN",
            "0:03 Kill: 3 2 3: Alice killed Bob by MOD_RAILGUN",
            "0:04 Kill: 4 3 2: Bob killed Alice by MOD_MACHINEGUN",
            "0:05 Kill: 5 2 3: Alice killed Bob by MOD_ROCKET_SPLASH",
            "0:06 ShutdownGame:",
        ],
    );
    let mut sorted_killers = parser.overall_killers().to_vec();
    sorted_killers.sort_by(|a, b| b.1.cmp(&a.1));
    assert_eq!(sorted_killers[0], ("Alice".to_string(), 3));
    assert!(sorted_killers[1].1 == 1);
    assert!(sorted_killers[2].1 == 1);
    assert_eq!(sorted_killers.len(), 3);
}
