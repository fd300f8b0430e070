use toonmux::toon::{
    classify_window_name, display_for_gamescope, display_number, has_game, has_prefix,
    order_found_windows, parse_gamescope_entry, parse_u32_from, sort_toon_windows, windows_of_game, ToonGame, ToonWindow,
};

fn win(window: u64, display: &str, game: ToonGame) -> ToonWindow {
    ToonWindow { window, display: display.to_string(), game }
}

#[test]
fn game_names() {
    assert_eq!(ToonGame::CorporateClash.name(), "Corporate Clash");
    assert_eq!(ToonGame::ToontownRewritten.name(), "Toontown Rewritten");
}

#[test]
fn window_names_are_classified_by_prefix() {
    assert_eq!(classify_window_name("Corporate Clash [1.2]"), Some(ToonGame::CorporateClash));
    assert_eq!(classify_window_name("Toontown Rewritten"), Some(ToonGame::ToontownRewritten));
    assert_eq!(classify_window_name("Toontown"), None);
    assert_eq!(classify_window_name("My Corporate Clash"), None);
    assert_eq!(classify_window_name(""), None);
}

#[test]
fn prefix_check() {
    assert!(has_prefix("gamescope-1", "gamescope-"));
    assert!(has_prefix("abc", ""));
    assert!(!has_prefix("gam", "gamescope-"));
    assert!(has_prefix("ünï", "ün"));
}

#[test]
fn gamescope_entries() {
    assert_eq!(parse_gamescope_entry("gamescope-0"), Some(0));
    assert_eq!(parse_gamescope_entry("gamescope-12"), Some(12));
    assert_eq!(parse_gamescope_entry("gamescope-0-ei"), None);
    assert_eq!(parse_gamescope_entry("gamescope-0.lock"), None);
    assert_eq!(parse_gamescope_entry("gamescope-"), None);
    assert_eq!(parse_gamescope_entry("gamescope-+1"), None);
    assert_eq!(parse_gamescope_entry("wayland-0"), None);
    assert_eq!(parse_gamescope_entry("gamescope-4294967295"), Some(u32::MAX));
    assert_eq!(parse_gamescope_entry("gamescope-99999999999"), Some(u32::MAX));
    assert_eq!(parse_gamescope_entry("gamescope-4294967294"), Some(4294967294));
}

#[test]
fn display_names() {
    assert_eq!(display_for_gamescope(0), ":1");
    assert_eq!(display_for_gamescope(9), ":10");
    assert_eq!(display_for_gamescope(4294967294), ":4294967295");
}

#[test]
fn u32_parsing() {
    assert_eq!(parse_u32_from("42", 0), Some(42));
    assert_eq!(parse_u32_from("+42", 0), Some(42));
    assert_eq!(parse_u32_from("+", 0), None);
    assert_eq!(parse_u32_from("", 0), None);
    assert_eq!(parse_u32_from("-1", 0), None);
    assert_eq!(parse_u32_from("4294967296", 0), None);
    assert_eq!(parse_u32_from(":007", 1), Some(7));
    assert_eq!(parse_u32_from("x1y", 1), None);
}

#[test]
fn display_numbers() {
    assert_eq!(display_number(&":12".to_string()), 12);
    assert_eq!(display_number(&":0".to_string()), 0);
    assert_eq!(display_number(&":x".to_string()), 0);
    assert_eq!(display_number(&":".to_string()), 0);
    assert_eq!(display_number(&display_for_gamescope(6)), 7);
}

#[test]
fn windows_sort_by_display_then_id() {
    let ws = vec![
        win(30, ":3", ToonGame::CorporateClash),
        win(20, ":2", ToonGame::ToontownRewritten),
        win(10, ":3", ToonGame::CorporateClash),
        win(5, ":10", ToonGame::CorporateClash),
        win(20, ":2", ToonGame::CorporateClash),
    ];
    let sorted = sort_toon_windows(&ws);
    let keys: Vec<(u64, String, ToonGame)> =
        sorted.iter().map(|w| (w.window, w.display.clone(), w.game.clone())).collect();
    assert_eq!(
        keys,
        vec![
            (20, ":2".to_string(), ToonGame::ToontownRewritten),
            (20, ":2".to_string(), ToonGame::CorporateClash),
            (10, ":3".to_string(), ToonGame::CorporateClash),
            (30, ":3".to_string(), ToonGame::CorporateClash),
            (5, ":10".to_string(), ToonGame::CorporateClash),
        ]
    );
    assert!(sort_toon_windows(&vec![]).is_empty());
}

#[test]
fn windows_by_game() {
    let ws = vec![
        win(1, ":1", ToonGame::CorporateClash),
        win(2, ":1", ToonGame::ToontownRewritten),
        win(3, ":2", ToonGame::CorporateClash),
    ];
    assert!(has_game(&ws, ToonGame::CorporateClash));
    assert!(has_game(&ws, ToonGame::ToontownRewritten));
    assert!(!has_game(&vec![win(1, ":1", ToonGame::CorporateClash)], ToonGame::ToontownRewritten));
    let clash = windows_of_game(&ws, ToonGame::CorporateClash);
    assert_eq!(clash.iter().map(|w| w.window).collect::<Vec<_>>(), vec![1, 3]);
    let ttr = windows_of_game(&ws, ToonGame::ToontownRewritten);
    assert_eq!(ttr.len(), 1);
    assert_eq!(ttr[0].display, ":1");
}

#[test]
fn found_windows_sorted_as_one_list() {
    let nested = vec![
        win(30, ":3", ToonGame::CorporateClash),
        win(4, ":2", ToonGame::ToontownRewritten),
        win(10, ":3", ToonGame::CorporateClash),
    ];
    let local = vec![win(99, ":0", ToonGame::CorporateClash), win(7, ":0", ToonGame::ToontownRewritten)];
    let all = order_found_windows(&nested, &local);
    let keys: Vec<(u64, String)> = all.iter().map(|w| (w.window, w.display.clone())).collect();
    assert_eq!(
        keys,
        vec![
            (7, ":0".to_string()),
            (99, ":0".to_string()),
            (4, ":2".to_string()),
            (10, ":3".to_string()),
            (30, ":3".to_string()),
        ]
    );
    assert!(order_found_windows(&vec![], &vec![]).is_empty());
    assert_eq!(order_found_windows(&vec![], &local)[0].window, 7);
}
