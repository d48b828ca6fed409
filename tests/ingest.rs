use pgn_db::importer::{header_value, unescaped_tag, ImportError, Importer};
use pgn_db::outcome::Outcome;
use pgn_db::record::TempGame;
use pgn_db::speed::Speed;
use pgn_db::store::{join_moves, Database};

fn feed(imp: &mut Importer, headers: &[(&str, &str)], moves: &[&str]) {
    imp.begin_game();
    for (k, v) in headers {
        imp.header(k.as_bytes(), v.as_bytes()).unwrap();
    }
    if !imp.end_headers() {
        for m in moves {
            imp.san(m.to_string());
        }
    }
    imp.end_game().unwrap();
}

fn game<'a>(white: &'a str, black: &'a str, result: &'a str) -> Vec<(&'a str, &'a str)> {
    vec![
        ("White", white),
        ("Black", black),
        ("WhiteElo", "1500"),
        ("BlackElo", "1600"),
        ("Result", result),
        ("TimeControl", "300+0"),
        ("Date", "2023.01.02"),
    ]
}

#[test]
fn classifier_examples() {
    assert_eq!(Speed::from_seconds_and_increment(60, 0), Speed::Bullet);
    assert_eq!(Speed::from_seconds_and_increment(179, 0), Speed::Bullet);
    assert_eq!(Speed::from_seconds_and_increment(180, 0), Speed::Blitz);
    assert_eq!(Speed::from_seconds_and_increment(29, 0), Speed::UltraBullet);
    assert_eq!(Speed::from_seconds_and_increment(0, 12), Speed::Rapid);
    assert_eq!(Speed::from_seconds_and_increment(1500, 0), Speed::Classical);
    assert_eq!(Speed::from_seconds_and_increment(21_600, 0), Speed::Correspondence);
    assert_eq!(Speed::from_seconds_and_increment(u64::MAX, u64::MAX), Speed::Correspondence);
}

#[test]
fn classifier_depends_on_total_and_is_monotone() {
    // 120 + 40 * 3 == 240 + 40 * 0
    assert_eq!(Speed::from_seconds_and_increment(120, 3), Speed::from_seconds_and_increment(240, 0));
    let mut last = 0u8;
    for total in 0u64..30_000 {
        let c = Speed::from_seconds_and_increment(total, 0).code();
        assert!(c >= last);
        last = c;
    }
}

#[test]
fn clock_parsing() {
    assert_eq!(Speed::from_bytes(b"-"), Ok(Speed::Correspondence));
    assert_eq!(Speed::from_bytes(b"180+2"), Ok(Speed::Blitz));
    assert_eq!(Speed::from_bytes(b"60+0"), Ok(Speed::Bullet));
    assert_eq!(Speed::from_bytes(b"180"), Err(()));
    assert_eq!(Speed::from_bytes(b"abc+1"), Err(()));
    assert_eq!(Speed::from_bytes(b"+5"), Err(()));
    assert_eq!(Speed::from_bytes(b"5+1+1"), Err(()));
}

#[test]
fn speed_codes_round_trip() {
    for u in 0u8..6 {
        assert_eq!(Speed::from(u).code(), u);
    }
}

#[test]
fn headers_fill_the_record() {
    let mut imp = Importer::new(50, Database::new());
    imp.begin_game();
    imp.header(b"White", b"alice").unwrap();
    imp.header(b"BlackElo", b"?").unwrap();
    imp.header(b"WhiteElo", b"-20").unwrap();
    imp.header(b"UTCDate", b"2020.01.01").unwrap();
    imp.header(b"Date", b"1999.09.09").unwrap();
    imp.header(b"Site", b"https://example.org/x").unwrap();
    imp.header(b"Result", b"1/2-1/2").unwrap();
    imp.header(b"Unknown", b"whatever").unwrap();
    assert_eq!(imp.current.white.name.as_deref(), Some("alice"));
    assert_eq!(imp.current.white.rating, Some(-20));
    assert_eq!(imp.current.black.rating, None);
    assert_eq!(imp.current.date.as_deref(), Some("2020.01.01"));
    assert_eq!(imp.current.site.as_deref(), Some("https://example.org/x"));
    assert_eq!(imp.current.outcome, Some(Outcome::Draw));
    assert!(imp.end_headers());
}

#[test]
fn fatal_headers() {
    let mut imp = Importer::new(50, Database::new());
    imp.begin_game();
    assert_eq!(imp.header(b"WhiteElo", b"12x"), Err(ImportError::InvalidRating));
    assert_eq!(imp.header(b"TimeControl", b"fast"), Err(ImportError::InvalidTimeControl));
    assert_eq!(imp.header(b"White", &[0xff, 0xfe]), Err(ImportError::InvalidText));
    assert_eq!(imp.current.white.name, None);
}

#[test]
fn undecodable_result_skips() {
    let mut imp = Importer::new(50, Database::new());
    imp.begin_game();
    imp.header(b"Result", b"*").unwrap();
    assert!(imp.skip);
    assert_eq!(imp.current.outcome, None);
}

#[test]
fn fen_normalization() {
    let mut imp = Importer::new(50, Database::new());
    imp.begin_game();
    imp.header(b"FEN", b"rnbqkbnr/pppppppp/8/8/8/8/PPPPPPPP/RNBQKBNR w KQkq - 0 1").unwrap();
    assert_eq!(imp.current.fen, None);
    let other = "8/8/8/4k3/8/8/4K3/8 w - - 0 1";
    imp.header(b"FEN", other.as_bytes()).unwrap();
    assert_eq!(imp.current.fen.as_deref(), Some(other));
}

#[test]
fn bot_and_unrated_games_are_skipped() {
    let mut imp = Importer::new(50, Database::new());
    let mut bot = game("a", "b", "1-0");
    bot.push(("BlackTitle", "BOT"));
    feed(&mut imp, &bot, &["e4"]);
    let unrated: Vec<(&str, &str)> = game("c", "d", "0-1").into_iter().filter(|(k, _)| *k != "WhiteElo").collect();
    feed(&mut imp, &unrated, &["d4"]);
    imp.send().unwrap();
    assert_eq!(imp.db.pending.len(), 0);
    assert_eq!(imp.db.players.len(), 0);
}

#[test]
fn moves_are_joined_and_variations_skipped() {
    let mut imp = Importer::new(50, Database::new());
    imp.begin_game();
    for (k, v) in game("a", "b", "1-0") {
        imp.header(k.as_bytes(), v.as_bytes()).unwrap();
    }
    assert!(!imp.end_headers());
    imp.san("e4".to_string());
    assert!(imp.begin_variation());
    imp.san("e5".to_string());
    imp.san("Nf3".to_string());
    imp.end_game().unwrap();
    imp.send().unwrap();
    let g = &imp.db.pending[0];
    assert_eq!(g.moves, "e4 e5 Nf3");
    assert_eq!(g.outcome, 1);
    assert_eq!(g.speed, Some(Speed::Blitz));
    assert_eq!(g.date, "2023.01.02");
    assert_eq!(g.white_rating, Some(1500));
    assert_eq!(g.black_rating, Some(1600));
    assert_eq!(join_moves(&vec![]), "");
    assert_eq!(join_moves(&vec!["a".to_string()]), "a");
}

#[test]
fn missing_date_gets_placeholder() {
    let mut imp = Importer::new(50, Database::new());
    let headers: Vec<(&str, &str)> = game("a", "b", "0-1").into_iter().filter(|(k, _)| *k != "Date").collect();
    feed(&mut imp, &headers, &[]);
    imp.send().unwrap();
    assert_eq!(imp.db.pending[0].date, "????.??.??");
    assert_eq!(imp.db.pending[0].outcome, 2);
}

#[test]
fn players_are_deduplicated_and_counted() {
    let archive = [("a", "b", "1-0"), ("b", "c", "0-1"), ("a", "c", "1/2-1/2"), ("c", "c", "1-0")];
    let mut counts = Vec::new();
    for _ in 0..2 {
        let mut imp = Importer::new(2, Database::new());
        for (w, b, r) in archive {
            feed(&mut imp, &game(w, b, r), &["e4"]);
        }
        imp.send().unwrap();
        let db = &imp.db;
        assert_eq!(db.pending.len(), 4);
        assert_eq!(db.players.len(), 3);
        for p in &db.players {
            let n = db.pending.iter().filter(|g| g.white == p.id).count()
                + db.pending.iter().filter(|g| g.black == p.id).count();
            assert_eq!(p.game_count, n as u64);
        }
        let names: Vec<&str> = db.players.iter().map(|p| p.name.as_str()).collect();
        assert_eq!(names, vec!["a", "b", "c"]);
        assert_eq!(db.players[2].game_count, 4);
        for g in &db.pending {
            assert!((1..=3).contains(&g.outcome));
        }
        counts.push(db.players.len());
    }
    assert_eq!(counts[0], counts[1]);
}

#[test]
fn batch_is_flushed_when_full() {
    let mut imp = Importer::new(2, Database::new());
    feed(&mut imp, &game("a", "b", "1-0"), &[]);
    assert_eq!(imp.batch.len(), 1);
    assert_eq!(imp.db.pending.len(), 0);
    feed(&mut imp, &game("a", "b", "1-0"), &[]);
    assert_eq!(imp.batch.len(), 0);
    assert_eq!(imp.db.pending.len(), 2);
}

#[test]
fn nameless_side_uses_placeholder_id() {
    let mut db = Database::new();
    let mut rec = TempGame::new();
    rec.white.name = Some("x".to_string());
    rec.outcome = Some(Outcome::WhiteWins);
    db.insert_record(&rec).unwrap();
    assert_eq!(db.pending[0].white, 1);
    assert_eq!(db.pending[0].black, 0);
    assert_eq!(db.players.len(), 1);
    assert_eq!(db.players[0].game_count, 1);
}

#[test]
fn batch_size_does_not_change_what_is_stored() {
    let archive = [("d", "b", "1-0"), ("b", "a", "0-1"), ("c", "d", "1/2-1/2"), ("a", "e", "1-0"), ("e", "c", "0-1")];
    let mut results = Vec::new();
    for size in [1usize, 2, 3, 50] {
        let mut imp = Importer::new(size, Database::new());
        for (w, b, r) in archive {
            feed(&mut imp, &game(w, b, r), &["e4", "e5"]);
        }
        imp.send().unwrap();
        let players: Vec<(i64, String, u64)> = imp.db.players.iter().map(|p| (p.id, p.name.clone(), p.game_count)).collect();
        let games: Vec<(i64, i64, i64, u8)> = imp.db.pending.iter().map(|g| (g.id, g.white, g.black, g.outcome)).collect();
        results.push((players, games));
    }
    let names: Vec<&str> = results[0].0.iter().map(|p| p.1.as_str()).collect();
    assert_eq!(names, vec!["d", "b", "a", "c", "e"]);
    for r in &results[1..] {
        assert_eq!(r, &results[0]);
    }
}

#[test]
fn unescaped_tags() {
    assert!(unescaped_tag(b"White"));
    assert!(unescaped_tag(b"Black"));
    assert!(unescaped_tag(b"FEN"));
    assert!(!unescaped_tag(b"Site"));
    assert!(!unescaped_tag(b"WhiteElo"));
}

#[test]
fn pending_rows_are_handed_over_once() {
    let mut imp = Importer::new(1, Database::new());
    feed(&mut imp, &game("a", "b", "1-0"), &[]);
    feed(&mut imp, &game("b", "c", "0-1"), &[]);
    let first = imp.db.take_pending();
    assert_eq!(first.iter().map(|g| g.id).collect::<Vec<_>>(), vec![1, 2]);
    assert!(imp.db.take_pending().is_empty());
    feed(&mut imp, &game("c", "a", "1/2-1/2"), &[]);
    let second = imp.db.take_pending();
    assert_eq!(second.len(), 1);
    assert_eq!(second[0].id, 3);
    assert_eq!((second[0].white, second[0].black), (3, 1));
    assert_eq!(imp.db.game_total, 3);
    assert_eq!(imp.db.players.iter().map(|p| p.game_count).collect::<Vec<_>>(), vec![2, 2, 2]);
}

#[test]
fn name_index_finds_every_player() {
    let names = ["zed", "Émile", "amy", "Bob", "bob", "", "a", "zz", "m"];
    let mut db = Database::new();
    for n in names {
        let mut rec = TempGame::new();
        rec.white.name = Some(n.to_string());
        rec.outcome = Some(Outcome::Draw);
        db.insert_record(&rec).unwrap();
        db.insert_record(&rec).unwrap();
    }
    assert_eq!(db.players.len(), names.len());
    for (i, n) in names.iter().enumerate() {
        assert_eq!(db.find_player(&n.to_string()), Some(i));
        assert_eq!(db.players[i].game_count, 2);
    }
    assert_eq!(db.find_player(&"nobody".to_string()), None);
    let keys: Vec<&[u8]> = db.by_name.iter().map(|&i| db.players[i].name.as_bytes()).collect();
    assert!(keys.windows(2).all(|w| w[0] < w[1]));
}

#[test]
fn escaped_values_are_decoded_for_names_and_positions() {
    assert_eq!(header_value(b"White", br#"a \"b\" \\ c"#), br#"a "b" \ c"#.to_vec());
    assert_eq!(header_value(b"FEN", br#"x\\y"#), br#"x\y"#.to_vec());
    assert_eq!(header_value(b"Site", br#"a \"b\""#), br#"a \"b\""#.to_vec());
}
