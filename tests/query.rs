use pgn_db::outcome::Outcome;
use pgn_db::query::{get_games, get_players, get_players_game_info, GameQuery, PlayerQuery, Sort};
use pgn_db::speed::Speed;
use pgn_db::store::{Game, Player};

fn player(id: i64, name: &str) -> Player {
    Player { id, name: name.to_string(), rating: None, game_count: 0 }
}

fn row(id: i64, white: i64, black: i64, speed: Option<Speed>, outcome: u8, date: &str, ratings: (i32, i32)) -> Game {
    Game {
        id,
        white,
        black,
        white_rating: Some(ratings.0),
        black_rating: Some(ratings.1),
        date: date.to_string(),
        speed,
        site: None,
        fen: None,
        outcome,
        moves: String::new(),
    }
}

fn query() -> GameQuery {
    GameQuery {
        skip_count: false,
        player1: None,
        player2: None,
        range1: None,
        range2: None,
        sides: None,
        speed: None,
        outcome: None,
        limit: None,
        offset: None,
        sort: None,
    }
}

fn store() -> (Vec<Game>, Vec<Player>) {
    let players = vec![player(1, "Alice"), player(2, "bob"), player(3, "Carol")];
    let mut games = Vec::new();
    for i in 0..30i64 {
        let speed = if i < 25 { Speed::Blitz } else { Speed::Rapid };
        let outcome = (i % 3 + 1) as u8;
        games.push(row(i + 1, 1 + i % 3, 1 + (i + 1) % 3, Some(speed), outcome, &format!("2023.01.{:02}", i + 1), (1000 + 10 * i as i32, 1200)));
    }
    (games, players)
}

#[test]
fn blitz_page_and_count() {
    let (games, players) = store();
    let mut q = query();
    q.speed = Some(Speed::Blitz);
    q.limit = Some(10);
    let r = get_games(&games, &players, q);
    assert_eq!(r.data.len(), 10);
    assert_eq!(r.count, Some(25));
    assert!(r.data.iter().all(|(g, _, _)| g.speed == Some(Speed::Blitz)));
}

#[test]
fn count_equals_unpaginated_rows() {
    let (games, players) = store();
    let mut q = query();
    q.outcome = Some(Outcome::WhiteWins);
    q.limit = Some(3);
    q.offset = Some(2);
    let paged = get_games(&games, &players, q);
    let mut q = query();
    q.outcome = Some(Outcome::WhiteWins);
    let all = get_games(&games, &players, q);
    assert_eq!(paged.count, Some(all.data.len() as i64));
    assert_eq!(all.data.len(), 10);
    assert_eq!(paged.data.len(), 3);
    assert_eq!(paged.data[0].0.id, all.data[2].0.id);
}

#[test]
fn skip_count_and_player_filter() {
    let (games, players) = store();
    let mut q = query();
    q.skip_count = true;
    q.player1 = Some("Alice".to_string());
    let r = get_games(&games, &players, q);
    assert_eq!(r.count, None);
    assert_eq!(r.data.len(), 10);
    assert!(r.data.iter().all(|(g, w, _)| w.name == "Alice" && g.white == 1));
    assert!(r.data.iter().all(|(g, _, b)| b.id == g.black));
}

#[test]
fn rows_need_both_players() {
    let players = vec![player(1, "a")];
    let games = vec![row(1, 1, 0, None, 1, "d", (1, 1)), row(2, 1, 1, None, 3, "d", (1, 1))];
    let r = get_games(&games, &players, query());
    assert_eq!(r.count, Some(1));
    assert_eq!(r.data[0].0.id, 2);
}

#[test]
fn sorting() {
    let (games, players) = store();
    let mut q = query();
    q.sort = Some(Sort::Date);
    let r = get_games(&games, &players, q);
    assert_eq!(r.data[0].0.date, "2023.01.30");
    assert_eq!(r.data[29].0.date, "2023.01.01");
    let mut q = query();
    q.sort = Some(Sort::Rating);
    q.limit = Some(2);
    let r = get_games(&games, &players, q);
    assert_eq!(r.data[0].0.white_rating, Some(1290));
    assert_eq!(r.data[1].0.white_rating, Some(1280));
    let mut q = query();
    q.sort = Some(Sort::Speed);
    let r = get_games(&games, &players, q);
    assert_eq!(r.data[0].0.speed, Some(Speed::Rapid));
    assert_eq!(r.data[0].0.id, 26);
    let mut q = query();
    q.sort = Some(Sort::Outcome);
    let r = get_games(&games, &players, q);
    assert_eq!(r.data[0].0.outcome, 3);
    assert_eq!(r.data[0].0.id, 3);
    assert_eq!(r.data[29].0.outcome, 1);
}

#[test]
fn negative_and_large_pagination() {
    let (games, players) = store();
    let mut q = query();
    q.limit = Some(-1);
    q.offset = Some(-5);
    assert_eq!(get_games(&games, &players, q).data.len(), 30);
    let mut q = query();
    q.offset = Some(100);
    assert_eq!(get_games(&games, &players, q).data.len(), 0);
}

#[test]
fn sort_names() {
    assert_eq!(Sort::from_str("date"), Ok(Sort::Date));
    assert_eq!(Sort::from_str("rating"), Ok(Sort::Rating));
    assert_eq!(Sort::from_str("speed"), Ok(Sort::Speed));
    assert_eq!(Sort::from_str("outcome"), Ok(Sort::Outcome));
    assert_eq!(Sort::from_str("Date"), Err("invalid sort: Date".to_string()));
}

#[test]
fn player_listing() {
    let players = vec![player(1, "Magnus"), player(2, "hikaru"), player(3, "MAGNUS_2"), player(4, "x")];
    let r = get_players(&players, PlayerQuery { skip_count: false, name: Some("magn".to_string()), limit: None, offset: None });
    assert_eq!(r.count, Some(2));
    assert_eq!(r.data.iter().map(|p| p.id).collect::<Vec<_>>(), vec![1, 3]);
    let r = get_players(&players, PlayerQuery { skip_count: true, name: None, limit: Some(2), offset: Some(1) });
    assert_eq!(r.count, None);
    assert_eq!(r.data.iter().map(|p| p.id).collect::<Vec<_>>(), vec![2, 3]);
    let r = get_players(&players, PlayerQuery { skip_count: false, name: Some(String::new()), limit: None, offset: None });
    assert_eq!(r.count, Some(4));
}

#[test]
fn player_tallies() {
    let games = vec![
        row(1, 1, 2, None, 1, "d", (1, 1)),
        row(2, 2, 1, None, 1, "d", (1, 1)),
        row(3, 2, 1, None, 2, "d", (1, 1)),
        row(4, 1, 2, None, 3, "d", (1, 1)),
        row(5, 2, 3, None, 1, "d", (1, 1)),
    ];
    let info = get_players_game_info(&games, 1);
    assert_eq!((info.won, info.lost, info.draw), (2, 1, 1));
    let info = get_players_game_info(&games, 3);
    assert_eq!((info.won, info.lost, info.draw), (0, 1, 0));
}
