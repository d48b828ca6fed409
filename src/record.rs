//! One game as read from the archive, before it is stored.
use vstd::prelude::*;
use crate::outcome::Outcome;
use crate::speed::Speed;

verus! {

pub open spec fn text_view(o: Option<String>) -> Option<Seq<char>> {
    match o {
        Some(s) => Some(s@),
        None => None,
    }
}

pub open spec fn rating_view(o: Option<i32>) -> Option<int> {
    match o {
        Some(r) => Some(r as int),
        None => None,
    }
}

/// One side of a game: the player's name and rating at game time.
#[derive(Debug)]
pub struct TempPlayer {
    pub name: Option<String>,
    pub rating: Option<i32>,
}

pub struct PlayerModel {
    pub name: Option<Seq<char>>,
    pub rating: Option<int>,
}

impl View for TempPlayer {
    type V = PlayerModel;

    open spec fn view(&self) -> PlayerModel {
        PlayerModel { name: text_view(self.name), rating: rating_view(self.rating) }
    }
}

/// A game record under construction.
#[derive(Debug)]
pub struct TempGame {
    pub speed: Option<Speed>,
    pub fen: Option<String>,
    pub site: Option<String>,
    pub date: Option<String>,
    pub white: TempPlayer,
    pub black: TempPlayer,
    pub outcome: Option<Outcome>,
    pub moves: Vec<String>,
}

pub struct GameModel {
    pub speed: Option<Speed>,
    pub fen: Option<Seq<char>>,
    pub site: Option<Seq<char>>,
    pub date: Option<Seq<char>>,
    pub white: PlayerModel,
    pub black: PlayerModel,
    pub outcome: Option<Outcome>,
    pub moves: Seq<Seq<char>>,
}

impl View for TempGame {
    type V = GameModel;

    open spec fn view(&self) -> GameModel {
        GameModel {
            speed: self.speed,
            fen: text_view(self.fen),
            site: text_view(self.site),
            date: text_view(self.date),
            white: self.white@,
            black: self.black@,
            outcome: self.outcome,
            moves: self.moves@.map_values(|m: String| m@),
        }
    }
}

pub open spec fn empty_player() -> PlayerModel {
    PlayerModel { name: None, rating: None }
}

/// A record with nothing read yet.
pub open spec fn empty_game() -> GameModel {
    GameModel {
        speed: None,
        fen: None,
        site: None,
        date: None,
        white: empty_player(),
        black: empty_player(),
        outcome: None,
        moves: Seq::empty(),
    }
}

impl TempPlayer {
    pub fn new() -> (r: TempPlayer)
        ensures
            r@ == empty_player(),
    {
        TempPlayer { name: None, rating: None }
    }
}

impl TempGame {
    pub fn new() -> (r: TempGame)
        ensures
            r@ == empty_game(),
    {
        let r = TempGame {
            speed: None,
            fen: None,
            site: None,
            date: None,
            white: TempPlayer::new(),
            black: TempPlayer::new(),
            outcome: None,
            moves: Vec::new(),
        };
        assert(r@.moves =~= Seq::<Seq<char>>::empty());
        r
    }
}

} // verus!
