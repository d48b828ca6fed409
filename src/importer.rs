//! The record visitor: a state machine fed one signal at a time by a game
//! notation reader, which queues finished games and writes them in batches.
use vstd::prelude::*;
use crate::outcome::{parse_result, result_outcome};
use crate::record::{GameModel, PlayerModel, TempGame};
use crate::speed::{clock_speed, Speed};
use crate::store::{
    batch_stored, models, names_after, persistable, player_names, stored_prefix, Database, StoreError,
    MAX_ROWS,
};
use crate::text::{ascii_of, decode_utf8, key_is, parse_i32, signed_value};

verus! {

/// Problems that end a whole import.
#[derive(Debug, Clone, Copy, PartialEq, Eq, Structural)]
pub enum ImportError {
    /// A name, date, site or position is not valid UTF-8.
    InvalidText,
    /// A rating is neither `?` nor an integer.
    InvalidRating,
    /// A time control is malformed.
    InvalidTimeControl,
}

pub open spec fn utf8_text(v: Seq<u8>) -> Option<Seq<char>> {
    if vstd::utf8::valid_utf8(v) {
        Some(vstd::utf8::decode_utf8(v))
    } else {
        None
    }
}

/// Headers whose value is text that the reader must unescape before it is
/// handed to `Importer::header`: the player names and the position.
pub fn unescaped_tag(key: &[u8]) -> (r: bool)
    ensures
        r == (key@ == ascii_of("White"@) || key@ == ascii_of("Black"@) || key@ == ascii_of("FEN"@)),
{
    proof {
        reveal_strlit("White");
        reveal_strlit("Black");
        reveal_strlit("FEN");
    }
    key_is(key, "White") || key_is(key, "Black") || key_is(key, "FEN")
}

/// What a tag value reads as once its escaped quotes and backslashes are
/// decoded.
pub uninterp spec fn unescaped(b: Seq<u8>) -> Seq<u8>;

/// Relies on pgn_reader::RawHeader::decode: decodes backslash-escaped quotes
/// and backslashes; the result depends on the bytes alone.
#[verifier::external_body]
fn unescape(b: &[u8]) -> (r: Vec<u8>)
    ensures
        r@ == unescaped(b@),
{
    pgn_reader::RawHeader(b).decode().into_owned()
}

/// The value to hand to `Importer::header` for a raw tag value: decoded for
/// the tags that `unescaped_tag` names, as it stands for the others.
pub fn header_value(key: &[u8], raw: &[u8]) -> (r: Vec<u8>)
    ensures
        r@ == (if key@ == ascii_of("White"@) || key@ == ascii_of("Black"@) || key@ == ascii_of("FEN"@) {
            unescaped(raw@)
        } else {
            raw@
        }),
{
    if unescaped_tag(key) {
        unescape(raw)
    } else {
        vstd::slice::slice_to_vec(raw)
    }
}

/// The standard starting position, which is stored as no position at all.
pub open spec fn start_fen() -> Seq<char> {
    "rnbqkbnr/pppppppp/8/8/8/8/PPPPPPPP/RNBQKBNR w KQkq - 0 1"@
}

pub open spec fn with_name(p: PlayerModel, n: Seq<char>) -> PlayerModel {
    PlayerModel { name: Some(n), rating: p.rating }
}

pub open spec fn with_rating(p: PlayerModel, r: int) -> PlayerModel {
    PlayerModel { name: p.name, rating: Some(r) }
}

/// A rating value: `?` leaves the rating unset (`Some(None)`), an integer sets
/// it, anything else is malformed (`None`).
pub open spec fn rating_value(v: Seq<u8>) -> Option<Option<int>> {
    if v == ascii_of("?"@) {
        Some(None)
    } else {
        match signed_value(v, i32::MIN as int, i32::MAX as int) {
            Some(r) => Some(Some(r)),
            None => None,
        }
    }
}

pub open spec fn rated(p: PlayerModel, v: Option<int>) -> PlayerModel {
    match v {
        Some(r) => with_rating(p, r),
        None => p,
    }
}

/// The record and skip flag after one header, or `None` when the header is
/// fatal for the import.
pub open spec fn apply_header(g: GameModel, skip: bool, key: Seq<u8>, value: Seq<u8>) -> Option<
    (GameModel, bool),
> {
    if key == ascii_of("White"@) {
        match utf8_text(value) {
            Some(n) => Some((GameModel { white: with_name(g.white, n), ..g }, skip)),
            None => None,
        }
    } else if key == ascii_of("Black"@) {
        match utf8_text(value) {
            Some(n) => Some((GameModel { black: with_name(g.black, n), ..g }, skip)),
            None => None,
        }
    } else if key == ascii_of("WhiteElo"@) {
        match rating_value(value) {
            Some(v) => Some((GameModel { white: rated(g.white, v), ..g }, skip)),
            None => None,
        }
    } else if key == ascii_of("BlackElo"@) {
        match rating_value(value) {
            Some(v) => Some((GameModel { black: rated(g.black, v), ..g }, skip)),
            None => None,
        }
    } else if key == ascii_of("TimeControl"@) {
        match clock_speed(value) {
            Some(s) => Some((GameModel { speed: Some(s), ..g }, skip)),
            None => None,
        }
    } else if key == ascii_of("Date"@) || key == ascii_of("UTCDate"@) {
        if g.date is Some {
            Some((g, skip))
        } else {
            match utf8_text(value) {
                Some(d) => Some((GameModel { date: Some(d), ..g }, skip)),
                None => None,
            }
        }
    } else if key == ascii_of("WhiteTitle"@) || key == ascii_of("BlackTitle"@) {
        Some((g, skip || value == ascii_of("BOT"@)))
    } else if key == ascii_of("Site"@) {
        match utf8_text(value) {
            Some(s) => Some((GameModel { site: Some(s), ..g }, skip)),
            None => None,
        }
    } else if key == ascii_of("Result"@) {
        match result_outcome(value) {
            Some(o) => Some((GameModel { outcome: Some(o), ..g }, skip)),
            None => Some((g, true)),
        }
    } else if key == ascii_of("FEN"@) {
        if value == ascii_of(start_fen()) {
            Some((GameModel { fen: None, ..g }, skip))
        } else {
            match utf8_text(value) {
                Some(f) => Some((GameModel { fen: Some(f), ..g }, skip)),
                None => None,
            }
        }
    } else {
        Some((g, skip))
    }
}

/// The skip decision once all headers are read: a record is dropped when
/// either rating or the outcome is missing.
pub open spec fn skip_after_headers(g: GameModel, skip: bool) -> bool {
    skip || g.white.rating is None || g.black.rating is None || g.outcome is None
}

/// The records queued after a game ends.
pub open spec fn queued_after(batch: Seq<GameModel>, g: GameModel, skip: bool) -> Seq<GameModel> {
    if !skip && g.outcome is Some {
        batch.push(g)
    } else {
        batch
    }
}

pub struct Importer {
    pub db: Database,
    pub batch_size: usize,
    pub current: TempGame,
    pub skip: bool,
    pub batch: Vec<TempGame>,
}

impl Importer {
    /// The database is consistent and every queued record can be stored.
    pub open spec fn wf(&self) -> bool {
        &&& self.db.wf()
        &&& forall|k: int| 0 <= k < self.batch@.len() ==> persistable(#[trigger] self.batch@[k]@)
    }

    pub fn new(batch_size: usize, db: Database) -> (r: Importer)
        requires
            db.wf(),
        ensures
            r.wf(),
            r.db == db,
            r.batch_size == batch_size,
            r.current@ == crate::record::empty_game(),
            !r.skip,
            r.batch@.len() == 0,
    {
        Importer { db, batch_size, current: TempGame::new(), skip: false, batch: Vec::new() }
    }

    /// Writes the queued records to the database and empties the queue.
    pub fn send(&mut self) -> (r: Result<(), StoreError>)
        requires
            old(self).wf(),
        ensures
            final(self).wf(),
            final(self).batch@.len() == 0,
            final(self).batch_size == old(self).batch_size,
            final(self).current == old(self).current,
            final(self).skip == old(self).skip,
            r is Ok ==> batch_stored(old(self).db, final(self).db, models(old(self).batch@)),
            r is Ok ==> player_names(final(self).db.players@) == names_after(
                player_names(old(self).db.players@),
                models(old(self).batch@),
            ),
            stored_prefix(old(self).db, final(self).db, models(old(self).batch@)),
            old(self).db.games@.len() + old(self).batch@.len() + 1 <= MAX_ROWS
                && old(self).db.players@.len() + 2 * old(self).batch@.len() + 2 <= MAX_ROWS
                ==> r is Ok,
    {
        let mut batch: Vec<TempGame> = Vec::new();
        std::mem::swap(&mut batch, &mut self.batch);
        self.db.insert_batch(batch)
    }

    pub fn begin_game(&mut self)
        ensures
            final(self).current@ == crate::record::empty_game(),
            !final(self).skip,
            final(self).db == old(self).db,
            final(self).batch == old(self).batch,
            final(self).batch_size == old(self).batch_size,
    {
        self.skip = false;
        self.current = TempGame::new();
    }

    /// Reads one header into the current record.
    pub fn header(&mut self, key: &[u8], value: &[u8]) -> (r: Result<(), ImportError>)
        ensures
            final(self).db == old(self).db,
            final(self).batch == old(self).batch,
            final(self).batch_size == old(self).batch_size,
            match apply_header(old(self).current@, old(self).skip, key@, value@) {
                Some((g, skip)) => r is Ok && final(self).current@ == g && final(self).skip == skip,
                None => r is Err && final(self).current@ == old(self).current@ && final(self).skip
                    == old(self).skip,
            },
    {
        proof {
            reveal_strlit("White");
            reveal_strlit("Black");
            reveal_strlit("WhiteElo");
            reveal_strlit("BlackElo");
            reveal_strlit("TimeControl");
            reveal_strlit("Date");
            reveal_strlit("UTCDate");
            reveal_strlit("WhiteTitle");
            reveal_strlit("BlackTitle");
            reveal_strlit("Site");
            reveal_strlit("Result");
            reveal_strlit("FEN");
        }
        if key_is(key, "White") {
            match decode_utf8(value) {
                Some(n) => {
                    self.current.white.name = Some(n);
                    Ok(())
                },
                None => Err(ImportError::InvalidText),
            }
        } else if key_is(key, "Black") {
            match decode_utf8(value) {
                Some(n) => {
                    self.current.black.name = Some(n);
                    Ok(())
                },
                None => Err(ImportError::InvalidText),
            }
        } else if key_is(key, "WhiteElo") {
            proof {
                reveal_strlit("?");
            }
            if key_is(value, "?") {
                Ok(())
            } else {
                match parse_i32(value) {
                    Some(v) => {
                        self.current.white.rating = Some(v);
                        Ok(())
                    },
                    None => Err(ImportError::InvalidRating),
                }
            }
        } else if key_is(key, "BlackElo") {
            proof {
                reveal_strlit("?");
            }
            if key_is(value, "?") {
                Ok(())
            } else {
                match parse_i32(value) {
                    Some(v) => {
                        self.current.black.rating = Some(v);
                        Ok(())
                    },
                    None => Err(ImportError::InvalidRating),
                }
            }
        } else if key_is(key, "TimeControl") {
            match Speed::from_bytes(value) {
                Ok(s) => {
                    self.current.speed = Some(s);
                    Ok(())
                },
                Err(()) => Err(ImportError::InvalidTimeControl),
            }
        } else if key_is(key, "Date") || key_is(key, "UTCDate") {
            if self.current.date.is_some() {
                Ok(())
            } else {
                match decode_utf8(value) {
                    Some(d) => {
                        self.current.date = Some(d);
                        Ok(())
                    },
                    None => Err(ImportError::InvalidText),
                }
            }
        } else if key_is(key, "WhiteTitle") || key_is(key, "BlackTitle") {
            proof {
                reveal_strlit("BOT");
            }
            if key_is(value, "BOT") {
                self.skip = true;
            }
            Ok(())
        } else if key_is(key, "Site") {
            match decode_utf8(value) {
                Some(s) => {
                    self.current.site = Some(s);
                    Ok(())
                },
                None => Err(ImportError::InvalidText),
            }
        } else if key_is(key, "Result") {
            match parse_result(value) {
                Some(o) => self.current.outcome = Some(o),
                None => self.skip = true,
            }
            Ok(())
        } else if key_is(key, "FEN") {
            proof {
                reveal_strlit("rnbqkbnr/pppppppp/8/8/8/8/PPPPPPPP/RNBQKBNR w KQkq - 0 1");
            }
            if key_is(value, "rnbqkbnr/pppppppp/8/8/8/8/PPPPPPPP/RNBQKBNR w KQkq - 0 1") {
                self.current.fen = None;
                Ok(())
            } else {
                match decode_utf8(value) {
                    Some(f) => {
                        self.current.fen = Some(f);
                        Ok(())
                    },
                    None => Err(ImportError::InvalidText),
                }
            }
        } else {
            Ok(())
        }
    }

    /// Settles the skip decision once the headers are read; `true` tells the
    /// reader to pass over the moves of this game.
    pub fn end_headers(&mut self) -> (r: bool)
        ensures
            r == skip_after_headers(old(self).current@, old(self).skip),
            final(self).skip == r,
            final(self).current == old(self).current,
            final(self).db == old(self).db,
            final(self).batch == old(self).batch,
            final(self).batch_size == old(self).batch_size,
    {
        self.skip = self.skip || self.current.white.rating.is_none() || self.current.black.rating.is_none()
            || self.current.outcome.is_none();
        self.skip
    }

    /// Appends a mainline move.
    pub fn san(&mut self, san: String)
        ensures
            final(self).current@ == (GameModel { moves: old(self).current@.moves.push(san@), ..old(self).current@ }),
            final(self).skip == old(self).skip,
            final(self).db == old(self).db,
            final(self).batch == old(self).batch,
            final(self).batch_size == old(self).batch_size,
    {
        self.current.moves.push(san);
        assert(self.current@.moves =~= old(self).current@.moves.push(san@));
    }

    /// Side variations are always passed over.
    pub fn begin_variation(&mut self) -> (r: bool)
        ensures
            r,
            *final(self) == *old(self),
    {
        true
    }

    /// Queues the finished record unless it is skipped, and writes the queue
    /// once it holds `batch_size` records.
    pub fn end_game(&mut self) -> (r: Result<(), StoreError>)
        requires
            old(self).wf(),
        ensures
            final(self).wf(),
            final(self).current@ == crate::record::empty_game(),
            final(self).batch_size == old(self).batch_size,
            ({
                let queued = queued_after(models(old(self).batch@), old(self).current@, old(self).skip);
                if queued.len() >= old(self).batch_size {
                    &&& final(self).batch@.len() == 0
                    &&& r is Ok ==> batch_stored(old(self).db, final(self).db, queued)
                    &&& r is Ok ==> player_names(final(self).db.players@) == names_after(
                        player_names(old(self).db.players@),
                        queued,
                    )
                    &&& stored_prefix(old(self).db, final(self).db, queued)
                    &&& old(self).db.games@.len() + queued.len() + 1 <= MAX_ROWS
                        && old(self).db.players@.len() + 2 * queued.len() + 2 <= MAX_ROWS ==> r is Ok
                } else {
                    &&& r is Ok
                    &&& final(self).db == old(self).db
                    &&& models(final(self).batch@) == queued
                }
            }),
    {
        let ghost queued = queued_after(models(self.batch@), self.current@, self.skip);
        let mut finished = TempGame::new();
        std::mem::swap(&mut finished, &mut self.current);
        if !self.skip && finished.outcome.is_some() {
            self.batch.push(finished);
        }
        assert(models(self.batch@) =~= queued);
        if self.batch.len() >= self.batch_size {
            self.send()
        } else {
            Ok(())
        }
    }
}

/// A position header holding the standard starting position leaves the record
/// without a position; any other valid one is kept exactly.
pub proof fn lemma_fen_normalized(g: GameModel, skip: bool, value: Seq<u8>)
    requires
        vstd::utf8::valid_utf8(value),
    ensures
        match apply_header(g, skip, ascii_of("FEN"@), value) {
            Some((h, _)) => {
                &&& value == ascii_of(start_fen()) ==> h.fen is None
                &&& value != ascii_of(start_fen()) ==> h.fen == Some(vstd::utf8::decode_utf8(value))
            },
            None => false,
        },
{
    reveal_strlit("FEN");
    reveal_strlit("White");
    reveal_strlit("Black");
    reveal_strlit("WhiteElo");
    reveal_strlit("BlackElo");
    reveal_strlit("TimeControl");
    reveal_strlit("Date");
    reveal_strlit("UTCDate");
    reveal_strlit("WhiteTitle");
    reveal_strlit("BlackTitle");
    reveal_strlit("Site");
    reveal_strlit("Result");
    let k = ascii_of("FEN"@);
    assert(k.len() == 3);
    assert(ascii_of("White"@).len() == 5);
    assert(ascii_of("Black"@).len() == 5);
    assert(ascii_of("WhiteElo"@).len() == 8);
    assert(ascii_of("BlackElo"@).len() == 8);
    assert(ascii_of("TimeControl"@).len() == 11);
    assert(ascii_of("Date"@).len() == 4);
    assert(ascii_of("UTCDate"@).len() == 7);
    assert(ascii_of("WhiteTitle"@).len() == 10);
    assert(ascii_of("BlackTitle"@).len() == 10);
    assert(ascii_of("Site"@).len() == 4);
    assert(ascii_of("Result"@).len() == 6);
}

} // verus!
