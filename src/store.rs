//! The player and game tables and the batch writer that fills them.
use vstd::prelude::*;
use vstd::string::StringExecFns;
use crate::record::{rating_view, text_view, GameModel, TempGame};
use crate::speed::Speed;
use crate::text::{bytes_after, bytes_after_exec, lemma_bytes_after_asymmetric, lemma_bytes_after_total, lemma_bytes_after_transitive, same_bytes};

verus! {

/// The most rows a table may hold; ids and counters stay far from overflow.
pub const MAX_ROWS: usize = 0x7fff_ffff;

#[derive(Debug)]
pub struct Player {
    pub id: i64,
    pub name: String,
    pub rating: Option<i32>,
    pub game_count: u64,
}

#[derive(Debug)]
pub struct Game {
    pub id: i64,
    pub white: i64,
    pub black: i64,
    pub white_rating: Option<i32>,
    pub black_rating: Option<i32>,
    pub date: String,
    pub speed: Option<Speed>,
    pub site: Option<String>,
    pub fen: Option<String>,
    pub outcome: u8,
    pub moves: String,
}

impl Player {
    pub fn copy(&self) -> (r: Player)
        ensures
            r == *self,
    {
        Player { id: self.id, name: self.name.clone(), rating: self.rating, game_count: self.game_count }
    }
}

impl Game {
    pub fn copy(&self) -> (r: Game)
        ensures
            r == *self,
    {
        let site = match &self.site {
            Some(s) => Some(s.clone()),
            None => None,
        };
        let fen = match &self.fen {
            Some(s) => Some(s.clone()),
            None => None,
        };
        Game {
            id: self.id,
            white: self.white,
            black: self.black,
            white_rating: self.white_rating,
            black_rating: self.black_rating,
            date: self.date.clone(),
            speed: self.speed,
            site,
            fen,
            outcome: self.outcome,
            moves: self.moves.clone(),
        }
    }
}

/// A summary of one database file.
#[derive(Debug)]
pub struct DatabaseInfo {
    pub title: String,
    pub description: String,
    pub player_count: usize,
    pub game_count: usize,
    pub storage_size: usize,
}

#[derive(Debug, Clone, Copy, PartialEq, Eq, Structural)]
pub enum StoreError {
    TooManyRows,
}

/// How many sides of the games `id` occupies (a self-play game counts twice).
pub open spec fn appearances(games: Seq<Game>, id: int) -> nat
    decreases games.len(),
{
    if games.len() == 0 {
        0
    } else {
        appearances(games.drop_last(), id) + (if games.last().white == id {
            1nat
        } else {
            0nat
        }) + (if games.last().black == id {
            1nat
        } else {
            0nat
        })
    }
}

/// Moves separated by single spaces.
pub open spec fn joined(moves: Seq<Seq<char>>) -> Seq<char>
    decreases moves.len(),
{
    if moves.len() == 0 {
        Seq::empty()
    } else if moves.len() == 1 {
        moves[0]
    } else {
        joined(moves.drop_last()) + seq![' '] + moves.last()
    }
}

/// The date stored for a record that gave none.
pub open spec fn unknown_date() -> Seq<char> {
    "????.??.??"@
}

/// `id` is the player of that name, or the placeholder 0 when there is no name.
pub open spec fn side_id(players: Seq<Player>, id: int, name: Option<Seq<char>>) -> bool {
    match name {
        None => id == 0,
        Some(n) => 1 <= id <= players.len() && players[id - 1].name@ == n,
    }
}

/// A record can be stored once its outcome is known.
pub open spec fn persistable(r: GameModel) -> bool {
    r.outcome is Some
}

/// `g` is the row that stores record `r`.
pub open spec fn stores(players: Seq<Player>, g: Game, r: GameModel) -> bool {
    &&& side_id(players, g.white as int, r.white.name)
    &&& side_id(players, g.black as int, r.black.name)
    &&& rating_view(g.white_rating) == r.white.rating
    &&& rating_view(g.black_rating) == r.black.rating
    &&& g.date@ == (match r.date {
        Some(d) => d,
        None => unknown_date(),
    })
    &&& g.speed == r.speed
    &&& text_view(g.site) == r.site
    &&& text_view(g.fen) == r.fen
    &&& r.outcome matches Some(o) && g.outcome == o.spec_code()
    &&& g.moves@ == joined(r.moves)
}

/// The names that a record gives for its two sides.
pub open spec fn record_names(r: GameModel) -> Set<Seq<char>> {
    Set::new(|n: Seq<char>| r.white.name == Some(n) || r.black.name == Some(n))
}

/// The names given by any record of `b`.
pub open spec fn batch_names(b: Seq<GameModel>) -> Set<Seq<char>> {
    Set::new(|n: Seq<char>| exists|k: int| 0 <= k < b.len() && #[trigger] record_names(b[k]).contains(n))
}

pub open spec fn models(b: Seq<TempGame>) -> Seq<GameModel> {
    b.map_values(|g: TempGame| g@)
}

/// `after` is `before` with the records of `b` appended as game rows, in
/// order, and with the players they name.
pub open spec fn batch_stored(before: Database, after: Database, b: Seq<GameModel>) -> bool {
    &&& after.games@.len() == before.games@.len() + b.len()
    &&& forall|i: int| 0 <= i < before.games@.len() ==> after.games@[i] == before.games@[i]
    &&& forall|k: int| 0 <= k < b.len() ==> stores(
        after.players@,
        #[trigger] after.games@[before.games@.len() + k],
        b[k],
    )
    &&& after.name_set() == before.name_set().union(batch_names(b))
}

/// The stored player names, by row.
pub open spec fn player_names(ps: Seq<Player>) -> Seq<Seq<char>> {
    ps.map_values(|p: Player| p.name@)
}

/// A name appended unless it is already there.
pub open spec fn add_name(s: Seq<Seq<char>>, n: Option<Seq<char>>) -> Seq<Seq<char>> {
    match n {
        Some(x) => if s.contains(x) {
            s
        } else {
            s.push(x)
        },
        None => s,
    }
}

/// The names after the records of `b` are stored in order, white before
/// black: each new name is appended when it is first seen.
pub open spec fn names_after(s: Seq<Seq<char>>, b: Seq<GameModel>) -> Seq<Seq<char>>
    decreases b.len(),
{
    if b.len() == 0 {
        s
    } else {
        let t = names_after(s, b.drop_last());
        add_name(add_name(t, b.last().white.name), b.last().black.name)
    }
}

/// `after` holds the records of some prefix of `b`, which is all of `b` when
/// the tables grew by `b.len()` games; existing rows keep their ids and names
/// and new players are appended in first-seen order.
pub open spec fn stored_prefix(before: Database, after: Database, b: Seq<GameModel>) -> bool {
    let k = after.games@.len() - before.games@.len();
    &&& 0 <= k <= b.len()
    &&& batch_stored(before, after, b.take(k))
    &&& player_names(after.players@) == names_after(player_names(before.players@), b.take(k))
}

/// The player table, and the game rows not yet handed to storage. `games`
/// is every game stored so far, as a ghost history: only `pending`, its
/// latest part, is kept in memory.
pub struct Database {
    pub players: Vec<Player>,
    pub games: Ghost<Seq<Game>>,
    pub pending: Vec<Game>,
    pub game_total: usize,
    /// Player rows ordered by the bytes of their names.
    pub by_name: Vec<usize>,
}

/// `idx` lists every row of `ps` once, in strictly increasing order of name
/// bytes.
pub open spec fn index_ok(ps: Seq<Player>, idx: Seq<usize>) -> bool {
    &&& idx.len() == ps.len()
    &&& forall|k: int| 0 <= k < idx.len() ==> #[trigger] idx[k] < ps.len()
    &&& forall|k1: int, k2: int|
        0 <= k1 < k2 < idx.len() ==> bytes_after(
            name_key(ps[#[trigger] idx[k2] as int]),
            name_key(ps[#[trigger] idx[k1] as int]),
        )
    &&& forall|i: int| 0 <= i < ps.len() ==> #[trigger] indexed(idx, i)
}

/// Row `i` appears in the index.
pub open spec fn indexed(idx: Seq<usize>, i: int) -> bool {
    exists|k: int| 0 <= k < idx.len() && #[trigger] idx[k] == i
}

/// The index stays valid when no name changes.
pub proof fn lemma_index_same_keys(p0: Seq<Player>, p1: Seq<Player>, idx: Seq<usize>)
    requires
        index_ok(p0, idx),
        p1.len() == p0.len(),
        forall|i: int| 0 <= i < p0.len() ==> #[trigger] p1[i].name == p0[i].name,
    ensures
        index_ok(p1, idx),
{
    assert forall|k1: int, k2: int| 0 <= k1 < k2 < idx.len() implies bytes_after(
        name_key(p1[#[trigger] idx[k2] as int]),
        name_key(p1[#[trigger] idx[k1] as int]),
    ) by {
        assert(p1[idx[k2] as int].name == p0[idx[k2] as int].name);
        assert(p1[idx[k1] as int].name == p0[idx[k1] as int].name);
    }
    assert forall|i: int| 0 <= i < p1.len() implies #[trigger] indexed(idx, i) by {
        assert(indexed(idx, i));
    }
}

/// Appending a player and inserting it at its place keeps the index valid.
pub proof fn lemma_index_insert(p0: Seq<Player>, idx: Seq<usize>, np: Player, lo: int)
    requires
        index_ok(p0, idx),
        p0.len() < MAX_ROWS,
        0 <= lo <= idx.len(),
        forall|k: int| 0 <= k < lo ==> bytes_after(name_key(np), name_key(p0[#[trigger] idx[k] as int])),
        forall|k: int| lo <= k < idx.len() ==> bytes_after(name_key(p0[#[trigger] idx[k] as int]), name_key(np)),
    ensures
        index_ok(p0.push(np), idx.insert(lo, p0.len() as usize)),
{
    let p1 = p0.push(np);
    let i1 = idx.insert(lo, p0.len() as usize);
    assert(p0.len() as usize == p0.len());
    assert(p1[p0.len() as int] == np);
    assert forall|k: int| 0 <= k < i1.len() implies #[trigger] i1[k] < p1.len() by {
        if k < lo {
            assert(i1[k] == idx[k]);
        } else if k > lo {
            assert(i1[k] == idx[k - 1]);
        }
    }
    assert forall|k: int| 0 <= k < i1.len() implies name_key(p1[#[trigger] i1[k] as int]) == (if k < lo {
        name_key(p0[idx[k] as int])
    } else if k == lo {
        name_key(np)
    } else {
        name_key(p0[idx[k - 1] as int])
    }) by {
        if k < lo {
            assert(i1[k] == idx[k]);
            assert(p1[idx[k] as int] == p0[idx[k] as int]);
        } else if k > lo {
            assert(i1[k] == idx[k - 1]);
            assert(p1[idx[k - 1] as int] == p0[idx[k - 1] as int]);
        } else {
            assert(i1[k] == p0.len());
        }
    }
    assert forall|k1: int, k2: int| 0 <= k1 < k2 < i1.len() implies bytes_after(
        name_key(p1[#[trigger] i1[k2] as int]),
        name_key(p1[#[trigger] i1[k1] as int]),
    ) by {
        let a1 = name_key(p1[i1[k1] as int]);
        let a2 = name_key(p1[i1[k2] as int]);
        if k2 < lo {
            assert(bytes_after(name_key(p0[idx[k2] as int]), name_key(p0[idx[k1] as int])));
        } else if k2 == lo {
            assert(bytes_after(name_key(np), name_key(p0[idx[k1] as int])));
        } else if k1 < lo {
            assert(bytes_after(name_key(p0[idx[k2 - 1] as int]), name_key(p0[idx[k1] as int])));
        } else if k1 == lo {
            assert(bytes_after(name_key(p0[idx[k2 - 1] as int]), name_key(np)));
        } else {
            assert(bytes_after(name_key(p0[idx[k2 - 1] as int]), name_key(p0[idx[k1 - 1] as int])));
        }
    }
    assert forall|i: int| 0 <= i < p1.len() implies #[trigger] indexed(i1, i) by {
        if i == p0.len() {
            assert(i1[lo] == i);
        } else {
            assert(indexed(idx, i));
            let k = choose|k: int| 0 <= k < idx.len() && #[trigger] idx[k] == i;
            if k < lo {
                assert(i1[k] == i);
            } else {
                assert(i1[k + 1] == i);
            }
        }
    }
}

/// The key a player is ordered by: the UTF-8 bytes of its name.
pub open spec fn name_key(p: Player) -> Seq<u8> {
    vstd::utf8::encode_utf8(p.name@)
}

impl Database {
    /// Ids, names, references and codes are consistent, and every counter is
    /// the number of sides its player occupies.
    pub open spec fn wf_tables(&self) -> bool {
        &&& self.players@.len() <= MAX_ROWS
        &&& self.games@.len() <= MAX_ROWS
        &&& self.game_total == self.games@.len()
        &&& self.index_wf()
        &&& self.pending@.len() <= self.games@.len()
        &&& self.pending@ == self.games@.subrange(
            self.games@.len() - self.pending@.len(),
            self.games@.len() as int,
        )
        &&& forall|i: int| 0 <= i < self.players@.len() ==> #[trigger] self.players@[i].id == i + 1
        &&& forall|i: int| 0 <= i < self.games@.len() ==> #[trigger] self.games@[i].id == i + 1
        &&& forall|i: int, j: int|
            0 <= i < self.players@.len() && 0 <= j < self.players@.len() && i != j
                ==> #[trigger] self.players@[i].name@ != #[trigger] self.players@[j].name@
        &&& forall|i: int|
            0 <= i < self.games@.len() ==> 0 <= #[trigger] self.games@[i].white <= self.players@.len()
                && 0 <= self.games@[i].black <= self.players@.len()
        &&& forall|i: int| 0 <= i < self.games@.len() ==> 1 <= #[trigger] self.games@[i].outcome <= 3
        &&& forall|i: int|
            0 <= i < self.players@.len() ==> #[trigger] self.players@[i].game_count == appearances(
                self.games@,
                i + 1,
            )
    }

    pub open spec fn index_wf(&self) -> bool {
        index_ok(self.players@, self.by_name@)
    }

    /// The tables are consistent and every stored player has played.
    pub open spec fn wf(&self) -> bool {
        &&& self.wf_tables()
        &&& forall|j: int| 1 <= j <= self.players@.len() ==> #[trigger] appearances(self.games@, j) > 0
    }

    /// The names of the stored players.
    pub open spec fn name_set(&self) -> Set<Seq<char>> {
        Set::new(
            |n: Seq<char>| exists|i: int| 0 <= i < self.players@.len() && #[trigger] self.players@[i].name@ == n,
        )
    }

    pub fn new() -> (r: Database)
        ensures
            r.wf(),
            r.players@.len() == 0,
            r.games@.len() == 0,
            r.pending@.len() == 0,
    {
        let r = Database {
            players: Vec::new(),
            games: Ghost(Seq::empty()),
            pending: Vec::new(),
            game_total: 0,
            by_name: Vec::new(),
        };
        assert(r.pending@ =~= r.games@.subrange(0, 0));
        r
    }

    /// Hands over the game rows stored since the last call, which are the
    /// latest rows of the history, and forgets them.
    pub fn take_pending(&mut self) -> (r: Vec<Game>)
        requires
            old(self).wf(),
        ensures
            final(self).wf(),
            r@ == old(self).games@.subrange(
                old(self).games@.len() - old(self).pending@.len(),
                old(self).games@.len() as int,
            ),
            final(self).pending@.len() == 0,
            final(self).players == old(self).players,
            final(self).games == old(self).games,
    {
        let mut r: Vec<Game> = Vec::new();
        std::mem::swap(&mut r, &mut self.pending);
        assert(self.index_wf());
        assert(self.pending@ =~= self.games@.subrange(self.games@.len() as int, self.games@.len() as int));
        r
    }
}


pub proof fn lemma_appearances_push(games: Seq<Game>, g: Game, id: int)
    ensures
        appearances(games.push(g), id) == appearances(games, id) + (if g.white == id {
            1nat
        } else {
            0nat
        }) + (if g.black == id {
            1nat
        } else {
            0nat
        }),
{
    assert(games.push(g).drop_last() =~= games);
}

pub proof fn lemma_appearances_bound(games: Seq<Game>, id: int)
    ensures
        appearances(games, id) <= 2 * games.len(),
    decreases games.len(),
{
    if games.len() > 0 {
        lemma_appearances_bound(games.drop_last(), id);
    }
}

/// A player that no game references has no appearances.
pub proof fn lemma_appearances_absent(games: Seq<Game>, id: int)
    requires
        forall|i: int| 0 <= i < games.len() ==> #[trigger] games[i].white != id && games[i].black != id,
    ensures
        appearances(games, id) == 0,
    decreases games.len(),
{
    if games.len() > 0 {
        let d = games.drop_last();
        assert forall|i: int| 0 <= i < d.len() implies #[trigger] d[i].white != id && d[i].black != id by {
            assert(d[i] == games[i]);
        }
        lemma_appearances_absent(d, id);
        assert(games.last() == games[games.len() - 1]);
    }
}

/// After a game is appended, every player that had played, and every player
/// that the new game references, has played.
pub proof fn lemma_still_played(g0: Seq<Game>, g: Game, old_len: int, new_len: int)
    requires
        forall|j: int| 1 <= j <= old_len ==> #[trigger] appearances(g0, j) > 0,
        old_len <= new_len <= old_len + 2,
        new_len > old_len ==> g.white == old_len + 1 || g.black == old_len + 1,
        new_len > old_len + 1 ==> g.white == old_len + 2 || g.black == old_len + 2,
    ensures
        forall|j: int| 1 <= j <= new_len ==> #[trigger] appearances(g0.push(g), j) > 0,
{
    assert forall|j: int| 1 <= j <= new_len implies #[trigger] appearances(g0.push(g), j) > 0 by {
        lemma_appearances_push(g0, g, j);
    }
}

/// Joins moves with single spaces.
pub fn join_moves(moves: &Vec<String>) -> (r: String)
    ensures
        r@ == joined(moves@.map_values(|m: String| m@)),
{
    let mut r = String::new();
    let mut i: usize = 0;
    while i < moves.len()
        invariant
            i <= moves@.len(),
            r@ == joined(moves@.take(i as int).map_values(|m: String| m@)),
        decreases moves@.len() - i,
    {
        let ghost before = moves@.take(i as int).map_values(|m: String| m@);
        let ghost after = moves@.take(i + 1).map_values(|m: String| m@);
        assert(after.drop_last() =~= before);
        if i > 0 {
            r.append(" ");
            proof {
                reveal_strlit(" ");
            }
        }
        r.append(moves[i].as_str());
        proof {
            if i == 0 {
                assert(after.len() == 1);
            }
            assert(r@ =~= joined(after));
        }
        i = i + 1;
    }
    assert(moves@.take(moves@.len() as int) =~= moves@);
    r
}

fn copy_text(o: &Option<String>) -> (r: Option<String>)
    ensures
        text_view(r) == text_view(*o),
{
    match o {
        Some(s) => Some(s.clone()),
        None => None,
    }
}

impl Database {
    /// Binary search of the name index: the position of the name, or where
    /// it would go.
    fn locate(&self, name: &String) -> (r: Result<usize, usize>)
        requires
            self.index_wf(),
        ensures
            match r {
                Ok(k) => k < self.by_name@.len() && self.players@[self.by_name@[k as int] as int].name@ == name@,
                Err(lo) => {
                    &&& lo <= self.by_name@.len()
                    &&& forall|k: int| 0 <= k < lo ==> bytes_after(
                        vstd::utf8::encode_utf8(name@),
                        name_key(self.players@[#[trigger] self.by_name@[k] as int]),
                    )
                    &&& forall|k: int| lo <= k < self.by_name@.len() ==> bytes_after(
                        name_key(self.players@[#[trigger] self.by_name@[k] as int]),
                        vstd::utf8::encode_utf8(name@),
                    )
                    &&& forall|i: int| 0 <= i < self.players@.len() ==> #[trigger] self.players@[i].name@ != name@
                },
            },
    {
        let key = name.as_str().as_bytes();
        let ghost t = vstd::utf8::encode_utf8(name@);
        assert(key@ == t);
        let mut lo: usize = 0;
        let mut hi: usize = self.by_name.len();
        while lo < hi
            invariant
                self.index_wf(),
                key@ == t,
                t == vstd::utf8::encode_utf8(name@),
                lo <= hi <= self.by_name@.len(),
                forall|k: int| 0 <= k < lo ==> bytes_after(t, name_key(self.players@[#[trigger] self.by_name@[k] as int])),
                forall|k: int| hi <= k < self.by_name@.len() ==> bytes_after(
                    name_key(self.players@[#[trigger] self.by_name@[k] as int]),
                    t,
                ),
            decreases hi - lo,
        {
            let mid = lo + (hi - lo) / 2;
            let j = self.by_name[mid];
            let mk = self.players[j].name.as_str().as_bytes();
            let ghost m = name_key(self.players@[j as int]);
            assert(mk@ == m);
            if same_bytes(mk, key) {
                proof {
                    assert(m == t);
                    vstd::utf8::encode_utf8_decode_utf8(name@);
                    vstd::utf8::encode_utf8_decode_utf8(self.players@[j as int].name@);
                    assert(vstd::utf8::decode_utf8(m) == self.players@[j as int].name@);
                    assert(vstd::utf8::decode_utf8(t) == name@);
                    assert(j == self.by_name@[mid as int]);
                }
                return Ok(mid);
            }
            proof {
                lemma_bytes_after_total(t, m);
            }
            if bytes_after_exec(key, mk) {
                proof {
                    assert forall|k: int| 0 <= k < mid + 1 implies bytes_after(
                        t,
                        name_key(self.players@[#[trigger] self.by_name@[k] as int]),
                    ) by {
                        if k < mid {
                            assert(bytes_after(m, name_key(self.players@[self.by_name@[k] as int])));
                            lemma_bytes_after_transitive(t, m, name_key(self.players@[self.by_name@[k] as int]));
                        }
                    }
                }
                lo = mid + 1;
            } else {
                proof {
                    assert forall|k: int| mid <= k < self.by_name@.len() implies bytes_after(
                        name_key(self.players@[#[trigger] self.by_name@[k] as int]),
                        t,
                    ) by {
                        if k > mid {
                            assert(bytes_after(name_key(self.players@[self.by_name@[k] as int]), m));
                            lemma_bytes_after_transitive(name_key(self.players@[self.by_name@[k] as int]), m, t);
                        }
                    }
                }
                hi = mid;
            }
        }
        proof {
            assert forall|i: int| 0 <= i < self.players@.len() implies #[trigger] self.players@[i].name@ != name@ by {
                assert(indexed(self.by_name@, i));
                let k = choose|k: int| 0 <= k < self.by_name@.len() && #[trigger] self.by_name@[k] == i;
                let pk = name_key(self.players@[i]);
                if k < lo {
                    assert(bytes_after(t, name_key(self.players@[self.by_name@[k] as int])));
                    lemma_bytes_after_asymmetric(t, pk);
                } else {
                    assert(bytes_after(name_key(self.players@[self.by_name@[k] as int]), t));
                    lemma_bytes_after_asymmetric(pk, t);
                }
            }
        }
        Err(lo)
    }

    /// The index of the player with this name, if one is stored.
    pub fn find_player(&self, name: &String) -> (r: Option<usize>)
        requires
            self.index_wf(),
        ensures
            match r {
                Some(i) => i < self.players@.len() && self.players@[i as int].name@ == name@,
                None => forall|i: int| 0 <= i < self.players@.len() ==> #[trigger] self.players@[i].name@ != name@,
            },
    {
        match self.locate(name) {
            Ok(k) => Some(self.by_name[k]),
            Err(_) => None,
        }
    }

    /// The id of the player with this name, stored first with a zero counter
    /// when absent.
    fn get_or_create_player(&mut self, name: &String) -> (r: i64)
        requires
            old(self).wf_tables(),
            old(self).players@.len() < MAX_ROWS,
        ensures
            final(self).wf_tables(),
            final(self).games@ == old(self).games@,
            side_id(final(self).players@, r as int, Some(name@)),
            old(self).players@.len() <= final(self).players@.len() <= old(self).players@.len() + 1,
            forall|i: int| 0 <= i < old(self).players@.len() ==> final(self).players@[i] == old(self).players@[i],
            final(self).name_set() == old(self).name_set().insert(name@),
            final(self).players@.len() > old(self).players@.len() ==> r == final(self).players@.len(),
            player_names(final(self).players@) == add_name(player_names(old(self).players@), Some(name@)),
    {
        match self.locate(name) {
            Ok(k) => {
                let i = self.by_name[k];
                assert(player_names(self.players@)[i as int] == name@);
                assert(self.name_set() =~= self.name_set().insert(name@)) by {
                    assert(self.name_set().contains(name@));
                }
                self.players[i].id
            },
            Err(lo) => {
                let id = (self.players.len() + 1) as i64;
                let ghost old_games = self.games@;
                proof {
                    assert forall|k: int| 0 <= k < old_games.len() implies #[trigger] old_games[k].white != id && old_games[k].black != id by {
                        assert(0 <= old_games[k].white <= self.players@.len());
                    }
                    lemma_appearances_absent(old_games, id as int);
                }
                let ghost old_set = self.name_set();
                let ghost old_names = player_names(self.players@);
                assert(!old_names.contains(name@)) by {
                    if old_names.contains(name@) {
                        let j = choose|j: int| 0 <= j < old_names.len() && old_names[j] == name@;
                        assert(self.players@[j].name@ != name@);
                    }
                }
                let np = Player { id, name: name.clone(), rating: None, game_count: 0 };
                let n = self.players.len();
                proof {
                    lemma_index_insert(self.players@, self.by_name@, np, lo as int);
                }
                self.players.push(np);
                self.by_name.insert(lo, n);
                proof {
                    let last = self.players@.len() - 1;
                    assert(self.players@[last].name@ == name@);
                    assert(player_names(self.players@) =~= old_names.push(name@));
                    assert(self.name_set() =~= old_set.insert(name@)) by {
                        assert forall|n: Seq<char>| self.name_set().contains(n) implies old_set.insert(name@).contains(n) by {
                            let j = choose|j: int| 0 <= j < self.players@.len() && #[trigger] self.players@[j].name@ == n;
                            if j < last {
                                assert(old_set.contains(n));
                            }
                        }
                        assert forall|n: Seq<char>| old_set.insert(name@).contains(n) implies self.name_set().contains(n) by {
                            if n == name@ {
                                assert(self.players@[last].name@ == n);
                            } else {
                                let j = choose|j: int| 0 <= j < last && #[trigger] old(self).players@[j].name@ == n;
                                assert(self.players@[j].name@ == n);
                            }
                        }
                    }
                }
                id
            },
        }
    }

    /// Appends a game row and adds one to the counter of each side it names.
    #[verifier::spinoff_prover]
    fn append_game(&mut self, g: Game)
        requires
            old(self).wf_tables(),
            old(self).games@.len() + 1 <= MAX_ROWS,
            g.id == old(self).games@.len() + 1,
            0 <= g.white <= old(self).players@.len(),
            0 <= g.black <= old(self).players@.len(),
            1 <= g.outcome <= 3,
        ensures
            final(self).wf_tables(),
            final(self).games@ == old(self).games@.push(g),
            final(self).players@.len() == old(self).players@.len(),
            forall|i: int| 0 <= i < old(self).players@.len() ==> #[trigger] final(self).players@[i].name
                == old(self).players@[i].name && final(self).players@[i].id == old(self).players@[i].id,
            player_names(final(self).players@) == player_names(old(self).players@),
    {
        let ghost g0 = self.games@;
        let ghost p0 = self.players@;
        proof {
            lemma_appearances_bound(g0, g.white as int);
            lemma_appearances_bound(g0, g.black as int);
        }
        let white = g.white;
        let black = g.black;
        let ghost gg = g;
        self.pending.push(g);
        self.games = Ghost(self.games@.push(gg));
        self.game_total = self.game_total + 1;
        assert(self.pending@ =~= self.games@.subrange(
            self.games@.len() - self.pending@.len(),
            self.games@.len() as int,
        ));
        if white != 0 {
            let k = (white - 1) as usize;
            let c = self.players[k].game_count;
            self.players[k].game_count = c + 1;
        }
        if black != 0 {
            let k = (black - 1) as usize;
            let c = self.players[k].game_count;
            self.players[k].game_count = c + 1;
        }
        proof {
            let gs = self.games@;
            assert forall|i: int| 0 <= i < self.players@.len() implies #[trigger] self.players@[i].game_count
                == appearances(gs, i + 1) by {
                assert(p0[i].id == i + 1);
                lemma_appearances_push(g0, g, i + 1);
            }
            assert forall|i: int| 0 <= i < gs.len() implies 0 <= #[trigger] gs[i].white <= self.players@.len()
                && 0 <= gs[i].black <= self.players@.len() && gs[i].id == i + 1 && 1 <= gs[i].outcome <= 3 by {
                if i < g0.len() {
                    assert(gs[i] == g0[i]);
                    assert(0 <= old(self).games@[i].white <= p0.len());
                    assert(0 <= old(self).games@[i].black <= p0.len());
                    assert(old(self).games@[i].id == i + 1);
                    assert(1 <= old(self).games@[i].outcome <= 3);
                } else {
                    assert(gs[i] == g);
                }
            }
            assert forall|i: int| 0 <= i < self.players@.len() implies #[trigger] self.players@[i].id == i + 1 by {
                assert(p0[i].id == i + 1);
            }
            assert forall|i: int, j: int|
                0 <= i < self.players@.len() && 0 <= j < self.players@.len() && i != j
                    implies #[trigger] self.players@[i].name@ != #[trigger] self.players@[j].name@ by {
                assert(p0[i].name@ != p0[j].name@);
            }
            assert(player_names(self.players@) =~= player_names(p0));
            lemma_index_same_keys(p0, self.players@, self.by_name@);
        }
    }

    /// Stores one record: each named side is looked up by name or created,
    /// the game row is appended and each side's counter goes up by one.
    #[verifier::spinoff_prover]
    pub fn insert_record(&mut self, rec: &TempGame) -> (r: Result<(), StoreError>)
        requires
            old(self).wf(),
            persistable(rec@),
        ensures
            r is Err <==> old(self).players@.len() + 2 > MAX_ROWS || old(self).games@.len() + 1 > MAX_ROWS,
            r is Err ==> *final(self) == *old(self),
            r is Ok ==> {
                &&& final(self).wf()
                &&& final(self).games@.len() == old(self).games@.len() + 1
                &&& forall|i: int| 0 <= i < old(self).games@.len() ==> final(self).games@[i] == old(self).games@[i]
                &&& stores(final(self).players@, final(self).games@.last(), rec@)
                &&& old(self).players@.len() <= final(self).players@.len() <= old(self).players@.len() + 2
                &&& forall|i: int| 0 <= i < old(self).players@.len() ==> #[trigger] final(self).players@[i].name@ == old(self).players@[i].name@
                &&& final(self).name_set() == old(self).name_set().union(record_names(rec@))
                &&& player_names(final(self).players@) == add_name(
                    add_name(player_names(old(self).players@), rec@.white.name),
                    rec@.black.name,
                )
            },
    {
        if self.players.len() + 2 > MAX_ROWS || self.game_total + 1 > MAX_ROWS {
            return Err(StoreError::TooManyRows);
        }
        let ghost p0 = self.players@;
        let ghost set0 = self.name_set();
        let white: i64 = match &rec.white.name {
            Some(n) => self.get_or_create_player(n),
            None => 0,
        };
        let ghost p1 = self.players@;
        assert(side_id(p1, white as int, rec@.white.name));
        assert(player_names(p1) == add_name(player_names(p0), rec@.white.name));
        let black: i64 = match &rec.black.name {
            Some(n) => self.get_or_create_player(n),
            None => 0,
        };
        let ghost p2 = self.players@;
        assert(player_names(p2) == add_name(player_names(p1), rec@.black.name));
        proof {
            if white != 0 {
                assert(p2[white - 1] == p1[white - 1]);
            }
        }
        assert(side_id(p2, white as int, rec@.white.name));
        assert(self.name_set() =~= set0.union(record_names(rec@)));
        let outcome: u8 = match rec.outcome {
            Some(o) => o.code(),
            None => 1,
        };
        let date = match &rec.date {
            Some(d) => d.clone(),
            None => String::from_str("????.??.??"),
        };
        let g = Game {
            id: (self.game_total + 1) as i64,
            white,
            black,
            white_rating: rec.white.rating,
            black_rating: rec.black.rating,
            date,
            speed: rec.speed,
            site: copy_text(&rec.site),
            fen: copy_text(&rec.fen),
            outcome,
            moves: join_moves(&rec.moves),
        };
        let ghost g0 = self.games@;
        let ghost set2 = self.name_set();
        self.append_game(g);
        proof {
            let gs = self.games@;
            if white != 0 {
                assert(self.players@[white - 1].name == p2[white - 1].name);
            }
            if black != 0 {
                assert(self.players@[black - 1].name == p2[black - 1].name);
            }
            assert(stores(self.players@, gs.last(), rec@));
            assert forall|i: int| 0 <= i < p0.len() implies #[trigger] self.players@[i].name@ == p0[i].name@ by {
                assert(self.players@[i].name == p2[i].name);
                assert(p2[i] == p1[i]);
            }
            assert forall|j: int| 1 <= j <= p0.len() implies #[trigger] appearances(g0, j) > 0 by {
                assert(old(self).players@[j - 1].id == j);
            }
            lemma_still_played(g0, g, p0.len() as int, self.players@.len() as int);
            assert forall|i: int| 0 <= i < self.players@.len() implies appearances(self.games@, i + 1) > 0
                && #[trigger] self.players@[i].id == i + 1 by {
                assert(appearances(g0.push(g), i + 1) > 0);
            }
            assert(self.name_set() =~= set2) by {
                assert forall|n: Seq<char>| #[trigger] self.name_set().contains(n) <==> set2.contains(n) by {
                    if self.name_set().contains(n) {
                        let j = choose|j: int| 0 <= j < self.players@.len() && #[trigger] self.players@[j].name@ == n;
                        assert(p2[j].name@ == n);
                    }
                    if set2.contains(n) {
                        let j = choose|j: int| 0 <= j < p2.len() && #[trigger] p2[j].name@ == n;
                        assert(self.players@[j].name@ == n);
                    }
                }
            }
        }
        Ok(())
    }

    /// Stores a batch of records in order; stops at the first record that
    /// does not fit.
    pub fn insert_batch(&mut self, batch: Vec<TempGame>) -> (r: Result<(), StoreError>)
        requires
            old(self).wf(),
            forall|k: int| 0 <= k < batch@.len() ==> persistable(#[trigger] batch@[k]@),
        ensures
            final(self).wf(),
            old(self).games@.len() + batch@.len() + 1 <= MAX_ROWS && old(self).players@.len() + 2 * batch@.len()
                + 2 <= MAX_ROWS ==> r is Ok,
            r is Ok ==> batch_stored(*old(self), *final(self), models(batch@)),
            r is Ok ==> player_names(final(self).players@) == names_after(
                player_names(old(self).players@),
                models(batch@),
            ),
            stored_prefix(*old(self), *final(self), models(batch@)),
    {
        let ghost start_games = self.games@;
        let ghost start_players = self.players@;
        let ghost start_set = self.name_set();
        let mut i: usize = 0;
        while i < batch.len()
            invariant
                self.wf(),
                start_games == old(self).games@,
                start_players == old(self).players@,
                forall|k: int| 0 <= k < batch@.len() ==> persistable(#[trigger] batch@[k]@),
                i <= batch@.len(),
                self.games@.len() == start_games.len() + i,
                self.players@.len() <= start_players.len() + 2 * i,
                start_players.len() <= self.players@.len(),
                forall|j: int| 0 <= j < start_games.len() ==> self.games@[j] == start_games[j],
                forall|j: int| 0 <= j < start_players.len() ==> #[trigger] self.players@[j].name@ == start_players[j].name@,
                forall|k: int| 0 <= k < i ==> stores(
                    self.players@,
                    #[trigger] self.games@[start_games.len() + k],
                    batch@[k]@,
                ),
                self.name_set() == start_set.union(batch_names(models(batch@.take(i as int)))),
                start_set == old(self).name_set(),
                player_names(self.players@) == names_after(player_names(start_players), models(batch@).take(i as int)),
            decreases batch@.len() - i,
        {
            let ghost p_before = self.players@;
            let ghost g_before = self.games@;
            let ghost set_before = self.name_set();
            match self.insert_record(&batch[i]) {
                Ok(()) => {},
                Err(e) => {
                    proof {
                        lemma_prefix_stored(*old(self), *self, batch@, i as int);
                    }
                    return Err(e);
                },
            }
            proof {
                let mb = models(batch@);
                assert(mb.take(i + 1).drop_last() =~= mb.take(i as int));
                assert(mb.take(i + 1).last() == batch@[i as int]@);
                assert forall|k: int| 0 <= k < i + 1 implies stores(
                    self.players@,
                    #[trigger] self.games@[start_games.len() + k],
                    batch@[k]@,
                ) by {
                    if k < i {
                        assert(self.games@[start_games.len() + k] == g_before[start_games.len() + k]);
                        lemma_stores_extend(p_before, self.players@, g_before[start_games.len() + k], batch@[k]@);
                    } else {
                        assert(self.games@[start_games.len() + k] == self.games@.last());
                    }
                }
                assert forall|j: int| 0 <= j < start_players.len() implies #[trigger] self.players@[j].name@ == start_players[j].name@ by {
                    assert(self.players@[j].name@ == p_before[j].name@);
                }
                let before = models(batch@.take(i as int));
                let after = models(batch@.take(i + 1));
                assert(batch_names(after) =~= batch_names(before).union(record_names(batch@[i as int]@))) by {
                    assert forall|n: Seq<char>| #[trigger] batch_names(after).contains(n) implies batch_names(before).union(record_names(batch@[i as int]@)).contains(n) by {
                        let k = choose|k: int| 0 <= k < after.len() && #[trigger] record_names(after[k]).contains(n);
                        if k < i {
                            assert(record_names(before[k]).contains(n));
                        }
                    }
                    assert forall|n: Seq<char>| batch_names(before).union(record_names(batch@[i as int]@)).contains(n) implies #[trigger] batch_names(after).contains(n) by {
                        if batch_names(before).contains(n) {
                            let k = choose|k: int| 0 <= k < before.len() && #[trigger] record_names(before[k]).contains(n);
                            assert(after[k] == before[k]);
                            assert(record_names(after[k]).contains(n));
                        } else {
                            assert(after[i as int] == batch@[i as int]@);
                            assert(record_names(after[i as int]).contains(n));
                        }
                    }
                }
                assert(self.name_set() =~= start_set.union(batch_names(after)));
            }
            i = i + 1;
        }
        assert(batch@.take(batch@.len() as int) =~= batch@);
        assert(models(batch@).take(batch@.len() as int) =~= models(batch@));
        proof {
            lemma_prefix_stored(*old(self), *self, batch@, i as int);
        }
        Ok(())
    }
}

/// Storing records in two batches appends the same names, in the same order,
/// as storing them in one: the batch size does not change which ids players get.
pub proof fn lemma_names_after_split(s: Seq<Seq<char>>, a: Seq<GameModel>, b: Seq<GameModel>)
    ensures
        names_after(s, a + b) == names_after(names_after(s, a), b),
    decreases b.len(),
{
    if b.len() == 0 {
        assert(a + b =~= a);
    } else {
        assert((a + b).drop_last() =~= a + b.drop_last());
        assert((a + b).last() == b.last());
        lemma_names_after_split(s, a, b.drop_last());
    }
}

/// The loop state of `insert_batch` after `i` records says that the first
/// `i` records are stored.
pub proof fn lemma_prefix_stored(before: Database, after: Database, batch: Seq<TempGame>, i: int)
    requires
        0 <= i <= batch.len(),
        after.games@.len() == before.games@.len() + i,
        forall|j: int| 0 <= j < before.games@.len() ==> after.games@[j] == before.games@[j],
        forall|k: int| 0 <= k < i ==> stores(
            after.players@,
            #[trigger] after.games@[before.games@.len() + k],
            batch[k]@,
        ),
        after.name_set() == before.name_set().union(batch_names(models(batch.take(i)))),
        player_names(after.players@) == names_after(player_names(before.players@), models(batch).take(i)),
    ensures
        stored_prefix(before, after, models(batch)),
        batch_stored(before, after, models(batch).take(i)),
{
    let b = models(batch).take(i);
    assert(models(batch.take(i)) =~= b);
    assert forall|k: int| 0 <= k < b.len() implies stores(
        after.players@,
        #[trigger] after.games@[before.games@.len() + k],
        b[k],
    ) by {
        assert(b[k] == batch[k]@);
    }
}

/// Stored rows keep describing their records when players are appended.
pub proof fn lemma_stores_extend(pa: Seq<Player>, pb: Seq<Player>, g: Game, r: GameModel)
    requires
        pa.len() <= pb.len(),
        forall|i: int| 0 <= i < pa.len() ==> #[trigger] pb[i].name@ == pa[i].name@,
        stores(pa, g, r),
    ensures
        stores(pb, g, r),
{
    if g.white != 0 {
        assert(pb[g.white - 1].name@ == pa[g.white - 1].name@);
    }
    if g.black != 0 {
        assert(pb[g.black - 1].name@ == pa[g.black - 1].name@);
    }
}

/// Every player's counter equals the number of sides it occupies among the
/// stored games.
pub proof fn lemma_game_count_is_appearances(db: &Database, i: int)
    requires
        db.wf(),
        0 <= i < db.players@.len(),
    ensures
        db.players@[i].game_count == appearances(db.games@, db.players@[i].id as int),
{
    assert(db.players@[i].id == i + 1);
}

/// Every stored outcome code is 1, 2 or 3.
pub proof fn lemma_outcome_codes(db: &Database, i: int)
    requires
        db.wf(),
        0 <= i < db.games@.len(),
    ensures
        db.games@[i].outcome == 1 || db.games@[i].outcome == 2 || db.games@[i].outcome == 3,
{
    assert(1 <= db.games@[i].outcome <= 3);
}

/// There is exactly one player row per distinct stored name.
pub proof fn lemma_player_count(db: &Database)
    requires
        db.wf(),
    ensures
        db.name_set().finite(),
        db.players@.len() == db.name_set().len(),
{
    let names = db.players@.map_values(|p: Player| p.name@);
    assert forall|i: int, j: int| 0 <= i < names.len() && 0 <= j < names.len() && i != j implies names[i] != names[j] by {
        assert(db.players@[i].name@ != db.players@[j].name@);
    }
    assert(names.no_duplicates());
    assert(names.to_set() =~= db.name_set()) by {
        assert forall|n: Seq<char>| #[trigger] db.name_set().contains(n) implies names.to_set().contains(n) by {
            let j = choose|j: int| 0 <= j < db.players@.len() && #[trigger] db.players@[j].name@ == n;
            assert(names[j] == n);
        }
        assert forall|n: Seq<char>| #[trigger] names.to_set().contains(n) implies db.name_set().contains(n) by {
            let j = choose|j: int| 0 <= j < names.len() && names[j] == n;
            assert(db.players@[j].name@ == n);
        }
    }
    names.unique_seq_to_set();
}

/// Ingesting a batch into an empty database stores one player per distinct
/// name among its records, so ingesting the same records again into another
/// empty database gives the same number of players.
pub proof fn lemma_fresh_ingest_player_count(
    before: &Database,
    after: &Database,
    batch: Seq<TempGame>,
)
    requires
        before.wf(),
        before.players@.len() == 0,
        after.wf(),
        after.name_set() == before.name_set().union(batch_names(models(batch))),
    ensures
        batch_names(models(batch)).finite(),
        after.players@.len() == batch_names(models(batch)).len(),
{
    assert(before.name_set() =~= Set::empty());
    assert(after.name_set() =~= batch_names(models(batch)));
    lemma_player_count(after);
}

/// How many sides the records of `b` give to the name `n`.
pub open spec fn sides_named(b: Seq<GameModel>, n: Seq<char>) -> nat
    decreases b.len(),
{
    if b.len() == 0 {
        0
    } else {
        sides_named(b.drop_last(), n) + (if b.last().white.name == Some(n) {
            1nat
        } else {
            0nat
        }) + (if b.last().black.name == Some(n) {
            1nat
        } else {
            0nat
        })
    }
}

pub proof fn lemma_appearances_concat(a: Seq<Game>, b: Seq<Game>, id: int)
    ensures
        appearances(a + b, id) == appearances(a, id) + appearances(b, id),
    decreases b.len(),
{
    if b.len() == 0 {
        assert(a + b =~= a);
    } else {
        assert((a + b).drop_last() =~= a + b.drop_last());
        assert((a + b).last() == b.last());
        lemma_appearances_concat(a, b.drop_last(), id);
    }
}

proof fn lemma_new_rows_count(ps: Seq<Player>, rows: Seq<Game>, b: Seq<GameModel>, i: int)
    requires
        rows.len() == b.len(),
        0 <= i < ps.len(),
        forall|k: int| 0 <= k < rows.len() ==> stores(ps, #[trigger] rows[k], b[k]),
        forall|x: int, y: int| 0 <= x < ps.len() && 0 <= y < ps.len() && x != y ==> #[trigger] ps[x].name@ != #[trigger] ps[y].name@,
    ensures
        appearances(rows, i + 1) == sides_named(b, ps[i].name@),
    decreases rows.len(),
{
    if rows.len() > 0 {
        let r0 = rows.drop_last();
        let b0 = b.drop_last();
        assert forall|k: int| 0 <= k < r0.len() implies stores(ps, #[trigger] r0[k], b0[k]) by {
            assert(r0[k] == rows[k] && b0[k] == b[k]);
        }
        lemma_new_rows_count(ps, r0, b0, i);
        let g = rows.last();
        assert(stores(ps, rows[rows.len() - 1], b[b.len() - 1]));
        let n = ps[i].name@;
        if g.white == i + 1 {
            assert(b.last().white.name == Some(n));
        } else if b.last().white.name == Some(n) {
            assert(ps[g.white - 1].name@ == n);
        }
        if g.black == i + 1 {
            assert(b.last().black.name == Some(n));
        } else if b.last().black.name == Some(n) {
            assert(ps[g.black - 1].name@ == n);
        }
    }
}

/// The names of two runs of records together are the names of each: storing
/// an archive batch by batch leaves the names of the whole archive.
pub proof fn lemma_batch_names_concat(a: Seq<GameModel>, b: Seq<GameModel>)
    ensures
        batch_names(a + b) == batch_names(a).union(batch_names(b)),
{
    let ab = a + b;
    assert forall|n: Seq<char>| #[trigger] batch_names(ab).contains(n) <==> batch_names(a).union(batch_names(b)).contains(n) by {
        if batch_names(ab).contains(n) {
            let k = choose|k: int| 0 <= k < ab.len() && #[trigger] record_names(ab[k]).contains(n);
            if k < a.len() {
                assert(ab[k] == a[k]);
                assert(batch_names(a).contains(n));
            } else {
                assert(ab[k] == b[k - a.len()]);
                assert(record_names(b[k - a.len()]).contains(n));
                assert(batch_names(b).contains(n));
            }
        }
        if batch_names(a).contains(n) {
            let k = choose|k: int| 0 <= k < a.len() && #[trigger] record_names(a[k]).contains(n);
            assert(ab[k] == a[k]);
            assert(record_names(ab[k]).contains(n));
        }
        if batch_names(b).contains(n) {
            let k = choose|k: int| 0 <= k < b.len() && #[trigger] record_names(b[k]).contains(n);
            assert(ab[a.len() + k] == b[k]);
            assert(record_names(ab[a.len() + k]).contains(n));
        }
    }
    assert(batch_names(ab) =~= batch_names(a).union(batch_names(b)));
}

/// An id beyond the player table is on no side of any stored game.
pub proof fn lemma_unreferenced(db: &Database, id: int)
    requires
        db.wf_tables(),
        id > db.players@.len(),
    ensures
        appearances(db.games@, id) == 0,
{
    let gs = db.games@;
    assert forall|k: int| 0 <= k < gs.len() implies #[trigger] gs[k].white != id && gs[k].black != id by {
        assert(0 <= gs[k].white <= db.players@.len());
    }
    lemma_appearances_absent(gs, id);
}

/// After a batch is stored, each player's counter is its counter before (0
/// for a new player) plus the number of sides the batch gives to its name.
pub proof fn lemma_counts_after_batch(before: &Database, after: &Database, b: Seq<GameModel>, i: int)
    requires
        before.wf(),
        after.wf(),
        batch_stored(*before, *after, b),
        before.players@.len() <= after.players@.len(),
        forall|j: int| 0 <= j < before.players@.len() ==> #[trigger] after.players@[j].name@ == before.players@[j].name@,
        0 <= i < after.players@.len(),
    ensures
        after.players@[i].game_count == (if i < before.players@.len() {
            before.players@[i].game_count as int
        } else {
            0
        }) + sides_named(b, after.players@[i].name@),
{
    let old_g = before.games@;
    let new_g = after.games@;
    let rows = new_g.subrange(old_g.len() as int, new_g.len() as int);
    assert(new_g =~= old_g + rows);
    lemma_appearances_concat(old_g, rows, i + 1);
    assert forall|k: int| 0 <= k < rows.len() implies stores(after.players@, #[trigger] rows[k], b[k]) by {
        assert(rows[k] == new_g[old_g.len() + k]);
    }
    lemma_new_rows_count(after.players@, rows, b, i);
    assert(after.players@[i].game_count == appearances(new_g, i + 1));
    if i < before.players@.len() {
        assert(before.players@[i].game_count == appearances(old_g, i + 1));
    } else {
        lemma_unreferenced(before, i + 1);
    }
}

} // verus!
