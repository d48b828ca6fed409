//! Reads over the stored tables: filtered, sorted and paginated games joined
//! with both players, a player listing, and per-player result tallies.
use vstd::prelude::*;
use vstd::string::{StringExecFns, StringSliceAdditionalSpecFns};
use crate::outcome::Outcome;
use crate::speed::Speed;
use crate::store::{Game, Player};
use crate::text::{
    ascii_of, bytes_after, bytes_after_exec, key_is, lemma_bytes_after_asymmetric, lemma_bytes_after_transitive,
};

verus! {

#[derive(Debug, Clone, Copy, PartialEq, Eq, Structural)]
pub enum Sides {
    BlackWhite,
    WhiteBlack,
    Any,
}

#[derive(Debug, Clone, Copy, PartialEq, Eq, Structural)]
pub enum Sort {
    Date,
    Rating,
    Speed,
    Outcome,
}

impl Sort {
    /// Parses a sort key name: `date`, `rating`, `speed` or `outcome`.
    pub fn from_str(s: &str) -> (r: Result<Sort, String>)
        ensures
            s.spec_bytes() == ascii_of("date"@) ==> r == Ok::<Sort, String>(Sort::Date),
            s.spec_bytes() == ascii_of("rating"@) ==> r == Ok::<Sort, String>(Sort::Rating),
            s.spec_bytes() == ascii_of("speed"@) ==> r == Ok::<Sort, String>(Sort::Speed),
            s.spec_bytes() == ascii_of("outcome"@) ==> r == Ok::<Sort, String>(Sort::Outcome),
            r matches Err(e) ==> e@ == "invalid sort: "@ + s@,
            r is Err <==> s.spec_bytes() != ascii_of("date"@) && s.spec_bytes() != ascii_of("rating"@)
                && s.spec_bytes() != ascii_of("speed"@) && s.spec_bytes() != ascii_of("outcome"@),
    {
        proof {
            reveal_strlit("date");
            reveal_strlit("rating");
            reveal_strlit("speed");
            reveal_strlit("outcome");
            assert(ascii_of("date"@).len() == 4);
            assert(ascii_of("rating"@).len() == 6);
            assert(ascii_of("speed"@).len() == 5);
            assert(ascii_of("outcome"@).len() == 7);
        }
        let b = s.as_bytes();
        if key_is(b, "date") {
            Ok(Sort::Date)
        } else if key_is(b, "rating") {
            Ok(Sort::Rating)
        } else if key_is(b, "speed") {
            Ok(Sort::Speed)
        } else if key_is(b, "outcome") {
            Ok(Sort::Outcome)
        } else {
            let mut e = String::from_str("invalid sort: ");
            e.append(s);
            Err(e)
        }
    }
}

/// A request for games. Only the first player, the speed and the outcome
/// filter rows; the other filters are accepted and not applied.
#[derive(Debug)]
pub struct GameQuery {
    pub skip_count: bool,
    pub player1: Option<String>,
    pub player2: Option<String>,
    pub range1: Option<(u16, u16)>,
    pub range2: Option<(u16, u16)>,
    pub sides: Option<Sides>,
    pub speed: Option<Speed>,
    pub outcome: Option<Outcome>,
    pub limit: Option<i64>,
    pub offset: Option<i64>,
    pub sort: Option<Sort>,
}

#[derive(Debug)]
pub struct QueryResponse<T> {
    pub data: T,
    pub count: Option<i64>,
}

#[derive(Debug)]
pub struct PlayerQuery {
    pub skip_count: bool,
    pub name: Option<String>,
    pub limit: Option<u64>,
    pub offset: Option<u64>,
}

#[derive(Debug, Clone, Copy, PartialEq, Eq, Structural)]
pub struct PlayerGameInfo {
    pub won: usize,
    pub lost: usize,
    pub draw: usize,
}

pub type Row = (Game, Player, Player);

/// The first player with this id.
pub open spec fn player_by_id(ps: Seq<Player>, id: int) -> Option<Player>
    decreases ps.len(),
{
    if ps.len() == 0 {
        None
    } else if ps[0].id == id {
        Some(ps[0])
    } else {
        player_by_id(ps.drop_first(), id)
    }
}

/// A joined row passes the filters of `q`.
pub open spec fn row_matches(g: Game, w: Player, q: GameQuery) -> bool {
    &&& (q.player1 matches Some(n) ==> w.name@ == n@)
    &&& (q.speed matches Some(s) ==> g.speed == Some(s))
    &&& (q.outcome matches Some(o) ==> g.outcome == o.spec_code())
}

/// The games, in stored order, whose two players exist and that pass the
/// filters, each joined with its white and black player.
pub open spec fn matching(games: Seq<Game>, ps: Seq<Player>, q: GameQuery) -> Seq<Row>
    decreases games.len(),
{
    if games.len() == 0 {
        Seq::empty()
    } else {
        let rest = matching(games.drop_last(), ps, q);
        let g = games.last();
        match (player_by_id(ps, g.white as int), player_by_id(ps, g.black as int)) {
            (Some(w), Some(b)) => if row_matches(g, w, q) {
                rest.push((g, w, b))
            } else {
                rest
            },
            _ => rest,
        }
    }
}

/// The larger of the two ratings; a missing rating makes the key missing,
/// which ranks below every rating.
pub open spec fn rating_key(g: Game) -> int {
    match (g.white_rating, g.black_rating) {
        (Some(a), Some(b)) => if a >= b {
            a as int
        } else {
            b as int
        },
        _ => i32::MIN - 1,
    }
}

pub open spec fn speed_key(g: Game) -> int {
    match g.speed {
        Some(s) => s.ordinal(),
        None => -1,
    }
}

/// `a` ranks strictly before `b` in the descending order of `sort`.
pub open spec fn ranks_before(a: Game, b: Game, sort: Option<Sort>) -> bool {
    match sort {
        None => false,
        Some(Sort::Date) => bytes_after(vstd::utf8::encode_utf8(a.date@), vstd::utf8::encode_utf8(b.date@)),
        Some(Sort::Rating) => rating_key(a) > rating_key(b),
        Some(Sort::Speed) => speed_key(a) > speed_key(b),
        Some(Sort::Outcome) => a.outcome > b.outcome,
    }
}

/// Places `x` after every row that it does not rank before.
pub open spec fn sorted_insert(s: Seq<Row>, x: Row, sort: Option<Sort>) -> Seq<Row>
    decreases s.len(),
{
    if s.len() == 0 {
        seq![x]
    } else if ranks_before(x.0, s[0].0, sort) {
        seq![x] + s
    } else {
        seq![s[0]] + sorted_insert(s.drop_first(), x, sort)
    }
}

/// A stable descending sort: rows with equal keys keep their stored order.
pub open spec fn sort_rows(s: Seq<Row>, sort: Option<Sort>) -> Seq<Row>
    decreases s.len(),
{
    if s.len() == 0 {
        Seq::empty()
    } else {
        sorted_insert(sort_rows(s.drop_last(), sort), s.last(), sort)
    }
}

/// The rows left after skipping `offset` and keeping at most `limit`; a
/// missing or negative offset skips nothing, a missing or negative limit
/// keeps everything.
pub open spec fn page<T>(s: Seq<T>, limit: Option<int>, offset: Option<int>) -> Seq<T> {
    let start = match offset {
        Some(o) => if o <= 0 {
            0
        } else if o >= s.len() {
            s.len() as int
        } else {
            o
        },
        None => 0,
    };
    let rest = s.skip(start);
    match limit {
        Some(l) => if l < 0 || l >= rest.len() {
            rest
        } else {
            rest.take(l)
        },
        None => rest,
    }
}

pub open spec fn opt_int_i128(o: Option<i128>) -> Option<int> {
    match o {
        Some(v) => Some(v as int),
        None => None,
    }
}

pub open spec fn opt_int_i64(o: Option<i64>) -> Option<int> {
    match o {
        Some(v) => Some(v as int),
        None => None,
    }
}

pub open spec fn opt_int_u64(o: Option<u64>) -> Option<int> {
    match o {
        Some(v) => Some(v as int),
        None => None,
    }
}

/// The rows a game query returns.
pub open spec fn game_page(games: Seq<Game>, ps: Seq<Player>, q: GameQuery) -> Seq<Row> {
    page(sort_rows(matching(games, ps, q), q.sort), opt_int_i64(q.limit), opt_int_i64(q.offset))
}

/// The count a game query returns.
pub open spec fn game_count(games: Seq<Game>, ps: Seq<Player>, q: GameQuery) -> Option<int> {
    if q.skip_count {
        None
    } else {
        Some(matching(games, ps, q).len() as int)
    }
}

pub proof fn lemma_sorted_insert_len(s: Seq<Row>, x: Row, sort: Option<Sort>)
    ensures
        sorted_insert(s, x, sort).len() == s.len() + 1,
    decreases s.len(),
{
    if s.len() > 0 && !ranks_before(x.0, s[0].0, sort) {
        lemma_sorted_insert_len(s.drop_first(), x, sort);
    }
}

/// Sorting keeps the number of rows.
pub proof fn lemma_sort_len(s: Seq<Row>, sort: Option<Sort>)
    ensures
        sort_rows(s, sort).len() == s.len(),
    decreases s.len(),
{
    if s.len() > 0 {
        lemma_sort_len(s.drop_last(), sort);
        lemma_sorted_insert_len(sort_rows(s.drop_last(), sort), s.last(), sort);
    }
}

/// Inserting at the first row that `x` ranks before.
pub proof fn lemma_sorted_insert_at(s: Seq<Row>, x: Row, sort: Option<Sort>, p: int)
    requires
        0 <= p <= s.len(),
        forall|j: int| 0 <= j < p ==> !ranks_before(x.0, #[trigger] s[j].0, sort),
        p == s.len() || ranks_before(x.0, s[p].0, sort),
    ensures
        sorted_insert(s, x, sort) == s.take(p).push(x) + s.skip(p),
    decreases p,
{
    if s.len() == 0 {
        assert(s.take(p).push(x) + s.skip(p) =~= seq![x]);
    } else if p == 0 {
        assert(s.take(p).push(x) + s.skip(p) =~= seq![x] + s);
    } else {
        let t = s.drop_first();
        assert forall|j: int| 0 <= j < p - 1 implies !ranks_before(x.0, #[trigger] t[j].0, sort) by {
            assert(t[j] == s[j + 1]);
        }
        assert(!ranks_before(x.0, s[0].0, sort));
        if p < s.len() {
            assert(t[p - 1] == s[p]);
        }
        lemma_sorted_insert_at(t, x, sort, p - 1);
        assert(seq![s[0]] + (t.take(p - 1).push(x) + t.skip(p - 1)) =~= s.take(p).push(x) + s.skip(p));
    }
}

/// The index of the first player with this id.
pub fn find_player_by_id(ps: &Vec<Player>, id: i64) -> (r: Option<usize>)
    ensures
        match r {
            Some(i) => i < ps@.len() && player_by_id(ps@, id as int) == Some(ps@[i as int]),
            None => player_by_id(ps@, id as int) is None,
        },
{
    let mut i: usize = 0;
    assert(ps@.skip(0) =~= ps@);
    while i < ps.len()
        invariant
            i <= ps@.len(),
            player_by_id(ps@, id as int) == player_by_id(ps@.skip(i as int), id as int),
        decreases ps@.len() - i,
    {
        assert(ps@.skip(i as int)[0] == ps@[i as int]);
        if ps[i].id == id {
            return Some(i);
        }
        assert(ps@.skip(i as int).drop_first() =~= ps@.skip(i + 1));
        i = i + 1;
    }
    assert(ps@.skip(i as int).len() == 0);
    None
}

pub fn ranks_before_exec(a: &Game, b: &Game, sort: Option<Sort>) -> (r: bool)
    ensures
        r == ranks_before(*a, *b, sort),
{
    match sort {
        None => false,
        Some(Sort::Date) => bytes_after_exec(a.date.as_str().as_bytes(), b.date.as_str().as_bytes()),
        Some(Sort::Rating) => {
            let ka: i64 = match (a.white_rating, a.black_rating) {
                (Some(x), Some(y)) => if x >= y {
                    x as i64
                } else {
                    y as i64
                },
                _ => i32::MIN as i64 - 1,
            };
            let kb: i64 = match (b.white_rating, b.black_rating) {
                (Some(x), Some(y)) => if x >= y {
                    x as i64
                } else {
                    y as i64
                },
                _ => i32::MIN as i64 - 1,
            };
            ka > kb
        },
        Some(Sort::Speed) => {
            let ka: i16 = match a.speed {
                Some(s) => s.code() as i16,
                None => -1,
            };
            let kb: i16 = match b.speed {
                Some(s) => s.code() as i16,
                None => -1,
            };
            ka > kb
        },
        Some(Sort::Outcome) => a.outcome > b.outcome,
    }
}

/// The rows of `v` after skipping `offset` and keeping at most `limit`.
pub fn page_vec<T>(v: Vec<T>, limit: Option<i128>, offset: Option<i128>) -> (r: Vec<T>)
    ensures
        r@ == page(v@, opt_int_i128(limit), opt_int_i128(offset)),
{
    let ghost whole = v@;
    let mut v = v;
    let len = v.len();
    let start: usize = match offset {
        Some(o) => if o <= 0 {
            0
        } else if o >= len as i128 {
            len
        } else {
            o as usize
        },
        None => 0,
    };
    let mut rest = v.split_off(start);
    assert(rest@ =~= whole.skip(start as int));
    match limit {
        Some(l) => {
            if l >= 0 && l < rest.len() as i128 {
                rest.truncate(l as usize);
            }
        },
        None => {},
    }
    rest
}

fn passes(g: &Game, w: &Player, query: &GameQuery) -> (r: bool)
    ensures
        r == row_matches(*g, *w, *query),
{
    let p1 = match &query.player1 {
        Some(n) => w.name == *n,
        None => true,
    };
    let sp = match query.speed {
        Some(s) => match g.speed {
            Some(t) => s == t,
            None => false,
        },
        None => true,
    };
    let oc = match query.outcome {
        Some(o) => g.outcome == o.code(),
        None => true,
    };
    p1 && sp && oc
}

/// The games that pass the filters of `query`, joined with both players,
/// sorted and paginated, with the number of matching games unless the query
/// skips counting. The count is taken over the same filters and ignores the
/// pagination.
pub fn get_games(games: &Vec<Game>, players: &Vec<Player>, query: GameQuery) -> (r: QueryResponse<Vec<Row>>)
    requires
        games@.len() <= i64::MAX,
    ensures
        r.data@ == game_page(games@, players@, query),
        opt_int_i64(r.count) == game_count(games@, players@, query),
{
    let mut rows: Vec<Row> = Vec::new();
    let mut n: usize = 0;
    let mut i: usize = 0;
    while i < games.len()
        invariant
            i <= games@.len(),
            games@.len() <= i64::MAX,
            n <= i,
            n == matching(games@.take(i as int), players@, query).len(),
            rows@ == sort_rows(matching(games@.take(i as int), players@, query), query.sort),
        decreases games@.len() - i,
    {
        let ghost before = matching(games@.take(i as int), players@, query);
        assert(games@.take(i + 1).drop_last() =~= games@.take(i as int));
        let g = &games[i];
        match (find_player_by_id(players, g.white), find_player_by_id(players, g.black)) {
            (Some(wi), Some(bi)) => {
                if passes(g, &players[wi], &query) {
                    let row: Row = (g.copy(), players[wi].copy(), players[bi].copy());
                    let mut p: usize = 0;
                    while p < rows.len() && !ranks_before_exec(&row.0, &rows[p].0, query.sort)
                        invariant
                            p <= rows@.len(),
                            forall|j: int| 0 <= j < p ==> !ranks_before(row.0, #[trigger] rows@[j].0, query.sort),
                        decreases rows@.len() - p,
                    {
                        p = p + 1;
                    }
                    proof {
                        lemma_sorted_insert_at(rows@, row, query.sort, p as int);
                        assert(before.push(row).drop_last() =~= before);
                    }
                    rows.insert(p, row);
                    assert(rows@ =~= sorted_insert(sort_rows(before, query.sort), row, query.sort));
                    n = n + 1;
                }
            },
            _ => {},
        }
        i = i + 1;
    }
    assert(games@.take(games@.len() as int) =~= games@);
    let count: Option<i64> = if query.skip_count {
        None
    } else {
        Some(n as i64)
    };
    let limit: Option<i128> = match query.limit {
        Some(l) => Some(l as i128),
        None => None,
    };
    let offset: Option<i128> = match query.offset {
        Some(o) => Some(o as i128),
        None => None,
    };
    let data = page_vec(rows, limit, offset);
    QueryResponse { data, count }
}

/// The count of a query equals the number of rows the same query returns
/// without pagination.
pub proof fn lemma_count_matches_unpaged(games: Seq<Game>, ps: Seq<Player>, q: GameQuery)
    requires
        !q.skip_count,
    ensures
        game_count(games, ps, q) == Some(game_page(games, ps, GameQuery { limit: None, offset: None, ..q }).len() as int),
{
    let u = GameQuery { limit: None, offset: None, ..q };
    assert(matching(games, ps, u) == matching(games, ps, q)) by {
        lemma_matching_ignores_page(games, ps, q, u);
    }
    lemma_sort_len(matching(games, ps, q), q.sort);
    let s = sort_rows(matching(games, ps, q), q.sort);
    assert(s.skip(0) =~= s);
}

pub proof fn lemma_matching_ignores_page(games: Seq<Game>, ps: Seq<Player>, q: GameQuery, u: GameQuery)
    requires
        u.player1 == q.player1,
        u.speed == q.speed,
        u.outcome == q.outcome,
    ensures
        matching(games, ps, u) == matching(games, ps, q),
    decreases games.len(),
{
    if games.len() > 0 {
        lemma_matching_ignores_page(games.drop_last(), ps, q, u);
    }
}

pub open spec fn ascii_lower(b: u8) -> u8 {
    if 65 <= b <= 90 {
        (b + 32) as u8
    } else {
        b
    }
}

/// `needle` occurs in `hay` at `k`, ignoring ASCII case.
pub open spec fn occurs_at(hay: Seq<u8>, needle: Seq<u8>, k: int) -> bool {
    &&& 0 <= k
    &&& k + needle.len() <= hay.len()
    &&& forall|j: int| 0 <= j < needle.len() ==> ascii_lower(#[trigger] hay[k + j]) == ascii_lower(needle[j])
}

pub open spec fn contains_ignoring_case(hay: Seq<u8>, needle: Seq<u8>) -> bool {
    exists|k: int| occurs_at(hay, needle, k)
}

pub open spec fn name_passes(p: Player, q: PlayerQuery) -> bool {
    q.name matches Some(n) ==> contains_ignoring_case(
        vstd::utf8::encode_utf8(p.name@),
        vstd::utf8::encode_utf8(n@),
    )
}

/// The players, in stored order, whose name passes the filter of `q`.
pub open spec fn listed(ps: Seq<Player>, q: PlayerQuery) -> Seq<Player>
    decreases ps.len(),
{
    if ps.len() == 0 {
        Seq::empty()
    } else if name_passes(ps.last(), q) {
        listed(ps.drop_last(), q).push(ps.last())
    } else {
        listed(ps.drop_last(), q)
    }
}

fn contains_ignoring_case_exec(hay: &[u8], needle: &[u8]) -> (r: bool)
    ensures
        r == contains_ignoring_case(hay@, needle@),
{
    let hl = hay.len();
    let nl = needle.len();
    if nl > hl {
        assert forall|k: int| !occurs_at(hay@, needle@, k) by {}
        return false;
    }
    if nl == 0 {
        assert(occurs_at(hay@, needle@, 0));
        return true;
    }
    let last = hl - nl;
    let mut k: usize = 0;
    while k <= last
        invariant
            last == hay@.len() - needle@.len(),
            hl == hay@.len(),
            nl == needle@.len(),
            nl > 0,
            k <= last + 1,
            forall|m: int| 0 <= m < k ==> !occurs_at(hay@, needle@, m),
        decreases last + 1 - k,
    {
        let mut j: usize = 0;
        let mut same = true;
        while same && j < needle.len()
            invariant
                k <= last,
                last == hay@.len() - needle@.len(),
                k + needle@.len() <= hay@.len(),
                j <= needle@.len(),
                forall|t: int| 0 <= t < j ==> ascii_lower(#[trigger] hay@[k + t]) == ascii_lower(needle@[t]),
                !same ==> j < needle@.len() && ascii_lower(hay@[k + j]) != ascii_lower(needle@[j as int]),
                hl == hay@.len(),
                nl == needle@.len(),
                nl > 0,
            decreases needle@.len() - j + (if same {
                1int
            } else {
                0int
            }),
        {
            if ascii_lower_exec(hay[k + j]) != ascii_lower_exec(needle[j]) {
                same = false;
            } else {
                j = j + 1;
            }
        }
        if j == needle.len() {
            assert(occurs_at(hay@, needle@, k as int));
            return true;
        }
        k = k + 1;
    }
    assert forall|m: int| !occurs_at(hay@, needle@, m) by {
        if 0 <= m < k {
        }
    }
    false
}

fn ascii_lower_exec(b: u8) -> (r: u8)
    ensures
        r == ascii_lower(b),
{
    if 65 <= b && b <= 90 {
        b + 32
    } else {
        b
    }
}

fn name_passes_exec(p: &Player, q: &PlayerQuery) -> (r: bool)
    ensures
        r == name_passes(*p, *q),
{
    match &q.name {
        Some(n) => contains_ignoring_case_exec(p.name.as_str().as_bytes(), n.as_str().as_bytes()),
        None => true,
    }
}

/// The players whose name contains the query's name, ignoring ASCII case,
/// paginated, with the number of such players unless the query skips
/// counting. The count ignores the pagination.
pub fn get_players(players: &Vec<Player>, query: PlayerQuery) -> (r: QueryResponse<Vec<Player>>)
    requires
        players@.len() <= i64::MAX,
    ensures
        r.data@ == page(listed(players@, query), opt_int_u64(query.limit), opt_int_u64(query.offset)),
        opt_int_i64(r.count) == (if query.skip_count {
            None
        } else {
            Some(listed(players@, query).len() as int)
        }),
{
    let mut found: Vec<Player> = Vec::new();
    let mut i: usize = 0;
    while i < players.len()
        invariant
            i <= players@.len(),
            players@.len() <= i64::MAX,
            found@.len() <= i,
            found@ == listed(players@.take(i as int), query),
        decreases players@.len() - i,
    {
        assert(players@.take(i + 1).drop_last() =~= players@.take(i as int));
        if name_passes_exec(&players[i], &query) {
            found.push(players[i].copy());
        }
        i = i + 1;
    }
    assert(players@.take(players@.len() as int) =~= players@);
    let count: Option<i64> = if query.skip_count {
        None
    } else {
        Some(found.len() as i64)
    };
    let limit: Option<i128> = match query.limit {
        Some(l) => Some(l as i128),
        None => None,
    };
    let offset: Option<i128> = match query.offset {
        Some(o) => Some(o as i128),
        None => None,
    };
    let data = page_vec(found, limit, offset);
    QueryResponse { data, count }
}

pub open spec fn one_if(b: bool) -> nat {
    if b {
        1
    } else {
        0
    }
}

/// Games that player `id` won: as white with code 1, or as black with code 2.
pub open spec fn wins(games: Seq<Game>, id: int) -> nat
    decreases games.len(),
{
    if games.len() == 0 {
        0
    } else {
        let g = games.last();
        wins(games.drop_last(), id) + one_if(
            (g.white == id && g.outcome == 1) || (g.black == id && g.outcome == 2),
        )
    }
}

/// Games that player `id` lost: as white with code 2, or as black with code 1.
pub open spec fn losses(games: Seq<Game>, id: int) -> nat
    decreases games.len(),
{
    if games.len() == 0 {
        0
    } else {
        let g = games.last();
        losses(games.drop_last(), id) + one_if(
            (g.white == id && g.outcome == 2) || (g.black == id && g.outcome == 1),
        )
    }
}

/// Drawn games in which player `id` took either side.
pub open spec fn draws(games: Seq<Game>, id: int) -> nat
    decreases games.len(),
{
    if games.len() == 0 {
        0
    } else {
        let g = games.last();
        draws(games.drop_last(), id) + one_if((g.white == id || g.black == id) && g.outcome == 3)
    }
}

/// Tallies the wins, losses and draws of one player over all games.
pub fn get_players_game_info(games: &Vec<Game>, id: i64) -> (r: PlayerGameInfo)
    ensures
        r.won == wins(games@, id as int),
        r.lost == losses(games@, id as int),
        r.draw == draws(games@, id as int),
{
    let mut info = PlayerGameInfo { won: 0, lost: 0, draw: 0 };
    let mut i: usize = 0;
    while i < games.len()
        invariant
            i <= games@.len(),
            info.won == wins(games@.take(i as int), id as int),
            info.lost == losses(games@.take(i as int), id as int),
            info.draw == draws(games@.take(i as int), id as int),
            info.won <= i && info.lost <= i && info.draw <= i,
        decreases games@.len() - i,
    {
        assert(games@.take(i + 1).drop_last() =~= games@.take(i as int));
        let g = &games[i];
        let white = g.white == id;
        let black = g.black == id;
        if (white && g.outcome == 1) || (black && g.outcome == 2) {
            info.won = info.won + 1;
        }
        if (white && g.outcome == 2) || (black && g.outcome == 1) {
            info.lost = info.lost + 1;
        }
        if (white || black) && g.outcome == 3 {
            info.draw = info.draw + 1;
        }
        i = i + 1;
    }
    assert(games@.take(games@.len() as int) =~= games@);
    info
}

/// The sort order is transitive.
pub proof fn lemma_ranks_before_transitive(a: Game, b: Game, c: Game, sort: Option<Sort>)
    requires
        ranks_before(a, b, sort),
        ranks_before(b, c, sort),
    ensures
        ranks_before(a, c, sort),
{
    if sort == Some(Sort::Date) {
        lemma_bytes_after_transitive(
            vstd::utf8::encode_utf8(a.date@),
            vstd::utf8::encode_utf8(b.date@),
            vstd::utf8::encode_utf8(c.date@),
        );
    }
}

/// No row ranks before itself.
pub proof fn lemma_ranks_before_irreflexive(a: Game, sort: Option<Sort>)
    ensures
        !ranks_before(a, a, sort),
{
    let k = vstd::utf8::encode_utf8(a.date@);
    lemma_bytes_after_asymmetric(k, k);
}

/// Rows are in non-increasing order of the sort key: no row ranks before one
/// that precedes it.
pub open spec fn sorted_by(s: Seq<Row>, sort: Option<Sort>) -> bool {
    forall|i: int, j: int| 0 <= i < j < s.len() ==> !ranks_before(#[trigger] s[j].0, #[trigger] s[i].0, sort)
}

proof fn lemma_sorted_insert_is_insert(t: Seq<Row>, x: Row, sort: Option<Sort>) -> (p: int)
    ensures
        0 <= p <= t.len(),
        sorted_insert(t, x, sort) == t.insert(p, x),
    decreases t.len(),
{
    if t.len() == 0 {
        assert(seq![x] =~= t.insert(0, x));
        0
    } else if ranks_before(x.0, t[0].0, sort) {
        assert(seq![x] + t =~= t.insert(0, x));
        0
    } else {
        let q = lemma_sorted_insert_is_insert(t.drop_first(), x, sort);
        assert(seq![t[0]] + t.drop_first().insert(q, x) =~= t.insert(q + 1, x));
        q + 1
    }
}

proof fn lemma_sorted_insert_sorted(t: Seq<Row>, x: Row, sort: Option<Sort>)
    requires
        sorted_by(t, sort),
    ensures
        sorted_by(sorted_insert(t, x, sort), sort),
    decreases t.len(),
{
    let r = sorted_insert(t, x, sort);
    if t.len() == 0 {
    } else if ranks_before(x.0, t[0].0, sort) {
        assert forall|i: int, j: int| 0 <= i < j < r.len() implies !ranks_before(#[trigger] r[j].0, #[trigger] r[i].0, sort) by {
            if i == 0 {
                assert(r[j] == t[j - 1]);
                if j - 1 > 0 {
                    assert(!ranks_before(t[j - 1].0, t[0].0, sort));
                }
                if ranks_before(t[j - 1].0, x.0, sort) {
                    lemma_ranks_before_transitive(t[j - 1].0, x.0, t[0].0, sort);
                    lemma_ranks_before_irreflexive(t[0].0, sort);
                }
            } else {
                assert(r[i] == t[i - 1] && r[j] == t[j - 1]);
            }
        }
    } else {
        let rest = t.drop_first();
        assert forall|i: int, j: int| 0 <= i < j < rest.len() implies !ranks_before(#[trigger] rest[j].0, #[trigger] rest[i].0, sort) by {
            assert(rest[i] == t[i + 1] && rest[j] == t[j + 1]);
        }
        lemma_sorted_insert_sorted(rest, x, sort);
        let u = sorted_insert(rest, x, sort);
        let p = lemma_sorted_insert_is_insert(rest, x, sort);
        assert forall|i: int, j: int| 0 <= i < j < r.len() implies !ranks_before(#[trigger] r[j].0, #[trigger] r[i].0, sort) by {
            if i == 0 {
                assert(r[0] == t[0]);
                assert(r[j] == u[j - 1]);
                let k = j - 1;
                if k < p {
                    assert(u[k] == rest[k]);
                    assert(rest[k] == t[k + 1]);
                } else if k == p {
                    assert(u[k] == x);
                } else {
                    assert(u[k] == rest[k - 1]);
                    assert(rest[k - 1] == t[k]);
                }
            } else {
                assert(r[i] == u[i - 1] && r[j] == u[j - 1]);
            }
        }
    }
}

/// Sorting orders the rows by the sort key, highest first, and keeps each
/// row exactly as often as it occurs.
pub proof fn lemma_sort_rows_sorted_permutation(s: Seq<Row>, sort: Option<Sort>)
    ensures
        sorted_by(sort_rows(s, sort), sort),
        sort_rows(s, sort).to_multiset() == s.to_multiset(),
    decreases s.len(),
{
    if s.len() > 0 {
        let d = s.drop_last();
        lemma_sort_rows_sorted_permutation(d, sort);
        let t = sort_rows(d, sort);
        lemma_sorted_insert_sorted(t, s.last(), sort);
        let p = lemma_sorted_insert_is_insert(t, s.last(), sort);
        vstd::seq_lib::to_multiset_insert(t, p, s.last());
        assert(d.push(s.last()) =~= s);
        vstd::seq_lib::to_multiset_build(d, s.last());
    } else {
        assert(s.to_multiset() =~= vstd::multiset::Multiset::empty()) by {
            broadcast use vstd::seq_lib::group_to_multiset_ensures;
        }
        assert(sort_rows(s, sort).to_multiset() =~= vstd::multiset::Multiset::empty()) by {
            broadcast use vstd::seq_lib::group_to_multiset_ensures;
        }
    }
}

} // verus!
