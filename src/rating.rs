//! The rating engine: each team's countable games, each with the scoring
//! baseline of the opponent drawn from the opponent's own schedule.
//!
//! A rating is a mean of fractions; it is stated here exactly, as a numerator
//! over a denominator. A game whose opponent has no countable game of its own
//! has no baseline: it is skipped, as if it had not been played.
use vstd::prelude::*;
use crate::schedule::{Competition, Competitor, Event, Team, TeamSchedule, find_schedule, known, schedule_index};

verus! {

pub open spec fn last_competition(e: Event) -> Option<Competition> {
    if e.competitions@.len() == 0 {
        None
    } else {
        Some(e.competitions@.last())
    }
}

/// The competitor that team `id` is: the first one if it carries that id,
/// else the second.
pub open spec fn own_side(c: Competition, id: Seq<char>) -> Competitor {
    if c.first.id@ == id {
        c.first
    } else {
        c.second
    }
}

/// The competitor that team `id` faces in `c`.
pub open spec fn other_side(c: Competition, id: Seq<char>) -> Competitor {
    if c.first.id@ == id {
        c.second
    } else {
        c.first
    }
}

/// What team `o` scored and allowed in game `e`, when the game counts toward
/// its baseline as the opponent of team `t`: the game is not against `t`, the
/// other side is known, and both scores are present.
pub open spec fn baseline_game(schedules: Seq<TeamSchedule>, o: Seq<char>, t: Seq<char>, e: Event) -> Option<(u32, u32)> {
    match last_competition(e) {
        None => None,
        Some(c) => {
            let me = own_side(c, o);
            let other = other_side(c, o);
            if other.id@ == t || !known(schedules, other.id@) {
                None
            } else {
                match (me.score, other.score) {
                    (Some(a), Some(b)) => Some((a, b)),
                    _ => None,
                }
            }
        },
    }
}

/// Totals of a team's baseline games: points scored, points allowed, games.
pub struct Totals {
    pub scored: int,
    pub allowed: int,
    pub games: int,
}

/// The baseline totals of team `o` over `events`, leaving out its games against `t`.
pub open spec fn baseline(schedules: Seq<TeamSchedule>, o: Seq<char>, t: Seq<char>, events: Seq<Event>) -> Totals
    decreases events.len(),
{
    if events.len() == 0 {
        Totals { scored: 0, allowed: 0, games: 0 }
    } else {
        let rest = baseline(schedules, o, t, events.drop_last());
        match baseline_game(schedules, o, t, events.last()) {
            Some((a, b)) => Totals { scored: rest.scored + a, allowed: rest.allowed + b, games: rest.games + 1 },
            None => rest,
        }
    }
}

/// One game that counts toward a team's rating: the team's score, the
/// opponent's score, and the opponent's baseline totals against everyone else.
pub struct CountedGame {
    pub scored: u32,
    pub allowed: u32,
    pub opponent_scored: u64,
    pub opponent_allowed: u64,
    pub opponent_games: u64,
}

/// The counted game of team `t` in `e`: the opponent is known, both scores
/// are present, and the opponent has a baseline of at least one game.
pub open spec fn counted_game(schedules: Seq<TeamSchedule>, t: Seq<char>, e: Event) -> Option<CountedGame> {
    match last_competition(e) {
        None => None,
        Some(c) => {
            let me = own_side(c, t);
            let opp = other_side(c, t);
            match find_schedule(schedules, opp.id@) {
                None => None,
                Some(oi) => match (me.score, opp.score) {
                    (Some(a), Some(b)) => {
                        let base = baseline(schedules, opp.id@, t, schedules[oi].events@);
                        if base.games == 0 {
                            None
                        } else {
                            Some(CountedGame {
                                scored: a,
                                allowed: b,
                                opponent_scored: base.scored as u64,
                                opponent_allowed: base.allowed as u64,
                                opponent_games: base.games as u64,
                            })
                        }
                    },
                    _ => None,
                },
            }
        },
    }
}

/// The counted games of team `t` over `events`, in order.
pub open spec fn counted_games(schedules: Seq<TeamSchedule>, t: Seq<char>, events: Seq<Event>) -> Seq<CountedGame>
    decreases events.len(),
{
    if events.len() == 0 {
        Seq::empty()
    } else {
        let rest = counted_games(schedules, t, events.drop_last());
        match counted_game(schedules, t, events.last()) {
            Some(g) => rest.push(g),
            None => rest,
        }
    }
}

/// Every schedule is short enough that its point totals fit in 64 bits.
pub open spec fn schedules_fit(schedules: Seq<TeamSchedule>) -> bool {
    forall|k: int| 0 <= k < schedules.len() ==> #[trigger] schedules[k].events@.len() <= u32::MAX
}

/// Which side of `c` team `id` is: true for the first.
fn is_first(c: &Competition, id: &String) -> (r: bool)
    ensures
        r == (c.first.id@ == id@),
{
    c.first.id == *id
}

/// The baseline totals of team `o` over its own `events`, against everyone but `t`.
fn baseline_totals(schedules: &Vec<TeamSchedule>, events: &Vec<Event>, o: &String, t: &String) -> (r: (u64, u64, u64))
    requires
        events@.len() <= u32::MAX,
    ensures
        r.0 as int == baseline(schedules@, o@, t@, events@).scored,
        r.1 as int == baseline(schedules@, o@, t@, events@).allowed,
        r.2 as int == baseline(schedules@, o@, t@, events@).games,
{
    let mut scored: u64 = 0;
    let mut allowed: u64 = 0;
    let mut games: u64 = 0;
    let mut i: usize = 0;
    while i < events.len()
        invariant
            i <= events@.len() <= u32::MAX,
            games <= i,
            scored <= games * (u32::MAX as int),
            allowed <= games * (u32::MAX as int),
            scored as int == baseline(schedules@, o@, t@, events@.subrange(0, i as int)).scored,
            allowed as int == baseline(schedules@, o@, t@, events@.subrange(0, i as int)).allowed,
            games as int == baseline(schedules@, o@, t@, events@.subrange(0, i as int)).games,
        decreases events@.len() - i,
    {
        let ghost prefix = events@.subrange(0, i + 1);
        assert(prefix.drop_last() =~= events@.subrange(0, i as int));
        let e = &events[i];
        let n = e.competitions.len();
        if n > 0 {
            let c = &e.competitions[n - 1];
            let (me, other) = if is_first(c, o) {
                (&c.first, &c.second)
            } else {
                (&c.second, &c.first)
            };
            if other.id != *t {
                if schedule_index(schedules, &other.id).is_some() {
                    if let (Some(a), Some(b)) = (me.score, other.score) {
                        proof {
                            assert(games + 1 <= u32::MAX);
                            assert((games + 1) * (u32::MAX as int) == games * (u32::MAX as int) + u32::MAX) by (nonlinear_arith);
                            assert((games + 1) * (u32::MAX as int) <= u32::MAX * (u32::MAX as int)) by (nonlinear_arith)
                                requires games + 1 <= u32::MAX;
                        }
                        scored = scored + a as u64;
                        allowed = allowed + b as u64;
                        games = games + 1;
                    }
                }
            }
        }
        i = i + 1;
    }
    assert(events@.subrange(0, events@.len() as int) =~= events@);
    (scored, allowed, games)
}

/// The counted game of team `t` in `e`, if the game counts.
fn counted_game_of(schedules: &Vec<TeamSchedule>, t: &String, e: &Event) -> (r: Option<CountedGame>)
    requires
        schedules_fit(schedules@),
    ensures
        r == counted_game(schedules@, t@, *e),
        r matches Some(g) ==> g.opponent_games > 0,
{
    let n = e.competitions.len();
    if n == 0 {
        return None;
    }
    let c = &e.competitions[n - 1];
    let (me, opp) = if is_first(c, t) {
        (&c.first, &c.second)
    } else {
        (&c.second, &c.first)
    };
    let oi = match schedule_index(schedules, &opp.id) {
        Some(oi) => oi,
        None => return None,
    };
    if let (Some(a), Some(b)) = (me.score, opp.score) {
        assert(schedules@[oi as int].events@.len() <= u32::MAX);
        let (scored, allowed, games) = baseline_totals(schedules, &schedules[oi].events, &opp.id, t);
        if games == 0 {
            None
        } else {
            Some(CountedGame {
                scored: a,
                allowed: b,
                opponent_scored: scored,
                opponent_allowed: allowed,
                opponent_games: games,
            })
        }
    } else {
        None
    }
}

/// A team's rating, as the counted games that it is the mean over.
pub struct TeamRating {
    pub team: Team,
    pub games: Vec<CountedGame>,
}

/// A team's rating in the abstract.
pub struct RatedTeam {
    pub team: Team,
    pub games: Seq<CountedGame>,
}

impl View for TeamRating {
    type V = RatedTeam;

    open spec fn view(&self) -> RatedTeam {
        RatedTeam { team: self.team, games: self.games@ }
    }
}

/// The rating of the team of `schedules[i]`; none when no game of it counts.
pub open spec fn rating_of(schedules: Seq<TeamSchedule>, i: int) -> Option<RatedTeam> {
    let games = counted_games(schedules, schedules[i].team.id@, schedules[i].events@);
    if games.len() == 0 {
        None
    } else {
        Some(RatedTeam { team: schedules[i].team, games })
    }
}

/// The ratings of the teams of the first `n` schedules that have one, in order.
pub open spec fn ratings_of(schedules: Seq<TeamSchedule>, n: int) -> Seq<RatedTeam>
    decreases n,
{
    if n <= 0 {
        Seq::empty()
    } else {
        match rating_of(schedules, n - 1) {
            Some(r) => ratings_of(schedules, n - 1).push(r),
            None => ratings_of(schedules, n - 1),
        }
    }
}

fn copy_team(team: &Team) -> (r: Team)
    ensures
        r == *team,
{
    Team { id: team.id.clone(), location: team.location.clone() }
}

/// Rates the team of `schedules[i]` against the teams of `schedules`, which are
/// the known teams. Each game counts when its opponent is known, both scores
/// are present and the opponent has a baseline: the opponent's games against
/// known teams other than this one, with both scores present.
pub fn rate_team(schedules: &Vec<TeamSchedule>, i: usize) -> (r: Option<TeamRating>)
    requires
        i < schedules@.len(),
        schedules_fit(schedules@),
    ensures
        match r {
            Some(tr) => rating_of(schedules@, i as int) == Some(tr@)
                && forall|k: int| 0 <= k < tr.games@.len() ==> #[trigger] tr.games@[k].opponent_games > 0,
            None => rating_of(schedules@, i as int) is None,
        },
{
    let schedule = &schedules[i];
    let t = &schedule.team.id;
    let mut games: Vec<CountedGame> = Vec::new();
    let mut k: usize = 0;
    while k < schedule.events.len()
        invariant
            schedule == schedules@[i as int],
            schedules_fit(schedules@),
            k <= schedule.events@.len(),
            games@ == counted_games(schedules@, t@, schedule.events@.subrange(0, k as int)),
            forall|j: int| 0 <= j < games@.len() ==> #[trigger] games@[j].opponent_games > 0,
        decreases schedule.events@.len() - k,
    {
        let ghost prefix = schedule.events@.subrange(0, k + 1);
        assert(prefix.drop_last() =~= schedule.events@.subrange(0, k as int));
        if let Some(g) = counted_game_of(schedules, t, &schedule.events[k]) {
            games.push(g);
        }
        k = k + 1;
    }
    assert(schedule.events@.subrange(0, schedule.events@.len() as int) =~= schedule.events@);
    if games.len() == 0 {
        None
    } else {
        Some(TeamRating { team: copy_team(&schedule.team), games })
    }
}

/// Rates every team of `schedules` that has a counted game, in the order of
/// the schedules; the teams of `schedules` are the known teams.
pub fn compute_ratings(schedules: &Vec<TeamSchedule>) -> (r: Vec<TeamRating>)
    requires
        schedules_fit(schedules@),
    ensures
        r@.len() == ratings_of(schedules@, schedules@.len() as int).len(),
        forall|k: int| 0 <= k < r@.len() ==> #[trigger] r@[k]@ == ratings_of(schedules@, schedules@.len() as int)[k],
{
    let mut ratings: Vec<TeamRating> = Vec::new();
    let mut i: usize = 0;
    while i < schedules.len()
        invariant
            i <= schedules@.len(),
            schedules_fit(schedules@),
            ratings@.len() == ratings_of(schedules@, i as int).len(),
            forall|k: int| 0 <= k < ratings@.len() ==> #[trigger] ratings@[k]@ == ratings_of(schedules@, i as int)[k],
        decreases schedules@.len() - i,
    {
        if let Some(tr) = rate_team(schedules, i) {
            ratings.push(tr);
        }
        i = i + 1;
    }
    ratings
}

/// The sum over `games` of the opponent's average points scored minus what it
/// scored in the game, as a numerator and a denominator.
pub open spec fn defense_sum(games: Seq<CountedGame>) -> (int, int)
    decreases games.len(),
{
    if games.len() == 0 {
        (0, 1)
    } else {
        let (n, d) = defense_sum(games.drop_last());
        let g = games.last();
        let k = g.opponent_games as int;
        (n * k + (g.opponent_scored - g.allowed * k) * d, d * k)
    }
}

/// The sum over `games` of the points scored minus the opponent's average
/// points allowed, as a numerator and a denominator.
pub open spec fn offense_sum(games: Seq<CountedGame>) -> (int, int)
    decreases games.len(),
{
    if games.len() == 0 {
        (0, 1)
    } else {
        let (n, d) = offense_sum(games.drop_last());
        let g = games.last();
        let k = g.opponent_games as int;
        (n * k + (g.scored * k - g.opponent_allowed) * d, d * k)
    }
}

/// The defense rating, the mean of the defense terms, as numerator and denominator.
pub open spec fn defense_rating(games: Seq<CountedGame>) -> (int, int) {
    (defense_sum(games).0, defense_sum(games).1 * games.len())
}

/// The offense rating, the mean of the offense terms, as numerator and denominator.
pub open spec fn offense_rating(games: Seq<CountedGame>) -> (int, int) {
    (offense_sum(games).0, offense_sum(games).1 * games.len())
}

proof fn lemma_neutral_sums(games: Seq<CountedGame>)
    requires
        forall|k: int| 0 <= k < games.len() ==> #[trigger] games[k].opponent_games > 0,
    ensures
        offense_sum(games).1 > 0,
        defense_sum(games).1 > 0,
        (forall|k: int| 0 <= k < games.len() ==> #[trigger] games[k].scored * games[k].opponent_games
            == games[k].opponent_allowed) ==> offense_sum(games).0 == 0,
        (forall|k: int| 0 <= k < games.len() ==> #[trigger] games[k].allowed * games[k].opponent_games
            == games[k].opponent_scored) ==> defense_sum(games).0 == 0,
    decreases games.len(),
{
    if games.len() > 0 {
        let rest = games.drop_last();
        assert forall|k: int| 0 <= k < rest.len() implies #[trigger] rest[k].opponent_games > 0 by {
            assert(rest[k] == games[k]);
        }
        lemma_neutral_sums(rest);
        let g = games.last();
        assert(g == games[games.len() - 1]);
        let k = g.opponent_games as int;
        let od = offense_sum(rest).1;
        let dd = defense_sum(rest).1;
        assert(od * k > 0) by (nonlinear_arith)
            requires od > 0, k > 0;
        assert(dd * k > 0) by (nonlinear_arith)
            requires dd > 0, k > 0;
        if forall|j: int| 0 <= j < games.len() ==> #[trigger] games[j].scored * games[j].opponent_games
            == games[j].opponent_allowed {
            assert forall|j: int| 0 <= j < rest.len() implies #[trigger] rest[j].scored
                * rest[j].opponent_games == rest[j].opponent_allowed by {
                assert(rest[j] == games[j]);
            }
            assert(g.scored * k - g.opponent_allowed == 0);
            assert(offense_sum(games).0 == 0 * k + 0 * od);
        }
        if forall|j: int| 0 <= j < games.len() ==> #[trigger] games[j].allowed * games[j].opponent_games
            == games[j].opponent_scored {
            assert forall|j: int| 0 <= j < rest.len() implies #[trigger] rest[j].allowed
                * rest[j].opponent_games == rest[j].opponent_scored by {
                assert(rest[j] == games[j]);
            }
            assert(g.opponent_scored - g.allowed * k == 0);
            assert(defense_sum(games).0 == 0 * k + 0 * dd);
        }
    }
}

/// A team that scores exactly what each counted opponent allows on average
/// has an offense rating of zero; one that allows exactly what each counted
/// opponent scores on average has a defense rating of zero.
pub proof fn neutral_games_rate_zero(games: Seq<CountedGame>)
    requires
        games.len() > 0,
        forall|k: int| 0 <= k < games.len() ==> #[trigger] games[k].opponent_games > 0,
    ensures
        offense_rating(games).1 > 0,
        defense_rating(games).1 > 0,
        (forall|k: int| 0 <= k < games.len() ==> #[trigger] games[k].scored * games[k].opponent_games
            == games[k].opponent_allowed) ==> offense_rating(games).0 == 0,
        (forall|k: int| 0 <= k < games.len() ==> #[trigger] games[k].allowed * games[k].opponent_games
            == games[k].opponent_scored) ==> defense_rating(games).0 == 0,
{
    lemma_neutral_sums(games);
    let n = games.len() as int;
    let od = offense_sum(games).1;
    let dd = defense_sum(games).1;
    assert(od * n > 0) by (nonlinear_arith)
        requires od > 0, n > 0;
    assert(dd * n > 0) by (nonlinear_arith)
        requires dd > 0, n > 0;
}

proof fn lemma_baseline_append(schedules: Seq<TeamSchedule>, o: Seq<char>, t: Seq<char>, a: Seq<Event>, b: Seq<Event>)
    ensures
        baseline(schedules, o, t, a + b) == (Totals {
            scored: baseline(schedules, o, t, a).scored + baseline(schedules, o, t, b).scored,
            allowed: baseline(schedules, o, t, a).allowed + baseline(schedules, o, t, b).allowed,
            games: baseline(schedules, o, t, a).games + baseline(schedules, o, t, b).games,
        }),
    decreases b.len(),
{
    if b.len() == 0 {
        assert(a + b =~= a);
    } else {
        lemma_baseline_append(schedules, o, t, a, b.drop_last());
        assert((a + b).drop_last() =~= a + b.drop_last());
        assert((a + b).last() == b.last());
    }
}

/// A game of opponent `o` against team `t` leaves `o`'s baseline, as used in
/// rating `t`, as it would be without that game, wherever it stands in the
/// schedule and however often the two teams met.
pub proof fn mirror_game_excluded(
    schedules: Seq<TeamSchedule>,
    o: Seq<char>,
    t: Seq<char>,
    before: Seq<Event>,
    e: Event,
    after: Seq<Event>,
)
    requires
        last_competition(e) matches Some(c) && other_side(c, o).id@ == t,
    ensures
        baseline(schedules, o, t, before.push(e) + after) == baseline(schedules, o, t, before + after),
{
    lemma_baseline_append(schedules, o, t, before.push(e), after);
    lemma_baseline_append(schedules, o, t, before, after);
    assert(before.push(e).drop_last() =~= before);
}

proof fn lemma_counted_games_append(schedules: Seq<TeamSchedule>, t: Seq<char>, a: Seq<Event>, b: Seq<Event>)
    ensures
        counted_games(schedules, t, a + b) == counted_games(schedules, t, a) + counted_games(schedules, t, b),
    decreases b.len(),
{
    if b.len() == 0 {
        assert(a + b =~= a);
        assert(counted_games(schedules, t, a) + counted_games(schedules, t, b) =~= counted_games(schedules, t, a));
    } else {
        lemma_counted_games_append(schedules, t, a, b.drop_last());
        assert((a + b).drop_last() =~= a + b.drop_last());
        assert((a + b).last() == b.last());
        match counted_game(schedules, t, b.last()) {
            Some(g) => {
                assert(counted_games(schedules, t, a) + counted_games(schedules, t, b) =~= (counted_games(
                    schedules,
                    t,
                    a,
                ) + counted_games(schedules, t, b.drop_last())).push(g));
            },
            None => {},
        }
    }
}

/// A game whose opponent is not a known team adds nothing to team `t`'s
/// counted games, whatever its scores.
pub proof fn unknown_opponent_excluded(
    schedules: Seq<TeamSchedule>,
    t: Seq<char>,
    before: Seq<Event>,
    e: Event,
    after: Seq<Event>,
)
    requires
        last_competition(e) matches Some(c) && !known(schedules, other_side(c, t).id@),
    ensures
        counted_games(schedules, t, before.push(e) + after) == counted_games(schedules, t, before + after),
{
    lemma_counted_games_append(schedules, t, before.push(e), after);
    lemma_counted_games_append(schedules, t, before, after);
    assert(before.push(e).drop_last() =~= before);
}

} // verus!
