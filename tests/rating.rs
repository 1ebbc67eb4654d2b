use sos_ratings::rating::{compute_ratings, rate_team, CountedGame, TeamRating};
use sos_ratings::schedule::{Competition, Competitor, Event, Team, TeamSchedule};

fn side(id: &str, score: Option<u32>) -> Competitor {
    Competitor { id: id.to_string(), score }
}

fn game(a: &str, a_score: u32, b: &str, b_score: u32) -> Event {
    Event { competitions: vec![Competition { first: side(a, Some(a_score)), second: side(b, Some(b_score)) }] }
}

fn schedule(id: &str, events: Vec<Event>) -> TeamSchedule {
    TeamSchedule { team: Team { id: id.to_string(), location: format!("{} City", id) }, events }
}

fn offense_term(g: &CountedGame) -> f64 {
    g.scored as f64 - g.opponent_allowed as f64 / g.opponent_games as f64
}

fn defense_term(g: &CountedGame) -> f64 {
    g.opponent_scored as f64 / g.opponent_games as f64 - g.allowed as f64
}

fn mean(r: &TeamRating, term: fn(&CountedGame) -> f64) -> f64 {
    r.games.iter().map(term).sum::<f64>() / r.games.len() as f64
}

fn league() -> Vec<TeamSchedule> {
    vec![
        schedule("A", vec![game("A", 30, "B", 10), game("A", 25, "C", 5), game("D", 9, "A", 15)]),
        schedule("B", vec![game("A", 30, "B", 10), game("B", 18, "C", 14), game("B", 22, "D", 16)]),
        schedule("C", vec![game("A", 25, "C", 5), game("B", 18, "C", 14), game("C", 10, "D", 10)]),
        schedule("D", vec![game("D", 9, "A", 15), game("B", 22, "D", 16), game("C", 10, "D", 10)]),
    ]
}

#[test]
fn four_team_scenario() {
    let s = league();
    let a = rate_team(&s, 0).unwrap();
    assert_eq!(a.team.location, "A City");
    let vs_b = &a.games[0];
    assert_eq!((vs_b.scored, vs_b.allowed), (30, 10));
    assert_eq!((vs_b.opponent_scored, vs_b.opponent_allowed, vs_b.opponent_games), (40, 30, 2));
    assert_eq!(offense_term(vs_b), 15.0);
    let b = rate_team(&s, 1).unwrap();
    let vs_a = &b.games[0];
    assert_eq!((vs_a.scored, vs_a.allowed), (10, 30));
    assert_eq!((vs_a.opponent_scored, vs_a.opponent_allowed, vs_a.opponent_games), (40, 14, 2));
    assert_eq!(defense_term(vs_a), -10.0);
}

#[test]
fn self_found_by_id_not_position() {
    let s = league();
    let a = rate_team(&s, 0).unwrap();
    assert_eq!(a.games.len(), 3);
    let vs_d = &a.games[2];
    assert_eq!((vs_d.scored, vs_d.allowed), (15, 9));
}

#[test]
fn repeated_opponent_mirror_games_excluded() {
    let s = vec![
        schedule("T", vec![game("T", 21, "O", 14), game("O", 7, "T", 28)]),
        schedule("O", vec![game("T", 21, "O", 14), game("X", 10, "O", 24), game("O", 7, "T", 28)]),
        schedule("X", vec![game("X", 10, "O", 24)]),
    ];
    let t = rate_team(&s, 0).unwrap();
    assert_eq!(t.games.len(), 2);
    for g in &t.games {
        assert_eq!((g.opponent_scored, g.opponent_allowed, g.opponent_games), (24, 10, 1));
    }
    assert_eq!(mean(&t, offense_term), 14.5);
    assert_eq!(mean(&t, defense_term), 13.5);
}

#[test]
fn unknown_opponent_contributes_nothing() {
    let s = vec![
        schedule("T", vec![game("T", 50, "U", 0), game("T", 20, "O", 10)]),
        schedule("O", vec![game("T", 20, "O", 10), game("O", 17, "P", 3)]),
        schedule("P", vec![game("O", 17, "P", 3)]),
    ];
    let t = rate_team(&s, 0).unwrap();
    assert_eq!(t.games.len(), 1);
    assert_eq!((t.games[0].scored, t.games[0].allowed), (20, 10));
    let only_unknown = vec![schedule("T", vec![game("T", 50, "U", 0)]), schedule("V", vec![])];
    assert!(rate_team(&only_unknown, 0).is_none());
}

#[test]
fn average_performance_rates_zero() {
    let s = vec![
        schedule("T", vec![game("T", 13, "O", 20)]),
        schedule("O", vec![game("T", 13, "O", 20), game("O", 20, "P", 13)]),
        schedule("P", vec![game("O", 20, "P", 13)]),
    ];
    let t = rate_team(&s, 0).unwrap();
    assert_eq!(mean(&t, offense_term), 0.0);
    assert_eq!(mean(&t, defense_term), 0.0);
}

#[test]
fn missing_score_skips_game() {
    let mut unscored = game("T", 0, "O", 0);
    unscored.competitions[0].second.score = None;
    let s = vec![
        schedule("T", vec![unscored]),
        schedule("O", vec![game("O", 20, "P", 13)]),
        schedule("P", vec![game("O", 20, "P", 13)]),
    ];
    assert!(rate_team(&s, 0).is_none());
}

#[test]
fn last_competition_is_authoritative() {
    let mut ev = game("T", 3, "O", 0);
    ev.competitions.push(Competition { first: side("T", Some(10)), second: side("O", Some(24)) });
    let no_comp = Event { competitions: vec![] };
    let s = vec![
        schedule("T", vec![ev, no_comp]),
        schedule("O", vec![game("O", 20, "P", 13)]),
        schedule("P", vec![game("O", 20, "P", 13)]),
    ];
    let t = rate_team(&s, 0).unwrap();
    assert_eq!(t.games.len(), 1);
    assert_eq!((t.games[0].scored, t.games[0].allowed), (10, 24));
}

#[test]
fn opponent_without_baseline_skips_game() {
    let s = vec![
        schedule("T", vec![game("T", 21, "O", 14)]),
        schedule("O", vec![game("T", 21, "O", 14), game("O", 30, "Z", 0)]),
    ];
    assert!(rate_team(&s, 0).is_none());
    assert!(rate_team(&s, 1).is_none());
}

#[test]
fn teams_without_games_are_omitted() {
    let mut s = league();
    s.insert(2, schedule("E", vec![]));
    let ratings = compute_ratings(&s);
    let names: Vec<&str> = ratings.iter().map(|r| r.team.id.as_str()).collect();
    assert_eq!(names, vec!["A", "B", "C", "D"]);
    assert!(compute_ratings(&vec![]).is_empty());
}
