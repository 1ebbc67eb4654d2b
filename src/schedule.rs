//! The season schedules that the rating engine reads, and the collection of
//! the schedules that were fetched.
use vstd::prelude::*;

verus! {

/// One side of a competition: a team and its score, absent while unscored.
pub struct Competitor {
    pub id: String,
    pub score: Option<u32>,
}

/// A competition between exactly two competitors, in the order the provider
/// lists them.
pub struct Competition {
    pub first: Competitor,
    pub second: Competitor,
}

impl Competition {
    /// The competition of a list of competitors; none unless there are exactly two.
    pub fn from_competitors(competitors: Vec<Competitor>) -> (r: Option<Competition>)
        ensures
            r is Some <==> competitors@.len() == 2,
            r matches Some(c) ==> c.first == competitors@[0] && c.second == competitors@[1],
    {
        let mut competitors = competitors;
        if competitors.len() != 2 {
            return None;
        }
        let second = competitors.pop().unwrap();
        let first = competitors.pop().unwrap();
        Some(Competition { first, second })
    }
}

/// A game of the schedule; its last competition is the authoritative one.
pub struct Event {
    pub competitions: Vec<Competition>,
}

pub struct Team {
    pub id: String,
    pub location: String,
}

/// A team's games of one season.
pub struct TeamSchedule {
    pub team: Team,
    pub events: Vec<Event>,
}

/// The index of the schedule of team `id`: the last one that carries that id.
pub open spec fn find_schedule(schedules: Seq<TeamSchedule>, id: Seq<char>) -> Option<int>
    decreases schedules.len(),
{
    if schedules.len() == 0 {
        None
    } else if schedules.last().team.id@ == id {
        Some(schedules.len() - 1)
    } else {
        find_schedule(schedules.drop_last(), id)
    }
}

/// A team is known when its schedule is among `schedules`.
pub open spec fn known(schedules: Seq<TeamSchedule>, id: Seq<char>) -> bool {
    find_schedule(schedules, id) is Some
}

/// The schedules that were fetched, in order; failed fetches leave no trace.
pub open spec fn fetched(results: Seq<Option<TeamSchedule>>) -> Seq<TeamSchedule>
    decreases results.len(),
{
    if results.len() == 0 {
        Seq::empty()
    } else {
        match results.last() {
            Some(s) => fetched(results.drop_last()).push(s),
            None => fetched(results.drop_last()),
        }
    }
}

/// Looks up the schedule of team `id`.
pub fn schedule_index(schedules: &Vec<TeamSchedule>, id: &String) -> (r: Option<usize>)
    ensures
        match r {
            Some(i) => i < schedules@.len() && schedules@[i as int].team.id@ == id@
                && find_schedule(schedules@, id@) == Some(i as int),
            None => find_schedule(schedules@, id@) is None,
        },
{
    let mut i: usize = schedules.len();
    assert(schedules@.subrange(0, i as int) =~= schedules@);
    while i > 0
        invariant
            i <= schedules@.len(),
            find_schedule(schedules@, id@) == find_schedule(schedules@.subrange(0, i as int), id@),
        decreases i,
    {
        let ghost prefix = schedules@.subrange(0, i as int);
        assert(prefix.drop_last() =~= schedules@.subrange(0, i - 1));
        if schedules[i - 1].team.id == *id {
            return Some(i - 1);
        }
        i = i - 1;
    }
    None
}

/// The schedules of the fetches that succeeded, in their order. A failed fetch
/// drops its team and nothing else.
pub fn keep_fetched(results: Vec<Option<TeamSchedule>>) -> (r: Vec<TeamSchedule>)
    ensures
        r@ == fetched(results@),
{
    let mut results = results;
    let ghost all = results@;
    let mut kept: Vec<TeamSchedule> = Vec::new();
    assert(fetched(all) == fetched(results@) + kept@) by {
        assert(fetched(all) + Seq::<TeamSchedule>::empty() =~= fetched(all));
    }
    while results.len() > 0
        invariant
            fetched(all) == fetched(results@) + kept@,
        decreases results@.len(),
    {
        let ghost before = results@;
        let last = results.pop().unwrap();
        assert(before.drop_last() =~= results@);
        match last {
            Some(s) => {
                let ghost k = kept@;
                kept.insert(0, s);
                assert(fetched(before.drop_last()).push(s) + k =~= fetched(results@) + kept@);
            },
            None => {},
        }
    }
    assert(fetched(results@) + kept@ =~= kept@);
    kept
}

proof fn lemma_find_push(schedules: Seq<TeamSchedule>, s: TeamSchedule, id: Seq<char>)
    ensures
        known(schedules.push(s), id) <==> (known(schedules, id) || s.team.id@ == id),
{
    assert(schedules.push(s).drop_last() =~= schedules);
}

/// Fetch isolation: a team is known to the rating engine exactly when its own
/// fetch succeeded, whatever became of the other fetches.
pub proof fn fetch_isolation(results: Seq<Option<TeamSchedule>>, id: Seq<char>)
    ensures
        known(fetched(results), id) <==> exists|k: int|
            0 <= k < results.len() && (#[trigger] results[k] matches Some(s) && s.team.id@ == id),
    decreases results.len(),
{
    if results.len() > 0 {
        let rest = results.drop_last();
        fetch_isolation(rest, id);
        match results.last() {
            Some(s) => lemma_find_push(fetched(rest), s, id),
            None => {},
        }
        if known(fetched(results), id) {
            if known(fetched(rest), id) {
                let k = choose|k: int|
                    0 <= k < rest.len() && (#[trigger] rest[k] matches Some(s) && s.team.id@ == id);
                assert(results[k] == rest[k]);
            } else {
                assert(results[results.len() - 1] == results.last());
            }
        }
        if exists|k: int|
            0 <= k < results.len() && (#[trigger] results[k] matches Some(s) && s.team.id@ == id) {
            let k = choose|k: int|
                0 <= k < results.len() && (#[trigger] results[k] matches Some(s) && s.team.id@
                    == id);
            if k < results.len() - 1 {
                assert(rest[k] == results[k]);
            }
        }
    }
}

} // verus!
