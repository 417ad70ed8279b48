//! Competition state: challenges, teams and raffle entries, with the
//! invariant that ties every team's score to its solves.

use vstd::prelude::*;
use crate::lottery::{draw, lands, Prize, Winnings, TICKET_COST};
use crate::solves::{
    is_solved, lemma_mark_monotone, lemma_mark_sets, mark_solved, marked, solved, MAX_CHALLENGE_ID,
};

verus! {

/// A challenge. Its `id` is its position plus one and names its bit in the
/// solve masks; `solves` counts the teams that have solved it.
pub struct Challenge {
    pub id: u64,
    pub slug: String,
    pub flag: String,
    pub value: u32,
    pub solves: u64,
    pub enabled: bool,
}

/// A team. `submit` is the time of its latest credited submission, or of its
/// registration before that.
pub struct Team {
    pub id: u64,
    pub name: String,
    pub solves: u64,
    pub score: u64,
    pub submit: i64,
    pub redeemed_score: u64,
    pub premium_tickets: u64,
    pub winnings: Winnings,
}

impl Team {
    /// A newly registered team: nothing solved, redeemed or won.
    pub fn new(id: u64, name: String, now: i64) -> (r: Team)
        ensures
            r.id == id,
            r.name == name,
            r.solves == 0,
            r.score == 0,
            r.submit == now,
            r.redeemed_score == 0,
            r.premium_tickets == 0,
            forall|p| r.winnings.count(p) == 0,
    {
        Team {
            id,
            name,
            solves: 0,
            score: 0,
            submit: now,
            redeemed_score: 0,
            premium_tickets: 0,
            winnings: Winnings::none(),
        }
    }
}

/// Sum of the values of the challenges in `cs` whose bit is set in `mask`.
pub open spec fn score_of(mask: u64, cs: Seq<Challenge>) -> int
    decreases cs.len(),
{
    if cs.len() == 0 {
        0
    } else {
        score_of(mask, cs.drop_last()) + if solved(mask, cs.last().id) {
            cs.last().value as int
        } else {
            0
        }
    }
}

/// Regular tickets a team has not used yet.
pub open spec fn regular_tickets(t: Team) -> int {
    (t.score - t.redeemed_score) / TICKET_COST as int
}

/// The competition accepts submissions at `now`. A missing bound does not
/// restrict.
pub open spec fn window_open(start: Option<i64>, stop: Option<i64>, now: i64) -> bool {
    &&& !(start is Some && now < start->0)
    &&& !(stop is Some && now > stop->0)
}

/// The competition has started at `now`, or has no start.
pub open spec fn started(start: Option<i64>, now: i64) -> bool {
    !(start is Some && now < start->0)
}

/// Dense ids from one, within the mask width, and unique slugs.
pub open spec fn challenges_wf(cs: Seq<Challenge>) -> bool {
    &&& cs.len() <= MAX_CHALLENGE_ID
    &&& forall|i: int| 0 <= i < cs.len() ==> (#[trigger] cs[i]).id == i + 1
    &&& forall|i: int, j: int|
        0 <= i < cs.len() && 0 <= j < cs.len() && i != j ==> cs[i].slug@ != cs[j].slug@
}

/// A team's score is the value of its solves, and its redemptions are paid
/// for by that score.
pub open spec fn team_wf(t: Team, cs: Seq<Challenge>) -> bool {
    &&& t.score == score_of(t.solves, cs)
    &&& t.redeemed_score <= t.score
    &&& forall|p| #[trigger] t.winnings.count(p) * TICKET_COST <= t.redeemed_score
}

pub proof fn lemma_score_bounds(mask: u64, cs: Seq<Challenge>)
    ensures
        0 <= score_of(mask, cs) <= cs.len() * u32::MAX,
    decreases cs.len(),
{
    if cs.len() > 0 {
        lemma_score_bounds(mask, cs.drop_last());
    }
}

/// The mask bits that are set in `a` are set in `b`.
pub open spec fn mask_covers(b: u64, a: u64, cs: Seq<Challenge>) -> bool {
    forall|i: int| 0 <= i < cs.len() && solved(a, #[trigger] cs[i].id) ==> solved(b, cs[i].id)
}

pub proof fn lemma_score_monotone(a: u64, b: u64, cs: Seq<Challenge>)
    requires
        mask_covers(b, a, cs),
    ensures
        score_of(a, cs) <= score_of(b, cs),
    decreases cs.len(),
{
    if cs.len() > 0 {
        let d = cs.drop_last();
        assert forall|i: int| 0 <= i < d.len() && solved(a, #[trigger] d[i].id) implies solved(
            b,
            d[i].id,
        ) by {
            assert(d[i] == cs[i]);
        }
        lemma_score_monotone(a, b, d);
        assert(cs.last() == cs[cs.len() - 1]);
    }
}

/// Adding a challenge never lowers a score.
pub proof fn lemma_score_monotone_append(mask: u64, cs: Seq<Challenge>, c: Challenge)
    ensures
        score_of(mask, cs) <= score_of(mask, cs.push(c)),
{
    assert(cs.push(c).drop_last() =~= cs);
}

/// The score depends on the challenges' ids and values alone.
pub proof fn lemma_score_same_values(mask: u64, a: Seq<Challenge>, b: Seq<Challenge>)
    requires
        a.len() == b.len(),
        forall|i: int| 0 <= i < a.len() ==> #[trigger] a[i].id == b[i].id && a[i].value == b[i].value,
    ensures
        score_of(mask, a) == score_of(mask, b),
    decreases a.len(),
{
    if a.len() > 0 {
        let (da, db) = (a.drop_last(), b.drop_last());
        assert forall|i: int| 0 <= i < da.len() implies #[trigger] da[i].id == db[i].id
            && da[i].value == db[i].value by {
            assert(da[i] == a[i] && db[i] == b[i]);
        }
        lemma_score_same_values(mask, da, db);
        assert(a.last() == a[a.len() - 1] && b.last() == b[b.len() - 1]);
    }
}

pub proof fn lemma_score_of_prefix(mask: u64, cs: Seq<Challenge>, i: int)
    requires
        0 <= i < cs.len(),
    ensures
        score_of(mask, cs.subrange(0, i + 1)) == score_of(mask, cs.subrange(0, i)) + if solved(
            mask,
            cs[i].id,
        ) {
            cs[i].value as int
        } else {
            0
        },
{
    assert(cs.subrange(0, i + 1).drop_last() =~= cs.subrange(0, i));
}

/// Whether the competition accepts submissions at `now`.
pub fn competition_open(start: Option<i64>, stop: Option<i64>, now: i64) -> (r: bool)
    ensures
        r == window_open(start, stop, now),
{
    let before = match start {
        Some(s) => now < s,
        None => false,
    };
    let after = match stop {
        Some(s) => now > s,
        None => false,
    };
    !before && !after
}

/// Recomputes a score from a solve mask: the sum of the values of the
/// solved challenges.
pub fn compute_score(mask: u64, challenges: &Vec<Challenge>) -> (r: u64)
    requires
        challenges_wf(challenges@),
    ensures
        r == score_of(mask, challenges@),
{
    let mut sum: u64 = 0;
    let mut i: usize = 0;
    while i < challenges.len()
        invariant
            challenges_wf(challenges@),
            i <= challenges@.len(),
            sum == score_of(mask, challenges@.subrange(0, i as int)),
        decreases challenges@.len() - i,
    {
        proof {
            lemma_score_of_prefix(mask, challenges@, i as int);
            lemma_score_bounds(mask, challenges@.subrange(0, i as int));
        }
        let c = &challenges[i];
        if is_solved(mask, c.id) {
            sum = sum + c.value as u64;
        }
        i = i + 1;
    }
    assert(challenges@.subrange(0, i as int) =~= challenges@);
    sum
}

} // verus!

verus! {

/// What a [`Ctf`] holds, as mathematical values.
pub ghost struct CtfView {
    pub start: Option<i64>,
    pub stop: Option<i64>,
    pub challenges: Seq<Challenge>,
    pub teams: Seq<Team>,
    pub raffle: Seq<u64>,
}

impl CtfView {
    /// Challenges are well formed, every team is consistent with them, and
    /// team ids and names are unique.
    pub open spec fn wf(self) -> bool {
        &&& challenges_wf(self.challenges)
        &&& forall|i: int| 0 <= i < self.teams.len() ==> team_wf(#[trigger] self.teams[i], self.challenges)
        &&& teams_distinct(self.teams)
    }

    /// Team `ti` is the team with id `id`.
    pub open spec fn has_team(self, ti: int, id: u64) -> bool {
        0 <= ti < self.teams.len() && self.teams[ti].id == id
    }

    /// A submission of `flag` for `slug` by `team` earns team `ti` challenge
    /// `ci`: the team is known, the slug names the challenge, the flag is
    /// its flag, and the team has not solved it yet. The challenge's solve
    /// counter must have room for one more; a full counter fails the whole
    /// transaction, so that no solve goes uncounted.
    pub open spec fn credits(
        self,
        team: Option<u64>,
        slug: Seq<char>,
        flag: Seq<char>,
        ti: int,
        ci: int,
    ) -> bool {
        &&& team is Some
        &&& self.has_team(ti, team->0)
        &&& 0 <= ci < self.challenges.len()
        &&& self.challenges[ci].slug@ == slug
        &&& self.challenges[ci].flag@ == flag
        &&& !solved(self.teams[ti].solves, self.challenges[ci].id)
        &&& self.challenges[ci].solves < u64::MAX
    }

    /// Some team earns some challenge with this submission.
    pub open spec fn can_credit(self, team: Option<u64>, slug: Seq<char>, flag: Seq<char>) -> bool {
        exists|ti: int, ci: int| self.credits(team, slug, flag, ti, ci)
    }

    /// The state after team `ti` is credited with challenge `ci` at `now`:
    /// the bit is set, the submit time moves to `now`, the score is
    /// recomputed, and the challenge's solve counter goes up by one.
    pub open spec fn credited(self, ti: int, ci: int, now: i64) -> CtfView {
        let t = self.teams[ti];
        let c = self.challenges[ci];
        let mask = marked(t.solves, c.id);
        CtfView {
            challenges: self.challenges.update(ci, Challenge { solves: (c.solves + 1) as u64, ..c }),
            teams: self.teams.update(
                ti,
                Team { solves: mask, submit: now, score: score_of(mask, self.challenges) as u64, ..t },
            ),
            ..self
        }
    }

    /// Some challenge has slug `slug`.
    pub open spec fn slug_taken(self, slug: Seq<char>) -> bool {
        exists|i: int| 0 <= i < self.challenges.len() && self.challenges[i].slug@ == slug
    }

    /// Some team has id `id` or name `name`.
    pub open spec fn team_taken(self, id: u64, name: Seq<char>) -> bool {
        exists|i: int|
            0 <= i < self.teams.len() && (self.teams[i].id == id || self.teams[i].name@ == name)
    }

    /// The state after challenge `c` is added: each team's score is
    /// recomputed over the longer list.
    pub open spec fn with_challenge(self, c: Challenge) -> CtfView {
        let cs = self.challenges.push(c);
        CtfView {
            challenges: cs,
            teams: self.teams.map_values(|t: Team| rescored(t, cs)),
            ..self
        }
    }

    /// The state after `team` is added.
    pub open spec fn with_team(self, team: Team) -> CtfView {
        CtfView { teams: self.teams.push(team), ..self }
    }

    /// The team with id `id` has a regular ticket.
    pub open spec fn can_redeem_regular(self, id: u64) -> bool {
        exists|ti: int| self.has_team(ti, id) && regular_tickets(self.teams[ti]) > 0
    }

    /// The team with id `id` has a premium ticket.
    pub open spec fn can_redeem_premium(self, id: u64) -> bool {
        exists|ti: int| self.has_team(ti, id) && self.teams[ti].premium_tickets > 0
    }

    /// The state after team `ti` gains `n` premium tickets (loses them, if
    /// `n` is negative).
    pub open spec fn after_grant(self, ti: int, n: i64) -> CtfView {
        let t = self.teams[ti];
        CtfView {
            teams: self.teams.update(
                ti,
                Team { premium_tickets: (t.premium_tickets + n) as u64, ..t },
            ),
            ..self
        }
    }

    /// The state after team `ti` spends a regular ticket and wins `p`.
    pub open spec fn after_regular(self, ti: int, p: Prize) -> CtfView {
        let t = self.teams[ti];
        CtfView {
            teams: self.teams.update(
                ti,
                Team {
                    redeemed_score: (t.redeemed_score + TICKET_COST) as u64,
                    winnings: t.winnings.plus(p),
                    ..t
                },
            ),
            ..self
        }
    }

    /// The state after team `ti` spends a premium ticket on a raffle entry.
    pub open spec fn after_premium(self, ti: int) -> CtfView {
        let t = self.teams[ti];
        CtfView {
            teams: self.teams.update(
                ti,
                Team { premium_tickets: (t.premium_tickets - 1) as u64, ..t },
            ),
            raffle: self.raffle.push(t.id),
            ..self
        }
    }
}

/// No two teams share an id or a name.
pub open spec fn teams_distinct(ts: Seq<Team>) -> bool {
    forall|i: int, j: int|
        0 <= i < ts.len() && 0 <= j < ts.len() && i != j ==> ts[i].id != ts[j].id && ts[i].name@
            != ts[j].name@
}

/// Teams that keep their ids and names stay distinct.
pub proof fn lemma_teams_stay_distinct(before: Seq<Team>, after: Seq<Team>)
    requires
        teams_distinct(before),
        before.len() == after.len(),
        forall|i: int|
            0 <= i < before.len() ==> (#[trigger] after[i]).id == before[i].id && after[i].name@
                == before[i].name@,
    ensures
        teams_distinct(after),
{
    assert forall|a: int, b: int|
        0 <= a < after.len() && 0 <= b < after.len() && a != b implies after[a].id != after[b].id
        && after[a].name@ != after[b].name@ by {
        assert(after[a].id == before[a].id && after[b].id == before[b].id);
    }
}

/// `t` with its score recomputed over `cs`.
pub open spec fn rescored(t: Team, cs: Seq<Challenge>) -> Team {
    Team { score: score_of(t.solves, cs) as u64, ..t }
}

/// Why a challenge or team could not be added.
#[derive(Clone, Copy, Debug, PartialEq, Eq, Structural)]
pub enum StoreError {
    /// The id, name or slug is taken.
    Conflict,
    /// Every challenge id that a solve mask can hold is in use.
    Full,
    /// The team's score, redemptions or winnings disagree with its solves.
    Integrity,
}

/// The competition: its window, challenges, teams and raffle entries.
pub struct Ctf {
    start: Option<i64>,
    stop: Option<i64>,
    challenges: Vec<Challenge>,
    teams: Vec<Team>,
    raffle: Vec<u64>,
}

impl View for Ctf {
    type V = CtfView;

    closed spec fn view(&self) -> CtfView {
        CtfView {
            start: self.start,
            stop: self.stop,
            challenges: self.challenges@,
            teams: self.teams@,
            raffle: self.raffle@,
        }
    }
}

impl Ctf {
    pub open spec fn wf(&self) -> bool {
        self@.wf()
    }

    /// An empty competition open from `start` to `stop`.
    pub fn new(start: Option<i64>, stop: Option<i64>) -> (r: Ctf)
        ensures
            r.wf(),
            r@.start == start,
            r@.stop == stop,
            r@.challenges.len() == 0,
            r@.teams.len() == 0,
            r@.raffle.len() == 0,
    {
        Ctf { start, stop, challenges: Vec::new(), teams: Vec::new(), raffle: Vec::new() }
    }

    pub fn start(&self) -> (r: Option<i64>)
        ensures
            r == self@.start,
    {
        self.start
    }

    pub fn stop(&self) -> (r: Option<i64>)
        ensures
            r == self@.stop,
    {
        self.stop
    }

    pub fn challenges(&self) -> (r: &Vec<Challenge>)
        ensures
            r@ == self@.challenges,
    {
        &self.challenges
    }

    pub fn teams(&self) -> (r: &Vec<Team>)
        ensures
            r@ == self@.teams,
    {
        &self.teams
    }

    /// Team ids, one for each raffle entry, in the order they were entered.
    pub fn raffle(&self) -> (r: &Vec<u64>)
        ensures
            r@ == self@.raffle,
    {
        &self.raffle
    }

    /// Position of the team with id `id`.
    pub fn find_team(&self, id: u64) -> (r: Option<usize>)
        ensures
            match r {
                Some(i) => self@.has_team(i as int, id),
                None => forall|i: int| 0 <= i < self@.teams.len() ==> self@.teams[i].id != id,
            },
    {
        let mut i: usize = 0;
        while i < self.teams.len()
            invariant
                i <= self.teams@.len(),
                forall|j: int| 0 <= j < i ==> self.teams@[j].id != id,
            decreases self.teams@.len() - i,
        {
            if self.teams[i].id == id {
                return Some(i);
            }
            i = i + 1;
        }
        None
    }

    /// Position of the team named `name`.
    pub fn find_team_by_name(&self, name: &String) -> (r: Option<usize>)
        ensures
            match r {
                Some(i) => i < self@.teams.len() && self@.teams[i as int].name@ == name@,
                None => forall|i: int| 0 <= i < self@.teams.len() ==> self@.teams[i].name@ != name@,
            },
    {
        let mut i: usize = 0;
        while i < self.teams.len()
            invariant
                i <= self.teams@.len(),
                forall|j: int| 0 <= j < i ==> self.teams@[j].name@ != name@,
            decreases self.teams@.len() - i,
        {
            if self.teams[i].name == *name {
                return Some(i);
            }
            i = i + 1;
        }
        None
    }

    /// Position of the challenge with slug `slug`.
    pub fn find_challenge(&self, slug: &String) -> (r: Option<usize>)
        ensures
            match r {
                Some(i) => i < self@.challenges.len() && self@.challenges[i as int].slug@ == slug@,
                None => forall|i: int|
                    0 <= i < self@.challenges.len() ==> self@.challenges[i].slug@ != slug@,
            },
    {
        let mut i: usize = 0;
        while i < self.challenges.len()
            invariant
                i <= self.challenges@.len(),
                forall|j: int| 0 <= j < i ==> self.challenges@[j].slug@ != slug@,
            decreases self.challenges@.len() - i,
        {
            if self.challenges[i].slug == *slug {
                return Some(i);
            }
            i = i + 1;
        }
        None
    }
}

/// The result of a flag submission.
#[derive(Clone, Debug, PartialEq, Eq)]
pub enum Submission {
    /// The solve was credited.
    Credited,
    /// Nothing changed; the submitted slug is handed back so that only that
    /// challenge is marked as wrongly answered.
    Rejected(String),
    /// The competition is not accepting submissions.
    Closed,
}

/// Whether every prize count of `w` is paid for by `redeemed` score.
fn winnings_paid(w: &Winnings, redeemed: u64) -> (r: bool)
    ensures
        r == forall|p| #[trigger] w.count(p) * TICKET_COST <= redeemed,
{
    let most = redeemed / TICKET_COST;
    let r = w.zoom_background <= most && w.profile_picture <= most && w.cyber_stickers <= most
        && w.discord_role <= most && w.discord_emote <= most && w.aarin_serenade <= most;
    proof {
        lemma_paid(w.zoom_background, redeemed);
        lemma_paid(w.profile_picture, redeemed);
        lemma_paid(w.cyber_stickers, redeemed);
        lemma_paid(w.discord_role, redeemed);
        lemma_paid(w.discord_emote, redeemed);
        lemma_paid(w.aarin_serenade, redeemed);
        if !r {
            if w.zoom_background > most {
                assert(w.count(Prize::ZoomBackground) * TICKET_COST > redeemed);
            } else if w.profile_picture > most {
                assert(w.count(Prize::ProfilePicture) * TICKET_COST > redeemed);
            } else if w.cyber_stickers > most {
                assert(w.count(Prize::CyberStickers) * TICKET_COST > redeemed);
            } else if w.discord_role > most {
                assert(w.count(Prize::DiscordRole) * TICKET_COST > redeemed);
            } else if w.discord_emote > most {
                assert(w.count(Prize::DiscordEmote) * TICKET_COST > redeemed);
            } else {
                assert(w.count(Prize::AarinSerenade) * TICKET_COST > redeemed);
            }
        }
    }
    r
}

proof fn lemma_paid(c: u64, redeemed: u64)
    ensures
        c <= redeemed / 50 <==> c * 50 <= redeemed,
{
    assert(c <= redeemed / 50 <==> c * 50 <= redeemed) by (nonlinear_arith);
}

impl Ctf {
    /// Adds a challenge under the next id. Each team that already holds the
    /// new id's bit gains its value.
    pub fn add_challenge(
        &mut self,
        slug: String,
        flag: String,
        value: u32,
        enabled: bool,
        solves: u64,
    ) -> (r: Result<u64, StoreError>)
        requires
            old(self).wf(),
        ensures
            final(self).wf(),
            (r == Err::<u64, StoreError>(StoreError::Full)) <==> (old(self)@.challenges.len()
                == MAX_CHALLENGE_ID),
            (r == Err::<u64, StoreError>(StoreError::Conflict)) <==> (old(self)@.challenges.len()
                < MAX_CHALLENGE_ID && old(self)@.slug_taken(slug@)),
            (r is Ok) <==> (old(self)@.challenges.len() < MAX_CHALLENGE_ID && !old(
                self,
            )@.slug_taken(slug@)),
            r != Err::<u64, StoreError>(StoreError::Integrity),
            r is Err ==> final(self)@ == old(self)@,
            r is Ok ==> r->Ok_0 == old(self)@.challenges.len() + 1,
            r is Ok ==> final(self)@ == old(self)@.with_challenge(
                (Challenge { id: r->Ok_0, slug, flag, value, solves, enabled }),
            ),
    {
        if self.challenges.len() >= 63 {
            return Err(StoreError::Full);
        }
        if self.find_challenge(&slug).is_some() {
            return Err(StoreError::Conflict);
        }
        let id = self.challenges.len() as u64 + 1;
        let ghost old_cs = self.challenges@;
        let ghost old_teams = self.teams@;
        let ghost old_view = self@;
        let ghost c = Challenge { id, slug, flag, value, solves, enabled };
        self.challenges.push(Challenge { id, slug, flag, value, solves, enabled });
        assert(self.challenges@.drop_last() =~= old_cs);
        let mut i: usize = 0;
        while i < self.teams.len()
            invariant
                old_teams.len() == self.teams@.len(),
                i <= self.teams@.len(),
                self.start == old_view.start,
                self.stop == old_view.stop,
                self.raffle@ == old_view.raffle,
                self.challenges@ == old_cs.push(c),
                challenges_wf(old_cs),
                old_cs.len() < MAX_CHALLENGE_ID,
                c.id == old_cs.len() + 1,
                c.id == id,
                c.value == value,
                forall|j: int| 0 <= j < old_teams.len() ==> team_wf(#[trigger] old_teams[j], old_cs),
                forall|j: int|
                    0 <= j < i ==> #[trigger] self.teams@[j] == rescored(old_teams[j], self.challenges@),
                forall|j: int| i <= j < old_teams.len() ==> #[trigger] self.teams@[j] == old_teams[j],
            decreases self.teams@.len() - i,
        {
            let ghost t = old_teams[i as int];
            assert(self.challenges@.drop_last() =~= old_cs);
            assert(self.challenges@.last() == c);
            proof {
                lemma_score_bounds(t.solves, old_cs);
            }
            assert(team_wf(old_teams[i as int], old_cs));
            assert(score_of(t.solves, self.challenges@) == score_of(t.solves, old_cs) + if solved(
                t.solves,
                id,
            ) {
                value as int
            } else {
                0
            });
            if is_solved(self.teams[i].solves, id) {
                self.teams[i].score = self.teams[i].score + value as u64;
            }
            assert(self.teams@[i as int] == rescored(old_teams[i as int], self.challenges@));
            i = i + 1;
        }
        proof {
            let v = self@;
            assert forall|j: int| 0 <= j < v.teams.len() implies team_wf(#[trigger] v.teams[j], v.challenges) by {
                let t = old_teams[j];
                assert(team_wf(t, old_cs));
                assert(v.challenges.drop_last() =~= old_cs);
                assert(v.teams[j] == rescored(t, v.challenges));
                lemma_score_monotone_append(t.solves, old_cs, c);
                lemma_score_bounds(t.solves, v.challenges);
            }
            assert forall|a: int, b: int|
                0 <= a < v.challenges.len() && 0 <= b < v.challenges.len() && a != b implies v.challenges[a].slug@
                != v.challenges[b].slug@ by {
                if a < old_cs.len() && b < old_cs.len() {
                    assert(v.challenges[a] == old_cs[a] && v.challenges[b] == old_cs[b]);
                } else if a < old_cs.len() {
                    assert(v.challenges[a] == old_cs[a]);
                } else {
                    assert(v.challenges[b] == old_cs[b]);
                }
            }
            assert forall|a: int| 0 <= a < v.challenges.len() implies (#[trigger] v.challenges[a]).id == a + 1 by {
                if a < old_cs.len() {
                    assert(v.challenges[a] == old_cs[a]);
                }
            }
            lemma_teams_stay_distinct(old_teams, v.teams);
            let w = old(self)@.with_challenge(c);
            assert(v.challenges =~= w.challenges);
            assert(v.teams =~= w.teams);

        }
        Ok(id)
    }

    /// Adds a team: one just registered (see [`Team::new`]) or one loaded
    /// from storage. Refused if its id or name is taken, or if its score,
    /// redemptions or winnings disagree with its solves.
    pub fn insert_team(&mut self, team: Team) -> (r: Result<(), StoreError>)
        requires
            old(self).wf(),
        ensures
            final(self).wf(),
            (r == Err::<(), StoreError>(StoreError::Conflict)) <==> old(self)@.team_taken(
                team.id,
                team.name@,
            ),
            (r == Err::<(), StoreError>(StoreError::Integrity)) <==> (!old(self)@.team_taken(
                team.id,
                team.name@,
            ) && !team_wf(team, old(self)@.challenges)),
            r != Err::<(), StoreError>(StoreError::Full),
            r is Err ==> final(self)@ == old(self)@,
            r is Ok ==> final(self)@ == old(self)@.with_team(team),
    {
        let by_id = self.find_team(team.id);
        let by_name = self.find_team_by_name(&team.name);
        if by_id.is_some() || by_name.is_some() {
            return Err(StoreError::Conflict);
        }
        let score = compute_score(team.solves, &self.challenges);
        if score != team.score || team.redeemed_score > team.score || !winnings_paid(
            &team.winnings,
            team.redeemed_score,
        ) {
            return Err(StoreError::Integrity);
        }
        let ghost old_teams = self.teams@;
        self.teams.push(team);
        proof {
            let v = self@;
            assert forall|j: int| 0 <= j < v.teams.len() implies team_wf(#[trigger] v.teams[j], v.challenges) by {
                if j < old_teams.len() {
                    assert(v.teams[j] == old_teams[j]);
                }
            }
            assert forall|a: int, b: int|
                0 <= a < v.teams.len() && 0 <= b < v.teams.len() && a != b implies v.teams[a].id
                != v.teams[b].id && v.teams[a].name@ != v.teams[b].name@ by {
                if a < old_teams.len() {
                    assert(v.teams[a] == old_teams[a]);
                }
                if b < old_teams.len() {
                    assert(v.teams[b] == old_teams[b]);
                }
            }
            assert(v =~= old(self)@.with_team(team));
        }
        Ok(())
    }
}

/// The result of a ticket redemption.
#[derive(Clone, Copy, Debug, PartialEq, Eq, Structural)]
pub enum Draw {
    /// A regular ticket was spent and the prize won.
    Won(Prize),
    /// A premium ticket was spent on a raffle entry.
    Entered,
    /// The team has no ticket of that kind, or is unknown; nothing changed.
    InsufficientTickets,
}

impl Ctf {
    /// Submits `flag` for the challenge `slug` on behalf of `team` (`None`
    /// when the submitter is not logged in). Within the competition window,
    /// a known team that gives a challenge's exact flag and has not solved
    /// it yet has the solve credited, its submit time set to `now`, its
    /// score recomputed and the challenge's solve counter raised by one, all
    /// at once. Any other submission changes nothing.
    pub fn submit_flag(&mut self, team: Option<u64>, slug: &str, flag: &str, now: i64) -> (r:
        Submission)
        requires
            old(self).wf(),
        ensures
            final(self).wf(),
            forall|i: int|
                0 <= i < final(self)@.teams.len() ==> (#[trigger] final(self)@.teams[i]).score
                    == score_of(final(self)@.teams[i].solves, final(self)@.challenges),
            !window_open(old(self)@.start, old(self)@.stop, now) ==> r == Submission::Closed,
            window_open(old(self)@.start, old(self)@.stop, now) && old(self)@.can_credit(
                team,
                slug@,
                flag@,
            ) ==> r == Submission::Credited,
            window_open(old(self)@.start, old(self)@.stop, now) && !old(self)@.can_credit(
                team,
                slug@,
                flag@,
            ) ==> (r is Rejected && r->Rejected_0@ == slug@),
            !(r is Credited) ==> final(self)@ == old(self)@,
            r is Credited ==> (exists|ti: int, ci: int|
                old(self)@.credits(team, slug@, flag@, ti, ci) && final(self)@ == old(self)@.credited(
                    ti,
                    ci,
                    now,
                )),
    {
        if !competition_open(self.start, self.stop, now) {
            return Submission::Closed;
        }
        let slug_s = slug.to_owned();
        let flag_s = flag.to_owned();
        let id = match team {
            Some(id) => id,
            None => {
                return Submission::Rejected(slug_s);
            },
        };
        let ti = match self.find_team(id) {
            Some(i) => i,
            None => {
                return Submission::Rejected(slug_s);
            },
        };
        let ci = match self.find_challenge(&slug_s) {
            Some(i) => i,
            None => {
                return Submission::Rejected(slug_s);
            },
        };
        let cid = self.challenges[ci].id;
        if !(self.challenges[ci].flag == flag_s) || is_solved(self.teams[ti].solves, cid)
            || self.challenges[ci].solves == u64::MAX {
            proof {
                assert forall|a: int, b: int| !#[trigger] self@.credits(team, slug@, flag@, a, b) by {
                    if self@.credits(team, slug@, flag@, a, b) {
                        assert(a == ti);
                        assert(b == ci);
                    }
                }
            }
            return Submission::Rejected(slug_s);
        }
        assert(self@.credits(team, slug@, flag@, ti as int, ci as int));
        let ghost old_view = self@;
        let old_mask = self.teams[ti].solves;
        let mask = mark_solved(old_mask, cid);
        let score = compute_score(mask, &self.challenges);
        proof {
            let cs = old_view.challenges;
            assert forall|i: int| 0 <= i < cs.len() && solved(old_mask, #[trigger] cs[i].id) implies solved(
                mask,
                cs[i].id,
            ) by {
                lemma_mark_monotone(old_mask, cid, cs[i].id);
            }
            lemma_score_monotone(old_mask, mask, cs);
            assert(team_wf(old_view.teams[ti as int], cs));
        }
        self.teams[ti].solves = mask;
        self.teams[ti].submit = now;
        self.teams[ti].score = score;
        self.challenges[ci].solves = self.challenges[ci].solves + 1;
        proof {
            let v = self@;
            let w = old_view.credited(ti as int, ci as int, now);
            assert(v.challenges =~= w.challenges);
            assert(v.teams =~= w.teams);
            assert(v == w);
            assert forall|i: int| 0 <= i < v.challenges.len() implies #[trigger] v.challenges[i].id
                == old_view.challenges[i].id && v.challenges[i].value == old_view.challenges[i].value by {}
            assert forall|j: int| 0 <= j < v.teams.len() implies team_wf(#[trigger] v.teams[j], v.challenges) by {
                lemma_score_same_values(v.teams[j].solves, v.challenges, old_view.challenges);
                assert(team_wf(old_view.teams[j], old_view.challenges));
            }
            assert forall|a: int| 0 <= a < v.challenges.len() implies (#[trigger] v.challenges[a]).id == a + 1 by {
                assert(old_view.challenges[a].id == a + 1);
            }
            assert forall|a: int, b: int|
                0 <= a < v.challenges.len() && 0 <= b < v.challenges.len() && a != b implies v.challenges[a].slug@
                != v.challenges[b].slug@ by {
                assert(old_view.challenges[a].slug@ != old_view.challenges[b].slug@);
            }
            lemma_teams_stay_distinct(old_view.teams, v.teams);
        }
        Submission::Credited
    }

    /// Regular tickets that the team with id `team` has not used, or `None`
    /// if there is no such team.
    pub fn regular_tickets(&self, team: u64) -> (r: Option<u64>)
        requires
            self.wf(),
        ensures
            match r {
                Some(n) => exists|ti: int| self@.has_team(ti, team) && n == regular_tickets(self@.teams[ti]),
                None => forall|ti: int| 0 <= ti < self@.teams.len() ==> self@.teams[ti].id != team,
            },
    {
        match self.find_team(team) {
            Some(ti) => {
                assert(team_wf(self@.teams[ti as int], self@.challenges));
                let t = &self.teams[ti];
                Some((t.score - t.redeemed_score) / TICKET_COST)
            },
            None => None,
        }
    }

    /// Spends one regular ticket of the team with id `team` on a weighted
    /// draw decided by `roll` (see [`draw`]): its redeemed score goes up by
    /// one ticket's cost and its count of the won prize by one. Without a
    /// ticket, or without such a team, nothing changes.
    pub fn redeem_regular(&mut self, team: u64, roll: u64) -> (r: Draw)
        requires
            old(self).wf(),
        ensures
            final(self).wf(),
            (r == Draw::InsufficientTickets) <==> !old(self)@.can_redeem_regular(team),
            r != Draw::Entered,
            r == Draw::InsufficientTickets ==> final(self)@ == old(self)@,
            r is Won ==> (exists|ti: int|
                old(self)@.has_team(ti, team) && regular_tickets(old(self)@.teams[ti]) > 0 && lands(
                    old(self)@.teams[ti].winnings,
                    roll,
                    r->Won_0,
                ) && final(self)@ == old(self)@.after_regular(ti, r->Won_0)),
    {
        let ti = match self.find_team(team) {
            Some(i) => i,
            None => {
                return Draw::InsufficientTickets;
            },
        };
        assert(team_wf(self@.teams[ti as int], self@.challenges));
        let tickets = (self.teams[ti].score - self.teams[ti].redeemed_score) / TICKET_COST;
        if tickets == 0 {
            proof {
                assert forall|a: int| self@.has_team(a, team) implies regular_tickets(
                    #[trigger] self@.teams[a],
                ) == 0 by {
                    assert(a == ti);
                }
            }
            return Draw::InsufficientTickets;
        }
        let ghost old_view = self@;
        let p = draw(&self.teams[ti].winnings, roll);
        assert(self.teams[ti as int].winnings.count(p) * TICKET_COST <= self.teams[ti as int].redeemed_score);
        let won = self.teams[ti].winnings.with_one_more(p);
        self.teams[ti].redeemed_score = self.teams[ti].redeemed_score + TICKET_COST;
        self.teams[ti].winnings = won;
        proof {
            let v = self@;
            let w = old_view.after_regular(ti as int, p);
            assert(v.teams =~= w.teams);
            assert(v == w);
            assert forall|j: int| 0 <= j < v.teams.len() implies team_wf(#[trigger] v.teams[j], v.challenges) by {
                assert(team_wf(old_view.teams[j], old_view.challenges));
                if j == ti {
                    assert forall|q: Prize| #[trigger] v.teams[j].winnings.count(q) * TICKET_COST
                        <= v.teams[j].redeemed_score by {
                        assert(old_view.teams[j].winnings.count(q) * TICKET_COST
                            <= old_view.teams[j].redeemed_score);
                    }
                }
            }
            lemma_teams_stay_distinct(old_view.teams, v.teams);
        }
        Draw::Won(p)
    }

    /// Spends one premium ticket of the team with id `team` on an entry in
    /// the raffle. Without a ticket, or without such a team, nothing
    /// changes.
    pub fn redeem_premium(&mut self, team: u64) -> (r: Draw)
        requires
            old(self).wf(),
        ensures
            final(self).wf(),
            (r == Draw::InsufficientTickets) <==> !old(self)@.can_redeem_premium(team),
            r == Draw::InsufficientTickets || r == Draw::Entered,
            r == Draw::InsufficientTickets ==> final(self)@ == old(self)@,
            r == Draw::Entered ==> (exists|ti: int|
                old(self)@.has_team(ti, team) && old(self)@.teams[ti].premium_tickets > 0
                    && final(self)@ == old(self)@.after_premium(ti)),
    {
        let ti = match self.find_team(team) {
            Some(i) => i,
            None => {
                return Draw::InsufficientTickets;
            },
        };
        if self.teams[ti].premium_tickets == 0 {
            proof {
                assert forall|a: int| self@.has_team(a, team) implies #[trigger] self@.teams[a].premium_tickets
                    == 0 by {
                    assert(a == ti);
                }
            }
            return Draw::InsufficientTickets;
        }
        let ghost old_view = self@;
        self.teams[ti].premium_tickets = self.teams[ti].premium_tickets - 1;
        self.raffle.push(team);
        proof {
            let v = self@;
            let w = old_view.after_premium(ti as int);
            assert(v.teams =~= w.teams);
            assert(v.raffle =~= w.raffle);
            assert(v == w);
            assert forall|j: int| 0 <= j < v.teams.len() implies team_wf(#[trigger] v.teams[j], v.challenges) by {
                assert(team_wf(old_view.teams[j], old_view.challenges));
            }
            lemma_teams_stay_distinct(old_view.teams, v.teams);
        }
        Draw::Entered
    }

    /// Gives `n` premium tickets to the team named `name`; a negative `n`
    /// takes tickets away. Returns whether the count changed: nothing
    /// changes if there is no such team, or if its count would fall below
    /// zero or overflow.
    pub fn grant_premium_tickets(&mut self, name: &str, n: i64) -> (r: bool)
        requires
            old(self).wf(),
        ensures
            final(self).wf(),
            r <==> (exists|ti: int|
                0 <= ti < old(self)@.teams.len() && old(self)@.teams[ti].name@ == name@ && 0
                    <= old(self)@.teams[ti].premium_tickets + n <= u64::MAX),
            !r ==> final(self)@ == old(self)@,
            r ==> (exists|ti: int|
                0 <= ti < old(self)@.teams.len() && old(self)@.teams[ti].name@ == name@
                    && final(self)@ == old(self)@.after_grant(ti, n)),
    {
        let name_s = name.to_owned();
        let ti = match self.find_team_by_name(&name_s) {
            Some(i) => i,
            None => {
                return false;
            },
        };
        let count = match self.teams[ti].premium_tickets.checked_add_signed(n) {
            Some(c) => c,
            None => {
                proof {
                    assert forall|a: int|
                        0 <= a < self@.teams.len() && #[trigger] self@.teams[a].name@ == name@ implies !(0
                        <= self@.teams[a].premium_tickets + n <= u64::MAX) by {
                        if a != ti {
                            assert(self@.teams[a].name@ != self@.teams[ti as int].name@);
                        }
                    }
                }
                return false;
            },
        };
        let ghost old_view = self@;
        self.teams[ti].premium_tickets = count;
        proof {
            let v = self@;
            let w = old_view.after_grant(ti as int, n);
            assert(v.teams =~= w.teams);
            assert(v == w);
            assert forall|j: int| 0 <= j < v.teams.len() implies team_wf(#[trigger] v.teams[j], v.challenges) by {
                assert(team_wf(old_view.teams[j], old_view.challenges));
            }
            lemma_teams_stay_distinct(old_view.teams, v.teams);
        }
        true
    }
}

/// A correct flag counts once per team. After a submission is credited,
/// the same submission earns nothing more (so it is rejected and changes
/// nothing), the challenge is solved for the team, marking it again would
/// change nothing, and its solve counter has gone up by exactly one. Two racing submissions of one flag by one team
/// are applied one after the other, so this covers them too: whichever comes
/// second is rejected.
pub proof fn lemma_credited_once(
    s: CtfView,
    team: Option<u64>,
    slug: Seq<char>,
    flag: Seq<char>,
    ti: int,
    ci: int,
    now: i64,
)
    requires
        s.wf(),
        s.credits(team, slug, flag, ti, ci),
    ensures
        !s.credited(ti, ci, now).can_credit(team, slug, flag),
        solved(s.credited(ti, ci, now).teams[ti].solves, s.challenges[ci].id),
        s.credited(ti, ci, now).challenges[ci].solves == s.challenges[ci].solves + 1,
        s.credited(ti, ci, now).teams[ti].solves == marked(s.teams[ti].solves, s.challenges[ci].id),
        marked(s.credited(ti, ci, now).teams[ti].solves, s.challenges[ci].id) == s.credited(
            ti,
            ci,
            now,
        ).teams[ti].solves,
{
    let t = s.credited(ti, ci, now);
    lemma_mark_sets(s.teams[ti].solves, s.challenges[ci].id);
    assert forall|a: int, b: int| !#[trigger] t.credits(team, slug, flag, a, b) by {
        if t.credits(team, slug, flag, a, b) {
            if a != ti {
                assert(s.teams[a].id != s.teams[ti].id);
            }
            if b != ci {
                assert(s.challenges[b].slug@ != s.challenges[ci].slug@);
            }
        }
    }
}

} // verus!
