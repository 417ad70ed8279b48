//! The scoreboard: teams ranked by score, ties going to the team that
//! reached its score first, with a solved cell per enabled challenge.

use vstd::prelude::*;
use crate::board::{listing, lists_enabled};
use crate::ctf::{challenges_wf, started, Challenge, Ctf, Team};
use crate::solves::{is_solved, solved};

verus! {

/// Team `a` ranks above team `b`.
pub open spec fn outranks(a: Team, b: Team) -> bool {
    a.score > b.score || (a.score == b.score && a.submit < b.submit)
}

/// `columns` holds the ids of the enabled challenges of `cs`, by slug.
pub open spec fn slug_columns(cs: Seq<Challenge>, columns: Seq<u64>) -> bool {
    exists|order: Seq<usize>|
        lists_enabled(cs, order, false) && columns.len() == order.len() && forall|j: int|
            0 <= j < order.len() ==> #[trigger] columns[j] == cs[order[j] as int].id
}

/// One row of the scoreboard.
pub struct Standing {
    /// One for the first row, and so on.
    pub place: u64,
    pub team: u64,
    pub name: String,
    pub score: u64,
    pub submit: i64,
    /// One cell per column of the scoreboard.
    pub solved: Vec<bool>,
}

/// The scoreboard: the ids of the enabled challenges by slug, and one row
/// per team from first place down.
pub struct Scoreboard {
    pub columns: Vec<u64>,
    pub standings: Vec<Standing>,
}

/// Row `row` shows team `t` over `columns`.
pub open spec fn shows(row: Standing, t: Team, columns: Seq<u64>) -> bool {
    &&& row.team == t.id
    &&& row.name@ == t.name@
    &&& row.score == t.score
    &&& row.submit == t.submit
    &&& row.solved@.len() == columns.len()
    &&& forall|j: int| 0 <= j < columns.len() ==> #[trigger] row.solved@[j] == solved(t.solves, columns[j])
}

/// `order` lists each position below `n` once.
pub open spec fn is_permutation(order: Seq<usize>, n: nat) -> bool {
    &&& order.len() == n
    &&& forall|i: int| 0 <= i < order.len() ==> #[trigger] order[i] < n
    &&& forall|i: int, j: int| 0 <= i < order.len() && 0 <= j < order.len() && i != j ==> order[i] != order[j]
}

/// `order` lists the teams from the best rank down.
pub open spec fn ranked(teams: Seq<Team>, order: Seq<usize>) -> bool {
    forall|i: int, j: int|
        0 <= i < j < order.len() ==> !#[trigger] outranks(teams[order[j] as int], teams[order[i] as int])
}

/// In a ranked order, a team that outranks another is listed above it; in
/// particular, of two teams with equal scores, the one that reached its
/// score first comes first.
pub proof fn lemma_outranking_listed_first(teams: Seq<Team>, order: Seq<usize>, i: int, j: int)
    requires
        ranked(teams, order),
        0 <= i < order.len(),
        0 <= j < order.len(),
        outranks(teams[order[i] as int], teams[order[j] as int]),
    ensures
        i < j,
{
    if j < i {
        assert(!outranks(teams[order[i] as int], teams[order[j] as int]));
    }
}

/// Positions of `teams` from the best rank down: by score, highest first,
/// then by submit time, earliest first.
pub fn ranking(teams: &Vec<Team>) -> (order: Vec<usize>)
    ensures
        is_permutation(order@, teams@.len()),
        ranked(teams@, order@),
{
    let mut order: Vec<usize> = Vec::new();
    let mut k: usize = 0;
    while k < teams.len()
        invariant
            k <= teams@.len(),
            is_permutation(order@, k as nat),
            ranked(teams@, order@),
        decreases teams@.len() - k,
    {
        let t = &teams[k];
        let mut pos: usize = 0;
        while pos < order.len()
            invariant
                pos <= order@.len(),
                k < teams@.len(),
                t == teams@[k as int],
                is_permutation(order@, k as nat),
                forall|i: int| 0 <= i < pos ==> !outranks(*t, #[trigger] teams@[order@[i] as int]),
            ensures
                pos <= order@.len(),
                forall|i: int| 0 <= i < pos ==> !outranks(*t, #[trigger] teams@[order@[i] as int]),
                pos < order@.len() ==> outranks(*t, teams@[order@[pos as int] as int]),
            decreases order@.len() - pos,
        {
            let o = &teams[order[pos]];
            if t.score > o.score || (t.score == o.score && t.submit < o.submit) {
                break;
            }
            pos = pos + 1;
        }
        let ghost before = order@;
        order.insert(pos, k);
        proof {
            assert forall|i: int, j: int| 0 <= i < j < order@.len() implies !#[trigger] outranks(
                teams@[order@[j] as int],
                teams@[order@[i] as int],
            ) by {
                if j < pos {
                    assert(order@[i] == before[i] && order@[j] == before[j]);
                } else if j == pos {
                    assert(order@[i] == before[i]);
                } else if i < pos {
                    assert(order@[i] == before[i] && order@[j] == before[j - 1]);
                } else if i == pos {
                    assert(order@[j] == before[j - 1]);
                    if j - 1 > pos {
                        assert(!outranks(teams@[before[j - 1] as int], teams@[before[pos as int] as int]));
                    }
                } else {
                    assert(order@[i] == before[i - 1] && order@[j] == before[j - 1]);
                }
            }
            assert forall|i: int, j: int|
                0 <= i < order@.len() && 0 <= j < order@.len() && i != j implies order@[i] != order@[j] by {
                if i < pos && j < pos {
                    assert(order@[i] == before[i] && order@[j] == before[j]);
                } else if i > pos && j > pos {
                    assert(order@[i] == before[i - 1] && order@[j] == before[j - 1]);
                } else if i < pos && j > pos {
                    assert(order@[i] == before[i] && order@[j] == before[j - 1]);
                } else if i > pos && j < pos {
                    assert(order@[i] == before[i - 1] && order@[j] == before[j]);
                } else if i == pos {
                    if j < pos {
                        assert(order@[j] == before[j]);
                    } else {
                        assert(order@[j] == before[j - 1]);
                    }
                } else {
                    if i < pos {
                        assert(order@[i] == before[i]);
                    } else {
                        assert(order@[i] == before[i - 1]);
                    }
                }
            }
            assert forall|i: int| 0 <= i < order@.len() implies #[trigger] order@[i] < k + 1 by {
                if i < pos {
                    assert(order@[i] == before[i]);
                } else if i > pos {
                    assert(order@[i] == before[i - 1]);
                }
            }
        }
        k = k + 1;
    }
    order
}

/// Ids of the enabled challenges, by slug.
pub fn slug_ordered_ids(challenges: &Vec<Challenge>) -> (r: Vec<u64>)
    requires
        challenges_wf(challenges@),
    ensures
        slug_columns(challenges@, r@),
        forall|j: int| 0 <= j < r@.len() ==> 1 <= #[trigger] r@[j] <= 63,
{
    let order = listing(challenges, false);
    let mut r: Vec<u64> = Vec::new();
    let mut i: usize = 0;
    while i < order.len()
        invariant
            challenges_wf(challenges@),
            lists_enabled(challenges@, order@, false),
            i <= order@.len(),
            r@.len() == i,
            forall|j: int| 0 <= j < i ==> #[trigger] r@[j] == challenges@[order@[j] as int].id,
            forall|j: int| 0 <= j < i ==> 1 <= #[trigger] r@[j] <= 63,
        decreases order@.len() - i,
    {
        r.push(challenges[order[i]].id);
        i = i + 1;
    }
    r
}

impl Ctf {
    /// The scoreboard at `now`, or `None` before the competition starts.
    pub fn scoreboard(&self, now: i64) -> (r: Option<Scoreboard>)
        requires
            self.wf(),
        ensures
            r is None <==> !started(self@.start, now),
            r is Some ==> ({
                let b = r->Some_0;
                let teams = self@.teams;
                &&& slug_columns(self@.challenges, b.columns@)
                &&& b.standings@.len() == teams.len()
                &&& forall|i: int| 0 <= i < b.standings@.len() ==> (#[trigger] b.standings@[i]).place == i + 1
                &&& exists|order: Seq<usize>|
                    is_permutation(order, teams.len()) && ranked(teams, order) && forall|i: int|
                        0 <= i < order.len() ==> shows(
                            #[trigger] b.standings@[i],
                            teams[order[i] as int],
                            b.columns@,
                        )
            }),
    {
        let before = match self.start() {
            Some(s) => now < s,
            None => false,
        };
        if before {
            return None;
        }
        let teams = self.teams();
        let columns = slug_ordered_ids(self.challenges());
        let order = ranking(teams);
        let mut standings: Vec<Standing> = Vec::new();
        let mut i: usize = 0;
        while i < order.len()
            invariant
                teams@ == self@.teams,
                is_permutation(order@, teams@.len()),
                i <= order@.len(),
                standings@.len() == i,
                forall|j: int| 0 <= j < columns@.len() ==> 1 <= #[trigger] columns@[j] <= 63,
                forall|a: int| 0 <= a < i ==> (#[trigger] standings@[a]).place == a + 1,
                forall|a: int| 0 <= a < i ==> shows(#[trigger] standings@[a], teams@[order@[a] as int], columns@),
            decreases order@.len() - i,
        {
            let t = &teams[order[i]];
            let mut cells: Vec<bool> = Vec::new();
            let mut j: usize = 0;
            while j < columns.len()
                invariant
                    j <= columns@.len(),
                    cells@.len() == j,
                    forall|c: int| 0 <= c < columns@.len() ==> 1 <= #[trigger] columns@[c] <= 63,
                    forall|c: int| 0 <= c < j ==> #[trigger] cells@[c] == solved(t.solves, columns@[c]),
                decreases columns@.len() - j,
            {
                cells.push(is_solved(t.solves, columns[j]));
                j = j + 1;
            }
            standings.push(
                Standing {
                    place: i as u64 + 1,
                    team: t.id,
                    name: t.name.clone(),
                    score: t.score,
                    submit: t.submit,
                    solved: cells,
                },
            );
            i = i + 1;
        }
        Some(Scoreboard { columns, standings })
    }
}

} // verus!
