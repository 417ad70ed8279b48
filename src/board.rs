//! The challenge board: the enabled challenges in display order, each with
//! what the viewing team may see and do.

use vstd::prelude::*;
use vstd::string::StrSliceExecFns;
use crate::ctf::{started, Challenge, Ctf, CtfView};
use crate::solves::{is_solved, solved};

verus! {

/// `a` comes before `b` in character order.
pub open spec fn text_lt(a: Seq<char>, b: Seq<char>) -> bool
    decreases a.len(),
{
    if a.len() == 0 {
        b.len() > 0
    } else if b.len() == 0 {
        false
    } else if a[0] != b[0] {
        a[0] < b[0]
    } else {
        text_lt(a.drop_first(), b.drop_first())
    }
}

pub proof fn lemma_text_lt_transitive(a: Seq<char>, b: Seq<char>, c: Seq<char>)
    requires
        text_lt(a, b),
        text_lt(b, c),
    ensures
        text_lt(a, c),
    decreases a.len(),
{
    if a.len() > 0 && b.len() > 0 && c.len() > 0 && a[0] == b[0] && b[0] == c[0] {
        lemma_text_lt_transitive(a.drop_first(), b.drop_first(), c.drop_first());
    }
}

pub proof fn lemma_text_lt_asymmetric(a: Seq<char>, b: Seq<char>)
    ensures
        !(text_lt(a, b) && text_lt(b, a)),
    decreases a.len(),
{
    if a.len() > 0 && b.len() > 0 && a[0] == b[0] {
        lemma_text_lt_asymmetric(a.drop_first(), b.drop_first());
    }
}

/// Two different texts are ordered one way or the other.
pub proof fn lemma_text_lt_total(a: Seq<char>, b: Seq<char>)
    requires
        a != b,
    ensures
        text_lt(a, b) || text_lt(b, a),
    decreases a.len(),
{
    if a.len() > 0 && b.len() > 0 && a[0] == b[0] {
        if a.drop_first() == b.drop_first() {
            assert(a =~= seq![a[0]] + a.drop_first());
            assert(b =~= seq![b[0]] + b.drop_first());
        }
        lemma_text_lt_total(a.drop_first(), b.drop_first());
    } else if a.len() == 0 && b.len() == 0 {
        assert(a =~= b);
    }
}

proof fn lemma_text_lt_step(a: Seq<char>, b: Seq<char>, i: int)
    requires
        0 <= i < a.len(),
        i < b.len(),
        a[i] == b[i],
    ensures
        text_lt(a.skip(i), b.skip(i)) == text_lt(a.skip(i + 1), b.skip(i + 1)),
{
    assert(a.skip(i).drop_first() =~= a.skip(i + 1));
    assert(b.skip(i).drop_first() =~= b.skip(i + 1));
}

/// Whether `a` comes before `b` in character order.
pub fn text_less(a: &str, b: &str) -> (r: bool)
    ensures
        r == text_lt(a@, b@),
{
    let la = a.unicode_len();
    let lb = b.unicode_len();
    let mut i: usize = 0;
    assert(a@.skip(0) =~= a@ && b@.skip(0) =~= b@);
    while i < la && i < lb
        invariant
            la == a@.len(),
            lb == b@.len(),
            i <= la,
            i <= lb,
            text_lt(a@, b@) == text_lt(a@.skip(i as int), b@.skip(i as int)),
        decreases la - i,
    {
        let x = a.get_char(i);
        let y = b.get_char(i);
        if x != y {
            assert(a@.skip(i as int)[0] == x && b@.skip(i as int)[0] == y);
            return x < y;
        }
        proof {
            lemma_text_lt_step(a@, b@, i as int);
        }
        i = i + 1;
    }
    assert(a@.skip(i as int).len() == la - i && b@.skip(i as int).len() == lb - i);
    i == la && i < lb
}

/// Challenge `a` is listed before challenge `b`: by value, lowest first,
/// when `by_value` holds, then by slug.
pub open spec fn listed_before(a: Challenge, b: Challenge, by_value: bool) -> bool {
    if by_value && a.value != b.value {
        a.value < b.value
    } else {
        text_lt(a.slug@, b.slug@)
    }
}

/// `order` lists the enabled challenges of `cs` once each, by `listed_before`.
pub open spec fn lists_enabled(cs: Seq<Challenge>, order: Seq<usize>, by_value: bool) -> bool {
    &&& forall|i: int| 0 <= i < order.len() ==> #[trigger] order[i] < cs.len() && cs[order[i] as int].enabled
    &&& forall|i: int, j: int| 0 <= i < order.len() && 0 <= j < order.len() && i != j ==> order[i] != order[j]
    &&& forall|c: int| 0 <= c < cs.len() && (#[trigger] cs[c]).enabled ==> exists|i: int| 0 <= i < order.len() && order[i] == c
    &&& forall|i: int, j: int|
        0 <= i < j < order.len() ==> #[trigger] listed_before(cs[order[i] as int], cs[order[j] as int], by_value)
}

/// Slugs of different challenges differ.
pub open spec fn slugs_unique(cs: Seq<Challenge>) -> bool {
    forall|i: int, j: int| 0 <= i < cs.len() && 0 <= j < cs.len() && i != j ==> cs[i].slug@ != cs[j].slug@
}

proof fn lemma_listed_before_order(a: Challenge, b: Challenge, c: Challenge, by_value: bool)
    ensures
        listed_before(a, b, by_value) && listed_before(b, c, by_value) ==> listed_before(a, c, by_value),
        !(listed_before(a, b, by_value) && listed_before(b, a, by_value)),
        a.slug@ != b.slug@ ==> listed_before(a, b, by_value) || listed_before(b, a, by_value),
{
    lemma_text_lt_asymmetric(a.slug@, b.slug@);
    if a.slug@ != b.slug@ {
        lemma_text_lt_total(a.slug@, b.slug@);
    }
    if text_lt(a.slug@, b.slug@) && text_lt(b.slug@, c.slug@) {
        lemma_text_lt_transitive(a.slug@, b.slug@, c.slug@);
    }
}

/// Positions of the enabled challenges, in listing order.
pub fn listing(cs: &Vec<Challenge>, by_value: bool) -> (order: Vec<usize>)
    requires
        slugs_unique(cs@),
    ensures
        lists_enabled(cs@, order@, by_value),
{
    let mut order: Vec<usize> = Vec::new();
    let mut k: usize = 0;
    while k < cs.len()
        invariant
            slugs_unique(cs@),
            k <= cs@.len(),
            forall|i: int| 0 <= i < order@.len() ==> #[trigger] order@[i] < k && cs@[order@[i] as int].enabled,
            forall|i: int, j: int|
                0 <= i < order@.len() && 0 <= j < order@.len() && i != j ==> order@[i] != order@[j],
            forall|c: int| 0 <= c < k && (#[trigger] cs@[c]).enabled ==> exists|i: int| 0 <= i < order@.len() && order@[i] == c,
            forall|i: int, j: int|
                0 <= i < j < order@.len() ==> #[trigger] listed_before(cs@[order@[i] as int], cs@[order@[j] as int], by_value),
        decreases cs@.len() - k,
    {
        if cs[k].enabled {
            let c = &cs[k];
            let mut pos: usize = 0;
            while pos < order.len()
                invariant
                    pos <= order@.len(),
                    k < cs@.len(),
                    slugs_unique(cs@),
                    c == cs@[k as int],
                    forall|i: int| 0 <= i < order@.len() ==> #[trigger] order@[i] < k,
                    forall|i: int| 0 <= i < pos ==> #[trigger] listed_before(cs@[order@[i] as int], *c, by_value),
                ensures
                    pos <= order@.len(),
                    forall|i: int| 0 <= i < pos ==> #[trigger] listed_before(cs@[order@[i] as int], *c, by_value),
                    pos < order@.len() ==> listed_before(*c, cs@[order@[pos as int] as int], by_value),
                decreases order@.len() - pos,
            {
                let o = &cs[order[pos]];
                let first = if by_value && c.value != o.value {
                    c.value < o.value
                } else {
                    text_less(c.slug.as_str(), o.slug.as_str())
                };
                if first {
                    break;
                }
                proof {
                    assert(order@[pos as int] != k);
                    assert(c.slug@ != o.slug@);
                    lemma_listed_before_order(*c, *o, *o, by_value);
                }
                pos = pos + 1;
            }
            let ghost before = order@;
            order.insert(pos, k);
            proof {
                assert forall|i: int, j: int| 0 <= i < j < order@.len() implies #[trigger] listed_before(
                    cs@[order@[i] as int],
                    cs@[order@[j] as int],
                    by_value,
                ) by {
                    if j < pos {
                        assert(order@[i] == before[i] && order@[j] == before[j]);
                    } else if j == pos {
                        assert(order@[i] == before[i]);
                    } else if i < pos {
                        assert(order@[i] == before[i] && order@[j] == before[j - 1]);
                        lemma_listed_before_order(cs@[before[i] as int], *c, cs@[before[j - 1] as int], by_value);
                        if j - 1 > pos {
                            assert(listed_before(cs@[before[pos as int] as int], cs@[before[j - 1] as int], by_value));
                            lemma_listed_before_order(*c, cs@[before[pos as int] as int], cs@[before[j - 1] as int], by_value);
                        }
                    } else if i == pos {
                        assert(order@[j] == before[j - 1]);
                        if j - 1 > pos {
                            assert(listed_before(cs@[before[pos as int] as int], cs@[before[j - 1] as int], by_value));
                            lemma_listed_before_order(*c, cs@[before[pos as int] as int], cs@[before[j - 1] as int], by_value);
                        }
                    } else {
                        assert(order@[i] == before[i - 1] && order@[j] == before[j - 1]);
                    }
                }
                assert forall|i: int, j: int|
                    0 <= i < order@.len() && 0 <= j < order@.len() && i != j implies order@[i] != order@[j] by {
                    if i != pos && j != pos {
                        let bi = if i < pos { i } else { i - 1 };
                        let bj = if j < pos { j } else { j - 1 };
                        assert(order@[i] == before[bi] && order@[j] == before[bj]);
                    } else if i == pos {
                        let bj = if j < pos { j } else { j - 1 };
                        assert(order@[j] == before[bj]);
                    } else {
                        let bi = if i < pos { i } else { i - 1 };
                        assert(order@[i] == before[bi]);
                    }
                }
                assert forall|i: int| 0 <= i < order@.len() implies #[trigger] order@[i] < k + 1
                    && cs@[order@[i] as int].enabled by {
                    if i < pos {
                        assert(order@[i] == before[i]);
                    } else if i > pos {
                        assert(order@[i] == before[i - 1]);
                    }
                }
                assert forall|d: int| 0 <= d < k + 1 && (#[trigger] cs@[d]).enabled implies exists|i: int|
                    0 <= i < order@.len() && order@[i] == d by {
                    if d == k {
                        assert(order@[pos as int] == d);
                    } else {
                        let i = choose|i: int| 0 <= i < before.len() && before[i] == d;
                        if i < pos {
                            assert(order@[i] == d);
                        } else {
                            assert(order@[i + 1] == d);
                        }
                    }
                }
            }
        }
        k = k + 1;
    }
    order
}

} // verus!

verus! {

/// One challenge as a viewer sees it on the board.
#[derive(Clone, Copy, Debug, PartialEq, Eq, Structural)]
pub struct Card {
    pub id: u64,
    /// The viewing team has solved it.
    pub solved: bool,
    /// The viewer is a known team that has not solved it, so a flag may be
    /// submitted.
    pub can_submit: bool,
    /// It is the challenge whose flag the viewer last got wrong.
    pub rejected: bool,
}

/// The solve mask of the viewing team, if `team` names a known team.
pub open spec fn viewer_mask(s: CtfView, team: Option<u64>) -> Option<u64> {
    if team is Some && exists|ti: int| s.has_team(ti, team->0) {
        Some(s.teams[choose|ti: int| s.has_team(ti, team->0)].solves)
    } else {
        None
    }
}

/// `card` shows challenge `c` to a viewer with solve mask `viewer` (none
/// when not logged in) whose last wrong flag was for `rejected`.
pub open spec fn card_shows(card: Card, c: Challenge, viewer: Option<u64>, rejected: Seq<char>) -> bool {
    &&& card.id == c.id
    &&& card.solved == (viewer is Some && solved(viewer->0, c.id))
    &&& card.can_submit == (viewer is Some && !card.solved)
    &&& card.rejected == (c.slug@ == rejected)
}

impl Ctf {
    /// The challenge board at `now` for `team`, whose last wrong flag was
    /// for the slug `rejected`: the enabled challenges by value, then slug.
    /// `None` before the competition starts.
    pub fn challenge_board(&self, team: Option<u64>, rejected: &str, now: i64) -> (r: Option<Vec<Card>>)
        requires
            self.wf(),
        ensures
            r is None <==> !started(self@.start, now),
            r is Some ==> (exists|order: Seq<usize>|
                lists_enabled(self@.challenges, order, true) && r->Some_0@.len() == order.len()
                    && forall|i: int|
                    0 <= i < order.len() ==> card_shows(
                        #[trigger] r->Some_0@[i],
                        self@.challenges[order[i] as int],
                        viewer_mask(self@, team),
                        rejected@,
                    )),
    {
        let before = match self.start() {
            Some(s) => now < s,
            None => false,
        };
        if before {
            return None;
        }
        let cs = self.challenges();
        let viewer: Option<u64> = match team {
            Some(id) => match self.find_team(id) {
                Some(ti) => Some(self.teams()[ti].solves),
                None => None,
            },
            None => None,
        };
        proof {
            if team is Some && exists|ti: int| self@.has_team(ti, team->0) {
                let ti = choose|ti: int| self@.has_team(ti, team->0);
                let found = viewer;
                assert(found is Some);
                assert(self@.teams[ti].id == team->0);
            }
        }
        assert(viewer == viewer_mask(self@, team));
        let rejected_s = rejected.to_owned();
        let order = listing(cs, true);
        let mut cards: Vec<Card> = Vec::new();
        let mut i: usize = 0;
        while i < order.len()
            invariant
                cs@ == self@.challenges,
                crate::ctf::challenges_wf(cs@),
                lists_enabled(cs@, order@, true),
                i <= order@.len(),
                cards@.len() == i,
                forall|a: int|
                    0 <= a < i ==> card_shows(#[trigger] cards@[a], cs@[order@[a] as int], viewer, rejected_s@),
            decreases order@.len() - i,
        {
            let c = &cs[order[i]];
            let solved_now = match viewer {
                Some(mask) => is_solved(mask, c.id),
                None => false,
            };
            cards.push(
                Card {
                    id: c.id,
                    solved: solved_now,
                    can_submit: viewer.is_some() && !solved_now,
                    rejected: c.slug == rejected_s,
                },
            );
            i = i + 1;
        }
        Some(cards)
    }
}

} // verus!
