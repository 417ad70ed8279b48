use scrap::{Ctf, Draw, Prize, StoreError, Submission, Team, Winnings, MAX_CHALLENGE_ID};

fn team(ctf: &Ctf, id: u64) -> &Team {
    ctf.teams().iter().find(|t| t.id == id).unwrap()
}

/// Three challenges worth 100, 200 and 50; teams 1 "alpha" and 2 "beta".
fn sample() -> Ctf {
    let mut ctf = Ctf::new(Some(100), Some(1000));
    assert_eq!(ctf.add_challenge(String::from("web"), String::from("flag{web}"), 100, true, 0), Ok(1));
    assert_eq!(ctf.add_challenge(String::from("pwn"), String::from("flag{pwn}"), 200, true, 0), Ok(2));
    assert_eq!(ctf.add_challenge(String::from("rev"), String::from("flag{rev}"), 50, true, 0), Ok(3));
    assert_eq!(ctf.insert_team(Team::new(1, String::from("alpha"), 100)), Ok(()));
    assert_eq!(ctf.insert_team(Team::new(2, String::from("beta"), 100)), Ok(()));
    ctf
}

fn scores_match_solves(ctf: &Ctf) -> bool {
    ctf.teams().iter().all(|t| {
        let sum: u64 = ctf
            .challenges()
            .iter()
            .filter(|c| t.solves & (1u64 << (c.id - 1)) != 0)
            .map(|c| c.value as u64)
            .sum();
        t.score == sum
    })
}

#[test]
fn correct_flag_is_credited() {
    let mut ctf = sample();
    assert_eq!(ctf.submit_flag(Some(1), "pwn", "flag{pwn}", 150), Submission::Credited);
    let t = team(&ctf, 1);
    assert_eq!(t.solves, 2);
    assert_eq!(t.score, 200);
    assert_eq!(t.submit, 150);
    assert_eq!(ctf.challenges()[1].solves, 1);
    assert_eq!(team(&ctf, 2).score, 0);
}

#[test]
fn score_follows_solves_after_every_submission() {
    let mut ctf = sample();
    let steps = [
        (1, "web", "flag{web}"),
        (2, "rev", "nope"),
        (2, "rev", "flag{rev}"),
        (1, "rev", "flag{rev}"),
        (1, "web", "flag{web}"),
        (2, "pwn", "flag{pwn}"),
    ];
    for (i, (id, slug, flag)) in steps.iter().enumerate() {
        ctf.submit_flag(Some(*id), slug, flag, 200 + i as i64);
        assert!(scores_match_solves(&ctf));
    }
    assert_eq!(team(&ctf, 1).score, 150);
    assert_eq!(team(&ctf, 2).score, 250);
}

#[test]
fn second_identical_submission_is_rejected() {
    let mut ctf = sample();
    assert_eq!(ctf.submit_flag(Some(1), "web", "flag{web}", 150), Submission::Credited);
    assert_eq!(
        ctf.submit_flag(Some(1), "web", "flag{web}", 160),
        Submission::Rejected(String::from("web"))
    );
    let t = team(&ctf, 1);
    assert_eq!(t.score, 100);
    assert_eq!(t.submit, 150);
    assert_eq!(ctf.challenges()[0].solves, 1);
}

#[test]
fn racing_submissions_credit_once() {
    // Both requests hold the same team, slug and flag; the store applies
    // them one at a time, so exactly one is credited.
    let mut ctf = sample();
    let first = ctf.submit_flag(Some(2), "pwn", "flag{pwn}", 300);
    let second = ctf.submit_flag(Some(2), "pwn", "flag{pwn}", 300);
    let credited = [&first, &second].iter().filter(|r| ***r == Submission::Credited).count();
    assert_eq!(credited, 1);
    assert_eq!(ctf.challenges()[1].solves, 1);
    assert_eq!(team(&ctf, 2).score, 200);
}

#[test]
fn other_team_can_still_solve() {
    let mut ctf = sample();
    assert_eq!(ctf.submit_flag(Some(1), "web", "flag{web}", 150), Submission::Credited);
    assert_eq!(ctf.submit_flag(Some(2), "web", "flag{web}", 151), Submission::Credited);
    assert_eq!(ctf.challenges()[0].solves, 2);
}

#[test]
fn wrong_flag_unknown_slug_or_team_is_rejected() {
    let mut ctf = sample();
    let cases = [
        (Some(1), "web", "flag{pwn}"),
        (Some(1), "web", "flag{web} "),
        (Some(1), "crypto", "flag{web}"),
        (Some(9), "web", "flag{web}"),
        (None, "web", "flag{web}"),
    ];
    for (id, slug, flag) in cases {
        assert_eq!(ctf.submit_flag(id, slug, flag, 150), Submission::Rejected(String::from(slug)));
    }
    assert!(ctf.teams().iter().all(|t| t.solves == 0 && t.score == 0 && t.submit == 100));
    assert!(ctf.challenges().iter().all(|c| c.solves == 0));
}

#[test]
fn closed_window_changes_nothing() {
    let mut ctf = sample();
    assert_eq!(ctf.submit_flag(Some(1), "web", "flag{web}", 99), Submission::Closed);
    assert_eq!(ctf.submit_flag(Some(1), "web", "flag{web}", 1001), Submission::Closed);
    assert_eq!(team(&ctf, 1).solves, 0);
    assert_eq!(ctf.submit_flag(Some(1), "web", "flag{web}", 1000), Submission::Credited);
}

#[test]
fn adding_a_challenge_rescores_teams_holding_its_bit() {
    let mut ctf = Ctf::new(None, None);
    ctf.add_challenge(String::from("a"), String::from("fa"), 10, true, 0).unwrap();
    let mut t = Team::new(7, String::from("seven"), 0);
    t.solves = 0b11;
    t.score = 10;
    assert_eq!(ctf.insert_team(t), Ok(()));
    assert_eq!(ctf.add_challenge(String::from("b"), String::from("fb"), 5, false, 1), Ok(2));
    assert_eq!(team(&ctf, 7).score, 15);
}

#[test]
fn challenge_slug_conflict_and_capacity() {
    let mut ctf = Ctf::new(None, None);
    for i in 1..=MAX_CHALLENGE_ID {
        assert_eq!(ctf.add_challenge(format!("c{}", i), String::from("f"), 1, true, 0), Ok(i));
    }
    assert_eq!(ctf.add_challenge(String::from("c1"), String::from("f"), 1, true, 0), Err(StoreError::Full));
    let mut small = sample();
    assert_eq!(
        small.add_challenge(String::from("web"), String::from("x"), 1, true, 0),
        Err(StoreError::Conflict)
    );
    assert_eq!(small.challenges().len(), 3);
}

#[test]
fn team_conflicts_and_integrity() {
    let mut ctf = sample();
    assert_eq!(ctf.insert_team(Team::new(1, String::from("gamma"), 0)), Err(StoreError::Conflict));
    assert_eq!(ctf.insert_team(Team::new(3, String::from("beta"), 0)), Err(StoreError::Conflict));
    let mut drifted = Team::new(3, String::from("gamma"), 0);
    drifted.solves = 1;
    assert_eq!(ctf.insert_team(drifted), Err(StoreError::Integrity));
    let mut over = Team::new(3, String::from("gamma"), 0);
    over.redeemed_score = 50;
    assert_eq!(ctf.insert_team(over), Err(StoreError::Integrity));
    let mut unpaid = Team::new(3, String::from("gamma"), 0);
    unpaid.solves = 1;
    unpaid.score = 100;
    unpaid.redeemed_score = 50;
    unpaid.winnings.cyber_stickers = 2;
    assert_eq!(ctf.insert_team(unpaid), Err(StoreError::Integrity));
    let mut fine = Team::new(3, String::from("gamma"), 0);
    fine.solves = 0b11;
    fine.score = 300;
    fine.redeemed_score = 100;
    fine.winnings.cyber_stickers = 1;
    fine.winnings.zoom_background = 1;
    assert_eq!(ctf.insert_team(fine), Ok(()));
    assert_eq!(ctf.teams().len(), 3);
}

#[test]
fn three_tickets_then_two() {
    let mut ctf = Ctf::new(None, None);
    ctf.add_challenge(String::from("a"), String::from("fa"), 150, true, 0).unwrap();
    ctf.insert_team(Team::new(1, String::from("alpha"), 0)).unwrap();
    ctf.submit_flag(Some(1), "a", "fa", 5);
    assert_eq!(team(&ctf, 1).score, 150);
    assert_eq!(ctf.regular_tickets(1), Some(3));
    let drawn = ctf.redeem_regular(1, 0);
    assert_eq!(drawn, Draw::Won(Prize::ZoomBackground));
    let t = team(&ctf, 1);
    assert_eq!(t.redeemed_score, 50);
    assert_eq!(t.winnings.zoom_background, 1);
    assert_eq!(ctf.regular_tickets(1), Some(2));
    assert_eq!(ctf.regular_tickets(2), None);
}

#[test]
fn no_ticket_changes_nothing() {
    let mut ctf = Ctf::new(None, None);
    ctf.add_challenge(String::from("a"), String::from("fa"), 49, true, 0).unwrap();
    ctf.insert_team(Team::new(1, String::from("alpha"), 0)).unwrap();
    ctf.submit_flag(Some(1), "a", "fa", 5);
    assert_eq!(ctf.regular_tickets(1), Some(0));
    assert_eq!(ctf.redeem_regular(1, 700), Draw::InsufficientTickets);
    let t = team(&ctf, 1);
    assert_eq!(t.redeemed_score, 0);
    assert_eq!(t.winnings, Winnings::none());
    assert_eq!(ctf.redeem_regular(42, 700), Draw::InsufficientTickets);
}

#[test]
fn scarce_prize_won_once() {
    let mut ctf = Ctf::new(None, None);
    ctf.add_challenge(String::from("a"), String::from("fa"), 500, true, 0).unwrap();
    ctf.insert_team(Team::new(1, String::from("alpha"), 0)).unwrap();
    ctf.submit_flag(Some(1), "a", "fa", 5);
    // 700 lands on the role while it is not owned
    assert_eq!(ctf.redeem_regular(1, 700), Draw::Won(Prize::DiscordRole));
    // once owned, the same roll lands elsewhere, and no roll gives the role
    assert_eq!(ctf.redeem_regular(1, 700), Draw::Won(Prize::ProfilePicture));
    for roll in 0..1000 {
        let mut copy = Ctf::new(None, None);
        copy.add_challenge(String::from("a"), String::from("fa"), 500, true, 0).unwrap();
        let mut t = Team::new(1, String::from("alpha"), 0);
        t.solves = 1;
        t.score = 500;
        t.redeemed_score = 50;
        t.winnings.discord_role = 1;
        copy.insert_team(t).unwrap();
        assert_ne!(copy.redeem_regular(1, roll), Draw::Won(Prize::DiscordRole));
    }
    let t = team(&ctf, 1);
    assert_eq!(t.winnings.discord_role, 1);
    assert_eq!(t.redeemed_score, 100);
}

#[test]
fn premium_ticket_enters_raffle() {
    let mut ctf = sample();
    assert_eq!(ctf.redeem_premium(1), Draw::InsufficientTickets);
    assert!(ctf.raffle().is_empty());
    assert!(ctf.grant_premium_tickets("alpha", 2));
    assert_eq!(ctf.redeem_premium(1), Draw::Entered);
    assert_eq!(team(&ctf, 1).premium_tickets, 1);
    assert_eq!(ctf.raffle(), &vec![1u64]);
    assert_eq!(ctf.redeem_premium(1), Draw::Entered);
    assert_eq!(ctf.redeem_premium(1), Draw::InsufficientTickets);
    assert_eq!(ctf.raffle(), &vec![1u64, 1]);
    assert_eq!(ctf.redeem_premium(9), Draw::InsufficientTickets);
}

#[test]
fn grant_needs_a_team_and_room() {
    let mut ctf = sample();
    assert!(!ctf.grant_premium_tickets("nobody", 1));
    assert!(ctf.grant_premium_tickets("beta", i64::MAX));
    assert!(ctf.grant_premium_tickets("beta", i64::MAX));
    assert_eq!(team(&ctf, 2).premium_tickets, u64::MAX - 1);
    assert!(!ctf.grant_premium_tickets("beta", 2));
    assert!(ctf.grant_premium_tickets("beta", 1));
    assert_eq!(team(&ctf, 2).premium_tickets, u64::MAX);
}

#[test]
fn negative_grant_takes_tickets_away() {
    let mut ctf = sample();
    assert!(!ctf.grant_premium_tickets("alpha", -1));
    assert_eq!(team(&ctf, 1).premium_tickets, 0);
    assert!(ctf.grant_premium_tickets("alpha", 3));
    assert!(ctf.grant_premium_tickets("alpha", -2));
    assert_eq!(team(&ctf, 1).premium_tickets, 1);
    assert!(!ctf.grant_premium_tickets("alpha", -2));
    assert_eq!(team(&ctf, 1).premium_tickets, 1);
}

#[test]
fn full_solve_counter_fails_the_submission() {
    let mut ctf = Ctf::new(None, None);
    ctf.add_challenge(String::from("a"), String::from("fa"), 10, true, u64::MAX).unwrap();
    ctf.insert_team(Team::new(1, String::from("alpha"), 0)).unwrap();
    assert_eq!(ctf.submit_flag(Some(1), "a", "fa", 5), Submission::Rejected(String::from("a")));
    assert_eq!(team(&ctf, 1).solves, 0);
    assert_eq!(team(&ctf, 1).score, 0);
    assert_eq!(ctf.challenges()[0].solves, u64::MAX);
}

#[test]
fn accessors() {
    let ctf = sample();
    assert_eq!(ctf.start(), Some(100));
    assert_eq!(ctf.stop(), Some(1000));
    assert_eq!(ctf.find_team(2), Some(1));
    assert_eq!(ctf.find_team(3), None);
    assert_eq!(ctf.find_team_by_name(&String::from("alpha")), Some(0));
    assert_eq!(ctf.find_challenge(&String::from("rev")), Some(2));
    assert_eq!(ctf.find_challenge(&String::from("misc")), None);
}
