use scrap::{listing, ranking, text_less, Card, Challenge, Ctf, Team};

fn sample() -> Ctf {
    let mut ctf = Ctf::new(Some(100), None);
    ctf.add_challenge(String::from("web"), String::from("flag{web}"), 100, true, 0).unwrap();
    ctf.add_challenge(String::from("pwn"), String::from("flag{pwn}"), 200, true, 0).unwrap();
    ctf.add_challenge(String::from("rev"), String::from("flag{rev}"), 100, true, 0).unwrap();
    ctf.add_challenge(String::from("old"), String::from("flag{old}"), 10, false, 0).unwrap();
    ctf.insert_team(Team::new(1, String::from("alpha"), 100)).unwrap();
    ctf.insert_team(Team::new(2, String::from("beta"), 100)).unwrap();
    ctf.insert_team(Team::new(3, String::from("gamma"), 100)).unwrap();
    ctf
}

fn ranked_team(id: u64, score: u64, submit: i64) -> Team {
    let mut t = Team::new(id, format!("t{}", id), submit);
    t.score = score;
    t
}

#[test]
fn earlier_submit_wins_a_tie() {
    let teams = vec![ranked_team(2, 100, 20), ranked_team(1, 100, 10)];
    assert_eq!(ranking(&teams), vec![1, 0]);
}

#[test]
fn ranking_by_score_then_submit() {
    let teams = vec![
        ranked_team(1, 50, 1),
        ranked_team(2, 300, 9),
        ranked_team(3, 300, 4),
        ranked_team(4, 0, 0),
        ranked_team(5, 120, 7),
    ];
    assert_eq!(ranking(&teams), vec![2, 1, 4, 0, 3]);
    assert_eq!(ranking(&Vec::new()), Vec::<usize>::new());
}

#[test]
fn scoreboard_ranks_and_cells() {
    let mut ctf = sample();
    assert!(ctf.scoreboard(99).is_none());
    ctf.submit_flag(Some(2), "rev", "flag{rev}", 110);
    ctf.submit_flag(Some(1), "web", "flag{web}", 120);
    let board = ctf.scoreboard(130).unwrap();
    // enabled challenges by slug: pwn, rev, web
    assert_eq!(board.columns, vec![2, 3, 1]);
    let names: Vec<&str> = board.standings.iter().map(|s| s.name.as_str()).collect();
    assert_eq!(names, vec!["beta", "alpha", "gamma"]);
    let places: Vec<u64> = board.standings.iter().map(|s| s.place).collect();
    assert_eq!(places, vec![1, 2, 3]);
    assert_eq!(board.standings[0].solved, vec![false, true, false]);
    assert_eq!(board.standings[1].solved, vec![false, false, true]);
    assert_eq!(board.standings[2].solved, vec![false, false, false]);
    assert_eq!(board.standings[0].score, 100);
    assert_eq!(board.standings[0].team, 2);
}

#[test]
fn solved_challenge_three_shows_on_scoreboard() {
    let mut ctf = sample();
    ctf.submit_flag(Some(3), "rev", "flag{rev}", 150);
    let gamma = ctf.teams().iter().find(|t| t.id == 3).unwrap();
    assert!(gamma.solves & 4 != 0);
    let board = ctf.scoreboard(200).unwrap();
    let row = board.standings.iter().find(|s| s.team == 3).unwrap();
    let column = board.columns.iter().position(|id| *id == 3).unwrap();
    assert!(row.solved[column]);
}

#[test]
fn challenge_board_order_and_flags() {
    let mut ctf = sample();
    assert!(ctf.challenge_board(Some(1), "", 50).is_none());
    ctf.submit_flag(Some(1), "rev", "flag{rev}", 150);
    let cards = ctf.challenge_board(Some(1), "web", 160).unwrap();
    assert_eq!(
        cards,
        vec![
            Card { id: 3, solved: true, can_submit: false, rejected: false },
            Card { id: 1, solved: false, can_submit: true, rejected: true },
            Card { id: 2, solved: false, can_submit: true, rejected: false },
        ]
    );
    let anonymous = ctf.challenge_board(None, "", 160).unwrap();
    assert!(anonymous.iter().all(|c| !c.solved && !c.can_submit && !c.rejected));
    let unknown = ctf.challenge_board(Some(77), "", 160).unwrap();
    assert!(unknown.iter().all(|c| !c.can_submit));
}

#[test]
fn listing_orders() {
    let cs = vec![
        Challenge { id: 1, slug: String::from("b"), flag: String::new(), value: 5, solves: 0, enabled: true },
        Challenge { id: 2, slug: String::from("a"), flag: String::new(), value: 9, solves: 0, enabled: true },
        Challenge { id: 3, slug: String::from("ab"), flag: String::new(), value: 5, solves: 0, enabled: false },
        Challenge { id: 4, slug: String::from("aa"), flag: String::new(), value: 5, solves: 0, enabled: true },
    ];
    assert_eq!(listing(&cs, true), vec![3, 0, 1]);
    assert_eq!(listing(&cs, false), vec![1, 3, 0]);
}

#[test]
fn character_order() {
    assert!(text_less("a", "b"));
    assert!(text_less("", "a"));
    assert!(text_less("ab", "abc"));
    assert!(!text_less("abc", "ab"));
    assert!(!text_less("same", "same"));
    assert!(text_less("Zed", "apple"));
    assert!(text_less("caf", "café"));
    assert!(!text_less("é", "z"));
}
