use scrap::{draw, weight_of, Prize, Winnings, WEIGHT_SCALE};

const ALL: [Prize; 6] = [
    Prize::ZoomBackground,
    Prize::ProfilePicture,
    Prize::CyberStickers,
    Prize::DiscordRole,
    Prize::DiscordEmote,
    Prize::AarinSerenade,
];

fn owning(stickers: bool, role: bool, emote: bool, serenade: bool) -> Winnings {
    let mut w = Winnings::none();
    w.cyber_stickers = stickers as u64;
    w.discord_role = role as u64;
    w.discord_emote = emote as u64;
    w.aarin_serenade = serenade as u64;
    w
}

fn every_ownership() -> Vec<Winnings> {
    (0..16u32)
        .map(|m| owning(m & 1 != 0, m & 2 != 0, m & 4 != 0, m & 8 != 0))
        .collect()
}

#[test]
fn base_weights() {
    let w = Winnings::none();
    let got: Vec<u64> = ALL.iter().map(|p| weight_of(&w, *p)).collect();
    assert_eq!(got, vec![402, 268, 20, 300, 5, 5]);
}

#[test]
fn owned_mass_goes_sixty_forty() {
    let w = owning(true, false, false, false);
    assert_eq!(weight_of(&w, Prize::CyberStickers), 0);
    assert_eq!(weight_of(&w, Prize::ZoomBackground), 414);
    assert_eq!(weight_of(&w, Prize::ProfilePicture), 276);
    let w = owning(false, true, false, false);
    assert_eq!(weight_of(&w, Prize::ZoomBackground), 582);
    assert_eq!(weight_of(&w, Prize::ProfilePicture), 388);
    let all = owning(true, true, true, true);
    assert_eq!(weight_of(&all, Prize::ZoomBackground), 600);
    assert_eq!(weight_of(&all, Prize::ProfilePicture), 400);
}

#[test]
fn weights_sum_to_one_hundred_percent() {
    for w in every_ownership() {
        let total: u64 = ALL.iter().map(|p| weight_of(&w, *p)).sum();
        assert_eq!(total, WEIGHT_SCALE);
    }
}

#[test]
fn owned_scarce_prize_is_never_drawn() {
    for w in every_ownership() {
        for roll in 0..WEIGHT_SCALE {
            let p = draw(&w, roll);
            assert!(w.count_of(p) == 0 || p == Prize::ZoomBackground || p == Prize::ProfilePicture);
            assert!(weight_of(&w, p) > 0);
        }
    }
}

#[test]
fn draw_boundaries() {
    let w = Winnings::none();
    assert_eq!(draw(&w, 0), Prize::ZoomBackground);
    assert_eq!(draw(&w, 401), Prize::ZoomBackground);
    assert_eq!(draw(&w, 402), Prize::ProfilePicture);
    assert_eq!(draw(&w, 669), Prize::ProfilePicture);
    assert_eq!(draw(&w, 670), Prize::CyberStickers);
    assert_eq!(draw(&w, 689), Prize::CyberStickers);
    assert_eq!(draw(&w, 690), Prize::DiscordRole);
    assert_eq!(draw(&w, 989), Prize::DiscordRole);
    assert_eq!(draw(&w, 990), Prize::DiscordEmote);
    assert_eq!(draw(&w, 995), Prize::AarinSerenade);
    assert_eq!(draw(&w, 999), Prize::AarinSerenade);
    assert_eq!(draw(&w, 1000), Prize::ZoomBackground);
    assert_eq!(draw(&w, u64::MAX), draw(&w, u64::MAX % 1000));
}

#[test]
fn draw_counts_match_weights() {
    for w in every_ownership() {
        for p in ALL {
            let hits = (0..WEIGHT_SCALE).filter(|r| draw(&w, *r) == p).count() as u64;
            assert_eq!(hits, weight_of(&w, p));
        }
    }
}

#[test]
fn one_more_prize() {
    let w = Winnings::none().with_one_more(Prize::DiscordRole);
    assert_eq!(w.count_of(Prize::DiscordRole), 1);
    for p in ALL {
        if p != Prize::DiscordRole {
            assert_eq!(w.count_of(p), 0);
        }
    }
}

#[test]
fn prize_names() {
    assert_eq!(Prize::ZoomBackground.name(), "Zoom Background");
    assert_eq!(Prize::ProfilePicture.name(), "Profile Picture");
    assert_eq!(Prize::CyberStickers.name(), "Cyber Stickers");
    assert_eq!(Prize::DiscordRole.name(), "Cyber Discord Role");
    assert_eq!(Prize::DiscordEmote.name(), "Cyber Discord Emote");
    assert_eq!(Prize::AarinSerenade.name(), "Aarin Serenade");
}
