//! The reward lottery: prizes, their weights and the weighted draw.
//!
//! Weights are in tenths of a percent, so that the half-percent prizes have
//! whole weights and every weight vector sums to `WEIGHT_SCALE`, which is
//! one hundred percent. A scarce prize can be won once per team: once owned,
//! its weight drops to zero and its mass goes to the two unlimited prizes,
//! sixty percent to the zoom background and forty to the profile picture.

use vstd::prelude::*;

verus! {

/// One hundred percent, in tenths of a percent.
pub const WEIGHT_SCALE: u64 = 1000;

/// Score that one regular ticket costs.
pub const TICKET_COST: u64 = 50;

#[derive(Clone, Copy, Debug, PartialEq, Eq, Structural)]
pub enum Prize {
    ZoomBackground,
    ProfilePicture,
    CyberStickers,
    DiscordRole,
    DiscordEmote,
    AarinSerenade,
}

impl Prize {
    /// At most one per team.
    pub open spec fn is_scarce(self) -> bool {
        !(self is ZoomBackground || self is ProfilePicture)
    }

    /// Weight of the prize when the team owns no scarce prize.
    pub open spec fn base_weight(self) -> int {
        match self {
            Prize::ZoomBackground => 402,
            Prize::ProfilePicture => 268,
            Prize::CyberStickers => 20,
            Prize::DiscordRole => 300,
            Prize::DiscordEmote => 5,
            Prize::AarinSerenade => 5,
        }
    }

    /// The name under which the prize is recorded and shown.
    pub fn name(&self) -> (r: &'static str)
        ensures
            r@ == prize_name(*self),
    {
        match self {
            Prize::ZoomBackground => "Zoom Background",
            Prize::ProfilePicture => "Profile Picture",
            Prize::CyberStickers => "Cyber Stickers",
            Prize::DiscordRole => "Cyber Discord Role",
            Prize::DiscordEmote => "Cyber Discord Emote",
            Prize::AarinSerenade => "Aarin Serenade",
        }
    }
}

/// The recorded name of each prize.
pub open spec fn prize_name(p: Prize) -> Seq<char> {
    match p {
        Prize::ZoomBackground => "Zoom Background"@,
        Prize::ProfilePicture => "Profile Picture"@,
        Prize::CyberStickers => "Cyber Stickers"@,
        Prize::DiscordRole => "Cyber Discord Role"@,
        Prize::DiscordEmote => "Cyber Discord Emote"@,
        Prize::AarinSerenade => "Aarin Serenade"@,
    }
}

/// How many times a team has won each prize.
#[derive(Clone, Copy, Debug, PartialEq, Eq, Structural)]
pub struct Winnings {
    pub zoom_background: u64,
    pub profile_picture: u64,
    pub cyber_stickers: u64,
    pub discord_role: u64,
    pub discord_emote: u64,
    pub aarin_serenade: u64,
}

impl Winnings {
    pub open spec fn count(self, p: Prize) -> u64 {
        match p {
            Prize::ZoomBackground => self.zoom_background,
            Prize::ProfilePicture => self.profile_picture,
            Prize::CyberStickers => self.cyber_stickers,
            Prize::DiscordRole => self.discord_role,
            Prize::DiscordEmote => self.discord_emote,
            Prize::AarinSerenade => self.aarin_serenade,
        }
    }

    /// These winnings with one more of `p`.
    pub open spec fn plus(self, p: Prize) -> Winnings {
        match p {
            Prize::ZoomBackground => Winnings { zoom_background: (self.zoom_background + 1) as u64, ..self },
            Prize::ProfilePicture => Winnings { profile_picture: (self.profile_picture + 1) as u64, ..self },
            Prize::CyberStickers => Winnings { cyber_stickers: (self.cyber_stickers + 1) as u64, ..self },
            Prize::DiscordRole => Winnings { discord_role: (self.discord_role + 1) as u64, ..self },
            Prize::DiscordEmote => Winnings { discord_emote: (self.discord_emote + 1) as u64, ..self },
            Prize::AarinSerenade => Winnings { aarin_serenade: (self.aarin_serenade + 1) as u64, ..self },
        }
    }

    pub open spec fn owns(self, p: Prize) -> bool {
        self.count(p) > 0
    }

    /// A team that has won nothing.
    pub fn none() -> (r: Winnings)
        ensures
            forall|p: Prize| r.count(p) == 0,
    {
        Winnings {
            zoom_background: 0,
            profile_picture: 0,
            cyber_stickers: 0,
            discord_role: 0,
            discord_emote: 0,
            aarin_serenade: 0,
        }
    }

    pub fn count_of(&self, p: Prize) -> (r: u64)
        ensures
            r == self.count(p),
    {
        match p {
            Prize::ZoomBackground => self.zoom_background,
            Prize::ProfilePicture => self.profile_picture,
            Prize::CyberStickers => self.cyber_stickers,
            Prize::DiscordRole => self.discord_role,
            Prize::DiscordEmote => self.discord_emote,
            Prize::AarinSerenade => self.aarin_serenade,
        }
    }

    /// These winnings with one more of `p`.
    pub fn with_one_more(&self, p: Prize) -> (r: Winnings)
        requires
            self.count(p) < u64::MAX,
        ensures
            r == self.plus(p),
            r.count(p) == self.count(p) + 1,
            forall|q: Prize| q != p ==> r.count(q) == self.count(q),
    {
        let mut r = *self;
        match p {
            Prize::ZoomBackground => r.zoom_background = r.zoom_background + 1,
            Prize::ProfilePicture => r.profile_picture = r.profile_picture + 1,
            Prize::CyberStickers => r.cyber_stickers = r.cyber_stickers + 1,
            Prize::DiscordRole => r.discord_role = r.discord_role + 1,
            Prize::DiscordEmote => r.discord_emote = r.discord_emote + 1,
            Prize::AarinSerenade => r.aarin_serenade = r.aarin_serenade + 1,
        }
        r
    }
}

/// Base weight of `p` if it is scarce and owned: the mass it gives up.
pub open spec fn forfeited(w: Winnings, p: Prize) -> int {
    if p.is_scarce() && w.owns(p) {
        p.base_weight()
    } else {
        0
    }
}

/// The mass that owned scarce prizes give up.
pub open spec fn forfeited_mass(w: Winnings) -> int {
    forfeited(w, Prize::CyberStickers) + forfeited(w, Prize::DiscordRole) + forfeited(
        w,
        Prize::DiscordEmote,
    ) + forfeited(w, Prize::AarinSerenade)
}

/// Weight of `p` in a regular draw for a team with winnings `w`.
pub open spec fn weight(w: Winnings, p: Prize) -> int {
    match p {
        Prize::ZoomBackground => p.base_weight() + forfeited_mass(w) * 3 / 5,
        Prize::ProfilePicture => p.base_weight() + forfeited_mass(w) * 2 / 5,
        _ => if w.owns(p) {
            0
        } else {
            p.base_weight()
        },
    }
}

/// Sum of the weights of the prizes that come before `p` in a draw.
pub open spec fn weight_before(w: Winnings, p: Prize) -> int {
    let zoom = weight(w, Prize::ZoomBackground);
    let picture = weight(w, Prize::ProfilePicture);
    let stickers = weight(w, Prize::CyberStickers);
    let role = weight(w, Prize::DiscordRole);
    let emote = weight(w, Prize::DiscordEmote);
    match p {
        Prize::ZoomBackground => 0,
        Prize::ProfilePicture => zoom,
        Prize::CyberStickers => zoom + picture,
        Prize::DiscordRole => zoom + picture + stickers,
        Prize::DiscordEmote => zoom + picture + stickers + role,
        Prize::AarinSerenade => zoom + picture + stickers + role + emote,
    }
}

/// Sum of all six weights.
pub open spec fn weight_total(w: Winnings) -> int {
    weight_before(w, Prize::AarinSerenade) + weight(w, Prize::AarinSerenade)
}

/// A roll lands on `p`: reduced below `WEIGHT_SCALE`, it falls in `p`'s
/// share of the cumulative weights.
pub open spec fn lands(w: Winnings, roll: u64, p: Prize) -> bool {
    weight_before(w, p) <= roll % WEIGHT_SCALE < weight_before(w, p) + weight(w, p)
}

/// Weight of `p` for a team with winnings `w`, in tenths of a percent.
pub fn weight_of(w: &Winnings, p: Prize) -> (r: u64)
    ensures
        r == weight(*w, p),
{
    let mut forfeit: u64 = 0;
    if w.cyber_stickers > 0 {
        forfeit = forfeit + 20;
    }
    if w.discord_role > 0 {
        forfeit = forfeit + 300;
    }
    if w.discord_emote > 0 {
        forfeit = forfeit + 5;
    }
    if w.aarin_serenade > 0 {
        forfeit = forfeit + 5;
    }
    assert(forfeit == forfeited_mass(*w));
    match p {
        Prize::ZoomBackground => 402 + forfeit * 3 / 5,
        Prize::ProfilePicture => 268 + forfeit * 2 / 5,
        Prize::CyberStickers => if w.cyber_stickers > 0 {
            0
        } else {
            20
        },
        Prize::DiscordRole => if w.discord_role > 0 {
            0
        } else {
            300
        },
        Prize::DiscordEmote => if w.discord_emote > 0 {
            0
        } else {
            5
        },
        Prize::AarinSerenade => if w.aarin_serenade > 0 {
            0
        } else {
            5
        },
    }
}

/// The weights always make a whole distribution: they sum to one hundred
/// percent, whichever scarce prizes the team owns.
pub proof fn lemma_weights_sum_to_scale(w: Winnings)
    ensures
        weight_total(w) == WEIGHT_SCALE,
        forall|p: Prize| 0 <= #[trigger] weight(w, p),
{
}

/// A scarce prize that the team owns has weight zero and is never drawn,
/// whatever the roll.
pub proof fn lemma_owned_scarce_never_drawn(w: Winnings, p: Prize, roll: u64, q: Prize)
    requires
        p.is_scarce(),
        w.owns(p),
        lands(w, roll, q),
    ensures
        weight(w, p) == 0,
        q != p,
{
}

/// Draws a prize for a team with winnings `w`. The roll, reduced below
/// `WEIGHT_SCALE`, picks the prize whose share of the cumulative weights
/// holds it.
pub fn draw(w: &Winnings, roll: u64) -> (r: Prize)
    ensures
        lands(*w, roll, r),
{
    proof {
        lemma_weights_sum_to_scale(*w);
    }
    let x = roll % WEIGHT_SCALE;
    let mut upto: u64 = weight_of(w, Prize::ZoomBackground);
    if x < upto {
        return Prize::ZoomBackground;
    }
    upto = upto + weight_of(w, Prize::ProfilePicture);
    if x < upto {
        return Prize::ProfilePicture;
    }
    upto = upto + weight_of(w, Prize::CyberStickers);
    if x < upto {
        return Prize::CyberStickers;
    }
    upto = upto + weight_of(w, Prize::DiscordRole);
    if x < upto {
        return Prize::DiscordRole;
    }
    upto = upto + weight_of(w, Prize::DiscordEmote);
    if x < upto {
        return Prize::DiscordEmote;
    }
    Prize::AarinSerenade
}

} // verus!
