//! Validation of the registration and profile forms.

use vstd::prelude::*;

verus! {

/// A discord handle: two to thirty-two characters, `#`, four digits.
pub const DISCORD_HANDLE: &'static str = r"^.{2,32}?#\d{4}$";

/// Whether `text` has a match for the regular expression `pattern`, as the
/// `regex` crate defines it; false when `pattern` does not compile.
pub uninterp spec fn regex_matches(pattern: Seq<char>, text: Seq<char>) -> bool;

/// Relies on `regex::Regex::new` to compile `pattern` and on
/// `regex::Regex::is_match` to search `text`; the answer depends on the two
/// strings alone.
#[verifier::external_body]
fn regex_is_match(pattern: &str, text: &str) -> (r: bool)
    ensures
        r == regex_matches(pattern@, text@),
{
    match regex::Regex::new(pattern) {
        Ok(re) => re.is_match(text),
        Err(_) => false,
    }
}

/// Why a form was refused.
#[derive(Clone, Copy, Debug, PartialEq, Eq, Structural)]
pub enum FormError {
    NameRequired,
    DiscordRequired,
    PasswordRequired,
    CurrentPasswordRequired,
    /// Over sixty-four characters, or a character that is not printable ASCII.
    InvalidName,
    InvalidDiscord,
}

/// At most sixty-four characters, each printable ASCII or a space.
pub open spec fn valid_team_name(name: Seq<char>) -> bool {
    &&& name.len() <= 64
    &&& forall|i: int| 0 <= i < name.len() ==> ' ' <= #[trigger] name[i] <= '~'
}

/// The outcome of a registration form, checked in this order: the three
/// fields are present, the name is valid, the discord handle matched.
pub open spec fn registration_outcome(
    name: Seq<char>,
    discord: Seq<char>,
    password: Seq<char>,
    discord_ok: bool,
) -> Result<(), FormError> {
    if name.len() == 0 {
        Err(FormError::NameRequired)
    } else if discord.len() == 0 {
        Err(FormError::DiscordRequired)
    } else if password.len() == 0 {
        Err(FormError::PasswordRequired)
    } else if !valid_team_name(name) {
        Err(FormError::InvalidName)
    } else if !discord_ok {
        Err(FormError::InvalidDiscord)
    } else {
        Ok(())
    }
}

/// The outcome of a profile form, checked in this order: the discord handle
/// and the current password are present, the discord handle matched. The
/// new password is optional.
pub open spec fn profile_outcome(
    discord: Seq<char>,
    current_password: Seq<char>,
    discord_ok: bool,
) -> Result<(), FormError> {
    if discord.len() == 0 {
        Err(FormError::DiscordRequired)
    } else if current_password.len() == 0 {
        Err(FormError::CurrentPasswordRequired)
    } else if !discord_ok {
        Err(FormError::InvalidDiscord)
    } else {
        Ok(())
    }
}

/// Whether `name` may be a team name.
pub fn is_valid_team_name(name: &str) -> (r: bool)
    ensures
        r == valid_team_name(name@),
{
    broadcast use vstd::string::group_string_axioms;

    if !name.is_ascii() {
        proof {
            let i = choose|i: int| 0 <= i < name@.len() && !('\0' <= #[trigger] name@[i] <= '\u{7f}');
            assert(!(' ' <= name@[i] <= '~'));
        }
        return false;
    }
    let bytes = name.as_bytes();
    assert(bytes@ =~= Seq::new(name@.len(), |i| name@[i] as u8));
    if bytes.len() > 64 {
        return false;
    }
    let mut i: usize = 0;
    while i < bytes.len()
        invariant
            bytes@ == Seq::new(name@.len(), |i| name@[i] as u8),
            vstd::string::is_ascii(name),
            i <= bytes@.len(),
            forall|j: int| 0 <= j < i ==> ' ' <= #[trigger] name@[j] <= '~',
        decreases bytes@.len() - i,
    {
        let b = bytes[i];
        assert(b == name@[i as int] as u8);
        if b < 0x20 || b > 0x7e {
            return false;
        }
        i = i + 1;
    }
    true
}

/// Checks a registration form, given whether the discord handle matched
/// [`DISCORD_HANDLE`].
pub fn validate_registration(name: &str, discord: &str, password: &str, discord_ok: bool) -> (r:
    Result<(), FormError>)
    ensures
        r == registration_outcome(name@, discord@, password@, discord_ok),
{
    if name.is_empty() {
        Err(FormError::NameRequired)
    } else if discord.is_empty() {
        Err(FormError::DiscordRequired)
    } else if password.is_empty() {
        Err(FormError::PasswordRequired)
    } else if !is_valid_team_name(name) {
        Err(FormError::InvalidName)
    } else if !discord_ok {
        Err(FormError::InvalidDiscord)
    } else {
        Ok(())
    }
}

/// Checks a registration form.
pub fn check_registration(name: &str, discord: &str, password: &str) -> (r: Result<(), FormError>)
    ensures
        r == registration_outcome(
            name@,
            discord@,
            password@,
            regex_matches(DISCORD_HANDLE@, discord@),
        ),
{
    let discord_ok = regex_is_match(DISCORD_HANDLE, discord);
    validate_registration(name, discord, password, discord_ok)
}

/// Checks a profile form, given whether the discord handle matched
/// [`DISCORD_HANDLE`].
pub fn validate_profile(discord: &str, current_password: &str, discord_ok: bool) -> (r: Result<
    (),
    FormError,
>)
    ensures
        r == profile_outcome(discord@, current_password@, discord_ok),
{
    if discord.is_empty() {
        Err(FormError::DiscordRequired)
    } else if current_password.is_empty() {
        Err(FormError::CurrentPasswordRequired)
    } else if !discord_ok {
        Err(FormError::InvalidDiscord)
    } else {
        Ok(())
    }
}

/// Checks a profile form.
pub fn check_profile(discord: &str, current_password: &str) -> (r: Result<(), FormError>)
    ensures
        r == profile_outcome(discord@, current_password@, regex_matches(DISCORD_HANDLE@, discord@)),
{
    let discord_ok = regex_is_match(DISCORD_HANDLE, discord);
    validate_profile(discord, current_password, discord_ok)
}

} // verus!
