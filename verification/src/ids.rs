//! Identifiers: Discord snowflakes and the bot's own random ids.
use vstd::prelude::*;

verus! {

/// A Discord user.
pub type UserId = u64;
/// A Discord channel.
pub type ChannelId = u64;
/// A Discord role.
pub type RoleId = u64;
/// A Discord message.
pub type MessageId = u64;
/// A Discord server.
pub type GuildId = u64;
/// A matchmaking queue, as the 128 bits of its UUID.
pub type QueueUuid = u128;
/// A party of players, as the 128 bits of its UUID.
pub type GroupUuid = u128;
/// A match, as the 128 bits of its UUID.
pub type MatchUuid = u128;

/// A fresh random (version 4) UUID, as its 128 bits.
///
/// Calls `uuid::Uuid::new_v4` and `Uuid::as_u128`. The value is random; what is claimed
/// holds of every outcome: `new_v4` sets the version field to 4 and the variant bits to
/// `10`. It draws its bits from `rand`, which panics when the system's random source
/// fails; the call takes no input by which that case could be excluded.
#[verifier::external_body]
pub fn new_uuid() -> (id: u128)
    ensures
        id & 0x0000_0000_0000_F000_0000_0000_0000_0000 == 0x0000_0000_0000_4000_0000_0000_0000_0000,
        id & 0x0000_0000_0000_0000_C000_0000_0000_0000 == 0x0000_0000_0000_0000_8000_0000_0000_0000,
{
    uuid::Uuid::new_v4().as_u128()
}

} // verus!
