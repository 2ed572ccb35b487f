//! Decisions of the playback lifecycle, one attempt per room:
//! resolving → reserving → joining → streaming → terminated.
//!
//! The transport work between the stages — resolving room membership,
//! joining a voice channel, starting the stream, the guard delay and the
//! best-effort leave after a failed join — happens outside this crate; the
//! caller feeds each stage's outcome to the next decision here. Every
//! failure past the reserving stage gives the room reservation back, and
//! both asynchronous termination signals resolve to the same idempotent
//! release.

use vstd::prelude::*;

use crate::registry::RoomRegistry;
use crate::registry::spec_release;

verus! {

/// User-visible outcome of one playback attempt.
#[derive(Debug, Clone, Copy, PartialEq, Eq, Structural)]
pub enum PlayStatus {
    AlreadyPlaying,
    SoundNotFound,
    StartedPlaying,
    VoiceChannelNotFound,
    GuildNotFound,
    JoinError,
}

/// Outcome of the resolving and reserving stages.
#[derive(Debug)]
pub enum StartOutcome {
    /// The attempt holds the room and may join; the locator passes through.
    Reserved(String),
    /// The attempt ends here with this status.
    Rejected(PlayStatus),
}

/// Outcome of voice-channel resolution.
#[derive(Debug, Clone, Copy, PartialEq, Eq, Structural)]
pub enum ChannelDecision {
    /// Join this voice channel; the reservation stands.
    Join(u64),
    /// The attempt ends with this status; the reservation was given back.
    Abort(PlayStatus),
}

/// Resolving and reserving. No locator ends the attempt as `SoundNotFound`;
/// a busy room ends it as `AlreadyPlaying`; both leave the registry as it
/// was, with no transport side effects. An idle room is reserved in the
/// same step — check-and-set — and the attempt proceeds.
pub fn start_attempt(registry: &mut RoomRegistry, room: u64, sound_uri: Option<String>) -> (r:
    StartOutcome)
    requires
        old(registry).wf(),
    ensures
        final(registry).wf(),
        match sound_uri {
            None => r == StartOutcome::Rejected(PlayStatus::SoundNotFound) && final(registry)@
                == old(registry)@,
            Some(uri) => {
                if old(registry)@.contains(room) {
                    r == StartOutcome::Rejected(PlayStatus::AlreadyPlaying) && final(registry)@
                        == old(registry)@
                } else {
                    r == StartOutcome::Reserved(uri) && final(registry)@ == old(registry)@.insert(
                        room,
                    )
                }
            },
        },
{
    match sound_uri {
        None => StartOutcome::Rejected(PlayStatus::SoundNotFound),
        Some(uri) => {
            if registry.try_reserve(room) {
                StartOutcome::Reserved(uri)
            } else {
                StartOutcome::Rejected(PlayStatus::AlreadyPlaying)
            }
        },
    }
}

/// Joining, first half: what the transport reported of the room and of the
/// requesting member's voice channel. An unresolvable room or a member in
/// no voice channel ends the attempt — giving the reservation back — as
/// `GuildNotFound` or `VoiceChannelNotFound`; otherwise the attempt joins
/// the resolved channel.
pub fn resolve_channel(
    registry: &mut RoomRegistry,
    room: u64,
    guild_found: bool,
    voice_channel: Option<u64>,
) -> (r: ChannelDecision)
    requires
        old(registry).wf(),
    ensures
        final(registry).wf(),
        !guild_found ==> r == ChannelDecision::Abort(PlayStatus::GuildNotFound)
            && final(registry)@ == spec_release(old(registry)@, room),
        guild_found && voice_channel is None ==> r == ChannelDecision::Abort(
            PlayStatus::VoiceChannelNotFound,
        ) && final(registry)@ == spec_release(old(registry)@, room),
        guild_found && voice_channel is Some ==> (voice_channel matches Some(ch) && r
            == ChannelDecision::Join(ch) && final(registry)@ == old(registry)@),
{
    if !guild_found {
        registry.release(room);
        ChannelDecision::Abort(PlayStatus::GuildNotFound)
    } else {
        match voice_channel {
            None => {
                registry.release(room);
                ChannelDecision::Abort(PlayStatus::VoiceChannelNotFound)
            },
            Some(ch) => ChannelDecision::Join(ch),
        }
    }
}

/// Joining, second half: the transport's join result. Success starts the
/// stream — the reservation stands until a termination signal. Failure
/// gives the reservation back and reports `JoinError`; the caller then
/// waits out a short guard delay and makes a best-effort leave.
pub fn join_outcome(registry: &mut RoomRegistry, room: u64, joined: bool) -> (r: PlayStatus)
    requires
        old(registry).wf(),
    ensures
        final(registry).wf(),
        joined ==> r == PlayStatus::StartedPlaying && final(registry)@ == old(registry)@,
        !joined ==> r == PlayStatus::JoinError && final(registry)@ == spec_release(
            old(registry)@,
            room,
        ),
{
    if joined {
        PlayStatus::StartedPlaying
    } else {
        registry.release(room);
        PlayStatus::JoinError
    }
}

/// Termination: the track finished, or the transport itself dropped the
/// session. Both signals resolve to this one idempotent release, so they
/// may race each other — and a following playback attempt — freely.
pub fn handle_termination(registry: &mut RoomRegistry, room: u64)
    requires
        old(registry).wf(),
    ensures
        final(registry).wf(),
        final(registry)@ == spec_release(old(registry)@, room),
        !final(registry)@.contains(room),
{
    registry.release(room);
}

/// The chat line rendered for each outcome; the started-playing line names
/// the sound that answered the request.
pub open spec fn spec_status_message(status: PlayStatus, name: Seq<char>) -> Seq<char> {
    match status {
        PlayStatus::AlreadyPlaying => "Already playing a sound, just wait a sec! :)"@,
        PlayStatus::SoundNotFound => "This sound doesn't exist :skull:"@,
        PlayStatus::StartedPlaying => "Started playing "@ + name + " :sunglasses:"@,
        PlayStatus::VoiceChannelNotFound => "You are not joined any voice channel on this server :clown:"@,
        PlayStatus::GuildNotFound => "Could not find guild :person_shrugging:"@,
        PlayStatus::JoinError => "Could not join voice channel :person_shrugging:"@,
    }
}

/// Render the response for one playback outcome.
pub fn status_message(status: PlayStatus, sound_name: &str) -> (r: String)
    ensures
        r@ == spec_status_message(status, sound_name@),
{
    match status {
        PlayStatus::AlreadyPlaying => "Already playing a sound, just wait a sec! :)".to_owned(),
        PlayStatus::SoundNotFound => "This sound doesn't exist :skull:".to_owned(),
        PlayStatus::StartedPlaying => {
            let mut out = "Started playing ".to_owned();
            out.append(sound_name);
            out.append(" :sunglasses:");
            out
        },
        PlayStatus::VoiceChannelNotFound => {
            "You are not joined any voice channel on this server :clown:".to_owned()
        },
        PlayStatus::GuildNotFound => "Could not find guild :person_shrugging:".to_owned(),
        PlayStatus::JoinError => "Could not join voice channel :person_shrugging:".to_owned(),
    }
}

} // verus!
