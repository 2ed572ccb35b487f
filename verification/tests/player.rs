use bruhbot::catalog::SupabaseCommandItem;
use bruhbot::command_manager::CommandManager;
use bruhbot::player::{
    handle_termination, join_outcome, resolve_channel, start_attempt, status_message,
    ChannelDecision, PlayStatus, StartOutcome,
};
use bruhbot::registry::RoomRegistry;

fn record(command: &str) -> SupabaseCommandItem {
    SupabaseCommandItem {
        collectionId: "col".to_string(),
        collectionName: "sounds".to_string(),
        command: command.to_string(),
        created: String::new(),
        id: "id".to_string(),
        sound: "s.mp3".to_string(),
    updated: String::new(),
    }
}

/// One dispatch as the bot performs it: resolve the name in the cache, then
/// run the playback stages against a transport that always succeeds.
fn dispatch(cache: &CommandManager, reg: &mut RoomRegistry, room: u64, name: &str) -> PlayStatus {
    let (_, uri) = cache.get_sound_uri(name.to_string());
    match start_attempt(reg, room, uri) {
        StartOutcome::Rejected(status) => status,
        StartOutcome::Reserved(_uri) => match resolve_channel(reg, room, true, Some(1)) {
            ChannelDecision::Abort(status) => status,
            ChannelDecision::Join(_ch) => join_outcome(reg, room, true),
        },
    }
}

#[test]
fn dispatch_unknown_sound_is_not_found() {
    // No command named "vine" and no unique-prefix match exists.
    let cache = CommandManager::build_command_map(
        &vec![record("bruh"), record("violin"), record("vigor")],
        &"http://pb".to_string(),
    );
    let mut reg = RoomRegistry::new();
    assert_eq!(dispatch(&cache, &mut reg, 7, "vine"), PlayStatus::SoundNotFound);
    // The failed attempt must not hold the room.
    assert!(reg.try_reserve(7));
}

#[test]
fn second_dispatch_while_streaming_is_already_playing() {
    let cache =
        CommandManager::build_command_map(&vec![record("bruh")], &"http://pb".to_string());
    let mut reg = RoomRegistry::new();
    assert_eq!(dispatch(&cache, &mut reg, 7, "bruh"), PlayStatus::StartedPlaying);
    assert_eq!(dispatch(&cache, &mut reg, 7, "bruh"), PlayStatus::AlreadyPlaying);
    // The first stream finishes; its completion event releases the room.
    handle_termination(&mut reg, 7);
    assert_eq!(dispatch(&cache, &mut reg, 7, "bruh"), PlayStatus::StartedPlaying);
}

#[test]
fn dispatches_for_different_rooms_are_independent() {
    let cache =
        CommandManager::build_command_map(&vec![record("bruh")], &"http://pb".to_string());
    let mut reg = RoomRegistry::new();
    assert_eq!(dispatch(&cache, &mut reg, 1, "bruh"), PlayStatus::StartedPlaying);
    assert_eq!(dispatch(&cache, &mut reg, 2, "bruh"), PlayStatus::StartedPlaying);
}

#[test]
fn guild_not_found_aborts_and_releases() {
    let mut reg = RoomRegistry::new();
    match start_attempt(&mut reg, 3, Some("u".to_string())) {
        StartOutcome::Reserved(_) => {}
        StartOutcome::Rejected(_) => panic!("idle room must be reserved"),
    }
    assert_eq!(
        resolve_channel(&mut reg, 3, false, None),
        ChannelDecision::Abort(PlayStatus::GuildNotFound)
    );
    assert!(reg.try_reserve(3));
}

#[test]
fn no_voice_channel_aborts_and_releases() {
    let mut reg = RoomRegistry::new();
    assert!(matches!(
        start_attempt(&mut reg, 3, Some("u".to_string())),
        StartOutcome::Reserved(_)
    ));
    assert_eq!(
        resolve_channel(&mut reg, 3, true, None),
        ChannelDecision::Abort(PlayStatus::VoiceChannelNotFound)
    );
    assert!(reg.try_reserve(3));
}

#[test]
fn failed_join_reports_and_releases() {
    let mut reg = RoomRegistry::new();
    assert!(matches!(
        start_attempt(&mut reg, 3, Some("u".to_string())),
        StartOutcome::Reserved(_)
    ));
    assert_eq!(
        resolve_channel(&mut reg, 3, true, Some(9)),
        ChannelDecision::Join(9)
    );
    assert_eq!(join_outcome(&mut reg, 3, false), PlayStatus::JoinError);
    assert!(reg.try_reserve(3));
}

#[test]
fn termination_signals_may_race() {
    let mut reg = RoomRegistry::new();
    assert!(reg.try_reserve(5));
    // Track-end and transport-disconnect both fire; the double release is
    // harmless and leaves the room free.
    handle_termination(&mut reg, 5);
    handle_termination(&mut reg, 5);
    assert!(reg.try_reserve(5));
}

#[test]
fn status_messages_exact() {
    assert_eq!(
        status_message(PlayStatus::StartedPlaying, "bruh"),
        "Started playing bruh :sunglasses:"
    );
    assert_eq!(
        status_message(PlayStatus::AlreadyPlaying, "bruh"),
        "Already playing a sound, just wait a sec! :)"
    );
    assert_eq!(
        status_message(PlayStatus::SoundNotFound, "vine"),
        "This sound doesn't exist :skull:"
    );
    assert_eq!(
        status_message(PlayStatus::VoiceChannelNotFound, "bruh"),
        "You are not joined any voice channel on this server :clown:"
    );
    assert_eq!(
        status_message(PlayStatus::GuildNotFound, "bruh"),
        "Could not find guild :person_shrugging:"
    );
    assert_eq!(
        status_message(PlayStatus::JoinError, "bruh"),
        "Could not join voice channel :person_shrugging:"
    );
}
