use yomiage::bot::{
    MessageAction, ReadingChannels, SkipOutcome, SlashCommand, VoiceStateInfo, bot_is_alone, command_from_name,
    is_escaped_message, route_message, skip_outcome, speaker_from_option, voice_channel_of,
};
use yomiage::chunking::speakable_chunks;

fn state(user_id: u64, channel_id: Option<u64>, member_is_bot: Option<bool>) -> VoiceStateInfo {
    VoiceStateInfo {
        user_id,
        channel_id,
        member_is_bot,
    }
}

#[test]
fn bot_is_alone_only_without_human_company() {
    let bot = 1;
    assert!(bot_is_alone(bot, &vec![state(bot, Some(10), Some(true))]));
    assert!(bot_is_alone(
        bot,
        &vec![state(bot, Some(10), Some(true)), state(2, Some(10), Some(true))]
    ));
    assert!(bot_is_alone(
        bot,
        &vec![state(bot, Some(10), Some(true)), state(2, Some(11), Some(false))]
    ));
    assert!(!bot_is_alone(
        bot,
        &vec![state(bot, Some(10), Some(true)), state(2, Some(10), Some(false))]
    ));
    // A member without cached data keeps the call alive.
    assert!(!bot_is_alone(
        bot,
        &vec![state(2, Some(10), None), state(bot, Some(10), Some(true))]
    ));
}

#[test]
fn bot_outside_voice_is_not_alone() {
    assert!(!bot_is_alone(1, &vec![]));
    assert!(!bot_is_alone(1, &vec![state(1, None, Some(true))]));
    assert!(!bot_is_alone(1, &vec![state(2, Some(3), Some(false))]));
}

#[test]
fn finds_a_members_voice_channel() {
    let states = vec![state(5, Some(50), Some(false)), state(6, None, Some(false))];
    assert_eq!(voice_channel_of(&states, 5), Some(50));
    assert_eq!(voice_channel_of(&states, 6), None);
    assert_eq!(voice_channel_of(&states, 7), None);
}

#[test]
fn escaped_messages_start_with_a_semicolon() {
    assert!(is_escaped_message(";skip"));
    assert!(is_escaped_message("  \u{3000};hidden"));
    assert!(!is_escaped_message("hello;"));
    assert!(!is_escaped_message(""));
    assert!(!is_escaped_message("   "));
}

#[test]
fn routes_messages() {
    assert_eq!(route_message(true, "hi", true, true, Some(1), 1), MessageAction::Ignore);
    assert_eq!(route_message(false, ";hi", true, true, Some(1), 1), MessageAction::Ignore);
    assert_eq!(route_message(false, "hi", false, true, Some(1), 1), MessageAction::Ignore);
    assert_eq!(route_message(false, "hi", true, true, None, 1), MessageAction::Join);
    assert_eq!(route_message(false, "hi", true, false, Some(1), 1), MessageAction::Read);
    assert_eq!(route_message(false, "hi", true, false, Some(2), 1), MessageAction::Ignore);
    assert_eq!(route_message(false, "hi", true, false, None, 1), MessageAction::Ignore);
}

#[test]
fn decides_what_skip_does() {
    assert_eq!(skip_outcome(None, 1), SkipOutcome::NotConnected);
    assert_eq!(skip_outcome(Some(2), 1), SkipOutcome::WrongChannel);
    assert_eq!(skip_outcome(Some(1), 1), SkipOutcome::Skip);
}

#[test]
fn speaker_ids_must_fit_u32() {
    assert_eq!(speaker_from_option(3), Some(3));
    assert_eq!(speaker_from_option(0), Some(0));
    assert_eq!(speaker_from_option(4294967295), Some(u32::MAX));
    assert_eq!(speaker_from_option(-1), None);
    assert_eq!(speaker_from_option(4294967296), None);
}

#[test]
fn recognizes_the_commands() {
    assert_eq!(command_from_name("ping"), Some(SlashCommand::Ping));
    assert_eq!(command_from_name("join"), Some(SlashCommand::Join));
    assert_eq!(command_from_name("leave"), Some(SlashCommand::Leave));
    assert_eq!(command_from_name("speed"), Some(SlashCommand::Speed));
    assert_eq!(command_from_name("speaker"), Some(SlashCommand::Speaker));
    assert_eq!(command_from_name("skip"), Some(SlashCommand::Skip));
    assert_eq!(command_from_name("pin"), None);
    assert_eq!(command_from_name("skips"), None);
    assert_eq!(command_from_name(""), None);
}

#[test]
fn blank_chunks_are_not_read() {
    let pieces = speakable_chunks("こんにちは。\n\n   \nまたね。");
    assert!(pieces.iter().all(|piece| !piece.trim().is_empty()));
    assert_eq!(pieces.concat().replace(['\n', ' '], ""), "こんにちは。またね。");
    assert!(speakable_chunks("  \n ").is_empty());
}

#[test]
fn joining_and_leaving_decide_what_is_read() {
    let mut reading = ReadingChannels::new();
    assert_eq!(reading.reading_channel(7), None);
    assert_eq!(reading.join(7, 70), None);
    assert_eq!(reading.reading_channel(7), Some(70));
    assert_eq!(
        route_message(false, "hello", true, false, reading.reading_channel(7), 70),
        MessageAction::Read
    );
    assert_eq!(reading.join(7, 71), Some(70));
    assert_eq!(reading.reading_channel(7), Some(71));
    assert_eq!(reading.join(8, 80), None);
    assert_eq!(reading.leave(7), Some(71));
    assert_eq!(reading.reading_channel(7), None);
    assert_eq!(reading.reading_channel(8), Some(80));
    assert_eq!(
        route_message(false, "hello", true, false, reading.reading_channel(7), 71),
        MessageAction::Ignore
    );
    assert_eq!(reading.leave(7), None);
}
