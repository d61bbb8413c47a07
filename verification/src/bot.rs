//! The decisions the bot makes about Discord events, on plain values.
use std::collections::HashMap;

use vstd::prelude::*;

use crate::text::{chars_of, is_white_space, is_whitespace};

verus! {

/// What the bot knows of one member's voice state in a guild.
#[derive(Clone, Copy, Debug, PartialEq, Eq)]
pub struct VoiceStateInfo {
    /// The member.
    pub user_id: u64,
    /// The voice channel the member is in, if any.
    pub channel_id: Option<u64>,
    /// Whether the member is a bot; `None` when the member is not cached.
    pub member_is_bot: Option<bool>,
}

/// The voice channel of `user`: that of the first voice state recorded for them.
pub open spec fn voice_channel(states: Seq<VoiceStateInfo>, user: u64) -> Option<u64>
    decreases states.len(),
{
    if states.len() == 0 {
        None
    } else if states[0].user_id == user {
        states[0].channel_id
    } else {
        voice_channel(states.drop_first(), user)
    }
}

/// Whether `state` is someone other than the bot who keeps it company in
/// `channel`. A member whose data is not cached counts as company, so that the
/// call is kept rather than left while someone is present.
pub open spec fn keeps_company(state: VoiceStateInfo, channel: u64, bot: u64) -> bool {
    &&& state.channel_id == Some(channel)
    &&& state.user_id != bot
    &&& match state.member_is_bot {
        Some(is_bot) => !is_bot,
        None => true,
    }
}

/// Whether the bot is in a voice channel with no one to read to.
pub open spec fn is_alone(states: Seq<VoiceStateInfo>, bot: u64) -> bool {
    match voice_channel(states, bot) {
        None => false,
        Some(channel) => forall|i: int|
            0 <= i < states.len() ==> !keeps_company(#[trigger] states[i], channel, bot),
    }
}

/// The voice channel that `user` is in, according to `states`.
pub fn voice_channel_of(states: &Vec<VoiceStateInfo>, user: u64) -> (channel: Option<u64>)
    ensures
        channel == voice_channel(states@, user),
{
    let mut i: usize = 0;
    assert(states@.skip(0) =~= states@);
    while i < states.len()
        invariant
            i <= states.len(),
            voice_channel(states@, user) == voice_channel(states@.skip(i as int), user),
        decreases states.len() - i,
    {
        assert(states@.skip(i as int).drop_first() =~= states@.skip(i + 1));
        if states[i].user_id == user {
            return states[i].channel_id;
        }
        i += 1;
    }
    None
}

/// Whether the bot (`bot_id`) sits in a voice channel where no one else but
/// bots remain.
pub fn bot_is_alone(bot_id: u64, states: &Vec<VoiceStateInfo>) -> (alone: bool)
    ensures
        alone == is_alone(states@, bot_id),
{
    let channel = match voice_channel_of(states, bot_id) {
        Some(channel) => channel,
        None => {
            return false;
        },
    };
    let mut i: usize = 0;
    while i < states.len()
        invariant
            i <= states.len(),
            voice_channel(states@, bot_id) == Some(channel),
            forall|j: int| 0 <= j < i ==> !keeps_company(#[trigger] states@[j], channel, bot_id),
        decreases states.len() - i,
    {
        let state = states[i];
        let company = match state.channel_id {
            Some(c) => c == channel && state.user_id != bot_id && match state.member_is_bot {
                Some(is_bot) => !is_bot,
                None => true,
            },
            None => false,
        };
        if company {
            assert(keeps_company(states@[i as int], channel, bot_id));
            return false;
        }
        i += 1;
    }
    true
}

/// `s` without its leading whitespace.
pub open spec fn trim_start(s: Seq<char>) -> Seq<char>
    decreases s.len(),
{
    if s.len() > 0 && is_white_space(s[0]) {
        trim_start(s.drop_first())
    } else {
        s
    }
}

/// Whether a message is meant as a command to other bots (its first
/// non-whitespace character is `;`), and is not read aloud.
pub open spec fn is_escaped(content: Seq<char>) -> bool {
    trim_start(content).len() > 0 && trim_start(content)[0] == ';'
}

/// Whether the message `content` starts, after whitespace, with `;`.
pub fn is_escaped_message(content: &str) -> (escaped: bool)
    ensures
        escaped == is_escaped(content@),
{
    let chars = chars_of(content);
    let mut i: usize = 0;
    assert(chars@.skip(0) =~= chars@);
    while i < chars.len() && is_whitespace(chars[i])
        invariant
            i <= chars.len(),
            chars@ == content@,
            trim_start(content@) == trim_start(chars@.skip(i as int)),
        decreases chars.len() - i,
    {
        assert(chars@.skip(i as int).drop_first() =~= chars@.skip(i + 1));
        i += 1;
    }
    assert(trim_start(chars@.skip(i as int)) == chars@.skip(i as int));
    i < chars.len() && chars[i] == ';'
}

/// What the bot does with a message.
#[derive(Clone, Copy, Debug, PartialEq, Eq, Structural)]
pub enum MessageAction {
    /// Nothing.
    Ignore,
    /// Joins the author's voice channel and reads this text channel.
    Join,
    /// Reads the message aloud.
    Read,
}

/// What to do with a message: messages from bots, messages escaped with `;`
/// and direct messages are ignored; a mention of the bot makes it join; other
/// messages are read when they are posted in the channel being read.
pub open spec fn message_action(
    author_is_bot: bool,
    content: Seq<char>,
    in_guild: bool,
    mentions_bot: bool,
    reading_channel: Option<u64>,
    channel_id: u64,
) -> MessageAction {
    if author_is_bot || is_escaped(content) || !in_guild {
        MessageAction::Ignore
    } else if mentions_bot {
        MessageAction::Join
    } else if reading_channel == Some(channel_id) {
        MessageAction::Read
    } else {
        MessageAction::Ignore
    }
}

/// Decides what to do with a message posted in `channel_id`; `reading_channel`
/// is the text channel read in the message's guild, if any.
pub fn route_message(
    author_is_bot: bool,
    content: &str,
    in_guild: bool,
    mentions_bot: bool,
    reading_channel: Option<u64>,
    channel_id: u64,
) -> (action: MessageAction)
    ensures
        action == message_action(
            author_is_bot,
            content@,
            in_guild,
            mentions_bot,
            reading_channel,
            channel_id,
        ),
{
    if author_is_bot || is_escaped_message(content) || !in_guild {
        MessageAction::Ignore
    } else if mentions_bot {
        MessageAction::Join
    } else {
        match reading_channel {
            Some(channel) => if channel == channel_id {
                MessageAction::Read
            } else {
                MessageAction::Ignore
            },
            None => MessageAction::Ignore,
        }
    }
}

/// What `/skip` does.
#[derive(Clone, Copy, Debug, PartialEq, Eq, Structural)]
pub enum SkipOutcome {
    /// The bot reads no channel in this guild.
    NotConnected,
    /// The command was not given in the channel being read.
    WrongChannel,
    /// The message being read is skipped.
    Skip,
}

/// Decides what `/skip`, given in `command_channel`, does.
pub fn skip_outcome(reading_channel: Option<u64>, command_channel: u64) -> (outcome: SkipOutcome)
    ensures
        reading_channel is None ==> outcome == SkipOutcome::NotConnected,
        reading_channel matches Some(c) && c != command_channel ==> outcome == SkipOutcome::WrongChannel,
        reading_channel == Some(command_channel) ==> outcome == SkipOutcome::Skip,
{
    match reading_channel {
        None => SkipOutcome::NotConnected,
        Some(channel) => if channel == command_channel {
            SkipOutcome::Skip
        } else {
            SkipOutcome::WrongChannel
        },
    }
}

/// The speaker ID that a `/speaker` option value names, if it is a valid `u32`.
pub fn speaker_from_option(value: i64) -> (speaker: Option<u32>)
    ensures
        0 <= value <= u32::MAX ==> speaker == Some(value as u32),
        !(0 <= value <= u32::MAX) ==> speaker is None,
{
    if 0 <= value && value <= u32::MAX as i64 {
        Some(value as u32)
    } else {
        None
    }
}

/// The slash commands of the bot.
#[derive(Clone, Copy, Debug, PartialEq, Eq, Structural)]
pub enum SlashCommand {
    Ping,
    Join,
    Leave,
    Speed,
    Speaker,
    Skip,
}

/// The command registered under `name`.
pub open spec fn command_named(name: Seq<char>) -> Option<SlashCommand> {
    if name == "ping"@ {
        Some(SlashCommand::Ping)
    } else if name == "join"@ {
        Some(SlashCommand::Join)
    } else if name == "leave"@ {
        Some(SlashCommand::Leave)
    } else if name == "speed"@ {
        Some(SlashCommand::Speed)
    } else if name == "speaker"@ {
        Some(SlashCommand::Speaker)
    } else if name == "skip"@ {
        Some(SlashCommand::Skip)
    } else {
        None
    }
}

/// Whether two strings hold the same characters.
fn same_text(a: &str, b: &str) -> (same: bool)
    ensures
        same == (a@ == b@),
{
    let x = chars_of(a);
    let y = chars_of(b);
    if x.len() != y.len() {
        return false;
    }
    let mut i: usize = 0;
    while i < x.len()
        invariant
            i <= x.len() == y.len(),
            x@ == a@,
            y@ == b@,
            forall|j: int| 0 <= j < i ==> x@[j] == y@[j],
        decreases x.len() - i,
    {
        if x[i] != y[i] {
            return false;
        }
        i += 1;
    }
    assert(a@ =~= b@);
    true
}

/// The command that an interaction named `name` invokes, if it is one of the bot's.
pub fn command_from_name(name: &str) -> (command: Option<SlashCommand>)
    ensures
        command == command_named(name@),
{
    if same_text(name, "ping") {
        Some(SlashCommand::Ping)
    } else if same_text(name, "join") {
        Some(SlashCommand::Join)
    } else if same_text(name, "leave") {
        Some(SlashCommand::Leave)
    } else if same_text(name, "speed") {
        Some(SlashCommand::Speed)
    } else if same_text(name, "speaker") {
        Some(SlashCommand::Speaker)
    } else if same_text(name, "skip") {
        Some(SlashCommand::Skip)
    } else {
        None
    }
}


/// The voice channel of a user is that of the first voice state recorded for
/// them, and there is none when no state is recorded for them.
pub proof fn lemma_voice_channel_is_first_state(states: Seq<VoiceStateInfo>, user: u64)
    ensures
        forall|i: int|
            0 <= i < states.len() && #[trigger] states[i].user_id == user && (forall|j: int|
                0 <= j < i ==> states[j].user_id != user) ==> voice_channel(states, user)
                == states[i].channel_id,
        (forall|i: int| 0 <= i < states.len() ==> #[trigger] states[i].user_id != user)
            ==> voice_channel(states, user) is None,
    decreases states.len(),
{
    if states.len() > 0 {
        let d = states.drop_first();
        lemma_voice_channel_is_first_state(d, user);
        assert forall|i: int|
            0 <= i < states.len() && #[trigger] states[i].user_id == user && (forall|j: int|
                0 <= j < i ==> states[j].user_id != user) implies voice_channel(states, user)
            == states[i].channel_id by {
            if i > 0 {
                assert(states[0].user_id != user);
                assert(d[i - 1] == states[i]);
                assert forall|j: int| 0 <= j < i - 1 implies d[j].user_id != user by {
                    assert(d[j] == states[j + 1]);
                }
            }
        }
        if forall|i: int| 0 <= i < states.len() ==> #[trigger] states[i].user_id != user {
            assert(states[0].user_id != user);
            assert forall|i: int| 0 <= i < d.len() implies #[trigger] d[i].user_id != user by {
                assert(d[i] == states[i + 1]);
            }
        }
    }
}

/// The bot is alone exactly when it is in a voice channel and no one else who
/// is a person, or whose data is not cached, is in that channel; another bot
/// does not count.
pub proof fn lemma_alone_means_no_listener(states: Seq<VoiceStateInfo>, bot: u64)
    ensures
        (exists|i: int|
            0 <= i < states.len() && voice_channel(states, bot) is Some && (#[trigger] states[i]).channel_id
                == voice_channel(states, bot) && states[i].user_id != bot && states[i].member_is_bot
                != Some(true)) ==> !is_alone(states, bot),
        voice_channel(states, bot) is None ==> !is_alone(states, bot),
        voice_channel(states, bot) is Some && (forall|i: int|
            0 <= i < states.len() && (#[trigger] states[i]).channel_id == voice_channel(states, bot)
                && states[i].user_id != bot ==> states[i].member_is_bot == Some(true))
            ==> is_alone(states, bot),
{
    if exists|i: int|
        0 <= i < states.len() && voice_channel(states, bot) is Some && (#[trigger] states[i]).channel_id
            == voice_channel(states, bot) && states[i].user_id != bot && states[i].member_is_bot
            != Some(true) {
        let i = choose|i: int|
            0 <= i < states.len() && voice_channel(states, bot) is Some && (#[trigger] states[i]).channel_id
                == voice_channel(states, bot) && states[i].user_id != bot && states[i].member_is_bot
                != Some(true);
        let channel = voice_channel(states, bot)->0;
        assert(keeps_company(states[i], channel, bot));
    }
}

/// A message is escaped exactly when its first character that is not
/// whitespace is `;`.
pub proof fn lemma_escaped_means_leading_semicolon(content: Seq<char>)
    ensures
        is_escaped(content) <==> exists|i: int|
            0 <= i < content.len() && content[i] == ';' && forall|j: int|
                0 <= j < i ==> is_white_space(#[trigger] content[j]),
    decreases content.len(),
{
    if content.len() > 0 && is_white_space(content[0]) {
        let d = content.drop_first();
        lemma_escaped_means_leading_semicolon(d);
        if is_escaped(content) {
            let i = choose|i: int|
                0 <= i < d.len() && d[i] == ';' && forall|j: int|
                    0 <= j < i ==> is_white_space(#[trigger] d[j]);
            assert(content[i + 1] == ';');
            assert forall|j: int| 0 <= j < i + 1 implies is_white_space(#[trigger] content[j]) by {
                if j > 0 {
                    assert(content[j] == d[j - 1]);
                }
            }
        }
        if exists|i: int|
            0 <= i < content.len() && content[i] == ';' && forall|j: int|
                0 <= j < i ==> is_white_space(#[trigger] content[j]) {
            let i = choose|i: int|
                0 <= i < content.len() && content[i] == ';' && forall|j: int|
                    0 <= j < i ==> is_white_space(#[trigger] content[j]);
            assert(i != 0);
            assert(d[i - 1] == ';');
            assert forall|j: int| 0 <= j < i - 1 implies is_white_space(#[trigger] d[j]) by {
                assert(d[j] == content[j + 1]);
            }
        }
    } else {
        if exists|i: int|
            0 <= i < content.len() && content[i] == ';' && forall|j: int|
                0 <= j < i ==> is_white_space(#[trigger] content[j]) {
            let i = choose|i: int|
                0 <= i < content.len() && content[i] == ';' && forall|j: int|
                    0 <= j < i ==> is_white_space(#[trigger] content[j]);
            if i > 0 {
                assert(is_white_space(content[0]));
            }
        }
        if is_escaped(content) {
            assert(content[0] == ';');
        }
    }
}

/// What happens to a message: a message from a bot, an escaped message or a
/// direct message is ignored; otherwise a mention of the bot makes it join,
/// whatever channel is read; otherwise the message is read exactly when it is
/// posted in the channel being read in its guild.
pub proof fn lemma_message_routing(
    author_is_bot: bool,
    content: Seq<char>,
    in_guild: bool,
    mentions_bot: bool,
    reading_channel: Option<u64>,
    channel_id: u64,
)
    ensures
        author_is_bot || is_escaped(content) || !in_guild ==> message_action(
            author_is_bot,
            content,
            in_guild,
            mentions_bot,
            reading_channel,
            channel_id,
        ) == MessageAction::Ignore,
        !author_is_bot && !is_escaped(content) && in_guild && mentions_bot ==> message_action(
            author_is_bot,
            content,
            in_guild,
            mentions_bot,
            reading_channel,
            channel_id,
        ) == MessageAction::Join,
        !author_is_bot && !is_escaped(content) && in_guild && !mentions_bot ==> (message_action(
            author_is_bot,
            content,
            in_guild,
            mentions_bot,
            reading_channel,
            channel_id,
        ) == MessageAction::Read <==> reading_channel == Some(channel_id)),
        message_action(author_is_bot, content, in_guild, mentions_bot, reading_channel, channel_id)
            != MessageAction::Read || reading_channel == Some(channel_id),
{
}

/// The text channel read in `guild`, if any.
pub open spec fn reading_of(channels: Map<u64, u64>, guild: u64) -> Option<u64> {
    if channels.contains_key(guild) {
        Some(channels[guild])
    } else {
        None
    }
}

/// The text channel that the bot reads in each guild it has joined.
pub struct ReadingChannels {
    channels: HashMap<u64, u64>,
}

impl View for ReadingChannels {
    type V = Map<u64, u64>;

    /// Guild to text channel.
    closed spec fn view(&self) -> Map<u64, u64> {
        self.channels@
    }
}

impl ReadingChannels {
    /// No guild is read.
    pub fn new() -> (r: Self)
        ensures
            r@ == Map::<u64, u64>::empty(),
    {
        ReadingChannels { channels: HashMap::new() }
    }

    /// Starts reading `channel` in `guild`; gives the channel read there before, if any.
    pub fn join(&mut self, guild: u64, channel: u64) -> (previous: Option<u64>)
        ensures
            final(self)@ == old(self)@.insert(guild, channel),
            previous == reading_of(old(self)@, guild),
    {
        self.channels.insert(guild, channel)
    }

    /// Stops reading in `guild`; gives the channel that was read there, if any.
    pub fn leave(&mut self, guild: u64) -> (previous: Option<u64>)
        ensures
            final(self)@ == old(self)@.remove(guild),
            previous == reading_of(old(self)@, guild),
    {
        self.channels.remove(&guild)
    }

    /// The text channel read in `guild`, if any.
    pub fn reading_channel(&self, guild: u64) -> (channel: Option<u64>)
        ensures
            channel == reading_of(self@, guild),
    {
        match self.channels.get(&guild) {
            Some(channel) => Some(*channel),
            None => None,
        }
    }
}

/// After the bot joins `guild` to read `channel`, a message posted there by a
/// person is read aloud (unless it is escaped with `;`), and a mention of the
/// bot there makes it join again.
pub proof fn lemma_joined_channel_is_read(
    channels: Map<u64, u64>,
    guild: u64,
    channel: u64,
    content: Seq<char>,
    mentions_bot: bool,
)
    requires
        !is_escaped(content),
    ensures
        message_action(
            false,
            content,
            true,
            mentions_bot,
            reading_of(channels.insert(guild, channel), guild),
            channel,
        ) == if mentions_bot {
            MessageAction::Join
        } else {
            MessageAction::Read
        },
{
}

/// After the bot leaves `guild`, no message there is read aloud.
pub proof fn lemma_left_guild_is_not_read(
    channels: Map<u64, u64>,
    guild: u64,
    author_is_bot: bool,
    content: Seq<char>,
    mentions_bot: bool,
    channel: u64,
)
    ensures
        message_action(
            author_is_bot,
            content,
            true,
            mentions_bot,
            reading_of(channels.remove(guild), guild),
            channel,
        ) != MessageAction::Read,
{
}

} // verus!
