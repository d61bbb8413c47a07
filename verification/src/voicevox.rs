//! Client configuration and response handling for a locally running VOICEVOX Engine.
//!
//! The HTTP requests themselves are made by the application; this module
//! decides what is requested, from where, what is cached, and what a response
//! status means.
use std::time::Duration;

use vstd::prelude::*;

use crate::audio_cache::{AudioCache, Entry, after_get, inserted, lookup};
use crate::text::{decimal_digits, decimal_string, parse_u32, parse_usize, parsed_unsigned, trim_end_slashes, trim_trailing_slashes};

verus! {

#[verifier::external_type_specification]
#[verifier::external_body]
pub struct ExClient(reqwest::Client);

#[verifier::external_type_specification]
#[verifier::external_body]
pub struct ExReqwestError(reqwest::Error);

/// The engine's address when none is configured.
pub const DEFAULT_BASE_URL: &'static str = "http://127.0.0.1:50021";

/// The speaker when none is configured.
pub const DEFAULT_SPEAKER: u32 = 3;

/// How many synthesized texts are cached when nothing else is configured.
pub const DEFAULT_CACHE_ENTRIES: usize = 128;

/// How many bytes of audio are cached when nothing else is configured.
pub const DEFAULT_CACHE_MAX_BYTES: usize = 67108864;

/// Seconds allowed for connecting to the engine.
pub const CONNECT_TIMEOUT_SECS: u64 = 3;

/// Seconds allowed for a whole request.
pub const REQUEST_TIMEOUT_SECS: u64 = 30;

/// A configuration value that can be given as text.
#[derive(Clone, Copy, Debug, PartialEq, Eq, Structural)]
pub enum Setting {
    /// `VOICEVOX_SPEAKER`
    Speaker,
    /// `VOICEVOX_CACHE_ENTRIES`
    CacheEntries,
    /// `VOICEVOX_CACHE_MAX_BYTES`
    CacheMaxBytes,
}

/// An endpoint of the VOICEVOX Engine.
#[derive(Clone, Copy, Debug, PartialEq, Eq, Structural)]
pub enum Endpoint {
    AudioQuery,
    Synthesis,
    Version,
}

/// Why the engine could not be configured or did not answer as hoped.
#[derive(Debug)]
pub enum VoicevoxError {
    /// The engine's URL is empty (after dropping trailing slashes).
    EmptyUrl,
    /// A setting is not an unsigned integer in range.
    InvalidSetting(Setting),
    /// The HTTP client could not be created.
    ClientUnavailable,
    /// The engine answered 404 Not Found.
    EndpointNotFound(Endpoint),
    /// The engine answered with another unsuccessful status.
    RequestFailed { endpoint: Endpoint, status: u16, message: String },
}

/// The timeouts, in seconds, that a client was built with: for connecting,
/// and for a whole request.
pub uninterp spec fn client_timeouts(client: reqwest::Client) -> (u64, u64);

/// Creates the HTTP client that talks to the engine.
///
/// Trusted: `reqwest::ClientBuilder::build` on a builder given the two
/// timeouts through `connect_timeout` and `timeout`, which store them in the
/// configuration that the built client uses. Whether the build succeeds
/// depends on the machine (its TLS backend and resolver configuration), so
/// success is not stated; a client that comes back carries the two timeouts.
#[verifier::external_body]
fn build_http_client(connect_timeout_secs: u64, timeout_secs: u64) -> (r: Result<
    reqwest::Client,
    reqwest::Error,
>)
    ensures
        r matches Ok(client) ==> client_timeouts(client) == (connect_timeout_secs, timeout_secs),
{
    reqwest::Client::builder().connect_timeout(Duration::from_secs(connect_timeout_secs)).timeout(
        Duration::from_secs(timeout_secs),
    ).build()
}

/// The text of an optional setting.
pub open spec fn opt_view(value: Option<String>) -> Option<Seq<char>> {
    match value {
        Some(s) => Some(s@),
        None => None,
    }
}

/// What a setting holds: its default when it is absent, its value when it is
/// an unsigned integer no larger than `max`, and nothing otherwise.
pub open spec fn setting_value(raw: Option<Seq<char>>, default: int, max: int) -> Option<int> {
    match raw {
        None => Some(default),
        Some(s) => parsed_unsigned(s, max),
    }
}

/// The configured engine URL, as it is used: without trailing slashes.
pub open spec fn configured_url(raw: Option<Seq<char>>) -> Seq<char> {
    match raw {
        Some(s) => trim_trailing_slashes(s),
        None => trim_trailing_slashes(DEFAULT_BASE_URL@),
    }
}

/// Whether `status` is a successful HTTP status (200 to 299).
pub open spec fn is_success(status: u16) -> bool {
    200 <= status <= 299
}

/// A client for a locally running VOICEVOX Engine, with a cache of the audio
/// it has synthesized.
pub struct Voicevox {
    client: reqwest::Client,
    base_url: String,
    speaker: u32,
    cache: AudioCache,
}

impl Voicevox {
    /// The HTTP client that requests to the engine go through.
    pub closed spec fn http_client(&self) -> reqwest::Client {
        self.client
    }

    /// The engine's URL, without trailing slashes.
    pub closed spec fn url(&self) -> Seq<char> {
        self.base_url@
    }

    /// The speaker that is asked for.
    pub closed spec fn speaker_id(&self) -> u32 {
        self.speaker
    }

    /// The cached audio, least recently used first.
    pub closed spec fn cached(&self) -> Seq<Entry> {
        self.cache@
    }

    /// The cache's entry limit.
    pub closed spec fn cache_entry_limit(&self) -> nat {
        self.cache.entry_limit()
    }

    /// The cache's byte limit.
    pub closed spec fn cache_byte_limit(&self) -> nat {
        self.cache.byte_limit()
    }

    /// The client's internal invariant.
    pub closed spec fn wf(&self) -> bool {
        self.cache.wf() && self.base_url@.len() > 0
    }

    /// A client for the engine at `base_url` that asks for `speaker`, with an
    /// empty cache of the given limits.
    pub fn new_with_cache(
        base_url: &str,
        speaker: u32,
        cache_entries: usize,
        cache_max_bytes: usize,
    ) -> (r: Result<Self, VoicevoxError>)
        ensures
            trim_trailing_slashes(base_url@).len() == 0 ==> r matches Err(VoicevoxError::EmptyUrl),
            trim_trailing_slashes(base_url@).len() > 0 ==> match r {
                Ok(v) => {
                    &&& v.wf()
                    &&& client_timeouts(v.http_client()) == (CONNECT_TIMEOUT_SECS, REQUEST_TIMEOUT_SECS)
                    &&& v.url() == trim_trailing_slashes(base_url@)
                    &&& v.speaker_id() == speaker
                    &&& v.cached() == Seq::<Entry>::empty()
                    &&& v.cache_entry_limit() == cache_entries
                    &&& v.cache_byte_limit() == cache_max_bytes
                },
                Err(e) => e is ClientUnavailable,
            },
    {
        let base_url = trim_end_slashes(base_url);
        if base_url.as_str().is_empty() {
            return Err(VoicevoxError::EmptyUrl);
        }
        let client = match build_http_client(CONNECT_TIMEOUT_SECS, REQUEST_TIMEOUT_SECS) {
            Ok(client) => client,
            Err(_) => {
                return Err(VoicevoxError::ClientUnavailable);
            },
        };
        Ok(Voicevox { client, base_url, speaker, cache: AudioCache::new(cache_entries, cache_max_bytes) })
    }

    /// A client for the engine at `base_url` that asks for `speaker`, caching up
    /// to 128 texts and 64 MiB of audio.
    pub fn new(base_url: &str, speaker: u32) -> (r: Result<Self, VoicevoxError>)
        ensures
            trim_trailing_slashes(base_url@).len() == 0 ==> r matches Err(VoicevoxError::EmptyUrl),
            trim_trailing_slashes(base_url@).len() > 0 ==> match r {
                Ok(v) => {
                    &&& v.wf()
                    &&& client_timeouts(v.http_client()) == (CONNECT_TIMEOUT_SECS, REQUEST_TIMEOUT_SECS)
                    &&& v.url() == trim_trailing_slashes(base_url@)
                    &&& v.speaker_id() == speaker
                    &&& v.cached() == Seq::<Entry>::empty()
                    &&& v.cache_entry_limit() == DEFAULT_CACHE_ENTRIES
                    &&& v.cache_byte_limit() == DEFAULT_CACHE_MAX_BYTES
                },
                Err(e) => e is ClientUnavailable,
            },
    {
        Self::new_with_cache(base_url, speaker, DEFAULT_CACHE_ENTRIES, DEFAULT_CACHE_MAX_BYTES)
    }

    /// A client configured from the textual settings `url` (`VOICEVOX_URL`),
    /// `speaker` (`VOICEVOX_SPEAKER`), `cache_entries` (`VOICEVOX_CACHE_ENTRIES`)
    /// and `cache_max_bytes` (`VOICEVOX_CACHE_MAX_BYTES`); absent settings take
    /// their defaults. The first setting that is not an unsigned integer in
    /// range is reported.
    pub fn from_config(
        url: Option<String>,
        speaker: Option<String>,
        cache_entries: Option<String>,
        cache_max_bytes: Option<String>,
    ) -> (r: Result<Self, VoicevoxError>)
        ensures
            setting_value(opt_view(speaker), DEFAULT_SPEAKER as int, u32::MAX as int) is None
                ==> r matches Err(VoicevoxError::InvalidSetting(Setting::Speaker)),
            setting_value(opt_view(speaker), DEFAULT_SPEAKER as int, u32::MAX as int) is Some
                && setting_value(
                opt_view(cache_entries),
                DEFAULT_CACHE_ENTRIES as int,
                usize::MAX as int,
            ) is None ==> r matches Err(VoicevoxError::InvalidSetting(Setting::CacheEntries)),
            setting_value(opt_view(speaker), DEFAULT_SPEAKER as int, u32::MAX as int) is Some
                && setting_value(
                opt_view(cache_entries),
                DEFAULT_CACHE_ENTRIES as int,
                usize::MAX as int,
            ) is Some && setting_value(
                opt_view(cache_max_bytes),
                DEFAULT_CACHE_MAX_BYTES as int,
                usize::MAX as int,
            ) is None ==> r matches Err(VoicevoxError::InvalidSetting(Setting::CacheMaxBytes)),
            ({
                let sp = setting_value(opt_view(speaker), DEFAULT_SPEAKER as int, u32::MAX as int);
                let ce = setting_value(
                    opt_view(cache_entries),
                    DEFAULT_CACHE_ENTRIES as int,
                    usize::MAX as int,
                );
                let cb = setting_value(
                    opt_view(cache_max_bytes),
                    DEFAULT_CACHE_MAX_BYTES as int,
                    usize::MAX as int,
                );
                let u = configured_url(opt_view(url));
                sp is Some && ce is Some && cb is Some ==> {
                    &&& (u.len() == 0 ==> (r matches Err(VoicevoxError::EmptyUrl)))
                    &&& (u.len() > 0 ==> match r {
                        Ok(v) => {
                            &&& v.wf()
                            &&& client_timeouts(v.http_client()) == (
                                CONNECT_TIMEOUT_SECS,
                                REQUEST_TIMEOUT_SECS,
                            )
                            &&& v.url() == u
                            &&& v.speaker_id() == sp->0
                            &&& v.cached() == Seq::<Entry>::empty()
                            &&& v.cache_entry_limit() == ce->0
                            &&& v.cache_byte_limit() == cb->0
                        },
                        Err(e) => e is ClientUnavailable,
                    })
                }
            }),
    {
        let speaker_id: u32 = match &speaker {
            Some(text) => match parse_u32(text.as_str()) {
                Some(v) => v,
                None => {
                    return Err(VoicevoxError::InvalidSetting(Setting::Speaker));
                },
            },
            None => DEFAULT_SPEAKER,
        };
        let entries: usize = match &cache_entries {
            Some(text) => match parse_usize(text.as_str()) {
                Some(v) => v,
                None => {
                    return Err(VoicevoxError::InvalidSetting(Setting::CacheEntries));
                },
            },
            None => DEFAULT_CACHE_ENTRIES,
        };
        let max_bytes: usize = match &cache_max_bytes {
            Some(text) => match parse_usize(text.as_str()) {
                Some(v) => v,
                None => {
                    return Err(VoicevoxError::InvalidSetting(Setting::CacheMaxBytes));
                },
            },
            None => DEFAULT_CACHE_MAX_BYTES,
        };
        match &url {
            Some(text) => Self::new_with_cache(text.as_str(), speaker_id, entries, max_bytes),
            None => Self::new_with_cache(DEFAULT_BASE_URL, speaker_id, entries, max_bytes),
        }
    }

    /// The HTTP client that requests to the engine go through.
    pub fn client(&self) -> (client: &reqwest::Client)
        ensures
            *client == self.http_client(),
    {
        &self.client
    }

    /// The engine's URL, without trailing slashes.
    pub fn base_url(&self) -> (url: &str)
        ensures
            url@ == self.url(),
    {
        self.base_url.as_str()
    }

    /// The speaker that is asked for.
    pub fn speaker(&self) -> (speaker: u32)
        ensures
            speaker == self.speaker_id(),
    {
        self.speaker
    }

    /// The URL of `endpoint` on this engine.
    pub fn endpoint_url(&self, endpoint: Endpoint) -> (url: String)
        ensures
            url@ == self.url() + endpoint_path(endpoint),
    {
        let mut url = self.base_url.clone();
        let path = endpoint_path_str(endpoint);
        url.append(path);
        url
    }

    /// The speaker as the `speaker` query parameter carries it.
    pub fn speaker_param(&self) -> (param: String)
        ensures
            param@ == decimal_digits(self.speaker_id() as nat),
    {
        decimal_string(self.speaker)
    }

    /// The audio cached for `text`, if any; a hit becomes the most recently used entry.
    pub fn cached_audio(&mut self, text: &str) -> (wav: Option<Vec<u8>>)
        requires
            old(self).wf(),
        ensures
            final(self).wf(),
            final(self).http_client() == old(self).http_client(),
            final(self).url() == old(self).url(),
            final(self).speaker_id() == old(self).speaker_id(),
            final(self).cache_entry_limit() == old(self).cache_entry_limit(),
            final(self).cache_byte_limit() == old(self).cache_byte_limit(),
            match wav {
                Some(w) => lookup(old(self).cached(), text@) == Some(w@),
                None => lookup(old(self).cached(), text@) is None,
            },
            final(self).cached() == after_get(old(self).cached(), text@),
    {
        self.cache.get(text)
    }

    /// Caches `wav` as the audio synthesized for `text`.
    pub fn remember_audio(&mut self, text: &str, wav: &[u8])
        requires
            old(self).wf(),
        ensures
            final(self).wf(),
            final(self).http_client() == old(self).http_client(),
            final(self).url() == old(self).url(),
            final(self).speaker_id() == old(self).speaker_id(),
            final(self).cache_entry_limit() == old(self).cache_entry_limit(),
            final(self).cache_byte_limit() == old(self).cache_byte_limit(),
            final(self).cached() == inserted(
                old(self).cached(),
                text@,
                wav@,
                old(self).cache_entry_limit(),
                old(self).cache_byte_limit(),
            ),
    {
        self.cache.insert(text, wav)
    }
}

/// The path of `endpoint` under the engine's URL.
pub open spec fn endpoint_path(endpoint: Endpoint) -> Seq<char> {
    match endpoint {
        Endpoint::AudioQuery => "/audio_query"@,
        Endpoint::Synthesis => "/synthesis"@,
        Endpoint::Version => "/version"@,
    }
}

fn endpoint_path_str(endpoint: Endpoint) -> (path: &'static str)
    ensures
        path@ == endpoint_path(endpoint),
{
    match endpoint {
        Endpoint::AudioQuery => "/audio_query",
        Endpoint::Synthesis => "/synthesis",
        Endpoint::Version => "/version",
    }
}

/// The reason phrase that `http::StatusCode` shows for `status` (its canonical
/// reason, or `<unknown status code>`).
pub uninterp spec fn status_reason(status: u16) -> Seq<char>;

/// The text of an HTTP status, as `http::StatusCode` displays it.
///
/// Trusted: `http::StatusCode::from_u16` accepts exactly the codes 100 to 999,
/// and its `Display` writes the code, a space and the reason phrase.
#[verifier::external_body]
fn display_status(status: u16) -> (text: Option<String>)
    ensures
        text is Some <==> 100 <= status <= 999,
        text matches Some(t) ==> t@ == decimal_digits(status as nat) + " "@ + status_reason(status),
{
    match reqwest::StatusCode::from_u16(status) {
        Ok(code) => Some(code.to_string()),
        Err(_) => None,
    }
}

/// How an answer's status is shown in messages: the code and its reason
/// phrase, or only the code when it is not a valid HTTP status.
pub fn status_text(status: u16) -> (text: String)
    ensures
        100 <= status <= 999 ==> text@ == decimal_digits(status as nat) + " "@ + status_reason(
            status,
        ),
        !(100 <= status <= 999) ==> text@ == decimal_digits(status as nat),
{
    match display_status(status) {
        Some(text) => text,
        None => decimal_string(status as u32),
    }
}

/// Whether the engine's answer `status` is a success, whose body is the result.
pub fn is_success_status(status: u16) -> (b: bool)
    ensures
        b == is_success(status),
{
    200 <= status && status <= 299
}

/// The error that an unsuccessful answer `status` from `endpoint` becomes;
/// `message` is the body of the answer.
pub fn answer_error(endpoint: Endpoint, status: u16, message: String) -> (e: VoicevoxError)
    requires
        !is_success(status),
    ensures
        status == 404 ==> e == VoicevoxError::EndpointNotFound(endpoint),
        status != 404 ==> e == (VoicevoxError::RequestFailed { endpoint, status, message }),
{
    if status == 404 {
        VoicevoxError::EndpointNotFound(endpoint)
    } else {
        VoicevoxError::RequestFailed { endpoint, status, message }
    }
}

} // verus!
