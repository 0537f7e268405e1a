//! Settings.
use crate::metacognition::cot_monitor::CoTConfig;
use crate::metacognition::engine::{default_engine_config, EngineConfig};
use crate::metacognition::schema_reviser::ReviserConfig;
use crate::text::{
    begins, bool_of, copy_opt, dec, join_path, law_one_piece, law_split_at_separator, lemma_dec,
    lemma_views_push, opt_view, owned, parse_bool_or, parse_nat, parsed_nat, path_below, same,
    split_at_char, split_char, trim, trimmed, views,
};
use vstd::prelude::*;

verus! {

/// How the chat service is reached.
#[derive(Debug, Clone)]
pub struct ApiConfig {
    pub api_key: Option<String>,
    pub base_url: String,
    pub max_tokens: usize,
    /// In seconds.
    pub timeout: u64,
    pub streaming: bool,
    /// The name that the provider gives the family of the aliased models.
    pub model_family: Option<String>,
}

/// The address of the service where nothing else is set.
pub const DEFAULT_BASE_URL: &'static str = "https://api.anthropic.com";

impl Default for ApiConfig {
    fn default() -> (r: ApiConfig)
        ensures
            r.api_key is None,
            r.base_url@ == "https://api.anthropic.com"@,
            r.max_tokens == 4096,
            r.timeout == 120,
            r.streaming,
            r.model_family is None,
    {
        ApiConfig {
            api_key: None,
            base_url: owned(DEFAULT_BASE_URL),
            max_tokens: 4096,
            timeout: 120,
            streaming: true,
            model_family: None,
        }
    }
}

/// What an alias adds to the name of its family.
pub open spec fn alias_tail(name: Seq<char>) -> Option<Seq<char>> {
    if name == "opus"@ {
        Some("-3-opus-20240229"@)
    } else if name == "sonnet"@ {
        Some("-3-5-sonnet-20241022"@)
    } else if name == "haiku"@ {
        Some("-3-5-haiku-20241022"@)
    } else {
        None
    }
}

/// The model that a name stands for: the aliased model of a family, or the
/// name itself, where it is no alias or no family is set.
pub open spec fn model_id(family: Option<Seq<char>>, name: Seq<char>) -> Seq<char> {
    match (family, alias_tail(name)) {
        (Some(f), Some(t)) => f + t,
        _ => name,
    }
}

/// The first key that is set, in order.
pub open spec fn first_key(keys: Seq<Option<String>>) -> Option<Seq<char>>
    decreases keys.len(),
{
    if keys.len() == 0 {
        None
    } else if keys[0] is Some {
        opt_view(keys[0])
    } else {
        first_key(keys.skip(1))
    }
}

impl ApiConfig {
    /// The key to use: the first that the environment sets, else the
    /// configured one.
    pub fn get_api_key(&self, environment: &Vec<Option<String>>) -> (r: Option<String>)
        ensures
            opt_view(r) == (match first_key(environment@) {
                Some(k) => Some(k),
                None => opt_view(self.api_key),
            }),
    {
        proof {
            assert(environment@.skip(0) =~= environment@);
        }
        for i in 0..environment.len()
            invariant
                first_key(environment@) == first_key(environment@.skip(i as int)),
        {
            proof {
                assert(environment@.skip(i as int)[0] == environment@[i as int]);
                assert(environment@.skip(i as int).skip(1) =~= environment@.skip(i + 1));
            }
            match &environment[i] {
                Some(k) => {
                    return Some(k.clone());
                },
                None => {},
            }
        }
        copy_opt(&self.api_key)
    }

    /// The address to use: what the environment sets, else the configured
    /// one.
    pub fn get_base_url(&self, environment: &Option<String>) -> (r: String)
        ensures
            r@ == (match *environment {
                Some(u) => u@,
                None => self.base_url@,
            }),
    {
        match environment {
            Some(u) => u.clone(),
            None => self.base_url.clone(),
        }
    }

    /// The model that a name stands for.
    pub fn get_model_id(&self, name: &str) -> (r: String)
        ensures
            r@ == model_id(opt_view(self.model_family), name@),
    {
        match &self.model_family {
            Some(f) => {
                let mut id: String = f.clone();
                if same(name, "opus") {
                    id.append("-3-opus-20240229");
                    id
                } else if same(name, "sonnet") {
                    id.append("-3-5-sonnet-20241022");
                    id
                } else if same(name, "haiku") {
                    id.append("-3-5-haiku-20241022");
                    id
                } else {
                    owned(name)
                }
            },
            None => owned(name),
        }
    }
}

#[derive(Debug, Clone)]
pub struct MemorySettings {
    pub enabled: bool,
    /// Where the store lies.
    pub path: String,
    /// Hours between consolidations.
    pub consolidation_interval: u64,
    pub max_memories: usize,
    pub bank_id: String,
    pub remote_url: Option<String>,
    pub remote_token: Option<String>,
}

#[derive(Debug, Clone, Copy)]
pub struct VoiceSettings {
    pub enabled: bool,
    pub push_to_talk: bool,
    /// In billionths.
    pub silence_threshold: u64,
    pub sample_rate: u32,
}

#[derive(Debug, Clone)]
pub struct PluginSettings {
    pub enabled: bool,
    pub plugin_dir: String,
    pub auto_update: bool,
}

/// Settings of the metacognition layers.
#[derive(Debug, Clone, Copy)]
pub struct MetacogSettings {
    pub enabled: bool,
    pub enable_layer3: bool,
    pub enable_layer4: bool,
    pub prompt_top_k: usize,
    /// In billionths.
    pub low_quality_thresh: u64,
    pub review_every_n_episodes: usize,
}

impl Default for MetacogSettings {
    fn default() -> (r: MetacogSettings)
        ensures
            r == (MetacogSettings {
                enabled: true,
                enable_layer3: true,
                enable_layer4: true,
                prompt_top_k: 3,
                low_quality_thresh: 400_000_000,
                review_every_n_episodes: 5,
            }),
    {
        MetacogSettings {
            enabled: true,
            enable_layer3: true,
            enable_layer4: true,
            prompt_top_k: 3,
            low_quality_thresh: 400_000_000,
            review_every_n_episodes: 5,
        }
    }
}

impl MetacogSettings {
    /// The engine configuration of these settings.
    pub fn to_engine_config(&self) -> (r: EngineConfig)
        ensures
            r.wf(),
            r == (EngineConfig {
                enable_layer3: self.enable_layer3,
                enable_layer4: self.enable_layer4,
                prompt_top_k: self.prompt_top_k,
                layer2: CoTConfig {
                    low_quality_thresh: self.low_quality_thresh,
                    ..default_engine_config().layer2
                },
                layer4: ReviserConfig {
                    review_every_n_episodes: self.review_every_n_episodes,
                    ..default_engine_config().layer4
                },
                ..default_engine_config()
            }),
    {
        let mut cfg: EngineConfig = EngineConfig::default();
        cfg.enable_layer3 = self.enable_layer3;
        cfg.enable_layer4 = self.enable_layer4;
        cfg.prompt_top_k = self.prompt_top_k;
        cfg.layer2.low_quality_thresh = self.low_quality_thresh;
        cfg.layer4.review_every_n_episodes = self.review_every_n_episodes;
        cfg
    }
}

#[derive(Debug, Clone)]
pub struct Settings {
    pub api: ApiConfig,
    /// The configured tool servers, each as its compact JSON text.
    pub mcp_servers: Vec<String>,
    pub model: String,
    pub verbose: bool,
    pub working_dir: String,
    /// The role where none is asked for.
    pub default_persona: String,
    /// The only bundles to use; empty for those that the role suggests.
    pub enabled_bundles: Vec<String>,
    pub memory: MemorySettings,
    pub voice: VoiceSettings,
    pub plugins: PluginSettings,
    pub metacog: MetacogSettings,
}

/// Settings as a mathematical value.
pub struct SettingsView {
    pub api_key: Option<Seq<char>>,
    pub base_url: Seq<char>,
    pub max_tokens: usize,
    pub timeout: u64,
    pub streaming: bool,
    pub model_family: Option<Seq<char>>,
    pub mcp_servers: Seq<Seq<char>>,
    pub model: Seq<char>,
    pub verbose: bool,
    pub working_dir: Seq<char>,
    pub default_persona: Seq<char>,
    pub enabled_bundles: Seq<Seq<char>>,
    pub memory_enabled: bool,
    pub memory_path: Seq<char>,
    pub consolidation_interval: u64,
    pub max_memories: usize,
    pub bank_id: Seq<char>,
    pub remote_url: Option<Seq<char>>,
    pub remote_token: Option<Seq<char>>,
    pub voice: VoiceSettings,
    pub plugins_enabled: bool,
    pub plugin_dir: Seq<char>,
    pub plugins_auto_update: bool,
    pub metacog: MetacogSettings,
}

impl View for Settings {
    type V = SettingsView;

    open spec fn view(&self) -> SettingsView {
        SettingsView {
            api_key: opt_view(self.api.api_key),
            base_url: self.api.base_url@,
            max_tokens: self.api.max_tokens,
            timeout: self.api.timeout,
            streaming: self.api.streaming,
            model_family: opt_view(self.api.model_family),
            mcp_servers: views(self.mcp_servers@),
            model: self.model@,
            verbose: self.verbose,
            working_dir: self.working_dir@,
            default_persona: self.default_persona@,
            enabled_bundles: views(self.enabled_bundles@),
            memory_enabled: self.memory.enabled,
            memory_path: self.memory.path@,
            consolidation_interval: self.memory.consolidation_interval,
            max_memories: self.memory.max_memories,
            bank_id: self.memory.bank_id@,
            remote_url: opt_view(self.memory.remote_url),
            remote_token: opt_view(self.memory.remote_token),
            voice: self.voice,
            plugins_enabled: self.plugins.enabled,
            plugin_dir: self.plugins.plugin_dir@,
            plugins_auto_update: self.plugins.auto_update,
            metacog: self.metacog,
        }
    }
}

/// Why a setting could not be set: there is none of that name.
#[derive(Debug, Clone)]
pub struct UnknownSetting {
    pub key: String,
}

impl UnknownSetting {
    /// The message for the user.
    pub fn message(&self) -> (r: String)
        ensures
            r@ == "Unknown setting: "@ + self.key@,
    {
        let mut s: String = owned("Unknown setting: ");
        s.append(self.key.as_str());
        s
    }
}

/// A truth value, or the default where the text is none.
pub open spec fn bool_or(s: Seq<char>, default: bool) -> bool {
    match bool_of(s) {
        Some(b) => b,
        None => default,
    }
}

/// A number up to `max`, or the default where the text is none.
pub open spec fn nat_or(s: Seq<char>, max: nat, default: nat) -> nat {
    match parsed_nat(s) {
        Some(n) => if n <= max {
            n
        } else {
            default
        },
        None => default,
    }
}

/// A text, or none where it is empty.
pub open spec fn some_unless_empty(s: Seq<char>) -> Option<Seq<char>> {
    if s.len() == 0 {
        None
    } else {
        Some(s)
    }
}

/// The names among the pieces of a list: without the white space at their
/// ends, where anything is left.
pub open spec fn listed_names(pieces: Seq<Seq<char>>) -> Seq<Seq<char>>
    decreases pieces.len(),
{
    if pieces.len() == 0 {
        seq![]
    } else {
        let before = listed_names(pieces.drop_last());
        let t = trimmed(pieces.last());
        if t.len() > 0 {
            before.push(t)
        } else {
            before
        }
    }
}

/// What can be set by name.
#[derive(Debug, Clone, Copy, PartialEq, Eq, Structural)]
pub enum SettingKey {
    Model,
    Verbose,
    ApiKey,
    BaseUrl,
    MaxTokens,
    Timeout,
    Streaming,
    DefaultPersona,
    EnabledBundles,
    MemoryEnabled,
    BankId,
    RemoteUrl,
    RemoteToken,
    VoiceEnabled,
    MetacogEnabled,
}

/// The setting of a name.
pub open spec fn key_of(s: Seq<char>) -> Option<SettingKey> {
    if s == "model"@ {
        Some(SettingKey::Model)
    } else if s == "verbose"@ {
        Some(SettingKey::Verbose)
    } else if s == "api_key"@ {
        Some(SettingKey::ApiKey)
    } else if s == "base_url"@ {
        Some(SettingKey::BaseUrl)
    } else if s == "max_tokens"@ {
        Some(SettingKey::MaxTokens)
    } else if s == "timeout"@ {
        Some(SettingKey::Timeout)
    } else if s == "streaming"@ {
        Some(SettingKey::Streaming)
    } else if s == "default_persona"@ {
        Some(SettingKey::DefaultPersona)
    } else if s == "enabled_bundles"@ {
        Some(SettingKey::EnabledBundles)
    } else if s == "memory.enabled"@ {
        Some(SettingKey::MemoryEnabled)
    } else if s == "memory.bank_id"@ || s == "memory.hindsight_bank"@ {
        Some(SettingKey::BankId)
    } else if s == "memory.remote_url"@ || s == "memory.hindsight_url"@ {
        Some(SettingKey::RemoteUrl)
    } else if s == "memory.remote_token"@ || s == "memory.hindsight_token"@ {
        Some(SettingKey::RemoteToken)
    } else if s == "voice.enabled"@ {
        Some(SettingKey::VoiceEnabled)
    } else if s == "metacog.enabled"@ {
        Some(SettingKey::MetacogEnabled)
    } else {
        None
    }
}

/// The setting of a name.
pub fn find_key(s: &str) -> (r: Option<SettingKey>)
    ensures
        r == key_of(s@),
{
    if same(s, "model") {
        Some(SettingKey::Model)
    } else if same(s, "verbose") {
        Some(SettingKey::Verbose)
    } else if same(s, "api_key") {
        Some(SettingKey::ApiKey)
    } else if same(s, "base_url") {
        Some(SettingKey::BaseUrl)
    } else if same(s, "max_tokens") {
        Some(SettingKey::MaxTokens)
    } else if same(s, "timeout") {
        Some(SettingKey::Timeout)
    } else if same(s, "streaming") {
        Some(SettingKey::Streaming)
    } else if same(s, "default_persona") {
        Some(SettingKey::DefaultPersona)
    } else if same(s, "enabled_bundles") {
        Some(SettingKey::EnabledBundles)
    } else if same(s, "memory.enabled") {
        Some(SettingKey::MemoryEnabled)
    } else if same(s, "memory.bank_id") || same(s, "memory.hindsight_bank") {
        Some(SettingKey::BankId)
    } else if same(s, "memory.remote_url") || same(s, "memory.hindsight_url") {
        Some(SettingKey::RemoteUrl)
    } else if same(s, "memory.remote_token") || same(s, "memory.hindsight_token") {
        Some(SettingKey::RemoteToken)
    } else if same(s, "voice.enabled") {
        Some(SettingKey::VoiceEnabled)
    } else if same(s, "metacog.enabled") {
        Some(SettingKey::MetacogEnabled)
    } else {
        None
    }
}

/// The settings after one was given a value, as far as the value can be read;
/// else it gets its default.
pub open spec fn with_value(s: SettingsView, key: SettingKey, value: Seq<char>) -> SettingsView {
    match key {
        SettingKey::Model => SettingsView { model: value, ..s },
        SettingKey::Verbose => SettingsView { verbose: bool_or(value, false), ..s },
        SettingKey::ApiKey => SettingsView { api_key: Some(value), ..s },
        SettingKey::BaseUrl => SettingsView { base_url: value, ..s },
        SettingKey::MaxTokens => SettingsView {
            max_tokens: nat_or(value, usize::MAX as nat, 4096) as usize,
            ..s
        },
        SettingKey::Timeout => SettingsView {
            timeout: nat_or(value, u64::MAX as nat, 120) as u64,
            ..s
        },
        SettingKey::Streaming => SettingsView { streaming: bool_or(value, true), ..s },
        SettingKey::DefaultPersona => SettingsView { default_persona: value, ..s },
        SettingKey::EnabledBundles => SettingsView {
            enabled_bundles: listed_names(split_at_char(value, ',')),
            ..s
        },
        SettingKey::MemoryEnabled => SettingsView { memory_enabled: bool_or(value, true), ..s },
        SettingKey::BankId => SettingsView { bank_id: value, ..s },
        SettingKey::RemoteUrl => SettingsView { remote_url: some_unless_empty(value), ..s },
        SettingKey::RemoteToken => SettingsView {
            remote_token: some_unless_empty(value),
            ..s
        },
        SettingKey::VoiceEnabled => SettingsView {
            voice: VoiceSettings { enabled: bool_or(value, false), ..s.voice },
            ..s
        },
        SettingKey::MetacogEnabled => SettingsView {
            metacog: MetacogSettings { enabled: bool_or(value, true), ..s.metacog },
            ..s
        },
    }
}

/// The settings after one was set; none where there is no such setting.
pub open spec fn with_setting(s: SettingsView, key: Seq<char>, value: Seq<char>) -> Option<
    SettingsView,
> {
    match key_of(key) {
        Some(k) => Some(with_value(s, k, value)),
        None => None,
    }
}

/// The default settings below a home directory.
pub open spec fn default_settings(home: Seq<char>) -> SettingsView {
    SettingsView {
        api_key: None,
        base_url: "https://api.anthropic.com"@,
        max_tokens: 4096,
        timeout: 120,
        streaming: true,
        model_family: None,
        mcp_servers: Seq::empty(),
        model: "sonnet"@,
        verbose: false,
        working_dir: "."@,
        default_persona: "general"@,
        enabled_bundles: Seq::empty(),
        memory_enabled: true,
        memory_path: path_below(home, ".agentrust/memory.db"@),
        consolidation_interval: 24,
        max_memories: 1000,
        bank_id: "agentrust"@,
        remote_url: None,
        remote_token: None,
        voice: VoiceSettings {
            enabled: false,
            push_to_talk: false,
            silence_threshold: 10_000_000,
            sample_rate: 16000,
        },
        plugins_enabled: true,
        plugin_dir: path_below(home, ".agentrust/plugins"@),
        plugins_auto_update: true,
        metacog: MetacogSettings {
            enabled: true,
            enable_layer3: true,
            enable_layer4: true,
            prompt_top_k: 3,
            low_quality_thresh: 400_000_000,
            review_every_n_episodes: 5,
        },
    }
}

fn names_in(list: &str) -> (r: Vec<String>)
    ensures
        views(r@) == listed_names(split_at_char(list@, ',')),
{
    let pieces: Vec<String> = split_char(list, ',');
    let ghost pv = views(pieces@);
    let mut out: Vec<String> = Vec::new();
    proof {
        assert(views(out@) =~= seq![]);
    }
    for i in 0..pieces.len()
        invariant
            pv == views(pieces@),
            views(out@) == listed_names(pv.take(i as int)),
    {
        let t: String = trim(pieces[i].as_str());
        proof {
            assert(pv.take(i + 1).drop_last() =~= pv.take(i as int));
            assert(pv.take(i + 1).last() == pieces@[i as int]@);
        }
        if t.as_str().unicode_len() > 0 {
            proof {
                lemma_views_push(out@, t);
            }
            out.push(t);
        }
    }
    proof {
        assert(pv.take(pv.len() as int) =~= pv);
    }
    out
}

fn unless_empty(s: &str) -> (r: Option<String>)
    ensures
        opt_view(r) == some_unless_empty(s@),
{
    if s.unicode_len() == 0 {
        None
    } else {
        Some(owned(s))
    }
}

impl Settings {
    /// The default settings below a home directory.
    pub fn defaults(home: &str) -> (r: Settings)
        ensures
            r@ == default_settings(home@),
    {
        let path: String = join_path(home, ".agentrust/memory.db");
        let plugin_dir: String = join_path(home, ".agentrust/plugins");
        let r = Settings {
            api: ApiConfig::default(),
            mcp_servers: Vec::new(),
            model: owned("sonnet"),
            verbose: false,
            working_dir: owned("."),
            default_persona: owned("general"),
            enabled_bundles: Vec::new(),
            memory: MemorySettings {
                enabled: true,
                path,
                consolidation_interval: 24,
                max_memories: 1000,
                bank_id: owned("agentrust"),
                remote_url: None,
                remote_token: None,
            },
            voice: VoiceSettings {
                enabled: false,
                push_to_talk: false,
                silence_threshold: 10_000_000,
                sample_rate: 16000,
            },
            plugins: PluginSettings { enabled: true, plugin_dir, auto_update: true },
            metacog: MetacogSettings::default(),
        };
        proof {
            assert(r@.enabled_bundles =~= Seq::empty());
            assert(r@.mcp_servers =~= Seq::empty());
        }
        r
    }

    /// Gives a setting a value.
    pub fn assign(&mut self, k: SettingKey, value: &str)
        ensures
            final(self)@ == with_value(old(self)@, k, value@),
    {
        match k {
            SettingKey::Model => {
                self.model = owned(value);
            },
            SettingKey::Verbose => {
                self.verbose = parse_bool_or(value, false);
            },
            SettingKey::ApiKey => {
                self.api.api_key = Some(owned(value));
            },
            SettingKey::BaseUrl => {
                self.api.base_url = owned(value);
            },
            SettingKey::MaxTokens => {
                self.api.max_tokens = match parse_nat(value, usize::MAX as u64) {
                    Some(n) => n as usize,
                    None => 4096,
                };
            },
            SettingKey::Timeout => {
                self.api.timeout = match parse_nat(value, u64::MAX) {
                    Some(n) => n,
                    None => 120,
                };
            },
            SettingKey::Streaming => {
                self.api.streaming = parse_bool_or(value, true);
            },
            SettingKey::DefaultPersona => {
                self.default_persona = owned(value);
            },
            SettingKey::EnabledBundles => {
                self.enabled_bundles = names_in(value);
            },
            SettingKey::MemoryEnabled => {
                self.memory.enabled = parse_bool_or(value, true);
            },
            SettingKey::BankId => {
                self.memory.bank_id = owned(value);
            },
            SettingKey::RemoteUrl => {
                self.memory.remote_url = unless_empty(value);
            },
            SettingKey::RemoteToken => {
                self.memory.remote_token = unless_empty(value);
            },
            SettingKey::VoiceEnabled => {
                self.voice.enabled = parse_bool_or(value, false);
            },
            SettingKey::MetacogEnabled => {
                self.metacog.enabled = parse_bool_or(value, true);
            },
        }
    }

    /// Sets one setting by name. Where there is none of that name, nothing
    /// changes.
    pub fn set(&mut self, key: &str, value: &str) -> (r: Result<(), UnknownSetting>)
        ensures
            match with_setting(old(self)@, key@, value@) {
                Some(s) => r is Ok && final(self)@ == s,
                None => r matches Err(e) && e.key@ == key@ && final(self)@ == old(self)@,
            },
    {
        let k: SettingKey = match find_key(key) {
            Some(k) => k,
            None => {
                return Err(UnknownSetting { key: owned(key) });
            },
        };
        self.assign(k, value);
        Ok(())
    }
}

/// Setting a setting twice leaves the second value.
#[verifier::rlimit(60)]
pub proof fn law_last_value_counts(s: SettingsView, k: SettingKey, v: Seq<char>, w: Seq<char>)
    ensures
        with_value(with_value(s, k, v), k, w) == with_value(s, k, w),
{
    match k {
        SettingKey::Model => {},
        SettingKey::Verbose => {},
        SettingKey::ApiKey => {},
        SettingKey::BaseUrl => {},
        SettingKey::MaxTokens => {},
        SettingKey::Timeout => {},
        SettingKey::Streaming => {},
        SettingKey::DefaultPersona => {},
        SettingKey::EnabledBundles => {},
        SettingKey::MemoryEnabled => {},
        SettingKey::BankId => {},
        SettingKey::RemoteUrl => {},
        SettingKey::RemoteToken => {},
        SettingKey::VoiceEnabled => {},
        SettingKey::MetacogEnabled => {},
    }
}

/// Setting one setting leaves the others alone.
pub proof fn law_other_settings_stay(s: SettingsView, k: SettingKey, v: Seq<char>)
    ensures
        ({
            let r = with_value(s, k, v);
            &&& k != SettingKey::Model ==> r.model == s.model
            &&& k != SettingKey::Verbose ==> r.verbose == s.verbose
            &&& k != SettingKey::ApiKey ==> r.api_key == s.api_key
            &&& k != SettingKey::BaseUrl ==> r.base_url == s.base_url
            &&& k != SettingKey::MaxTokens ==> r.max_tokens == s.max_tokens
            &&& k != SettingKey::Timeout ==> r.timeout == s.timeout
            &&& k != SettingKey::Streaming ==> r.streaming == s.streaming
            &&& k != SettingKey::DefaultPersona ==> r.default_persona == s.default_persona
            &&& k != SettingKey::EnabledBundles ==> r.enabled_bundles == s.enabled_bundles
            &&& k != SettingKey::MemoryEnabled ==> r.memory_enabled == s.memory_enabled
            &&& k != SettingKey::BankId ==> r.bank_id == s.bank_id
            &&& k != SettingKey::RemoteUrl ==> r.remote_url == s.remote_url
            &&& k != SettingKey::RemoteToken ==> r.remote_token == s.remote_token
            &&& k != SettingKey::VoiceEnabled ==> r.voice == s.voice
            &&& k != SettingKey::MetacogEnabled ==> r.metacog == s.metacog
            &&& r.model_family == s.model_family
            &&& r.mcp_servers == s.mcp_servers
            &&& r.working_dir == s.working_dir
            &&& r.memory_path == s.memory_path
            &&& r.consolidation_interval == s.consolidation_interval
            &&& r.max_memories == s.max_memories
            &&& r.plugins_enabled == s.plugins_enabled
            &&& r.plugin_dir == s.plugin_dir
        }),
{
}

/// A value that was set is the one that counts: a text as it is, a number
/// and a truth value as they are written, and the default where the text is
/// neither; an empty address or token is none.
pub proof fn law_value_takes_effect(s: SettingsView, v: Seq<char>, n: usize, m: u64, b: bool)
    ensures
        with_setting(s, "model"@, v) matches Some(r) && r.model == v,
        with_setting(s, "api_key"@, v) matches Some(r) && r.api_key == Some(v),
        with_setting(s, "base_url"@, v) matches Some(r) && r.base_url == v,
        with_setting(s, "default_persona"@, v) matches Some(r) && r.default_persona == v,
        with_setting(s, "memory.bank_id"@, v) matches Some(r) && r.bank_id == v,
        with_setting(s, "memory.remote_url"@, v) matches Some(r) && (v.len() > 0 ==> r.remote_url
            == Some(v)) && (v.len() == 0 ==> r.remote_url is None),
        with_setting(s, "memory.remote_token"@, v) matches Some(r) && (v.len() > 0
            ==> r.remote_token == Some(v)) && (v.len() == 0 ==> r.remote_token is None),
        with_setting(s, "max_tokens"@, dec(n as nat)) matches Some(r) && r.max_tokens == n,
        with_setting(s, "timeout"@, dec(m as nat)) matches Some(r) && r.timeout == m,
        parsed_nat(v) is None ==> (with_setting(s, "max_tokens"@, v) matches Some(r)
            && r.max_tokens == 4096),
        parsed_nat(v) is None ==> (with_setting(s, "timeout"@, v) matches Some(r) && r.timeout
            == 120),
        ({
            let t = if b {
                "true"@
            } else {
                "false"@
            };
            &&& with_setting(s, "verbose"@, t) matches Some(r) && r.verbose == b
            &&& with_setting(s, "streaming"@, t) matches Some(r) && r.streaming == b
            &&& with_setting(s, "memory.enabled"@, t) matches Some(r) && r.memory_enabled == b
            &&& with_setting(s, "voice.enabled"@, t) matches Some(r) && r.voice.enabled == b
            &&& with_setting(s, "metacog.enabled"@, t) matches Some(r) && r.metacog.enabled == b
        }),
{
    lemma_setting_names();
    lemma_dec(n as nat);
    lemma_dec(m as nat);
    let d = dec(n as nat);
    let e = dec(m as nat);
    assert('0' <= d[0] <= '9');
    assert('0' <= e[0] <= '9');
    reveal_strlit("true");
    reveal_strlit("false");
    assert("true"@.len() != "false"@.len());
}

proof fn lemma_setting_names()
    ensures
        key_of("model"@) == Some(SettingKey::Model),
        key_of("verbose"@) == Some(SettingKey::Verbose),
        key_of("api_key"@) == Some(SettingKey::ApiKey),
        key_of("base_url"@) == Some(SettingKey::BaseUrl),
        key_of("max_tokens"@) == Some(SettingKey::MaxTokens),
        key_of("timeout"@) == Some(SettingKey::Timeout),
        key_of("streaming"@) == Some(SettingKey::Streaming),
        key_of("default_persona"@) == Some(SettingKey::DefaultPersona),
        key_of("memory.enabled"@) == Some(SettingKey::MemoryEnabled),
        key_of("memory.bank_id"@) == Some(SettingKey::BankId),
        key_of("memory.remote_url"@) == Some(SettingKey::RemoteUrl),
        key_of("memory.remote_token"@) == Some(SettingKey::RemoteToken),
        key_of("voice.enabled"@) == Some(SettingKey::VoiceEnabled),
        key_of("metacog.enabled"@) == Some(SettingKey::MetacogEnabled),
        key_of("enabled_bundles"@) == Some(SettingKey::EnabledBundles),
{
    reveal_strlit("model");
    reveal_strlit("verbose");
    reveal_strlit("api_key");
    reveal_strlit("base_url");
    reveal_strlit("max_tokens");
    reveal_strlit("timeout");
    reveal_strlit("streaming");
    reveal_strlit("default_persona");
    reveal_strlit("enabled_bundles");
    reveal_strlit("memory.enabled");
    reveal_strlit("memory.bank_id");
    reveal_strlit("memory.hindsight_bank");
    reveal_strlit("memory.remote_url");
    reveal_strlit("memory.hindsight_url");
    reveal_strlit("memory.remote_token");
    reveal_strlit("memory.hindsight_token");
    reveal_strlit("voice.enabled");
    reveal_strlit("metacog.enabled");
    assert("verbose"@[0] == 'v' && "timeout"@[0] == 't' && "api_key"@[0] == 'a');
    assert("model"@.len() == 5 && "verbose"@.len() == 7 && "api_key"@.len() == 7);
    assert("base_url"@.len() == 8 && "timeout"@.len() == 7 && "streaming"@.len() == 9);
    assert("max_tokens"@.len() == 10);
    assert("default_persona"@[0] == 'd' && "enabled_bundles"@[0] == 'e' && "metacog.enabled"@[0]
        == 'm');
    assert("memory.enabled"@[7] == 'e' && "memory.bank_id"@[7] == 'b');
    assert("memory.remote_url"@.len() == 17 && "memory.remote_token"@.len() == 19);
    assert("voice.enabled"@.len() == 13 && "metacog.enabled"@.len() == 15);
    assert("memory.enabled"@.len() == 14 && "memory.bank_id"@.len() == 14);
    assert("memory.hindsight_bank"@.len() == 21 && "memory.hindsight_url"@.len() == 20);
    assert("memory.hindsight_token"@.len() == 22);
    assert("default_persona"@.len() == 15 && "enabled_bundles"@.len() == 15);
}

proof fn lemma_names_of_both(a: Seq<Seq<char>>, b: Seq<Seq<char>>)
    ensures
        listed_names(a + b) == listed_names(a) + listed_names(b),
    decreases b.len(),
{
    if b.len() == 0 {
        assert(a + b =~= a);
        assert(listed_names(a) + listed_names(b) =~= listed_names(a));
    } else {
        lemma_names_of_both(a, b.drop_last());
        assert((a + b).drop_last() =~= a + b.drop_last());
        let t = trimmed(b.last());
        let x = listed_names(a);
        let y = listed_names(b.drop_last());
        assert((x + y).push(t) =~= x + y.push(t));
    }
}

/// A list of bundles is read between its commas: what stands before a comma
/// and after it is listed in turn, without the white space around it, and
/// what is blank is left out.
pub proof fn law_bundles_are_listed(s: SettingsView, a: Seq<char>, b: Seq<char>, name: Seq<char>)
    ensures
        with_value(s, SettingKey::EnabledBundles, a.push(',') + b).enabled_bundles == with_value(
            s,
            SettingKey::EnabledBundles,
            a,
        ).enabled_bundles + with_value(s, SettingKey::EnabledBundles, b).enabled_bundles,
        !name.contains(',') && trimmed(name).len() > 0 ==> with_value(
            s,
            SettingKey::EnabledBundles,
            name,
        ).enabled_bundles == seq![trimmed(name)],
        !name.contains(',') && trimmed(name).len() == 0 ==> with_value(
            s,
            SettingKey::EnabledBundles,
            name,
        ).enabled_bundles.len() == 0,
{
    law_split_at_separator(a, ',', b);
    lemma_names_of_both(split_at_char(a, ','), split_at_char(b, ','));
    if !name.contains(',') {
        law_one_piece(name, ',');
        let p = seq![name];
        assert(p.drop_last() =~= Seq::<Seq<char>>::empty());
        assert(listed_names(p.drop_last()) =~= Seq::<Seq<char>>::empty());
        assert(Seq::<Seq<char>>::empty().push(trimmed(name)) =~= seq![trimmed(name)]);
    }
}

/// Without a family, and for a name that is no alias, a name stands for
/// itself; an alias stands for a model of the family, different aliases for
/// different ones.
pub proof fn law_aliases(family: Seq<char>, name: Seq<char>)
    ensures
        model_id(None, name) == name,
        name != "opus"@ && name != "sonnet"@ && name != "haiku"@ ==> model_id(Some(family), name)
            == name,
        begins(model_id(Some(family), "opus"@), family + "-3-opus-"@),
        begins(model_id(Some(family), "sonnet"@), family + "-3-5-sonnet-"@),
        begins(model_id(Some(family), "haiku"@), family + "-3-5-haiku-"@),
{
    reveal_strlit("opus");
    reveal_strlit("sonnet");
    reveal_strlit("haiku");
    reveal_strlit("-3-opus-20240229");
    reveal_strlit("-3-5-sonnet-20241022");
    reveal_strlit("-3-5-haiku-20241022");
    reveal_strlit("-3-opus-");
    reveal_strlit("-3-5-sonnet-");
    reveal_strlit("-3-5-haiku-");
    assert("opus"@.len() == 4 && "sonnet"@.len() == 6 && "haiku"@.len() == 5);
    let o = family + "-3-opus-"@;
    let s = family + "-3-5-sonnet-"@;
    let h = family + "-3-5-haiku-"@;
    assert(model_id(Some(family), "opus"@).take(o.len() as int) =~= o);
    assert(model_id(Some(family), "sonnet"@).take(s.len() as int) =~= s);
    assert(model_id(Some(family), "haiku"@).take(h.len() as int) =~= h);
}

/// The first key that is set is used: those before it are not set, and
/// there is none only where none is set.
pub proof fn law_first_key_that_is_set(keys: Seq<Option<String>>)
    ensures
        first_key(keys) is None <==> forall|i: int|
            0 <= i < keys.len() ==> (#[trigger] keys[i]) is None,
        forall|i: int|
            0 <= i < keys.len() && (#[trigger] keys[i]) is Some && (forall|j: int|
                0 <= j < i ==> (#[trigger] keys[j]) is None) ==> first_key(keys) == opt_view(
                keys[i],
            ),
    decreases keys.len(),
{
    if keys.len() > 0 && keys[0] is None {
        let t = keys.skip(1);
        law_first_key_that_is_set(t);
        assert forall|i: int|
            0 <= i < keys.len() && (#[trigger] keys[i]) is Some && (forall|j: int|
                0 <= j < i ==> (#[trigger] keys[j]) is None) implies first_key(keys) == opt_view(
            keys[i],
        ) by {
            assert(t[i - 1] == keys[i]);
            assert forall|j: int| 0 <= j < i - 1 implies (#[trigger] t[j]) is None by {
                assert(keys[j + 1] is None);
            }
        }
        if first_key(keys) is None {
            assert forall|i: int| 0 <= i < keys.len() implies (#[trigger] keys[i]) is None by {
                if i > 0 {
                    assert(t[i - 1] is None);
                }
            }
        }
        if forall|i: int| 0 <= i < keys.len() ==> (#[trigger] keys[i]) is None {
            assert forall|i: int| 0 <= i < t.len() implies (#[trigger] t[i]) is None by {
                assert(keys[i + 1] is None);
            }
        }
    }
}

} // verus!
