//! The configuration, as it comes from environment variables.
use crate::number;
use crate::text;
use crate::time::{self, Interval};
use vstd::prelude::*;

verus! {

/// The environment variables that are looked at. One that is not set is `None`.
pub struct Environment {
    pub fastmail_api_token: Option<String>,
    pub jmap_session_url: Option<String>,
    pub quarantine_mailbox_name: Option<String>,
    pub max_domain_age_days: Option<String>,
    pub retry_interval_min: Option<String>,
    pub retry_max_attempts: Option<String>,
    pub state_dir: Option<String>,
    pub psl_path: Option<String>,
    pub trusted_authserv_ids: Option<String>,
    pub healthz_port: Option<String>,
}

/// The configuration.
#[derive(Debug, Clone)]
pub struct Config {
    pub fastmail_api_token: String,
    /// The URL of the JMAP session.
    pub jmap_session_url: String,
    /// The host of that URL.
    pub jmap_session_host: String,
    /// Scheme, host and port of that URL: where the server is.
    pub jmap_base_url: String,
    pub quarantine_mailbox_name: String,
    pub max_domain_age_days: i64,
    pub retry_interval: Interval,
    pub retry_max_attempts: u32,
    pub state_dir: String,
    pub psl_path: String,
    pub trusted_authserv_ids: Vec<String>,
    pub healthz_port: u16,
}

/// What a `Config` says.
pub struct Settings {
    pub fastmail_api_token: Seq<char>,
    pub jmap_session_url: Seq<char>,
    pub jmap_session_host: Seq<char>,
    pub jmap_base_url: Seq<char>,
    pub quarantine_mailbox_name: Seq<char>,
    pub max_domain_age_days: int,
    /// In nanoseconds.
    pub retry_interval: nat,
    pub retry_max_attempts: nat,
    pub state_dir: Seq<char>,
    pub psl_path: Seq<char>,
    pub trusted_authserv_ids: Seq<Seq<char>>,
    pub healthz_port: nat,
}

impl View for Config {
    type V = Settings;

    open spec fn view(&self) -> Settings {
        Settings {
            fastmail_api_token: self.fastmail_api_token@,
            jmap_session_url: self.jmap_session_url@,
            jmap_session_host: self.jmap_session_host@,
            jmap_base_url: self.jmap_base_url@,
            quarantine_mailbox_name: self.quarantine_mailbox_name@,
            max_domain_age_days: self.max_domain_age_days as int,
            retry_interval: self.retry_interval@,
            retry_max_attempts: self.retry_max_attempts as nat,
            state_dir: self.state_dir@,
            psl_path: self.psl_path@,
            trusted_authserv_ids: text::strings(self.trusted_authserv_ids@),
            healthz_port: self.healthz_port as nat,
        }
    }
}

/// Why there is no configuration.
#[derive(Debug, Clone, Copy, PartialEq, Eq, Structural)]
pub enum ConfigError {
    MissingToken,
    EmptyToken,
    InvalidUrl,
    NoHost,
}

/// The message for an error.
pub open spec fn error_message(e: ConfigError) -> Seq<char> {
    match e {
        ConfigError::MissingToken => "FASTMAIL_API_TOKEN env var is required"@,
        ConfigError::EmptyToken => "FASTMAIL_API_TOKEN must not be empty"@,
        ConfigError::InvalidUrl => "JMAP_SESSION_URL is not a valid URL"@,
        ConfigError::NoHost => "JMAP_SESSION_URL has no host"@,
    }
}

impl ConfigError {
    /// The message.
    pub fn to_string(&self) -> (s: String)
        ensures
            s@ == error_message(*self),
    {
        match self {
            ConfigError::MissingToken => "FASTMAIL_API_TOKEN env var is required".to_owned(),
            ConfigError::EmptyToken => "FASTMAIL_API_TOKEN must not be empty".to_owned(),
            ConfigError::InvalidUrl => "JMAP_SESSION_URL is not a valid URL".to_owned(),
            ConfigError::NoHost => "JMAP_SESSION_URL has no host".to_owned(),
        }
    }
}

/// What is looked at in a URL.
pub struct UrlParts {
    pub scheme: String,
    /// The host, if it has one.
    pub host: Option<String>,
    /// The port, unless it is the usual one for the scheme.
    pub port: Option<u16>,
}

/// What a `UrlParts` says.
pub struct UrlText {
    pub scheme: Seq<char>,
    pub host: Option<Seq<char>>,
    pub port: Option<u16>,
}

/// What the parts of a URL say.
pub open spec fn url_text(parts: Option<UrlParts>) -> Option<UrlText> {
    match parts {
        Some(p) => Some(
            UrlText {
                scheme: p.scheme@,
                host: match p.host {
                    Some(h) => Some(h@),
                    None => None,
                },
                port: p.port,
            },
        ),
        None => None,
    }
}

/// What `Url::parse` of the crate `reqwest` makes of a text: nothing if the text
/// is no absolute URL.
pub uninterp spec fn parsed_url(url: Seq<char>) -> Option<UrlText>;

/// `Url::parse` of the crate `reqwest`, with `scheme`, `host_str` and `port` of
/// what it gives. Claims only that they depend on the text alone.
#[verifier::external_body]
fn parse_url(url: &str) -> (parts: Option<UrlParts>)
    ensures
        url_text(parts) == parsed_url(url@),
{
    match reqwest::Url::parse(url) {
        Ok(u) => Some(
            UrlParts {
                scheme: u.scheme().to_string(),
                host: u.host_str().map(|h| h.to_string()),
                port: u.port(),
            },
        ),
        Err(_) => None,
    }
}

/// The URL of a server: scheme, host and, if it is not the usual one, port.
pub open spec fn base_url(scheme: Seq<char>, host: Seq<char>, port: Option<u16>) -> Seq<char> {
    let base = scheme + "://"@ + host;
    match port {
        Some(n) => base + ":"@ + number::decimal(n as nat),
        None => base,
    }
}

fn base_of(scheme: &str, host: &str, port: Option<u16>) -> (s: String)
    ensures
        s@ == base_url(scheme@, host@, port),
{
    let base = scheme.to_owned().concat("://").concat(host);
    match port {
        Some(n) => base.concat(":").concat(
            text::string_of(&number::decimal_of(n)).as_str(),
        ),
        None => base,
    }
}

/// What a variable is set to, or else `default`.
pub open spec fn text_or(v: Option<String>, default: Seq<char>) -> Seq<char> {
    match v {
        Some(s) => s@,
        None => default,
    }
}

fn string_or(v: &Option<String>, default: &str) -> (s: String)
    ensures
        s@ == text_or(*v, default@),
{
    match v {
        Some(s) => s.clone(),
        None => default.to_owned(),
    }
}

/// The number, at most `max`, that a variable is set to; `default` if it is not
/// set or holds no such number.
pub open spec fn number_or(v: Option<String>, max: nat, default: nat) -> nat {
    match v {
        Some(s) => match number::unsigned(s@, max) {
            Some(n) => n,
            None => default,
        },
        None => default,
    }
}

fn count_or(v: &Option<String>, max: u64, default: u64) -> (n: u64)
    requires
        default <= max,
    ensures
        n as nat == number_or(*v, max as nat, default as nat),
        n <= max,
{
    match v {
        Some(s) => {
            let chars = text::chars_of(s.as_str());
            match number::unsigned_of(&chars, max) {
                Some(n) => n,
                None => default,
            }
        },
        None => default,
    }
}

/// The age in days that a domain must have reached.
pub open spec fn max_age_days(env: Environment) -> int {
    match env.max_domain_age_days {
        Some(s) => match number::signed(s@) {
            Some(n) => n,
            None => 365,
        },
        None => 365,
    }
}

fn max_age_of(env: &Environment) -> (n: i64)
    ensures
        n == max_age_days(*env),
{
    match &env.max_domain_age_days {
        Some(s) => {
            let chars = text::chars_of(s.as_str());
            match number::signed_of(&chars) {
                Some(n) => n,
                None => 365,
            }
        },
        None => 365,
    }
}

/// The minutes between two rounds of retries.
pub open spec fn interval_minutes(env: Environment) -> nat {
    number_or(env.retry_interval_min, u64::MAX as nat, 15)
}

/// Whether the interval fits into a 64-bit number of seconds.
pub open spec fn interval_fits(env: Environment) -> bool {
    interval_minutes(env) * 60 <= u64::MAX
}

/// The comma-separated ids in `s`, in small letters, without the empty ones.
pub open spec fn ids_in(s: Seq<char>) -> Seq<Seq<char>> {
    text::split(s, ',').map_values(|id: Seq<char>| text::lower(text::trimmed(id))).filter(
        |id: Seq<char>| id.len() > 0,
    )
}

fn trusted_ids(s: &str) -> (ids: Vec<String>)
    ensures
        text::strings(ids@) == ids_in(s@),
{
    let chars = text::chars_of(s);
    let pieces = text::split_at_char(&chars, ',');
    let mut ids: Vec<String> = Vec::new();
    let ghost all = text::texts(pieces@).map_values(
        |id: Seq<char>| text::lower(text::trimmed(id)),
    );
    let ghost full = |id: Seq<char>| id.len() > 0;
    let mut i: usize = 0;
    proof {
        reveal(Seq::filter);
        assert(all.take(0).filter(full) =~= Seq::<Seq<char>>::empty());
        assert(text::strings(ids@) =~= Seq::<Seq<char>>::empty());
    }
    while i < pieces.len()
        invariant
            i <= pieces.len(),
            all == text::texts(pieces@).map_values(
                |id: Seq<char>| text::lower(text::trimmed(id)),
            ),
            full == (|id: Seq<char>| id.len() > 0),
            text::strings(ids@) == all.take(i as int).filter(full),
        decreases pieces.len() - i,
    {
        let id = text::lower_of(text::trim(&pieces[i]));
        let ghost before = ids@;
        proof {
            reveal(Seq::filter);
            assert(all.take(i + 1).drop_last() =~= all.take(i as int));
            assert(all.take(i + 1).last() == id@);
        }
        if id.len() > 0 {
            ids.push(text::string_of(&id));
            proof {
                assert(text::strings(ids@) =~= text::strings(before).push(id@));
            }
        }
        i += 1;
    }
    proof {
        assert(all.take(all.len() as int) =~= all);
    }
    ids
}

/// The URL of the JMAP session.
pub open spec fn session_url(env: Environment) -> Seq<char> {
    text_or(env.jmap_session_url, "https://api.fastmail.com/jmap/session"@)
}

fn session_url_of(env: &Environment) -> (s: String)
    ensures
        s@ == session_url(*env),
{
    string_or(&env.jmap_session_url, "https://api.fastmail.com/jmap/session")
}

/// The configuration that an environment gives, if `url` is what the session's
/// URL was parsed into.
pub open spec fn configured(env: Environment, url: Option<UrlText>) -> Result<
    Settings,
    ConfigError,
> {
    match env.fastmail_api_token {
        None => Err(ConfigError::MissingToken),
        Some(token) => if text::trimmed(token@).len() == 0 {
            Err(ConfigError::EmptyToken)
        } else {
            match url {
                None => Err(ConfigError::InvalidUrl),
                Some(parts) => match parts.host {
                    None => Err(ConfigError::NoHost),
                    Some(host) => Ok(
                        Settings {
                            fastmail_api_token: token@,
                            jmap_session_url: session_url(env),
                            jmap_session_host: host,
                            jmap_base_url: base_url(parts.scheme, host, parts.port),
                            quarantine_mailbox_name: text_or(
                                env.quarantine_mailbox_name,
                                "quarantine"@,
                            ),
                            max_domain_age_days: max_age_days(env),
                            retry_interval: interval_minutes(env) * 60
                                * time::NANOS_PER_SEC as nat,
                            retry_max_attempts: number_or(
                                env.retry_max_attempts,
                                u32::MAX as nat,
                                32,
                            ),
                            state_dir: text_or(env.state_dir, "/data"@),
                            psl_path: text_or(env.psl_path, "data/public_suffix_list.dat"@),
                            trusted_authserv_ids: ids_in(
                                text_or(
                                    env.trusted_authserv_ids,
                                    "fastmail.com,messagingengine.com"@,
                                ),
                            ),
                            healthz_port: number_or(env.healthz_port, u16::MAX as nat, 8080),
                        },
                    ),
                },
            }
        },
    }
}

/// What a configuration, or the lack of one, says.
pub open spec fn said(r: Result<Config, ConfigError>) -> Result<Settings, ConfigError> {
    match r {
        Ok(cfg) => Ok(cfg@),
        Err(e) => Err(e),
    }
}

impl Environment {
    /// Tells whether there is an error in the token or in the session's URL.
    fn has_error(&self, url: &Option<UrlParts>) -> (r: bool)
        ensures
            r == (configured(*self, url_text(*url)) is Err),
    {
        match &self.fastmail_api_token {
            Some(token) => {
                let chars = text::chars_of(token.as_str());
                if text::trim(&chars).len() == 0 {
                    return true;
                }
            },
            None => {
                return true;
            },
        }
        match url {
            Some(parts) => parts.host.is_none(),
            None => true,
        }
    }
}

impl Config {
    /// Reads the configuration from the environment.
    pub fn from_env(env: &Environment) -> (r: Result<Self, ConfigError>)
        requires
            configured(*env, parsed_url(session_url(*env))) is Ok ==> interval_fits(*env),
        ensures
            said(r) == configured(*env, parsed_url(session_url(*env))),
    {
        let url = session_url_of(env);
        Config::from_parts(env, parse_url(url.as_str()))
    }

    /// Reads the configuration from the environment, unless it asks for an
    /// interval that does not fit into a 64-bit number of seconds.
    pub fn try_from_env(env: &Environment) -> (r: Option<Result<Self, ConfigError>>)
        ensures
            match r {
                Some(r) => said(r) == configured(*env, parsed_url(session_url(*env))),
                None => configured(*env, parsed_url(session_url(*env))) is Ok && !interval_fits(
                    *env,
                ),
            },
    {
        let url = session_url_of(env);
        if env.has_error(&parse_url(url.as_str())) || count_or(
            &env.retry_interval_min,
            u64::MAX,
            15,
        ) <= u64::MAX / 60 {
            Some(Config::from_env(env))
        } else {
            None
        }
    }

    /// Reads the configuration from the environment, given what the session's URL
    /// was parsed into.
    pub fn from_parts(env: &Environment, url: Option<UrlParts>) -> (r: Result<Self, ConfigError>)
        requires
            configured(*env, url_text(url)) is Ok ==> interval_fits(*env),
        ensures
            said(r) == configured(*env, url_text(url)),
    {
        let fastmail_api_token = match &env.fastmail_api_token {
            Some(token) => token.clone(),
            None => {
                return Err(ConfigError::MissingToken);
            },
        };
        let token_chars = text::chars_of(fastmail_api_token.as_str());
        if text::trim(&token_chars).len() == 0 {
            return Err(ConfigError::EmptyToken);
        }
        let parts = match url {
            Some(parts) => parts,
            None => {
                return Err(ConfigError::InvalidUrl);
            },
        };
        let jmap_session_host = match parts.host {
            Some(host) => host,
            None => {
                return Err(ConfigError::NoHost);
            },
        };
        let jmap_base_url = base_of(
            parts.scheme.as_str(),
            jmap_session_host.as_str(),
            parts.port,
        );
        let minutes: u64 = count_or(&env.retry_interval_min, u64::MAX, 15);
        let ids = string_or(&env.trusted_authserv_ids, "fastmail.com,messagingengine.com");
        Ok(
            Config {
                fastmail_api_token,
                jmap_session_url: session_url_of(env),
                jmap_session_host,
                jmap_base_url,
                quarantine_mailbox_name: string_or(&env.quarantine_mailbox_name, "quarantine"),
                max_domain_age_days: max_age_of(env),
                retry_interval: Interval::from_secs(minutes * 60),
                retry_max_attempts: count_or(&env.retry_max_attempts, u32::MAX as u64, 32) as u32,
                state_dir: string_or(&env.state_dir, "/data"),
                psl_path: string_or(&env.psl_path, "data/public_suffix_list.dat"),
                trusted_authserv_ids: trusted_ids(ids.as_str()),
                healthz_port: count_or(&env.healthz_port, u16::MAX as u64, 8080) as u16,
            },
        )
    }
}

/// What all texts of a list have in common, those that pass a filter have too.
proof fn lemma_filter_keeps(
    list: Seq<Seq<char>>,
    p: spec_fn(Seq<char>) -> bool,
    q: spec_fn(Seq<char>) -> bool,
)
    requires
        forall|i: int| 0 <= i < list.len() ==> q(#[trigger] list[i]),
    ensures
        forall|i: int|
            0 <= i < list.filter(p).len() ==> p(#[trigger] list.filter(p)[i]) && q(
                list.filter(p)[i],
            ),
    decreases list.len(),
{
    reveal(Seq::filter);
    if list.len() > 0 {
        let init = list.drop_last();
        assert forall|i: int| 0 <= i < init.len() implies q(#[trigger] init[i]) by {
            assert(init[i] == list[i]);
        }
        lemma_filter_keeps(init, p, q);
        assert(q(list[list.len() - 1]));
        assert forall|i: int| 0 <= i < list.filter(p).len() implies p(#[trigger] list.filter(p)[i])
            && q(list.filter(p)[i]) by {
            if i < init.filter(p).len() {
                assert(list.filter(p)[i] == init.filter(p)[i]);
            }
        }
    }
}

/// No trusted id is empty or has a capital letter.
pub proof fn trusted_ids_are_normal(s: Seq<char>)
    ensures
        forall|i: int|
            0 <= i < ids_in(s).len() ==> (#[trigger] ids_in(s)[i]).len() > 0 && text::lower(
                ids_in(s)[i],
            ) == ids_in(s)[i],
{
    let all = text::split(s, ',').map_values(|id: Seq<char>| text::lower(text::trimmed(id)));
    let full = |id: Seq<char>| id.len() > 0;
    let small = |id: Seq<char>| text::lower(id) == id;
    assert forall|i: int| 0 <= i < all.len() implies small(#[trigger] all[i]) by {
        text::lower_is_idempotent(text::trimmed(text::split(s, ',')[i]));
    }
    lemma_filter_keeps(all, full, small);
    assert forall|i: int| 0 <= i < ids_in(s).len() implies (#[trigger] ids_in(s)[i]).len() > 0
        && text::lower(ids_in(s)[i]) == ids_in(s)[i] by {
        assert(full(all.filter(full)[i]) && small(all.filter(full)[i]));
    }
}

/// There is a configuration exactly if the token is set to more than whitespace and
/// the session's URL can be parsed and has a host; the first of these that is
/// missing is the error.
pub proof fn token_and_host_make_a_configuration(env: Environment, url: Option<UrlText>)
    ensures
        ({
            let blank = env.fastmail_api_token is Some && forall|i: int|
                0 <= i < (env.fastmail_api_token->0)@.len() ==> text::is_white(
                    #[trigger] (env.fastmail_api_token->0)@[i],
                );
            let usable = env.fastmail_api_token is Some && !blank;
            &&& configured(env, url) == Err::<Settings, _>(ConfigError::MissingToken)
                <==> env.fastmail_api_token is None
            &&& configured(env, url) == Err::<Settings, _>(ConfigError::EmptyToken) <==> blank
            &&& configured(env, url) == Err::<Settings, _>(ConfigError::InvalidUrl) <==> usable
                && url is None
            &&& configured(env, url) == Err::<Settings, _>(ConfigError::NoHost) <==> usable
                && url is Some && (url->0).host is None
            &&& configured(env, url) is Ok <==> usable && url is Some && (url->0).host is Some
        }),
{
    if let Some(token) = env.fastmail_api_token {
        lemma_blank_text(token@);
    }
}

/// Nothing is left of a text without its whitespace exactly if it is nothing else.
proof fn lemma_blank_text(s: Seq<char>)
    ensures
        text::trimmed(s).len() == 0 <==> forall|i: int|
            0 <= i < s.len() ==> text::is_white(#[trigger] s[i]),
{
    let white = text::CharClass::White;
    text::stripping_takes_off_the_ends(s, white);
    if text::trimmed(s).len() > 0 && forall|i: int|
        0 <= i < s.len() ==> text::is_white(#[trigger] s[i]) {
        text::strip_start_leaves_a_suffix(s, white);
        text::strip_end_leaves_no_end(text::strip_start(s, white), white);
    }
}

/// A variable that is not set leaves the usual value.
pub proof fn unset_variables_leave_the_usual_values(env: Environment, url: Option<UrlText>)
    requires
        configured(env, url) is Ok,
    ensures
        ({
            let cfg = configured(env, url)->Ok_0;
            &&& env.jmap_session_url is None ==> cfg.jmap_session_url
                == "https://api.fastmail.com/jmap/session"@
            &&& env.quarantine_mailbox_name is None ==> cfg.quarantine_mailbox_name
                == "quarantine"@
            &&& env.max_domain_age_days is None ==> cfg.max_domain_age_days == 365
            &&& env.retry_interval_min is None ==> cfg.retry_interval == 900_000_000_000
            &&& env.retry_max_attempts is None ==> cfg.retry_max_attempts == 32
            &&& env.state_dir is None ==> cfg.state_dir == "/data"@
            &&& env.psl_path is None ==> cfg.psl_path == "data/public_suffix_list.dat"@
            &&& env.healthz_port is None ==> cfg.healthz_port == 8080
        }),
{
}

/// A variable that is set to a text is taken as it stands.
pub proof fn texts_are_taken_as_they_stand(env: Environment, url: Option<UrlText>)
    requires
        configured(env, url) is Ok,
    ensures
        ({
            let cfg = configured(env, url)->Ok_0;
            &&& env.fastmail_api_token matches Some(s) && cfg.fastmail_api_token == s@
            &&& env.jmap_session_url matches Some(s) ==> cfg.jmap_session_url == s@
            &&& env.quarantine_mailbox_name matches Some(s) ==> cfg.quarantine_mailbox_name == s@
            &&& env.state_dir matches Some(s) ==> cfg.state_dir == s@
            &&& env.psl_path matches Some(s) ==> cfg.psl_path == s@
            &&& (url->0).host == Some(cfg.jmap_session_host)
        }),
{
}

/// A variable that is set to digits is taken as their number, if that fits, and
/// leaves the usual value otherwise.
pub proof fn numbers_are_taken_if_they_fit(env: Environment, url: Option<UrlText>, d: String)
    requires
        configured(env, url) is Ok,
        d@.len() > 0,
        forall|i: int| 0 <= i < d@.len() ==> '0' <= #[trigger] d@[i] && d@[i] <= '9',
    ensures
        ({
            let cfg = configured(env, url)->Ok_0;
            let n = number::value(d@);
            &&& env.max_domain_age_days == Some(d) ==> cfg.max_domain_age_days == if n
                <= 9_223_372_036_854_775_807 {
                n as int
            } else {
                365
            }
            &&& env.retry_interval_min == Some(d) ==> cfg.retry_interval == if n
                <= 18_446_744_073_709_551_615 {
                n * 60_000_000_000
            } else {
                900_000_000_000
            }
            &&& env.retry_max_attempts == Some(d) ==> cfg.retry_max_attempts == if n
                <= 4_294_967_295 {
                n
            } else {
                32
            }
            &&& env.healthz_port == Some(d) ==> cfg.healthz_port == if n <= 65_535 {
                n
            } else {
                8080
            }
        }),
{
    number::signed_number_is_its_digits(d@);
    assert('0' <= d@[0]);
    assert(number::all_digits(d@));
    assert(d@[0] != '+');
}

/// The limit on the age may lie below zero.
pub proof fn limit_may_be_negative(env: Environment, url: Option<UrlText>, s: String, d: Seq<char>)
    requires
        configured(env, url) is Ok,
        env.max_domain_age_days == Some(s),
        s@ == seq!['-'] + d,
        d.len() > 0,
        forall|i: int| 0 <= i < d.len() ==> '0' <= #[trigger] d[i] && d[i] <= '9',
        number::value(d) <= 9_223_372_036_854_775_808,
    ensures
        (configured(env, url)->Ok_0).max_domain_age_days == -(number::value(d) as int),
{
    number::signed_number_is_its_digits(d);
}

/// A number that cannot be read counts as if the variable was not set.
pub proof fn unreadable_number_counts_as_unset(
    env: Environment,
    url: Option<UrlText>,
    bad: Environment,
)
    requires
        configured(env, url) is Ok,
        match bad.max_domain_age_days {
            Some(s) => number::signed(s@) is None && env.max_domain_age_days is None,
            None => env.max_domain_age_days is None,
        },
        match bad.retry_interval_min {
            Some(s) => number::unsigned(s@, 18_446_744_073_709_551_615) is None
                && env.retry_interval_min is None,
            None => env.retry_interval_min is None,
        },
        match bad.retry_max_attempts {
            Some(s) => number::unsigned(s@, 4_294_967_295) is None && env.retry_max_attempts
                is None,
            None => env.retry_max_attempts is None,
        },
        match bad.healthz_port {
            Some(s) => number::unsigned(s@, 65_535) is None && env.healthz_port is None,
            None => env.healthz_port is None,
        },
        bad.fastmail_api_token == env.fastmail_api_token,
        bad.jmap_session_url == env.jmap_session_url,
        bad.quarantine_mailbox_name == env.quarantine_mailbox_name,
        bad.state_dir == env.state_dir,
        bad.psl_path == env.psl_path,
        bad.trusted_authserv_ids == env.trusted_authserv_ids,
    ensures
        configured(bad, url) == configured(env, url),
{
}

/// The server is at the scheme and host of the session's URL, and at its port if
/// that is given.
pub proof fn server_is_where_the_session_is(env: Environment, url: UrlText)
    requires
        configured(env, Some(url)) is Ok,
    ensures
        ({
            let base = (configured(env, Some(url))->Ok_0).jmap_base_url;
            let plain = url.scheme + seq![':', '/', '/'] + (url.host->0);
            &&& url.port is None ==> base == plain
            &&& url.port matches Some(n) ==> exists|d: Seq<char>|
                {
                    &&& base == plain + seq![':'] + d
                    &&& d.len() > 0
                    &&& forall|i: int| 0 <= i < d.len() ==> '0' <= #[trigger] d[i] && d[i] <= '9'
                    &&& #[trigger] number::value(d) == n
                }
        }),
{
    reveal_strlit("://");
    reveal_strlit(":");
    assert("://"@ =~= seq![':', '/', '/']);
    assert(":"@ =~= seq![':']);
    if let Some(n) = url.port {
        let d = number::decimal(n as nat);
        number::written_number_is_read_back(n as nat);
        assert forall|i: int| 0 <= i < d.len() implies '0' <= #[trigger] d[i] && d[i] <= '9' by {
            assert(number::is_digit(d[i]));
        }
        assert(number::value(d) == n);
    }
}

/// Each comma ends an id. An id is taken in small letters and without the
/// whitespace around it, and not at all if nothing is left.
pub proof fn ids_stand_between_commas(a: Seq<char>, id: Seq<char>)
    requires
        !id.contains(','),
    ensures
        ids_in(a + seq![','] + id) == ids_in(a) + ids_in(id),
        text::trimmed(id).len() == 0 ==> ids_in(id) == Seq::<Seq<char>>::empty(),
        text::trimmed(id).len() > 0 ==> ids_in(id) == seq![text::lower(text::trimmed(id))],
{
    let f = |id: Seq<char>| text::lower(text::trimmed(id));
    let full = |id: Seq<char>| id.len() > 0;
    let none = Seq::<char>::empty();
    let pieces = text::split(a, ',');
    assert(a.push(',').drop_last() =~= a);
    assert(a + seq![','] =~= a.push(','));
    text::split_of_extended(a.push(','), id, ',');
    assert(pieces.push(none).drop_last() =~= pieces);
    assert(none + id =~= id);
    assert(text::split(a + seq![','] + id, ',') == pieces.push(id));
    text::split_of_extended(none, id, ',');
    assert(seq![none].drop_last() =~= Seq::<Seq<char>>::empty());
    assert(text::split(id, ',') =~= seq![id]);
    assert(pieces.push(id).map_values(f) =~= pieces.map_values(f) + seq![id].map_values(f));
    Seq::filter_distributes_over_add(pieces.map_values(f), seq![id].map_values(f), full);
    reveal(Seq::filter);
    let one = seq![id].map_values(f);
    assert(one =~= seq![f(id)]);
    assert(one.drop_last() =~= Seq::<Seq<char>>::empty());
    assert(one.drop_last().filter(full) =~= Seq::<Seq<char>>::empty());
    assert(one.last() == f(id));
}

/// The trusted ids are those that the variable lists, or the two of the service if
/// it is not set.
pub proof fn trusted_ids_are_those_listed(env: Environment, url: Option<UrlText>)
    requires
        configured(env, url) is Ok,
    ensures
        ({
            let ids = (configured(env, url)->Ok_0).trusted_authserv_ids;
            &&& env.trusted_authserv_ids matches Some(s) ==> ids == ids_in(s@)
            &&& env.trusted_authserv_ids is None ==> ids == seq![
                "fastmail.com"@,
                "messagingengine.com"@,
            ]
        }),
{
    reveal_strlit("fastmail.com");
    reveal_strlit("messagingengine.com");
    reveal_strlit("fastmail.com,messagingengine.com");
    let a = "fastmail.com"@;
    let b = "messagingengine.com"@;
    let none = Seq::<char>::empty();
    assert("fastmail.com,messagingengine.com"@ =~= a + seq![','] + b);
    assert(!a.contains(','));
    assert(!b.contains(','));
    ids_stand_between_commas(a, b);
    ids_stand_between_commas(none, a);
    text::bare_text_is_not_stripped(a, text::CharClass::White);
    text::bare_text_is_not_stripped(b, text::CharClass::White);
    assert(text::lower(a) =~= a);
    assert(text::lower(b) =~= b);
    assert(seq![a] + seq![b] =~= seq![a, b]);
}

} // verus!
