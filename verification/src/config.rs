use vstd::prelude::*;
use vstd::string::*;

use crate::string_map::StringMap;

verus! {

/// The process environment, as the variables it holds and their values.
pub struct Environment {
    vars: StringMap<String>,
}

impl Environment {
    /// An environment without variables.
    pub fn new() -> (env: Self)
        ensures
            env@ == Map::<Seq<char>, Seq<char>>::empty(),
    {
        let env = Environment { vars: StringMap::new() };
        assert(env@ =~= Map::<Seq<char>, Seq<char>>::empty());
        env
    }

    /// Sets variable `key` to `value`.
    pub fn set(&mut self, key: String, value: String)
        ensures
            final(self)@ == old(self)@.insert(key@, value@),
    {
        let ghost before = self@;
        let ghost k = key@;
        let ghost v = value@;
        self.vars.insert(key, value);
        assert(self@ =~= before.insert(k, v));
    }

    /// The value of variable `key`.
    pub fn get(&self, key: &str) -> (value: Option<String>)
        ensures
            match value {
                Some(v) => self@.contains_key(key@) && self@[key@] == v@,
                None => !self@.contains_key(key@),
            },
    {
        match self.vars.get(key) {
            Some(v) => Some(v.clone()),
            None => None,
        }
    }
}

impl View for Environment {
    type V = Map<Seq<char>, Seq<char>>;

    closed spec fn view(&self) -> Map<Seq<char>, Seq<char>> {
        self.vars@.map_values(|v: String| v@)
    }
}

/// A required environment variable is not set.
pub enum ConfigError {
    MissingVar { name: String },
}

/// The settings of a sync.
pub struct Config {
    pub ics_url: String,
    pub ics_username: Option<String>,
    pub ics_password: Option<String>,
    pub nextcloud_url: String,
    pub nextcloud_calendar_url: String,
    pub nextcloud_username: String,
    pub nextcloud_password: String,
}

/// The value of `key` in `env`, or the missing variable's name.
pub open spec fn env_lookup(env: Map<Seq<char>, Seq<char>>, key: Seq<char>) -> Result<
    Seq<char>,
    Seq<char>,
> {
    if env.contains_key(key) {
        Ok(env[key])
    } else {
        Err(key)
    }
}

/// What a lookup gives, with the missing variable named in the error.
pub open spec fn loaded(result: Result<String, ConfigError>, env: Map<Seq<char>, Seq<char>>, key: Seq<char>) -> bool {
    match result {
        Ok(v) => env_lookup(env, key) == Ok::<Seq<char>, Seq<char>>(v@),
        Err(ConfigError::MissingVar { name }) => env_lookup(env, key) == Err::<Seq<char>, Seq<char>>(
            name@,
        ),
    }
}

/// An optional setting: the variable's value when it is set.
pub open spec fn optional_setting(value: Option<String>, env: Map<Seq<char>, Seq<char>>, key: Seq<char>) -> bool {
    match value {
        Some(v) => env.contains_key(key) && env[key] == v@,
        None => !env.contains_key(key),
    }
}

/// The URL of calendar `calendar_id` of `username` on the Nextcloud at `nextcloud_url`.
pub open spec fn calendar_collection_url(
    nextcloud_url: Seq<char>,
    username: Seq<char>,
    calendar_id: Seq<char>,
) -> Seq<char> {
    nextcloud_url + "/remote.php/dav/calendars/"@ + username + "/"@ + calendar_id + "/"@
}

/// The first required variable that `env` lacks, in the order they are read.
pub open spec fn first_missing(env: Map<Seq<char>, Seq<char>>) -> Option<Seq<char>> {
    if !env.contains_key("NEXTCLOUD_URL"@) {
        Some("NEXTCLOUD_URL"@)
    } else if !env.contains_key("NEXTCLOUD_USERNAME"@) {
        Some("NEXTCLOUD_USERNAME"@)
    } else if !env.contains_key("CALENDAR_ID"@) {
        Some("CALENDAR_ID"@)
    } else if !env.contains_key("ICS_URL"@) {
        Some("ICS_URL"@)
    } else if !env.contains_key("NEXTCLOUD_PASSWORD"@) {
        Some("NEXTCLOUD_PASSWORD"@)
    } else {
        None
    }
}

fn load_env_var(env: &Environment, env_var_key: &str) -> (value: Result<String, ConfigError>)
    ensures
        loaded(value, env@, env_var_key@),
{
    match env.get(env_var_key) {
        Some(v) => Ok(v),
        None => Err(ConfigError::MissingVar { name: String::from_str(env_var_key) }),
    }
}

/// `ICS_URL`: the source calendar feed.
pub fn load_ics_url(env: &Environment) -> (value: Result<String, ConfigError>)
    ensures
        loaded(value, env@, "ICS_URL"@),
{
    load_env_var(env, "ICS_URL")
}

/// `ICS_USERNAME`: the user for basic authentication on the feed.
pub fn load_ics_username(env: &Environment) -> (value: Result<String, ConfigError>)
    ensures
        loaded(value, env@, "ICS_USERNAME"@),
{
    load_env_var(env, "ICS_USERNAME")
}

/// `ICS_PASSWORD`: the password for basic authentication on the feed.
pub fn load_ics_password(env: &Environment) -> (value: Result<String, ConfigError>)
    ensures
        loaded(value, env@, "ICS_PASSWORD"@),
{
    load_env_var(env, "ICS_PASSWORD")
}

/// `CALENDAR_ID`: the target calendar in Nextcloud.
pub fn load_calendar_id(env: &Environment) -> (value: Result<String, ConfigError>)
    ensures
        loaded(value, env@, "CALENDAR_ID"@),
{
    load_env_var(env, "CALENDAR_ID")
}

/// `NEXTCLOUD_USERNAME`.
pub fn load_nextcloud_username(env: &Environment) -> (value: Result<String, ConfigError>)
    ensures
        loaded(value, env@, "NEXTCLOUD_USERNAME"@),
{
    load_env_var(env, "NEXTCLOUD_USERNAME")
}

/// `NEXTCLOUD_PASSWORD`.
pub fn load_nextcloud_password(env: &Environment) -> (value: Result<String, ConfigError>)
    ensures
        loaded(value, env@, "NEXTCLOUD_PASSWORD"@),
{
    load_env_var(env, "NEXTCLOUD_PASSWORD")
}

/// `NEXTCLOUD_URL`: the base URL of the Nextcloud instance.
pub fn load_nextcloud_url(env: &Environment) -> (value: Result<String, ConfigError>)
    ensures
        loaded(value, env@, "NEXTCLOUD_URL"@),
{
    load_env_var(env, "NEXTCLOUD_URL")
}

fn optional(value: Result<String, ConfigError>) -> (setting: Option<String>)
    ensures
        match value {
            Ok(v) => setting == Some(v),
            Err(_) => setting is None,
        },
{
    match value {
        Ok(v) => Some(v),
        Err(_) => None,
    }
}

impl Config {
    /// Reads the settings from the environment. The required variables are read in
    /// the order `NEXTCLOUD_URL`, `NEXTCLOUD_USERNAME`, `CALENDAR_ID`, `ICS_URL`,
    /// `NEXTCLOUD_PASSWORD`, and the first one missing is reported; `ICS_USERNAME`
    /// and `ICS_PASSWORD` are optional.
    pub fn from_env(env: &Environment) -> (config: Result<Config, ConfigError>)
        ensures
            match config {
                Ok(c) => {
                    &&& first_missing(env@) is None
                    &&& c.nextcloud_url@ == env@["NEXTCLOUD_URL"@]
                    &&& c.nextcloud_username@ == env@["NEXTCLOUD_USERNAME"@]
                    &&& c.ics_url@ == env@["ICS_URL"@]
                    &&& c.nextcloud_password@ == env@["NEXTCLOUD_PASSWORD"@]
                    &&& c.nextcloud_calendar_url@ == calendar_collection_url(
                        env@["NEXTCLOUD_URL"@],
                        env@["NEXTCLOUD_USERNAME"@],
                        env@["CALENDAR_ID"@],
                    )
                    &&& optional_setting(c.ics_username, env@, "ICS_USERNAME"@)
                    &&& optional_setting(c.ics_password, env@, "ICS_PASSWORD"@)
                },
                Err(ConfigError::MissingVar { name }) => first_missing(env@) == Some(name@),
            },
    {
        let nextcloud_url = match load_nextcloud_url(env) {
            Ok(v) => v,
            Err(e) => return Err(e),
        };
        let nextcloud_username = match load_nextcloud_username(env) {
            Ok(v) => v,
            Err(e) => return Err(e),
        };
        let calendar_id = match load_calendar_id(env) {
            Ok(v) => v,
            Err(e) => return Err(e),
        };
        let ics_url = match load_ics_url(env) {
            Ok(v) => v,
            Err(e) => return Err(e),
        };
        let ics_username = optional(load_ics_username(env));
        let ics_password = optional(load_ics_password(env));
        let nextcloud_password = match load_nextcloud_password(env) {
            Ok(v) => v,
            Err(e) => return Err(e),
        };
        let mut nextcloud_calendar_url = nextcloud_url.clone();
        nextcloud_calendar_url.append("/remote.php/dav/calendars/");
        nextcloud_calendar_url.append(nextcloud_username.as_str());
        nextcloud_calendar_url.append("/");
        nextcloud_calendar_url.append(calendar_id.as_str());
        nextcloud_calendar_url.append("/");
        Ok(
            Config {
                ics_url,
                ics_username,
                ics_password,
                nextcloud_url,
                nextcloud_calendar_url,
                nextcloud_username,
                nextcloud_password,
            },
        )
    }
}

} // verus!
