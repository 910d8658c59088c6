//! Configuration data.
//!
//! The values the application runs under: where it listens, how cookies are
//! signed, which database it talks to and how tracing is set up. Reading
//! the values from files and from the environment is the surrounding
//! application's work; this module holds the data, the builder's settings,
//! the run modes, and the path arithmetic for configuration file names.

use vstd::prelude::*;
use vstd::string::StrSliceExecFns;
use vstd::string::StringExecFns;

verus! {

/// The environment variable prefix of configuration overrides.
pub const ENV_PREFIX: &'static str = "POLL";

/// The environment variable naming the run mode.
pub const ENV_RUN_MODE: &'static str = "POLL_RUN_MODE";

/// The directory configuration files are read from, by default.
pub const CONFIG_DIRECTORY: &'static str = "conf";

/// The base name of the configuration file read in every run mode.
pub const CONFIG_BASE_NAME: &'static str = "base";

/// The settings the configuration is assembled under.
pub struct ConfigurationBuilder {
    pub env_prefix: String,
    pub env_run_mode: String,
    pub config_directory: String,
    pub config_base_name: String,
}

impl Default for ConfigurationBuilder {
    /// The standard settings: the `POLL` environment prefix and the `conf`
    /// directory with its `base` file.
    fn default() -> (builder: ConfigurationBuilder)
        ensures
            builder.env_prefix@ == ENV_PREFIX@,
            builder.env_run_mode@ == ENV_RUN_MODE@,
            builder.config_directory@ == CONFIG_DIRECTORY@,
            builder.config_base_name@ == CONFIG_BASE_NAME@,
    {
        ConfigurationBuilder {
            env_prefix: ENV_PREFIX.to_owned(),
            env_run_mode: ENV_RUN_MODE.to_owned(),
            config_directory: CONFIG_DIRECTORY.to_owned(),
            config_base_name: CONFIG_BASE_NAME.to_owned(),
        }
    }
}

impl ConfigurationBuilder {
    /// Read the configuration files from another directory.
    pub fn config_directory(&mut self, config_directory: String)
        ensures
            final(self).config_directory == config_directory,
            final(self).env_prefix == old(self).env_prefix,
            final(self).env_run_mode == old(self).env_run_mode,
            final(self).config_base_name == old(self).config_base_name,
    {
        self.config_directory = config_directory;
    }
}

/// The full configuration.
pub struct Configuration {
    pub application: ApplicationConfiguration,
    pub cookie: CookieConfiguration,
    pub database: DatabaseConfiguration,
    pub tracing: TracingConfiguration,
}

impl Configuration {
    /// Assemble a configuration from its parts.
    pub fn new(
        application: ApplicationConfiguration,
        cookie: CookieConfiguration,
        database: DatabaseConfiguration,
        tracing: TracingConfiguration,
    ) -> (configuration: Configuration)
        ensures
            configuration.application == application,
            configuration.cookie == cookie,
            configuration.database == database,
            configuration.tracing == tracing,
    {
        Configuration { application, cookie, database, tracing }
    }

    /// The web application's settings.
    pub fn application(&self) -> (r: &ApplicationConfiguration)
        ensures
            r == self.application,
    {
        &self.application
    }

    /// The cookie settings.
    pub fn cookie(&self) -> (r: &CookieConfiguration)
        ensures
            r == self.cookie,
    {
        &self.cookie
    }

    /// The database settings.
    pub fn database(&self) -> (r: &DatabaseConfiguration)
        ensures
            r == self.database,
    {
        &self.database
    }

    /// The tracing settings.
    pub fn tracing(&self) -> (r: &TracingConfiguration)
        ensures
            r == self.tracing,
    {
        &self.tracing
    }
}

/// The severity of a flash message shown to the voter.
#[derive(Clone, Copy, Debug, PartialEq, Eq, Structural)]
pub enum FlashLevel {
    Debug,
    Info,
    Success,
    Warning,
    Error,
}

/// The web application's settings.
pub struct ApplicationConfiguration {
    pub host: String,
    pub port: u16,
    pub url: String,
    pub flash_message_minimum_level: FlashLevel,
}

impl ApplicationConfiguration {
    /// The application's own address.
    pub fn url(&self) -> (r: &String)
        ensures
            r == self.url,
    {
        &self.url
    }

    /// The least severity of flash messages worth showing.
    pub fn flash_message_minimum_level(&self) -> (r: FlashLevel)
        ensures
            r == self.flash_message_minimum_level,
    {
        self.flash_message_minimum_level
    }
}

/// The cookie settings. The signing key is secret: nothing here prints it.
pub struct CookieConfiguration {
    pub signing_key: String,
    pub session_cookie_name: String,
    pub flash_message_cookie_name: String,
}

impl CookieConfiguration {
    /// The key that session and flash-message cookies are signed with.
    pub fn signing_key(&self) -> (r: &String)
        ensures
            r == self.signing_key,
    {
        &self.signing_key
    }

    /// The name of the session cookie.
    pub fn session_cookie_name(&self) -> (r: &String)
        ensures
            r == self.session_cookie_name,
    {
        &self.session_cookie_name
    }

    /// The name of the flash-message cookie.
    pub fn flash_message_cookie_name(&self) -> (r: &String)
        ensures
            r == self.flash_message_cookie_name,
    {
        &self.flash_message_cookie_name
    }
}

/// The database settings. The password is secret: nothing here prints it.
pub struct DatabaseConfiguration {
    pub require_ssl: bool,
    pub host: String,
    pub port: u16,
    pub username: String,
    pub password: String,
    pub database: String,
}

impl DatabaseConfiguration {
    /// Whether the database connection requires TLS.
    pub fn require_ssl(&self) -> (r: bool)
        ensures
            r == self.require_ssl,
    {
        self.require_ssl
    }

    /// The database server's host name.
    pub fn host(&self) -> (r: &String)
        ensures
            r == self.host,
    {
        &self.host
    }

    /// The database server's port.
    pub fn port(&self) -> (r: u16)
        ensures
            r == self.port,
    {
        self.port
    }

    /// The database user.
    pub fn username(&self) -> (r: &String)
        ensures
            r == self.username,
    {
        &self.username
    }

    /// The database user's password.
    pub fn password(&self) -> (r: &String)
        ensures
            r == self.password,
    {
        &self.password
    }

    /// The database name.
    pub fn database(&self) -> (r: &String)
        ensures
            r == self.database,
    {
        &self.database
    }
}

/// The tracing settings.
pub struct TracingConfiguration {
    pub service_name: String,
    pub log_level: String,
    pub jaeger_endpoint: Option<String>,
}

impl TracingConfiguration {
    /// The name this service reports itself under.
    pub fn service_name(&self) -> (r: &String)
        ensures
            r == self.service_name,
    {
        &self.service_name
    }

    /// The log filter directive.
    pub fn log_level(&self) -> (r: &String)
        ensures
            r == self.log_level,
    {
        &self.log_level
    }

    /// Where traces are exported to, if anywhere.
    pub fn jaeger_endpoint(&self) -> (r: &Option<String>)
        ensures
            r == self.jaeger_endpoint,
    {
        &self.jaeger_endpoint
    }
}

/// The possible runtime environments for the application.
#[derive(Clone, Copy, Debug, PartialEq, Eq, Structural)]
pub enum RunMode {
    Local,
    Production,
}

impl RunMode {
    /// The run mode's name, as the configuration files use it.
    pub fn as_str(&self) -> (r: &'static str)
        ensures
            match self {
                RunMode::Local => r@ == "local"@,
                RunMode::Production => r@ == "production"@,
            },
    {
        match self {
            RunMode::Local => "local",
            RunMode::Production => "production",
        }
    }

    /// The run mode of a lower-case name; names are folded to lower case by
    /// the caller that reads them from the environment.
    pub fn from_name(name: &String) -> (r: Option<RunMode>)
        ensures
            name@ == "local"@ ==> r == Some(RunMode::Local),
            name@ == "production"@ ==> r == Some(RunMode::Production),
            name@ != "local"@ && name@ != "production"@ ==> r is None,
    {
        proof {
            reveal_strlit("local");
            reveal_strlit("production");
            assert("local"@.len() == 5);
            assert("production"@.len() == 10);
            assert("local"@ != "production"@);
        }
        let local: String = "local".to_owned();
        let production: String = "production".to_owned();
        if name.eq(&local) {
            Some(RunMode::Local)
        } else if name.eq(&production) {
            Some(RunMode::Production)
        } else {
            None
        }
    }
}

/// The sequence of characters of the configuration file `name` under
/// `base_path`: the path with one separator between the two.
pub open spec fn joined_file_name(base_path: Seq<char>, name: Seq<char>) -> Seq<char> {
    if base_path.len() > 0 && base_path.last() == '/' {
        base_path + name
    } else {
        base_path + "/"@ + name
    }
}

/// The name of the configuration file `name` under `base_path`, exactly as
/// [`joined_file_name`] describes. `name` is a plain relative file name.
pub fn resolve_file_name(base_path: &String, name: &String) -> (r: String)
    ensures
        r@ == joined_file_name(base_path@, name@),
{
    let mut r = base_path.clone();
    let length = base_path.as_str().unicode_len();
    if length == 0 || base_path.as_str().get_char(length - 1) != '/' {
        r.append("/");
    }
    r.append(name.as_str());
    r
}

} // verus!
