//! The server's settings: where it listens.

use vstd::prelude::*;
use vstd::string::*;

use crate::text::{decimal, push_char, u64_text};

verus! {

/// The address and port the server listens on.
#[derive(Debug, PartialEq, Eq)]
pub struct Routing {
    pub host: String,
    pub port: u16,
}

impl Default for Routing {
    /// All interfaces, port 8000.
    fn default() -> (r: Self)
        ensures
            r.host@ == "0.0.0.0"@,
            r.port == 8000,
    {
        Routing { host: "0.0.0.0".to_owned(), port: 8000 }
    }
}

/// The server's settings.
#[derive(Debug, PartialEq, Eq)]
pub struct Settings {
    pub routing: Routing,
}

impl Default for Settings {
    /// The default routing.
    fn default() -> (s: Self)
        ensures
            s.routing.host@ == "0.0.0.0"@,
            s.routing.port == 8000,
    {
        Settings { routing: Routing::default() }
    }
}

/// `host:port`.
pub open spec fn host_port(host: Seq<char>, port: u16) -> Seq<char> {
    host + seq![':'] + decimal(port as nat)
}

/// The text of a failure to load the configuration file at `path`.
pub open spec fn load_failure_text(path: Seq<char>) -> Seq<char> {
    "Failed to load configuration file at "@ + path
}

/// A configuration file that could not be loaded: its path, and what the
/// loader reported.
#[derive(Debug)]
pub struct LoadError {
    pub path: String,
    pub cause: String,
}

impl LoadError {
    /// `Failed to load configuration file at <path>`.
    pub fn message(&self) -> (m: String)
        ensures
            m@ == load_failure_text(self.path@),
            m@ == "Failed to load configuration file at "@ + self.path@,
    {
        let mut m = "Failed to load configuration file at ".to_owned();
        m.append(self.path.as_str());
        m
    }
}

impl Settings {
    /// The settings, from what loading the configuration gave (`loaded`: the
    /// settings read, or the loader's report of why it failed) and the file
    /// that was asked for, if any. A failure to load a file that was asked
    /// for is an error; without one, a failure gives the default settings.
    pub fn new(path: Option<&str>, loaded: Result<Settings, String>) -> (r: Result<Settings, LoadError>)
        ensures
            match (loaded, path) {
                (Ok(s), _) => r == Ok::<Settings, LoadError>(s),
                (Err(cause), Some(p)) => (r matches Err(e) && e.path@ == p@ && e.cause@ == cause@),
                (Err(_), None) => (r matches Ok(s) && s.routing.host@ == "0.0.0.0"@ && s.routing.port
                    == 8000),
            },
    {
        match loaded {
            Ok(s) => Ok(s),
            Err(cause) => match path {
                Some(p) => Err(LoadError { path: p.to_owned(), cause }),
                None => Ok(Settings::default()),
            },
        }
    }

    /// `host:port`, the address to listen on.
    pub fn address(&self) -> (a: String)
        ensures
            a@ == host_port(self.routing.host@, self.routing.port),
            a@ == self.routing.host@ + seq![':'] + decimal(self.routing.port as nat),
    {
        let mut a = self.routing.host.clone();
        push_char(&mut a, ':');
        let port = u64_text(self.routing.port as u64);
        a.append(port.as_str());
        a
    }

    /// `http://host:port/health_check`, where the server answers whether it
    /// is up.
    pub fn health_check_url(&self) -> (u: String)
        ensures
            u@ == "http://"@ + host_port(self.routing.host@, self.routing.port) + "/health_check"@,
            u@ == "http://"@ + self.routing.host@ + seq![':'] + decimal(self.routing.port as nat)
                + "/health_check"@,
    {
        let mut u = "http://".to_owned();
        let a = self.address();
        u.append(a.as_str());
        u.append("/health_check");
        u
    }
}

} // verus!
