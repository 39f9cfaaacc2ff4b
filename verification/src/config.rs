//! The declarative configuration model: templates, per-server declarations,
//! and backends, as plain values.

use vstd::prelude::*;
use vstd::string::StringExecFns;

verus! {

/// How a template treats the HTTP/HTTPS pair.
#[derive(Clone, Copy, Debug)]
pub enum ConfigHttpHttps {
    /// Listen on the TLS port only.
    Only,
    /// Enforce TLS and send a Strict-Transport-Security header.
    HSTS { duration: u64, include_sub_domains: bool, preload: bool },
    /// Redirect plain HTTP to HTTPS.
    Enforcing,
    /// Serve both plain HTTP and HTTPS.
    Compatible,
    /// Plain HTTP only.
    Disabled,
}

/// The port a template listens on when the declaration names none.
pub fn http_default_port() -> (r: u16)
    ensures
        r == 80,
{
    80
}

/// The TLS port a template listens on when the declaration names none.
pub fn https_default_port() -> (r: u16)
    ensures
        r == 80,
{
    80
}

/// The HTTP and HTTPS ports of a template.
#[derive(Clone, Copy, Debug)]
pub struct ConfigHttpPort {
    pub http: u16,
    pub https: u16,
}

/// A named server template; only an HTTP module exists.
#[derive(Clone, Copy, Debug)]
pub enum ConfigServerTemplate {
    Http { https: ConfigHttpHttps, port: ConfigHttpPort },
}

/// The redirect code a rewrite backend uses when the declaration names none.
pub fn rewrite_default_code() -> (r: u16)
    ensures
        r == 302,
{
    302
}

/// One backend target: a proxy upstream, a rewrite rule, or a file root.
#[derive(Debug)]
pub enum ConfigBackend {
    Proxy { target: String },
    Rewrite { target: String, code: u16 },
    File { path: String },
}

impl ConfigBackend {
    /// A bare string in a declaration denotes a file root.
    pub fn from_str(s: &str) -> (r: Self)
        ensures
            r matches ConfigBackend::File { path } && path@ == s@,
    {
        ConfigBackend::File { path: s.to_owned() }
    }
}

impl Clone for ConfigBackend {
    fn clone(&self) -> (res: Self)
        ensures
            res == *self,
    {
        match self {
            ConfigBackend::Proxy { target } => ConfigBackend::Proxy { target: target.clone() },
            ConfigBackend::Rewrite { target, code } => ConfigBackend::Rewrite {
                target: target.clone(),
                code: *code,
            },
            ConfigBackend::File { path } => ConfigBackend::File { path: path.clone() },
        }
    }
}

/// One server declaration: a template name, one or more hosts, an optional
/// sub-path, and a backend.
#[derive(Debug)]
pub struct ConfigServer {
    pub name: Option<String>,
    pub template: String,
    pub host: Vec<String>,
    pub location: Option<String>,
    pub backend: ConfigBackend,
}

impl Clone for ConfigServer {
    fn clone(&self) -> (res: Self)
        ensures
            res.name == self.name,
            res.template == self.template,
            res.host@ == self.host@,
            res.location == self.location,
            res.backend == self.backend,
    {
        let res = ConfigServer {
            name: match &self.name {
                Some(n) => Some(n.clone()),
                None => None,
            },
            template: self.template.clone(),
            host: clone_host_list(&self.host),
            location: match &self.location {
                Some(l) => Some(l.clone()),
                None => None,
            },
            backend: self.backend.clone(),
        };
        res
    }
}

/// Copies a host list element by element.
fn clone_host_list(v: &Vec<String>) -> (r: Vec<String>)
    ensures
        r@ =~= v@,
{
    let mut r: Vec<String> = Vec::new();
    let mut i: usize = 0;
    while i < v.len()
        invariant
            i <= v.len(),
            r@ =~= v@.take(i as int),
        decreases v.len() - i,
    {
        r.push(v[i].clone());
        proof {
            assert(r@ =~= v@.take(i as int + 1));
        }
        i = i + 1;
    }
    proof {
        assert(v@.take(v.len() as int) =~= v@);
    }
    r
}

/// A whole configuration: the declared servers and the named templates they
/// refer to. A lookup takes the first binding for a name.
#[derive(Debug)]
pub struct Config {
    pub servers: Vec<ConfigServer>,
    pub templates: Vec<(String, ConfigServerTemplate)>,
}

/// Does the template table hold an entry named `t`?
pub open spec fn has_template(templates: Seq<(String, ConfigServerTemplate)>, t: Seq<char>) -> bool {
    exists|k: int| 0 <= k < templates.len() && (#[trigger] templates[k]).0@ == t
}

/// The first template entry named `key`, if any.
pub fn find_template<'a>(templates: &'a Vec<(String, ConfigServerTemplate)>, key: &String) -> (r:
    Option<&'a ConfigServerTemplate>)
    ensures
        r is Some <==> has_template(templates@, key@),
        match r {
            Some(t) => exists|k: int|
                0 <= k < templates@.len() && (#[trigger] templates@[k]).0@ == key@
                    && templates@[k].1 == *t && (forall|k2: int|
                    0 <= k2 < k ==> (#[trigger] templates@[k2]).0@ != key@),
            None => true,
        },
{
    let mut j: usize = 0;
    while j < templates.len()
        invariant
            j <= templates.len(),
            forall|k: int| 0 <= k < j ==> (#[trigger] templates@[k]).0@ != key@,
        decreases templates.len() - j,
    {
        if templates[j].0 == *key {
            return Some(&templates[j].1);
        }
        j = j + 1;
    }
    None
}

/// A fault found while working through a configuration.
#[derive(Debug)]
pub enum ConfigError {
    /// A server declaration names a template that the table does not hold.
    UnknownTemplate { template: String },
}

impl ConfigError {
    /// The diagnostic text for this error.
    pub fn describe(&self) -> (r: String)
        ensures
            *self matches ConfigError::UnknownTemplate { template } && r@ == "Unknown template "@
                + template@,
    {
        match self {
            ConfigError::UnknownTemplate { template } => {
                let mut out: String = "Unknown template ".to_owned();
                out.append(template.as_str());
                out
            },
        }
    }
}

/// Checks a configuration for structural faults. The model itself accepts
/// every value, so this never fails.
pub fn validate(cfg: &Config) -> (r: Result<(), ConfigError>)
    ensures
        r is Ok,
{
    Ok(())
}

} // verus!
