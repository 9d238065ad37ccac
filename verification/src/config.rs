//! Configuration: what the environment sets, checked and normalized.

use crate::text::{
    chars_of, join, joined, lemma_trim_ends, same_text, trim, trimmed, views,
    white_space,
};
use vstd::prelude::*;

verus! {

/// Why a configuration was refused.
#[derive(Debug)]
pub enum ConfigError {
    MissingRequired(String),
    InvalidEndpoint(String),
    InvalidClusterId(String),
    InvalidNamespace { var: &'static str, name: String },
}

/// [`ConfigError`] as a mathematical value.
pub enum ConfigErrorModel {
    MissingRequired(Seq<char>),
    InvalidEndpoint(Seq<char>),
    InvalidClusterId(Seq<char>),
    InvalidNamespace { var: Seq<char>, name: Seq<char> },
}

/// The agent's configuration.
pub struct Config {
    pub api_endpoint: String,
    pub api_key: String,
    pub cluster_id: String,
    pub include_namespaces: Vec<String>,
    pub exclude_namespaces: Vec<String>,
    pub cloud_provider: Option<String>,
}

/// [`Config`] as a mathematical value.
pub struct ConfigModel {
    pub api_endpoint: Seq<char>,
    pub api_key: Seq<char>,
    pub cluster_id: Seq<char>,
    pub include_namespaces: Seq<Seq<char>>,
    pub exclude_namespaces: Seq<Seq<char>>,
    pub cloud_provider: Option<Seq<char>>,
}

/// The environment variables that configure the agent, `None` where one is not set.
pub struct Environment {
    pub api_key: Option<String>,
    pub cluster_id: Option<String>,
    pub api_endpoint: Option<String>,
    pub include_namespaces: Option<String>,
    pub exclude_namespaces: Option<String>,
    pub cloud_provider: Option<String>,
}

/// The parts of a URL that the endpoint rule reads. The origin is that of a web URL,
/// and empty for every other scheme.
pub struct UrlParts {
    pub scheme: String,
    pub host: Option<String>,
    pub origin: String,
}

/// [`UrlParts`] as a mathematical value.
pub struct UrlModel {
    pub scheme: Seq<char>,
    pub host: Option<Seq<char>>,
    pub origin: Seq<char>,
}

impl DeepView for ConfigError {
    type V = ConfigErrorModel;

    open spec fn deep_view(&self) -> ConfigErrorModel {
        match self {
            ConfigError::MissingRequired(s) => ConfigErrorModel::MissingRequired(s@),
            ConfigError::InvalidEndpoint(s) => ConfigErrorModel::InvalidEndpoint(s@),
            ConfigError::InvalidClusterId(s) => ConfigErrorModel::InvalidClusterId(s@),
            ConfigError::InvalidNamespace { var, name } => ConfigErrorModel::InvalidNamespace {
                var: var@,
                name: name@,
            },
        }
    }
}

impl DeepView for Config {
    type V = ConfigModel;

    open spec fn deep_view(&self) -> ConfigModel {
        ConfigModel {
            api_endpoint: self.api_endpoint@,
            api_key: self.api_key@,
            cluster_id: self.cluster_id@,
            include_namespaces: views(self.include_namespaces@),
            exclude_namespaces: views(self.exclude_namespaces@),
            cloud_provider: self.cloud_provider.deep_view(),
        }
    }
}

impl DeepView for UrlParts {
    type V = UrlModel;

    open spec fn deep_view(&self) -> UrlModel {
        UrlModel { scheme: self.scheme@, host: self.host.deep_view(), origin: self.origin@ }
    }
}

/// What parsing a text as a URL gives: the scheme and the host, or nothing.
pub uninterp spec fn url_head(raw: Seq<char>) -> Option<(Seq<char>, Option<Seq<char>>)>;

/// The origin of the URL that a text parses to.
pub uninterp spec fn url_origin(raw: Seq<char>) -> Seq<char>;

/// Whether `scheme` is one of the web.
pub open spec fn web_scheme(scheme: Seq<char>) -> bool {
    scheme == "http"@ || scheme == "https"@
}

/// The parts of the URL that a text parses to, or nothing.
pub open spec fn url_parts(raw: Seq<char>) -> Option<UrlModel> {
    match url_head(raw) {
        Some((scheme, host)) => Some(
            UrlModel {
                scheme,
                host,
                origin: if web_scheme(scheme) {
                    url_origin(raw)
                } else {
                    Seq::empty()
                },
            },
        ),
        None => None,
    }
}

/// Whether a Punycode label of more than 2004 characters starts at `i`.
pub open spec fn long_label_at(host: Seq<char>, i: int) -> bool {
    &&& 0 <= i && i + 2005 <= host.len()
    &&& i == 0 || host[i - 1] == '.'
    &&& host.subrange(i, i + 4) == "xn--"@
    &&& forall|k: int| i <= k < i + 2005 ==> #[trigger] host[k] != '.'
}

/// Whether `host` has a Punycode label so long that it is written but not read.
pub open spec fn unreadable_host(host: Seq<char>) -> bool {
    exists|i: int| #[trigger] long_label_at(host, i)
}

/// Whether the origin of a URL, parsed in its turn, has the URL's scheme and host and
/// is its own origin; a host that cannot be read again is left out.
pub open spec fn steady(u: UrlModel) -> bool {
    match u.host {
        Some(host) => unreadable_host(host) || url_parts(u.origin) == Some(u),
        None => true,
    }
}

/// Whether `s` is empty, or a colon and digits.
pub open spec fn port_suffix(s: Seq<char>) -> bool {
    s.len() == 0 || (s[0] == ':' && forall|i: int| 1 <= i < s.len() ==> '0' <= #[trigger] s[i] <= '9')
}

/// Whether a web URL's parts fit together: its origin is the scheme, the host and a
/// port or none, and its host cannot be taken for more than a host.
pub open spec fn web_parts(u: UrlModel) -> bool {
    match u.host {
        Some(host) => {
            &&& host.len() > 0
            &&& !host.contains('/') && !host.contains('?') && !host.contains('#')
                && !host.contains('@')
            &&& exists|suffix: Seq<char>| #[trigger]
                port_suffix(suffix) && u.origin == u.scheme + "://"@ + host + suffix
        },
        None => false,
    }
}

/// Calls `url::Url::parse`, and on what it returns `scheme` and `host_str`.
#[verifier::external_body]
fn parse_head(raw: &str) -> (r: Option<(String, Option<String>)>)
    ensures
        r.deep_view() == url_head(raw@),
{
    match url::Url::parse(raw) {
        Ok(u) => Some((u.scheme().to_string(), u.host_str().map(|h| h.to_string()))),
        Err(_) => None,
    }
}

/// Calls `url::Url::parse`, which succeeds on what is required here, and on the result
/// `origin` and its `ascii_serialization`. A web URL has a host, written without the
/// characters that would end it, and the origin is the scheme, the host and the port,
/// if it is not the default one. Parsed in its turn, the origin has the same scheme,
/// host and origin: the host is already in the form that parsing brings it to. Only a
/// Punycode label of more than 2004 characters, which a host can be brought to, is
/// refused when it is parsed. (Other schemes are left out: the origin of a `blob` URL
/// is found by recursion.)
#[verifier::external_body]
fn web_origin(raw: &str) -> (r: String)
    requires
        url_parts(raw@) is Some,
        web_scheme(url_parts(raw@)->0.scheme),
    ensures
        r@ == url_origin(raw@),
        web_parts((UrlModel { origin: r@, ..url_parts(raw@)->0 })),
        !unreadable_host(url_parts(raw@)->0.host->0) ==> url_head(r@) == url_head(raw@)
            && url_origin(r@) == r@,
{
    url::Url::parse(raw).unwrap().origin().ascii_serialization()
}

/// The parts of the URL that a text parses to, or nothing.
fn parse_url(raw: &str) -> (r: Option<UrlParts>)
    ensures
        r.deep_view() == url_parts(raw@),
        r matches Some(u) ==> web_scheme(u.scheme@) ==> web_parts(u.deep_view()) && steady(
            u.deep_view(),
        ),
{
    match parse_head(raw) {
        Some((scheme, host)) => {
            let web: bool = same_text(scheme.as_str(), "http") || same_text(
                scheme.as_str(),
                "https",
            );
            let origin: String = if web {
                web_origin(raw)
            } else {
                String::new()
            };
            assert(!web ==> origin@ == Seq::<char>::empty());
            Some(UrlParts { scheme, host, origin })
        },
        None => None,
    }
}

/// What debug formatting of a text gives.
pub uninterp spec fn debug_quoted(text: Seq<char>) -> Seq<char>;

/// Formats a text with std's `Debug`: in double quotes, with escapes.
#[verifier::external_body]
fn quoted(text: &str) -> (r: String)
    ensures
        r@ == debug_quoted(text@),
{
    format!("{:?}", text)
}

/// Whether `host` names this machine.
pub open spec fn local_host(host: Seq<char>) -> bool {
    host == "localhost"@ || host == "127.0.0.1"@
}

/// Whether an endpoint may be used: `https`, or `http` to this machine.
pub open spec fn endpoint_allowed(u: UrlModel) -> bool {
    ||| u.scheme == "https"@
    ||| u.scheme == "http"@ && match u.host {
        Some(host) => local_host(host),
        None => false,
    }
}

/// The endpoint that a parsed URL stands for: its origin, if it may be used.
pub open spec fn endpoint(parts: Option<UrlModel>) -> Option<Seq<char>> {
    match parts {
        Some(u) if endpoint_allowed(u) => Some(u.origin),
        _ => None,
    }
}

/// Whether `c` is a hexadecimal digit or a hyphen.
pub open spec fn cluster_id_char(c: char) -> bool {
    '0' <= c <= '9' || 'a' <= c <= 'f' || 'A' <= c <= 'F' || c == '-'
}

/// Whether `s` can be a cluster id: at most 36 hexadecimal digits and hyphens.
pub open spec fn valid_cluster_id(s: Seq<char>) -> bool {
    s.len() <= 36 && forall|i: int| 0 <= i < s.len() ==> cluster_id_char(#[trigger] s[i])
}

/// Whether `c` is a lowercase letter, a digit or a hyphen.
pub open spec fn label_char(c: char) -> bool {
    'a' <= c <= 'z' || '0' <= c <= '9' || c == '-'
}

/// Whether `s` is an RFC 1123 label.
pub open spec fn valid_namespace(s: Seq<char>) -> bool {
    &&& 0 < s.len() <= 63
    &&& forall|i: int| 0 <= i < s.len() ==> label_char(#[trigger] s[i])
    &&& s[0] != '-'
    &&& s.last() != '-'
}

/// The first of `names` that is no namespace name.
pub open spec fn first_invalid(names: Seq<Seq<char>>) -> Option<Seq<char>>
    decreases names.len(),
{
    if names.len() == 0 {
        None
    } else if !valid_namespace(names[0]) {
        Some(names[0])
    } else {
        first_invalid(names.skip(1))
    }
}

/// The pieces of `s` between commas.
pub open spec fn pieces(s: Seq<char>) -> Seq<Seq<char>>
    decreases s.len(),
{
    if s.len() == 0 {
        seq![Seq::empty()]
    } else {
        let before = pieces(s.drop_last());
        if s.last() == ',' {
            before.push(Seq::empty())
        } else {
            before.drop_last().push(before.last().push(s.last()))
        }
    }
}

/// The texts, trimmed, without those of which nothing is left.
pub open spec fn trimmed_texts(texts: Seq<Seq<char>>) -> Seq<Seq<char>>
    decreases texts.len(),
{
    if texts.len() == 0 {
        Seq::empty()
    } else {
        let before = trimmed_texts(texts.drop_last());
        if trim(texts.last()).len() > 0 {
            before.push(trim(texts.last()))
        } else {
            before
        }
    }
}

/// The entries of a comma-separated list.
pub open spec fn csv_entries(s: Seq<char>) -> Seq<Seq<char>> {
    trimmed_texts(pieces(s))
}

/// The text that a variable is set to, `default` where it is not set.
pub open spec fn set_or(value: Option<String>, default: Seq<char>) -> Seq<char> {
    match value {
        Some(v) => v@,
        None => default,
    }
}

/// Whether a required variable is missing: not set, or blank.
pub open spec fn missing(value: Option<String>) -> bool {
    match value {
        Some(v) => trim(v@).len() == 0,
        None => true,
    }
}

/// The text of the endpoint variable, or the public endpoint where it is not set.
pub open spec fn endpoint_text(env: Environment) -> Seq<char> {
    set_or(env.api_endpoint, "https://app.kubesavings.io"@)
}

/// The namespaces that the collection is restricted to.
pub open spec fn included(env: Environment) -> Seq<Seq<char>> {
    csv_entries(set_or(env.include_namespaces, Seq::empty()))
}

/// The namespaces that the collection leaves out.
pub open spec fn excluded(env: Environment) -> Seq<Seq<char>> {
    csv_entries(set_or(env.exclude_namespaces, "kube-system,kube-public,kube-node-lease"@))
}

/// The configuration that an environment makes, given what its endpoint parses to.
/// The first rule that is broken decides the error.
pub open spec fn configured(env: Environment, parts: Option<UrlModel>) -> Result<
    ConfigModel,
    ConfigErrorModel,
> {
    if missing(env.api_key) {
        Err(ConfigErrorModel::MissingRequired("KUBESAVINGS_API_KEY"@))
    } else if missing(env.cluster_id) {
        Err(ConfigErrorModel::MissingRequired("KUBESAVINGS_CLUSTER_ID"@))
    } else if !valid_cluster_id(env.cluster_id->0@) {
        Err(ConfigErrorModel::InvalidClusterId(env.cluster_id->0@))
    } else if endpoint(parts) is None {
        Err(ConfigErrorModel::InvalidEndpoint(endpoint_text(env)))
    } else if first_invalid(included(env)) is Some {
        Err(
            ConfigErrorModel::InvalidNamespace {
                var: "KUBESAVINGS_INCLUDE_NAMESPACES"@,
                name: first_invalid(included(env))->0,
            },
        )
    } else if first_invalid(excluded(env)) is Some {
        Err(
            ConfigErrorModel::InvalidNamespace {
                var: "KUBESAVINGS_EXCLUDE_NAMESPACES"@,
                name: first_invalid(excluded(env))->0,
            },
        )
    } else {
        Ok(
            ConfigModel {
                api_endpoint: endpoint(parts)->0,
                api_key: env.api_key->0@,
                cluster_id: env.cluster_id->0@,
                include_namespaces: included(env),
                exclude_namespaces: excluded(env),
                cloud_provider: match env.cloud_provider {
                    Some(p) => if p@.len() > 0 {
                        Some(p@)
                    } else {
                        None
                    },
                    None => None,
                },
            },
        )
    }
}

/// What an error tells the operator.
pub open spec fn error_message(e: ConfigErrorModel) -> Seq<char> {
    match e {
        ConfigErrorModel::MissingRequired(name) => "Required environment variable '"@ + name
            + "' is missing or empty.\nSet KUBESAVINGS_API_KEY and KUBESAVINGS_CLUSTER_ID before running the agent."@,
        ConfigErrorModel::InvalidEndpoint(text) => "KUBESAVINGS_API_ENDPOINT '"@ + text
            + "' is invalid.\nMust be an https:// URL (http://localhost is allowed for local testing).\nExample: https://app.kubesavings.io"@,
        ConfigErrorModel::InvalidClusterId(text) => "KUBESAVINGS_CLUSTER_ID '"@ + text
            + "' is invalid.\nMust contain only alphanumeric characters and hyphens (UUID format)."@,
        ConfigErrorModel::InvalidNamespace { var, name } => var
            + " contains an invalid namespace '"@ + name
            + "'.\nNamespaces must be RFC 1123 labels: lowercase alphanumerics and '-', at most 63 characters."@,
    }
}

impl ConfigError {
    /// What the error tells the operator.
    pub fn message(&self) -> (r: String)
        ensures
            r@ == error_message(self.deep_view()),
    {
        match self {
            ConfigError::MissingRequired(name) => String::from_str(
                "Required environment variable '",
            ).concat(name.as_str()).concat(
                "' is missing or empty.\nSet KUBESAVINGS_API_KEY and KUBESAVINGS_CLUSTER_ID before running the agent.",
            ),
            ConfigError::InvalidEndpoint(text) => String::from_str(
                "KUBESAVINGS_API_ENDPOINT '",
            ).concat(text.as_str()).concat(
                "' is invalid.\nMust be an https:// URL (http://localhost is allowed for local testing).\nExample: https://app.kubesavings.io",
            ),
            ConfigError::InvalidClusterId(text) => String::from_str(
                "KUBESAVINGS_CLUSTER_ID '",
            ).concat(text.as_str()).concat(
                "' is invalid.\nMust contain only alphanumeric characters and hyphens (UUID format).",
            ),
            ConfigError::InvalidNamespace { var, name } => String::from_str(var).concat(
                " contains an invalid namespace '",
            ).concat(name.as_str()).concat(
                "'.\nNamespaces must be RFC 1123 labels: lowercase alphanumerics and '-', at most 63 characters.",
            ),
        }
    }
}

fn namespace_ok(name: &str) -> (r: bool)
    ensures
        r == valid_namespace(name@),
{
    let chars = chars_of(name);
    let n: usize = chars.len();
    if n == 0 || n > 63 {
        return false;
    }
    let mut i: usize = 0;
    while i < n
        invariant
            i <= n == chars@.len(),
            chars@ == name@,
            forall|k: int| 0 <= k < i ==> label_char(#[trigger] name@[k]),
        decreases n - i,
    {
        let c: char = chars[i];
        if !(('a' <= c && c <= 'z') || ('0' <= c && c <= '9') || c == '-') {
            assert(!label_char(name@[i as int]));
            return false;
        }
        i += 1;
    }
    chars[0] != '-' && chars[n - 1] != '-'
}

impl Config {
    /// Validates and normalizes the endpoint, given what it parses to.
    ///
    /// The scheme must be `https`, or `http` to this machine. What is kept is the
    /// origin, so a path in the setting has no effect.
    pub fn endpoint_of(parts: Option<UrlParts>, raw: String) -> (r: Result<String, ConfigError>)
        ensures
            match r {
                Ok(s) => endpoint(parts.deep_view()) == Some(s@),
                Err(e) => endpoint(parts.deep_view()) is None && e.deep_view()
                    == ConfigErrorModel::InvalidEndpoint(raw@),
            },
    {
        match parts {
            Some(u) => {
                let local: bool = match &u.host {
                    Some(host) => same_text(host.as_str(), "localhost") || same_text(
                        host.as_str(),
                        "127.0.0.1",
                    ),
                    None => false,
                };
                if same_text(u.scheme.as_str(), "https") || (same_text(u.scheme.as_str(), "http")
                    && local) {
                    Ok(u.origin)
                } else {
                    Err(ConfigError::InvalidEndpoint(raw))
                }
            },
            None => Err(ConfigError::InvalidEndpoint(raw)),
        }
    }

    /// Validates and normalizes the endpoint URL.
    ///
    /// What is accepted stays accepted: given again, it comes back unchanged.
    pub fn validated_endpoint(raw: String) -> (r: Result<String, ConfigError>)
        ensures
            match r {
                Ok(s) => {
                    &&& endpoint(url_parts(raw@)) == Some(s@)
                    &&& web_parts(url_parts(raw@)->0)
                    &&& unreadable_host(url_parts(raw@)->0.host->0) || endpoint(url_parts(s@))
                        == Some(s@)
                },
                Err(e) => endpoint(url_parts(raw@)) is None && e.deep_view()
                    == ConfigErrorModel::InvalidEndpoint(raw@),
            },
    {
        let parts = parse_url(raw.as_str());
        Config::endpoint_of(parts, raw)
    }

    /// Validates that a cluster id holds nothing but what a UUID does.
    ///
    /// Rejects slashes, dots and every character that could form a path segment.
    pub fn validated_cluster_id(raw: String) -> (r: Result<String, ConfigError>)
        ensures
            match r {
                Ok(s) => valid_cluster_id(raw@) && s == raw,
                Err(e) => !valid_cluster_id(raw@) && e.deep_view()
                    == ConfigErrorModel::InvalidClusterId(raw@),
            },
    {
        let chars = chars_of(raw.as_str());
        let n: usize = chars.len();
        if n > 36 {
            return Err(ConfigError::InvalidClusterId(raw));
        }
        let mut i: usize = 0;
        while i < n
            invariant
                i <= n == chars@.len(),
                chars@ == raw@,
                forall|k: int| 0 <= k < i ==> cluster_id_char(#[trigger] raw@[k]),
            decreases n - i,
        {
            let c: char = chars[i];
            if !(('0' <= c && c <= '9') || ('a' <= c && c <= 'f') || ('A' <= c && c <= 'F') || c
                == '-') {
                assert(!cluster_id_char(raw@[i as int]));
                return Err(ConfigError::InvalidClusterId(raw));
            }
            i += 1;
        }
        Ok(raw)
    }

    /// Validates every namespace name against the rules for RFC 1123 labels.
    ///
    /// Names go into request paths as they are, so one with a slash or dots in it
    /// would address another path.
    pub fn validated_namespaces(var: &'static str, names: Vec<String>) -> (r: Result<
        Vec<String>,
        ConfigError,
    >)
        ensures
            match r {
                Ok(v) => first_invalid(views(names@)) is None && v == names,
                Err(e) => first_invalid(views(names@)) is Some && e.deep_view() == (
                ConfigErrorModel::InvalidNamespace {
                    var: var@,
                    name: first_invalid(views(names@))->0,
                }),
            },
    {
        let mut i: usize = 0;
        assert(views(names@).skip(0) == views(names@));
        while i < names.len()
            invariant
                i <= names.len(),
                first_invalid(views(names@)) == first_invalid(views(names@).skip(i as int)),
            decreases names.len() - i,
        {
            assert(views(names@).skip(i as int).skip(1) == views(names@).skip(i + 1));
            if !namespace_ok(names[i].as_str()) {
                return Err(ConfigError::InvalidNamespace { var, name: names[i].clone() });
            }
            i += 1;
        }
        Ok(names)
    }

    /// The entries of a comma-separated list, trimmed, without empty ones.
    pub fn parse_csv(s: String) -> (r: Vec<String>)
        ensures
            views(r@) == csv_entries(s@),
    {
        let chars = chars_of(s.as_str());
        let n: usize = chars.len();
        let mut out: Vec<String> = Vec::new();
        let mut start: usize = 0;
        let mut i: usize = 0;
        let ghost mut done: Seq<Seq<char>> = Seq::empty();
        proof {
            assert(s@.take(0) == Seq::<char>::empty());
            assert(s@.subrange(0, 0) == Seq::<char>::empty());
            assert(pieces(s@.take(0)) == done.push(s@.subrange(0, 0)));
            assert(views(out@) == Seq::<Seq<char>>::empty());
        }
        while i < n
            invariant
                start <= i <= n == chars@.len(),
                chars@ == s@,
                pieces(s@.take(i as int)) == done.push(s@.subrange(start as int, i as int)),
                views(out@) == trimmed_texts(done),
            decreases n - i,
        {
            let ghost piece = s@.subrange(start as int, i as int);
            let ghost next = s@.take(i + 1);
            proof {
                assert(next.drop_last() == s@.take(i as int));
                assert(done.push(piece).drop_last() == done);
            }
            if chars[i] == ',' {
                push_trimmed(&mut out, s.as_str().substring_char(start, i), Ghost(done));
                proof {
                    done = done.push(piece);
                    assert(s@.subrange(i + 1, i + 1) == Seq::<char>::empty());
                }
                start = i + 1;
            } else {
                assert(piece.push(s@[i as int]) == s@.subrange(start as int, i + 1));
            }
            i += 1;
        }
        push_trimmed(&mut out, s.as_str().substring_char(start, n), Ghost(done));
        assert(s@.take(n as int) == s@);
        out
    }

    /// The configuration that an environment makes, given what its endpoint parses to.
    pub fn from_parsed(env: &Environment, parts: Option<UrlParts>) -> (r: Result<
        Config,
        ConfigError,
    >)
        ensures
            match (r, configured(*env, parts.deep_view())) {
                (Ok(c), Ok(m)) => c.deep_view() == m,
                (Err(e), Err(m)) => e.deep_view() == m,
                _ => false,
            },
    {
        let api_key: String = match Config::required("KUBESAVINGS_API_KEY", &env.api_key) {
            Ok(v) => v,
            Err(e) => {
                return Err(e);
            },
        };
        let cluster_id: String = match Config::required(
            "KUBESAVINGS_CLUSTER_ID",
            &env.cluster_id,
        ) {
            Ok(v) => v,
            Err(e) => {
                return Err(e);
            },
        };
        let cluster_id: String = match Config::validated_cluster_id(cluster_id) {
            Ok(v) => v,
            Err(e) => {
                return Err(e);
            },
        };
        let raw_endpoint: String = value_or(&env.api_endpoint, "https://app.kubesavings.io");
        let api_endpoint: String = match Config::endpoint_of(parts, raw_endpoint) {
            Ok(v) => v,
            Err(e) => {
                return Err(e);
            },
        };
        proof {
            reveal_strlit("");
            assert(""@ == Seq::<char>::empty());
        }
        let include_namespaces: Vec<String> = match Config::validated_namespaces(
            "KUBESAVINGS_INCLUDE_NAMESPACES",
            Config::parse_csv(value_or(&env.include_namespaces, "")),
        ) {
            Ok(v) => v,
            Err(e) => {
                return Err(e);
            },
        };
        let exclude_namespaces: Vec<String> = match Config::validated_namespaces(
            "KUBESAVINGS_EXCLUDE_NAMESPACES",
            Config::parse_csv(
                value_or(&env.exclude_namespaces, "kube-system,kube-public,kube-node-lease"),
            ),
        ) {
            Ok(v) => v,
            Err(e) => {
                return Err(e);
            },
        };
        let cloud_provider: Option<String> = match &env.cloud_provider {
            Some(p) => if p.as_str().is_empty() {
                None
            } else {
                Some(p.clone())
            },
            None => None,
        };
        Ok(
            Config {
                api_endpoint,
                api_key,
                cluster_id,
                include_namespaces,
                exclude_namespaces,
                cloud_provider,
            },
        )
    }

    /// The configuration that an environment makes.
    pub fn from_env(env: &Environment) -> (r: Result<Config, ConfigError>)
        ensures
            match (r, configured(*env, url_parts(endpoint_text(*env)))) {
                (Ok(c), Ok(m)) => c.deep_view() == m && web_parts(
                    url_parts(endpoint_text(*env))->0,
                ) && steady(url_parts(endpoint_text(*env))->0),
                (Err(e), Err(m)) => e.deep_view() == m,
                _ => false,
            },
    {
        let raw_endpoint: String = value_or(&env.api_endpoint, "https://app.kubesavings.io");
        let parts = parse_url(raw_endpoint.as_str());
        Config::from_parsed(env, parts)
    }

    /// The value of a required variable, if it is set and not blank.
    fn required(name: &str, value: &Option<String>) -> (r: Result<String, ConfigError>)
        ensures
            match r {
                Ok(s) => !missing(*value) && s@ == value->0@,
                Err(e) => missing(*value) && e.deep_view() == ConfigErrorModel::MissingRequired(
                    name@,
                ),
            },
    {
        match value {
            Some(v) => if trimmed(v.as_str()).is_empty() {
                Err(ConfigError::MissingRequired(name.to_owned()))
            } else {
                Ok(v.clone())
            },
            None => Err(ConfigError::MissingRequired(name.to_owned())),
        }
    }
}

fn value_or(value: &Option<String>, default: &str) -> (r: String)
    ensures
        r@ == set_or(*value, default@),
{
    match value {
        Some(v) => v.clone(),
        None => default.to_owned(),
    }
}

fn push_trimmed(out: &mut Vec<String>, piece: &str, Ghost(done): Ghost<Seq<Seq<char>>>)
    requires
        views(old(out)@) == trimmed_texts(done),
    ensures
        views(final(out)@) == trimmed_texts(done.push(piece@)),
{
    let t: &str = trimmed(piece);
    assert(done.push(piece@).drop_last() == done);
    let ghost before = views(out@);
    if !t.is_empty() {
        out.push(t.to_owned());
        assert(views(out@) == before.push(t@));
    }
}

/// The texts, each debug formatted.
pub open spec fn all_quoted(texts: Seq<Seq<char>>) -> Seq<Seq<char>> {
    Seq::new(texts.len(), |i: int| debug_quoted(texts[i]))
}

/// How a configuration is shown in logs. The API key is not.
pub open spec fn shown(c: ConfigModel) -> Seq<char> {
    "Config { api_endpoint: "@ + debug_quoted(c.api_endpoint)
        + ", api_key: \"<redacted>\", cluster_id: "@ + debug_quoted(c.cluster_id)
        + ", include_namespaces: ["@ + joined(all_quoted(c.include_namespaces), ", "@)
        + "], exclude_namespaces: ["@ + joined(all_quoted(c.exclude_namespaces), ", "@)
        + "], cloud_provider: "@ + (match c.cloud_provider {
        Some(p) => "Some("@ + debug_quoted(p) + ")"@,
        None => "None"@,
    }) + " }"@
}

fn quote_all(texts: &Vec<String>) -> (r: Vec<String>)
    ensures
        views(r@) == all_quoted(views(texts@)),
{
    let mut out: Vec<String> = Vec::new();
    let mut i: usize = 0;
    while i < texts.len()
        invariant
            i <= texts.len(),
            out@.len() == i,
            forall|k: int| 0 <= k < i ==> (#[trigger] out@[k])@ == debug_quoted(texts@[k]@),
        decreases texts.len() - i,
    {
        out.push(quoted(texts[i].as_str()));
        i += 1;
    }
    assert(views(out@) =~= all_quoted(views(texts@)));
    out
}

impl Config {
    /// How the configuration is shown in logs.
    ///
    /// The API key never reaches a log line; everything else is safe to print.
    pub fn debug_text(&self) -> (r: String)
        ensures
            r@ == shown(self.deep_view()),
    {
        let provider: String = match &self.cloud_provider {
            Some(p) => String::from_str("Some(").concat(quoted(p.as_str()).as_str()).concat(")"),
            None => String::from_str("None"),
        };
        String::from_str("Config { api_endpoint: ").concat(
            quoted(self.api_endpoint.as_str()).as_str(),
        ).concat(", api_key: \"<redacted>\", cluster_id: ").concat(
            quoted(self.cluster_id.as_str()).as_str(),
        ).concat(", include_namespaces: [").concat(
            join(&quote_all(&self.include_namespaces), ", ").as_str(),
        ).concat("], exclude_namespaces: [").concat(
            join(&quote_all(&self.exclude_namespaces), ", ").as_str(),
        ).concat("], cloud_provider: ").concat(provider.as_str()).concat(" }")
    }
}

/// What is shown of a configuration does not depend on the API key.
pub proof fn law_api_key_is_never_shown(c: ConfigModel, other_key: Seq<char>)
    ensures
        shown(c) == shown(ConfigModel { api_key: other_key, ..c }),
{
}

/// An endpoint that is accepted is a scheme and an authority, and nothing behind
/// them: what a setting carries beyond its origin is gone.
pub proof fn law_endpoint_is_an_origin(u: UrlModel)
    requires
        endpoint_allowed(u),
        web_parts(u),
    ensures
        exists|authority: Seq<char>|
            #![trigger u.scheme + "://"@ + authority]
            endpoint(Some(u)) == Some(u.scheme + "://"@ + authority) && authority.len() > 0
                && !authority.contains('/') && !authority.contains('?') && !authority.contains('#'),
        u.scheme == "https"@ || (u.scheme == "http"@ && u.host is Some && local_host(u.host->0)),
{
    let host = u.host->0;
    let suffix = choose|suffix: Seq<char>| #[trigger]
        port_suffix(suffix) && u.origin == u.scheme + "://"@ + host + suffix;
    let authority = host + suffix;
    assert(u.scheme + "://"@ + authority == u.origin);
    assert forall|c: char| c == '/' || c == '?' || c == '#' implies !#[trigger] authority.contains(
        c,
    ) by {
        if authority.contains(c) {
            let i = choose|i: int| 0 <= i < authority.len() && authority[i] == c;
            if i < host.len() {
                assert(host[i] == c);
            } else {
                assert(suffix[i - host.len()] == c);
            }
        }
    }
}

/// Whether `s` can stand in a request path as one segment: no slash, no dot, no
/// query, fragment or escape.
pub open spec fn plain_segment(s: Seq<char>) -> bool {
    !s.contains('/') && !s.contains('.') && !s.contains('?') && !s.contains('#') && !s.contains(
        '%',
    )
}

/// A cluster id and a namespace name that are accepted stay one path segment each.
pub proof fn law_accepted_names_are_plain_segments(s: Seq<char>)
    requires
        valid_cluster_id(s) || valid_namespace(s),
    ensures
        plain_segment(s),
{
    assert forall|c: char| s.contains(c) implies cluster_id_char(c) || label_char(c) by {
        let i = choose|i: int| 0 <= i < s.len() && s[i] == c;
        if valid_cluster_id(s) {
            assert(cluster_id_char(s[i]));
        } else {
            assert(label_char(s[i]));
        }
    }
}

proof fn lemma_all_valid(names: Seq<Seq<char>>, i: int)
    requires
        first_invalid(names) is None,
        0 <= i < names.len(),
    ensures
        valid_namespace(names[i]),
    decreases i,
{
    if i > 0 {
        lemma_all_valid(names.skip(1), i - 1);
    }
}

/// A configuration that is accepted keeps every rule: the key is not blank, the
/// cluster id is valid, so is every namespace name, and the endpoint is the origin
/// of an allowed URL.
pub proof fn law_accepted_configuration_is_valid(env: Environment, parts: Option<UrlModel>)
    requires
        configured(env, parts) is Ok,
    ensures
        trim(configured(env, parts)->Ok_0.api_key).len() > 0,
        valid_cluster_id(configured(env, parts)->Ok_0.cluster_id),
        parts is Some && endpoint_allowed(parts->0),
        configured(env, parts)->Ok_0.api_endpoint == parts->0.origin,
        forall|i: int|
            0 <= i < configured(env, parts)->Ok_0.include_namespaces.len() ==> valid_namespace(
                #[trigger] configured(env, parts)->Ok_0.include_namespaces[i],
            ),
        forall|i: int|
            0 <= i < configured(env, parts)->Ok_0.exclude_namespaces.len() ==> valid_namespace(
                #[trigger] configured(env, parts)->Ok_0.exclude_namespaces[i],
            ),
{
    let c = configured(env, parts)->Ok_0;
    assert forall|i: int| 0 <= i < c.include_namespaces.len() implies valid_namespace(
        #[trigger] c.include_namespaces[i],
    ) by {
        lemma_all_valid(c.include_namespaces, i);
    }
    assert forall|i: int| 0 <= i < c.exclude_namespaces.len() implies valid_namespace(
        #[trigger] c.exclude_namespaces[i],
    ) by {
        lemma_all_valid(c.exclude_namespaces, i);
    }
}

proof fn lemma_pieces_have_no_comma(s: Seq<char>, i: int)
    requires
        0 <= i < pieces(s).len(),
    ensures
        !pieces(s)[i].contains(','),
    decreases s.len(),
{
    if s.len() > 0 {
        let before = pieces(s.drop_last());
        lemma_pieces_some(s.drop_last());
        if i < before.len() {
            lemma_pieces_have_no_comma(s.drop_last(), i);
        }
        if s.last() != ',' && i == before.len() - 1 {
            let p = before.last().push(s.last());
            assert(pieces(s)[i] == p);
            if p.contains(',') {
                let k = choose|k: int| 0 <= k < p.len() && p[k] == ',';
                assert(before.last()[k] == ',');
                assert(before[i].contains(','));
            }
        }
    }
}

proof fn lemma_pieces_some(s: Seq<char>)
    ensures
        pieces(s).len() > 0,
    decreases s.len(),
{
    if s.len() > 0 {
        lemma_pieces_some(s.drop_last());
    }
}

proof fn lemma_trimmed_from(texts: Seq<Seq<char>>, i: int) -> (k: int)
    requires
        0 <= i < trimmed_texts(texts).len(),
    ensures
        0 <= k < texts.len(),
        trimmed_texts(texts)[i] == trim(texts[k]),
        trimmed_texts(texts)[i].len() > 0,
    decreases texts.len(),
{
    let before = trimmed_texts(texts.drop_last());
    if i < before.len() {
        let k = lemma_trimmed_from(texts.drop_last(), i);
        k
    } else {
        texts.len() - 1
    }
}

/// An entry of a comma-separated list is not empty, holds no comma, and neither
/// starts nor ends with white space.
pub proof fn law_csv_entries_are_trimmed(s: Seq<char>, i: int)
    requires
        0 <= i < csv_entries(s).len(),
    ensures
        csv_entries(s)[i].len() > 0,
        !csv_entries(s)[i].contains(','),
        !white_space(csv_entries(s)[i][0]),
        !white_space(csv_entries(s)[i].last()),
{
    let k = lemma_trimmed_from(pieces(s), i);
    let piece = pieces(s)[k];
    lemma_pieces_have_no_comma(s, k);
    lemma_trim_ends(piece);
    let entry = trim(piece);
    if entry.contains(',') {
        let j = choose|j: int| 0 <= j < entry.len() && entry[j] == ',';
        assert(piece.contains(entry[j]));
    }
}

/// Text without a comma only prolongs the last piece.
proof fn lemma_piece_prolonged(s: Seq<char>, tail: Seq<char>)
    requires
        !tail.contains(','),
    ensures
        pieces(s + tail) == pieces(s).drop_last().push(pieces(s).last() + tail),
    decreases tail.len(),
{
    lemma_pieces_some(s);
    if tail.len() == 0 {
        assert(s + tail == s);
        assert(pieces(s).last() + tail == pieces(s).last());
    } else {
        let init = tail.drop_last();
        assert forall|k: int| 0 <= k < init.len() implies #[trigger] init[k] != ',' by {
            assert(tail.contains(tail[k]));
        }
        lemma_piece_prolonged(s, init);
        assert((s + tail).drop_last() == s + init);
        assert(tail.contains(tail.last()));
        let before = pieces(s + init);
        assert(before.drop_last() == pieces(s).drop_last());
        assert((pieces(s).last() + init).push(tail.last()) == pieces(s).last() + tail);
    }
}

proof fn lemma_pieces_of_joined(fields: Seq<Seq<char>>)
    requires
        fields.len() > 0,
        forall|i: int| 0 <= i < fields.len() ==> !(#[trigger] fields[i]).contains(','),
    ensures
        pieces(joined(fields, ","@)) == fields,
    decreases fields.len(),
{
    reveal_strlit(",");
    let empty = Seq::<char>::empty();
    if fields.len() == 1 {
        lemma_piece_prolonged(empty, fields[0]);
        assert(empty + fields[0] == fields[0]);
        assert(pieces(fields[0]) =~= fields);
    } else {
        let init = fields.drop_last();
        assert forall|i: int| 0 <= i < init.len() implies !(#[trigger] init[i]).contains(',') by {
            assert(init[i] == fields[i]);
        }
        lemma_pieces_of_joined(init);
        let start = joined(init, ","@);
        let cut = start + ","@;
        assert(cut == start.push(','));
        assert(cut.drop_last() == start);
        assert(pieces(cut) == init.push(empty));
        lemma_piece_prolonged(cut, fields.last());
        assert(pieces(cut).drop_last() == init);
        assert(empty + fields.last() == fields.last());
        assert(init.push(fields.last()) == fields);
    }
}

/// What was joined with commas is read back: the entries are the fields, trimmed,
/// without those of which nothing is left.
pub proof fn law_csv_reads_back_what_was_joined(fields: Seq<Seq<char>>)
    requires
        fields.len() > 0,
        forall|i: int| 0 <= i < fields.len() ==> !(#[trigger] fields[i]).contains(','),
    ensures
        csv_entries(joined(fields, ","@)) == trimmed_texts(fields),
{
    lemma_pieces_of_joined(fields);
}

} // verus!
