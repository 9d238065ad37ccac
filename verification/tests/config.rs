use kubesavings_agent::config::{Config, ConfigError, Environment, UrlParts};

fn environment() -> Environment {
    Environment {
        api_key: Some("key".to_string()),
        cluster_id: Some("550e8400-e29b-41d4-a716-446655440000".to_string()),
        api_endpoint: None,
        include_namespaces: None,
        exclude_namespaces: None,
        cloud_provider: None,
    }
}

#[test]
fn accepts_https_endpoint() {
    let result = Config::validated_endpoint("https://app.kubesavings.io".to_string());
    assert_eq!(result.unwrap(), "https://app.kubesavings.io");
}

#[test]
fn accepts_https_with_path_and_strips_it() {
    let result = Config::validated_endpoint("https://app.kubesavings.io/injected/path".to_string());
    assert_eq!(result.unwrap(), "https://app.kubesavings.io");
}

#[test]
fn accepts_http_localhost() {
    let result = Config::validated_endpoint("http://localhost:8000".to_string());
    assert_eq!(result.unwrap(), "http://localhost:8000");
}

#[test]
fn rejects_http_non_localhost() {
    let result = Config::validated_endpoint("http://attacker.example.com".to_string());
    assert!(result.is_err());
}

#[test]
fn rejects_http_attacker_with_path() {
    let result = Config::validated_endpoint("http://attacker.example.com/steal".to_string());
    assert!(result.is_err());
}

#[test]
fn rejects_non_http_scheme() {
    assert!(Config::validated_endpoint("file:///etc/passwd".to_string()).is_err());
    assert!(Config::validated_endpoint("ftp://attacker.com".to_string()).is_err());
    assert!(Config::validated_endpoint("gopher://attacker.com".to_string()).is_err());
}

#[test]
fn rejects_invalid_url() {
    assert!(Config::validated_endpoint("not a url".to_string()).is_err());
    assert!(Config::validated_endpoint(String::new()).is_err());
}

#[test]
fn accepts_valid_uuid_cluster_id() {
    let id = "550e8400-e29b-41d4-a716-446655440000".to_string();
    assert_eq!(Config::validated_cluster_id(id.clone()).unwrap(), id);
}

#[test]
fn rejects_path_traversal_cluster_id() {
    assert!(Config::validated_cluster_id("abc/../../billing/webhook".to_string()).is_err());
    assert!(Config::validated_cluster_id("../secret".to_string()).is_err());
    assert!(Config::validated_cluster_id("id\x00null".to_string()).is_err());
}

#[test]
fn rejects_oversized_cluster_id() {
    let long = "a".repeat(37);
    assert!(Config::validated_cluster_id(long).is_err());
}

#[test]
fn accepts_valid_namespace_names() {
    let names = vec![
        "default".to_string(),
        "kube-system".to_string(),
        "team-a-1".to_string(),
        "a".repeat(63),
    ];
    assert_eq!(
        Config::validated_namespaces("VAR", names.clone()).unwrap(),
        names
    );
    // An empty list (no filtering configured) is valid.
    assert!(Config::validated_namespaces("VAR", vec![])
        .unwrap()
        .is_empty());
}

#[test]
fn rejects_namespace_path_traversal() {
    // These would otherwise go raw into a request path.
    for bad in [
        "../../nodes",
        "default/../kube-system",
        "ns?watch=true",
        "ns#frag",
        "Default",
        "ns name",
        "ns\x00",
    ] {
        assert!(
            Config::validated_namespaces("VAR", vec![bad.to_string()]).is_err(),
            "should have rejected {bad:?}"
        );
    }
}

#[test]
fn rejects_malformed_namespace_labels() {
    for bad in ["-leading", "trailing-", &"a".repeat(64)] {
        assert!(
            Config::validated_namespaces("VAR", vec![bad.to_string()]).is_err(),
            "should have rejected {bad:?}"
        );
    }
}

#[test]
fn one_bad_namespace_rejects_the_whole_list() {
    let names = vec!["good".to_string(), "../bad".to_string()];
    let err = Config::validated_namespaces("KUBESAVINGS_INCLUDE_NAMESPACES", names)
        .expect_err("must reject");
    // The error names the offending variable and value so the operator can fix it.
    let msg = err.message();
    assert!(msg.contains("KUBESAVINGS_INCLUDE_NAMESPACES"), "{msg}");
    assert!(msg.contains("../bad"), "{msg}");
}

#[test]
fn parse_csv_trims_and_drops_empty_entries() {
    assert_eq!(
        Config::parse_csv(" a , b,c ".to_string()),
        vec!["a".to_string(), "b".to_string(), "c".to_string()]
    );
    assert!(Config::parse_csv(String::new()).is_empty());
    assert!(Config::parse_csv(",,".to_string()).is_empty());
    assert!(Config::parse_csv("   ".to_string()).is_empty());
    assert_eq!(
        Config::parse_csv("single".to_string()),
        vec!["single".to_string()]
    );
}

#[test]
fn debug_output_never_contains_the_api_key() {
    let config = Config {
        api_endpoint: "https://app.kubesavings.io".to_string(),
        api_key: "super-secret-key-value".to_string(),
        cluster_id: "550e8400-e29b-41d4-a716-446655440000".to_string(),
        include_namespaces: vec![],
        exclude_namespaces: vec!["kube-system".to_string()],
        cloud_provider: None,
    };

    let rendered = config.debug_text();
    assert!(
        !rendered.contains("super-secret-key-value"),
        "api key leaked into debug output: {rendered}"
    );
    assert!(rendered.contains("<redacted>"), "{rendered}");
    // The non-sensitive fields are still useful for troubleshooting.
    assert!(rendered.contains("app.kubesavings.io"), "{rendered}");
    assert!(rendered.contains("550e8400"), "{rendered}");
}

#[test]
fn debug_output_is_the_usual_rendering_of_a_struct() {
    let config = Config {
        api_endpoint: "https://app.kubesavings.io".to_string(),
        api_key: "k".to_string(),
        cluster_id: "ab\"c\n".to_string(),
        include_namespaces: vec!["a".to_string(), "b".to_string()],
        exclude_namespaces: vec![],
        cloud_provider: Some("aws".to_string()),
    };
    assert_eq!(
        config.debug_text(),
        "Config { api_endpoint: \"https://app.kubesavings.io\", api_key: \"<redacted>\", \
         cluster_id: \"ab\\\"c\\n\", include_namespaces: [\"a\", \"b\"], exclude_namespaces: [], \
         cloud_provider: Some(\"aws\") }"
    );
}

#[test]
fn the_api_key_makes_no_difference_to_what_is_shown() {
    let mut shown: Vec<String> = Vec::new();
    for key in ["one", "another-key"] {
        let mut env = environment();
        env.api_key = Some(key.to_string());
        shown.push(Config::from_env(&env).expect("valid").debug_text());
    }
    assert_eq!(shown[0], shown[1]);
}

#[test]
fn defaults_apply_where_nothing_is_set() {
    let config = Config::from_env(&environment()).expect("valid");
    assert_eq!(config.api_endpoint, "https://app.kubesavings.io");
    assert_eq!(config.api_key, "key");
    assert!(config.include_namespaces.is_empty());
    assert_eq!(
        config.exclude_namespaces,
        vec!["kube-system", "kube-public", "kube-node-lease"]
    );
    assert!(config.cloud_provider.is_none());
}

#[test]
fn set_variables_are_taken_over() {
    let mut env = environment();
    env.api_endpoint = Some("https://example.com:8443/x?y#z".to_string());
    env.include_namespaces = Some("team-a, team-b ,".to_string());
    env.exclude_namespaces = Some(String::new());
    env.cloud_provider = Some("gcp".to_string());
    let config = Config::from_env(&env).expect("valid");
    assert_eq!(config.api_endpoint, "https://example.com:8443");
    assert_eq!(config.include_namespaces, vec!["team-a", "team-b"]);
    assert!(config.exclude_namespaces.is_empty());
    assert_eq!(config.cloud_provider.as_deref(), Some("gcp"));

    env.cloud_provider = Some(String::new());
    assert!(Config::from_env(&env).expect("valid").cloud_provider.is_none());
}

#[test]
fn a_missing_or_blank_required_variable_is_named() {
    for blank in [None, Some(String::new()), Some(" \t\u{3000}".to_string())] {
        let mut env = environment();
        env.api_key = blank.clone();
        match Config::from_env(&env) {
            Err(ConfigError::MissingRequired(name)) => assert_eq!(name, "KUBESAVINGS_API_KEY"),
            _ => panic!("a blank key must be refused"),
        }
        let mut env = environment();
        env.cluster_id = blank;
        match Config::from_env(&env) {
            Err(ConfigError::MissingRequired(name)) => assert_eq!(name, "KUBESAVINGS_CLUSTER_ID"),
            _ => panic!("a blank cluster id must be refused"),
        }
    }
}

#[test]
fn the_first_broken_rule_decides_the_error() {
    let mut env = environment();
    env.cluster_id = Some("not hex".to_string());
    env.api_endpoint = Some("http://example.com".to_string());
    env.include_namespaces = Some("Bad".to_string());
    env.exclude_namespaces = Some("worse!".to_string());
    match Config::from_env(&env) {
        Err(ConfigError::InvalidClusterId(id)) => assert_eq!(id, "not hex"),
        _ => panic!("the cluster id comes first"),
    }
    env.cluster_id = Some("abc".to_string());
    match Config::from_env(&env) {
        Err(ConfigError::InvalidEndpoint(text)) => assert_eq!(text, "http://example.com"),
        _ => panic!("then the endpoint"),
    }
    env.api_endpoint = None;
    match Config::from_env(&env) {
        Err(ConfigError::InvalidNamespace { var, name }) => {
            assert_eq!(var, "KUBESAVINGS_INCLUDE_NAMESPACES");
            assert_eq!(name, "Bad");
        }
        _ => panic!("then the included namespaces"),
    }
    env.include_namespaces = None;
    match Config::from_env(&env) {
        Err(ConfigError::InvalidNamespace { var, name }) => {
            assert_eq!(var, "KUBESAVINGS_EXCLUDE_NAMESPACES");
            assert_eq!(name, "worse!");
        }
        _ => panic!("then the excluded ones"),
    }
}

#[test]
fn error_messages_tell_what_to_do() {
    assert_eq!(
        ConfigError::MissingRequired("X".to_string()).message(),
        "Required environment variable 'X' is missing or empty.\n\
         Set KUBESAVINGS_API_KEY and KUBESAVINGS_CLUSTER_ID before running the agent."
    );
    assert_eq!(
        ConfigError::InvalidEndpoint("ftp://x".to_string()).message(),
        "KUBESAVINGS_API_ENDPOINT 'ftp://x' is invalid.\n\
         Must be an https:// URL (http://localhost is allowed for local testing).\n\
         Example: https://app.kubesavings.io"
    );
    assert_eq!(
        ConfigError::InvalidClusterId("../".to_string()).message(),
        "KUBESAVINGS_CLUSTER_ID '../' is invalid.\n\
         Must contain only alphanumeric characters and hyphens (UUID format)."
    );
    assert_eq!(
        ConfigError::InvalidNamespace {
            var: "V",
            name: "N".to_string()
        }
        .message(),
        "V contains an invalid namespace 'N'.\n\
         Namespaces must be RFC 1123 labels: lowercase alphanumerics and '-', at most 63 characters."
    );
}

#[test]
fn a_cluster_id_of_full_length_is_accepted() {
    assert!(Config::validated_cluster_id("a".repeat(36)).is_ok());
    assert!(Config::validated_cluster_id(String::new()).is_ok());
    assert!(Config::validated_cluster_id("é".to_string()).is_err());
}

#[test]
fn endpoints_keep_no_more_than_their_origin() {
    for (raw, origin) in [
        ("HTTPS://App.KubeSavings.IO:443/a/../b", "https://app.kubesavings.io"),
        ("https://user:pw@example.com/x", "https://example.com"),
        ("https://example.com:9443?q=/../", "https://example.com:9443"),
        ("http://127.0.0.1:8080/x", "http://127.0.0.1:8080"),
        ("https://[::1]/", "https://[::1]"),
    ] {
        assert_eq!(
            Config::validated_endpoint(raw.to_string()).expect(raw),
            origin
        );
    }
    assert!(Config::validated_endpoint("http://[::1]/".to_string()).is_err());
    assert!(Config::validated_endpoint("ws://localhost".to_string()).is_err());
    match Config::validated_endpoint("http://example.com".to_string()) {
        Err(ConfigError::InvalidEndpoint(text)) => assert_eq!(text, "http://example.com"),
        _ => panic!("plain http to another machine"),
    }
}

#[test]
fn an_accepted_endpoint_is_accepted_again_unchanged() {
    let again = |raw: &str| {
        let first = Config::validated_endpoint(raw.to_string()).expect(raw);
        assert_eq!(
            Config::validated_endpoint(first.clone()).expect(&first),
            first,
            "{raw:?}"
        );
        first
    };
    assert_eq!(again("https://Bücher.example/a"), "https://xn--bcher-kva.example");
    assert_eq!(again("https://XN--BCHER-KVA.example:8443"), "https://xn--bcher-kva.example:8443");
    assert_eq!(again("https://0x7f.1/x"), "https://127.0.0.1");
    assert_eq!(again("http://0x7f000001:0"), "http://127.0.0.1:0");
    assert_eq!(again("https://[0:0::FFFF:1.2.3.4]:1"), "https://[::ffff:102:304]:1");
    assert_eq!(again("https:\\\\a..b.?x"), "https://a..b.");
    assert_eq!(again(" https://u:p@%41_b!c\t.de#f "), "https://a_b!c.de");
    assert_eq!(again("https://例え。テスト"), "https://xn--r8jz45g.xn--zckzah");

    // Hosts drawn from all over Unicode, as far as they are accepted.
    let mut state: u64 = 7;
    let mut draw = |n: u64| {
        state = state
            .wrapping_mul(6_364_136_223_846_793_005)
            .wrapping_add(1_442_695_040_888_963_407);
        (state >> 33) % n
    };
    let mut accepted = 0;
    for _ in 0..60_000 {
        let mut host = String::new();
        for _ in 0..1 + draw(6) {
            let c = match draw(4) {
                0 => 0x21 + draw(0x5e),
                1 => 0x80 + draw(0x780),
                2 => 0x2000 + draw(0x9000),
                _ => draw(0x30000),
            };
            host.extend(char::from_u32(c as u32));
        }
        let raw = format!("https://{host}.example");
        if Config::validated_endpoint(raw.clone()).is_ok() {
            again(&raw);
            accepted += 1;
        }
    }
    assert!(accepted > 1_000, "{accepted} hosts accepted");
}

#[test]
fn a_host_can_be_too_long_to_be_read_again() {
    let label = |n: u32| -> String {
        (0..n)
            .filter_map(|i| char::from_u32(0x4e00 + (i * 7_919) % 20_000))
            .collect()
    };
    let written = Config::validated_endpoint(format!("https://{}.example", label(1_000)))
        .expect("a long label is accepted");
    let host = written.strip_prefix("https://xn--").expect("Punycode");
    assert!(host.find('.').expect("a dot") > 2_000);
    assert!(Config::validated_endpoint(written).is_err());
    assert!(Config::validated_endpoint(format!("https://{}.example", label(1_001))).is_err());
    // A long label without Punycode is read again.
    let plain = format!("https://{}.example", "a".repeat(5_000));
    assert_eq!(Config::validated_endpoint(plain.clone()).unwrap(), plain);
}

#[test]
fn nested_schemes_are_refused_by_the_outer_one() {
    let raw = format!("{}https://example.com", "blob:".repeat(200_000));
    match Config::validated_endpoint(raw.clone()) {
        Err(ConfigError::InvalidEndpoint(text)) => assert_eq!(text, raw),
        _ => panic!("a blob URL"),
    }
    assert!(Config::validated_endpoint("blob:https://example.com/x".to_string()).is_err());
}

#[test]
fn the_endpoint_rule_reads_scheme_and_host() {
    let parts = |scheme: &str, host: Option<&str>| {
        Some(UrlParts {
            scheme: scheme.to_string(),
            host: host.map(|h| h.to_string()),
            origin: "origin".to_string(),
        })
    };
    let allowed = |p: Option<UrlParts>| Config::endpoint_of(p, "raw".to_string()).is_ok();
    assert!(allowed(parts("https", Some("anything"))));
    assert!(allowed(parts("http", Some("localhost"))));
    assert!(allowed(parts("http", Some("127.0.0.1"))));
    assert!(!allowed(parts("http", Some("::1"))));
    assert!(!allowed(parts("http", Some("[::1]"))));
    assert!(!allowed(parts("http", Some("localhost.evil"))));
    assert!(!allowed(parts("http", None)));
    assert!(!allowed(parts("httpss", Some("localhost"))));
    assert!(!allowed(None));
    assert_eq!(
        Config::endpoint_of(parts("https", Some("h")), "raw".to_string()).unwrap(),
        "origin"
    );
}

#[test]
fn csv_entries_are_trimmed_of_unicode_white_space() {
    assert_eq!(
        Config::parse_csv("\u{a0}x\u{2003},\u{85},y z\n".to_string()),
        vec!["x".to_string(), "y z".to_string()]
    );
}

#[test]
fn what_was_joined_with_commas_is_read_back() {
    let fields = ["kube-system", " team-a\t", "", "  ", "b c"];
    assert_eq!(
        Config::parse_csv(fields.join(",")),
        vec!["kube-system", "team-a", "b c"]
    );
    assert_eq!(Config::parse_csv(["one"].join(",")), vec!["one"]);
}
