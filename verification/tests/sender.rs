use std::time::Duration;

use kubesavings_agent::config::Config;
use kubesavings_agent::sender::{
    backoff_delays, classify_status, failed_reply, is_retryable_status, jittered_pause,
    snapshot_request, truncate_body, ReplyKind, RetryableError, SendAction, SendState,
    SenderError, MAX_ERROR_BODY_BYTES, REQUEST_TIMEOUT_MS,
};

#[test]
fn backoff_delays_are_5s_then_20s() {
    let delays: Vec<Duration> = backoff_delays()
        .into_iter()
        .map(Duration::from_millis)
        .collect();
    assert_eq!(
        delays,
        vec![Duration::from_secs(5), Duration::from_secs(20)],
        "backoff curve drifted"
    );
}

#[test]
fn worst_case_send_fits_inside_cronjob_deadline() {
    // The job's deadline is shared with collection. Attempts = retries + 1.
    const CRONJOB_DEADLINE: Duration = Duration::from_secs(300);
    let delays: Vec<Duration> = backoff_delays()
        .into_iter()
        .map(Duration::from_millis)
        .collect();
    let attempts = delays.len() as u32 + 1;
    let worst_case: Duration =
        delays.iter().sum::<Duration>() + Duration::from_millis(REQUEST_TIMEOUT_MS) * attempts;

    assert!(
        worst_case < CRONJOB_DEADLINE,
        "worst-case send {worst_case:?} exceeds the {CRONJOB_DEADLINE:?} job deadline"
    );
}

#[test]
fn only_timeout_ratelimit_and_5xx_are_retryable() {
    for status in [408, 429, 500, 502, 503, 504] {
        assert!(is_retryable_status(status), "{status} should be retryable");
    }
    for status in [400, 401, 403, 404, 409, 422, 200, 301] {
        assert!(
            !is_retryable_status(status),
            "{status} should not be retryable"
        );
    }
    assert!(is_retryable_status(599));
    assert!(!is_retryable_status(600));
    assert!(!is_retryable_status(499));
}

#[test]
fn auth_and_decode_failures_are_never_retried() {
    assert!(!RetryableError::Unauthorized.is_retryable());
    assert!(!RetryableError::Decode.is_retryable());
    assert!(RetryableError::Http {
        status: 503,
        body: String::new()
    }
    .is_retryable());
    assert!(!RetryableError::Http {
        status: 403,
        body: String::new()
    }
    .is_retryable());
    assert!(RetryableError::Reqwest("connection reset".to_string()).is_retryable());
}

#[test]
fn truncate_body_bounds_length_and_respects_char_boundaries() {
    assert_eq!(truncate_body("short".to_string()), "short");

    let long = truncate_body("a".repeat(MAX_ERROR_BODY_BYTES * 4));
    assert!(long.len() < MAX_ERROR_BODY_BYTES + 32);
    assert!(long.ends_with("(truncated)"));

    // A multi-byte char straddling the cut must not panic or split.
    let multibyte = truncate_body("é".repeat(MAX_ERROR_BODY_BYTES));
    assert!(multibyte.ends_with("(truncated)"));
}

#[test]
fn truncation_keeps_exactly_what_fits() {
    let exact = "a".repeat(MAX_ERROR_BODY_BYTES);
    assert_eq!(truncate_body(exact.clone()), exact);
    let over = format!("{exact}b");
    assert_eq!(truncate_body(over), format!("{exact}… (truncated)"));
    // 1023 bytes and a character of four: none of its bytes is kept.
    let straddling = format!("{}{}", "a".repeat(1023), "😀");
    assert_eq!(
        truncate_body(straddling),
        format!("{}… (truncated)", "a".repeat(1023))
    );
    let wide = "€".repeat(400);
    assert_eq!(
        truncate_body(wide),
        format!("{}… (truncated)", "€".repeat(341))
    );
}

fn test_config(endpoint: &str) -> Config {
    Config {
        api_endpoint: endpoint.to_string(),
        api_key: "test-key".to_string(),
        cluster_id: "550e8400-e29b-41d4-a716-446655440000".to_string(),
        include_namespaces: vec![],
        exclude_namespaces: vec![],
        cloud_provider: None,
    }
}

/// What a backend answers to one attempt.
enum Answer {
    Reply(u16, Vec<u8>),
    Down,
}

/// Sends against a scripted backend. Returns the result, the attempts and the waits.
fn send(script: Vec<Answer>) -> (Result<i64, SenderError>, usize, Vec<u64>) {
    let mut state = SendState::start();
    let mut attempts = 0;
    let mut waits = Vec::new();
    for answer in script {
        attempts += 1;
        let outcome: Result<i64, RetryableError> = match answer {
            Answer::Down => Err(RetryableError::Reqwest("connection refused".to_string())),
            Answer::Reply(status, bytes) => match classify_status(status) {
                ReplyKind::Unauthorized => Err(RetryableError::Unauthorized),
                ReplyKind::Success => match bytes.first() {
                    Some(n) if *n < 0x80 => Ok(*n as i64),
                    _ => Err(RetryableError::Decode),
                },
                ReplyKind::Failure => Err(failed_reply(
                    status,
                    String::from_utf8(bytes).unwrap_or_default(),
                )),
            },
        };
        match state.step(outcome) {
            SendAction::Finish(result) => return (result, attempts, waits),
            SendAction::Retry { next, after_ms } => {
                state = next;
                waits.push(after_ms);
            }
        }
    }
    panic!("the backend's script ended before the sender did");
}

#[test]
fn posts_protobuf_to_the_cluster_snapshot_path_and_decodes_the_reply() {
    let request = snapshot_request(&test_config("http://127.0.0.1:4321"));
    assert_eq!(
        request.url,
        "http://127.0.0.1:4321/api/clusters/550e8400-e29b-41d4-a716-446655440000/snapshot"
    );
    assert_eq!(
        request.headers,
        vec![
            ("X-Api-Key".to_string(), "test-key".to_string()),
            (
                "Content-Type".to_string(),
                "application/x-protobuf".to_string()
            ),
        ]
    );
    let (result, attempts, _) = send(vec![Answer::Reply(200, vec![7])]);
    assert_eq!(result.expect("send should succeed"), 7);
    assert_eq!(attempts, 1);
}

#[test]
fn trailing_slashes_of_the_endpoint_are_dropped() {
    for endpoint in ["https://h", "https://h/", "https://h///"] {
        assert_eq!(
            snapshot_request(&test_config(endpoint)).url,
            "https://h/api/clusters/550e8400-e29b-41d4-a716-446655440000/snapshot"
        );
    }
    assert_eq!(
        snapshot_request(&test_config("//")).url,
        "/api/clusters/550e8400-e29b-41d4-a716-446655440000/snapshot"
    );
}

#[test]
fn unauthorized_fails_immediately_without_retrying() {
    let (result, attempts, waits) = send(vec![Answer::Reply(401, vec![])]);
    assert!(matches!(result, Err(SenderError::Unauthorized)));
    assert_eq!(attempts, 1);
    assert!(waits.is_empty());
}

#[test]
fn client_errors_fail_fast_without_burning_the_backoff() {
    // A revoked key (403) or unknown cluster (404) can never succeed on retry.
    for status in [400u16, 403, 404, 422] {
        let (result, attempts, waits) = send(vec![Answer::Reply(status, b"nope".to_vec())]);
        match result {
            Err(SenderError::ServerError { status: s, .. }) => assert_eq!(s, status),
            _ => panic!("{status} mapped to unexpected result"),
        }
        assert_eq!(attempts, 1);
        assert!(waits.is_empty());
    }
}

#[test]
fn server_errors_are_retried_until_the_strategy_is_exhausted() {
    let (result, attempts, waits) = send(vec![
        Answer::Reply(503, b"upstream down".to_vec()),
        Answer::Reply(503, b"upstream down".to_vec()),
        Answer::Reply(503, b"upstream down".to_vec()),
    ]);
    match result {
        Err(SenderError::ServerError { status, body }) => {
            assert_eq!(status, 503);
            assert_eq!(body, "upstream down");
        }
        _ => panic!("sustained 503 must fail"),
    }
    // 2 retries + the initial attempt.
    assert_eq!(attempts, 3);
    assert_eq!(waits, vec![5_000, 20_000]);
}

#[test]
fn a_success_after_a_transient_failure_is_returned() {
    let (result, attempts, _) = send(vec![
        Answer::Reply(500, vec![]),
        Answer::Reply(200, vec![2]),
    ]);
    assert_eq!(result.expect("should recover after one 500"), 2);
    assert_eq!(attempts, 2);
}

#[test]
fn undecodable_success_body_is_not_retried() {
    // A success whose body is not a response.
    let (result, attempts, _) = send(vec![Answer::Reply(200, vec![0xff; 8])]);
    assert!(matches!(result, Err(SenderError::Decode)));
    assert_eq!(attempts, 1);
}

#[test]
fn transport_errors_are_retried_and_reported() {
    let (result, attempts, _) = send(vec![Answer::Down, Answer::Down, Answer::Down]);
    match result {
        Err(SenderError::Reqwest(text)) => assert_eq!(text, "connection refused"),
        _ => panic!("an unreachable backend must fail"),
    }
    assert_eq!(attempts, 3);
    let (result, attempts, waits) =
        send(vec![Answer::Down, Answer::Reply(429, vec![]), Answer::Reply(204, vec![1])]);
    assert_eq!(result.expect("third attempt succeeds"), 1);
    assert_eq!(attempts, 3);
    assert_eq!(waits, vec![5_000, 20_000]);
}

#[test]
fn a_hopeless_failure_after_a_passing_one_ends_the_run() {
    let (result, attempts, waits) =
        send(vec![Answer::Reply(500, vec![]), Answer::Reply(401, vec![])]);
    assert!(matches!(result, Err(SenderError::Unauthorized)));
    assert_eq!(attempts, 2);
    assert_eq!(waits, vec![5_000]);
}

#[test]
fn statuses_are_classified() {
    assert_eq!(classify_status(401), ReplyKind::Unauthorized);
    assert_eq!(classify_status(200), ReplyKind::Success);
    assert_eq!(classify_status(299), ReplyKind::Success);
    assert_eq!(classify_status(199), ReplyKind::Failure);
    assert_eq!(classify_status(300), ReplyKind::Failure);
    assert_eq!(classify_status(500), ReplyKind::Failure);
}

#[test]
fn failed_replies_keep_a_bounded_body() {
    match failed_reply(502, "x".repeat(5000)) {
        RetryableError::Http { status, body } => {
            assert_eq!(status, 502);
            assert_eq!(body, format!("{}… (truncated)", "x".repeat(1024)));
        }
        _ => panic!("a failed reply is an HTTP error"),
    }
}

#[test]
fn error_messages_say_what_happened() {
    assert_eq!(
        SenderError::Reqwest("no route".to_string()).message(),
        "HTTP request failed: no route"
    );
    assert_eq!(
        SenderError::Unauthorized.message(),
        "Authentication failed (401). Check your KUBESAVINGS_API_KEY."
    );
    assert_eq!(
        SenderError::ServerError {
            status: 503,
            body: "down".to_string()
        }
        .message(),
        "Server error 503: down"
    );
    assert_eq!(
        SenderError::Decode.message(),
        "Failed to decode server response as protobuf"
    );
    assert_eq!(RetryableError::Unauthorized.message(), "Unauthorized (401)");
    assert_eq!(
        RetryableError::Decode.message(),
        "Failed to decode protobuf response"
    );
    assert_eq!(
        RetryableError::Http {
            status: 65535,
            body: "b".to_string()
        }
        .message(),
        "HTTP 65535: b"
    );
    assert_eq!(
        RetryableError::Http {
            status: 0,
            body: String::new()
        }
        .message(),
        "HTTP 0: "
    );
    assert_eq!(
        RetryableError::Reqwest("t".to_string()).message(),
        "Request error: t"
    );
}

#[test]
fn pauses_are_random_parts_of_the_backoff() {
    let mut seen: Vec<u64> = Vec::new();
    for after_ms in backoff_delays() {
        for _ in 0..500 {
            let pause = jittered_pause(after_ms);
            assert!(pause <= after_ms * 1_000_000, "{pause} ns of {after_ms} ms");
            seen.push(pause);
        }
    }
    assert_eq!(jittered_pause(0), 0);
    seen.sort();
    seen.dedup();
    assert!(seen.len() > 900, "{} of 1000 pauses differ", seen.len());
}
