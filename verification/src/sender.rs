//! Sending a snapshot: the request, what a reply means, and when to try again.

use crate::config::{
    endpoint, endpoint_allowed, law_accepted_names_are_plain_segments, law_endpoint_is_an_origin,
    plain_segment, valid_cluster_id, web_parts, Config, ConfigModel, UrlModel,
};
use crate::text::chars_of;
use vstd::arithmetic::power::pow;
use vstd::prelude::*;
use vstd::utf8::{encode_scalar, encode_utf8};

verus! {

/// How long one attempt may take, in milliseconds.
pub const REQUEST_TIMEOUT_MS: u64 = 30_000;

/// The longest delay between two attempts, in milliseconds.
pub const MAX_DELAY_MS: u64 = 60_000;

/// How many bytes of an error body are kept, so that no endpoint can flood the logs.
pub const MAX_ERROR_BODY_BYTES: usize = 1024;

/// Why sending a snapshot failed. `Reqwest` carries what the HTTP client said.
#[derive(Debug)]
pub enum SenderError {
    Reqwest(String),
    Unauthorized,
    ServerError { status: u16, body: String },
    Decode,
}

/// [`SenderError`] as a mathematical value.
pub enum SenderErrorModel {
    Reqwest(Seq<char>),
    Unauthorized,
    ServerError { status: u16, body: Seq<char> },
    Decode,
}

/// Why one attempt failed. `Reqwest` carries what the HTTP client said.
#[derive(Debug)]
pub enum RetryableError {
    Unauthorized,
    Decode,
    Http { status: u16, body: String },
    Reqwest(String),
}

/// [`RetryableError`] as a mathematical value.
pub enum AttemptErrorModel {
    Unauthorized,
    Decode,
    Http { status: u16, body: Seq<char> },
    Reqwest(Seq<char>),
}

impl DeepView for SenderError {
    type V = SenderErrorModel;

    open spec fn deep_view(&self) -> SenderErrorModel {
        match self {
            SenderError::Reqwest(e) => SenderErrorModel::Reqwest(e@),
            SenderError::Unauthorized => SenderErrorModel::Unauthorized,
            SenderError::ServerError { status, body } => SenderErrorModel::ServerError {
                status: *status,
                body: body@,
            },
            SenderError::Decode => SenderErrorModel::Decode,
        }
    }
}

impl DeepView for RetryableError {
    type V = AttemptErrorModel;

    open spec fn deep_view(&self) -> AttemptErrorModel {
        match self {
            RetryableError::Unauthorized => AttemptErrorModel::Unauthorized,
            RetryableError::Decode => AttemptErrorModel::Decode,
            RetryableError::Http { status, body } => AttemptErrorModel::Http {
                status: *status,
                body: body@,
            },
            RetryableError::Reqwest(e) => AttemptErrorModel::Reqwest(e@),
        }
    }
}

/// Whether a status is worth another attempt: request timeout, rate limit, and any
/// server error.
pub open spec fn retryable_status(status: u16) -> bool {
    status == 408 || status == 429 || 500 <= status < 600
}

/// Whether a failed attempt is worth another one. A transport error always is; a
/// refused key and a reply that cannot be decoded never are.
pub open spec fn retryable(e: AttemptErrorModel) -> bool {
    match e {
        AttemptErrorModel::Reqwest(_) => true,
        AttemptErrorModel::Http { status, .. } => retryable_status(status),
        AttemptErrorModel::Unauthorized => false,
        AttemptErrorModel::Decode => false,
    }
}

/// How the error of the last attempt is reported.
pub open spec fn reported_error(e: AttemptErrorModel) -> SenderErrorModel {
    match e {
        AttemptErrorModel::Unauthorized => SenderErrorModel::Unauthorized,
        AttemptErrorModel::Decode => SenderErrorModel::Decode,
        AttemptErrorModel::Http { status, body } => SenderErrorModel::ServerError { status, body },
        AttemptErrorModel::Reqwest(e) => SenderErrorModel::Reqwest(e),
    }
}

/// The decimal numeral of `n`.
pub open spec fn numeral_text(n: nat) -> Seq<char>
    decreases n,
{
    if n < 10 {
        seq![('0' as int + n) as char]
    } else {
        numeral_text(n / 10).push(('0' as int + n % 10) as char)
    }
}

/// What an error tells the operator.
pub open spec fn sender_message(e: SenderErrorModel) -> Seq<char> {
    match e {
        SenderErrorModel::Reqwest(text) => "HTTP request failed: "@ + text,
        SenderErrorModel::Unauthorized =>
            "Authentication failed (401). Check your KUBESAVINGS_API_KEY."@,
        SenderErrorModel::ServerError { status, body } => "Server error "@ + numeral_text(
            status as nat,
        ) + ": "@ + body,
        SenderErrorModel::Decode => "Failed to decode server response as protobuf"@,
    }
}

/// What a failed attempt says in the log.
pub open spec fn attempt_message(e: AttemptErrorModel) -> Seq<char> {
    match e {
        AttemptErrorModel::Unauthorized => "Unauthorized (401)"@,
        AttemptErrorModel::Decode => "Failed to decode protobuf response"@,
        AttemptErrorModel::Http { status, body } => "HTTP "@ + numeral_text(status as nat) + ": "@
            + body,
        AttemptErrorModel::Reqwest(text) => "Request error: "@ + text,
    }
}

fn digit_text(d: u16) -> (r: &'static str)
    requires
        d < 10,
    ensures
        r@ == seq![('0' as int + d) as char],
{
    proof {
        reveal_strlit("0");
        reveal_strlit("1");
        reveal_strlit("2");
        reveal_strlit("3");
        reveal_strlit("4");
        reveal_strlit("5");
        reveal_strlit("6");
        reveal_strlit("7");
        reveal_strlit("8");
        reveal_strlit("9");
    }
    let r: &'static str = if d == 0 {
        "0"
    } else if d == 1 {
        "1"
    } else if d == 2 {
        "2"
    } else if d == 3 {
        "3"
    } else if d == 4 {
        "4"
    } else if d == 5 {
        "5"
    } else if d == 6 {
        "6"
    } else if d == 7 {
        "7"
    } else if d == 8 {
        "8"
    } else {
        "9"
    };
    assert(r@ =~= seq![('0' as int + d) as char]);
    r
}

fn number_text(n: u16) -> (r: String)
    ensures
        r@ == numeral_text(n as nat),
    decreases n,
{
    if n < 10 {
        digit_text(n).to_owned()
    } else {
        let before = number_text(n / 10);
        let r = before.concat(digit_text(n % 10));
        assert(r@ =~= numeral_text((n / 10) as nat).push(('0' as int + n % 10) as char));
        r
    }
}

impl SenderError {
    /// What the error tells the operator.
    pub fn message(&self) -> (r: String)
        ensures
            r@ == sender_message(self.deep_view()),
    {
        match self {
            SenderError::Reqwest(text) => String::from_str("HTTP request failed: ").concat(
                text.as_str(),
            ),
            SenderError::Unauthorized => String::from_str(
                "Authentication failed (401). Check your KUBESAVINGS_API_KEY.",
            ),
            SenderError::ServerError { status, body } => String::from_str("Server error ").concat(
                number_text(*status).as_str(),
            ).concat(": ").concat(body.as_str()),
            SenderError::Decode => String::from_str("Failed to decode server response as protobuf"),
        }
    }
}

/// Whether a status is worth another attempt.
///
/// Everything else in the 4xx range is a defect on this side that no retry will fix.
pub fn is_retryable_status(status: u16) -> (r: bool)
    ensures
        r == retryable_status(status),
{
    status == 408 || status == 429 || (500 <= status && status < 600)
}

impl RetryableError {
    /// Whether the failure is worth another attempt.
    pub fn is_retryable(&self) -> (r: bool)
        ensures
            r == retryable(self.deep_view()),
    {
        match self {
            RetryableError::Reqwest(_) => true,
            RetryableError::Http { status, .. } => is_retryable_status(*status),
            RetryableError::Unauthorized => false,
            RetryableError::Decode => false,
        }
    }

    /// What the failure says in the log.
    pub fn message(&self) -> (r: String)
        ensures
            r@ == attempt_message(self.deep_view()),
    {
        match self {
            RetryableError::Unauthorized => String::from_str("Unauthorized (401)"),
            RetryableError::Decode => String::from_str("Failed to decode protobuf response"),
            RetryableError::Http { status, body } => String::from_str("HTTP ").concat(
                number_text(*status).as_str(),
            ).concat(": ").concat(body.as_str()),
            RetryableError::Reqwest(text) => String::from_str("Request error: ").concat(
                text.as_str(),
            ),
        }
    }

    /// How the failure of the last attempt is reported.
    pub fn into_sender_error(self) -> (r: SenderError)
        ensures
            r.deep_view() == reported_error(self.deep_view()),
    {
        match self {
            RetryableError::Unauthorized => SenderError::Unauthorized,
            RetryableError::Decode => SenderError::Decode,
            RetryableError::Http { status, body } => SenderError::ServerError { status, body },
            RetryableError::Reqwest(text) => SenderError::Reqwest(text),
        }
    }
}

/// `n`, at most the largest `u64`.
pub open spec fn saturated(n: int) -> int {
    if n <= u64::MAX {
        n
    } else {
        u64::MAX as int
    }
}

/// The delay before retry `i`, counted from zero: the base to the power of `i + 1`
/// times the factor, at most `max`.
pub open spec fn delay(base: u64, factor: u64, max: u64, i: int) -> int {
    let d = saturated(saturated(pow(base as int, (i + 1) as nat)) * factor);
    if d <= max {
        d
    } else {
        max as int
    }
}

/// The first `n` delays of `tokio_retry::strategy::ExponentialBackoff`, made by
/// `from_millis`, `factor` and `max_delay`, in milliseconds. Its products saturate.
#[verifier::external_body]
fn exponential_delays(base: u64, factor: u64, max: u64, n: usize) -> (r: Vec<u64>)
    requires
        n <= 64,
    ensures
        r@.len() == n,
        forall|i: int| 0 <= i < n ==> #[trigger] r@[i] == delay(base, factor, max, i),
{
    tokio_retry::strategy::ExponentialBackoff::from_millis(base)
        .factor(factor)
        .max_delay(std::time::Duration::from_millis(max))
        .take(n)
        .map(|d| d.as_millis() as u64)
        .collect()
}

/// The delays between attempts in milliseconds, without jitter: five seconds, then
/// twenty.
///
/// Two retries after the first attempt make three attempts in all.
pub fn backoff_delays() -> (r: Vec<u64>)
    ensures
        r@ == seq![5_000u64, 20_000u64],
{
    let r = exponential_delays(4, 1_250, MAX_DELAY_MS, 2);
    proof {
        reveal_with_fuel(pow, 3);
        assert(pow(4, 1) == 4);
        assert(pow(4, 2) == 16);
        assert(r@[0] == delay(4, 1_250, MAX_DELAY_MS, 0));
        assert(r@[1] == delay(4, 1_250, MAX_DELAY_MS, 1));
        assert(r@ =~= seq![5_000u64, 20_000u64]);
    }
    r
}

/// `tokio_retry::strategy::jitter` of a number of milliseconds, in nanoseconds: the
/// duration times a random number from zero up to one, rounded to a nanosecond. That
/// is at most the duration, as one of a minute or less is exact to the nanosecond.
#[verifier::external_body]
fn jitter(ms: u64) -> (r: u64)
    requires
        ms <= MAX_DELAY_MS,
    ensures
        r <= ms * 1_000_000,
{
    tokio_retry::strategy::jitter(std::time::Duration::from_millis(ms)).as_nanos() as u64
}

/// How many nanoseconds to pause where the backoff asks for `after_ms` milliseconds:
/// a random part of them, so that agents that failed together do not return together.
pub fn jittered_pause(after_ms: u64) -> (r: u64)
    requires
        after_ms <= MAX_DELAY_MS,
    ensures
        r <= after_ms * 1_000_000,
{
    jitter(after_ms)
}

/// Whether the first `k` characters of `body` are the most that fit into the bound.
pub open spec fn longest_fit(body: Seq<char>, k: int) -> bool {
    &&& 0 <= k <= body.len()
    &&& encode_utf8(body.take(k)).len() <= MAX_ERROR_BODY_BYTES
    &&& k < body.len() ==> encode_utf8(body.take(k + 1)).len() > MAX_ERROR_BODY_BYTES
}

/// Whether `r` is `body` cut to the bound: as it is where it fits, else as many
/// characters as fit and a mark.
pub open spec fn cut_to_bound(r: Seq<char>, body: Seq<char>) -> bool {
    if encode_utf8(body).len() <= MAX_ERROR_BODY_BYTES {
        r == body
    } else {
        exists|k: int| #[trigger] longest_fit(body, k) && r == body.take(k) + "… (truncated)"@
    }
}

proof fn lemma_encode_concat(a: Seq<char>, b: Seq<char>)
    ensures
        encode_utf8(a + b) == encode_utf8(a) + encode_utf8(b),
    decreases a.len(),
{
    if a.len() == 0 {
        assert(a + b == b);
        assert(encode_utf8(a) + encode_utf8(b) == encode_utf8(b));
    } else {
        let rest = a.drop_first();
        lemma_encode_concat(rest, b);
        assert((a + b).drop_first() == rest + b);
        assert((a + b)[0] == a[0]);
        assert(encode_scalar(a[0] as u32) + (encode_utf8(rest) + encode_utf8(b)) == (encode_scalar(
            a[0] as u32,
        ) + encode_utf8(rest)) + encode_utf8(b));
    }
}

proof fn lemma_encode_one(c: char)
    ensures
        encode_utf8(seq![c]) == encode_scalar(c as u32),
{
    let s = seq![c];
    assert(s.drop_first() == Seq::<char>::empty());
    assert(encode_utf8(s.drop_first()) == Seq::<u8>::empty());
    assert(encode_scalar(c as u32) + Seq::<u8>::empty() == encode_scalar(c as u32));
}

/// How many bytes a character takes.
fn encoded_len(c: char) -> (r: usize)
    ensures
        r == encode_scalar(c as u32).len(),
        1 <= r <= 4,
{
    let u: u32 = c as u32;
    if u <= 0x7f {
        1
    } else if u <= 0x7ff {
        2
    } else if u <= 0xffff {
        3
    } else {
        4
    }
}

/// Cuts a body that a server supplied to a bounded size. No character is split.
pub fn truncate_body(body: String) -> (r: String)
    ensures
        cut_to_bound(r@, body@),
{
    let chars = chars_of(body.as_str());
    let n: usize = chars.len();
    let mut k: usize = 0;
    let mut bytes: usize = 0;
    assert(body@.take(0) == Seq::<char>::empty());
    while k < n
        invariant
            k <= n == chars@.len(),
            chars@ == body@,
            bytes == encode_utf8(body@.take(k as int)).len(),
            bytes <= MAX_ERROR_BODY_BYTES,
        decreases n - k,
    {
        let more: usize = encoded_len(chars[k]);
        proof {
            let c = chars@[k as int];
            assert(body@.take(k + 1) == body@.take(k as int) + seq![c]);
            lemma_encode_concat(body@.take(k as int), seq![c]);
            lemma_encode_one(c);
        }
        if bytes + more > MAX_ERROR_BODY_BYTES {
            let kept: &str = body.as_str().substring_char(0, k);
            proof {
                assert(body@.subrange(0, k as int) == body@.take(k as int));
                assert(longest_fit(body@, k as int));
                assert(body@ == body@.take(k + 1) + body@.skip(k + 1));
                lemma_encode_concat(body@.take(k + 1), body@.skip(k + 1));
            }
            return kept.to_owned().concat("… (truncated)");
        }
        bytes = bytes + more;
        k += 1;
    }
    assert(body@.take(n as int) == body@);
    body
}

/// `s` without the slashes at its end.
pub open spec fn without_slashes(s: Seq<char>) -> Seq<char>
    decreases s.len(),
{
    if s.len() > 0 && s.last() == '/' {
        without_slashes(s.drop_last())
    } else {
        s
    }
}

/// Where the snapshots of a cluster are sent.
pub open spec fn snapshot_url(config: ConfigModel) -> Seq<char> {
    without_slashes(config.api_endpoint) + "/api/clusters/"@ + config.cluster_id + "/snapshot"@
}

/// A request: where it goes and the headers it carries.
pub struct SnapshotRequest {
    pub url: String,
    pub headers: Vec<(String, String)>,
}

/// The request that carries a snapshot, apart from its body.
pub fn snapshot_request(config: &Config) -> (r: SnapshotRequest)
    ensures
        r.url@ == snapshot_url(config.deep_view()),
        r.headers.deep_view() == seq![
            ("X-Api-Key"@, config.api_key@),
            ("Content-Type"@, "application/x-protobuf"@),
        ],
{
    let chars = chars_of(config.api_endpoint.as_str());
    let mut end: usize = chars.len();
    assert(config.api_endpoint@.take(end as int) == config.api_endpoint@);
    while end > 0 && chars[end - 1] == '/'
        invariant
            end <= chars@.len(),
            chars@ == config.api_endpoint@,
            without_slashes(config.api_endpoint@) == without_slashes(
                config.api_endpoint@.take(end as int),
            ),
        decreases end,
    {
        assert(config.api_endpoint@.take(end as int).drop_last() == config.api_endpoint@.take(
            end - 1,
        ));
        end -= 1;
    }
    let base: &str = config.api_endpoint.as_str().substring_char(0, end);
    assert(config.api_endpoint@.subrange(0, end as int) == config.api_endpoint@.take(end as int));
    let url: String = base.to_owned().concat("/api/clusters/").concat(
        config.cluster_id.as_str(),
    ).concat("/snapshot");
    let mut headers: Vec<(String, String)> = Vec::new();
    headers.push(("X-Api-Key".to_owned(), config.api_key.clone()));
    headers.push(("Content-Type".to_owned(), "application/x-protobuf".to_owned()));
    assert(headers.deep_view() =~= seq![
        ("X-Api-Key"@, config.api_key@),
        ("Content-Type"@, "application/x-protobuf"@),
    ]);
    SnapshotRequest { url, headers }
}

/// What the status of a reply says: the key was refused, the body holds the
/// backend's response, or the body tells what went wrong.
#[derive(Clone, Copy, Debug, PartialEq, Eq, Structural)]
pub enum ReplyKind {
    Unauthorized,
    Success,
    Failure,
}

/// What a status says.
pub open spec fn kind_of_reply(status: u16) -> ReplyKind {
    if status == 401 {
        ReplyKind::Unauthorized
    } else if 200 <= status < 300 {
        ReplyKind::Success
    } else {
        ReplyKind::Failure
    }
}

/// Tells what the status of a reply says.
pub fn classify_status(status: u16) -> (r: ReplyKind)
    ensures
        r == kind_of_reply(status),
{
    if status == 401 {
        ReplyKind::Unauthorized
    } else if 200 <= status && status < 300 {
        ReplyKind::Success
    } else {
        ReplyKind::Failure
    }
}

/// The error of a reply that is neither a success nor a refused key.
pub fn failed_reply(status: u16, text: String) -> (r: RetryableError)
    ensures
        r matches RetryableError::Http { status: s, body } && s == status && cut_to_bound(
            body@,
            text@,
        ),
{
    RetryableError::Http { status, body: truncate_body(text) }
}

/// Where sending stands: how many attempts have failed so far.
#[derive(Clone, Copy, Debug, PartialEq, Eq, Structural)]
pub struct SendState {
    pub failures: usize,
}

/// What to do after an attempt: end with a result, or wait and try again.
pub enum SendAction<R> {
    Finish(Result<R, SenderError>),
    Retry { next: SendState, after_ms: u64 },
}

/// How many milliseconds to wait after `failures` earlier failures and one more.
/// `None` where no attempt is left.
pub open spec fn wait_after(failures: int) -> Option<u64> {
    if failures == 0 {
        Some(5_000)
    } else if failures == 1 {
        Some(20_000)
    } else {
        None
    }
}

/// Whether another attempt follows a failure.
pub open spec fn tries_again(failures: int, e: AttemptErrorModel) -> bool {
    retryable(e) && wait_after(failures) is Some
}

impl SendState {
    /// Before the first attempt.
    pub fn start() -> (r: SendState)
        ensures
            r.failures == 0,
    {
        SendState { failures: 0 }
    }

    /// Decides what follows an attempt.
    pub fn step<R>(self, outcome: Result<R, RetryableError>) -> (r: SendAction<R>)
        ensures
            match outcome {
                Ok(response) => r == SendAction::<R>::Finish(Ok(response)),
                Err(e) => if tries_again(self.failures as int, e.deep_view()) {
                    &&& r matches SendAction::Retry { next, after_ms }
                    &&& next.failures == self.failures + 1
                    &&& Some(after_ms) == wait_after(self.failures as int)
                } else {
                    &&& r matches SendAction::Finish(Err(reported))
                    &&& reported.deep_view() == reported_error(e.deep_view())
                },
            },
    {
        match outcome {
            Ok(response) => SendAction::Finish(Ok(response)),
            Err(e) => {
                let delays = backoff_delays();
                if e.is_retryable() && self.failures < delays.len() {
                    let after_ms: u64 = delays[self.failures];
                    SendAction::Retry { next: SendState { failures: self.failures + 1 }, after_ms }
                } else {
                    SendAction::Finish(Err(e.into_sender_error()))
                }
            },
        }
    }
}

/// What a whole run of attempts comes to: how many were made, how long the waits
/// between them were, and how it ended (`None` where the backend accepted).
pub struct RunModel {
    pub attempts: nat,
    pub waited_ms: nat,
    pub error: Option<SenderErrorModel>,
}

/// The run that follows after `failures` failed attempts, where attempt `i` from
/// here on ends as `outcomes[i]` says (`None` for a success).
pub open spec fn run(outcomes: Seq<Option<AttemptErrorModel>>, failures: nat) -> RunModel
    decreases outcomes.len(),
{
    if outcomes.len() == 0 {
        RunModel { attempts: 0, waited_ms: 0, error: None }
    } else {
        match outcomes[0] {
            None => RunModel { attempts: 1, waited_ms: 0, error: None },
            Some(e) => if tries_again(failures as int, e) {
                let rest = run(outcomes.skip(1), failures + 1);
                RunModel {
                    attempts: rest.attempts + 1,
                    waited_ms: rest.waited_ms + wait_after(failures as int)->0 as nat,
                    error: rest.error,
                }
            } else {
                RunModel { attempts: 1, waited_ms: 0, error: Some(reported_error(e)) }
            },
        }
    }
}

proof fn lemma_run_bounds(outcomes: Seq<Option<AttemptErrorModel>>, failures: nat)
    ensures
        failures <= 2 ==> run(outcomes, failures).attempts <= 3 - failures,
        failures > 2 ==> run(outcomes, failures).attempts <= 1,
        failures == 0 ==> run(outcomes, failures).waited_ms <= 25_000,
        failures == 1 ==> run(outcomes, failures).waited_ms <= 20_000,
        failures >= 2 ==> run(outcomes, failures).waited_ms == 0,
    decreases outcomes.len(),
{
    if outcomes.len() > 0 {
        lemma_run_bounds(outcomes.skip(1), failures + 1);
    }
}

/// However the attempts go, there are at most three, the waits between them stay
/// within 25 seconds, and the whole, every attempt taking its full time, ends
/// within the 300 seconds that a job has.
pub proof fn law_run_fits_the_deadline(outcomes: Seq<Option<AttemptErrorModel>>)
    ensures
        run(outcomes, 0).attempts <= 3,
        run(outcomes, 0).waited_ms <= 25_000,
        run(outcomes, 0).waited_ms + run(outcomes, 0).attempts * REQUEST_TIMEOUT_MS < 300_000,
{
    lemma_run_bounds(outcomes, 0);
}

/// A failure that no retry can mend ends the run at once: one attempt, no wait, and
/// its own error.
pub proof fn law_hopeless_failures_end_the_run(
    outcomes: Seq<Option<AttemptErrorModel>>,
    e: AttemptErrorModel,
)
    requires
        outcomes.len() > 0,
        outcomes[0] == Some(e),
        !retryable(e),
    ensures
        run(outcomes, 0) == (RunModel {
            attempts: 1,
            waited_ms: 0,
            error: Some(reported_error(e)),
        }),
{
}

/// Failures that may pass are retried until the third attempt, whose error is
/// reported.
pub proof fn law_passing_failures_are_retried(outcomes: Seq<Option<AttemptErrorModel>>)
    requires
        outcomes.len() >= 3,
        forall|i: int| 0 <= i < 3 ==> (#[trigger] outcomes[i]) is Some && retryable(outcomes[i]->0),
    ensures
        run(outcomes, 0) == (RunModel {
            attempts: 3,
            waited_ms: 25_000,
            error: Some(reported_error(outcomes[2]->0)),
        }),
{
    let one = outcomes.skip(1);
    let two = one.skip(1);
    assert(outcomes[0] is Some && outcomes[1] is Some && outcomes[2] is Some);
    assert(one[0] == outcomes[1]);
    assert(two[0] == outcomes[2]);
    assert(run(two, 2).attempts == 1);
    assert(run(one, 1).attempts == 2);
}

/// A success after failures that may pass is the result of the run.
pub proof fn law_success_after_passing_failures(
    outcomes: Seq<Option<AttemptErrorModel>>,
    failed: int,
)
    requires
        0 <= failed <= 2,
        outcomes.len() > failed,
        forall|i: int|
            0 <= i < failed ==> (#[trigger] outcomes[i]) is Some && retryable(outcomes[i]->0),
        outcomes[failed] is None,
    ensures
        run(outcomes, 0).attempts == failed + 1,
        run(outcomes, 0).error is None,
{
    let one = outcomes.skip(1);
    let two = one.skip(1);
    if failed == 1 {
        assert(outcomes[0] is Some);
        assert(one[0] == outcomes[1]);
        assert(run(one, 1).attempts == 1 && run(one, 1).error is None);
    }
    if failed == 2 {
        assert(outcomes[0] is Some && outcomes[1] is Some);
        assert(one[0] == outcomes[1]);
        assert(two[0] == outcomes[2]);
        assert(run(two, 2).attempts == 1 && run(two, 2).error is None);
        assert(run(one, 1).attempts == 2 && run(one, 1).error is None);
    }
}

/// Every request of an accepted configuration goes to the snapshots of its cluster at
/// its endpoint: the URL is the scheme, an authority and that path, and no part of a
/// setting reaches beyond its place in it.
pub proof fn law_requests_stay_on_the_cluster_path(u: UrlModel, config: ConfigModel)
    requires
        endpoint_allowed(u),
        web_parts(u),
        endpoint(Some(u)) == Some(config.api_endpoint),
        valid_cluster_id(config.cluster_id),
    ensures
        exists|authority: Seq<char>|
            #![trigger u.scheme + "://"@ + authority]
            !authority.contains('/') && !authority.contains('?') && !authority.contains('#')
                && snapshot_url(config) == u.scheme + "://"@ + authority + "/api/clusters/"@
                + config.cluster_id + "/snapshot"@,
        plain_segment(config.cluster_id),
{
    law_endpoint_is_an_origin(u);
    law_accepted_names_are_plain_segments(config.cluster_id);
    let authority = choose|authority: Seq<char>|
        #![trigger u.scheme + "://"@ + authority]
        endpoint(Some(u)) == Some(u.scheme + "://"@ + authority) && authority.len() > 0
            && !authority.contains('/') && !authority.contains('?') && !authority.contains('#');
    assert(authority.contains(authority.last()));
    assert(config.api_endpoint.last() == authority.last());
}

/// The sum of `pauses`.
pub open spec fn total(pauses: Seq<nat>) -> nat
    decreases pauses.len(),
{
    if pauses.len() == 0 {
        0
    } else {
        total(pauses.drop_last()) + pauses.last()
    }
}

/// Jitter only shortens a run: where pause `i`, in nanoseconds, is drawn from the
/// wait after `i` failures, the pauses together are at most the waits of the run, and
/// the whole still ends within the 300 seconds that a job has.
pub proof fn law_jitter_only_shortens(outcomes: Seq<Option<AttemptErrorModel>>, pauses: Seq<nat>)
    requires
        pauses.len() + 1 == run(outcomes, 0).attempts,
        forall|i: int|
            0 <= i < pauses.len() ==> (#[trigger] pauses[i]) <= wait_after(i)->0 * 1_000_000,
    ensures
        total(pauses) <= run(outcomes, 0).waited_ms * 1_000_000,
        total(pauses) + run(outcomes, 0).attempts * REQUEST_TIMEOUT_MS * 1_000_000
            < 300_000_000_000,
{
    reveal_with_fuel(total, 3);
    reveal_with_fuel(run, 3);
    let one = outcomes.skip(1);
    lemma_run_bounds(outcomes, 0);
    lemma_run_bounds(one, 1);
    lemma_run_bounds(one.skip(1), 2);
    assert(wait_after(0) == Some(5_000u64) && wait_after(1) == Some(20_000u64));
    assert(pauses.len() >= 1 ==> pauses[0] <= 5_000_000_000);
    assert(pauses.len() == 2 ==> pauses[1] <= 20_000_000_000);
}

/// What is kept of a body stays within the bound and its mark, whatever the server sent.
pub proof fn law_kept_bodies_are_bounded(r: Seq<char>, body: Seq<char>)
    requires
        cut_to_bound(r, body),
    ensures
        encode_utf8(r).len() < MAX_ERROR_BODY_BYTES + 32,
{
    if encode_utf8(body).len() > MAX_ERROR_BODY_BYTES {
        let k = choose|k: int| #[trigger]
            longest_fit(body, k) && r == body.take(k) + "… (truncated)"@;
        lemma_encode_concat(body.take(k), "… (truncated)"@);
        lemma_mark_bytes();
    }
}

proof fn lemma_encode_at_most(s: Seq<char>)
    ensures
        encode_utf8(s).len() <= 4 * s.len(),
    decreases s.len(),
{
    if s.len() > 0 {
        lemma_encode_at_most(s.drop_first());
    }
}

proof fn lemma_mark_bytes()
    ensures
        encode_utf8("… (truncated)"@).len() < 32,
{
    reveal_strlit("… (truncated)");
    let mark = "… (truncated)"@;
    let head = mark.take(1);
    let tail = mark.skip(1);
    assert(mark == head + tail);
    lemma_encode_concat(head, tail);
    lemma_encode_at_most(head);
    assert(tail.len() == 12);
    assert forall|i: int| 0 <= i < tail.len() implies (#[trigger] tail[i]) as u32 <= 0x7f by {}
    lemma_encode_ascii(tail);
}

proof fn lemma_encode_ascii(s: Seq<char>)
    requires
        forall|i: int| 0 <= i < s.len() ==> (#[trigger] s[i]) as u32 <= 0x7f,
    ensures
        encode_utf8(s).len() == s.len(),
    decreases s.len(),
{
    if s.len() > 0 {
        let rest = s.drop_first();
        assert forall|i: int| 0 <= i < rest.len() implies (#[trigger] rest[i]) as u32 <= 0x7f by {
            assert(rest[i] == s[i + 1]);
        }
        lemma_encode_ascii(rest);
    }
}

} // verus!
