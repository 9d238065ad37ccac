//! What holds of sending a snapshot.

use crate::config::ConfigModel;
use crate::config_laws::tells;
use crate::decimal::{all_digits, digits_value};
use crate::sender::{
    attempt_message, cut_to_bound, delay, kind_of_reply, longest_fit, numeral_text, reported_error,
    retryable, run, sender_message, snapshot_url, tries_again, wait_after, without_slashes,
    MAX_DELAY_MS, MAX_ERROR_BODY_BYTES, REQUEST_TIMEOUT_MS, AttemptErrorModel, SenderErrorModel,
};
use vstd::arithmetic::power::pow;
use vstd::prelude::*;
use vstd::utf8::encode_utf8;

verus! {

/// A failure to reach the server is always worth another attempt; a reply is, where its
/// status says that the server timed out, was asked too often or failed itself. A refused
/// key, a reply that cannot be read and any other status never are.
pub proof fn law_only_passing_failures_are_retried(status: u16, text: Seq<char>)
    ensures
        retryable(AttemptErrorModel::Reqwest(text)),
        !retryable(AttemptErrorModel::Unauthorized),
        !retryable(AttemptErrorModel::Decode),
        500 <= status <= 599 ==> retryable((AttemptErrorModel::Http { status, body: text })),
        retryable((AttemptErrorModel::Http { status: 408, body: text })),
        retryable((AttemptErrorModel::Http { status: 429, body: text })),
        status < 500 && status != 408 && status != 429 ==> !retryable(
            (AttemptErrorModel::Http { status, body: text }),
        ),
        status > 599 ==> !retryable((AttemptErrorModel::Http { status, body: text })),
{
}

/// The error of a run is that of its last attempt, with its status and body; two attempts
/// that fail differently are reported differently.
pub proof fn law_errors_are_reported_as_they_came(a: AttemptErrorModel, b: AttemptErrorModel)
    ensures
        reported_error(a) == reported_error(b) ==> a == b,
        a matches AttemptErrorModel::Http { status, body } ==> reported_error(a) == (
        SenderErrorModel::ServerError { status, body }),
        a matches AttemptErrorModel::Reqwest(text) ==> reported_error(a)
            == SenderErrorModel::Reqwest(text),
        a is Unauthorized ==> reported_error(a) is Unauthorized,
        a is Decode ==> reported_error(a) is Decode,
{
}

/// A numeral is made of digits that write its number, without zeros in front.
pub proof fn law_numerals_write_their_number(n: nat)
    ensures
        all_digits(numeral_text(n)),
        digits_value(numeral_text(n)) == n,
        numeral_text(n).len() > 0,
        n > 0 ==> numeral_text(n)[0] != '0',
        n == 0 ==> numeral_text(n) == seq!['0'],
    decreases n,
{
    if n < 10 {
        let text = numeral_text(n);
        assert(text.drop_last() == Seq::<char>::empty());
        reveal_with_fuel(digits_value, 2);
    } else {
        law_numerals_write_their_number(n / 10);
        let text = numeral_text(n);
        let before = numeral_text(n / 10);
        assert(text.drop_last() == before);
        assert forall|i: int| 0 <= i < text.len() implies crate::decimal::digit(text[i]) by {
            if i < before.len() {
                assert(text[i] == before[i]);
                assert(crate::decimal::digit(before[i]));
            }
        }
        assert(text[0] == before[0]);
    }
}

proof fn lemma_at_end(whole: Seq<char>, part: Seq<char>)
    requires
        whole.len() >= part.len(),
        whole.skip(whole.len() - part.len()) == part,
    ensures
        tells(whole, part),
{
    let i = whole.len() - part.len();
    assert(whole.subrange(i, i + part.len()) == part);
}

/// An error of the server tells its status and its body, and a failed request what went
/// wrong, both in the report and in the log.
pub proof fn law_messages_tell_what_went_wrong(status: u16, text: Seq<char>)
    ensures
        tells(
            sender_message((SenderErrorModel::ServerError { status, body: text })),
            numeral_text(status as nat),
        ),
        tells(sender_message((SenderErrorModel::ServerError { status, body: text })), text),
        tells(sender_message(SenderErrorModel::Reqwest(text)), text),
        tells(
            attempt_message((AttemptErrorModel::Http { status, body: text })),
            numeral_text(status as nat),
        ),
        tells(attempt_message((AttemptErrorModel::Http { status, body: text })), text),
        tells(attempt_message(AttemptErrorModel::Reqwest(text)), text),
{
    let n = numeral_text(status as nat);
    let report = sender_message((SenderErrorModel::ServerError { status, body: text }));
    let log = attempt_message((AttemptErrorModel::Http { status, body: text }));
    let a = "Server error "@.len() as int;
    let b = "HTTP "@.len() as int;
    assert(report.subrange(a, a + n.len()) == n);
    assert(log.subrange(b, b + n.len()) == n);
    assert(report.skip(report.len() - text.len()) == text);
    lemma_at_end(report, text);
    assert(log.skip(log.len() - text.len()) == text);
    lemma_at_end(log, text);
    let sent = sender_message(SenderErrorModel::Reqwest(text));
    assert(sent.skip(sent.len() - text.len()) == text);
    lemma_at_end(sent, text);
    let tried = attempt_message(AttemptErrorModel::Reqwest(text));
    assert(tried.skip(tried.len() - text.len()) == text);
    lemma_at_end(tried, text);
}

/// A body of at most 1024 bytes is kept as it is. Of a longer one as many whole characters
/// are kept as fit into 1024 bytes, followed by a mark.
pub proof fn law_long_bodies_are_cut_at_a_character(r: Seq<char>, body: Seq<char>)
    requires
        cut_to_bound(r, body),
    ensures
        encode_utf8(body).len() <= 1024 ==> r == body,
        encode_utf8(body).len() > 1024 ==> exists|k: int|
            0 <= k < body.len() && r == #[trigger] body.take(k) + "… (truncated)"@ && encode_utf8(
                body.take(k),
            ).len() <= 1024 && encode_utf8(body.take(k + 1)).len() > 1024,
{
    if encode_utf8(body).len() > 1024 {
        let k = choose|k: int| #[trigger]
            longest_fit(body, k) && r == body.take(k) + "… (truncated)"@;
        if k == body.len() {
            assert(body.take(k) == body);
        }
        assert(r == body.take(k) + "… (truncated)"@);
    }
}

/// Slashes at the end are all that is taken off, and all of them are.
pub proof fn law_only_trailing_slashes_are_taken_off(s: Seq<char>)
    ensures
        without_slashes(s).len() <= s.len(),
        without_slashes(s) == s.take(without_slashes(s).len() as int),
        forall|i: int| without_slashes(s).len() <= i < s.len() ==> #[trigger] s[i] == '/',
        without_slashes(s).len() > 0 ==> without_slashes(s).last() != '/',
    decreases s.len(),
{
    if s.len() > 0 && s.last() == '/' {
        let init = s.drop_last();
        law_only_trailing_slashes_are_taken_off(init);
        let n = without_slashes(s).len() as int;
        assert(init.take(n) == s.take(n));
        assert forall|i: int| n <= i < s.len() implies #[trigger] s[i] == '/' by {
            if i < init.len() {
                assert(init[i] == '/');
            }
        }
    } else {
        assert(s.take(s.len() as int) == s);
    }
}

/// Snapshots go to the path of their cluster below the endpoint, whether or not the
/// endpoint ends in slashes.
pub proof fn law_snapshots_go_below_the_endpoint(config: ConfigModel, more: ConfigModel)
    requires
        more.api_endpoint == config.api_endpoint.push('/'),
        more.cluster_id == config.cluster_id,
    ensures
        snapshot_url(more) == snapshot_url(config),
        config.api_endpoint.len() > 0 && config.api_endpoint.last() != '/' ==> snapshot_url(config)
            == config.api_endpoint + "/api/clusters/"@ + config.cluster_id + "/snapshot"@,
{
    assert(more.api_endpoint.drop_last() == config.api_endpoint);
}

/// A status of 401 means that the key was refused, one from 200 to 299 a success, and any
/// other a failure.
pub proof fn law_statuses_say_how_it_went(status: u16)
    ensures
        kind_of_reply(status) is Unauthorized <==> status == 401,
        kind_of_reply(status) is Success <==> 200 <= status <= 299,
        kind_of_reply(status) is Failure <==> status != 401 && (status < 200 || status > 299),
{
}

/// After the first failure the agent waits five seconds, after the second twenty; after
/// the third it gives up. It waits only for failures that may pass.
pub proof fn law_there_are_two_waits(failures: nat, e: AttemptErrorModel)
    ensures
        wait_after(0) == Some(5_000u64),
        wait_after(1) == Some(20_000u64),
        failures >= 2 ==> wait_after(failures as int) is None,
        tries_again(failures as int, e) <==> retryable(e) && failures < 2,
{
}

/// A delay is the base to the power of its retry, counted from one, times the factor,
/// and the longest one where that is more.
pub proof fn law_delays_grow_by_the_base(base: u64, factor: u64, max: u64, i: int)
    requires
        i >= 0,
    ensures
        delay(base, factor, max, i) == if pow(base as int, (i + 1) as nat) * factor <= max {
            pow(base as int, (i + 1) as nat) * factor
        } else {
            max as int
        },
        delay(base, factor, max, 0) == if base * factor <= max {
            base * factor
        } else {
            max as int
        },
{
    let p = pow(base as int, (i + 1) as nat);
    if p > u64::MAX {
        if factor == 0 {
            assert(p * factor == 0) by (nonlinear_arith)
                requires
                    factor == 0,
            ;
        } else {
            assert(p * factor >= p) by (nonlinear_arith)
                requires
                    factor >= 1,
                    p >= 0,
            ;
            assert(u64::MAX * factor >= u64::MAX) by (nonlinear_arith)
                requires
                    factor >= 1,
            ;
        }
    }
    vstd::arithmetic::power::lemma_pow1(base as int);
    let q = pow(base as int, 1);
    assert(q == base);
    assert(q * factor == base * factor);
}

/// An attempt has thirty seconds, a delay at most sixty, and 1024 bytes of an error body
/// are kept.
pub proof fn law_limits()
    ensures
        REQUEST_TIMEOUT_MS == 30_000,
        MAX_DELAY_MS == 60_000,
        MAX_ERROR_BODY_BYTES == 1024,
{
}

/// A run that meets a failure that cannot pass, or a success, ends there: what would have
/// followed plays no part.
pub proof fn law_runs_end_at_the_first_end(
    outcomes: Seq<Option<AttemptErrorModel>>,
    more: Seq<Option<AttemptErrorModel>>,
    failures: nat,
)
    requires
        outcomes.len() > 0,
        outcomes[0] matches Some(e) ==> !retryable(e),
    ensures
        run(outcomes + more, failures) == run(outcomes, failures),
        run(outcomes, failures).attempts == 1,
        run(outcomes, failures).waited_ms == 0,
        run(outcomes, failures).error is None <==> outcomes[0] is None,
{
    assert((outcomes + more)[0] == outcomes[0]);
}

} // verus!
