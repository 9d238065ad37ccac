//! What holds of configurations.

use crate::config::{
    all_quoted, cluster_id_char, configured, csv_entries, debug_quoted, endpoint, endpoint_text,
    error_message, excluded, first_invalid, included, label_char,
    law_csv_reads_back_what_was_joined, missing, pieces, shown, trimmed_texts, url_head,
    url_origin, url_parts, valid_cluster_id, valid_namespace, ConfigErrorModel, ConfigModel,
    Environment, UrlModel,
};
use crate::text::{joined, trim, white_space};
use crate::text_laws::law_trimming_takes_only_white_space;
use vstd::prelude::*;

verus! {

/// An endpoint is accepted exactly where it is a URL with the scheme `https`, or one with
/// the scheme `http` whose host is `localhost` or `127.0.0.1`; it then is the origin.
pub proof fn law_plain_http_stays_on_this_machine(u: UrlModel)
    ensures
        endpoint(None) is None,
        endpoint(Some(u)) is Some <==> u.scheme == "https"@ || (u.scheme == "http"@ && (u.host
            == Some("localhost"@) || u.host == Some("127.0.0.1"@))),
        endpoint(Some(u)) matches Some(e) ==> e == u.origin,
{
}

/// A text that parses as a URL has its scheme and host, and its origin where the scheme is
/// one of the web; a text that does not parse has none.
pub proof fn law_urls_are_read_by_their_parts(
    raw: Seq<char>,
    scheme: Seq<char>,
    host: Option<Seq<char>>,
)
    ensures
        url_head(raw) is None ==> url_parts(raw) is None,
        url_head(raw) == Some((scheme, host)) ==> (url_parts(raw) matches Some(u) && u.scheme
            == scheme && u.host == host && (scheme == "http"@ || scheme == "https"@ ==> u.origin
            == url_origin(raw)) && (scheme != "http"@ && scheme != "https"@ ==> u.origin.len()
            == 0)),
{
}

/// A required variable is missing where it is not set, or holds nothing but white space.
pub proof fn law_blank_variables_are_missing(value: String)
    ensures
        missing(None),
        missing(Some(value)) <==> forall|i: int|
            0 <= i < value@.len() ==> white_space(#[trigger] value@[i]),
{
    let s = value@;
    law_trimming_takes_only_white_space(s);
    let (i, j) = choose|i: int, j: int|
        0 <= i <= j <= s.len() && trim(s) == #[trigger] s.subrange(i, j) && (forall|k: int|
            0 <= k < i || j <= k < s.len() ==> white_space(#[trigger] s[k]));
    if trim(s).len() > 0 {
        assert(!white_space(s[i]));
    }
}

proof fn lemma_cluster_id_chars(c: char)
    ensures
        cluster_id_char(c) <==> "0123456789abcdefABCDEF-"@.contains(c),
{
    reveal_strlit("0123456789abcdefABCDEF-");
    let all = "0123456789abcdefABCDEF-"@;
    if cluster_id_char(c) {
        if c == '0' {
            assert(all[0] == c);
        } else if c == '1' {
            assert(all[1] == c);
        } else if c == '2' {
            assert(all[2] == c);
        } else if c == '3' {
            assert(all[3] == c);
        } else if c == '4' {
            assert(all[4] == c);
        } else if c == '5' {
            assert(all[5] == c);
        } else if c == '6' {
            assert(all[6] == c);
        } else if c == '7' {
            assert(all[7] == c);
        } else if c == '8' {
            assert(all[8] == c);
        } else if c == '9' {
            assert(all[9] == c);
        } else if c == 'a' {
            assert(all[10] == c);
        } else if c == 'b' {
            assert(all[11] == c);
        } else if c == 'c' {
            assert(all[12] == c);
        } else if c == 'd' {
            assert(all[13] == c);
        } else if c == 'e' {
            assert(all[14] == c);
        } else if c == 'f' {
            assert(all[15] == c);
        } else if c == 'A' {
            assert(all[16] == c);
        } else if c == 'B' {
            assert(all[17] == c);
        } else if c == 'C' {
            assert(all[18] == c);
        } else if c == 'D' {
            assert(all[19] == c);
        } else if c == 'E' {
            assert(all[20] == c);
        } else if c == 'F' {
            assert(all[21] == c);
        } else if c == '-' {
            assert(all[22] == c);
        }
    }
}

proof fn lemma_label_chars(c: char)
    ensures
        label_char(c) <==> "abcdefghijklmnopqrstuvwxyz0123456789-"@.contains(c),
{
    reveal_strlit("abcdefghijklmnopqrstuvwxyz0123456789-");
    let all = "abcdefghijklmnopqrstuvwxyz0123456789-"@;
    if label_char(c) {
        if c == 'a' {
            assert(all[0] == c);
        } else if c == 'b' {
            assert(all[1] == c);
        } else if c == 'c' {
            assert(all[2] == c);
        } else if c == 'd' {
            assert(all[3] == c);
        } else if c == 'e' {
            assert(all[4] == c);
        } else if c == 'f' {
            assert(all[5] == c);
        } else if c == 'g' {
            assert(all[6] == c);
        } else if c == 'h' {
            assert(all[7] == c);
        } else if c == 'i' {
            assert(all[8] == c);
        } else if c == 'j' {
            assert(all[9] == c);
        } else if c == 'k' {
            assert(all[10] == c);
        } else if c == 'l' {
            assert(all[11] == c);
        } else if c == 'm' {
            assert(all[12] == c);
        } else if c == 'n' {
            assert(all[13] == c);
        } else if c == 'o' {
            assert(all[14] == c);
        } else if c == 'p' {
            assert(all[15] == c);
        } else if c == 'q' {
            assert(all[16] == c);
        } else if c == 'r' {
            assert(all[17] == c);
        } else if c == 's' {
            assert(all[18] == c);
        } else if c == 't' {
            assert(all[19] == c);
        } else if c == 'u' {
            assert(all[20] == c);
        } else if c == 'v' {
            assert(all[21] == c);
        } else if c == 'w' {
            assert(all[22] == c);
        } else if c == 'x' {
            assert(all[23] == c);
        } else if c == 'y' {
            assert(all[24] == c);
        } else if c == 'z' {
            assert(all[25] == c);
        } else if c == '0' {
            assert(all[26] == c);
        } else if c == '1' {
            assert(all[27] == c);
        } else if c == '2' {
            assert(all[28] == c);
        } else if c == '3' {
            assert(all[29] == c);
        } else if c == '4' {
            assert(all[30] == c);
        } else if c == '5' {
            assert(all[31] == c);
        } else if c == '6' {
            assert(all[32] == c);
        } else if c == '7' {
            assert(all[33] == c);
        } else if c == '8' {
            assert(all[34] == c);
        } else if c == '9' {
            assert(all[35] == c);
        } else if c == '-' {
            assert(all[36] == c);
        }
    }
}

/// A cluster id has at most 36 characters, each a hexadecimal digit or a hyphen.
pub proof fn law_cluster_ids_are_short_and_hexadecimal(s: Seq<char>)
    ensures
        valid_cluster_id(s) <==> s.len() <= 36 && forall|i: int|
            0 <= i < s.len() ==> "0123456789abcdefABCDEF-"@.contains(#[trigger] s[i]),
{
    assert forall|i: int| 0 <= i < s.len() implies cluster_id_char(#[trigger] s[i])
        == "0123456789abcdefABCDEF-"@.contains(s[i]) by {
        lemma_cluster_id_chars(s[i]);
    }
}

/// A namespace name has from 1 to 63 characters, each a lowercase letter, a digit or a
/// hyphen, and a hyphen neither first nor last.
pub proof fn law_namespace_names_are_labels(s: Seq<char>)
    ensures
        valid_namespace(s) <==> 1 <= s.len() <= 63 && (forall|i: int|
            0 <= i < s.len() ==> "abcdefghijklmnopqrstuvwxyz0123456789-"@.contains(
                #[trigger] s[i],
            )) && s[0] != '-' && s[s.len() - 1] != '-',
{
    assert forall|i: int| 0 <= i < s.len() implies label_char(#[trigger] s[i])
        == "abcdefghijklmnopqrstuvwxyz0123456789-"@.contains(s[i]) by {
        lemma_label_chars(s[i]);
    }
}

/// The name that is reported as invalid is the first that is; none is where all are valid.
pub proof fn law_first_invalid_name_is_reported(names: Seq<Seq<char>>, i: int)
    ensures
        0 <= i < names.len() && !valid_namespace(names[i]) && (forall|j: int|
            0 <= j < i ==> valid_namespace(#[trigger] names[j])) ==> first_invalid(names) == Some(
            names[i],
        ),
        (forall|j: int| 0 <= j < names.len() ==> valid_namespace(#[trigger] names[j])) <==> (
        first_invalid(names) is None),
    decreases names.len(),
{
    if names.len() > 0 && valid_namespace(names[0]) {
        let rest = names.skip(1);
        law_first_invalid_name_is_reported(rest, i - 1);
        if forall|j: int| 0 <= j < names.len() ==> valid_namespace(#[trigger] names[j]) {
            assert forall|j: int| 0 <= j < rest.len() implies valid_namespace(
                #[trigger] rest[j],
            ) by {
                assert(valid_namespace(names[j + 1]));
            }
        }
        if forall|j: int| 0 <= j < rest.len() ==> valid_namespace(#[trigger] rest[j]) {
            assert forall|j: int| 0 <= j < names.len() implies valid_namespace(
                #[trigger] names[j],
            ) by {
                if j > 0 {
                    assert(valid_namespace(rest[j - 1]));
                }
            }
        }
        if 0 < i < names.len() && (forall|j: int|
            0 <= j < i ==> valid_namespace(#[trigger] names[j])) {
            assert(rest[i - 1] == names[i]);
            assert forall|j: int| 0 <= j < i - 1 implies valid_namespace(#[trigger] rest[j]) by {
                assert(valid_namespace(names[j + 1]));
            }
        }
    }
}

/// The pieces of a text hold no comma and, with commas between them, make up the text.
pub proof fn law_pieces_make_up_the_text(s: Seq<char>)
    ensures
        pieces(s).len() > 0,
        joined(pieces(s), seq![',']) == s,
        forall|i: int| 0 <= i < pieces(s).len() ==> !(#[trigger] pieces(s)[i]).contains(','),
    decreases s.len(),
{
    let comma = seq![','];
    if s.len() == 0 {
        assert(joined(pieces(s), comma) == s);
    } else {
        let init = s.drop_last();
        law_pieces_make_up_the_text(init);
        let before = pieces(init);
        let all = pieces(s);
        let c = s.last();
        if c == ',' {
            assert(all.drop_last() == before);
            assert(joined(all, comma) == joined(before, comma) + comma + Seq::<char>::empty());
            assert(joined(all, comma) == s);
        } else {
            let head = before.drop_last();
            let tail = before.last().push(c);
            assert(all.drop_last() == head);
            assert(!tail.contains(',')) by {
                if tail.contains(',') {
                    let k = choose|k: int| 0 <= k < tail.len() && tail[k] == ',';
                    assert(before[before.len() - 1][k] == ',');
                    assert(before[before.len() - 1].contains(','));
                }
            }
            if before.len() == 1 {
                assert(joined(before, comma) == before[0]);
                assert(joined(all, comma) == all[0]);
                assert(all[0] == tail);
                assert(tail == s);
            } else {
                assert(joined(all, comma) == joined(head, comma) + comma + tail);
                let x = joined(head, comma) + comma;
                assert(joined(before, comma) == x + before.last());
                assert(x + tail == (x + before.last()).push(c));
                assert(init.push(c) == s);
                assert(joined(all, comma) == s);
            }
            assert forall|i: int| 0 <= i < all.len() implies !(#[trigger] all[i]).contains(
                ',',
            ) by {
                if i < head.len() {
                    assert(all[i] == before[i]);
                }
            }
        }
    }
}

/// Texts are trimmed one by one, in order; one of which nothing is left leaves no trace.
pub proof fn law_texts_are_trimmed_in_order(a: Seq<Seq<char>>, b: Seq<Seq<char>>, text: Seq<char>)
    ensures
        trimmed_texts(a + b) == trimmed_texts(a) + trimmed_texts(b),
        trimmed_texts(Seq::empty()).len() == 0,
        trim(text).len() == 0 ==> trimmed_texts(seq![text]).len() == 0,
        trim(text).len() > 0 ==> trimmed_texts(seq![text]) == seq![trim(text)],
    decreases b.len(),
{
    assert(seq![text].drop_last() == Seq::<Seq<char>>::empty());
    reveal_with_fuel(trimmed_texts, 2);
    if b.len() == 0 {
        assert(a + b == a);
        assert(trimmed_texts(a) + trimmed_texts(b) == trimmed_texts(a));
    } else {
        assert((a + b).drop_last() == a + b.drop_last());
        law_texts_are_trimmed_in_order(a, b.drop_last(), text);
        assert(trimmed_texts(a + b) == trimmed_texts(a) + trimmed_texts(b));
    }
}

proof fn lemma_plain_text_stays(text: Seq<char>)
    requires
        text.len() > 0,
        !white_space(text[0]),
        !white_space(text.last()),
    ensures
        trim(text) == text,
{
}

/// Without a setting nothing is included, and the namespaces of the cluster's own
/// components are excluded.
pub proof fn law_system_namespaces_are_excluded_by_default(env: Environment)
    ensures
        env.include_namespaces is None ==> included(env).len() == 0,
        env.include_namespaces matches Some(v) ==> included(env) == csv_entries(v@),
        env.exclude_namespaces is None ==> excluded(env) == seq![
            "kube-system"@,
            "kube-public"@,
            "kube-node-lease"@,
        ],
        env.exclude_namespaces matches Some(v) ==> excluded(env) == csv_entries(v@),
{
    reveal_with_fuel(trimmed_texts, 4);
    let empty = Seq::<char>::empty();
    assert(trim(empty).len() == 0);
    assert(pieces(empty) == seq![empty]);
    assert(seq![empty].drop_last() == Seq::<Seq<char>>::empty());
    reveal_strlit("kube-system");
    reveal_strlit("kube-public");
    reveal_strlit("kube-node-lease");
    reveal_strlit(",");
    reveal_strlit("kube-system,kube-public,kube-node-lease");
    let names = seq!["kube-system"@, "kube-public"@, "kube-node-lease"@];
    assert(names.drop_last() == seq!["kube-system"@, "kube-public"@]);
    assert(names.drop_last().drop_last() == seq!["kube-system"@]);
    assert(names.drop_last().drop_last().drop_last() == Seq::<Seq<char>>::empty());
    reveal_with_fuel(joined, 3);
    assert(joined(names, ","@) == "kube-system,kube-public,kube-node-lease"@);
    assert forall|i: int| 0 <= i < names.len() implies !(#[trigger] names[i]).contains(',') by {}
    law_csv_reads_back_what_was_joined(names);
    lemma_plain_text_stays("kube-system"@);
    lemma_plain_text_stays("kube-public"@);
    lemma_plain_text_stays("kube-node-lease"@);
    assert(trimmed_texts(names) == names);
}

/// The endpoint is what is set, and the public one where nothing is.
pub proof fn law_endpoint_is_public_by_default(env: Environment)
    ensures
        env.api_endpoint is None ==> endpoint_text(env) == "https://app.kubesavings.io"@,
        env.api_endpoint matches Some(v) ==> endpoint_text(env) == v@,
{
}

/// An environment is accepted exactly where the key and the cluster id are there, the
/// cluster id, the endpoint and every name of a namespace are valid. The configuration
/// has the settings as they were written, but for the endpoint, which is the origin, and
/// an empty provider, which is none.
pub proof fn law_settings_are_taken_as_they_are(env: Environment, parts: Option<UrlModel>)
    ensures
        configured(env, parts) is Ok <==> !missing(env.api_key) && !missing(env.cluster_id)
            && valid_cluster_id(env.cluster_id->0@) && endpoint(parts) is Some && (forall|i: int|
            0 <= i < included(env).len() ==> valid_namespace(#[trigger] included(env)[i])) && (
        forall|i: int|
            0 <= i < excluded(env).len() ==> valid_namespace(#[trigger] excluded(env)[i])),
        configured(env, parts) matches Ok(c) ==> {
            &&& env.api_key matches Some(key) && c.api_key == key@
            &&& env.cluster_id matches Some(id) && c.cluster_id == id@
            &&& endpoint(parts) == Some(c.api_endpoint)
            &&& c.include_namespaces == included(env)
            &&& c.exclude_namespaces == excluded(env)
            &&& match c.cloud_provider {
                Some(p) => p.len() > 0 && (env.cloud_provider matches Some(v) && v@ == p),
                None => env.cloud_provider matches Some(v) ==> v@.len() == 0,
            }
        },
{
    law_first_invalid_name_is_reported(included(env), 0);
    law_first_invalid_name_is_reported(excluded(env), 0);
}

/// What is refused is refused for the first rule that is broken, in the order of the key,
/// the cluster id, the endpoint, the included and the excluded namespaces.
pub proof fn law_first_broken_rule_is_reported(
    env: Environment,
    parts: Option<UrlModel>,
    name: Seq<char>,
)
    ensures
        missing(env.api_key) ==> configured(env, parts) == Err::<ConfigModel, _>(
            ConfigErrorModel::MissingRequired("KUBESAVINGS_API_KEY"@),
        ),
        !missing(env.api_key) ==> {
            &&& missing(env.cluster_id) ==> configured(env, parts) == Err::<
                ConfigModel,
                _,
            >(ConfigErrorModel::MissingRequired("KUBESAVINGS_CLUSTER_ID"@))
            &&& !missing(env.cluster_id) ==> {
                let id = env.cluster_id->0@;
                &&& !valid_cluster_id(id) ==> configured(env, parts) == Err::<
                    ConfigModel,
                    _,
                >(ConfigErrorModel::InvalidClusterId(id))
                &&& valid_cluster_id(id) && endpoint(parts) is None ==> configured(env, parts)
                    == Err::<ConfigModel, _>(
                    ConfigErrorModel::InvalidEndpoint(endpoint_text(env)),
                )
                &&& valid_cluster_id(id) && endpoint(parts) is Some && first_invalid(included(env))
                    == Some(name) ==> configured(env, parts) == Err::<
                    ConfigModel,
                    _,
                >(
                    (ConfigErrorModel::InvalidNamespace {
                        var: "KUBESAVINGS_INCLUDE_NAMESPACES"@,
                        name,
                    }),
                )
                &&& valid_cluster_id(id) && endpoint(parts) is Some && first_invalid(
                    included(env),
                ) is None && first_invalid(excluded(env)) == Some(name) ==> configured(env, parts)
                    == Err::<ConfigModel, _>(
                    (ConfigErrorModel::InvalidNamespace {
                        var: "KUBESAVINGS_EXCLUDE_NAMESPACES"@,
                        name,
                    }),
                )
            }
        },
{
}

/// Whether `part` stands somewhere in `whole`.
pub open spec fn tells(whole: Seq<char>, part: Seq<char>) -> bool {
    exists|i: int|
        0 <= i && i + part.len() <= whole.len() && #[trigger] whole.subrange(
            i,
            i + part.len(),
        ) == part
}

proof fn lemma_tells(before: Seq<char>, part: Seq<char>, after: Seq<char>)
    ensures
        tells(before + part + after, part),
{
    let whole = before + part + after;
    let i = before.len() as int;
    assert(whole.subrange(i, i + part.len()) == part);
}

/// An error tells the operator which variable is at fault, and what it was set to.
pub proof fn law_errors_name_the_setting(var: Seq<char>, text: Seq<char>)
    ensures
        tells(error_message(ConfigErrorModel::MissingRequired(var)), var),
        tells(error_message(ConfigErrorModel::InvalidEndpoint(text)), text),
        tells(error_message(ConfigErrorModel::InvalidClusterId(text)), text),
        tells(error_message((ConfigErrorModel::InvalidNamespace { var, name: text })), var),
        tells(error_message((ConfigErrorModel::InvalidNamespace { var, name: text })), text),
{
    lemma_tells(
        "Required environment variable '"@,
        var,
        "' is missing or empty.\nSet KUBESAVINGS_API_KEY and KUBESAVINGS_CLUSTER_ID before running the agent."@,
    );
    lemma_tells(
        "KUBESAVINGS_API_ENDPOINT '"@,
        text,
        "' is invalid.\nMust be an https:// URL (http://localhost is allowed for local testing).\nExample: https://app.kubesavings.io"@,
    );
    lemma_tells(
        "KUBESAVINGS_CLUSTER_ID '"@,
        text,
        "' is invalid.\nMust contain only alphanumeric characters and hyphens (UUID format)."@,
    );
    let rest = "'.\nNamespaces must be RFC 1123 labels: lowercase alphanumerics and '-', at most 63 characters."@;
    let middle = " contains an invalid namespace '"@;
    lemma_tells(var + middle, text, rest);
    let message = var + middle + text + rest;
    assert(message.subrange(0, 0int + var.len()) == var);
}

/// What is shown of a configuration tells its endpoint, its cluster, its namespaces and
/// its provider, quoted.
pub proof fn law_all_but_the_key_is_shown(c: ConfigModel)
    ensures
        tells(shown(c), debug_quoted(c.api_endpoint)),
        tells(shown(c), debug_quoted(c.cluster_id)),
        tells(shown(c), joined(all_quoted(c.include_namespaces), ", "@)),
        tells(shown(c), joined(all_quoted(c.exclude_namespaces), ", "@)),
        c.cloud_provider matches Some(p) ==> tells(shown(c), debug_quoted(p)),
{
    let text = shown(c);
    let a = "Config { api_endpoint: "@;
    let endpoint = debug_quoted(c.api_endpoint);
    let b = ", api_key: \"<redacted>\", cluster_id: "@;
    let id = debug_quoted(c.cluster_id);
    let d = ", include_namespaces: ["@;
    let inside = joined(all_quoted(c.include_namespaces), ", "@);
    let e = "], exclude_namespaces: ["@;
    let outside = joined(all_quoted(c.exclude_namespaces), ", "@);
    let f = "], cloud_provider: "@;
    let n = a.len() as int;
    assert(text.subrange(n, n + endpoint.len()) == endpoint);
    let n = n + endpoint.len() + b.len();
    assert(text.subrange(n, n + id.len()) == id);
    let n = n + id.len() + d.len();
    assert(text.subrange(n, n + inside.len()) == inside);
    let n = n + inside.len() + e.len();
    assert(text.subrange(n, n + outside.len()) == outside);
    match c.cloud_provider {
        Some(p) => {
            let provider = debug_quoted(p);
            let n = n + outside.len() + f.len() + "Some("@.len();
            assert(text.subrange(n, n + provider.len()) == provider);
        },
        None => {},
    }
}

} // verus!
