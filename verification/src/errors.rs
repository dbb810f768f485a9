//! Classification uses error-envelope fields only, never generated answer text.
use crate::json;
use crate::json::{at, bool_of, int_of, items_of, str_of, Json, JsonView};
use crate::text;
use crate::text::{contains, join, same, to_ascii_lowercase, to_lowercase};
use vstd::prelude::*;
use vstd::string::*;

verus! {

/// Some of several words stands in a text.
pub open spec fn mentions(t: Seq<char>, words: Seq<Seq<char>>) -> bool {
    exists|i: int| 0 <= i < words.len() && text::contained(t, #[trigger] words[i])
}

/// The characters of several words.
pub open spec fn words_of(s: Seq<&str>) -> Seq<Seq<char>> {
    s.map_values(|t: &str| t@)
}

fn mentioned(t: &str, words: &Vec<&str>) -> (r: bool)
    ensures
        r == mentions(t@, words_of(words@)),
{
    let mut i: usize = 0;
    while i < words.len()
        invariant
            i <= words@.len(),
            forall|j: int| 0 <= j < i ==> !text::contained(t@, #[trigger] words_of(words@)[j]),
        decreases words@.len() - i,
    {
        if contains(t, words[i]) {
            assert(text::contained(t@, words_of(words@)[i as int]));
            return true;
        }
        i = i + 1;
    }
    false
}

/// Words that tell of an exhausted quota.
pub open spec fn quota_words() -> Seq<Seq<char>> {
    seq![
        "insufficient_quota"@,
        "insufficient_user_quota"@,
        "insufficient_balance"@,
        "insufficient account balance"@,
        "insufficient balance"@,
        "balance is not enough"@,
        "余额不足"@,
        "额度不足"@,
        "额度已用尽"@,
        "subscription exhausted"@,
        "subscription_expired"@,
        "weekly_limit_exceeded"@,
        "daily_limit_exceeded"@,
        "monthly_limit_exceeded"@,
        "quota_exhausted"@,
    ]
}

/// Words that tell of a refused credential.
pub open spec fn credential_words() -> Seq<Seq<char>> {
    seq![
        "invalid_api_key"@,
        "authentication_error"@,
        "authentication fails"@,
        "invalid token"@,
        "invalid api key"@,
        "令牌已过期或验证不正确"@,
        "无效的apikey"@,
        "api_key_expired"@,
        "api_key_disabled"@,
    ]
}

/// Words that tell of throttling.
pub open spec fn throttle_words() -> Seq<Seq<char>> {
    seq![
        "rate_limit_exceeded"@,
        "rate_limit_error"@,
        "too many requests"@,
        "concurrency_limit"@,
        "queue_full"@,
    ]
}

/// The names of the fields that an error envelope may hold.
pub open spec fn field_names() -> Seq<Seq<char>> {
    seq!["code"@, "type"@, "message"@, "msg"@, "reason"@]
}

/// What one field of an envelope says: a text in lowercase, or an integer in decimal.
pub open spec fn field_text(v: JsonView) -> Seq<Seq<char>> {
    match v.as_str() {
        Some(s) => seq![text::lowercase(s)],
        None => match v.as_int() {
            Some(n) => seq![text::signed_decimal(n as int)],
            None => Seq::empty(),
        },
    }
}

/// What the first `n` fields of an envelope say.
pub open spec fn fields_text(v: JsonView, n: int) -> Seq<Seq<char>>
    decreases n,
{
    if n <= 0 {
        Seq::empty()
    } else {
        fields_text(v, n - 1) + field_text(v.at(field_names()[n - 1]))
    }
}

/// What an envelope says: its own text, and its fields.
pub open spec fn envelope_text(v: JsonView) -> Seq<Seq<char>> {
    (match v.as_str() {
        Some(s) => seq![text::lowercase(s)],
        None => Seq::empty(),
    }) + fields_text(v, 5)
}

/// What a reply says in its error envelopes: the reply itself, `error`, and `response.error`.
pub open spec fn error_text(v: Option<JsonView>) -> Seq<char> {
    match v {
        Some(v) => text::joined(
            envelope_text(v) + envelope_text(v.at("error"@)) + envelope_text(
                v.at("response"@).at("error"@),
            ),
            " "@,
        ),
        None => Seq::empty(),
    }
}

/// A reply that reports its failure as a refused credential.
pub open spec fn refused(v: Option<JsonView>) -> bool {
    match v {
        Some(v) => v.at("success"@).as_bool() == Some(false) && (v.at("code"@).as_int() == Some(
            401i64,
        ) || v.at("code"@).as_str() == Some("401"@)),
        None => false,
    }
}

/// The class of a reply, written as an HTTP number: 400 for an error of the request, 401 for
/// the credential, 402 for the balance, 429 for throttling, 503 for the service or the unknown.
pub open spec fn class_of(status: u16, v: Option<JsonView>) -> u16 {
    let t = error_text(v);
    if mentions(t, quota_words()) {
        402
    } else if status == 401 || mentions(t, credential_words()) || refused(v) {
        401
    } else if status == 402 {
        402
    } else if status == 429 || mentions(t, throttle_words()) {
        429
    } else if status == 400 || status == 413 || status == 422 {
        400
    } else {
        503
    }
}

fn push_field_text(fields: &mut Vec<String>, v: Option<&Json>)
    ensures
        text::views(final(fields)@) == text::views(old(fields)@) + field_text(json::seen(v)),
{
    let ghost before = text::views(fields@);
    match str_of(v) {
        Some(s) => {
            fields.push(to_lowercase(s.as_str()));
            assert(text::views(fields@) =~= before + field_text(json::seen(v)));
        },
        None => match int_of(v) {
            Some(n) => {
                fields.push(text::integer(n));
                assert(text::views(fields@) =~= before + field_text(json::seen(v)));
            },
            None => {
                assert(text::views(fields@) =~= before + field_text(json::seen(v)));
            },
        },
    }
}

fn push_envelope(fields: &mut Vec<String>, v: Option<&Json>)
    ensures
        text::views(final(fields)@) == text::views(old(fields)@) + envelope_text(json::seen(v)),
{
    let ghost before = text::views(fields@);
    let ghost o = json::seen(v);
    match str_of(v) {
        Some(s) => {
            fields.push(to_lowercase(s.as_str()));
            assert(text::views(fields@) =~= before + seq![text::lowercase(s@)]);
        },
        None => {
            assert(text::views(fields@) =~= before + Seq::<Seq<char>>::empty());
        },
    }
    let ghost own = text::views(fields@);
    let names = vec!["code", "type", "message", "msg", "reason"];
    assert(words_of(names@) =~= field_names());
    let mut i: usize = 0;
    assert(own + fields_text(o, 0) =~= own);
    while i < names.len()
        invariant
            i <= names@.len() == 5,
            words_of(names@) == field_names(),
            o == json::seen(v),
            text::views(fields@) == own + fields_text(o, i as int),
        decreases 5 - i,
    {
        assert(words_of(names@)[i as int] == names@[i as int]@);
        push_field_text(fields, at(v, names[i]));
        assert(text::views(fields@) =~= own + fields_text(o, i + 1));
        i = i + 1;
    }
    assert(text::views(fields@) =~= before + envelope_text(o));
}

/// The class of a reply, from its status and its document where it has one.
pub fn classify_parsed(status: u16, reply: Option<&Json>) -> (r: u16)
    ensures
        r == class_of(
            status,
            match reply {
                Some(j) => Some(j@),
                None => None,
            },
        ),
{
    let mut fields: Vec<String> = Vec::new();
    let ghost v: Option<JsonView> = match reply {
        Some(j) => Some(j@),
        None => None,
    };
    if reply.is_some() {
        assert(text::views(fields@) =~= Seq::<Seq<char>>::empty());
        push_envelope(&mut fields, reply);
        push_envelope(&mut fields, at(reply, "error"));
        push_envelope(&mut fields, at(at(reply, "response"), "error"));
        assert(text::views(fields@) =~= envelope_text(v->0) + envelope_text(v->0.at("error"@))
            + envelope_text(v->0.at("response"@).at("error"@)));
    } else {
        assert(text::joined(text::views(fields@), " "@) =~= Seq::<char>::empty());
    }
    let t = join(&fields, " ");
    assert(t@ == error_text(v));
    let quota = vec![
        "insufficient_quota",
        "insufficient_user_quota",
        "insufficient_balance",
        "insufficient account balance",
        "insufficient balance",
        "balance is not enough",
        "余额不足",
        "额度不足",
        "额度已用尽",
        "subscription exhausted",
        "subscription_expired",
        "weekly_limit_exceeded",
        "daily_limit_exceeded",
        "monthly_limit_exceeded",
        "quota_exhausted",
    ];
    assert(words_of(quota@) =~= quota_words());
    if mentioned(t.as_str(), &quota) {
        return 402;
    }
    let credential = vec![
        "invalid_api_key",
        "authentication_error",
        "authentication fails",
        "invalid token",
        "invalid api key",
        "令牌已过期或验证不正确",
        "无效的apikey",
        "api_key_expired",
        "api_key_disabled",
    ];
    assert(words_of(credential@) =~= credential_words());
    let code_is_401 = match str_of(at(reply, "code")) {
        Some(s) => same(s.as_str(), "401"),
        None => int_of(at(reply, "code")) == Some(401i64),
    };
    let reports = bool_of(at(reply, "success")) == Some(false) && code_is_401;
    if status == 401 || mentioned(t.as_str(), &credential) || reports {
        return 401;
    }
    if status == 402 {
        return 402;
    }
    let throttle = vec![
        "rate_limit_exceeded",
        "rate_limit_error",
        "too many requests",
        "concurrency_limit",
        "queue_full",
    ];
    assert(words_of(throttle@) =~= throttle_words());
    if status == 429 || mentioned(t.as_str(), &throttle) {
        return 429;
    }
    // Unknown formats of parameter validation are still errors of the caller.
    if status == 400 || status == 413 || status == 422 {
        return 400;
    }
    // Unknown business errors are quarantined, not declared invalid keys.
    503
}

/// The class of a reply, from its status and its bytes.
pub fn classify(status: u16, body: &[u8]) -> (r: u16)
    ensures
        r == class_of(status, json::parsed(body@)),
{
    match json::parse(body) {
        Some(j) => classify_parsed(status, Some(&j)),
        None => classify_parsed(status, None),
    }
}

/// An error member that says something.
pub open spec fn says_something(e: JsonView) -> bool {
    match e {
        JsonView::Null => false,
        JsonView::Object(o) => o.len() > 0,
        JsonView::Text(s) => s.len() > 0,
        _ => true,
    }
}

fn nonempty_error(e: &Json) -> (r: bool)
    ensures
        r == says_something(e@),
{
    match e {
        Json::Null => false,
        Json::Object(o) => o.len() > 0,
        Json::Text(s) => !s.as_str().is_empty(),
        _ => true,
    }
}

/// A document has the shape of a finished response.
pub open spec fn shaped(v: JsonView) -> bool {
    (v.at("status"@).as_str() == Some("completed"@) || v.at("status"@).as_str() == Some(
        "incomplete"@,
    )) && v.at("output"@).as_items() is Some
}

fn response_shape(v: &Json) -> (r: bool)
    ensures
        r == shaped(v@),
{
    let done = match str_of(at(Some(v), "status")) {
        Some(s) => same(s.as_str(), "completed") || same(s.as_str(), "incomplete"),
        None => false,
    };
    done && items_of(at(Some(v), "output")).is_some()
}

/// A code that means anything but success.
pub open spec fn failure_code(c: JsonView) -> bool {
    match c {
        JsonView::Number(n) => match n.int {
            Some(i) => i != 0 && i != 200,
            None => false,
        },
        JsonView::Text(s) => {
            let l = text::lowered(s);
            l != "0"@ && l != "200"@ && l != "success"@ && l != "ok"@
        },
        _ => false,
    }
}

/// A document that reports a failure.
pub open spec fn reports_failure(v: JsonView) -> bool {
    ||| v.at("success"@).as_bool() == Some(false)
    ||| says_something(v.at("error"@))
    ||| v.at("status"@).as_str() is Some && text::lowered(v.at("status"@).as_str()->0) == "failed"@
    ||| !shaped(v) && failure_code(v.at("code"@))
}

/// Whether a document reports a failure.
pub fn business_error(v: &Json) -> (r: bool)
    ensures
        r == reports_failure(v@),
{
    let complains = match v.get("error") {
        Some(e) => nonempty_error(e),
        None => false,
    };
    let failed = match str_of(at(Some(v), "status")) {
        Some(s) => same(to_ascii_lowercase(s.as_str()).as_str(), "failed"),
        None => false,
    };
    if bool_of(at(Some(v), "success")) == Some(false) || complains || failed {
        return true;
    }
    if response_shape(v) {
        return false;
    }
    match v.get("code") {
        Some(Json::Number(n)) => match n.int {
            Some(i) => i != 0 && i != 200,
            None => false,
        },
        Some(Json::Text(s)) => {
            let l = to_ascii_lowercase(s.as_str());
            !(same(l.as_str(), "0") || same(l.as_str(), "200") || same(l.as_str(), "success")
                || same(l.as_str(), "ok"))
        },
        _ => false,
    }
}

/// A finished response that reports no failure.
pub open spec fn sound_response(v: JsonView) -> bool {
    shaped(v) && !reports_failure(v)
}

/// Whether a document is a finished response that reports no failure.
pub fn valid_response(v: &Json) -> (r: bool)
    ensures
        r == sound_response(v@),
{
    response_shape(v) && !business_error(v)
}

/// A class is one of five.
pub proof fn five_classes(status: u16, v: Option<JsonView>)
    ensures
        class_of(status, v) == 400 || class_of(status, v) == 401 || class_of(status, v) == 402
            || class_of(status, v) == 429 || class_of(status, v) == 503,
{
}

/// Two documents that agree on their error envelopes, and on whether they report success, are of
/// one class: nothing else that they hold, and no generated answer, plays a part.
pub proof fn class_keeps_to_envelopes(status: u16, a: JsonView, b: JsonView)
    requires
        a.as_str() == b.as_str(),
        forall|i: int| 0 <= i < 5 ==> a.at(#[trigger] field_names()[i]) == b.at(field_names()[i]),
        a.at("error"@) == b.at("error"@),
        a.at("response"@).at("error"@) == b.at("response"@).at("error"@),
        a.at("success"@) == b.at("success"@),
    ensures
        class_of(status, Some(a)) == class_of(status, Some(b)),
{
    assert(field_names()[0] == "code"@);
    same_fields(a, b, 5);
}

proof fn same_fields(a: JsonView, b: JsonView, n: int)
    requires
        n <= 5,
        forall|i: int| 0 <= i < 5 ==> a.at(#[trigger] field_names()[i]) == b.at(field_names()[i]),
    ensures
        fields_text(a, n) == fields_text(b, n),
    decreases n,
{
    if n > 0 {
        same_fields(a, b, n - 1);
        assert(a.at(field_names()[n - 1]) == b.at(field_names()[n - 1]));
    }
}

/// A finished response stays sound or unsound whatever it answers: only whether it reports
/// success, its error and its status play a part.
pub proof fn answers_are_not_errors(a: JsonView, b: JsonView)
    requires
        shaped(a),
        shaped(b),
        a.at("success"@) == b.at("success"@),
        a.at("error"@) == b.at("error"@),
        a.at("status"@) == b.at("status"@),
    ensures
        sound_response(a) == sound_response(b),
{
}

proof fn within(hay: Seq<char>, part: Seq<char>, w: Seq<char>, at: int)
    requires
        0 <= at,
        at + part.len() <= hay.len(),
        hay.subrange(at, at + part.len()) == part,
        text::contained(part, w),
    ensures
        text::contained(hay, w),
{
    let i = choose|i: int| text::occurs_at(part, w, i);
    assert(part.subrange(i, i + w.len()) =~= hay.subrange(at + i, at + i + w.len()));
    assert(text::occurs_at(hay, w, at + i));
}

proof fn joined_holds(parts: Seq<Seq<char>>, sep: Seq<char>, k: int, w: Seq<char>)
    requires
        0 <= k < parts.len(),
        text::contained(parts[k], w),
    ensures
        text::contained(text::joined(parts, sep), w),
    decreases parts.len(),
{
    let all = text::joined(parts, sep);
    if parts.len() > 1 {
        let head = text::joined(parts.drop_last(), sep);
        if k == parts.len() - 1 {
            let at: int = head.len() as int + sep.len();
            assert(all.subrange(at, at + parts.last().len()) =~= parts.last());
            within(all, parts.last(), w, at);
        } else {
            assert(parts.drop_last()[k] == parts[k]);
            joined_holds(parts.drop_last(), sep, k, w);
            assert(all.subrange(0, head.len() as int) =~= head);
            within(all, head, w, 0);
        }
    }
}

proof fn field_is_said(e: JsonView, n: int, i: int, s: Seq<char>)
    requires
        0 <= i < n <= 5,
        e.at(field_names()[i]) == JsonView::Text(s),
    ensures
        fields_text(e, n).contains(text::lowercase(s)),
    decreases n,
{
    let rest = fields_text(e, n - 1);
    let own = field_text(e.at(field_names()[n - 1]));
    if i == n - 1 {
        assert(own[0] == text::lowercase(s));
        assert((rest + own)[rest.len() as int] == text::lowercase(s));
    } else {
        field_is_said(e, n - 1, i, s);
        let k = choose|k: int| 0 <= k < rest.len() && rest[k] == text::lowercase(s);
        assert((rest + own)[k] == text::lowercase(s));
    }
}

/// A document says a word in an error envelope: the document itself, its `error` or its
/// `response.error` is a text, or holds a text as `code`, `type`, `message`, `msg` or `reason`, in
/// which the word stands in whatever case.
pub open spec fn says(v: JsonView, word: Seq<char>) -> bool {
    says_in(v, word) || says_in(v.at("error"@), word) || says_in(
        v.at("response"@).at("error"@),
        word,
    )
}

/// An envelope says a word.
pub open spec fn says_in(e: JsonView, word: Seq<char>) -> bool {
    ||| holds_word(e, word)
    ||| holds_word(e.at("code"@), word)
    ||| holds_word(e.at("type"@), word)
    ||| holds_word(e.at("message"@), word)
    ||| holds_word(e.at("msg"@), word)
    ||| holds_word(e.at("reason"@), word)
}

/// A value is a text in which a word stands in whatever case.
pub open spec fn holds_word(v: JsonView, word: Seq<char>) -> bool {
    match v {
        JsonView::Text(s) => text::contained(text::lowercase(s), word),
        _ => false,
    }
}

proof fn envelope_says(e: JsonView, word: Seq<char>) -> (k: int)
    requires
        says_in(e, word),
    ensures
        0 <= k < envelope_text(e).len(),
        text::contained(envelope_text(e)[k], word),
{
    let own: Seq<Seq<char>> = match e.as_str() {
        Some(s) => seq![text::lowercase(s)],
        None => Seq::empty(),
    };
    let fields = fields_text(e, 5);
    if holds_word(e, word) {
        assert((own + fields)[0] == text::lowercase(e->Text_0));
        0
    } else {
        let i: int = if holds_word(e.at("code"@), word) {
            0
        } else if holds_word(e.at("type"@), word) {
            1
        } else if holds_word(e.at("message"@), word) {
            2
        } else if holds_word(e.at("msg"@), word) {
            3
        } else {
            4
        };
        assert(holds_word(e.at(field_names()[i]), word));
        let s = e.at(field_names()[i])->Text_0;
        field_is_said(e, 5, i, s);
        let j = choose|j: int| 0 <= j < fields.len() && fields[j] == text::lowercase(s);
        assert((own + fields)[own.len() + j] == fields[j]);
        own.len() + j
    }
}

proof fn said_words_are_found(v: JsonView, word: Seq<char>)
    requires
        says(v, word),
    ensures
        text::contained(error_text(Some(v)), word),
{
    let a = envelope_text(v);
    let b = envelope_text(v.at("error"@));
    let c = envelope_text(v.at("response"@).at("error"@));
    let all = a + b + c;
    if says_in(v, word) {
        let k = envelope_says(v, word);
        assert(all[k] == a[k]);
        joined_holds(all, " "@, k, word);
    } else if says_in(v.at("error"@), word) {
        let k = envelope_says(v.at("error"@), word);
        assert(all[a.len() + k] == b[k]);
        joined_holds(all, " "@, a.len() + k, word);
    } else {
        let k = envelope_says(v.at("response"@).at("error"@), word);
        assert(all[a.len() + b.len() + k] == c[k]);
        joined_holds(all, " "@, a.len() + b.len() + k, word);
    }
}

/// A reply that says that a quota is used up is of class 402, whatever its status.
pub proof fn used_up_quotas_are_told(status: u16, v: JsonView, word: Seq<char>)
    requires
        word == "insufficient_quota"@ || word == "insufficient_user_quota"@ || word
            == "insufficient_balance"@ || word == "insufficient account balance"@ || word
            == "insufficient balance"@ || word == "balance is not enough"@ || word == "余额不足"@
            || word == "额度不足"@ || word == "额度已用尽"@ || word == "subscription exhausted"@
            || word == "subscription_expired"@ || word == "weekly_limit_exceeded"@ || word
            == "daily_limit_exceeded"@ || word == "monthly_limit_exceeded"@ || word
            == "quota_exhausted"@,
        says(v, word),
    ensures
        class_of(status, Some(v)) == 402,
{
    said_words_are_found(v, word);
    let w = quota_words();
    assert(w[0] == "insufficient_quota"@ && w[1] == "insufficient_user_quota"@ && w[2]
        == "insufficient_balance"@ && w[3] == "insufficient account balance"@ && w[4]
        == "insufficient balance"@ && w[5] == "balance is not enough"@ && w[6] == "余额不足"@
        && w[7] == "额度不足"@ && w[8] == "额度已用尽"@ && w[9] == "subscription exhausted"@
        && w[10] == "subscription_expired"@ && w[11] == "weekly_limit_exceeded"@ && w[12]
        == "daily_limit_exceeded"@ && w[13] == "monthly_limit_exceeded"@ && w[14]
        == "quota_exhausted"@);
}

/// A reply that says that a credential is refused, or reports it as a failure of code 401, or has
/// that status, is of class 401, unless it is one of a used-up quota.
pub proof fn refused_credentials_are_told(status: u16, v: JsonView, word: Seq<char>)
    requires
        ({
            ||| status == 401
            ||| v.at("success"@) == JsonView::Bool(false) && (v.at("code"@).as_int() == Some(
                401i64,
            ) || v.at("code"@) == JsonView::Text("401"@))
            ||| says(v, word) && (word == "invalid_api_key"@ || word == "authentication_error"@
                || word == "authentication fails"@ || word == "invalid token"@ || word
                == "invalid api key"@ || word == "令牌已过期或验证不正确"@ || word
                == "无效的apikey"@ || word == "api_key_expired"@ || word == "api_key_disabled"@)
        }),
    ensures
        class_of(status, Some(v)) == 401 || class_of(status, Some(v)) == 402,
        class_of(status, Some(v)) == 402 ==> mentions(error_text(Some(v)), quota_words()),
{
    if says(v, word) {
        said_words_are_found(v, word);
    }
    let w = credential_words();
    assert(w[0] == "invalid_api_key"@ && w[1] == "authentication_error"@ && w[2]
        == "authentication fails"@ && w[3] == "invalid token"@ && w[4] == "invalid api key"@
        && w[5] == "令牌已过期或验证不正确"@ && w[6] == "无效的apikey"@ && w[7]
        == "api_key_expired"@ && w[8] == "api_key_disabled"@);
}

/// A reply that says that it is throttled, or has that status, is of class 429, unless it is one of
/// a used-up quota or a refused credential.
pub proof fn throttling_is_told(status: u16, v: JsonView, word: Seq<char>)
    requires
        status == 429 || says(v, word) && (word == "rate_limit_exceeded"@ || word
            == "rate_limit_error"@ || word == "too many requests"@ || word == "concurrency_limit"@
            || word == "queue_full"@),
    ensures
        class_of(status, Some(v)) == 429 || class_of(status, Some(v)) == 401 || class_of(
            status,
            Some(v),
        ) == 402,
        class_of(status, Some(v)) == 402 ==> status == 402 || mentions(
            error_text(Some(v)),
            quota_words(),
        ),
        class_of(status, Some(v)) == 401 ==> status == 401 || mentions(
            error_text(Some(v)),
            credential_words(),
        ) || v.at("success"@) == JsonView::Bool(false),
{
    if says(v, word) {
        said_words_are_found(v, word);
    }
    let w = throttle_words();
    assert(w[0] == "rate_limit_exceeded"@ && w[1] == "rate_limit_error"@ && w[2]
        == "too many requests"@ && w[3] == "concurrency_limit"@ && w[4] == "queue_full"@);
}

/// Where no word decides, the number of the status does: 401, 402 and 429 stand for themselves,
/// 400, 413 and 422 for an error of the request, and every other one for the service.
pub proof fn silent_replies_go_by_their_status(status: u16, v: Option<JsonView>)
    requires
        v is Some ==> {
            let t = error_text(v);
            &&& !mentions(t, quota_words())
            &&& !mentions(t, credential_words())
            &&& !mentions(t, throttle_words())
            &&& v->0.at("success"@) != JsonView::Bool(false)
        },
    ensures
        class_of(status, v) == 400 <==> status == 400 || status == 413 || status == 422,
        class_of(status, v) == 401 <==> status == 401,
        class_of(status, v) == 402 <==> status == 402,
        class_of(status, v) == 429 <==> status == 429,
        class_of(status, v) == 503 <==> status != 400 && status != 401 && status != 402 && status
            != 413 && status != 422 && status != 429,
{
    if v is None {
        nothing_is_said();
    }
}

proof fn nothing_is_said()
    ensures
        !mentions(Seq::empty(), quota_words()),
        !mentions(Seq::empty(), credential_words()),
        !mentions(Seq::empty(), throttle_words()),
{
    reveal_strlit("insufficient_quota");
    reveal_strlit("insufficient_user_quota");
    reveal_strlit("insufficient_balance");
    reveal_strlit("insufficient account balance");
    reveal_strlit("insufficient balance");
    reveal_strlit("balance is not enough");
    reveal_strlit("余额不足");
    reveal_strlit("额度不足");
    reveal_strlit("额度已用尽");
    reveal_strlit("subscription exhausted");
    reveal_strlit("subscription_expired");
    reveal_strlit("weekly_limit_exceeded");
    reveal_strlit("daily_limit_exceeded");
    reveal_strlit("monthly_limit_exceeded");
    reveal_strlit("quota_exhausted");
    reveal_strlit("invalid_api_key");
    reveal_strlit("authentication_error");
    reveal_strlit("authentication fails");
    reveal_strlit("invalid token");
    reveal_strlit("invalid api key");
    reveal_strlit("令牌已过期或验证不正确");
    reveal_strlit("无效的apikey");
    reveal_strlit("api_key_expired");
    reveal_strlit("api_key_disabled");
    reveal_strlit("rate_limit_exceeded");
    reveal_strlit("rate_limit_error");
    reveal_strlit("too many requests");
    reveal_strlit("concurrency_limit");
    reveal_strlit("queue_full");
    let e = Seq::<char>::empty();
    assert(forall|i: int| 0 <= i < 15 ==> (#[trigger] quota_words()[i]).len() > 0);
    assert(forall|i: int| 0 <= i < 9 ==> (#[trigger] credential_words()[i]).len() > 0);
    assert(forall|i: int| 0 <= i < 5 ==> (#[trigger] throttle_words()[i]).len() > 0);
}

/// A document without error envelopes says nothing: its status alone decides. Such are all documents
/// but texts and objects, and objects without `error`, `response` and the five fields.
pub proof fn answers_say_nothing(v: JsonView, word: Seq<char>)
    requires
        word.len() > 0,
        !(v is Text),
        v.at("error"@) == JsonView::Null,
        v.at("response"@).at("error"@) == JsonView::Null,
        v.at("code"@) == JsonView::Null,
        v.at("type"@) == JsonView::Null,
        v.at("message"@) == JsonView::Null,
        v.at("msg"@) == JsonView::Null,
        v.at("reason"@) == JsonView::Null,
    ensures
        !text::contained(error_text(Some(v)), word),
{
    silent_envelope(v);
    silent_envelope(v.at("error"@));
    silent_envelope(v.at("response"@).at("error"@));
    let none = Seq::<Seq<char>>::empty();
    assert(none + none + none =~= none);
    assert(error_text(Some(v)) =~= Seq::<char>::empty());
}

proof fn silent_envelope(v: JsonView)
    requires
        !(v is Text),
        v.at("code"@) == JsonView::Null,
        v.at("type"@) == JsonView::Null,
        v.at("message"@) == JsonView::Null,
        v.at("msg"@) == JsonView::Null,
        v.at("reason"@) == JsonView::Null,
    ensures
        envelope_text(v) =~= Seq::<Seq<char>>::empty(),
{
    reveal_with_fuel(fields_text, 6);
    let n = field_names();
    assert(n[0] == "code"@ && n[1] == "type"@ && n[2] == "message"@ && n[3] == "msg"@ && n[4]
        == "reason"@);
}

/// A sound response is one that is completed or incomplete, has a list of outputs, does not deny its
/// success, and whose error is null or empty. Nothing else makes it unsound.
pub proof fn sound_responses_are_finished(v: JsonView)
    ensures
        sound_response(v) <==> {
            &&& v.at("status"@) == JsonView::Text("completed"@) || v.at("status"@)
                == JsonView::Text("incomplete"@)
            &&& v.at("output"@) is Array
            &&& v.at("success"@) != JsonView::Bool(false)
            &&& v.at("error"@) == JsonView::Null || v.at("error"@) == JsonView::Text(Seq::empty())
                || v.at("error"@) == JsonView::Object(Seq::empty())
        },
{
    reveal_strlit("completed");
    reveal_strlit("incomplete");
    reveal_strlit("failed");
    match v.at("error"@) {
        JsonView::Text(s) => {
            assert(s.len() == 0 ==> s =~= Seq::empty());
        },
        JsonView::Object(o) => {
            assert(o.len() == 0 ==> o =~= Seq::empty());
        },
        _ => {},
    }
    match v.at("status"@).as_str() {
        Some(s) => {
            assert(text::lowered(s).len() == s.len());
        },
        None => {},
    }
}

/// A document that is no finished response, does not deny its success, holds no error and is not
/// called failed reports a failure by its code alone: a number other than 0 and 200, or a text other
/// than `0`, `200`, `success` and `ok`.
pub proof fn codes_report_failures(v: JsonView)
    requires
        !shaped(v),
        v.at("success"@) != JsonView::Bool(false),
        v.at("error"@) == JsonView::Null,
        !(v.at("status"@) is Text),
    ensures
        v.at("code"@).as_int() is Some ==> (reports_failure(v) <==> v.at("code"@).as_int() != Some(
            0i64,
        ) && v.at("code"@).as_int() != Some(200i64)),
        v.at("code"@) is Text ==> ({
            let c = text::lowered(v.at("code"@)->Text_0);
            reports_failure(v) <==> c != "0"@ && c != "200"@ && c != "success"@ && c != "ok"@
        }),
        v.at("code"@) == JsonView::Null || v.at("code"@) is Bool ==> !reports_failure(v),
{
}

/// A denied success, an error that says something, and a status called failed each report a failure.
pub proof fn failures_are_reported(v: JsonView, s: Seq<char>)
    requires
        ({
            ||| v.at("success"@) == JsonView::Bool(false)
            ||| v.at("error"@) is Bool
            ||| v.at("error"@) is Number
            ||| v.at("error"@) is Array
            ||| v.at("error"@) is Text && v.at("error"@)->Text_0.len() > 0
            ||| v.at("error"@) is Object && v.at("error"@)->Object_0.len() > 0
            ||| v.at("status"@) == JsonView::Text(s) && text::lowered(s) == "failed"@
        }),
    ensures
        reports_failure(v),
        !sound_response(v),
{
}

/// A word tells of a used-up quota.
pub open spec fn tells_of_quota(w: Seq<char>) -> bool {
    ||| w == "insufficient_quota"@
    ||| w == "insufficient_user_quota"@
    ||| w == "insufficient_balance"@
    ||| w == "insufficient account balance"@
    ||| w == "insufficient balance"@
    ||| w == "balance is not enough"@
    ||| w == "余额不足"@
    ||| w == "额度不足"@
    ||| w == "额度已用尽"@
    ||| w == "subscription exhausted"@
    ||| w == "subscription_expired"@
    ||| w == "weekly_limit_exceeded"@
    ||| w == "daily_limit_exceeded"@
    ||| w == "monthly_limit_exceeded"@
    ||| w == "quota_exhausted"@
}

/// A word tells of a refused credential.
pub open spec fn tells_of_credential(w: Seq<char>) -> bool {
    ||| w == "invalid_api_key"@
    ||| w == "authentication_error"@
    ||| w == "authentication fails"@
    ||| w == "invalid token"@
    ||| w == "invalid api key"@
    ||| w == "令牌已过期或验证不正确"@
    ||| w == "无效的apikey"@
    ||| w == "api_key_expired"@
    ||| w == "api_key_disabled"@
}

/// A word tells of throttling.
pub open spec fn tells_of_throttling(w: Seq<char>) -> bool {
    ||| w == "rate_limit_exceeded"@
    ||| w == "rate_limit_error"@
    ||| w == "too many requests"@
    ||| w == "concurrency_limit"@
    ||| w == "queue_full"@
}

/// No class comes without a reason: each is told by its status, or by one of its own words among what
/// the error envelopes say, and that of a refused credential also by a failure of code 401. No other
/// word means anything.
pub proof fn classes_have_reasons(status: u16, v: Option<JsonView>)
    ensures
        class_of(status, v) == 402 ==> status == 402 || exists|w: Seq<char>|
            tells_of_quota(w) && #[trigger] text::contained(error_text(v), w),
        class_of(status, v) == 401 ==> status == 401 || (exists|w: Seq<char>|
            tells_of_credential(w) && #[trigger] text::contained(error_text(v), w)) || v is Some
            && v->0.at("success"@) == JsonView::Bool(false) && (v->0.at("code"@).as_int() == Some(
            401i64,
        ) || v->0.at("code"@) == JsonView::Text("401"@)),
        class_of(status, v) == 429 ==> status == 429 || exists|w: Seq<char>|
            tells_of_throttling(w) && #[trigger] text::contained(error_text(v), w),
        class_of(status, v) == 400 ==> status == 400 || status == 413 || status == 422,
{
    let t = error_text(v);
    if mentions(t, quota_words()) {
        let i = choose|i: int|
            0 <= i < quota_words().len() && text::contained(t, #[trigger] quota_words()[i]);
        assert(tells_of_quota(quota_words()[i]));
    }
    if mentions(t, credential_words()) {
        let i = choose|i: int|
            0 <= i < credential_words().len() && text::contained(t, #[trigger] credential_words()[i]);
        assert(tells_of_credential(credential_words()[i]));
    }
    if mentions(t, throttle_words()) {
        let i = choose|i: int|
            0 <= i < throttle_words().len() && text::contained(t, #[trigger] throttle_words()[i]);
        assert(tells_of_throttling(throttle_words()[i]));
    }
}

/// Where no telling word stands in what a reply says, and it is not one that denies its success, its
/// status alone decides.
pub proof fn untold_replies_go_by_their_status(status: u16, v: JsonView)
    requires
        forall|w: Seq<char>| #[trigger]
            text::contained(error_text(Some(v)), w) ==> !tells_of_quota(w) && !tells_of_credential(w)
                && !tells_of_throttling(w),
        v.at("success"@) != JsonView::Bool(false),
    ensures
        class_of(status, Some(v)) == class_of(status, None),
        status == 401 || status == 402 || status == 429 ==> class_of(status, None) == status,
        status == 400 || status == 413 || status == 422 ==> class_of(status, None) == 400,
        status != 400 && status != 401 && status != 402 && status != 413 && status != 422 && status
            != 429 ==> class_of(status, None) == 503,
{
    classes_have_reasons(status, Some(v));
    classes_have_reasons(status, None);
    let t = error_text(Some(v));
    if mentions(t, quota_words()) {
        let i = choose|i: int|
            0 <= i < quota_words().len() && text::contained(t, #[trigger] quota_words()[i]);
        assert(tells_of_quota(quota_words()[i]));
    }
    if mentions(t, credential_words()) {
        let i = choose|i: int|
            0 <= i < credential_words().len() && text::contained(t, #[trigger] credential_words()[i]);
        assert(tells_of_credential(credential_words()[i]));
    }
    if mentions(t, throttle_words()) {
        let i = choose|i: int|
            0 <= i < throttle_words().len() && text::contained(t, #[trigger] throttle_words()[i]);
        assert(tells_of_throttling(throttle_words()[i]));
    }
    assert forall|w: Seq<char>| #[trigger] text::contained(error_text(None), w) implies w.len()
        == 0 by {
        let i = choose|i: int| text::occurs_at(error_text(None), w, i);
    }
    telling_words_are_words();
}

proof fn telling_words_are_words()
    ensures
        forall|w: Seq<char>|
            tells_of_quota(w) || tells_of_credential(w) || tells_of_throttling(w) ==> #[trigger] w.len()
                > 0,
{
    reveal_strlit("insufficient_quota");
    reveal_strlit("insufficient_user_quota");
    reveal_strlit("insufficient_balance");
    reveal_strlit("insufficient account balance");
    reveal_strlit("insufficient balance");
    reveal_strlit("balance is not enough");
    reveal_strlit("余额不足");
    reveal_strlit("额度不足");
    reveal_strlit("额度已用尽");
    reveal_strlit("subscription exhausted");
    reveal_strlit("subscription_expired");
    reveal_strlit("weekly_limit_exceeded");
    reveal_strlit("daily_limit_exceeded");
    reveal_strlit("monthly_limit_exceeded");
    reveal_strlit("quota_exhausted");
    reveal_strlit("invalid_api_key");
    reveal_strlit("authentication_error");
    reveal_strlit("authentication fails");
    reveal_strlit("invalid token");
    reveal_strlit("invalid api key");
    reveal_strlit("令牌已过期或验证不正确");
    reveal_strlit("无效的apikey");
    reveal_strlit("api_key_expired");
    reveal_strlit("api_key_disabled");
    reveal_strlit("rate_limit_exceeded");
    reveal_strlit("rate_limit_error");
    reveal_strlit("too many requests");
    reveal_strlit("concurrency_limit");
    reveal_strlit("queue_full");
}

} // verus!
