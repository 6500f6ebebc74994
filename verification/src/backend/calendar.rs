//! Protocol-neutral, read-only calendar RPCs.
use vstd::prelude::*;

use crate::backend::{is_jmap, param, provider_of, provider_spec, safe_text, text_result, INVALID_PARAMS, UNKNOWN_METHOD};
use crate::json::{array, field, field_trees, keys_of, object, opt_tree, trees, Json, JsonTree};
use crate::providers::jmap::{seen_text, strings};
use crate::text::{byte_len_within, str_eq, str_has_forbidden};

verus! {

pub const MAX_ACCOUNT_ID: usize = 512;

pub const MAX_SOURCE_ID: usize = 32768;

pub const MAX_SOURCES: usize = 256;

pub const MAX_SAFE_INTEGER: i64 = 9_007_199_254_740_991;

/// The longest range of one events read: 366 days, in milliseconds.
pub const MAX_RANGE_MS: i64 = 31_622_400_000;

pub const ACCOUNT_UNKNOWN: &'static str = "calendar_account_unknown";

pub const NOT_SUPPORTED: &'static str = "calendar_not_supported";

/// The provider of an account, with the calendar error for an unknown one.
pub fn provider_from_accounts<'a>(accounts: &'a Json, account: &str) -> (r: Result<&'a str, &'static str>)
    ensures
        text_result(r) == provider_spec(accounts.tree(), account@, ACCOUNT_UNKNOWN@),
{
    provider_of(accounts, account, ACCOUNT_UNKNOWN)
}

pub open spec fn texts_of(values: Seq<&str>) -> Seq<Seq<char>> {
    Seq::new(values.len(), |i: int| values[i]@)
}

/// The parameters are exactly the allowed ones: as many, and each allowed.
pub open spec fn allow_spec(fields: Seq<(Seq<char>, JsonTree)>, allowed: Seq<Seq<char>>) -> bool {
    fields.len() == allowed.len() && forall|i: int|
        0 <= i < fields.len() ==> allowed.contains(#[trigger] fields[i].0)
}

fn allowed_key(allowed: &[&str], key: &str) -> (r: bool)
    ensures
        r == texts_of(allowed@).contains(key@),
{
    let mut i: usize = 0;
    while i < allowed.len()
        invariant
            i <= allowed@.len(),
            forall|j: int| 0 <= j < i ==> (#[trigger] texts_of(allowed@)[j]) != key@,
        decreases allowed.len() - i,
    {
        if str_eq(allowed[i], key) {
            assert(texts_of(allowed@)[i as int] == key@);
            return true;
        }
        i += 1;
    }
    false
}

/// Refuses parameters other than exactly the allowed ones.
pub fn allow(fields: &Vec<(String, Json)>, allowed: &[&str]) -> (r: Result<(), &'static str>)
    ensures
        r is Ok <==> allow_spec(field_trees(fields@), texts_of(allowed@)),
        r matches Err(e) ==> e@ == INVALID_PARAMS@,
{
    if fields.len() != allowed.len() {
        return Err(INVALID_PARAMS);
    }
    let ghost keys = field_trees(fields@);
    let mut i: usize = 0;
    while i < fields.len()
        invariant
            i <= fields@.len(),
            keys == field_trees(fields@),
            forall|j: int| 0 <= j < i ==> texts_of(allowed@).contains(#[trigger] keys[j].0),
        decreases fields.len() - i,
    {
        assert(keys[i as int].0 == fields@[i as int].0@);
        if !allowed_key(allowed, fields[i].0.as_str()) {
            return Err(INVALID_PARAMS);
        }
        i += 1;
    }
    Ok(())
}

/// For an object whose keys are distinct, as those of a parsed JSON object
/// are, and distinct allowed names, the parameters pass exactly when their
/// keys are the allowed names: none missing and none besides.
pub proof fn allow_admits_exactly_the_allowed_names(fields: Seq<(Seq<char>, JsonTree)>, allowed: Seq<Seq<char>>)
    requires
        keys_of(fields).no_duplicates(),
        allowed.no_duplicates(),
    ensures
        allow_spec(fields, allowed) <==> keys_of(fields).to_set() == allowed.to_set(),
{
    let keys = keys_of(fields);
    keys.unique_seq_to_set();
    allowed.unique_seq_to_set();
    vstd::seq_lib::seq_to_set_is_finite(keys);
    vstd::seq_lib::seq_to_set_is_finite(allowed);
    if allow_spec(fields, allowed) {
        assert forall|k: Seq<char>| keys.to_set().contains(k) implies allowed.to_set().contains(k) by {
            let i = choose|i: int| 0 <= i < keys.len() && keys[i] == k;
            assert(allowed.contains(fields[i].0));
        }
        vstd::set_lib::lemma_subset_equality(keys.to_set(), allowed.to_set());
    }
    if keys.to_set() == allowed.to_set() {
        assert forall|i: int| 0 <= i < fields.len() implies allowed.contains(#[trigger] fields[i].0) by {
            assert(keys[i] == fields[i].0);
            assert(keys.to_set().contains(keys[i]));
            assert(allowed.to_set().contains(keys[i]));
        }
    }
}

/// A non-empty text of at most `max` bytes without control or
/// bidirectional formatting characters.
pub open spec fn bounded_text_spec(value: JsonTree, max: usize) -> Result<Seq<char>, Seq<char>> {
    match value.as_str() {
        Some(s) => if s.len() > 0 && safe_text(s, max) {
            Ok(s)
        } else {
            Err(INVALID_PARAMS@)
        },
        None => Err(INVALID_PARAMS@),
    }
}

pub fn bounded_text<'a>(value: Option<&'a Json>, max: usize) -> (r: Result<&'a str, &'static str>)
    ensures
        text_result(r) == bounded_text_spec(opt_tree(value), max),
{
    let s = match value {
        Some(v) => match v.as_str() {
            Some(s) => s,
            None => return Err(INVALID_PARAMS),
        },
        None => return Err(INVALID_PARAMS),
    };
    if s.is_empty() || !byte_len_within(s, max) || str_has_forbidden(s) {
        return Err(INVALID_PARAMS);
    }
    Ok(s)
}

/// The member of a parameter object, as a value.
pub open spec fn get(fields: Seq<(Seq<char>, JsonTree)>, key: Seq<char>) -> JsonTree {
    match param(fields, key) {
        Some(v) => v,
        None => JsonTree::Null,
    }
}

pub open spec fn account_id_spec(fields: Seq<(Seq<char>, JsonTree)>) -> Result<Seq<char>, Seq<char>> {
    bounded_text_spec(get(fields, "accountId"@), MAX_ACCOUNT_ID)
}

/// The account a call names.
pub fn account_id(fields: &Vec<(String, Json)>) -> (r: Result<&str, &'static str>)
    ensures
        text_result(r) == account_id_spec(field_trees(fields@)),
{
    bounded_text(field(fields, "accountId"), MAX_ACCOUNT_ID)
}

/// The source tokens of the first `n` values: each a bounded text not given before.
pub open spec fn sources_read(values: Seq<JsonTree>, n: int) -> Result<Seq<Seq<char>>, Seq<char>>
    decreases n,
{
    if n <= 0 {
        Ok(Seq::empty())
    } else {
        match sources_read(values, n - 1) {
            Err(e) => Err(e),
            Ok(seen) => match bounded_text_spec(values[n - 1], MAX_SOURCE_ID) {
                Err(e) => Err(e),
                Ok(source) => if seen.contains(source) {
                    Err(INVALID_PARAMS@)
                } else {
                    Ok(seen.push(source))
                },
            },
        }
    }
}

proof fn lemma_sources_read_err(values: Seq<JsonTree>, k: int, n: int)
    requires
        0 <= k <= n,
        sources_read(values, k) is Err,
    ensures
        sources_read(values, n) == sources_read(values, k),
    decreases n - k,
{
    if k < n {
        lemma_sources_read_err(values, k, n - 1);
    }
}

/// The requested sources: a non-empty array of at most `MAX_SOURCES`
/// distinct bounded texts.
pub open spec fn source_ids_spec(fields: Seq<(Seq<char>, JsonTree)>) -> Result<Seq<Seq<char>>, Seq<char>> {
    match get(fields, "sources"@).as_array() {
        Some(values) => if values.len() == 0 || values.len() > MAX_SOURCES {
            Err(INVALID_PARAMS@)
        } else {
            sources_read(values, values.len() as int)
        },
        None => Err(INVALID_PARAMS@),
    }
}

pub open spec fn strings_result(r: Result<Vec<String>, &'static str>) -> Result<Seq<Seq<char>>, Seq<char>> {
    match r {
        Ok(v) => Ok(strings(v@)),
        Err(e) => Err(e@),
    }
}

/// The source tokens a call asks for.
pub fn source_ids(fields: &Vec<(String, Json)>) -> (r: Result<Vec<String>, &'static str>)
    ensures
        strings_result(r) == source_ids_spec(field_trees(fields@)),
{
    let value = field(fields, "sources");
    let values = match value {
        Some(v) => match v.as_array() {
            Some(values) => values,
            None => return Err(INVALID_PARAMS),
        },
        None => return Err(INVALID_PARAMS),
    };
    if values.len() == 0 || values.len() > MAX_SOURCES {
        return Err(INVALID_PARAMS);
    }
    let ghost items = trees(values@);
    let mut sources: Vec<String> = Vec::new();
    let mut i: usize = 0;
    assert(strings(sources@) =~= Seq::<Seq<char>>::empty());
    #[verifier::loop_isolation(false)]
    while i < values.len()
        invariant
            i <= values@.len(),
            items == trees(values@),
            sources_read(items, i as int) == Ok::<Seq<Seq<char>>, Seq<char>>(strings(sources@)),
        decreases values.len() - i,
    {
        assert(items[i as int] == values@[i as int].tree());
        let source = match bounded_text(Some(&values[i]), MAX_SOURCE_ID) {
            Ok(source) => source,
            Err(e) => {
                proof {
                    lemma_sources_read_err(items, i as int + 1, items.len() as int);
                }
                return Err(e);
            },
        };
        if seen_text(&sources, source) {
            proof {
                lemma_sources_read_err(items, i as int + 1, items.len() as int);
            }
            return Err(INVALID_PARAMS);
        }
        let ghost before = strings(sources@);
        sources.push(source.to_owned());
        assert(strings(sources@) =~= before.push(source@));
        i += 1;
    }
    Ok(sources)
}

/// An integer instant that JavaScript represents exactly.
pub open spec fn epoch_ms_spec(fields: Seq<(Seq<char>, JsonTree)>, key: Seq<char>) -> Result<i64, Seq<char>> {
    match get(fields, key).as_i64() {
        Some(v) => if -MAX_SAFE_INTEGER <= v <= MAX_SAFE_INTEGER {
            Ok(v)
        } else {
            Err(INVALID_PARAMS@)
        },
        None => Err(INVALID_PARAMS@),
    }
}

pub open spec fn ms_result(r: Result<i64, &'static str>) -> Result<i64, Seq<char>> {
    match r {
        Ok(v) => Ok(v),
        Err(e) => Err(e@),
    }
}

pub fn epoch_ms(fields: &Vec<(String, Json)>, key: &str) -> (r: Result<i64, &'static str>)
    ensures
        ms_result(r) == epoch_ms_spec(field_trees(fields@), key@),
{
    let v = match field(fields, key) {
        Some(value) => match value.as_i64() {
            Some(v) => v,
            None => return Err(INVALID_PARAMS),
        },
        None => return Err(INVALID_PARAMS),
    };
    if v < -MAX_SAFE_INTEGER || v > MAX_SAFE_INTEGER {
        return Err(INVALID_PARAMS);
    }
    Ok(v)
}

/// A validated calendar call.
pub enum CalendarCall {
    Sources { account: String },
    Events { account: String, sources: Vec<String>, start: i64, end: i64 },
}

/// What a validated calendar call asks for.
pub enum CalendarRequest {
    Sources { account: Seq<char> },
    Events { account: Seq<char>, sources: Seq<Seq<char>>, start: i64, end: i64 },
}

impl CalendarCall {
    pub open spec fn request(&self) -> CalendarRequest {
        match self {
            CalendarCall::Sources { account } => CalendarRequest::Sources { account: account@ },
            CalendarCall::Events { account, sources, start, end } => CalendarRequest::Events {
                account: account@,
                sources: strings(sources@),
                start: *start,
                end: *end,
            },
        }
    }
}

/// The parameters of `calendar.events`: exact keys, then the account, the
/// sources, and a non-empty half-open range of at most `MAX_RANGE_MS`.
pub open spec fn events_call_spec(fields: Seq<(Seq<char>, JsonTree)>) -> Result<CalendarRequest, Seq<char>> {
    if !allow_spec(fields, seq!["accountId"@, "sources"@, "start"@, "end"@]) {
        Err(INVALID_PARAMS@)
    } else {
        match account_id_spec(fields) {
            Err(e) => Err(e),
            Ok(account) => match source_ids_spec(fields) {
                Err(e) => Err(e),
                Ok(sources) => match epoch_ms_spec(fields, "start"@) {
                    Err(e) => Err(e),
                    Ok(start) => match epoch_ms_spec(fields, "end"@) {
                        Err(e) => Err(e),
                        Ok(end) => if end <= start || end - start > MAX_RANGE_MS {
                            Err(INVALID_PARAMS@)
                        } else {
                            Ok(CalendarRequest::Events { account, sources, start, end })
                        },
                    },
                },
            },
        }
    }
}

/// A calendar RPC checked before any account lookup: the parameters must be
/// an object, the method known, and its parameters valid.
pub open spec fn calendar_call_spec(method: Seq<char>, params: JsonTree) -> Result<CalendarRequest, Seq<char>> {
    match params.as_object() {
        None => Err(INVALID_PARAMS@),
        Some(fields) => if method == "calendar.sources"@ {
            if !allow_spec(fields, seq!["accountId"@]) {
                Err(INVALID_PARAMS@)
            } else {
                match account_id_spec(fields) {
                    Err(e) => Err(e),
                    Ok(account) => Ok(CalendarRequest::Sources { account }),
                }
            }
        } else if method == "calendar.events"@ {
            events_call_spec(fields)
        } else {
            Err(UNKNOWN_METHOD@)
        },
    }
}

pub open spec fn call_result(r: Result<CalendarCall, &'static str>) -> Result<CalendarRequest, Seq<char>> {
    match r {
        Ok(c) => Ok(c.request()),
        Err(e) => Err(e@),
    }
}

/// Checks a calendar RPC; nothing is looked up before its parameters pass.
pub fn calendar_call(method: &str, params: &Json) -> (r: Result<CalendarCall, &'static str>)
    ensures
        call_result(r) == calendar_call_spec(method@, params.tree()),
{
    let fields = match params.as_object() {
        Some(fields) => fields,
        None => return Err(INVALID_PARAMS),
    };
    proof {
        reveal_strlit("calendar.sources");
        reveal_strlit("calendar.events");
    }
    if str_eq(method, "calendar.sources") {
        let allowed = ["accountId"];
        proof {
            assert(texts_of(allowed@) =~= seq!["accountId"@]);
        }
        allow(fields, &allowed)?;
        let account = account_id(fields)?;
        Ok(CalendarCall::Sources { account: account.to_owned() })
    } else if str_eq(method, "calendar.events") {
        let allowed = ["accountId", "sources", "start", "end"];
        proof {
            assert(texts_of(allowed@) =~= seq!["accountId"@, "sources"@, "start"@, "end"@]);
        }
        allow(fields, &allowed)?;
        let account = account_id(fields)?;
        let sources = source_ids(fields)?;
        let start = epoch_ms(fields, "start")?;
        let end = epoch_ms(fields, "end")?;
        if end <= start || end - start > MAX_RANGE_MS {
            return Err(INVALID_PARAMS);
        }
        Ok(CalendarCall::Events { account: account.to_owned(), sources, start, end })
    } else {
        Err(UNKNOWN_METHOD)
    }
}

/// The empty answer of a call.
pub open spec fn empty_answer_spec(request: CalendarRequest) -> JsonTree {
    match request {
        CalendarRequest::Sources { .. } => JsonTree::Object(seq![("sources"@, JsonTree::Array(Seq::empty()))]),
        CalendarRequest::Events { .. } => JsonTree::Object(seq![("events"@, JsonTree::Array(Seq::empty()))]),
    }
}

pub fn empty_answer(call: &CalendarCall) -> (r: Json)
    ensures
        r.tree() == empty_answer_spec(call.request()),
{
    let key = match call {
        CalendarCall::Sources { .. } => "sources",
        CalendarCall::Events { .. } => "events",
    };
    let list = array(Vec::new());
    assert(list.tree()->Array_0 =~= Seq::<JsonTree>::empty());
    let r = object(vec![(key.to_owned(), list)]);
    assert(r.tree()->Object_0 =~= empty_answer_spec(call.request())->Object_0);
    r
}

/// The answer where no remote read is made: an account of another provider
/// has no remote calendars. `None`: ask the JMAP provider.
pub fn local_answer(call: &CalendarCall, provider: &str) -> (r: Option<Json>)
    ensures
        r is None <==> provider@ == crate::backend::JMAP@,
        r matches Some(answer) ==> answer.tree() == empty_answer_spec(call.request()),
{
    if is_jmap(provider) {
        None
    } else {
        Some(empty_answer(call))
    }
}

/// The answer from the provider's result: an account without the calendar
/// capability has no calendars; anything else is passed on.
pub open spec fn remote_answer_spec(request: CalendarRequest, result: Result<JsonTree, Seq<char>>) -> Result<JsonTree, Seq<char>> {
    match result {
        Err(e) => if e == NOT_SUPPORTED@ {
            Ok(empty_answer_spec(request))
        } else {
            Err(e)
        },
        Ok(v) => Ok(v),
    }
}

pub fn remote_answer(call: &CalendarCall, result: Result<Json, &'static str>) -> (r: Result<Json, &'static str>)
    ensures
        crate::providers::jmap::calendar::json_result(r) == remote_answer_spec(
            call.request(),
            crate::providers::jmap::calendar::json_result(result),
        ),
{
    match result {
        Err(e) => if str_eq(e, NOT_SUPPORTED) {
            Ok(empty_answer(call))
        } else {
            Err(e)
        },
        Ok(v) => Ok(v),
    }
}

} // verus!
