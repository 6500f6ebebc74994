//! Protocol-neutral read-only contact RPCs. A suggestion call without an
//! account stays local-only.
use vstd::prelude::*;

use crate::backend::calendar::texts_of;
use crate::backend::{is_jmap, param, provider_of, provider_spec, safe_text, text_result, INVALID_PARAMS, UNKNOWN_METHOD};
use crate::json::{array, field, field_trees, object, Json, JsonTree};
use crate::providers::jmap::calendar::json_result;
use crate::text::{byte_len_within, str_eq, str_has_forbidden};

verus! {

pub const MAX_ACCOUNT_ID: usize = 512;

pub const MAX_SOURCE: usize = 8192;

pub const MAX_QUERY: usize = 256;

pub const MAX_LIMIT: usize = 200;

pub const DEFAULT_LIMIT: usize = 50;

pub const ACCOUNT_UNKNOWN: &'static str = "contacts_account_unknown";

pub const NOT_SUPPORTED: &'static str = "contacts_not_supported";

/// The provider of an account, with the contacts error for an unknown one.
pub fn provider_from_accounts<'a>(accounts: &'a Json, account: &str) -> (r: Result<&'a str, &'static str>)
    ensures
        text_result(r) == provider_spec(accounts.tree(), account@, ACCOUNT_UNKNOWN@),
{
    provider_of(accounts, account, ACCOUNT_UNKNOWN)
}

/// Every parameter is one of the allowed ones; any may be missing.
pub open spec fn allow_spec(fields: Seq<(Seq<char>, JsonTree)>, allowed: Seq<Seq<char>>) -> bool {
    forall|i: int| 0 <= i < fields.len() ==> allowed.contains(#[trigger] fields[i].0)
}

/// Refuses a parameter that is not allowed.
pub fn allow(fields: &Vec<(String, Json)>, allowed: &[&str]) -> (r: Result<(), &'static str>)
    ensures
        r is Ok <==> allow_spec(field_trees(fields@), texts_of(allowed@)),
        r matches Err(e) ==> e@ == INVALID_PARAMS@,
{
    let ghost keys = field_trees(fields@);
    let mut i: usize = 0;
    while i < fields.len()
        invariant
            i <= fields@.len(),
            keys == field_trees(fields@),
            forall|j: int| 0 <= j < i ==> texts_of(allowed@).contains(#[trigger] keys[j].0),
        decreases fields.len() - i,
    {
        assert(keys[i as int].0 == fields@[i as int].0@);
        let mut found = false;
        let mut k: usize = 0;
        while k < allowed.len()
            invariant
                k <= allowed@.len(),
                i < fields@.len(),
                found ==> texts_of(allowed@).contains(keys[i as int].0),
                !found ==> forall|j: int| 0 <= j < k ==> (#[trigger] texts_of(allowed@)[j]) != keys[i as int].0,
                keys[i as int].0 == fields@[i as int].0@,
            decreases allowed.len() - k,
        {
            if str_eq(allowed[k], fields[i].0.as_str()) {
                assert(texts_of(allowed@)[k as int] == keys[i as int].0);
                found = true;
            }
            k += 1;
        }
        if !found {
            return Err(INVALID_PARAMS);
        }
        i += 1;
    }
    Ok(())
}

/// An optional text parameter: absent, or a string of at most `max` bytes
/// without control or bidirectional formatting characters.
pub open spec fn text_spec(fields: Seq<(Seq<char>, JsonTree)>, key: Seq<char>, max: usize) -> Result<Option<Seq<char>>, Seq<char>> {
    match param(fields, key) {
        None => Ok(None),
        Some(JsonTree::Str(s)) => if safe_text(s, max) {
            Ok(Some(s))
        } else {
            Err(INVALID_PARAMS@)
        },
        Some(_) => Err(INVALID_PARAMS@),
    }
}

pub open spec fn opt_text_result(r: Result<Option<&str>, &'static str>) -> Result<Option<Seq<char>>, Seq<char>> {
    match r {
        Ok(Some(s)) => Ok(Some(s@)),
        Ok(None) => Ok(None),
        Err(e) => Err(e@),
    }
}

pub fn text<'a>(fields: &'a Vec<(String, Json)>, key: &str, max: usize) -> (r: Result<Option<&'a str>, &'static str>)
    ensures
        opt_text_result(r) == text_spec(field_trees(fields@), key@, max),
{
    match field(fields, key) {
        None => Ok(None),
        Some(value) => match value.as_str() {
            Some(s) => if byte_len_within(s, max) && !str_has_forbidden(s) {
                Ok(Some(s))
            } else {
                Err(INVALID_PARAMS)
            },
            None => Err(INVALID_PARAMS),
        },
    }
}

/// A text parameter that must be present and non-empty.
pub open spec fn required_text_spec(fields: Seq<(Seq<char>, JsonTree)>, key: Seq<char>, max: usize) -> Result<Seq<char>, Seq<char>> {
    match text_spec(fields, key, max) {
        Err(e) => Err(e),
        Ok(Some(s)) => if s.len() > 0 {
            Ok(s)
        } else {
            Err(INVALID_PARAMS@)
        },
        Ok(None) => Err(INVALID_PARAMS@),
    }
}

pub fn required_text<'a>(fields: &'a Vec<(String, Json)>, key: &str, max: usize) -> (r: Result<&'a str, &'static str>)
    ensures
        text_result(r) == required_text_spec(field_trees(fields@), key@, max),
{
    match text(fields, key, max)? {
        Some(s) => if s.is_empty() {
            Err(INVALID_PARAMS)
        } else {
            Ok(s)
        },
        None => Err(INVALID_PARAMS),
    }
}

pub open spec fn account_id_spec(fields: Seq<(Seq<char>, JsonTree)>) -> Result<Seq<char>, Seq<char>> {
    required_text_spec(fields, "accountId"@, MAX_ACCOUNT_ID)
}

/// The account a call names.
pub fn account_id(fields: &Vec<(String, Json)>) -> (r: Result<&str, &'static str>)
    ensures
        text_result(r) == account_id_spec(field_trees(fields@)),
{
    required_text(fields, "accountId", MAX_ACCOUNT_ID)
}

/// A count parameter: absent gives the fallback; otherwise a non-negative
/// integer of at most `max`.
pub open spec fn number_spec(fields: Seq<(Seq<char>, JsonTree)>, key: Seq<char>, fallback: usize, max: usize) -> Result<usize, Seq<char>> {
    match param(fields, key) {
        None => Ok(fallback),
        Some(value) => match value.as_u64() {
            Some(n) => if n <= max {
                Ok(n as usize)
            } else {
                Err(INVALID_PARAMS@)
            },
            None => Err(INVALID_PARAMS@),
        },
    }
}

pub open spec fn count_result(r: Result<usize, &'static str>) -> Result<usize, Seq<char>> {
    match r {
        Ok(n) => Ok(n),
        Err(e) => Err(e@),
    }
}

pub fn number(fields: &Vec<(String, Json)>, key: &str, fallback: usize, max: usize) -> (r: Result<usize, &'static str>)
    ensures
        count_result(r) == number_spec(field_trees(fields@), key@, fallback, max),
{
    match field(fields, key) {
        None => Ok(fallback),
        Some(value) => match value.as_u64() {
            Some(n) => if n <= max as u64 {
                Ok(n as usize)
            } else {
                Err(INVALID_PARAMS)
            },
            None => Err(INVALID_PARAMS),
        },
    }
}

/// A validated contact call.
pub enum ContactsCall {
    /// Suggestions from the local address books alone.
    LocalSuggest,
    Suggest { account: String },
    Sources { account: String },
    List { account: String, source: String, query: String, limit: usize, position: usize },
    Detail { account: String, id: String },
}

/// What a validated contact call asks for.
pub enum ContactsRequest {
    LocalSuggest,
    Suggest { account: Seq<char> },
    Sources { account: Seq<char> },
    List { account: Seq<char>, source: Seq<char>, query: Seq<char>, limit: usize, position: usize },
    Detail { account: Seq<char>, id: Seq<char> },
}

impl ContactsCall {
    pub open spec fn request(&self) -> ContactsRequest {
        match self {
            ContactsCall::LocalSuggest => ContactsRequest::LocalSuggest,
            ContactsCall::Suggest { account } => ContactsRequest::Suggest { account: account@ },
            ContactsCall::Sources { account } => ContactsRequest::Sources { account: account@ },
            ContactsCall::List { account, source, query, limit, position } => ContactsRequest::List {
                account: account@,
                source: source@,
                query: query@,
                limit: *limit,
                position: *position,
            },
            ContactsCall::Detail { account, id } => ContactsRequest::Detail { account: account@, id: id@ },
        }
    }
}

/// The parameters of `contacts.list`.
pub open spec fn list_call_spec(fields: Seq<(Seq<char>, JsonTree)>) -> Result<ContactsRequest, Seq<char>> {
    if !allow_spec(fields, seq!["accountId"@, "source"@, "query"@, "limit"@, "position"@]) {
        Err(INVALID_PARAMS@)
    } else {
        match account_id_spec(fields) {
            Err(e) => Err(e),
            Ok(account) => match required_text_spec(fields, "source"@, MAX_SOURCE) {
                Err(e) => Err(e),
                Ok(source) => match text_spec(fields, "query"@, MAX_QUERY) {
                    Err(e) => Err(e),
                    Ok(query) => match number_spec(fields, "limit"@, DEFAULT_LIMIT, MAX_LIMIT) {
                        Err(e) => Err(e),
                        Ok(limit) => match number_spec(fields, "position"@, 0, usize::MAX) {
                            Err(e) => Err(e),
                            Ok(position) => Ok(
                                ContactsRequest::List {
                                    account,
                                    source,
                                    query: match query {
                                        Some(q) => q,
                                        None => Seq::empty(),
                                    },
                                    limit,
                                    position,
                                },
                            ),
                        },
                    },
                },
            },
        }
    }
}

/// A contact RPC checked before any account lookup.
pub open spec fn contacts_call_spec(method: Seq<char>, params: JsonTree) -> Result<ContactsRequest, Seq<char>> {
    match params.as_object() {
        None => Err(INVALID_PARAMS@),
        Some(fields) => if method == "contacts.suggest"@ {
            if !allow_spec(fields, seq!["accountId"@]) {
                Err(INVALID_PARAMS@)
            } else if param(fields, "accountId"@) is None {
                Ok(ContactsRequest::LocalSuggest)
            } else {
                match account_id_spec(fields) {
                    Err(e) => Err(e),
                    Ok(account) => Ok(ContactsRequest::Suggest { account }),
                }
            }
        } else if method == "contacts.sources"@ {
            if !allow_spec(fields, seq!["accountId"@]) {
                Err(INVALID_PARAMS@)
            } else {
                match account_id_spec(fields) {
                    Err(e) => Err(e),
                    Ok(account) => Ok(ContactsRequest::Sources { account }),
                }
            }
        } else if method == "contacts.list"@ {
            list_call_spec(fields)
        } else if method == "contacts.detail"@ {
            if !allow_spec(fields, seq!["accountId"@, "id"@]) {
                Err(INVALID_PARAMS@)
            } else {
                match account_id_spec(fields) {
                    Err(e) => Err(e),
                    Ok(account) => match required_text_spec(fields, "id"@, MAX_SOURCE) {
                        Err(e) => Err(e),
                        Ok(id) => Ok(ContactsRequest::Detail { account, id }),
                    },
                }
            }
        } else {
            Err(UNKNOWN_METHOD@)
        },
    }
}

pub open spec fn call_result(r: Result<ContactsCall, &'static str>) -> Result<ContactsRequest, Seq<char>> {
    match r {
        Ok(c) => Ok(c.request()),
        Err(e) => Err(e@),
    }
}

/// Checks a contact RPC; nothing is looked up before its parameters pass.
pub fn contacts_call(method: &str, params: &Json) -> (r: Result<ContactsCall, &'static str>)
    ensures
        call_result(r) == contacts_call_spec(method@, params.tree()),
{
    let fields = match params.as_object() {
        Some(fields) => fields,
        None => return Err(INVALID_PARAMS),
    };
    proof {
        reveal_strlit("contacts.suggest");
        reveal_strlit("contacts.sources");
        reveal_strlit("contacts.list");
        reveal_strlit("contacts.detail");
        reveal_strlit("");
    }
    let only_account = ["accountId"];
    assert(texts_of(only_account@) =~= seq!["accountId"@]);
    if str_eq(method, "contacts.suggest") {
        allow(fields, &only_account)?;
        if field(fields, "accountId").is_none() {
            return Ok(ContactsCall::LocalSuggest);
        }
        let account = account_id(fields)?;
        Ok(ContactsCall::Suggest { account: account.to_owned() })
    } else if str_eq(method, "contacts.sources") {
        allow(fields, &only_account)?;
        let account = account_id(fields)?;
        Ok(ContactsCall::Sources { account: account.to_owned() })
    } else if str_eq(method, "contacts.list") {
        let allowed = ["accountId", "source", "query", "limit", "position"];
        assert(texts_of(allowed@) =~= seq!["accountId"@, "source"@, "query"@, "limit"@, "position"@]);
        allow(fields, &allowed)?;
        let account = account_id(fields)?;
        let source = required_text(fields, "source", MAX_SOURCE)?;
        let query = match text(fields, "query", MAX_QUERY)? {
            Some(q) => q,
            None => "",
        };
        let limit = number(fields, "limit", DEFAULT_LIMIT, MAX_LIMIT)?;
        let position = number(fields, "position", 0, usize::MAX)?;
        assert(query@ == match text_spec(field_trees(fields@), "query"@, MAX_QUERY) {
            Ok(Some(q)) => q,
            _ => Seq::<char>::empty(),
        });
        Ok(
            ContactsCall::List {
                account: account.to_owned(),
                source: source.to_owned(),
                query: query.to_owned(),
                limit,
                position,
            },
        )
    } else if str_eq(method, "contacts.detail") {
        let allowed = ["accountId", "id"];
        assert(texts_of(allowed@) =~= seq!["accountId"@, "id"@]);
        allow(fields, &allowed)?;
        let account = account_id(fields)?;
        let id = required_text(fields, "id", MAX_SOURCE)?;
        Ok(ContactsCall::Detail { account: account.to_owned(), id: id.to_owned() })
    } else {
        Err(UNKNOWN_METHOD)
    }
}

/// The answer of an account without remote contacts.
pub open spec fn empty_answer_spec(request: ContactsRequest) -> Result<JsonTree, Seq<char>> {
    match request {
        ContactsRequest::Sources { .. } => Ok(JsonTree::Object(seq![("sources"@, JsonTree::Array(Seq::empty()))])),
        ContactsRequest::List { .. } => Ok(
            JsonTree::Object(
                seq![
                    ("contacts"@, JsonTree::Array(Seq::empty())),
                    ("total"@, JsonTree::UInt(0)),
                    ("position"@, JsonTree::UInt(0)),
                ],
            ),
        ),
        _ => Err(NOT_SUPPORTED@),
    }
}

fn empty_answer(call: &ContactsCall) -> (r: Result<Json, &'static str>)
    ensures
        json_result(r) == empty_answer_spec(call.request()),
{
    match call {
        ContactsCall::Sources { .. } => {
            let list = array(Vec::new());
            assert(list.tree()->Array_0 =~= Seq::<JsonTree>::empty());
            let r = object(vec![("sources".to_owned(), list)]);
            assert(r.tree()->Object_0 =~= seq![("sources"@, JsonTree::Array(Seq::empty()))]);
            Ok(r)
        },
        ContactsCall::List { .. } => {
            let list = array(Vec::new());
            assert(list.tree()->Array_0 =~= Seq::<JsonTree>::empty());
            let r = object(
                vec![
                    ("contacts".to_owned(), list),
                    ("total".to_owned(), Json::UInt(0)),
                    ("position".to_owned(), Json::UInt(0)),
                ],
            );
            assert(r.tree()->Object_0 =~= seq![
                ("contacts"@, JsonTree::Array(Seq::empty())),
                ("total"@, JsonTree::UInt(0)),
                ("position"@, JsonTree::UInt(0)),
            ]);
            Ok(r)
        },
        _ => Err(NOT_SUPPORTED),
    }
}

/// The answer where no remote read is made, for the sources, list and
/// detail calls: an account of another provider has no remote address
/// books, and no remote card to show. `None`: ask the JMAP provider.
pub fn local_answer(call: &ContactsCall, provider: &str) -> (r: Option<Result<Json, &'static str>>)
    ensures
        r is None <==> provider@ == crate::backend::JMAP@,
        r matches Some(answer) ==> json_result(answer) == empty_answer_spec(call.request()),
{
    if is_jmap(provider) {
        None
    } else {
        Some(empty_answer(call))
    }
}

/// The answer from the provider's result, for the sources, list and detail
/// calls: an account without the contacts capability has no sources and no
/// rows; a detail read passes every result on.
pub open spec fn remote_answer_spec(request: ContactsRequest, result: Result<JsonTree, Seq<char>>) -> Result<JsonTree, Seq<char>> {
    match result {
        Err(e) => if e == NOT_SUPPORTED@ {
            empty_answer_spec(request)
        } else {
            Err(e)
        },
        Ok(v) => Ok(v),
    }
}

pub fn remote_answer(call: &ContactsCall, result: Result<Json, &'static str>) -> (r: Result<Json, &'static str>)
    ensures
        json_result(r) == remote_answer_spec(call.request(), json_result(result)),
{
    match result {
        Err(e) => if str_eq(e, NOT_SUPPORTED) {
            empty_answer(call)
        } else {
            Err(e)
        },
        Ok(v) => Ok(v),
    }
}

/// What a suggestion call for an account answers once the local
/// suggestions are known.
pub enum Suggestion {
    /// The local suggestions alone.
    Local,
    /// The local suggestions merged with these remote ones.
    Merge(Json),
    Fail(&'static str),
}

/// An account of another provider, or one whose server lacks contacts,
/// suggests from the local address books alone; remote rows are merged in;
/// any other remote failure fails the call.
pub open spec fn suggestion_spec(provider: Seq<char>, remote: Result<JsonTree, Seq<char>>) -> (Option<JsonTree>, Option<Seq<char>>) {
    if provider != crate::backend::JMAP@ {
        (None, None)
    } else {
        match remote {
            Ok(rows) => (Some(rows), None),
            Err(e) => if e == NOT_SUPPORTED@ {
                (None, None)
            } else {
                (None, Some(e))
            },
        }
    }
}

/// Decides a suggestion call; `remote` is the provider's result, which only
/// a JMAP account has.
pub fn suggestion(provider: &str, remote: Option<Result<Json, &'static str>>) -> (r: Suggestion)
    requires
        remote is Some <==> provider@ == crate::backend::JMAP@,
    ensures
        match r {
            Suggestion::Local => suggestion_spec(provider@, json_result(remote->Some_0)) == (None::<JsonTree>, None::<Seq<char>>)
                || remote is None,
            Suggestion::Merge(rows) => remote is Some && suggestion_spec(provider@, json_result(remote->Some_0)) == (
                Some(rows.tree()),
                None::<Seq<char>>,
            ),
            Suggestion::Fail(e) => remote is Some && suggestion_spec(provider@, json_result(remote->Some_0)) == (
                None::<JsonTree>,
                Some(e@),
            ),
        },
        remote is None ==> r is Local,
{
    match remote {
        None => Suggestion::Local,
        Some(Ok(rows)) => Suggestion::Merge(rows),
        Some(Err(e)) => if str_eq(e, NOT_SUPPORTED) {
            Suggestion::Local
        } else {
            Suggestion::Fail(e)
        },
    }
}

} // verus!
