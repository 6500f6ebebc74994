//! Protocol-neutral, read-only calendar and contact RPCs: the checks on their
//! parameters, the account's provider in the registry, and what is answered
//! around the provider's own answer.
use vstd::prelude::*;

use crate::json::{array_of, at, lookup, Json, JsonTree};
use crate::text::{byte_len, has_forbidden};

pub mod calendar;
pub mod contacts;

verus! {

pub const INVALID_PARAMS: &'static str = "invalid_params";

pub const UNKNOWN_METHOD: &'static str = "unknown_method";

pub const ACCOUNTS_INVALID: &'static str = "accounts_invalid";

/// The provider that reads remote calendars and address books.
pub const JMAP: &'static str = "jmap";

/// Text a caller may pass: at most `max` bytes, free of control and
/// bidirectional formatting characters.
pub open spec fn safe_text(s: Seq<char>, max: usize) -> bool {
    byte_len(s) <= max && !has_forbidden(s)
}

/// The first registry entry from `i` on whose id is exactly `account`.
pub open spec fn first_entry(entries: Seq<JsonTree>, account: Seq<char>, i: int) -> Option<int>
    decreases entries.len() - i,
{
    if i < 0 || i >= entries.len() {
        None
    } else if entries[i].at("id"@).is_text(account) {
        Some(i)
    } else {
        first_entry(entries, account, i + 1)
    }
}

proof fn lemma_first_entry(entries: Seq<JsonTree>, account: Seq<char>, i: int)
    requires
        0 <= i,
    ensures
        first_entry(entries, account, i) matches Some(k) ==> i <= k < entries.len(),
    decreases entries.len() - i,
{
    if i < entries.len() {
        lemma_first_entry(entries, account, i + 1);
    }
}

/// The provider of an account in the registry: the first entry with exactly
/// that id decides; no such entry is `unknown`, an entry without a provider
/// text is a broken registry.
pub open spec fn provider_spec(accounts: JsonTree, account: Seq<char>, unknown: Seq<char>) -> Result<Seq<char>, Seq<char>> {
    match accounts.at("accounts"@).as_array() {
        None => Err(unknown),
        Some(entries) => match first_entry(entries, account, 0) {
            None => Err(unknown),
            Some(k) => match entries[k].at("provider"@).as_str() {
                None => Err(ACCOUNTS_INVALID@),
                Some(provider) => Ok(provider),
            },
        },
    }
}

pub open spec fn text_result(r: Result<&str, &'static str>) -> Result<Seq<char>, Seq<char>> {
    match r {
        Ok(s) => Ok(s@),
        Err(e) => Err(e@),
    }
}

/// Finds the provider of an account in the registry.
pub fn provider_of<'a>(accounts: &'a Json, account: &str, unknown: &'static str) -> (r: Result<&'a str, &'static str>)
    ensures
        text_result(r) == provider_spec(accounts.tree(), account@, unknown@),
{
    let entries = match array_of(at(Some(accounts), "accounts")) {
        Some(entries) => entries,
        None => return Err(unknown),
    };
    let ghost items = crate::json::trees(entries@);
    let mut i: usize = 0;
    #[verifier::loop_isolation(false)]
    while i < entries.len()
        invariant
            i <= entries@.len(),
            items == crate::json::trees(entries@),
            first_entry(items, account@, 0) == first_entry(items, account@, i as int),
        decreases entries.len() - i,
    {
        let entry = &entries[i];
        assert(items[i as int] == entry.tree());
        let matches = match entry.member_str("id") {
            Some(id) => crate::text::str_eq(id, account),
            None => false,
        };
        if matches {
            assert(items[i as int].at("id"@).is_text(account@));
            return match entry.member_str("provider") {
                Some(provider) => Ok(provider),
                None => Err(ACCOUNTS_INVALID),
            };
        }
        i += 1;
    }
    Err(unknown)
}

/// Whether the account's provider is the one that reads remote data.
pub fn is_jmap(provider: &str) -> (r: bool)
    ensures
        r == (provider@ == JMAP@),
{
    crate::text::str_eq(provider, JMAP)
}

/// The member `key` of the parameters.
pub open spec fn param(fields: Seq<(Seq<char>, JsonTree)>, key: Seq<char>) -> Option<JsonTree> {
    lookup(fields, key)
}

} // verus!
