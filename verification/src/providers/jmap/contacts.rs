//! Read-only JMAP Contacts projection: recipient suggestions and address books.
use vstd::prelude::*;

use crate::json::{
    json_size, json_size_of,
    array, array_of, at, field, field_trees, is_object, is_true, lemma_lookup_first, lemma_trees_push, lookup, object, object_of,
    opt_tree, str_of, text, text_list, trees, Json, JsonTree,
};
use crate::order::{
    key_is, lemma_filter_map, lemma_map_multiset, lex_le, push_text_key, sort_by_key, text_key, values_of, with_key,
};
use crate::providers::jmap::calendar::{json_result, str_result, string_result, texts_array, texts_json};
use crate::providers::jmap::{
    bounded_id, collect, count_distinct, distinct_count, joined_chunks, lemma_collect_err, lemma_collect_origin, lemma_collect_keeps, lemma_collect_step, seen_text,
    strings, valid_id, INVALID_RESPONSE, MAX_BODY, TOO_LARGE, UNAUTHORIZED,
};
use crate::text::{
    byte_len, byte_len_within, clean, join_texts, joined, lowercase, prefix, str_eq, to_lowercase, without_controls,
};

verus! {

pub const CORE: &'static str = "urn:ietf:params:jmap:core";

pub const CONTACTS: &'static str = "urn:ietf:params:jmap:contacts";

pub const MAX_REMOTE_CONTACTS: usize = 1000;

pub const MAX_LIST: usize = 2000;

pub const MAX_BOOKS: usize = 256;

pub const MAX_EMAILS_PER_CARD: usize = 64;

pub const MAX_ENTRIES_PER_CARD: usize = 64;

pub const MAX_COMPONENTS: usize = 64;

pub const MAX_TEXT: usize = 4096;

pub const MAX_LABEL: usize = 64;

pub const NOT_SUPPORTED: &'static str = "contacts_not_supported";

pub const NO_ADDRESS_BOOK: &'static str = "contacts_no_address_book";

pub const NOT_FOUND: &'static str = "contacts_not_found";

pub const SOURCE_UNKNOWN: &'static str = "contacts_source_unknown";

pub const TOO_MANY: &'static str = "contacts_too_many";

// ---------------------------------------------------------------------------
// Capability and address-book rights
// ---------------------------------------------------------------------------

/// The account that serves contacts, found independently of the mail account.
pub open spec fn contacts_account_spec(document: JsonTree) -> Result<Seq<char>, Seq<char>> {
    if document.at("capabilities"@).at(CONTACTS@).as_object() is None {
        Err(NOT_SUPPORTED@)
    } else {
        match document.at("primaryAccounts"@).at(CONTACTS@).as_str() {
            None => Err(NOT_SUPPORTED@),
            Some(account) => if !valid_id(account) {
                Err(INVALID_RESPONSE@)
            } else if document.at("accounts"@).at(account).at("accountCapabilities"@).at(
                CONTACTS@,
            ).as_object() is None {
                Err(NOT_SUPPORTED@)
            } else {
                Ok(account)
            },
        }
    }
}

/// Resolves the primary contacts account of a JMAP session document.
pub fn contacts_account(document: &Json) -> (r: Result<&str, &'static str>)
    ensures
        str_result(r) == contacts_account_spec(document.tree()),
{
    if !is_object(at(at(Some(document), "capabilities"), CONTACTS)) {
        return Err(NOT_SUPPORTED);
    }
    let account = match str_of(at(at(Some(document), "primaryAccounts"), CONTACTS)) {
        Some(account) => account,
        None => return Err(NOT_SUPPORTED),
    };
    bounded_id(account)?;
    if !is_object(at(at(at(at(Some(document), "accounts"), account), "accountCapabilities"), CONTACTS)) {
        return Err(NOT_SUPPORTED);
    }
    Ok(account)
}

/// An address book whose cards the user may read.
pub open spec fn readable_spec(book: JsonTree) -> bool {
    book.at("myRights"@).at("mayRead"@).is_true()
}

pub fn readable(book: &Json) -> (r: bool)
    ensures
        r == readable_spec(book.tree()),
{
    is_true(at(at(Some(book), "myRights"), "mayRead"))
}

/// The first readable book from `i` on whose `flag` member is `true`.
pub open spec fn first_flagged(books: Seq<JsonTree>, flag: Seq<char>, i: int) -> Option<int>
    decreases books.len() - i,
{
    if i < 0 || i >= books.len() {
        None
    } else if readable_spec(books[i]) && books[i].at(flag).is_true() {
        Some(i)
    } else {
        first_flagged(books, flag, i + 1)
    }
}

proof fn lemma_first_flagged(books: Seq<JsonTree>, flag: Seq<char>, i: int)
    requires
        0 <= i,
    ensures
        first_flagged(books, flag, i) matches Some(k) ==> i <= k < books.len() && readable_spec(books[k])
            && books[k].at(flag).is_true() && forall|j: int|
            i <= j < k ==> !(readable_spec(#[trigger] books[j]) && books[j].at(flag).is_true()),
        first_flagged(books, flag, i) is None ==> forall|j: int|
            i <= j < books.len() ==> !(readable_spec(#[trigger] books[j]) && books[j].at(flag).is_true()),
    decreases books.len() - i,
{
    if i < books.len() {
        lemma_first_flagged(books, flag, i + 1);
    }
}

/// The source for recipient suggestions: the first readable default book,
/// else the first readable subscribed one.
pub open spec fn choose_source_spec(books: Seq<JsonTree>) -> Result<Seq<char>, Seq<char>> {
    if books.len() > MAX_BOOKS {
        Err(TOO_LARGE@)
    } else {
        let chosen = match first_flagged(books, "isDefault"@, 0) {
            Some(k) => Some(k),
            None => first_flagged(books, "isSubscribed"@, 0),
        };
        match chosen {
            None => Err(NO_ADDRESS_BOOK@),
            Some(k) => match books[k].at("id"@).as_str() {
                None => Err(INVALID_RESPONSE@),
                Some(id) => if valid_id(id) {
                    Ok(id)
                } else {
                    Err(INVALID_RESPONSE@)
                },
            },
        }
    }
}

/// The index of the first readable book whose `flag` member is `true`.
fn find_flagged(books: &[Json], flag: &str) -> (r: Option<usize>)
    ensures
        match r {
            Some(k) => first_flagged(trees(books@), flag@, 0) == Some(k as int),
            None => first_flagged(trees(books@), flag@, 0) is None,
        },
{
    let ghost items = trees(books@);
    let mut i: usize = 0;
    while i < books.len()
        invariant
            i <= books@.len(),
            items == trees(books@),
            first_flagged(items, flag@, 0) == first_flagged(items, flag@, i as int),
        decreases books.len() - i,
    {
        assert(items[i as int] == books@[i as int].tree());
        if readable(&books[i]) && books[i].member_is_true(flag) {
            return Some(i);
        }
        i += 1;
    }
    None
}

/// Picks the address book that recipient suggestions come from.
pub fn choose_source(books: &[Json]) -> (r: Result<String, &'static str>)
    ensures
        string_result(r) == choose_source_spec(trees(books@)),
{
    if books.len() > MAX_BOOKS {
        return Err(TOO_LARGE);
    }
    let chosen = match find_flagged(books, "isDefault") {
        Some(k) => k,
        None => match find_flagged(books, "isSubscribed") {
            Some(k) => k,
            None => return Err(NO_ADDRESS_BOOK),
        },
    };
    proof {
        lemma_first_flagged(trees(books@), "isDefault"@, 0);
        lemma_first_flagged(trees(books@), "isSubscribed"@, 0);
    }
    assert(trees(books@)[chosen as int] == books@[chosen as int].tree());
    let id = match books[chosen].member_str("id") {
        Some(id) => id,
        None => return Err(INVALID_RESPONSE),
    };
    Ok(bounded_id(id)?.to_owned())
}

/// Whether the book with this id is readable: the first book with a valid
/// id equal to `source` decides, and every book before it must have one.
pub open spec fn readable_book_from(books: Seq<JsonTree>, source: Seq<char>, i: int) -> Result<bool, Seq<char>>
    decreases books.len() - i,
{
    if i < 0 || i >= books.len() {
        Ok(false)
    } else {
        match books[i].at("id"@).as_str() {
            None => Err(INVALID_RESPONSE@),
            Some(id) => if !valid_id(id) {
                Err(INVALID_RESPONSE@)
            } else if id == source {
                Ok(readable_spec(books[i]))
            } else {
                readable_book_from(books, source, i + 1)
            },
        }
    }
}

pub open spec fn readable_book_spec(books: Seq<JsonTree>, source: Seq<char>) -> Result<bool, Seq<char>> {
    if books.len() > MAX_BOOKS {
        Err(TOO_LARGE@)
    } else {
        readable_book_from(books, source, 0)
    }
}

pub open spec fn bool_result(r: Result<bool, &'static str>) -> Result<bool, Seq<char>> {
    match r {
        Ok(b) => Ok(b),
        Err(e) => Err(e@),
    }
}

/// The chosen source is a readable book that is the default or subscribed;
/// where a readable default book exists, it is one.
pub proof fn chosen_source_is_readable(books: Seq<JsonTree>)
    requires
        choose_source_spec(books) is Ok,
    ensures
        exists|k: int|
            #![trigger books[k]]
            0 <= k < books.len() && readable_spec(books[k]) && books[k].at("id"@).as_str() == Some(
                choose_source_spec(books)->Ok_0,
            ) && (books[k].at("isDefault"@).is_true() || books[k].at("isSubscribed"@).is_true()),
        (exists|j: int| 0 <= j < books.len() && readable_spec(#[trigger] books[j]) && books[j].at("isDefault"@).is_true())
            ==> exists|k: int|
            #![trigger books[k]]
            0 <= k < books.len() && readable_spec(books[k]) && books[k].at("isDefault"@).is_true()
                && books[k].at("id"@).as_str() == Some(choose_source_spec(books)->Ok_0),
{
    lemma_first_flagged(books, "isDefault"@, 0);
    lemma_first_flagged(books, "isSubscribed"@, 0);
    let k = match first_flagged(books, "isDefault"@, 0) {
        Some(k) => k,
        None => first_flagged(books, "isSubscribed"@, 0)->Some_0,
    };
    assert(readable_spec(books[k]));
}

/// Whether `source` names an address book the user may read.
pub fn readable_book(books: &[Json], source: &str) -> (r: Result<bool, &'static str>)
    ensures
        bool_result(r) == readable_book_spec(trees(books@), source@),
{
    if books.len() > MAX_BOOKS {
        return Err(TOO_LARGE);
    }
    let ghost items = trees(books@);
    let mut i: usize = 0;
    #[verifier::loop_isolation(false)]
    while i < books.len()
        invariant
            i <= books@.len(),
            items == trees(books@),
            readable_book_from(items, source@, 0) == readable_book_from(items, source@, i as int),
        decreases books.len() - i,
    {
        let book = &books[i];
        assert(items[i as int] == book.tree());
        let id = match book.member_str("id") {
            Some(id) => id,
            None => return Err(INVALID_RESPONSE),
        };
        bounded_id(id)?;
        if str_eq(id, source) {
            return Ok(readable(book));
        }
        i += 1;
    }
    Ok(false)
}

/// A list read names a source: it must be a book the user may read.
pub open spec fn list_source_spec(books: Seq<JsonTree>, source: Seq<char>) -> Result<(), Seq<char>> {
    match readable_book_spec(books, source) {
        Err(e) => Err(e),
        Ok(false) => Err(SOURCE_UNKNOWN@),
        Ok(true) => Ok(()),
    }
}

/// Refuses a list read of a book that is unknown or unreadable.
pub fn list_source(books: &[Json], source: &str) -> (r: Result<(), &'static str>)
    ensures
        crate::providers::jmap::calendar::unit_result(r) == list_source_spec(trees(books@), source@),
{
    if readable_book(books, source)? {
        Ok(())
    } else {
        Err(SOURCE_UNKNOWN)
    }
}

// ---------------------------------------------------------------------------
// Card memberships
// ---------------------------------------------------------------------------

/// Every membership is a valid book id mapped to a boolean.
pub open spec fn memberships_valid(ids: Seq<(Seq<char>, JsonTree)>) -> bool {
    forall|i: int| #![trigger ids[i]] 0 <= i < ids.len() ==> valid_id(ids[i].0) && ids[i].1 is Bool
}

/// The first membership that breaks [`memberships_valid`] decides the error.
pub open spec fn card_memberships_spec(card: JsonTree) -> Result<Seq<(Seq<char>, JsonTree)>, Seq<char>> {
    match card.at("addressBookIds"@).as_object() {
        None => Err(INVALID_RESPONSE@),
        Some(ids) => if ids.len() > MAX_BOOKS {
            Err(TOO_LARGE@)
        } else if memberships_valid(ids) {
            Ok(ids)
        } else {
            Err(INVALID_RESPONSE@)
        },
    }
}

/// The address-book memberships of a card, checked.
pub fn card_memberships(card: &Json) -> (r: Result<&Vec<(String, Json)>, &'static str>)
    ensures
        match r {
            Ok(ids) => card_memberships_spec(card.tree()) == Ok::<Seq<(Seq<char>, JsonTree)>, Seq<char>>(
                field_trees(ids@),
            ),
            Err(e) => card_memberships_spec(card.tree()) == Err::<Seq<(Seq<char>, JsonTree)>, Seq<char>>(e@),
        },
{
    let ids = match object_of(at(Some(card), "addressBookIds")) {
        Some(ids) => ids,
        None => return Err(INVALID_RESPONSE),
    };
    if ids.len() > MAX_BOOKS {
        return Err(TOO_LARGE);
    }
    let ghost fields = field_trees(ids@);
    let mut i: usize = 0;
    #[verifier::loop_isolation(false)]
    while i < ids.len()
        invariant
            i <= ids@.len(),
            fields == field_trees(ids@),
            forall|j: int| #![trigger fields[j]] 0 <= j < i ==> valid_id(fields[j].0) && fields[j].1 is Bool,
        decreases ids.len() - i,
    {
        let (id, member) = (&ids[i].0, &ids[i].1);
        assert(fields[i as int] == (id@, member.tree()));
        if bounded_id(id.as_str()).is_err() || member.as_bool().is_none() {
            assert(!(valid_id(fields[i as int].0) && fields[i as int].1 is Bool));
            assert(card.tree().at("addressBookIds"@).as_object() == Some(fields));
            assert(!memberships_valid(fields));
            return Err(INVALID_RESPONSE);
        }
        i += 1;
    }
    Ok(ids)
}

/// Whether a membership map marks the book `true`.
pub open spec fn member_of(ids: Seq<(Seq<char>, JsonTree)>, book: Seq<char>) -> bool {
    lookup(ids, book) == Some(JsonTree::Bool(true))
}

fn marked(ids: &Vec<(String, Json)>, book: &str) -> (r: bool)
    ensures
        r == member_of(field_trees(ids@), book@),
{
    match field(ids, book) {
        Some(value) => value.is_true(),
        None => false,
    }
}


/// Whether a card lists `source` as one of its books.
pub open spec fn card_in_source_spec(card: JsonTree, source: Seq<char>) -> Result<bool, Seq<char>> {
    match card_memberships_spec(card) {
        Err(e) => Err(e),
        Ok(ids) => Ok(member_of(ids, source)),
    }
}

pub fn card_in_source(card: &Json, source: &str) -> (r: Result<bool, &'static str>)
    ensures
        bool_result(r) == card_in_source_spec(card.tree(), source@),
{
    let ids = card_memberships(card)?;
    Ok(marked(ids, source))
}

/// The first readable book, in the account's order, that a card is a member
/// of; every book before it must have a valid id.
pub open spec fn card_source_from(books: Seq<JsonTree>, ids: Seq<(Seq<char>, JsonTree)>, i: int) -> Result<Seq<char>, Seq<char>>
    decreases books.len() - i,
{
    if i < 0 || i >= books.len() {
        Err(NOT_FOUND@)
    } else {
        match books[i].at("id"@).as_str() {
            None => Err(INVALID_RESPONSE@),
            Some(id) => if !valid_id(id) {
                Err(INVALID_RESPONSE@)
            } else if readable_spec(books[i]) && member_of(ids, id) {
                Ok(id)
            } else {
                card_source_from(books, ids, i + 1)
            },
        }
    }
}

pub open spec fn readable_card_source_spec(card: JsonTree, books: Seq<JsonTree>) -> Result<Seq<char>, Seq<char>> {
    match card_memberships_spec(card) {
        Err(e) => Err(e),
        Ok(ids) => card_source_from(books, ids, 0),
    }
}

/// The readable address book that lets a card be shown.
pub fn readable_card_source<'a>(card: &Json, books: &'a [Json]) -> (r: Result<&'a str, &'static str>)
    ensures
        str_result(r) == readable_card_source_spec(card.tree(), trees(books@)),
{
    let ids = card_memberships(card)?;
    let ghost items = trees(books@);
    let ghost fields = field_trees(ids@);
    let mut i: usize = 0;
    #[verifier::loop_isolation(false)]
    while i < books.len()
        invariant
            i <= books@.len(),
            items == trees(books@),
            card_source_from(items, fields, 0) == card_source_from(items, fields, i as int),
        decreases books.len() - i,
    {
        let book = &books[i];
        assert(items[i as int] == book.tree());
        let id = match book.member_str("id") {
            Some(id) => id,
            None => return Err(INVALID_RESPONSE),
        };
        bounded_id(id)?;
        if readable(book) && marked(ids, id) {
            return Ok(id);
        }
        i += 1;
    }
    Err(NOT_FOUND)
}

// ---------------------------------------------------------------------------
// Address books as sources
// ---------------------------------------------------------------------------

/// The protocol-neutral source of a readable address book; `readOnly` says
/// whether the user may not write to it.
pub open spec fn book_json(id: Seq<char>, book: JsonTree) -> JsonTree {
    JsonTree::Object(
        seq![
            ("id"@, JsonTree::Str(id)),
            ("name"@, JsonTree::Str(prefix(without_controls(book.at("name"@).str_or(Seq::empty())), MAX_TEXT as int))),
            ("default"@, JsonTree::Bool(book.at("isDefault"@).is_true())),
            ("subscribed"@, JsonTree::Bool(book.at("isSubscribed"@).is_true())),
            ("readOnly"@, JsonTree::Bool(!book.at("myRights"@).at("mayWrite"@).is_true())),
        ],
    )
}

/// What one book contributes: nothing unless it is readable; then it needs a
/// valid id.
pub open spec fn book_source(book: JsonTree) -> Result<Option<JsonTree>, Seq<char>> {
    if !readable_spec(book) {
        Ok(None)
    } else {
        match book.at("id"@).as_str() {
            None => Err(INVALID_RESPONSE@),
            Some(id) => if !valid_id(id) {
                Err(INVALID_RESPONSE@)
            } else {
                Ok(Some(book_json(id, book)))
            },
        }
    }
}

pub open spec fn sources_of_spec(books: Seq<JsonTree>) -> Result<JsonTree, Seq<char>> {
    match collect(books, |b: JsonTree| book_source(b)) {
        Err(e) => Err(e),
        Ok(rows) => Ok(JsonTree::Object(seq![("sources"@, JsonTree::Array(rows))])),
    }
}

/// The source a listing shows for an address book: from a book the user may
/// read, under the book's own id, with its cleaned name; default exactly when
/// the book is the default one, subscribed exactly when the book is, and
/// read-only unless the user may write to it.
pub open spec fn book_source_follows(book: JsonTree, source: JsonTree) -> bool {
    &&& book.at("myRights"@).at("mayRead"@).is_true()
    &&& book.at("id"@).as_str() matches Some(id)
    &&& source.at("id"@) == JsonTree::Str(id)
    &&& source.at("name"@) == JsonTree::Str(prefix(without_controls(book.at("name"@).str_or(Seq::empty())), MAX_TEXT as int))
    &&& source.at("default"@) == JsonTree::Bool(book.at("isDefault"@).is_true())
    &&& source.at("subscribed"@) == JsonTree::Bool(book.at("isSubscribed"@).is_true())
    &&& source.at("readOnly"@) == JsonTree::Bool(!book.at("myRights"@).at("mayWrite"@).is_true())
}

proof fn lemma_book_json_reads(id: Seq<char>, book: JsonTree)
    requires
        book.at("id"@).as_str() == Some(id),
        book.at("myRights"@).at("mayRead"@).is_true(),
    ensures
        book_source_follows(book, book_json(id, book)),
{
    let fields = book_json(id, book)->Object_0;
    reveal_strlit("id");
    reveal_strlit("name");
    reveal_strlit("default");
    reveal_strlit("subscribed");
    reveal_strlit("readOnly");
    assert(fields[0].0.len() == 2 && fields[1].0.len() == 4 && fields[2].0.len() == 7 && fields[3].0.len() == 10
        && fields[4].0.len() == 8);
    assert forall|j: int| 0 <= j < 4 implies fields[j].0 != "readOnly"@ by {
        assert(fields[j].0.len() != 8);
    }
    assert forall|j: int| 0 <= j < 3 implies fields[j].0 != "subscribed"@ by {
        assert(fields[j].0.len() != 10);
    }
    assert forall|j: int| 0 <= j < 2 implies fields[j].0 != "default"@ by {
        assert(fields[j].0.len() != 7);
    }
    assert(fields[0].0 != "name"@);
    lemma_lookup_first(fields, "id"@, 0);
    lemma_lookup_first(fields, "name"@, 1);
    lemma_lookup_first(fields, "default"@, 2);
    lemma_lookup_first(fields, "subscribed"@, 3);
    lemma_lookup_first(fields, "readOnly"@, 4);
}

/// Every source of an address-book listing is the source of one of the books
/// (see [`book_source_follows`]): a source is the default exactly when its
/// book is, whatever the book's subscription.
pub proof fn book_sources_follow_their_books(books: Seq<JsonTree>, answer: JsonTree)
    requires
        sources_of_spec(books) == Ok::<JsonTree, Seq<char>>(answer),
    ensures
        answer.at("sources"@).as_array() matches Some(sources) && forall|i: int|
            #![trigger sources[i]]
            0 <= i < sources.len() ==> exists|k: int|
                0 <= k < books.len() && book_source_follows(#[trigger] books[k], sources[i]),
{
    let rows = collect(books, |b: JsonTree| book_source(b))->Ok_0;
    lemma_book_sources_member(books, answer);
    assert forall|i: int| #![trigger rows[i]] 0 <= i < rows.len() implies exists|k: int|
        0 <= k < books.len() && book_source_follows(#[trigger] books[k], rows[i]) by {
        lemma_listed_book_follows(books, rows, i);
    }
}

/// Every readable address book has its source (see [`book_source_follows`])
/// in the listing.
pub proof fn readable_books_are_listed(books: Seq<JsonTree>, answer: JsonTree)
    requires
        sources_of_spec(books) == Ok::<JsonTree, Seq<char>>(answer),
    ensures
        answer.at("sources"@).as_array() matches Some(sources) && forall|k: int|
            #![trigger books[k]]
            0 <= k < books.len() && readable_spec(books[k]) ==> exists|i: int|
                0 <= i < sources.len() && book_source_follows(books[k], #[trigger] sources[i]),
{
    let rows = collect(books, |b: JsonTree| book_source(b))->Ok_0;
    lemma_book_sources_member(books, answer);
    let sources = answer.at("sources"@).as_array()->Some_0;
    assert(sources == rows);
    assert forall|k: int|
        #![trigger books[k]]
        0 <= k < books.len() && readable_spec(books[k]) implies exists|i: int|
            0 <= i < sources.len() && book_source_follows(books[k], #[trigger] sources[i]) by {
        lemma_readable_book_listed(books, rows, k);
        let i = choose|i: int| 0 <= i < rows.len() && book_source_follows(books[k], #[trigger] rows[i]);
        assert(sources[i] == rows[i]);
    }
}

proof fn lemma_book_sources_member(books: Seq<JsonTree>, answer: JsonTree)
    requires
        sources_of_spec(books) == Ok::<JsonTree, Seq<char>>(answer),
    ensures
        answer.at("sources"@) == JsonTree::Array(collect(books, |b: JsonTree| book_source(b))->Ok_0),
{
    reveal_strlit("sources");
    lemma_lookup_first(answer->Object_0, "sources"@, 0);
}

proof fn lemma_listed_book_follows(books: Seq<JsonTree>, rows: Seq<JsonTree>, i: int)
    requires
        collect(books, |b: JsonTree| book_source(b)) == Ok::<Seq<JsonTree>, Seq<char>>(rows),
        0 <= i < rows.len(),
    ensures
        exists|k: int| 0 <= k < books.len() && book_source_follows(#[trigger] books[k], rows[i]),
{
    let step = |b: JsonTree| book_source(b);
    assert(collect(books, step) == Ok::<Seq<JsonTree>, Seq<char>>(rows));
    lemma_collect_origin(books, step);
    assert(rows[i] == collect(books, step)->Ok_0[i]);
    let k = choose|k: int| 0 <= k < books.len() && #[trigger] step(books[k]) == Ok::<Option<JsonTree>, Seq<char>>(Some(rows[i]));
    let id = books[k].at("id"@).as_str()->Some_0;
    lemma_book_json_reads(id, books[k]);
}

proof fn lemma_readable_book_listed(books: Seq<JsonTree>, rows: Seq<JsonTree>, k: int)
    requires
        collect(books, |b: JsonTree| book_source(b)) == Ok::<Seq<JsonTree>, Seq<char>>(rows),
        0 <= k < books.len(),
        readable_spec(books[k]),
    ensures
        exists|i: int| 0 <= i < rows.len() && book_source_follows(books[k], #[trigger] rows[i]),
{
    let step = |b: JsonTree| book_source(b);
    lemma_collect_keeps(books, |b: JsonTree| book_source(b));
    assert(step(books[k]) is Ok);
    let id = books[k].at("id"@).as_str()->Some_0;
    let row = book_json(id, books[k]);
    assert(step(books[k]) == Ok::<Option<JsonTree>, Seq<char>>(Some(row)));
    let i = choose|i: int| 0 <= i < rows.len() && rows[i] == row;
    lemma_book_json_reads(id, books[k]);
}

fn source_of(book: &Json) -> (r: Result<Option<Json>, &'static str>)
    ensures
        match r {
            Ok(Some(row)) => book_source(book.tree()) == Ok::<Option<JsonTree>, Seq<char>>(Some(row.tree())),
            Ok(None) => book_source(book.tree()) == Ok::<Option<JsonTree>, Seq<char>>(None),
            Err(e) => book_source(book.tree()) == Err::<Option<JsonTree>, Seq<char>>(e@),
        },
{
    if !readable(book) {
        return Ok(None);
    }
    let id = match book.member_str("id") {
        Some(id) => id,
        None => return Err(INVALID_RESPONSE),
    };
    bounded_id(id)?;
    let name = match book.member_str("name") {
        Some(name) => name,
        None => "",
    };
    proof {
        reveal_strlit("");
        assert(name@ == book.tree().at("name"@).str_or(Seq::empty()));
    }
    let may_write = is_true(at(at(Some(book), "myRights"), "mayWrite"));
    let row = object(
        vec![
            ("id".to_owned(), text(id)),
            ("name".to_owned(), Json::Str(clean(name, MAX_TEXT))),
            ("default".to_owned(), Json::Bool(book.member_is_true("isDefault"))),
            ("subscribed".to_owned(), Json::Bool(book.member_is_true("isSubscribed"))),
            ("readOnly".to_owned(), Json::Bool(!may_write)),
        ],
    );
    assert(row.tree()->Object_0 =~= book_json(id@, book.tree())->Object_0);
    Ok(Some(row))
}

/// Projects the readable address books onto protocol-neutral sources.
pub fn sources_of(books: &[Json]) -> (r: Result<Json, &'static str>)
    ensures
        json_result(r) == sources_of_spec(trees(books@)),
{
    let ghost items = trees(books@);
    let ghost step = |b: JsonTree| book_source(b);
    let mut rows: Vec<Json> = Vec::new();
    let mut i: usize = 0;
    proof {
        assert(items.take(0) =~= Seq::<JsonTree>::empty());
        assert(trees(rows@) =~= Seq::<JsonTree>::empty());
    }
    while i < books.len()
        invariant
            i <= books@.len(),
            items == trees(books@),
            step == (|b: JsonTree| book_source(b)),
            collect(items.take(i as int), step) == Ok::<Seq<JsonTree>, Seq<char>>(trees(rows@)),
        decreases books.len() - i,
    {
        proof {
            lemma_collect_step(items, i as int, step);
            assert(items[i as int] == books@[i as int].tree());
        }
        match source_of(&books[i]) {
            Ok(Some(row)) => {
                proof {
                    lemma_trees_push(rows@, row);
                }
                rows.push(row);
            },
            Ok(None) => {},
            Err(e) => {
                proof {
                    lemma_collect_err(items, i as int + 1, step);
                }
                return Err(e);
            },
        }
        i += 1;
    }
    proof {
        assert(items.take(i as int) =~= items);
    }
    let out = object(vec![("sources".to_owned(), array(rows))]);
    assert(out.tree()->Object_0 =~= seq![("sources"@, JsonTree::Array(trees(rows@)))]);
    Ok(out)
}


// ---------------------------------------------------------------------------
// Names, labels and entries of a card
// ---------------------------------------------------------------------------

/// Card text as shown: control characters dropped, at most `MAX_TEXT` kept.
pub open spec fn cleaned(s: Seq<char>) -> Seq<char> {
    prefix(without_controls(s), MAX_TEXT as int)
}

/// The cleaned value of the first name component of this kind, among the
/// first `MAX_COMPONENTS`, whose value is a string.
pub open spec fn name_part_from(components: Seq<JsonTree>, kind: Seq<char>, i: int) -> Option<Seq<char>>
    decreases components.len() - i,
{
    if i < 0 || i >= components.len() || i >= MAX_COMPONENTS {
        None
    } else if components[i].at("kind"@).is_text(kind) && components[i].at("value"@).as_str() is Some {
        Some(cleaned(components[i].at("value"@).as_str()->Some_0))
    } else {
        name_part_from(components, kind, i + 1)
    }
}

/// A found, non-empty part is kept.
pub open spec fn add_part(parts: Seq<Seq<char>>, part: Option<Seq<char>>) -> Seq<Seq<char>> {
    match part {
        Some(v) => if v.len() > 0 {
            parts.push(v)
        } else {
            parts
        },
        None => parts,
    }
}

/// The given, middle and surname parts of a structured name, in that order.
pub open spec fn name_parts(name: JsonTree) -> Seq<Seq<char>> {
    match name.at("components"@).as_array() {
        None => Seq::empty(),
        Some(cs) => add_part(
            add_part(add_part(Seq::empty(), name_part_from(cs, "given"@, 0)), name_part_from(cs, "middle"@, 0)),
            name_part_from(cs, "surname"@, 0),
        ),
    }
}

/// The shown name of a card: its full name, else its structured parts
/// joined by spaces.
pub open spec fn display_name_spec(name: JsonTree) -> Seq<char> {
    let full = cleaned(name.at("full"@).str_or(Seq::empty()));
    if full.len() > 0 {
        full
    } else {
        joined(name_parts(name), " "@)
    }
}

fn name_part(components: &Vec<Json>, kind: &str) -> (r: Option<String>)
    ensures
        match r {
            Some(v) => name_part_from(trees(components@), kind@, 0) == Some(v@),
            None => name_part_from(trees(components@), kind@, 0) is None,
        },
{
    let ghost cs = trees(components@);
    let mut i: usize = 0;
    while i < components.len() && i < MAX_COMPONENTS
        invariant
            i <= components@.len(),
            cs == trees(components@),
            name_part_from(cs, kind@, 0) == name_part_from(cs, kind@, i as int),
        decreases components.len() - i,
    {
        let component = &components[i];
        assert(cs[i as int] == component.tree());
        let kind_text = component.member_str("kind");
        let is_kind = match kind_text {
            Some(k) => str_eq(k, kind),
            None => false,
        };
        if is_kind {
            if let Some(value) = component.member_str("value") {
                return Some(clean(value, MAX_TEXT));
            }
        }
        i += 1;
    }
    None
}

/// The shown name of a card's `name` member.
pub fn display_name(name: Option<&Json>) -> (r: String)
    ensures
        r@ == display_name_spec(opt_tree(name)),
{
    let full_text = match str_of(at(name, "full")) {
        Some(full) => full,
        None => "",
    };
    proof {
        reveal_strlit("");
        assert(full_text@ == opt_tree(name).at("full"@).str_or(Seq::empty()));
    }
    let full = clean(full_text, MAX_TEXT);
    if !full.as_str().is_empty() {
        return full;
    }
    let mut parts: Vec<String> = Vec::new();
    let ghost t = opt_tree(name);
    if let Some(components) = array_of(at(name, "components")) {
        let ghost cs = trees(components@);
        let mut k: usize = 0;
        let kinds = ["given", "middle", "surname"];
        while k < 3
            invariant
                k <= 3,
                kinds@ == seq!["given", "middle", "surname"],
                t.at("components"@).as_array() == Some(cs),
                cs == trees(components@),
                strings(parts@) == if k == 0 {
                    Seq::<Seq<char>>::empty()
                } else if k == 1 {
                    add_part(Seq::empty(), name_part_from(cs, "given"@, 0))
                } else if k == 2 {
                    add_part(add_part(Seq::empty(), name_part_from(cs, "given"@, 0)), name_part_from(cs, "middle"@, 0))
                } else {
                    name_parts(t)
                },
            decreases 3 - k,
        {
            let ghost before = strings(parts@);
            if let Some(value) = name_part(components, kinds[k]) {
                if !value.as_str().is_empty() {
                    parts.push(value);
                    assert(strings(parts@) =~= before.push(parts@[parts@.len() - 1]@));
                }
            }
            k += 1;
        }
    } else {
        assert(strings(parts@) =~= name_parts(t));
    }
    proof {
        reveal_strlit(" ");
    }
    join_texts(&parts, " ")
}

/// The label of an email, phone or address entry: its own label, else the
/// first of the usual contexts it names, else its first context.
pub open spec fn label_spec(entry: JsonTree) -> Seq<char> {
    let label = entry.at("label"@).as_str();
    if label is Some && label->Some_0.len() > 0 {
        prefix(without_controls(label->Some_0), MAX_LABEL as int)
    } else {
        match entry.at("contexts"@).as_object() {
            None => Seq::empty(),
            Some(ctx) => if lookup(ctx, "work"@) is Some {
                "work"@
            } else if lookup(ctx, "private"@) is Some {
                "private"@
            } else if lookup(ctx, "home"@) is Some {
                "home"@
            } else if lookup(ctx, "other"@) is Some {
                "other"@
            } else if ctx.len() > 0 {
                prefix(without_controls(ctx[0].0), MAX_LABEL as int)
            } else {
                Seq::empty()
            },
        }
    }
}

pub fn label_of(entry: &Json) -> (r: String)
    ensures
        r@ == label_spec(entry.tree()),
{
    if let Some(label) = entry.member_str("label") {
        if !label.is_empty() {
            return clean(label, MAX_LABEL);
        }
    }
    if let Some(contexts) = object_of(at(Some(entry), "contexts")) {
        if field(contexts, "work").is_some() {
            return "work".to_owned();
        }
        if field(contexts, "private").is_some() {
            return "private".to_owned();
        }
        if field(contexts, "home").is_some() {
            return "home".to_owned();
        }
        if field(contexts, "other").is_some() {
            return "other".to_owned();
        }
        if contexts.len() > 0 {
            assert(field_trees(contexts@)[0].0 == contexts@[0].0@);
            return clean(contexts[0].0.as_str(), MAX_LABEL);
        }
    }
    String::new()
}

/// A `{value, label}` row.
pub open spec fn entry_json(value: Seq<char>, label: Seq<char>) -> JsonTree {
    JsonTree::Object(seq![("value"@, JsonTree::Str(value)), ("label"@, JsonTree::Str(label))])
}

fn entry_object(value: String, label: String) -> (r: Json)
    ensures
        r.tree() == entry_json(value@, label@),
{
    let ghost v = value@;
    let ghost l = label@;
    let r = object(vec![("value".to_owned(), Json::Str(value)), ("label".to_owned(), Json::Str(label))]);
    assert(r.tree()->Object_0 =~= entry_json(v, l)->Object_0);
    r
}

/// The row of one email or phone entry: its cleaned `key` text, if any.
pub open spec fn labelled_row(entry: JsonTree, key: Seq<char>) -> Result<Option<JsonTree>, Seq<char>> {
    match entry.at(key).as_str() {
        None => Ok(None),
        Some(v) => if cleaned(v).len() == 0 {
            Ok(None)
        } else {
            Ok(Some(entry_json(cleaned(v), label_spec(entry))))
        },
    }
}

/// Labelled `{value, label}` rows of an entry map, in its order.
pub open spec fn labelled_spec(entries: JsonTree, key: Seq<char>) -> Result<JsonTree, Seq<char>> {
    match entries.as_object() {
        None => Ok(JsonTree::Array(Seq::empty())),
        Some(map) => if map.len() > MAX_ENTRIES_PER_CARD {
            Err(TOO_LARGE@)
        } else {
            match collect(map, |f: (Seq<char>, JsonTree)| labelled_row(f.1, key)) {
                Err(e) => Err(e),
                Ok(rows) => Ok(JsonTree::Array(rows)),
            }
        },
    }
}

/// Labelled `{value, label}` rows for emails (`key` "address") and telephone
/// numbers (`key` "number").
pub fn labelled(entries: Option<&Json>, key: &str) -> (r: Result<Json, &'static str>)
    ensures
        json_result(r) == labelled_spec(opt_tree(entries), key@),
{
    let map = match object_of(entries) {
        Some(map) => map,
        None => {
            let r = array(Vec::new());
            assert(r.tree()->Array_0 =~= Seq::<JsonTree>::empty());
            return Ok(r);
        },
    };
    if map.len() > MAX_ENTRIES_PER_CARD {
        return Err(TOO_LARGE);
    }
    let ghost items = field_trees(map@);
    let ghost step = |f: (Seq<char>, JsonTree)| labelled_row(f.1, key@);
    let mut rows: Vec<Json> = Vec::new();
    let mut i: usize = 0;
    proof {
        assert(items.take(0) =~= Seq::<(Seq<char>, JsonTree)>::empty());
        assert(trees(rows@) =~= Seq::<JsonTree>::empty());
    }
    while i < map.len()
        invariant
            i <= map@.len(),
            items == field_trees(map@),
            step == (|f: (Seq<char>, JsonTree)| labelled_row(f.1, key@)),
            collect(items.take(i as int), step) == Ok::<Seq<JsonTree>, Seq<char>>(trees(rows@)),
        decreases map.len() - i,
    {
        proof {
            lemma_collect_step(items, i as int, step);
        }
        let entry = &map[i].1;
        assert(items[i as int].1 == entry.tree());
        if let Some(value) = entry.member_str(key) {
            let shown = clean(value, MAX_TEXT);
            if !shown.as_str().is_empty() {
                let row = entry_object(shown, label_of(entry));
                proof {
                    lemma_trees_push(rows@, row);
                }
                rows.push(row);
            }
        }
        i += 1;
    }
    proof {
        assert(items.take(i as int) =~= items);
    }
    let r = array(rows);
    Ok(r)
}

/// The non-empty cleaned values of some address components, in order.
pub open spec fn component_values(cs: Seq<JsonTree>) -> Seq<Seq<char>>
    decreases cs.len(),
{
    if cs.len() == 0 {
        Seq::empty()
    } else {
        let rest = component_values(cs.drop_last());
        match cs.last().at("value"@).as_str() {
            Some(v) => if cleaned(v).len() > 0 {
                rest.push(cleaned(v))
            } else {
                rest
            },
            None => rest,
        }
    }
}

/// The row of one postal address: its full text, else its components
/// joined by commas.
pub open spec fn postal_row(entry: JsonTree) -> Result<Option<JsonTree>, Seq<char>> {
    let full = cleaned(entry.at("full"@).str_or(Seq::empty()));
    if full.len() > 0 {
        Ok(Some(entry_json(full, label_spec(entry))))
    } else {
        match entry.at("components"@).as_array() {
            None => Ok(None),
            Some(cs) => if cs.len() > MAX_COMPONENTS {
                Err(TOO_LARGE@)
            } else if joined(component_values(cs), ", "@).len() == 0 {
                Ok(None)
            } else {
                Ok(Some(entry_json(joined(component_values(cs), ", "@), label_spec(entry))))
            },
        }
    }
}

pub open spec fn postal_spec(entries: JsonTree) -> Result<JsonTree, Seq<char>> {
    match entries.as_object() {
        None => Ok(JsonTree::Array(Seq::empty())),
        Some(map) => if map.len() > MAX_ENTRIES_PER_CARD {
            Err(TOO_LARGE@)
        } else {
            match collect(map, |f: (Seq<char>, JsonTree)| postal_row(f.1)) {
                Err(e) => Err(e),
                Ok(rows) => Ok(JsonTree::Array(rows)),
            }
        },
    }
}

fn address_line(components: &Vec<Json>) -> (r: String)
    ensures
        r@ == joined(component_values(trees(components@)), ", "@),
{
    let ghost cs = trees(components@);
    let mut parts: Vec<String> = Vec::new();
    let mut i: usize = 0;
    assert(cs.take(0) =~= Seq::<JsonTree>::empty());
    assert(strings(parts@) =~= Seq::<Seq<char>>::empty());
    while i < components.len()
        invariant
            i <= components@.len(),
            cs == trees(components@),
            strings(parts@) == component_values(cs.take(i as int)),
        decreases components.len() - i,
    {
        assert(cs.take(i as int + 1).drop_last() =~= cs.take(i as int));
        assert(cs.take(i as int + 1).last() == components@[i as int].tree());
        let ghost before = strings(parts@);
        if let Some(value) = components[i].member_str("value") {
            let shown = clean(value, MAX_TEXT);
            if !shown.as_str().is_empty() {
                parts.push(shown);
                assert(strings(parts@) =~= before.push(parts@[parts@.len() - 1]@));
            }
        }
        i += 1;
    }
    assert(cs.take(i as int) =~= cs);
    proof {
        reveal_strlit(", ");
    }
    join_texts(&parts, ", ")
}

fn postal_entry(entry: &Json) -> (r: Result<Option<Json>, &'static str>)
    ensures
        match r {
            Ok(Some(row)) => postal_row(entry.tree()) == Ok::<Option<JsonTree>, Seq<char>>(Some(row.tree())),
            Ok(None) => postal_row(entry.tree()) == Ok::<Option<JsonTree>, Seq<char>>(None),
            Err(e) => postal_row(entry.tree()) == Err::<Option<JsonTree>, Seq<char>>(e@),
        },
{
    let full_text = match entry.member_str("full") {
        Some(full) => full,
        None => "",
    };
    proof {
        reveal_strlit("");
        assert(full_text@ == entry.tree().at("full"@).str_or(Seq::empty()));
    }
    let full = clean(full_text, MAX_TEXT);
    if !full.as_str().is_empty() {
        return Ok(Some(entry_object(full, label_of(entry))));
    }
    let components = match array_of(at(Some(entry), "components")) {
        Some(components) => components,
        None => return Ok(None),
    };
    if components.len() > MAX_COMPONENTS {
        return Err(TOO_LARGE);
    }
    let line = address_line(components);
    if line.as_str().is_empty() {
        return Ok(None);
    }
    Ok(Some(entry_object(line, label_of(entry))))
}

proof fn lemma_entry_json_reads(value: Seq<char>, label: Seq<char>)
    ensures
        entry_json(value, label).at("value"@) == JsonTree::Str(value),
        entry_json(value, label).at("label"@) == JsonTree::Str(label),
{
    let fields = entry_json(value, label)->Object_0;
    reveal_strlit("value");
    reveal_strlit("label");
    assert(fields[0].0[0] != "label"@[0]);
    lemma_lookup_first(fields, "value"@, 0);
    lemma_lookup_first(fields, "label"@, 1);
}

/// Every postal address given with a full text that keeps some characters
/// once control characters are dropped is shown with that text (cut to
/// `MAX_TEXT` characters) and its label, whether or not it also has
/// components.
pub proof fn full_addresses_are_shown(entries: JsonTree, rows: Seq<JsonTree>)
    requires
        postal_spec(entries) == Ok::<JsonTree, Seq<char>>(JsonTree::Array(rows)),
    ensures
        entries.as_object() matches Some(map) ==> forall|k: int|
            #![trigger map[k]]
            0 <= k < map.len() && prefix(without_controls(map[k].1.at("full"@).str_or(Seq::empty())), MAX_TEXT as int).len()
                > 0 ==> exists|i: int|
                0 <= i < rows.len() && (#[trigger] rows[i]).at("value"@) == JsonTree::Str(
                    prefix(without_controls(map[k].1.at("full"@).str_or(Seq::empty())), MAX_TEXT as int),
                ) && rows[i].at("label"@) == JsonTree::Str(label_spec(map[k].1)),
{
    if let Some(map) = entries.as_object() {
        let step = |f: (Seq<char>, JsonTree)| postal_row(f.1);
        lemma_collect_keeps(map, step);
        assert forall|k: int|
            #![trigger map[k]]
            0 <= k < map.len() && prefix(without_controls(map[k].1.at("full"@).str_or(Seq::empty())), MAX_TEXT as int).len()
                > 0 implies exists|i: int|
                0 <= i < rows.len() && (#[trigger] rows[i]).at("value"@) == JsonTree::Str(
                    prefix(without_controls(map[k].1.at("full"@).str_or(Seq::empty())), MAX_TEXT as int),
                ) && rows[i].at("label"@) == JsonTree::Str(label_spec(map[k].1)) by {
            let full = cleaned(map[k].1.at("full"@).str_or(Seq::empty()));
            let row = entry_json(full, label_spec(map[k].1));
            assert(step(map[k]) == Ok::<Option<JsonTree>, Seq<char>>(Some(row)));
            let i = choose|i: int| 0 <= i < rows.len() && rows[i] == row;
            lemma_entry_json_reads(full, label_spec(map[k].1));
        }
    }
}

/// Postal addresses, each flattened into one display line.
pub fn postal(entries: Option<&Json>) -> (r: Result<Json, &'static str>)
    ensures
        json_result(r) == postal_spec(opt_tree(entries)),
{
    let map = match object_of(entries) {
        Some(map) => map,
        None => {
            let r = array(Vec::new());
            assert(r.tree()->Array_0 =~= Seq::<JsonTree>::empty());
            return Ok(r);
        },
    };
    if map.len() > MAX_ENTRIES_PER_CARD {
        return Err(TOO_LARGE);
    }
    let ghost items = field_trees(map@);
    let ghost step = |f: (Seq<char>, JsonTree)| postal_row(f.1);
    let mut rows: Vec<Json> = Vec::new();
    let mut i: usize = 0;
    proof {
        assert(items.take(0) =~= Seq::<(Seq<char>, JsonTree)>::empty());
        assert(trees(rows@) =~= Seq::<JsonTree>::empty());
    }
    #[verifier::loop_isolation(false)]
    while i < map.len()
        invariant
            i <= map@.len(),
            items == field_trees(map@),
            step == (|f: (Seq<char>, JsonTree)| postal_row(f.1)),
            collect(items.take(i as int), step) == Ok::<Seq<JsonTree>, Seq<char>>(trees(rows@)),
        decreases map.len() - i,
    {
        proof {
            lemma_collect_step(items, i as int, step);
        }
        let entry = &map[i].1;
        assert(items[i as int].1 == entry.tree());
        match postal_entry(entry) {
            Ok(Some(row)) => {
                proof {
                    lemma_trees_push(rows@, row);
                }
                rows.push(row);
            },
            Ok(None) => {},
            Err(e) => {
                proof {
                    lemma_collect_err(items, i as int + 1, step);
                }
                return Err(e);
            },
        }
        i += 1;
    }
    proof {
        assert(items.take(i as int) =~= items);
    }
    Ok(array(rows))
}


// ---------------------------------------------------------------------------
// Rows of a card
// ---------------------------------------------------------------------------

/// The distinct email addresses of a card, in order: each cleaned, non-empty,
/// and not equal, ignoring case, to one kept before.
pub open spec fn address_list(map: Seq<(Seq<char>, JsonTree)>) -> Seq<Seq<char>>
    decreases map.len(),
{
    if map.len() == 0 {
        Seq::empty()
    } else {
        let kept = address_list(map.drop_last());
        match map.last().1.at("address"@).as_str() {
            Some(a) => if cleaned(a).len() > 0 && !kept.map_values(|k: Seq<char>| lowercase(k)).contains(
                lowercase(cleaned(a)),
            ) {
                kept.push(cleaned(a))
            } else {
                kept
            },
            None => kept,
        }
    }
}

pub open spec fn card_addresses_spec(emails: JsonTree) -> Result<Seq<Seq<char>>, Seq<char>> {
    match emails.as_object() {
        None => Ok(Seq::empty()),
        Some(map) => if map.len() > MAX_EMAILS_PER_CARD {
            Err(TOO_LARGE@)
        } else {
            Ok(address_list(map))
        },
    }
}

/// The list row of a card.
pub open spec fn row_json(id: Seq<char>, name: Seq<char>, emails: Seq<Seq<char>>, source: Seq<char>) -> JsonTree {
    JsonTree::Object(
        seq![
            ("id"@, JsonTree::Str(id)),
            ("name"@, JsonTree::Str(name)),
            ("emails"@, texts_json(emails)),
            ("source"@, JsonTree::Str(source)),
        ],
    )
}

/// A card listed under `source`: it must be a member of that book.
pub open spec fn list_row_spec(card: JsonTree, source: Seq<char>) -> Result<JsonTree, Seq<char>> {
    match card_in_source_spec(card, source) {
        Err(e) => Err(e),
        Ok(false) => Err(INVALID_RESPONSE@),
        Ok(true) => match card.at("id"@).as_str() {
            None => Err(INVALID_RESPONSE@),
            Some(id) => if !valid_id(id) {
                Err(INVALID_RESPONSE@)
            } else {
                match card_addresses_spec(card.at("emails"@)) {
                    Err(e) => Err(e),
                    Ok(emails) => Ok(row_json(id, display_name_spec(card.at("name"@)), emails, source)),
                }
            },
        },
    }
}

fn card_addresses(emails: Option<&Json>) -> (r: Result<Vec<String>, &'static str>)
    ensures
        match r {
            Ok(list) => card_addresses_spec(opt_tree(emails)) == Ok::<Seq<Seq<char>>, Seq<char>>(strings(list@)),
            Err(e) => card_addresses_spec(opt_tree(emails)) == Err::<Seq<Seq<char>>, Seq<char>>(e@),
        },
{
    let mut kept: Vec<String> = Vec::new();
    let map = match object_of(emails) {
        Some(map) => map,
        None => {
            assert(strings(kept@) =~= Seq::<Seq<char>>::empty());
            return Ok(kept);
        },
    };
    if map.len() > MAX_EMAILS_PER_CARD {
        return Err(TOO_LARGE);
    }
    let ghost items = field_trees(map@);
    let mut seen: Vec<String> = Vec::new();
    let mut i: usize = 0;
    assert(items.take(0) =~= Seq::<(Seq<char>, JsonTree)>::empty());
    assert(strings(kept@) =~= Seq::<Seq<char>>::empty());
    assert(strings(seen@) =~= Seq::<Seq<char>>::empty());
    while i < map.len()
        invariant
            i <= map@.len(),
            items == field_trees(map@),
            strings(kept@) == address_list(items.take(i as int)),
            strings(seen@) == strings(kept@).map_values(|k: Seq<char>| lowercase(k)),
        decreases map.len() - i,
    {
        assert(items.take(i as int + 1).drop_last() =~= items.take(i as int));
        assert(items.take(i as int + 1).last() == items[i as int]);
        assert(items[i as int].1 == map@[i as int].1.tree());
        let ghost before_kept = strings(kept@);
        let ghost before_seen = strings(seen@);
        if let Some(address) = map[i].1.member_str("address") {
            let shown = clean(address, MAX_TEXT);
            if !shown.as_str().is_empty() {
                let lower = to_lowercase(shown.as_str());
                if !seen_text(&seen, lower.as_str()) {
                    seen.push(lower);
                    kept.push(shown);
                    assert(strings(kept@) =~= before_kept.push(kept@[kept@.len() - 1]@));
                    assert(strings(seen@) =~= before_seen.push(seen@[seen@.len() - 1]@));
                    assert(strings(seen@) =~= strings(kept@).map_values(|k: Seq<char>| lowercase(k)));
                }
            }
        }
        i += 1;
    }
    assert(items.take(i as int) =~= items);
    Ok(kept)
}

fn texts_of(values: Vec<String>) -> (r: Json)
    ensures
        r.tree() == texts_json(strings(values@)),
{
    let mut items: Vec<Json> = Vec::new();
    let mut a: usize = 0;
    while a < values.len()
        invariant
            a <= values@.len(),
            trees(items@) == Seq::new(a as nat, |i: int| JsonTree::Str(values@[i]@)),
        decreases values.len() - a,
    {
        let ghost before = items@;
        let value = text(values[a].as_str());
        proof {
            lemma_trees_push(before, value);
        }
        items.push(value);
        a += 1;
        assert(trees(items@) =~= Seq::new(a as nat, |i: int| JsonTree::Str(values@[i]@)));
    }
    let r = array(items);
    assert(r.tree()->Array_0 =~= texts_json(strings(values@))->Array_0);
    r
}

/// The row of a card listed under `source`.
pub fn list_row(card: &Json, source: &str) -> (r: Result<Json, &'static str>)
    ensures
        json_result(r) == list_row_spec(card.tree(), source@),
{
    if !card_in_source(card, source)? {
        return Err(INVALID_RESPONSE);
    }
    let id = match card.member_str("id") {
        Some(id) => id,
        None => return Err(INVALID_RESPONSE),
    };
    bounded_id(id)?;
    let emails = card_addresses(at(Some(card), "emails"))?;
    let ghost addresses = strings(emails@);
    let name = display_name(at(Some(card), "name"));
    let ghost shown = name@;
    let row = object(
        vec![
            ("id".to_owned(), text(id)),
            ("name".to_owned(), Json::Str(name)),
            ("emails".to_owned(), texts_of(emails)),
            ("source".to_owned(), text(source)),
        ],
    );
    assert(row.tree()->Object_0 =~= row_json(id@, shown, addresses, source@)->Object_0);
    Ok(row)
}

/// The detail of a card shown from `source`.
pub open spec fn contact_json(
    id: Seq<char>,
    source: Seq<char>,
    name: Seq<char>,
    emails: JsonTree,
    phones: JsonTree,
    addresses: JsonTree,
) -> JsonTree {
    JsonTree::Object(
        seq![
            ("id"@, JsonTree::Str(id)),
            ("source"@, JsonTree::Str(source)),
            ("name"@, JsonTree::Str(name)),
            ("emails"@, emails),
            ("phones"@, phones),
            ("addresses"@, addresses),
        ],
    )
}

/// A card shown from `source`: one that is not a member of it is not found.
pub open spec fn contact_of_spec(card: JsonTree, source: Seq<char>) -> Result<JsonTree, Seq<char>> {
    match card_in_source_spec(card, source) {
        Err(e) => Err(e),
        Ok(false) => Err(NOT_FOUND@),
        Ok(true) => match card.at("id"@).as_str() {
            None => Err(INVALID_RESPONSE@),
            Some(id) => if !valid_id(id) {
                Err(INVALID_RESPONSE@)
            } else {
                match labelled_spec(card.at("emails"@), "address"@) {
                    Err(e) => Err(e),
                    Ok(emails) => match labelled_spec(card.at("phones"@), "number"@) {
                        Err(e) => Err(e),
                        Ok(phones) => match postal_spec(card.at("addresses"@)) {
                            Err(e) => Err(e),
                            Ok(addresses) => Ok(
                                contact_json(id, source, display_name_spec(card.at("name"@)), emails, phones, addresses),
                            ),
                        },
                    },
                }
            },
        },
    }
}

/// The detail of a card: names, labelled emails and phones, postal lines.
pub fn contact_of(card: &Json, source: &str) -> (r: Result<Json, &'static str>)
    ensures
        json_result(r) == contact_of_spec(card.tree(), source@),
{
    if !card_in_source(card, source)? {
        return Err(NOT_FOUND);
    }
    let id = match card.member_str("id") {
        Some(id) => id,
        None => return Err(INVALID_RESPONSE),
    };
    bounded_id(id)?;
    let name = display_name(at(Some(card), "name"));
    let ghost shown = name@;
    let emails = labelled(at(Some(card), "emails"), "address")?;
    let phones = labelled(at(Some(card), "phones"), "number")?;
    let addresses = postal(at(Some(card), "addresses"))?;
    let ghost (e, p, a) = (emails.tree(), phones.tree(), addresses.tree());
    let detail = object(
        vec![
            ("id".to_owned(), text(id)),
            ("source".to_owned(), text(source)),
            ("name".to_owned(), Json::Str(name)),
            ("emails".to_owned(), emails),
            ("phones".to_owned(), phones),
            ("addresses".to_owned(), addresses),
        ],
    );
    assert(detail.tree()->Object_0 =~= contact_json(id@, source@, shown, e, p, a)->Object_0);
    Ok(detail)
}


// ---------------------------------------------------------------------------
// Recipient suggestions
// ---------------------------------------------------------------------------

/// A candidate recipient.
pub open spec fn suggestion_json(name: Seq<char>, email: Seq<char>) -> JsonTree {
    JsonTree::Object(seq![("name"@, JsonTree::Str(name)), ("email"@, JsonTree::Str(email))])
}

/// The candidates of one card: each string address of at most `MAX_TEXT`
/// bytes, under the card's shown name. Addresses are checked later, by the
/// shared contact validation.
pub open spec fn card_suggestions(name: Seq<char>, map: Seq<(Seq<char>, JsonTree)>) -> Seq<JsonTree>
    decreases map.len(),
{
    if map.len() == 0 {
        Seq::empty()
    } else {
        let rows = card_suggestions(name, map.drop_last());
        match map.last().1.at("address"@).as_str() {
            Some(a) => if byte_len(a) > MAX_TEXT {
                rows
            } else {
                rows.push(suggestion_json(name, a))
            },
            None => rows,
        }
    }
}

proof fn lemma_card_suggestions_prefix(name: Seq<char>, map: Seq<(Seq<char>, JsonTree)>, j: int)
    requires
        0 <= j <= map.len(),
    ensures
        card_suggestions(name, map.take(j)).len() <= card_suggestions(name, map).len(),
    decreases map.len() - j,
{
    if j < map.len() {
        lemma_card_suggestions_prefix(name, map, j + 1);
        assert(map.take(j + 1).drop_last() =~= map.take(j));
    } else {
        assert(map.take(j) =~= map);
    }
}

/// The candidates of the first `n` cards: a card without an email map gives
/// none; more than `MAX_EMAILS_PER_CARD` emails on a card, or more than
/// `MAX_REMOTE_CONTACTS` candidates in all, is refused.
pub open spec fn suggestions_from(cards: Seq<JsonTree>, n: int) -> Result<Seq<JsonTree>, Seq<char>>
    decreases n,
{
    if n <= 0 {
        Ok(Seq::empty())
    } else {
        match suggestions_from(cards, n - 1) {
            Err(e) => Err(e),
            Ok(rows) => {
                let card = cards[n - 1];
                match card.at("emails"@).as_object() {
                    None => Ok(rows),
                    Some(map) => if map.len() > MAX_EMAILS_PER_CARD {
                        Err(TOO_LARGE@)
                    } else {
                        let next = rows + card_suggestions(display_name_spec(card.at("name"@)), map);
                        if next.len() > MAX_REMOTE_CONTACTS {
                            Err(TOO_LARGE@)
                        } else {
                            Ok(next)
                        }
                    },
                }
            },
        }
    }
}

proof fn lemma_suggestions_err(cards: Seq<JsonTree>, k: int, n: int)
    requires
        0 <= k <= n,
        suggestions_from(cards, k) is Err,
    ensures
        suggestions_from(cards, n) == suggestions_from(cards, k),
    decreases n - k,
{
    if k < n {
        lemma_suggestions_err(cards, k, n - 1);
    }
}

pub open spec fn normalize_spec(cards: Seq<JsonTree>) -> Result<JsonTree, Seq<char>> {
    match suggestions_from(cards, cards.len() as int) {
        Err(e) => Err(e),
        Ok(rows) => Ok(JsonTree::Array(rows)),
    }
}

/// The candidate recipients of some cards, before the shared contact
/// validation: one hostile card must not cost the whole address book, so its
/// name is cleaned and its addresses are left for that validation.
pub fn normalize(cards: &[Json]) -> (r: Result<Json, &'static str>)
    ensures
        json_result(r) == normalize_spec(trees(cards@)),
{
    let ghost items = trees(cards@);
    let mut rows: Vec<Json> = Vec::new();
    let mut i: usize = 0;
    assert(trees(rows@) =~= Seq::<JsonTree>::empty());
    while i < cards.len()
        invariant
            i <= cards@.len(),
            items == trees(cards@),
            rows@.len() <= MAX_REMOTE_CONTACTS,
            suggestions_from(items, i as int) == Ok::<Seq<JsonTree>, Seq<char>>(trees(rows@)),
        decreases cards.len() - i,
    {
        let card = &cards[i];
        assert(items[i as int] == card.tree());
        let name = display_name(at(Some(card), "name"));
        let map = match object_of(at(Some(card), "emails")) {
            Some(map) => map,
            None => {
                i += 1;
                continue;
            },
        };
        if map.len() > MAX_EMAILS_PER_CARD {
            proof {
                lemma_suggestions_err(items, i as int + 1, items.len() as int);
            }
            return Err(TOO_LARGE);
        }
        let ghost fields = field_trees(map@);
        let ghost start = trees(rows@);
        let mut j: usize = 0;
        assert(fields.take(0) =~= Seq::<(Seq<char>, JsonTree)>::empty());
        assert(start + card_suggestions(name@, fields.take(0)) =~= start);
        while j < map.len()
            invariant
                j <= map@.len(),
                i < cards@.len(),
                items == trees(cards@),
                fields == field_trees(map@),
                items[i as int].at("emails"@).as_object() == Some(fields),
                fields.len() <= MAX_EMAILS_PER_CARD,
                name@ == display_name_spec(items[i as int].at("name"@)),
                suggestions_from(items, i as int) == Ok::<Seq<JsonTree>, Seq<char>>(start),
                rows@.len() <= MAX_REMOTE_CONTACTS,
                trees(rows@) == start + card_suggestions(name@, fields.take(j as int)),
            decreases map.len() - j,
        {
            assert(fields.take(j as int + 1).drop_last() =~= fields.take(j as int));
            assert(fields.take(j as int + 1).last() == fields[j as int]);
            assert(fields[j as int].1 == map@[j as int].1.tree());
            let ghost before = trees(rows@);
            if let Some(address) = map[j].1.member_str("address") {
                if byte_len_within(address, MAX_TEXT) {
                    let row = object(
                        vec![("name".to_owned(), text(name.as_str())), ("email".to_owned(), text(address))],
                    );
                    assert(row.tree()->Object_0 =~= suggestion_json(name@, address@)->Object_0);
                    proof {
                        lemma_trees_push(rows@, row);
                    }
                    rows.push(row);
                    assert(trees(rows@) =~= start + card_suggestions(name@, fields.take(j as int + 1)));
                    if rows.len() > MAX_REMOTE_CONTACTS {
                        proof {
                            lemma_card_suggestions_prefix(name@, fields, j as int + 1);
                            lemma_suggestions_err(items, i as int + 1, items.len() as int);
                        }
                        return Err(TOO_LARGE);
                    }
                } else {
                    assert(trees(rows@) =~= start + card_suggestions(name@, fields.take(j as int + 1)));
                }
            } else {
                assert(trees(rows@) =~= start + card_suggestions(name@, fields.take(j as int + 1)));
            }
            j += 1;
        }
        assert(fields.take(j as int) =~= fields);
        i += 1;
    }
    Ok(array(rows))
}

/// Every card of a suggestion read must belong to the chosen source.
pub open spec fn cards_in_source(cards: Seq<JsonTree>, source: Seq<char>, n: int) -> Result<(), Seq<char>>
    decreases n,
{
    if n <= 0 {
        Ok(())
    } else {
        match cards_in_source(cards, source, n - 1) {
            Err(e) => Err(e),
            Ok(_) => match card_in_source_spec(cards[n - 1], source) {
                Err(e) => Err(e),
                Ok(false) => Err(INVALID_RESPONSE@),
                Ok(true) => Ok(()),
            },
        }
    }
}

proof fn lemma_cards_in_source_err(cards: Seq<JsonTree>, source: Seq<char>, k: int, n: int)
    requires
        0 <= k <= n,
        cards_in_source(cards, source, k) is Err,
    ensures
        cards_in_source(cards, source, n) == cards_in_source(cards, source, k),
    decreases n - k,
{
    if k < n {
        lemma_cards_in_source_err(cards, source, k, n - 1);
    }
}

proof fn lemma_cards_in_source_ok(cards: Seq<JsonTree>, source: Seq<char>, n: int)
    requires
        0 <= n <= cards.len(),
        cards_in_source(cards, source, n) is Ok,
    ensures
        forall|i: int| 0 <= i < n ==> card_in_source_spec(#[trigger] cards[i], source) == Ok::<bool, Seq<char>>(true),
    decreases n,
{
    if n > 0 {
        lemma_cards_in_source_ok(cards, source, n - 1);
    }
}

/// The suggestions of a completed card read from `source`.
pub open spec fn suggestions_spec(cards: Seq<JsonTree>, source: Seq<char>, missing: usize) -> Result<JsonTree, Seq<char>> {
    if missing > 0 {
        Err(INVALID_RESPONSE@)
    } else {
        match cards_in_source(cards, source, cards.len() as int) {
            Err(e) => Err(e),
            Ok(_) => normalize_spec(cards),
        }
    }
}

/// Turns the cards read from the chosen source into candidate recipients: a
/// card the server did not return, or one outside that source, fails the
/// whole read.
pub fn suggestion_rows(cards: &[Json], source: &str, missing: usize) -> (r: Result<Json, &'static str>)
    ensures
        json_result(r) == suggestions_spec(trees(cards@), source@, missing),
        r is Ok ==> forall|i: int|
            0 <= i < cards@.len() ==> card_in_source_spec(#[trigger] trees(cards@)[i], source@) == Ok::<
                bool,
                Seq<char>,
            >(true),
{
    if missing > 0 {
        return Err(INVALID_RESPONSE);
    }
    let ghost items = trees(cards@);
    let mut i: usize = 0;
    while i < cards.len()
        invariant
            i <= cards@.len(),
            items == trees(cards@),
            missing == 0,
            cards_in_source(items, source@, i as int) == Ok::<(), Seq<char>>(()),
        decreases cards.len() - i,
    {
        assert(items[i as int] == cards@[i as int].tree());
        let inside = match card_in_source(&cards[i], source) {
            Ok(inside) => inside,
            Err(e) => {
                proof {
                    lemma_cards_in_source_err(items, source@, i as int + 1, items.len() as int);
                }
                return Err(e);
            },
        };
        if !inside {
            proof {
                lemma_cards_in_source_err(items, source@, i as int + 1, items.len() as int);
            }
            return Err(INVALID_RESPONSE);
        }
        i += 1;
    }
    proof {
        lemma_cards_in_source_ok(items, source@, items.len() as int);
    }
    normalize(cards)
}

// ---------------------------------------------------------------------------
// A card's detail
// ---------------------------------------------------------------------------

pub open spec fn detail_spec(cards: Seq<JsonTree>, missing: usize, books: Seq<JsonTree>) -> Result<JsonTree, Seq<char>> {
    if missing > 0 || cards.len() == 0 {
        Err(NOT_FOUND@)
    } else {
        match readable_card_source_spec(cards[0], books) {
            Err(e) => Err(e),
            Ok(source) => match contact_of_spec(cards[0], source) {
                Err(e) => Err(e),
                Ok(contact) => Ok(JsonTree::Object(seq![("contact"@, contact)])),
            },
        }
    }
}

/// A card is a member of some book that the user may read.
pub open spec fn in_readable_book(card: JsonTree, books: Seq<JsonTree>) -> bool {
    exists|k: int|
        #![trigger books[k]]
        0 <= k < books.len() && readable_spec(books[k]) && books[k].at("id"@).as_str() is Some
            && card_memberships_spec(card) is Ok && member_of(
            card_memberships_spec(card)->Ok_0,
            books[k].at("id"@).as_str()->Some_0,
        )
}

/// The answer to a detail read of one id: a card that did not come back is
/// not found; one that did is shown from the first readable book it is in.
pub fn detail_answer(cards: &[Json], missing: usize, books: &[Json]) -> (r: Result<Json, &'static str>)
    ensures
        json_result(r) == detail_spec(trees(cards@), missing, trees(books@)),
        r is Ok ==> in_readable_book(trees(cards@)[0], trees(books@)),
{
    if missing > 0 || cards.len() == 0 {
        return Err(NOT_FOUND);
    }
    assert(trees(cards@)[0] == cards@[0].tree());
    let source = readable_card_source(&cards[0], books)?;
    proof {
        lemma_card_source_found(trees(books@), card_memberships_spec(trees(cards@)[0])->Ok_0, 0);
    }
    let contact = contact_of(&cards[0], source)?;
    let ghost c = contact.tree();
    let out = object(vec![("contact".to_owned(), contact)]);
    assert(out.tree()->Object_0 =~= seq![("contact"@, c)]);
    Ok(out)
}

proof fn lemma_card_source_found(books: Seq<JsonTree>, ids: Seq<(Seq<char>, JsonTree)>, i: int)
    requires
        0 <= i,
    ensures
        card_source_from(books, ids, i) matches Ok(id) ==> exists|k: int|
            i <= k < books.len() && readable_spec(#[trigger] books[k]) && books[k].at("id"@).as_str() == Some(id)
                && member_of(ids, id),
    decreases books.len() - i,
{
    if i < books.len() {
        lemma_card_source_found(books, ids, i + 1);
    }
}


// ---------------------------------------------------------------------------
// A page of the contact list
// ---------------------------------------------------------------------------

/// The first address of a list row, or nothing.
pub open spec fn first_email(row: JsonTree) -> Seq<char> {
    match row.at("emails"@).as_array() {
        Some(list) => if list.len() > 0 {
            list[0].str_or(Seq::empty())
        } else {
            Seq::empty()
        },
        None => Seq::empty(),
    }
}

/// Rows are ordered by name and first address, both ignoring case, then by id.
pub open spec fn list_key(row: JsonTree) -> Seq<i64> {
    text_key(lowercase(row.at("name"@).str_or(Seq::empty()))) + text_key(lowercase(first_email(row)))
        + text_key(row.at("id"@).str_or(Seq::empty()))
}

/// The ordering key of a list row (see [`list_key`]).
pub fn sort_key(row: &Json) -> (r: Vec<i64>)
    ensures
        r@ == list_key(row.tree()),
{
    proof {
        reveal_strlit("");
    }
    let name = match row.member_str("name") {
        Some(name) => name,
        None => "",
    };
    let email = match array_of(at(Some(row), "emails")) {
        Some(list) => if list.len() > 0 {
            assert(trees(list@)[0] == list@[0].tree());
            match list[0].as_str() {
                Some(email) => email,
                None => "",
            }
        } else {
            ""
        },
        None => "",
    };
    assert(name@ == row.tree().at("name"@).str_or(Seq::empty()));
    assert(email@ == first_email(row.tree()));
    let id = match row.member_str("id") {
        Some(id) => id,
        None => "",
    };
    let mut key: Vec<i64> = Vec::new();
    push_text_key(&mut key, to_lowercase(name).as_str());
    push_text_key(&mut key, to_lowercase(email).as_str());
    push_text_key(&mut key, id);
    assert(key@ =~= list_key(row.tree()));
    key
}

/// Whether a row has this ordering key.
pub open spec fn list_key_is(key: Seq<i64>) -> spec_fn(JsonTree) -> bool {
    |row: JsonTree| list_key(row) == key
}

/// The rows of the cards listed under `source`, in the cards' order.
pub open spec fn list_rows(cards: Seq<JsonTree>, source: Seq<char>) -> Result<Seq<JsonTree>, Seq<char>> {
    collect(
        cards,
        |c: JsonTree|
            match list_row_spec(c, source) {
                Ok(row) => Ok(Some(row)),
                Err(e) => Err(e),
            },
    )
}

/// Every card of a listed page is a member of the listed book.
pub proof fn listed_cards_are_members(cards: Seq<JsonTree>, source: Seq<char>)
    requires
        list_rows(cards, source) is Ok,
    ensures
        forall|i: int| 0 <= i < cards.len() ==> card_in_source_spec(#[trigger] cards[i], source) == Ok::<bool, Seq<char>>(true),
    decreases cards.len(),
{
    if cards.len() > 0 {
        let front = cards.drop_last();
        assert(list_rows(front, source) is Ok);
        listed_cards_are_members(front, source);
        assert forall|i: int| 0 <= i < cards.len() implies card_in_source_spec(#[trigger] cards[i], source) == Ok::<bool, Seq<char>>(true) by {
            if i < cards.len() - 1 {
                assert(cards[i] == front[i]);
            } else {
                assert(list_row_spec(cards.last(), source) is Ok);
            }
        }
    }
}

/// The page of the sorted rows from `position`, of at most `limit` rows.
pub open spec fn page_json(sorted: Seq<JsonTree>, limit: usize, position: usize) -> JsonTree {
    let total = sorted.len();
    let start = if position < total {
        position as int
    } else {
        total as int
    };
    let end = if start + limit < total {
        start + limit
    } else {
        total as int
    };
    JsonTree::Object(
        seq![
            ("contacts"@, JsonTree::Array(sorted.subrange(start, end))),
            ("total"@, JsonTree::UInt(total as u64)),
            ("position"@, JsonTree::UInt(start as u64)),
        ],
    )
}

/// The answer to a list read: the rows of a complete read, ordered by
/// [`list_key`], cut to the page asked for, with their total.
pub open spec fn list_page_ok(
    cards: Seq<JsonTree>,
    missing: usize,
    source: Seq<char>,
    limit: usize,
    position: usize,
    answer: Result<JsonTree, Seq<char>>,
) -> bool {
    if missing > 0 {
        answer == Err::<JsonTree, Seq<char>>(INVALID_RESPONSE@)
    } else {
        match list_rows(cards, source) {
            Err(e) => answer == Err::<JsonTree, Seq<char>>(e),
            Ok(rows) => exists|sorted: Seq<JsonTree>|
                #![trigger page_json(sorted, limit, position)]
                sorted.to_multiset() == rows.to_multiset() && (forall|i: int, j: int|
                    0 <= i < j < sorted.len() ==> lex_le(list_key(#[trigger] sorted[i]), list_key(#[trigger] sorted[j])))
                    && (forall|key: Seq<i64>| #[trigger] sorted.filter(list_key_is(key)) == rows.filter(list_key_is(key)))
                    && answer == Ok::<JsonTree, Seq<char>>(page_json(sorted, limit, position)),
        }
    }
}

/// The total of a list page counts every row of the source, whatever window
/// is asked for: two reads of the same cards, with any limits and positions,
/// report the same total, and a zero limit gives an empty page.
pub proof fn list_total_ignores_the_window(
    cards: Seq<JsonTree>,
    source: Seq<char>,
    limit_a: usize,
    position_a: usize,
    answer_a: Result<JsonTree, Seq<char>>,
    limit_b: usize,
    position_b: usize,
    answer_b: Result<JsonTree, Seq<char>>,
)
    requires
        list_page_ok(cards, 0, source, limit_a, position_a, answer_a),
        list_page_ok(cards, 0, source, limit_b, position_b, answer_b),
        answer_a is Ok,
    ensures
        answer_b is Ok,
        answer_a->Ok_0.at("total"@) == answer_b->Ok_0.at("total"@),
        limit_b == 0 ==> answer_b->Ok_0.at("contacts"@) == JsonTree::Array(Seq::empty()),
{
    let rows = list_rows(cards, source)->Ok_0;
    let sa = choose|sorted: Seq<JsonTree>|
        #![trigger page_json(sorted, limit_a, position_a)]
        sorted.to_multiset() == rows.to_multiset() && (forall|i: int, j: int|
            0 <= i < j < sorted.len() ==> lex_le(list_key(#[trigger] sorted[i]), list_key(#[trigger] sorted[j])))
            && (forall|key: Seq<i64>| #[trigger] sorted.filter(list_key_is(key)) == rows.filter(list_key_is(key)))
            && answer_a == Ok::<JsonTree, Seq<char>>(page_json(sorted, limit_a, position_a));
    let sb = choose|sorted: Seq<JsonTree>|
        #![trigger page_json(sorted, limit_b, position_b)]
        sorted.to_multiset() == rows.to_multiset() && (forall|i: int, j: int|
            0 <= i < j < sorted.len() ==> lex_le(list_key(#[trigger] sorted[i]), list_key(#[trigger] sorted[j])))
            && (forall|key: Seq<i64>| #[trigger] sorted.filter(list_key_is(key)) == rows.filter(list_key_is(key)))
            && answer_b == Ok::<JsonTree, Seq<char>>(page_json(sorted, limit_b, position_b));
    vstd::seq_lib::to_multiset_len(sa);
    vstd::seq_lib::to_multiset_len(sb);
    assert(sa.len() == sb.len());
    let fa = page_json(sa, limit_a, position_a)->Object_0;
    let fb = page_json(sb, limit_b, position_b)->Object_0;
    reveal_strlit("contacts");
    reveal_strlit("total");
    assert(answer_a == Ok::<JsonTree, Seq<char>>(page_json(sa, limit_a, position_a)));
    assert(answer_b == Ok::<JsonTree, Seq<char>>(page_json(sb, limit_b, position_b)));
    assert(fa[0].0 != "total"@) by {
        assert(fa[0].0[0] != "total"@[0]);
    }
    assert(fb[0].0 != "total"@) by {
        assert(fb[0].0[0] != "total"@[0]);
    }
    lemma_lookup_first(fa, "total"@, 1);
    lemma_lookup_first(fb, "total"@, 1);
    lemma_lookup_first(fb, "contacts"@, 0);
    if limit_b == 0 {
        let total = sb.len();
        let start = if position_b < total { position_b as int } else { total as int };
        assert(sb.subrange(start, start) =~= Seq::<JsonTree>::empty());
    }
}

/// A list page is the window of the ordered rows that starts at the asked
/// position (or at the end, past it) and holds `limit` rows, or the rows that
/// are left where fewer are: it reports the number of rows as the total and
/// the window's start as the position, holds only rows of the source, in
/// order, and comes from one ordering of all of them.
pub proof fn list_page_is_the_window(
    cards: Seq<JsonTree>,
    source: Seq<char>,
    limit: usize,
    position: usize,
    answer: JsonTree,
)
    requires
        list_page_ok(cards, 0, source, limit, position, Ok::<JsonTree, Seq<char>>(answer)),
    ensures
        list_rows(cards, source) matches Ok(rows) && {
            let total = rows.len() as int;
            let start = if position < total {
                position as int
            } else {
                total
            };
            &&& answer.at("total"@) == JsonTree::UInt(total as u64)
            &&& answer.at("position"@) == JsonTree::UInt(start as u64)
            &&& answer.at("contacts"@).as_array() matches Some(page)
            &&& page.len() == if limit < total - start {
                limit as int
            } else {
                total - start
            }
            &&& forall|i: int| 0 <= i < page.len() ==> rows.contains(#[trigger] page[i])
            &&& forall|i: int, j: int|
                0 <= i < j < page.len() ==> lex_le(list_key(#[trigger] page[i]), list_key(#[trigger] page[j]))
            &&& exists|sorted: Seq<JsonTree>|
                #![trigger sorted.to_multiset()]
                sorted.to_multiset() == rows.to_multiset() && (forall|i: int, j: int|
                    0 <= i < j < sorted.len() ==> lex_le(list_key(#[trigger] sorted[i]), list_key(#[trigger] sorted[j])))
                    && page == sorted.subrange(start, start + page.len())
        },
{
    broadcast use vstd::seq_lib::group_to_multiset_ensures;

    let rows = list_rows(cards, source)->Ok_0;
    let sorted = choose|sorted: Seq<JsonTree>|
        #![trigger page_json(sorted, limit, position)]
        sorted.to_multiset() == rows.to_multiset() && (forall|i: int, j: int|
            0 <= i < j < sorted.len() ==> lex_le(list_key(#[trigger] sorted[i]), list_key(#[trigger] sorted[j])))
            && (forall|key: Seq<i64>| #[trigger] sorted.filter(list_key_is(key)) == rows.filter(list_key_is(key)))
            && Ok::<JsonTree, Seq<char>>(answer) == Ok::<JsonTree, Seq<char>>(page_json(sorted, limit, position));
    assert(sorted.len() == rows.len()) by {
        assert(sorted.len() == sorted.to_multiset().len());
        assert(rows.len() == rows.to_multiset().len());
    }
    let fields = answer->Object_0;
    reveal_strlit("contacts");
    reveal_strlit("total");
    reveal_strlit("position");
    assert(fields[0].0.len() == 8 && fields[1].0.len() == 5 && fields[2].0.len() == 8);
    assert(fields[0].0[0] != "position"@[0]);
    lemma_lookup_first(fields, "contacts"@, 0);
    lemma_lookup_first(fields, "total"@, 1);
    lemma_lookup_first(fields, "position"@, 2);
    let total = rows.len() as int;
    let start = if position < total {
        position as int
    } else {
        total
    };
    let page = answer.at("contacts"@)->Array_0;
    assert(page == sorted.subrange(start, start + page.len()));
    assert forall|i: int| 0 <= i < page.len() implies rows.contains(#[trigger] page[i]) by {
        assert(page[i] == sorted[start + i]);
        assert(sorted.contains(sorted[start + i]));
        assert(sorted.to_multiset().count(sorted[start + i]) > 0);
    }
    assert forall|i: int, j: int| 0 <= i < j < page.len() implies lex_le(
        list_key(#[trigger] page[i]),
        list_key(#[trigger] page[j]),
    ) by {
        assert(page[i] == sorted[start + i]);
        assert(page[j] == sorted[start + j]);
    }
}

/// The values from `start` up to `end`.
fn window(values: Vec<Json>, start: usize, end: usize) -> (r: Vec<Json>)
    requires
        start <= end <= values@.len(),
    ensures
        r@ == values@.subrange(start as int, end as int),
{
    let ghost all = values@;
    let mut rest = values;
    let mut out: Vec<Json> = Vec::new();
    let mut k: usize = 0;
    while k < end
        invariant
            k <= end <= all.len(),
            rest@ == all.subrange(k as int, all.len() as int),
            out@ == if k <= start {
                Seq::<Json>::empty()
            } else {
                all.subrange(start as int, k as int)
            },
        decreases end - k,
    {
        let value = rest.remove(0);
        assert(value == all[k as int]);
        if k >= start {
            let ghost before = out@;
            out.push(value);
            assert(out@ =~= all.subrange(start as int, k as int + 1));
        }
        k += 1;
        assert(rest@ =~= all.subrange(k as int, all.len() as int));
    }
    proof {
        if end <= start {
            assert(all.subrange(start as int, end as int) =~= Seq::<Json>::empty());
        }
    }
    out
}

/// A page of the contact list of `source`: the cards must all have come back
/// and all be members of it; the rows are ordered by name, first address and
/// id, and `position` past the end gives an empty page at the end.
pub fn list_page(cards: &[Json], missing: usize, source: &str, limit: usize, position: usize) -> (r: Result<Json, &'static str>)
    ensures
        list_page_ok(trees(cards@), missing, source@, limit, position, json_result(r)),
{
    if missing > 0 {
        return Err(INVALID_RESPONSE);
    }
    let ghost items = trees(cards@);
    let ghost step = |c: JsonTree|
        match list_row_spec(c, source@) {
            Ok(row) => Ok::<Option<JsonTree>, Seq<char>>(Some(row)),
            Err(e) => Err(e),
        };
    let mut pairs: Vec<(Vec<i64>, Json)> = Vec::new();
    let mut i: usize = 0;
    proof {
        assert(items.take(0) =~= Seq::<JsonTree>::empty());
        assert(Seq::new(pairs@.len(), |k: int| pairs@[k].1.tree()) =~= Seq::<JsonTree>::empty());
    }
    #[verifier::loop_isolation(false)]
    while i < cards.len()
        invariant
            i <= cards@.len(),
            items == trees(cards@),
            collect(items.take(i as int), step) == Ok::<Seq<JsonTree>, Seq<char>>(
                Seq::new(pairs@.len(), |k: int| pairs@[k].1.tree()),
            ),
            forall|k: int| 0 <= k < pairs@.len() ==> (#[trigger] pairs@[k]).0@ == list_key(pairs@[k].1.tree()),
        decreases cards.len() - i,
    {
        proof {
            lemma_collect_step(items, i as int, step);
            assert(items[i as int] == cards@[i as int].tree());
        }
        let row = match list_row(&cards[i], source) {
            Ok(row) => row,
            Err(e) => {
                proof {
                    lemma_collect_err(items, i as int + 1, step);
                }
                return Err(e);
            },
        };
        let key = sort_key(&row);
        let ghost before = Seq::new(pairs@.len(), |k: int| pairs@[k].1.tree());
        pairs.push((key, row));
        assert(Seq::new(pairs@.len(), |k: int| pairs@[k].1.tree()) =~= before.push(pairs@[pairs@.len() - 1].1.tree()));
        i += 1;
    }
    let ghost rows = Seq::new(pairs@.len(), |k: int| pairs@[k].1.tree());
    proof {
        assert(items.take(i as int) =~= items);
    }
    let ghost unsorted = pairs@;
    let sorted = sort_by_key(pairs);
    let ghost ordered = sorted@;
    let values = values_of(sorted);
    let ghost f = |p: (Vec<i64>, Json)| p.1.tree();
    let ghost all = trees(values@);
    proof {
        lemma_map_multiset(ordered, unsorted, f);
        assert(unsorted.map_values(f) =~= rows);
        assert(all =~= ordered.map_values(f));
        assert forall|k: int| 0 <= k < ordered.len() implies (#[trigger] ordered[k]).0@ == list_key(ordered[k].1.tree()) by {
            broadcast use vstd::seq_lib::group_to_multiset_ensures;
            assert(ordered.contains(ordered[k]));
            assert(ordered.to_multiset().count(ordered[k]) > 0);
            assert(unsorted.to_multiset().count(ordered[k]) > 0);
            assert(unsorted.contains(ordered[k]));
            let j = choose|j: int| 0 <= j < unsorted.len() && unsorted[j] == ordered[k];
            assert(unsorted[j].0@ == list_key(unsorted[j].1.tree()));
        }
        assert forall|a: int, b: int| 0 <= a < b < all.len() implies lex_le(
            list_key(#[trigger] all[a]),
            list_key(#[trigger] all[b]),
        ) by {
            assert(lex_le(ordered[a].0@, ordered[b].0@));
        }
        assert forall|key: Seq<i64>| #[trigger] all.filter(list_key_is(key)) == rows.filter(list_key_is(key)) by {
            assert forall|i: int| 0 <= i < ordered.len() implies key_is(key)(#[trigger] ordered[i]) == list_key_is(key)(f(ordered[i])) by {}
            assert forall|i: int| 0 <= i < unsorted.len() implies key_is(key)(#[trigger] unsorted[i]) == list_key_is(key)(f(unsorted[i])) by {}
            lemma_filter_map(ordered, f, key_is(key), list_key_is(key));
            lemma_filter_map(unsorted, f, key_is(key), list_key_is(key));
            assert(with_key(ordered, key) == with_key(unsorted, key));
        }
    }
    let total = values.len();
    let start = if position < total {
        position
    } else {
        total
    };
    let end = if limit < total - start {
        start + limit
    } else {
        total
    };
    let page = window(values, start, end);
    proof {
        assert(trees(page@) =~= all.subrange(start as int, end as int));
    }
    let out = object(
        vec![
            ("contacts".to_owned(), array(page)),
            ("total".to_owned(), Json::UInt(total as u64)),
            ("position".to_owned(), Json::UInt(start as u64)),
        ],
    );
    proof {
        assert(out.tree()->Object_0 =~= page_json(all, limit, position)->Object_0);
        assert(out.tree() == page_json(all, limit, position));
    }
    Ok(out)
}


// ---------------------------------------------------------------------------
// Requests, and the checks on what the server answers to them
// ---------------------------------------------------------------------------

/// The capabilities a contacts request uses.
pub open spec fn contacts_using_spec() -> JsonTree {
    JsonTree::Array(seq![JsonTree::Str(CORE@), JsonTree::Str(CONTACTS@)])
}

pub fn contacts_using() -> (r: Json)
    ensures
        r.tree() == contacts_using_spec(),
{
    let r = text_list(&[CORE, CONTACTS]);
    assert(r.tree()->Array_0 =~= contacts_using_spec()->Array_0);
    r
}

/// The `AddressBook/get` arguments that read every book of the account.
pub open spec fn book_get_spec(account: Seq<char>) -> JsonTree {
    JsonTree::Object(
        seq![
            ("accountId"@, JsonTree::Str(account)),
            ("ids"@, JsonTree::Null),
            ("properties"@, JsonTree::Array(
                seq![
                    JsonTree::Str("id"@),
                    JsonTree::Str("name"@),
                    JsonTree::Str("isDefault"@),
                    JsonTree::Str("isSubscribed"@),
                    JsonTree::Str("myRights"@),
                ],
            )),
        ],
    )
}

pub fn book_get(account: &str) -> (r: Json)
    ensures
        r.tree() == book_get_spec(account@),
{
    let properties = text_list(&["id", "name", "isDefault", "isSubscribed", "myRights"]);
    assert(properties.tree()->Array_0 =~= book_get_spec(account@)->Object_0[2].1->Array_0);
    let r = object(
        vec![
            ("accountId".to_owned(), text(account)),
            ("ids".to_owned(), Json::Null),
            ("properties".to_owned(), properties),
        ],
    );
    assert(r.tree()->Object_0 =~= book_get_spec(account@)->Object_0);
    r
}

/// The ids of the first `n` books checked in order: each a valid id not
/// seen before.
pub open spec fn books_read(list: Seq<JsonTree>, n: int) -> Result<Seq<Seq<char>>, Seq<char>>
    decreases n,
{
    if n <= 0 {
        Ok(Seq::empty())
    } else {
        match books_read(list, n - 1) {
            Err(e) => Err(e),
            Ok(seen) => match list[n - 1].at("id"@).as_str() {
                None => Err(INVALID_RESPONSE@),
                Some(id) => if !valid_id(id) || seen.contains(id) {
                    Err(INVALID_RESPONSE@)
                } else {
                    Ok(seen.push(id))
                },
            },
        }
    }
}

proof fn lemma_books_read_err(list: Seq<JsonTree>, k: int, n: int)
    requires
        0 <= k <= n,
        books_read(list, k) is Err,
    ensures
        books_read(list, n) == books_read(list, k),
    decreases n - k,
{
    if k < n {
        lemma_books_read_err(list, k, n - 1);
    }
}

/// The books of an `AddressBook/get` answer: at most `MAX_BOOKS`, with
/// distinct valid ids.
pub open spec fn book_list_spec(arguments: JsonTree) -> Result<Seq<JsonTree>, Seq<char>> {
    match arguments.at("list"@).as_array() {
        None => Err(INVALID_RESPONSE@),
        Some(list) => if list.len() > MAX_BOOKS {
            Err(TOO_LARGE@)
        } else {
            match books_read(list, list.len() as int) {
                Err(e) => Err(e),
                Ok(_) => Ok(list),
            }
        },
    }
}

/// Checks the arguments of an `AddressBook/get` answer and gives its books.
pub fn book_list<'a>(arguments: &'a Json) -> (r: Result<&'a Vec<Json>, &'static str>)
    ensures
        match r {
            Ok(list) => book_list_spec(arguments.tree()) == Ok::<Seq<JsonTree>, Seq<char>>(trees(list@)),
            Err(e) => book_list_spec(arguments.tree()) == Err::<Seq<JsonTree>, Seq<char>>(e@),
        },
{
    let list = match array_of(at(Some(arguments), "list")) {
        Some(list) => list,
        None => return Err(INVALID_RESPONSE),
    };
    if list.len() > MAX_BOOKS {
        return Err(TOO_LARGE);
    }
    let ghost items = trees(list@);
    let mut seen: Vec<String> = Vec::new();
    let mut i: usize = 0;
    assert(strings(seen@) =~= Seq::<Seq<char>>::empty());
    #[verifier::loop_isolation(false)]
    while i < list.len()
        invariant
            i <= list@.len(),
            items == trees(list@),
            books_read(items, i as int) == Ok::<Seq<Seq<char>>, Seq<char>>(strings(seen@)),
        decreases list.len() - i,
    {
        assert(items[i as int] == list@[i as int].tree());
        let id = match list[i].member_str("id") {
            Some(id) => id,
            None => {
                proof {
                    lemma_books_read_err(items, i as int + 1, items.len() as int);
                }
                return Err(INVALID_RESPONSE);
            },
        };
        if bounded_id(id).is_err() || seen_text(&seen, id) {
            proof {
                lemma_books_read_err(items, i as int + 1, items.len() as int);
            }
            return Err(INVALID_RESPONSE);
        }
        let ghost before = strings(seen@);
        seen.push(id.to_owned());
        assert(strings(seen@) =~= before.push(id@));
        i += 1;
    }
    Ok(list)
}

/// The card filter of a list read: the source, and the search text if any.
pub open spec fn card_filter_spec(source: Seq<char>, query: Seq<char>) -> JsonTree {
    if query.len() == 0 {
        JsonTree::Object(seq![("inAddressBook"@, JsonTree::Str(source))])
    } else {
        JsonTree::Object(seq![("inAddressBook"@, JsonTree::Str(source)), ("text"@, JsonTree::Str(query))])
    }
}

pub fn card_filter(source: &str, query: &str) -> (r: Json)
    ensures
        r.tree() == card_filter_spec(source@, query@),
{
    if query.is_empty() {
        let r = object(vec![("inAddressBook".to_owned(), text(source))]);
        assert(r.tree()->Object_0 =~= card_filter_spec(source@, query@)->Object_0);
        r
    } else {
        let r = object(vec![("inAddressBook".to_owned(), text(source)), ("text".to_owned(), text(query))]);
        assert(r.tree()->Object_0 =~= card_filter_spec(source@, query@)->Object_0);
        r
    }
}

/// The `ContactCard/query` arguments of one page.
pub open spec fn card_query_spec(account: Seq<char>, filter: JsonTree, position: usize, limit: usize) -> JsonTree {
    JsonTree::Object(
        seq![
            ("accountId"@, JsonTree::Str(account)),
            ("filter"@, filter),
            ("position"@, JsonTree::UInt(position as u64)),
            ("limit"@, JsonTree::UInt(limit as u64)),
            ("calculateTotal"@, JsonTree::Bool(true)),
        ],
    )
}

pub fn card_query(account: &str, filter: Json, position: usize, limit: usize) -> (r: Json)
    ensures
        r.tree() == card_query_spec(account@, filter.tree(), position, limit),
{
    let ghost f = filter.tree();
    let r = object(
        vec![
            ("accountId".to_owned(), text(account)),
            ("filter".to_owned(), filter),
            ("position".to_owned(), Json::UInt(position as u64)),
            ("limit".to_owned(), Json::UInt(limit as u64)),
            ("calculateTotal".to_owned(), Json::Bool(true)),
        ],
    );
    assert(r.tree()->Object_0 =~= card_query_spec(account@, f, position, limit)->Object_0);
    r
}

/// The properties of a card row, and of a card's detail.
pub open spec fn card_properties(detail: bool) -> Seq<Seq<char>> {
    if detail {
        seq!["id"@, "addressBookIds"@, "name"@, "emails"@, "phones"@, "addresses"@]
    } else {
        seq!["id"@, "addressBookIds"@, "name"@, "emails"@]
    }
}

/// The `ContactCard/get` arguments for one chunk of ids.
pub open spec fn card_get_spec(account: Seq<char>, ids: Seq<Seq<char>>, detail: bool) -> JsonTree {
    JsonTree::Object(
        seq![
            ("accountId"@, JsonTree::Str(account)),
            ("ids"@, texts_json(ids)),
            ("properties"@, texts_json(card_properties(detail))),
        ],
    )
}

pub fn card_get(account: &str, ids: &Vec<String>, detail: bool) -> (r: Json)
    ensures
        r.tree() == card_get_spec(account@, strings(ids@), detail),
{
    let properties = if detail {
        text_list(&["id", "addressBookIds", "name", "emails", "phones", "addresses"])
    } else {
        text_list(&["id", "addressBookIds", "name", "emails"])
    };
    assert(properties.tree()->Array_0 =~= texts_json(card_properties(detail))->Array_0);
    let r = object(
        vec![
            ("accountId".to_owned(), text(account)),
            ("ids".to_owned(), texts_array(ids)),
            ("properties".to_owned(), properties),
        ],
    );
    assert(r.tree()->Object_0 =~= card_get_spec(account@, strings(ids@), detail)->Object_0);
    r
}

/// One card of a `ContactCard/get` list taken into the ids returned and the
/// bytes retained: its valid id was asked for and not returned before; then
/// its compact JSON size is charged.
pub open spec fn card_step(read: (Seq<Seq<char>>, nat), expected: Seq<Seq<char>>, card: JsonTree) -> Result<
    (Seq<Seq<char>>, nat),
    Seq<char>,
> {
    let (returned, used) = read;
    match card.at("id"@).as_str() {
        None => Err(INVALID_RESPONSE@),
        Some(id) => if !valid_id(id) || !expected.contains(id) || returned.contains(id) {
            Err(INVALID_RESPONSE@)
        } else if used + json_size(card) > MAX_BODY {
            Err(TOO_LARGE@)
        } else {
            Ok((returned.push(id), (used + json_size(card)) as nat))
        },
    }
}

pub open spec fn cards_read(list: Seq<JsonTree>, expected: Seq<Seq<char>>, used: nat, n: int) -> Result<
    (Seq<Seq<char>>, nat),
    Seq<char>,
>
    decreases n,
{
    if n <= 0 {
        Ok((Seq::empty(), used))
    } else {
        match cards_read(list, expected, used, n - 1) {
            Err(e) => Err(e),
            Ok(read) => card_step(read, expected, list[n - 1]),
        }
    }
}

proof fn lemma_cards_read_err(list: Seq<JsonTree>, expected: Seq<Seq<char>>, used: nat, k: int, n: int)
    requires
        0 <= k <= n,
        cards_read(list, expected, used, k) is Err,
    ensures
        cards_read(list, expected, used, n) == cards_read(list, expected, used, k),
    decreases n - k,
{
    if k < n {
        lemma_cards_read_err(list, expected, used, k, n - 1);
    }
}

/// The cards of a `ContactCard/get` answer for one chunk of ids, the bytes
/// retained after them, and how many different ids asked for did not come
/// back: a direct read may find a card absent, a query result may not.
pub open spec fn card_chunk_spec(chunk: Seq<Seq<char>>, arguments: JsonTree, used: nat) -> Result<
    (Seq<JsonTree>, nat, nat),
    Seq<char>,
> {
    match arguments.at("list"@).as_array() {
        None => Err(INVALID_RESPONSE@),
        Some(list) => match cards_read(list, chunk, used, list.len() as int) {
            Err(e) => Err(e),
            Ok((returned, total)) => Ok(
                (
                    list,
                    total,
                    if returned.len() <= distinct_count(chunk) {
                        (distinct_count(chunk) - returned.len()) as nat
                    } else {
                        0
                    },
                ),
            ),
        },
    }
}

/// Checks the arguments of a `ContactCard/get` answer for one chunk of ids,
/// charging the cards to the bytes already retained, and counts the ids that
/// did not come back. Each card is charged its compact JSON size.
pub fn card_chunk<'a>(chunk: &[String], arguments: &'a Json, used: &mut usize) -> (r: Result<
    (&'a Vec<Json>, usize),
    &'static str,
>)
    ensures
        match r {
            Ok((list, missing)) => card_chunk_spec(strings(chunk@), arguments.tree(), *old(used) as nat)
                == Ok::<(Seq<JsonTree>, nat, nat), Seq<char>>((trees(list@), *final(used) as nat, missing as nat)),
            Err(e) => card_chunk_spec(strings(chunk@), arguments.tree(), *old(used) as nat)
                == Err::<(Seq<JsonTree>, nat, nat), Seq<char>>(e@),
        },
{
    let ghost start = *used;
    let ghost expected = strings(chunk@);
    let list = match array_of(at(Some(arguments), "list")) {
        Some(list) => list,
        None => return Err(INVALID_RESPONSE),
    };
    let ghost items = trees(list@);
    let mut returned: Vec<String> = Vec::new();
    let mut i: usize = 0;
    assert(strings(returned@) =~= Seq::<Seq<char>>::empty());
    #[verifier::loop_isolation(false)]
    while i < list.len()
        invariant
            i <= list@.len(),
            items == trees(list@),
            expected == strings(chunk@),
            cards_read(items, expected, start as nat, i as int) == Ok::<(Seq<Seq<char>>, nat), Seq<char>>(
                (strings(returned@), *used as nat),
            ),
        decreases list.len() - i,
    {
        let card = &list[i];
        assert(items[i as int] == card.tree());
        let id = match card.member_str("id") {
            Some(id) => id,
            None => {
                proof {
                    lemma_cards_read_err(items, expected, start as nat, i as int + 1, items.len() as int);
                }
                return Err(INVALID_RESPONSE);
            },
        };
        if bounded_id(id).is_err() || !seen_text(chunk, id) || seen_text(&returned, id) {
            proof {
                lemma_cards_read_err(items, expected, start as nat, i as int + 1, items.len() as int);
            }
            return Err(INVALID_RESPONSE);
        }
        let charged = match json_size_of(card) {
            Some(size) => match used.checked_add(size) {
                Some(total) => total,
                None => MAX_BODY + 1,
            },
            None => MAX_BODY + 1,
        };
        if charged > MAX_BODY {
            proof {
                lemma_cards_read_err(items, expected, start as nat, i as int + 1, items.len() as int);
            }
            return Err(TOO_LARGE);
        }
        let ghost before = strings(returned@);
        returned.push(id.to_owned());
        assert(strings(returned@) =~= before.push(id@));
        *used = charged;
        i += 1;
    }
    let asked = count_distinct(chunk);
    let missing = if returned.len() <= asked {
        asked - returned.len()
    } else {
        0
    };
    Ok((list, missing))
}

/// The distinct texts of a sequence are as many as the texts of its set.
proof fn lemma_distinct_count_set(values: Seq<Seq<char>>)
    ensures
        distinct_count(values) == values.to_set().len(),
        values.to_set().finite(),
    decreases values.len(),
{
    broadcast use vstd::set::group_set_axioms, vstd::seq_lib::seq_to_set_is_finite;

    if values.len() == 0 {
        assert(values.to_set() =~= Set::<Seq<char>>::empty());
    } else {
        let front = values.drop_last();
        lemma_distinct_count_set(front);
        assert(values =~= front.push(values.last()));
        assert forall|a: Seq<char>| values.contains(a) <==> front.contains(a) || a == values.last() by {
            if values.contains(a) {
                let i = choose|i: int| 0 <= i < values.len() && values[i] == a;
                if i < front.len() {
                    assert(front[i] == a);
                }
            }
            if front.contains(a) {
                let i = choose|i: int| 0 <= i < front.len() && front[i] == a;
                assert(values[i] == a);
            }
            if a == values.last() {
                assert(values[values.len() - 1] == a);
            }
        }
        assert(values.to_set() =~= front.to_set().insert(values.last()));
    }
}

/// The cards read in order: one distinct asked-for id per card, each that
/// card's id; the bytes retained grow and, once a card is charged, stay within
/// the body limit.
proof fn lemma_cards_read_facts(list: Seq<JsonTree>, expected: Seq<Seq<char>>, used: nat, n: int)
    requires
        0 <= n <= list.len(),
        cards_read(list, expected, used, n) is Ok,
    ensures
        cards_read(list, expected, used, n) matches Ok((returned, total)) && {
            &&& returned.len() == n
            &&& returned.no_duplicates()
            &&& forall|i: int|
                0 <= i < n ==> expected.contains(#[trigger] returned[i]) && list[i].at("id"@).as_str() == Some(returned[i])
            &&& used <= total
            &&& (n == 0 ==> total == used)
            &&& (n > 0 ==> total <= MAX_BODY)
        },
    decreases n,
{
    if n > 0 {
        lemma_cards_read_facts(list, expected, used, n - 1);
        let (before, _) = cards_read(list, expected, used, n - 1)->Ok_0;
        let (after, _) = cards_read(list, expected, used, n)->Ok_0;
        let id = list[n - 1].at("id"@).as_str()->Some_0;
        assert(after == before.push(id));
        assert forall|i: int, j: int| 0 <= i < j < after.len() implies after[i] != after[j] by {
            if j == n - 1 {
                assert(after[i] == before[i]);
                assert(before.contains(before[i]));
            }
        }
    }
}

/// For a chunk of distinct ids, an accepted `ContactCard/get` answer holds
/// only cards asked for, each once; these and the ids that did not come back
/// are as many as the ids asked for; and the bytes retained grow, and stay
/// within the body limit unless no card was charged.
pub proof fn chunk_cards_and_missing_add_up(chunk: Seq<Seq<char>>, arguments: JsonTree, used: nat)
    requires
        chunk.no_duplicates(),
        card_chunk_spec(chunk, arguments, used) is Ok,
    ensures
        card_chunk_spec(chunk, arguments, used) matches Ok((list, total, missing)) && {
            &&& list.len() + missing == chunk.len()
            &&& forall|i: int|
                0 <= i < list.len() ==> ((#[trigger] list[i]).at("id"@).as_str() matches Some(id) && chunk.contains(id))
            &&& forall|i: int, j: int| 0 <= i < j < list.len() ==> list[i].at("id"@) != list[j].at("id"@)
            &&& used <= total
            &&& (total <= MAX_BODY || total == used)
        },
{
    broadcast use vstd::seq_lib::seq_to_set_is_finite;

    let list = arguments.at("list"@).as_array()->Some_0;
    lemma_cards_read_facts(list, chunk, used, list.len() as int);
    let returned = cards_read(list, chunk, used, list.len() as int)->Ok_0.0;
    lemma_distinct_count_set(chunk);
    chunk.unique_seq_to_set();
    returned.unique_seq_to_set();
    assert forall|a: Seq<char>| returned.to_set().contains(a) implies chunk.to_set().contains(a) by {
        let i = choose|i: int| 0 <= i < returned.len() && returned[i] == a;
        assert(chunk.contains(returned[i]));
    }
    vstd::set_lib::lemma_len_subset(returned.to_set(), chunk.to_set());
    assert(returned.len() <= distinct_count(chunk));
    assert(distinct_count(chunk) == chunk.len());
    assert forall|i: int, j: int| 0 <= i < j < list.len() implies list[i].at("id"@) != list[j].at("id"@) by {
        assert(list[i].at("id"@).as_str() == Some(returned[i]));
        assert(list[j].at("id"@).as_str() == Some(returned[j]));
    }
    assert forall|i: int| 0 <= i < list.len() implies ((#[trigger] list[i]).at("id"@).as_str() matches Some(id)
        && chunk.contains(id)) by {
        assert(list[i].at("id"@).as_str() == Some(returned[i]));
        assert(chunk.contains(returned[i]));
    }
}

/// The cards and the missing ids counted over the answers of a read.
pub open spec fn counted(results: Seq<(Seq<JsonTree>, nat, nat)>) -> nat
    decreases results.len(),
{
    if results.len() == 0 {
        0
    } else {
        counted(results.drop_last()) + results.last().0.len() + results.last().2
    }
}

/// The bytes retained before the answer at `k`: none before the first.
pub open spec fn retained_before(results: Seq<(Seq<JsonTree>, nat, nat)>, k: int) -> nat {
    if k <= 0 {
        0
    } else {
        results[k - 1].1
    }
}

/// A read of distinct ids in chunks, one `ContactCard/get` per chunk, with the
/// bytes retained carried from one answer to the next: where every answer is
/// accepted, the cards and the ids that did not come back are as many as the
/// ids asked for, and the bytes retained stay within the body limit.
pub proof fn read_cards_add_up(
    chunks: Seq<Seq<Seq<char>>>,
    answers: Seq<JsonTree>,
    results: Seq<(Seq<JsonTree>, nat, nat)>,
)
    requires
        joined_chunks(chunks).no_duplicates(),
        answers.len() == chunks.len(),
        results.len() == chunks.len(),
        forall|k: int|
            0 <= k < chunks.len() ==> card_chunk_spec(#[trigger] chunks[k], answers[k], retained_before(results, k))
                == Ok::<(Seq<JsonTree>, nat, nat), Seq<char>>(results[k]),
    ensures
        counted(results) == joined_chunks(chunks).len(),
        forall|k: int| 0 <= k < results.len() ==> (#[trigger] results[k]).1 <= MAX_BODY,
    decreases chunks.len(),
{
    if chunks.len() > 0 {
        let n = chunks.len() - 1;
        let front = joined_chunks(chunks.drop_last());
        let last = chunks.last();
        assert forall|i: int, j: int| 0 <= i < j < front.len() implies front[i] != front[j] by {
            assert(joined_chunks(chunks)[i] == front[i]);
            assert(joined_chunks(chunks)[j] == front[j]);
        }
        assert forall|i: int, j: int| 0 <= i < j < last.len() implies last[i] != last[j] by {
            assert(joined_chunks(chunks)[front.len() + i] == last[i]);
            assert(joined_chunks(chunks)[front.len() + j] == last[j]);
        }
        assert forall|k: int| 0 <= k < chunks.drop_last().len() implies card_chunk_spec(
            #[trigger] chunks.drop_last()[k],
            answers.drop_last()[k],
            retained_before(results.drop_last(), k),
        ) == Ok::<(Seq<JsonTree>, nat, nat), Seq<char>>(results.drop_last()[k]) by {
            assert(chunks[k] == chunks.drop_last()[k]);
        }
        read_cards_add_up(chunks.drop_last(), answers.drop_last(), results.drop_last());
        assert(card_chunk_spec(chunks[n], answers[n], retained_before(results, n)) == Ok::<
            (Seq<JsonTree>, nat, nat),
            Seq<char>,
        >(results[n]));
        chunk_cards_and_missing_add_up(last, answers[n], retained_before(results, n));
        if n > 0 {
            assert(results.drop_last()[n - 1] == results[n - 1]);
        }
        assert forall|k: int| 0 <= k < results.len() implies (#[trigger] results[k]).1 <= MAX_BODY by {
            if k < n {
                assert(results.drop_last()[k] == results[k]);
            }
        }
    }
}

// ---------------------------------------------------------------------------
// Refused credentials
// ---------------------------------------------------------------------------

/// The contact side of a JMAP session: the accounts whose credentials the
/// server refused. A refused account is never read again in this session.
pub struct Session {
    rejected: Vec<String>,
}

impl Session {
    /// The accounts refused so far.
    pub closed spec fn rejected(&self) -> Seq<Seq<char>> {
        strings(self.rejected@)
    }

    /// A session in which no account has been refused.
    pub fn new() -> (r: Session)
        ensures
            r.rejected() == Seq::<Seq<char>>::empty(),
    {
        let r = Session { rejected: Vec::new() };
        assert(r.rejected() =~= Seq::<Seq<char>>::empty());
        r
    }

    /// The account's context may be used only while its credentials have
    /// not been refused; a refused one answers `jmap_unauthorized` before any
    /// credential or network use.
    pub fn active_contact_context(&self, account_id: &str) -> (r: Result<(), &'static str>)
        ensures
            r is Ok <==> !self.rejected().contains(account_id@),
            r matches Err(e) ==> e@ == UNAUTHORIZED@,
    {
        if seen_text(&self.rejected, account_id) {
            Err(UNAUTHORIZED)
        } else {
            Ok(())
        }
    }

    /// Records the outcome of a read: a refused credential rejects the
    /// account for the rest of the session.
    pub fn note<T>(&mut self, account_id: &str, result: &Result<T, &'static str>)
        ensures
            crate::providers::jmap::is_unauthorized(*result) ==> final(self).rejected().contains(account_id@),
            forall|a: Seq<char>| #[trigger] old(self).rejected().contains(a) ==> final(self).rejected().contains(a),
            forall|a: Seq<char>|
                #[trigger] final(self).rejected().contains(a) ==> old(self).rejected().contains(a) || (a
                    == account_id@ && crate::providers::jmap::is_unauthorized(*result)),
    {
        let mut refused = false;
        crate::providers::jmap::note(&mut refused, result);
        if refused {
            let ghost before = strings(self.rejected@);
            self.rejected.push(account_id.to_owned());
            proof {
                assert(strings(self.rejected@) =~= before.push(account_id@));
                assert(strings(self.rejected@)[before.len() as int] == account_id@);
                assert forall|a: Seq<char>| #[trigger] before.contains(a) implies strings(self.rejected@).contains(a) by {
                    let k = choose|k: int| 0 <= k < before.len() && before[k] == a;
                    assert(strings(self.rejected@)[k] == a);
                }
            }
        }
    }
}

} // verus!
