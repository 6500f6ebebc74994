//! Following a paged JMAP `*/query` to its end.
//!
//! A server may return fewer ids than asked for, so the ids of a query are
//! read page by page. Each page must start where the previous one ended,
//! report the same total and query state, add only new valid ids, and make
//! progress; the whole result is capped.
use vstd::prelude::*;

use crate::json::{array_of, at, str_of, trees, Json, JsonTree};
use crate::providers::jmap::calendar::{usize_value, usize_value_spec};
use crate::codec::{json_text_bytes, json_text_size};
use crate::providers::jmap::{bounded_id, seen_text, strings, valid_id, INVALID_RESPONSE, TOO_LARGE};
use crate::text::str_eq;

verus! {

/// What a pager has read so far.
pub struct PagerView {
    pub limit: usize,
    pub max_pages: Option<usize>,
    pub budget: Option<usize>,
    pub too_many: Seq<char>,
    pub ids: Seq<Seq<char>>,
    pub expected_total: Option<usize>,
    pub expected_state: Option<Seq<char>>,
    pub position: usize,
    pub pages: usize,
    pub bytes: usize,
}

/// Reads the ids of a query page by page.
pub struct QueryPager {
    limit: usize,
    max_pages: Option<usize>,
    budget: Option<usize>,
    too_many: &'static str,
    ids: Vec<String>,
    expected_total: Option<usize>,
    expected_state: Option<String>,
    position: usize,
    pages: usize,
    bytes: usize,
}

/// The ids read so far are distinct.
pub open spec fn distinct(ids: Seq<Seq<char>>) -> bool {
    forall|i: int, j: int| 0 <= i < j < ids.len() ==> ids[i] != ids[j]
}

impl PagerView {
    /// The pager's invariant: the position is the number of distinct valid
    /// ids read, within the limit and the reported total; the byte total is
    /// within the budget; the page count within its cap.
    pub open spec fn wf(self) -> bool {
        &&& self.position == self.ids.len()
        &&& self.ids.len() <= self.limit
        &&& distinct(self.ids)
        &&& forall|i: int| 0 <= i < self.ids.len() ==> valid_id(#[trigger] self.ids[i])
        &&& (self.expected_total matches Some(total) ==> self.position <= total && total <= self.limit)
        &&& (self.budget matches Some(b) ==> self.bytes <= b)
        &&& (self.max_pages matches Some(m) ==> self.pages <= m && m < usize::MAX)
    }

    /// The ids still allowed.
    pub open spec fn remaining(self) -> int {
        self.limit - self.ids.len()
    }
}

/// The request for the next page: a page counted against the cap, refused
/// once the cap is passed or once the limit is reached before the total.
pub open spec fn next_page_spec(v: PagerView) -> Result<(usize, usize), Seq<char>> {
    let pages = if v.max_pages is Some {
        v.pages + 1
    } else {
        v.pages as int
    };
    if v.max_pages matches Some(m) && pages > m {
        Err(TOO_LARGE@)
    } else if v.remaining() == 0 && (v.expected_total matches Some(total) && v.position < total) {
        Err(v.too_many)
    } else {
        Ok((v.position, v.remaining() as usize))
    }
}

/// One id of a page taken into what was read: a valid id not seen before,
/// whose compact JSON size is charged against the budget where there is one.
pub open spec fn id_step(read: (Seq<Seq<char>>, usize), item: JsonTree, budget: Option<usize>) -> Result<
    (Seq<Seq<char>>, usize),
    Seq<char>,
> {
    let (ids, bytes) = read;
    match item.as_str() {
        None => Err(INVALID_RESPONSE@),
        Some(id) => if !valid_id(id) || ids.contains(id) {
            Err(INVALID_RESPONSE@)
        } else {
            match budget {
                None => Ok((ids.push(id), bytes)),
                Some(b) => if bytes + json_text_size(id) > b {
                    Err(TOO_LARGE@)
                } else {
                    Ok((ids.push(id), (bytes + json_text_size(id)) as usize))
                },
            }
        },
    }
}

/// The ids of one page appended, in order, to those read, with the byte total.
pub open spec fn page_ids(page: Seq<JsonTree>, ids: Seq<Seq<char>>, bytes: usize, budget: Option<usize>) -> Result<
    (Seq<Seq<char>>, usize),
    Seq<char>,
>
    decreases page.len(),
{
    if page.len() == 0 {
        Ok((ids, bytes))
    } else {
        match page_ids(page.drop_last(), ids, bytes, budget) {
            Err(e) => Err(e),
            Ok(read) => id_step(read, page.last(), budget),
        }
    }
}

/// A page whose first ids are refused is refused with the same error.
proof fn lemma_page_ids_err(page: Seq<JsonTree>, k: int, ids: Seq<Seq<char>>, bytes: usize, budget: Option<usize>)
    requires
        0 <= k <= page.len(),
        page_ids(page.take(k), ids, bytes, budget) is Err,
    ensures
        page_ids(page, ids, bytes, budget) == page_ids(page.take(k), ids, bytes, budget),
    decreases page.len() - k,
{
    if k < page.len() {
        assert(page.take(k + 1).drop_last() =~= page.take(k));
        lemma_page_ids_err(page, k + 1, ids, bytes, budget);
    } else {
        assert(page.take(k) =~= page);
    }
}

/// One page of a query answer read into the pager: `Ok((done, state))`.
pub open spec fn accept_spec(v: PagerView, query: JsonTree) -> Result<(bool, PagerView), Seq<char>> {
    match usize_value_spec(query.at("position"@)) {
        Err(e) => Err(e),
        Ok(returned) => if returned != v.position {
            Err(INVALID_RESPONSE@)
        } else {
            match usize_value_spec(query.at("total"@)) {
                Err(e) => Err(e),
                Ok(total) => if total > v.limit {
                    Err(v.too_many)
                } else if v.expected_total matches Some(t) && t != total {
                    Err(INVALID_RESPONSE@)
                } else {
                    match query.at("queryState"@).as_str() {
                        None => Err(INVALID_RESPONSE@),
                        Some(state) => if !valid_id(state) {
                            Err(INVALID_RESPONSE@)
                        } else if v.expected_state matches Some(s) && s != state {
                            Err(INVALID_RESPONSE@)
                        } else {
                            match query.at("ids"@).as_array() {
                                None => Err(INVALID_RESPONSE@),
                                Some(page) => if page.len() > v.remaining() {
                                    Err(TOO_LARGE@)
                                } else {
                                    match page_ids(page, v.ids, v.bytes, v.budget) {
                                        Err(e) => Err(e),
                                        Ok((ids, bytes)) => {
                                            let next = v.position + page.len();
                                            if next > total || (next < total && next == v.position) {
                                                Err(INVALID_RESPONSE@)
                                            } else {
                                                Ok(
                                                    (
                                                        next == total,
                                                        PagerView {
                                                            ids,
                                                            expected_total: Some(total),
                                                            expected_state: Some(state),
                                                            position: next as usize,
                                                            bytes,
                                                            ..v
                                                        },
                                                    ),
                                                )
                                            }
                                        },
                                    }
                                },
                            }
                        }
                    }
                },
            }
        },
    }
}

pub open spec fn pair_usize_result(r: Result<(usize, usize), &'static str>) -> Result<(usize, usize), Seq<char>> {
    match r {
        Ok(p) => Ok(p),
        Err(e) => Err(e@),
    }
}

impl QueryPager {
    pub closed spec fn view(&self) -> PagerView {
        PagerView {
            limit: self.limit,
            max_pages: self.max_pages,
            budget: self.budget,
            too_many: self.too_many@,
            ids: strings(self.ids@),
            expected_total: self.expected_total,
            expected_state: match self.expected_state {
                Some(s) => Some(s@),
                None => None,
            },
            position: self.position,
            pages: self.pages,
            bytes: self.bytes,
        }
    }

    /// A pager that has read nothing.
    pub fn new(limit: usize, max_pages: Option<usize>, budget: Option<usize>, too_many: &'static str) -> (r: QueryPager)
        requires
            max_pages matches Some(m) ==> m < usize::MAX,
        ensures
            r.view() == (PagerView {
                limit,
                max_pages,
                budget,
                too_many: too_many@,
                ids: Seq::empty(),
                expected_total: None,
                expected_state: None,
                position: 0,
                pages: 0,
                bytes: 0,
            }),
            r.view().wf(),
    {
        let r = QueryPager {
            limit,
            max_pages,
            budget,
            too_many,
            ids: Vec::new(),
            expected_total: None,
            expected_state: None,
            position: 0,
            pages: 0,
            bytes: 0,
        };
        assert(strings(r.ids@) =~= Seq::<Seq<char>>::empty());
        r
    }

    /// Asks for the next page: its position and the most ids it may hold.
    pub fn next_page(&mut self) -> (r: Result<(usize, usize), &'static str>)
        requires
            old(self).view().wf(),
        ensures
            pair_usize_result(r) == next_page_spec(old(self).view()),
            r is Ok ==> final(self).view() == (PagerView {
                pages: if old(self).view().max_pages is Some {
                    (old(self).view().pages + 1) as usize
                } else {
                    old(self).view().pages
                },
                ..old(self).view()
            }),
            r is Ok ==> final(self).view().wf(),
    {
        if let Some(m) = self.max_pages {
            self.pages = self.pages + 1;
            if self.pages > m {
                return Err(TOO_LARGE);
            }
        }
        let remaining = self.limit - self.ids.len();
        if remaining == 0 {
            if let Some(total) = self.expected_total {
                if self.position < total {
                    return Err(self.too_many);
                }
            }
        }
        Ok((self.position, remaining))
    }

    /// Reads one page of a query answer: `Ok(true)` once every id up to the
    /// reported total has been read.
    pub fn accept(&mut self, query: &Json) -> (r: Result<bool, &'static str>)
        requires
            old(self).view().wf(),
        ensures
            match accept_spec(old(self).view(), query.tree()) {
                Ok((done, next)) => r == Ok::<bool, &'static str>(done) && final(self).view() == next,
                Err(e) => r matches Err(found) && found@ == e,
            },
            r is Ok ==> final(self).view().wf(),
            r is Ok ==> old(self).view().ids.is_prefix_of(final(self).view().ids),
            r matches Ok(false) ==> final(self).view().position > old(self).view().position,
            r matches Ok(true) ==> final(self).view().expected_total == Some(
                final(self).view().position,
            ),
    {
        let ghost v = self.view();
        let returned = usize_value(at(Some(query), "position"))?;
        if returned != self.position {
            return Err(INVALID_RESPONSE);
        }
        let total = usize_value(at(Some(query), "total"))?;
        if total > self.limit {
            return Err(self.too_many);
        }
        if let Some(expected) = self.expected_total {
            if expected != total {
                return Err(INVALID_RESPONSE);
            }
        }
        let state = match str_of(at(Some(query), "queryState")) {
            Some(state) => state,
            None => return Err(INVALID_RESPONSE),
        };
        bounded_id(state)?;
        if let Some(expected) = &self.expected_state {
            if !str_eq(expected.as_str(), state) {
                return Err(INVALID_RESPONSE);
            }
        }
        let page = match array_of(at(Some(query), "ids")) {
            Some(page) => page,
            None => return Err(INVALID_RESPONSE),
        };
        let remaining = self.limit - self.ids.len();
        if page.len() > remaining {
            return Err(TOO_LARGE);
        }
        let ghost items = trees(page@);
        proof {
            assert(items.take(0) =~= Seq::<JsonTree>::empty());
            assert(strings(self.ids@) =~= v.ids);
        }
        let mut k: usize = 0;
        #[verifier::loop_isolation(false)]
        while k < page.len()
            invariant
                k <= page@.len(),
                items == trees(page@),
                page@.len() <= remaining,
                remaining == v.limit - v.ids.len(),
                v.wf(),
                v == old(self).view(),
                self.limit == v.limit,
                self.budget == v.budget,
                self.too_many == old(self).too_many,
                self.position == v.position,
                self.expected_total == old(self).expected_total,
                self.expected_state == old(self).expected_state,
                self.max_pages == v.max_pages,
                self.pages == v.pages,
                strings(self.ids@).len() == v.ids.len() + k,
                v.ids.is_prefix_of(strings(self.ids@)),
                distinct(strings(self.ids@)),
                forall|i: int| 0 <= i < self.ids@.len() ==> valid_id(#[trigger] strings(self.ids@)[i]),
                v.budget matches Some(b) ==> self.bytes <= b,
                page_ids(items.take(k as int), v.ids, v.bytes, v.budget) == Ok::<(Seq<Seq<char>>, usize), Seq<char>>(
                    (strings(self.ids@), self.bytes),
                ),
            decreases page.len() - k,
        {
            let ghost read = (strings(self.ids@), self.bytes);
            proof {
                assert(items.take(k as int + 1).drop_last() =~= items.take(k as int));
                assert(items.take(k as int + 1).last() == page@[k as int].tree());
            }
            let id = match page[k].as_str() {
                Some(id) => id,
                None => {
                    proof {
                        lemma_page_ids_err(items, k as int + 1, v.ids, v.bytes, v.budget);
                    }
                    return Err(INVALID_RESPONSE);
                },
            };
            if bounded_id(id).is_err() {
                proof {
                    lemma_page_ids_err(items, k as int + 1, v.ids, v.bytes, v.budget);
                }
                return Err(INVALID_RESPONSE);
            }
            if seen_text(&self.ids, id) {
                proof {
                    lemma_page_ids_err(items, k as int + 1, v.ids, v.bytes, v.budget);
                }
                return Err(INVALID_RESPONSE);
            }
            if let Some(b) = self.budget {
                let size = match json_text_bytes(id) {
                    Some(n) => n,
                    None => return Err(INVALID_RESPONSE),
                };
                match self.bytes.checked_add(size) {
                    Some(t) => {
                        if t > b {
                            proof {
                                lemma_page_ids_err(items, k as int + 1, v.ids, v.bytes, v.budget);
                            }
                            return Err(TOO_LARGE);
                        }
                        self.bytes = t;
                    },
                    None => {
                        proof {
                            lemma_page_ids_err(items, k as int + 1, v.ids, v.bytes, v.budget);
                        }
                        return Err(TOO_LARGE);
                    },
                }
            }
            self.ids.push(id.to_owned());
            proof {
                assert(strings(self.ids@) =~= read.0.push(id@));
            }
            k += 1;
        }
        proof {
            assert(items.take(k as int) =~= items);
        }
        let next = match self.position.checked_add(page.len()) {
            Some(next) => next,
            None => return Err(INVALID_RESPONSE),
        };
        if next > total || (next < total && next == self.position) {
            return Err(INVALID_RESPONSE);
        }
        self.position = next;
        self.expected_total = Some(total);
        self.expected_state = Some(state.to_owned());
        Ok(next == total)
    }

    /// The ids read, in the server's order.
    pub fn into_ids(self) -> (r: Vec<String>)
        ensures
            strings(r@) == self.view().ids,
    {
        self.ids
    }
}

/// The ids of one answer page, in its order.
pub open spec fn page_texts(query: JsonTree) -> Seq<Seq<char>> {
    match query.at("ids"@).as_array() {
        Some(page) => Seq::new(page.len(), |i: int| page[i].str_or(Seq::empty())),
        None => Seq::empty(),
    }
}

/// The ids of answer pages, joined in order.
pub open spec fn joined_pages(answers: Seq<JsonTree>) -> Seq<Seq<char>>
    decreases answers.len(),
{
    if answers.len() == 0 {
        Seq::empty()
    } else {
        joined_pages(answers.drop_last()) + page_texts(answers.last())
    }
}

proof fn lemma_page_ids_append(page: Seq<JsonTree>, ids: Seq<Seq<char>>, bytes: usize, budget: Option<usize>)
    requires
        page_ids(page, ids, bytes, budget) is Ok,
    ensures
        page_ids(page, ids, bytes, budget)->Ok_0.0 == ids + Seq::new(page.len(), |i: int| page[i].str_or(Seq::empty())),
    decreases page.len(),
{
    if page.len() > 0 {
        let front = page.drop_last();
        lemma_page_ids_append(front, ids, bytes, budget);
        assert(Seq::new(page.len(), |i: int| page[i].str_or(Seq::empty())) =~= Seq::new(
            front.len(),
            |i: int| front[i].str_or(Seq::empty()),
        ).push(page.last().str_or(Seq::empty())));
    } else {
        assert(ids + Seq::new(page.len(), |i: int| page[i].str_or(Seq::empty())) =~= ids);
    }
}

/// An accepted page appends its ids, in order, to those read.
proof fn lemma_accept_appends(v: PagerView, query: JsonTree)
    requires
        accept_spec(v, query) is Ok,
    ensures
        accept_spec(v, query)->Ok_0.1.ids == v.ids + page_texts(query),
{
    let page = query.at("ids"@).as_array()->Some_0;
    lemma_page_ids_append(page, v.ids, v.bytes, v.budget);
}

/// The pager in `state`, having asked for `pages` pages.
pub open spec fn with_pages(state: PagerView, pages: usize) -> PagerView {
    PagerView { pages, ..state }
}

/// The pager in `state`, with some count of pages asked for, accepts `answer`
/// and is then in `next`; `done` tells whether the query is finished.
pub open spec fn accepts(state: PagerView, answer: JsonTree, done: bool, next: PagerView) -> bool {
    exists|pages: usize|
        #[trigger] accept_spec(with_pages(state, pages), answer) == Ok::<(bool, PagerView), Seq<char>>((done, next))
}

/// Reading a query to its end: where a fresh pager accepts one answer after
/// another, each but the last leaving the query unfinished and the last
/// finishing it (whatever pages were counted between them), each request
/// asks from the number of ids read so far for what the limit leaves, and the
/// ids read are the answers' ids joined in order, pairwise distinct, as many
/// as the total the server reported, and within the limit.
pub proof fn finished_query_joins_its_pages(states: Seq<PagerView>, answers: Seq<JsonTree>)
    requires
        answers.len() > 0,
        states.len() == answers.len() + 1,
        states[0].ids.len() == 0,
        forall|k: int| 0 <= k < states.len() ==> (#[trigger] states[k]).wf(),
        forall|k: int|
            0 <= k < answers.len() ==> accepts(states[k], #[trigger] answers[k], k == answers.len() - 1, states[k + 1]),
    ensures
        forall|k: int|
            #![trigger states[k]]
            0 <= k < states.len() ==> {
                &&& states[k].ids == joined_pages(answers.take(k))
                &&& states[k].position == states[k].ids.len()
                &&& next_page_spec(states[k]) matches Ok((position, limit)) ==> position == states[k].ids.len() && limit
                    == states[0].limit - states[k].ids.len()
            },
        states.last().ids == joined_pages(answers),
        distinct(states.last().ids),
        states.last().expected_total == Some(states.last().ids.len() as usize),
        states.last().ids.len() <= states[0].limit,
{
    let n = answers.len() as int;
    assert forall|k: int| #![trigger states[k]] 0 <= k <= n implies states[k].ids == joined_pages(answers.take(k))
        && states[k].limit == states[0].limit by {
        lemma_states_join(states, answers, k);
    }
    assert(answers.take(n) =~= answers);
    assert(accepts(states[n - 1], answers[n - 1], true, states[n]));
    let pages = choose|pages: usize|
        #[trigger] accept_spec(with_pages(states[n - 1], pages), answers[n - 1]) == Ok::<(bool, PagerView), Seq<char>>(
            (true, states[n]),
        );
    assert(accept_spec(with_pages(states[n - 1], pages), answers[n - 1]) == Ok::<(bool, PagerView), Seq<char>>(
        (n - 1 == answers.len() - 1, states[n]),
    ));
}

proof fn lemma_states_join(states: Seq<PagerView>, answers: Seq<JsonTree>, k: int)
    requires
        states.len() == answers.len() + 1,
        states[0].ids.len() == 0,
        forall|j: int|
            0 <= j < answers.len() ==> accepts(states[j], #[trigger] answers[j], j == answers.len() - 1, states[j + 1]),
        0 <= k <= answers.len(),
    ensures
        states[k].ids == joined_pages(answers.take(k)),
        states[k].limit == states[0].limit,
    decreases k,
{
    if k == 0 {
        assert(states[0].ids =~= Seq::<Seq<char>>::empty());
    } else {
        lemma_states_join(states, answers, k - 1);
        assert(accepts(states[k - 1], answers[k - 1], k - 1 == answers.len() - 1, states[k]));
        let pages = choose|pages: usize|
            #[trigger] accept_spec(with_pages(states[k - 1], pages), answers[k - 1]) == Ok::<(bool, PagerView), Seq<char>>(
                (k - 1 == answers.len() - 1, states[k]),
            );
        assert(accept_spec(with_pages(states[k - 1], pages), answers[k - 1]) == Ok::<(bool, PagerView), Seq<char>>(
            (k - 1 == answers.len() - 1, states[k]),
        ));
        lemma_accept_appends(with_pages(states[k - 1], pages), answers[k - 1]);
        assert(answers.take(k).drop_last() =~= answers.take(k - 1));
        assert(answers.take(k).last() == answers[k - 1]);
    }
}

} // verus!
