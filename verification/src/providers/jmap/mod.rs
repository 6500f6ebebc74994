//! Checks and bounds shared by the read-only JMAP contacts and calendars projections.
use vstd::prelude::*;

use crate::json::{array, json_size, json_size_of, text, Json, JsonTree};
use crate::text::{byte_len, byte_len_within, has_forbidden, str_eq, str_has_forbidden};

pub mod calendar;
pub mod contacts;
pub mod paging;

verus! {

/// The cumulative budget, in bytes of compact JSON, for retained server objects.
pub const MAX_BODY: usize = 33_554_432;

pub const MAX_ID: usize = 8192;

pub const INVALID_RESPONSE: &'static str = "jmap_invalid_response";

pub const TOO_LARGE: &'static str = "jmap_response_too_large";

pub const UNAUTHORIZED: &'static str = "jmap_unauthorized";

/// A server identifier that may be echoed: non-empty, at most `MAX_ID` bytes,
/// and free of control and bidirectional formatting characters.
pub open spec fn valid_id(s: Seq<char>) -> bool {
    &&& s.len() > 0
    &&& byte_len(s) <= MAX_ID
    &&& !has_forbidden(s)
}

/// Accepts a server identifier; anything else is an invalid response.
pub fn bounded_id(value: &str) -> (r: Result<&str, &'static str>)
    ensures
        match r {
            Ok(v) => v@ == value@ && valid_id(value@),
            Err(e) => e@ == INVALID_RESPONSE@ && !valid_id(value@),
        },
{
    if value.is_empty() || !byte_len_within(value, MAX_ID) || str_has_forbidden(value) {
        return Err(INVALID_RESPONSE);
    }
    Ok(value)
}

/// Whether a result is the refusal that invalidates the account's session.
pub open spec fn is_unauthorized<T>(result: Result<T, &'static str>) -> bool {
    result matches Err(e) && e@ == UNAUTHORIZED@
}

/// Records a refused credential: once set, the context stays rejected.
pub fn note<T>(rejected: &mut bool, result: &Result<T, &'static str>)
    ensures
        *final(rejected) == (*old(rejected) || is_unauthorized(*result)),
{
    match result {
        Err(e) => {
            if str_eq(e, UNAUTHORIZED) {
                *rejected = true;
            }
        },
        Ok(_) => {},
    }
}

/// Adds the compact JSON size of one more retained value to the running
/// total (`serde_json::to_vec(value).len()`). An overflowing total leaves
/// `used` unchanged; a total above `limit` is kept and refused.
pub fn charge_json_bytes(used: &mut usize, value: &Json, limit: usize) -> (r: Result<(), &'static str>)
    ensures
        *old(used) + json_size(value.tree()) > usize::MAX ==> *final(used) == *old(used) && r is Err,
        *old(used) + json_size(value.tree()) <= usize::MAX ==> *final(used) == *old(used) + json_size(value.tree()),
        r is Ok <==> *old(used) + json_size(value.tree()) <= limit,
        r matches Err(e) ==> e@ == TOO_LARGE@,
{
    let size = match json_size_of(value) {
        Some(size) => size,
        None => return Err(TOO_LARGE),
    };
    match used.checked_add(size) {
        Some(total) => {
            *used = total;
        },
        None => {
            return Err(TOO_LARGE);
        },
    }
    if *used > limit {
        return Err(TOO_LARGE);
    }
    Ok(())
}

/// The rows that `step` makes of the items in order: an item may be skipped
/// (`Ok(None)`), and the first refusal ends the whole projection.
pub open spec fn collect<T, R>(items: Seq<T>, step: spec_fn(T) -> Result<Option<R>, Seq<char>>) -> Result<Seq<R>, Seq<char>>
    decreases items.len(),
{
    if items.len() == 0 {
        Ok(Seq::empty())
    } else {
        match collect(items.drop_last(), step) {
            Err(e) => Err(e),
            Ok(rows) => match step(items.last()) {
                Err(e) => Err(e),
                Ok(None) => Ok(rows),
                Ok(Some(row)) => Ok(rows.push(row)),
            },
        }
    }
}

/// One more item extends the collection of the previous ones.
pub proof fn lemma_collect_step<T, R>(items: Seq<T>, i: int, step: spec_fn(T) -> Result<Option<R>, Seq<char>>)
    requires
        0 <= i < items.len(),
    ensures
        collect(items.take(i + 1), step) == match collect(items.take(i), step) {
            Err(e) => Err(e),
            Ok(rows) => match step(items[i]) {
                Err(e) => Err(e),
                Ok(None) => Ok(rows),
                Ok(Some(row)) => Ok(rows.push(row)),
            },
        },
{
    assert(items.take(i + 1).drop_last() =~= items.take(i));
}

/// Every row of a collection is the row of one of the items.
pub proof fn lemma_collect_origin<T, R>(items: Seq<T>, step: spec_fn(T) -> Result<Option<R>, Seq<char>>)
    requires
        collect(items, step) is Ok,
    ensures
        forall|i: int|
            #![trigger collect(items, step)->Ok_0[i]]
            0 <= i < collect(items, step)->Ok_0.len() ==> exists|k: int|
                0 <= k < items.len() && #[trigger] step(items[k]) == Ok::<Option<R>, Seq<char>>(
                    Some(collect(items, step)->Ok_0[i]),
                ),
    decreases items.len(),
{
    if items.len() > 0 {
        let front = items.drop_last();
        lemma_collect_origin(front, step);
        let rows = collect(items, step)->Ok_0;
        let before = collect(front, step)->Ok_0;
        assert forall|i: int| #![trigger rows[i]] 0 <= i < rows.len() implies exists|k: int|
            0 <= k < items.len() && #[trigger] step(items[k]) == Ok::<Option<R>, Seq<char>>(Some(rows[i])) by {
            if i < before.len() {
                assert(rows[i] == before[i]);
                let k = choose|k: int|
                    0 <= k < front.len() && #[trigger] step(front[k]) == Ok::<Option<R>, Seq<char>>(Some(before[i]));
                assert(items[k] == front[k]);
            } else {
                assert(step(items[items.len() - 1]) == Ok::<Option<R>, Seq<char>>(Some(rows[i])));
            }
        }
    }
}

/// Every item is accepted, and every row an item gives is among the rows of
/// the collection.
pub proof fn lemma_collect_keeps<T, R>(items: Seq<T>, step: spec_fn(T) -> Result<Option<R>, Seq<char>>)
    requires
        collect(items, step) is Ok,
    ensures
        forall|k: int|
            0 <= k < items.len() ==> (#[trigger] step(items[k]) matches Ok(Some(row)) ==> collect(items, step)->Ok_0.contains(
                row,
            )),
        forall|k: int| 0 <= k < items.len() ==> (#[trigger] step(items[k])) is Ok,
    decreases items.len(),
{
    if items.len() > 0 {
        let front = items.drop_last();
        lemma_collect_keeps(front, step);
        let rows = collect(items, step)->Ok_0;
        let before = collect(front, step)->Ok_0;
        assert forall|k: int| 0 <= k < items.len() implies (#[trigger] step(items[k]) matches Ok(Some(row))
            ==> rows.contains(row)) by {
            if k < front.len() {
                assert(items[k] == front[k]);
                if let Ok(Some(row)) = step(front[k]) {
                    let j = choose|j: int| 0 <= j < before.len() && before[j] == row;
                    assert(rows[j] == row);
                }
            } else {
                if let Ok(Some(row)) = step(items[k]) {
                    assert(rows[rows.len() - 1] == row);
                }
            }
        }
        assert forall|k: int| 0 <= k < items.len() implies (#[trigger] step(items[k])) is Ok by {
            if k < front.len() {
                assert(items[k] == front[k]);
            }
        }
    }
}

/// A refusal stops the collection for good.
pub proof fn lemma_collect_err<T, R>(items: Seq<T>, i: int, step: spec_fn(T) -> Result<Option<R>, Seq<char>>)
    requires
        0 <= i <= items.len(),
        collect(items.take(i), step) is Err,
    ensures
        collect(items, step) == collect(items.take(i), step),
    decreases items.len() - i,
{
    if i < items.len() {
        lemma_collect_step(items, i, step);
        lemma_collect_err(items, i + 1, step);
    } else {
        assert(items.take(i) =~= items);
    }
}

/// A JSON object of at most `MAX_OBJECT_FIELDS` members.
pub const MAX_OBJECT_FIELDS: usize = 256;

pub open spec fn validate_object_spec(value: JsonTree) -> Result<(), Seq<char>> {
    match value.as_object() {
        None => Err(INVALID_RESPONSE@),
        Some(fields) => if fields.len() > MAX_OBJECT_FIELDS {
            Err(TOO_LARGE@)
        } else {
            Ok(())
        },
    }
}

pub open spec fn err_view<T>(r: Result<T, &'static str>) -> Result<(), Seq<char>> {
    match r {
        Ok(_) => Ok(()),
        Err(e) => Err(e@),
    }
}

/// Accepts an object of bounded size.
pub fn validate_object(value: &Json) -> (r: Result<(), &'static str>)
    ensures
        err_view(r) == validate_object_spec(value.tree()),
{
    match value.as_object() {
        None => Err(INVALID_RESPONSE),
        Some(fields) => {
            if fields.len() > MAX_OBJECT_FIELDS {
                Err(TOO_LARGE)
            } else {
                Ok(())
            }
        },
    }
}


/// `[[name, arguments, tag]]`: a JMAP request of one method call.
pub open spec fn method_call_spec(name: Seq<char>, arguments: JsonTree, tag: Seq<char>) -> JsonTree {
    JsonTree::Array(seq![JsonTree::Array(seq![JsonTree::Str(name), arguments, JsonTree::Str(tag)])])
}

/// Frames one method call as a JMAP request.
pub fn method_call(name: &str, arguments: Json, tag: &str) -> (r: Json)
    ensures
        r.tree() == method_call_spec(name@, arguments.tree(), tag@),
{
    let ghost t = arguments.tree();
    let call = array(vec![text(name), arguments, text(tag)]);
    assert(call.tree()->Array_0 =~= seq![JsonTree::Str(name@), t, JsonTree::Str(tag@)]);
    let r = array(vec![call]);
    assert(r.tree()->Array_0 =~= seq![call.tree()]);
    r
}

/// The number of different texts in a sequence.
pub open spec fn distinct_count(values: Seq<Seq<char>>) -> nat
    decreases values.len(),
{
    if values.len() == 0 {
        0
    } else if values.drop_last().contains(values.last()) {
        distinct_count(values.drop_last())
    } else {
        distinct_count(values.drop_last()) + 1
    }
}

/// Whether a text is among some owned texts.
pub fn seen_text(values: &[String], value: &str) -> (r: bool)
    ensures
        r == strings(values@).contains(value@),
{
    let mut i: usize = 0;
    while i < values.len()
        invariant
            i <= values@.len(),
            forall|j: int| 0 <= j < i ==> (#[trigger] strings(values@)[j]) != value@,
        decreases values.len() - i,
    {
        if str_eq(values[i].as_str(), value) {
            assert(strings(values@)[i as int] == value@);
            return true;
        }
        i += 1;
    }
    false
}

/// How many different ids a chunk asks for.
pub fn count_distinct(values: &[String]) -> (r: usize)
    ensures
        r == distinct_count(strings(values@)),
{
    let ghost all = strings(values@);
    let mut count: usize = 0;
    let mut i: usize = 0;
    while i < values.len()
        invariant
            i <= values@.len(),
            all == strings(values@),
            count == distinct_count(all.take(i as int)),
            count <= i,
        decreases values.len() - i,
    {
        let ghost prefix = all.take(i as int);
        assert(all.take(i as int + 1).drop_last() =~= prefix);
        assert(all.take(i as int + 1).last() == values@[i as int]@);
        let mut j: usize = 0;
        let mut found = false;
        while j < i
            invariant
                j <= i,
                i < values@.len(),
                all == strings(values@),
                prefix == all.take(i as int),
                found == exists|k: int| 0 <= k < j && #[trigger] prefix[k] == values@[i as int]@,
            decreases i - j,
        {
            if str_eq(values[j].as_str(), values[i].as_str()) {
                assert(prefix[j as int] == values@[i as int]@);
                found = true;
            }
            j += 1;
        }
        proof {
            if found {
                let k = choose|k: int| 0 <= k < i && #[trigger] prefix[k] == values@[i as int]@;
                assert(prefix.contains(values@[i as int]@));
            } else {
                assert forall|k: int| 0 <= k < prefix.len() implies prefix[k] != values@[i as int]@ by {
                    if prefix[k] == values@[i as int]@ {
                        assert(exists|m: int| 0 <= m < i && #[trigger] prefix[m] == values@[i as int]@);
                    }
                }
                assert(!prefix.contains(values@[i as int]@));
            }
        }
        if !found {
            count = count + 1;
        }
        i += 1;
    }
    assert(all.take(i as int) =~= all);
    count
}

/// The texts of some owned strings.
pub open spec fn strings(values: Seq<String>) -> Seq<Seq<char>> {
    Seq::new(values.len(), |i: int| values[i]@)
}


/// The ids of a read, handed out in chunks of at most `size` ids, in order:
/// one `*/get` call per chunk.
pub struct Chunks {
    ids: Vec<String>,
    size: usize,
    next: usize,
    index: usize,
}

impl Chunks {
    /// All the ids.
    pub closed spec fn ids(&self) -> Seq<Seq<char>> {
        strings(self.ids@)
    }

    /// How many ids have been handed out.
    pub closed spec fn handed_out(&self) -> nat {
        self.next as nat
    }

    /// How many chunks have been handed out.
    pub closed spec fn count(&self) -> nat {
        self.index as nat
    }

    /// The chunk size.
    pub closed spec fn size(&self) -> nat {
        self.size as nat
    }

    pub closed spec fn wf(&self) -> bool {
        &&& self.size > 0
        &&& self.next <= self.ids@.len()
        &&& self.index <= self.next
    }

    /// Chunks of at most `size` ids; `size` must be positive.
    pub fn new(ids: Vec<String>, size: usize) -> (r: Chunks)
        requires
            size > 0,
        ensures
            r.wf(),
            r.ids() == strings(ids@),
            r.handed_out() == 0,
            r.count() == 0,
            r.size() == size,
    {
        Chunks { ids, size, next: 0, index: 0 }
    }

    /// The next chunk and its position among the chunks, or `None` once every
    /// id has been handed out. Each chunk follows the previous one and holds
    /// `size` ids, or the rest where fewer are left.
    pub fn next_chunk(&mut self) -> (r: Option<(usize, Vec<String>)>)
        requires
            old(self).wf(),
        ensures
            final(self).wf(),
            final(self).ids() == old(self).ids(),
            final(self).size() == old(self).size(),
            old(self).handed_out() == old(self).ids().len() <==> r is None,
            r is None ==> final(self).handed_out() == old(self).handed_out() && final(self).count() == old(self).count(),
            r matches Some((index, chunk)) ==> {
                let end = if old(self).handed_out() + old(self).size() < old(self).ids().len() {
                    (old(self).handed_out() + old(self).size()) as int
                } else {
                    old(self).ids().len() as int
                };
                &&& index == old(self).count()
                &&& strings(chunk@) == old(self).ids().subrange(old(self).handed_out() as int, end)
                &&& final(self).handed_out() == end
                &&& final(self).count() == old(self).count() + 1
            },
    {
        if self.next >= self.ids.len() {
            return None;
        }
        let end = if self.size < self.ids.len() - self.next {
            self.next + self.size
        } else {
            self.ids.len()
        };
        let mut chunk: Vec<String> = Vec::new();
        let mut k: usize = self.next;
        let ghost start = self.next;
        assert(strings(chunk@) =~= strings(self.ids@).subrange(start as int, start as int));
        while k < end
            invariant
                start <= k <= end <= self.ids@.len(),
                strings(chunk@) == strings(self.ids@).subrange(start as int, k as int),
            decreases end - k,
        {
            let ghost before = strings(chunk@);
            let id = self.ids[k].as_str().to_owned();
            assert(id@ == strings(self.ids@)[k as int]);
            chunk.push(id);
            assert(strings(chunk@) =~= before.push(id@));
            k += 1;
            assert(strings(chunk@) =~= strings(self.ids@).subrange(start as int, k as int));
        }
        let index = self.index;
        self.next = end;
        self.index = self.index + 1;
        Some((index, chunk))
    }
}

/// The ids of chunks, joined in order.
pub open spec fn joined_chunks(chunks: Seq<Seq<Seq<char>>>) -> Seq<Seq<char>>
    decreases chunks.len(),
{
    if chunks.len() == 0 {
        Seq::empty()
    } else {
        joined_chunks(chunks.drop_last()) + chunks.last()
    }
}

/// Where the chunk after the ids handed out ends: `size` ids on, or at the
/// end of the ids.
pub open spec fn chunk_end(len: nat, size: nat, handed: nat) -> nat {
    if handed + size < len {
        handed + size
    } else {
        len
    }
}

/// The chunk at `k` starts where the ids handed out before it end, before
/// the end of the ids, and holds the ids up to where the next chunk starts,
/// `size` ids on or the end of the ids.
pub open spec fn chunk_handed_out(
    ids: Seq<Seq<char>>,
    size: nat,
    handed: Seq<nat>,
    chunks: Seq<Seq<Seq<char>>>,
    k: int,
) -> bool {
    &&& handed[k] < ids.len()
    &&& handed[k + 1] == chunk_end(ids.len(), size, handed[k])
    &&& chunks[k] == ids.subrange(handed[k] as int, handed[k + 1] as int)
}

/// Handing out chunks until none is left: where each chunk starts where the
/// previous one ended and holds `size` ids, or the rest where fewer are left,
/// and the last one ends at the end of the ids, the chunks are not empty, hold
/// at most `size` ids each, and joined in order are the ids.
pub proof fn chunks_cover_the_ids(ids: Seq<Seq<char>>, size: nat, handed: Seq<nat>, chunks: Seq<Seq<Seq<char>>>)
    requires
        size > 0,
        handed.len() == chunks.len() + 1,
        handed[0] == 0,
        handed.last() == ids.len(),
        forall|k: int| 0 <= k < chunks.len() ==> #[trigger] chunk_handed_out(ids, size, handed, chunks, k),
    ensures
        joined_chunks(chunks) == ids,
        forall|k: int| 0 <= k < chunks.len() ==> 0 < (#[trigger] chunks[k]).len() <= size,
{
    assert forall|k: int| 0 <= k <= chunks.len() implies joined_chunks(#[trigger] chunks.take(k)) == ids.take(
        handed[k] as int,
    ) && handed[k] <= ids.len() by {
        lemma_chunks_prefix(ids, size, handed, chunks, k);
    }
    assert(chunks.take(chunks.len() as int) =~= chunks);
    assert(ids.take(ids.len() as int) =~= ids);
    assert forall|k: int| 0 <= k < chunks.len() implies 0 < (#[trigger] chunks[k]).len() <= size by {
        assert(chunk_handed_out(ids, size, handed, chunks, k));
    }
}

proof fn lemma_chunks_prefix(ids: Seq<Seq<char>>, size: nat, handed: Seq<nat>, chunks: Seq<Seq<Seq<char>>>, k: int)
    requires
        size > 0,
        handed.len() == chunks.len() + 1,
        handed[0] == 0,
        forall|j: int| 0 <= j < chunks.len() ==> #[trigger] chunk_handed_out(ids, size, handed, chunks, j),
        0 <= k <= chunks.len(),
    ensures
        joined_chunks(chunks.take(k)) == ids.take(handed[k] as int),
        handed[k] <= ids.len(),
    decreases k,
{
    if k == 0 {
        assert(ids.take(0) =~= Seq::<Seq<char>>::empty());
    } else {
        lemma_chunks_prefix(ids, size, handed, chunks, k - 1);
        assert(chunk_handed_out(ids, size, handed, chunks, k - 1));
        assert(chunks.take(k).drop_last() =~= chunks.take(k - 1));
        assert(chunks.take(k).last() == chunks[k - 1]);
        assert(ids.take(handed[k] as int) =~= ids.take(handed[k - 1] as int) + ids.subrange(
            handed[k - 1] as int,
            handed[k] as int,
        ));
    }
}

} // verus!
