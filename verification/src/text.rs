//! Character classes and text helpers shared by the request and response checks.
use vstd::prelude::*;

verus! {

broadcast use vstd::string::axiom_spec_iter;

/// Unicode general category Cc: U+0000..U+001F and U+007F..U+009F.
pub open spec fn is_control(c: char) -> bool {
    (c as u32) <= 0x1f || (0x7f <= (c as u32) && (c as u32) <= 0x9f)
}

/// Bidirectional formatting characters that can disguise an identifier.
pub open spec fn is_bidi_format(c: char) -> bool {
    ||| c as u32 == 0x061c
    ||| c as u32 == 0x200e
    ||| c as u32 == 0x200f
    ||| (0x202a <= (c as u32) && (c as u32) <= 0x202e)
    ||| (0x2066 <= (c as u32) && (c as u32) <= 0x2069)
}

/// A character that an identifier or parameter may not hold.
pub open spec fn is_forbidden(c: char) -> bool {
    is_control(c) || is_bidi_format(c)
}

pub open spec fn has_control(s: Seq<char>) -> bool {
    exists|i: int| 0 <= i < s.len() && is_control(#[trigger] s[i])
}

pub open spec fn has_forbidden(s: Seq<char>) -> bool {
    exists|i: int| 0 <= i < s.len() && is_forbidden(#[trigger] s[i])
}

/// The number of bytes that encode a character in UTF-8.
pub open spec fn char_width(c: char) -> nat {
    if (c as u32) < 0x80 {
        1
    } else if (c as u32) < 0x800 {
        2
    } else if (c as u32) < 0x10000 {
        3
    } else {
        4
    }
}

/// The length in bytes of the UTF-8 encoding (`str::len`).
pub open spec fn byte_len(s: Seq<char>) -> nat
    decreases s.len(),
{
    if s.len() == 0 {
        0
    } else {
        byte_len(s.drop_last()) + char_width(s.last())
    }
}

/// Whether the UTF-8 encoding is at most `max` bytes long.
pub fn byte_len_within(s: &str, max: usize) -> (r: bool)
    ensures
        r == (byte_len(s@) <= max),
{
    let chars = chars_of(s);
    let mut total: usize = 0;
    let mut i: usize = 0;
    while i < chars.len()
        invariant
            i <= chars@.len(),
            chars@ == s@,
            total == byte_len(chars@.take(i as int)),
            total <= max,
        decreases chars.len() - i,
    {
        proof {
            assert(chars@.take(i as int + 1).drop_last() =~= chars@.take(i as int));
        }
        let n = chars[i] as u32;
        let width: usize = if n < 0x80 {
            1
        } else if n < 0x800 {
            2
        } else if n < 0x10000 {
            3
        } else {
            4
        };
        i += 1;
        if width > max - total {
            proof {
                lemma_byte_len_prefix(chars@, i as int);
            }
            return false;
        }
        total = total + width;
    }
    proof {
        assert(chars@.take(i as int) =~= chars@);
    }
    true
}

/// The length in bytes of the UTF-8 encoding; `None` where it does not fit
/// `usize`.
pub fn utf8_len(s: &str) -> (r: Option<usize>)
    ensures
        r matches Some(n) ==> n == byte_len(s@),
        r is None ==> byte_len(s@) > usize::MAX,
{
    let chars = chars_of(s);
    let mut total: usize = 0;
    let mut i: usize = 0;
    while i < chars.len()
        invariant
            i <= chars@.len(),
            chars@ == s@,
            total == byte_len(chars@.take(i as int)),
        decreases chars.len() - i,
    {
        proof {
            assert(chars@.take(i as int + 1).drop_last() =~= chars@.take(i as int));
        }
        let n = chars[i] as u32;
        let width: usize = if n < 0x80 {
            1
        } else if n < 0x800 {
            2
        } else if n < 0x10000 {
            3
        } else {
            4
        };
        i += 1;
        total = match total.checked_add(width) {
            Some(t) => t,
            None => {
                proof {
                    lemma_byte_len_prefix(chars@, i as int);
                }
                return None;
            },
        };
    }
    proof {
        assert(chars@.take(i as int) =~= chars@);
    }
    Some(total)
}

/// A prefix is never longer in bytes than the whole.
pub proof fn lemma_byte_len_prefix(s: Seq<char>, i: int)
    requires
        0 <= i <= s.len(),
    ensures
        byte_len(s.take(i)) <= byte_len(s),
    decreases s.len() - i,
{
    if i < s.len() {
        lemma_byte_len_prefix(s, i + 1);
        assert(s.take(i + 1).drop_last() =~= s.take(i));
    } else {
        assert(s.take(i) =~= s);
    }
}

/// The characters that are not control characters, in order.
pub open spec fn without_controls(s: Seq<char>) -> Seq<char> {
    s.filter(|c: char| !is_control(c))
}

/// At most `n` leading characters.
pub open spec fn prefix(s: Seq<char>, n: int) -> Seq<char> {
    if s.len() <= n {
        s
    } else {
        s.take(n)
    }
}

pub fn char_is_control(c: char) -> (r: bool)
    ensures
        r == is_control(c),
{
    let n = c as u32;
    n <= 0x1f || (0x7f <= n && n <= 0x9f)
}

pub fn char_is_forbidden(c: char) -> (r: bool)
    ensures
        r == is_forbidden(c),
{
    let n = c as u32;
    char_is_control(c) || n == 0x061c || n == 0x200e || n == 0x200f || (0x202a <= n && n <= 0x202e)
        || (0x2066 <= n && n <= 0x2069)
}

/// The characters of a string.
pub fn chars_of(s: &str) -> (r: Vec<char>)
    ensures
        r@ == s@,
{
    let mut out: Vec<char> = Vec::new();
    for c in iter: s.chars()
        invariant
            out@ == iter.seq().take(iter.index() as int),
    {
        out.push(c);
    }
    out
}

/// Equality of the characters of two strings.
pub fn str_eq(a: &str, b: &str) -> (r: bool)
    ensures
        r == (a@ == b@),
{
    let x = a.to_owned();
    let y = b.to_owned();
    x == y
}

/// Whether any character is a control character (`chars().any(char::is_control)`).
pub fn str_has_control(s: &str) -> (r: bool)
    ensures
        r == has_control(s@),
{
    let chars = chars_of(s);
    let mut i: usize = 0;
    while i < chars.len()
        invariant
            i <= chars@.len(),
            chars@ == s@,
            forall|j: int| 0 <= j < i ==> !is_control(#[trigger] chars@[j]),
        decreases chars.len() - i,
    {
        if char_is_control(chars[i]) {
            return true;
        }
        i += 1;
    }
    false
}

/// Whether any character is a control or bidirectional formatting character.
pub fn str_has_forbidden(s: &str) -> (r: bool)
    ensures
        r == has_forbidden(s@),
{
    let chars = chars_of(s);
    let mut i: usize = 0;
    while i < chars.len()
        invariant
            i <= chars@.len(),
            chars@ == s@,
            forall|j: int| 0 <= j < i ==> !is_forbidden(#[trigger] chars@[j]),
        decreases chars.len() - i,
    {
        if char_is_forbidden(chars[i]) {
            return true;
        }
        i += 1;
    }
    false
}

/// A string of these characters (`Iterator::collect`).
#[verifier::external_body]
pub(crate) fn string_from_chars(chars: &[char]) -> (r: String)
    ensures
        r@ == chars@,
{
    chars.iter().collect()
}

/// What `str::to_lowercase` returns: the Unicode lowercase mapping.
pub uninterp spec fn lowercase(s: Seq<char>) -> Seq<char>;

/// What `str::to_uppercase` returns: the Unicode uppercase mapping.
pub uninterp spec fn uppercase(s: Seq<char>) -> Seq<char>;

/// `str::to_lowercase`: the result is the Unicode lowercase mapping of the
/// argument, a function of its characters alone.
#[verifier::external_body]
pub(crate) fn to_lowercase(s: &str) -> (r: String)
    ensures
        r@ == lowercase(s@),
{
    s.to_lowercase()
}

/// `str::to_uppercase`: the result is the Unicode uppercase mapping of the
/// argument, a function of its characters alone.
#[verifier::external_body]
pub(crate) fn to_uppercase(s: &str) -> (r: String)
    ensures
        r@ == uppercase(s@),
{
    s.to_uppercase()
}

/// Drops control characters and keeps at most `limit` of the remaining
/// characters (`chars().filter(!is_control).take(limit).collect()`).
pub fn clean(value: &str, limit: usize) -> (r: String)
    ensures
        r@ == prefix(without_controls(value@), limit as int),
{
    let chars = chars_of(value);
    let mut kept: Vec<char> = Vec::new();
    let mut i: usize = 0;
    while i < chars.len() && kept.len() < limit
        invariant
            i <= chars@.len(),
            chars@ == value@,
            kept@ == without_controls(chars@.take(i as int)),
            kept@.len() <= limit,
        decreases chars.len() - i,
    {
        proof {
            assert(chars@.take(i as int + 1).drop_last() =~= chars@.take(i as int));
            reveal(Seq::filter);
        }
        if !char_is_control(chars[i]) {
            kept.push(chars[i]);
        }
        i += 1;
    }
    proof {
        lemma_prefix_of_filter(chars@, i as int, limit as int);
    }
    string_from_chars(kept.as_slice())
}

/// Filtering a longer prefix only appends, so a filtered prefix that reached
/// `limit` characters, or the whole filtered text, is the wanted prefix.
proof fn lemma_prefix_of_filter(s: Seq<char>, i: int, limit: int)
    requires
        0 <= i <= s.len(),
        0 <= limit,
        without_controls(s.take(i)).len() <= limit,
        i == s.len() || without_controls(s.take(i)).len() == limit,
    ensures
        without_controls(s.take(i)) == prefix(without_controls(s), limit),
{
    if i == s.len() {
        assert(s.take(i) =~= s);
    } else {
        lemma_filter_prefix(s, i);
        assert(prefix(without_controls(s), limit) =~= without_controls(s.take(i)));
    }
}

/// The filter of a prefix is a prefix of the filter.
pub proof fn lemma_filter_prefix(s: Seq<char>, i: int)
    requires
        0 <= i <= s.len(),
    ensures
        without_controls(s.take(i)).len() <= without_controls(s).len(),
        without_controls(s.take(i)) =~= without_controls(s).take(
            without_controls(s.take(i)).len() as int,
        ),
    decreases s.len() - i,
{
    if i < s.len() {
        lemma_filter_prefix(s, i + 1);
        reveal(Seq::filter);
        assert(s.take(i + 1).drop_last() =~= s.take(i));
    } else {
        assert(s.take(i) =~= s);
    }
}

/// The characters kept by [`clean`] are never control characters.
pub proof fn lemma_clean_has_no_controls(s: Seq<char>, limit: int)
    requires
        0 <= limit,
    ensures
        !has_control(prefix(without_controls(s), limit)),
        prefix(without_controls(s), limit).len() <= limit,
{
    let f = without_controls(s);
    assert forall|i: int| 0 <= i < f.len() implies !is_control(#[trigger] f[i]) by {
        s.lemma_filter_pred(|c: char| !is_control(c), i);
    }
}


/// `parts.join(sep)`.
pub open spec fn joined(parts: Seq<Seq<char>>, sep: Seq<char>) -> Seq<char>
    decreases parts.len(),
{
    if parts.len() == 0 {
        Seq::empty()
    } else if parts.len() == 1 {
        parts[0]
    } else {
        joined(parts.drop_last(), sep) + sep + parts.last()
    }
}

/// Appends characters to a buffer.
fn push_chars(out: &mut Vec<char>, chars: &Vec<char>)
    ensures
        final(out)@ == old(out)@ + chars@,
{
    let mut i: usize = 0;
    while i < chars.len()
        invariant
            i <= chars@.len(),
            out@ == old(out)@ + chars@.take(i as int),
        decreases chars.len() - i,
    {
        out.push(chars[i]);
        i += 1;
        assert(out@ =~= old(out)@ + chars@.take(i as int));
    }
    assert(chars@.take(i as int) =~= chars@);
}

/// Joins texts with a separator (`parts.join(sep)`).
pub fn join_texts(parts: &Vec<String>, sep: &str) -> (r: String)
    ensures
        r@ == joined(Seq::new(parts@.len(), |i: int| parts@[i]@), sep@),
{
    let ghost ps = Seq::new(parts@.len(), |i: int| parts@[i]@);
    let sep_chars = chars_of(sep);
    let mut out: Vec<char> = Vec::new();
    let mut i: usize = 0;
    assert(ps.take(0) =~= Seq::<Seq<char>>::empty());
    while i < parts.len()
        invariant
            i <= parts@.len(),
            ps == Seq::new(parts@.len(), |i: int| parts@[i]@),
            sep_chars@ == sep@,
            out@ == joined(ps.take(i as int), sep@),
        decreases parts.len() - i,
    {
        let part = chars_of(parts[i].as_str());
        assert(ps.take(i as int + 1).drop_last() =~= ps.take(i as int));
        assert(ps.take(i as int + 1).last() == part@);
        if i > 0 {
            push_chars(&mut out, &sep_chars);
        } else {
            assert(ps.take(1) =~= seq![part@]);
        }
        push_chars(&mut out, &part);
        i += 1;
        proof {
            if i == 1 {
                assert(out@ =~= part@);
            }
        }
    }
    assert(ps.take(i as int) =~= ps);
    string_from_chars(out.as_slice())
}

} // verus!
