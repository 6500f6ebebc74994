//! A JSON document held as plain values, with the accessors the projections read.
use vstd::prelude::*;

use crate::codec::{json_text_bytes, json_text_size};
use crate::text::{byte_len, str_eq, utf8_len};

verus! {

/// A JSON value. Integers keep the split of the wire format: a non-negative
/// integer is `UInt`, a negative one `NegInt`; any other number is `Float`,
/// kept as the JSON text that writes it; no projection reads its magnitude.
#[derive(Debug)]
pub enum Json {
    Null,
    Bool(bool),
    UInt(u64),
    NegInt(i64),
    Float(String),
    Str(String),
    Array(Vec<Json>),
    Object(Vec<(String, Json)>),
}

/// The mathematical value of a [`Json`].
pub enum JsonTree {
    Null,
    Bool(bool),
    UInt(u64),
    NegInt(i64),
    Float(Seq<char>),
    Str(Seq<char>),
    Array(Seq<JsonTree>),
    Object(Seq<(Seq<char>, JsonTree)>),
}

/// The value stored under the first occurrence of `key`.
pub open spec fn lookup(fields: Seq<(Seq<char>, JsonTree)>, key: Seq<char>) -> Option<JsonTree>
    decreases fields.len(),
{
    if fields.len() == 0 {
        None
    } else if fields[0].0 == key {
        Some(fields[0].1)
    } else {
        lookup(fields.drop_first(), key)
    }
}

/// Every key of the object is looked up at its first occurrence.
pub proof fn lemma_lookup_first(fields: Seq<(Seq<char>, JsonTree)>, key: Seq<char>, i: int)
    requires
        0 <= i < fields.len(),
        fields[i].0 == key,
        forall|j: int| 0 <= j < i ==> fields[j].0 != key,
    ensures
        lookup(fields, key) == Some(fields[i].1),
    decreases i,
{
    if i > 0 {
        lemma_lookup_first(fields.drop_first(), key, i - 1);
    }
}

pub proof fn lemma_lookup_absent(fields: Seq<(Seq<char>, JsonTree)>, key: Seq<char>)
    requires
        forall|j: int| 0 <= j < fields.len() ==> fields[j].0 != key,
    ensures
        lookup(fields, key) is None,
    decreases fields.len(),
{
    if fields.len() > 0 {
        lemma_lookup_absent(fields.drop_first(), key);
    }
}

impl JsonTree {
    /// The member `key` of an object; `None` for a missing key or a non-object.
    pub open spec fn member(self, key: Seq<char>) -> Option<JsonTree> {
        match self {
            JsonTree::Object(fields) => lookup(fields, key),
            _ => None,
        }
    }

    /// `value[key]`: the member, or `Null` where there is none.
    pub open spec fn at(self, key: Seq<char>) -> JsonTree {
        match self.member(key) {
            Some(v) => v,
            None => JsonTree::Null,
        }
    }

    pub open spec fn as_str(self) -> Option<Seq<char>> {
        match self {
            JsonTree::Str(s) => Some(s),
            _ => None,
        }
    }

    pub open spec fn as_array(self) -> Option<Seq<JsonTree>> {
        match self {
            JsonTree::Array(items) => Some(items),
            _ => None,
        }
    }

    pub open spec fn as_object(self) -> Option<Seq<(Seq<char>, JsonTree)>> {
        match self {
            JsonTree::Object(fields) => Some(fields),
            _ => None,
        }
    }

    pub open spec fn as_bool(self) -> Option<bool> {
        match self {
            JsonTree::Bool(b) => Some(b),
            _ => None,
        }
    }

    /// An integer that fits `i64`.
    pub open spec fn as_i64(self) -> Option<i64> {
        match self {
            JsonTree::UInt(n) => if n <= i64::MAX {
                Some(n as i64)
            } else {
                None
            },
            JsonTree::NegInt(n) => Some(n),
            _ => None,
        }
    }

    /// A non-negative integer.
    pub open spec fn as_u64(self) -> Option<u64> {
        match self {
            JsonTree::UInt(n) => Some(n),
            _ => None,
        }
    }

    /// `value == true`.
    pub open spec fn is_true(self) -> bool {
        self == JsonTree::Bool(true)
    }

    /// `value == text`: a string with exactly these characters.
    pub open spec fn is_text(self, text: Seq<char>) -> bool {
        self == JsonTree::Str(text)
    }

    /// A string, or the fallback where the value is not one.
    pub open spec fn str_or(self, fallback: Seq<char>) -> Seq<char> {
        match self {
            JsonTree::Str(s) => s,
            _ => fallback,
        }
    }
}

/// The values of a sequence of JSON documents.
pub open spec fn trees(values: Seq<Json>) -> Seq<JsonTree> {
    Seq::new(values.len(), |i: int| values[i].tree())
}

pub proof fn lemma_trees_push(values: Seq<Json>, value: Json)
    ensures
        trees(values.push(value)) == trees(values).push(value.tree()),
{
    assert(trees(values.push(value)) =~= trees(values).push(value.tree()));
}

/// The JSON number of an integer (`json!(n)`).
pub open spec fn int_tree(n: i64) -> JsonTree {
    if n < 0 {
        JsonTree::NegInt(n)
    } else {
        JsonTree::UInt(n as u64)
    }
}

pub fn integer(n: i64) -> (r: Json)
    ensures
        r.tree() == int_tree(n),
{
    if n < 0 {
        Json::NegInt(n)
    } else {
        Json::UInt(n as u64)
    }
}

/// A JSON string.
pub fn text(value: &str) -> (r: Json)
    ensures
        r.tree() == JsonTree::Str(value@),
{
    Json::Str(value.to_owned())
}

/// A JSON array of these values.
pub fn array(values: Vec<Json>) -> (r: Json)
    ensures
        r.tree() == JsonTree::Array(trees(values@)),
{
    let r = Json::Array(values);
    assert(r.tree()->Array_0 =~= trees(values@));
    r
}

/// A JSON object with these members, in this order.
pub fn object(fields: Vec<(String, Json)>) -> (r: Json)
    ensures
        r.tree() == JsonTree::Object(
            Seq::new(fields@.len(), |i: int| (fields@[i].0@, fields@[i].1.tree())),
        ),
{
    let r = Json::Object(fields);
    assert(r.tree()->Object_0 =~= Seq::new(fields@.len(), |i: int| (fields@[i].0@, fields@[i].1.tree())));
    r
}

/// A JSON array of strings.
pub fn text_list(values: &[&str]) -> (r: Json)
    ensures
        r.tree() == JsonTree::Array(Seq::new(values@.len(), |i: int| JsonTree::Str(values@[i]@))),
{
    let mut items: Vec<Json> = Vec::new();
    let mut a: usize = 0;
    while a < values.len()
        invariant
            a <= values@.len(),
            trees(items@) == Seq::new(a as nat, |i: int| JsonTree::Str(values@[i]@)),
        decreases values.len() - a,
    {
        let ghost before = items@;
        let value = text(values[a]);
        proof {
            lemma_trees_push(before, value);
        }
        items.push(value);
        a += 1;
        assert(trees(items@) =~= Seq::new(a as nat, |i: int| JsonTree::Str(values@[i]@)));
    }
    let r = array(items);
    assert(r.tree()->Array_0 =~= Seq::new(values@.len(), |i: int| JsonTree::Str(values@[i]@)));
    r
}

/// The member `key` of a list of object members: the first with that key.
pub fn field<'a>(fields: &'a Vec<(String, Json)>, key: &str) -> (r: Option<&'a Json>)
    ensures
        match r {
            Some(v) => lookup(field_trees(fields@), key@) == Some(v.tree()),
            None => lookup(field_trees(fields@), key@) is None,
        },
{
    let ghost t = field_trees(fields@);
    let mut i: usize = 0;
    while i < fields.len()
        invariant
            i <= fields.len(),
            t == field_trees(fields@),
            forall|j: int| 0 <= j < i ==> #[trigger] t[j].0 != key@,
        decreases fields.len() - i,
    {
        assert(t[i as int] == (fields@[i as int].0@, fields@[i as int].1.tree()));
        if str_eq(fields[i].0.as_str(), key) {
            proof {
                lemma_lookup_first(t, key@, i as int);
            }
            return Some(&fields[i].1);
        }
        i += 1;
    }
    proof {
        lemma_lookup_absent(t, key@);
    }
    None
}

/// The value an optional reference stands for: a missing value reads as `null`.
pub open spec fn opt_tree(value: Option<&Json>) -> JsonTree {
    match value {
        Some(v) => v.tree(),
        None => JsonTree::Null,
    }
}

/// `value[key]`, where a missing value or member reads as `null`.
pub fn at<'a>(value: Option<&'a Json>, key: &str) -> (r: Option<&'a Json>)
    ensures
        opt_tree(r) == opt_tree(value).at(key@),
{
    match value {
        Some(v) => v.member(key),
        None => None,
    }
}

/// The members of an object, as values.
pub open spec fn field_trees(fields: Seq<(String, Json)>) -> Seq<(Seq<char>, JsonTree)> {
    Seq::new(fields.len(), |i: int| (fields[i].0@, fields[i].1.tree()))
}

/// The keys of an object's members, in order. An object read from JSON text
/// (a `serde_json` map) names each key once.
pub open spec fn keys_of(fields: Seq<(Seq<char>, JsonTree)>) -> Seq<Seq<char>> {
    Seq::new(fields.len(), |i: int| fields[i].0)
}

/// `value.as_object()` where a missing value reads as `null`.
pub fn object_of<'a>(value: Option<&'a Json>) -> (r: Option<&'a Vec<(String, Json)>>)
    ensures
        match r {
            Some(fields) => opt_tree(value).as_object() == Some(field_trees(fields@)),
            None => opt_tree(value).as_object() is None,
        },
{
    match value {
        Some(v) => match v.as_object() {
            Some(fields) => {
                assert(field_trees(fields@) =~= Seq::new(fields@.len(), |i: int| (fields@[i].0@, fields@[i].1.tree())));
                Some(fields)
            },
            None => None,
        },
        None => None,
    }
}

/// `value.as_array()` where a missing value reads as `null`.
pub fn array_of<'a>(value: Option<&'a Json>) -> (r: Option<&'a Vec<Json>>)
    ensures
        match r {
            Some(items) => opt_tree(value).as_array() == Some(trees(items@)),
            None => opt_tree(value).as_array() is None,
        },
{
    match value {
        Some(v) => match v.as_array() {
            Some(items) => {
                assert(trees(items@) =~= Seq::new(items@.len(), |i: int| items@[i].tree()));
                Some(items)
            },
            None => None,
        },
        None => None,
    }
}

/// `value.as_str()` where a missing value reads as `null`.
pub fn str_of<'a>(value: Option<&'a Json>) -> (r: Option<&'a str>)
    ensures
        match r {
            Some(s) => opt_tree(value).as_str() == Some(s@),
            None => opt_tree(value).as_str() is None,
        },
{
    match value {
        Some(v) => v.as_str(),
        None => None,
    }
}

/// `value == true` where a missing value reads as `null`.
pub fn is_true(value: Option<&Json>) -> (r: bool)
    ensures
        r == opt_tree(value).is_true(),
{
    match value {
        Some(v) => v.is_true(),
        None => false,
    }
}

/// `value.is_object()` where a missing value reads as `null`.
pub fn is_object(value: Option<&Json>) -> (r: bool)
    ensures
        r == (opt_tree(value).as_object() is Some),
{
    match value {
        Some(v) => v.is_object(),
        None => false,
    }
}

/// `value.is_null()` where a missing value reads as `null`.
pub fn is_null(value: Option<&Json>) -> (r: bool)
    ensures
        r == (opt_tree(value) == JsonTree::Null),
{
    match value {
        Some(v) => v.is_null(),
        None => true,
    }
}

impl Json {
    pub open spec fn tree(self) -> JsonTree
        decreases self,
    {
        match self {
            Json::Null => JsonTree::Null,
            Json::Bool(b) => JsonTree::Bool(b),
            Json::UInt(n) => JsonTree::UInt(n),
            Json::NegInt(n) => JsonTree::NegInt(n),
            Json::Float(text) => JsonTree::Float(text@),
            Json::Str(s) => JsonTree::Str(s@),
            Json::Array(items) => JsonTree::Array(
                Seq::new(
                    items@.len(),
                    |i: int|
                        if 0 <= i < items@.len() {
                            items@[i].tree()
                        } else {
                            JsonTree::Null
                        },
                ),
            ),
            Json::Object(fields) => JsonTree::Object(
                Seq::new(
                    fields@.len(),
                    |i: int|
                        if 0 <= i < fields@.len() {
                            (fields@[i].0@, fields@[i].1.tree())
                        } else {
                            (Seq::empty(), JsonTree::Null)
                        },
                ),
            ),
        }
    }

    /// The member `key` of an object (`Value::get`).
    pub fn member(&self, key: &str) -> (r: Option<&Json>)
        ensures
            match r {
                Some(v) => self.tree().member(key@) == Some(v.tree()),
                None => self.tree().member(key@) is None,
            },
    {
        match self {
            Json::Object(fields) => {
                let ghost t = self.tree()->Object_0;
                assert(self.tree() is Object);
                assert(self.tree() == JsonTree::Object(t));
                let mut i: usize = 0;
                while i < fields.len()
                    invariant
                        i <= fields.len(),
                        t.len() == fields@.len(),
                        self.tree() == JsonTree::Object(t),
                        forall|j: int|
                            0 <= j < fields@.len() ==> #[trigger] t[j] == (
                                fields@[j].0@,
                                fields@[j].1.tree(),
                            ),
                        forall|j: int| 0 <= j < i ==> #[trigger] t[j].0 != key@,
                    decreases fields.len() - i,
                {
                    if str_eq(fields[i].0.as_str(), key) {
                        proof {
                            assert(t[i as int] == (fields@[i as int].0@, fields@[i as int].1.tree()));
                            lemma_lookup_first(t, key@, i as int);
                        }
                        return Some(&fields[i].1);
                    }
                    i += 1;
                }
                proof {
                    lemma_lookup_absent(t, key@);
                }
                None
            },
            _ => None,
        }
    }

    pub fn as_str(&self) -> (r: Option<&str>)
        ensures
            match r {
                Some(s) => self.tree().as_str() == Some(s@),
                None => self.tree().as_str() is None,
            },
    {
        match self {
            Json::Str(s) => Some(s.as_str()),
            _ => None,
        }
    }

    pub fn as_array(&self) -> (r: Option<&Vec<Json>>)
        ensures
            match r {
                Some(items) => self.tree().as_array() == Some(
                    Seq::new(items@.len(), |i: int| items@[i].tree()),
                ),
                None => self.tree().as_array() is None,
            },
    {
        match self {
            Json::Array(items) => {
                assert(self.tree()->Array_0 =~= Seq::new(items@.len(), |i: int| items@[i].tree()));
                Some(items)
            },
            _ => None,
        }
    }

    pub fn as_object(&self) -> (r: Option<&Vec<(String, Json)>>)
        ensures
            match r {
                Some(fields) => self.tree().as_object() == Some(
                    Seq::new(fields@.len(), |i: int| (fields@[i].0@, fields@[i].1.tree())),
                ),
                None => self.tree().as_object() is None,
            },
    {
        match self {
            Json::Object(fields) => {
                assert(self.tree()->Object_0 =~= Seq::new(
                    fields@.len(),
                    |i: int| (fields@[i].0@, fields@[i].1.tree()),
                ));
                Some(fields)
            },
            _ => None,
        }
    }

    pub fn as_bool(&self) -> (r: Option<bool>)
        ensures
            r == self.tree().as_bool(),
    {
        match self {
            Json::Bool(b) => Some(*b),
            _ => None,
        }
    }

    pub fn as_i64(&self) -> (r: Option<i64>)
        ensures
            r == self.tree().as_i64(),
    {
        match self {
            Json::UInt(n) => if *n <= 9_223_372_036_854_775_807u64 {
                Some(*n as i64)
            } else {
                None
            },
            Json::NegInt(n) => Some(*n),
            _ => None,
        }
    }

    pub fn as_u64(&self) -> (r: Option<u64>)
        ensures
            r == self.tree().as_u64(),
    {
        match self {
            Json::UInt(n) => Some(*n),
            _ => None,
        }
    }

    pub fn is_true(&self) -> (r: bool)
        ensures
            r == self.tree().is_true(),
    {
        match self {
            Json::Bool(b) => *b,
            _ => false,
        }
    }

    pub fn is_null(&self) -> (r: bool)
        ensures
            r == (self.tree() == JsonTree::Null),
    {
        match self {
            Json::Null => true,
            _ => false,
        }
    }

    pub fn is_object(&self) -> (r: bool)
        ensures
            r == (self.tree().as_object() is Some),
    {
        match self {
            Json::Object(_) => true,
            _ => false,
        }
    }

    /// `value[key] == true`.
    pub fn member_is_true(&self, key: &str) -> (r: bool)
        ensures
            r == self.tree().at(key@).is_true(),
    {
        match self.member(key) {
            Some(v) => v.is_true(),
            None => false,
        }
    }

    /// `value[key].as_str()`.
    pub fn member_str(&self, key: &str) -> (r: Option<&str>)
        ensures
            match r {
                Some(s) => self.tree().at(key@).as_str() == Some(s@),
                None => self.tree().at(key@).as_str() is None,
            },
    {
        match self.member(key) {
            Some(v) => v.as_str(),
            None => None,
        }
    }
}


// ---------------------------------------------------------------------------
// Compact JSON size
// ---------------------------------------------------------------------------

/// The number of decimal digits of a natural number.
pub open spec fn decimal_len(n: nat) -> nat
    decreases n,
{
    if n < 10 {
        1
    } else {
        1 + decimal_len(n / 10)
    }
}

/// The length of the compact JSON text of a value, as `serde_json::to_vec`
/// writes it: no whitespace, members as `"key":value`, separated by commas.
pub open spec fn json_size(value: JsonTree) -> nat
    decreases value, 0nat,
{
    match value {
        JsonTree::Null => 4,
        JsonTree::Bool(b) => if b {
            4
        } else {
            5
        },
        JsonTree::UInt(n) => decimal_len(n as nat),
        JsonTree::NegInt(n) => if n < 0 {
            1 + decimal_len((-(n as int)) as nat)
        } else {
            decimal_len(n as nat)
        },
        JsonTree::Float(text) => byte_len(text),
        JsonTree::Str(s) => json_text_size(s),
        JsonTree::Array(items) => 2 + items_size(items),
        JsonTree::Object(fields) => 2 + fields_size(fields),
    }
}

/// The text of some array items, with the commas between them.
pub open spec fn items_size(items: Seq<JsonTree>) -> nat
    decreases items, 1nat,
{
    if items.len() == 0 {
        0
    } else {
        items_size(items.drop_last()) + json_size(items.last()) + if items.len() > 1 {
            1nat
        } else {
            0nat
        }
    }
}

/// The text of some object members, with the colons and commas.
pub open spec fn fields_size(fields: Seq<(Seq<char>, JsonTree)>) -> nat
    decreases fields, 1nat,
{
    if fields.len() == 0 {
        0
    } else {
        fields_size(fields.drop_last()) + json_text_size(fields.last().0) + 1 + json_size(fields.last().1) + if fields.len()
            > 1 {
            1nat
        } else {
            0nat
        }
    }
}

proof fn lemma_items_size_prefix(items: Seq<JsonTree>, j: int)
    requires
        0 <= j <= items.len(),
    ensures
        items_size(items.take(j)) <= items_size(items),
    decreases items.len() - j,
{
    if j < items.len() {
        lemma_items_size_prefix(items, j + 1);
        assert(items.take(j + 1).drop_last() =~= items.take(j));
    } else {
        assert(items.take(j) =~= items);
    }
}

proof fn lemma_fields_size_prefix(fields: Seq<(Seq<char>, JsonTree)>, j: int)
    requires
        0 <= j <= fields.len(),
    ensures
        fields_size(fields.take(j)) <= fields_size(fields),
    decreases fields.len() - j,
{
    if j < fields.len() {
        lemma_fields_size_prefix(fields, j + 1);
        assert(fields.take(j + 1).drop_last() =~= fields.take(j));
    } else {
        assert(fields.take(j) =~= fields);
    }
}

/// The number of decimal digits of an integer.
fn digits(n: u64) -> (r: usize)
    ensures
        r == decimal_len(n as nat),
        r <= 20,
{
    let mut count: usize = 1;
    let mut x: u64 = n;
    while x >= 10
        invariant
            count + decimal_len(x as nat) == 1 + decimal_len(n as nat),
            count <= 20,
            1 <= count,
        decreases x,
    {
        assert(decimal_len(x as nat) == 1 + decimal_len((x / 10) as nat));
        proof {
            lemma_digits_bound(n as nat, x as nat, count as nat);
        }
        x = x / 10;
        count = count + 1;
    }
    count
}

/// Ten to the power `k`.
pub open spec fn pow10(k: nat) -> nat
    decreases k,
{
    if k == 0 {
        1
    } else {
        10 * pow10((k - 1) as nat)
    }
}

proof fn lemma_decimal_len_below(n: nat, k: nat)
    requires
        k >= 1,
        n < pow10(k),
    ensures
        decimal_len(n) <= k,
    decreases k,
{
    if n >= 10 {
        let p = pow10((k - 1) as nat);
        if k == 1 {
            assert(pow10(1) == 10) by {
                reveal_with_fuel(pow10, 2);
            }
        } else {
            assert(n / 10 < p) by (nonlinear_arith)
                requires
                    n < 10 * p,
            ;
            lemma_decimal_len_below(n / 10, (k - 1) as nat);
        }
    }
}

proof fn lemma_digits_bound(n: nat, x: nat, count: nat)
    requires
        n <= 18_446_744_073_709_551_615,
        count + decimal_len(x) == 1 + decimal_len(n),
        x >= 10,
    ensures
        count + 1 <= 20,
{
    assert(pow10(20) == 100_000_000_000_000_000_000) by {
        reveal_with_fuel(pow10, 21);
    }
    lemma_decimal_len_below(n, 20);
    assert(decimal_len(x) == 1 + decimal_len(x / 10));
}

/// The length of the compact JSON text of a value (`serde_json::to_vec(v).len()`);
/// `None` where it does not fit `usize`.
pub fn json_size_of(value: &Json) -> (r: Option<usize>)
    ensures
        r matches Some(n) ==> n == json_size(value.tree()),
        r is None ==> json_size(value.tree()) > usize::MAX,
    decreases value,
{
    match value {
        Json::Null => {
            assert(value.tree() == JsonTree::Null);
            Some(4)
        },
        Json::Bool(b) => {
            assert(value.tree() == JsonTree::Bool(*b));
            Some(if *b { 4 } else { 5 })
        },
        Json::UInt(n) => {
            assert(value.tree() == JsonTree::UInt(*n));
            Some(digits(*n))
        },
        Json::NegInt(n) => {
            if *n >= 0 {
                assert(value.tree() == JsonTree::NegInt(*n));
                return Some(digits(*n as u64));
            }
            let magnitude: u64 = if *n == i64::MIN {
                assert(-(*n as int) == 9_223_372_036_854_775_808);
                9_223_372_036_854_775_808u64
            } else {
                let positive: i64 = -*n;
                assert(positive > 0);
                let m = positive as u64;
                assert(m as int == positive as int);
                m
            };
            assert(magnitude as int == -(*n as int));
            let d = digits(magnitude);
            assert(value.tree() == JsonTree::NegInt(*n));
            Some(d + 1)
        },
        Json::Float(text) => utf8_len(text.as_str()),
        Json::Str(s) => json_text_bytes(s.as_str()),
        Json::Array(items) => {
            let ghost t = trees(items@);
            assert(value.tree() == JsonTree::Array(t)) by {
                assert(value.tree()->Array_0 =~= t);
            }
            let mut acc: usize = 0;
            let mut i: usize = 0;
            assert(t.take(0) =~= Seq::<JsonTree>::empty());
            #[verifier::loop_isolation(false)]
            while i < items.len()
                invariant
                    i <= items@.len(),
                    t == trees(items@),
                    value.tree() == JsonTree::Array(t),
                    acc == items_size(t.take(i as int)),
                decreases items.len() - i,
            {
                assert(t.take(i as int + 1).drop_last() =~= t.take(i as int));
                assert(t.take(i as int + 1).last() == items@[i as int].tree());
                proof {
                    lemma_items_size_prefix(t, i as int + 1);
                }
                proof {
                    assert(*value == Json::Array(*items));
                    assert(decreases_to!(*value => *items));
                    assert(decreases_to!(*items => items@));
                    assert(decreases_to!(items@ => items@[i as int]));
                }
                let child = match json_size_of(&items[i]) {
                    Some(n) => n,
                    None => return None,
                };
                let comma: usize = if i > 0 { 1 } else { 0 };
                let step = match child.checked_add(comma) {
                    Some(s) => s,
                    None => return None,
                };
                acc = match acc.checked_add(step) {
                    Some(s) => s,
                    None => return None,
                };
                i += 1;
            }
            assert(t.take(i as int) =~= t);
            acc.checked_add(2)
        },
        Json::Object(fields) => {
            let ghost t = field_trees(fields@);
            assert(value.tree() == JsonTree::Object(t)) by {
                assert(value.tree()->Object_0 =~= t);
            }
            let mut acc: usize = 0;
            let mut i: usize = 0;
            assert(t.take(0) =~= Seq::<(Seq<char>, JsonTree)>::empty());
            #[verifier::loop_isolation(false)]
            while i < fields.len()
                invariant
                    i <= fields@.len(),
                    t == field_trees(fields@),
                    value.tree() == JsonTree::Object(t),
                    acc == fields_size(t.take(i as int)),
                decreases fields.len() - i,
            {
                assert(t.take(i as int + 1).drop_last() =~= t.take(i as int));
                assert(t.take(i as int + 1).last() == (fields@[i as int].0@, fields@[i as int].1.tree()));
                proof {
                    lemma_fields_size_prefix(t, i as int + 1);
                }
                let key = match json_text_bytes(fields[i].0.as_str()) {
                    Some(n) => n,
                    None => return None,
                };
                proof {
                    assert(*value == Json::Object(*fields));
                    assert(decreases_to!(*value => *fields));
                    assert(decreases_to!(*fields => fields@));
                    assert(decreases_to!(fields@ => fields@[i as int]));
                    assert(decreases_to!(fields@[i as int] => fields@[i as int].1));
                }
                let child = match json_size_of(&fields[i].1) {
                    Some(n) => n,
                    None => return None,
                };
                let comma: usize = if i > 0 { 1 } else { 0 };
                let step = match key.checked_add(1) {
                    Some(s) => match s.checked_add(child) {
                        Some(s) => match s.checked_add(comma) {
                            Some(s) => s,
                            None => return None,
                        },
                        None => return None,
                    },
                    None => return None,
                };
                acc = match acc.checked_add(step) {
                    Some(s) => s,
                    None => return None,
                };
                i += 1;
            }
            assert(t.take(i as int) =~= t);
            acc.checked_add(2)
        },
    }
}

} // verus!
