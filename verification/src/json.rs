//! JSON documents as plain data.
//!
//! An object keeps its members in a vector ordered by key, each key once, so
//! that two documents are equal exactly when they hold the same data, and
//! members are always walked in the order of their keys.

use crate::text::{
    chars_of, count_digits, digit_run, digits_to_u64, digits_value, exponent_of, is_digit,
    lemma_digit_run, lemma_pow10_grows, lemma_pow10_nineteen, pow10, read_exponent, shift_digits,
    shifted, compare_text, lemma_text_lt_asymmetric, lemma_text_lt_irreflexive, lemma_text_lt_total,
    lemma_text_lt_transitive, owned, same_text, text_lt, Order,
};
use vstd::prelude::*;

verus! {

/// A JSON number. Whole numbers are kept in full; any other number is kept
/// as it is written.
#[derive(Debug, PartialEq, Eq)]
pub enum Number {
    /// A whole number that is not negative.
    PosInt(u64),
    /// A whole number below zero.
    NegInt(i64),
    /// A number written with a fraction or an exponent, as it is written.
    Float(String),
}

/// A number as contracts speak of it.
pub ghost enum NumberView {
    PosInt(u64),
    NegInt(i64),
    Float(Seq<char>),
}

/// The view of a number.
pub open spec fn number_view(n: Number) -> NumberView {
    match n {
        Number::PosInt(v) => NumberView::PosInt(v),
        Number::NegInt(v) => NumberView::NegInt(v),
        Number::Float(text) => NumberView::Float(text@),
    }
}

impl View for Number {
    type V = NumberView;

    open spec fn view(&self) -> NumberView {
        number_view(*self)
    }
}

impl Number {
    /// The number that stands for a signed whole number.
    pub fn from_i64(n: i64) -> (r: Number)
        ensures
            r@ == (if n < 0 {
                NumberView::NegInt(n)
            } else {
                NumberView::PosInt(n as u64)
            }),
            wf_number(r@),
    {
        if n < 0 {
            Number::NegInt(n)
        } else {
            Number::PosInt(n as u64)
        }
    }

    /// Whether the number is a whole number.
    pub fn is_integer(&self) -> (r: bool)
        ensures
            r == !(self@ is Float),
    {
        match self {
            Number::Float(_) => false,
            _ => true,
        }
    }

    /// The number as a signed whole number, where it is one and fits.
    pub fn as_i64(&self) -> (r: Option<i64>)
        ensures
            r == number_as_i64(self@),
    {
        match self {
            Number::PosInt(n) => {
                if *n <= 0x7fff_ffff_ffff_ffffu64 {
                    Some(*n as i64)
                } else {
                    None
                }
            },
            Number::NegInt(n) => Some(*n),
            Number::Float(_) => None,
        }
    }

    /// A copy of the number.
    pub fn duplicate(&self) -> (r: Number)
        ensures
            r@ == self@,
    {
        match self {
            Number::PosInt(n) => Number::PosInt(*n),
            Number::NegInt(n) => Number::NegInt(*n),
            Number::Float(text) => Number::Float(text.clone()),
        }
    }
}

/// The number as a signed whole number, where it is one and fits.
pub open spec fn number_as_i64(n: NumberView) -> Option<i64> {
    match n {
        NumberView::PosInt(v) => if v <= i64::MAX as u64 {
            Some(v as i64)
        } else {
            None
        },
        NumberView::NegInt(v) => Some(v),
        NumberView::Float(_) => None,
    }
}

/// A number that has a sign, if it fits into 64 bits.
pub open spec fn within_i64(negative: bool, v: int) -> Option<i64> {
    let signed = if negative {
        -v
    } else {
        v
    };
    if i64::MIN <= signed <= i64::MAX {
        Some(signed as i64)
    } else {
        None
    }
}

/// The digits that a number is written with before its exponent, those
/// after the point following those before it. `start` is where the digits
/// begin.
pub open spec fn digits_of_number(text: Seq<char>, start: int) -> Seq<char> {
    let point = start + digit_run(text, start);
    if point < text.len() && text[point] == '.' {
        text.subrange(start, point) + text.subrange(
            point + 1,
            point + 1 + digit_run(text, point + 1),
        )
    } else {
        text.subrange(start, point)
    }
}

/// The value of a number in thousandths, cut toward zero, for a number
/// written as JSON writes one: a `-` if it is below zero, digits, a point
/// and more digits if it has a fraction, and `e` or `E` with an exponent if it
/// has one. There is none for a text written otherwise, or for a value too
/// large for 64 bits.
pub open spec fn thousandths(text: Seq<char>) -> Option<i64> {
    let negative = text.len() > 0 && text[0] == '-';
    let start: int = if negative {
        1
    } else {
        0
    };
    let whole = digit_run(text, start);
    let point = start + whole;
    let pointed = point < text.len() && text[point] == '.';
    let after = if pointed {
        point + 1 + digit_run(text, point + 1)
    } else {
        point
    };
    if whole < 1 || (pointed && digit_run(text, point + 1) < 1) {
        None
    } else {
        match exponent_of(text, after) {
            Some(e) => within_i64(
                negative,
                shifted(digits_of_number(text, start), whole + 3 + e) as int,
            ),
            None => None,
        }
    }
}

/// Puts the characters from `from` up to `to` behind those of `out`.
fn copy_chars(out: &mut Vec<char>, chars: &Vec<char>, from: usize, to: usize)
    requires
        from <= to <= chars@.len(),
    ensures
        final(out)@ == old(out)@ + chars@.subrange(from as int, to as int),
{
    let mut i: usize = from;
    assert(out@ =~= old(out)@ + chars@.subrange(from as int, from as int));
    while i < to
        invariant
            from <= i <= to,
            to <= chars@.len(),
            out@ == old(out)@ + chars@.subrange(from as int, i as int),
        decreases to - i,
    {
        out.push(chars[i]);
        assert(out@ =~= old(out)@ + chars@.subrange(from as int, i + 1));
        i = i + 1;
    }
}

/// A number with its sign, if it fits into 64 bits.
fn signed_of(negative: bool, v: u64) -> (r: Option<i64>)
    ensures
        r == within_i64(negative, v as int),
{
    if negative {
        if v > 9223372036854775808 {
            None
        } else if v == 9223372036854775808 {
            Some(-9223372036854775808i64)
        } else {
            Some(-(v as i64))
        }
    } else {
        if v > 9223372036854775807 {
            None
        } else {
            Some(v as i64)
        }
    }
}

/// The value of a number in thousandths, cut toward zero.
pub fn thousandths_of(text: &str) -> (r: Option<i64>)
    ensures
        r == thousandths(text@),
{
    let chars = chars_of(text);
    let n: usize = chars.len();
    let negative = n > 0 && chars[0] == '-';
    let start: usize = if negative {
        1
    } else {
        0
    };
    let whole = count_digits(&chars, start);
    proof {
        lemma_digit_run(chars@, start as int);
    }
    if whole < 1 {
        return None;
    }
    let point: usize = start + whole;
    let pointed = point < n && chars[point] == '.';
    let fraction: usize = if pointed {
        count_digits(&chars, point + 1)
    } else {
        0
    };
    if pointed && fraction < 1 {
        return None;
    }
    let after: usize = if pointed {
        point + 1 + fraction
    } else {
        point
    };
    let mut digits: Vec<char> = Vec::new();
    copy_chars(&mut digits, &chars, start, point);
    if pointed {
        copy_chars(&mut digits, &chars, point + 1, after);
    }
    proof {
        if pointed {
            lemma_digit_run(chars@, point + 1);
        }
        assert(digits@ =~= digits_of_number(chars@, start as int));
        assert forall|i: int| 0 <= i < digits@.len() implies is_digit(#[trigger] digits@[i]) by {
            if i < whole {
                assert(digits@[i] == chars@[start + i]);
            } else {
                assert(digits@[i] == chars@[point + 1 + (i - whole)]);
            }
        }
    }
    let exponent = match read_exponent(&chars, after) {
        Some(e) => e,
        None => {
            return None;
        },
    };
    let ghost x = exponent_of(chars@, after as int)->Some_0;
    let count: Option<u64> = match exponent.size {
        Some(v) => {
            let e: i128 = if exponent.negative {
                -(v as i128)
            } else {
                v as i128
            };
            shift_digits(&digits, whole as i128 + 3 + e)
        },
        None => {
            if exponent.negative {
                Some(0)
            } else {
                proof {
                    assert(digits@.subrange(0, digits@.len() as int) =~= digits@);
                }
                match digits_to_u64(&digits, 0, digits.len()) {
                    Some(0) => {
                        proof {
                            assert(digits_value(digits@) * pow10(
                                (whole + 3 + x - digits@.len()) as nat,
                            ) == 0) by (nonlinear_arith)
                                requires
                                    digits_value(digits@) == 0,
                            ;
                        }
                        Some(0)
                    },
                    _ => {
                        proof {
                            let more = (whole + 3 + x - digits@.len()) as nat;
                            lemma_pow10_grows(19, more);
                            lemma_pow10_nineteen();
                            assert(digits_value(digits@) * pow10(more) >= pow10(more))
                                by (nonlinear_arith)
                                requires
                                    digits_value(digits@) >= 1,
                            ;
                        }
                        None
                    },
                }
            }
        },
    };
    match count {
        Some(v) => signed_of(negative, v),
        None => None,
    }
}

/// A whole number below zero is held as one, and no other number is.
pub open spec fn wf_number(n: NumberView) -> bool {
    n matches NumberView::NegInt(v) ==> v < 0
}

/// A JSON document.
#[derive(Debug, PartialEq, Eq)]
pub enum Json {
    Null,
    Bool(bool),
    Number(Number),
    String(String),
    Array(Vec<Json>),
    /// The members in the order of their keys, each key once.
    Object(Vec<(String, Json)>),
}

/// A document as contracts speak of it.
pub ghost enum JsonView {
    Null,
    Bool(bool),
    Number(NumberView),
    String(Seq<char>),
    Array(Seq<JsonView>),
    Object(Seq<(Seq<char>, JsonView)>),
}

/// The members of an object, in the order of their keys.
pub type Members = Seq<(Seq<char>, JsonView)>;

impl View for Json {
    type V = JsonView;

    open spec fn view(&self) -> JsonView
        decreases self,
    {
        match self {
            Json::Array(items) => JsonView::Array(
                Seq::new(
                    items@.len(),
                    |i: int|
                        if 0 <= i < items@.len() {
                            items@[i].view()
                        } else {
                            JsonView::Null
                        },
                ),
            ),
            Json::Object(members) => JsonView::Object(
                Seq::new(
                    members@.len(),
                    |i: int|
                        if 0 <= i < members@.len() {
                            (members@[i].0@, members@[i].1.view())
                        } else {
                            (Seq::empty(), JsonView::Null)
                        },
                ),
            ),
            _ => leaf_view(*self),
        }
    }
}

/// The view of a document that holds no other document.
pub open spec fn leaf_view(v: Json) -> JsonView {
    match v {
        Json::Bool(b) => JsonView::Bool(b),
        Json::Number(n) => JsonView::Number(number_view(n)),
        Json::String(s) => JsonView::String(s@),
        _ => JsonView::Null,
    }
}

/// The views of a run of documents.
pub open spec fn items_view(items: Seq<Json>) -> Seq<JsonView> {
    Seq::new(items.len(), |i: int| items[i]@)
}

/// The views of a run of members.
pub open spec fn members_view(members: Seq<(String, Json)>) -> Members {
    Seq::new(members.len(), |i: int| (members[i].0@, members[i].1@))
}

/// The view of an array is the views of its items.
pub proof fn lemma_view_array(items: Vec<Json>)
    ensures
        Json::Array(items)@ == JsonView::Array(items_view(items@)),
{
    reveal_with_fuel(<Json as View>::view, 2);
    assert(Json::Array(items)@->Array_0 =~= items_view(items@));
}

/// The view of an object is the views of its members.
pub proof fn lemma_view_object(members: Vec<(String, Json)>)
    ensures
        Json::Object(members)@ == JsonView::Object(members_view(members@)),
{
    reveal_with_fuel(<Json as View>::view, 2);
    assert(Json::Object(members)@->Object_0 =~= members_view(members@));
}

/// A document and its view are of the same kind.
pub proof fn lemma_view_kind(v: Json)
    ensures
        v is Null <==> v@ is Null,
        v is Bool <==> v@ is Bool,
        v is Number <==> v@ is Number,
        v is String <==> v@ is String,
        v is Array <==> v@ is Array,
        v is Object <==> v@ is Object,
{
    match v {
        Json::Array(items) => {
            lemma_view_array(items);
        },
        Json::Object(members) => {
            lemma_view_object(members);
        },
        _ => {},
    }
}

/// Keys rise strictly from each member to the next.
pub open spec fn sorted_keys(m: Members) -> bool {
    forall|i: int, j: int| 0 <= i < j < m.len() ==> text_lt(#[trigger] m[i].0, #[trigger] m[j].0)
}

/// Every object in the document keeps its members in the order of their
/// keys, and every whole number is held in the variant that fits its sign.
pub open spec fn wf_json(v: JsonView) -> bool
    decreases v,
{
    match v {
        JsonView::Number(n) => wf_number(n),
        JsonView::Array(items) => forall|i: int|
            0 <= i < items.len() ==> wf_json(#[trigger] items[i]),
        JsonView::Object(m) => {
            &&& sorted_keys(m)
            &&& forall|i: int| 0 <= i < m.len() ==> wf_json((#[trigger] m[i]).1)
        },
        _ => true,
    }
}

/// The members are in the order of their keys, and each value is well laid out.
pub open spec fn wf_members(m: Members) -> bool {
    &&& sorted_keys(m)
    &&& forall|i: int| 0 <= i < m.len() ==> wf_json((#[trigger] m[i]).1)
}

/// How many members at the front have a key below `k`: the place of `k`
/// among the members.
pub open spec fn key_pos(m: Members, k: Seq<char>) -> int
    decreases m.len(),
{
    if m.len() == 0 || !text_lt(m[0].0, k) {
        0
    } else {
        1 + key_pos(m.drop_first(), k)
    }
}

/// Whether a member has the key `k`.
pub open spec fn has_key(m: Members, k: Seq<char>) -> bool {
    key_pos(m, k) < m.len() && m[key_pos(m, k)].0 == k
}

/// The value of the member with key `k`.
pub open spec fn obj_get(m: Members, k: Seq<char>) -> Option<JsonView> {
    if has_key(m, k) {
        Some(m[key_pos(m, k)].1)
    } else {
        None
    }
}

/// The members with `k` set to `v`: in the place of the old value where
/// there was one, else in the place that keeps the keys in order.
pub open spec fn obj_insert(m: Members, k: Seq<char>, v: JsonView) -> Members {
    if has_key(m, k) {
        m.update(key_pos(m, k), (k, v))
    } else {
        m.insert(key_pos(m, k), (k, v))
    }
}

/// The members without the one with key `k`.
pub open spec fn obj_remove(m: Members, k: Seq<char>) -> Members {
    if has_key(m, k) {
        m.remove(key_pos(m, k))
    } else {
        m
    }
}

/// The place of a key lies among the members, after every key below it.
pub proof fn lemma_key_pos(m: Members, k: Seq<char>)
    ensures
        0 <= key_pos(m, k) <= m.len(),
        forall|i: int| 0 <= i < key_pos(m, k) ==> text_lt(#[trigger] m[i].0, k),
        key_pos(m, k) < m.len() ==> !text_lt(m[key_pos(m, k)].0, k),
    decreases m.len(),
{
    if m.len() == 0 || !text_lt(m[0].0, k) {
    } else {
        let rest = m.drop_first();
        lemma_key_pos(rest, k);
        assert forall|i: int| 0 <= i < key_pos(m, k) implies text_lt(#[trigger] m[i].0, k) by {
            if i > 0 {
                assert(m[i] == rest[i - 1]);
            }
        }
        if key_pos(m, k) < m.len() {
            assert(m[key_pos(m, k)] == rest[key_pos(rest, k)]);
        }
    }
}

/// In sorted members every key from the place of `k` on is `k` or above it,
/// and only the member at that place can have key `k`.
pub proof fn lemma_key_pos_sorted(m: Members, k: Seq<char>)
    requires
        sorted_keys(m),
    ensures
        0 <= key_pos(m, k) <= m.len(),
        forall|i: int| 0 <= i < key_pos(m, k) ==> text_lt(#[trigger] m[i].0, k),
        forall|i: int| key_pos(m, k) < i < m.len() ==> text_lt(k, #[trigger] m[i].0),
        key_pos(m, k) < m.len() ==> m[key_pos(m, k)].0 == k || text_lt(k, m[key_pos(m, k)].0),
        forall|i: int| 0 <= i < m.len() && #[trigger] m[i].0 == k ==> i == key_pos(m, k),
{
    lemma_key_pos(m, k);
    let p = key_pos(m, k);
    if p < m.len() {
        lemma_text_lt_total(m[p].0, k);
        assert forall|i: int| p < i < m.len() implies text_lt(k, #[trigger] m[i].0) by {
            assert(text_lt(m[p].0, m[i].0));
            if m[p].0 != k {
                lemma_text_lt_transitive(k, m[p].0, m[i].0);
            }
        }
    }
    assert forall|i: int| 0 <= i < m.len() && #[trigger] m[i].0 == k implies i == p by {
        lemma_text_lt_irreflexive(k);
    }
}

/// In sorted members each member is found by its key.
pub proof fn lemma_get_by_index(m: Members, i: int)
    requires
        sorted_keys(m),
        0 <= i < m.len(),
    ensures
        has_key(m, m[i].0),
        key_pos(m, m[i].0) == i,
        obj_get(m, m[i].0) == Some(m[i].1),
{
    lemma_key_pos_sorted(m, m[i].0);
}

/// A key that no member has is not found.
pub proof fn lemma_get_none(m: Members, k: Seq<char>)
    requires
        forall|i: int| 0 <= i < m.len() ==> (#[trigger] m[i]).0 != k,
    ensures
        !has_key(m, k),
        obj_get(m, k) is None,
{
    lemma_key_pos(m, k);
}

/// A key that is not found is the key of no member.
pub proof fn lemma_no_key(m: Members, k: Seq<char>)
    requires
        sorted_keys(m),
        !has_key(m, k),
    ensures
        forall|i: int| 0 <= i < m.len() ==> (#[trigger] m[i]).0 != k,
{
    assert forall|i: int| 0 <= i < m.len() implies (#[trigger] m[i]).0 != k by {
        if m[i].0 == k {
            lemma_get_by_index(m, i);
        }
    }
}

/// Setting a member keeps the members in order, and the member is found.
pub proof fn lemma_insert_sorted(m: Members, k: Seq<char>, v: JsonView)
    requires
        sorted_keys(m),
    ensures
        sorted_keys(obj_insert(m, k, v)),
        has_key(obj_insert(m, k, v), k),
        obj_get(obj_insert(m, k, v), k) == Some(v),
{
    lemma_key_pos_sorted(m, k);
    let p = key_pos(m, k);
    let r = obj_insert(m, k, v);
    assert forall|i: int, j: int| 0 <= i < j < r.len() implies text_lt(
        #[trigger] r[i].0,
        #[trigger] r[j].0,
    ) by {
        if has_key(m, k) {
            assert(r[i].0 == m[i].0);
            assert(r[j].0 == m[j].0);
        } else {
            if i < p && j == p {
                assert(r[i] == m[i]);
            } else if i == p {
                assert(r[j] == m[j - 1]);
            } else if j < p {
                assert(r[i] == m[i] && r[j] == m[j]);
            } else if i < p {
                assert(r[i] == m[i] && r[j] == m[j - 1]);
            } else {
                assert(r[i] == m[i - 1] && r[j] == m[j - 1]);
            }
        }
    }
    assert(r[p] == (k, v));
    lemma_get_by_index(r, p);
}

/// Taking a member away keeps the members in order, and the member is gone.
pub proof fn lemma_remove_sorted(m: Members, k: Seq<char>)
    requires
        sorted_keys(m),
    ensures
        sorted_keys(obj_remove(m, k)),
        !has_key(obj_remove(m, k), k),
{
    lemma_key_pos_sorted(m, k);
    let p = key_pos(m, k);
    let r = obj_remove(m, k);
    if has_key(m, k) {
        assert forall|i: int, j: int| 0 <= i < j < r.len() implies text_lt(
            #[trigger] r[i].0,
            #[trigger] r[j].0,
        ) by {
            let a = if i < p { i } else { i + 1 };
            let b = if j < p { j } else { j + 1 };
            assert(r[i] == m[a] && r[j] == m[b]);
        }
        assert forall|i: int| 0 <= i < r.len() implies (#[trigger] r[i]).0 != k by {
            let a = if i < p { i } else { i + 1 };
            assert(r[i] == m[a]);
        }
        lemma_get_none(r, k);
    }
}

/// Setting one key leaves what is found under every other key.
pub proof fn lemma_get_insert_other(m: Members, k: Seq<char>, v: JsonView, other: Seq<char>)
    requires
        sorted_keys(m),
        k != other,
    ensures
        obj_get(obj_insert(m, k, v), other) == obj_get(m, other),
        has_key(obj_insert(m, k, v), other) == has_key(m, other),
{
    lemma_insert_sorted(m, k, v);
    lemma_key_pos_sorted(m, k);
    lemma_key_pos(m, other);
    let p = key_pos(m, k);
    let r = obj_insert(m, k, v);
    if has_key(m, other) {
        let q = key_pos(m, other);
        let j = if has_key(m, k) || q < p { q } else { q + 1 };
        assert(r[j] == m[q]);
        lemma_get_by_index(r, j);
    } else {
        lemma_no_key(m, other);
        assert forall|i: int| 0 <= i < r.len() implies (#[trigger] r[i]).0 != other by {
            if has_key(m, k) {
                if i != p {
                    assert(r[i] == m[i]);
                }
            } else {
                if i < p {
                    assert(r[i] == m[i]);
                } else if i > p {
                    assert(r[i] == m[i - 1]);
                }
            }
        }
        lemma_get_none(r, other);
    }
}

/// Taking one key away leaves what is found under every other key.
pub proof fn lemma_get_remove_other(m: Members, k: Seq<char>, other: Seq<char>)
    requires
        sorted_keys(m),
        k != other,
    ensures
        obj_get(obj_remove(m, k), other) == obj_get(m, other),
        has_key(obj_remove(m, k), other) == has_key(m, other),
{
    lemma_remove_sorted(m, k);
    lemma_key_pos_sorted(m, k);
    lemma_key_pos(m, other);
    let p = key_pos(m, k);
    let r = obj_remove(m, k);
    if has_key(m, k) {
        if has_key(m, other) {
            let q = key_pos(m, other);
            let j = if q < p { q } else { q - 1 };
            assert(r[j] == m[q]);
            lemma_get_by_index(r, j);
        } else {
            lemma_no_key(m, other);
            assert forall|i: int| 0 <= i < r.len() implies (#[trigger] r[i]).0 != other by {
                let a = if i < p { i } else { i + 1 };
                assert(r[i] == m[a]);
            }
            lemma_get_none(r, other);
        }
    }
}

/// In sorted members the place of a key is the one place before which
/// every key is below it and at which the key is not.
pub proof fn lemma_key_pos_is(m: Members, k: Seq<char>, p: int)
    requires
        0 <= p <= m.len(),
        forall|i: int| 0 <= i < p ==> text_lt(#[trigger] m[i].0, k),
        p < m.len() ==> !text_lt(m[p].0, k),
    ensures
        key_pos(m, k) == p,
{
    lemma_key_pos_skip(m, k, p);
    if p < m.len() {
        assert(m.skip(p)[0] == m[p]);
    }
}

/// Of two settings of one key the later one counts.
pub proof fn lemma_insert_twice(m: Members, k: Seq<char>, v: JsonView, w: JsonView)
    requires
        sorted_keys(m),
    ensures
        obj_insert(obj_insert(m, k, v), k, w) == obj_insert(m, k, w),
{
    lemma_key_pos_sorted(m, k);
    lemma_insert_sorted(m, k, v);
    let p = key_pos(m, k);
    let r = obj_insert(m, k, v);
    assert(r[p] == (k, v));
    lemma_get_by_index(r, p);
    if has_key(m, k) {
        assert(r.update(p, (k, w)) =~= m.update(p, (k, w)));
    } else {
        assert(r.update(p, (k, w)) =~= m.insert(p, (k, w)));
    }
}

/// Setting a member to what it is changes nothing.
pub proof fn lemma_insert_same(m: Members, k: Seq<char>)
    requires
        sorted_keys(m),
        has_key(m, k),
    ensures
        obj_insert(m, k, obj_get(m, k)->Some_0) == m,
{
    lemma_key_pos(m, k);
    let p = key_pos(m, k);
    assert(m.update(p, (k, m[p].1)) =~= m);
}

/// The members with the member of key `k` set to a value, or taken away.
pub open spec fn obj_put(m: Members, k: Seq<char>, e: Option<JsonView>) -> Members {
    match e {
        Some(v) => obj_insert(m, k, v),
        None => obj_remove(m, k),
    }
}

/// Of two changes to the member of one key the later one counts.
pub proof fn lemma_obj_put_put(m: Members, k: Seq<char>, a: Option<JsonView>, b: Option<JsonView>)
    requires
        sorted_keys(m),
    ensures
        obj_put(obj_put(m, k, a), k, b) == obj_put(m, k, b),
{
    lemma_key_pos_sorted(m, k);
    let p = key_pos(m, k);
    match a {
        Some(v) => {
            lemma_insert_sorted(m, k, v);
            let r = obj_insert(m, k, v);
            assert(r[p] == (k, v));
            lemma_get_by_index(r, p);
            match b {
                Some(w) => {
                    lemma_insert_twice(m, k, v, w);
                },
                None => {
                    if has_key(m, k) {
                        assert(r.remove(p) =~= m.remove(p));
                    } else {
                        assert(r.remove(p) =~= m);
                    }
                },
            }
        },
        None => {
            lemma_remove_sorted(m, k);
            if has_key(m, k) {
                let r = m.remove(p);
                assert forall|i: int| 0 <= i < p implies text_lt(#[trigger] r[i].0, k) by {
                    assert(r[i] == m[i]);
                }
                if p < r.len() {
                    assert(r[p] == m[p + 1]);
                    lemma_text_lt_asymmetric(k, m[p + 1].0);
                }
                lemma_key_pos_is(r, k, p);
                match b {
                    Some(w) => {
                        assert(r.insert(p, (k, w)) =~= m.update(p, (k, w)));
                    },
                    None => {},
                }
            }
        },
    }
}

/// Changing a member to what it is changes nothing.
pub proof fn lemma_obj_put_same(m: Members, k: Seq<char>)
    requires
        sorted_keys(m),
    ensures
        obj_put(m, k, obj_get(m, k)) == m,
{
    if has_key(m, k) {
        lemma_insert_same(m, k);
    }
}

/// A member that is changed is found as it was changed, and the members
/// stay in order; under every other key the same is found as before.
pub proof fn lemma_obj_get_put(m: Members, k: Seq<char>, e: Option<JsonView>, other: Seq<char>)
    requires
        sorted_keys(m),
    ensures
        sorted_keys(obj_put(m, k, e)),
        obj_get(obj_put(m, k, e), k) == e,
        other != k ==> obj_get(obj_put(m, k, e), other) == obj_get(m, other),
{
    match e {
        Some(v) => {
            lemma_insert_sorted(m, k, v);
            if other != k {
                lemma_get_insert_other(m, k, v, other);
            }
        },
        None => {
            lemma_remove_sorted(m, k);
            if other != k {
                lemma_get_remove_other(m, k, other);
            }
        },
    }
}

/// Sorted members under whose every key the same is found are the same.
pub proof fn lemma_members_equal(a: Members, b: Members)
    requires
        sorted_keys(a),
        sorted_keys(b),
        forall|k: Seq<char>| obj_get(a, k) == obj_get(b, k),
    ensures
        a == b,
    decreases a.len(),
{
    if a.len() == 0 {
        if b.len() > 0 {
            lemma_get_by_index(b, 0);
            lemma_key_pos(a, b[0].0);
            assert(obj_get(a, b[0].0) is None);
        }
        assert(a =~= b);
    } else {
        lemma_get_by_index(a, 0);
        let k0 = a[0].0;
        assert(obj_get(b, k0) == Some(a[0].1));
        lemma_key_pos(b, k0);
        let j = key_pos(b, k0);
        assert(b[j] == a[0]);
        if j > 0 {
            lemma_get_by_index(b, 0);
            assert(obj_get(a, b[0].0) == Some(b[0].1));
            lemma_key_pos(a, b[0].0);
            let i = key_pos(a, b[0].0);
            assert(a[i].0 == b[0].0);
            assert(text_lt(b[0].0, b[j].0));
            if i > 0 {
                assert(text_lt(a[0].0, a[i].0));
                lemma_text_lt_asymmetric(a[0].0, a[i].0);
            } else {
                lemma_text_lt_irreflexive(k0);
            }
        }
        let ta = a.drop_first();
        let tb = b.drop_first();
        assert(sorted_keys(ta)) by {
            assert forall|x: int, y: int| 0 <= x < y < ta.len() implies text_lt(
                #[trigger] ta[x].0,
                #[trigger] ta[y].0,
            ) by {
                assert(ta[x] == a[x + 1] && ta[y] == a[y + 1]);
            }
        }
        assert(sorted_keys(tb)) by {
            assert forall|x: int, y: int| 0 <= x < y < tb.len() implies text_lt(
                #[trigger] tb[x].0,
                #[trigger] tb[y].0,
            ) by {
                assert(tb[x] == b[x + 1] && tb[y] == b[y + 1]);
            }
        }
        assert forall|k: Seq<char>| obj_get(ta, k) == obj_get(tb, k) by {
            lemma_tail_get(a, k);
            lemma_tail_get(b, k);
        }
        lemma_members_equal(ta, tb);
        assert(a =~= seq![a[0]] + ta);
        assert(b =~= seq![b[0]] + tb);
    }
}

/// Under the key of the first of sorted members nothing is found among the
/// others; under every other key, what is found among them all.
pub proof fn lemma_tail_get(m: Members, k: Seq<char>)
    requires
        sorted_keys(m),
        m.len() > 0,
    ensures
        obj_get(m.drop_first(), k) == (if k == m[0].0 {
            None
        } else {
            obj_get(m, k)
        }),
{
    let t = m.drop_first();
    assert(sorted_keys(t)) by {
        assert forall|x: int, y: int| 0 <= x < y < t.len() implies text_lt(
            #[trigger] t[x].0,
            #[trigger] t[y].0,
        ) by {
            assert(t[x] == m[x + 1] && t[y] == m[y + 1]);
        }
    }
    lemma_key_pos(m, k);
    lemma_key_pos(t, k);
    if has_key(t, k) {
        let j = key_pos(t, k);
        assert(t[j] == m[j + 1]);
        lemma_get_by_index(m, j + 1);
        assert(text_lt(m[0].0, m[j + 1].0));
        lemma_text_lt_asymmetric(m[0].0, m[j + 1].0);
    } else {
        lemma_no_key(t, k);
        if has_key(m, k) {
            let i = key_pos(m, k);
            if i > 0 {
                assert(t[i - 1] == m[i]);
            }
        }
    }
}

/// An array is well laid out exactly if its items are.
pub proof fn lemma_wf_array(items: Seq<JsonView>)
    ensures
        wf_json(JsonView::Array(items)) <==> (forall|i: int|
            0 <= i < items.len() ==> wf_json(#[trigger] items[i])),
{
    let v = JsonView::Array(items);
    if wf_json(v) {
        assert forall|i: int| 0 <= i < items.len() implies wf_json(#[trigger] items[i]) by {
            assert(v->Array_0[i] == items[i]);
        }
    }
    if forall|i: int| 0 <= i < items.len() ==> wf_json(#[trigger] items[i]) {
        assert forall|i: int| 0 <= i < v->Array_0.len() implies wf_json(
            #[trigger] v->Array_0[i],
        ) by {
            assert(v->Array_0[i] == items[i]);
        }
        assert(wf_json(v));
    }
}

/// An object is well laid out exactly if its members are.
pub proof fn lemma_wf_object(m: Members)
    ensures
        wf_json(JsonView::Object(m)) <==> wf_members(m),
{
    reveal_with_fuel(wf_json, 2);
}

/// What is found among well laid out members is well laid out.
pub proof fn lemma_get_wf(m: Members, k: Seq<char>)
    requires
        wf_members(m),
    ensures
        obj_get(m, k) matches Some(v) ==> wf_json(v),
        has_key(m, k) ==> 0 <= key_pos(m, k) < m.len(),
{
    lemma_key_pos(m, k);
}

/// Setting a member to a well laid out value keeps the members well laid out.
pub proof fn lemma_insert_wf(m: Members, k: Seq<char>, v: JsonView)
    requires
        wf_members(m),
        wf_json(v),
    ensures
        wf_members(obj_insert(m, k, v)),
        obj_get(obj_insert(m, k, v), k) == Some(v),
{
    lemma_key_pos_sorted(m, k);
    let p = key_pos(m, k);
    let r = obj_insert(m, k, v);
    assert forall|i: int, j: int| 0 <= i < j < r.len() implies text_lt(
        #[trigger] r[i].0,
        #[trigger] r[j].0,
    ) by {
        if has_key(m, k) {
            assert(r[i].0 == m[i].0);
            assert(r[j].0 == m[j].0);
        } else {
            if i < p && j == p {
                assert(r[i] == m[i]);
            } else if i == p {
                assert(r[j] == m[j - 1]);
            } else if j < p {
                assert(r[i] == m[i] && r[j] == m[j]);
            } else if i < p {
                assert(r[i] == m[i] && r[j] == m[j - 1]);
            } else {
                assert(r[i] == m[i - 1] && r[j] == m[j - 1]);
            }
        }
    }
    assert forall|i: int| 0 <= i < r.len() implies wf_json((#[trigger] r[i]).1) by {
        if has_key(m, k) {
            if i != p {
                assert(r[i] == m[i]);
            }
        } else {
            if i < p {
                assert(r[i] == m[i]);
            } else if i > p {
                assert(r[i] == m[i - 1]);
            }
        }
    }
    lemma_key_pos_sorted(r, k);
    assert(r[p].0 == k);
}

/// Taking a member away keeps the members well laid out.
pub proof fn lemma_remove_wf(m: Members, k: Seq<char>)
    requires
        wf_members(m),
    ensures
        wf_members(obj_remove(m, k)),
        !has_key(obj_remove(m, k), k),
{
    lemma_key_pos_sorted(m, k);
    let p = key_pos(m, k);
    let r = obj_remove(m, k);
    if has_key(m, k) {
        assert forall|i: int, j: int| 0 <= i < j < r.len() implies text_lt(
            #[trigger] r[i].0,
            #[trigger] r[j].0,
        ) by {
            let a = if i < p { i } else { i + 1 };
            let b = if j < p { j } else { j + 1 };
            assert(r[i] == m[a] && r[j] == m[b]);
        }
        assert forall|i: int| 0 <= i < r.len() implies wf_json((#[trigger] r[i]).1) by {
            let a = if i < p { i } else { i + 1 };
            assert(r[i] == m[a]);
        }
        lemma_key_pos_sorted(r, k);
        if has_key(r, k) {
            let q = key_pos(r, k);
            let a = if q < p { q } else { q + 1 };
            assert(r[q] == m[a]);
        }
    }
}

/// Where the members of a sorted object are walked up to a place without
/// meeting `k` or a key above it, the place of `k` lies further on.
pub proof fn lemma_key_pos_skip(m: Members, k: Seq<char>, i: int)
    requires
        0 <= i <= m.len(),
        forall|j: int| 0 <= j < i ==> text_lt(#[trigger] m[j].0, k),
    ensures
        key_pos(m, k) == i + key_pos(m.skip(i), k),
    decreases i,
{
    if i == 0 {
        assert(m.skip(0) =~= m);
    } else {
        assert(text_lt(m[0].0, k));
        let rest = m.drop_first();
        assert forall|j: int| 0 <= j < i - 1 implies text_lt(#[trigger] rest[j].0, k) by {
            assert(rest[j] == m[j + 1]);
        }
        lemma_key_pos_skip(rest, k, i - 1);
        assert(rest.skip(i - 1) =~= m.skip(i));
    }
}

impl Json {
    /// Whether the document is laid out as this crate keeps documents.
    pub open spec fn wf(&self) -> bool {
        wf_json(self@)
    }

    /// An object without members.
    pub fn empty_object() -> (r: Json)
        ensures
            r@ == JsonView::Object(Seq::empty()),
            r.wf(),
    {
        let members: Vec<(String, Json)> = Vec::new();
        proof {
            lemma_view_object(members);
            assert(members_view(members@) =~= Seq::empty());
        }
        Json::Object(members)
    }

    /// A string value.
    pub fn string(s: &str) -> (r: Json)
        ensures
            r@ == JsonView::String(s@),
            r.wf(),
    {
        Json::String(owned(s))
    }

    /// A copy of the document.
    pub fn duplicate(&self) -> (r: Json)
        ensures
            r@ == self@,
        decreases self,
    {
        match self {
            Json::Null => Json::Null,
            Json::Bool(b) => Json::Bool(*b),
            Json::Number(n) => Json::Number(n.duplicate()),
            Json::String(s) => Json::String(s.clone()),
            Json::Array(items) => {
                let mut out: Vec<Json> = Vec::new();
                let mut i: usize = 0;
                while i < items.len()
                    invariant
                        i <= items@.len(),
                        out@.len() == i,
                        forall|j: int| 0 <= j < items@.len() ==> decreases_to!(self => #[trigger] items@[j]),
                        forall|j: int| 0 <= j < i ==> (#[trigger] out@[j])@ == items@[j]@,
                    decreases items@.len() - i,
                {
                    out.push(items[i].duplicate());
                    i = i + 1;
                }
                proof {
                    lemma_view_array(out);
                    lemma_view_array(*items);
                    assert(items_view(out@) =~= items_view(items@));
                }
                Json::Array(out)
            },
            Json::Object(members) => {
                let mut out: Vec<(String, Json)> = Vec::new();
                let mut i: usize = 0;
                while i < members.len()
                    invariant
                        i <= members@.len(),
                        out@.len() == i,
                        forall|j: int|
                            0 <= j < members@.len() ==> decreases_to!(self => (#[trigger] members@[j]).1),
                        forall|j: int|
                            0 <= j < i ==> (#[trigger] out@[j]).0@ == members@[j].0@ && out@[j].1@
                                == members@[j].1@,
                    decreases members@.len() - i,
                {
                    let key = members[i].0.clone();
                    let value = members[i].1.duplicate();
                    out.push((key, value));
                    i = i + 1;
                }
                proof {
                    lemma_view_object(out);
                    lemma_view_object(*members);
                    assert(members_view(out@) =~= members_view(members@));
                }
                Json::Object(out)
            },
        }
    }

    /// The text of a string value.
    pub fn as_str(&self) -> (r: Option<&str>)
        ensures
            match r {
                Some(s) => self@ == JsonView::String(s@),
                None => !(self@ is String),
            },
    {
        match self {
            Json::String(s) => Some(s.as_str()),
            _ => None,
        }
    }

    /// Whether the value is the string `s`.
    pub fn is_string(&self, s: &str) -> (r: bool)
        ensures
            r == (self@ == JsonView::String(s@)),
    {
        match self {
            Json::String(t) => same_text(t.as_str(), s),
            _ => false,
        }
    }
}

/// The place of key `k` among sorted members, and whether a member has it.
pub fn find_key(members: &Vec<(String, Json)>, k: &str) -> (r: (usize, bool))
    requires
        sorted_keys(members_view(members@)),
    ensures
        r.0 == key_pos(members_view(members@), k@),
        r.1 == has_key(members_view(members@), k@),
        r.0 <= members@.len(),
{
    let ghost m = members_view(members@);
    let mut i: usize = 0;
    while i < members.len()
        invariant
            i <= members@.len(),
            m == members_view(members@),
            forall|j: int| 0 <= j < i ==> text_lt(#[trigger] m[j].0, k@),
        decreases members@.len() - i,
    {
        let order = compare_text(members[i].0.as_str(), k);
        assert(m[i as int].0 == members@[i as int].0@);
        match order {
            Order::Before => {
                i = i + 1;
            },
            Order::Same => {
                proof {
                    lemma_key_pos_skip(m, k@, i as int);
                    lemma_text_lt_irreflexive(k@);
                    assert(m.skip(i as int)[0] == m[i as int]);
                }
                return (i, true);
            },
            Order::After => {
                proof {
                    lemma_key_pos_skip(m, k@, i as int);
                    lemma_text_lt_asymmetric(k@, m[i as int].0);
                    assert(m.skip(i as int)[0] == m[i as int]);
                }
                return (i, false);
            },
        }
    }
    proof {
        lemma_key_pos_skip(m, k@, i as int);
    }
    (i, false)
}

/// The value of the member with key `k`.
pub fn get_member<'a>(members: &'a Vec<(String, Json)>, k: &str) -> (r: Option<&'a Json>)
    requires
        sorted_keys(members_view(members@)),
    ensures
        match r {
            Some(v) => obj_get(members_view(members@), k@) == Some(v@),
            None => obj_get(members_view(members@), k@) is None,
        },
{
    let (i, found) = find_key(members, k);
    if found {
        Some(&members[i].1)
    } else {
        None
    }
}

/// Sets the member with key `k` to `v`.
pub fn insert_member(members: &mut Vec<(String, Json)>, k: String, v: Json)
    requires
        sorted_keys(members_view(old(members)@)),
    ensures
        members_view(final(members)@) == obj_insert(members_view(old(members)@), k@, v@),
{
    let (i, found) = find_key(members, k.as_str());
    let ghost before = members_view(members@);
    let ghost kv = k@;
    let ghost vv = v@;
    if found {
        members[i] = (k, v);
        assert(members_view(members@) =~= before.update(i as int, (kv, vv)));
    } else {
        members.insert(i, (k, v));
        assert(members_view(members@) =~= before.insert(i as int, (kv, vv)));
    }
}

/// Takes the member with key `k` out, and hands back its value.
pub fn remove_member(members: &mut Vec<(String, Json)>, k: &str) -> (r: Option<Json>)
    requires
        sorted_keys(members_view(old(members)@)),
    ensures
        members_view(final(members)@) == obj_remove(members_view(old(members)@), k@),
        match r {
            Some(v) => obj_get(members_view(old(members)@), k@) == Some(v@),
            None => obj_get(members_view(old(members)@), k@) is None,
        },
{
    let (i, found) = find_key(members, k);
    let ghost before = members_view(members@);
    if found {
        let taken = members.remove(i);
        assert(members_view(members@) =~= before.remove(i as int));
        Some(taken.1)
    } else {
        None
    }
}

/// Keys that rise from each member to the next rise from each member to
/// every later one.
pub proof fn lemma_sorted_by_neighbours(m: Members, n: int)
    requires
        0 <= n <= m.len(),
        forall|i: int| 0 <= i < n - 1 ==> text_lt(#[trigger] m[i].0, m[i + 1].0),
    ensures
        forall|i: int, j: int| 0 <= i < j < n ==> text_lt(#[trigger] m[i].0, #[trigger] m[j].0),
    decreases n,
{
    if n > 1 {
        lemma_sorted_by_neighbours(m, n - 1);
        assert forall|i: int, j: int| 0 <= i < j < n implies text_lt(
            #[trigger] m[i].0,
            #[trigger] m[j].0,
        ) by {
            if j == n - 1 && i < n - 2 {
                assert(text_lt(m[i].0, m[n - 2].0));
                assert(text_lt(m[n - 2].0, m[n - 2 + 1].0));
                lemma_text_lt_transitive(m[i].0, m[n - 2].0, m[j].0);
            } else if j == n - 1 {
                assert(text_lt(m[i].0, m[i + 1].0));
            }
        }
    }
}

impl Json {
    /// Whether the document is laid out as this crate keeps documents.
    pub fn well_formed(&self) -> (r: bool)
        ensures
            r == self.wf(),
        decreases self,
    {
        match self {
            Json::Number(n) => match n {
                Number::NegInt(v) => *v < 0,
                _ => true,
            },
            Json::Array(items) => {
                proof {
                    lemma_view_array(*items);
                    lemma_wf_array(items_view(items@));
                }
                let mut i: usize = 0;
                while i < items.len()
                    invariant
                        i <= items@.len(),
                        self@ == JsonView::Array(items_view(items@)),
                        forall|j: int|
                            0 <= j < items@.len() ==> decreases_to!(self => #[trigger] items@[j]),
                        forall|j: int| 0 <= j < i ==> wf_json(#[trigger] items_view(items@)[j]),
                    decreases items@.len() - i,
                {
                    if !items[i].well_formed() {
                        proof {
                            assert(!wf_json(items_view(items@)[i as int]));
                            lemma_wf_array(items_view(items@));
                        }
                        return false;
                    }
                    i = i + 1;
                }
                proof {
                    lemma_wf_array(items_view(items@));
                }
                true
            },
            Json::Object(members) => {
                let ghost m = members_view(members@);
                proof {
                    lemma_view_object(*members);
                    lemma_wf_object(m);
                }
                let mut i: usize = 0;
                while i < members.len()
                    invariant
                        i <= members@.len(),
                        m == members_view(members@),
                        self@ == JsonView::Object(m),
                        forall|j: int|
                            0 <= j < members@.len() ==> decreases_to!(self => (
                            #[trigger] members@[j]).1),
                        forall|j: int| 0 <= j < i ==> wf_json((#[trigger] m[j]).1),
                        forall|j: int|
                            0 <= j < i as int - 1 ==> text_lt(#[trigger] m[j].0, m[j + 1].0),
                    decreases members@.len() - i,
                {
                    if !members[i].1.well_formed() {
                        proof {
                            assert(!wf_json(m[i as int].1));
                            lemma_wf_object(m);
                        }
                        return false;
                    }
                    if i > 0 {
                        match compare_text(members[i - 1].0.as_str(), members[i].0.as_str()) {
                            Order::Before => {},
                            _ => {
                                proof {
                                    assert(!text_lt(m[i - 1].0, m[i as int].0));
                                    lemma_wf_object(m);
                                }
                                return false;
                            },
                        }
                    }
                    i = i + 1;
                }
                proof {
                    lemma_sorted_by_neighbours(m, m.len() as int);
                    lemma_wf_object(m);
                }
                true
            },
            _ => true,
        }
    }

    /// The object that has these members. Of two members with one key the
    /// later one counts.
    pub fn from_members(members: Vec<(String, Json)>) -> (r: Json)
        requires
            forall|i: int| 0 <= i < members@.len() ==> (#[trigger] members@[i]).1.wf(),
        ensures
            r.wf(),
            r@ == JsonView::Object(inserted_upto(members_view(members@), members@.len() as int)),
    {
        let ghost given = members_view(members@);
        let mut rest = members;
        let n: usize = rest.len();
        let mut out: Vec<(String, Json)> = Vec::new();
        let mut i: usize = 0;
        assert(members_view(out@) =~= Seq::empty());
        while i < n
            invariant
                n == given.len(),
                rest@.len() == n,
                i <= n,
                forall|j: int| i <= j < n ==> members_view(rest@)[j] == #[trigger] given[j],
                forall|j: int| 0 <= j < n ==> wf_json((#[trigger] given[j]).1),
                wf_members(members_view(out@)),
                members_view(out@) == inserted_upto(given, i as int),
            decreases n - i,
        {
            let ghost before = members_view(rest@);
            assert(before[i as int] == given[i as int]);
            let mut slot = (String::new(), Json::Null);
            std::mem::swap(&mut rest[i], &mut slot);
            assert(slot.0@ == given[i as int].0 && slot.1@ == given[i as int].1);
            proof {
                lemma_insert_wf(members_view(out@), slot.0@, slot.1@);
            }
            insert_member(&mut out, slot.0, slot.1);
            assert forall|j: int| i + 1 <= j < n implies members_view(rest@)[j]
                == #[trigger] given[j] by {
                assert(members_view(rest@)[j] == before[j]);
            }
            i = i + 1;
        }
        proof {
            lemma_view_object(out);
            lemma_wf_object(members_view(out@));
        }
        Json::Object(out)
    }
}

/// The members that come of setting the first `n` of the given members,
/// one after the other.
pub open spec fn inserted_upto(given: Members, n: int) -> Members
    decreases n,
{
    if n <= 0 || n > given.len() {
        Seq::empty()
    } else {
        obj_insert(inserted_upto(given, n - 1), given[n - 1].0, given[n - 1].1)
    }
}

} // verus!
