//! Documents made fit for the runtime: dates and times brought into the
//! forms of RFC 3339, where a schema or a list of entries asks for it.

use crate::dates::{
    date_prefix, is_date, is_date_time, is_rfc3339_date, is_rfc3339_date_time, leading_date,
    ends_in_wide_offset, has_wide_offset, liberal_time, naive_time, naive_time_of, offset_time,
    offset_time_of, rfc3339_of, rfc3339_text, Instant,
};
use crate::json::{
    thousandths, thousandths_of, find_key, get_member, key_pos, lemma_get_wf, lemma_key_pos,
    lemma_view_array, lemma_view_kind, lemma_view_object, lemma_wf_object, members_view,
    number_as_i64, obj_get, wf_json, wf_members, Json, JsonView, Members, Number, NumberView,
};
use crate::pointer::{
    laid_down, lay_down, padded, parse_pointer, query, token_key, Edit, EditView, Pointer, Token,
    TokenView,
};
use crate::schema::{items_ptr, property_ptr};
use crate::text::{owned, texts};
use vstd::prelude::*;

verus! {

/// A change that can be asked for a value of a document.
#[derive(Clone, Copy, Debug, PartialEq, Eq, Structural)]
pub enum Normalization {
    /// A date and time is cut down to its date.
    DatetimeToDate,
}

/// A change and the pointer to the value that it is asked for.
#[derive(Debug, PartialEq, Eq)]
pub struct NormalizationEntry {
    pub pointer: String,
    pub normalization: Normalization,
}

/// A pointer that leads to a value can be laid down to it.
pub proof fn lemma_query_lays_down(doc: JsonView, toks: Seq<TokenView>, v: JsonView)
    requires
        query(doc, toks) is Some,
    ensures
        laid_down(doc, toks, EditView::Put(v)) is Some,
    decreases toks.len(),
{
    if toks.len() > 0 {
        let t = toks[0];
        let rest = toks.drop_first();
        match doc {
            JsonView::Object(m) => {
                lemma_query_lays_down(obj_get(m, token_key(t))->Some_0, rest, v);
            },
            JsonView::Array(items) => {
                if let TokenView::Index(i) = t {
                    assert(padded(items, i) == items);
                    lemma_query_lays_down(items[i as int], rest, v);
                }
            },
            _ => {},
        }
    }
}

/// The document with the text `t` at the place that a pointer leads to.
pub open spec fn with_text_at(doc: JsonView, toks: Seq<TokenView>, t: Seq<char>) -> JsonView {
    match laid_down(doc, toks, EditView::Put(JsonView::String(t))) {
        Some(d) => d,
        None => doc,
    }
}

/// Puts a text in the place of the value that a pointer leads to.
fn put_text(doc: &mut Json, ptr: &Pointer, t: String)
    requires
        old(doc).wf(),
        query(old(doc)@, ptr@) is Some,
    ensures
        final(doc)@ == with_text_at(old(doc)@, ptr@, t@),
        final(doc).wf(),
{
    let mut taken = Json::Null;
    std::mem::swap(doc, &mut taken);
    proof {
        lemma_query_lays_down(taken@, ptr@, JsonView::String(t@));
        assert(ptr@.skip(0) =~= ptr@);
    }
    match lay_down(taken, ptr, 0, Edit::Put(Json::String(t))) {
        Some(d) => {
            *doc = d;
        },
        None => {
            assert(false);
        },
    }
}

/// The document with the date and time that a pointer leads to cut down to
/// its date: a text that is no date, and begins with what looks like one, is
/// replaced by that beginning.
pub open spec fn date_normalized(doc: JsonView, toks: Seq<TokenView>) -> JsonView {
    match query(doc, toks) {
        Some(JsonView::String(s)) => if is_date(s) {
            doc
        } else {
            match date_prefix(s) {
                Some(d) => with_text_at(doc, toks, d),
                None => doc,
            }
        },
        _ => doc,
    }
}

/// Cuts the date and time that a pointer leads to down to its date.
pub fn normalize_datetime_to_date(doc: &mut Json, ptr: &Pointer)
    requires
        old(doc).wf(),
    ensures
        final(doc)@ == date_normalized(old(doc)@, ptr@),
        final(doc).wf(),
{
    let date: Option<String> = match ptr.query(doc) {
        Some(Json::String(s)) => {
            if is_rfc3339_date(s.as_str()) {
                None
            } else {
                leading_date(s.as_str())
            }
        },
        _ => None,
    };
    match date {
        Some(d) => {
            put_text(doc, ptr, d);
        },
        None => {},
    }
}

/// The document after the first `n` entries are carried out.
pub open spec fn entries_normalized(
    doc: JsonView,
    entries: Seq<NormalizationEntry>,
    n: int,
) -> JsonView
    decreases n,
{
    if n <= 0 || n > entries.len() {
        doc
    } else {
        date_normalized(
            entries_normalized(doc, entries, n - 1),
            parse_pointer(entries[n - 1].pointer@),
        )
    }
}

/// The document after the entries are carried out, one after the other.
pub open spec fn doc_normalized(
    doc: JsonView,
    normalizations: Option<Vec<NormalizationEntry>>,
) -> JsonView {
    match normalizations {
        Some(entries) => entries_normalized(doc, entries@, entries@.len() as int),
        None => doc,
    }
}

/// Carries out on a document the changes that were asked for it.
pub fn normalize_doc(doc: &mut Json, normalizations: &Option<Vec<NormalizationEntry>>)
    requires
        old(doc).wf(),
    ensures
        final(doc)@ == doc_normalized(old(doc)@, *normalizations),
        final(doc).wf(),
{
    match normalizations {
        Some(entries) => {
            let mut i: usize = 0;
            while i < entries.len()
                invariant
                    i <= entries@.len(),
                    doc.wf(),
                    doc@ == entries_normalized(old(doc)@, entries@, i as int),
                decreases entries@.len() - i,
            {
                match entries[i].normalization {
                    Normalization::DatetimeToDate => {
                        let ptr = Pointer::from_str(entries[i].pointer.as_str());
                        normalize_datetime_to_date(doc, &ptr);
                    },
                }
                i = i + 1;
            }
        },
        None => {},
    }
}

/// The largest number that is read as seconds since 1970: the first second
/// of the year 3000. A larger whole number is read as milliseconds.
pub const UNIX_SECONDS_MAX: i64 = 32503680000;

/// The first of the moments that there is.
pub open spec fn first_of(
    a: Option<Instant>,
    b: Option<Instant>,
    c: Option<Instant>,
    d: Option<Instant>,
) -> Option<Instant> {
    if a is Some {
        a
    } else if b is Some {
        b
    } else if c is Some {
        c
    } else {
        d
    }
}

/// What the liberal reader of dates counts for in a text: what it found,
/// but nothing in a text that ends in an offset from UTC of a day or more,
/// about which it is not asked.
pub open spec fn liberal_in(s: Seq<char>, liberal: Option<Instant>) -> Option<Instant> {
    if ends_in_wide_offset(s) {
        None
    } else {
        liberal
    }
}

/// The text that takes the place of a text where a date and time is
/// expected; none where the text stays. A text in the form of RFC 3339
/// stays. Of any other text the moment is taken that the liberal reader
/// found, `liberal`, else the one that chrono reads by the first of three
/// formats that fits; the text stays where there is no such moment, or
/// chrono cannot write it.
pub open spec fn text_rfc3339(s: Seq<char>, liberal: Option<Instant>) -> Option<Seq<char>> {
    if is_date_time(s) {
        None
    } else {
        match first_of(
            liberal_in(s, liberal),
            offset_time_of(s, "%Y-%m-%dT%H:%M:%S%.3f%z"@),
            offset_time_of(s, "%Y-%m-%dT%H:%M:%S%z"@),
            naive_time_of(s, "%Y-%m-%dT%H:%M:%S%.3f"@),
        ) {
            Some(t) => rfc3339_of(t.secs, t.nanos),
            None => None,
        }
    }
}

/// The moment that a whole number stands for: seconds since 1970 up to
/// `UNIX_SECONDS_MAX`, milliseconds above.
pub open spec fn counted_instant(v: i64) -> Instant {
    if v > UNIX_SECONDS_MAX {
        Instant { secs: (v / 1000) as i64, nanos: ((v % 1000) * 1000000) as u32 }
    } else {
        Instant { secs: v, nanos: 0 }
    }
}

/// The moment that a number with a fraction stands for, given in
/// thousandths: so many seconds since 1970, with the milliseconds that the
/// fraction holds. Before 1970 the seconds are the next whole second below,
/// and the milliseconds count up from it.
pub open spec fn fraction_instant(t: i64) -> Instant {
    Instant { secs: (t as int / 1000) as i64, nanos: ((t as int % 1000) * 1000000) as u32 }
}

/// The moment that a JSON number stands for. A whole number counts seconds
/// up to `UNIX_SECONDS_MAX` and milliseconds above; any other number counts
/// seconds, and its fraction is kept down to the millisecond. None for a
/// number too large for 64 bits.
pub open spec fn number_instant(n: NumberView) -> Option<Instant> {
    match n {
        NumberView::Float(text) => match thousandths(text) {
            Some(t) => Some(fraction_instant(t)),
            None => None,
        },
        _ => match number_as_i64(n) {
            Some(v) => Some(counted_instant(v)),
            None => None,
        },
    }
}

/// The text that takes the place of a number where a date and time is
/// expected; none where the number stays.
pub open spec fn number_rfc3339(n: NumberView) -> Option<Seq<char>> {
    match number_instant(n) {
        Some(t) => rfc3339_of(t.secs, t.nanos),
        None => None,
    }
}

/// The text that takes the place of a value where a date and time is
/// expected; none where the value stays.
pub open spec fn value_rfc3339(v: JsonView, liberal: Option<Instant>) -> Option<Seq<char>> {
    match v {
        JsonView::String(s) => text_rfc3339(s, liberal),
        JsonView::Number(n) => number_rfc3339(n),
        _ => None,
    }
}

/// The document with the value that a pointer leads to brought into the
/// form of RFC 3339.
pub open spec fn normalized_at(
    doc: JsonView,
    toks: Seq<TokenView>,
    liberal: Option<Instant>,
) -> JsonView {
    match query(doc, toks) {
        Some(v) => match value_rfc3339(v, liberal) {
            Some(t) => with_text_at(doc, toks, t),
            None => doc,
        },
        None => doc,
    }
}

/// The text that takes the place of `text` where a date and time is
/// expected, given what the liberal reader found in it.
pub fn rfc3339_of_text(text: &str, liberal: Option<Instant>) -> (r: Option<String>)
    ensures
        match r {
            Some(t) => text_rfc3339(text@, liberal) == Some(t@),
            None => text_rfc3339(text@, liberal) is None,
        },
{
    if is_rfc3339_date_time(text) {
        return None;
    }
    let asked: Option<Instant> = if has_wide_offset(text) {
        None
    } else {
        liberal
    };
    let moment = match asked {
        Some(t) => Some(t),
        None => match offset_time(text, "%Y-%m-%dT%H:%M:%S%.3f%z") {
            Some(t) => Some(t),
            None => match offset_time(text, "%Y-%m-%dT%H:%M:%S%z") {
                Some(t) => Some(t),
                None => naive_time(text, "%Y-%m-%dT%H:%M:%S%.3f"),
            },
        },
    };
    match moment {
        Some(t) => rfc3339_text(t.secs, t.nanos),
        None => None,
    }
}

/// The moment that a number with a fraction stands for, given in thousandths.
fn instant_of_thousandths(t: i64) -> (r: Instant)
    ensures
        r == fraction_instant(t),
{
    if t >= 0 {
        let secs: i64 = t / 1000;
        let millis: i64 = t % 1000;
        Instant { secs, nanos: (millis * 1000000) as u32 }
    } else {
        let below: i64 = -(t + 1);
        let q: i64 = below / 1000;
        let rest: i64 = below % 1000;
        let secs: i64 = -q - 1;
        let millis: i64 = 999 - rest;
        proof {
            assert(t as int == 1000 * (secs as int) + millis as int);
            vstd::arithmetic::div_mod::lemma_fundamental_div_mod_converse(
                t as int,
                1000,
                secs as int,
                millis as int,
            );
        }
        Instant { secs, nanos: (millis * 1000000) as u32 }
    }
}

/// The moment that a number stands for where a date and time is expected.
pub fn instant_of_number(n: &Number) -> (r: Option<Instant>)
    ensures
        r == number_instant(n@),
{
    match n {
        Number::Float(text) => match thousandths_of(text.as_str()) {
            Some(t) => Some(instant_of_thousandths(t)),
            None => None,
        },
        _ => match n.as_i64() {
            Some(v) => {
                if v > UNIX_SECONDS_MAX {
                    let secs: i64 = v / 1000;
                    let millis: i64 = v % 1000;
                    Some(Instant { secs, nanos: (millis * 1000000) as u32 })
                } else {
                    Some(Instant { secs: v, nanos: 0 })
                }
            },
            None => None,
        },
    }
}

/// The text that takes the place of a number where a date and time is expected.
pub fn rfc3339_of_number(n: &Number) -> (r: Option<String>)
    ensures
        match r {
            Some(t) => number_rfc3339(n@) == Some(t@),
            None => number_rfc3339(n@) is None,
        },
{
    match instant_of_number(n) {
        Some(t) => rfc3339_text(t.secs, t.nanos),
        None => None,
    }
}

/// Brings the value that a pointer leads to into the form of RFC 3339, and
/// says what the liberal reader found, if it was asked.
fn normalize_value(doc: &mut Json, ptr: &Pointer) -> (liberal: Ghost<Option<Instant>>)
    requires
        old(doc).wf(),
    ensures
        final(doc)@ == normalized_at(old(doc)@, ptr@, liberal@),
        final(doc).wf(),
{
    let ghost mut found: Option<Instant> = None;
    let text: Option<String> = match ptr.query(doc) {
        Some(Json::String(s)) => {
            if is_rfc3339_date_time(s.as_str()) {
                None
            } else {
                let liberal = if has_wide_offset(s.as_str()) {
                    None
                } else {
                    liberal_time(s.as_str())
                };
                proof {
                    found = liberal;
                }
                rfc3339_of_text(s.as_str(), liberal)
            }
        },
        Some(Json::Number(n)) => rfc3339_of_number(n),
        _ => None,
    };
    match text {
        Some(t) => {
            put_text(doc, ptr, t);
        },
        None => {},
    }
    Ghost(found)
}

/// Brings the value that a pointer leads to into the form of RFC 3339: a
/// text that is not in that form already, or a number. The liberal reader of
/// dates is asked about such a text, and what it finds is not a matter of the
/// text alone: the document is what `normalized_at` gives for one of the
/// things that it can find.
pub fn normalize_to_rfc3339(doc: &mut Json, ptr: &Pointer)
    requires
        old(doc).wf(),
    ensures
        exists|liberal: Option<Instant>|
            final(doc)@ == #[trigger] normalized_at(old(doc)@, ptr@, liberal),
        final(doc).wf(),
{
    let _ = normalize_value(doc, ptr);
}

/// A value that is in the form of RFC 3339 already stays as it is, whatever
/// the liberal reader would find in it.
pub proof fn lemma_rfc3339_stays(doc: JsonView, toks: Seq<TokenView>, liberal: Option<Instant>)
    requires
        query(doc, toks) matches Some(JsonView::String(s)) && is_date_time(s),
    ensures
        normalized_at(doc, toks, liberal) == doc,
{
}

/// The pointer of a subschema, if it expects a date and time.
pub open spec fn own_ptr(m: Members, ptr: Seq<char>) -> Seq<Seq<char>> {
    if obj_get(m, "format"@) == Some(JsonView::String("date-time"@)) {
        seq![ptr]
    } else {
        Seq::empty()
    }
}

/// The pointers under which a schema expects a date and time, in the order
/// in which its subschemas are walked: an object itself, then the values
/// under its `properties` in the order of their keys, then its `items`. The
/// pointer of a property is the pointer of its object, `/` and the name of
/// the property; that of the items of an array is the pointer of the array
/// and `/*`.
pub open spec fn date_time_ptrs(schema: JsonView, ptr: Seq<char>) -> Seq<Seq<char>>
    decreases schema, 0int,
{
    match schema {
        JsonView::Object(m) => own_ptr(m, ptr) + member_ptrs(
            m,
            key_pos(m, "properties"@),
            "properties"@,
            ptr,
        ) + member_ptrs(m, key_pos(m, "items"@), "items"@, ptr),
        _ => Seq::empty(),
    }
}

/// The pointers that the member at place `i` adds, if it is the member
/// `key`, and `key` is `properties` or `items`.
pub open spec fn member_ptrs(m: Members, i: int, key: Seq<char>, ptr: Seq<char>) -> Seq<Seq<char>>
    decreases m, 0int,
{
    if 0 <= i < m.len() && m[i].0 == key {
        if m[i].0 == "properties"@ {
            match m[i].1 {
                JsonView::Object(props) => props_ptrs(props, props.len() as int, ptr),
                _ => Seq::empty(),
            }
        } else if m[i].0 == "items"@ {
            date_time_ptrs(m[i].1, items_ptr(ptr))
        } else {
            Seq::empty()
        }
    } else {
        Seq::empty()
    }
}

/// The pointers that the first `n` properties add.
pub open spec fn props_ptrs(props: Members, n: int, ptr: Seq<char>) -> Seq<Seq<char>>
    decreases props, n,
{
    if n <= 0 || n > props.len() {
        Seq::empty()
    } else {
        props_ptrs(props, n - 1, ptr) + date_time_ptrs(
            props[n - 1].1,
            property_ptr(ptr, props[n - 1].0),
        )
    }
}

/// Appends to `out` what `more` holds.
fn append_texts(out: &mut Vec<String>, more: Vec<String>)
    ensures
        texts(final(out)@) == texts(old(out)@) + texts(more@),
{
    let mut i: usize = 0;
    while i < more.len()
        invariant
            i <= more@.len(),
            texts(out@) == texts(old(out)@) + texts(more@).take(i as int),
        decreases more@.len() - i,
    {
        let ghost before = texts(out@);
        out.push(more[i].clone());
        assert(texts(out@) =~= before.push(more@[i as int]@));
        assert(texts(out@) =~= texts(old(out)@) + texts(more@).take(i + 1));
        i = i + 1;
    }
    assert(texts(more@).take(more@.len() as int) =~= texts(more@));
}

/// The pointers under which a schema, found at `ptr`, expects a date and time.
pub fn date_time_pointers(schema: &Json, ptr: &str) -> (r: Vec<String>)
    requires
        schema.wf(),
    ensures
        texts(r@) == date_time_ptrs(schema@, ptr@),
    decreases schema,
{
    let mut out: Vec<String> = Vec::new();
    assert(texts(out@) =~= Seq::<Seq<char>>::empty());
    match schema {
        Json::Object(members) => {
            let ghost m = members_view(members@);
            proof {
                lemma_view_object(*members);
                lemma_wf_object(m);
                lemma_key_pos(m, "properties"@);
                lemma_key_pos(m, "items"@);
            }
            let expects = match get_member(members, "format") {
                Some(f) => f.is_string("date-time"),
                None => false,
            };
            if expects {
                out.push(owned(ptr));
                assert(texts(out@) =~= seq![ptr@]);
            }
            assert(texts(out@) == own_ptr(m, ptr@));
            let (p, found) = find_key(members, "properties");
            if found {
                assert(m[p as int].0 == "properties"@);
                assert(m[p as int].1 == members@[p as int].1@);
                proof {
                    lemma_view_kind(members@[p as int].1);
                }
                match &members[p].1 {
                    Json::Object(props) => {
                        let ghost pv = members_view(props@);
                        proof {
                            lemma_view_object(*props);
                            lemma_get_wf(m, "properties"@);
                            lemma_wf_object(pv);
                        }
                        let ghost head = texts(out@);
                        let mut j: usize = 0;
                        while j < props.len()
                            invariant
                                j <= props@.len(),
                                pv == members_view(props@),
                                wf_members(pv),
                                forall|k: int|
                                    0 <= k < props@.len() ==> decreases_to!(schema => (
                                    #[trigger] props@[k]).1),
                                texts(out@) == head + props_ptrs(pv, j as int, ptr@),
                            decreases props@.len() - j,
                        {
                            let mut child_ptr = owned(ptr);
                            child_ptr.push('/');
                            child_ptr.append(props[j].0.as_str());
                            assert(pv[j as int].0 == props@[j as int].0@);
                            assert(pv[j as int].1 == props@[j as int].1@);
                            assert(wf_json(pv[j as int].1));
                            let more = date_time_pointers(&props[j].1, child_ptr.as_str());
                            append_texts(&mut out, more);
                            assert(texts(out@) =~= head + props_ptrs(pv, j + 1, ptr@));
                            j = j + 1;
                        }
                        assert(m[p as int].1 == JsonView::Object(pv));
                        assert(member_ptrs(m, p as int, "properties"@, ptr@) == props_ptrs(
                            pv,
                            pv.len() as int,
                            ptr@,
                        ));
                    },
                    _ => {},
                }
            } else {
                assert(p < m.len() ==> m[p as int].0 != "properties"@);
            }
            assert(texts(out@) =~= own_ptr(m, ptr@) + member_ptrs(
                m,
                key_pos(m, "properties"@),
                "properties"@,
                ptr@,
            ));
            let ghost mid = texts(out@);
            let (q, found) = find_key(members, "items");
            if found {
                assert(m[q as int].0 == "items"@);
                assert(m[q as int].1 == members@[q as int].1@);
                proof {
                    reveal_strlit("properties");
                    reveal_strlit("items");
                    assert("properties"@.len() != "items"@.len());
                    lemma_get_wf(m, "items"@);
                }
                let mut child_ptr = owned(ptr);
                child_ptr.push('/');
                child_ptr.push('*');
                let more = date_time_pointers(&members[q].1, child_ptr.as_str());
                append_texts(&mut out, more);
                assert(texts(out@) == mid + member_ptrs(m, q as int, "items"@, ptr@));
            } else {
                proof {
                    reveal_strlit("properties");
                    reveal_strlit("items");
                    assert("properties"@.len() != "items"@.len());
                }
                assert(q < m.len() ==> m[q as int].0 != "items"@);
                assert(texts(out@) =~= mid + member_ptrs(m, q as int, "items"@, ptr@));
            }
            assert(texts(out@) =~= date_time_ptrs(schema@, ptr@));
        },
        _ => {},
    }
    out
}

/// The token that stands for every element of an array.
pub open spec fn star() -> TokenView {
    TokenView::Property(seq!['*'])
}

/// The pointers into a document that a pointer with stars stands for: at
/// each star, one for every element of the array that the pointer has led
/// to, in their order; none where it has led to no array. `prefix` is the
/// part of the pointer that has been walked and `rest` the part to walk.
pub open spec fn expanded(doc: JsonView, prefix: Seq<TokenView>, rest: Seq<TokenView>) -> Seq<
    Seq<TokenView>,
>
    decreases rest.len(), 0int,
{
    if rest.len() == 0 {
        seq![prefix]
    } else if rest[0] == star() {
        match query(doc, prefix) {
            Some(JsonView::Array(items)) => expanded_items(
                doc,
                prefix,
                rest.drop_first(),
                items.len() as int,
            ),
            _ => Seq::empty(),
        }
    } else {
        expanded(doc, prefix.push(rest[0]), rest.drop_first())
    }
}

/// The pointers that a star stands for in the first `n` elements of an array.
pub open spec fn expanded_items(
    doc: JsonView,
    prefix: Seq<TokenView>,
    rest: Seq<TokenView>,
    n: int,
) -> Seq<Seq<TokenView>>
    decreases rest.len(), 1int, n,
{
    if n <= 0 {
        Seq::empty()
    } else {
        expanded_items(doc, prefix, rest, n - 1) + expanded(
            doc,
            prefix.push(TokenView::Index((n - 1) as usize)),
            rest,
        )
    }
}

/// The views of a run of pointers.
pub open spec fn pointers_view(v: Seq<Pointer>) -> Seq<Seq<TokenView>> {
    Seq::new(v.len(), |i: int| v[i]@)
}

/// The pointer with one more token.
fn extended(prefix: &Pointer, token: Token) -> (r: Pointer)
    ensures
        r@ == prefix@.push(token@),
{
    let mut r = prefix.duplicate();
    let ghost tv = token@;
    r.0.push(token);
    assert(r@ =~= prefix@.push(tv));
    r
}

/// Appends to `out` the pointers that `ptr`, from token `from` on, stands
/// for after `prefix`.
fn expand_into(doc: &Json, prefix: Pointer, ptr: &Pointer, from: usize, out: &mut Vec<Pointer>)
    requires
        doc.wf(),
        from <= ptr.0@.len(),
    ensures
        pointers_view(final(out)@) == pointers_view(old(out)@) + expanded(
            doc@,
            prefix@,
            ptr@.skip(from as int),
        ),
    decreases ptr.0@.len() - from, 0int,
{
    let ghost rest = ptr@.skip(from as int);
    let ghost before = pointers_view(out@);
    if from == ptr.0.len() {
        let ghost pv = prefix@;
        out.push(prefix);
        assert(pointers_view(out@) =~= before + seq![pv]);
        return ;
    }
    proof {
        assert(rest[0] == ptr.0@[from as int]@);
        assert(rest.drop_first() =~= ptr@.skip(from + 1));
    }
    let is_star = match &ptr.0[from] {
        Token::Property(p) => {
            let r = crate::text::same_text(p.as_str(), "*");
            proof {
                reveal_strlit("*");
                assert("*"@ =~= seq!['*']);
            }
            r
        },
        _ => false,
    };
    if is_star {
        match prefix.query(doc) {
            Some(Json::Array(items)) => {
                proof {
                    lemma_view_array(*items);
                }
                let n: usize = items.len();
                let total: usize = ptr.0.len();
                let ghost tail = rest.drop_first();
                let mut i: usize = 0;
                assert(pointers_view(out@) =~= before + expanded_items(doc@, prefix@, tail, 0));
                while i < n
                    invariant
                        i <= n,
                        from < total,
                        total == ptr.0@.len(),
                        tail == ptr@.skip(from + 1),
                        pointers_view(out@) == before + expanded_items(
                            doc@,
                            prefix@,
                            tail,
                            i as int,
                        ),
                        doc.wf(),
                    decreases n - i,
                {
                    let next = extended(&prefix, Token::Index(i));
                    expand_into(doc, next, ptr, from + 1, out);
                    assert(pointers_view(out@) =~= before + expanded_items(
                        doc@,
                        prefix@,
                        tail,
                        i + 1,
                    ));
                    i = i + 1;
                }
            },
            other => {
                proof {
                    match other {
                        Some(v) => {
                            lemma_view_kind(*v);
                        },
                        None => {},
                    }
                    assert(pointers_view(out@) =~= before + Seq::<Seq<TokenView>>::empty());
                }
            },
        }
    } else {
        let next = extended(&prefix, ptr.0[from].duplicate());
        expand_into(doc, next, ptr, from + 1, out);
    }
}

/// The pointers into a document at which a schema expects a date and
/// time: those of the first `n` pointers of the schema, each with its stars
/// resolved against the document.
pub open spec fn places(doc: JsonView, ptrs: Seq<Seq<char>>, n: int) -> Seq<Seq<TokenView>>
    decreases n,
{
    if n <= 0 || n > ptrs.len() {
        Seq::empty()
    } else {
        places(doc, ptrs, n - 1) + expanded(doc, Seq::empty(), parse_pointer(ptrs[n - 1]))
    }
}

/// The pointers into a document at which a schema expects a date and time.
pub open spec fn date_time_places(doc: JsonView, schema: JsonView) -> Seq<Seq<TokenView>> {
    places(
        doc,
        date_time_ptrs(schema, Seq::empty()),
        date_time_ptrs(schema, Seq::empty()).len() as int,
    )
}

/// Finds the places of a document at which a schema expects a date and time.
pub fn find_date_time_places(doc: &Json, schema: &Json) -> (r: Vec<Pointer>)
    requires
        doc.wf(),
        schema.wf(),
    ensures
        pointers_view(r@) == date_time_places(doc@, schema@),
{
    let ptrs = date_time_pointers(schema, "");
    proof {
        reveal_strlit("");
        assert(""@ =~= Seq::<char>::empty());
    }
    let ghost pt = texts(ptrs@);
    let mut out: Vec<Pointer> = Vec::new();
    assert(pointers_view(out@) =~= Seq::<Seq<TokenView>>::empty());
    let mut i: usize = 0;
    while i < ptrs.len()
        invariant
            i <= ptrs@.len(),
            pt == texts(ptrs@),
            doc.wf(),
            pointers_view(out@) == places(doc@, pt, i as int),
        decreases ptrs@.len() - i,
    {
        let ptr = Pointer::from_str(ptrs[i].as_str());
        assert(pt[i as int] == ptrs@[i as int]@);
        assert(ptr@.skip(0) =~= ptr@);
        expand_into(doc, Pointer::empty(), &ptr, 0, &mut out);
        i = i + 1;
    }
    out
}

/// The document after the values at the first `n` places are brought into
/// the form of RFC 3339, given what the liberal reader found at each.
pub open spec fn normalized_upto(
    doc: JsonView,
    at: Seq<Seq<TokenView>>,
    found: Seq<Option<Instant>>,
    n: int,
) -> JsonView
    decreases n,
{
    if n <= 0 || n > at.len() || n > found.len() {
        doc
    } else {
        normalized_at(normalized_upto(doc, at, found, n - 1), at[n - 1], found[n - 1])
    }
}

/// Brings into the form of RFC 3339 every value of a document at which a
/// schema expects a date and time, in the order of `date_time_places`. The
/// liberal reader of dates is asked about the texts among them, and what it
/// finds is not a matter of the text alone: the document is what
/// `normalized_upto` gives for what it found at each place.
pub fn automatic_normalizations(doc: &mut Json, schema: &Json)
    requires
        old(doc).wf(),
        schema.wf(),
    ensures
        final(doc).wf(),
        exists|found: Seq<Option<Instant>>|
            found.len() == date_time_places(old(doc)@, schema@).len() && final(doc)@
                == #[trigger] normalized_upto(
                old(doc)@,
                date_time_places(old(doc)@, schema@),
                found,
                found.len() as int,
            ),
{
    let at = find_date_time_places(doc, schema);
    let ghost places = pointers_view(at@);
    let ghost mut found: Seq<Option<Instant>> = Seq::empty();
    let mut i: usize = 0;
    while i < at.len()
        invariant
            i <= at@.len(),
            places == pointers_view(at@),
            doc.wf(),
            found.len() == i,
            doc@ == normalized_upto(old(doc)@, places, found, i as int),
        decreases at@.len() - i,
    {
        let ghost before = found;
        let liberal = normalize_value(doc, &at[i]);
        proof {
            found = found.push(liberal@);
            assert(places[i as int] == at@[i as int]@);
            lemma_normalized_upto_prefix(old(doc)@, places, before, found, i as int);
        }
        i = i + 1;
    }
}

/// What stands in `found` from place `n` on does not matter to the first `n` places.
pub proof fn lemma_normalized_upto_prefix(
    doc: JsonView,
    at: Seq<Seq<TokenView>>,
    a: Seq<Option<Instant>>,
    b: Seq<Option<Instant>>,
    n: int,
)
    requires
        0 <= n <= a.len(),
        n <= b.len(),
        forall|i: int| 0 <= i < n ==> a[i] == b[i],
    ensures
        normalized_upto(doc, at, a, n) == normalized_upto(doc, at, b, n),
    decreases n,
{
    if n > 0 && n <= at.len() {
        lemma_normalized_upto_prefix(doc, at, a, b, n - 1);
    }
}

/// Whether a document holds a date and time in the form of RFC 3339 at
/// every one of the places.
pub open spec fn all_rfc3339(doc: JsonView, at: Seq<Seq<TokenView>>) -> bool {
    forall|k: int|
        0 <= k < at.len() ==> (query(doc, #[trigger] at[k]) matches Some(JsonView::String(s))
            && is_date_time(s))
}

/// A document whose dates and times are all in the form of RFC 3339
/// already stays as it is, whatever the liberal reader would find in them.
pub proof fn lemma_all_rfc3339_stay(
    doc: JsonView,
    at: Seq<Seq<TokenView>>,
    found: Seq<Option<Instant>>,
    n: int,
)
    requires
        all_rfc3339(doc, at),
    ensures
        normalized_upto(doc, at, found, n) == doc,
    decreases n,
{
    if n > 0 && n <= at.len() && n <= found.len() {
        lemma_all_rfc3339_stay(doc, at, found, n - 1);
        lemma_rfc3339_stays(doc, at[n - 1], found[n - 1]);
    }
}

} // verus!
