//! JSON Schemas made fit for the runtime: keys made required and never null,
//! annotations of the connector's vendor removed, enumerations replaced by
//! the types of their values.

use crate::errors::{describe, Error};
use crate::json::{
    find_key, get_member, has_key, insert_member, items_view, key_pos, lemma_get_insert_other,
    lemma_get_remove_other, lemma_get_wf, lemma_insert_wf, lemma_remove_wf, lemma_view_array,
    lemma_view_object, lemma_wf_array, lemma_wf_object, members_view, obj_get, obj_insert,
    obj_remove, remove_member, wf_json, wf_members, Json, JsonView, Members,
};
use crate::pointer::{
    laid_down, lay_down, parse_pointer, query, Edit, EditView, Pointer, Token, TokenView,
};
use crate::text::{duplicate_texts, owned, texts};
use vstd::prelude::*;

verus! {

/// The place of the first `"null"` among the items.
pub open spec fn first_null(items: Seq<JsonView>) -> Option<int>
    decreases items.len(),
{
    if items.len() == 0 {
        None
    } else if items[0] == JsonView::String("null"@) {
        Some(0)
    } else {
        match first_null(items.drop_first()) {
            Some(i) => Some(i + 1),
            None => None,
        }
    }
}

/// The items without the one at place `i`, whose place the last one takes.
pub open spec fn swap_removed(items: Seq<JsonView>, i: int) -> Seq<JsonView> {
    items.update(i, items.last()).drop_last()
}

/// The items of a `type` without the first `"null"`.
pub open spec fn without_null(items: Seq<JsonView>) -> Seq<JsonView> {
    match first_null(items) {
        Some(i) => swap_removed(items, i),
        None => items,
    }
}

/// The members of a subschema with their `type` cleared of `"null"`, where
/// it is a list; a list of one type left over is replaced by that type if
/// `collapse` is set.
pub open spec fn type_fixed(m: Members, collapse: bool) -> Members {
    match obj_get(m, "type"@) {
        Some(JsonView::Array(items)) => {
            let left = without_null(items);
            if collapse && left.len() == 1 {
                obj_insert(m, "type"@, left[0])
            } else {
                obj_insert(m, "type"@, JsonView::Array(left))
            }
        },
        _ => m,
    }
}

/// The members of a subschema with `prop` among its `required`. There are
/// none where `required` is there and is no list.
pub open spec fn with_required(m: Members, prop: Seq<char>) -> Option<Members> {
    match obj_get(m, "required"@) {
        None => Some(obj_insert(m, "required"@, JsonView::Array(seq![JsonView::String(prop)]))),
        Some(JsonView::Array(items)) => if items.contains(JsonView::String(prop)) {
            Some(m)
        } else {
            Some(obj_insert(m, "required"@, JsonView::Array(items.push(JsonView::String(prop)))))
        },
        Some(_) => None,
    }
}

/// Whether a subschema is one that the fixing of keys does not touch.
pub open spec fn composed(m: Members) -> bool {
    obj_get(m, "allOf"@) is Some || obj_get(m, "anyOf"@) is Some || obj_get(m, "not"@) is Some
}

/// The members of the subschema of a property that is a key: their `type`
/// is cleared of `"null"`, and a list of one type left over is replaced by
/// that type. A subschema composed of others stays as it is.
pub open spec fn prop_fixed(ps: Members) -> Members {
    if composed(ps) {
        ps
    } else {
        type_fixed(ps, true)
    }
}

/// The members of an object schema in which the property `prop` is
/// required and neither the object nor the property may be null; the
/// subschema of a property that is composed of others stays as it is. There
/// are none where `required` is no list, or `properties` does not hold
/// `prop` as an object.
pub open spec fn keyed(m: Members, prop: Seq<char>) -> Option<Members> {
    match with_required(m, prop) {
        Some(m1) => {
            let m2 = type_fixed(m1, false);
            match obj_get(m2, "properties"@) {
                Some(JsonView::Object(props)) => match obj_get(props, prop) {
                    Some(JsonView::Object(ps)) => Some(
                        obj_insert(
                            m2,
                            "properties"@,
                            JsonView::Object(
                                obj_insert(props, prop, JsonView::Object(prop_fixed(ps))),
                            ),
                        ),
                    ),
                    _ => None,
                },
                _ => None,
            }
        },
        None => None,
    }
}

/// The pointer that leads through these properties.
pub open spec fn property_path(path: Seq<Seq<char>>) -> Seq<TokenView> {
    path.map_values(|p: Seq<char>| TokenView::Property(p))
}

/// Where the members to be fixed lie: at the subschema itself, or, where it
/// refers to a definition, at that definition among the `$defs` of the
/// document. There is no such place where the reference is no string.
pub open spec fn fix_place(m: Members, path: Seq<Seq<char>>) -> Option<Seq<Seq<char>>> {
    match obj_get(m, "$ref"@) {
        None => Some(path),
        Some(JsonView::String(name)) => Some(seq!["$defs"@, name]),
        Some(_) => None,
    }
}

/// What one step of fixing a key comes to.
pub ghost enum Step {
    /// The schema with the property fixed.
    Fixed(JsonView),
    /// The subschema is composed of others: nothing more is fixed.
    Composed,
    /// The schema cannot hold the key.
    Invalid,
}

/// One step of fixing a key: in the subschema that `path` leads to, the
/// property `prop` is made required and not null.
pub open spec fn fix_step(doc: JsonView, path: Seq<Seq<char>>, prop: Seq<char>) -> Step {
    match query(doc, property_path(path)) {
        Some(JsonView::Object(m)) => {
            if composed(m) {
                Step::Composed
            } else {
                match fix_place(m, path) {
                    Some(place) => match query(doc, property_path(place)) {
                        Some(JsonView::Object(target)) => match keyed(target, prop) {
                            Some(fixed) => match laid_down(
                                doc,
                                property_path(place),
                                EditView::Put(JsonView::Object(fixed)),
                            ) {
                                Some(d) => Step::Fixed(d),
                                None => Step::Invalid,
                            },
                            None => Step::Invalid,
                        },
                        _ => Step::Invalid,
                    },
                    None => Step::Invalid,
                }
            }
        },
        _ => Step::Invalid,
    }
}

/// What the fixing of keys comes to.
pub ghost enum Fix {
    /// Every key was fixed.
    Done(JsonView),
    /// A subschema composed of others was met, and the fixing ended there.
    Stopped(JsonView),
    /// The schema cannot hold one of the keys.
    Invalid,
}

/// The fixing of one key from the subschema at `path` on, along the tokens
/// left of its pointer. A token that is no property cannot be fixed.
pub open spec fn fix_key(doc: JsonView, path: Seq<Seq<char>>, toks: Seq<TokenView>) -> Fix
    decreases toks.len(),
{
    if toks.len() == 0 {
        Fix::Done(doc)
    } else {
        match toks[0] {
            TokenView::Property(prop) => match fix_step(doc, path, prop) {
                Step::Fixed(d) => fix_key(
                    d,
                    path.push("properties"@).push(prop),
                    toks.drop_first(),
                ),
                Step::Composed => Fix::Stopped(doc),
                Step::Invalid => Fix::Invalid,
            },
            _ => Fix::Invalid,
        }
    }
}

/// The fixing of keys, one after the other.
pub open spec fn fix_keys(doc: JsonView, keys: Seq<Seq<char>>) -> Fix
    decreases keys.len(),
{
    if keys.len() == 0 {
        Fix::Done(doc)
    } else {
        match fix_key(doc, Seq::empty(), parse_pointer(keys[0])) {
            Fix::Done(d) => fix_keys(d, keys.drop_first()),
            other => other,
        }
    }
}

/// The first `"null"` is a `"null"`, and where there is none, no item is.
pub proof fn lemma_first_null(items: Seq<JsonView>)
    ensures
        match first_null(items) {
            Some(i) => 0 <= i < items.len() && items[i] == JsonView::String("null"@),
            None => forall|j: int| 0 <= j < items.len() ==> items[j] != JsonView::String("null"@),
        },
    decreases items.len(),
{
    if items.len() > 0 && items[0] != JsonView::String("null"@) {
        let rest = items.drop_first();
        lemma_first_null(rest);
        if first_null(rest) is None {
            assert forall|j: int| 0 <= j < items.len() implies items[j] != JsonView::String(
                "null"@,
            ) by {
                if j > 0 {
                    assert(items[j] == rest[j - 1]);
                }
            }
        }
    }
}

/// Copies of the items.
fn duplicate_items(items: &Vec<Json>) -> (r: Vec<Json>)
    ensures
        items_view(r@) == items_view(items@),
{
    let mut out: Vec<Json> = Vec::new();
    let mut i: usize = 0;
    while i < items.len()
        invariant
            i <= items@.len(),
            out@.len() == i,
            forall|j: int| 0 <= j < i ==> (#[trigger] out@[j])@ == items@[j]@,
        decreases items@.len() - i,
    {
        out.push(items[i].duplicate());
        i = i + 1;
    }
    assert(items_view(out@) =~= items_view(items@));
    out
}

/// Copies of the members.
fn duplicate_members(members: &Vec<(String, Json)>) -> (r: Vec<(String, Json)>)
    ensures
        members_view(r@) == members_view(members@),
{
    let mut out: Vec<(String, Json)> = Vec::new();
    let mut i: usize = 0;
    while i < members.len()
        invariant
            i <= members@.len(),
            out@.len() == i,
            forall|j: int|
                0 <= j < i ==> (#[trigger] out@[j]).0@ == members@[j].0@ && out@[j].1@
                    == members@[j].1@,
        decreases members@.len() - i,
    {
        out.push((members[i].0.clone(), members[i].1.duplicate()));
        i = i + 1;
    }
    assert(members_view(out@) =~= members_view(members@));
    out
}

/// The place of the first `"null"` among the items.
fn null_place(items: &Vec<Json>) -> (r: Option<usize>)
    ensures
        match r {
            Some(i) => first_null(items_view(items@)) == Some(i as int) && i < items@.len(),
            None => first_null(items_view(items@)) is None,
        },
{
    let ghost v = items_view(items@);
    let mut i: usize = 0;
    proof {
        assert(v.skip(0) =~= v);
    }
    while i < items.len()
        invariant
            i <= items@.len(),
            v == items_view(items@),
            first_null(v) == match first_null(v.skip(i as int)) {
                Some(k) => Some(k + i),
                None => None,
            },
        decreases items@.len() - i,
    {
        proof {
            assert(v.skip(i as int)[0] == items@[i as int]@);
            assert(v.skip(i as int).drop_first() =~= v.skip(i + 1));
        }
        if items[i].is_string("null") {
            return Some(i);
        }
        i = i + 1;
    }
    None
}

/// The `type` of a subschema cleared of `"null"`.
fn fix_type(members: &mut Vec<(String, Json)>, collapse: bool)
    requires
        wf_members(members_view(old(members)@)),
    ensures
        members_view(final(members)@) == type_fixed(members_view(old(members)@), collapse),
        wf_members(members_view(final(members)@)),
{
    let ghost m = members_view(members@);
    let fixed: Option<Json> = match get_member(members, "type") {
        Some(Json::Array(items)) => {
            proof {
                lemma_view_array(*items);
                lemma_get_wf(m, "type"@);
                lemma_first_null(items_view(items@));
            }
            let mut left = duplicate_items(items);
            match null_place(items) {
                Some(i) => {
                    let ghost before = items_view(left@);
                    let _ = left.swap_remove(i);
                    assert(items_view(left@) =~= swap_removed(before, i as int));
                },
                None => {},
            }
            let ghost lv = items_view(left@);
            assert(lv == without_null(items_view(items@)));
            assert forall|j: int| 0 <= j < lv.len() implies wf_json(#[trigger] lv[j]) by {
                let src = items_view(items@);
                lemma_wf_array(src);
                match first_null(src) {
                    Some(i) => {
                        if j == i {
                            assert(lv[j] == src[src.len() - 1]);
                            assert(wf_json(src[src.len() - 1]));
                        } else {
                            assert(lv[j] == src[j]);
                            assert(wf_json(src[j]));
                        }
                    },
                    None => {
                        assert(wf_json(src[j]));
                    },
                }
            }
            if collapse && left.len() == 1 {
                let mut only = Json::Null;
                std::mem::swap(&mut left[0], &mut only);
                assert(only@ == lv[0]);
                Some(only)
            } else {
                proof {
                    lemma_view_array(left);
                }
                Some(Json::Array(left))
            }
        },
        _ => None,
    };
    match fixed {
        Some(v) => {
            proof {
                lemma_insert_wf(m, "type"@, v@);
            }
            insert_member(members, owned("type"), v);
        },
        None => {},
    }
}

/// Puts `prop` among the `required` of a subschema. Fails where
/// `required` is there and is no list.
fn add_required(members: &mut Vec<(String, Json)>, prop: &str) -> (ok: bool)
    requires
        wf_members(members_view(old(members)@)),
    ensures
        ok <==> with_required(members_view(old(members)@), prop@) is Some,
        ok ==> members_view(final(members)@) == with_required(
            members_view(old(members)@),
            prop@,
        )->Some_0,
        wf_members(members_view(final(members)@)),
{
    let ghost m = members_view(members@);
    let update: Option<Json> = match get_member(members, "required") {
        None => {
            let mut items: Vec<Json> = Vec::new();
            items.push(Json::string(prop));
            proof {
                lemma_view_array(items);
                assert(items_view(items@) =~= seq![JsonView::String(prop@)]);
            }
            Some(Json::Array(items))
        },
        Some(Json::Array(items)) => {
            proof {
                lemma_view_array(*items);
                lemma_get_wf(m, "required"@);
            }
            let ghost iv = items_view(items@);
            let mut found = false;
            let mut i: usize = 0;
            while i < items.len() && !found
                invariant
                    i <= items@.len(),
                    iv == items_view(items@),
                    found ==> iv.contains(JsonView::String(prop@)),
                    !found ==> forall|j: int| 0 <= j < i ==> iv[j] != JsonView::String(prop@),
                decreases items@.len() - i + (if found { 0int } else { 1int }),
            {
                if items[i].is_string(prop) {
                    assert(iv[i as int] == JsonView::String(prop@));
                    found = true;
                } else {
                    i = i + 1;
                }
            }
            if found {
                return true;
            }
            let mut more = duplicate_items(items);
            more.push(Json::string(prop));
            proof {
                lemma_view_array(more);
                assert(items_view(more@) =~= iv.push(JsonView::String(prop@)));
                assert forall|j: int| 0 <= j < items_view(more@).len() implies wf_json(
                    #[trigger] items_view(more@)[j],
                ) by {
                    if j < iv.len() {
                        assert(items_view(more@)[j] == iv[j]);
                    }
                }
            }
            Some(Json::Array(more))
        },
        Some(_) => {
            return false;
        },
    };
    match update {
        Some(v) => {
            proof {
                lemma_insert_wf(m, "required"@, v@);
            }
            insert_member(members, owned("required"), v);
            true
        },
        None => false,
    }
}

/// Whether a subschema is composed of others.
fn is_composed(members: &Vec<(String, Json)>) -> (r: bool)
    requires
        crate::json::sorted_keys(members_view(members@)),
    ensures
        r == composed(members_view(members@)),
{
    let all_of = get_member(members, "allOf").is_some();
    let any_of = get_member(members, "anyOf").is_some();
    let not = get_member(members, "not").is_some();
    all_of || any_of || not
}

/// Makes `prop` a required property that cannot be null.
fn key_members(members: Vec<(String, Json)>, prop: &str) -> (r: Option<Vec<(String, Json)>>)
    requires
        wf_members(members_view(members@)),
    ensures
        match r {
            Some(v) => keyed(members_view(members@), prop@) == Some(members_view(v@))
                && wf_members(members_view(v@)),
            None => keyed(members_view(members@), prop@) is None,
        },
{
    let mut members = members;
    if !add_required(&mut members, prop) {
        return None;
    }
    fix_type(&mut members, false);
    let ghost m2 = members_view(members@);
    let mut props: Vec<(String, Json)> = match get_member(&members, "properties") {
        Some(Json::Object(props)) => {
            proof {
                lemma_view_object(*props);
                lemma_get_wf(m2, "properties"@);
            }
            duplicate_members(props)
        },
        _ => {
            return None;
        },
    };
    let ghost pv = members_view(props@);
    let mut schema: Vec<(String, Json)> = match get_member(&props, prop) {
        Some(Json::Object(ps)) => {
            proof {
                lemma_view_object(*ps);
                lemma_get_wf(pv, prop@);
            }
            duplicate_members(ps)
        },
        _ => {
            return None;
        },
    };
    if !is_composed(&schema) {
        fix_type(&mut schema, true);
    }
    proof {
        lemma_view_object(schema);
        lemma_insert_wf(pv, prop@, JsonView::Object(members_view(schema@)));
    }
    insert_member(&mut props, owned(prop), Json::Object(schema));
    proof {
        lemma_view_object(props);
        lemma_insert_wf(m2, "properties"@, JsonView::Object(members_view(props@)));
    }
    insert_member(&mut members, owned("properties"), Json::Object(props));
    Some(members)
}

/// The pointer that leads through these properties.
fn property_pointer(path: &Vec<String>) -> (r: Pointer)
    ensures
        r@ == property_path(texts(path@)),
{
    let mut tokens: Vec<Token> = Vec::new();
    let mut i: usize = 0;
    while i < path.len()
        invariant
            i <= path@.len(),
            tokens@.len() == i,
            forall|j: int| 0 <= j < i ==> (#[trigger] tokens@[j])@ == TokenView::Property(path@[j]@),
        decreases path@.len() - i,
    {
        tokens.push(Token::Property(path[i].clone()));
        i = i + 1;
    }
    let r = Pointer(tokens);
    assert(r@ =~= property_path(texts(path@)));
    r
}

/// What one step of fixing a key came to.
enum StepOutcome {
    Fixed(Json),
    Composed(Json),
    Invalid,
}

/// One step of fixing a key.
fn fix_one(doc: Json, path: &Vec<String>, prop: &str) -> (r: StepOutcome)
    requires
        doc.wf(),
    ensures
        match r {
            StepOutcome::Fixed(d) => fix_step(doc@, texts(path@), prop@) == Step::Fixed(d@)
                && d.wf(),
            StepOutcome::Composed(d) => fix_step(doc@, texts(path@), prop@) is Composed && d@
                == doc@ && d.wf(),
            StepOutcome::Invalid => fix_step(doc@, texts(path@), prop@) is Invalid,
        },
{
    let here = property_pointer(path);
    let parent: &Vec<(String, Json)> = match here.query(&doc) {
        Some(Json::Object(m)) => {
            proof {
                lemma_view_object(*m);
                lemma_wf_object(members_view(m@));
            }
            m
        },
        _ => {
            return StepOutcome::Invalid;
        },
    };
    if is_composed(parent) {
        return StepOutcome::Composed(doc);
    }
    let place: Vec<String> = match get_member(parent, "$ref") {
        None => duplicate_texts(path),
        Some(Json::String(name)) => {
            let mut p: Vec<String> = Vec::new();
            p.push(owned("$defs"));
            p.push(name.clone());
            assert(texts(p@) =~= seq!["$defs"@, name@]);
            p
        },
        Some(_) => {
            return StepOutcome::Invalid;
        },
    };
    let there = property_pointer(&place);
    let target: Vec<(String, Json)> = match there.query(&doc) {
        Some(Json::Object(t)) => {
            proof {
                lemma_view_object(*t);
                lemma_wf_object(members_view(t@));
            }
            duplicate_members(t)
        },
        _ => {
            return StepOutcome::Invalid;
        },
    };
    let fixed = match key_members(target, prop) {
        Some(f) => f,
        None => {
            return StepOutcome::Invalid;
        },
    };
    proof {
        lemma_view_object(fixed);
        lemma_wf_object(members_view(fixed@));
        assert(there@.skip(0) =~= there@);
    }
    match lay_down(doc, &there, 0, Edit::Put(Json::Object(fixed))) {
        Some(d) => StepOutcome::Fixed(d),
        None => StepOutcome::Invalid,
    }
}

/// Changes a document schema so that every key is always there: along each
/// key's pointer every property is made required, and `"null"` is taken out
/// of the types of the property and of the object that holds it. A
/// subschema composed with `allOf`, `anyOf` or `not` ends the work, and the
/// schema is handed back as far as it was fixed. The schema is refused
/// where a key's pointer holds an index or `-`, or does not lead through
/// properties that the schema describes as objects.
pub fn fix_document_schema_keys(doc: Json, key_ptrs: Vec<String>) -> (r: Result<Json, Error>)
    requires
        doc.wf(),
    ensures
        match r {
            Ok(d) => d.wf() && (fix_keys(doc@, texts(key_ptrs@)) == Fix::Done(d@) || fix_keys(
                doc@,
                texts(key_ptrs@),
            ) == Fix::Stopped(d@)),
            Err(e) => fix_keys(doc@, texts(key_ptrs@)) is Invalid && e is InvalidSchema,
        },
{
    let ghost keys = texts(key_ptrs@);
    let mut current = doc;
    let mut i: usize = 0;
    proof {
        assert(keys.skip(0) =~= keys);
    }
    while i < key_ptrs.len()
        invariant
            i <= key_ptrs@.len(),
            keys == texts(key_ptrs@),
            current.wf(),
            fix_keys(doc@, keys) == fix_keys(current@, keys.skip(i as int)),
        decreases key_ptrs@.len() - i,
    {
        let ptr = Pointer::from_str(key_ptrs[i].as_str());
        let ghost toks = ptr@;
        let ghost start = current@;
        proof {
            assert(keys.skip(i as int)[0] == key_ptrs@[i as int]@);
            assert(keys.skip(i as int).drop_first() =~= keys.skip(i + 1));
            assert(toks.skip(0) =~= toks);
        }
        let mut path: Vec<String> = Vec::new();
        assert(texts(path@) =~= Seq::<Seq<char>>::empty());
        let mut j: usize = 0;
        while j < ptr.0.len()
            invariant
                j <= ptr.0@.len(),
                i < key_ptrs@.len(),
                keys == texts(key_ptrs@),
                toks == ptr@,
                toks.len() == ptr.0@.len(),
                current.wf(),
                fix_key(start, Seq::empty(), toks) == fix_key(
                    current@,
                    texts(path@),
                    toks.skip(j as int),
                ),
                fix_keys(doc@, keys) == match fix_key(start, Seq::empty(), toks) {
                    Fix::Done(d) => fix_keys(d, keys.skip(i + 1)),
                    other => other,
                },
            decreases ptr.0@.len() - j,
        {
            proof {
                assert(toks.skip(j as int)[0] == ptr.0@[j as int]@);
                assert(toks.skip(j as int).drop_first() =~= toks.skip(j + 1));
            }
            let prop: &String = match &ptr.0[j] {
                Token::Property(p) => p,
                Token::Index(_) => {
                    return Err(
                        Error::InvalidSchema(
                            describe(
                                "cannot use a JSONPointer index in the key pointer ",
                                key_ptrs[i].as_str(),
                            ),
                        ),
                    );
                },
                Token::NextIndex => {
                    return Err(
                        Error::InvalidSchema(
                            describe(
                                "cannot use the JSONPointer next index /-/ in the key pointer ",
                                key_ptrs[i].as_str(),
                            ),
                        ),
                    );
                },
            };
            let ghost before = texts(path@);
            match fix_one(current, &path, prop.as_str()) {
                StepOutcome::Fixed(d) => {
                    current = d;
                },
                StepOutcome::Composed(d) => {
                    return Ok(d);
                },
                StepOutcome::Invalid => {
                    return Err(
                        Error::InvalidSchema(
                            describe(
                                "the document schema does not describe the key ",
                                key_ptrs[i].as_str(),
                            ),
                        ),
                    );
                },
            }
            path.push(owned("properties"));
            path.push(prop.clone());
            assert(texts(path@) =~= before.push("properties"@).push(prop@));
            j = j + 1;
        }
        i = i + 1;
    }
    Ok(current)
}

/// An edit of the subschemas of a schema. It is made on every object that
/// stands where a schema may stand, and leaves `properties` and `items` to
/// the traversal.
pub trait SchemaVisitor {
    /// The members of a subschema, found at `ptr`, after the edit.
    spec fn visited(&self, members: Members, ptr: Seq<char>) -> Members;

    /// The edit keeps members well laid out and does not touch the subschemas below.
    proof fn lemma_visited(&self, members: Members, ptr: Seq<char>)
        requires
            wf_members(members),
        ensures
            wf_members(self.visited(members, ptr)),
            obj_get(self.visited(members, ptr), "properties"@) == obj_get(members, "properties"@),
            obj_get(self.visited(members, ptr), "items"@) == obj_get(members, "items"@),
    ;

    /// Makes the edit on the members of the subschema found at `ptr`.
    fn visit(&self, members: &mut Vec<(String, Json)>, ptr: &str)
        requires
            wf_members(members_view(old(members)@)),
        ensures
            members_view(final(members)@) == self.visited(members_view(old(members)@), ptr@),
    ;
}

/// The pointer to a property of the subschema at `ptr`.
pub open spec fn property_ptr(ptr: Seq<char>, key: Seq<char>) -> Seq<char> {
    ptr.push('/') + key
}

/// The pointer to the items of the subschema at `ptr`.
pub open spec fn items_ptr(ptr: Seq<char>) -> Seq<char> {
    ptr.push('/').push('*')
}

/// The schema after the visitor has been to every subschema: to an object
/// first, then to each value under its `properties`, in the order of their
/// keys, then to its `items`. `ptr` is the pointer under which the schema
/// is found.
pub open spec fn traversed<V: SchemaVisitor>(v: &V, schema: JsonView, ptr: Seq<char>) -> JsonView
    decreases schema,
{
    match schema {
        JsonView::Object(m) => {
            let below = Seq::new(m.len(), |i: int| traversed_member(v, m, i, ptr));
            JsonView::Object(
                with_below(
                    with_below(v.visited(m, ptr), m, below, "properties"@),
                    m,
                    below,
                    "items"@,
                ),
            )
        },
        _ => schema,
    }
}

/// What the traversal makes of the member at place `i` of a subschema.
pub open spec fn traversed_member<V: SchemaVisitor>(
    v: &V,
    m: Members,
    i: int,
    ptr: Seq<char>,
) -> JsonView
    decreases m,
{
    if 0 <= i < m.len() {
        if m[i].0 == "properties"@ {
            match m[i].1 {
                JsonView::Object(props) => JsonView::Object(traversed_properties(v, props, ptr)),
                other => other,
            }
        } else if m[i].0 == "items"@ {
            traversed(v, m[i].1, items_ptr(ptr))
        } else {
            m[i].1
        }
    } else {
        JsonView::Null
    }
}

/// What the traversal makes of the values under `properties`.
pub open spec fn traversed_properties<V: SchemaVisitor>(
    v: &V,
    props: Members,
    ptr: Seq<char>,
) -> Members
    decreases props,
{
    Seq::new(
        props.len(),
        |j: int|
            if 0 <= j < props.len() {
                (props[j].0, traversed(v, props[j].1, property_ptr(ptr, props[j].0)))
            } else {
                (Seq::empty(), JsonView::Null)
            },
    )
}

/// The members `edited` with the member `key` replaced by what the
/// traversal made of it, where the subschema had such a member.
pub open spec fn with_below(
    edited: Members,
    m: Members,
    below: Seq<JsonView>,
    key: Seq<char>,
) -> Members {
    if has_key(m, key) {
        obj_insert(edited, key, below[key_pos(m, key)])
    } else {
        edited
    }
}

/// The pointer to a property of the subschema at `ptr`.
fn property_pointer_text(ptr: &str, key: &str) -> (r: String)
    ensures
        r@ == property_ptr(ptr@, key@),
{
    let mut out = owned(ptr);
    out.push('/');
    out.append(key);
    out
}

/// The pointer to the items of the subschema at `ptr`.
fn items_pointer_text(ptr: &str) -> (r: String)
    ensures
        r@ == items_ptr(ptr@),
{
    let mut out = owned(ptr);
    out.push('/');
    out.push('*');
    out
}

fn traverse_properties<V: SchemaVisitor>(given: Vec<(String, Json)>, v: &V, ptr: &str) -> (r: Vec<
    (String, Json),
>)
    requires
        wf_members(members_view(given@)),
    ensures
        members_view(r@) == traversed_properties(v, members_view(given@), ptr@),
        wf_members(members_view(r@)),
    decreases members_view(given@),
{
    let ghost before = members_view(given@);
    let mut props = given;
    let n: usize = props.len();
    let mut j: usize = 0;
    while j < n
        invariant
            j <= n,
            n == props@.len(),
            before.len() == n,
            wf_members(before),
            before == members_view(given@),
            forall|k: int| j <= k < n ==> members_view(props@)[k] == #[trigger] before[k],
            forall|k: int|
                0 <= k < j ==> (#[trigger] members_view(props@)[k]) == traversed_properties(
                    v,
                    before,
                    ptr@,
                )[k],
            forall|k: int| 0 <= k < j ==> wf_json((#[trigger] members_view(props@)[k]).1),
        decreases n - j,
    {
        let ghost mid = members_view(props@);
        let mut slot = (String::new(), Json::Null);
        std::mem::swap(&mut props[j], &mut slot);
        let (key, value) = slot;
        assert(key@ == before[j as int].0 && value@ == before[j as int].1) by {
            assert(mid[j as int] == before[j as int]);
        }
        assert(wf_json(before[j as int].1));
        let child_ptr = property_pointer_text(ptr, key.as_str());
        let child = traverse_owned(value, v, child_ptr.as_str());
        props[j] = (key, child);
        proof {
            let now = members_view(props@);
            assert forall|k: int| j < k < n implies now[k] == #[trigger] before[k] by {
                assert(mid[k] == before[k]);
            }
            assert forall|k: int| 0 <= k < j + 1 implies (#[trigger] now[k])
                == traversed_properties(v, before, ptr@)[k] by {
                if k < j {
                    assert(now[k] == mid[k]);
                }
            }
            assert forall|k: int| 0 <= k < j + 1 implies wf_json((#[trigger] now[k]).1) by {
                if k < j {
                    assert(now[k] == mid[k]);
                }
            }
        }
        j = j + 1;
    }
    proof {
        let now = members_view(props@);
        let want = traversed_properties(v, before, ptr@);
        assert(now =~= want);
        assert forall|a: int, b: int| 0 <= a < b < now.len() implies crate::text::text_lt(
            #[trigger] now[a].0,
            #[trigger] now[b].0,
        ) by {
            assert(now[a].0 == before[a].0);
            assert(now[b].0 == before[b].0);
        }
    }
    props
}

fn traverse_owned<V: SchemaVisitor>(schema: Json, v: &V, ptr: &str) -> (r: Json)
    requires
        schema.wf(),
    ensures
        r@ == traversed(v, schema@, ptr@),
        r.wf(),
    decreases schema@,
{
    match schema {
        Json::Object(members) => {
            let mut members = members;
            let ghost m = members_view(members@);
            proof {
                lemma_view_object(members);
                lemma_wf_object(m);
                v.lemma_visited(m, ptr@);
                crate::json::lemma_key_pos(m, "properties"@);
                crate::json::lemma_key_pos(m, "items"@);
                reveal_strlit("properties");
                reveal_strlit("items");
                assert("properties"@ != "items"@) by {
                    assert("properties"@.len() != "items"@.len());
                }
            }
            let ghost below = Seq::new(m.len(), |i: int| traversed_member(v, m, i, ptr@));
            v.visit(&mut members, ptr);
            let ghost m1 = members_view(members@);
            let (p, found) = find_key(&members, "properties");
            if found {
                let mut slot = (String::new(), Json::Null);
                std::mem::swap(&mut members[p], &mut slot);
                let (key, value) = slot;
                let ghost kp = key_pos(m, "properties"@);
                assert(value@ == m[kp].1 && key@ == "properties"@) by {
                    assert(m1[p as int].1 == value@);
                    assert(m1[p as int].0 == key@);
                }
                proof {
                    lemma_get_wf(m, "properties"@);
                }
                let fixed = match value {
                    Json::Object(props) => {
                        proof {
                            lemma_view_object(props);
                            lemma_wf_object(members_view(props@));
                        }
                        assert(decreases_to!(schema@ => m[kp].1));
                        let done = traverse_properties(props, v, ptr);
                        proof {
                            lemma_view_object(done);
                            lemma_wf_object(members_view(done@));
                        }
                        Json::Object(done)
                    },
                    other => other,
                };
                assert(fixed@ == below[kp]);
                let ghost fv = fixed@;
                members[p] = (key, fixed);
                proof {
                    assert(members_view(members@) =~= m1.update(p as int, ("properties"@, fv)));
                    lemma_insert_wf(m1, "properties"@, fv);
                    lemma_get_insert_other(m1, "properties"@, fv, "items"@);
                }
            }
            let ghost m2 = members_view(members@);
            assert(m2 == with_below(m1, m, below, "properties"@));
            let (q, found) = find_key(&members, "items");
            if found {
                let mut slot = (String::new(), Json::Null);
                std::mem::swap(&mut members[q], &mut slot);
                let (key, value) = slot;
                let ghost kq = key_pos(m, "items"@);
                assert(value@ == m[kq].1 && key@ == "items"@) by {
                    assert(m2[q as int].1 == value@);
                    assert(m2[q as int].0 == key@);
                }
                proof {
                    lemma_get_wf(m, "items"@);
                }
                let child_ptr = items_pointer_text(ptr);
                let fixed = traverse_owned(value, v, child_ptr.as_str());
                assert(fixed@ == below[kq]);
                let ghost fv = fixed@;
                members[q] = (key, fixed);
                proof {
                    assert(members_view(members@) =~= m2.update(q as int, ("items"@, fv)));
                    lemma_insert_wf(m2, "items"@, fv);
                }
            }
            proof {
                lemma_view_object(members);
                lemma_wf_object(members_view(members@));
            }
            Json::Object(members)
        },
        other => other,
    }
}

/// Sends a visitor to every subschema of a schema, which is found at `ptr`.
pub fn traverse_jsonschema<V: SchemaVisitor>(schema: &mut Json, v: &V, ptr: String)
    requires
        old(schema).wf(),
    ensures
        final(schema)@ == traversed(v, old(schema)@, ptr@),
        final(schema).wf(),
{
    let mut taken = Json::Null;
    std::mem::swap(schema, &mut taken);
    *schema = traverse_owned(taken, v, ptr.as_str());
}

/// The members without the annotations that only the connector's vendor reads.
pub open spec fn without_vendor_keys(m: Members) -> Members {
    obj_remove(
        obj_remove(
            obj_remove(obj_remove(obj_remove(m, "airbyte_hidden"@), "group"@), "airbyte_type"@),
            "name"@,
        ),
        "xml"@,
    )
}

/// The members with the formats `int32` and `int64` written as `integer`.
pub open spec fn with_plain_format(m: Members) -> Members {
    match obj_get(m, "format"@) {
        Some(JsonView::String(f)) => if f == "int32"@ || f == "int64"@ {
            obj_insert(m, "format"@, JsonView::String("integer"@))
        } else {
            m
        },
        _ => m,
    }
}

/// Takes out of each subschema what only the connector's vendor reads, and
/// writes the formats `int32` and `int64` as `integer`.
pub struct VendorAttributes;

proof fn lemma_key_texts()
    ensures
        "properties"@ != "airbyte_hidden"@,
        "properties"@ != "group"@,
        "properties"@ != "airbyte_type"@,
        "properties"@ != "name"@,
        "properties"@ != "xml"@,
        "properties"@ != "format"@,
        "properties"@ != "enum"@,
        "properties"@ != "type"@,
        "items"@ != "airbyte_hidden"@,
        "items"@ != "group"@,
        "items"@ != "airbyte_type"@,
        "items"@ != "name"@,
        "items"@ != "xml"@,
        "items"@ != "format"@,
        "items"@ != "enum"@,
        "items"@ != "type"@,
        "enum"@ != "type"@,
{
    reveal_strlit("properties");
    reveal_strlit("items");
    reveal_strlit("airbyte_hidden");
    reveal_strlit("group");
    reveal_strlit("airbyte_type");
    reveal_strlit("name");
    reveal_strlit("xml");
    reveal_strlit("format");
    reveal_strlit("enum");
    reveal_strlit("type");
    assert("properties"@.len() == 10);
    assert("items"@.len() == 5);
    assert("airbyte_hidden"@.len() == 14);
    assert("group"@.len() == 5);
    assert("airbyte_type"@.len() == 12);
    assert("name"@.len() == 4);
    assert("xml"@.len() == 3);
    assert("format"@.len() == 6);
    assert("enum"@.len() == 4);
    assert("type"@.len() == 4);
    assert("items"@[0] != "group"@[0]);
    assert("enum"@[0] != "type"@[0]);
}

impl SchemaVisitor for VendorAttributes {
    open spec fn visited(&self, members: Members, ptr: Seq<char>) -> Members {
        with_plain_format(without_vendor_keys(members))
    }

    proof fn lemma_visited(&self, members: Members, ptr: Seq<char>) {
        lemma_key_texts();
        let m1 = obj_remove(members, "airbyte_hidden"@);
        let m2 = obj_remove(m1, "group"@);
        let m3 = obj_remove(m2, "airbyte_type"@);
        let m4 = obj_remove(m3, "name"@);
        let m5 = obj_remove(m4, "xml"@);
        lemma_remove_wf(members, "airbyte_hidden"@);
        lemma_remove_wf(m1, "group"@);
        lemma_remove_wf(m2, "airbyte_type"@);
        lemma_remove_wf(m3, "name"@);
        lemma_remove_wf(m4, "xml"@);
        lemma_get_remove_other(members, "airbyte_hidden"@, "properties"@);
        lemma_get_remove_other(m1, "group"@, "properties"@);
        lemma_get_remove_other(m2, "airbyte_type"@, "properties"@);
        lemma_get_remove_other(m3, "name"@, "properties"@);
        lemma_get_remove_other(m4, "xml"@, "properties"@);
        lemma_get_remove_other(members, "airbyte_hidden"@, "items"@);
        lemma_get_remove_other(m1, "group"@, "items"@);
        lemma_get_remove_other(m2, "airbyte_type"@, "items"@);
        lemma_get_remove_other(m3, "name"@, "items"@);
        lemma_get_remove_other(m4, "xml"@, "items"@);
        lemma_insert_wf(m5, "format"@, JsonView::String("integer"@));
        lemma_get_insert_other(m5, "format"@, JsonView::String("integer"@), "properties"@);
        lemma_get_insert_other(m5, "format"@, JsonView::String("integer"@), "items"@);
    }

    fn visit(&self, members: &mut Vec<(String, Json)>, ptr: &str) {
        proof {
            self.lemma_visited(members_view(members@), ptr@);
            lemma_remove_wf(members_view(members@), "airbyte_hidden"@);
        }
        let _ = remove_member(members, "airbyte_hidden");
        proof {
            lemma_remove_wf(members_view(members@), "group"@);
        }
        let _ = remove_member(members, "group");
        proof {
            lemma_remove_wf(members_view(members@), "airbyte_type"@);
        }
        let _ = remove_member(members, "airbyte_type");
        proof {
            lemma_remove_wf(members_view(members@), "name"@);
        }
        let _ = remove_member(members, "name");
        proof {
            lemma_remove_wf(members_view(members@), "xml"@);
        }
        let _ = remove_member(members, "xml");
        let rewrite = match get_member(members, "format") {
            Some(f) => f.is_string("int32") || f.is_string("int64"),
            None => false,
        };
        if rewrite {
            insert_member(members, owned("format"), Json::string("integer"));
        }
    }
}

/// Takes the annotations of the connector's vendor out of a schema:
/// `airbyte_hidden`, `group`, `airbyte_type`, `name` and `xml` leave every
/// subschema, and the formats `int32` and `int64` become `integer`.
pub fn fix_nonstandard_jsonschema_attributes(schema: &mut Json)
    requires
        old(schema).wf(),
    ensures
        final(schema)@ == traversed(&VendorAttributes, old(schema)@, Seq::empty()),
        final(schema).wf(),
{
    traverse_jsonschema(schema, &VendorAttributes, String::new());
}

/// The members with the format `date` written as `date-time`.
pub open spec fn with_date_time(m: Members) -> Members {
    if obj_get(m, "format"@) == Some(JsonView::String("date"@)) {
        obj_insert(m, "format"@, JsonView::String("date-time"@))
    } else {
        m
    }
}

/// Writes the format `date` of each subschema as `date-time`.
pub struct DateFormats;

impl SchemaVisitor for DateFormats {
    open spec fn visited(&self, members: Members, ptr: Seq<char>) -> Members {
        with_date_time(members)
    }

    proof fn lemma_visited(&self, members: Members, ptr: Seq<char>) {
        lemma_key_texts();
        lemma_insert_wf(members, "format"@, JsonView::String("date-time"@));
        lemma_get_insert_other(members, "format"@, JsonView::String("date-time"@), "properties"@);
        lemma_get_insert_other(members, "format"@, JsonView::String("date-time"@), "items"@);
    }

    fn visit(&self, members: &mut Vec<(String, Json)>, ptr: &str) {
        let rewrite = match get_member(members, "format") {
            Some(f) => f.is_string("date"),
            None => false,
        };
        if rewrite {
            insert_member(members, owned("format"), Json::string("date-time"));
        }
    }
}

/// Writes the format `date` as `date-time` in every subschema.
pub fn normalize_schema_date_to_datetime(schema: &mut Json)
    requires
        old(schema).wf(),
    ensures
        final(schema)@ == traversed(&DateFormats, old(schema)@, Seq::empty()),
        final(schema).wf(),
{
    traverse_jsonschema(schema, &DateFormats, String::new());
}

/// The types of JSON Schema, in the order of their names.
#[derive(Clone, Copy, Debug, PartialEq, Eq, Structural)]
pub enum Kind {
    Array,
    Boolean,
    Integer,
    Null,
    Number,
    Object,
    Text,
}

/// The type of a value.
pub open spec fn kind_of(v: JsonView) -> Kind {
    match v {
        JsonView::Null => Kind::Null,
        JsonView::Bool(_) => Kind::Boolean,
        JsonView::Number(n) => if n is Float {
            Kind::Number
        } else {
            Kind::Integer
        },
        JsonView::String(_) => Kind::Text,
        JsonView::Array(_) => Kind::Array,
        JsonView::Object(_) => Kind::Object,
    }
}

/// The name of a type.
pub open spec fn kind_name(k: Kind) -> Seq<char> {
    match k {
        Kind::Array => "array"@,
        Kind::Boolean => "boolean"@,
        Kind::Integer => "integer"@,
        Kind::Null => "null"@,
        Kind::Number => "number"@,
        Kind::Object => "object"@,
        Kind::Text => "string"@,
    }
}

/// Whether one of the values is of the type.
pub open spec fn present(vals: Seq<JsonView>, k: Kind) -> bool {
    exists|i: int| 0 <= i < vals.len() && kind_of(#[trigger] vals[i]) == k
}

/// The name of the type as a value, in a list of one if one of the values
/// is of the type, else in an empty list.
pub open spec fn name_if_present(vals: Seq<JsonView>, k: Kind) -> Seq<JsonView> {
    if present(vals, k) {
        seq![JsonView::String(kind_name(k))]
    } else {
        Seq::empty()
    }
}

/// The names of the types of the values, each once, in the order of the names.
pub open spec fn type_names(vals: Seq<JsonView>) -> Seq<JsonView> {
    name_if_present(vals, Kind::Array) + name_if_present(vals, Kind::Boolean) + name_if_present(
        vals,
        Kind::Integer,
    ) + name_if_present(vals, Kind::Null) + name_if_present(vals, Kind::Number) + name_if_present(
        vals,
        Kind::Object,
    ) + name_if_present(vals, Kind::Text)
}

/// The `type` that stands for an enumeration of the values: the name of
/// their type where they share one, else the list of the names.
pub open spec fn type_of_values(vals: Seq<JsonView>) -> JsonView {
    if type_names(vals).len() == 1 {
        type_names(vals)[0]
    } else {
        JsonView::Array(type_names(vals))
    }
}

/// The members without their `enum`; where they name no `type` and the
/// enumeration is a list, with the `type` that stands for its values.
pub open spec fn without_enum(m: Members) -> Members {
    let rest = obj_remove(m, "enum"@);
    match obj_get(m, "enum"@) {
        Some(JsonView::Array(vals)) => if has_key(rest, "type"@) {
            rest
        } else {
            obj_insert(rest, "type"@, type_of_values(vals))
        },
        _ => rest,
    }
}

/// The type of a value.
pub fn kind(value: &Json) -> (r: Kind)
    ensures
        r == kind_of(value@),
{
    match value {
        Json::Null => Kind::Null,
        Json::Bool(_) => Kind::Boolean,
        Json::Number(n) => if n.is_integer() {
            Kind::Integer
        } else {
            Kind::Number
        },
        Json::String(_) => Kind::Text,
        Json::Array(items) => {
            proof {
                lemma_view_array(*items);
            }
            Kind::Array
        },
        Json::Object(members) => {
            proof {
                lemma_view_object(*members);
            }
            Kind::Object
        },
    }
}

/// The name of a type.
pub fn name_of(k: Kind) -> (r: &'static str)
    ensures
        r@ == kind_name(k),
{
    match k {
        Kind::Array => "array",
        Kind::Boolean => "boolean",
        Kind::Integer => "integer",
        Kind::Null => "null",
        Kind::Number => "number",
        Kind::Object => "object",
        Kind::Text => "string",
    }
}

/// The name of the type of a value.
pub fn type_for(value: &Json) -> (r: &'static str)
    ensures
        r@ == kind_name(kind_of(value@)),
{
    name_of(kind(value))
}

/// Whether one of the values is of the type.
fn has_kind(vals: &Vec<Json>, k: Kind) -> (r: bool)
    ensures
        r == present(items_view(vals@), k),
{
    let ghost v = items_view(vals@);
    let mut i: usize = 0;
    while i < vals.len()
        invariant
            i <= vals@.len(),
            v == items_view(vals@),
            forall|j: int| 0 <= j < i ==> kind_of(#[trigger] v[j]) != k,
        decreases vals@.len() - i,
    {
        if kind(&vals[i]) == k {
            assert(kind_of(v[i as int]) == k);
            return true;
        }
        i = i + 1;
    }
    false
}

/// Appends the name of the type if one of the values is of it.
fn push_name_if_present(out: &mut Vec<Json>, vals: &Vec<Json>, k: Kind)
    ensures
        items_view(final(out)@) == items_view(old(out)@) + name_if_present(items_view(vals@), k),
{
    let ghost before = items_view(out@);
    if has_kind(vals, k) {
        out.push(Json::string(name_of(k)));
        assert(items_view(out@) =~= before + name_if_present(items_view(vals@), k));
    } else {
        assert(items_view(out@) =~= before + name_if_present(items_view(vals@), k));
    }
}

/// The `type` that stands for an enumeration of the values.
fn type_value(vals: &Vec<Json>) -> (r: Json)
    ensures
        r@ == type_of_values(items_view(vals@)),
        r.wf(),
{
    let mut names: Vec<Json> = Vec::new();
    assert(items_view(names@) =~= Seq::<JsonView>::empty());
    push_name_if_present(&mut names, vals, Kind::Array);
    push_name_if_present(&mut names, vals, Kind::Boolean);
    push_name_if_present(&mut names, vals, Kind::Integer);
    push_name_if_present(&mut names, vals, Kind::Null);
    push_name_if_present(&mut names, vals, Kind::Number);
    push_name_if_present(&mut names, vals, Kind::Object);
    push_name_if_present(&mut names, vals, Kind::Text);
    let ghost nv = items_view(names@);
    assert(nv =~= type_names(items_view(vals@)));
    assert forall|i: int| 0 <= i < nv.len() implies wf_json(#[trigger] nv[i]) by {
        assert(nv[i] is String);
    }
    if names.len() == 1 {
        let mut only = Json::Null;
        std::mem::swap(&mut names[0], &mut only);
        assert(only@ == nv[0]);
        only
    } else {
        proof {
            lemma_view_array(names);
            lemma_wf_array(nv);
        }
        Json::Array(names)
    }
}

/// Replaces the `enum` of each subschema by the types of its values.
pub struct Enums;

impl SchemaVisitor for Enums {
    open spec fn visited(&self, members: Members, ptr: Seq<char>) -> Members {
        without_enum(members)
    }

    proof fn lemma_visited(&self, members: Members, ptr: Seq<char>) {
        lemma_key_texts();
        let rest = obj_remove(members, "enum"@);
        lemma_remove_wf(members, "enum"@);
        lemma_get_remove_other(members, "enum"@, "properties"@);
        lemma_get_remove_other(members, "enum"@, "items"@);
        if let Some(JsonView::Array(vals)) = obj_get(members, "enum"@) {
            let t = type_of_values(vals);
            assert(wf_json(t)) by {
                let names = type_names(vals);
                assert forall|i: int| 0 <= i < names.len() implies wf_json(
                    #[trigger] names[i],
                ) by {
                    assert(names[i] is String);
                }
                lemma_wf_array(names);
            }
            lemma_insert_wf(rest, "type"@, t);
            lemma_get_insert_other(rest, "type"@, t, "properties"@);
            lemma_get_insert_other(rest, "type"@, t, "items"@);
        }
    }

    fn visit(&self, members: &mut Vec<(String, Json)>, ptr: &str) {
        proof {
            self.lemma_visited(members_view(members@), ptr@);
            lemma_remove_wf(members_view(members@), "enum"@);
        }
        match remove_member(members, "enum") {
            Some(Json::Array(vals)) => {
                proof {
                    lemma_view_array(vals);
                }
                let (_, typed) = find_key(members, "type");
                if !typed {
                    let t = type_value(&vals);
                    insert_member(members, owned("type"), t);
                }
            },
            _ => {},
        }
    }
}

/// Takes the enumerations out of a schema. A subschema that names no
/// `type` gets the types of the values that its enumeration listed.
pub fn remove_enums(schema: &mut Json)
    requires
        old(schema).wf(),
    ensures
        final(schema)@ == traversed(&Enums, old(schema)@, Seq::empty()),
        final(schema).wf(),
{
    traverse_jsonschema(schema, &Enums, String::new());
}

} // verus!
