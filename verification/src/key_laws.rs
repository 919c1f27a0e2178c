//! What the fixing of keys achieves: after it, every key leads through
//! properties that are required and cannot be null.

use crate::json::{
    lemma_get_insert_other, lemma_get_wf, lemma_insert_sorted, lemma_insert_wf, lemma_key_pos,
    lemma_wf_array, lemma_wf_object, obj_get, obj_insert, sorted_keys, wf_json, wf_members,
    JsonView, Members,
};
use crate::paths::{
    get_in, lemma_get_in_wf, lemma_lay_down_is_put_in, lemma_put_in_wf, lemma_query_is_get_in,
    put_in,
};
use crate::pointer::{parse_pointer, EditView, TokenView};
use crate::schema::{
    composed, first_null, fix_key, fix_keys, fix_step, keyed, lemma_first_null, prop_fixed,
    property_path, type_fixed, with_required, without_null, Fix, Step,
};
use vstd::prelude::*;

verus! {

/// The value `"null"`.
pub open spec fn null_name() -> JsonView {
    JsonView::String("null"@)
}

/// Whether the `type` of a subschema does not admit null: it is not
/// `"null"`, and if it is a list, `"null"` is not in it.
pub open spec fn type_non_null(m: Members) -> bool {
    match obj_get(m, "type"@) {
        Some(JsonView::String(s)) => s != "null"@,
        Some(JsonView::Array(items)) => !items.contains(null_name()),
        _ => true,
    }
}

/// Whether the `type` of a subschema can be cleared of null by taking one
/// `"null"` out of it: it is not `"null"` itself, and if it is a list,
/// `"null"` is in it once at most, and what is left is not one list that
/// holds `"null"` in its turn.
pub open spec fn type_tame(m: Members) -> bool {
    match obj_get(m, "type"@) {
        Some(JsonView::String(s)) => s != "null"@,
        Some(JsonView::Array(items)) => !without_null(items).contains(null_name()) && (
        without_null(items).len() == 1 ==> !(without_null(items)[0] matches JsonView::Array(inner)
            && inner.contains(null_name()))),
        _ => true,
    }
}

/// Whether a subschema requires a property.
pub open spec fn required_has(m: Members, name: Seq<char>) -> bool {
    match obj_get(m, "required"@) {
        Some(JsonView::Array(items)) => items.contains(JsonView::String(name)),
        _ => false,
    }
}

/// The subschema of a property, where the property is described by an object.
pub open spec fn child_of(m: Members, name: Seq<char>) -> Option<Members> {
    match obj_get(m, "properties"@) {
        Some(JsonView::Object(props)) => match obj_get(props, name) {
            Some(JsonView::Object(cm)) => Some(cm),
            _ => None,
        },
        _ => None,
    }
}

/// Whether a key leads through a schema along properties that are
/// required and cannot be null: at each step the object requires the
/// property, neither the object nor the property admits null, and the
/// property is described by an object, from which the key leads on.
pub open spec fn key_holds(schema: JsonView, names: Seq<Seq<char>>) -> bool
    decreases names.len(),
{
    if names.len() == 0 {
        true
    } else {
        match schema {
            JsonView::Object(m) => required_has(m, names[0]) && type_non_null(m) && (match child_of(
                m,
                names[0],
            ) {
                Some(cm) => type_non_null(cm) && key_holds(
                    JsonView::Object(cm),
                    names.drop_first(),
                ),
                None => false,
            }),
            _ => false,
        }
    }
}

proof fn lemma_names()
    ensures
        "required"@ != "type"@,
        "required"@ != "properties"@,
        "type"@ != "properties"@,
{
    reveal_strlit("required");
    reveal_strlit("type");
    reveal_strlit("properties");
    assert("required"@.len() == 8);
    assert("type"@.len() == 4);
    assert("properties"@.len() == 10);
}

/// Clearing the `type` of a subschema leaves every other member, and
/// leaves a type that does not admit null where the type was tame.
proof fn lemma_type_fixed(m: Members, collapse: bool)
    requires
        wf_members(m),
    ensures
        forall|k: Seq<char>| k != "type"@ ==> obj_get(type_fixed(m, collapse), k) == obj_get(m, k),
        type_tame(m) ==> type_non_null(type_fixed(m, collapse)),
        sorted_keys(type_fixed(m, collapse)),
{
    let f = type_fixed(m, collapse);
    match obj_get(m, "type"@) {
        Some(JsonView::Array(items)) => {
            let left = without_null(items);
            let v = if collapse && left.len() == 1 {
                left[0]
            } else {
                JsonView::Array(left)
            };
            lemma_insert_sorted(m, "type"@, v);
            assert forall|k: Seq<char>| k != "type"@ implies obj_get(f, k) == obj_get(m, k) by {
                lemma_get_insert_other(m, "type"@, v, k);
            }
            lemma_first_null(items);
            assert(obj_get(f, "type"@) == Some(v));
            if type_non_null(m) {
                assert(first_null(items) is None) by {
                    if let Some(i) = first_null(items) {
                        assert(items[i] == null_name());
                    }
                }
                assert(left == items);
            }
            if !left.contains(null_name()) {
                if collapse && left.len() == 1 {
                    assert(left[0] != null_name());
                }
            }
        },
        _ => {},
    }
}

/// Requiring a property of a subschema leaves every other member, and
/// whatever was required stays required.
proof fn lemma_with_required(m: Members, prop: Seq<char>)
    requires
        wf_members(m),
        with_required(m, prop) is Some,
    ensures
        forall|k: Seq<char>|
            k != "required"@ ==> obj_get(with_required(m, prop)->Some_0, k) == obj_get(m, k),
        required_has(with_required(m, prop)->Some_0, prop),
        forall|name: Seq<char>|
            required_has(m, name) ==> required_has(with_required(m, prop)->Some_0, name),
        sorted_keys(with_required(m, prop)->Some_0),
{
    let f = with_required(m, prop)->Some_0;
    match obj_get(m, "required"@) {
        None => {
            let v = JsonView::Array(seq![JsonView::String(prop)]);
            lemma_insert_sorted(m, "required"@, v);
            assert forall|k: Seq<char>| k != "required"@ implies obj_get(f, k) == obj_get(m, k) by {
                lemma_get_insert_other(m, "required"@, v, k);
            }
            assert(seq![JsonView::String(prop)][0] == JsonView::String(prop));
        },
        Some(JsonView::Array(items)) => {
            if !items.contains(JsonView::String(prop)) {
                let more = items.push(JsonView::String(prop));
                let v = JsonView::Array(more);
                lemma_insert_sorted(m, "required"@, v);
                assert forall|k: Seq<char>| k != "required"@ implies obj_get(f, k) == obj_get(
                    m,
                    k,
                ) by {
                    lemma_get_insert_other(m, "required"@, v, k);
                }
                assert(more[items.len() as int] == JsonView::String(prop));
                assert forall|name: Seq<char>| required_has(m, name) implies required_has(
                    f,
                    name,
                ) by {
                    let i = choose|i: int|
                        0 <= i < items.len() && items[i] == JsonView::String(name);
                    assert(more[i] == JsonView::String(name));
                }
            }
        },
        Some(_) => {},
    }
}

/// What `keyed` makes of a subschema.
proof fn lemma_keyed(m: Members, prop: Seq<char>)
    requires
        wf_members(m),
        keyed(m, prop) is Some,
    ensures
        sorted_keys(keyed(m, prop)->Some_0),
        required_has(keyed(m, prop)->Some_0, prop),
        forall|name: Seq<char>|
            required_has(m, name) ==> required_has(keyed(m, prop)->Some_0, name),
        type_tame(m) ==> type_non_null(keyed(m, prop)->Some_0),
        child_of(m, prop) is Some,
        child_of(keyed(m, prop)->Some_0, prop) == Some(prop_fixed(child_of(m, prop)->Some_0)),
        forall|name: Seq<char>|
            name != prop ==> child_of(keyed(m, prop)->Some_0, name) == child_of(m, name),
{
    lemma_names();
    let f = keyed(m, prop)->Some_0;
    let m1 = with_required(m, prop)->Some_0;
    lemma_with_required(m, prop);
    let m2 = type_fixed(m1, false);
    assert(wf_members(m1)) by {
        crate::json::lemma_key_pos(m, "required"@);
        match obj_get(m, "required"@) {
            None => {
                let v = JsonView::Array(seq![JsonView::String(prop)]);
                lemma_wf_array(seq![JsonView::String(prop)]);
                lemma_insert_wf(m, "required"@, v);
            },
            Some(JsonView::Array(items)) => {
                if !items.contains(JsonView::String(prop)) {
                    let more = items.push(JsonView::String(prop));
                    lemma_get_wf(m, "required"@);
                    lemma_wf_array(items);
                    assert forall|i: int| 0 <= i < more.len() implies wf_json(
                        #[trigger] more[i],
                    ) by {
                        if i < items.len() {
                            assert(more[i] == items[i]);
                        }
                    }
                    lemma_wf_array(more);
                    lemma_insert_wf(m, "required"@, JsonView::Array(more));
                }
            },
            Some(_) => {},
        }
    }
    lemma_type_fixed(m1, false);
    let props = obj_get(m2, "properties"@)->Some_0->Object_0;
    let ps = obj_get(props, prop)->Some_0->Object_0;
    let child = JsonView::Object(prop_fixed(ps));
    let props2 = obj_insert(props, prop, child);
    assert(obj_get(m2, "properties"@) == obj_get(m, "properties"@));
    assert(wf_members(props)) by {
        lemma_get_wf(m, "properties"@);
        lemma_wf_object(props);
    }
    lemma_insert_sorted(m2, "properties"@, JsonView::Object(props2));
    lemma_insert_sorted(props, prop, child);
    assert forall|name: Seq<char>| name != prop implies child_of(f, name) == child_of(m, name) by {
        lemma_get_insert_other(props, prop, child, name);
    }
    lemma_get_insert_other(m2, "properties"@, JsonView::Object(props2), "required"@);
    lemma_get_insert_other(m2, "properties"@, JsonView::Object(props2), "type"@);
    assert(obj_get(f, "required"@) == obj_get(m1, "required"@));
    assert(obj_get(f, "type"@) == obj_get(m2, "type"@));
    assert(obj_get(m1, "type"@) == obj_get(m, "type"@));
}

/// Clearing the `type` of well laid out members leaves them well laid out.
proof fn lemma_type_fixed_wf(m: Members, collapse: bool)
    requires
        wf_members(m),
    ensures
        wf_members(type_fixed(m, collapse)),
{
    match obj_get(m, "type"@) {
        Some(JsonView::Array(items)) => {
            lemma_get_wf(m, "type"@);
            lemma_wf_array(items);
            lemma_first_null(items);
            let left = without_null(items);
            assert forall|i: int| 0 <= i < left.len() implies wf_json(#[trigger] left[i]) by {
                match first_null(items) {
                    Some(k) => {
                        if i == k {
                            assert(left[i] == items[items.len() - 1]);
                        } else {
                            assert(left[i] == items[i]);
                        }
                    },
                    None => {},
                }
            }
            lemma_wf_array(left);
            let v = if collapse && left.len() == 1 {
                left[0]
            } else {
                JsonView::Array(left)
            };
            lemma_insert_wf(m, "type"@, v);
        },
        _ => {},
    }
}

/// Members with a property required stay well laid out.
proof fn lemma_with_required_wf(m: Members, prop: Seq<char>)
    requires
        wf_members(m),
        with_required(m, prop) is Some,
    ensures
        wf_members(with_required(m, prop)->Some_0),
{
    match obj_get(m, "required"@) {
        None => {
            let v = JsonView::Array(seq![JsonView::String(prop)]);
            lemma_wf_array(seq![JsonView::String(prop)]);
            lemma_insert_wf(m, "required"@, v);
        },
        Some(JsonView::Array(items)) => {
            if !items.contains(JsonView::String(prop)) {
                let more = items.push(JsonView::String(prop));
                lemma_get_wf(m, "required"@);
                lemma_wf_array(items);
                assert forall|i: int| 0 <= i < more.len() implies wf_json(#[trigger] more[i]) by {
                    if i < items.len() {
                        assert(more[i] == items[i]);
                    }
                }
                lemma_wf_array(more);
                lemma_insert_wf(m, "required"@, JsonView::Array(more));
            }
        },
        Some(_) => {},
    }
}

/// Members in which a property is made a key stay well laid out.
proof fn lemma_keyed_wf(m: Members, prop: Seq<char>)
    requires
        wf_members(m),
        keyed(m, prop) is Some,
    ensures
        wf_members(keyed(m, prop)->Some_0),
        wf_json(JsonView::Object(keyed(m, prop)->Some_0)),
{
    lemma_with_required_wf(m, prop);
    let m1 = with_required(m, prop)->Some_0;
    lemma_type_fixed_wf(m1, false);
    let m2 = type_fixed(m1, false);
    let props = obj_get(m2, "properties"@)->Some_0->Object_0;
    let ps = obj_get(props, prop)->Some_0->Object_0;
    lemma_get_wf(m2, "properties"@);
    lemma_wf_object(props);
    lemma_get_wf(props, prop);
    lemma_wf_object(ps);
    lemma_type_fixed_wf(ps, true);
    let child = JsonView::Object(prop_fixed(ps));
    lemma_wf_object(prop_fixed(ps));
    lemma_insert_wf(props, prop, child);
    lemma_wf_object(obj_insert(props, prop, child));
    lemma_insert_wf(m2, "properties"@, JsonView::Object(obj_insert(props, prop, child)));
    lemma_wf_object(keyed(m, prop)->Some_0);
}

/// The path of names to the subschema that a key leads to: `properties`
/// and the name of the property, for each of its names.
pub open spec fn schema_path(names: Seq<Seq<char>>) -> Seq<Seq<char>>
    decreases names.len(),
{
    if names.len() == 0 {
        Seq::empty()
    } else {
        seq!["properties"@, names[0]] + schema_path(names.drop_first())
    }
}

proof fn lemma_schema_path_push(names: Seq<Seq<char>>, name: Seq<char>)
    ensures
        schema_path(names.push(name)) == schema_path(names).push("properties"@).push(name),
    decreases names.len(),
{
    if names.len() == 0 {
        assert(names.push(name).drop_first() =~= Seq::<Seq<char>>::empty());
        assert(names.push(name)[0] == name);
        assert(schema_path(Seq::<Seq<char>>::empty()) =~= Seq::<Seq<char>>::empty());
        assert(schema_path(names.push(name)) =~= seq!["properties"@, name] + schema_path(
            names.push(name).drop_first(),
        ));
        assert(schema_path(names.push(name)) =~= seq!["properties"@, name]);
        assert(schema_path(names).push("properties"@).push(name) =~= seq!["properties"@, name]);
    } else {
        assert(names.push(name).drop_first() =~= names.drop_first().push(name));
        lemma_schema_path_push(names.drop_first(), name);
        assert(schema_path(names.push(name)) =~= schema_path(names).push("properties"@).push(
            name,
        ));
    }
}

/// A subschema whose `type` is cleared holds the keys that it held.
proof fn lemma_holds_type_fixed(ps: Members, names: Seq<Seq<char>>)
    requires
        wf_members(ps),
        type_tame(ps),
        key_holds(JsonView::Object(ps), names),
    ensures
        key_holds(JsonView::Object(type_fixed(ps, true)), names),
{
    lemma_names();
    lemma_type_fixed(ps, true);
    if names.len() > 0 {
        let f = type_fixed(ps, true);
        assert(obj_get(f, "required"@) == obj_get(ps, "required"@));
        assert(obj_get(f, "properties"@) == obj_get(ps, "properties"@));
    }
}

/// What becomes of a schema when a step of fixing a key is made at the
/// subschema that the names `cur` lead to.
pub open spec fn edited(d: JsonView, cur: Seq<Seq<char>>, prop: Seq<char>) -> JsonView {
    match get_in(d, schema_path(cur)) {
        Some(JsonView::Object(m)) => match keyed(m, prop) {
            Some(f) => put_in(d, schema_path(cur), JsonView::Object(f)),
            None => d,
        },
        _ => d,
    }
}

/// Whether a step of fixing a key at the subschema that `cur` leads to
/// finds the types tame that it is to clear, and the subschema of the
/// property not composed of others, so that its type is cleared.
pub open spec fn tame_at(d: JsonView, cur: Seq<Seq<char>>, prop: Seq<char>) -> bool {
    match get_in(d, schema_path(cur)) {
        Some(JsonView::Object(m)) => keyed(m, prop) is Some && type_tame(m) && (match child_of(
            m,
            prop,
        ) {
            Some(cm) => type_tame(cm) && !composed(cm),
            None => true,
        }),
        _ => false,
    }
}

/// A step of fixing a key, wherever it is made, leaves every key held that was held.
proof fn lemma_edit_keeps(d: JsonView, cur: Seq<Seq<char>>, prop: Seq<char>, other: Seq<Seq<char>>)
    requires
        wf_json(d),
        tame_at(d, cur, prop),
        key_holds(d, other),
    ensures
        key_holds(edited(d, cur, prop), other),
    decreases cur.len(),
{
    lemma_names();
    let q = schema_path(cur);
    let m = get_in(d, q)->Some_0->Object_0;
    let f = keyed(m, prop)->Some_0;
    if other.len() == 0 {
    } else if cur.len() == 0 {
        lemma_wf_object(m);
        lemma_keyed(m, prop);
        lemma_keyed_wf(m, prop);
        let name = other[0];
        if name == prop {
            let ps = child_of(m, prop)->Some_0;
            lemma_get_wf(m, "properties"@);
            lemma_wf_object(obj_get(m, "properties"@)->Some_0->Object_0);
            lemma_get_wf(obj_get(m, "properties"@)->Some_0->Object_0, prop);
            lemma_wf_object(ps);
            lemma_type_fixed(ps, true);
            lemma_holds_type_fixed(ps, other.drop_first());
        }
    } else {
        let c0 = cur[0];
        let rest = cur.drop_first();
        let q1 = q.drop_first();
        let q2 = q1.drop_first();
        assert(q[0] == "properties"@ && q[1] == c0);
        assert(q2 =~= schema_path(rest));
        let m0 = d->Object_0;
        lemma_wf_object(m0);
        let held = obj_get(m0, "properties"@)->Some_0;
        lemma_get_wf(m0, "properties"@);
        let props0 = held->Object_0;
        lemma_wf_object(props0);
        let child0 = obj_get(props0, c0)->Some_0;
        lemma_get_wf(props0, c0);
        assert(get_in(child0, q2) == get_in(d, q)) by {
            assert(get_in(d, q) == get_in(held, q1));
            assert(q1[0] == c0);
            assert(get_in(held, q1) == get_in(child0, q2));
        }
        let new = JsonView::Object(f);
        let child1 = put_in(child0, q2, new);
        let props1 = obj_insert(props0, c0, child1);
        let m1 = obj_insert(m0, "properties"@, JsonView::Object(props1));
        assert(put_in(d, q, new) == JsonView::Object(m1)) by {
            assert(put_in(held, q1, new) == JsonView::Object(props1));
        }
        lemma_insert_sorted(m0, "properties"@, JsonView::Object(props1));
        lemma_insert_sorted(props0, c0, child1);
        lemma_get_insert_other(m0, "properties"@, JsonView::Object(props1), "required"@);
        lemma_get_insert_other(m0, "properties"@, JsonView::Object(props1), "type"@);
        let name = other[0];
        if name == c0 {
            let cm = child_of(m0, name)->Some_0;
            assert(child0 == JsonView::Object(cm));
            assert(edited(child0, rest, prop) == child1);
            lemma_edit_keeps(child0, rest, prop, other.drop_first());
            if rest.len() == 0 {
                lemma_wf_object(m);
                lemma_keyed(m, prop);
            } else {
                let q3 = schema_path(rest);
                assert(q3[0] == "properties"@);
                let pc = obj_get(cm, "properties"@)->Some_0;
                let inner = put_in(pc, q3.drop_first(), new);
                lemma_wf_object(cm);
                assert(child1 == JsonView::Object(obj_insert(cm, "properties"@, inner)));
                lemma_get_insert_other(cm, "properties"@, inner, "type"@);
            }
        } else {
            lemma_get_insert_other(props0, c0, child1, name);
        }
    }
}

/// After a step of fixing a key at the subschema that `cur` leads to, with
/// `cur` held, the key holds one property further.
proof fn lemma_edit_extends(d: JsonView, cur: Seq<Seq<char>>, prop: Seq<char>)
    requires
        wf_json(d),
        tame_at(d, cur, prop),
        key_holds(d, cur),
    ensures
        key_holds(edited(d, cur, prop), cur.push(prop)),
    decreases cur.len(),
{
    lemma_names();
    let q = schema_path(cur);
    let m = get_in(d, q)->Some_0->Object_0;
    let f = keyed(m, prop)->Some_0;
    if cur.len() == 0 {
        lemma_wf_object(m);
        lemma_keyed(m, prop);
        let ps = child_of(m, prop)->Some_0;
        lemma_get_wf(m, "properties"@);
        lemma_wf_object(obj_get(m, "properties"@)->Some_0->Object_0);
        lemma_get_wf(obj_get(m, "properties"@)->Some_0->Object_0, prop);
        lemma_wf_object(ps);
        lemma_type_fixed(ps, true);
        let key = cur.push(prop);
        assert(key[0] == prop);
        assert(key.drop_first() =~= Seq::<Seq<char>>::empty());
        assert(edited(d, cur, prop) == JsonView::Object(f));
        assert(required_has(f, prop));
        assert(type_non_null(f));
        assert(child_of(f, prop) == Some(type_fixed(ps, true)));
        assert(type_non_null(type_fixed(ps, true)));
        assert(key_holds(JsonView::Object(type_fixed(ps, true)), key.drop_first()));
        assert(key_holds(JsonView::Object(f), key));
    } else {
        let c0 = cur[0];
        let rest = cur.drop_first();
        let q1 = q.drop_first();
        let q2 = q1.drop_first();
        assert(q[0] == "properties"@ && q[1] == c0);
        assert(q2 =~= schema_path(rest));
        let m0 = d->Object_0;
        lemma_wf_object(m0);
        let held = obj_get(m0, "properties"@)->Some_0;
        lemma_get_wf(m0, "properties"@);
        let props0 = held->Object_0;
        lemma_wf_object(props0);
        let child0 = obj_get(props0, c0)->Some_0;
        lemma_get_wf(props0, c0);
        assert(get_in(child0, q2) == get_in(d, q)) by {
            assert(get_in(d, q) == get_in(held, q1));
            assert(q1[0] == c0);
            assert(get_in(held, q1) == get_in(child0, q2));
        }
        let new = JsonView::Object(f);
        let child1 = put_in(child0, q2, new);
        let props1 = obj_insert(props0, c0, child1);
        let m1 = obj_insert(m0, "properties"@, JsonView::Object(props1));
        assert(put_in(d, q, new) == JsonView::Object(m1)) by {
            assert(put_in(held, q1, new) == JsonView::Object(props1));
        }
        lemma_insert_sorted(m0, "properties"@, JsonView::Object(props1));
        lemma_insert_sorted(props0, c0, child1);
        lemma_get_insert_other(m0, "properties"@, JsonView::Object(props1), "required"@);
        lemma_get_insert_other(m0, "properties"@, JsonView::Object(props1), "type"@);
        let cm = child_of(m0, c0)->Some_0;
        assert(child0 == JsonView::Object(cm));
        assert(edited(child0, rest, prop) == child1);
        lemma_edit_extends(child0, rest, prop);
        let key = cur.push(prop);
        assert(key[0] == c0);
        assert(key.drop_first() =~= rest.push(prop));
        assert(key_holds(child1, key.drop_first()));
        assert(child_of(m1, c0) is Some);
        if rest.len() == 0 {
            lemma_wf_object(m);
            lemma_keyed(m, prop);
        } else {
            let q3 = schema_path(rest);
            assert(q3[0] == "properties"@);
            let pc = obj_get(cm, "properties"@)->Some_0;
            let inner = put_in(pc, q3.drop_first(), new);
            lemma_wf_object(cm);
            assert(child1 == JsonView::Object(obj_insert(cm, "properties"@, inner)));
            lemma_get_insert_other(cm, "properties"@, inner, "type"@);
        }
    }
}

/// The names of the properties that the tokens of a key name.
pub open spec fn key_names(toks: Seq<TokenView>) -> Seq<Seq<char>> {
    toks.map_values(
        |t: TokenView|
            match t {
                TokenView::Property(p) => p,
                _ => Seq::empty(),
            },
    )
}

/// Whether a step of fixing a key finds the subschema that it comes to
/// plain: it refers to no definition, and its `type` and that of the
/// property are tame.
pub open spec fn step_tame(doc: JsonView, path: Seq<Seq<char>>, prop: Seq<char>) -> bool {
    match get_in(doc, path) {
        Some(JsonView::Object(m)) => obj_get(m, "$ref"@) is None && type_tame(m) && (match child_of(
            m,
            prop,
        ) {
            Some(cm) => type_tame(cm) && !composed(cm),
            None => true,
        }),
        _ => true,
    }
}

/// Whether the fixing of a key finds every subschema plain that it comes
/// to, as the subschema is when it comes to it.
pub open spec fn key_tame(doc: JsonView, path: Seq<Seq<char>>, toks: Seq<TokenView>) -> bool
    decreases toks.len(),
{
    if toks.len() == 0 {
        true
    } else {
        match toks[0] {
            TokenView::Property(prop) => step_tame(doc, path, prop) && (match fix_step(
                doc,
                path,
                prop,
            ) {
                Step::Fixed(d) => key_tame(
                    d,
                    path.push("properties"@).push(prop),
                    toks.drop_first(),
                ),
                _ => true,
            }),
            _ => true,
        }
    }
}

/// Whether the fixing of keys finds every subschema plain that it comes to.
pub open spec fn keys_tame(doc: JsonView, keys: Seq<Seq<char>>) -> bool
    decreases keys.len(),
{
    if keys.len() == 0 {
        true
    } else {
        key_tame(doc, Seq::empty(), parse_pointer(keys[0])) && (match fix_key(
            doc,
            Seq::empty(),
            parse_pointer(keys[0]),
        ) {
            Fix::Done(d) => keys_tame(d, keys.drop_first()),
            _ => true,
        })
    }
}

/// A step of fixing a key at a plain subschema replaces the subschema by
/// the one in which the property is a key.
proof fn lemma_step_is_edit(doc: JsonView, cur: Seq<Seq<char>>, prop: Seq<char>, d1: JsonView)
    requires
        wf_json(doc),
        fix_step(doc, schema_path(cur), prop) == Step::Fixed(d1),
        step_tame(doc, schema_path(cur), prop),
    ensures
        d1 == edited(doc, cur, prop),
        tame_at(doc, cur, prop),
        wf_json(d1),
{
    let path = schema_path(cur);
    lemma_query_is_get_in(doc, path);
    let m = get_in(doc, path)->Some_0->Object_0;
    let f = keyed(m, prop)->Some_0;
    lemma_lay_down_is_put_in(doc, path, JsonView::Object(f));
    assert(wf_json(JsonView::Object(m))) by {
        crate::pointer::lemma_laid_down_wf(doc, property_path(path), EditView::Put(JsonView::Null));
        lemma_get_in_wf(doc, path);
    }
    lemma_wf_object(m);
    lemma_keyed_wf(m, prop);
    lemma_put_in_wf(doc, path, JsonView::Object(f));
}

/// The fixing of a key that finds every subschema plain, from a subschema
/// on up to which the key holds, leaves the key held to its end, and every
/// key held that was held.
proof fn lemma_fix_key(doc: JsonView, cur: Seq<Seq<char>>, toks: Seq<TokenView>, d: JsonView)
    requires
        wf_json(doc),
        key_holds(doc, cur),
        fix_key(doc, schema_path(cur), toks) == Fix::Done(d),
        key_tame(doc, schema_path(cur), toks),
    ensures
        wf_json(d),
        forall|i: int| 0 <= i < toks.len() ==> (#[trigger] toks[i]) is Property,
        key_holds(d, cur + key_names(toks)),
        forall|other: Seq<Seq<char>>| key_holds(doc, other) ==> #[trigger] key_holds(d, other),
    decreases toks.len(),
{
    if toks.len() == 0 {
        assert(cur + key_names(toks) =~= cur);
    } else {
        let prop = toks[0]->Property_0;
        let rest = toks.drop_first();
        let d1 = fix_step(doc, schema_path(cur), prop)->Fixed_0;
        lemma_step_is_edit(doc, cur, prop, d1);
        lemma_edit_extends(doc, cur, prop);
        lemma_schema_path_push(cur, prop);
        lemma_fix_key(d1, cur.push(prop), rest, d);
        assert(cur.push(prop) + key_names(rest) =~= cur + key_names(toks));
        assert forall|i: int| 0 <= i < toks.len() implies (#[trigger] toks[i]) is Property by {
            if i > 0 {
                assert(toks[i] == rest[i - 1]);
            }
        }
        assert forall|other: Seq<Seq<char>>| key_holds(doc, other) implies #[trigger] key_holds(
            d,
            other,
        ) by {
            lemma_edit_keeps(doc, cur, prop, other);
            assert(key_holds(d1, other));
        }
    }
}

/// The fixing of keys that finds every subschema plain leaves every key
/// held that was held.
proof fn lemma_fix_keys_keeps(
    doc: JsonView,
    keys: Seq<Seq<char>>,
    d: JsonView,
    other: Seq<Seq<char>>,
)
    requires
        wf_json(doc),
        fix_keys(doc, keys) == Fix::Done(d),
        keys_tame(doc, keys),
        key_holds(doc, other),
    ensures
        key_holds(d, other),
    decreases keys.len(),
{
    if keys.len() > 0 {
        let toks = parse_pointer(keys[0]);
        let d0 = fix_key(doc, Seq::empty(), toks)->Done_0;
        assert(schema_path(Seq::<Seq<char>>::empty()) =~= Seq::<Seq<char>>::empty());
        lemma_fix_key(doc, Seq::empty(), toks, d0);
        assert(key_holds(d0, other));
        lemma_fix_keys_keeps(d0, keys.drop_first(), d, other);
    }
}

/// Where the fixing of keys comes to its end, and has found every
/// subschema on its way plain (none referred to a definition, and the
/// types that it was to clear of null held `"null"` once at most), every
/// key leads through the schema along properties that are required and
/// cannot be null.
pub proof fn lemma_fixed_keys_hold(doc: JsonView, keys: Seq<Seq<char>>, d: JsonView, i: int)
    requires
        wf_json(doc),
        fix_keys(doc, keys) == Fix::Done(d),
        keys_tame(doc, keys),
        0 <= i < keys.len(),
    ensures
        forall|j: int|
            0 <= j < parse_pointer(keys[i]).len() ==> (#[trigger] parse_pointer(
                keys[i],
            )[j]) is Property,
        key_holds(d, key_names(parse_pointer(keys[i]))),
    decreases keys.len(),
{
    let toks = parse_pointer(keys[0]);
    let d0 = fix_key(doc, Seq::empty(), toks)->Done_0;
    assert(schema_path(Seq::<Seq<char>>::empty()) =~= Seq::<Seq<char>>::empty());
    lemma_fix_key(doc, Seq::empty(), toks, d0);
    if i == 0 {
        assert(Seq::<Seq<char>>::empty() + key_names(toks) =~= key_names(toks));
        lemma_fix_keys_keeps(d0, keys.drop_first(), d, key_names(toks));
    } else {
        assert(keys.drop_first()[i - 1] == keys[i]);
        lemma_fixed_keys_hold(d0, keys.drop_first(), d, i - 1);
    }
}

} // verus!
