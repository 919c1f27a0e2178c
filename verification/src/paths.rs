//! Paths of names through the objects of a document, and what holds of a
//! document after a value on such a path is replaced.

use crate::json::{
    lemma_get_wf, lemma_insert_same, lemma_insert_sorted, lemma_insert_twice, lemma_insert_wf,
    lemma_wf_object, obj_get, obj_insert, wf_json, JsonView,
};
use crate::pointer::{laid_down, query, EditView, TokenView};
use crate::schema::property_path;
use vstd::prelude::*;

verus! {

/// The value that a path of names leads to through the objects of a document.
pub open spec fn get_in(d: JsonView, names: Seq<Seq<char>>) -> Option<JsonView>
    decreases names.len(),
{
    if names.len() == 0 {
        Some(d)
    } else {
        match d {
            JsonView::Object(m) => match obj_get(m, names[0]) {
                Some(c) => get_in(c, names.drop_first()),
                None => None,
            },
            _ => None,
        }
    }
}

/// The document with the value that a path of names leads to replaced;
/// the document itself where the path leads nowhere.
pub open spec fn put_in(d: JsonView, names: Seq<Seq<char>>, v: JsonView) -> JsonView
    decreases names.len(),
{
    if names.len() == 0 {
        v
    } else {
        match d {
            JsonView::Object(m) => match obj_get(m, names[0]) {
                Some(c) => JsonView::Object(
                    obj_insert(m, names[0], put_in(c, names.drop_first(), v)),
                ),
                None => d,
            },
            _ => d,
        }
    }
}

/// The pointer of a path of names leads where the path leads.
pub proof fn lemma_query_is_get_in(d: JsonView, names: Seq<Seq<char>>)
    ensures
        query(d, property_path(names)) == get_in(d, names),
    decreases names.len(),
{
    let toks = property_path(names);
    if names.len() > 0 {
        assert(toks[0] == TokenView::Property(names[0]));
        assert(toks.drop_first() =~= property_path(names.drop_first()));
        match d {
            JsonView::Object(m) => {
                if let Some(c) = obj_get(m, names[0]) {
                    lemma_query_is_get_in(c, names.drop_first());
                }
            },
            _ => {},
        }
    }
}

/// Laying the pointer of a path of names down to put a value where the
/// path leads replaces the value there.
pub proof fn lemma_lay_down_is_put_in(d: JsonView, names: Seq<Seq<char>>, v: JsonView)
    requires
        get_in(d, names) is Some,
    ensures
        laid_down(d, property_path(names), EditView::Put(v)) == Some(put_in(d, names, v)),
    decreases names.len(),
{
    let toks = property_path(names);
    if names.len() > 0 {
        assert(toks[0] == TokenView::Property(names[0]));
        assert(toks.drop_first() =~= property_path(names.drop_first()));
        match d {
            JsonView::Object(m) => {
                if let Some(c) = obj_get(m, names[0]) {
                    lemma_lay_down_is_put_in(c, names.drop_first(), v);
                }
            },
            _ => {},
        }
    }
}

/// Replacing a well laid out value by one in a well laid out document
/// leaves the document well laid out.
pub proof fn lemma_put_in_wf(d: JsonView, names: Seq<Seq<char>>, v: JsonView)
    requires
        wf_json(d),
        wf_json(v),
    ensures
        wf_json(put_in(d, names, v)),
    decreases names.len(),
{
    if names.len() > 0 {
        match d {
            JsonView::Object(m) => {
                lemma_wf_object(m);
                if let Some(c) = obj_get(m, names[0]) {
                    lemma_get_wf(m, names[0]);
                    lemma_put_in_wf(c, names.drop_first(), v);
                    lemma_insert_wf(m, names[0], put_in(c, names.drop_first(), v));
                    lemma_wf_object(obj_insert(m, names[0], put_in(c, names.drop_first(), v)));
                }
            },
            _ => {},
        }
    }
}

/// The value under a path that was replaced is the new value.
pub proof fn lemma_get_put_same(d: JsonView, names: Seq<Seq<char>>, v: JsonView)
    requires
        wf_json(d),
        get_in(d, names) is Some,
    ensures
        get_in(put_in(d, names, v), names) == Some(v),
    decreases names.len(),
{
    if names.len() > 0 {
        match d {
            JsonView::Object(m) => {
                lemma_wf_object(m);
                if let Some(c) = obj_get(m, names[0]) {
                    lemma_get_wf(m, names[0]);
                    lemma_get_put_same(c, names.drop_first(), v);
                    lemma_insert_sorted(m, names[0], put_in(c, names.drop_first(), v));
                }
            },
            _ => {},
        }
    }
}

/// Of two replacements under one path the later one counts.
pub proof fn lemma_put_twice(d: JsonView, names: Seq<Seq<char>>, v: JsonView, w: JsonView)
    requires
        wf_json(d),
        get_in(d, names) is Some,
    ensures
        put_in(put_in(d, names, v), names, w) == put_in(d, names, w),
    decreases names.len(),
{
    if names.len() > 0 {
        match d {
            JsonView::Object(m) => {
                lemma_wf_object(m);
                if let Some(c) = obj_get(m, names[0]) {
                    lemma_get_wf(m, names[0]);
                    let c1 = put_in(c, names.drop_first(), v);
                    lemma_put_twice(c, names.drop_first(), v, w);
                    lemma_insert_sorted(m, names[0], c1);
                    lemma_insert_twice(m, names[0], c1, put_in(c, names.drop_first(), w));
                }
            },
            _ => {},
        }
    }
}

/// Replacing a value by itself changes nothing.
pub proof fn lemma_put_same(d: JsonView, names: Seq<Seq<char>>)
    requires
        wf_json(d),
        get_in(d, names) is Some,
    ensures
        put_in(d, names, get_in(d, names)->Some_0) == d,
    decreases names.len(),
{
    if names.len() > 0 {
        match d {
            JsonView::Object(m) => {
                lemma_wf_object(m);
                if let Some(c) = obj_get(m, names[0]) {
                    lemma_get_wf(m, names[0]);
                    lemma_put_same(c, names.drop_first());
                    lemma_insert_same(m, names[0]);
                }
            },
            _ => {},
        }
    }
}

/// What a path with one more name leads to is the member of that name of
/// the object that the path leads to.
pub proof fn lemma_get_in_push(d: JsonView, names: Seq<Seq<char>>, name: Seq<char>)
    ensures
        get_in(d, names.push(name)) == (match get_in(d, names) {
            Some(JsonView::Object(m)) => obj_get(m, name),
            _ => None,
        }),
    decreases names.len(),
{
    let all = names.push(name);
    if names.len() == 0 {
        assert(all[0] == name);
        assert(all.drop_first() =~= Seq::<Seq<char>>::empty());
        match d {
            JsonView::Object(m) => {
                if let Some(c) = obj_get(m, name) {
                    assert(get_in(c, all.drop_first()) == Some(c));
                }
            },
            _ => {},
        }
    } else {
        assert(all[0] == names[0]);
        assert(all.drop_first() =~= names.drop_first().push(name));
        match d {
            JsonView::Object(m) => {
                if let Some(c) = obj_get(m, names[0]) {
                    lemma_get_in_push(c, names.drop_first(), name);
                }
            },
            _ => {},
        }
    }
}

/// What a path leads to in a well laid out document is well laid out.
pub proof fn lemma_get_in_wf(d: JsonView, names: Seq<Seq<char>>)
    requires
        wf_json(d),
    ensures
        get_in(d, names) matches Some(v) ==> wf_json(v),
    decreases names.len(),
{
    if names.len() > 0 {
        match d {
            JsonView::Object(m) => {
                lemma_wf_object(m);
                if let Some(c) = obj_get(m, names[0]) {
                    lemma_get_wf(m, names[0]);
                    lemma_get_in_wf(c, names.drop_first());
                }
            },
            _ => {},
        }
    }
}

} // verus!
