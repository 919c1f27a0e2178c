//! What holds of a mapping and its inverse: a document that is remapped by
//! the inverse of a mapping and then by the mapping is the document again.

use crate::json::{
    has_key, lemma_get_by_index, lemma_get_wf, lemma_insert_twice, lemma_insert_wf,
    lemma_members_equal, lemma_obj_get_put, lemma_obj_put_put, lemma_obj_put_same, lemma_remove_wf,
    lemma_wf_object, obj_get, obj_insert, obj_put, obj_remove, sorted_keys, wf_json, JsonView,
    Members,
};
use crate::patch::{last_index_of, moved, remapped, remapped_upto};
use crate::paths::{
    get_in, lemma_get_in_push, lemma_get_in_wf, lemma_get_put_same, lemma_put_in_wf, lemma_put_same,
    lemma_put_twice, put_in,
};
use crate::pointer::{
    escape, is_index_text, laid_down, parse_pointer, pieces, pointer_text, query, token_key,
    token_of, unescape, EditView, TokenView,
};
use crate::schema::property_path;
use crate::text::{lemma_split_nonempty, replace_pair, split};
use vstd::prelude::*;

verus! {

/// The members of the object that a path leads to.
pub open spec fn members_in(d: JsonView, parent: Seq<Seq<char>>) -> Members {
    match get_in(d, parent) {
        Some(JsonView::Object(m)) => m,
        _ => Seq::empty(),
    }
}

/// The document with a member of the object that a path leads to set.
pub open spec fn set_in(
    d: JsonView,
    parent: Seq<Seq<char>>,
    key: Seq<char>,
    v: JsonView,
) -> JsonView {
    put_in(d, parent, JsonView::Object(obj_insert(members_in(d, parent), key, v)))
}

/// The document with a member of the object that a path leads to taken away.
pub open spec fn unset_in(d: JsonView, parent: Seq<Seq<char>>, key: Seq<char>) -> JsonView {
    put_in(d, parent, JsonView::Object(obj_remove(members_in(d, parent), key)))
}

/// Whether the names of one path are those with which another begins.
pub open spec fn begins_with(path: Seq<Seq<char>>, start: Seq<Seq<char>>) -> bool {
    start.len() <= path.len() && path.take(start.len() as int) == start
}

/// Whether a value can be moved from the path `from` to the path `to` and
/// back without loss: there is a value under `from`; the object that `to`
/// ends in is there, and has no member of the name that `to` ends with; and
/// `to` does not lead into the value under `from`.
pub open spec fn movable(d: JsonView, from: Seq<Seq<char>>, to: Seq<Seq<char>>) -> bool {
    &&& from.len() >= 1
    &&& to.len() >= 1
    &&& get_in(d, from) is Some
    &&& get_in(d, to.drop_last()) matches Some(JsonView::Object(pm)) && !has_key(pm, to.last())
    &&& !begins_with(to, from)
}

/// The names by which the tokens of a pointer find the members of objects:
/// the name of a property, the numeral of an index, and `-`.
pub open spec fn token_names(toks: Seq<TokenView>) -> Seq<Seq<char>> {
    toks.map_values(|t: TokenView| token_key(t))
}

/// Where the names of a pointer lead to a value through the objects of a
/// document, the pointer leads to that value.
pub proof fn lemma_query_by_names(d: JsonView, toks: Seq<TokenView>)
    requires
        get_in(d, token_names(toks)) is Some,
    ensures
        query(d, toks) == get_in(d, token_names(toks)),
    decreases toks.len(),
{
    let names = token_names(toks);
    if toks.len() > 0 {
        assert(names[0] == token_key(toks[0]));
        assert(names.drop_first() =~= token_names(toks.drop_first()));
        let m = d->Object_0;
        let c = obj_get(m, names[0])->Some_0;
        lemma_query_by_names(c, toks.drop_first());
    }
}

/// Laying down a pointer whose names are a path of names and one name
/// more, to put a value there, sets the member of that name in the object
/// that the path leads to.
pub proof fn lemma_lay_down_sets(
    d: JsonView,
    toks: Seq<TokenView>,
    parent: Seq<Seq<char>>,
    key: Seq<char>,
    v: JsonView,
)
    requires
        get_in(d, parent) matches Some(JsonView::Object(_)),
        token_names(toks) == parent.push(key),
    ensures
        laid_down(d, toks, EditView::Put(v)) == Some(set_in(d, parent, key, v)),
    decreases parent.len(),
{
    let all = parent.push(key);
    assert(toks.len() == all.len());
    assert(token_key(toks[0]) == all[0]) by {
        assert(token_names(toks)[0] == token_key(toks[0]));
    }
    assert(token_names(toks.drop_first()) =~= all.drop_first());
    let m = d->Object_0;
    assert(d == JsonView::Object(m));
    let e = EditView::Put(v);
    if parent.len() == 0 {
        assert(all[0] == key);
        assert(all.drop_first() =~= Seq::<Seq<char>>::empty());
        assert(toks.drop_first() =~= Seq::<TokenView>::empty());
        let child = match obj_get(m, key) {
            Some(c) => c,
            None => JsonView::Null,
        };
        assert(laid_down(child, toks.drop_first(), e) == Some(v));
        assert(get_in(d, parent) == Some(d));
        assert(laid_down(d, toks, e) == Some(JsonView::Object(obj_insert(m, key, v))));
    } else {
        assert(all[0] == parent[0]);
        assert(all.drop_first() =~= parent.drop_first().push(key));
        let c = obj_get(m, parent[0])->Some_0;
        assert(get_in(d, parent) == get_in(c, parent.drop_first()));
        lemma_lay_down_sets(c, toks.drop_first(), parent.drop_first(), key, v);
        assert(laid_down(c, toks.drop_first(), e) == Some(
            set_in(c, parent.drop_first(), key, v),
        ));
        assert(laid_down(d, toks, e) == Some(
            JsonView::Object(
                obj_insert(m, parent[0], set_in(c, parent.drop_first(), key, v)),
            ),
        ));
    }
}

/// Laying down a pointer whose names are a path of names, to take a
/// member away there, takes the member out of the object that the path
/// leads to.
pub proof fn lemma_lay_down_unsets(
    d: JsonView,
    toks: Seq<TokenView>,
    parent: Seq<Seq<char>>,
    key: Seq<char>,
)
    requires
        get_in(d, parent) matches Some(JsonView::Object(_)),
        token_names(toks) == parent,
    ensures
        laid_down(d, toks, EditView::RemoveKey(key)) == Some(unset_in(d, parent, key)),
    decreases parent.len(),
{
    assert(toks.len() == parent.len());
    if parent.len() == 0 {
        assert(toks =~= Seq::<TokenView>::empty());
    } else {
        assert(token_key(toks[0]) == parent[0]) by {
            assert(token_names(toks)[0] == token_key(toks[0]));
        }
        assert(token_names(toks.drop_first()) =~= parent.drop_first());
        let m = d->Object_0;
        let c = obj_get(m, parent[0])->Some_0;
        lemma_lay_down_unsets(c, toks.drop_first(), parent.drop_first(), key);
    }
}

/// Whether a text is the pointer of a path of names, and in a form that a
/// mapping can be written in: read as a pointer it has the names of the
/// path; cut at its last `/`, what stands before has the names of the path
/// without its last name, and what stands after is that last name. A name
/// may be the numeral of an index or `-`: in an object it finds the member of
/// that name.
pub open spec fn names_pointer(text: Seq<char>, names: Seq<Seq<char>>) -> bool {
    &&& names.len() >= 1
    &&& token_names(parse_pointer(text)) == names
    &&& last_index_of(text, '/') matches Some(cut) && token_names(parse_pointer(text.take(cut)))
        == names.drop_last() && text.skip(cut + 1) == names.last()
}

/// The mapping that has one entry, which moves the value under the
/// pointer `from` to the pointer `to`.
pub open spec fn single_move(to: Seq<char>, from: Seq<char>) -> JsonView {
    JsonView::Object(seq![(to, JsonView::String(from))])
}

/// Whether a name can stand in a pointer as it is, and is read from it as
/// the name of a property: it holds neither `/` nor `~`, is not `-`, and is
/// not the numeral of an index.
pub open spec fn plain_name(n: Seq<char>) -> bool {
    &&& forall|i: int| 0 <= i < n.len() ==> #[trigger] n[i] != '/' && n[i] != '~'
    &&& n != seq!['-']
    &&& !is_index_text(n)
}

/// Whether every name of a path is plain.
pub open spec fn plain_names(names: Seq<Seq<char>>) -> bool {
    forall|i: int| 0 <= i < names.len() ==> plain_name(#[trigger] names[i])
}

/// The names, each after a `/`.
pub open spec fn slashed(names: Seq<Seq<char>>) -> Seq<char>
    decreases names.len(),
{
    if names.len() == 0 {
        Seq::empty()
    } else {
        slashed(names.drop_last()).push('/') + names.last()
    }
}

proof fn lemma_escape_plain(n: Seq<char>)
    requires
        forall|i: int| 0 <= i < n.len() ==> #[trigger] n[i] != '/' && n[i] != '~',
    ensures
        escape(n) == n,
    decreases n.len(),
{
    if n.len() > 0 {
        assert(n[n.len() - 1] != '/' && n[n.len() - 1] != '~');
        assert forall|i: int| 0 <= i < n.drop_last().len() implies #[trigger] n.drop_last()[i]
            != '/' && n.drop_last()[i] != '~' by {
            assert(n.drop_last()[i] == n[i]);
        }
        lemma_escape_plain(n.drop_last());
        assert(n.drop_last().push(n.last()) =~= n);
    }
}

proof fn lemma_replace_pair_free(n: Seq<char>, a: char, b: char, c: char)
    requires
        forall|i: int| 0 <= i < n.len() ==> #[trigger] n[i] != a,
    ensures
        replace_pair(n, a, b, c) == n,
    decreases n.len(),
{
    if n.len() >= 2 {
        assert(n[0] != a);
        assert forall|i: int| 0 <= i < n.skip(1).len() implies #[trigger] n.skip(1)[i] != a by {
            assert(n.skip(1)[i] == n[i + 1]);
        }
        lemma_replace_pair_free(n.skip(1), a, b, c);
        assert(seq![n[0]] + n.skip(1) =~= n);
    }
}

/// The pointer of a path of plain names is the names, each after a `/`.
proof fn lemma_pointer_text_plain(names: Seq<Seq<char>>)
    requires
        plain_names(names),
    ensures
        pointer_text(property_path(names)) == slashed(names),
    decreases names.len(),
{
    let toks = property_path(names);
    if names.len() > 0 {
        assert(toks.drop_last() =~= property_path(names.drop_last()));
        assert(toks.last() == TokenView::Property(names.last()));
        assert(plain_names(names.drop_last())) by {
            assert forall|i: int| 0 <= i < names.drop_last().len() implies plain_name(
                #[trigger] names.drop_last()[i],
            ) by {
                assert(names.drop_last()[i] == names[i]);
            }
        }
        lemma_pointer_text_plain(names.drop_last());
        assert(plain_name(names[names.len() - 1]));
        lemma_escape_plain(names.last());
    }
}

/// A text split after more text without `/` was added to it has that text
/// added to its last piece.
proof fn lemma_split_more(a: Seq<char>, b: Seq<char>)
    requires
        forall|i: int| 0 <= i < b.len() ==> #[trigger] b[i] != '/',
    ensures
        split(a + b, '/') == split(a, '/').update(
            split(a, '/').len() - 1,
            split(a, '/').last() + b,
        ),
    decreases b.len(),
{
    lemma_split_nonempty(a, '/');
    let p = split(a, '/');
    if b.len() == 0 {
        assert(a + b =~= a);
        assert(p.last() + b =~= p.last());
        assert(p.update(p.len() - 1, p.last()) =~= p);
    } else {
        let head = b.drop_last();
        let x = b.last();
        assert(b[b.len() - 1] != '/');
        assert forall|j: int| 0 <= j < head.len() implies #[trigger] head[j] != '/' by {
            assert(head[j] == b[j]);
        }
        lemma_split_more(a, head);
        assert((a + b).drop_last() =~= a + head);
        assert((a + b).last() == x);
        let q = split(a + head, '/');
        assert((p.last() + head).push(x) =~= p.last() + b);
        assert(q.update(q.len() - 1, q.last().push(x)) =~= p.update(p.len() - 1, p.last() + b));
    }
}

/// Names that are written each after a `/` and split at each `/` are the
/// names again, after one empty piece.
proof fn lemma_split_slashed(names: Seq<Seq<char>>)
    requires
        plain_names(names),
    ensures
        split(slashed(names), '/') == seq![Seq::<char>::empty()] + names,
    decreases names.len(),
{
    let e = Seq::<char>::empty();
    if names.len() == 0 {
        assert(split(e, '/') =~= seq![e]);
        assert(seq![e] + names =~= seq![e]);
    } else {
        let head = names.drop_last();
        let y = names.last();
        assert(plain_names(head)) by {
            assert forall|i: int| 0 <= i < head.len() implies plain_name(#[trigger] head[i]) by {
                assert(head[i] == names[i]);
            }
        }
        lemma_split_slashed(head);
        let x = slashed(head).push('/');
        assert(x.drop_last() =~= slashed(head));
        assert(split(x, '/') == (seq![e] + head).push(e));
        assert(plain_name(names[names.len() - 1]));
        lemma_split_more(x, y);
        assert(e + y =~= y);
        assert((seq![e] + head).push(e).update(head.len() as int + 1, e + y) =~= seq![e] + names);
    }
}

/// The pointer of a path of plain names is read as the path.
proof fn lemma_parse_slashed(names: Seq<Seq<char>>)
    requires
        plain_names(names),
    ensures
        parse_pointer(slashed(names)) == property_path(names),
{
    let text = slashed(names);
    if names.len() == 0 {
        assert(parse_pointer(text) =~= property_path(names));
    } else {
        lemma_split_slashed(names);
        lemma_slashed_begins(names);
        let e = Seq::<char>::empty();
        assert((seq![e] + names).drop_first() =~= names);
        assert(pieces(text) == names);
        assert forall|i: int| 0 <= i < names.len() implies token_of(unescape(#[trigger] names[i]))
            == TokenView::Property(names[i]) by {
            assert(plain_name(names[i]));
            lemma_replace_pair_free(names[i], '~', '1', '/');
            lemma_replace_pair_free(names[i], '~', '0', '~');
        }
        assert(parse_pointer(text) =~= property_path(names));
    }
}

/// Names written each after a `/` begin with a `/`.
proof fn lemma_slashed_begins(names: Seq<Seq<char>>)
    requires
        names.len() > 0,
    ensures
        slashed(names).len() > 0,
        slashed(names)[0] == '/',
    decreases names.len(),
{
    if names.len() > 1 {
        lemma_slashed_begins(names.drop_last());
    } else {
        assert(slashed(names.drop_last()) =~= Seq::<char>::empty());
    }
}

/// The last `/` of a text that ends with a `/` and more text without `/` is that `/`.
proof fn lemma_last_slash(a: Seq<char>, b: Seq<char>)
    requires
        forall|i: int| 0 <= i < b.len() ==> #[trigger] b[i] != '/',
    ensures
        last_index_of(a.push('/') + b, '/') == Some(a.len() as int),
    decreases b.len(),
{
    let text = a.push('/') + b;
    if b.len() == 0 {
        assert(text =~= a.push('/'));
    } else {
        assert(text.last() == b[b.len() - 1]);
        assert(text.drop_last() =~= a.push('/') + b.drop_last());
        assert forall|j: int| 0 <= j < b.drop_last().len() implies #[trigger] b.drop_last()[j]
            != '/' by {
            assert(b.drop_last()[j] == b[j]);
        }
        lemma_last_slash(a, b.drop_last());
    }
}

/// The pointer of a path of plain names is in the form that a mapping can
/// be written in.
pub proof fn lemma_plain_pointer(names: Seq<Seq<char>>)
    requires
        names.len() >= 1,
        plain_names(names),
    ensures
        names_pointer(pointer_text(property_path(names)), names),
{
    lemma_pointer_text_plain(names);
    lemma_parse_slashed(names);
    lemma_key_names_of_path(names);
    lemma_key_names_of_path(names.drop_last());
    let text = slashed(names);
    let head = names.drop_last();
    let a = slashed(head);
    assert(plain_name(names[names.len() - 1]));
    lemma_last_slash(a, names.last());
    assert(text.take(a.len() as int) =~= a);
    assert(text.skip(a.len() as int + 1) =~= names.last());
    assert(plain_names(head)) by {
        assert forall|i: int| 0 <= i < head.len() implies plain_name(#[trigger] head[i]) by {
            assert(head[i] == names[i]);
        }
    }
    lemma_parse_slashed(head);
}

/// Whether neither of two paths begins with the other.
pub open spec fn apart(p: Seq<Seq<char>>, q: Seq<Seq<char>>) -> bool {
    !begins_with(p, q) && !begins_with(q, p)
}

/// Whether the object that a path ends in is there.
pub open spec fn ready(d: JsonView, path: Seq<Seq<char>>) -> bool {
    path.len() >= 1 && get_in(d, path.drop_last()) matches Some(JsonView::Object(_))
}

/// The document with the member that a path ends with set to a value, or
/// taken away.
pub open spec fn poke(d: JsonView, path: Seq<Seq<char>>, e: Option<JsonView>) -> JsonView {
    put_in(
        d,
        path.drop_last(),
        JsonView::Object(obj_put(members_in(d, path.drop_last()), path.last(), e)),
    )
}

/// Whether a value that may be missing is well laid out if it is there.
pub open spec fn wf_option(e: Option<JsonView>) -> bool {
    e matches Some(v) ==> wf_json(v)
}

/// The members of an object after the member that a path ends with is
/// changed: the member itself where the path is one name, else the member
/// that the path begins with, changed within.
pub open spec fn head_put(m: Members, path: Seq<Seq<char>>, e: Option<JsonView>) -> Members {
    if path.len() == 1 {
        obj_put(m, path[0], e)
    } else {
        obj_insert(m, path[0], poke(obj_get(m, path[0])->Some_0, path.drop_first(), e))
    }
}

/// Changing the member that a path ends with changes the members of the
/// object that the path begins in as `head_put` says.
proof fn lemma_poke_head(m: Members, path: Seq<Seq<char>>, e: Option<JsonView>)
    requires
        path.len() >= 1,
        path.len() >= 2 ==> has_key(m, path[0]),
    ensures
        poke(JsonView::Object(m), path, e) == JsonView::Object(head_put(m, path, e)),
{
    let parent = path.drop_last();
    if path.len() == 1 {
        assert(parent =~= Seq::<Seq<char>>::empty());
    } else {
        assert(parent[0] == path[0]);
        assert(parent.drop_first() =~= path.drop_first().drop_last());
        assert(path.last() == path.drop_first().last());
    }
}

/// What stands at the end of a path after it is changed is what it was
/// changed to, and the object that the path ends in is still there.
proof fn lemma_poke_get(d: JsonView, path: Seq<Seq<char>>, e: Option<JsonView>)
    requires
        wf_json(d),
        ready(d, path),
        wf_option(e),
    ensures
        ready(poke(d, path, e), path),
        get_in(poke(d, path, e), path) == e,
        wf_json(poke(d, path, e)),
{
    let parent = path.drop_last();
    let pm = members_in(d, parent);
    lemma_get_in_wf(d, parent);
    lemma_wf_object(pm);
    let w = JsonView::Object(obj_put(pm, path.last(), e));
    lemma_get_put_same(d, parent, w);
    assert(parent.push(path.last()) =~= path);
    lemma_get_in_push(poke(d, path, e), parent, path.last());
    lemma_obj_get_put(pm, path.last(), e, path.last());
    match e {
        Some(v) => {
            lemma_insert_wf(pm, path.last(), v);
        },
        None => {
            lemma_remove_wf(pm, path.last());
        },
    }
    lemma_wf_object(obj_put(pm, path.last(), e));
    lemma_put_in_wf(d, parent, w);
}

/// Of two changes at the end of one path the later one counts.
proof fn lemma_poke_twice(
    d: JsonView,
    path: Seq<Seq<char>>,
    a: Option<JsonView>,
    b: Option<JsonView>,
)
    requires
        wf_json(d),
        ready(d, path),
    ensures
        poke(poke(d, path, a), path, b) == poke(d, path, b),
{
    let parent = path.drop_last();
    let pm = members_in(d, parent);
    lemma_get_in_wf(d, parent);
    lemma_wf_object(pm);
    let w = JsonView::Object(obj_put(pm, path.last(), a));
    lemma_get_put_same(d, parent, w);
    lemma_obj_put_put(pm, path.last(), a, b);
    lemma_put_twice(d, parent, w, JsonView::Object(obj_put(pm, path.last(), b)));
}

/// Changing what stands at the end of a path to what stands there changes nothing.
proof fn lemma_poke_same(d: JsonView, path: Seq<Seq<char>>)
    requires
        wf_json(d),
        ready(d, path),
    ensures
        poke(d, path, get_in(d, path)) == d,
{
    let parent = path.drop_last();
    let pm = members_in(d, parent);
    lemma_get_in_wf(d, parent);
    lemma_wf_object(pm);
    assert(parent.push(path.last()) =~= path);
    lemma_get_in_push(d, parent, path.last());
    lemma_obj_put_same(pm, path.last());
    lemma_put_same(d, parent);
}

/// What is found among the members after `head_put`: under the name that
/// the path begins with, what the change leaves there; under every other
/// name, what was there.
proof fn lemma_head_put(m: Members, path: Seq<Seq<char>>, e: Option<JsonView>, other: Seq<char>)
    requires
        sorted_keys(m),
        path.len() >= 1,
        path.len() >= 2 ==> has_key(m, path[0]),
    ensures
        sorted_keys(head_put(m, path, e)),
        obj_get(head_put(m, path, e), path[0]) == (if path.len() == 1 {
            e
        } else {
            Some(poke(obj_get(m, path[0])->Some_0, path.drop_first(), e))
        }),
        other != path[0] ==> obj_get(head_put(m, path, e), other) == obj_get(m, other),
{
    if path.len() == 1 {
        lemma_obj_get_put(m, path[0], e, other);
    } else {
        let v = poke(obj_get(m, path[0])->Some_0, path.drop_first(), e);
        lemma_obj_get_put(m, path[0], Some(v), other);
    }
}

/// A document in which the object that a path ends in is there is an
/// object, and has a member of the name that the path begins with if the
/// path has more names than one.
proof fn lemma_ready_head(d: JsonView, path: Seq<Seq<char>>)
    requires
        ready(d, path),
    ensures
        d is Object,
        path.len() >= 2 ==> has_key(d->Object_0, path[0]) && ready(
            obj_get(d->Object_0, path[0])->Some_0,
            path.drop_first(),
        ),
{
    let parent = path.drop_last();
    if path.len() == 1 {
        assert(parent =~= Seq::<Seq<char>>::empty());
    } else {
        assert(parent[0] == path[0]);
        assert(parent.drop_first() =~= path.drop_first().drop_last());
    }
}

/// Two paths that are apart and begin with one name have more names than
/// one each, and are apart after that name.
proof fn lemma_apart_tails(p: Seq<Seq<char>>, q: Seq<Seq<char>>)
    requires
        p.len() >= 1,
        q.len() >= 1,
        apart(p, q),
        p[0] == q[0],
    ensures
        p.len() >= 2,
        q.len() >= 2,
        apart(p.drop_first(), q.drop_first()),
{
    if p.len() == 1 {
        assert(q.take(1) =~= p);
    }
    if q.len() == 1 {
        assert(p.take(1) =~= q);
    }
    let p_rest = p.drop_first();
    let q_rest = q.drop_first();
    if begins_with(p_rest, q_rest) {
        assert(p.take(q.len() as int) =~= q) by {
            assert forall|i: int| 0 <= i < q.len() implies p.take(q.len() as int)[i] == q[i] by {
                if i > 0 {
                    assert(p_rest.take(q_rest.len() as int)[i - 1] == q_rest[i - 1]);
                }
            }
        }
    }
    if begins_with(q_rest, p_rest) {
        assert(q.take(p.len() as int) =~= p) by {
            assert forall|i: int| 0 <= i < p.len() implies q.take(p.len() as int)[i] == p[i] by {
                if i > 0 {
                    assert(q_rest.take(p_rest.len() as int)[i - 1] == p_rest[i - 1]);
                }
            }
        }
    }
}

/// A change at the end of one path leaves what stands at the end of a
/// path apart from it, and the object that that path ends in.
proof fn lemma_poke_frame(d: JsonView, p: Seq<Seq<char>>, e: Option<JsonView>, q: Seq<Seq<char>>)
    requires
        wf_json(d),
        ready(d, p),
        ready(d, q),
        apart(p, q),
        wf_option(e),
    ensures
        ready(poke(d, p, e), q),
        get_in(poke(d, p, e), q) == get_in(d, q),
    decreases p.len(),
{
    lemma_ready_head(d, p);
    lemma_ready_head(d, q);
    let m = d->Object_0;
    assert(d == JsonView::Object(m));
    lemma_wf_object(m);
    lemma_poke_head(m, p, e);
    let d1 = poke(d, p, e);
    let m1 = head_put(m, p, e);
    let qp = q.drop_last();
    if q.len() == 1 {
        assert(qp =~= Seq::<Seq<char>>::empty());
    } else {
        assert(qp[0] == q[0]);
    }
    if p[0] == q[0] {
        lemma_apart_tails(p, q);
        let c = obj_get(m, p[0])->Some_0;
        lemma_get_wf(m, p[0]);
        lemma_poke_frame(c, p.drop_first(), e, q.drop_first());
        lemma_head_put(m, p, e, q[0]);
        assert(qp.drop_first() =~= q.drop_first().drop_last());
    } else {
        lemma_head_put(m, p, e, q[0]);
    }
}

/// Changes at the ends of two paths that are apart can be made in either order.
proof fn lemma_poke_commute(
    d: JsonView,
    p: Seq<Seq<char>>,
    a: Option<JsonView>,
    q: Seq<Seq<char>>,
    b: Option<JsonView>,
)
    requires
        wf_json(d),
        ready(d, p),
        ready(d, q),
        apart(p, q),
        wf_option(a),
        wf_option(b),
    ensures
        poke(poke(d, p, a), q, b) == poke(poke(d, q, b), p, a),
    decreases p.len(),
{
    lemma_ready_head(d, p);
    lemma_ready_head(d, q);
    let m = d->Object_0;
    assert(d == JsonView::Object(m));
    lemma_wf_object(m);
    lemma_poke_head(m, p, a);
    lemma_poke_head(m, q, b);
    let mp = head_put(m, p, a);
    let mq = head_put(m, q, b);
    lemma_head_put(m, p, a, q[0]);
    lemma_head_put(m, q, b, p[0]);
    if p[0] == q[0] {
        let t = p[0];
        lemma_apart_tails(p, q);
        let c = obj_get(m, t)->Some_0;
        lemma_get_wf(m, t);
        let p_rest = p.drop_first();
        let q_rest = q.drop_first();
        lemma_poke_commute(c, p_rest, a, q_rest, b);
        lemma_poke_head(mp, q, b);
        lemma_poke_head(mq, p, a);
        lemma_insert_twice(m, t, poke(c, p_rest, a), poke(poke(c, p_rest, a), q_rest, b));
        lemma_insert_twice(m, t, poke(c, q_rest, b), poke(poke(c, q_rest, b), p_rest, a));
    } else {
        lemma_poke_head(mp, q, b);
        lemma_poke_head(mq, p, a);
        let x = head_put(mp, q, b);
        let y = head_put(mq, p, a);
        assert forall|k: Seq<char>| obj_get(x, k) == obj_get(y, k) by {
            lemma_head_put(mp, q, b, k);
            lemma_head_put(mq, p, a, k);
            lemma_head_put(m, p, a, k);
            lemma_head_put(m, q, b, k);
        }
        lemma_head_put(mp, q, b, p[0]);
        lemma_head_put(mq, p, a, q[0]);
        lemma_members_equal(x, y);
    }
}

/// A place of a document that a mapping or its inverse changes: the path
/// to it, what stands there before anything is moved, and what stands there
/// once the value is moved. Nothing may stand there.
pub ghost struct Slot {
    pub path: Seq<Seq<char>>,
    pub before: Option<JsonView>,
    pub after: Option<JsonView>,
}

/// What stands at a place when its value is moved, or is not.
pub open spec fn standing(s: Slot, moved: bool) -> Option<JsonView> {
    if moved {
        s.after
    } else {
        s.before
    }
}

/// Whether a document holds the places as they are before anything is
/// moved, and the places are apart from each other.
#[verifier::opaque]
pub open spec fn places_ok(x: JsonView, slots: Seq<Slot>) -> bool {
    &&& forall|i: int|
        0 <= i < slots.len() ==> ready(x, (#[trigger] slots[i]).path) && get_in(x, slots[i].path)
            == slots[i].before && wf_option(slots[i].before) && wf_option(slots[i].after)
    &&& forall|i: int, j: int|
        0 <= i < slots.len() && 0 <= j < slots.len() && i != j ==> apart(
            (#[trigger] slots[i]).path,
            (#[trigger] slots[j]).path,
        )
}

/// The document in which, of the first `n` places, those are changed whose
/// value is moved.
pub open spec fn moved_doc(x: JsonView, slots: Seq<Slot>, moved: Seq<bool>, n: int) -> JsonView
    decreases n,
{
    if n <= 0 || n > slots.len() || n > moved.len() {
        x
    } else if moved[n - 1] {
        poke(moved_doc(x, slots, moved, n - 1), slots[n - 1].path, slots[n - 1].after)
    } else {
        moved_doc(x, slots, moved, n - 1)
    }
}

/// In the document in which some values are moved, every place holds what
/// stands there when its value is moved, or is not.
proof fn lemma_moved_doc_places(x: JsonView, slots: Seq<Slot>, moved: Seq<bool>, n: int, j: int)
    requires
        wf_json(x),
        places_ok(x, slots),
        moved.len() == slots.len(),
        0 <= n <= slots.len(),
        0 <= j < slots.len(),
    ensures
        wf_json(moved_doc(x, slots, moved, n)),
        ready(moved_doc(x, slots, moved, n), slots[j].path),
        get_in(moved_doc(x, slots, moved, n), slots[j].path) == (if j < n {
            standing(slots[j], moved[j])
        } else {
            slots[j].before
        }),
    decreases n,
{
    reveal(places_ok);
    if n > 0 {
        let prev = moved_doc(x, slots, moved, n - 1);
        lemma_moved_doc_places(x, slots, moved, n - 1, j);
        lemma_moved_doc_places(x, slots, moved, n - 1, n - 1);
        if moved[n - 1] {
            lemma_poke_get(prev, slots[n - 1].path, slots[n - 1].after);
            if j != n - 1 {
                lemma_poke_frame(prev, slots[n - 1].path, slots[n - 1].after, slots[j].path);
            }
        }
    }
}

/// The document in which some of the first `n` values are moved depends
/// on those `n` alone.
proof fn lemma_moved_doc_prefix(
    x: JsonView,
    slots: Seq<Slot>,
    a: Seq<bool>,
    b: Seq<bool>,
    n: int,
)
    requires
        a.len() == slots.len(),
        b.len() == slots.len(),
        0 <= n <= slots.len(),
        forall|i: int| 0 <= i < n ==> a[i] == b[i],
    ensures
        moved_doc(x, slots, a, n) == moved_doc(x, slots, b, n),
    decreases n,
{
    if n > 0 {
        lemma_moved_doc_prefix(x, slots, a, b, n - 1);
    }
}

/// Changing one place of the document in which some values are moved
/// gives the document in which that value is moved, or is not, as well.
proof fn lemma_move_one(x: JsonView, slots: Seq<Slot>, moved: Seq<bool>, n: int, j: int, to: bool)
    requires
        wf_json(x),
        places_ok(x, slots),
        moved.len() == slots.len(),
        0 <= j < n <= slots.len(),
    ensures
        poke(moved_doc(x, slots, moved, n), slots[j].path, standing(slots[j], to)) == moved_doc(
            x,
            slots,
            moved.update(j, to),
            n,
        ),
    decreases n,
{
    reveal(places_ok);
    let now = moved.update(j, to);
    let prev = moved_doc(x, slots, moved, n - 1);
    let last = slots[n - 1];
    lemma_moved_doc_places(x, slots, moved, n - 1, j);
    lemma_moved_doc_places(x, slots, moved, n - 1, n - 1);
    if j == n - 1 {
        lemma_moved_doc_prefix(x, slots, moved, now, n - 1);
        if moved[j] {
            lemma_poke_twice(prev, last.path, last.after, standing(last, to));
        }
        if !to {
            lemma_poke_same(prev, last.path);
        }
    } else {
        lemma_move_one(x, slots, moved, n - 1, j, to);
        if moved[n - 1] {
            lemma_poke_commute(prev, last.path, last.after, slots[j].path, standing(slots[j], to));
        }
    }
}

/// The document in which no value is moved is the document.
proof fn lemma_nothing_moved(x: JsonView, slots: Seq<Slot>, moved: Seq<bool>, n: int)
    requires
        moved.len() == slots.len(),
        0 <= n <= slots.len(),
        forall|i: int| 0 <= i < n ==> !moved[i],
    ensures
        moved_doc(x, slots, moved, n) == x,
    decreases n,
{
    if n > 0 {
        lemma_nothing_moved(x, slots, moved, n - 1);
    }
}

/// The entry of a mapping, carried out on a document while it reads from
/// a source, sets the value that it reads at the path it moves to, and takes
/// it away at the path it moves from.
proof fn lemma_moved_is_pokes(
    d: JsonView,
    source: JsonView,
    to_text: Seq<char>,
    to: Seq<Seq<char>>,
    from_text: Seq<char>,
    from: Seq<Seq<char>>,
)
    requires
        names_pointer(to_text, to),
        names_pointer(from_text, from),
        get_in(source, from) is Some,
        ready(d, to),
        ready(poke(d, to, get_in(source, from)), from),
    ensures
        moved(d, source, to_text, JsonView::String(from_text)) == Some(
            poke(poke(d, to, get_in(source, from)), from, None),
        ),
{
    lemma_query_by_names(source, parse_pointer(from_text));
    let val = get_in(source, from)->Some_0;
    assert(to.drop_last().push(to.last()) =~= to);
    lemma_lay_down_sets(d, parse_pointer(to_text), to.drop_last(), to.last(), val);
    let placed = poke(d, to, Some(val));
    assert(placed == set_in(d, to.drop_last(), to.last(), val));
    let cut = last_index_of(from_text, '/')->Some_0;
    lemma_lay_down_unsets(
        placed,
        parse_pointer(from_text.take(cut)),
        from.drop_last(),
        from.last(),
    );
    assert(poke(placed, from, None) == unset_in(placed, from.drop_last(), from.last()));
}

/// The path that the key of an entry of a mapping points to.
pub open spec fn key_path(m: Members, i: int) -> Seq<Seq<char>> {
    token_names(parse_pointer(m[i].0))
}

/// The text of the pointer that is the value of an entry of a mapping.
pub open spec fn value_text(m: Members, i: int) -> Seq<char> {
    match m[i].1 {
        JsonView::String(t) => t,
        _ => Seq::empty(),
    }
}

/// The path that the value of an entry of a mapping points to.
pub open spec fn value_path(m: Members, i: int) -> Seq<Seq<char>> {
    token_names(parse_pointer(value_text(m, i)))
}

/// The places that a mapping and its inverse change in a document whose
/// values lie where the keys of the mapping point: for each entry, the place
/// that its key points to, where a value lies, and the place that its value
/// points to, which is free.
#[verifier::opaque]
pub open spec fn places_of(x: JsonView, m: Members) -> Seq<Slot> {
    Seq::new(
        2 * m.len(),
        |s: int|
            if s % 2 == 0 {
                Slot { path: key_path(m, s / 2), before: get_in(x, key_path(m, s / 2)), after: None }
            } else {
                Slot {
                    path: value_path(m, s / 2),
                    before: None,
                    after: get_in(x, key_path(m, s / 2)),
                }
            },
    )
}

/// Whether the entries of a mapping are pointers in the form that a
/// mapping can be written in, to paths of names.
pub open spec fn plain_mapping(m: Members) -> bool {
    forall|i: int|
        0 <= i < m.len() ==> (#[trigger] m[i]).1 is String && names_pointer(m[i].0, key_path(m, i))
            && names_pointer(value_text(m, i), value_path(m, i))
}

/// Whether an entry of one mapping is an entry of another with key and
/// value changed about.
pub open spec fn swapped_at(inv: Members, j: int, m: Members, i: int) -> bool {
    inv[j] == (value_text(m, i), JsonView::String(m[i].0))
}

/// Whether an entry of one mapping is some entry of another changed about.
pub open spec fn comes_from(inv: Members, j: int, m: Members) -> bool {
    exists|i: int| 0 <= i < m.len() && #[trigger] swapped_at(inv, j, m, i)
}

/// Whether an entry of one mapping, changed about, is some entry of another.
pub open spec fn goes_to(m: Members, i: int, inv: Members) -> bool {
    exists|j: int| 0 <= j < inv.len() && #[trigger] swapped_at(inv, j, m, i)
}

/// Whether a mapping is the inverse of another: it has as many entries,
/// each entry of the one is an entry of the other with key and value changed
/// about, and each entry of the other is found so in the one.
pub open spec fn inverse_of(inv: Members, m: Members) -> bool {
    &&& inv.len() == m.len()
    &&& forall|j: int| 0 <= j < inv.len() ==> #[trigger] comes_from(inv, j, m)
    &&& forall|i: int| 0 <= i < m.len() ==> #[trigger] goes_to(m, i, inv)
}

/// The entry of a mapping that an entry of its inverse is the inverse of.
pub open spec fn partner(m: Members, inv: Members, j: int) -> int {
    choose|i: int| 0 <= i < m.len() && #[trigger] swapped_at(inv, j, m, i)
}

/// The partner of an entry of the inverse is an entry of the mapping, of
/// which the entry is the inverse.
proof fn lemma_partner(m: Members, inv: Members, j: int)
    requires
        inverse_of(inv, m),
        0 <= j < inv.len(),
    ensures
        0 <= partner(m, inv, j) < m.len(),
        swapped_at(inv, j, m, partner(m, inv, j)),
{
    assert(comes_from(inv, j, m));
}

/// Which values are moved after the first `j` entries of the inverse are
/// carried out.
pub open spec fn moved_there(m: Members, inv: Members, j: int) -> Seq<bool>
    decreases j,
{
    if j <= 0 || j > inv.len() {
        Seq::new(2 * m.len(), |s: int| false)
    } else {
        moved_there(m, inv, j - 1).update(2 * partner(m, inv, j - 1) + 1, true).update(
            2 * partner(m, inv, j - 1),
            true,
        )
    }
}

/// Which values are still moved after the first `i` entries of the
/// mapping are carried out, once those of its inverse were.
pub open spec fn moved_back(m: Members, inv: Members, i: int) -> Seq<bool>
    decreases i,
{
    if i <= 0 || i > m.len() {
        moved_there(m, inv, inv.len() as int)
    } else {
        moved_back(m, inv, i - 1).update(2 * (i - 1), false).update(2 * (i - 1) + 1, false)
    }
}

proof fn lemma_moved_there(m: Members, inv: Members, j: int)
    requires
        inverse_of(inv, m),
        0 <= j <= inv.len(),
    ensures
        moved_there(m, inv, j).len() == 2 * m.len(),
    decreases j,
{
    if j > 0 {
        lemma_moved_there(m, inv, j - 1);
        lemma_partner(m, inv, j - 1);
    }
}

/// The values of an entry of the inverse that is carried out are moved.
proof fn lemma_moved_there_at(m: Members, inv: Members, j: int, k: int)
    requires
        inverse_of(inv, m),
        0 <= k < j <= inv.len(),
    ensures
        moved_there(m, inv, j)[2 * partner(m, inv, k)],
        moved_there(m, inv, j)[2 * partner(m, inv, k) + 1],
    decreases j,
{
    lemma_moved_there(m, inv, j - 1);
    lemma_partner(m, inv, j - 1);
    lemma_partner(m, inv, k);
    if k < j - 1 {
        lemma_moved_there_at(m, inv, j - 1, k);
    }
}

proof fn lemma_moved_back(m: Members, inv: Members, i: int)
    requires
        inverse_of(inv, m),
        0 <= i <= m.len(),
    ensures
        moved_back(m, inv, i).len() == 2 * m.len(),
        forall|s: int| 0 <= s < 2 * i ==> !(#[trigger] moved_back(m, inv, i)[s]),
        forall|s: int|
            2 * i <= s < 2 * m.len() ==> #[trigger] moved_back(m, inv, i)[s] == moved_there(
                m,
                inv,
                inv.len() as int,
            )[s],
    decreases i,
{
    lemma_moved_there(m, inv, inv.len() as int);
    if i > 0 {
        lemma_moved_back(m, inv, i - 1);
    }
}

/// Whether a document and a mapping are such that the document can be
/// remapped by the inverse of the mapping and by the mapping without loss:
/// the entries of the mapping are pointers to paths of names; under the path
/// of each key a value lies; the path of each value is free, and the object
/// that it ends in is there; and no two of these paths begin alike, in that
/// one begins with the other.
pub open spec fn remappable(x: JsonView, m: Members) -> bool {
    &&& sorted_keys(m)
    &&& plain_mapping(m)
    &&& places_ok(x, places_of(x, m))
    &&& forall|i: int| 0 <= i < m.len() ==> get_in(x, #[trigger] key_path(m, i)) is Some
}

/// After the entries of the inverse are all carried out, every value is moved.
proof fn lemma_all_moved(m: Members, inv: Members, s: int)
    requires
        sorted_keys(m),
        inverse_of(inv, m),
        0 <= s < 2 * m.len(),
    ensures
        moved_there(m, inv, inv.len() as int)[s],
{
    let i = s / 2;
    assert(goes_to(m, i, inv));
    let j = choose|j: int| 0 <= j < inv.len() && #[trigger] swapped_at(inv, j, m, i);
    lemma_partner(m, inv, j);
    let p = partner(m, inv, j);
    assert(m[p].0 == m[i].0);
    lemma_get_by_index(m, p);
    lemma_get_by_index(m, i);
    assert(p == i);
    lemma_moved_there_at(m, inv, inv.len() as int, j);
}

/// What the places of a mapping are, entry by entry.
proof fn lemma_places_of(x: JsonView, m: Members, i: int)
    requires
        0 <= i < m.len(),
    ensures
        places_of(x, m).len() == 2 * m.len(),
        places_of(x, m)[2 * i] == (Slot {
            path: key_path(m, i),
            before: get_in(x, key_path(m, i)),
            after: None,
        }),
        places_of(x, m)[2 * i + 1] == (Slot {
            path: value_path(m, i),
            before: None,
            after: get_in(x, key_path(m, i)),
        }),
{
    reveal(places_of);
    assert((2 * i) % 2 == 0 && (2 * i) / 2 == i);
    assert((2 * i + 1) % 2 == 1 && (2 * i + 1) / 2 == i);
}

/// A mapping has two places for each of its entries.
proof fn lemma_places_count(x: JsonView, m: Members)
    ensures
        places_of(x, m).len() == 2 * m.len(),
{
    reveal(places_of);
}

/// An entry that moves a value between two of the places, carried out on
/// the document in which some values are moved, gives the document in which
/// the two places are changed as well.
proof fn lemma_carry_step(
    x: JsonView,
    slots: Seq<Slot>,
    flags: Seq<bool>,
    from: int,
    to: int,
    from_moved: bool,
    to_moved: bool,
    source: JsonView,
    from_text: Seq<char>,
    to_text: Seq<char>,
)
    requires
        wf_json(x),
        places_ok(x, slots),
        flags.len() == slots.len(),
        0 <= from < slots.len(),
        0 <= to < slots.len(),
        names_pointer(from_text, slots[from].path),
        names_pointer(to_text, slots[to].path),
        get_in(source, slots[from].path) is Some,
        standing(slots[to], to_moved) == get_in(source, slots[from].path),
        standing(slots[from], from_moved) is None,
    ensures
        moved(
            moved_doc(x, slots, flags, slots.len() as int),
            source,
            to_text,
            JsonView::String(from_text),
        ) == Some(
            moved_doc(
                x,
                slots,
                flags.update(to, to_moved).update(from, from_moved),
                slots.len() as int,
            ),
        ),
{
    let n = slots.len() as int;
    let d = moved_doc(x, slots, flags, n);
    lemma_moved_doc_places(x, slots, flags, n, to);
    lemma_move_one(x, slots, flags, n, to, to_moved);
    let mid = flags.update(to, to_moved);
    lemma_moved_doc_places(x, slots, mid, n, from);
    lemma_moved_is_pokes(d, source, to_text, slots[to].path, from_text, slots[from].path);
    lemma_move_one(x, slots, mid, n, from, from_moved);
}

/// The document after the first `j` entries of the inverse of a mapping
/// are carried out is the document in which the values of those entries are
/// moved.
proof fn lemma_fold_there(x: JsonView, m: Members, inv: Members, j: int)
    requires
        wf_json(x),
        remappable(x, m),
        inverse_of(inv, m),
        0 <= j <= inv.len(),
    ensures
        remapped_upto(x, x, inv, j) == Some(
            moved_doc(x, places_of(x, m), moved_there(m, inv, j), 2 * m.len() as int),
        ),
    decreases j,
{
    let slots = places_of(x, m);
    let n = 2 * m.len();
    lemma_places_count(x, m);
    if j == 0 {
        lemma_moved_there(m, inv, 0);
        lemma_nothing_moved(x, slots, moved_there(m, inv, 0), n as int);
    } else {
        lemma_fold_there(x, m, inv, j - 1);
        lemma_moved_there(m, inv, j - 1);
        let before = moved_there(m, inv, j - 1);
        let i = partner(m, inv, j - 1);
        lemma_partner(m, inv, j - 1);
        lemma_places_of(x, m, i);
        assert(get_in(x, key_path(m, i)) is Some);
        assert(names_pointer(m[i].0, key_path(m, i)) && names_pointer(
            value_text(m, i),
            value_path(m, i),
        ));
        lemma_carry_step(
            x,
            slots,
            before,
            2 * i,
            2 * i + 1,
            true,
            true,
            x,
            m[i].0,
            value_text(m, i),
        );
    }
}

/// The document after the first `i` entries of a mapping are carried out
/// on the document that its inverse made is the document in which the values
/// of the other entries are moved.
proof fn lemma_fold_back(x: JsonView, y: JsonView, m: Members, inv: Members, i: int)
    requires
        wf_json(x),
        remappable(x, m),
        inverse_of(inv, m),
        y == moved_doc(
            x,
            places_of(x, m),
            moved_there(m, inv, inv.len() as int),
            2 * m.len() as int,
        ),
        0 <= i <= m.len(),
    ensures
        remapped_upto(y, y, m, i) == Some(
            moved_doc(x, places_of(x, m), moved_back(m, inv, i), 2 * m.len() as int),
        ),
    decreases i,
{
    let slots = places_of(x, m);
    let n = 2 * m.len();
    lemma_places_count(x, m);
    if i > 0 {
        lemma_fold_back(x, y, m, inv, i - 1);
        lemma_moved_back(m, inv, i - 1);
        lemma_moved_there(m, inv, inv.len() as int);
        let all = moved_there(m, inv, inv.len() as int);
        let before = moved_back(m, inv, i - 1);
        let e = i - 1;
        lemma_places_of(x, m, e);
        assert(get_in(x, key_path(m, e)) is Some);
        assert(names_pointer(m[e].0, key_path(m, e)) && names_pointer(
            value_text(m, e),
            value_path(m, e),
        ));
        // What the entry reads where its value points to.
        lemma_all_moved(m, inv, 2 * e + 1);
        lemma_moved_doc_places(x, slots, all, n as int, 2 * e + 1);
        assert(get_in(y, value_path(m, e)) == get_in(x, key_path(m, e)));
        lemma_carry_step(
            x,
            slots,
            before,
            2 * e + 1,
            2 * e,
            false,
            false,
            y,
            value_text(m, e),
            m[e].0,
        );
        assert(m[e].1 == JsonView::String(value_text(m, e)));
    }
}

/// A document that is remapped by the inverse of a mapping and then by
/// the mapping is the document again, where neither loses anything: see
/// `remappable`.
pub proof fn lemma_remap_inverse(x: JsonView, m: Members, inv: Members)
    requires
        wf_json(x),
        remappable(x, m),
        inverse_of(inv, m),
    ensures
        remapped(x, JsonView::Object(inv)) is Some,
        remapped(remapped(x, JsonView::Object(inv))->Some_0, JsonView::Object(m)) == Some(x),
{
    let slots = places_of(x, m);
    let n = 2 * m.len();
    lemma_places_count(x, m);
    lemma_fold_there(x, m, inv, inv.len() as int);
    let y = moved_doc(x, slots, moved_there(m, inv, inv.len() as int), n as int);
    lemma_fold_back(x, y, m, inv, m.len() as int);
    lemma_moved_back(m, inv, m.len() as int);
    lemma_nothing_moved(x, slots, moved_back(m, inv, m.len() as int), n as int);
}

/// The names of the pointer of a path of names are the names.
proof fn lemma_key_names_of_path(names: Seq<Seq<char>>)
    ensures
        token_names(property_path(names)) == names,
{
    assert(token_names(property_path(names)) =~= names);
}

/// Where a path leads to a value, every path that it begins with does.
proof fn lemma_get_in_start(d: JsonView, path: Seq<Seq<char>>, n: int)
    requires
        get_in(d, path) is Some,
        0 <= n <= path.len(),
    ensures
        get_in(d, path.take(n)) is Some,
    decreases path.len() - n,
{
    if n == path.len() {
        assert(path.take(n) =~= path);
    } else {
        lemma_get_in_start(d, path, n + 1);
        assert(path.take(n + 1) =~= path.take(n).push(path[n]));
        lemma_get_in_push(d, path.take(n), path[n]);
    }
}

/// Where a mapping moves one value, the mapping carried out after its
/// inverse gives the document back: for the pointers `k` and `v` of two
/// paths between which a value can be moved without loss, a document
/// remapped by `{v: k}` and then by `{k: v}` is the document.
pub proof fn lemma_remap_there_and_back(
    x: JsonView,
    k: Seq<char>,
    k_names: Seq<Seq<char>>,
    v: Seq<char>,
    v_names: Seq<Seq<char>>,
)
    requires
        wf_json(x),
        names_pointer(k, k_names),
        names_pointer(v, v_names),
        movable(x, k_names, v_names),
    ensures
        remapped(x, single_move(v, k)) is Some,
        remapped(remapped(x, single_move(v, k))->Some_0, single_move(k, v)) == Some(x),
{
    let m = seq![(k, JsonView::String(v))];
    let inv = seq![(v, JsonView::String(k))];
    lemma_key_names_of_path(k_names);
    lemma_key_names_of_path(v_names);
    assert(key_path(m, 0) == k_names);
    assert(value_text(m, 0) == v);
    assert(value_path(m, 0) == v_names);
    assert(swapped_at(inv, 0, m, 0));
    assert(comes_from(inv, 0, m));
    assert(goes_to(m, 0, inv));
    let slots = places_of(x, m);
    lemma_places_of(x, m, 0);
    assert(places_ok(x, slots)) by {
        reveal(places_ok);
        assert(k_names.drop_last().push(k_names.last()) =~= k_names);
        assert(v_names.drop_last().push(v_names.last()) =~= v_names);
        lemma_get_in_push(x, k_names.drop_last(), k_names.last());
        lemma_get_in_push(x, v_names.drop_last(), v_names.last());
        lemma_get_in_wf(x, k_names);
        if begins_with(k_names, v_names) {
            lemma_get_in_start(x, k_names, v_names.len() as int);
        }
        assert(apart(k_names, v_names));
        assert forall|i: int, j: int|
            0 <= i < slots.len() && 0 <= j < slots.len() && i != j implies apart(
            (#[trigger] slots[i]).path,
            (#[trigger] slots[j]).path,
        ) by {
            assert(i == 0 && j == 1 || i == 1 && j == 0);
        }
    }
    assert(remappable(x, m));
    lemma_remap_inverse(x, m, inv);
}

} // verus!
