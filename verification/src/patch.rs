//! Merge patches, and the moving of values from one place of a document to
//! another.

use crate::errors::Error;
use crate::json::{
    find_key, lemma_get_wf, lemma_insert_wf, lemma_remove_wf, lemma_view_object, members_view,
    obj_get, obj_insert, obj_remove, remove_member, wf_json, wf_members, Json, JsonView, Members,
};
use crate::pointer::{laid_down, lay_down, parse_pointer, query, Edit, EditView, Pointer};
use crate::text::{chars_of, owned, text_of};
use vstd::prelude::*;

verus! {

/// The target with a merge patch applied: a patch that is no object takes
/// the target's place; the members of one that is an object are merged into
/// the target's, a null taking the member away.
pub open spec fn merged(target: JsonView, patch: JsonView) -> JsonView
    decreases patch, 1int,
{
    match patch {
        JsonView::Object(pm) => {
            let base = match target {
                JsonView::Object(m) => m,
                _ => Seq::empty(),
            };
            JsonView::Object(merged_members(base, pm, pm.len() as int))
        },
        _ => patch,
    }
}

/// The members `base` after the first `n` members of the patch `pm` are merged in.
pub open spec fn merged_members(base: Members, pm: Members, n: int) -> Members
    decreases pm, 0int, n,
{
    if n <= 0 || n > pm.len() {
        base
    } else {
        let before = merged_members(base, pm, n - 1);
        let k = pm[n - 1].0;
        let v = pm[n - 1].1;
        if v is Null {
            obj_remove(before, k)
        } else {
            let old = match obj_get(before, k) {
                Some(c) => c,
                None => JsonView::Null,
            };
            obj_insert(before, k, merged(old, v))
        }
    }
}

fn merge_owned(target: Json, patch: &Json) -> (r: Json)
    requires
        target.wf(),
        patch.wf(),
    ensures
        r@ == merged(target@, patch@),
        r.wf(),
    decreases patch,
{
    match patch {
        Json::Object(pm) => {
            proof {
                lemma_view_object(*pm);
            }
            let ghost pmv = members_view(pm@);
            let mut members: Vec<(String, Json)> = match target {
                Json::Object(m) => {
                    proof {
                        lemma_view_object(m);
                    }
                    m
                },
                _ => {
                    let m: Vec<(String, Json)> = Vec::new();
                    assert(members_view(m@) =~= Seq::empty());
                    m
                },
            };
            let ghost base = members_view(members@);
            let mut i: usize = 0;
            while i < pm.len()
                invariant
                    i <= pm@.len(),
                    pmv == members_view(pm@),
                    wf_members(pmv),
                    forall|j: int| 0 <= j < pm@.len() ==> decreases_to!(patch => (#[trigger] pm@[j]).1),
                    wf_members(members_view(members@)),
                    members_view(members@) == merged_members(base, pmv, i as int),
                decreases pm@.len() - i,
            {
                let ghost before = members_view(members@);
                let key = &pm[i].0;
                let value = &pm[i].1;
                proof {
                    assert(pmv[i as int].0 == key@);
                    assert(pmv[i as int].1 == value@);
                    assert(wf_json(pmv[i as int].1));
                }
                match value {
                    Json::Null => {
                        let _ = remove_member(&mut members, key.as_str());
                        proof {
                            lemma_remove_wf(before, key@);
                        }
                    },
                    _ => {
                        let (p, found) = find_key(&members, key.as_str());
                        proof {
                            lemma_get_wf(before, key@);
                        }
                        if found {
                            let mut slot = (String::new(), Json::Null);
                            std::mem::swap(&mut members[p], &mut slot);
                            let c = merge_owned(slot.1, value);
                            let ghost cv = c@;
                            members[p] = (key.clone(), c);
                            proof {
                                assert(members_view(members@) =~= before.update(
                                    p as int,
                                    (key@, cv),
                                ));
                                lemma_insert_wf(before, key@, cv);
                            }
                        } else {
                            let c = merge_owned(Json::Null, value);
                            let ghost cv = c@;
                            members.insert(p, (key.clone(), c));
                            proof {
                                assert(members_view(members@) =~= before.insert(
                                    p as int,
                                    (key@, cv),
                                ));
                                lemma_insert_wf(before, key@, cv);
                            }
                        }
                    },
                }
                i = i + 1;
            }
            proof {
                lemma_view_object(members);
            }
            Json::Object(members)
        },
        _ => patch.duplicate(),
    }
}

/// Applies a merge patch to a document.
pub fn merge(doc: &mut Json, patch: &Json)
    requires
        old(doc).wf(),
        patch.wf(),
    ensures
        final(doc)@ == merged(old(doc)@, patch@),
        final(doc).wf(),
{
    let mut target = Json::Null;
    std::mem::swap(doc, &mut target);
    *doc = merge_owned(target, patch);
}

/// The place of the last `c` in a text.
pub open spec fn last_index_of(s: Seq<char>, c: char) -> Option<int>
    decreases s.len(),
{
    if s.len() == 0 {
        None
    } else if s.last() == c {
        Some(s.len() - 1)
    } else {
        last_index_of(s.drop_last(), c)
    }
}

/// Finds the last `c` in a text.
fn find_last(chars: &Vec<char>, c: char) -> (r: Option<usize>)
    ensures
        match r {
            Some(i) => last_index_of(chars@, c) == Some(i as int) && i < chars@.len(),
            None => last_index_of(chars@, c) is None,
        },
{
    let mut n: usize = chars.len();
    proof {
        assert(chars@.take(n as int) =~= chars@);
    }
    while n > 0
        invariant
            n <= chars@.len(),
            last_index_of(chars@, c) == last_index_of(chars@.take(n as int), c),
        decreases n,
    {
        proof {
            assert(chars@.take(n as int).drop_last() =~= chars@.take(n - 1));
        }
        if chars[n - 1] == c {
            return Some(n - 1);
        }
        n = n - 1;
    }
    None
}

/// The document after one entry of a mapping is carried out: the value that
/// `from` leads to in `source` is laid down at `to`, and the member that
/// `from` names is taken out of its parent. `from` is cut at its last `/`:
/// what stands before is the pointer to the parent, what stands after is the
/// key of the member, as written.
pub open spec fn moved(doc: JsonView, source: JsonView, to: Seq<char>, from: JsonView) -> Option<
    JsonView,
> {
    match from {
        JsonView::String(f) => match query(source, parse_pointer(f)) {
            Some(v) => match laid_down(doc, parse_pointer(to), EditView::Put(v)) {
                Some(placed) => match last_index_of(f, '/') {
                    Some(cut) => laid_down(
                        placed,
                        parse_pointer(f.take(cut)),
                        EditView::RemoveKey(f.skip(cut + 1)),
                    ),
                    None => None,
                },
                None => None,
            },
            None => None,
        },
        _ => None,
    }
}

/// The document after the first `n` entries of a mapping are carried out,
/// in the order of their keys. Every entry reads from `source`.
pub open spec fn remapped_upto(doc: JsonView, source: JsonView, entries: Members, n: int) -> Option<
    JsonView,
>
    decreases n,
{
    if n <= 0 || n > entries.len() {
        Some(doc)
    } else {
        match remapped_upto(doc, source, entries, n - 1) {
            Some(d) => moved(d, source, entries[n - 1].0, entries[n - 1].1),
            None => None,
        }
    }
}

/// The document with a mapping carried out on it. There is none where the
/// mapping is no object, or one of its entries cannot be carried out.
pub open spec fn remapped(doc: JsonView, mapping: JsonView) -> Option<JsonView> {
    match mapping {
        JsonView::Object(entries) => remapped_upto(doc, doc, entries, entries.len() as int),
        _ => None,
    }
}

fn move_entry(doc: Json, source: &Json, to: &str, from: &Json) -> (r: Option<Json>)
    requires
        doc.wf(),
        source.wf(),
    ensures
        match r {
            Some(v) => moved(doc@, source@, to@, from@) == Some(v@) && v.wf(),
            None => moved(doc@, source@, to@, from@) is None,
        },
{
    let from_text: &str = match from.as_str() {
        Some(f) => f,
        None => {
            return None;
        },
    };
    let from_ptr = Pointer::from_str(from_text);
    let value = match from_ptr.query(source) {
        Some(v) => v.duplicate(),
        None => {
            return None;
        },
    };
    let to_ptr = Pointer::from_str(to);
    assert(to_ptr@.skip(0) =~= to_ptr@);
    let placed = match lay_down(doc, &to_ptr, 0, Edit::Put(value)) {
        Some(p) => p,
        None => {
            return None;
        },
    };
    let chars = chars_of(from_text);
    let cut = match find_last(&chars, '/') {
        Some(c) => c,
        None => {
            return None;
        },
    };
    let parent_text = text_of(&chars, 0, cut);
    let child_key = text_of(&chars, cut + 1, chars.len());
    proof {
        assert(chars@.subrange(0, cut as int) =~= from_text@.take(cut as int));
        assert(chars@.subrange(cut + 1, chars@.len() as int) =~= from_text@.skip(cut + 1));
    }
    let parent_ptr = Pointer::from_str(parent_text.as_str());
    assert(parent_ptr@.skip(0) =~= parent_ptr@);
    lay_down(placed, &parent_ptr, 0, Edit::RemoveKey(child_key))
}

/// Carries out a mapping on a document: for each entry, whose key and
/// value are pointers, the value that the entry's value leads to is moved to
/// where the entry's key leads. On failure the document is left as it was.
pub fn remap(doc: &mut Json, mapping: &Json) -> (r: Result<(), Error>)
    requires
        old(doc).wf(),
        mapping.wf(),
    ensures
        final(doc).wf(),
        match r {
            Ok(_) => remapped(old(doc)@, mapping@) == Some(final(doc)@),
            Err(e) => remapped(old(doc)@, mapping@) is None && final(doc)@ == old(doc)@
                && e is InvalidMapping,
        },
{
    let entries = match mapping {
        Json::Object(entries) => {
            proof {
                lemma_view_object(*entries);
            }
            entries
        },
        _ => {
            return Err(Error::InvalidMapping(owned("expected the mapping to be an object")));
        },
    };
    let source = doc.duplicate();
    let mut current = Json::Null;
    std::mem::swap(doc, &mut current);
    let ghost ev = members_view(entries@);
    let mut i: usize = 0;
    while i < entries.len()
        invariant
            i <= entries@.len(),
            ev == members_view(entries@),
            mapping@ == JsonView::Object(ev),
            source@ == old(doc)@,
            source.wf(),
            current.wf(),
            remapped_upto(old(doc)@, old(doc)@, ev, i as int) == Some(current@),
        decreases entries@.len() - i,
    {
        proof {
            assert(ev[i as int].0 == entries@[i as int].0@);
            assert(ev[i as int].1 == entries@[i as int].1@);
        }
        match move_entry(current, &source, entries[i].0.as_str(), &entries[i].1) {
            Some(next) => {
                current = next;
            },
            None => {
                proof {
                    lemma_remapped_stays_none(old(doc)@, old(doc)@, ev, i + 1, ev.len() as int);
                }
                *doc = source;
                return Err(
                    Error::InvalidMapping(
                        crate::errors::describe(
                            "could not move the value for ",
                            entries[i].0.as_str(),
                        ),
                    ),
                );
            },
        }
        i = i + 1;
    }
    *doc = current;
    Ok(())
}

/// Once an entry of a mapping fails, the mapping fails.
pub proof fn lemma_remapped_stays_none(
    doc: JsonView,
    source: JsonView,
    entries: Members,
    n: int,
    m: int,
)
    requires
        0 <= n <= m <= entries.len(),
        remapped_upto(doc, source, entries, n) is None,
    ensures
        remapped_upto(doc, source, entries, m) is None,
    decreases m - n,
{
    if n < m {
        lemma_remapped_stays_none(doc, source, entries, n, m - 1);
    }
}

} // verus!
