//! Names of streams made fit to be names of collections.

use crate::text::{chars_of, lemma_split_nonempty, split};
use vstd::prelude::*;

verus! {

/// Whether a character may stand in a chunk of a name: a letter or digit of
/// ASCII, `-`, `.` or `_`.
pub open spec fn allowed(c: char) -> bool {
    ('a' <= c && c <= 'z') || ('A' <= c && c <= 'Z') || ('0' <= c && c <= '9') || c == '-' || c
        == '.' || c == '_'
}

/// The characters of a text that may stand in a chunk of a name.
pub open spec fn kept(s: Seq<char>) -> Seq<char>
    decreases s.len(),
{
    if s.len() == 0 {
        s
    } else if allowed(s.last()) {
        kept(s.drop_last()).push(s.last())
    } else {
        kept(s.drop_last())
    }
}

/// Of the first `n` chunks, what is kept of each, without those of which
/// nothing is kept.
pub open spec fn kept_chunks(chunks: Seq<Seq<char>>, n: int) -> Seq<Seq<char>>
    decreases n,
{
    if n <= 0 || n > chunks.len() {
        Seq::empty()
    } else if kept(chunks[n - 1]).len() > 0 {
        kept_chunks(chunks, n - 1).push(kept(chunks[n - 1]))
    } else {
        kept_chunks(chunks, n - 1)
    }
}

/// The chunks with a `/` between each two.
pub open spec fn joined(chunks: Seq<Seq<char>>) -> Seq<char>
    decreases chunks.len(),
{
    if chunks.len() == 0 {
        Seq::empty()
    } else if chunks.len() == 1 {
        chunks[0]
    } else {
        joined(chunks.drop_last()).push('/') + chunks.last()
    }
}

/// The name recommended for a stream: the stream's name is split at each
/// `/`; of each chunk the characters are kept that may stand in a name;
/// the chunks of which something is left are joined by `/`.
pub open spec fn recommended_name(s: Seq<char>) -> Seq<char> {
    joined(kept_chunks(split(s, '/'), split(s, '/').len() as int))
}

/// What is kept of the first chunks depends on those chunks alone.
pub proof fn lemma_kept_chunks_prefix(a: Seq<Seq<char>>, b: Seq<Seq<char>>, n: int)
    requires
        0 <= n <= a.len(),
        n <= b.len(),
        forall|i: int| 0 <= i < n ==> a[i] == b[i],
    ensures
        kept_chunks(a, n) == kept_chunks(b, n),
    decreases n,
{
    if n > 0 {
        lemma_kept_chunks_prefix(a, b, n - 1);
    }
}

fn is_allowed(c: char) -> (r: bool)
    ensures
        r == allowed(c),
{
    let v: u32 = c as u32;
    (97 <= v && v <= 122) || (65 <= v && v <= 90) || (48 <= v && v <= 57) || c == '-' || c == '.'
        || c == '_'
}

/// Appends a chunk to what has been joined.
fn push_chunk(out: &mut String, chunk: &Vec<char>, Ghost(sofar): Ghost<Seq<Seq<char>>>)
    requires
        old(out)@ == joined(sofar),
        chunk@.len() > 0,
        forall|i: int| 0 <= i < sofar.len() ==> (#[trigger] sofar[i]).len() > 0,
    ensures
        final(out)@ == joined(sofar.push(chunk@)),
{
    let ghost next = sofar.push(chunk@);
    assert(next.drop_last() =~= sofar);
    if out.as_str().unicode_len() > 0 {
        out.push('/');
    }
    proof {
        if sofar.len() > 0 {
            lemma_joined_nonempty(sofar);
        }
    }
    let ghost head = out@;
    let mut i: usize = 0;
    while i < chunk.len()
        invariant
            i <= chunk@.len(),
            out@ == head + chunk@.take(i as int),
        decreases chunk@.len() - i,
    {
        out.push(chunk[i]);
        assert(out@ =~= head + chunk@.take(i + 1));
        i = i + 1;
    }
    assert(chunk@.take(chunk@.len() as int) =~= chunk@);
    assert(out@ =~= joined(next));
}

/// Chunks that are not empty are joined to a text that is not empty.
pub proof fn lemma_joined_nonempty(chunks: Seq<Seq<char>>)
    requires
        chunks.len() > 0,
        forall|i: int| 0 <= i < chunks.len() ==> (#[trigger] chunks[i]).len() > 0,
    ensures
        joined(chunks).len() > 0,
    decreases chunks.len(),
{
    if chunks.len() > 1 {
    }
}

/// Of every chunk that is kept something is left.
pub proof fn lemma_kept_chunks_full(chunks: Seq<Seq<char>>, n: int)
    ensures
        forall|i: int| 0 <= i < kept_chunks(chunks, n).len() ==> (#[trigger] kept_chunks(
            chunks,
            n,
        )[i]).len() > 0,
    decreases n,
{
    if n <= 0 || n > chunks.len() {
    } else {
        lemma_kept_chunks_full(chunks, n - 1);
        let prev = kept_chunks(chunks, n - 1);
        let now = kept_chunks(chunks, n);
        assert forall|i: int| 0 <= i < now.len() implies (#[trigger] now[i]).len() > 0 by {
            if i < prev.len() {
                assert(now[i] == prev[i]);
            }
        }
    }
}

/// The name recommended for a stream.
pub fn stream_to_recommended_name(stream: &str) -> (r: String)
    ensures
        r@ == recommended_name(stream@),
{
    let chars = chars_of(stream);
    let n: usize = chars.len();
    let mut out = String::new();
    let mut current: Vec<char> = Vec::new();
    let mut i: usize = 0;
    proof {
        assert(chars@.take(0) =~= Seq::<char>::empty());
        assert(current@ =~= kept(split(chars@.take(0), '/').last()));
    }
    while i < n
        invariant
            n == chars@.len(),
            i <= n,
            out@ == joined(
                kept_chunks(
                    split(chars@.take(i as int), '/'),
                    split(chars@.take(i as int), '/').len() - 1,
                ),
            ),
            current@ == kept(split(chars@.take(i as int), '/').last()),
        decreases n - i,
    {
        let ghost before = split(chars@.take(i as int), '/');
        let ghost after = split(chars@.take(i + 1), '/');
        let c = chars[i];
        proof {
            lemma_split_nonempty(chars@.take(i as int), '/');
            assert(chars@.take(i + 1).drop_last() =~= chars@.take(i as int));
            assert(chars@.take(i + 1).last() == c);
            lemma_kept_chunks_full(before, before.len() - 1);
        }
        if c == '/' {
            proof {
                assert(after == before.push(Seq::empty()));
                lemma_kept_chunks_prefix(after, before, before.len() as int);
                lemma_kept_chunks_prefix(before, after, before.len() - 1);
            }
            if current.len() > 0 {
                push_chunk(&mut out, &current, Ghost(kept_chunks(before, before.len() - 1)));
                current = Vec::new();
            }
            assert(current@ =~= kept(after.last()));
        } else {
            proof {
                assert(after == before.update(before.len() - 1, before.last().push(c)));
                lemma_kept_chunks_prefix(after, before, before.len() - 1);
                assert(before.last().push(c).drop_last() =~= before.last());
            }
            if is_allowed(c) {
                current.push(c);
            }
        }
        i = i + 1;
    }
    proof {
        assert(chars@.take(n as int) =~= chars@);
        lemma_split_nonempty(chars@, '/');
        lemma_kept_chunks_full(split(chars@, '/'), split(chars@, '/').len() - 1);
    }
    if current.len() > 0 {
        let ghost all = split(chars@, '/');
        push_chunk(&mut out, &current, Ghost(kept_chunks(all, all.len() - 1)));
    }
    out
}

/// Every chunk holds something, and only what may stand in a name.
pub open spec fn clean(chunks: Seq<Seq<char>>) -> bool {
    forall|i: int|
        0 <= i < chunks.len() ==> (#[trigger] chunks[i]).len() > 0 && all_allowed(chunks[i])
}

/// Whether a text holds only what may stand in a chunk of a name.
pub open spec fn all_allowed(s: Seq<char>) -> bool {
    forall|j: int| 0 <= j < s.len() ==> allowed(#[trigger] s[j])
}

proof fn lemma_kept_allowed(s: Seq<char>)
    ensures
        all_allowed(kept(s)),
    decreases s.len(),
{
    if s.len() > 0 {
        lemma_kept_allowed(s.drop_last());
        let k = kept(s.drop_last());
        if allowed(s.last()) {
            assert forall|j: int| 0 <= j < kept(s).len() implies allowed(#[trigger] kept(s)[j]) by {
                if j < k.len() {
                    assert(kept(s)[j] == k[j]);
                }
            }
        }
    }
}

proof fn lemma_kept_of_allowed(s: Seq<char>)
    requires
        all_allowed(s),
    ensures
        kept(s) == s,
    decreases s.len(),
{
    if s.len() > 0 {
        assert(allowed(s[s.len() - 1]));
        assert forall|j: int| 0 <= j < s.drop_last().len() implies allowed(
            #[trigger] s.drop_last()[j],
        ) by {
            assert(s.drop_last()[j] == s[j]);
        }
        lemma_kept_of_allowed(s.drop_last());
        assert(s.drop_last().push(s.last()) =~= s);
    }
}

proof fn lemma_kept_chunks_clean(chunks: Seq<Seq<char>>, n: int)
    ensures
        clean(kept_chunks(chunks, n)),
    decreases n,
{
    if n <= 0 || n > chunks.len() {
    } else {
        lemma_kept_chunks_clean(chunks, n - 1);
        lemma_kept_allowed(chunks[n - 1]);
        let prev = kept_chunks(chunks, n - 1);
        let now = kept_chunks(chunks, n);
        assert forall|i: int| 0 <= i < now.len() implies (#[trigger] now[i]).len() > 0
            && all_allowed(now[i]) by {
            if i < prev.len() {
                assert(now[i] == prev[i]);
            }
        }
    }
}

proof fn lemma_kept_chunks_of_clean(chunks: Seq<Seq<char>>, n: int)
    requires
        clean(chunks),
        0 <= n <= chunks.len(),
    ensures
        kept_chunks(chunks, n) == chunks.take(n),
    decreases n,
{
    if n > 0 {
        lemma_kept_chunks_of_clean(chunks, n - 1);
        assert(chunks[n - 1].len() > 0 && all_allowed(chunks[n - 1]));
        lemma_kept_of_allowed(chunks[n - 1]);
        assert(chunks.take(n - 1).push(chunks[n - 1]) =~= chunks.take(n));
    } else {
        assert(chunks.take(0) =~= Seq::<Seq<char>>::empty());
    }
}

/// A text split after more text without `/` was added to it has that text
/// added to its last chunk.
proof fn lemma_split_append(a: Seq<char>, b: Seq<char>)
    requires
        all_allowed(b),
    ensures
        split(a + b, '/') == split(a, '/').update(
            split(a, '/').len() - 1,
            split(a, '/').last() + b,
        ),
    decreases b.len(),
{
    lemma_split_nonempty(a, '/');
    let p = split(a, '/');
    if b.len() == 0 {
        assert(a + b =~= a);
        assert(p.last() + b =~= p.last());
        assert(p.update(p.len() - 1, p.last()) =~= p);
    } else {
        let head = b.drop_last();
        let x = b.last();
        assert(allowed(b[b.len() - 1]));
        assert forall|j: int| 0 <= j < head.len() implies allowed(#[trigger] head[j]) by {
            assert(head[j] == b[j]);
        }
        lemma_split_append(a, head);
        assert((a + b).drop_last() =~= a + head);
        assert((a + b).last() == x);
        let q = split(a + head, '/');
        assert(q == p.update(p.len() - 1, p.last() + head));
        assert((p.last() + head).push(x) =~= p.last() + b);
        assert(q.update(q.len() - 1, q.last().push(x)) =~= p.update(p.len() - 1, p.last() + b));
    }
}

/// Chunks that are joined and split again are the same chunks.
proof fn lemma_split_joined(chunks: Seq<Seq<char>>)
    requires
        clean(chunks),
        chunks.len() >= 1,
    ensures
        split(joined(chunks), '/') == chunks,
    decreases chunks.len(),
{
    let e = Seq::<char>::empty();
    assert(split(e, '/') =~= seq![e]);
    if chunks.len() == 1 {
        lemma_split_append(e, chunks[0]);
        assert(e + chunks[0] =~= chunks[0]);
        assert(seq![e].update(0, e + chunks[0]) =~= chunks);
    } else {
        let head = chunks.drop_last();
        let y = chunks.last();
        assert(clean(head)) by {
            assert forall|i: int| 0 <= i < head.len() implies (#[trigger] head[i]).len() > 0
                && all_allowed(head[i]) by {
                assert(head[i] == chunks[i]);
            }
        }
        lemma_split_joined(head);
        let x = joined(head).push('/');
        assert(x.drop_last() =~= joined(head));
        assert(split(x, '/') == head.push(e));
        assert(all_allowed(y)) by {
            assert(y == chunks[chunks.len() - 1]);
        }
        lemma_split_append(x, y);
        assert(head.push(e).update(head.len() as int, e + y) =~= chunks) by {
            assert(e + y =~= y);
        }
    }
}

/// The recommended name of a name that is itself recommended is that name.
pub proof fn lemma_recommended_name_idempotent(s: Seq<char>)
    ensures
        recommended_name(recommended_name(s)) == recommended_name(s),
{
    let p = split(s, '/');
    let c = kept_chunks(p, p.len() as int);
    let r = joined(c);
    lemma_kept_chunks_clean(p, p.len() as int);
    let e = Seq::<char>::empty();
    if c.len() == 0 {
        assert(r =~= e);
        assert(split(e, '/') =~= seq![e]);
        assert(kept(e) =~= e);
        assert(kept_chunks(seq![e], 0) =~= Seq::<Seq<char>>::empty());
        assert(kept_chunks(seq![e], 1) =~= Seq::<Seq<char>>::empty());
    } else {
        lemma_split_joined(c);
        lemma_kept_chunks_of_clean(c, c.len() as int);
        assert(c.take(c.len() as int) =~= c);
    }
}

/// A recommended name holds nothing but letters and digits of ASCII, `-`,
/// `.`, `_` and `/`.
pub proof fn lemma_recommended_name_characters(s: Seq<char>)
    ensures
        forall|i: int|
            0 <= i < recommended_name(s).len() ==> allowed(#[trigger] recommended_name(s)[i])
                || recommended_name(s)[i] == '/',
{
    let p = split(s, '/');
    let c = kept_chunks(p, p.len() as int);
    lemma_kept_chunks_clean(p, p.len() as int);
    lemma_joined_characters(c);
}

proof fn lemma_joined_characters(chunks: Seq<Seq<char>>)
    requires
        clean(chunks),
    ensures
        forall|i: int|
            0 <= i < joined(chunks).len() ==> allowed(#[trigger] joined(chunks)[i]) || joined(
                chunks,
            )[i] == '/',
    decreases chunks.len(),
{
    if chunks.len() == 0 {
    } else if chunks.len() == 1 {
        assert(all_allowed(chunks[0]));
    } else {
        let head = chunks.drop_last();
        let y = chunks.last();
        assert(clean(head)) by {
            assert forall|i: int| 0 <= i < head.len() implies (#[trigger] head[i]).len() > 0
                && all_allowed(head[i]) by {
                assert(head[i] == chunks[i]);
            }
        }
        lemma_joined_characters(head);
        assert(all_allowed(y)) by {
            assert(y == chunks[chunks.len() - 1]);
        }
        let j = joined(chunks);
        let h = joined(head);
        assert forall|i: int| 0 <= i < j.len() implies allowed(#[trigger] j[i]) || j[i] == '/' by {
            if i < h.len() {
                assert(j[i] == h[i]);
            } else if i == h.len() {
                assert(j[i] == '/');
            } else {
                assert(j[i] == y[i - h.len() - 1]);
            }
        }
    }
}

} // verus!
