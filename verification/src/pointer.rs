//! JSON Pointers: how a path into a document is written, read, followed and
//! laid down.

use crate::json::{
    find_key, get_member, items_view, lemma_get_wf, lemma_insert_wf, lemma_remove_wf,
    lemma_view_array, lemma_view_object, members_view, obj_get, obj_insert, obj_remove,
    remove_member, wf_json, Json, JsonView,
};
use crate::text::{
    lemma_digits_value_grows, lemma_digits_value_push, all_digits, chars_of, decimal, decimal_text,
    digit_value, digits_value, is_digit, is_digit_char, owned, replace_pair, replace_pair_in, split,
    text_of,
};
use vstd::prelude::*;

verus! {

/// One step of a pointer.
#[derive(Debug, PartialEq, Eq)]
pub enum Token {
    /// An element of an array, or the member of an object whose key is the
    /// numeral of the index.
    Index(usize),
    /// A member of an object.
    Property(String),
    /// The element after the last of an array (`-`).
    NextIndex,
}

/// A token as contracts speak of it.
pub ghost enum TokenView {
    Index(usize),
    Property(Seq<char>),
    NextIndex,
}

impl View for Token {
    type V = TokenView;

    open spec fn view(&self) -> TokenView {
        match self {
            Token::Index(i) => TokenView::Index(*i),
            Token::Property(p) => TokenView::Property(p@),
            Token::NextIndex => TokenView::NextIndex,
        }
    }
}

/// The key by which a token finds a member of an object, which is also the
/// text of the token when it is written out by itself.
pub open spec fn token_key(t: TokenView) -> Seq<char> {
    match t {
        TokenView::Index(i) => decimal(i as nat),
        TokenView::Property(p) => p,
        TokenView::NextIndex => seq!['-'],
    }
}

/// Whether a piece of a pointer is the numeral of an index: digits only, no
/// needless leading zero, and within what the machine can count.
pub open spec fn is_index_text(s: Seq<char>) -> bool {
    &&& s.len() > 0
    &&& all_digits(s)
    &&& (s[0] == '0' ==> s.len() == 1)
    &&& digits_value(s) <= usize::MAX
}

/// The token that a piece of a pointer stands for, once unescaped.
pub open spec fn token_of(s: Seq<char>) -> TokenView {
    if s == seq!['-'] {
        TokenView::NextIndex
    } else if is_index_text(s) {
        TokenView::Index(digits_value(s) as usize)
    } else {
        TokenView::Property(s)
    }
}

/// A piece of a pointer with its escapes resolved: `~1` is `/`, then `~0` is `~`.
pub open spec fn unescape(s: Seq<char>) -> Seq<char> {
    replace_pair(replace_pair(s, '~', '1', '/'), '~', '0', '~')
}

/// The pieces that a pointer's text is made of. A pointer may be written
/// without its leading `/`.
pub open spec fn pieces(s: Seq<char>) -> Seq<Seq<char>> {
    if s.len() == 0 {
        Seq::empty()
    } else if s[0] == '/' {
        split(s, '/').drop_first()
    } else {
        split(s, '/')
    }
}

/// The tokens that a pointer's text stands for.
pub open spec fn parse_pointer(s: Seq<char>) -> Seq<TokenView> {
    pieces(s).map_values(|p: Seq<char>| token_of(unescape(p)))
}

/// A path into a JSON document.
#[derive(Debug, PartialEq, Eq)]
pub struct Pointer(pub Vec<Token>);

impl View for Pointer {
    type V = Seq<TokenView>;

    open spec fn view(&self) -> Seq<TokenView> {
        Seq::new(self.0@.len(), |i: int| self.0@[i]@)
    }
}

impl Token {
    /// Reads one unescaped piece of a pointer.
    pub fn from_str(s: &str) -> (r: Token)
        ensures
            r@ == token_of(s@),
    {
        let chars = chars_of(s);
        let n: usize = chars.len();
        if n == 1 && chars[0] == '-' {
            assert(s@ =~= seq!['-']);
            return Token::NextIndex;
        }
        assert(s@ != seq!['-']) by {
            if s@ == seq!['-'] {
                assert(s@.len() == 1 && s@[0] == '-');
            }
        }
        if n == 0 {
            return Token::Property(owned(s));
        }
        if chars[0] == '0' && n > 1 {
            return Token::Property(owned(s));
        }
        let mut value: usize = 0;
        let mut i: usize = 0;
        proof {
            assert(chars@.take(0) =~= Seq::<char>::empty());
        }
        while i < n
            invariant
                n == chars@.len(),
                chars@ == s@,
                s@ != seq!['-'],
                i <= n,
                all_digits(chars@.take(i as int)),
                value == digits_value(chars@.take(i as int)),
            decreases n - i,
        {
            let c = chars[i];
            let ghost prefix = chars@.take(i as int);
            proof {
                assert(chars@.take(i + 1) =~= prefix.push(c));
                lemma_digits_value_push(prefix, c);
            }
            if !is_digit_char(c) {
                proof {
                    assert(s@[i as int] == c);
                    assert(!is_digit(s@[i as int]));
                    assert(!all_digits(s@));
                }
                return Token::Property(owned(s));
            }
            let d: usize = (c as u32 - 48) as usize;
            assert(d == digit_value(c));
            if value > (usize::MAX - d) / 10 {
                proof {
                    assert(digits_value(chars@.take(i + 1)) > usize::MAX) by (nonlinear_arith)
                        requires
                            value > (usize::MAX - d) / 10,
                            digits_value(chars@.take(i + 1)) == value * 10 + d,
                            d < 10,
                    ;
                    lemma_digits_value_grows(chars@, i + 1);
                }
                return Token::Property(owned(s));
            }
            assert(value * 10 + d <= usize::MAX) by (nonlinear_arith)
                requires
                    value <= (usize::MAX - d) / 10,
                    d <= usize::MAX,
            ;
            value = value * 10 + d;
            assert forall|j: int| 0 <= j < i + 1 implies is_digit(
                #[trigger] chars@.take(i + 1)[j],
            ) by {
                if j < i {
                    assert(chars@.take(i + 1)[j] == prefix[j]);
                }
            }
            i = i + 1;
        }
        assert(chars@.take(n as int) =~= chars@);
        Token::Index(value)
    }

    /// The token written out by itself, nothing escaped.
    pub fn to_string(&self) -> (r: String)
        ensures
            r@ == token_key(self@),
    {
        match self {
            Token::Index(i) => decimal_text(*i),
            Token::Property(p) => p.clone(),
            Token::NextIndex => {
                let mut out = String::new();
                out.push('-');
                assert(out@ =~= seq!['-']);
                out
            },
        }
    }

    /// A copy of the token.
    pub fn duplicate(&self) -> (r: Token)
        ensures
            r@ == self@,
    {
        match self {
            Token::Index(i) => Token::Index(*i),
            Token::Property(p) => Token::Property(p.clone()),
            Token::NextIndex => Token::NextIndex,
        }
    }
}

/// The characters from `from` up to `to`.
fn chars_between(chars: &Vec<char>, from: usize, to: usize) -> (r: Vec<char>)
    requires
        from <= to <= chars@.len(),
    ensures
        r@ == chars@.subrange(from as int, to as int),
{
    let mut out: Vec<char> = Vec::new();
    let mut i: usize = from;
    while i < to
        invariant
            from <= i <= to,
            to <= chars@.len(),
            out@ == chars@.subrange(from as int, i as int),
        decreases to - i,
    {
        out.push(chars[i]);
        assert(out@ =~= chars@.subrange(from as int, i + 1));
        i = i + 1;
    }
    out
}

/// Reads the piece of a pointer that lies between two places of its text.
fn token_between(chars: &Vec<char>, from: usize, to: usize) -> (r: Token)
    requires
        from <= to <= chars@.len(),
    ensures
        r@ == token_of(unescape(chars@.subrange(from as int, to as int))),
{
    let raw = chars_between(chars, from, to);
    let slashes = replace_pair_in(&raw, '~', '1', '/');
    let plain = replace_pair_in(&slashes, '~', '0', '~');
    let text = text_of(&plain, 0, plain.len());
    assert(plain@.subrange(0, plain@.len() as int) =~= plain@);
    Token::from_str(text.as_str())
}

/// A piece written so that it can stand in a pointer: `~` as `~0`, `/` as `~1`.
pub open spec fn escape(s: Seq<char>) -> Seq<char>
    decreases s.len(),
{
    if s.len() == 0 {
        s
    } else if s.last() == '~' {
        escape(s.drop_last()).push('~').push('0')
    } else if s.last() == '/' {
        escape(s.drop_last()).push('~').push('1')
    } else {
        escape(s.drop_last()).push(s.last())
    }
}

/// The text of a pointer: each token after a `/`, escaped.
pub open spec fn pointer_text(toks: Seq<TokenView>) -> Seq<char>
    decreases toks.len(),
{
    if toks.len() == 0 {
        Seq::empty()
    } else {
        pointer_text(toks.drop_last()).push('/') + escape(token_key(toks.last()))
    }
}

/// Appends a piece to `out`, escaped.
fn push_escaped(out: &mut String, s: &str)
    ensures
        final(out)@ == old(out)@ + escape(s@),
{
    let n: usize = s.unicode_len();
    let mut i: usize = 0;
    proof {
        assert(s@.take(0) =~= Seq::<char>::empty());
        assert(out@ =~= old(out)@ + escape(s@.take(0)));
    }
    while i < n
        invariant
            n == s@.len(),
            i <= n,
            out@ == old(out)@ + escape(s@.take(i as int)),
        decreases n - i,
    {
        let x = s.get_char(i);
        proof {
            assert(s@.take(i + 1).drop_last() =~= s@.take(i as int));
            assert(s@.take(i + 1).last() == x);
        }
        if x == '~' {
            out.push('~');
            out.push('0');
        } else if x == '/' {
            out.push('~');
            out.push('1');
        } else {
            out.push(x);
        }
        assert(out@ =~= old(out)@ + escape(s@.take(i + 1)));
        i = i + 1;
    }
    assert(s@.take(n as int) =~= s@);
}

impl Pointer {
    /// The pointer to the document itself.
    pub fn empty() -> (r: Pointer)
        ensures
            r@ == Seq::<TokenView>::empty(),
    {
        let r = Pointer(Vec::new());
        assert(r@ =~= Seq::<TokenView>::empty());
        r
    }

    /// Reads a pointer from its text. A text without a leading `/` is read
    /// as if it had one.
    pub fn from_str(s: &str) -> (r: Pointer)
        ensures
            r@ == parse_pointer(s@),
    {
        let chars = chars_of(s);
        let n: usize = chars.len();
        if n == 0 {
            let r = Pointer(Vec::new());
            assert(r@ =~= parse_pointer(s@));
            return r;
        }
        let mut tokens: Vec<Token> = Vec::new();
        let mut start: usize = 0;
        let mut i: usize = 0;
        let ghost mut done: Seq<Seq<char>> = Seq::empty();
        proof {
            assert(chars@.take(0) =~= Seq::<char>::empty());
            assert(chars@.subrange(0, 0) =~= Seq::<char>::empty());
            assert(split(chars@.take(0), '/') =~= done.push(chars@.subrange(0, 0)));
        }
        while i < n
            invariant
                n == chars@.len(),
                start <= i <= n,
                tokens@.len() == done.len(),
                split(chars@.take(i as int), '/') == done.push(
                    chars@.subrange(start as int, i as int),
                ),
                forall|j: int|
                    0 <= j < done.len() ==> (#[trigger] tokens@[j])@ == token_of(unescape(done[j])),
            decreases n - i,
        {
            let ghost prefix = chars@.take(i as int);
            let ghost current = chars@.subrange(start as int, i as int);
            proof {
                assert(chars@.take(i + 1).drop_last() =~= prefix);
                assert(chars@.take(i + 1).last() == chars@[i as int]);
            }
            if chars[i] == '/' {
                let token = token_between(&chars, start, i);
                tokens.push(token);
                proof {
                    done = done.push(current);
                    assert(chars@.subrange(i + 1, i + 1) =~= Seq::<char>::empty());
                }
                start = i + 1;
            } else {
                proof {
                    assert(chars@.subrange(start as int, i + 1) =~= current.push(chars@[i as int]));
                    assert(done.push(current).update(
                        done.len() as int,
                        current.push(chars@[i as int]),
                    ) =~= done.push(current.push(chars@[i as int])));
                }
            }
            i = i + 1;
        }
        let token = token_between(&chars, start, n);
        tokens.push(token);
        proof {
            assert(chars@.take(n as int) =~= chars@);
        }
        let ghost all = done.push(chars@.subrange(start as int, n as int));
        assert(all == split(s@, '/'));
        assert(tokens@.len() == all.len());
        assert forall|j: int| 0 <= j < all.len() implies (#[trigger] tokens@[j])@ == token_of(
            unescape(all[j]),
        ) by {
            if j < done.len() {
                assert(all[j] == done[j]);
            }
        }
        if chars[0] == '/' {
            let _ = tokens.remove(0);
        }
        let r = Pointer(tokens);
        assert(r@ =~= parse_pointer(s@));
        r
    }

    /// The pointer made of these tokens.
    pub fn from_tokens(tokens: Vec<Token>) -> (r: Pointer)
        ensures
            r.0 == tokens,
    {
        Pointer(tokens)
    }

    /// The text of the pointer.
    pub fn to_string(&self) -> (r: String)
        ensures
            r@ == pointer_text(self@),
    {
        let mut out = String::new();
        let mut i: usize = 0;
        proof {
            assert(self@.take(0) =~= Seq::<TokenView>::empty());
        }
        while i < self.0.len()
            invariant
                i <= self.0@.len(),
                self@.len() == self.0@.len(),
                out@ == pointer_text(self@.take(i as int)),
            decreases self.0@.len() - i,
        {
            proof {
                assert(self@.take(i + 1).drop_last() =~= self@.take(i as int));
                assert(self@.take(i + 1).last() == self.0@[i as int]@);
            }
            out.push('/');
            let piece = self.0[i].to_string();
            push_escaped(&mut out, piece.as_str());
            i = i + 1;
        }
        assert(self@.take(self.0@.len() as int) =~= self@);
        out
    }

    /// A copy of the pointer.
    pub fn duplicate(&self) -> (r: Pointer)
        ensures
            r@ == self@,
    {
        let mut tokens: Vec<Token> = Vec::new();
        let mut i: usize = 0;
        while i < self.0.len()
            invariant
                i <= self.0@.len(),
                tokens@.len() == i,
                forall|j: int| 0 <= j < i ==> (#[trigger] tokens@[j])@ == self.0@[j]@,
            decreases self.0@.len() - i,
        {
            tokens.push(self.0[i].duplicate());
            i = i + 1;
        }
        let r = Pointer(tokens);
        assert(r@ =~= self@);
        r
    }
}

/// The tokens of a pointer, each written out by itself with its escapes
/// resolved.
pub open spec fn tokenized(s: Seq<char>) -> Seq<Seq<char>> {
    parse_pointer(s).map_values(|t: TokenView| token_key(t))
}

/// Splits the text of a pointer into its tokens.
pub fn tokenize_jsonpointer(ptr: &str) -> (r: Vec<String>)
    ensures
        r@.len() == tokenized(ptr@).len(),
        forall|i: int| 0 <= i < r@.len() ==> (#[trigger] r@[i])@ == tokenized(ptr@)[i],
{
    let pointer = Pointer::from_str(ptr);
    let mut out: Vec<String> = Vec::new();
    let mut i: usize = 0;
    while i < pointer.0.len()
        invariant
            i <= pointer.0@.len(),
            pointer@ == parse_pointer(ptr@),
            pointer@.len() == pointer.0@.len(),
            out@.len() == i,
            forall|j: int| 0 <= j < i ==> (#[trigger] out@[j])@ == tokenized(ptr@)[j],
        decreases pointer.0@.len() - i,
    {
        assert(pointer@[i as int] == pointer.0@[i as int]@);
        out.push(pointer.0[i].to_string());
        i = i + 1;
    }
    out
}

/// The value that a pointer leads to in a document.
pub open spec fn query(doc: JsonView, toks: Seq<TokenView>) -> Option<JsonView>
    decreases toks.len(),
{
    if toks.len() == 0 {
        Some(doc)
    } else {
        match step(doc, toks[0]) {
            Some(child) => query(child, toks.drop_first()),
            None => None,
        }
    }
}

/// The value one token further into a document.
pub open spec fn step(doc: JsonView, t: TokenView) -> Option<JsonView> {
    match doc {
        JsonView::Object(m) => obj_get(m, token_key(t)),
        JsonView::Array(items) => match t {
            TokenView::Index(i) => if i < items.len() {
                Some(items[i as int])
            } else {
                None
            },
            _ => None,
        },
        _ => None,
    }
}

/// What is done at the place that a pointer is laid down to.
pub enum Edit {
    /// The value there is replaced.
    Put(Json),
    /// The value there is an object, and loses the member with this key.
    RemoveKey(String),
}

/// An edit as contracts speak of it.
pub ghost enum EditView {
    Put(JsonView),
    RemoveKey(Seq<char>),
}

impl View for Edit {
    type V = EditView;

    open spec fn view(&self) -> EditView {
        match self {
            Edit::Put(v) => EditView::Put(v@),
            Edit::RemoveKey(k) => EditView::RemoveKey(k@),
        }
    }
}

/// The value that an edit puts is well laid out.
pub open spec fn wf_edit(e: EditView) -> bool {
    e matches EditView::Put(v) ==> wf_json(v)
}

/// The value at a place after the edit, if the edit can be made there.
pub open spec fn edited(doc: JsonView, e: EditView) -> Option<JsonView> {
    match e {
        EditView::Put(v) => Some(v),
        EditView::RemoveKey(k) => match doc {
            JsonView::Object(m) => Some(JsonView::Object(obj_remove(m, k))),
            _ => None,
        },
    }
}

/// `n` nulls.
pub open spec fn nulls(n: nat) -> Seq<JsonView> {
    Seq::new(n, |i: int| JsonView::Null)
}

/// The array with as many nulls added as it takes for index `i` to exist.
pub open spec fn padded(items: Seq<JsonView>, i: usize) -> Seq<JsonView> {
    if i < items.len() {
        items
    } else {
        items + nulls((1 + i - items.len()) as nat)
    }
}

/// The document with the pointer laid down in it and the edit made at its
/// end. A null on the way becomes an object or an array, as the next token
/// asks; a missing member or element is created as null. There is no such
/// document where the way leads through a boolean, a number or a string, asks
/// an array for a property, or ends at a value that the edit cannot be made on.
pub open spec fn laid_down(doc: JsonView, toks: Seq<TokenView>, e: EditView) -> Option<JsonView>
    decreases toks.len(),
{
    if toks.len() == 0 {
        edited(doc, e)
    } else {
        let t = toks[0];
        let rest = toks.drop_first();
        let base = if doc is Null {
            if t is Property {
                JsonView::Object(Seq::empty())
            } else {
                JsonView::Array(Seq::empty())
            }
        } else {
            doc
        };
        match base {
            JsonView::Object(m) => {
                let k = token_key(t);
                let child = match obj_get(m, k) {
                    Some(c) => c,
                    None => JsonView::Null,
                };
                match laid_down(child, rest, e) {
                    Some(c) => Some(JsonView::Object(obj_insert(m, k, c))),
                    None => None,
                }
            },
            JsonView::Array(items) => match t {
                TokenView::Index(i) => match laid_down(padded(items, i)[i as int], rest, e) {
                    Some(c) => Some(JsonView::Array(padded(items, i).update(i as int, c))),
                    None => None,
                },
                TokenView::NextIndex => match laid_down(JsonView::Null, rest, e) {
                    Some(c) => Some(JsonView::Array(items.push(c))),
                    None => None,
                },
                TokenView::Property(_) => None,
            },
            _ => None,
        }
    }
}

/// Laying a pointer down in a well laid out document leaves it well laid out.
pub proof fn lemma_laid_down_wf(doc: JsonView, toks: Seq<TokenView>, e: EditView)
    requires
        wf_json(doc),
        wf_edit(e),
    ensures
        laid_down(doc, toks, e) matches Some(r) ==> wf_json(r),
    decreases toks.len(),
{
    if toks.len() == 0 {
        match e {
            EditView::Put(v) => {},
            EditView::RemoveKey(k) => {
                if let JsonView::Object(m) = doc {
                    lemma_remove_wf(m, k);
                }
            },
        }
    } else {
        let t = toks[0];
        let rest = toks.drop_first();
        let base = if doc is Null {
            if t is Property {
                JsonView::Object(Seq::empty())
            } else {
                JsonView::Array(Seq::empty())
            }
        } else {
            doc
        };
        match base {
            JsonView::Object(m) => {
                let k = token_key(t);
                let child = match obj_get(m, k) {
                    Some(c) => c,
                    None => JsonView::Null,
                };
                lemma_get_wf(m, k);
                lemma_laid_down_wf(child, rest, e);
                if let Some(c) = laid_down(child, rest, e) {
                    lemma_insert_wf(m, k, c);
                }
            },
            JsonView::Array(items) => match t {
                TokenView::Index(i) => {
                    let p = padded(items, i);
                    assert forall|j: int| 0 <= j < p.len() implies wf_json(#[trigger] p[j]) by {
                        if j < items.len() {
                            assert(p[j] == items[j]);
                        }
                    }
                    lemma_laid_down_wf(p[i as int], rest, e);
                    if let Some(c) = laid_down(p[i as int], rest, e) {
                        let r = p.update(i as int, c);
                        assert forall|j: int| 0 <= j < r.len() implies wf_json(#[trigger] r[j]) by {
                            if j != i {
                                assert(r[j] == p[j]);
                            }
                        }
                    }
                },
                TokenView::NextIndex => {
                    lemma_laid_down_wf(JsonView::Null, rest, e);
                    if let Some(c) = laid_down(JsonView::Null, rest, e) {
                        let r = items.push(c);
                        assert forall|j: int| 0 <= j < r.len() implies wf_json(#[trigger] r[j]) by {
                            if j < items.len() {
                                assert(r[j] == items[j]);
                            }
                        }
                    }
                },
                TokenView::Property(_) => {},
            },
            _ => {},
        }
    }
}

impl Pointer {
    /// Follows the pointer into a document.
    pub fn query<'a>(&self, doc: &'a Json) -> (r: Option<&'a Json>)
        requires
            doc.wf(),
        ensures
            match r {
                Some(v) => query(doc@, self@) == Some(v@) && v.wf(),
                None => query(doc@, self@) is None,
            },
    {
        let mut cur: &Json = doc;
        let mut i: usize = 0;
        proof {
            assert(self@.skip(0) =~= self@);
        }
        while i < self.0.len()
            invariant
                i <= self.0@.len(),
                self@.len() == self.0@.len(),
                cur.wf(),
                query(doc@, self@) == query(cur@, self@.skip(i as int)),
            decreases self.0@.len() - i,
        {
            let ghost rest = self@.skip(i as int);
            proof {
                assert(rest[0] == self.0@[i as int]@);
                assert(rest.drop_first() =~= self@.skip(i + 1));
            }
            let next: Option<&Json> = match cur {
                Json::Object(members) => {
                    proof {
                        lemma_view_object(*members);
                    }
                    let key = self.0[i].to_string();
                    let found = get_member(members, key.as_str());
                    proof {
                        lemma_get_wf(members_view(members@), key@);
                    }
                    found
                },
                Json::Array(items) => {
                    proof {
                        lemma_view_array(*items);
                    }
                    match &self.0[i] {
                        Token::Index(ind) => {
                            if *ind < items.len() {
                                assert(items_view(items@)[*ind as int] == items@[*ind as int]@);
                                assert(wf_json(items_view(items@)[*ind as int]));
                                Some(&items[*ind])
                            } else {
                                None
                            }
                        },
                        _ => None,
                    }
                },
                _ => None,
            };
            match next {
                Some(v) => {
                    cur = v;
                },
                None => {
                    return None;
                },
            }
            i = i + 1;
        }
        Some(cur)
    }
}

/// Lays the pointer down in a document from token `from` on, and makes the
/// edit at its end.
pub fn lay_down(doc: Json, ptr: &Pointer, from: usize, edit: Edit) -> (r: Option<Json>)
    requires
        doc.wf(),
        wf_edit(edit@),
        from <= ptr.0@.len(),
    ensures
        match r {
            Some(v) => laid_down(doc@, ptr@.skip(from as int), edit@) == Some(v@) && v.wf(),
            None => laid_down(doc@, ptr@.skip(from as int), edit@) is None,
        },
    decreases ptr.0@.len() - from,
{
    let ghost toks = ptr@.skip(from as int);
    proof {
        lemma_laid_down_wf(doc@, toks, edit@);
    }
    if from == ptr.0.len() {
        return match edit {
            Edit::Put(v) => Some(v),
            Edit::RemoveKey(k) => match doc {
                Json::Object(members) => {
                    let mut members = members;
                    proof {
                        lemma_view_object(members);
                    }
                    let _ = remove_member(&mut members, k.as_str());
                    proof {
                        lemma_view_object(members);
                    }
                    Some(Json::Object(members))
                },
                _ => None,
            },
        };
    }
    let token = &ptr.0[from];
    proof {
        assert(toks[0] == token@);
        assert(toks.drop_first() =~= ptr@.skip(from + 1));
    }
    let base = match doc {
        Json::Null => match token {
            Token::Property(_) => Json::empty_object(),
            _ => {
                let items: Vec<Json> = Vec::new();
                proof {
                    lemma_view_array(items);
                    assert(items_view(items@) =~= Seq::<JsonView>::empty());
                }
                Json::Array(items)
            },
        },
        other => other,
    };
    match base {
        Json::Object(members) => {
            let mut members = members;
            proof {
                lemma_view_object(members);
            }
            let ghost m = members_view(members@);
            let key = token.to_string();
            let (i, found) = find_key(&members, key.as_str());
            proof {
                lemma_get_wf(m, key@);
            }
            if found {
                let mut slot = (String::new(), Json::Null);
                std::mem::swap(&mut members[i], &mut slot);
                assert(slot.1@ == m[i as int].1);
                match lay_down(slot.1, ptr, from + 1, edit) {
                    Some(c) => {
                        let ghost cv = c@;
                        members[i] = (key, c);
                        proof {
                            lemma_view_object(members);
                            assert(members_view(members@) =~= m.update(i as int, (key@, cv)));
                        }
                        Some(Json::Object(members))
                    },
                    None => None,
                }
            } else {
                match lay_down(Json::Null, ptr, from + 1, edit) {
                    Some(c) => {
                        let ghost cv = c@;
                        members.insert(i, (key, c));
                        proof {
                            lemma_view_object(members);
                            assert(members_view(members@) =~= m.insert(i as int, (key@, cv)));
                        }
                        Some(Json::Object(members))
                    },
                    None => None,
                }
            }
        },
        Json::Array(items) => {
            let mut items = items;
            proof {
                lemma_view_array(items);
            }
            let ghost before = items_view(items@);
            match token {
                Token::Index(ind) => {
                    let ind: usize = *ind;
                    while items.len() <= ind
                        invariant
                            before.len() <= items@.len(),
                            items@.len() == before.len() || items@.len() <= ind + 1,
                            items_view(items@) == before + nulls((items@.len() - before.len()) as nat),
                        decreases ind + 1 - items@.len(),
                    {
                        let ghost prev = items_view(items@);
                        items.push(Json::Null);
                        assert(items_view(items@) =~= prev.push(JsonView::Null));
                        assert(items_view(items@) =~= before + nulls(
                            (items@.len() - before.len()) as nat,
                        ));
                    }
                    proof {
                        if ind < before.len() {
                            assert(items_view(items@) =~= before);
                        }
                        assert(items_view(items@) == padded(before, ind));
                    }
                    let ghost p = items_view(items@);
                    assert(wf_json(p[ind as int])) by {
                        if ind < before.len() {
                            assert(p[ind as int] == before[ind as int]);
                        }
                    }
                    let mut slot = Json::Null;
                    std::mem::swap(&mut items[ind], &mut slot);
                    match lay_down(slot, ptr, from + 1, edit) {
                        Some(c) => {
                            items[ind] = c;
                            proof {
                                lemma_view_array(items);
                                assert(items_view(items@) =~= p.update(ind as int, c@));
                            }
                            Some(Json::Array(items))
                        },
                        None => None,
                    }
                },
                Token::NextIndex => match lay_down(Json::Null, ptr, from + 1, edit) {
                    Some(c) => {
                        items.push(c);
                        proof {
                            lemma_view_array(items);
                            assert(items_view(items@) =~= before.push(c@));
                        }
                        Some(Json::Array(items))
                    },
                    None => None,
                },
                Token::Property(_) => None,
            }
        },
        _ => None,
    }
}

} // verus!
