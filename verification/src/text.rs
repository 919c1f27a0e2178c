//! Text as sequences of characters: the order of keys, decimal numerals, and
//! the handful of character classes the rest of the crate reads.

use vstd::prelude::*;

verus! {

/// `String::push` appends one character to the end of the string.
pub assume_specification[ std::string::String::push ](s: &mut std::string::String, c: char)
    ensures
        final(s)@ == old(s)@.push(c),
;

/// How two texts stand to each other in the order of keys.
#[derive(Clone, Copy, Debug, PartialEq, Eq, Structural)]
pub enum Order {
    Before,
    Same,
    After,
}

/// Lexicographic order by code point, the order in which a sorted map of
/// strings keeps its keys.
pub open spec fn text_lt(a: Seq<char>, b: Seq<char>) -> bool
    decreases a.len(),
{
    if b.len() == 0 {
        false
    } else if a.len() == 0 {
        true
    } else if a[0] == b[0] {
        text_lt(a.drop_first(), b.drop_first())
    } else {
        a[0] < b[0]
    }
}

/// No text is below itself.
pub proof fn lemma_text_lt_irreflexive(a: Seq<char>)
    ensures
        !text_lt(a, a),
    decreases a.len(),
{
    if a.len() > 0 {
        lemma_text_lt_irreflexive(a.drop_first());
    }
}

/// A text below a second that is below a third is below the third.
pub proof fn lemma_text_lt_transitive(a: Seq<char>, b: Seq<char>, c: Seq<char>)
    requires
        text_lt(a, b),
        text_lt(b, c),
    ensures
        text_lt(a, c),
    decreases a.len(),
{
    if a.len() > 0 && b.len() > 0 && c.len() > 0 {
        if a[0] == b[0] && b[0] == c[0] {
            lemma_text_lt_transitive(a.drop_first(), b.drop_first(), c.drop_first());
        }
    }
}

/// Of two texts that differ one is below the other.
pub proof fn lemma_text_lt_total(a: Seq<char>, b: Seq<char>)
    ensures
        a == b || text_lt(a, b) || text_lt(b, a),
    decreases a.len(),
{
    if a.len() == 0 || b.len() == 0 {
        if a.len() == 0 && b.len() == 0 {
            assert(a =~= b);
        }
    } else if a[0] == b[0] {
        lemma_text_lt_total(a.drop_first(), b.drop_first());
        if a.drop_first() == b.drop_first() {
            assert(a.len() == b.len()) by {
                assert(a.drop_first().len() == b.drop_first().len());
            }
            assert forall|i: int| 0 <= i < a.len() implies a[i] == b[i] by {
                if i > 0 {
                    assert(a.drop_first()[i - 1] == b.drop_first()[i - 1]);
                }
            }
            assert(a =~= b);
        }
    }
}

/// A text below another is not the other, and the other is not below it.
pub proof fn lemma_text_lt_asymmetric(a: Seq<char>, b: Seq<char>)
    requires
        text_lt(a, b),
    ensures
        !text_lt(b, a),
        a != b,
{
    lemma_text_lt_irreflexive(a);
    if text_lt(b, a) {
        lemma_text_lt_transitive(a, b, a);
    }
}

/// Compares two texts in the order of keys.
pub fn compare_text(a: &str, b: &str) -> (r: Order)
    ensures
        r == Order::Before <==> text_lt(a@, b@),
        r == Order::Same <==> a@ == b@,
        r == Order::After <==> text_lt(b@, a@),
{
    let n: usize = a.unicode_len();
    let m: usize = b.unicode_len();
    let mut i: usize = 0;
    let mut r = Order::Same;
    let mut done = false;
    proof {
        assert(a@.skip(0) =~= a@);
        assert(b@.skip(0) =~= b@);
        assert(a@.take(0) =~= b@.take(0));
    }
    while !done
        invariant
            n == a@.len(),
            m == b@.len(),
            i <= n,
            i <= m,
            a@.take(i as int) == b@.take(i as int),
            text_lt(a@, b@) == text_lt(a@.skip(i as int), b@.skip(i as int)),
            text_lt(b@, a@) == text_lt(b@.skip(i as int), a@.skip(i as int)),
            done ==> (r == Order::Before <==> text_lt(a@, b@)),
            done ==> (r == Order::Same <==> a@ == b@),
            done ==> (r == Order::After <==> text_lt(b@, a@)),
        decreases n - i + (if done { 0int } else { 1int }),
    {
        let ghost sa = a@.skip(i as int);
        let ghost sb = b@.skip(i as int);
        if i == n && i == m {
            proof {
                assert(a@ =~= a@.take(i as int));
                assert(b@ =~= b@.take(i as int));
                lemma_text_lt_irreflexive(a@);
            }
            r = Order::Same;
            done = true;
        } else if i == n {
            proof {
                assert(a@ =~= a@.take(i as int));
                assert(b@.take(i as int).len() != b@.len());
            }
            r = Order::Before;
            done = true;
        } else if i == m {
            proof {
                assert(b@ =~= b@.take(i as int));
                assert(a@.take(i as int).len() != a@.len());
            }
            r = Order::After;
            done = true;
        } else {
            let x = a.get_char(i);
            let y = b.get_char(i);
            assert(sa[0] == x && sb[0] == y);
            if x == y {
                proof {
                    assert(sa.drop_first() =~= a@.skip(i + 1));
                    assert(sb.drop_first() =~= b@.skip(i + 1));
                    assert(a@.take(i + 1) =~= a@.take(i as int).push(x));
                    assert(b@.take(i + 1) =~= b@.take(i as int).push(y));
                }
                i = i + 1;
            } else {
                proof {
                    if a@ == b@ {
                        assert(a@[i as int] == b@[i as int]);
                    }
                }
                if (x as u32) < (y as u32) {
                    r = Order::Before;
                } else {
                    r = Order::After;
                }
                done = true;
            }
        }
    }
    r
}

/// Whether two texts hold the same characters.
pub fn same_text(a: &str, b: &str) -> (r: bool)
    ensures
        r == (a@ == b@),
{
    compare_text(a, b) == Order::Same
}

/// An owned copy of a text.
pub fn owned(s: &str) -> (r: String)
    ensures
        r@ == s@,
{
    String::from_str(s)
}

/// Whether a character is a digit of ASCII.
pub open spec fn is_digit(c: char) -> bool {
    '0' <= c && c <= '9'
}

/// The number that a digit stands for.
pub open spec fn digit_value(c: char) -> nat {
    (c as u32 - '0' as u32) as nat
}

/// The digit that stands for a number below ten.
pub open spec fn digit_char(d: nat) -> char {
    if d == 0 {
        '0'
    } else if d == 1 {
        '1'
    } else if d == 2 {
        '2'
    } else if d == 3 {
        '3'
    } else if d == 4 {
        '4'
    } else if d == 5 {
        '5'
    } else if d == 6 {
        '6'
    } else if d == 7 {
        '7'
    } else if d == 8 {
        '8'
    } else {
        '9'
    }
}

/// The decimal numeral of a number, without leading zeros.
pub open spec fn decimal(n: nat) -> Seq<char>
    decreases n,
{
    if n < 10 {
        seq![digit_char(n)]
    } else {
        decimal(n / 10).push(digit_char(n % 10))
    }
}

/// The number a run of digits stands for.
pub open spec fn digits_value(s: Seq<char>) -> nat
    decreases s.len(),
{
    if s.len() == 0 {
        0
    } else {
        digits_value(s.drop_last()) * 10 + digit_value(s.last())
    }
}

/// Whether a text holds digits only.
pub open spec fn all_digits(s: Seq<char>) -> bool {
    forall|i: int| 0 <= i < s.len() ==> is_digit(#[trigger] s[i])
}

/// Whether a character is a digit of ASCII.
pub fn is_digit_char(c: char) -> (r: bool)
    ensures
        r == is_digit(c),
{
    let v: u32 = c as u32;
    48 <= v && v <= 57
}

fn digit_to_char(d: u8) -> (c: char)
    requires
        d < 10,
    ensures
        c == digit_char(d as nat),
        is_digit(c),
        digit_value(c) == d,
{
    if d == 0 {
        '0'
    } else if d == 1 {
        '1'
    } else if d == 2 {
        '2'
    } else if d == 3 {
        '3'
    } else if d == 4 {
        '4'
    } else if d == 5 {
        '5'
    } else if d == 6 {
        '6'
    } else if d == 7 {
        '7'
    } else if d == 8 {
        '8'
    } else {
        '9'
    }
}

/// Writes a number as a decimal numeral.
pub fn decimal_text(n: usize) -> (r: String)
    ensures
        r@ == decimal(n as nat),
{
    // Digits come out lowest first; they are put in place from the back.
    let mut digits: Vec<char> = Vec::new();
    let mut rest: usize = n;
    digits.push(digit_to_char((rest % 10) as u8));
    rest = rest / 10;
    while rest > 0
        invariant
            digits@.len() >= 1,
            decimal(n as nat) == if rest == 0 {
                digits@.reverse()
            } else {
                decimal(rest as nat) + digits@.reverse()
            },
        decreases rest,
    {
        let ghost before = digits@;
        digits.push(digit_to_char((rest % 10) as u8));
        proof {
            assert(digits@.reverse() =~= seq![digit_char((rest % 10) as nat)] + before.reverse());
            if rest < 10 {
                assert(decimal(rest as nat) =~= seq![digit_char(rest as nat)]);
            } else {
                assert(decimal(rest as nat) =~= decimal((rest / 10) as nat).push(
                    digit_char((rest % 10) as nat),
                ));
                assert(decimal(n as nat) =~= decimal((rest / 10) as nat) + digits@.reverse());
            }
        }
        rest = rest / 10;
    }
    let mut out = String::new();
    let mut i: usize = digits.len();
    while i > 0
        invariant
            i <= digits@.len(),
            out@ == digits@.reverse().take(digits@.len() - i),
        decreases i,
    {
        i = i - 1;
        let ghost prev = out@;
        out.push(digits[i]);
        assert(out@ =~= digits@.reverse().take(digits@.len() - i));
    }
    assert(out@ =~= digits@.reverse());
    out
}

/// The characters of a text, one by one.
pub fn chars_of(s: &str) -> (r: Vec<char>)
    ensures
        r@ == s@,
{
    let n: usize = s.unicode_len();
    let mut out: Vec<char> = Vec::new();
    let mut i: usize = 0;
    while i < n
        invariant
            n == s@.len(),
            i <= n,
            out@ == s@.take(i as int),
        decreases n - i,
    {
        out.push(s.get_char(i));
        assert(out@ =~= s@.take(i + 1));
        i = i + 1;
    }
    assert(s@.take(n as int) =~= s@);
    out
}

/// The text made of the characters from `from` up to `to`.
pub fn text_of(chars: &Vec<char>, from: usize, to: usize) -> (r: String)
    requires
        from <= to <= chars@.len(),
    ensures
        r@ == chars@.subrange(from as int, to as int),
{
    let mut out = String::new();
    let mut i: usize = from;
    while i < to
        invariant
            from <= i <= to,
            to <= chars@.len(),
            out@ == chars@.subrange(from as int, i as int),
        decreases to - i,
    {
        out.push(chars[i]);
        assert(out@ =~= chars@.subrange(from as int, i + 1));
        i = i + 1;
    }
    out
}

/// The pieces of a text between the occurrences of `sep`: one more piece
/// than there are occurrences.
pub open spec fn split(s: Seq<char>, sep: char) -> Seq<Seq<char>>
    decreases s.len(),
{
    if s.len() == 0 {
        seq![Seq::empty()]
    } else {
        let before = split(s.drop_last(), sep);
        if s.last() == sep {
            before.push(Seq::empty())
        } else {
            before.update(before.len() - 1, before.last().push(s.last()))
        }
    }
}

/// A text is split into one piece at least.
pub proof fn lemma_split_nonempty(s: Seq<char>, sep: char)
    ensures
        split(s, sep).len() >= 1,
    decreases s.len(),
{
    if s.len() > 0 {
        lemma_split_nonempty(s.drop_last(), sep);
    }
}

/// The text with every occurrence of the pair `a`, `b` replaced by `c`,
/// taken from the left and without overlap.
pub open spec fn replace_pair(s: Seq<char>, a: char, b: char, c: char) -> Seq<char>
    decreases s.len(),
{
    if s.len() < 2 {
        s
    } else if s[0] == a && s[1] == b {
        seq![c] + replace_pair(s.skip(2), a, b, c)
    } else {
        seq![s[0]] + replace_pair(s.skip(1), a, b, c)
    }
}

/// Replaces every occurrence of the pair `a`, `b` by `c`.
pub fn replace_pair_in(s: &Vec<char>, a: char, b: char, c: char) -> (r: Vec<char>)
    ensures
        r@ == replace_pair(s@, a, b, c),
{
    let n: usize = s.len();
    let mut out: Vec<char> = Vec::new();
    let mut i: usize = 0;
    proof {
        assert(s@.skip(0) =~= s@);
    }
    while i < n
        invariant
            n == s@.len(),
            i <= n,
            out@ + replace_pair(s@.skip(i as int), a, b, c) == replace_pair(s@, a, b, c),
        decreases n - i,
    {
        let ghost rest = s@.skip(i as int);
        let ghost prev = out@;
        if i + 1 < n && s[i] == a && s[i + 1] == b {
            out.push(c);
            proof {
                assert(rest.skip(2) =~= s@.skip(i + 2));
                assert(out@ + replace_pair(s@.skip(i + 2), a, b, c) =~= prev + replace_pair(
                    rest,
                    a,
                    b,
                    c,
                ));
            }
            i = i + 2;
        } else {
            out.push(s[i]);
            proof {
                assert(rest.skip(1) =~= s@.skip(i + 1));
                if rest.len() < 2 {
                    assert(s@.skip(i + 1).len() == 0);
                    assert(replace_pair(rest, a, b, c) =~= seq![s@[i as int]] + replace_pair(
                        s@.skip(i + 1),
                        a,
                        b,
                        c,
                    ));
                }
                assert(out@ + replace_pair(s@.skip(i + 1), a, b, c) =~= prev + replace_pair(
                    rest,
                    a,
                    b,
                    c,
                ));
            }
            i = i + 1;
        }
    }
    proof {
        assert(out@ + replace_pair(s@.skip(i as int), a, b, c) =~= out@);
    }
    out
}

/// The texts of a run of strings.
pub open spec fn texts(v: Seq<String>) -> Seq<Seq<char>> {
    Seq::new(v.len(), |i: int| v[i]@)
}

/// Copies of the strings.
pub fn duplicate_texts(v: &Vec<String>) -> (r: Vec<String>)
    ensures
        texts(r@) == texts(v@),
{
    let mut out: Vec<String> = Vec::new();
    let mut i: usize = 0;
    while i < v.len()
        invariant
            i <= v@.len(),
            out@.len() == i,
            forall|j: int| 0 <= j < i ==> (#[trigger] out@[j])@ == v@[j]@,
        decreases v@.len() - i,
    {
        out.push(v[i].clone());
        i = i + 1;
    }
    assert(texts(out@) =~= texts(v@));
    out
}

/// Whether one of the strings is the text.
pub fn has_text(v: &Vec<String>, s: &str) -> (r: bool)
    ensures
        r == texts(v@).contains(s@),
{
    let mut i: usize = 0;
    while i < v.len()
        invariant
            i <= v@.len(),
            forall|j: int| 0 <= j < i ==> texts(v@)[j] != s@,
        decreases v@.len() - i,
    {
        if same_text(v[i].as_str(), s) {
            assert(texts(v@)[i as int] == s@);
            return true;
        }
        i = i + 1;
    }
    false
}

/// A run of digits with one more digit stands for ten times its number and the digit.
pub proof fn lemma_digits_value_push(s: Seq<char>, c: char)
    ensures
        digits_value(s.push(c)) == digits_value(s) * 10 + digit_value(c),
{
    assert(s.push(c).drop_last() =~= s);
}

/// A run of digits stands for no less than any of its beginnings.
pub proof fn lemma_digits_value_grows(s: Seq<char>, k: int)
    requires
        0 <= k <= s.len(),
    ensures
        digits_value(s.take(k)) <= digits_value(s),
    decreases s.len() - k,
{
    if k == s.len() {
        assert(s.take(k) =~= s);
    } else {
        lemma_digits_value_grows(s, k + 1);
        assert(s.take(k + 1).drop_last() =~= s.take(k));
        assert(digits_value(s.take(k + 1)) >= digits_value(s.take(k)) * 10) by {
            assert(digits_value(s.take(k + 1)) == digits_value(s.take(k)) * 10 + digit_value(
                s.take(k + 1).last(),
            ));
        }
        assert(digits_value(s.take(k)) * 10 >= digits_value(s.take(k))) by (nonlinear_arith);
    }
}

/// How many digits stand in a text from `from` on, before anything else.
pub open spec fn digit_run(s: Seq<char>, from: int) -> int
    decreases s.len() - from,
{
    if 0 <= from < s.len() && is_digit(s[from]) {
        1 + digit_run(s, from + 1)
    } else {
        0
    }
}

/// How many digits stand from `from` on.
pub fn count_digits(chars: &Vec<char>, from: usize) -> (r: usize)
    requires
        from <= chars@.len(),
    ensures
        r == digit_run(chars@, from as int),
        from + r <= chars@.len(),
{
    let mut i: usize = from;
    while i < chars.len() && is_digit_char(chars[i])
        invariant
            from <= i <= chars@.len(),
            digit_run(chars@, from as int) == (i - from) + digit_run(chars@, i as int),
        decreases chars@.len() - i,
    {
        i = i + 1;
    }
    i - from
}

/// Reads the number that the digits from `from` up to `to` stand for,
/// if it fits into 64 bits.
pub fn digits_to_u64(chars: &Vec<char>, from: usize, to: usize) -> (r: Option<u64>)
    requires
        from <= to <= chars@.len(),
        all_digits(chars@.subrange(from as int, to as int)),
    ensures
        match r {
            Some(v) => v == digits_value(chars@.subrange(from as int, to as int)),
            None => digits_value(chars@.subrange(from as int, to as int)) > u64::MAX,
        },
{
    let ghost digits = chars@.subrange(from as int, to as int);
    let mut value: u64 = 0;
    let mut i: usize = from;
    proof {
        assert(digits.take(0) =~= Seq::<char>::empty());
    }
    while i < to
        invariant
            from <= i <= to,
            to <= chars@.len(),
            digits == chars@.subrange(from as int, to as int),
            all_digits(digits),
            value == digits_value(digits.take(i - from)),
        decreases to - i,
    {
        let c = chars[i];
        let ghost prefix = digits.take(i - from);
        proof {
            assert(digits[i - from] == c);
            assert(is_digit(digits[i - from]));
            assert(digits.take(i - from + 1) =~= prefix.push(c));
            lemma_digits_value_push(prefix, c);
        }
        let d: u64 = (c as u32 - 48) as u64;
        if value > (u64::MAX - d) / 10 {
            proof {
                assert(digits_value(digits.take(i - from + 1)) > u64::MAX) by (nonlinear_arith)
                    requires
                        value > (u64::MAX - d) / 10,
                        digits_value(digits.take(i - from + 1)) == value * 10 + d,
                        d < 10,
                ;
                lemma_digits_value_grows(digits, i - from + 1);
            }
            return None;
        }
        assert(value * 10 + d <= u64::MAX) by (nonlinear_arith)
            requires
                value <= (u64::MAX - d) / 10,
                d <= u64::MAX,
        ;
        value = value * 10 + d;
        i = i + 1;
    }
    assert(digits.take(to - from) =~= digits);
    Some(value)
}

/// The digits that stand in a text from `from` on are digits.
pub proof fn lemma_digit_run(s: Seq<char>, from: int)
    requires
        0 <= from <= s.len(),
    ensures
        0 <= digit_run(s, from),
        from + digit_run(s, from) <= s.len(),
        forall|i: int| from <= i < from + digit_run(s, from) ==> is_digit(#[trigger] s[i]),
        all_digits(s.subrange(from, from + digit_run(s, from))),
    decreases s.len() - from,
{
    if from < s.len() && is_digit(s[from]) {
        lemma_digit_run(s, from + 1);
    }
    let run = s.subrange(from, from + digit_run(s, from));
    assert forall|i: int| 0 <= i < run.len() implies is_digit(#[trigger] run[i]) by {
        assert(run[i] == s[from + i]);
    }
}

/// Ten to the power of `n`.
pub open spec fn pow10(n: nat) -> nat
    decreases n,
{
    if n == 0 {
        1
    } else {
        10 * pow10((n - 1) as nat)
    }
}

/// A higher power of ten is no smaller.
pub proof fn lemma_pow10_grows(a: nat, b: nat)
    requires
        a <= b,
    ensures
        1 <= pow10(a) <= pow10(b),
    decreases b,
{
    if b > 0 {
        if a < b {
            lemma_pow10_grows(a, (b - 1) as nat);
        } else {
            lemma_pow10_grows((a - 1) as nat, (b - 1) as nat);
        }
    }
}

/// Ten to the power of nineteen.
pub proof fn lemma_pow10_nineteen()
    ensures
        pow10(19) == 10000000000000000000,
{
    reveal_with_fuel(pow10, 20);
}

/// A run of digits stands for less than ten to the power of its length.
pub proof fn lemma_digits_value_below(s: Seq<char>)
    requires
        all_digits(s),
    ensures
        digits_value(s) < pow10(s.len()),
    decreases s.len(),
{
    if s.len() > 0 {
        let front = s.drop_last();
        assert forall|i: int| 0 <= i < front.len() implies is_digit(#[trigger] front[i]) by {
            assert(front[i] == s[i]);
        }
        lemma_digits_value_below(front);
        assert(is_digit(s[s.len() - 1]));
        assert(digit_value(s.last()) <= 9);
    }
}

/// The whole number left of the point, cut toward zero, when the point is
/// set after the first `p` digits of a run: before the run it leaves nothing,
/// and past its end every place more counts as a zero.
pub open spec fn shifted(digits: Seq<char>, p: int) -> nat {
    if p <= 0 {
        0
    } else if p >= digits.len() {
        digits_value(digits) * pow10((p - digits.len()) as nat)
    } else {
        digits_value(digits.take(p))
    }
}

/// The digits of a run with the point set after the first `p` of them, as a
/// number, if it fits into 64 bits.
pub fn shift_digits(digits: &Vec<char>, p: i128) -> (r: Option<u64>)
    requires
        all_digits(digits@),
    ensures
        match r {
            Some(v) => v == shifted(digits@, p as int),
            None => shifted(digits@, p as int) > u64::MAX,
        },
{
    let n: usize = digits.len();
    if p <= 0 {
        return Some(0);
    }
    if p < n as i128 {
        let upto: usize = p as usize;
        proof {
            assert(digits@.subrange(0, upto as int) =~= digits@.take(p as int));
            assert forall|i: int| 0 <= i < digits@.take(p as int).len() implies is_digit(
                #[trigger] digits@.take(p as int)[i],
            ) by {
                assert(digits@.take(p as int)[i] == digits@[i]);
            }
        }
        return digits_to_u64(digits, 0, upto);
    }
    proof {
        assert(digits@.subrange(0, n as int) =~= digits@);
        lemma_pow10_grows(0, (p - n) as nat);
    }
    let ghost whole = digits_value(digits@);
    let ghost more = (p - n) as nat;
    let v: u64 = match digits_to_u64(digits, 0, n) {
        Some(v) => v,
        None => {
            proof {
                assert(whole * pow10(more) >= whole) by (nonlinear_arith)
                    requires
                        pow10(more) >= 1,
                ;
            }
            return None;
        },
    };
    if v == 0 {
        proof {
            assert(whole * pow10(more) == 0) by (nonlinear_arith)
                requires
                    whole == 0,
            ;
        }
        return Some(0);
    }
    let extra: i128 = p - n as i128;
    let mut acc: u64 = v;
    let mut j: i128 = 0;
    proof {
        assert(pow10(0) == 1);
        assert(whole * pow10(0) == whole) by (nonlinear_arith)
            requires
                pow10(0) == 1,
        ;
    }
    while j < extra
        invariant
            0 <= j <= extra,
            extra == more,
            v == whole,
            v >= 1,
            acc == whole * pow10(j as nat),
            shifted(digits@, p as int) == whole * pow10(more),
        decreases extra - j,
    {
        proof {
            assert(pow10((j + 1) as nat) == 10 * pow10(j as nat));
            assert(whole * pow10((j + 1) as nat) == acc * 10) by (nonlinear_arith)
                requires
                    acc == whole * pow10(j as nat),
                    pow10((j + 1) as nat) == 10 * pow10(j as nat),
            ;
        }
        if acc > u64::MAX / 10 {
            proof {
                assert(acc * 10 > u64::MAX);
                lemma_pow10_grows((j + 1) as nat, more);
                assert(whole * pow10(more) >= whole * pow10((j + 1) as nat)) by (nonlinear_arith)
                    requires
                        pow10(more) >= pow10((j + 1) as nat),
                ;
            }
            return None;
        }
        acc = acc * 10;
        j = j + 1;
    }
    Some(acc)
}

/// The exponent that a number is written with from `from` on: none at the
/// end of the text; else `e` or `E`, a sign if any, and digits up to the end
/// of the text. There is none where something else is written.
pub open spec fn exponent_of(text: Seq<char>, from: int) -> Option<int> {
    if from == text.len() {
        Some(0)
    } else if 0 <= from < text.len() && (text[from] == 'e' || text[from] == 'E') {
        let signed = from + 1 < text.len() && (text[from + 1] == '+' || text[from + 1] == '-');
        let at = if signed {
            from + 2
        } else {
            from + 1
        };
        let run = digit_run(text, at);
        if run >= 1 && at + run == text.len() {
            let v = digits_value(text.subrange(at, at + run)) as int;
            if signed && text[from + 1] == '-' {
                Some(-v)
            } else {
                Some(v)
            }
        } else {
            None
        }
    } else {
        None
    }
}

/// An exponent as it is read: below zero or not, and how much, if that fits
/// into 64 bits.
pub struct Exponent {
    pub negative: bool,
    pub size: Option<u64>,
}

/// Reads the exponent that a number is written with from `from` on. An
/// exponent of `2^64` or more is read without its size; it is written with
/// twenty digits at least.
pub fn read_exponent(chars: &Vec<char>, from: usize) -> (r: Option<Exponent>)
    requires
        from <= chars@.len(),
    ensures
        match r {
            Some(e) => {
                &&& exponent_of(chars@, from as int) matches Some(x)
                &&& (e.negative ==> x <= 0)
                &&& (!e.negative ==> x >= 0)
                &&& match e.size {
                    Some(v) => x == (if e.negative {
                        -(v as int)
                    } else {
                        v as int
                    }),
                    None => (x > u64::MAX || x < -(u64::MAX as int)) && from + 21 <= chars@.len(),
                }
            },
            None => exponent_of(chars@, from as int) is None,
        },
{
    let n: usize = chars.len();
    if from == n {
        return Some(Exponent { negative: false, size: Some(0) });
    }
    if !(chars[from] == 'e' || chars[from] == 'E') {
        return None;
    }
    let signed = from + 1 < n && (chars[from + 1] == '+' || chars[from + 1] == '-');
    let negative = signed && chars[from + 1] == '-';
    let at: usize = if signed {
        from + 2
    } else {
        from + 1
    };
    let run = count_digits(chars, at);
    proof {
        lemma_digit_run(chars@, at as int);
    }
    if run < 1 || run != n - at {
        return None;
    }
    let size = digits_to_u64(chars, at, n);
    proof {
        if size is None {
            let ds = chars@.subrange(at as int, n as int);
            lemma_digits_value_below(ds);
            lemma_pow10_nineteen();
            if ds.len() <= 19 {
                lemma_pow10_grows(ds.len(), 19);
            }
        }
    }
    Some(Exponent { negative, size })
}

} // verus!
