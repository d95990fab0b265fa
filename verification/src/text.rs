use vstd::prelude::*;

verus! {

/// The characters of a string, in order.
pub fn chars_of(s: &str) -> (v: Vec<char>)
    ensures
        v@ == s@,
{
    let mut v: Vec<char> = Vec::new();
    for c in it: s.chars()
        invariant
            it.seq() == s@,
            v@ == s@.take(it.index()),
    {
        assert(s@.take(it.index() + 1) == s@.take(it.index()).push(c));
        v.push(c);
    }
    assert(s@.take(s@.len() as int) == s@);
    v
}

/// Appends one character to a string (std's `String::push`).
#[verifier::external_body]
pub(crate) fn push_char(s: &mut String, c: char)
    ensures
        final(s)@ == old(s)@.push(c),
{
    s.push(c);
}

/// A string made of the given characters.
pub fn string_of(cs: &Vec<char>) -> (s: String)
    ensures
        s@ == cs@,
{
    let mut s = String::new();
    let mut i: usize = 0;
    while i < cs.len()
        invariant
            i <= cs.len(),
            s@ == cs@.take(i as int),
        decreases cs.len() - i,
    {
        assert(cs@.take(i + 1) == cs@.take(i as int).push(cs@[i as int]));
        push_char(&mut s, cs[i]);
        i = i + 1;
    }
    assert(cs@.take(cs.len() as int) == cs@);
    s
}

/// Appends the characters of `cs` to `s`.
pub fn push_chars(s: &mut String, cs: &Vec<char>)
    ensures
        final(s)@ == old(s)@ + cs@,
{
    let mut i: usize = 0;
    while i < cs.len()
        invariant
            i <= cs.len(),
            s@ == old(s)@ + cs@.take(i as int),
        decreases cs.len() - i,
    {
        assert(cs@.take(i + 1) == cs@.take(i as int).push(cs@[i as int]));
        push_char(s, cs[i]);
        i = i + 1;
    }
    assert(cs@.take(cs.len() as int) == cs@);
}

/// The characters that have the Unicode `White_Space` property, which is what
/// `char::is_whitespace` (and so `str::trim` and `str::split_whitespace`) tests.
pub open spec fn is_white(c: char) -> bool {
    ||| ('\u{9}' <= c && c <= '\u{d}')
    ||| c == ' '
    ||| c == '\u{85}'
    ||| c == '\u{a0}'
    ||| c == '\u{1680}'
    ||| ('\u{2000}' <= c && c <= '\u{200a}')
    ||| c == '\u{2028}'
    ||| c == '\u{2029}'
    ||| c == '\u{202f}'
    ||| c == '\u{205f}'
    ||| c == '\u{3000}'
}

/// Whether `c` is a white-space character.
pub fn is_white_char(c: char) -> (r: bool)
    ensures
        r == is_white(c),
{
    ('\u{9}' <= c && c <= '\u{d}') || c == ' ' || c == '\u{85}' || c == '\u{a0}' || c == '\u{1680}'
        || ('\u{2000}' <= c && c <= '\u{200a}') || c == '\u{2028}' || c == '\u{2029}' || c
        == '\u{202f}' || c == '\u{205f}' || c == '\u{3000}'
}

/// `needle` occurs in `hay` starting at position `i`.
pub open spec fn occurs_at(hay: Seq<char>, needle: Seq<char>, i: int) -> bool {
    0 <= i && i + needle.len() <= hay.len() && hay.subrange(i, i + needle.len()) == needle
}

/// `needle` occurs somewhere in `hay` (what `str::contains` answers).
pub open spec fn seq_contains(hay: Seq<char>, needle: Seq<char>) -> bool {
    exists|i: int| occurs_at(hay, needle, i)
}

fn occurs_at_exec(hay: &Vec<char>, needle: &Vec<char>, i: usize) -> (r: bool)
    requires
        i + needle.len() <= hay.len(),
    ensures
        r == occurs_at(hay@, needle@, i as int),
{
    let mut k: usize = 0;
    while k < needle.len()
        invariant
            k <= needle.len(),
            i + needle.len() <= hay.len(),
            forall|m: int| 0 <= m < k ==> hay@[i + m] == needle@[m],
        decreases needle.len() - k,
    {
        if hay[i + k] != needle[k] {
            assert(hay@.subrange(i as int, i + needle.len())[k as int] != needle@[k as int]);
            return false;
        }
        k = k + 1;
    }
    assert(hay@.subrange(i as int, i + needle.len()) =~= needle@);
    true
}

/// Whether `needle` occurs in `hay`.
pub fn contains_chars(hay: &Vec<char>, needle: &Vec<char>) -> (r: bool)
    ensures
        r == seq_contains(hay@, needle@),
{
    if needle.len() > hay.len() {
        return false;
    }
    let last = hay.len() - needle.len();
    let mut i: usize = 0;
    loop
        invariant
            last == hay.len() - needle.len(),
            needle.len() <= hay.len(),
            i <= last,
            forall|m: int| 0 <= m < i ==> !occurs_at(hay@, needle@, m),
        decreases last - i,
    {
        if occurs_at_exec(hay, needle, i) {
            return true;
        }
        if i == last {
            return false;
        }
        i = i + 1;
    }
}

/// Whether the string `needle` occurs in the string `hay`.
pub fn str_contains(hay: &str, needle: &str) -> (r: bool)
    ensures
        r == seq_contains(hay@, needle@),
{
    let h = chars_of(hay);
    let n = chars_of(needle);
    contains_chars(&h, &n)
}

/// Whether the character `c` occurs in `hay`.
pub fn contains_char(hay: &Vec<char>, c: char) -> (r: bool)
    ensures
        r == hay@.contains(c),
        r == seq_contains(hay@, seq![c]),
{
    let mut i: usize = 0;
    while i < hay.len()
        invariant
            i <= hay.len(),
            forall|m: int| 0 <= m < i ==> hay@[m] != c,
        decreases hay.len() - i,
    {
        if hay[i] == c {
            assert(hay@.subrange(i as int, i + 1) =~= seq![c]);
            assert(occurs_at(hay@, seq![c], i as int));
            return true;
        }
        i = i + 1;
    }
    assert forall|m: int| !occurs_at(hay@, seq![c], m) by {
        if occurs_at(hay@, seq![c], m) {
            assert(hay@.subrange(m, m + 1)[0] == hay@[m]);
        }
    }
    false
}

/// Splitting `s` at the characters that `sep` accepts, read left to right:
/// the pieces already closed, and the piece being read.
pub open spec fn split_state(s: Seq<char>, sep: spec_fn(char) -> bool) -> (Seq<Seq<char>>, Seq<char>)
    decreases s.len(),
{
    if s.len() == 0 {
        (Seq::empty(), Seq::empty())
    } else {
        let (done, cur) = split_state(s.drop_last(), sep);
        let c = s.last();
        if sep(c) {
            if cur.len() > 0 {
                (done.push(cur), Seq::empty())
            } else {
                (done, Seq::empty())
            }
        } else {
            (done, cur.push(c))
        }
    }
}

/// The maximal non-empty runs of characters of `s` that `sep` does not
/// accept, in order.
pub open spec fn pieces(s: Seq<char>, sep: spec_fn(char) -> bool) -> Seq<Seq<char>> {
    let (done, cur) = split_state(s, sep);
    if cur.len() > 0 {
        done.push(cur)
    } else {
        done
    }
}

/// White space separates words.
pub open spec fn white_sep() -> spec_fn(char) -> bool {
    |c: char| is_white(c)
}

/// Braces and commas separate the fields of a board's text.
pub open spec fn brace_sep() -> spec_fn(char) -> bool {
    |c: char| c == '{' || c == '}' || c == ','
}

/// The words of `s`: the maximal runs of characters that are not white space,
/// in order (what `str::split_whitespace` yields).
pub open spec fn words(s: Seq<char>) -> Seq<Seq<char>> {
    pieces(s, white_sep())
}

/// The fields of `s`: the non-empty pieces between braces and commas, in
/// order (what splitting at '{', '}' and ',' and dropping empty pieces gives).
pub open spec fn fields(s: Seq<char>) -> Seq<Seq<char>> {
    pieces(s, brace_sep())
}

fn split_pieces(s: &Vec<char>, braces: bool) -> (ws: Vec<Vec<char>>)
    ensures
        ws.len() == pieces(
            s@,
            if braces {
                brace_sep()
            } else {
                white_sep()
            },
        ).len(),
        forall|k: int|
            0 <= k < ws.len() ==> #[trigger] ws@[k]@ == pieces(
                s@,
                if braces {
                    brace_sep()
                } else {
                    white_sep()
                },
            )[k],
{
    let ghost sep = if braces {
        brace_sep()
    } else {
        white_sep()
    };
    let mut done: Vec<Vec<char>> = Vec::new();
    let mut cur: Vec<char> = Vec::new();
    let mut i: usize = 0;
    while i < s.len()
        invariant
            i <= s.len(),
            sep == (if braces {
                brace_sep()
            } else {
                white_sep()
            }),
            done.len() == split_state(s@.take(i as int), sep).0.len(),
            forall|k: int| 0 <= k < done.len() ==> #[trigger] done@[k]@ == split_state(
                s@.take(i as int),
                sep,
            ).0[k],
            cur@ == split_state(s@.take(i as int), sep).1,
        decreases s.len() - i,
    {
        let c = s[i];
        assert(s@.take(i + 1).drop_last() =~= s@.take(i as int));
        let is_sep = if braces {
            c == '{' || c == '}' || c == ','
        } else {
            is_white_char(c)
        };
        assert(is_sep == sep(c));
        if is_sep {
            if cur.len() > 0 {
                done.push(cur);
                cur = Vec::new();
            }
        } else {
            cur.push(c);
        }
        i = i + 1;
    }
    assert(s@.take(s.len() as int) =~= s@);
    if cur.len() > 0 {
        done.push(cur);
    }
    done
}

/// Splitting text that follows a completed piece continues from nothing.
pub proof fn lemma_split_append(s: Seq<char>, t: Seq<char>, sep: spec_fn(char) -> bool)
    requires
        split_state(s, sep).1.len() == 0,
    ensures
        split_state(s + t, sep) == (split_state(s, sep).0 + split_state(t, sep).0, split_state(
            t,
            sep,
        ).1),
    decreases t.len(),
{
    if t.len() == 0 {
        assert(s + t =~= s);
        assert(split_state(s, sep).0 + Seq::<Seq<char>>::empty() =~= split_state(s, sep).0);
    } else {
        assert((s + t).drop_last() =~= s + t.drop_last());
        assert((s + t).last() == t.last());
        lemma_split_append(s, t.drop_last(), sep);
        let a = split_state(s, sep).0;
        let (d, c) = split_state(t.drop_last(), sep);
        if sep(t.last()) && c.len() > 0 {
            assert((a + d).push(c) =~= a + d.push(c));
        }
    }
}

/// A run without separators is read as one open piece.
pub proof fn lemma_split_plain(d: Seq<char>, sep: spec_fn(char) -> bool)
    requires
        forall|k: int| 0 <= k < d.len() ==> !sep(#[trigger] d[k]),
    ensures
        split_state(d, sep) == (Seq::<Seq<char>>::empty(), d),
    decreases d.len(),
{
    if d.len() > 0 {
        let t = d.drop_last();
        assert forall|k: int| 0 <= k < t.len() implies !sep(#[trigger] t[k]) by {
            assert(t[k] == d[k]);
        }
        lemma_split_plain(t, sep);
        assert(!sep(d[d.len() - 1]));
        assert(t.push(d.last()) =~= d);
    } else {
        assert(d =~= Seq::<char>::empty());
    }
}

/// A non-empty run without separators, closed by a separator, is read as one
/// piece.
pub proof fn lemma_split_closed(d: Seq<char>, z: char, sep: spec_fn(char) -> bool)
    requires
        d.len() > 0,
        forall|k: int| 0 <= k < d.len() ==> !sep(#[trigger] d[k]),
        sep(z),
    ensures
        split_state(d.push(z), sep) == (seq![d], Seq::<char>::empty()),
{
    lemma_split_plain(d, sep);
    assert(d.push(z).drop_last() =~= d);
    assert(Seq::<Seq<char>>::empty().push(d) =~= seq![d]);
}

/// A lone separator gives nothing.
pub proof fn lemma_split_sep(z: char, sep: spec_fn(char) -> bool)
    requires
        sep(z),
    ensures
        split_state(seq![z], sep) == (Seq::<Seq<char>>::empty(), Seq::<char>::empty()),
{
    assert(seq![z].drop_last() =~= Seq::<char>::empty());
    assert(split_state(Seq::<char>::empty(), sep) == (
        Seq::<Seq<char>>::empty(),
        Seq::<char>::empty(),
    ));
    assert(seq![z].last() == z);
}

/// The decimal writing of an integer holds only digits and '-'.
pub proof fn lemma_decimal_chars(x: int)
    ensures
        decimal(x).len() > 0,
        forall|k: int|
            0 <= k < decimal(x).len() ==> is_digit(#[trigger] decimal(x)[k]) || decimal(x)[k] == '-',
{
    if x < 0 {
        lemma_decimal_nat_digits((-x) as nat);
        let d = decimal_nat((-x) as nat);
        assert forall|k: int| 0 <= k < decimal(x).len() implies is_digit(#[trigger] decimal(x)[k])
            || decimal(x)[k] == '-' by {
            if k > 0 {
                assert(decimal(x)[k] == d[k - 1]);
            }
        }
    } else {
        lemma_decimal_nat_digits(x as nat);
    }
}

/// The words of `s`, each as a vector of characters.
pub fn split_words(s: &Vec<char>) -> (ws: Vec<Vec<char>>)
    ensures
        ws.len() == words(s@).len(),
        forall|k: int| 0 <= k < ws.len() ==> #[trigger] ws@[k]@ == words(s@)[k],
{
    split_pieces(s, false)
}

/// The fields of `s`, each as a vector of characters.
pub fn split_fields(s: &Vec<char>) -> (fs: Vec<Vec<char>>)
    ensures
        fs.len() == fields(s@).len(),
        forall|k: int| 0 <= k < fs.len() ==> #[trigger] fs@[k]@ == fields(s@)[k],
{
    split_pieces(s, true)
}

/// The number of white-space characters at the front of `s`.
pub open spec fn leading_white(s: Seq<char>) -> nat
    decreases s.len(),
{
    if s.len() > 0 && is_white(s[0]) {
        1 + leading_white(s.drop_first())
    } else {
        0
    }
}

/// The number of white-space characters at the end of `s`.
pub open spec fn trailing_white(s: Seq<char>) -> nat
    decreases s.len(),
{
    if s.len() > 0 && is_white(s.last()) {
        1 + trailing_white(s.drop_last())
    } else {
        0
    }
}

/// `s` without its leading and trailing white space (what `str::trim` gives).
pub open spec fn trim(s: Seq<char>) -> Seq<char> {
    let t = s.skip(leading_white(s) as int);
    t.take(t.len() - trailing_white(t))
}

proof fn lemma_leading_white(s: Seq<char>, i: int)
    requires
        0 <= i <= s.len(),
        forall|k: int| 0 <= k < i ==> is_white(#[trigger] s[k]),
    ensures
        leading_white(s) == i + leading_white(s.skip(i)),
    decreases i,
{
    if i > 0 {
        assert(s.drop_first().skip(i - 1) =~= s.skip(i));
        lemma_leading_white(s.drop_first(), i - 1);
    } else {
        assert(s.skip(0) =~= s);
    }
}

proof fn lemma_trailing_white(s: Seq<char>, i: int)
    requires
        0 <= i <= s.len(),
        forall|k: int| s.len() - i <= k < s.len() ==> is_white(#[trigger] s[k]),
    ensures
        trailing_white(s) == i + trailing_white(s.take(s.len() - i)),
    decreases i,
{
    if i > 0 {
        assert(s.drop_last().take(s.drop_last().len() - (i - 1)) =~= s.take(s.len() - i));
        lemma_trailing_white(s.drop_last(), i - 1);
    } else {
        assert(s.take(s.len() as int) =~= s);
    }
}

/// The characters of `s` without leading and trailing white space.
pub fn trim_chars(s: &Vec<char>) -> (t: Vec<char>)
    ensures
        t@ == trim(s@),
{
    let n = s.len();
    let mut a: usize = 0;
    while a < n && is_white_char(s[a])
        invariant
            a <= n,
            n == s.len(),
            forall|k: int| 0 <= k < a ==> is_white(#[trigger] s@[k]),
        decreases n - a,
    {
        a = a + 1;
    }
    proof {
        lemma_leading_white(s@, a as int);
        if a < n {
            assert(!is_white(s@.skip(a as int)[0]));
        }
        assert(leading_white(s@.skip(a as int)) == 0);
    }
    let ghost u = s@.skip(a as int);
    let mut b: usize = n;
    while b > a && is_white_char(s[b - 1])
        invariant
            a <= b <= n,
            n == s.len(),
            u == s@.skip(a as int),
            forall|k: int| b - a <= k < u.len() ==> is_white(#[trigger] u[k]),
        decreases b,
    {
        b = b - 1;
    }
    proof {
        lemma_trailing_white(u, (n - b) as int);
        let w = u.take(b - a);
        if b > a {
            assert(w.last() == s@[b - 1]);
        }
        assert(trailing_white(w) == 0);
    }
    let mut t: Vec<char> = Vec::new();
    let mut k: usize = a;
    while k < b
        invariant
            a <= k <= b <= n,
            n == s.len(),
            t@ == s@.subrange(a as int, k as int),
        decreases b - k,
    {
        t.push(s[k]);
        k = k + 1;
        assert(t@ =~= s@.subrange(a as int, k as int));
    }
    assert(t@ =~= u.take(u.len() - trailing_white(u)));
    t
}

/// The decimal digit character of `d` (`0 <= d < 10`).
pub open spec fn digit_char(d: int) -> char {
    (d + 48) as char
}

/// The decimal writing of a natural number, without leading zeros.
pub open spec fn decimal_nat(n: nat) -> Seq<char>
    decreases n,
{
    if n < 10 {
        seq![digit_char(n as int)]
    } else {
        decimal_nat(n / 10).push(digit_char((n % 10) as int))
    }
}

/// The decimal writing of an integer, with `-` in front of a negative one (what
/// `to_string` gives for an integer).
pub open spec fn decimal(x: int) -> Seq<char> {
    if x < 0 {
        seq!['-'] + decimal_nat((-x) as nat)
    } else {
        decimal_nat(x as nat)
    }
}

/// Appends the decimal writing of `x` to `s`.
pub fn push_decimal(s: &mut String, x: i32)
    ensures
        final(s)@ == old(s)@ + decimal(x as int),
{
    let mut n: i64 = x as i64;
    if n < 0 {
        push_char(s, '-');
        n = -n;
    }
    let ghost start = s@;
    let ghost whole = n as nat;
    let mut rev: Vec<char> = Vec::new();
    let ghost mut acc: Seq<char> = Seq::empty();
    while n >= 10
        invariant
            0 <= n <= whole,
            whole <= 2147483648,
            decimal_nat(whole) == decimal_nat(n as nat) + acc,
            acc.len() == rev.len(),
            forall|k: int| 0 <= k < rev.len() ==> #[trigger] acc[k] == rev@[rev.len() - 1 - k],
        decreases n,
    {
        let d = (n % 10) as u32;
        let c = char_from_digit(d);
        proof {
            assert(decimal_nat(n as nat) == decimal_nat((n / 10) as nat).push(c));
            assert(decimal_nat(n as nat) + acc =~= decimal_nat((n / 10) as nat) + (seq![c] + acc));
            acc = seq![c] + acc;
        }
        rev.push(c);
        n = n / 10;
    }
    let c = char_from_digit(n as u32);
    proof {
        assert(decimal_nat(n as nat) == seq![c]);
        acc = seq![c] + acc;
    }
    rev.push(c);
    assert(decimal_nat(whole) =~= acc);
    let mut i: usize = rev.len();
    while i > 0
        invariant
            i <= rev.len(),
            acc.len() == rev.len(),
            forall|k: int| 0 <= k < rev.len() ==> #[trigger] acc[k] == rev@[rev.len() - 1 - k],
            s@ == start + acc.take(rev.len() - i),
        decreases i,
    {
        i = i - 1;
        assert(acc.take(rev.len() - i) =~= acc.take(rev.len() - 1 - i).push(acc[rev.len() - 1 - i]));
        push_char(s, rev[i]);
    }
    assert(acc.take(rev.len() as int) =~= acc);
}

fn char_from_digit(d: u32) -> (c: char)
    requires
        d < 10,
    ensures
        c == digit_char(d as int),
{
    match d {
        0 => '0',
        1 => '1',
        2 => '2',
        3 => '3',
        4 => '4',
        5 => '5',
        6 => '6',
        7 => '7',
        8 => '8',
        _ => '9',
    }
}

/// An ASCII decimal digit.
pub open spec fn is_digit(c: char) -> bool {
    '0' <= c && c <= '9'
}

/// Every character of `d` is a decimal digit.
pub open spec fn all_digits(d: Seq<char>) -> bool {
    forall|k: int| 0 <= k < d.len() ==> is_digit(#[trigger] d[k])
}

/// The value of a run of decimal digits.
pub open spec fn digits_value(d: Seq<char>) -> int
    decreases d.len(),
{
    if d.len() == 0 {
        0
    } else {
        digits_value(d.drop_last()) * 10 + (d.last() as int - 48)
    }
}

/// The integer that `s` writes: an optional `+` or `-`, then one or more
/// decimal digits; `None` for anything else.
pub open spec fn integer_value(s: Seq<char>) -> Option<int> {
    let signed = s.len() > 0 && (s[0] == '-' || s[0] == '+');
    let d = if signed {
        s.drop_first()
    } else {
        s
    };
    if d.len() == 0 || !all_digits(d) {
        None
    } else if s[0] == '-' {
        Some(-digits_value(d))
    } else {
        Some(digits_value(d))
    }
}

/// What `str::parse::<i32>` gives for `s`: the value written, where it is one
/// and fits in an `i32`.
pub open spec fn parse_i32_spec(s: Seq<char>) -> Option<i32> {
    match integer_value(s) {
        Some(v) => if i32::MIN <= v <= i32::MAX {
            Some(v as i32)
        } else {
            None
        },
        None => None,
    }
}

proof fn lemma_digits_value_grows(d: Seq<char>, k: int)
    requires
        0 <= k <= d.len(),
        forall|m: int| 0 <= m < d.len() ==> is_digit(#[trigger] d[m]),
    ensures
        digits_value(d.take(k)) <= digits_value(d),
        0 <= digits_value(d.take(k)),
    decreases d.len(),
{
    if d.len() > 0 {
        if k == d.len() {
            assert(d.take(k) =~= d);
            lemma_digits_value_grows(d.drop_last(), k - 1);
            assert(d.drop_last().take(k - 1) =~= d.drop_last());
        } else {
            lemma_digits_value_grows(d.drop_last(), k);
            assert(d.drop_last().take(k) =~= d.take(k));
            lemma_digits_value_grows(d.drop_last(), d.len() - 1);
            assert(d.drop_last().take(d.len() - 1) =~= d.drop_last());
        }
    } else {
        assert(d.take(k) =~= Seq::<char>::empty());
    }
}

proof fn lemma_integer_value_none(s: Seq<char>, d: Seq<char>)
    requires
        d == (if s.len() > 0 && (s[0] == '-' || s[0] == '+') {
            s.drop_first()
        } else {
            s
        }),
        !all_digits(d),
    ensures
        integer_value(s) is None,
{
}

/// The number that the characters `s` write, as `str::parse::<i32>` reads it.
pub fn parse_i32(s: &Vec<char>) -> (r: Option<i32>)
    ensures
        r == parse_i32_spec(s@),
{
    let n = s.len();
    if n == 0 {
        return None;
    }
    let mut start: usize = 0;
    if s[0] == '-' || s[0] == '+' {
        start = 1;
    }
    let ghost d = if start == 1 {
        s@.drop_first()
    } else {
        s@
    };
    assert(d =~= s@.subrange(start as int, n as int));
    assert(d == (if s@.len() > 0 && (s@[0] == '-' || s@[0] == '+') {
        s@.drop_first()
    } else {
        s@
    }));
    if start == n {
        return None;
    }
    let mut acc: i64 = 0;
    let mut k: usize = start;
    while k < n
        invariant
            start <= k <= n,
            n == s.len(),
            d == s@.subrange(start as int, n as int),
            d == (if s@.len() > 0 && (s@[0] == '-' || s@[0] == '+') {
                s@.drop_first()
            } else {
                s@
            }),
            start == 1 ==> (s@[0] == '-' || s@[0] == '+'),
            acc == digits_value(d.take(k - start)),
            0 <= acc <= 2147483648,
            forall|m: int| 0 <= m < k - start ==> is_digit(#[trigger] d[m]),
        decreases n - k,
    {
        let c = s[k];
        if !('0' <= c && c <= '9') {
            assert(!is_digit(d[k - start]));
            assert(!all_digits(d));
            proof {
                lemma_integer_value_none(s@, d);
            }
            return None;
        }
        assert(d.take(k + 1 - start).drop_last() =~= d.take(k - start));
        acc = acc * 10 + (c as u32 - 48) as i64;
        k = k + 1;
        assert(d.take(k - start).last() == c);
        assert(acc == digits_value(d.take(k - start)));
        if acc > 2147483648 {
            proof {
                if all_digits(d) {
                    lemma_digits_value_grows(d, k - start);
                    assert(digits_value(d) > 2147483648);
                }
            }
            assert(parse_i32_spec(s@) is None);
            return None;
        }
    }
    assert(d.take(n - start) =~= d);
    if start == 1 && s[0] == '-' {
        Some((-acc) as i32)
    } else if acc <= 2147483647 {
        Some(acc as i32)
    } else {
        None
    }
}

/// The number written in `line`, around which white space may stand, as
/// `line.trim().parse::<i32>()` reads it.
pub fn read_int(line: &str) -> (r: Option<i32>)
    ensures
        r == parse_i32_spec(trim(line@)),
{
    let cs = chars_of(line);
    let t = trim_chars(&cs);
    parse_i32(&t)
}

/// The decimal writing of a natural number is a non-empty run of digits of
/// that value.
pub proof fn lemma_decimal_nat_digits(n: nat)
    ensures
        decimal_nat(n).len() > 0,
        forall|k: int| 0 <= k < decimal_nat(n).len() ==> is_digit(#[trigger] decimal_nat(n)[k]),
        digits_value(decimal_nat(n)) == n,
    decreases n,
{
    if n >= 10 {
        lemma_decimal_nat_digits(n / 10);
        assert(decimal_nat(n).drop_last() =~= decimal_nat(n / 10));
        assert(decimal_nat(n).last() as int - 48 == n % 10);
        assert(digits_value(decimal_nat(n)) == digits_value(decimal_nat(n).drop_last()) * 10 + (
        decimal_nat(n).last() as int - 48));
        assert((n / 10) * 10 + n % 10 == n);
    } else {
        assert(decimal_nat(n).drop_last() =~= Seq::<char>::empty());
        assert(decimal_nat(n).last() as int - 48 == n);
        assert(digits_value(decimal_nat(n).drop_last()) == 0);
    }
}

/// Reading back the decimal writing of a number gives the number: what
/// `push_decimal` writes, `parse_i32` reads as the same value.
pub proof fn lemma_decimal_reads_back(x: i32)
    ensures
        parse_i32_spec(decimal(x as int)) == Some(x),
{
    if x < 0 {
        let m = (-x) as nat;
        lemma_decimal_nat_digits(m);
        let s = decimal(x as int);
        assert(s.drop_first() =~= decimal_nat(m));
    } else {
        lemma_decimal_nat_digits(x as nat);
    }
}

/// The first position of `s` whose element satisfies `p`, or -1 where none
/// does.
pub open spec fn first_index<T>(s: Seq<T>, p: spec_fn(T) -> bool) -> int {
    if exists|i: int| 0 <= i < s.len() && p(#[trigger] s[i]) {
        choose|i: int|
            0 <= i < s.len() && p(#[trigger] s[i]) && forall|m: int| 0 <= m < i ==> !p(s[m])
    } else {
        -1
    }
}

/// Where position `i` satisfies `p` and none before it does, it is the first.
pub proof fn lemma_first_index_found<T>(s: Seq<T>, p: spec_fn(T) -> bool, i: int)
    requires
        0 <= i < s.len(),
        p(s[i]),
        forall|m: int| 0 <= m < i ==> !p(#[trigger] s[m]),
    ensures
        first_index(s, p) == i,
{
    assert(exists|k: int| 0 <= k < s.len() && p(#[trigger] s[k]));
    assert(exists|k: int|
        0 <= k < s.len() && p(#[trigger] s[k]) && forall|m: int| 0 <= m < k ==> !p(s[m]));
    let w = choose|k: int|
        0 <= k < s.len() && p(#[trigger] s[k]) && forall|m: int| 0 <= m < k ==> !p(s[m]);
    if w < i {
        assert(!p(s[w]));
    }
    if i < w {
        assert(!p(s[i]));
    }
}

proof fn lemma_minimal_witness<T>(s: Seq<T>, p: spec_fn(T) -> bool, w: int)
    requires
        0 <= w < s.len(),
        p(s[w]),
    ensures
        exists|k: int|
            0 <= k < s.len() && p(#[trigger] s[k]) && forall|m: int| 0 <= m < k ==> !p(s[m]),
    decreases w,
{
    if exists|m: int| 0 <= m < w && p(#[trigger] s[m]) {
        let m = choose|m: int| 0 <= m < w && p(#[trigger] s[m]);
        lemma_minimal_witness(s, p, m);
    } else {
        assert(forall|m: int| 0 <= m < w ==> !p(#[trigger] s[m]));
        assert(0 <= w < s.len() && p(s[w]) && forall|m: int| 0 <= m < w ==> !p(s[m]));
    }
}

/// What `first_index` answers: -1 exactly where no position satisfies `p`,
/// else the first position that does.
pub proof fn lemma_first_index<T>(s: Seq<T>, p: spec_fn(T) -> bool)
    ensures
        first_index(s, p) == -1 <==> forall|m: int| 0 <= m < s.len() ==> !p(#[trigger] s[m]),
        first_index(s, p) != -1 ==> {
            &&& 0 <= first_index(s, p) < s.len()
            &&& p(s[first_index(s, p)])
            &&& forall|m: int| 0 <= m < first_index(s, p) ==> !p(#[trigger] s[m])
        },
{
    if exists|i: int| 0 <= i < s.len() && p(#[trigger] s[i]) {
        let w = choose|i: int| 0 <= i < s.len() && p(#[trigger] s[i]);
        lemma_minimal_witness(s, p, w);
    }
}

/// Where no position satisfies `p`, the answer is -1.
pub proof fn lemma_first_index_none<T>(s: Seq<T>, p: spec_fn(T) -> bool)
    requires
        forall|m: int| 0 <= m < s.len() ==> !p(#[trigger] s[m]),
    ensures
        first_index(s, p) == -1,
{
}

/// Whether two character vectors are equal.
pub fn chars_eq(a: &Vec<char>, b: &Vec<char>) -> (r: bool)
    ensures
        r == (a@ == b@),
{
    if a.len() != b.len() {
        return false;
    }
    let mut i: usize = 0;
    while i < a.len()
        invariant
            i <= a.len(),
            a.len() == b.len(),
            forall|m: int| 0 <= m < i ==> a@[m] == b@[m],
        decreases a.len() - i,
    {
        if a[i] != b[i] {
            return false;
        }
        i = i + 1;
    }
    assert(a@ =~= b@);
    true
}

/// Whether two strings are equal.
pub fn str_eq(a: &str, b: &str) -> (r: bool)
    ensures
        r == (a@ == b@),
{
    chars_eq(&chars_of(a), &chars_of(b))
}

} // verus!
