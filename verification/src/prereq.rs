use vstd::prelude::*;
use crate::text::{all_digits, decimal_nat, digits_value, is_digit, lemma_decimal_nat_digits};

verus! {

broadcast use vstd::string::group_string_axioms;

/// Whether std's `char::is_numeric` holds of `c` (a Unicode number: general
/// category Nd, Nl or No).
pub uninterp spec fn char_is_numeric(c: char) -> bool;

/// Calls std's `char::is_numeric`. Its result is named by `char_is_numeric`;
/// of ASCII characters the contract states that exactly the decimal digits
/// are numeric. What it answers for other characters (the Unicode number
/// categories) is left unsaid.
#[verifier::external_body]
fn is_numeric(c: char) -> (r: bool)
    ensures
        r == char_is_numeric(c),
        (c as u32) < 128 ==> (r <==> is_digit(c)),
{
    c.is_numeric()
}

/// Every decimal digit is a numeric character.
pub open spec fn digits_numeric() -> bool {
    forall|c: char| is_digit(c) ==> #[trigger] char_is_numeric(c)
}

/// Of the ASCII characters, exactly the decimal digits are numeric.
pub open spec fn ascii_numeric_known() -> bool {
    forall|c: char| (c as u32) < 128 ==> (#[trigger] char_is_numeric(c) <==> is_digit(c))
}

/// Asks `char::is_numeric` about each ASCII character, and so learns that of
/// these exactly the decimal digits are numeric.
pub fn check_digits_numeric()
    ensures
        digits_numeric(),
        ascii_numeric_known(),
{
    let mut i: u8 = 0;
    while i < 128
        invariant
            i <= 128,
            forall|c: char| (c as u32) < i ==> (#[trigger] char_is_numeric(c) <==> is_digit(c)),
        decreases 128 - i,
    {
        let ch = i as char;
        is_numeric(ch);
        assert forall|c: char| (c as u32) < i + 1 implies (#[trigger] char_is_numeric(c)
            <==> is_digit(c)) by {
            if c as u32 == i {
                assert(ch as u32 == i);
                vstd::utf8::char_u32_cast(c, c as u32);
                vstd::utf8::char_u32_cast(ch, ch as u32);
            }
        }
        i = i + 1;
    }
    assert forall|c: char| is_digit(c) implies #[trigger] char_is_numeric(c) by {
        assert((c as u32) < 128);
    }
}

/// The low byte of `c`, which `c as u8` keeps.
pub open spec fn low_byte(c: char) -> int {
    (c as u32) as int % 256
}

/// The numeric characters of `s` each count as a digit of value
/// `low_byte(c) - 48`; the others are skipped.
pub open spec fn numeric_value(s: Seq<char>) -> int
    decreases s.len(),
{
    if s.len() == 0 {
        0
    } else if char_is_numeric(s.last()) {
        numeric_value(s.drop_last()) * 10 + (low_byte(s.last()) - 48)
    } else {
        numeric_value(s.drop_last())
    }
}

/// `s` holds a numeric character.
pub open spec fn has_numeric(s: Seq<char>) -> bool {
    exists|k: int| 0 <= k < s.len() && char_is_numeric(#[trigger] s[k])
}

/// Every numeric character of `s` has a low byte of at least 48 (so that the
/// `u8` subtraction of '0' does not underflow).
pub open spec fn numeric_bytes_ok(s: Seq<char>) -> bool {
    forall|k: int| 0 <= k < s.len() && char_is_numeric(#[trigger] s[k]) ==> low_byte(s[k]) >= 48
}

/// What `str_to_int` returns for `s`: -1 where no character is numeric, else
/// the number that the numeric characters make.
pub open spec fn str_to_int_spec(s: Seq<char>) -> int {
    if has_numeric(s) {
        numeric_value(s)
    } else {
        -1
    }
}

proof fn lemma_numeric_value_grows(s: Seq<char>, k: int)
    requires
        0 <= k <= s.len(),
        numeric_bytes_ok(s),
    ensures
        0 <= numeric_value(s.take(k)) <= numeric_value(s),
    decreases s.len(),
{
    if s.len() > 0 {
        let t = s.drop_last();
        assert(numeric_bytes_ok(t)) by {
            assert forall|m: int| 0 <= m < t.len() && char_is_numeric(#[trigger] t[m]) implies low_byte(
                t[m],
            ) >= 48 by {
                assert(s[m] == t[m]);
            }
        }
        if k == s.len() {
            assert(s.take(k) =~= s);
            lemma_numeric_value_grows(t, k - 1);
            assert(t.take(k - 1) =~= t);
        } else {
            lemma_numeric_value_grows(t, k);
            assert(t.take(k) =~= s.take(k));
            lemma_numeric_value_grows(t, t.len() as int);
            assert(t.take(t.len() as int) =~= t);
        }
        if char_is_numeric(s.last()) {
            assert(low_byte(s[s.len() - 1]) >= 48);
        }
    } else {
        assert(s.take(k) =~= Seq::<char>::empty());
    }
}

proof fn lemma_digits_numeric_value(d: Seq<char>)
    requires
        digits_numeric(),
        all_digits(d),
    ensures
        numeric_value(d) == digits_value(d),
        numeric_bytes_ok(d),
    decreases d.len(),
{
    if d.len() > 0 {
        let t = d.drop_last();
        assert(all_digits(t)) by {
            assert forall|k: int| 0 <= k < t.len() implies is_digit(#[trigger] t[k]) by {
                assert(t[k] == d[k]);
            }
        }
        lemma_digits_numeric_value(t);
        assert(is_digit(d[d.len() - 1]));
        assert(char_is_numeric(d.last()));
        assert(low_byte(d.last()) == d.last() as int);
    }
    assert forall|k: int| 0 <= k < d.len() && char_is_numeric(#[trigger] d[k]) implies low_byte(
        d[k],
    ) >= 48 by {
        assert(is_digit(d[k]));
    }
}

/// `str_to_int` reads the decimal writing of a natural number back as that
/// number.
pub proof fn lemma_str_to_int_reads_decimal(n: nat)
    requires
        digits_numeric(),
    ensures
        numeric_bytes_ok(decimal_nat(n)),
        numeric_value(decimal_nat(n)) == n,
        str_to_int_spec(decimal_nat(n)) == n,
{
    let d = decimal_nat(n);
    lemma_decimal_nat_digits(n);
    lemma_digits_numeric_value(d);
    assert(is_digit(d[0]));
    assert(char_is_numeric(d[0]));
    assert(has_numeric(d));
}

proof fn lemma_numeric_value_insert(s: Seq<char>, k: int, c: char)
    requires
        0 <= k <= s.len(),
        !char_is_numeric(c),
    ensures
        numeric_value(s.insert(k, c)) == numeric_value(s),
    decreases s.len(),
{
    let t = s.insert(k, c);
    if k == s.len() {
        assert(t.drop_last() =~= s);
        assert(t.last() == c);
    } else {
        lemma_numeric_value_insert(s.drop_last(), k, c);
        assert(t.drop_last() =~= s.drop_last().insert(k, c));
        assert(t.last() == s.last());
    }
}

/// A character that is not numeric counts for nothing in `str_to_int`:
/// inserted anywhere in `s`, it leaves the result, and whether the call
/// succeeds, as they were.
pub proof fn lemma_str_to_int_ignores_insert(s: Seq<char>, k: int, c: char)
    requires
        0 <= k <= s.len(),
        !char_is_numeric(c),
    ensures
        str_to_int_spec(s.insert(k, c)) == str_to_int_spec(s),
        numeric_value(s.insert(k, c)) == numeric_value(s),
        numeric_bytes_ok(s.insert(k, c)) == numeric_bytes_ok(s),
{
    let t = s.insert(k, c);
    lemma_numeric_value_insert(s, k, c);
    if has_numeric(s) {
        let w = choose|m: int| 0 <= m < s.len() && char_is_numeric(#[trigger] s[m]);
        let v = if w < k {
            w
        } else {
            w + 1
        };
        assert(t[v] == s[w]);
        assert(has_numeric(t));
    }
    if has_numeric(t) {
        let w = choose|m: int| 0 <= m < t.len() && char_is_numeric(#[trigger] t[m]);
        assert(w != k);
        let v = if w < k {
            w
        } else {
            w - 1
        };
        assert(s[v] == t[w]);
        assert(has_numeric(s));
    }
    if numeric_bytes_ok(s) {
        assert forall|m: int| 0 <= m < t.len() && char_is_numeric(#[trigger] t[m]) implies low_byte(
            t[m],
        ) >= 48 by {
            let v = if m < k {
                m
            } else {
                m - 1
            };
            assert(s[v] == t[m]);
        }
    }
    if numeric_bytes_ok(t) {
        assert forall|m: int| 0 <= m < s.len() && char_is_numeric(#[trigger] s[m]) implies low_byte(
            s[m],
        ) >= 48 by {
            let v = if m < k {
                m
            } else {
                m + 1
            };
            assert(s[m] == t[v]);
        }
    }
}

/// Deleting a character that is not numeric from `s` leaves the result of
/// `str_to_int`, and whether the call succeeds, as they were.
pub proof fn lemma_str_to_int_ignores_remove(s: Seq<char>, k: int)
    requires
        0 <= k < s.len(),
        !char_is_numeric(s[k]),
    ensures
        str_to_int_spec(s.remove(k)) == str_to_int_spec(s),
        numeric_value(s.remove(k)) == numeric_value(s),
        numeric_bytes_ok(s.remove(k)) == numeric_bytes_ok(s),
{
    assert(s.remove(k).insert(k, s[k]) =~= s);
    lemma_str_to_int_ignores_insert(s.remove(k), k, s[k]);
}

/// The number made of the numeric characters of `a` (each counting as its low
/// byte minus 48), or -1 where `a` has none.
pub fn str_to_int(a: &str) -> (r: i32)
    requires
        numeric_bytes_ok(a@),
        numeric_value(a@) <= i32::MAX,
    ensures
        r == str_to_int_spec(a@),
{
    let mut nr: i32 = 0;
    let mut maybenotpossible = true;
    for ch in it: a.chars()
        invariant
            it.seq() == a@,
            numeric_bytes_ok(a@),
            numeric_value(a@) <= i32::MAX,
            nr == numeric_value(a@.take(it.index())),
            maybenotpossible == !has_numeric(a@.take(it.index())),
    {
        let ghost k = it.index();
        let ghost pre = a@.take(k);
        let ghost post = a@.take(k + 1);
        assert(post.drop_last() =~= pre);
        assert(post.last() == ch);
        proof {
            lemma_numeric_value_grows(a@, k + 1);
        }
        if is_numeric(ch) {
            maybenotpossible = false;
            assert(low_byte(a@[k]) >= 48);
            let code: u32 = ch as u32;
            let b: u8 = code as u8;
            assert(b == code % 256) by (bit_vector)
                requires
                    b == code as u8,
            ;
            nr = nr * 10 + (b - '0' as u8) as i32;
            assert(has_numeric(post)) by {
                assert(char_is_numeric(post[k]));
            }
        } else {
            assert(has_numeric(post) == has_numeric(pre)) by {
                if has_numeric(post) {
                    let w = choose|m: int| 0 <= m < post.len() && char_is_numeric(#[trigger] post[m]);
                    assert(pre[w] == post[w]);
                }
                if has_numeric(pre) {
                    let w = choose|m: int| 0 <= m < pre.len() && char_is_numeric(#[trigger] pre[m]);
                    assert(pre[w] == post[w]);
                }
            }
        }
    }
    assert(a@.take(a@.len() as int) =~= a@);
    if maybenotpossible {
        return -1;
    }
    nr
}

/// `str_to_int(a)`, or `None` where that call would fail: where a numeric
/// character's low byte is below that of '0', or the number overflows an
/// `i32`.
pub fn try_str_to_int(a: &str) -> (r: Option<i32>)
    ensures
        r == (if numeric_bytes_ok(a@) && numeric_value(a@) <= i32::MAX {
            Some(str_to_int_spec(a@) as i32)
        } else {
            None
        }),
{
    let mut nr: i64 = 0;
    for ch in it: a.chars()
        invariant
            it.seq() == a@,
            nr == numeric_value(a@.take(it.index())),
            0 <= nr <= i32::MAX,
            numeric_bytes_ok(a@.take(it.index())),
    {
        let ghost k = it.index();
        let ghost pre = a@.take(k);
        let ghost post = a@.take(k + 1);
        assert(post.drop_last() =~= pre);
        assert(post.last() == ch);
        if is_numeric(ch) {
            let code: u32 = ch as u32;
            let b: u8 = code as u8;
            assert(b == code % 256) by (bit_vector)
                requires
                    b == code as u8,
            ;
            if b < 48 {
                assert(!numeric_bytes_ok(a@)) by {
                    assert(char_is_numeric(a@[k]));
                }
                return None;
            }
            nr = nr * 10 + (b - 48) as i64;
            if nr > i32::MAX as i64 {
                proof {
                    if numeric_bytes_ok(a@) {
                        lemma_numeric_value_grows(a@, k + 1);
                    }
                }
                return None;
            }
        }
        assert(numeric_bytes_ok(post)) by {
            assert forall|m: int| 0 <= m < post.len() && char_is_numeric(#[trigger] post[m]) implies low_byte(
                post[m],
            ) >= 48 by {
                if m < k {
                    assert(pre[m] == post[m]);
                }
            }
        }
    }
    assert(a@.take(a@.len() as int) =~= a@);
    Some(str_to_int(a))
}

/// The fixed texts that the server sends its players.
pub struct BasicMessages {
    youwon: String,
    youlost: String,
    placeawall: String,
    movemouse: String,
}

impl BasicMessages {
    /// The text for the player who won.
    pub closed spec fn won_text(self) -> Seq<char> {
        self.youwon@
    }

    /// The text for the player who lost.
    pub closed spec fn lost_text(self) -> Seq<char> {
        self.youlost@
    }

    /// The prompt for the player of the walls.
    pub closed spec fn wall_text(self) -> Seq<char> {
        self.placeawall@
    }

    /// The prompt for the player of the mouse.
    pub closed spec fn mouse_text(self) -> Seq<char> {
        self.movemouse@
    }

    /// The four texts of the game.
    pub fn new() -> (m: Self)
        ensures
            m.won_text() == "You won (against all walls), congrats!"@,
            m.lost_text() == "You lost(in a trap the mouse game?)"@,
            m.wall_text() == "Place a wall(2 integers):"@,
            m.mouse_text() == "Move mouse in one of the 6 directions[1-6]>"@,
    {
        BasicMessages {
            youwon: "You won (against all walls), congrats!".to_string(),
            youlost: "You lost(in a trap the mouse game?)".to_string(),
            placeawall: "Place a wall(2 integers):".to_string(),
            movemouse: "Move mouse in one of the 6 directions[1-6]>".to_string(),
        }
    }

    /// The text for the player who lost.
    pub fn lostmess(&self) -> (s: String)
        ensures
            s@ == self.lost_text(),
    {
        self.youlost.clone()
    }

    /// The text for the player who won.
    pub fn wonmess(&self) -> (s: String)
        ensures
            s@ == self.won_text(),
    {
        self.youwon.clone()
    }

    /// The prompt for the player of the mouse.
    pub fn movemousemess(&self) -> (s: String)
        ensures
            s@ == self.mouse_text(),
    {
        self.movemouse.clone()
    }

    /// The prompt for the player of the walls.
    pub fn placewallmess(&self) -> (s: String)
        ensures
            s@ == self.wall_text(),
    {
        self.placeawall.clone()
    }
}

} // verus!
