//! The board's wire protocol: text frames carrying one JSON-shaped message.
//!
//! A frame is either a circle or a pointer sample:
//!
//! ```text
//! {"Circle":{"x":5,"y":5,"radius":5,"color":{"r":1,"g":2,"b":3}}}
//! {"Pointer":{"id":"#0a0b0c","x":5,"y":5,"color":{"r":1,"g":2,"b":3}}}
//! ```
//!
//! The grammar is canonical: fields in the order shown, no whitespace,
//! integers in plain decimal without leading zeros, coordinates within
//! `PIXEL_LIMIT`, color components one byte each, and participant ids free
//! of quotes and backslashes.  `msg_chars` is the one rendering of a
//! message; `encode` produces exactly it and `parse` accepts exactly the
//! strings of that shape, so a frame survives a round trip unchanged and
//! anything else is a protocol error.

use crate::cursor::PIXEL_LIMIT;
use crate::datatypes::{Circle, Color, PointerPosition, SocketMessage};
use vstd::prelude::*;
use vstd::string::StrSliceExecFns;
use vstd::string::StringExecFns;

verus! {

/// The decimal digit character for a value below ten.
pub open spec fn digit_char(d: nat) -> char {
    if d == 0 {
        '0'
    } else if d == 1 {
        '1'
    } else if d == 2 {
        '2'
    } else if d == 3 {
        '3'
    } else if d == 4 {
        '4'
    } else if d == 5 {
        '5'
    } else if d == 6 {
        '6'
    } else if d == 7 {
        '7'
    } else if d == 8 {
        '8'
    } else {
        '9'
    }
}

pub open spec fn is_digit(c: char) -> bool {
    c == '0' || c == '1' || c == '2' || c == '3' || c == '4' || c == '5' || c == '6' || c == '7'
        || c == '8' || c == '9'
}

/// The numeric value of a digit character.
pub open spec fn char_val(c: char) -> nat {
    if c == '0' {
        0
    } else if c == '1' {
        1
    } else if c == '2' {
        2
    } else if c == '3' {
        3
    } else if c == '4' {
        4
    } else if c == '5' {
        5
    } else if c == '6' {
        6
    } else if c == '7' {
        7
    } else if c == '8' {
        8
    } else {
        9
    }
}

/// Decimal rendering of a natural number, most significant digit first,
/// no leading zeros.
pub open spec fn dec_digits(n: nat) -> Seq<char>
    decreases n,
{
    if n < 10 {
        seq![digit_char(n)]
    } else {
        dec_digits(n / 10).push(digit_char(n % 10))
    }
}

/// The value of a digit string, most significant digit first.
pub open spec fn digits_val(ds: Seq<char>) -> nat
    decreases ds.len(),
{
    if ds.len() == 0 {
        0
    } else {
        digits_val(ds.drop_last()) * 10 + char_val(ds.last())
    }
}

/// Canonical decimal rendering of an integer.
pub open spec fn int_chars(v: int) -> Seq<char> {
    if v < 0 {
        seq!['-'] + dec_digits((-v) as nat)
    } else {
        dec_digits(v as nat)
    }
}

/// A character that may appear inside a rendered integer.
pub open spec fn is_int_char(c: char) -> bool {
    is_digit(c) || c == '-'
}

/// A character allowed in a participant id: anything that does not need
/// escaping inside a JSON string.
pub open spec fn is_id_char(c: char) -> bool {
    c != '"' && c != '\\'
}

pub open spec fn wf_id(id: Seq<char>) -> bool {
    forall|i: int| 0 <= i < id.len() ==> is_id_char(#[trigger] id[i])
}

pub open spec fn in_coord_range(v: int) -> bool {
    -PIXEL_LIMIT <= v <= PIXEL_LIMIT
}

pub open spec fn wf_circle(c: Circle) -> bool {
    &&& in_coord_range(c.x as int)
    &&& in_coord_range(c.y as int)
    &&& in_coord_range(c.radius as int)
}

pub open spec fn wf_pointer(p: PointerPosition) -> bool {
    &&& wf_id(p.id@)
    &&& in_coord_range(p.x as int)
    &&& in_coord_range(p.y as int)
}

pub open spec fn wf_msg(m: SocketMessage) -> bool {
    match m {
        SocketMessage::Circle(c) => wf_circle(c),
        SocketMessage::Pointer(p) => wf_pointer(p),
    }
}

/// `{"Circle":{"x":`
pub open spec fn lit_circle() -> Seq<char> {
    seq!['{', '"', 'C', 'i', 'r', 'c', 'l', 'e', '"', ':', '{', '"', 'x', '"', ':']
}

/// `{"Pointer":{"id":"`
pub open spec fn lit_pointer() -> Seq<char> {
    seq!['{', '"', 'P', 'o', 'i', 'n', 't', 'e', 'r', '"', ':', '{', '"', 'i', 'd', '"', ':', '"']
}

/// `","x":`
pub open spec fn lit_id_x() -> Seq<char> {
    seq!['"', ',', '"', 'x', '"', ':']
}

/// `,"y":`
pub open spec fn lit_y() -> Seq<char> {
    seq![',', '"', 'y', '"', ':']
}

/// `,"radius":`
pub open spec fn lit_radius() -> Seq<char> {
    seq![',', '"', 'r', 'a', 'd', 'i', 'u', 's', '"', ':']
}

/// `,"color":{"r":`
pub open spec fn lit_color_r() -> Seq<char> {
    seq![',', '"', 'c', 'o', 'l', 'o', 'r', '"', ':', '{', '"', 'r', '"', ':']
}

/// `,"g":`
pub open spec fn lit_g() -> Seq<char> {
    seq![',', '"', 'g', '"', ':']
}

/// `,"b":`
pub open spec fn lit_b() -> Seq<char> {
    seq![',', '"', 'b', '"', ':']
}

/// `}}}`: closes the color object, the payload object and the frame.
pub open spec fn lit_end() -> Seq<char> {
    seq!['}', '}', '}']
}

/// The rendering of a circle frame.
pub open spec fn circle_chars(c: Circle) -> Seq<char> {
    lit_circle() + int_chars(c.x as int) + lit_y() + int_chars(c.y as int) + lit_radius()
        + int_chars(c.radius as int) + lit_color_r() + int_chars(c.color.r as int) + lit_g()
        + int_chars(c.color.g as int) + lit_b() + int_chars(c.color.b as int) + lit_end()
}

/// The rendering of a pointer frame.
pub open spec fn pointer_chars(p: PointerPosition) -> Seq<char> {
    lit_pointer() + p.id@ + lit_id_x() + int_chars(p.x as int) + lit_y() + int_chars(p.y as int)
        + lit_color_r() + int_chars(p.color.r as int) + lit_g() + int_chars(p.color.g as int)
        + lit_b() + int_chars(p.color.b as int) + lit_end()
}

/// The one rendering of a message on the wire.
pub open spec fn msg_chars(m: SocketMessage) -> Seq<char> {
    match m {
        SocketMessage::Circle(c) => circle_chars(c),
        SocketMessage::Pointer(p) => pointer_chars(p),
    }
}

/// The literal `lit` occurs in `s` at position `pos`.
pub open spec fn is_lit_at(s: Seq<char>, pos: int, lit: Seq<char>) -> bool {
    &&& 0 <= pos
    &&& pos + lit.len() <= s.len()
    &&& s.subrange(pos, pos + lit.len()) == lit
}

/// Every character of a decimal rendering is a digit, there is at least
/// one, and it starts with '0' exactly for zero itself.
pub proof fn lemma_dec_digits_shape(n: nat)
    ensures
        dec_digits(n).len() >= 1,
        forall|i: int| 0 <= i < dec_digits(n).len() ==> is_digit(#[trigger] dec_digits(n)[i]),
        dec_digits(n)[0] == '0' <==> n == 0,
    decreases n,
{
    if n >= 10 {
        lemma_dec_digits_shape(n / 10);
        assert forall|i: int| 0 <= i < dec_digits(n).len() implies is_digit(
            #[trigger] dec_digits(n)[i],
        ) by {
            if i < dec_digits(n / 10).len() {
                assert(dec_digits(n)[i] == dec_digits(n / 10)[i]);
            }
        }
        assert(dec_digits(n)[0] == dec_digits(n / 10)[0]);
    }
}

/// Reading a decimal rendering back gives the number.
pub proof fn lemma_dec_digits_val(n: nat)
    ensures
        digits_val(dec_digits(n)) == n,
    decreases n,
{
    if n < 10 {
        assert(dec_digits(n) =~= seq![digit_char(n)]);
        assert(dec_digits(n).drop_last() =~= Seq::<char>::empty());
        assert(dec_digits(n).len() == 1);
        assert(digits_val(dec_digits(n)) == digits_val(dec_digits(n).drop_last()) * 10 + char_val(
            dec_digits(n).last(),
        ));
        assert(digits_val(dec_digits(n).drop_last()) == 0);
        assert(dec_digits(n).last() == digit_char(n));
        assert(char_val(digit_char(n)) == n);
    } else {
        lemma_dec_digits_val(n / 10);
        assert(dec_digits(n).len() >= 1);
        assert(digits_val(dec_digits(n)) == digits_val(dec_digits(n).drop_last()) * 10 + char_val(
            dec_digits(n).last(),
        ));
        assert(dec_digits(n).drop_last() =~= dec_digits(n / 10));
        assert(dec_digits(n).last() == digit_char(n % 10));
        assert(char_val(digit_char(n % 10)) == n % 10);
        assert(digits_val(dec_digits(n)) == (n / 10) * 10 + n % 10);
        assert(n == 10 * (n / 10) + n % 10) by {
            vstd::arithmetic::div_mod::lemma_fundamental_div_mod(n as int, 10);
        }
        assert((n / 10) * 10 == 10 * (n / 10)) by (nonlinear_arith);
    }
}

/// A nonempty digit string without a leading zero is the decimal
/// rendering of its own value.
pub proof fn lemma_digits_canonical(ds: Seq<char>)
    requires
        ds.len() >= 1,
        forall|i: int| 0 <= i < ds.len() ==> is_digit(#[trigger] ds[i]),
        ds[0] != '0' || ds.len() == 1,
    ensures
        dec_digits(digits_val(ds)) =~= ds,
    decreases ds.len(),
{
    if ds.len() == 1 {
        assert(ds.drop_last() =~= Seq::<char>::empty());
        assert(is_digit(ds[0]));
        assert(char_val(ds[0]) < 10);
        assert(digits_val(ds) == digits_val(ds.drop_last()) * 10 + char_val(ds.last()));
        assert(digits_val(ds.drop_last()) == 0);
        assert(ds.last() == ds[0]);
        assert(digits_val(ds) == char_val(ds[0]));
        assert(dec_digits(char_val(ds[0])) =~= seq![digit_char(char_val(ds[0]))]);
        assert(digit_char(char_val(ds[0])) == ds[0]);
    } else {
        let prefix = ds.drop_last();
        assert(forall|i: int| 0 <= i < prefix.len() ==> prefix[i] == ds[i]);
        lemma_digits_canonical(prefix);
        let v = digits_val(ds);
        assert(v == digits_val(prefix) * 10 + char_val(ds.last()));
        assert(char_val(ds.last()) < 10);
        lemma_dec_digits_shape(digits_val(prefix));
        assert(digits_val(prefix) > 0) by {
            if digits_val(prefix) == 0 {
                assert(dec_digits(0) =~= seq!['0']);
                assert(prefix[0] == '0');
            }
        }
        assert(v >= 10) by {
            assert(digits_val(prefix) * 10 >= 10) by (nonlinear_arith)
                requires
                    digits_val(prefix) >= 1,
            ;
        }
        assert(v / 10 == digits_val(prefix) && v % 10 == char_val(ds.last())) by {
            vstd::arithmetic::div_mod::lemma_fundamental_div_mod_converse(
                v as int,
                10,
                digits_val(prefix) as int,
                char_val(ds.last()) as int,
            );
        }
        assert(dec_digits(v) =~= dec_digits(digits_val(prefix)).push(digit_char(char_val(
            ds.last(),
        ))));
        assert(digit_char(char_val(ds.last())) == ds.last());
    }
}

/// Decimal renderings are injective.
pub proof fn lemma_dec_digits_injective(a: nat, b: nat)
    requires
        dec_digits(a) == dec_digits(b),
    ensures
        a == b,
{
    lemma_dec_digits_val(a);
    lemma_dec_digits_val(b);
}

/// Every character of a rendered integer is a digit or the sign.
pub proof fn lemma_int_chars_shape(v: int)
    ensures
        int_chars(v).len() >= 1,
        forall|i: int| 0 <= i < int_chars(v).len() ==> is_int_char(#[trigger] int_chars(v)[i]),
{
    if v < 0 {
        lemma_dec_digits_shape((-v) as nat);
        assert forall|i: int| 0 <= i < int_chars(v).len() implies is_int_char(
            #[trigger] int_chars(v)[i],
        ) by {
            if i == 0 {
                assert(int_chars(v)[0] == '-');
            } else {
                assert(int_chars(v)[i] == dec_digits((-v) as nat)[i - 1]);
            }
        }
    } else {
        lemma_dec_digits_shape(v as nat);
    }
}

/// Rendered integers are injective.
pub proof fn lemma_int_chars_injective(v: int, w: int)
    requires
        int_chars(v) == int_chars(w),
    ensures
        v == w,
{
    if v < 0 && w < 0 {
        assert(dec_digits((-v) as nat) =~= dec_digits((-w) as nat)) by {
            assert(int_chars(v).len() == 1 + dec_digits((-v) as nat).len());
            assert(int_chars(w).len() == 1 + dec_digits((-w) as nat).len());
            assert forall|i: int|
                0 <= i < dec_digits((-v) as nat).len() implies #[trigger] dec_digits((-v) as nat)[i]
                == dec_digits((-w) as nat)[i] by {
                assert(int_chars(v)[i + 1] == dec_digits((-v) as nat)[i]);
                assert(int_chars(w)[i + 1] == dec_digits((-w) as nat)[i]);
            }
        }
        lemma_dec_digits_injective((-v) as nat, (-w) as nat);
    } else if v >= 0 && w >= 0 {
        lemma_dec_digits_injective(v as nat, w as nat);
    } else if v < 0 {
        lemma_dec_digits_shape(w as nat);
        assert(int_chars(v)[0] == '-');
        assert(is_digit(int_chars(w)[0]));
    } else {
        lemma_dec_digits_shape(v as nat);
        assert(is_digit(int_chars(v)[0]));
        assert(int_chars(w)[0] == '-');
    }
}

/// How many digits a bounded number can have.
pub proof fn lemma_dec_digits_len(n: nat, k: nat)
    requires
        k >= 1,
        n < pow10(k),
    ensures
        dec_digits(n).len() <= k,
    decreases k,
{
    if n >= 10 {
        assert(pow10(k) == 10 * pow10((k - 1) as nat));
        assert(n / 10 < pow10((k - 1) as nat)) by (nonlinear_arith)
            requires
                n < 10 * pow10((k - 1) as nat),
                n >= 10,
        ;
        lemma_dec_digits_len(n / 10, (k - 1) as nat);
    }
}

pub open spec fn pow10(k: nat) -> nat
    decreases k,
{
    if k == 0 {
        1
    } else {
        10 * pow10((k - 1) as nat)
    }
}

/// A one-character string for a decimal digit.
fn digit_str(d: u64) -> (s: &'static str)
    requires
        d < 10,
    ensures
        s@ =~= seq![digit_char(d as nat)],
{
    if d == 0 {
        proof {
            reveal_strlit("0");
        }
        "0"
    } else if d == 1 {
        proof {
            reveal_strlit("1");
        }
        "1"
    } else if d == 2 {
        proof {
            reveal_strlit("2");
        }
        "2"
    } else if d == 3 {
        proof {
            reveal_strlit("3");
        }
        "3"
    } else if d == 4 {
        proof {
            reveal_strlit("4");
        }
        "4"
    } else if d == 5 {
        proof {
            reveal_strlit("5");
        }
        "5"
    } else if d == 6 {
        proof {
            reveal_strlit("6");
        }
        "6"
    } else if d == 7 {
        proof {
            reveal_strlit("7");
        }
        "7"
    } else if d == 8 {
        proof {
            reveal_strlit("8");
        }
        "8"
    } else {
        proof {
            reveal_strlit("9");
        }
        "9"
    }
}

/// Decimal rendering of a natural number.
fn dec_string(n: u64) -> (s: String)
    ensures
        s@ =~= dec_digits(n as nat),
    decreases n,
{
    if n < 10 {
        String::from_str(digit_str(n))
    } else {
        let mut s = dec_string(n / 10);
        s.append(digit_str(n % 10));
        proof {
            assert(s@ =~= dec_digits(n as nat));
        }
        s
    }
}

/// Canonical decimal rendering of an integer.
fn int_string(v: i64) -> (s: String)
    requires
        -1_000_000_000 <= v <= 1_000_000_000,
    ensures
        s@ =~= int_chars(v as int),
{
    if v < 0 {
        let mut s = String::from_str("-");
        proof {
            reveal_strlit("-");
            assert(s@ =~= seq!['-']);
        }
        let d = dec_string((-v) as u64);
        s.append(d.as_str());
        proof {
            assert(s@ =~= int_chars(v as int));
        }
        s
    } else {
        let s = dec_string(v as u64);
        s
    }
}

/// Render a message as its one wire form.
pub fn encode(m: &SocketMessage) -> (s: String)
    requires
        wf_msg(*m),
    ensures
        s@ == msg_chars(*m),
{
    match m {
        SocketMessage::Circle(c) => {
            let mut s = String::from_str("{\"Circle\":{\"x\":");
            proof {
                reveal_strlit("{\"Circle\":{\"x\":");
                assert(s@ =~= lit_circle());
            }
            s.append(int_string(c.x).as_str());
            s.append(",\"y\":");
            proof {
                reveal_strlit(",\"y\":");
                assert(s@ =~= lit_circle() + int_chars(c.x as int) + lit_y());
            }
            s.append(int_string(c.y).as_str());
            s.append(",\"radius\":");
            proof {
                reveal_strlit(",\"radius\":");
            }
            s.append(int_string(c.radius).as_str());
            s.append(",\"color\":{\"r\":");
            proof {
                reveal_strlit(",\"color\":{\"r\":");
            }
            s.append(int_string(c.color.r as i64).as_str());
            s.append(",\"g\":");
            proof {
                reveal_strlit(",\"g\":");
            }
            s.append(int_string(c.color.g as i64).as_str());
            s.append(",\"b\":");
            proof {
                reveal_strlit(",\"b\":");
            }
            s.append(int_string(c.color.b as i64).as_str());
            s.append("}}}");
            proof {
                reveal_strlit("}}}");
                assert(s@ =~= circle_chars(*c));
            }
            s
        },
        SocketMessage::Pointer(p) => {
            let mut s = String::from_str("{\"Pointer\":{\"id\":\"");
            proof {
                reveal_strlit("{\"Pointer\":{\"id\":\"");
                assert(s@ =~= lit_pointer());
            }
            s.append(p.id.as_str());
            s.append("\",\"x\":");
            proof {
                reveal_strlit("\",\"x\":");
                assert(s@ =~= lit_pointer() + p.id@ + lit_id_x());
            }
            s.append(int_string(p.x).as_str());
            s.append(",\"y\":");
            proof {
                reveal_strlit(",\"y\":");
            }
            s.append(int_string(p.y).as_str());
            s.append(",\"color\":{\"r\":");
            proof {
                reveal_strlit(",\"color\":{\"r\":");
            }
            s.append(int_string(p.color.r as i64).as_str());
            s.append(",\"g\":");
            proof {
                reveal_strlit(",\"g\":");
            }
            s.append(int_string(p.color.g as i64).as_str());
            s.append(",\"b\":");
            proof {
                reveal_strlit(",\"b\":");
            }
            s.append(int_string(p.color.b as i64).as_str());
            s.append("}}}");
            proof {
                reveal_strlit("}}}");
                assert(s@ =~= pointer_chars(*p));
            }
            s
        },
    }
}

/// Exec test for a decimal digit character.
fn is_digit_char(c: char) -> (r: bool)
    ensures
        r == is_digit(c),
{
    c == '0' || c == '1' || c == '2' || c == '3' || c == '4' || c == '5' || c == '6' || c == '7'
        || c == '8' || c == '9'
}

/// Exec value of a decimal digit character.
fn digit_val(c: char) -> (v: u64)
    requires
        is_digit(c),
    ensures
        v == char_val(c),
        v < 10,
{
    if c == '0' {
        0
    } else if c == '1' {
        1
    } else if c == '2' {
        2
    } else if c == '3' {
        3
    } else if c == '4' {
        4
    } else if c == '5' {
        5
    } else if c == '6' {
        6
    } else if c == '7' {
        7
    } else if c == '8' {
        8
    } else {
        9
    }
}

/// Whether the literal occurs in `s` at `pos`.
fn match_lit(s: &str, pos: usize, lit: &str) -> (r: bool)
    requires
        pos <= s@.len(),
    ensures
        r == is_lit_at(s@, pos as int, lit@),
{
    let n = s.unicode_len();
    let ln = lit.unicode_len();
    if ln > n - pos {
        return false;
    }
    let mut i: usize = 0;
    while i < ln
        invariant
            pos + ln <= n,
            n == s@.len(),
            ln == lit@.len(),
            0 <= i <= ln,
            forall|j: int| 0 <= j < i ==> s@[pos + j] == lit@[j],
        decreases ln - i,
    {
        if s.get_char(pos + i) != lit.get_char(i) {
            proof {
                assert(!is_lit_at(s@, pos as int, lit@)) by {
                    if is_lit_at(s@, pos as int, lit@) {
                        assert(s@.subrange(pos as int, pos + lit@.len())[i as int] == lit@[
                            i as int
                        ]);
                    }
                }
            }
            return false;
        }
        i += 1;
    }
    proof {
        assert(s@.subrange(pos as int, pos + lit@.len()) =~= lit@);
    }
    true
}

/// First position at or after `pos` whose character could not be part of
/// a rendered integer.
fn scan_int_chars(s: &str, pos: usize) -> (e: usize)
    requires
        pos <= s@.len(),
    ensures
        pos <= e <= s@.len(),
        forall|i: int| pos <= i < e ==> is_int_char(#[trigger] s@[i]),
        e < s@.len() ==> !is_int_char(s@[e as int]),
{
    let n = s.unicode_len();
    let mut e = pos;
    let mut stop = false;
    while !stop && e < n
        invariant
            pos <= e <= n,
            n == s@.len(),
            forall|i: int| pos <= i < e ==> is_int_char(#[trigger] s@[i]),
            stop ==> e < n && !is_int_char(s@[e as int]),
        decreases n - e + (if stop {
            0int
        } else {
            1int
        }),
    {
        let c = s.get_char(e);
        if c == '-' || is_digit_char(c) {
            e += 1;
        } else {
            stop = true;
        }
    }
    e
}

/// First position at or after `pos` holding a double quote.
fn scan_id_chars(s: &str, pos: usize) -> (e: usize)
    requires
        pos <= s@.len(),
    ensures
        pos <= e <= s@.len(),
        forall|i: int| pos <= i < e ==> (#[trigger] s@[i]) != '"',
        e < s@.len() ==> s@[e as int] == '"',
{
    let n = s.unicode_len();
    let mut e = pos;
    let mut stop = false;
    while !stop && e < n
        invariant
            pos <= e <= n,
            n == s@.len(),
            forall|i: int| pos <= i < e ==> (#[trigger] s@[i]) != '"',
            stop ==> e < n && s@[e as int] == '"',
        decreases n - e + (if stop {
            0int
        } else {
            1int
        }),
    {
        let c = s.get_char(e);
        if c == '"' {
            stop = true;
        } else {
            e += 1;
        }
    }
    e
}

/// Pointwise reading of a tail that splits into three parts.
proof fn lemma_tail_concat3(s: Seq<char>, pos: int, a: Seq<char>, b: Seq<char>, c: Seq<char>)
    requires
        0 <= pos <= s.len(),
        s.subrange(pos, s.len() as int) =~= a + b + c,
    ensures
        s.len() - pos == a.len() + b.len() + c.len(),
        forall|i: int| 0 <= i < a.len() ==> s[pos + i] == #[trigger] a[i],
        forall|i: int| 0 <= i < b.len() ==> s[pos + a.len() + i] == #[trigger] b[i],
        forall|i: int| 0 <= i < c.len() ==> s[pos + a.len() + b.len() + i] == #[trigger] c[i],
{
    let sub = s.subrange(pos, s.len() as int);
    assert(sub == a + b + c);
    assert(sub.len() == a.len() + b.len() + c.len());
    assert forall|i: int| 0 <= i < a.len() implies s[pos + i] == #[trigger] a[i] by {
        assert((a + b)[i] == a[i]);
        assert((a + b + c)[i] == (a + b)[i]);
        assert(sub[i] == s[pos + i]);
    }
    assert forall|i: int| 0 <= i < b.len() implies s[pos + a.len() + i] == #[trigger] b[i] by {
        assert((a + b)[a.len() + i] == b[i]);
        assert((a + b + c)[a.len() + i] == (a + b)[a.len() + i]);
        assert(sub[a.len() + i] == s[pos + a.len() + i]);
    }
    assert forall|i: int|
        0 <= i < c.len() implies s[pos + a.len() + b.len() + i] == #[trigger] c[i] by {
        assert((a + b + c)[a.len() + b.len() + i] == c[i]);
        assert(sub[a.len() + b.len() + i] == s[pos + a.len() + b.len() + i]);
    }
}

/// If the tail of `s` at `pos` reads as a rendered integer followed by a
/// delimiter literal, the integer's span is exactly the maximal run of
/// integer characters starting at `pos`.
proof fn lemma_int_span_forced(
    s: Seq<char>,
    pos: int,
    e0: int,
    v: int,
    lit: Seq<char>,
    rest: Seq<char>,
)
    requires
        0 <= pos <= e0 <= s.len(),
        forall|i: int| pos <= i < e0 ==> is_int_char(#[trigger] s[i]),
        e0 < s.len() ==> !is_int_char(s[e0]),
        s.subrange(pos, s.len() as int) =~= int_chars(v) + lit + rest,
        lit.len() >= 1,
        !is_int_char(lit[0]),
    ensures
        e0 == pos + int_chars(v).len(),
        s.subrange(pos, e0) =~= int_chars(v),
        is_lit_at(s, e0, lit),
{
    lemma_int_chars_shape(v);
    lemma_tail_concat3(s, pos, int_chars(v), lit, rest);
    let icl = int_chars(v).len() as int;
    if pos + icl < e0 {
        assert(s[pos + icl] == lit[0]);
        assert(is_int_char(s[pos + icl]));
        assert(false);
    }
    if pos + icl > e0 {
        assert(e0 < s.len());
        assert(s[e0] == int_chars(v)[e0 - pos]);
        assert(is_int_char(s[e0]));
        assert(false);
    }
    assert(s.subrange(pos, e0) =~= int_chars(v));
    assert(s.subrange(e0, e0 + lit.len()) =~= lit);
}

/// Same forcing for a participant id closed by a quote.
proof fn lemma_id_span_forced(
    s: Seq<char>,
    pos: int,
    e0: int,
    id: Seq<char>,
    lit: Seq<char>,
    rest: Seq<char>,
)
    requires
        0 <= pos <= e0 <= s.len(),
        forall|i: int| pos <= i < e0 ==> (#[trigger] s[i]) != '"',
        e0 < s.len() ==> s[e0] == '"',
        s.subrange(pos, s.len() as int) =~= id + lit + rest,
        wf_id(id),
        lit.len() >= 1,
        lit[0] == '"',
    ensures
        e0 == pos + id.len(),
        s.subrange(pos, e0) =~= id,
        is_lit_at(s, e0, lit),
{
    let idl = id.len() as int;
    lemma_tail_concat3(s, pos, id, lit, rest);
    if pos + idl < e0 {
        assert(s[pos + idl] == lit[0]);
        assert(s[pos + idl] != '"');
        assert(false);
    }
    if pos + idl > e0 {
        assert(e0 < s.len());
        assert(s[e0] == id[e0 - pos]);
        assert(is_id_char(id[e0 - pos]));
        assert(false);
    }
    assert(s.subrange(pos, e0) =~= id);
    assert(s.subrange(e0, e0 + lit.len()) =~= lit);
}

/// A successfully parsed integer is the only reading of its position: any
/// rendering-plus-delimiter the tail could be must carry the same value,
/// and what follows the delimiter is the remaining tail.
proof fn lemma_int_span_unique(
    s: Seq<char>,
    pos: int,
    v: int,
    w: int,
    lit: Seq<char>,
    rest: Seq<char>,
)
    requires
        0 <= pos,
        pos + int_chars(v).len() + lit.len() <= s.len(),
        s.subrange(pos, pos + int_chars(v).len()) =~= int_chars(v),
        is_lit_at(s, pos + int_chars(v).len(), lit),
        lit.len() >= 1,
        !is_int_char(lit[0]),
        s.subrange(pos, s.len() as int) =~= int_chars(w) + lit + rest,
    ensures
        w == v,
        rest =~= s.subrange(pos + int_chars(v).len() + lit.len(), s.len() as int),
{
    lemma_int_chars_shape(v);
    lemma_int_chars_shape(w);
    lemma_tail_concat3(s, pos, int_chars(w), lit, rest);
    let icv = int_chars(v).len() as int;
    let icw = int_chars(w).len() as int;
    if icw < icv {
        assert(s[pos + icw] == lit[0]);
        assert(s.subrange(pos, pos + icv)[icw] == s[pos + icw]);
        assert(is_int_char(int_chars(v)[icw]));
        assert(false);
    }
    if icw > icv {
        assert(s[pos + icv] == int_chars(w)[icv]);
        assert(is_int_char(int_chars(w)[icv]));
        assert(s.subrange(pos + icv, pos + icv + lit.len())[0] == s[pos + icv]);
        assert(false);
    }
    assert(int_chars(w) =~= int_chars(v)) by {
        assert forall|i: int| 0 <= i < icv implies #[trigger] int_chars(w)[i] == int_chars(v)[i] by {
            assert(s[pos + i] == int_chars(w)[i]);
            assert(s.subrange(pos, pos + icv)[i] == s[pos + i]);
        }
    }
    lemma_int_chars_injective(v, w);
    assert(rest =~= s.subrange(pos + icv + lit.len(), s.len() as int)) by {
        assert forall|i: int|
            0 <= i < rest.len() implies #[trigger] rest[i] == s.subrange(
            pos + icv + lit.len(),
            s.len() as int,
        )[i] by {
            assert(s[pos + icw + lit.len() + i] == rest[i]);
        }
    }
}

/// The id counterpart: a scanned id span is the only reading.
proof fn lemma_id_span_unique(
    s: Seq<char>,
    pos: int,
    id: Seq<char>,
    idw: Seq<char>,
    lit: Seq<char>,
    rest: Seq<char>,
)
    requires
        0 <= pos,
        pos + id.len() + lit.len() <= s.len(),
        s.subrange(pos, pos + id.len()) =~= id,
        is_lit_at(s, pos + id.len(), lit),
        forall|i: int| 0 <= i < id.len() ==> (#[trigger] id[i]) != '"',
        wf_id(idw),
        lit.len() >= 1,
        lit[0] == '"',
        s.subrange(pos, s.len() as int) =~= idw + lit + rest,
    ensures
        idw =~= id,
        rest =~= s.subrange(pos + id.len() + lit.len(), s.len() as int),
{
    let idl = id.len() as int;
    let idwl = idw.len() as int;
    lemma_tail_concat3(s, pos, idw, lit, rest);
    if idwl < idl {
        assert(s[pos + idwl] == lit[0]);
        assert(s.subrange(pos, pos + idl)[idwl] == s[pos + idwl]);
        assert(false);
    }
    if idwl > idl {
        assert(s[pos + idl] == idw[idl]);
        assert(is_id_char(idw[idl]));
        assert(s.subrange(pos + idl, pos + idl + lit.len())[0] == s[pos + idl]);
        assert(false);
    }
    assert(idw =~= id) by {
        assert forall|i: int| 0 <= i < idl implies #[trigger] idw[i] == id[i] by {
            assert(s[pos + i] == idw[i]);
            assert(s.subrange(pos, pos + idl)[i] == s[pos + i]);
        }
    }
    assert(rest =~= s.subrange(pos + idl + lit.len(), s.len() as int)) by {
        assert forall|i: int|
            0 <= i < rest.len() implies #[trigger] rest[i] == s.subrange(
            pos + idl + lit.len(),
            s.len() as int,
        )[i] by {
            assert(s[pos + idwl + lit.len() + i] == rest[i]);
        }
    }
}

/// Values appearing on the wire stay far below this many digits.
proof fn lemma_int_chars_len_small(v: int)
    requires
        -1_000_000 <= v <= 1_000_000,
    ensures
        int_chars(v).len() <= 8,
{
    reveal_with_fuel(pow10, 9);
    assert(pow10(7) == 10_000_000);
    if v >= 0 {
        lemma_dec_digits_len(v as nat, 7);
    } else {
        lemma_dec_digits_len((-v) as nat, 7);
    }
}

/// A digit string's value is bounded by its width.
proof fn lemma_digits_val_bound(ds: Seq<char>)
    requires
        forall|i: int| 0 <= i < ds.len() ==> is_digit(#[trigger] ds[i]),
    ensures
        digits_val(ds) < pow10(ds.len() as nat),
    decreases ds.len(),
{
    if ds.len() == 0 {
    } else {
        let prefix = ds.drop_last();
        assert(forall|i: int| 0 <= i < prefix.len() ==> prefix[i] == ds[i]);
        lemma_digits_val_bound(prefix);
        assert(char_val(ds.last()) < 10);
        assert(digits_val(prefix) * 10 + char_val(ds.last()) < pow10(prefix.len() as nat) * 10)
            by (nonlinear_arith)
            requires
                digits_val(prefix) < pow10(prefix.len() as nat),
                char_val(ds.last()) < 10,
        ;
        assert(pow10(ds.len() as nat) == 10 * pow10(prefix.len() as nat));
    }
}

/// Parse one canonical integer at `pos`, immediately followed by the given
/// delimiter literal.  `None` exactly when the tail cannot be read that way
/// for any value within `[min, max]`.
#[verifier::rlimit(100)]
fn parse_int_then(s: &str, pos: usize, min: i64, max: i64, lit: &str) -> (r: Option<(i64, usize)>)
    requires
        pos <= s@.len(),
        -1_000_000 <= min <= 0,
        0 <= max <= 1_000_000,
        lit@.len() >= 1,
        !is_int_char(lit@[0]),
    ensures
        match r {
            Some(ve) => {
                &&& min <= ve.0 <= max
                &&& pos + int_chars(ve.0 as int).len() + lit@.len() == ve.1 <= s@.len()
                &&& s@.subrange(pos as int, pos + int_chars(ve.0 as int).len()) =~= int_chars(
                    ve.0 as int,
                )
                &&& is_lit_at(s@, pos + int_chars(ve.0 as int).len(), lit@)
            },
            None => forall|v: i64, rest: Seq<char>|
                min <= v <= max ==> s@.subrange(pos as int, s@.len() as int) != #[trigger] (
                int_chars(v as int) + lit@ + rest),
        },
{
    let ghost sv = s@;
    let n = s.unicode_len();
    let e0 = scan_int_chars(s, pos);
    if e0 == pos || e0 - pos > 8 {
        proof {
            assert forall|v: i64, rest: Seq<char>|
                min <= v <= max implies sv.subrange(pos as int, sv.len() as int) != #[trigger] (
            int_chars(v as int) + lit@ + rest) by {
                if sv.subrange(pos as int, sv.len() as int) == int_chars(v as int) + lit@ + rest {
                    lemma_int_span_forced(sv, pos as int, e0 as int, v as int, lit@, rest);
                    lemma_int_chars_len_small(v as int);
                    lemma_int_chars_shape(v as int);
                    assert(false);
                }
            }
        }
        return None;
    }
    let neg = s.get_char(pos) == '-';
    let dstart = if neg {
        pos + 1
    } else {
        pos
    };
    if dstart == e0 {
        proof {
            assert forall|v: i64, rest: Seq<char>|
                min <= v <= max implies sv.subrange(pos as int, sv.len() as int) != #[trigger] (
            int_chars(v as int) + lit@ + rest) by {
                if sv.subrange(pos as int, sv.len() as int) == int_chars(v as int) + lit@ + rest {
                    lemma_int_span_forced(sv, pos as int, e0 as int, v as int, lit@, rest);
                    if v >= 0 {
                        lemma_dec_digits_shape(v as nat);
                        assert(sv[pos as int] == int_chars(v as int)[0]);
                        assert(is_digit(int_chars(v as int)[0]));
                    } else {
                        lemma_dec_digits_shape((-v) as nat);
                        assert(int_chars(v as int).len() >= 2);
                    }
                    assert(false);
                }
            }
        }
        return None;
    }
    if e0 - dstart > 1 && s.get_char(dstart) == '0' {
        proof {
            assert forall|v: i64, rest: Seq<char>|
                min <= v <= max implies sv.subrange(pos as int, sv.len() as int) != #[trigger] (
            int_chars(v as int) + lit@ + rest) by {
                if sv.subrange(pos as int, sv.len() as int) == int_chars(v as int) + lit@ + rest {
                    lemma_int_span_forced(sv, pos as int, e0 as int, v as int, lit@, rest);
                    let ic = int_chars(v as int);
                    assert(forall|i: int| pos <= i < e0 ==> sv[i] == ic[i - pos]);
                    if v >= 0 {
                        lemma_dec_digits_shape(v as nat);
                        if neg {
                            assert(sv[pos as int] == '-' && is_digit(ic[0]));
                        } else {
                            assert(ic[0] == '0');
                            assert(v == 0);
                            assert(ic.len() == 1);
                        }
                    } else {
                        lemma_dec_digits_shape((-v) as nat);
                        assert(ic[0] == '-');
                        assert(neg);
                        assert(ic[1] == dec_digits((-v) as nat)[0]);
                        assert(sv[dstart as int] == ic[1]);
                        assert((-v) as nat == 0);
                    }
                    assert(false);
                }
            }
        }
        return None;
    }
    let mut acc: u64 = 0;
    let mut i = dstart;
    while i < e0
        invariant
            sv == s@,
            pos <= dstart <= i <= e0 <= sv.len(),
            sv.len() == n,
            e0 - dstart <= 8,
            (dstart == pos && sv[pos as int] != '-') || (dstart == pos + 1 && sv[pos as int]
                == '-'),
            lit@.len() >= 1,
            !is_int_char(lit@[0]),
            e0 < sv.len() ==> !is_int_char(sv[e0 as int]),
            forall|j: int| pos <= j < e0 ==> is_int_char(#[trigger] sv[j]),
            forall|j: int| dstart <= j < i ==> is_digit(#[trigger] sv[j]),
            acc == digits_val(sv.subrange(dstart as int, i as int)),
            acc < 100_000_000,
        decreases e0 - i,
    {
        let c = s.get_char(i);
        if !is_digit_char(c) {
            proof {
                assert forall|v: i64, rest: Seq<char>|
                    min <= v <= max implies sv.subrange(pos as int, sv.len() as int) != #[trigger] (
                int_chars(v as int) + lit@ + rest) by {
                    if sv.subrange(pos as int, sv.len() as int) == int_chars(v as int) + lit@
                        + rest {
                        lemma_int_span_forced(sv, pos as int, e0 as int, v as int, lit@, rest);
                        let ic = int_chars(v as int);
                        assert(forall|j: int| pos <= j < e0 ==> sv[j] == ic[j - pos]);
                        if v >= 0 {
                            lemma_dec_digits_shape(v as nat);
                            assert(is_digit(ic[i - pos]));
                        } else {
                            lemma_dec_digits_shape((-v) as nat);
                            assert(ic[0] == '-');
                            if i > pos {
                                assert(ic[i - pos] == dec_digits((-v) as nat)[i - pos - 1]);
                                assert(is_digit(ic[i - pos]));
                            } else {
                                assert(sv[pos as int] == '-');
                                assert(dstart == pos + 1);
                                assert(false);
                            }
                        }
                        assert(false);
                    }
                }
            }
            return None;
        }
        let d = digit_val(c);
        proof {
            let ds0 = sv.subrange(dstart as int, i as int);
            let ds1 = sv.subrange(dstart as int, i + 1);
            assert(ds1.drop_last() =~= ds0);
            assert(ds1.last() == sv[i as int]);
            assert(digits_val(ds1) == digits_val(ds0) * 10 + char_val(sv[i as int]));
            lemma_digits_val_bound(ds1);
            reveal_with_fuel(pow10, 9);
            assert(pow10(ds1.len() as nat) <= pow10(8)) by {
                if ds1.len() < 8 {
                    lemma_pow10_increases(ds1.len() as nat, 8);
                }
            }
            assert(pow10(8) == 100_000_000);
        }
        acc = acc * 10 + d;
        i += 1;
    }
    let ghost digits = sv.subrange(dstart as int, e0 as int);
    if neg && acc == 0 {
        proof {
            assert forall|v: i64, rest: Seq<char>|
                min <= v <= max implies sv.subrange(pos as int, sv.len() as int) != #[trigger] (
            int_chars(v as int) + lit@ + rest) by {
                if sv.subrange(pos as int, sv.len() as int) == int_chars(v as int) + lit@ + rest {
                    lemma_int_span_forced(sv, pos as int, e0 as int, v as int, lit@, rest);
                    let ic = int_chars(v as int);
                    assert(forall|j: int| pos <= j < e0 ==> sv[j] == ic[j - pos]);
                    if v >= 0 {
                        lemma_dec_digits_shape(v as nat);
                        assert(sv[pos as int] == '-' && is_digit(ic[0]));
                    } else {
                        lemma_dec_digits_shape((-v) as nat);
                        let dd = dec_digits((-v) as nat);
                        assert(dd =~= digits) by {
                            assert(forall|j: int|
                                0 <= j < dd.len() ==> #[trigger] dd[j] == ic[j + 1] == sv[
                                    pos + 1 + j
                                ] == digits[j]);
                        }
                        lemma_dec_digits_val((-v) as nat);
                        assert((-v) as nat == 0);
                    }
                    assert(false);
                }
            }
        }
        return None;
    }
    let signed: i64 = if neg {
        -(acc as i64)
    } else {
        acc as i64
    };
    proof {
        assert(forall|j: int| 0 <= j < digits.len() ==> is_digit(#[trigger] digits[j]));
        assert(digits[0] != '0' || digits.len() == 1) by {
            if digits.len() > 1 {
                assert(digits[0] == sv[dstart as int]);
            }
        }
        lemma_digits_canonical(digits);
        assert(int_chars(signed as int) =~= sv.subrange(pos as int, e0 as int)) by {
            if neg {
                assert(dec_digits(acc as nat) == digits);
                assert(int_chars(signed as int) =~= seq!['-'] + digits);
                assert(sv[pos as int] == '-');
                assert(forall|j: int|
                    pos + 1 <= j < e0 ==> (seq!['-'] + digits)[j - pos] == #[trigger] sv[j]);
            } else {
                assert(dec_digits(acc as nat) == digits);
                assert(digits =~= sv.subrange(pos as int, e0 as int));
            }
        }
        assert(int_chars(signed as int).len() == e0 - pos);
    }
    if signed < min || signed > max {
        proof {
            assert forall|v: i64, rest: Seq<char>|
                min <= v <= max implies sv.subrange(pos as int, sv.len() as int) != #[trigger] (
            int_chars(v as int) + lit@ + rest) by {
                if sv.subrange(pos as int, sv.len() as int) == int_chars(v as int) + lit@ + rest {
                    lemma_int_span_forced(sv, pos as int, e0 as int, v as int, lit@, rest);
                    assert(int_chars(v as int) =~= int_chars(signed as int)) by {
                        assert(int_chars(v as int) =~= sv.subrange(pos as int, e0 as int));
                    }
                    lemma_int_chars_injective(v as int, signed as int);
                    assert(false);
                }
            }
        }
        return None;
    }
    if !match_lit(s, e0, lit) {
        proof {
            assert forall|v: i64, rest: Seq<char>|
                min <= v <= max implies sv.subrange(pos as int, sv.len() as int) != #[trigger] (
            int_chars(v as int) + lit@ + rest) by {
                if sv.subrange(pos as int, sv.len() as int) == int_chars(v as int) + lit@ + rest {
                    lemma_int_span_forced(sv, pos as int, e0 as int, v as int, lit@, rest);
                    assert(false);
                }
            }
        }
        return None;
    }
    let e = e0 + lit.unicode_len();
    Some((signed, e))
}

proof fn lemma_pow10_increases(a: nat, b: nat)
    requires
        a <= b,
    ensures
        pow10(a) <= pow10(b),
    decreases b,
{
    if a < b {
        lemma_pow10_increases(a, (b - 1) as nat);
        assert(pow10(b) == 10 * pow10((b - 1) as nat));
    }
}

/// Parse a participant id at `pos`, up to its closing quote, immediately
/// followed by the given literal (which begins with that quote).
fn parse_id_then(s: &str, pos: usize, lit: &str) -> (r: Option<(String, usize)>)
    requires
        pos <= s@.len(),
        lit@.len() >= 1,
        lit@[0] == '"',
    ensures
        match r {
            Some(ie) => {
                &&& wf_id(ie.0@)
                &&& pos + ie.0@.len() + lit@.len() == ie.1 <= s@.len()
                &&& s@.subrange(pos as int, pos + ie.0@.len()) =~= ie.0@
                &&& is_lit_at(s@, pos + ie.0@.len(), lit@)
            },
            None => forall|idv: Seq<char>, rest: Seq<char>|
                wf_id(idv) ==> s@.subrange(pos as int, s@.len() as int) != #[trigger] (idv + lit@
                    + rest),
        },
{
    let ghost sv = s@;
    let n = s.unicode_len();
    let e0 = scan_id_chars(s, pos);
    if e0 == n {
        proof {
            assert forall|idv: Seq<char>, rest: Seq<char>|
                wf_id(idv) implies sv.subrange(pos as int, sv.len() as int) != #[trigger] (idv
                + lit@ + rest) by {
                if sv.subrange(pos as int, sv.len() as int) == idv + lit@ + rest {
                    lemma_id_span_forced(sv, pos as int, e0 as int, idv, lit@, rest);
                    assert(false);
                }
            }
        }
        return None;
    }
    let mut i = pos;
    while i < e0
        invariant
            sv == s@,
            pos <= i <= e0 < sv.len(),
            sv.len() == n,
            lit@.len() >= 1,
            lit@[0] == '"',
            forall|j: int| pos <= j < e0 ==> (#[trigger] sv[j]) != '"',
            sv[e0 as int] == '"',
            forall|j: int| pos <= j < i ==> (#[trigger] sv[j]) != '\\',
        decreases e0 - i,
    {
        if s.get_char(i) == '\\' {
            proof {
                assert forall|idv: Seq<char>, rest: Seq<char>|
                    wf_id(idv) implies sv.subrange(pos as int, sv.len() as int) != #[trigger] (idv
                    + lit@ + rest) by {
                    if sv.subrange(pos as int, sv.len() as int) == idv + lit@ + rest {
                        lemma_id_span_forced(sv, pos as int, e0 as int, idv, lit@, rest);
                        assert(sv[i as int] == idv[i - pos]);
                        assert(is_id_char(idv[i - pos]));
                        assert(false);
                    }
                }
            }
            return None;
        }
        i += 1;
    }
    let idstr = s.substring_char(pos, e0);
    let id = idstr.to_owned();
    if !match_lit(s, e0, lit) {
        proof {
            assert forall|idv: Seq<char>, rest: Seq<char>|
                wf_id(idv) implies sv.subrange(pos as int, sv.len() as int) != #[trigger] (idv
                + lit@ + rest) by {
                if sv.subrange(pos as int, sv.len() as int) == idv + lit@ + rest {
                    lemma_id_span_forced(sv, pos as int, e0 as int, idv, lit@, rest);
                    assert(false);
                }
            }
        }
        return None;
    }
    proof {
        assert(id@ =~= sv.subrange(pos as int, e0 as int));
        assert forall|j: int| 0 <= j < id@.len() implies is_id_char(#[trigger] id@[j]) by {
            assert(id@[j] == sv[pos + j]);
        }
    }
    let e = e0 + lit.unicode_len();
    Some((id, e))
}

/// What follows a circle's x value and its delimiter.
spec fn ctail_x(c: Circle) -> Seq<char> {
    int_chars(c.y as int) + lit_radius() + int_chars(c.radius as int) + lit_color_r() + int_chars(
        c.color.r as int,
    ) + lit_g() + int_chars(c.color.g as int) + lit_b() + int_chars(c.color.b as int) + lit_end()
}

spec fn ctail_y(c: Circle) -> Seq<char> {
    int_chars(c.radius as int) + lit_color_r() + int_chars(c.color.r as int) + lit_g() + int_chars(
        c.color.g as int,
    ) + lit_b() + int_chars(c.color.b as int) + lit_end()
}

spec fn ctail_rad(c: Circle) -> Seq<char> {
    int_chars(c.color.r as int) + lit_g() + int_chars(c.color.g as int) + lit_b() + int_chars(
        c.color.b as int,
    ) + lit_end()
}

spec fn color_tail_r(col: Color) -> Seq<char> {
    int_chars(col.g as int) + lit_b() + int_chars(col.b as int) + lit_end()
}

spec fn color_tail_g(col: Color) -> Seq<char> {
    int_chars(col.b as int) + lit_end()
}

/// What follows a pointer's id and its closing-quote delimiter.
spec fn ptail_id(p: PointerPosition) -> Seq<char> {
    int_chars(p.x as int) + lit_y() + int_chars(p.y as int) + lit_color_r() + int_chars(
        p.color.r as int,
    ) + lit_g() + int_chars(p.color.g as int) + lit_b() + int_chars(p.color.b as int) + lit_end()
}

spec fn ptail_x(p: PointerPosition) -> Seq<char> {
    int_chars(p.y as int) + lit_color_r() + int_chars(p.color.r as int) + lit_g() + int_chars(
        p.color.g as int,
    ) + lit_b() + int_chars(p.color.b as int) + lit_end()
}

/// A circle frame pulled apart into parse steps: the prefix literal, then
/// at each step one rendered integer, its delimiter, and the rest.
proof fn lemma_circle_decomposition(sv: Seq<char>, c: Circle)
    requires
        circle_chars(c) == sv,
    ensures
        is_lit_at(sv, 0, lit_circle()),
        sv.subrange(15, sv.len() as int) =~= int_chars(c.x as int) + lit_y() + ctail_x(c),
        ctail_x(c) =~= int_chars(c.y as int) + lit_radius() + ctail_y(c),
        ctail_y(c) =~= int_chars(c.radius as int) + lit_color_r() + ctail_rad(c),
        ctail_rad(c) =~= int_chars(c.color.r as int) + lit_g() + color_tail_r(c.color),
        color_tail_r(c.color) =~= int_chars(c.color.g as int) + lit_b() + color_tail_g(c.color),
        color_tail_g(c.color) =~= int_chars(c.color.b as int) + lit_end() + Seq::<char>::empty(),
{
    lemma_circle_head(sv, c);
    lemma_ctail_x_split(c);
    lemma_ctail_y_split(c);
    lemma_ctail_rad_split(c);
    lemma_color_tails_split(c.color);
}

#[verifier::rlimit(100)]
proof fn lemma_circle_head(sv: Seq<char>, c: Circle)
    requires
        circle_chars(c) == sv,
    ensures
        is_lit_at(sv, 0, lit_circle()),
        sv.subrange(15, sv.len() as int) =~= int_chars(c.x as int) + lit_y() + ctail_x(c),
{
    assert(sv.subrange(0, 15) =~= lit_circle());
    assert(sv.subrange(15, sv.len() as int) =~= int_chars(c.x as int) + lit_y() + ctail_x(c));
}

proof fn lemma_ctail_x_split(c: Circle)
    ensures
        ctail_x(c) =~= int_chars(c.y as int) + lit_radius() + ctail_y(c),
{
}

proof fn lemma_ctail_y_split(c: Circle)
    ensures
        ctail_y(c) =~= int_chars(c.radius as int) + lit_color_r() + ctail_rad(c),
{
}

proof fn lemma_ctail_rad_split(c: Circle)
    ensures
        ctail_rad(c) =~= int_chars(c.color.r as int) + lit_g() + color_tail_r(c.color),
{
}

proof fn lemma_color_tails_split(col: Color)
    ensures
        color_tail_r(col) =~= int_chars(col.g as int) + lit_b() + color_tail_g(col),
        color_tail_g(col) =~= int_chars(col.b as int) + lit_end() + Seq::<char>::empty(),
{
}

/// The pointer counterpart.
proof fn lemma_pointer_decomposition(sv: Seq<char>, p: PointerPosition)
    requires
        pointer_chars(p) == sv,
    ensures
        is_lit_at(sv, 0, lit_pointer()),
        sv.subrange(18, sv.len() as int) =~= p.id@ + lit_id_x() + ptail_id(p),
        ptail_id(p) =~= int_chars(p.x as int) + lit_y() + ptail_x(p),
        ptail_x(p) =~= int_chars(p.y as int) + lit_color_r() + ctail_rad_p(p),
        ctail_rad_p(p) =~= int_chars(p.color.r as int) + lit_g() + color_tail_r(p.color),
{
    lemma_pointer_head(sv, p);
    lemma_ptail_id_split(p);
    lemma_ptail_x_split(p);
    lemma_ctail_rad_p_split(p);
}

#[verifier::rlimit(100)]
proof fn lemma_pointer_head(sv: Seq<char>, p: PointerPosition)
    requires
        pointer_chars(p) == sv,
    ensures
        is_lit_at(sv, 0, lit_pointer()),
        sv.subrange(18, sv.len() as int) =~= p.id@ + lit_id_x() + ptail_id(p),
{
    assert(sv.subrange(0, 18) =~= lit_pointer());
    assert(sv.subrange(18, sv.len() as int) =~= p.id@ + lit_id_x() + ptail_id(p));
}

proof fn lemma_ptail_id_split(p: PointerPosition)
    ensures
        ptail_id(p) =~= int_chars(p.x as int) + lit_y() + ptail_x(p),
{
}

proof fn lemma_ptail_x_split(p: PointerPosition)
    ensures
        ptail_x(p) =~= int_chars(p.y as int) + lit_color_r() + ctail_rad_p(p),
{
}

proof fn lemma_ctail_rad_p_split(p: PointerPosition)
    ensures
        ctail_rad_p(p) =~= int_chars(p.color.r as int) + lit_g() + color_tail_r(p.color),
{
}

spec fn ctail_rad_p(p: PointerPosition) -> Seq<char> {
    int_chars(p.color.r as int) + lit_g() + int_chars(p.color.g as int) + lit_b() + int_chars(
        p.color.b as int,
    ) + lit_end()
}

/// The positions at which a circle's pieces were found in `sv`.
spec fn circle_layout(sv: Seq<char>, c: Circle) -> bool {
    let l1 = int_chars(c.x as int).len() as int;
    let p1 = 15 + l1;
    let p2 = p1 + 5;
    let l2 = int_chars(c.y as int).len() as int;
    let p3 = p2 + l2;
    let p4 = p3 + 10;
    let l3 = int_chars(c.radius as int).len() as int;
    let p5 = p4 + l3;
    let p6 = p5 + 14;
    let l4 = int_chars(c.color.r as int).len() as int;
    let p7 = p6 + l4;
    let p8 = p7 + 5;
    let l5 = int_chars(c.color.g as int).len() as int;
    let p9 = p8 + l5;
    let p10 = p9 + 5;
    let l6 = int_chars(c.color.b as int).len() as int;
    let p11 = p10 + l6;
    &&& is_lit_at(sv, 0, lit_circle())
    &&& sv.subrange(15, p1) =~= int_chars(c.x as int)
    &&& is_lit_at(sv, p1, lit_y())
    &&& sv.subrange(p2, p3) =~= int_chars(c.y as int)
    &&& is_lit_at(sv, p3, lit_radius())
    &&& sv.subrange(p4, p5) =~= int_chars(c.radius as int)
    &&& is_lit_at(sv, p5, lit_color_r())
    &&& sv.subrange(p6, p7) =~= int_chars(c.color.r as int)
    &&& is_lit_at(sv, p7, lit_g())
    &&& sv.subrange(p8, p9) =~= int_chars(c.color.g as int)
    &&& is_lit_at(sv, p9, lit_b())
    &&& sv.subrange(p10, p11) =~= int_chars(c.color.b as int)
    &&& is_lit_at(sv, p11, lit_end())
    &&& sv.len() == p11 + 3
}

/// Pieces laid out at those positions make up exactly the circle frame.
#[verifier::rlimit(100)]
proof fn lemma_circle_assembly(sv: Seq<char>, c: Circle)
    requires
        circle_layout(sv, c),
    ensures
        sv =~= circle_chars(c),
{
}

/// The positions at which a pointer's pieces were found in `sv`.
spec fn pointer_layout(sv: Seq<char>, p: PointerPosition) -> bool {
    let l0 = p.id@.len() as int;
    let q1 = 18 + l0;
    let q2 = q1 + 6;
    let l1 = int_chars(p.x as int).len() as int;
    let q3 = q2 + l1;
    let q4 = q3 + 5;
    let l2 = int_chars(p.y as int).len() as int;
    let q5 = q4 + l2;
    let q6 = q5 + 14;
    let l3 = int_chars(p.color.r as int).len() as int;
    let q7 = q6 + l3;
    let q8 = q7 + 5;
    let l4 = int_chars(p.color.g as int).len() as int;
    let q9 = q8 + l4;
    let q10 = q9 + 5;
    let l5 = int_chars(p.color.b as int).len() as int;
    let q11 = q10 + l5;
    &&& is_lit_at(sv, 0, lit_pointer())
    &&& sv.subrange(18, q1) =~= p.id@
    &&& is_lit_at(sv, q1, lit_id_x())
    &&& sv.subrange(q2, q3) =~= int_chars(p.x as int)
    &&& is_lit_at(sv, q3, lit_y())
    &&& sv.subrange(q4, q5) =~= int_chars(p.y as int)
    &&& is_lit_at(sv, q5, lit_color_r())
    &&& sv.subrange(q6, q7) =~= int_chars(p.color.r as int)
    &&& is_lit_at(sv, q7, lit_g())
    &&& sv.subrange(q8, q9) =~= int_chars(p.color.g as int)
    &&& is_lit_at(sv, q9, lit_b())
    &&& sv.subrange(q10, q11) =~= int_chars(p.color.b as int)
    &&& is_lit_at(sv, q11, lit_end())
    &&& sv.len() == q11 + 3
}

#[verifier::rlimit(100)]
proof fn lemma_pointer_assembly(sv: Seq<char>, p: PointerPosition)
    requires
        pointer_layout(sv, p),
    ensures
        sv =~= pointer_chars(p),
{
}

/// Parse a circle frame once its prefix literal has matched.
#[verifier::rlimit(100)]
fn parse_circle_body(s: &str) -> (r: Option<SocketMessage>)
    requires
        is_lit_at(s@, 0, lit_circle()),
    ensures
        match r {
            Some(m) => wf_msg(m) && msg_chars(m) == s@ && m is Circle,
            None => forall|c: Circle| wf_circle(c) ==> circle_chars(c) != s@,
        },
{
    let ghost sv = s@;
    let n = s.unicode_len();
    let lit1 = ",\"y\":";
    let lit2 = ",\"radius\":";
    let lit3 = ",\"color\":{\"r\":";
    let lit4 = ",\"g\":";
    let lit5 = ",\"b\":";
    let lit6 = "}}}";
    proof {
        reveal_strlit(",\"y\":");
        reveal_strlit(",\"radius\":");
        reveal_strlit(",\"color\":{\"r\":");
        reveal_strlit(",\"g\":");
        reveal_strlit(",\"b\":");
        reveal_strlit("}}}");
        assert(lit1@ =~= lit_y());
        assert(lit2@ =~= lit_radius());
        assert(lit3@ =~= lit_color_r());
        assert(lit4@ =~= lit_g());
        assert(lit5@ =~= lit_b());
        assert(lit6@ =~= lit_end());
    }
    let rx = match parse_int_then(s, 15, -10_000, 10_000, lit1) {
        Some(v) => v,
        None => {
            proof {
                assert forall|c: Circle| wf_circle(c) implies circle_chars(c) != sv by {
                    if circle_chars(c) == sv {
                        lemma_circle_decomposition(sv, c);
                        assert(sv.subrange(15, sv.len() as int) == int_chars(c.x as int) + lit1@
                            + ctail_x(c));
                        assert(false);
                    }
                }
            }
            return None;
        },
    };
    let x = rx.0;
    let px = rx.1;
    let ry = match parse_int_then(s, px, -10_000, 10_000, lit2) {
        Some(v) => v,
        None => {
            proof {
                assert forall|c: Circle| wf_circle(c) implies circle_chars(c) != sv by {
                    if circle_chars(c) == sv {
                        lemma_circle_decomposition(sv, c);
                        lemma_int_span_unique(sv, 15, x as int, c.x as int, lit_y(), ctail_x(c));
                        assert(sv.subrange(px as int, sv.len() as int) == int_chars(c.y as int)
                            + lit2@ + ctail_y(c));
                        assert(false);
                    }
                }
            }
            return None;
        },
    };
    let y = ry.0;
    let py = ry.1;
    let rrad = match parse_int_then(s, py, -10_000, 10_000, lit3) {
        Some(v) => v,
        None => {
            proof {
                assert forall|c: Circle| wf_circle(c) implies circle_chars(c) != sv by {
                    if circle_chars(c) == sv {
                        lemma_circle_decomposition(sv, c);
                        lemma_int_span_unique(sv, 15, x as int, c.x as int, lit_y(), ctail_x(c));
                        lemma_int_span_unique(
                            sv,
                            px as int,
                            y as int,
                            c.y as int,
                            lit_radius(),
                            ctail_y(c),
                        );
                        assert(sv.subrange(py as int, sv.len() as int) == int_chars(
                            c.radius as int,
                        ) + lit3@ + ctail_rad(c));
                        assert(false);
                    }
                }
            }
            return None;
        },
    };
    let rad = rrad.0;
    let prad = rrad.1;
    let rr = match parse_int_then(s, prad, 0, 255, lit4) {
        Some(v) => v,
        None => {
            proof {
                assert forall|c: Circle| wf_circle(c) implies circle_chars(c) != sv by {
                    if circle_chars(c) == sv {
                        lemma_circle_decomposition(sv, c);
                        lemma_int_span_unique(sv, 15, x as int, c.x as int, lit_y(), ctail_x(c));
                        lemma_int_span_unique(
                            sv,
                            px as int,
                            y as int,
                            c.y as int,
                            lit_radius(),
                            ctail_y(c),
                        );
                        lemma_int_span_unique(
                            sv,
                            py as int,
                            rad as int,
                            c.radius as int,
                            lit_color_r(),
                            ctail_rad(c),
                        );
                        assert(sv.subrange(prad as int, sv.len() as int) == int_chars(
                            c.color.r as int,
                        ) + lit4@ + color_tail_r(c.color));
                        assert(false);
                    }
                }
            }
            return None;
        },
    };
    let cr = rr.0;
    let pr = rr.1;
    let rg = match parse_int_then(s, pr, 0, 255, lit5) {
        Some(v) => v,
        None => {
            proof {
                assert forall|c: Circle| wf_circle(c) implies circle_chars(c) != sv by {
                    if circle_chars(c) == sv {
                        lemma_circle_decomposition(sv, c);
                        lemma_int_span_unique(sv, 15, x as int, c.x as int, lit_y(), ctail_x(c));
                        lemma_int_span_unique(
                            sv,
                            px as int,
                            y as int,
                            c.y as int,
                            lit_radius(),
                            ctail_y(c),
                        );
                        lemma_int_span_unique(
                            sv,
                            py as int,
                            rad as int,
                            c.radius as int,
                            lit_color_r(),
                            ctail_rad(c),
                        );
                        lemma_int_span_unique(
                            sv,
                            prad as int,
                            cr as int,
                            c.color.r as int,
                            lit_g(),
                            color_tail_r(c.color),
                        );
                        assert(sv.subrange(pr as int, sv.len() as int) == int_chars(
                            c.color.g as int,
                        ) + lit5@ + color_tail_g(c.color));
                        assert(false);
                    }
                }
            }
            return None;
        },
    };
    let cg = rg.0;
    let pg = rg.1;
    let rb = match parse_int_then(s, pg, 0, 255, lit6) {
        Some(v) => v,
        None => {
            proof {
                assert forall|c: Circle| wf_circle(c) implies circle_chars(c) != sv by {
                    if circle_chars(c) == sv {
                        lemma_circle_decomposition(sv, c);
                        lemma_int_span_unique(sv, 15, x as int, c.x as int, lit_y(), ctail_x(c));
                        lemma_int_span_unique(
                            sv,
                            px as int,
                            y as int,
                            c.y as int,
                            lit_radius(),
                            ctail_y(c),
                        );
                        lemma_int_span_unique(
                            sv,
                            py as int,
                            rad as int,
                            c.radius as int,
                            lit_color_r(),
                            ctail_rad(c),
                        );
                        lemma_int_span_unique(
                            sv,
                            prad as int,
                            cr as int,
                            c.color.r as int,
                            lit_g(),
                            color_tail_r(c.color),
                        );
                        lemma_int_span_unique(
                            sv,
                            pr as int,
                            cg as int,
                            c.color.g as int,
                            lit_b(),
                            color_tail_g(c.color),
                        );
                        assert(sv.subrange(pg as int, sv.len() as int) == int_chars(
                            c.color.b as int,
                        ) + lit6@ + Seq::<char>::empty());
                        assert(false);
                    }
                }
            }
            return None;
        },
    };
    let cb = rb.0;
    let pe = rb.1;
    if pe != n {
        proof {
            assert forall|c: Circle| wf_circle(c) implies circle_chars(c) != sv by {
                if circle_chars(c) == sv {
                    lemma_circle_decomposition(sv, c);
                    lemma_int_span_unique(sv, 15, x as int, c.x as int, lit_y(), ctail_x(c));
                    lemma_int_span_unique(
                        sv,
                        px as int,
                        y as int,
                        c.y as int,
                        lit_radius(),
                        ctail_y(c),
                    );
                    lemma_int_span_unique(
                        sv,
                        py as int,
                        rad as int,
                        c.radius as int,
                        lit_color_r(),
                        ctail_rad(c),
                    );
                    lemma_int_span_unique(
                        sv,
                        prad as int,
                        cr as int,
                        c.color.r as int,
                        lit_g(),
                        color_tail_r(c.color),
                    );
                    lemma_int_span_unique(
                        sv,
                        pr as int,
                        cg as int,
                        c.color.g as int,
                        lit_b(),
                        color_tail_g(c.color),
                    );
                    lemma_int_span_unique(
                        sv,
                        pg as int,
                        cb as int,
                        c.color.b as int,
                        lit_end(),
                        Seq::<char>::empty(),
                    );
                    assert(Seq::<char>::empty() =~= sv.subrange(pe as int, sv.len() as int));
                    assert(sv.len() == pe);
                    assert(false);
                }
            }
        }
        return None;
    }
    let color = Color { r: cr as u8, g: cg as u8, b: cb as u8 };
    let circle = Circle { x, y, radius: rad, color };
    proof {
        assert(int_chars(circle.color.r as int) == int_chars(cr as int));
        assert(int_chars(circle.color.g as int) == int_chars(cg as int));
        assert(int_chars(circle.color.b as int) == int_chars(cb as int));
        assert(circle_layout(sv, circle));
        lemma_circle_assembly(sv, circle);
    }
    Some(SocketMessage::Circle(circle))
}

/// Parse a pointer frame once its prefix literal has matched.
#[verifier::rlimit(100)]
fn parse_pointer_body(s: &str) -> (r: Option<SocketMessage>)
    requires
        is_lit_at(s@, 0, lit_pointer()),
    ensures
        match r {
            Some(m) => wf_msg(m) && msg_chars(m) == s@ && m is Pointer,
            None => forall|p: PointerPosition| wf_pointer(p) ==> pointer_chars(p) != s@,
        },
{
    let ghost sv = s@;
    let n = s.unicode_len();
    let lit0 = "\",\"x\":";
    let lit1 = ",\"y\":";
    let lit3 = ",\"color\":{\"r\":";
    proof {
        reveal_strlit("\",\"x\":");
        reveal_strlit(",\"y\":");
        reveal_strlit(",\"color\":{\"r\":");
        assert(lit0@ =~= lit_id_x());
        assert(lit1@ =~= lit_y());
        assert(lit3@ =~= lit_color_r());
    }
    let rid = match parse_id_then(s, 18, lit0) {
        Some(v) => v,
        None => {
            proof {
                assert forall|p: PointerPosition| wf_pointer(p) implies pointer_chars(p) != sv by {
                    if pointer_chars(p) == sv {
                        lemma_pointer_decomposition(sv, p);
                        assert(sv.subrange(18, sv.len() as int) == p.id@ + lit0@ + ptail_id(p));
                        assert(false);
                    }
                }
            }
            return None;
        },
    };
    let id = rid.0;
    let pid = rid.1;
    let rx = match parse_int_then(s, pid, -10_000, 10_000, lit1) {
        Some(v) => v,
        None => {
            proof {
                assert forall|p: PointerPosition| wf_pointer(p) implies pointer_chars(p) != sv by {
                    if pointer_chars(p) == sv {
                        lemma_pointer_decomposition(sv, p);
                        lemma_id_span_unique(sv, 18, id@, p.id@, lit_id_x(), ptail_id(p));
                        assert(sv.subrange(pid as int, sv.len() as int) == int_chars(p.x as int)
                            + lit1@ + ptail_x(p));
                        assert(false);
                    }
                }
            }
            return None;
        },
    };
    let x = rx.0;
    let px = rx.1;
    let ry = match parse_int_then(s, px, -10_000, 10_000, lit3) {
        Some(v) => v,
        None => {
            proof {
                assert forall|p: PointerPosition| wf_pointer(p) implies pointer_chars(p) != sv by {
                    if pointer_chars(p) == sv {
                        lemma_pointer_decomposition(sv, p);
                        lemma_id_span_unique(sv, 18, id@, p.id@, lit_id_x(), ptail_id(p));
                        lemma_int_span_unique(
                            sv,
                            pid as int,
                            x as int,
                            p.x as int,
                            lit_y(),
                            ptail_x(p),
                        );
                        assert(sv.subrange(px as int, sv.len() as int) == int_chars(p.y as int)
                            + lit3@ + ctail_rad_p(p));
                        assert(false);
                    }
                }
            }
            return None;
        },
    };
    let y = ry.0;
    let py = ry.1;
    let col = match parse_color_then_end(s, py) {
        Some(c) => c,
        None => {
            proof {
                assert forall|p: PointerPosition| wf_pointer(p) implies pointer_chars(p) != sv by {
                    if pointer_chars(p) == sv {
                        lemma_pointer_decomposition(sv, p);
                        lemma_id_span_unique(sv, 18, id@, p.id@, lit_id_x(), ptail_id(p));
                        lemma_int_span_unique(
                            sv,
                            pid as int,
                            x as int,
                            p.x as int,
                            lit_y(),
                            ptail_x(p),
                        );
                        lemma_int_span_unique(
                            sv,
                            px as int,
                            y as int,
                            p.y as int,
                            lit_color_r(),
                            ctail_rad_p(p),
                        );
                        assert(ctail_rad_p(p) =~= color_end_chars(p.color));
                        assert(sv.subrange(py as int, sv.len() as int) == color_end_chars(p.color));
                        assert(false);
                    }
                }
            }
            return None;
        },
    };
    let pointer = PointerPosition { id, x, y, color: col };
    proof {
        assert(pointer_layout(sv, pointer));
        lemma_pointer_assembly(sv, pointer);
    }
    Some(SocketMessage::Pointer(pointer))
}

/// Decode one text frame.  Succeeds exactly on the wire rendering of a
/// well-formed message and returns that message; anything else is a
/// protocol error.
pub fn parse(s: &str) -> (r: Option<SocketMessage>)
    ensures
        match r {
            Some(m) => wf_msg(m) && msg_chars(m) == s@,
            None => forall|m: SocketMessage| wf_msg(m) ==> msg_chars(m) != s@,
        },
{
    let ghost sv = s@;
    let litc = "{\"Circle\":{\"x\":";
    let litp = "{\"Pointer\":{\"id\":\"";
    proof {
        reveal_strlit("{\"Circle\":{\"x\":");
        reveal_strlit("{\"Pointer\":{\"id\":\"");
        assert(litc@ =~= lit_circle());
        assert(litp@ =~= lit_pointer());
    }
    if match_lit(s, 0, litc) {
        let r = parse_circle_body(s);
        proof {
            if r is None {
                assert forall|m: SocketMessage| wf_msg(m) implies msg_chars(m) != sv by {
                    if msg_chars(m) == sv {
                        match m {
                            SocketMessage::Circle(c) => {
                                assert(circle_chars(c) != sv);
                            },
                            SocketMessage::Pointer(p) => {
                                lemma_pointer_decomposition(sv, p);
                                assert(sv.subrange(0, 18)[2] == lit_pointer()[2]);
                                assert(sv.subrange(0, 15)[2] == lit_circle()[2]);
                                assert(sv[2] == 'P' && sv[2] == 'C');
                            },
                        }
                    }
                }
            }
        }
        r
    } else if match_lit(s, 0, litp) {
        let r = parse_pointer_body(s);
        proof {
            if r is None {
                assert forall|m: SocketMessage| wf_msg(m) implies msg_chars(m) != sv by {
                    if msg_chars(m) == sv {
                        match m {
                            SocketMessage::Circle(c) => {
                                lemma_circle_decomposition(sv, c);
                                assert(sv.subrange(0, 15)[2] == lit_circle()[2]);
                                assert(sv.subrange(0, 18)[2] == lit_pointer()[2]);
                                assert(sv[2] == 'C' && sv[2] == 'P');
                            },
                            SocketMessage::Pointer(p) => {
                                assert(pointer_chars(p) != sv);
                            },
                        }
                    }
                }
            }
        }
        r
    } else {
        proof {
            assert forall|m: SocketMessage| wf_msg(m) implies msg_chars(m) != sv by {
                if msg_chars(m) == sv {
                    match m {
                        SocketMessage::Circle(c) => {
                            lemma_circle_decomposition(sv, c);
                        },
                        SocketMessage::Pointer(p) => {
                            lemma_pointer_decomposition(sv, p);
                        },
                    }
                }
            }
        }
        None
    }
}

/// The closing stretch of every frame: the three color components and the
/// final braces.
spec fn color_end_chars(col: Color) -> Seq<char> {
    int_chars(col.r as int) + lit_g() + int_chars(col.g as int) + lit_b() + int_chars(
        col.b as int,
    ) + lit_end()
}

/// The positions at which that stretch's pieces sit in `sv` from `pos` on,
/// reaching exactly to the end.
spec fn color_layout_at(sv: Seq<char>, pos: int, col: Color) -> bool {
    let l4 = int_chars(col.r as int).len() as int;
    let p7 = pos + l4;
    let p8 = p7 + 5;
    let l5 = int_chars(col.g as int).len() as int;
    let p9 = p8 + l5;
    let p10 = p9 + 5;
    let l6 = int_chars(col.b as int).len() as int;
    let p11 = p10 + l6;
    &&& sv.subrange(pos, p7) =~= int_chars(col.r as int)
    &&& is_lit_at(sv, p7, lit_g())
    &&& sv.subrange(p8, p9) =~= int_chars(col.g as int)
    &&& is_lit_at(sv, p9, lit_b())
    &&& sv.subrange(p10, p11) =~= int_chars(col.b as int)
    &&& is_lit_at(sv, p11, lit_end())
    &&& sv.len() == p11 + 3
}

/// Parse the color components and the closing braces, which must end the
/// frame.
#[verifier::rlimit(100)]
fn parse_color_then_end(s: &str, pos: usize) -> (r: Option<Color>)
    requires
        pos <= s@.len(),
    ensures
        match r {
            Some(col) => color_layout_at(s@, pos as int, col),
            None => forall|col: Color|
                s@.subrange(pos as int, s@.len() as int) != #[trigger] color_end_chars(col),
        },
{
    let ghost sv = s@;
    let n = s.unicode_len();
    let lit4 = ",\"g\":";
    let lit5 = ",\"b\":";
    let lit6 = "}}}";
    proof {
        reveal_strlit(",\"g\":");
        reveal_strlit(",\"b\":");
        reveal_strlit("}}}");
        assert(lit4@ =~= lit_g());
        assert(lit5@ =~= lit_b());
        assert(lit6@ =~= lit_end());
    }
    let rr = match parse_int_then(s, pos, 0, 255, lit4) {
        Some(v) => v,
        None => {
            proof {
                assert forall|col: Color|
                    sv.subrange(pos as int, sv.len() as int) != #[trigger] color_end_chars(
                    col,
                ) by {
                    if sv.subrange(pos as int, sv.len() as int) == color_end_chars(col) {
                        assert(color_end_chars(col) =~= int_chars(col.r as int) + lit_g()
                            + color_tail_r(col));
                        assert(sv.subrange(pos as int, sv.len() as int) == int_chars(col.r as int)
                            + lit4@ + color_tail_r(col));
                        assert(false);
                    }
                }
            }
            return None;
        },
    };
    let cr = rr.0;
    let pr = rr.1;
    let rg = match parse_int_then(s, pr, 0, 255, lit5) {
        Some(v) => v,
        None => {
            proof {
                assert forall|col: Color|
                    sv.subrange(pos as int, sv.len() as int) != #[trigger] color_end_chars(
                    col,
                ) by {
                    if sv.subrange(pos as int, sv.len() as int) == color_end_chars(col) {
                        assert(color_end_chars(col) =~= int_chars(col.r as int) + lit_g()
                            + color_tail_r(col));
                        lemma_int_span_unique(
                            sv,
                            pos as int,
                            cr as int,
                            col.r as int,
                            lit_g(),
                            color_tail_r(col),
                        );
                        assert(color_tail_r(col) =~= int_chars(col.g as int) + lit_b()
                            + color_tail_g(col));
                        assert(sv.subrange(pr as int, sv.len() as int) == int_chars(col.g as int)
                            + lit5@ + color_tail_g(col));
                        assert(false);
                    }
                }
            }
            return None;
        },
    };
    let cg = rg.0;
    let pg = rg.1;
    let rb = match parse_int_then(s, pg, 0, 255, lit6) {
        Some(v) => v,
        None => {
            proof {
                assert forall|col: Color|
                    sv.subrange(pos as int, sv.len() as int) != #[trigger] color_end_chars(
                    col,
                ) by {
                    if sv.subrange(pos as int, sv.len() as int) == color_end_chars(col) {
                        assert(color_end_chars(col) =~= int_chars(col.r as int) + lit_g()
                            + color_tail_r(col));
                        lemma_int_span_unique(
                            sv,
                            pos as int,
                            cr as int,
                            col.r as int,
                            lit_g(),
                            color_tail_r(col),
                        );
                        assert(color_tail_r(col) =~= int_chars(col.g as int) + lit_b()
                            + color_tail_g(col));
                        lemma_int_span_unique(
                            sv,
                            pr as int,
                            cg as int,
                            col.g as int,
                            lit_b(),
                            color_tail_g(col),
                        );
                        assert(color_tail_g(col) =~= int_chars(col.b as int) + lit_end()
                            + Seq::<char>::empty());
                        assert(sv.subrange(pg as int, sv.len() as int) == int_chars(col.b as int)
                            + lit6@ + Seq::<char>::empty());
                        assert(false);
                    }
                }
            }
            return None;
        },
    };
    let cb = rb.0;
    let pe = rb.1;
    if pe != n {
        proof {
            assert forall|col: Color|
                sv.subrange(pos as int, sv.len() as int) != #[trigger] color_end_chars(col) by {
                if sv.subrange(pos as int, sv.len() as int) == color_end_chars(col) {
                    assert(color_end_chars(col) =~= int_chars(col.r as int) + lit_g()
                        + color_tail_r(col));
                    lemma_int_span_unique(
                        sv,
                        pos as int,
                        cr as int,
                        col.r as int,
                        lit_g(),
                        color_tail_r(col),
                    );
                    assert(color_tail_r(col) =~= int_chars(col.g as int) + lit_b() + color_tail_g(
                        col,
                    ));
                    lemma_int_span_unique(
                        sv,
                        pr as int,
                        cg as int,
                        col.g as int,
                        lit_b(),
                        color_tail_g(col),
                    );
                    assert(color_tail_g(col) =~= int_chars(col.b as int) + lit_end()
                        + Seq::<char>::empty());
                    lemma_int_span_unique(
                        sv,
                        pg as int,
                        cb as int,
                        col.b as int,
                        lit_end(),
                        Seq::<char>::empty(),
                    );
                    assert(Seq::<char>::empty() =~= sv.subrange(pe as int, sv.len() as int));
                    assert(false);
                }
            }
        }
        return None;
    }
    let col = Color { r: cr as u8, g: cg as u8, b: cb as u8 };
    proof {
        assert(int_chars(col.r as int) == int_chars(cr as int));
        assert(int_chars(col.g as int) == int_chars(cg as int));
        assert(int_chars(col.b as int) == int_chars(cb as int));
        assert(color_layout_at(sv, pos as int, col));
    }
    Some(col)
}

/// No frame renders both a circle and a pointer: the tag characters
/// differ.
#[verifier::rlimit(100)]
pub proof fn lemma_circle_pointer_distinct(c: Circle, p: PointerPosition)
    ensures
        circle_chars(c) != pointer_chars(p),
{
    if circle_chars(c) == pointer_chars(p) {
        let chars = circle_chars(c);
        lemma_circle_decomposition(chars, c);
        lemma_pointer_decomposition(chars, p);
        assert(chars.subrange(0, 15)[2] == lit_circle()[2]);
        assert(chars.subrange(0, 18)[2] == lit_pointer()[2]);
        assert(chars[2] == 'C' && chars[2] == 'P');
        assert(false);
    }
}

/// The split facts a rendered integer plus delimiter leaves in the tail.
proof fn lemma_int_span_facts(s: Seq<char>, pos: int, v: int, lit: Seq<char>, rest: Seq<char>)
    requires
        0 <= pos <= s.len(),
        s.subrange(pos, s.len() as int) =~= int_chars(v) + lit + rest,
    ensures
        pos + int_chars(v).len() + lit.len() <= s.len(),
        s.subrange(pos, pos + int_chars(v).len()) =~= int_chars(v),
        is_lit_at(s, pos + int_chars(v).len(), lit),
        rest =~= s.subrange(pos + int_chars(v).len() + lit.len(), s.len() as int),
{
    lemma_tail_concat3(s, pos, int_chars(v), lit, rest);
    let l = int_chars(v).len() as int;
    assert(s.subrange(pos, pos + l) =~= int_chars(v));
    assert(s.subrange(pos + l, pos + l + lit.len()) =~= lit);
    assert(rest =~= s.subrange(pos + l + lit.len(), s.len() as int));
}

/// The same split facts for an id span.
proof fn lemma_id_span_facts(s: Seq<char>, pos: int, id: Seq<char>, lit: Seq<char>, rest: Seq<char>)
    requires
        0 <= pos <= s.len(),
        s.subrange(pos, s.len() as int) =~= id + lit + rest,
    ensures
        pos + id.len() + lit.len() <= s.len(),
        s.subrange(pos, pos + id.len()) =~= id,
        is_lit_at(s, pos + id.len(), lit),
        rest =~= s.subrange(pos + id.len() + lit.len(), s.len() as int),
{
    lemma_tail_concat3(s, pos, id, lit, rest);
    let l = id.len() as int;
    assert(s.subrange(pos, pos + l) =~= id);
    assert(s.subrange(pos + l, pos + l + lit.len()) =~= lit);
    assert(rest =~= s.subrange(pos + l + lit.len(), s.len() as int));
}

/// A circle frame determines its circle: decoding what `encode` produced
/// can only give the original message back.
#[verifier::rlimit(100)]
pub proof fn lemma_frame_determines_circle(c1: Circle, c2: Circle)
    requires
        circle_chars(c1) == circle_chars(c2),
    ensures
        c1 == c2,
{
    let sv = circle_chars(c1);
    lemma_circle_decomposition(sv, c1);
    lemma_circle_decomposition(sv, c2);
    let p1 = 15 + int_chars(c1.x as int).len() as int + 5;
    lemma_int_span_facts(sv, 15, c1.x as int, lit_y(), ctail_x(c1));
    lemma_int_span_unique(sv, 15, c1.x as int, c2.x as int, lit_y(), ctail_x(c2));
    assert(ctail_x(c1) =~= sv.subrange(p1, sv.len() as int));
    assert(sv.subrange(p1, sv.len() as int) =~= int_chars(c1.y as int) + lit_radius() + ctail_y(
        c1,
    ));
    assert(sv.subrange(p1, sv.len() as int) =~= int_chars(c2.y as int) + lit_radius() + ctail_y(
        c2,
    ));
    let p2 = p1 + int_chars(c1.y as int).len() as int + 10;
    lemma_int_span_facts(sv, p1, c1.y as int, lit_radius(), ctail_y(c1));
    lemma_int_span_unique(sv, p1, c1.y as int, c2.y as int, lit_radius(), ctail_y(c2));
    assert(ctail_y(c1) =~= sv.subrange(p2, sv.len() as int));
    assert(sv.subrange(p2, sv.len() as int) =~= int_chars(c1.radius as int) + lit_color_r()
        + ctail_rad(c1));
    assert(sv.subrange(p2, sv.len() as int) =~= int_chars(c2.radius as int) + lit_color_r()
        + ctail_rad(c2));
    let p3 = p2 + int_chars(c1.radius as int).len() as int + 14;
    lemma_int_span_facts(sv, p2, c1.radius as int, lit_color_r(), ctail_rad(c1));
    lemma_int_span_unique(sv, p2, c1.radius as int, c2.radius as int, lit_color_r(), ctail_rad(c2));
    assert(ctail_rad(c1) =~= sv.subrange(p3, sv.len() as int));
    lemma_same_color_tail(sv, p3, c1.color, c2.color);
    assert(c1.color == c2.color);
}

/// A shared tail renders the same color in both readings.
#[verifier::rlimit(100)]
proof fn lemma_same_color_tail(sv: Seq<char>, pos: int, col1: Color, col2: Color)
    requires
        0 <= pos <= sv.len(),
        sv.subrange(pos, sv.len() as int) =~= color_end_chars(col1),
        sv.subrange(pos, sv.len() as int) =~= color_end_chars(col2),
    ensures
        col1 == col2,
{
    assert(sv.subrange(pos, sv.len() as int) =~= int_chars(col1.r as int) + lit_g() + color_tail_r(
        col1,
    ));
    assert(sv.subrange(pos, sv.len() as int) =~= int_chars(col2.r as int) + lit_g() + color_tail_r(
        col2,
    ));
    let q1 = pos + int_chars(col1.r as int).len() as int + 5;
    lemma_int_span_facts(sv, pos, col1.r as int, lit_g(), color_tail_r(col1));
    lemma_int_span_unique(sv, pos, col1.r as int, col2.r as int, lit_g(), color_tail_r(col2));
    assert(color_tail_r(col1) =~= sv.subrange(q1, sv.len() as int));
    assert(sv.subrange(q1, sv.len() as int) =~= int_chars(col1.g as int) + lit_b() + color_tail_g(
        col1,
    ));
    assert(sv.subrange(q1, sv.len() as int) =~= int_chars(col2.g as int) + lit_b() + color_tail_g(
        col2,
    ));
    let q2 = q1 + int_chars(col1.g as int).len() as int + 5;
    lemma_int_span_facts(sv, q1, col1.g as int, lit_b(), color_tail_g(col1));
    lemma_int_span_unique(sv, q1, col1.g as int, col2.g as int, lit_b(), color_tail_g(col2));
    assert(color_tail_g(col1) =~= sv.subrange(q2, sv.len() as int));
    assert(sv.subrange(q2, sv.len() as int) =~= int_chars(col1.b as int) + lit_end()
        + Seq::<char>::empty());
    assert(sv.subrange(q2, sv.len() as int) =~= int_chars(col2.b as int) + lit_end()
        + Seq::<char>::empty());
    lemma_int_span_facts(sv, q2, col1.b as int, lit_end(), Seq::<char>::empty());
    lemma_int_span_unique(sv, q2, col1.b as int, col2.b as int, lit_end(), Seq::<char>::empty());
}

/// A pointer frame determines its sample, with the id pinned down as a
/// character sequence.
#[verifier::rlimit(100)]
pub proof fn lemma_frame_determines_pointer(p1: PointerPosition, p2: PointerPosition)
    requires
        pointer_chars(p1) == pointer_chars(p2),
        wf_id(p1.id@),
        wf_id(p2.id@),
    ensures
        p1.id@ == p2.id@,
        p1.x == p2.x,
        p1.y == p2.y,
        p1.color == p2.color,
{
    let sv = pointer_chars(p1);
    lemma_pointer_decomposition(sv, p1);
    lemma_pointer_decomposition(sv, p2);
    let q1 = 18 + p1.id@.len() as int + 6;
    lemma_id_span_facts(sv, 18, p1.id@, lit_id_x(), ptail_id(p1));
    lemma_id_span_unique(sv, 18, p1.id@, p2.id@, lit_id_x(), ptail_id(p2));
    assert(ptail_id(p1) =~= sv.subrange(q1, sv.len() as int));
    assert(sv.subrange(q1, sv.len() as int) =~= int_chars(p1.x as int) + lit_y() + ptail_x(p1));
    assert(sv.subrange(q1, sv.len() as int) =~= int_chars(p2.x as int) + lit_y() + ptail_x(p2));
    let q2 = q1 + int_chars(p1.x as int).len() as int + 5;
    lemma_int_span_facts(sv, q1, p1.x as int, lit_y(), ptail_x(p1));
    lemma_int_span_unique(sv, q1, p1.x as int, p2.x as int, lit_y(), ptail_x(p2));
    assert(ptail_x(p1) =~= sv.subrange(q2, sv.len() as int));
    assert(sv.subrange(q2, sv.len() as int) =~= int_chars(p1.y as int) + lit_color_r()
        + ctail_rad_p(p1));
    assert(sv.subrange(q2, sv.len() as int) =~= int_chars(p2.y as int) + lit_color_r()
        + ctail_rad_p(p2));
    let q3 = q2 + int_chars(p1.y as int).len() as int + 14;
    lemma_int_span_facts(sv, q2, p1.y as int, lit_color_r(), ctail_rad_p(p1));
    lemma_int_span_unique(sv, q2, p1.y as int, p2.y as int, lit_color_r(), ctail_rad_p(p2));
    assert(ctail_rad_p(p1) =~= sv.subrange(q3, sv.len() as int));
    assert(ctail_rad_p(p1) =~= color_end_chars(p1.color));
    assert(ctail_rad_p(p2) =~= color_end_chars(p2.color));
    lemma_same_color_tail(sv, q3, p1.color, p2.color);
}

} // verus!








