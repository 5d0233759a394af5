//! JSON values and their text form.
pub mod numerals;
pub mod writing;

use vstd::prelude::*;

use crate::decimal;
use crate::ieee::Format;
use crate::text;

verus! {

/// A JSON value. A number is a double, kept as its bit pattern; an object is
/// its members in the order of the text.
#[derive(Debug)]
pub enum Json {
    Null,
    Bool(bool),
    Num(u64),
    Str(String),
    Arr(Vec<Json>),
    Obj(Vec<(String, Json)>),
}

/// What a JSON value is, mathematically.
pub enum Value {
    Null,
    Bool(bool),
    Num(u64),
    Str(Seq<char>),
    Arr(Seq<Value>),
    Obj(Seq<(Seq<char>, Value)>),
}

impl View for Json {
    type V = Value;

    open spec fn view(&self) -> Value
        decreases self,
    {
        match self {
            Json::Null => Value::Null,
            Json::Bool(b) => Value::Bool(*b),
            Json::Num(n) => Value::Num(*n),
            Json::Str(s) => Value::Str(s@),
            Json::Arr(a) => Value::Arr(
                Seq::new(
                    a@.len(),
                    |i: int|
                        if 0 <= i < a@.len() {
                            a@[i].view()
                        } else {
                            Value::Null
                        },
                ),
            ),
            Json::Obj(o) => Value::Obj(
                Seq::new(
                    o@.len(),
                    |i: int|
                        if 0 <= i < o@.len() {
                            (o@[i].0@, o@[i].1.view())
                        } else {
                            (Seq::empty(), Value::Null)
                        },
                ),
            ),
        }
    }
}

pub open spec fn is_ws(c: char) -> bool {
    c == ' ' || c == '\t' || c == '\n' || c == '\r'
}

/// The first place from `i` on that holds no whitespace.
pub open spec fn skip_ws(s: Seq<char>, i: int) -> int
    decreases s.len() - i,
{
    if 0 <= i < s.len() && is_ws(s[i]) {
        skip_ws(s, i + 1)
    } else {
        i
    }
}

pub open spec fn is_digit(c: char) -> bool {
    '0' <= c <= '9'
}

/// The end of the run of digits at `i`.
pub open spec fn digits_end(s: Seq<char>, i: int) -> int
    decreases s.len() - i,
{
    if 0 <= i < s.len() && is_digit(s[i]) {
        digits_end(s, i + 1)
    } else {
        i
    }
}

/// The digits `i..j` as numbers.
pub open spec fn digit_seq(s: Seq<char>, i: int, j: int) -> Seq<u8> {
    Seq::new((j - i) as nat, |k: int| (s[i + k] as u32 - '0' as u32) as u8)
}

/// The value of a hexadecimal digit.
pub open spec fn hex_value(c: char) -> Option<int> {
    if '0' <= c <= '9' {
        Some(c as int - '0' as int)
    } else if 'a' <= c <= 'f' {
        Some(c as int - 'a' as int + 10)
    } else if 'A' <= c <= 'F' {
        Some(c as int - 'A' as int + 10)
    } else {
        None
    }
}

/// Four hexadecimal digits at `i`.
pub open spec fn hex4(s: Seq<char>, i: int) -> Option<int> {
    if i + 4 <= s.len() {
        match (hex_value(s[i]), hex_value(s[i + 1]), hex_value(s[i + 2]), hex_value(s[i + 3])) {
            (Some(a), Some(b), Some(c), Some(d)) => Some(4096 * a + 256 * b + 16 * c + d),
            _ => None,
        }
    } else {
        None
    }
}

/// The character that the escape after a backslash stands for, and where the
/// text goes on. A high surrogate takes the low one that must follow.
pub open spec fn escape_at(s: Seq<char>, i: int) -> Option<(char, int)> {
    if i >= s.len() {
        None
    } else if s[i] == '"' || s[i] == '\\' || s[i] == '/' {
        Some((s[i], i + 1))
    } else if s[i] == 'b' {
        Some((8 as char, i + 1))
    } else if s[i] == 'f' {
        Some((12 as char, i + 1))
    } else if s[i] == 'n' {
        Some(('\n', i + 1))
    } else if s[i] == 'r' {
        Some(('\r', i + 1))
    } else if s[i] == 't' {
        Some(('\t', i + 1))
    } else if s[i] == 'u' {
        match hex4(s, i + 1) {
            None => None,
            Some(h) => if h < 0xd800 || h > 0xdfff {
                Some((h as char, i + 5))
            } else if h <= 0xdbff && i + 6 < s.len() && s[i + 5] == '\\' && s[i + 6] == 'u' {
                match hex4(s, i + 7) {
                    Some(l) => if 0xdc00 <= l <= 0xdfff {
                        Some(((0x1_0000 + (h - 0xd800) * 1024 + (l - 0xdc00)) as char, i + 11))
                    } else {
                        None
                    },
                    None => None,
                }
            } else {
                None
            },
        }
    } else {
        None
    }
}

/// The rest of a string whose characters so far are `acc`, up to and with the
/// closing quote.
pub open spec fn string_at(s: Seq<char>, i: int, acc: Seq<char>) -> Option<(Seq<char>, int)>
    decreases s.len() - i,
{
    if i < 0 || i >= s.len() {
        None
    } else if s[i] == '"' {
        Some((acc, i + 1))
    } else if s[i] == '\\' {
        match escape_at(s, i + 1) {
            Some((c, j)) => if i < j {
                string_at(s, j, acc.push(c))
            } else {
                None
            },
            None => None,
        }
    } else if (s[i] as u32) < 0x20 {
        None
    } else {
        string_at(s, i + 1, acc.push(s[i]))
    }
}

/// The sign, the digits and the number of places after the point of a number
/// at `i`, and where they end: an optional minus, digits without a leading
/// zero, an optional fraction.
pub open spec fn mantissa_at(s: Seq<char>, i: int) -> Option<(bool, Seq<u8>, int, int)> {
    let neg = i < s.len() && s[i] == '-';
    let a = if neg {
        i + 1
    } else {
        i
    };
    let b = digits_end(s, a);
    if b == a || (b > a + 1 && s[a] == '0') {
        None
    } else if b < s.len() && s[b] == '.' {
        let d = digits_end(s, b + 1);
        if d == b + 1 {
            None
        } else {
            Some((neg, digit_seq(s, a, b) + digit_seq(s, b + 1, d), d - (b + 1), d))
        }
    } else {
        Some((neg, digit_seq(s, a, b), 0, b))
    }
}

/// The exponent at `d`, if there is one, and where it ends.
pub open spec fn exponent_at(s: Seq<char>, d: int) -> Option<(int, int)> {
    if d < s.len() && (s[d] == 'e' || s[d] == 'E') {
        let signed = d + 1 < s.len() && (s[d + 1] == '-' || s[d + 1] == '+');
        let minus = signed && s[d + 1] == '-';
        let f = if signed {
            d + 2
        } else {
            d + 1
        };
        let g = digits_end(s, f);
        let x = decimal::digits_value(digit_seq(s, f, g));
        if g == f {
            None
        } else {
            Some((if minus {
                -x
            } else {
                x
            }, g))
        }
    } else {
        Some((0, d))
    }
}

/// A number at `i`, rounded to a double.
pub open spec fn number_at(s: Seq<char>, i: int) -> Option<(u64, int)> {
    match mantissa_at(s, i) {
        None => None,
        Some((neg, digits, places, d)) => match exponent_at(s, d) {
            None => None,
            Some((e, g)) => Some((
                decimal::of_decimal(neg, decimal::digits_value(digits), e - places) as u64,
                g,
            )),
        },
    }
}

/// The text `lit` stands at `i`.
pub open spec fn starts_at(s: Seq<char>, i: int, lit: Seq<char>) -> bool {
    0 <= i && i + lit.len() <= s.len() && s.subrange(i, i + lit.len()) == lit
}

/// The value that begins at `i`, and where the text goes on.
pub open spec fn value_at(s: Seq<char>, i: int) -> Option<(Value, int)>
    decreases s.len() - i, 0int,
{
    if i < 0 || i >= s.len() {
        None
    } else if s[i] == '"' {
        match string_at(s, i + 1, Seq::empty()) {
            Some((t, j)) => Some((Value::Str(t), j)),
            None => None,
        }
    } else if s[i] == '[' {
        let k = skip_ws(s, i + 1);
        if k < s.len() && s[k] == ']' {
            Some((Value::Arr(Seq::empty()), k + 1))
        } else if k <= i || k > s.len() {
            None
        } else {
            items_at(s, k, Seq::empty())
        }
    } else if s[i] == '{' {
        let k = skip_ws(s, i + 1);
        if k < s.len() && s[k] == '}' {
            Some((Value::Obj(Seq::empty()), k + 1))
        } else if k <= i || k > s.len() {
            None
        } else {
            members_at(s, k, Seq::empty())
        }
    } else if starts_at(s, i, "null"@) {
        Some((Value::Null, i + 4))
    } else if starts_at(s, i, "true"@) {
        Some((Value::Bool(true), i + 4))
    } else if starts_at(s, i, "false"@) {
        Some((Value::Bool(false), i + 5))
    } else {
        match number_at(s, i) {
            Some((n, j)) => Some((Value::Num(n), j)),
            None => None,
        }
    }
}

/// The rest of an array whose items so far are `acc`, from its next item on.
pub open spec fn items_at(s: Seq<char>, i: int, acc: Seq<Value>) -> Option<(Value, int)>
    decreases s.len() - i, 1int,
{
    match value_at(s, i) {
        None => None,
        Some((v, j)) => {
            let k = skip_ws(s, j);
            if k <= i || k >= s.len() {
                None
            } else if s[k] == ',' {
                let n = skip_ws(s, k + 1);
                if n <= i || n > s.len() {
                    None
                } else {
                    items_at(s, n, acc.push(v))
                }
            } else if s[k] == ']' {
                Some((Value::Arr(acc.push(v)), k + 1))
            } else {
                None
            }
        },
    }
}

/// The rest of an object whose members so far are `acc`, from its next member
/// on.
pub open spec fn members_at(s: Seq<char>, i: int, acc: Seq<(Seq<char>, Value)>) -> Option<
    (Value, int),
>
    decreases s.len() - i, 1int,
{
    if i < 0 || i >= s.len() || s[i] != '"' {
        None
    } else {
        match string_at(s, i + 1, Seq::empty()) {
            None => None,
            Some((key, j)) => {
                let k = skip_ws(s, j);
                if k <= i || k >= s.len() || s[k] != ':' {
                    None
                } else {
                    let m = skip_ws(s, k + 1);
                    if m <= i || m > s.len() {
                        None
                    } else {
                        match value_at(s, m) {
                            None => None,
                            Some((v, n)) => {
                                let q = skip_ws(s, n);
                                if q <= i || q >= s.len() {
                                    None
                                } else if s[q] == ',' {
                                    let t = skip_ws(s, q + 1);
                                    if t <= i || t > s.len() {
                                        None
                                    } else {
                                        members_at(s, t, acc.push((key, v)))
                                    }
                                } else if s[q] == '}' {
                                    Some((Value::Obj(acc.push((key, v))), q + 1))
                                } else {
                                    None
                                }
                            },
                        }
                    }
                }
            },
        }
    }
}

/// The value that a whole text stands for.
pub open spec fn document(s: Seq<char>) -> Option<Value> {
    match value_at(s, skip_ws(s, 0)) {
        Some((v, j)) => if skip_ws(s, j) == s.len() {
            Some(v)
        } else {
            None
        },
        None => None,
    }
}

proof fn lemma_skip_ws(s: Seq<char>, i: int)
    requires
        0 <= i <= s.len(),
    ensures
        i <= skip_ws(s, i) <= s.len(),
    decreases s.len() - i,
{
    if i < s.len() && is_ws(s[i]) {
        lemma_skip_ws(s, i + 1);
    }
}

pub proof fn lemma_digits_end(s: Seq<char>, i: int)
    requires
        0 <= i <= s.len(),
    ensures
        i <= digits_end(s, i) <= s.len(),
        forall|k: int| i <= k < digits_end(s, i) ==> is_digit(#[trigger] s[k]),
    decreases s.len() - i,
{
    if i < s.len() && is_digit(s[i]) {
        lemma_digits_end(s, i + 1);
    }
}

fn ws_from(s: &Vec<char>, i: usize) -> (r: usize)
    requires
        i <= s@.len(),
    ensures
        r == skip_ws(s@, i as int),
        i <= r <= s@.len(),
{
    let mut k: usize = i;
    while k < s.len() && (s[k] == ' ' || s[k] == '\t' || s[k] == '\n' || s[k] == '\r')
        invariant
            i <= k <= s@.len(),
            skip_ws(s@, i as int) == skip_ws(s@, k as int),
        decreases s@.len() - k,
    {
        k = k + 1;
    }
    k
}

pub(crate) fn digits_from(s: &Vec<char>, i: usize) -> (r: usize)
    requires
        i <= s@.len(),
    ensures
        r == digits_end(s@, i as int),
        i <= r <= s@.len(),
{
    let mut k: usize = i;
    while k < s.len() && '0' <= s[k] && s[k] <= '9'
        invariant
            i <= k <= s@.len(),
            digits_end(s@, i as int) == digits_end(s@, k as int),
        decreases s@.len() - k,
    {
        k = k + 1;
    }
    k
}

/// Appends the digits `i..j`.
pub(crate) fn push_digits(s: &Vec<char>, i: usize, j: usize, out: &mut Vec<u8>)
    requires
        i <= j <= s@.len(),
        forall|k: int| i <= k < j ==> is_digit(#[trigger] s@[k]),
        decimal::all_digits(old(out)@),
    ensures
        final(out)@ == old(out)@ + digit_seq(s@, i as int, j as int),
        decimal::all_digits(final(out)@),
{
    let mut k: usize = i;
    proof {
        assert(out@ =~= out@ + digit_seq(s@, i as int, i as int));
    }
    while k < j
        invariant
            i <= k <= j <= s@.len(),
            forall|m: int| i <= m < j ==> is_digit(#[trigger] s@[m]),
            out@ == old(out)@ + digit_seq(s@, i as int, k as int),
            decimal::all_digits(out@),
        decreases j - k,
    {
        let c: char = s[k];
        let ghost before = out@;
        let d: u8 = (c as u32 - '0' as u32) as u8;
        out.push(d);
        proof {
            assert(digit_seq(s@, i as int, k + 1) =~= digit_seq(s@, i as int, k as int).push(d));
            assert(out@ =~= old(out)@ + digit_seq(s@, i as int, k + 1));
        }
        k = k + 1;
    }
}

/// The text is no JSON value.
#[derive(Clone, Copy, PartialEq, Eq, Debug, Structural)]
pub struct BadJson;

fn hex_digit(c: char) -> (r: Option<u32>)
    ensures
        match r {
            Some(v) => hex_value(c) == Some(v as int) && v < 16,
            None => hex_value(c) is None,
        },
{
    if '0' <= c && c <= '9' {
        Some(c as u32 - '0' as u32)
    } else if 'a' <= c && c <= 'f' {
        Some(c as u32 - 'a' as u32 + 10)
    } else if 'A' <= c && c <= 'F' {
        Some(c as u32 - 'A' as u32 + 10)
    } else {
        None
    }
}

fn hex4_from(s: &Vec<char>, i: usize) -> (r: Option<u32>)
    requires
        i <= s@.len(),
    ensures
        match r {
            Some(v) => hex4(s@, i as int) == Some(v as int) && v < 0x1_0000 && i + 4 <= s@.len(),
            None => hex4(s@, i as int) is None,
        },
{
    if s.len() - i < 4 {
        return None;
    }
    match (hex_digit(s[i]), hex_digit(s[i + 1]), hex_digit(s[i + 2]), hex_digit(s[i + 3])) {
        (Some(a), Some(b), Some(c), Some(d)) => Some(4096 * a + 256 * b + 16 * c + d),
        _ => None,
    }
}

fn escape_from(s: &Vec<char>, i: usize) -> (r: Option<(char, usize)>)
    requires
        i <= s@.len(),
    ensures
        match r {
            Some((c, j)) => escape_at(s@, i as int) == Some((c, j as int)) && i < j <= s@.len(),
            None => escape_at(s@, i as int) is None,
        },
{
    if i >= s.len() {
        return None;
    }
    let c: char = s[i];
    if c == '"' || c == '\\' || c == '/' {
        Some((c, i + 1))
    } else if c == 'b' {
        Some((text::char_of(8), i + 1))
    } else if c == 'f' {
        Some((text::char_of(12), i + 1))
    } else if c == 'n' {
        Some(('\n', i + 1))
    } else if c == 'r' {
        Some(('\r', i + 1))
    } else if c == 't' {
        Some(('\t', i + 1))
    } else if c == 'u' {
        match hex4_from(s, i + 1) {
            None => None,
            Some(h) => if h < 0xd800 || h > 0xdfff {
                Some((text::char_of(h), i + 5))
            } else if h <= 0xdbff && s.len() - i > 6 && s[i + 5] == '\\' && s[i + 6] == 'u' {
                match hex4_from(s, i + 7) {
                    Some(l) => if 0xdc00 <= l && l <= 0xdfff {
                        Some((
                            text::char_of(0x1_0000 + (h - 0xd800) * 1024 + (l - 0xdc00)),
                            i + 11,
                        ))
                    } else {
                        None
                    },
                    None => None,
                }
            } else {
                None
            },
        }
    } else {
        None
    }
}

fn string_from(s: &Vec<char>, i: usize) -> (r: Option<(String, usize)>)
    requires
        i <= s@.len(),
    ensures
        match r {
            Some((t, j)) => string_at(s@, i as int, Seq::empty()) == Some((t@, j as int)) && i < j
                <= s@.len(),
            None => string_at(s@, i as int, Seq::empty()) is None,
        },
{
    let mut out: String = String::new();
    let mut k: usize = i;
    loop
        invariant
            i <= k <= s@.len(),
            string_at(s@, i as int, Seq::empty()) == string_at(s@, k as int, out@),
        decreases s@.len() - k,
    {
        if k >= s.len() {
            return None;
        }
        let c: char = s[k];
        if c == '"' {
            return Some((out, k + 1));
        }
        if c == '\\' {
            match escape_from(s, k + 1) {
                Some((d, j)) => {
                    text::push_char(&mut out, d);
                    k = j;
                },
                None => {
                    return None;
                },
            }
        } else if (c as u32) < 0x20 {
            return None;
        } else {
            text::push_char(&mut out, c);
            k = k + 1;
        }
    }
}

/// The digits `i..j` as a number, held at `10^24`.
fn capped_value(s: &Vec<char>, i: usize, j: usize) -> (r: i128)
    requires
        i <= j <= s@.len(),
        forall|k: int| i <= k < j ==> is_digit(#[trigger] s@[k]),
    ensures
        ({
            let v = decimal::digits_value(digit_seq(s@, i as int, j as int));
            r == capped(v) && v >= 0
        }),
        r >= 0,
{
    let mut v: i128 = 0;
    let mut k: usize = i;
    proof {
        assert(digit_seq(s@, i as int, i as int).len() == 0);
    }
    while k < j
        invariant
            i <= k <= j <= s@.len(),
            forall|m: int| i <= m < j ==> is_digit(#[trigger] s@[m]),
            0 <= v <= 1_000_000_000_000_000_000_000_000,
            ({
                let x = decimal::digits_value(digit_seq(s@, i as int, k as int));
                v == capped(x) && x >= 0
            }),
        decreases j - k,
    {
        let c: char = s[k];
        let d: i128 = (c as u32 - '0' as u32) as i128;
        proof {
            let t = digit_seq(s@, i as int, k + 1);
            assert(t.drop_last() =~= digit_seq(s@, i as int, k as int));
            assert(t.last() == d);
        }
        let w: i128 = 10 * v + d;
        v = if w < 1_000_000_000_000_000_000_000_000 {
            w
        } else {
            1_000_000_000_000_000_000_000_000
        };
        k = k + 1;
    }
    v
}

/// A scanned mantissa.
struct Mantissa {
    neg: bool,
    digits: Vec<u8>,
    places: usize,
    end: usize,
}

fn mantissa_from(s: &Vec<char>, i: usize) -> (r: Option<Mantissa>)
    requires
        i < s.len(),
    ensures
        match r {
            Some(m) => {
                &&& mantissa_at(s@, i as int) == Some(
                    (m.neg, m.digits@, m.places as int, m.end as int),
                )
                &&& i < m.end <= s@.len()
                &&& decimal::all_digits(m.digits@)
                &&& m.places <= s@.len()
                &&& m.digits@.len() <= s@.len()
            },
            None => mantissa_at(s@, i as int) is None,
        },
{
    let neg: bool = s[i] == '-';
    let a: usize = if neg {
        i + 1
    } else {
        i
    };
    let b: usize = digits_from(s, a);
    if b == a || (b - a > 1 && s[a] == '0') {
        return None;
    }
    proof {
        lemma_digits_end(s@, a as int);
    }
    let mut digits: Vec<u8> = Vec::new();
    push_digits(s, a, b, &mut digits);
    proof {
        assert(Seq::<u8>::empty() + digit_seq(s@, a as int, b as int) =~= digit_seq(
            s@,
            a as int,
            b as int,
        ));
    }
    if b < s.len() && s[b] == '.' {
        let d: usize = digits_from(s, b + 1);
        if d == b + 1 {
            return None;
        }
        proof {
            lemma_digits_end(s@, b + 1);
        }
        push_digits(s, b + 1, d, &mut digits);
        Some(Mantissa { neg, digits, places: d - (b + 1), end: d })
    } else {
        Some(Mantissa { neg, digits, places: 0, end: b })
    }
}

/// The exponent, held at `10^24`; whether it was negative comes with it.
fn exponent_from(s: &Vec<char>, d: usize) -> (r: Option<(bool, i128, usize)>)
    requires
        d <= s.len(),
    ensures
        match r {
            Some((minus, x, g)) => {
                &&& d <= g <= s@.len()
                &&& 0 <= x <= 1_000_000_000_000_000_000_000_000
                &&& exists|v: int|
                    {
                        &&& v >= 0
                        &&& #[trigger] capped(v) == x
                        &&& exponent_at(s@, d as int) == Some(
                            (if minus {
                                -v
                            } else {
                                v
                            }, g as int),
                        )
                    }
            },
            None => exponent_at(s@, d as int) is None,
        },
{
    if d < s.len() && (s[d] == 'e' || s[d] == 'E') {
        let signed: bool = s.len() - d > 1 && (s[d + 1] == '-' || s[d + 1] == '+');
        let minus: bool = signed && s[d + 1] == '-';
        let f: usize = if signed {
            d + 2
        } else {
            d + 1
        };
        let g: usize = digits_from(s, f);
        if g == f {
            return None;
        }
        proof {
            lemma_digits_end(s@, f as int);
        }
        let x: i128 = capped_value(s, f, g);
        proof {
            let v = decimal::digits_value(digit_seq(s@, f as int, g as int));
            assert(capped(v) == x);
        }
        Some((minus, x, g))
    } else {
        assert(capped(0) == 0);
        Some((false, 0, d))
    }
}

/// `v`, held at `10^24`.
spec fn capped(v: int) -> int {
    if v < 1_000_000_000_000_000_000_000_000 {
        v
    } else {
        1_000_000_000_000_000_000_000_000
    }
}

fn number_from(s: &Vec<char>, i: usize) -> (r: Option<(u64, usize)>)
    requires
        i < s.len(),
    ensures
        match r {
            Some((n, j)) => number_at(s@, i as int) == Some((n, j as int)) && i < j <= s@.len(),
            None => number_at(s@, i as int) is None,
        },
{
    match mantissa_from(s, i) {
        None => None,
        Some(m) => match exponent_from(s, m.end) {
            None => None,
            Some((minus, x, g)) => {
                let e: i128 = if minus {
                    -x - m.places as i128
                } else {
                    x - m.places as i128
                };
                proof {
                    let v = choose|v: int|
                        {
                            &&& v >= 0
                            &&& #[trigger] capped(v) == x
                            &&& exponent_at(s@, m.end as int) == Some(
                                (if minus {
                                    -v
                                } else {
                                    v
                                }, g as int),
                            )
                        };
                    decimal::lemma_exponent_cap(m.neg, m.digits@, v, minus, m.places as int);
                }
                let n: u64 = decimal::decimal_to_f64(m.neg, &m.digits, e);
                Some((n, g))
            },
        },
    }
}

fn lit_from(s: &Vec<char>, i: usize, lit: &str) -> (r: bool)
    requires
        i <= s.len(),
    ensures
        r == starts_at(s@, i as int, lit@),
{
    let l: Vec<char> = text::to_chars(lit);
    if s.len() - i < l.len() {
        return false;
    }
    let mut k: usize = 0;
    while k < l.len()
        invariant
            k <= l@.len(),
            l@ == lit@,
            i + l@.len() <= s@.len(),
            i <= s.len(),
            forall|m: int| 0 <= m < k ==> s@[i + m] == l@[m],
        decreases l@.len() - k,
    {
        if s[i + k] != l[k] {
            proof {
                assert(s@.subrange(i as int, i + l@.len())[k as int] != l@[k as int]);
            }
            return false;
        }
        k = k + 1;
    }
    assert(s@.subrange(i as int, i + l@.len()) =~= l@);
    true
}

/// The values of a vector of JSON values.
pub open spec fn views(a: Seq<Json>) -> Seq<Value> {
    Seq::new(a.len(), |i: int| a[i]@)
}

/// The members of an object.
pub open spec fn member_views(o: Seq<(String, Json)>) -> Seq<(Seq<char>, Value)> {
    Seq::new(o.len(), |i: int| (o[i].0@, o[i].1@))
}

pub proof fn lemma_view_arr(a: Vec<Json>)
    ensures
        Json::Arr(a)@ == Value::Arr(views(a@)),
{
    reveal_with_fuel(<Json as View>::view, 2);
    assert(Json::Arr(a)@->Arr_0 =~= views(a@));
}

pub proof fn lemma_view_obj(o: Vec<(String, Json)>)
    ensures
        Json::Obj(o)@ == Value::Obj(member_views(o@)),
{
    reveal_with_fuel(<Json as View>::view, 2);
    assert(Json::Obj(o)@->Obj_0 =~= member_views(o@));
}

/// What a scan from `i` gives.
spec fn scanned(r: Option<(Json, usize)>, want: Option<(Value, int)>, i: int, len: int) -> bool {
    match r {
        Some((v, j)) => want == Some((v@, j as int)) && i < j <= len,
        None => want is None,
    }
}

fn value_from(s: &Vec<char>, i: usize) -> (r: Option<(Json, usize)>)
    requires
        i <= s.len(),
    ensures
        scanned(r, value_at(s@, i as int), i as int, s@.len() as int),
    decreases s@.len() - i, 0int,
{
    if i >= s.len() {
        return None;
    }
    let c: char = s[i];
    proof {
        reveal_strlit("null");
        reveal_strlit("true");
        reveal_strlit("false");
    }
    if c == '"' {
        match string_from(s, i + 1) {
            Some((t, j)) => Some((Json::Str(t), j)),
            None => None,
        }
    } else if c == '[' {
        let k: usize = ws_from(s, i + 1);
        if k < s.len() && s[k] == ']' {
            let a: Vec<Json> = Vec::new();
            proof {
                lemma_view_arr(a);
                assert(views(a@) =~= Seq::empty());
            }
            Some((Json::Arr(a), k + 1))
        } else {
            items_from(s, k)
        }
    } else if c == '{' {
        let k: usize = ws_from(s, i + 1);
        if k < s.len() && s[k] == '}' {
            let o: Vec<(String, Json)> = Vec::new();
            proof {
                lemma_view_obj(o);
                assert(member_views(o@) =~= Seq::empty());
            }
            Some((Json::Obj(o), k + 1))
        } else {
            members_from(s, k)
        }
    } else if lit_from(s, i, "null") {
        Some((Json::Null, i + 4))
    } else if lit_from(s, i, "true") {
        Some((Json::Bool(true), i + 4))
    } else if lit_from(s, i, "false") {
        Some((Json::Bool(false), i + 5))
    } else {
        match number_from(s, i) {
            Some((n, j)) => Some((Json::Num(n), j)),
            None => None,
        }
    }
}

fn items_from(s: &Vec<char>, i: usize) -> (r: Option<(Json, usize)>)
    requires
        i <= s.len(),
    ensures
        scanned(r, items_at(s@, i as int, Seq::empty()), i as int, s@.len() as int),
    decreases s@.len() - i, 1int,
{
    let mut a: Vec<Json> = Vec::new();
    let mut k: usize = i;
    proof {
        assert(views(a@) =~= Seq::empty());
    }
    loop
        invariant
            i <= k <= s.len(),
            items_at(s@, i as int, Seq::empty()) == items_at(s@, k as int, views(a@)),
        decreases s@.len() - k,
    {
        match value_from(s, k) {
            None => {
                return None;
            },
            Some((v, j)) => {
                let m: usize = ws_from(s, j);
                if m >= s.len() {
                    return None;
                }
                let ghost before = a@;
                let ghost vv = v@;
                a.push(v);
                proof {
                    assert(views(a@) =~= views(before).push(vv));
                }
                if s[m] == ',' {
                    k = ws_from(s, m + 1);
                } else if s[m] == ']' {
                    proof {
                        lemma_view_arr(a);
                    }
                    return Some((Json::Arr(a), m + 1));
                } else {
                    return None;
                }
            },
        }
    }
}

fn members_from(s: &Vec<char>, i: usize) -> (r: Option<(Json, usize)>)
    requires
        i <= s.len(),
    ensures
        scanned(r, members_at(s@, i as int, Seq::empty()), i as int, s@.len() as int),
    decreases s@.len() - i, 1int,
{
    let mut o: Vec<(String, Json)> = Vec::new();
    let mut k: usize = i;
    proof {
        assert(member_views(o@) =~= Seq::empty());
    }
    loop
        invariant
            i <= k <= s.len(),
            members_at(s@, i as int, Seq::empty()) == members_at(
                s@,
                k as int,
                member_views(o@),
            ),
        decreases s@.len() - k,
    {
        if k >= s.len() || s[k] != '"' {
            return None;
        }
        let (key, j) = match string_from(s, k + 1) {
            Some(t) => t,
            None => {
                return None;
            },
        };
        let m: usize = ws_from(s, j);
        if m >= s.len() || s[m] != ':' {
            return None;
        }
        let n: usize = ws_from(s, m + 1);
        match value_from(s, n) {
            None => {
                return None;
            },
            Some((v, e)) => {
                let q: usize = ws_from(s, e);
                if q >= s.len() {
                    return None;
                }
                let ghost before = o@;
                let ghost kv = (key@, v@);
                o.push((key, v));
                proof {
                    assert(member_views(o@) =~= member_views(before).push(kv));
                }
                if s[q] == ',' {
                    k = ws_from(s, q + 1);
                } else if s[q] == '}' {
                    proof {
                        lemma_view_obj(o);
                    }
                    return Some((Json::Obj(o), q + 1));
                } else {
                    return None;
                }
            },
        }
    }
}

/// Reads a whole text.
pub fn parse(txt: &str) -> (r: Result<Json, BadJson>)
    ensures
        match r {
            Ok(v) => document(txt@) == Some(v@),
            Err(_) => document(txt@) is None,
        },
{
    let s: Vec<char> = text::to_chars(txt);
    let k: usize = ws_from(&s, 0);
    match value_from(&s, k) {
        None => Err(BadJson),
        Some((v, j)) => {
            if ws_from(&s, j) == s.len() {
                Ok(v)
            } else {
                Err(BadJson)
            }
        },
    }
}

/// The first member named `key`.
pub open spec fn find(m: Seq<(Seq<char>, Value)>, key: Seq<char>) -> Option<Value>
    decreases m.len(),
{
    if m.len() == 0 {
        None
    } else if m[0].0 == key {
        Some(m[0].1)
    } else {
        find(m.drop_first(), key)
    }
}

impl Value {
    pub open spec fn get(self, key: Seq<char>) -> Option<Value> {
        match self {
            Value::Obj(m) => find(m, key),
            _ => None,
        }
    }

    /// The double, as a bit pattern.
    pub open spec fn as_f64(self) -> Option<u64> {
        match self {
            Value::Num(n) => Some(n),
            _ => None,
        }
    }

    /// A whole number that is not negative and fits 64 bits.
    pub open spec fn as_u64(self) -> Option<u64> {
        match self {
            Value::Num(n) => if Format::F64.is_whole(n as int) && (!Format::F64.negative(n as int)
                || Format::F64.mag(n as int) == 0) && Format::F64.less(n as int, 0x43f0_0000_0000_0000) {
                Some(Format::F64.truncated(n as int) as u64)
            } else {
                None
            },
            _ => None,
        }
    }

    pub open spec fn as_usize(self) -> Option<usize> {
        match self.as_u64() {
            Some(n) => if n <= usize::MAX {
                Some(n as usize)
            } else {
                None
            },
            None => None,
        }
    }

    pub open spec fn as_str(self) -> Option<Seq<char>> {
        match self {
            Value::Str(s) => Some(s),
            _ => None,
        }
    }

    pub open spec fn as_bool(self) -> Option<bool> {
        match self {
            Value::Bool(b) => Some(b),
            _ => None,
        }
    }

    pub open spec fn as_arr(self) -> Option<Seq<Value>> {
        match self {
            Value::Arr(a) => Some(a),
            _ => None,
        }
    }

    pub open spec fn usize_of(self, key: Seq<char>) -> Option<usize> {
        match self.get(key) {
            Some(v) => v.as_usize(),
            None => None,
        }
    }

    pub open spec fn u64_of(self, key: Seq<char>) -> Option<u64> {
        match self.get(key) {
            Some(v) => v.as_u64(),
            None => None,
        }
    }

    pub open spec fn f64_of(self, key: Seq<char>) -> Option<u64> {
        match self.get(key) {
            Some(v) => v.as_f64(),
            None => None,
        }
    }

    pub open spec fn str_of(self, key: Seq<char>) -> Option<Seq<char>> {
        match self.get(key) {
            Some(v) => v.as_str(),
            None => None,
        }
    }

    pub open spec fn bool_of(self, key: Seq<char>) -> Option<bool> {
        match self.get(key) {
            Some(v) => v.as_bool(),
            None => None,
        }
    }

    pub open spec fn arr_of(self, key: Seq<char>) -> Option<Seq<Value>> {
        match self.get(key) {
            Some(v) => v.as_arr(),
            None => None,
        }
    }

    /// The number named `key`, or `default`.
    pub open spec fn usize_or(self, key: Seq<char>, default: usize) -> usize {
        match self.usize_of(key) {
            Some(n) => n,
            None => default,
        }
    }

    /// The number named `key` in single precision, or `default`.
    pub open spec fn f32_or(self, key: Seq<char>, default: u32) -> u32 {
        match self.f64_of(key) {
            Some(n) => Format::F64.convert(Format::F32, n as int) as u32,
            None => default,
        }
    }
}

/// `r` is the part of a value that `want` names.
pub open spec fn refers(r: Option<&Json>, want: Option<Value>) -> bool {
    match r {
        Some(v) => want == Some(v@),
        None => want is None,
    }
}

impl Json {
    pub fn get(&self, key: &str) -> (r: Option<&Json>)
        ensures
            refers(r, self@.get(key@)),
    {
        match self {
            Json::Obj(o) => {
                proof {
                    lemma_view_obj(*o);
                }
                let k: String = key.to_owned();
                let mut i: usize = 0;
                assert(member_views(o@).skip(0) =~= member_views(o@));
                while i < o.len()
                    invariant
                        i <= o@.len(),
                        k@ == key@,
                        self@ == Value::Obj(member_views(o@)),
                        find(member_views(o@), key@) == find(
                            member_views(o@).skip(i as int),
                            key@,
                        ),
                    decreases o@.len() - i,
                {
                    let ghost m = member_views(o@).skip(i as int);
                    proof {
                        assert(m[0] == (o@[i as int].0@, o@[i as int].1@));
                        assert(m.drop_first() =~= member_views(o@).skip(i + 1));
                    }
                    if o[i].0 == k {
                        return Some(&o[i].1);
                    }
                    i = i + 1;
                }
                None
            },
            _ => None,
        }
    }

    pub fn as_f64(&self) -> (r: Option<u64>)
        ensures
            r == self@.as_f64(),
    {
        match self {
            Json::Num(n) => Some(*n),
            _ => None,
        }
    }

    pub fn as_u64(&self) -> (r: Option<u64>)
        ensures
            r == self@.as_u64(),
    {
        match self {
            Json::Num(n) => {
                let f: Format = Format::F64;
                if f.whole(*n) && (!f.is_negative(*n) || f.magnitude(*n) == 0) && f.lt(
                    *n,
                    0x43f0_0000_0000_0000,
                ) {
                    Some(f.trunc_u64(*n))
                } else {
                    None
                }
            },
            _ => None,
        }
    }

    pub fn as_usize(&self) -> (r: Option<usize>)
        ensures
            r == self@.as_usize(),
    {
        match self.as_u64() {
            Some(n) => if n <= usize::MAX as u64 {
                Some(n as usize)
            } else {
                None
            },
            None => None,
        }
    }

    pub fn as_str(&self) -> (r: Option<&str>)
        ensures
            match r {
                Some(s) => self@.as_str() == Some(s@),
                None => self@.as_str() is None,
            },
    {
        match self {
            Json::Str(s) => Some(s.as_str()),
            _ => None,
        }
    }

    pub fn as_bool(&self) -> (r: Option<bool>)
        ensures
            r == self@.as_bool(),
    {
        match self {
            Json::Bool(b) => Some(*b),
            _ => None,
        }
    }

    pub fn as_arr(&self) -> (r: Option<&Vec<Json>>)
        ensures
            match r {
                Some(a) => self@.as_arr() == Some(views(a@)),
                None => self@.as_arr() is None,
            },
    {
        match self {
            Json::Arr(a) => {
                proof {
                    lemma_view_arr(*a);
                }
                Some(a)
            },
            _ => None,
        }
    }

    pub fn usize_of(&self, key: &str) -> (r: Option<usize>)
        ensures
            r == self@.usize_of(key@),
    {
        match self.get(key) {
            Some(v) => v.as_usize(),
            None => None,
        }
    }

    pub fn u64_of(&self, key: &str) -> (r: Option<u64>)
        ensures
            r == self@.u64_of(key@),
    {
        match self.get(key) {
            Some(v) => v.as_u64(),
            None => None,
        }
    }

    pub fn f64_of(&self, key: &str) -> (r: Option<u64>)
        ensures
            r == self@.f64_of(key@),
    {
        match self.get(key) {
            Some(v) => v.as_f64(),
            None => None,
        }
    }

    pub fn str_of(&self, key: &str) -> (r: Option<&str>)
        ensures
            match r {
                Some(s) => self@.str_of(key@) == Some(s@),
                None => self@.str_of(key@) is None,
            },
    {
        match self.get(key) {
            Some(v) => v.as_str(),
            None => None,
        }
    }

    pub fn bool_of(&self, key: &str) -> (r: Option<bool>)
        ensures
            r == self@.bool_of(key@),
    {
        match self.get(key) {
            Some(v) => v.as_bool(),
            None => None,
        }
    }

    pub fn arr_of(&self, key: &str) -> (r: Option<&Vec<Json>>)
        ensures
            match r {
                Some(a) => self@.arr_of(key@) == Some(views(a@)),
                None => self@.arr_of(key@) is None,
            },
    {
        match self.get(key) {
            Some(v) => v.as_arr(),
            None => None,
        }
    }

    pub fn usize_or(&self, key: &str, default: usize) -> (r: usize)
        ensures
            r == self@.usize_or(key@, default),
    {
        match self.usize_of(key) {
            Some(n) => n,
            None => default,
        }
    }

    pub fn f32_or(&self, key: &str, default: u32) -> (r: u32)
        ensures
            r == self@.f32_or(key@, default),
    {
        match self.f64_of(key) {
            Some(n) => Format::F64.to_format(Format::F32, n) as u32,
            None => default,
        }
    }
}

/// The whole numbers among `a`, in order.
pub open spec fn sizes(a: Seq<Value>) -> Seq<usize>
    decreases a.len(),
{
    if a.len() == 0 {
        Seq::empty()
    } else {
        match a.last().as_usize() {
            Some(n) => sizes(a.drop_last()).push(n),
            None => sizes(a.drop_last()),
        }
    }
}

/// The whole numbers among `a`, in order.
pub fn sizes_of(a: &Vec<Json>) -> (r: Vec<usize>)
    ensures
        r@ == sizes(views(a@)),
{
    let ghost vs = views(a@);
    let mut out: Vec<usize> = Vec::new();
    let mut i: usize = 0;
    assert(vs.take(0).len() == 0);
    while i < a.len()
        invariant
            i <= a@.len(),
            vs == views(a@),
            out@ == sizes(vs.take(i as int)),
        decreases a@.len() - i,
    {
        proof {
            assert(vs.take(i + 1).drop_last() =~= vs.take(i as int));
            assert(vs.take(i + 1).last() == a@[i as int]@);
        }
        if let Some(n) = a[i].as_usize() {
            out.push(n);
        }
        i = i + 1;
    }
    assert(vs.take(i as int) =~= vs);
    out
}

} // verus!
