//! A reader of JSON, and what it makes of what is rendered.

use vstd::prelude::*;

use crate::binary64::Binary64;
use crate::decimal::{fixed, scaled};
use crate::delta::{ProcRateView, SnapshotView, SystemRateView};
use crate::numbers::{all_digits, dec, dec_int, dec_padded, law_dec_reads_back, pow10};
use crate::render::{
    at_most, escaped, escaped_all, hex, json_alert, json_alerts, json_number, json_optional, json_process,
    json_processes, json_string, json_system, json_view,
};
use crate::sampler::AlertView;
use crate::text::{digits, is_digit, lemma_span, lemma_span_is_longest, span};
use crate::time::secs_real;

verus! {

// --------------------------------------------------------------- strings --

/// The digit that a hexadecimal character stands for.
pub open spec fn unhex(c: char) -> nat {
    if (c as nat) < 58 {
        (c as nat - 48) as nat
    } else {
        (c as nat - 87) as nat
    }
}

/// A hexadecimal digit, with small letters.
pub open spec fn is_hex(c: char) -> bool {
    is_digit(c) || 'a' <= c <= 'f'
}

/// The number that the escape `\u` at the front of `t` gives.
pub open spec fn code(t: Seq<char>) -> nat {
    unhex(t[2]) * 4096 + unhex(t[3]) * 256 + unhex(t[4]) * 16 + unhex(t[5])
}

/// Whether `n` is the number of a character, rather than half of one.
pub open spec fn is_scalar(n: nat) -> bool {
    n < 0xD800 || 0xE000 <= n
}

/// What a JSON reader makes of the characters inside a string: the text up to
/// the closing quote, and what follows it.
pub open spec fn json_read(t: Seq<char>) -> Option<(Seq<char>, Seq<char>)>
    decreases t.len(),
{
    if t.len() == 0 || (t[0] as nat) < 0x20 {
        None
    } else if t[0] == '"' {
        Some((seq![], t.skip(1)))
    } else if t[0] != '\\' {
        read_on(t[0], json_read(t.skip(1)))
    } else if t.len() < 2 {
        None
    } else if t[1] == '"' || t[1] == '\\' {
        read_on(t[1], json_read(t.skip(2)))
    } else if t[1] == 'n' {
        read_on('\n', json_read(t.skip(2)))
    } else if t[1] == 'r' {
        read_on('\r', json_read(t.skip(2)))
    } else if t[1] == 't' {
        read_on('\t', json_read(t.skip(2)))
    } else if t[1] == 'u' && t.len() >= 6 && is_hex(t[2]) && is_hex(t[3]) && is_hex(t[4]) && is_hex(t[5])
        && is_scalar(code(t)) {
        read_on(code(t) as char, json_read(t.skip(6)))
    } else {
        None
    }
}

/// One character more in front of what was read.
pub open spec fn read_on(c: char, rest: Option<(Seq<char>, Seq<char>)>) -> Option<(Seq<char>, Seq<char>)> {
    match rest {
        Some((s, after)) => Some((seq![c] + s, after)),
        None => None,
    }
}

proof fn lemma_escaped_front(s: Seq<char>)
    requires
        s.len() > 0,
    ensures
        escaped_all(s) == escaped(s[0]) + escaped_all(s.skip(1)),
    decreases s.len(),
{
    if s.len() == 1 {
        assert(s.drop_last() =~= Seq::<char>::empty());
        assert(s.skip(1) =~= Seq::<char>::empty());
        assert(escaped_all(s) =~= escaped(s[0]));
    } else {
        let less = s.drop_last();
        lemma_escaped_front(less);
        assert(less.skip(1) =~= s.skip(1).drop_last());
        assert(s.skip(1).last() == s.last());
        assert(escaped_all(s) =~= escaped(s[0]) + escaped_all(s.skip(1)));
    }
}

proof fn lemma_hex(d: nat)
    requires
        d < 16,
    ensures
        is_hex(hex(d)),
        unhex(hex(d)) == d,
{
}

proof fn lemma_read_escaped(c: char, u: Seq<char>)
    ensures
        json_read(escaped(c) + u) == read_on(c, json_read(u)),
{
    let e = escaped(c);
    let t = e + u;
    assert(t.skip(e.len() as int) =~= u);
    assert(forall|i: int| 0 <= i < e.len() ==> t[i] == e[i]);
    if e.len() == 6 {
        let n = c as nat;
        lemma_hex(n / 16);
        lemma_hex(n % 16);
        assert(t[0] == '\\' && t[1] == 'u' && t[2] == '0' && t[3] == '0');
        assert(t[4] == hex(n / 16) && t[5] == hex(n % 16));
        assert(unhex('0') == 0);
        assert(code(t) == n);
        assert(json_read(t) == read_on(c, json_read(t.skip(6))));
    } else if e.len() == 2 {
        assert(t[0] == '\\');
        assert(json_read(t) == read_on(c, json_read(t.skip(2))));
    } else {
        assert(t[0] == c);
        assert(json_read(t) == read_on(c, json_read(t.skip(1))));
    }
}

/// A JSON reader gets every text back from its JSON string, whatever it holds
/// and whatever follows the string.
pub proof fn law_json_strings_read_back(s: Seq<char>, after: Seq<char>)
    ensures
        (json_string(s) + after)[0] == '"',
        json_read((json_string(s) + after).skip(1)) == Some((s, after)),
    decreases s.len(),
{
    let t = (json_string(s) + after).skip(1);
    assert(t =~= escaped_all(s) + (seq!['"'] + after));
    if s.len() == 0 {
        assert(t[0] == '"');
        assert(t.skip(1) =~= after);
        assert(s =~= Seq::<char>::empty());
    } else {
        let c = s[0];
        let rest = s.skip(1);
        law_json_strings_read_back(rest, after);
        lemma_escaped_front(s);
        let u = (json_string(rest) + after).skip(1);
        assert(u =~= escaped_all(rest) + (seq!['"'] + after));
        assert(t =~= escaped(c) + u);
        lemma_read_escaped(c, u);
        assert(seq![c] + rest =~= s);
    }
}

// ---------------------------------------------------------------- values --

/// A JSON value.
pub enum Json {
    Null,
    /// A number, as it is written.
    Number(Seq<char>),
    Text(Seq<char>),
    List(Seq<Json>),
    /// The members in order, each with its key.
    Object(Seq<(Seq<char>, Json)>),
}

/// The characters of numbers.
pub open spec fn number_chars() -> spec_fn(char) -> bool {
    |c: char| is_digit(c) || c == '-' || c == '.'
}

/// Whether `s` is a JSON number without an exponent: a sign or none, digits
/// without a needless zero in front, a point and more digits or none.
pub open spec fn is_number(s: Seq<char>) -> bool {
    let u = if s.len() > 0 && s[0] == '-' {
        s.skip(1)
    } else {
        s
    };
    let n = span(u, digits()) as int;
    &&& n > 0
    &&& u[0] == '0' ==> n == 1
    &&& n == u.len() || u[n] == '.' && n + 1 < u.len() && all_digits(u.skip(n + 1))
}

/// What a JSON reader makes of the front of a text: the value that stands there,
/// and what follows it. It reads JSON without whitespace between its parts,
/// without exponents and with `null` for its only word.
pub open spec fn json_value(t: Seq<char>) -> Option<(Json, Seq<char>)>
    decreases t.len(), 0nat,
{
    if t.len() == 0 {
        None
    } else if t[0] == '"' {
        match json_read(t.skip(1)) {
            Some((s, after)) => Some((Json::Text(s), after)),
            None => None,
        }
    } else if t[0] == '{' {
        if t.len() > 1 && t[1] == '}' {
            Some((Json::Object(seq![]), t.skip(2)))
        } else {
            match json_members(t.skip(1)) {
                Some((v, after)) => Some((Json::Object(v), after)),
                None => None,
            }
        }
    } else if t[0] == '[' {
        if t.len() > 1 && t[1] == ']' {
            Some((Json::List(seq![]), t.skip(2)))
        } else {
            match json_items(t.skip(1)) {
                Some((v, after)) => Some((Json::List(v), after)),
                None => None,
            }
        }
    } else if t.len() >= 4 && t.take(4) == seq!['n', 'u', 'l', 'l'] {
        Some((Json::Null, t.skip(4)))
    } else {
        let n = span(t, number_chars()) as int;
        if is_number(t.take(n)) {
            Some((Json::Number(t.take(n)), t.skip(n)))
        } else {
            None
        }
    }
}

/// Reads the values of a list up to its closing bracket.
pub open spec fn json_items(t: Seq<char>) -> Option<(Seq<Json>, Seq<char>)>
    decreases t.len(), 1nat,
{
    match json_value(t) {
        Some((v, rest)) => if rest.len() == 0 || rest.len() > t.len() {
            None
        } else if rest[0] == ']' {
            Some((seq![v], rest.skip(1)))
        } else if rest[0] == ',' {
            match json_items(rest.skip(1)) {
                Some((more, after)) => Some((seq![v] + more, after)),
                None => None,
            }
        } else {
            None
        },
        None => None,
    }
}

/// Reads the members of an object up to its closing brace.
pub open spec fn json_members(t: Seq<char>) -> Option<(Seq<(Seq<char>, Json)>, Seq<char>)>
    decreases t.len(), 1nat,
{
    if t.len() == 0 || t[0] != '"' {
        None
    } else {
        match json_read(t.skip(1)) {
            Some((key, colon)) => if colon.len() == 0 || colon.len() > t.len() || colon[0] != ':' {
                None
            } else {
                match json_value(colon.skip(1)) {
                    Some((v, rest)) => if rest.len() == 0 || rest.len() > t.len() {
                        None
                    } else if rest[0] == '}' {
                        Some((seq![(key, v)], rest.skip(1)))
                    } else if rest[0] == ',' {
                        match json_members(rest.skip(1)) {
                            Some((more, after)) => Some((seq![(key, v)] + more, after)),
                            None => None,
                        }
                    } else {
                        None
                    },
                    None => None,
                }
            },
            None => None,
        }
    }
}

// ------------------------------------------------------------- one line --

/// Whether `rest` is the end of `t`, and no character before it is a control
/// character.
spec fn taken(t: Seq<char>, rest: Seq<char>) -> bool {
    &&& rest.len() <= t.len()
    &&& t.skip(t.len() - rest.len()) == rest
    &&& forall|i: int| 0 <= i < t.len() - rest.len() ==> (#[trigger] t[i]) as nat >= 0x20
}

proof fn lemma_taken_front(t: Seq<char>, n: int)
    requires
        0 <= n <= t.len(),
        forall|i: int| 0 <= i < n ==> (#[trigger] t[i]) as nat >= 0x20,
    ensures
        taken(t, t.skip(n)),
{
}

proof fn lemma_taken_twice(t: Seq<char>, a: Seq<char>, b: Seq<char>)
    requires
        taken(t, a),
        taken(a, b),
    ensures
        taken(t, b),
{
    assert(t.skip(t.len() - b.len()) =~= a.skip(a.len() - b.len()));
    assert forall|i: int| 0 <= i < t.len() - b.len() implies (#[trigger] t[i]) as nat >= 0x20 by {
        let k = t.len() - a.len();
        if i >= k {
            assert(t[i] == a[i - k]);
        }
    }
}

proof fn lemma_read_takes(t: Seq<char>)
    ensures
        json_read(t) matches Some((s, after)) ==> taken(t, after),
    decreases t.len(),
{
    if json_read(t) is Some {
        let after = (json_read(t)->0).1;
        let n: int = if t[0] != '\\' {
            1
        } else if t[1] == 'u' {
            6
        } else {
            2
        };
        lemma_taken_front(t, n);
        if t[0] != '"' {
            lemma_read_takes(t.skip(n));
            lemma_taken_twice(t, t.skip(n), after);
        }
    }
}

proof fn lemma_value_takes(t: Seq<char>)
    ensures
        json_value(t) matches Some((v, after)) ==> taken(t, after),
    decreases t.len(), 0nat,
{
    if json_value(t) is Some {
        let after = (json_value(t)->0).1;
        if t[0] == '"' {
            lemma_taken_front(t, 1);
            lemma_read_takes(t.skip(1));
            lemma_taken_twice(t, t.skip(1), after);
        } else if t[0] == '{' {
            if t.len() > 1 && t[1] == '}' {
                lemma_taken_front(t, 2);
            } else {
                lemma_taken_front(t, 1);
                lemma_members_take(t.skip(1));
                lemma_taken_twice(t, t.skip(1), after);
            }
        } else if t[0] == '[' {
            if t.len() > 1 && t[1] == ']' {
                lemma_taken_front(t, 2);
            } else {
                lemma_taken_front(t, 1);
                lemma_items_take(t.skip(1));
                lemma_taken_twice(t, t.skip(1), after);
            }
        } else if t.len() >= 4 && t.take(4) == seq!['n', 'u', 'l', 'l'] {
            assert forall|i: int| 0 <= i < 4 implies (#[trigger] t[i]) as nat >= 0x20 by {
                assert(t[i] == t.take(4)[i]);
            }
            lemma_taken_front(t, 4);
        } else {
            lemma_span_is_longest(t, number_chars());
            let n = span(t, number_chars()) as int;
            assert forall|i: int| 0 <= i < n implies (#[trigger] t[i]) as nat >= 0x20 by {
                assert(number_chars()(t[i]));
            }
            lemma_taken_front(t, n);
        }
    }
}

proof fn lemma_items_take(t: Seq<char>)
    ensures
        json_items(t) matches Some((v, after)) ==> taken(t, after),
    decreases t.len(), 1nat,
{
    if json_items(t) is Some {
        let after = (json_items(t)->0).1;
        let rest = (json_value(t)->0).1;
        lemma_value_takes(t);
        lemma_taken_front(rest, 1);
        lemma_taken_twice(t, rest, rest.skip(1));
        if rest[0] == ',' {
            lemma_items_take(rest.skip(1));
            lemma_taken_twice(t, rest.skip(1), after);
        }
    }
}

proof fn lemma_members_take(t: Seq<char>)
    ensures
        json_members(t) matches Some((v, after)) ==> taken(t, after),
    decreases t.len(), 1nat,
{
    if json_members(t) is Some {
        let after = (json_members(t)->0).1;
        let colon = (json_read(t.skip(1))->0).1;
        let rest = (json_value(colon.skip(1))->0).1;
        lemma_taken_front(t, 1);
        lemma_read_takes(t.skip(1));
        lemma_taken_twice(t, t.skip(1), colon);
        lemma_taken_front(colon, 1);
        lemma_taken_twice(t, colon, colon.skip(1));
        lemma_value_takes(colon.skip(1));
        lemma_taken_twice(t, colon.skip(1), rest);
        lemma_taken_front(rest, 1);
        lemma_taken_twice(t, rest, rest.skip(1));
        if rest[0] == ',' {
            lemma_members_take(rest.skip(1));
            lemma_taken_twice(t, rest.skip(1), after);
        }
    }
}

/// What a JSON reader accepts holds no control character.
pub proof fn law_json_has_no_control_characters(t: Seq<char>, i: int)
    requires
        json_value(t) is Some,
        0 <= i < t.len() - (json_value(t)->0).1.len(),
    ensures
        t[i] as nat >= 0x20,
{
    lemma_value_takes(t);
}

// -------------------------------------------------------------- numbers --

proof fn lemma_no_leading_zero(n: nat)
    ensures
        dec(n).len() > 0,
        all_digits(dec(n)),
        dec(n)[0] == '0' ==> dec(n).len() == 1,
        n > 0 ==> dec(n)[0] != '0',
    decreases n,
{
    law_dec_reads_back(n);
    if n >= 10 {
        lemma_no_leading_zero(n / 10);
        assert(dec(n)[0] == dec(n / 10)[0]);
    }
}

proof fn lemma_padded_digits(n: nat, w: nat)
    ensures
        dec_padded(n, w).len() == w,
        all_digits(dec_padded(n, w)),
    decreases w,
{
    if w > 0 {
        lemma_padded_digits(n / 10, (w - 1) as nat);
    }
}

/// Whether `s` is a number and holds characters of numbers only.
spec fn numeric(s: Seq<char>) -> bool {
    is_number(s) && forall|i: int| 0 <= i < s.len() ==> number_chars()(#[trigger] s[i])
}

/// Digits, with a point and more digits or without.
proof fn lemma_numeric(sign: bool, n: nat, tail: Seq<char>)
    requires
        tail.len() == 0 || tail.len() > 1 && tail[0] == '.' && all_digits(tail.skip(1)),
    ensures
        numeric((if sign {
            seq!['-']
        } else {
            seq![]
        }) + dec(n) + tail),
{
    lemma_no_leading_zero(n);
    let u = dec(n) + tail;
    let s = (if sign {
        seq!['-']
    } else {
        seq![]
    }) + dec(n) + tail;
    let k = dec(n).len();
    assert forall|i: int| 0 <= i < k implies digits()(#[trigger] u[i]) by {
        assert(u[i] == dec(n)[i]);
    }
    lemma_span(u, digits(), k);
    assert(is_digit(u[0]));
    if sign {
        assert(s[0] == '-');
        assert(s.skip(1) =~= u);
    } else {
        assert(s =~= u);
    }
    if tail.len() > 0 {
        assert(u.skip(k as int + 1) =~= tail.skip(1));
    }
    assert forall|i: int| 0 <= i < u.len() implies number_chars()(#[trigger] u[i]) by {
        if i > k {
            assert(u[i] == tail.skip(1)[i - k - 1]);
        } else if i < k {
            assert(u[i] == dec(n)[i]);
        }
    }
    assert forall|i: int| 0 <= i < s.len() implies number_chars()(#[trigger] s[i]) by {
        if sign && i > 0 {
            assert(s[i] == u[i - 1]);
        } else if !sign {
            assert(s[i] == u[i]);
        }
    }
}

/// Whether a number that stands before `rest` ends there.
spec fn ends_number(rest: Seq<char>) -> bool {
    rest.len() == 0 || !number_chars()(rest[0])
}

proof fn lemma_read_numeric(s: Seq<char>, rest: Seq<char>)
    requires
        numeric(s),
        ends_number(rest),
    ensures
        json_value(s + rest) == Some((Json::Number(s), rest)),
{
    let t = s + rest;
    let n = s.len();
    assert(n > 0) by {
        lemma_span_is_longest(s, digits());
        if n == 0 {
            assert(span(s, digits()) == 0);
        }
    }
    assert forall|i: int| 0 <= i < n implies number_chars()(#[trigger] t[i]) by {
        assert(t[i] == s[i]);
    }
    lemma_span(t, number_chars(), n);
    assert(t[0] == s[0]);
    if t.len() >= 4 {
        assert(t.take(4)[0] == s[0]);
    }
    assert(t.take(n as int) =~= s);
    assert(t.skip(n as int) =~= rest);
}

/// The value of a number that is written with three digits.
pub open spec fn number_value(v: Binary64) -> Json {
    if v.is_finite() {
        Json::Number(fixed(v, 3))
    } else {
        Json::Null
    }
}

/// The value of a number that may be unknown.
pub open spec fn optional_value(v: Option<Binary64>) -> Json {
    match v {
        Some(v) => number_value(v),
        None => Json::Null,
    }
}

proof fn lemma_read_null(rest: Seq<char>)
    ensures
        json_value("null"@ + rest) == Some((Json::Null, rest)),
{
    reveal_strlit("null");
    let t = "null"@ + rest;
    assert(t[0] == 'n');
    assert(t.take(4) =~= seq!['n', 'u', 'l', 'l']);
    assert(t.skip(4) =~= rest);
}

proof fn lemma_read_dec(n: nat, rest: Seq<char>)
    requires
        ends_number(rest),
    ensures
        json_value(dec(n) + rest) == Some((Json::Number(dec(n)), rest)),
{
    lemma_numeric(false, n, seq![]);
    assert(Seq::<char>::empty() + dec(n) + Seq::<char>::empty() =~= dec(n));
    lemma_read_numeric(dec(n), rest);
}

proof fn lemma_read_dec_int(n: int, rest: Seq<char>)
    requires
        ends_number(rest),
    ensures
        json_value(dec_int(n) + rest) == Some((Json::Number(dec_int(n)), rest)),
{
    if n < 0 {
        lemma_numeric(true, (-n) as nat, seq![]);
        assert(seq!['-'] + dec((-n) as nat) + Seq::<char>::empty() =~= dec_int(n));
        lemma_read_numeric(dec_int(n), rest);
    } else {
        lemma_read_dec(n as nat, rest);
    }
}

proof fn lemma_read_json_number(v: Binary64, rest: Seq<char>)
    requires
        ends_number(rest),
    ensures
        json_value(json_number(v) + rest) == Some((number_value(v), rest)),
{
    if v.is_finite() {
        let t = scaled(v.units(), 3);
        let q = t / pow10(3);
        let tail = seq!['.'] + dec_padded(t % pow10(3), 3);
        lemma_padded_digits(t % pow10(3), 3);
        assert(tail.skip(1) =~= dec_padded(t % pow10(3), 3));
        lemma_numeric(v.negative(), q, tail);
        assert((if v.negative() {
            seq!['-']
        } else {
            seq![]
        }) + dec(q) + tail =~= fixed(v, 3));
        lemma_read_numeric(fixed(v, 3), rest);
    } else {
        lemma_read_null(rest);
    }
}

proof fn lemma_read_json_optional(v: Option<Binary64>, rest: Seq<char>)
    requires
        ends_number(rest),
    ensures
        json_value(json_optional(v) + rest) == Some((optional_value(v), rest)),
{
    match v {
        Some(v) => lemma_read_json_number(v, rest),
        None => lemma_read_null(rest),
    }
}

// -------------------------------------------------------------- objects --

/// Whether `text` is read as `value` wherever it is not the front of a longer
/// number.
#[verifier::opaque]
spec fn readable(text: Seq<char>, value: Json) -> bool {
    forall|rest: Seq<char>|
        ends_number(rest) ==> #[trigger] json_value(text + rest) == Some((value, rest))
}

proof fn lemma_readable_dec(n: nat)
    ensures
        readable(dec(n), Json::Number(dec(n))),
{
    reveal(readable);
    assert forall|rest: Seq<char>| ends_number(rest) implies #[trigger] json_value(dec(n) + rest) == Some(
        (Json::Number(dec(n)), rest),
    ) by {
        lemma_read_dec(n, rest);
    }
}

proof fn lemma_readable_dec_int(n: int)
    ensures
        readable(dec_int(n), Json::Number(dec_int(n))),
{
    reveal(readable);
    assert forall|rest: Seq<char>| ends_number(rest) implies #[trigger] json_value(dec_int(n) + rest)
        == Some((Json::Number(dec_int(n)), rest)) by {
        lemma_read_dec_int(n, rest);
    }
}

proof fn lemma_readable_number(v: Binary64)
    ensures
        readable(json_number(v), number_value(v)),
{
    reveal(readable);
    assert forall|rest: Seq<char>| ends_number(rest) implies #[trigger] json_value(json_number(v) + rest)
        == Some((number_value(v), rest)) by {
        lemma_read_json_number(v, rest);
    }
}

proof fn lemma_readable_optional(v: Option<Binary64>)
    ensures
        readable(json_optional(v), optional_value(v)),
{
    reveal(readable);
    assert forall|rest: Seq<char>| ends_number(rest) implies #[trigger] json_value(
        json_optional(v) + rest,
    ) == Some((optional_value(v), rest)) by {
        lemma_read_json_optional(v, rest);
    }
}

proof fn lemma_readable_string(s: Seq<char>)
    ensures
        readable(json_string(s), Json::Text(s)),
{
    reveal(readable);
    assert forall|rest: Seq<char>| ends_number(rest) implies #[trigger] json_value(json_string(s) + rest)
        == Some((Json::Text(s), rest)) by {
        law_json_strings_read_back(s, rest);
    }
}

/// Whether no character of `s` is escaped in a JSON string.
spec fn unescaped(s: Seq<char>) -> bool {
    forall|i: int|
        0 <= i < s.len() ==> (#[trigger] s[i]) as nat >= 0x20 && s[i] != '"' && s[i] != '\\'
}

proof fn lemma_unescaped(s: Seq<char>)
    requires
        unescaped(s),
    ensures
        escaped_all(s) == s,
    decreases s.len(),
{
    if s.len() > 0 {
        lemma_unescaped(s.drop_last());
        assert(s[s.len() - 1] == s.last());
        assert(escaped_all(s) =~= s);
    }
}

/// A member of an object: its key, its text and what that is read as.
struct Member {
    key: Seq<char>,
    text: Seq<char>,
    value: Json,
}

impl Member {
    /// Whether the key needs no escape and the text is read as the value.
    spec fn fits(self) -> bool {
        unescaped(self.key) && readable(self.text, self.value)
    }
}

/// The front of a member: what separates it, its key and the colon.
spec fn front(separator: char, key: Seq<char>) -> Seq<char> {
    seq![separator, '"'] + key + seq!['"', ':']
}

/// The text of an object up to its closing brace.
spec fn opened(ms: Seq<Member>) -> Seq<char>
    decreases ms.len(),
{
    if ms.len() == 0 {
        seq![]
    } else if ms.len() == 1 {
        front('{', ms[0].key) + ms[0].text
    } else {
        opened(ms.drop_last()) + front(',', ms.last().key) + ms.last().text
    }
}

/// What an object with these members is read as.
spec fn pairs(ms: Seq<Member>) -> Seq<(Seq<char>, Json)> {
    Seq::new(ms.len(), |i: int| (ms[i].key, ms[i].value))
}

/// What is read of an object that goes on with `rest` after these members.
spec fn members_and(ms: Seq<(Seq<char>, Json)>, rest: Seq<char>) -> Option<
    (Seq<(Seq<char>, Json)>, Seq<char>),
> {
    if rest.len() == 0 {
        None
    } else if rest[0] == '}' {
        Some((ms, rest.skip(1)))
    } else if rest[0] == ',' {
        match json_members(rest.skip(1)) {
            Some((more, after)) => Some((ms + more, after)),
            None => None,
        }
    } else {
        None
    }
}

proof fn lemma_member(separator: char, m: Member, rest: Seq<char>)
    requires
        m.fits(),
        ends_number(rest),
    ensures
        ({
            let t = front(separator, m.key) + m.text + rest;
            &&& t.len() > 1
            &&& t[0] == separator
            &&& t[1] == '"'
            &&& json_members(t.skip(1)) == members_and(seq![(m.key, m.value)], rest)
        }),
{
    let t = front(separator, m.key) + m.text + rest;
    let w = m.text + rest;
    let colon = seq![':'] + w;
    reveal(readable);
    lemma_unescaped(m.key);
    law_json_strings_read_back(m.key, colon);
    assert(json_value(w) == Some((m.value, rest)));
    let u = t.skip(1);
    assert(u =~= json_string(m.key) + colon);
    assert(u[0] == '"');
    assert(json_read(u.skip(1)) == Some((m.key, colon)));
    assert(colon.skip(1) =~= w);
    assert(t[0] == separator && t[1] == '"');
}

proof fn lemma_members(ms: Seq<Member>, rest: Seq<char>)
    requires
        ms.len() > 0,
        forall|i: int| 0 <= i < ms.len() ==> (#[trigger] ms[i]).fits(),
        ends_number(rest),
    ensures
        ({
            let t = opened(ms) + rest;
            &&& t.len() > 1
            &&& t[0] == '{'
            &&& t[1] == '"'
            &&& json_members(t.skip(1)) == members_and(pairs(ms), rest)
        }),
    decreases ms.len(),
{
    let last = ms.last();
    assert(last == ms[ms.len() - 1]);
    if ms.len() == 1 {
        lemma_member('{', last, rest);
        assert(pairs(ms) =~= seq![(last.key, last.value)]);
    } else {
        let less = ms.drop_last();
        let next = front(',', last.key) + last.text + rest;
        lemma_member(',', last, rest);
        assert forall|i: int| 0 <= i < less.len() implies (#[trigger] less[i]).fits() by {
            assert(less[i] == ms[i]);
        }
        lemma_members(less, next);
        assert(opened(ms) + rest =~= opened(less) + next);
        lemma_pairs(ms, rest);
    }
}

proof fn lemma_pairs(ms: Seq<Member>, rest: Seq<char>)
    requires
        ms.len() > 0,
    ensures
        ({
            let last = ms.last();
            let less = pairs(ms.drop_last());
            members_and(pairs(ms), rest) == match members_and(seq![(last.key, last.value)], rest) {
                Some((more, after)) => Some((less + more, after)),
                None => None,
            }
        }),
{
    let last = ms.last();
    let less = pairs(ms.drop_last());
    let one = seq![(last.key, last.value)];
    assert(pairs(ms) =~= less + one);
    if rest.len() > 0 && rest[0] == ',' && json_members(rest.skip(1)) is Some {
        let more = (json_members(rest.skip(1))->0).0;
        assert(less + one + more =~= less + (one + more));
    }
}

/// An object is read as its members.
proof fn lemma_object(ms: Seq<Member>, rest: Seq<char>)
    requires
        ms.len() > 0,
        forall|i: int| 0 <= i < ms.len() ==> (#[trigger] ms[i]).fits(),
    ensures
        json_value(opened(ms) + "}"@ + rest) == Some((Json::Object(pairs(ms)), rest)),
{
    reveal_strlit("}");
    let end = "}"@ + rest;
    lemma_members(ms, end);
    assert(opened(ms) + "}"@ + rest =~= opened(ms) + end);
    assert(end.skip(1) =~= rest);
}

proof fn lemma_one_more_member(ms: Seq<Member>, m: Member)
    requires
        ms.len() > 0,
    ensures
        opened(ms.push(m)) == opened(ms) + front(',', m.key) + m.text,
{
    assert(ms.push(m).drop_last() =~= ms);
}

/// What the object of a process is read as.
pub open spec fn process_object(p: ProcRateView) -> Json {
    Json::Object(
        seq![
            ("pid"@, Json::Number(dec_int(p.pid as int))),
            ("ppid"@, Json::Number(dec_int(p.ppid as int))),
            ("comm"@, Json::Text(p.comm)),
            ("cpu_pct"@, number_value(p.cpu_pct)),
            ("rss"@, Json::Number(dec(p.rss_bytes as nat))),
            ("threads"@, Json::Number(dec_int(p.threads as int))),
            ("read_bps"@, optional_value(p.read_bps)),
            ("write_bps"@, optional_value(p.write_bps)),
        ],
    )
}

/// The members of the object of a process.
spec fn process_members(p: ProcRateView) -> Seq<Member> {
    seq![
        Member {
            key: "pid"@,
            text: dec_int(p.pid as int),
            value: Json::Number(dec_int(p.pid as int)),
        },
        Member {
            key: "ppid"@,
            text: dec_int(p.ppid as int),
            value: Json::Number(dec_int(p.ppid as int)),
        },
        Member { key: "comm"@, text: json_string(p.comm), value: Json::Text(p.comm) },
        Member { key: "cpu_pct"@, text: json_number(p.cpu_pct), value: number_value(p.cpu_pct) },
        Member {
            key: "rss"@,
            text: dec(p.rss_bytes as nat),
            value: Json::Number(dec(p.rss_bytes as nat)),
        },
        Member {
            key: "threads"@,
            text: dec_int(p.threads as int),
            value: Json::Number(dec_int(p.threads as int)),
        },
        Member {
            key: "read_bps"@,
            text: json_optional(p.read_bps),
            value: optional_value(p.read_bps),
        },
        Member {
            key: "write_bps"@,
            text: json_optional(p.write_bps),
            value: optional_value(p.write_bps),
        },
    ]
}

proof fn lemma_process_fits(p: ProcRateView)
    ensures
        forall|i: int| 0 <= i < process_members(p).len() ==> (#[trigger] process_members(p)[i]).fits(),
        Json::Object(pairs(process_members(p))) == process_object(p),
{
    reveal_strlit("pid");
    lemma_readable_dec_int(p.pid as int);
    reveal_strlit("ppid");
    lemma_readable_dec_int(p.ppid as int);
    reveal_strlit("comm");
    lemma_readable_string(p.comm);
    reveal_strlit("cpu_pct");
    lemma_readable_number(p.cpu_pct);
    reveal_strlit("rss");
    lemma_readable_dec(p.rss_bytes as nat);
    reveal_strlit("threads");
    lemma_readable_dec_int(p.threads as int);
    reveal_strlit("read_bps");
    lemma_readable_optional(p.read_bps);
    reveal_strlit("write_bps");
    lemma_readable_optional(p.write_bps);
    let ms = process_members(p);
    assert(ms[0].fits());
    assert(ms[1].fits());
    assert(ms[2].fits());
    assert(ms[3].fits());
    assert(ms[4].fits());
    assert(ms[5].fits());
    assert(ms[6].fits());
    assert(ms[7].fits());
    assert(pairs(ms) =~= process_object(p)->Object_0);
}

proof fn lemma_process_text(p: ProcRateView)
    ensures
        json_process(p) == opened(process_members(p)) + "}"@,
{
    let ms = process_members(p);
    assert("{\"pid\":"@ == front('{', "pid"@)) by {
        reveal_strlit("pid");
        reveal_strlit("{\"pid\":");
        assert("{\"pid\":"@ =~= front('{', "pid"@));
    }
    assert(",\"ppid\":"@ == front(',', "ppid"@)) by {
        reveal_strlit("ppid");
        reveal_strlit(",\"ppid\":");
        assert(",\"ppid\":"@ =~= front(',', "ppid"@));
    }
    assert(",\"comm\":"@ == front(',', "comm"@)) by {
        reveal_strlit("comm");
        reveal_strlit(",\"comm\":");
        assert(",\"comm\":"@ =~= front(',', "comm"@));
    }
    assert(",\"cpu_pct\":"@ == front(',', "cpu_pct"@)) by {
        reveal_strlit("cpu_pct");
        reveal_strlit(",\"cpu_pct\":");
        assert(",\"cpu_pct\":"@ =~= front(',', "cpu_pct"@));
    }
    assert(",\"rss\":"@ == front(',', "rss"@)) by {
        reveal_strlit("rss");
        reveal_strlit(",\"rss\":");
        assert(",\"rss\":"@ =~= front(',', "rss"@));
    }
    assert(",\"threads\":"@ == front(',', "threads"@)) by {
        reveal_strlit("threads");
        reveal_strlit(",\"threads\":");
        assert(",\"threads\":"@ =~= front(',', "threads"@));
    }
    assert(",\"read_bps\":"@ == front(',', "read_bps"@)) by {
        reveal_strlit("read_bps");
        reveal_strlit(",\"read_bps\":");
        assert(",\"read_bps\":"@ =~= front(',', "read_bps"@));
    }
    assert(",\"write_bps\":"@ == front(',', "write_bps"@)) by {
        reveal_strlit("write_bps");
        reveal_strlit(",\"write_bps\":");
        assert(",\"write_bps\":"@ =~= front(',', "write_bps"@));
    }
    let s1 = seq![ms[0]];
    let s2 = s1.push(ms[1]);
    lemma_one_more_member(s1, ms[1]);
    let s3 = s2.push(ms[2]);
    lemma_one_more_member(s2, ms[2]);
    let s4 = s3.push(ms[3]);
    lemma_one_more_member(s3, ms[3]);
    let s5 = s4.push(ms[4]);
    lemma_one_more_member(s4, ms[4]);
    let s6 = s5.push(ms[5]);
    lemma_one_more_member(s5, ms[5]);
    let s7 = s6.push(ms[6]);
    lemma_one_more_member(s6, ms[6]);
    let s8 = s7.push(ms[7]);
    lemma_one_more_member(s7, ms[7]);
    assert(ms =~= s8);
}

proof fn lemma_read_process(p: ProcRateView, rest: Seq<char>)
    ensures
        json_value(json_process(p) + rest) == Some((process_object(p), rest)),
{
    lemma_process_fits(p);
    lemma_process_text(p);
    lemma_object(process_members(p), rest);
}

/// What the object of an active alert is read as.
pub open spec fn alert_object(a: AlertView) -> Json {
    Json::Object(
        seq![
            ("rule"@, Json::Text(a.0)),
            ("subject"@, Json::Text(a.1)),
            ("firing_secs"@, number_value(secs_real(a.2.nanos as nat))),
        ],
    )
}

/// The members of the object of an active alert.
spec fn alert_members(a: AlertView) -> Seq<Member> {
    seq![
        Member { key: "rule"@, text: json_string(a.0), value: Json::Text(a.0) },
        Member { key: "subject"@, text: json_string(a.1), value: Json::Text(a.1) },
        Member {
            key: "firing_secs"@,
            text: json_number(secs_real(a.2.nanos as nat)),
            value: number_value(secs_real(a.2.nanos as nat)),
        },
    ]
}

proof fn lemma_alert_fits(a: AlertView)
    ensures
        forall|i: int| 0 <= i < alert_members(a).len() ==> (#[trigger] alert_members(a)[i]).fits(),
        Json::Object(pairs(alert_members(a))) == alert_object(a),
{
    reveal_strlit("rule");
    lemma_readable_string(a.0);
    reveal_strlit("subject");
    lemma_readable_string(a.1);
    reveal_strlit("firing_secs");
    lemma_readable_number(secs_real(a.2.nanos as nat));
    let ms = alert_members(a);
    assert(ms[0].fits());
    assert(ms[1].fits());
    assert(ms[2].fits());
    assert(pairs(ms) =~= alert_object(a)->Object_0);
}

proof fn lemma_alert_text(a: AlertView)
    ensures
        json_alert(a) == opened(alert_members(a)) + "}"@,
{
    let ms = alert_members(a);
    assert("{\"rule\":"@ == front('{', "rule"@)) by {
        reveal_strlit("rule");
        reveal_strlit("{\"rule\":");
        assert("{\"rule\":"@ =~= front('{', "rule"@));
    }
    assert(",\"subject\":"@ == front(',', "subject"@)) by {
        reveal_strlit("subject");
        reveal_strlit(",\"subject\":");
        assert(",\"subject\":"@ =~= front(',', "subject"@));
    }
    assert(",\"firing_secs\":"@ == front(',', "firing_secs"@)) by {
        reveal_strlit("firing_secs");
        reveal_strlit(",\"firing_secs\":");
        assert(",\"firing_secs\":"@ =~= front(',', "firing_secs"@));
    }
    let s1 = seq![ms[0]];
    let s2 = s1.push(ms[1]);
    lemma_one_more_member(s1, ms[1]);
    let s3 = s2.push(ms[2]);
    lemma_one_more_member(s2, ms[2]);
    assert(ms =~= s3);
}

proof fn lemma_read_alert(a: AlertView, rest: Seq<char>)
    ensures
        json_value(json_alert(a) + rest) == Some((alert_object(a), rest)),
{
    lemma_alert_fits(a);
    lemma_alert_text(a);
    lemma_object(alert_members(a), rest);
}

/// What the object of the system is read as.
pub open spec fn system_object(sys: SystemRateView) -> Json {
    Json::Object(
        seq![
            ("cpu_pct"@, number_value(sys.cpu_pct)),
            ("mem_pct"@, number_value(sys.mem.used_percent())),
            ("mem_used"@, Json::Number(dec(sys.mem.used_bytes()))),
            ("mem_total"@, Json::Number(dec(sys.mem.total as nat))),
            ("net_rx_bps"@, number_value(sys.net_rx_bps)),
            ("net_tx_bps"@, number_value(sys.net_tx_bps)),
            ("proc_count"@, Json::Number(dec(sys.proc_count as nat))),
            ("vanished"@, Json::Number(dec(sys.vanished as nat))),
            ("scan_micros"@, Json::Number(dec((sys.scan_time.nanos / 1_000) as nat))),
        ],
    )
}

/// The members of the object of the system.
spec fn system_members(sys: SystemRateView) -> Seq<Member> {
    seq![
        Member {
            key: "cpu_pct"@,
            text: json_number(sys.cpu_pct),
            value: number_value(sys.cpu_pct),
        },
        Member {
            key: "mem_pct"@,
            text: json_number(sys.mem.used_percent()),
            value: number_value(sys.mem.used_percent()),
        },
        Member {
            key: "mem_used"@,
            text: dec(sys.mem.used_bytes()),
            value: Json::Number(dec(sys.mem.used_bytes())),
        },
        Member {
            key: "mem_total"@,
            text: dec(sys.mem.total as nat),
            value: Json::Number(dec(sys.mem.total as nat)),
        },
        Member {
            key: "net_rx_bps"@,
            text: json_number(sys.net_rx_bps),
            value: number_value(sys.net_rx_bps),
        },
        Member {
            key: "net_tx_bps"@,
            text: json_number(sys.net_tx_bps),
            value: number_value(sys.net_tx_bps),
        },
        Member {
            key: "proc_count"@,
            text: dec(sys.proc_count as nat),
            value: Json::Number(dec(sys.proc_count as nat)),
        },
        Member {
            key: "vanished"@,
            text: dec(sys.vanished as nat),
            value: Json::Number(dec(sys.vanished as nat)),
        },
        Member {
            key: "scan_micros"@,
            text: dec((sys.scan_time.nanos / 1_000) as nat),
            value: Json::Number(dec((sys.scan_time.nanos / 1_000) as nat)),
        },
    ]
}

proof fn lemma_system_fits(sys: SystemRateView)
    ensures
        forall|i: int| 0 <= i < system_members(sys).len() ==> (#[trigger] system_members(sys)[i]).fits(),
        Json::Object(pairs(system_members(sys))) == system_object(sys),
{
    reveal_strlit("cpu_pct");
    lemma_readable_number(sys.cpu_pct);
    reveal_strlit("mem_pct");
    lemma_readable_number(sys.mem.used_percent());
    reveal_strlit("mem_used");
    lemma_readable_dec(sys.mem.used_bytes());
    reveal_strlit("mem_total");
    lemma_readable_dec(sys.mem.total as nat);
    reveal_strlit("net_rx_bps");
    lemma_readable_number(sys.net_rx_bps);
    reveal_strlit("net_tx_bps");
    lemma_readable_number(sys.net_tx_bps);
    reveal_strlit("proc_count");
    lemma_readable_dec(sys.proc_count as nat);
    reveal_strlit("vanished");
    lemma_readable_dec(sys.vanished as nat);
    reveal_strlit("scan_micros");
    lemma_readable_dec((sys.scan_time.nanos / 1_000) as nat);
    let ms = system_members(sys);
    assert(ms[0].fits());
    assert(ms[1].fits());
    assert(ms[2].fits());
    assert(ms[3].fits());
    assert(ms[4].fits());
    assert(ms[5].fits());
    assert(ms[6].fits());
    assert(ms[7].fits());
    assert(ms[8].fits());
    assert(pairs(ms) =~= system_object(sys)->Object_0);
}

/// A key in quotes and its colon.
spec fn quoted(key: Seq<char>) -> Seq<char> {
    seq!['"'] + key + seq!['"', ':']
}

proof fn lemma_one_more_of(h: Seq<char>, ms: Seq<Member>, m: Member)
    requires
        ms.len() > 0,
    ensures
        h + opened(ms) + ","@ + quoted(m.key) + m.text == h + opened(ms.push(m)),
{
    reveal_strlit(",");
    lemma_one_more_member(ms, m);
    assert(h + opened(ms) + ","@ + quoted(m.key) + m.text =~= h + opened(ms.push(m)));
}

proof fn lemma_system_text(sys: SystemRateView)
    ensures
        json_system(sys) == front('{', "system"@) + opened(system_members(sys)) + "}"@,
{
    let h = front('{', "system"@);
    let ms = system_members(sys);
    assert("\"cpu_pct\":"@ == quoted("cpu_pct"@)) by {
        reveal_strlit("cpu_pct");
        reveal_strlit("\"cpu_pct\":");
        assert("\"cpu_pct\":"@ =~= quoted("cpu_pct"@));
    }
    assert("\"mem_pct\":"@ == quoted("mem_pct"@)) by {
        reveal_strlit("mem_pct");
        reveal_strlit("\"mem_pct\":");
        assert("\"mem_pct\":"@ =~= quoted("mem_pct"@));
    }
    assert("\"mem_used\":"@ == quoted("mem_used"@)) by {
        reveal_strlit("mem_used");
        reveal_strlit("\"mem_used\":");
        assert("\"mem_used\":"@ =~= quoted("mem_used"@));
    }
    assert("\"mem_total\":"@ == quoted("mem_total"@)) by {
        reveal_strlit("mem_total");
        reveal_strlit("\"mem_total\":");
        assert("\"mem_total\":"@ =~= quoted("mem_total"@));
    }
    assert("\"net_rx_bps\":"@ == quoted("net_rx_bps"@)) by {
        reveal_strlit("net_rx_bps");
        reveal_strlit("\"net_rx_bps\":");
        assert("\"net_rx_bps\":"@ =~= quoted("net_rx_bps"@));
    }
    assert("\"net_tx_bps\":"@ == quoted("net_tx_bps"@)) by {
        reveal_strlit("net_tx_bps");
        reveal_strlit("\"net_tx_bps\":");
        assert("\"net_tx_bps\":"@ =~= quoted("net_tx_bps"@));
    }
    assert("\"proc_count\":"@ == quoted("proc_count"@)) by {
        reveal_strlit("proc_count");
        reveal_strlit("\"proc_count\":");
        assert("\"proc_count\":"@ =~= quoted("proc_count"@));
    }
    assert("\"vanished\":"@ == quoted("vanished"@)) by {
        reveal_strlit("vanished");
        reveal_strlit("\"vanished\":");
        assert("\"vanished\":"@ =~= quoted("vanished"@));
    }
    assert("\"scan_micros\":"@ == quoted("scan_micros"@)) by {
        reveal_strlit("scan_micros");
        reveal_strlit("\"scan_micros\":");
        assert("\"scan_micros\":"@ =~= quoted("scan_micros"@));
    }
    let s1 = seq![ms[0]];
    assert("{\"system\":{"@ + quoted("cpu_pct"@) + ms[0].text == h + opened(s1)) by {
        reveal_strlit("{\"system\":{");
        reveal_strlit("system");
        assert("{\"system\":{"@ =~= h + seq!['{']);
        assert("{\"system\":{"@ + quoted("cpu_pct"@) + ms[0].text =~= h + opened(s1));
    }
    let s2 = s1.push(ms[1]);
    lemma_one_more_of(h, s1, ms[1]);
    let s3 = s2.push(ms[2]);
    lemma_one_more_of(h, s2, ms[2]);
    let s4 = s3.push(ms[3]);
    lemma_one_more_of(h, s3, ms[3]);
    let s5 = s4.push(ms[4]);
    lemma_one_more_of(h, s4, ms[4]);
    let s6 = s5.push(ms[5]);
    lemma_one_more_of(h, s5, ms[5]);
    let s7 = s6.push(ms[6]);
    lemma_one_more_of(h, s6, ms[6]);
    let s8 = s7.push(ms[7]);
    lemma_one_more_of(h, s7, ms[7]);
    let s9 = s8.push(ms[8]);
    lemma_one_more_of(h, s8, ms[8]);
    assert(ms =~= s9);
}

// ---------------------------------------------------------------- lists --

/// The text of a list of values with commas between.
spec fn bracketed(text: Seq<char>) -> Seq<char> {
    seq!['['] + text + seq![']']
}

/// What is read of a list that goes on with `rest` after these values.
spec fn items_and(vs: Seq<Json>, rest: Seq<char>) -> Option<(Seq<Json>, Seq<char>)> {
    if rest.len() == 0 {
        None
    } else if rest[0] == ']' {
        Some((vs, rest.skip(1)))
    } else if rest[0] == ',' {
        match json_items(rest.skip(1)) {
            Some((more, after)) => Some((vs + more, after)),
            None => None,
        }
    } else {
        None
    }
}

/// One more value of a list, whose text follows a comma.
proof fn lemma_one_more_item(vs: Seq<Json>, text: Seq<char>, v: Json, rest: Seq<char>)
    requires
        json_value(text + rest) == Some((v, rest)),
    ensures
        json_items(text + rest) == items_and(seq![v], rest),
        items_and(vs, ","@ + (text + rest)) == items_and(vs.push(v), rest),
{
    reveal_strlit(",");
    let t = ","@ + (text + rest);
    assert(t.skip(1) =~= text + rest);
    assert(vs + seq![v] =~= vs.push(v));
    if rest.len() > 0 && rest[0] == ',' && json_items(rest.skip(1)) is Some {
        let more = (json_items(rest.skip(1))->0).0;
        assert(vs + (seq![v] + more) =~= vs.push(v) + more);
    }
}

/// What the objects of processes are read as.
pub open spec fn process_objects(v: Seq<ProcRateView>) -> Seq<Json> {
    Seq::new(v.len(), |i: int| process_object(v[i]))
}

#[verifier::rlimit(40)]
proof fn lemma_read_processes(v: Seq<ProcRateView>, rest: Seq<char>)
    requires
        v.len() > 0,
    ensures
        json_items(json_processes(v) + rest) == items_and(process_objects(v), rest),
    decreases v.len(),
{
    let less = v.drop_last();
    let last = json_process(v.last());
    lemma_read_process(v.last(), rest);
    lemma_one_more_item(process_objects(less), last, process_object(v.last()), rest);
    assert(process_objects(v) =~= process_objects(less).push(process_object(v.last())));
    if v.len() == 1 {
        reveal_strlit("");
        assert(json_processes(less) =~= Seq::<char>::empty());
        assert(json_processes(v) =~= last);
        assert(process_objects(v) =~= seq![process_object(v.last())]);
    } else {
        lemma_read_processes(less, ","@ + (last + rest));
        assert(json_processes(v) + rest =~= json_processes(less) + (","@ + (last + rest)));
    }
}

/// What the objects of active alerts are read as.
pub open spec fn alert_objects(v: Seq<AlertView>) -> Seq<Json> {
    Seq::new(v.len(), |i: int| alert_object(v[i]))
}

proof fn lemma_read_alerts(v: Seq<AlertView>, rest: Seq<char>)
    requires
        v.len() > 0,
    ensures
        json_items(json_alerts(v) + rest) == items_and(alert_objects(v), rest),
    decreases v.len(),
{
    let less = v.drop_last();
    let last = json_alert(v.last());
    lemma_read_alert(v.last(), rest);
    lemma_one_more_item(alert_objects(less), last, alert_object(v.last()), rest);
    assert(alert_objects(v) =~= alert_objects(less).push(alert_object(v.last())));
    if v.len() == 1 {
        reveal_strlit("");
        assert(json_alerts(less) =~= Seq::<char>::empty());
        assert(json_alerts(v) =~= last);
        assert(alert_objects(v) =~= seq![alert_object(v.last())]);
    } else {
        lemma_read_alerts(less, ","@ + (last + rest));
        assert(json_alerts(v) + rest =~= json_alerts(less) + (","@ + (last + rest)));
    }
}

proof fn lemma_no_value_in_brackets(t: Seq<char>)
    requires
        t.len() > 0,
        t[0] == ']',
    ensures
        json_value(t) is None,
{
    if t.len() >= 4 {
        assert(t.take(4)[0] == ']');
    }
    let none = t.take(0);
    assert(span(t, number_chars()) == 0);
    assert(span(none, digits()) == 0);
}

/// A list is read as its values.
proof fn lemma_list(text: Seq<char>, vs: Seq<Json>)
    requires
        text.len() == 0 && vs.len() == 0 || forall|rest: Seq<char>| #[trigger]
            json_items(text + rest) == items_and(vs, rest),
    ensures
        readable(bracketed(text), Json::List(vs)),
{
    reveal(readable);
    let all = bracketed(text);
    assert forall|rest: Seq<char>| ends_number(rest) implies #[trigger] json_value(all + rest) == Some(
        (Json::List(vs), rest),
    ) by {
        let t = all + rest;
        let end = seq![']'] + rest;
        assert(t.skip(1) =~= text + end);
        assert(end.skip(1) =~= rest);
        assert(t[0] == '[');
        if text.len() == 0 {
            assert(t.skip(2) =~= rest);
        }
        if text.len() == 0 && vs.len() == 0 {
            assert(vs =~= seq![]);
            assert(t[1] == ']');
        } else {
            assert(json_items(text + end) == items_and(vs, end));
            if t[1] == ']' {
                lemma_no_value_in_brackets(text + end);
            }
        }
    }
}

// ----------------------------------------------------------- the object --

/// What the object of a snapshot is read as.
pub open spec fn json_object(snap: SnapshotView, alerts: Seq<AlertView>, top: nat) -> Json {
    Json::Object(
        seq![
            ("system"@, system_object(snap.system)),
            ("procs"@, Json::List(process_objects(at_most(snap.procs, top)))),
            ("alerts"@, Json::List(alert_objects(alerts))),
        ],
    )
}

/// The text of the object of the system.
#[verifier::opaque]
spec fn system_text(sys: SystemRateView) -> Seq<char> {
    opened(system_members(sys)) + "}"@
}

proof fn lemma_read_system(sys: SystemRateView)
    ensures
        json_system(sys) == front('{', "system"@) + system_text(sys),
        readable(system_text(sys), system_object(sys)),
{
    reveal(system_text);
    reveal(readable);
    lemma_system_fits(sys);
    lemma_system_text(sys);
    let ms = system_members(sys);
    assert(front('{', "system"@) + opened(ms) + "}"@ =~= front('{', "system"@) + system_text(sys));
    assert forall|rest: Seq<char>| ends_number(rest) implies #[trigger] json_value(
        system_text(sys) + rest,
    ) == Some((system_object(sys), rest)) by {
        lemma_object(ms, rest);
    }
}

proof fn lemma_processes_readable(v: Seq<ProcRateView>)
    ensures
        readable(bracketed(json_processes(v)), Json::List(process_objects(v))),
{
    if v.len() > 0 {
        assert forall|rest: Seq<char>| #[trigger] json_items(json_processes(v) + rest) == items_and(
            process_objects(v),
            rest,
        ) by {
            lemma_read_processes(v, rest);
        }
    }
    lemma_list(json_processes(v), process_objects(v));
}

proof fn lemma_alerts_readable(v: Seq<AlertView>)
    ensures
        readable(bracketed(json_alerts(v)), Json::List(alert_objects(v))),
{
    if v.len() > 0 {
        assert forall|rest: Seq<char>| #[trigger] json_items(json_alerts(v) + rest) == items_and(
            alert_objects(v),
            rest,
        ) by {
            lemma_read_alerts(v, rest);
        }
    }
    lemma_list(json_alerts(v), alert_objects(v));
}

proof fn lemma_outer_text(system: Seq<char>, procs: Seq<char>, alerts: Seq<char>)
    ensures
        front('{', "system"@) + system + ",\"procs\":["@ + procs + "],\"alerts\":["@ + alerts + "]}"@
            == front('{', "system"@) + system + front(',', "procs"@) + bracketed(procs) + front(
            ',',
            "alerts"@,
        ) + bracketed(alerts) + "}"@,
{
    let h = front('{', "system"@) + system;
    let p = front(',', "procs"@);
    let a = front(',', "alerts"@);
    assert(",\"procs\":["@ =~= p + seq!['[']) by {
        reveal_strlit(",\"procs\":[");
        reveal_strlit("procs");
    }
    assert("],\"alerts\":["@ =~= seq![']'] + a + seq!['[']) by {
        reveal_strlit("],\"alerts\":[");
        reveal_strlit("alerts");
    }
    assert("]}"@ =~= seq![']'] + "}"@) by {
        reveal_strlit("]}");
        reveal_strlit("}");
    }
    let b = h + (p + seq!['[']) + procs;
    assert(b + seq![']'] =~= h + p + bracketed(procs));
    assert(b + (seq![']'] + a + seq!['[']) =~= b + seq![']'] + a + seq!['[']);
    let c = b + seq![']'] + a;
    assert(c + seq!['['] + alerts + (seq![']'] + "}"@) =~= c + bracketed(alerts) + "}"@);
}

proof fn lemma_outer_object(system: Member, procs: Member, alerts: Member, after: Seq<char>)
    requires
        system.key == "system"@,
        procs.key == "procs"@,
        alerts.key == "alerts"@,
        readable(system.text, system.value),
        readable(procs.text, procs.value),
        readable(alerts.text, alerts.value),
    ensures
        json_value(
            front('{', "system"@) + system.text + front(',', "procs"@) + procs.text + front(
                ',',
                "alerts"@,
            ) + alerts.text + "}"@ + after,
        ) == Some(
            (
                Json::Object(
                    seq![
                        ("system"@, system.value),
                        ("procs"@, procs.value),
                        ("alerts"@, alerts.value),
                    ],
                ),
                after,
            ),
        ),
{
    reveal_strlit("system");
    reveal_strlit("procs");
    reveal_strlit("alerts");
    assert(system.fits() && procs.fits() && alerts.fits());
    let s1 = seq![system];
    let s2 = s1.push(procs);
    let ms = s2.push(alerts);
    lemma_one_more_member(s1, procs);
    lemma_one_more_member(s2, alerts);
    lemma_object(ms, after);
    assert(pairs(ms) =~= seq![
        ("system"@, system.value),
        ("procs"@, procs.value),
        ("alerts"@, alerts.value),
    ]);
}

/// The object of a snapshot is JSON: a reader makes exactly one object of it,
/// with the members `system`, `procs` and `alerts`, and every name and number in
/// its place, whatever the processes and the rules are called and whatever
/// follows.
pub proof fn law_the_object_reads_back(
    snap: SnapshotView,
    alerts: Seq<AlertView>,
    top: nat,
    after: Seq<char>,
)
    ensures
        json_value(json_view(snap, alerts, top) + after) == Some(
            (json_object(snap, alerts, top), after),
        ),
{
    let procs = at_most(snap.procs, top);
    lemma_read_system(snap.system);
    lemma_processes_readable(procs);
    lemma_alerts_readable(alerts);
    lemma_outer_text(system_text(snap.system), json_processes(procs), json_alerts(alerts));
    lemma_outer_object(
        Member {
            key: "system"@,
            text: system_text(snap.system),
            value: system_object(snap.system),
        },
        Member {
            key: "procs"@,
            text: bracketed(json_processes(procs)),
            value: Json::List(process_objects(procs)),
        },
        Member {
            key: "alerts"@,
            text: bracketed(json_alerts(alerts)),
            value: Json::List(alert_objects(alerts)),
        },
        after,
    );
}

/// The object of a snapshot is one line: it holds no line break nor any other
/// control character, whatever the processes and the rules are called.
pub proof fn law_the_object_is_one_line(snap: SnapshotView, alerts: Seq<AlertView>, top: nat, i: int)
    requires
        0 <= i < json_view(snap, alerts, top).len(),
    ensures
        json_view(snap, alerts, top)[i] as nat >= 0x20,
{
    let t = json_view(snap, alerts, top);
    law_the_object_reads_back(snap, alerts, top, seq![]);
    assert(t + Seq::<char>::empty() =~= t);
    law_json_has_no_control_characters(t, i);
}

/// Every field of a snapshot stands in its object under its own key: those of the
/// system, those of the processes that are shown, in order and at most `top` of
/// them, and those of every active alert. A number that is not finite, or not
/// known, is `null`.
#[verifier::rlimit(60)]
pub proof fn law_every_field_has_its_key(snap: SnapshotView, alerts: Seq<AlertView>, top: nat, i: int, j: int)
    ensures
        ({
            let number = |v: Binary64|
                if v.is_finite() {
                    Json::Number(fixed(v, 3))
                } else {
                    Json::Null
                };
            let known = |v: Option<Binary64>|
                if v is Some && v->0.is_finite() {
                    Json::Number(fixed(v->0, 3))
                } else {
                    Json::Null
                };
            let sys = snap.system;
            let read = json_value(json_view(snap, alerts, top));
            &&& read is Some
            &&& (read->0).1.len() == 0
            &&& (read->0).0 is Object
            &&& ({
                let ms = (read->0).0->Object_0;
                &&& ms.len() == 3
                &&& ms[0] == (
                    "system"@,
                    Json::Object(
                        seq![
                            ("cpu_pct"@, number(sys.cpu_pct)),
                            ("mem_pct"@, number(sys.mem.used_percent())),
                            ("mem_used"@, Json::Number(dec(sys.mem.used_bytes()))),
                            ("mem_total"@, Json::Number(dec(sys.mem.total as nat))),
                            ("net_rx_bps"@, number(sys.net_rx_bps)),
                            ("net_tx_bps"@, number(sys.net_tx_bps)),
                            ("proc_count"@, Json::Number(dec(sys.proc_count as nat))),
                            ("vanished"@, Json::Number(dec(sys.vanished as nat))),
                            ("scan_micros"@, Json::Number(dec((sys.scan_time.nanos / 1_000) as nat))),
                        ],
                    ),
                )
                &&& ms[1].0 == "procs"@ && ms[1].1 is List
                &&& ms[2].0 == "alerts"@ && ms[2].1 is List
                &&& ms[1].1->List_0.len() == if snap.procs.len() <= top {
                    snap.procs.len()
                } else {
                    top
                }
                &&& ms[2].1->List_0.len() == alerts.len()
                &&& 0 <= i < ms[1].1->List_0.len() ==> ms[1].1->List_0[i] == Json::Object(
                    seq![
                        ("pid"@, Json::Number(dec_int(snap.procs[i].pid as int))),
                        ("ppid"@, Json::Number(dec_int(snap.procs[i].ppid as int))),
                        ("comm"@, Json::Text(snap.procs[i].comm)),
                        ("cpu_pct"@, number(snap.procs[i].cpu_pct)),
                        ("rss"@, Json::Number(dec(snap.procs[i].rss_bytes as nat))),
                        ("threads"@, Json::Number(dec_int(snap.procs[i].threads as int))),
                        ("read_bps"@, known(snap.procs[i].read_bps)),
                        ("write_bps"@, known(snap.procs[i].write_bps)),
                    ],
                )
                &&& 0 <= j < alerts.len() ==> ms[2].1->List_0[j] == Json::Object(
                    seq![
                        ("rule"@, Json::Text(alerts[j].0)),
                        ("subject"@, Json::Text(alerts[j].1)),
                        ("firing_secs"@, number(secs_real(alerts[j].2.nanos as nat))),
                    ],
                )
            })
        }),
{
    let t = json_view(snap, alerts, top);
    law_the_object_reads_back(snap, alerts, top, seq![]);
    assert(t + Seq::<char>::empty() =~= t);
}

} // verus!
