//! What becomes of single characters, at the ends of a text and inside JSON.

use vstd::prelude::*;

use crate::binary64::{law_whole_numbers_are_finite, of_int, Binary64};
use crate::decimal::fixed;
use crate::figures::law_whole_numbers_are_written_out;
use crate::numbers::dec;
use crate::render::{escaped_all, json_number, json_optional, json_string};
use crate::text::{is_space, trim, trim_end, trim_start};

verus! {

/// A code point that stands for white space.
pub open spec fn is_white(n: int) -> bool {
    9 <= n <= 13 || n == 32 || n == 0x85 || n == 0xa0 || n == 0x1680 || 0x2000 <= n <= 0x200a || n == 0x2028 || n
        == 0x2029 || n == 0x202f || n == 0x205f || n == 0x3000
}

/// White space at either end of a text is taken away; a character that is none
/// stays.
pub proof fn law_white_space_is_trimmed(s: Seq<char>, c: char)
    ensures
        is_white(c as int) ==> trim(seq![c] + s) == trim(s),
        is_white(c as int) ==> trim(s.push(c)) == trim(s),
        !is_white(c as int) ==> trim(seq![c]) == seq![c],
        !is_white(c as int) ==> trim(seq![c] + s)[0] == c,
        !is_white(c as int) ==> trim(s.push(c)).last() == c,
{
    let front = seq![c] + s;
    let back = s.push(c);
    assert(is_white(c as int) == is_space(c));
    if is_white(c as int) {
        assert(front.skip(1) =~= s);
        lemma_end_is_trimmed(s, c);
    } else {
        assert(trim_start(front) == front);
        lemma_front_stays(front);
        lemma_back_stays(s, c);
    }
}

proof fn lemma_end_is_trimmed(s: Seq<char>, c: char)
    requires
        is_space(c),
    ensures
        trim(s.push(c)) == trim(s),
    decreases s.len(),
{
    let back = s.push(c);
    if s.len() == 0 {
        assert(back.skip(1) =~= s);
    } else if is_space(s[0]) {
        assert(back[0] == s[0]);
        assert(back.skip(1) =~= s.skip(1).push(c));
        lemma_end_is_trimmed(s.skip(1), c);
    } else {
        assert(back[0] == s[0]);
        assert(back.drop_last() =~= s);
    }
}

proof fn lemma_front_stays(s: Seq<char>)
    requires
        s.len() > 0,
        !is_space(s[0]),
    ensures
        trim_end(s).len() > 0,
        trim_end(s)[0] == s[0],
    decreases s.len(),
{
    if is_space(s.last()) {
        assert(s.len() > 1);
        assert(s.drop_last()[0] == s[0]);
        lemma_front_stays(s.drop_last());
    }
}

proof fn lemma_back_stays(s: Seq<char>, c: char)
    requires
        !is_space(c),
    ensures
        trim(s.push(c)).last() == c,
    decreases s.len(),
{
    let back = s.push(c);
    if s.len() > 0 && is_space(s[0]) {
        assert(back[0] == s[0]);
        assert(back.skip(1) =~= s.skip(1).push(c));
        lemma_back_stays(s.skip(1), c);
    } else {
        assert(s.len() > 0 ==> back[0] == s[0]);
        assert(back.last() == c);
    }
}

/// A digit of a hexadecimal number, in lower case.
pub open spec fn small_hex(d: int) -> char {
    if d < 10 {
        ('0' as int + d) as char
    } else {
        ('a' as int + (d - 10)) as char
    }
}

/// Every character of a text stands in its JSON string once, behind those
/// before it: quotes, backslashes, ends of lines and tabs behind a backslash,
/// other control characters as four digits, and any other one as it is.
pub proof fn law_each_character_is_written_once(s: Seq<char>, c: char)
    ensures
        json_string(Seq::<char>::empty()) == "\"\""@,
        json_string(s.push(c)) == json_string(s).drop_last() + (if c == '"' {
            "\\\""@
        } else if c == '\\' {
            "\\\\"@
        } else if c == '\n' {
            "\\n"@
        } else if c == '\r' {
            "\\r"@
        } else if c == '\t' {
            "\\t"@
        } else if ' ' > c {
            "\\u00"@.push(small_hex(c as int / 16)).push(small_hex(c as int % 16))
        } else {
            Seq::<char>::empty().push(c)
        }) + "\""@,
{
    reveal_strlit("\"\"");
    reveal_strlit("\\\"");
    reveal_strlit("\\\\");
    reveal_strlit("\\n");
    reveal_strlit("\\r");
    reveal_strlit("\\t");
    reveal_strlit("\\u00");
    reveal_strlit("\"");
    assert(json_string(Seq::<char>::empty()) =~= "\"\""@);
    assert(s.push(c).drop_last() =~= s);
    assert(json_string(s).drop_last() =~= seq!['"'] + escaped_all(s));
}

/// A number in JSON has three digits after the point. One that is unknown, or
/// not finite, is null.
pub proof fn law_json_numbers_have_three_decimals(n: nat, v: Binary64)
    requires
        n < 0x20_0000_0000_0000,
    ensures
        json_number(of_int(n as int)) == dec(n) + ".000"@,
        v.is_finite() ==> json_number(v) == fixed(v, 3),
        !v.is_finite() ==> json_number(v) == "null"@,
        json_optional(Some(v)) == json_number(v),
        json_optional(None) == "null"@,
{
    law_whole_numbers_are_finite(n);
    law_whole_numbers_are_written_out(n);
    reveal_strlit(".000");
    assert(seq!['.', '0', '0', '0'] =~= ".000"@);
}

} // verus!
