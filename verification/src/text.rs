//! Character-level text helpers: building strings from letter sequences
//! and ASCII case folding for dictionary normalization.

use vstd::prelude::*;
use vstd::string::StrSliceExecFns;

verus! {

/// Relies on `String: FromIterator<char>`: collecting chars yields the
/// string of exactly those characters in order.
#[verifier::external_body]
pub fn chars_to_string(chars: &Vec<char>) -> (s: String)
    ensures
        s@ == chars@,
{
    chars.iter().collect()
}

/// ASCII upper-casing of one character; everything else is unchanged.
pub open spec fn spec_upper_char(c: char) -> char {
    if 97 <= c as u32 <= 122 {
        (((c as u32) - 32) as u8) as char
    } else {
        c
    }
}

/// A character sequence with every ASCII letter upper-cased.
pub open spec fn spec_upper(s: Seq<char>) -> Seq<char> {
    s.map_values(|c: char| spec_upper_char(c))
}

fn upper_char(c: char) -> (r: char)
    ensures
        r == spec_upper_char(c),
{
    let code: u32 = c as u32;
    if 97 <= code && code <= 122 {
        proof {
            vstd::utf8::char_u32_cast(c, code);
        }
        ((code - 32) as u8) as char
    } else {
        c
    }
}

/// The string with every ASCII letter upper-cased; other characters are
/// kept as they are.
pub fn to_uppercase_ascii(s: &str) -> (r: String)
    ensures
        r@ == spec_upper(s@),
{
    let length: usize = s.unicode_len();
    let mut chars: Vec<char> = Vec::new();
    let mut i: usize = 0;
    while i < length
        invariant
            length == s@.len(),
            i <= length,
            chars@ =~= spec_upper(s@.take(i as int)),
        decreases length - i,
    {
        let c = s.get_char(i);
        chars.push(upper_char(c));
        i = i + 1;
        proof {
            assert(s@.take(i as int).drop_last() =~= s@.take(i as int - 1));
            assert(s@.take(i as int).last() == s@[i as int - 1]);
            assert(chars@ =~= spec_upper(s@.take(i as int)));
        }
    }
    proof {
        assert(s@.take(s@.len() as int) =~= s@);
    }
    chars_to_string(&chars)
}

} // verus!
