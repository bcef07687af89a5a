use vstd::prelude::*;
use vstd::utf8::{decode_utf8, valid_utf8};

verus! {

/// The characters of `s`, in order.
pub fn str_chars(s: &str) -> (v: Vec<char>)
    ensures
        v@ == s@,
{
    let mut v: Vec<char> = Vec::new();
    for c in it: s.chars()
        invariant
            it.seq() == s@,
            v@ == s@.subrange(0, it.index() as int),
    {
        v.push(c);
        proof {
            assert(v@ =~= s@.subrange(0, it.index() + 1));
        }
    }
    proof {
        assert(s@.subrange(0, s@.len() as int) =~= s@);
    }
    v
}

/// `String::from_iter` over characters (std): the text made of `cs`.
///
/// Trusted: the text holds exactly the characters of `cs`, in order.
#[verifier::external_body]
pub(crate) fn string_from_chars(cs: &[char]) -> (s: String)
    ensures
        s@ == cs@,
{
    String::from_iter(cs.iter())
}

/// `std::str::from_utf8`: the bytes as text when they are valid UTF-8;
/// otherwise the error's `valid_up_to`.
///
/// Trusted: `Ok` exactly when the bytes are valid UTF-8 as vstd defines it,
/// and then the text is their decoding; on an error, `valid_up_to` is, as
/// its documentation says, the largest index whose prefix is valid UTF-8.
#[verifier::external_body]
pub(crate) fn str_from_utf8(bytes: &[u8]) -> (r: Result<&str, usize>)
    ensures
        r is Ok <==> valid_utf8(bytes@),
        r matches Ok(s) ==> s@ == decode_utf8(bytes@),
        r matches Err(k) ==> k <= bytes@.len() && valid_utf8(bytes@.subrange(0, k as int))
            && forall|j: int| k < j <= bytes@.len() ==> !valid_utf8(#[trigger] bytes@.subrange(0, j)),
{
    match std::str::from_utf8(bytes) {
        Ok(s) => Ok(s),
        Err(e) => Err(e.valid_up_to()),
    }
}

/// The decoding of UTF-16 code units: a unit outside the surrogate range is
/// the character of that value; a high surrogate (0xD800-0xDBFF) followed by
/// a low surrogate (0xDC00-0xDFFF) is the character
/// `0x10000 + (high - 0xD800) * 0x400 + (low - 0xDC00)`; any other surrogate
/// makes the decoding fail.
pub open spec fn utf16_decode(u: Seq<u16>) -> Option<Seq<char>>
    decreases u.len(),
{
    if u.len() == 0 {
        Some(Seq::empty())
    } else if 0xD800 <= u[0] <= 0xDBFF {
        if u.len() >= 2 && 0xDC00 <= u[1] <= 0xDFFF {
            match utf16_decode(u.subrange(2, u.len() as int)) {
                Some(r) => Some(
                    seq![(0x10000 + (u[0] - 0xD800) * 0x400 + (u[1] - 0xDC00)) as char] + r,
                ),
                None => None,
            }
        } else {
            None
        }
    } else if 0xDC00 <= u[0] <= 0xDFFF {
        None
    } else {
        match utf16_decode(u.drop_first()) {
            Some(r) => Some(seq![u[0] as char] + r),
            None => None,
        }
    }
}

/// `String::from_utf16` (std): the text that UTF-16 code units encode.
///
/// Trusted: the result is `utf16_decode` of the units.
#[verifier::external_body]
pub(crate) fn string_from_utf16(units: &[u16]) -> (r: Option<String>)
    ensures
        r is Some <==> utf16_decode(units@) is Some,
        r matches Some(s) ==> s@ == utf16_decode(units@)->0,
{
    String::from_utf16(units).ok()
}

/// Whether `c` is white space as `char::is_whitespace` defines it (the
/// Unicode `White_Space` property).
pub open spec fn is_white_space(c: char) -> bool {
    let v = c as u32;
    ||| 0x09 <= v <= 0x0D
    ||| v == 0x20
    ||| v == 0x85
    ||| v == 0xA0
    ||| v == 0x1680
    ||| 0x2000 <= v <= 0x200A
    ||| v == 0x2028
    ||| v == 0x2029
    ||| v == 0x202F
    ||| v == 0x205F
    ||| v == 0x3000
}

/// `cs` without its trailing white space.
pub open spec fn trim_end(cs: Seq<char>) -> Seq<char>
    decreases cs.len(),
{
    if cs.len() > 0 && is_white_space(cs.last()) {
        trim_end(cs.drop_last())
    } else {
        cs
    }
}

/// Whether `c` is white space.
pub fn white_space(c: char) -> (b: bool)
    ensures
        b == is_white_space(c),
{
    let v = c as u32;
    (0x09 <= v && v <= 0x0D) || v == 0x20 || v == 0x85 || v == 0xA0 || v == 0x1680 || (0x2000
        <= v && v <= 0x200A) || v == 0x2028 || v == 0x2029 || v == 0x202F || v == 0x205F || v
        == 0x3000
}

/// The characters of `s` without trailing white space, as `str::trim_end`
/// gives them.
pub fn trimmed_chars(s: &str) -> (v: Vec<char>)
    ensures
        v@ == trim_end(s@),
{
    let mut v = str_chars(s);
    while v.len() > 0 && white_space(v[v.len() - 1])
        invariant
            trim_end(v@) == trim_end(s@),
        decreases v@.len(),
    {
        let ghost before = v@;
        v.pop();
        proof {
            assert(v@ =~= before.drop_last());
        }
    }
    v
}

} // verus!
