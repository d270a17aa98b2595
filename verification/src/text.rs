//! String operations that vstd leaves unspecified: `str::trim` behind a trusted wrapper
//! with its documented behavior, and prefix, substring and equality tests verified here.
use vstd::prelude::*;
use vstd::string::StringSliceAdditionalSpecFns;

verus! {

/// Unicode `White_Space`, the property `char::is_whitespace` and `str::trim` use.
pub open spec fn is_unicode_whitespace(c: char) -> bool {
    let v = c as u32;
    ||| 0x09 <= v <= 0x0d
    ||| v == 0x20
    ||| v == 0x85
    ||| v == 0xa0
    ||| v == 0x1680
    ||| 0x2000 <= v <= 0x200a
    ||| v == 0x2028
    ||| v == 0x2029
    ||| v == 0x202f
    ||| v == 0x205f
    ||| v == 0x3000
}

/// `s` without its leading whitespace.
pub open spec fn trim_start_chars(s: Seq<char>) -> Seq<char>
    decreases s.len(),
{
    if s.len() > 0 && is_unicode_whitespace(s[0]) {
        trim_start_chars(s.drop_first())
    } else {
        s
    }
}

/// `s` without its trailing whitespace.
pub open spec fn trim_end_chars(s: Seq<char>) -> Seq<char>
    decreases s.len(),
{
    if s.len() > 0 && is_unicode_whitespace(s.last()) {
        trim_end_chars(s.drop_last())
    } else {
        s
    }
}

/// `s` without leading and trailing whitespace.
pub open spec fn trim_chars(s: Seq<char>) -> Seq<char> {
    trim_end_chars(trim_start_chars(s))
}

/// Whether `s` begins with `p`.
pub open spec fn starts_with_chars(s: Seq<char>, p: Seq<char>) -> bool {
    p.len() <= s.len() && s.subrange(0, p.len() as int) == p
}

/// Whether `p` occurs somewhere in `s`.
pub open spec fn contains_chars(s: Seq<char>, p: Seq<char>) -> bool {
    exists|i: int| 0 <= i && i + p.len() <= s.len() && #[trigger] s.subrange(i, i + p.len()) == p
}

/// `str::trim`: the string with leading and trailing Unicode white space removed.
#[verifier::external_body]
pub(crate) fn trim(s: &str) -> (r: &str)
    ensures
        r@ == trim_chars(s@),
{
    s.trim()
}

/// The rest of `s` after `prefix` if `s` begins with it, `None` otherwise, as
/// `str::strip_prefix` gives with a string prefix.
pub(crate) fn strip_prefix<'a>(s: &'a str, prefix: &str) -> (r: Option<&'a str>)
    ensures
        match r {
            Some(t) => starts_with_chars(s@, prefix@) && t@ == s@.subrange(
                prefix@.len() as int,
                s@.len() as int,
            ),
            None => !starts_with_chars(s@, prefix@),
        },
{
    if starts_with(s, prefix) {
        Some(s.substring_char(prefix.unicode_len(), s.unicode_len()))
    } else {
        None
    }
}

/// Whether `s` begins with `prefix`, as `str::starts_with` with a string pattern.
pub(crate) fn starts_with(s: &str, prefix: &str) -> (r: bool)
    ensures
        r == starts_with_chars(s@, prefix@),
{
    let n = prefix.unicode_len();
    if n > s.unicode_len() {
        return false;
    }
    str_equal(s.substring_char(0, n), prefix)
}

/// Whether `pattern` occurs in `s`, as `str::contains` with a string pattern.
pub(crate) fn contains(s: &str, pattern: &str) -> (r: bool)
    ensures
        r == contains_chars(s@, pattern@),
{
    let n = pattern.unicode_len();
    let len = s.unicode_len();
    if n > len {
        return false;
    }
    if n == 0 {
        assert(s@.subrange(0int, 0int + pattern@.len()) =~= pattern@);
        return true;
    }
    let mut i: usize = 0;
    while i <= len - n
        invariant
            n == pattern@.len(),
            len == s@.len(),
            0 < n <= len,
            i <= len - n + 1,
            forall|j: int| 0 <= j < i ==> #[trigger] s@.subrange(j, j + n) != pattern@,
        decreases len - n + 1 - i,
    {
        if str_equal(s.substring_char(i, i + n), pattern) {
            assert(s@.subrange(i as int, i + pattern@.len()) == pattern@);
            return true;
        }
        i = i + 1;
    }
    proof {
        assert forall|j: int| 0 <= j && j + pattern@.len() <= s@.len() implies #[trigger] s@.subrange(
            j,
            j + pattern@.len(),
        ) != pattern@ by {
            assert(j < i);
        }
    }
    false
}

/// Whether two strings hold the same characters.
pub fn str_equal(a: &str, b: &str) -> (r: bool)
    ensures
        r == (a@ == b@),
{
    let ab = a.as_bytes();
    let bb = b.as_bytes();
    if ab.len() != bb.len() {
        proof {
            if a@ == b@ {
                assert(a.spec_bytes() == b.spec_bytes());
            }
        }
        return false;
    }
    let mut i: usize = 0;
    while i < ab.len()
        invariant
            i <= ab@.len(),
            ab@.len() == bb@.len(),
            ab@ == a.spec_bytes(),
            bb@ == b.spec_bytes(),
            forall|k: int| 0 <= k < i ==> ab@[k] == bb@[k],
        decreases ab@.len() - i,
    {
        if ab[i] != bb[i] {
            proof {
                if a@ == b@ {
                    assert(a.spec_bytes() == b.spec_bytes());
                }
            }
            return false;
        }
        i = i + 1;
    }
    assert(ab@ =~= bb@);
    proof {
        vstd::utf8::encode_utf8_decode_utf8(a@);
        vstd::utf8::encode_utf8_decode_utf8(b@);
    }
    true
}

} // verus!
