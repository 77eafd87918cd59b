use vstd::prelude::*;
use vstd::string::{StrSliceExecFns, StringExecFns};

verus! {

/// The UTF-16 code units of one character: itself below 0x10000, a pair of
/// surrogates above.
pub open spec fn utf16_of_char(c: char) -> Seq<u16> {
    let v = c as u32;
    if v < 0x10000 {
        seq![v as u16]
    } else {
        seq![(0xD800 + (v - 0x10000) / 1024) as u16, (0xDC00 + (v - 0x10000) % 1024) as u16]
    }
}

/// The UTF-16 code units of a string.
pub open spec fn utf16_of(s: Seq<char>) -> Seq<u16>
    decreases s.len(),
{
    if s.len() == 0 {
        Seq::empty()
    } else {
        utf16_of_char(s[0]) + utf16_of(s.drop_first())
    }
}

/// A code unit is one half of a surrogate pair.
pub open spec fn is_surrogate(u: u16) -> bool {
    0xD800 <= u <= 0xDFFF
}

/// `hi` and `lo` are a leading and a trailing surrogate, which together stand
/// for one character.
pub open spec fn is_pair(hi: u16, lo: u16) -> bool {
    0xD800 <= hi <= 0xDBFF && 0xDC00 <= lo <= 0xDFFF
}

/// The character that a pair of surrogates stands for.
pub open spec fn paired(hi: u16, lo: u16) -> char {
    (0x10000 + (hi - 0xD800) * 1024 + (lo - 0xDC00)) as char
}

/// The string that a sequence of UTF-16 code units stands for, with U+FFFD in
/// place of each surrogate that has no partner.
pub open spec fn utf16_lossy(u: Seq<u16>) -> Seq<char>
    decreases u.len(),
{
    if u.len() == 0 {
        Seq::empty()
    } else if !is_surrogate(u[0]) {
        seq![u[0] as char] + utf16_lossy(u.skip(1))
    } else if u.len() >= 2 && is_pair(u[0], u[1]) {
        seq![paired(u[0], u[1])] + utf16_lossy(u.skip(2))
    } else {
        seq!['\u{FFFD}'] + utf16_lossy(u.skip(1))
    }
}

/// Calls `char::from_u32`. Trusted: the result is the character with the
/// given number where that number is a Unicode scalar value, and `None` on a
/// surrogate or above 0x10FFFF.
#[verifier::external_body]
pub(crate) fn char_from_u32(v: u32) -> (r: Option<char>)
    ensures
        r is Some <==> (v < 0xD800 || (0xE000 <= v && v <= 0x10FFFF)),
        r is Some ==> r->Some_0 as u32 == v,
{
    char::from_u32(v)
}

/// Calls `String::from_iter` on a vector of characters. Trusted: the string
/// holds those characters in their order.
#[verifier::external_body]
pub(crate) fn string_from_chars(chars: Vec<char>) -> (r: String)
    ensures
        r@ == chars@,
{
    String::from_iter(chars)
}

/// Encodes a string as UTF-16.
pub fn encode_utf16(s: &str) -> (r: Vec<u16>)
    ensures
        r@ == utf16_of(s@),
{
    let n: usize = s.unicode_len();
    let mut out: Vec<u16> = Vec::new();
    let mut i: usize = 0;
    assert(s@.skip(0) =~= s@);
    while i < n
        invariant
            i <= n,
            n == s@.len(),
            utf16_of(s@) == out@ + utf16_of(s@.skip(i as int)),
        decreases n - i,
    {
        let c: char = s.get_char(i);
        let v: u32 = c as u32;
        proof {
            let rest = s@.skip(i as int);
            assert(rest[0] == c);
            assert(rest.drop_first() =~= s@.skip(i + 1));
        }
        let ghost before = out@;
        if v < 0x10000 {
            out.push(v as u16);
        } else {
            let w: u32 = v - 0x10000;
            out.push((0xD800 + w / 1024) as u16);
            out.push((0xDC00 + w % 1024) as u16);
        }
        assert(out@ =~= before + utf16_of_char(c));
        assert(out@ + utf16_of(s@.skip(i + 1)) =~= before + (utf16_of_char(c) + utf16_of(
            s@.skip(i + 1),
        )));
        i = i + 1;
    }
    assert(utf16_of(s@.skip(n as int)) =~= Seq::<u16>::empty());
    assert(out@ + Seq::<u16>::empty() =~= out@);
    out
}

/// Decodes UTF-16, putting U+FFFD in place of each surrogate without a partner.
pub fn decode_utf16_lossy(units: &[u16]) -> (r: Vec<char>)
    ensures
        r@ == utf16_lossy(units@),
{
    let n: usize = units.len();
    let mut out: Vec<char> = Vec::new();
    let mut i: usize = 0;
    assert(units@.skip(0) =~= units@);
    while i < n
        invariant
            i <= n,
            n == units@.len(),
            utf16_lossy(units@) == out@ + utf16_lossy(units@.skip(i as int)),
        decreases n - i,
    {
        let u: u16 = units[i];
        let ghost rest = units@.skip(i as int);
        let ghost before = out@;
        assert(rest[0] == u);
        if u < 0xD800 || u > 0xDFFF {
            let c: char = match char_from_u32(u as u32) {
                Some(c) => c,
                None => '\u{FFFD}',
            };
            proof {
                vstd::utf8::char_u32_cast(c, u as u32);
                assert(c == u as char);
                assert(rest.skip(1) =~= units@.skip(i + 1));
            }
            out.push(c);
            assert(out@ + utf16_lossy(units@.skip(i + 1)) =~= before + (seq![u as char]
                + utf16_lossy(rest.skip(1))));
            i = i + 1;
        } else if u <= 0xDBFF && i + 1 < n && 0xDC00 <= units[i + 1] && units[i + 1] <= 0xDFFF {
            let lo: u16 = units[i + 1];
            assert(rest[1] == lo);
            let v: u32 = 0x10000 + (u as u32 - 0xD800) * 1024 + (lo as u32 - 0xDC00);
            let c: char = match char_from_u32(v) {
                Some(c) => c,
                None => '\u{FFFD}',
            };
            proof {
                vstd::utf8::char_u32_cast(c, v);
                assert(c == paired(u, lo));
                assert(rest.skip(2) =~= units@.skip(i + 2));
            }
            out.push(c);
            assert(out@ + utf16_lossy(units@.skip(i + 2)) =~= before + (seq![paired(u, lo)]
                + utf16_lossy(rest.skip(2))));
            i = i + 2;
        } else {
            proof {
                assert(rest.skip(1) =~= units@.skip(i + 1));
                if rest.len() >= 2 {
                    assert(rest[1] == units@[i + 1]);
                }
            }
            out.push('\u{FFFD}');
            assert(out@ + utf16_lossy(units@.skip(i + 1)) =~= before + (seq!['\u{FFFD}']
                + utf16_lossy(rest.skip(1))));
            i = i + 1;
        }
    }
    assert(utf16_lossy(units@.skip(n as int)) =~= Seq::<char>::empty());
    assert(out@ + Seq::<char>::empty() =~= out@);
    out
}

/// Decoding what was encoded gives the string again.
pub proof fn lemma_utf16_round_trip(s: Seq<char>)
    ensures
        utf16_lossy(utf16_of(s)) == s,
    decreases s.len(),
{
    if s.len() > 0 {
        let c = s[0];
        let rest = s.drop_first();
        let head = utf16_of_char(c);
        let all = utf16_of(s);
        lemma_utf16_round_trip(rest);
        vstd::utf8::char_is_scalar(c);
        let v = c as u32;
        if v < 0x10000 {
            assert(all.skip(1) =~= utf16_of(rest));
            vstd::utf8::char_u32_cast(c, v);
            assert((v as u16) as char == c);
            assert(utf16_lossy(all) =~= s);
        } else {
            assert(all.skip(2) =~= utf16_of(rest));
            vstd::utf8::char_u32_cast(c, v);
            assert(0x10000 + (all[0] - 0xD800) * 1024 + (all[1] - 0xDC00) == v);
            assert(paired(all[0], all[1]) == c);
            assert(utf16_lossy(all) =~= s);
        }
    }
}

/// The number that stands for a character when the case of ASCII letters is
/// not to count: that of the small letter for a capital A to Z, else its own.
pub open spec fn ascii_folded(c: char) -> u32 {
    let v = c as u32;
    if 0x41 <= v <= 0x5A {
        (v + 32) as u32
    } else {
        v
    }
}

/// Two strings are equal but for the case of their ASCII letters.
pub open spec fn same_ignoring_ascii_case(a: Seq<char>, b: Seq<char>) -> bool {
    &&& a.len() == b.len()
    &&& forall|i: int| 0 <= i < a.len() ==> ascii_folded(#[trigger] a[i]) == ascii_folded(b[i])
}

/// A name that matches one of two names which differ in the case of ASCII
/// letters alone matches the other.
pub proof fn lemma_same_names_match_alike(x: Seq<char>, n: Seq<char>, m: Seq<char>)
    requires
        same_ignoring_ascii_case(n, m),
    ensures
        same_ignoring_ascii_case(x, n) == same_ignoring_ascii_case(x, m),
{
    if same_ignoring_ascii_case(x, n) {
        assert forall|i: int| 0 <= i < x.len() implies ascii_folded(#[trigger] x[i])
            == ascii_folded(m[i]) by {
            assert(ascii_folded(n[i]) == ascii_folded(m[i]));
        }
    }
    if same_ignoring_ascii_case(x, m) {
        assert forall|i: int| 0 <= i < x.len() implies ascii_folded(#[trigger] x[i])
            == ascii_folded(n[i]) by {
            assert(ascii_folded(n[i]) == ascii_folded(m[i]));
        }
    }
}

/// Two names that a third matches differ in the case of ASCII letters alone.
pub proof fn lemma_matched_names_are_same(x: Seq<char>, n: Seq<char>, m: Seq<char>)
    requires
        same_ignoring_ascii_case(x, n),
        same_ignoring_ascii_case(x, m),
    ensures
        same_ignoring_ascii_case(n, m),
{
    assert forall|i: int| 0 <= i < n.len() implies ascii_folded(#[trigger] n[i]) == ascii_folded(
        m[i],
    ) by {
        assert(ascii_folded(x[i]) == ascii_folded(n[i]));
        assert(ascii_folded(x[i]) == ascii_folded(m[i]));
    }
}

/// The number of a character with the case of an ASCII letter folded away.
fn fold_ascii(c: char) -> (r: u32)
    ensures
        r == ascii_folded(c),
{
    let v: u32 = c as u32;
    if 0x41 <= v && v <= 0x5A {
        v + 32
    } else {
        v
    }
}

/// Compares two strings without regard to the case of ASCII letters.
pub fn eq_ignore_ascii_case(a: &str, b: &str) -> (r: bool)
    ensures
        r == same_ignoring_ascii_case(a@, b@),
{
    let n: usize = a.unicode_len();
    if n != b.unicode_len() {
        return false;
    }
    let mut i: usize = 0;
    while i < n
        invariant
            i <= n,
            n == a@.len(),
            n == b@.len(),
            forall|j: int| 0 <= j < i ==> ascii_folded(#[trigger] a@[j]) == ascii_folded(b@[j]),
        decreases n - i,
    {
        if fold_ascii(a.get_char(i)) != fold_ascii(b.get_char(i)) {
            return false;
        }
        i = i + 1;
    }
    true
}


/// The string that `String::from_utf8_lossy` makes of a sequence of bytes.
pub uninterp spec fn utf8_lossy(bytes: Seq<u8>) -> Seq<char>;

/// What `str::trim_end` leaves of a string.
pub uninterp spec fn without_trailing_whitespace(s: Seq<char>) -> Seq<char>;

/// Calls `String::from_utf8_lossy`. Trusted: the result depends on the bytes alone.
#[verifier::external_body]
pub(crate) fn from_utf8_lossy(bytes: &[u8]) -> (r: String)
    ensures
        r@ == utf8_lossy(bytes@),
{
    String::from_utf8_lossy(bytes).into_owned()
}

/// Calls `str::trim_end`. Trusted: the result depends on the string alone.
#[verifier::external_body]
pub(crate) fn trim_end(s: &str) -> (r: &str)
    ensures
        r@ == without_trailing_whitespace(s@),
{
    s.trim_end()
}

/// The text of a short name: its first 8 bytes and its last 3, each read as
/// UTF-8 and without the whitespace at its end, with a `.` between them where
/// the second part is not empty.
pub open spec fn short_name_text(name: Seq<u8>) -> Seq<char> {
    let base = without_trailing_whitespace(utf8_lossy(name.subrange(0, 8)));
    let ext = without_trailing_whitespace(utf8_lossy(name.subrange(8, 11)));
    if ext.len() == 0 {
        base
    } else {
        base + seq!['.'] + ext
    }
}

/// The text of an 11-byte short name.
pub fn short_name_string(name: &[u8; 11]) -> (r: String)
    ensures
        r@ == short_name_text(name@),
{
    let bytes: &[u8] = name.as_slice();
    let name_str: String = from_utf8_lossy(vstd::slice::slice_subrange(bytes, 0, 8));
    let ext_str: String = from_utf8_lossy(vstd::slice::slice_subrange(bytes, 8, 11));
    let name_trimmed: &str = trim_end(name_str.as_str());
    let ext_trimmed: &str = trim_end(ext_str.as_str());
    if ext_trimmed.unicode_len() == 0 {
        String::from_str(name_trimmed)
    } else {
        proof {
            reveal_strlit(".");
            assert("."@ =~= seq!['.']);
        }
        String::from_str(name_trimmed).concat(".").concat(ext_trimmed)
    }
}

} // verus!
