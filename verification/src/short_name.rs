use vstd::prelude::*;

verus! {

/// The index of the last `.` among `u`, or -1 where there is none.
pub open spec fn last_dot(u: Seq<u8>) -> int
    decreases u.len(),
{
    if u.len() == 0 {
        -1
    } else if u.last() == 0x2E {
        u.len() - 1
    } else {
        last_dot(u.drop_last())
    }
}

/// The part of an upper-cased name before its last `.`, the whole where it has none.
pub open spec fn base_part(u: Seq<u8>) -> Seq<u8> {
    if last_dot(u) < 0 {
        u
    } else {
        u.subrange(0, last_dot(u))
    }
}

/// The part of an upper-cased name after its last `.`, nothing where it has none.
pub open spec fn ext_part(u: Seq<u8>) -> Seq<u8> {
    if last_dot(u) < 0 {
        Seq::empty()
    } else {
        u.subrange(last_dot(u) + 1, u.len() as int)
    }
}

/// The 11 bytes of the short name made from the bytes of an upper-cased name:
/// up to 8 bytes of the base, then up to 3 bytes of the extension, each part
/// filled up with spaces.
pub open spec fn short_name_of(u: Seq<u8>) -> Seq<u8> {
    Seq::new(
        11,
        |i: int|
            if i < 8 {
                if i < base_part(u).len() {
                    base_part(u)[i]
                } else {
                    0x20u8
                }
            } else {
                if i - 8 < ext_part(u).len() {
                    ext_part(u)[i - 8]
                } else {
                    0x20u8
                }
            },
    )
}

/// The upper-case form of a string, as `str::to_uppercase` gives it.
pub uninterp spec fn uppercase(s: Seq<char>) -> Seq<char>;

/// Calls `str::to_uppercase`. Trusted: the result is the upper-case form of the
/// argument, which depends on the argument alone.
#[verifier::external_body]
pub(crate) fn to_uppercase(s: &str) -> (r: String)
    ensures
        r@ == uppercase(s@),
{
    s.to_uppercase()
}

/// What is known of `last_dot`: it points at a `.` after which none follows.
pub proof fn lemma_last_dot(u: Seq<u8>)
    ensures
        -1 <= last_dot(u) < u.len(),
        last_dot(u) >= 0 ==> u[last_dot(u)] == 0x2E,
        forall|j: int| last_dot(u) < j < u.len() ==> u[j] != 0x2E,
    decreases u.len(),
{
    if u.len() > 0 && u.last() != 0x2E {
        let v = u.drop_last();
        lemma_last_dot(v);
        assert forall|j: int| last_dot(u) < j < u.len() implies u[j] != 0x2E by {
            if j < v.len() {
                assert(v[j] == u[j]);
            }
        }
    }
}

/// The index that points at a `.` after which none follows is `last_dot`.
pub proof fn lemma_last_dot_is(u: Seq<u8>, d: int)
    requires
        -1 <= d < u.len(),
        d >= 0 ==> u[d] == 0x2E,
        forall|j: int| d < j < u.len() ==> u[j] != 0x2E,
    ensures
        last_dot(u) == d,
{
    lemma_last_dot(u);
}

/// Makes the short name from the bytes of an upper-cased name.
pub fn short_name_from_upper(upper: &[u8]) -> (r: [u8; 11])
    ensures
        r@ == short_name_of(upper@),
{
    let len: usize = upper.len();
    let mut dot: usize = len;
    let mut i: usize = len;
    while i > 0
        invariant_except_break
            dot == len,
        invariant
            i <= len,
            len == upper@.len(),
            forall|j: int| i <= j < len ==> upper@[j] != 0x2E,
        ensures
            i <= len,
            dot <= len,
            dot < len ==> upper@[dot as int] == 0x2E,
            dot == len ==> i == 0,
            forall|j: int| (if dot < len { dot + 1 } else { 0 }) <= j < len ==> upper@[j] != 0x2E,
        decreases i,
    {
        if upper[i - 1] == 0x2E {
            dot = i - 1;
            break ;
        }
        i = i - 1;
    }
    proof {
        lemma_last_dot_is(upper@, if dot < len { dot as int } else { -1 });
    }
    let base_len: usize = if dot < len {
        dot
    } else {
        len
    };
    let ext_start: usize = if dot < len {
        dot + 1
    } else {
        len
    };
    let ghost base = base_part(upper@);
    let ghost ext = ext_part(upper@);
    assert(base =~= upper@.subrange(0, base_len as int));
    assert(ext =~= upper@.subrange(ext_start as int, len as int));
    let mut short_name: [u8; 11] = [0x20u8; 11];
    let mut k: usize = 0;
    while k < 8 && k < base_len
        invariant
            k <= 8,
            k <= base_len <= len,
            len == upper@.len(),
            forall|j: int| 0 <= j < k ==> short_name@[j] == upper@[j],
            forall|j: int| k <= j < 11 ==> short_name@[j] == 0x20,
        decreases 8 - k,
    {
        short_name[k] = upper[k];
        k = k + 1;
    }
    let mut m: usize = 0;
    while m < 3 && ext_start + m < len
        invariant
            m <= 3,
            ext_start <= len,
            ext_start + m <= len,
            len == upper@.len(),
            forall|j: int| 0 <= j < 8 ==> short_name@[j] == short_name_of(upper@)[j],
            forall|j: int| 8 <= j < 8 + m ==> short_name@[j] == upper@[ext_start + j - 8],
            forall|j: int| 8 + m <= j < 11 ==> short_name@[j] == 0x20,
        decreases 3 - m,
    {
        short_name[8 + m] = upper[ext_start + m];
        m = m + 1;
    }
    assert(short_name@ =~= short_name_of(upper@));
    short_name
}

/// Makes the 11-byte short name for a long name: the name in upper case, up
/// to 8 bytes before its last `.` and up to 3 bytes after it, padded with spaces.
pub fn gen_short_name(name: &str) -> (r: [u8; 11])
    ensures
        r@ == short_name_of(vstd::utf8::encode_utf8(uppercase(name@))),
{
    let name_upper: String = to_uppercase(name);
    short_name_from_upper(name_upper.as_str().as_bytes())
}

} // verus!
