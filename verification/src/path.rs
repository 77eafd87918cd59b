use vstd::prelude::*;
use vstd::string::StrSliceExecFns;

verus! {

/// The number of `/` at the start of a path.
pub open spec fn leading_slashes(p: Seq<char>) -> int
    decreases p.len(),
{
    if p.len() > 0 && p[0] == '/' {
        1 + leading_slashes(p.drop_first())
    } else {
        0
    }
}

/// The number of `/` at the end of a path.
pub open spec fn trailing_slashes(p: Seq<char>) -> int
    decreases p.len(),
{
    if p.len() > 0 && p.last() == '/' {
        1 + trailing_slashes(p.drop_last())
    } else {
        0
    }
}

/// A path without the `/` at its start and at its end.
pub open spec fn trimmed(p: Seq<char>) -> Seq<char> {
    if leading_slashes(p) == p.len() {
        Seq::empty()
    } else {
        p.subrange(leading_slashes(p), p.len() - trailing_slashes(p))
    }
}

/// The index of the first `/` in `p`, its length where it holds none.
pub open spec fn first_slash(p: Seq<char>) -> int
    decreases p.len(),
{
    if p.len() == 0 || p[0] == '/' {
        0
    } else {
        1 + first_slash(p.drop_first())
    }
}

/// The first component of a path: what stands before the first `/` of the
/// trimmed path.
pub open spec fn first_component(p: Seq<char>) -> Seq<char> {
    trimmed(p).subrange(0, first_slash(trimmed(p)))
}

/// What follows the first `/` of the trimmed path, if it has one.
pub open spec fn rest_of_path(p: Seq<char>) -> Option<Seq<char>> {
    let t = trimmed(p);
    if first_slash(t) < t.len() {
        Some(t.subrange(first_slash(t) + 1, t.len() as int))
    } else {
        None
    }
}

pub proof fn lemma_leading_slashes(p: Seq<char>)
    ensures
        0 <= leading_slashes(p) <= p.len(),
        forall|j: int| 0 <= j < leading_slashes(p) ==> p[j] == '/',
        leading_slashes(p) < p.len() ==> p[leading_slashes(p)] != '/',
    decreases p.len(),
{
    if p.len() > 0 && p[0] == '/' {
        let q = p.drop_first();
        lemma_leading_slashes(q);
        assert forall|j: int| 0 <= j < leading_slashes(p) implies p[j] == '/' by {
            if j > 0 {
                assert(q[j - 1] == p[j]);
            }
        }
        if leading_slashes(p) < p.len() {
            assert(q[leading_slashes(q)] == p[leading_slashes(p)]);
        }
    }
}

pub proof fn lemma_trailing_slashes(p: Seq<char>)
    ensures
        0 <= trailing_slashes(p) <= p.len(),
        forall|j: int| p.len() - trailing_slashes(p) <= j < p.len() ==> p[j] == '/',
        trailing_slashes(p) < p.len() ==> p[p.len() - trailing_slashes(p) - 1] != '/',
    decreases p.len(),
{
    if p.len() > 0 && p.last() == '/' {
        let q = p.drop_last();
        lemma_trailing_slashes(q);
        assert forall|j: int| p.len() - trailing_slashes(p) <= j < p.len() implies p[j] == '/' by {
            if j < q.len() {
                assert(q[j] == p[j]);
            }
        }
        if trailing_slashes(p) < p.len() {
            assert(q[q.len() - trailing_slashes(q) - 1] == p[p.len() - trailing_slashes(p) - 1]);
        }
    }
}

pub proof fn lemma_first_slash(p: Seq<char>)
    ensures
        0 <= first_slash(p) <= p.len(),
        forall|j: int| 0 <= j < first_slash(p) ==> p[j] != '/',
        first_slash(p) < p.len() ==> p[first_slash(p)] == '/',
    decreases p.len(),
{
    if !(p.len() == 0 || p[0] == '/') {
        let q = p.drop_first();
        lemma_first_slash(q);
        assert forall|j: int| 0 <= j < first_slash(p) implies p[j] != '/' by {
            if j > 0 {
                assert(q[j - 1] == p[j]);
            }
        }
        if first_slash(p) < p.len() {
            assert(q[first_slash(q)] == p[first_slash(p)]);
        }
    }
}

/// The count of leading `/` is the index before which all is `/` and at which it is not.
pub proof fn lemma_leading_slashes_is(p: Seq<char>, a: int)
    requires
        0 <= a <= p.len(),
        forall|j: int| 0 <= j < a ==> p[j] == '/',
        a < p.len() ==> p[a] != '/',
    ensures
        leading_slashes(p) == a,
{
    lemma_leading_slashes(p);
}

pub proof fn lemma_trailing_slashes_is(p: Seq<char>, b: int)
    requires
        0 <= b <= p.len(),
        forall|j: int| b <= j < p.len() ==> p[j] == '/',
        b > 0 ==> p[b - 1] != '/',
    ensures
        trailing_slashes(p) == p.len() - b,
{
    lemma_trailing_slashes(p);
}

pub proof fn lemma_first_slash_is(p: Seq<char>, k: int)
    requires
        0 <= k <= p.len(),
        forall|j: int| 0 <= j < k ==> p[j] != '/',
        k < p.len() ==> p[k] == '/',
    ensures
        first_slash(p) == k,
{
    lemma_first_slash(p);
}

/// What is left of a path after its first component is shorter than the path.
pub proof fn lemma_rest_is_shorter(p: Seq<char>)
    ensures
        trimmed(p).len() <= p.len(),
        first_component(p).len() <= p.len(),
        rest_of_path(p) is Some ==> rest_of_path(p)->Some_0.len() < p.len(),
{
    lemma_leading_slashes(p);
    lemma_trailing_slashes(p);
    lemma_first_slash(trimmed(p));
}

/// Splits a path into its first component and what follows it. Every `/` at
/// the start and at the end of the path is dropped first.
pub fn split_path(path: &str) -> (r: (&str, Option<&str>))
    ensures
        r.0@ == first_component(path@),
        match r.1 {
            Some(rest) => rest_of_path(path@) == Some(rest@),
            None => rest_of_path(path@) is None,
        },
{
    let n: usize = path.unicode_len();
    let mut a: usize = 0;
    while a < n && path.get_char(a) == '/'
        invariant
            a <= n,
            n == path@.len(),
            forall|j: int| 0 <= j < a ==> path@[j] == '/',
        decreases n - a,
    {
        a = a + 1;
    }
    proof {
        lemma_leading_slashes_is(path@, a as int);
    }
    if a == n {
        let empty: &str = path.substring_char(0, 0);
        proof {
            assert(trimmed(path@) =~= Seq::<char>::empty());
            assert(first_slash(trimmed(path@)) == 0);
            assert(empty@ =~= first_component(path@));
        }
        return (empty, None);
    }
    let mut b: usize = n;
    while b > a && path.get_char(b - 1) == '/'
        invariant
            a < b <= n,
            n == path@.len(),
            path@[a as int] != '/',
            forall|j: int| b <= j < n ==> path@[j] == '/',
        decreases b,
    {
        b = b - 1;
    }
    proof {
        lemma_trailing_slashes_is(path@, b as int);
    }
    let ghost t = trimmed(path@);
    assert(t =~= path@.subrange(a as int, b as int));
    let mut k: usize = a;
    while k < b && path.get_char(k) != '/'
        invariant
            a <= k <= b <= n,
            n == path@.len(),
            t == path@.subrange(a as int, b as int),
            forall|j: int| 0 <= j < k - a ==> t[j] != '/',
        decreases b - k,
    {
        k = k + 1;
    }
    proof {
        lemma_first_slash_is(t, k - a);
    }
    let comp: &str = path.substring_char(a, k);
    assert(comp@ =~= first_component(path@));
    if k < b {
        let rest: &str = path.substring_char(k + 1, b);
        assert(rest@ =~= t.subrange(first_slash(t) + 1, t.len() as int));
        (comp, Some(rest))
    } else {
        (comp, None)
    }
}

} // verus!
