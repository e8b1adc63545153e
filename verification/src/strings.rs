//! Splitting entry names into path components.
//!
//! An archive entry name is split on `/` into components; empty
//! components from leading, trailing, or repeated separators are kept.

use vstd::prelude::*;
use vstd::string::*;

verus! {

/// Relies on String::push: appends exactly the one character.
#[verifier::external_body]
pub(crate) fn push_char(s: &mut String, c: char)
    ensures
        final(s)@ == old(s)@.push(c),
{
    s.push(c);
}

/// Index of the first `/` in `s`, or `s.len()` if there is none.
pub open spec fn first_slash(s: Seq<char>) -> nat
    decreases s.len(),
{
    if s.len() == 0 {
        0
    } else if s[0] == '/' {
        0
    } else {
        1 + first_slash(s.skip(1))
    }
}

/// The components of `s`, split on `/`. Splitting the empty string
/// yields one empty component; separators at the ends or side by side
/// yield empty components, exactly as literal separation does.
pub open spec fn split_comps(s: Seq<char>) -> Seq<Seq<char>>
    decreases s.len(),
{
    let f = first_slash(s) as int;
    if f >= s.len() {
        seq![s]
    } else {
        seq![s.take(f)] + split_comps(s.skip(f + 1))
    }
}

/// `first_slash` is determined by where the slashes are.
pub proof fn lemma_first_slash_at(s: Seq<char>, k: int)
    requires
        0 <= k <= s.len(),
        forall|j: int| 0 <= j < k ==> s[j] != '/',
        k < s.len() ==> s[k] == '/',
    ensures
        first_slash(s) == k,
    decreases s.len(),
{
    if s.len() == 0 {
    } else if s[0] == '/' {
        assert(k == 0);
    } else {
        assert(k >= 1);
        assert forall|j: int| 0 <= j < k - 1 implies s.skip(1)[j] != '/' by {
            assert(s.skip(1)[j] == s[j + 1]);
        }
        if k - 1 < s.skip(1).len() {
            assert(s.skip(1)[k - 1] == s[k]);
        }
        lemma_first_slash_at(s.skip(1), k - 1);
    }
}

/// Splits `s` on `/`, keeping empty components.
pub fn split_slash(s: &str) -> (r: Vec<String>)
    ensures
        r.deep_view() == split_comps(s@),
{
    let len = s.unicode_len();
    let mut r: Vec<String> = Vec::new();
    let mut start: usize = 0;
    let mut i: usize = 0;
    proof {
        assert(s@.skip(0) =~= s@);
        assert(r.deep_view() =~= Seq::<Seq<char>>::empty());
        assert(r.deep_view() + split_comps(s@) =~= split_comps(s@));
    }
    while i < len
        invariant
            start <= i <= len,
            len == s@.len(),
            forall|j: int| start <= j < i ==> s@[j] != '/',
            r.deep_view() + split_comps(s@.skip(start as int)) == split_comps(s@),
        decreases len - i,
    {
        if s.get_char(i) == '/' {
            let comp = s.substring_char(start, i);
            proof {
                let rest = s@.skip(start as int);
                assert forall|j: int| 0 <= j < i - start implies rest[j] != '/' by {
                    assert(rest[j] == s@[start + j]);
                }
                assert(rest[i - start] == s@[i as int]);
                lemma_first_slash_at(rest, i - start);
                assert(rest.take(i - start) =~= s@.subrange(start as int, i as int));
                assert(rest.skip(i - start + 1) =~= s@.skip(i + 1));
                assert(r.deep_view().push(comp@) + split_comps(s@.skip(i + 1)) =~= r.deep_view()
                    + split_comps(s@.skip(start as int)));
                assert(r.deep_view().push(comp@) =~= r.deep_view() + seq![comp@]);
            }
            let ghost old_r = r.deep_view();
            r.push(comp.to_owned());
            proof {
                assert(r.deep_view() =~= old_r.push(comp@));
            }
            start = i + 1;
        }
        i = i + 1;
    }
    let comp = s.substring_char(start, len);
    proof {
        let rest = s@.skip(start as int);
        assert forall|j: int| 0 <= j < rest.len() implies rest[j] != '/' by {
            assert(rest[j] == s@[start + j]);
        }
        lemma_first_slash_at(rest, rest.len() as int);
        assert(rest =~= s@.subrange(start as int, len as int));
        assert(split_comps(s@.skip(start as int)) =~= seq![s@.subrange(
            start as int,
            len as int,
        )]);
    }
    let ghost old_r = r.deep_view();
    r.push(comp.to_owned());
    proof {
        assert(r.deep_view() =~= old_r.push(comp@));
        assert(r.deep_view() =~= split_comps(s@));
    }
    r
}

} // verus!
