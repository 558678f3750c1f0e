//! Paths: texts that slashes cut into names.

use crate::error::StoreError;
use vstd::prelude::*;
use vstd::string::*;

verus! {

/// A path as the model sees it: the names to follow from the root, in order.
pub type PathSpec = Seq<Seq<char>>;

/// The number of characters before the first `/` of `s` (all of them where it has none).
pub open spec fn first_slash(s: Seq<char>) -> nat
    decreases s.len(),
{
    if s.len() == 0 || s[0] == '/' {
        0
    } else {
        1 + first_slash(s.drop_first())
    }
}

/// The pieces that the slashes of `s` cut it into; a text without a slash is one piece.
pub open spec fn split(s: Seq<char>) -> PathSpec
    decreases s.len(),
{
    let k = first_slash(s) as int;
    if 0 <= k < s.len() {
        seq![s.take(k)] + split(s.skip(k + 1))
    } else {
        seq![s]
    }
}

/// The segments of a path text. The empty text is the root: it has no segment.
pub open spec fn segments(s: Seq<char>) -> PathSpec {
    if s.len() == 0 {
        Seq::empty()
    } else {
        split(s)
    }
}

/// A path text is well formed when none of its segments is empty.
pub open spec fn valid_path(s: Seq<char>) -> bool {
    forall|i: int| 0 <= i < segments(s).len() ==> (#[trigger] segments(s)[i]).len() > 0
}

/// A path text that names something below the root: it is well formed and
/// has at least one segment.
pub open spec fn names_entry(path: Seq<char>) -> bool {
    valid_path(path) && segments(path).len() > 0
}

/// The views of a vector of names.
pub open spec fn name_views(names: Seq<String>) -> PathSpec {
    Seq::new(names.len(), |i: int| names[i]@)
}

/// `first_slash` lies within the text and stops at a slash or at the end.
pub proof fn lemma_first_slash(s: Seq<char>)
    ensures
        first_slash(s) <= s.len(),
        first_slash(s) < s.len() ==> s[first_slash(s) as int] == '/',
        forall|j: int| 0 <= j < first_slash(s) ==> s[j] != '/',
    decreases s.len(),
{
    if s.len() == 0 || s[0] == '/' {
    } else {
        let t = s.drop_first();
        lemma_first_slash(t);
        assert forall|j: int| 0 <= j < first_slash(s) implies s[j] != '/' by {
            if j > 0 {
                assert(s[j] == t[j - 1]);
            }
        }
        if first_slash(s) < s.len() {
            assert(s[first_slash(s) as int] == t[first_slash(t) as int]);
        }
    }
}

/// Where the first `k` characters hold no slash and a slash or the end follows, `first_slash` is `k`.
pub proof fn lemma_first_slash_is(s: Seq<char>, k: int)
    requires
        0 <= k <= s.len(),
        forall|j: int| 0 <= j < k ==> s[j] != '/',
        k < s.len() ==> s[k] == '/',
    ensures
        first_slash(s) == k,
{
    lemma_first_slash(s);
    let f = first_slash(s) as int;
    if f < k {
        assert(s[f] == '/');
    } else if f > k {
        assert(s[k] != '/');
    }
}

/// Splits a path text at its slashes. The empty text gives no segment; a text
/// with an empty segment (a slash at either end, or two in a row) is refused.
pub fn parse_path(path: &str) -> (r: Result<Vec<String>, StoreError>)
    ensures
        match r {
            Ok(names) => valid_path(path@) && name_views(names@) == segments(path@),
            Err(e) => e == StoreError::InvalidPath && !valid_path(path@),
        },
{
    let n = path.unicode_len();
    let mut names: Vec<String> = Vec::new();
    if n == 0 {
        assert(name_views(names@) =~= segments(path@));
        return Ok(names);
    }
    let mut start: usize = 0;
    let mut i: usize = 0;
    proof {
        assert(path@.skip(0) =~= path@);
        assert(name_views(names@) + split(path@) =~= split(path@));
    }
    while i < n
        invariant
            n == path@.len(),
            n > 0,
            0 <= start <= i <= n,
            forall|j: int| start <= j < i ==> path@[j] != '/',
            split(path@) == name_views(names@) + split(path@.skip(start as int)),
            forall|j: int| 0 <= j < names.len() ==> (#[trigger] names[j])@.len() > 0,
        decreases n - i,
    {
        let c = path.get_char(i);
        if c == '/' {
            let ghost rest = path@.skip(start as int);
            proof {
                lemma_first_slash_is(rest, i - start);
                assert(rest.skip(i - start + 1) =~= path@.skip(i + 1));
            }
            if i == start {
                proof {
                    let k = names.len() as int;
                    assert(split(rest)[0] =~= Seq::<char>::empty());
                    assert(segments(path@)[k] == split(rest)[0]);
                    assert(segments(path@)[k].len() == 0);
                }
                return Err(StoreError::InvalidPath);
            }
            let piece = path.substring_char(start, i).to_owned();
            proof {
                assert(piece@ =~= rest.take(i - start));
                assert(name_views(names@.push(piece)) =~= name_views(names@) + seq![piece@]);
            }
            names.push(piece);
            start = i + 1;
        }
        i = i + 1;
    }
    let ghost rest = path@.skip(start as int);
    proof {
        lemma_first_slash_is(rest, n - start);
    }
    if start == n {
        proof {
            let k = names.len() as int;
            assert(segments(path@)[k] == split(rest)[0]);
            assert(segments(path@)[k].len() == 0);
        }
        return Err(StoreError::InvalidPath);
    }
    let piece = path.substring_char(start, n).to_owned();
    proof {
        assert(piece@ =~= rest);
        assert(name_views(names@.push(piece)) =~= name_views(names@) + seq![piece@]);
    }
    names.push(piece);
    proof {
        assert forall|j: int| 0 <= j < segments(path@).len() implies (#[trigger] segments(
            path@,
        )[j]).len() > 0 by {
            assert(segments(path@)[j] == names[j]@);
        }
    }
    Ok(names)
}

} // verus!
