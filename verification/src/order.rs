//! The order in which names are listed.

use crate::path::name_views;
use vstd::multiset::Multiset;
use vstd::pervasive::unreached;
use vstd::prelude::*;
use vstd::string::*;
use vstd::utf8::encode_utf8;

verus! {

/// `a` comes before `b` in the order of the dictionary: at the first place
/// where they differ `a` has the smaller byte, or `a` ends there and `b` goes on.
pub open spec fn bytes_before(a: Seq<u8>, b: Seq<u8>) -> bool
    decreases a.len(),
{
    if b.len() == 0 {
        false
    } else if a.len() == 0 {
        true
    } else {
        a[0] < b[0] || (a[0] == b[0] && bytes_before(a.drop_first(), b.drop_first()))
    }
}

/// The name `a` comes before the name `b`: its UTF-8 bytes come before those of `b`.
pub open spec fn name_before(a: Seq<char>, b: Seq<char>) -> bool {
    bytes_before(encode_utf8(a), encode_utf8(b))
}

/// No name of `names` comes before a name that stands earlier in it.
pub open spec fn ascending(names: Seq<Seq<char>>) -> bool {
    forall|i: int, j: int|
        0 <= i < j < names.len() ==> !name_before(#[trigger] names[j], #[trigger] names[i])
}

/// Of two byte strings at most one comes before the other.
pub proof fn lemma_before_one_way(a: Seq<u8>, b: Seq<u8>)
    requires
        bytes_before(a, b),
    ensures
        !bytes_before(b, a),
    decreases a.len(),
{
    if a.len() > 0 && b.len() > 0 && a[0] == b[0] {
        lemma_before_one_way(a.drop_first(), b.drop_first());
    }
}

/// What comes before something that comes before a third comes before the third.
pub proof fn lemma_before_chain(a: Seq<u8>, b: Seq<u8>, c: Seq<u8>)
    requires
        bytes_before(a, b),
        bytes_before(b, c),
    ensures
        bytes_before(a, c),
    decreases a.len(),
{
    if a.len() > 0 && a[0] == b[0] && b[0] == c[0] {
        lemma_before_chain(a.drop_first(), b.drop_first(), c.drop_first());
    }
}

/// Whether the name `a` comes before the name `b`.
pub fn comes_before(a: &str, b: &str) -> (r: bool)
    ensures
        r == name_before(a@, b@),
{
    let x = a.as_bytes();
    let y = b.as_bytes();
    let mut i: usize = 0;
    proof {
        assert(x@.skip(0) =~= x@);
        assert(y@.skip(0) =~= y@);
    }
    while i < x.len() && i < y.len()
        invariant
            x@ == encode_utf8(a@),
            y@ == encode_utf8(b@),
            0 <= i <= x@.len(),
            i <= y@.len(),
            bytes_before(x@, y@) == bytes_before(x@.skip(i as int), y@.skip(i as int)),
        decreases x@.len() - i,
    {
        proof {
            assert(x@.skip(i as int).drop_first() =~= x@.skip(i + 1));
            assert(y@.skip(i as int).drop_first() =~= y@.skip(i + 1));
            assert(x@.skip(i as int)[0] == x@[i as int]);
            assert(y@.skip(i as int)[0] == y@[i as int]);
        }
        if x[i] < y[i] {
            return true;
        }
        if x[i] > y[i] {
            return false;
        }
        i = i + 1;
    }
    i < y.len()
}

/// A sequence without elements holds nothing, however often one counts.
proof fn lemma_nothing_counts<A>(s: Seq<A>)
    requires
        s.len() == 0,
    ensures
        s.to_multiset() == Multiset::<A>::empty(),
{
    s.to_multiset_ensures();
    vstd::multiset::lemma_multiset_empty_len(s.to_multiset());
}

/// The same names, each as often as it was given, in ascending order.
pub fn sort_names(names: Vec<String>) -> (r: Vec<String>)
    ensures
        ascending(name_views(r@)),
        name_views(r@).to_multiset() == name_views(names@).to_multiset(),
        r@.len() == names@.len(),
        name_views(r@).to_set() == name_views(names@).to_set(),
        name_views(names@).no_duplicates() ==> name_views(r@).no_duplicates(),
{
    let mut rest = names;
    let mut out: Vec<String> = Vec::new();
    let ghost all = name_views(names@);
    proof {
        assert(name_views(rest@) =~= all.take(all.len() as int));
        assert(all.take(all.len() as int) =~= all);
        lemma_nothing_counts(name_views(out@));
        assert(name_views(out@).to_multiset().add(all.to_multiset()) =~= all.to_multiset());
    }
    while rest.len() > 0
        invariant
            all == name_views(names@),
            name_views(out@).to_multiset().add(name_views(rest@).to_multiset())
                == all.to_multiset(),
            rest@.len() + out@.len() == all.len(),
            name_views(rest@) == all.take(rest@.len() as int),
            ascending(name_views(out@)),
            forall|n: Seq<char>|
                name_views(out@).contains(n) <==> all.skip(rest@.len() as int).contains(n),
            all.no_duplicates() ==> name_views(out@).no_duplicates(),
        decreases rest@.len(),
    {
        let ghost k = rest@.len() - 1;
        let ghost before = name_views(out@);
        let ghost waiting = rest@;
        let name = match rest.pop() {
            Some(name) => name,
            None => unreached(),
        };
        proof {
            assert(name_views(waiting)[k] == name@);
            assert(all.take(waiting.len() as int)[k] == all[k]);
            assert(name_views(rest@) =~= all.take(k));
            assert(name_views(waiting) =~= name_views(rest@).push(name@));
            vstd::seq_lib::to_multiset_build(name_views(rest@), name@);
        }
        let mut at: usize = 0;
        while at < out.len() && !comes_before(name.as_str(), out[at].as_str())
            invariant
                0 <= at <= out@.len(),
                forall|i: int| 0 <= i < at ==> !name_before(name@, (#[trigger] out@[i])@),
            decreases out@.len() - at,
        {
            at = at + 1;
        }
        out.insert(at, name);
        proof {
            let after = name_views(out@);
            assert(after =~= before.insert(at as int, name@));
            assert(after.remove(at as int) =~= before);
            vstd::seq_lib::to_multiset_remove(after, at as int);
            after.to_multiset_ensures();
            assert(after.contains(after[at as int]));
            assert(after.to_multiset() =~= before.to_multiset().insert(name@));
            assert(after.to_multiset().add(name_views(rest@).to_multiset()) =~= all.to_multiset());
            assert forall|i: int, j: int| 0 <= i < j < after.len() implies !name_before(
                #[trigger] after[j],
                #[trigger] after[i],
            ) by {
                let old_i = if i < at { i } else { i - 1 };
                let old_j = if j < at { j } else { j - 1 };
                if i == at {
                    // The new name comes before the one that stood at its place, and
                    // that one not after those behind it.
                    assert(name_before(name@, before[at as int]));
                    if old_j > at {
                        assert(!name_before(before[old_j], before[at as int]));
                    }
                    if name_before(after[j], name@) {
                        lemma_before_chain(
                            encode_utf8(before[old_j]),
                            encode_utf8(name@),
                            encode_utf8(before[at as int]),
                        );
                        lemma_before_one_way(
                            encode_utf8(name@),
                            encode_utf8(before[at as int]),
                        );
                    }
                } else if j == at {
                    assert(!name_before(name@, out@[i]@)) by {
                        assert(before[i] == after[i]);
                    }
                } else {
                    assert(!name_before(before[old_j], before[old_i]));
                }
            }
            assert forall|n: Seq<char>| after.contains(n) <==> all.skip(k).contains(n) by {
                if after.contains(n) {
                    let i = choose|i: int| 0 <= i < after.len() && after[i] == n;
                    if i == at {
                        assert(all.skip(k)[0] == n);
                    } else {
                        let old_i = if i < at { i } else { i - 1 };
                        assert(before[old_i] == n);
                        assert(before.contains(n));
                        let tail = all.skip(k + 1);
                        let m = choose|m: int| 0 <= m < tail.len() && #[trigger] tail[m] == n;
                        assert(all.skip(k)[m + 1] == n);
                    }
                }
                if all.skip(k).contains(n) {
                    let tail = all.skip(k);
                    let m = choose|m: int| 0 <= m < tail.len() && #[trigger] tail[m] == n;
                    if m == 0 {
                        assert(after[at as int] == n);
                    } else {
                        assert(all.skip(k + 1)[m - 1] == n);
                        assert(before.contains(n));
                        let i = choose|i: int| 0 <= i < before.len() && before[i] == n;
                        let new_i = if i < at { i } else { i + 1 };
                        assert(after[new_i] == n);
                    }
                }
            }
            if all.no_duplicates() {
                assert forall|i: int, j: int| 0 <= i < after.len() && 0 <= j < after.len() && i
                    != j implies after[i] != after[j] by {
                    let old_i = if i < at { i } else { i - 1 };
                    let old_j = if j < at { j } else { j - 1 };
                    if i == at || j == at {
                        let other = if i == at { old_j } else { old_i };
                        assert(before.contains(before[other]));
                        let tail = all.skip(k + 1);
                        let m = choose|m: int|
                            0 <= m < tail.len() && #[trigger] tail[m] == before[other];
                        assert(all[k + 1 + m] == before[other]);
                        assert(all[k] == name@);
                    } else {
                        assert(before[old_i] != before[old_j]);
                    }
                }
            }
        }
    }
    proof {
        assert(all.skip(0) =~= all);
        assert(name_views(out@).to_set() =~= all.to_set());
        lemma_nothing_counts(name_views(rest@));
        assert(name_views(out@).to_multiset() =~= all.to_multiset());
    }
    out
}

/// Of two different byte strings one comes before the other.
pub proof fn lemma_before_or_after(a: Seq<u8>, b: Seq<u8>)
    requires
        a != b,
    ensures
        bytes_before(a, b) || bytes_before(b, a),
    decreases a.len(),
{
    if a.len() > 0 && b.len() > 0 && a[0] == b[0] {
        if a.drop_first() == b.drop_first() {
            assert(a =~= seq![a[0]] + a.drop_first());
            assert(b =~= seq![b[0]] + b.drop_first());
        }
        lemma_before_or_after(a.drop_first(), b.drop_first());
    } else if a.len() == 0 && b.len() == 0 {
        assert(a =~= b);
    }
}

/// Of two different names one comes before the other.
pub proof fn lemma_names_before_or_after(a: Seq<char>, b: Seq<char>)
    requires
        a != b,
    ensures
        name_before(a, b) || name_before(b, a),
{
    vstd::utf8::encode_utf8_decode_utf8(a);
    vstd::utf8::encode_utf8_decode_utf8(b);
    lemma_before_or_after(encode_utf8(a), encode_utf8(b));
}

/// A set of names has one ascending listing: two ascending sequences that
/// hold the same names, each once, are the same sequence.
pub proof fn law_listing_is_unique(a: Seq<Seq<char>>, b: Seq<Seq<char>>)
    requires
        ascending(a),
        a.no_duplicates(),
        ascending(b),
        b.no_duplicates(),
        a.to_set() == b.to_set(),
    ensures
        a == b,
    decreases a.len(),
{
    if a.len() == 0 {
        if b.len() > 0 {
            assert(b.to_set().contains(b[0]));
            assert(a.contains(b[0]));
        }
        assert(a =~= b);
    } else {
        assert(a.to_set().contains(a[0]));
        assert(b.contains(a[0]));
        let j = choose|j: int| 0 <= j < b.len() && b[j] == a[0];
        assert(b.to_set().contains(b[0]));
        assert(a.contains(b[0]));
        let i = choose|i: int| 0 <= i < a.len() && a[i] == b[0];
        if a[0] != b[0] {
            lemma_names_before_or_after(a[0], b[0]);
            assert(!name_before(a[i], a[0]));
            assert(!name_before(b[j], b[0]));
        }
        let x = a.drop_first();
        let y = b.drop_first();
        assert(ascending(x)) by {
            assert forall|m: int, n: int| 0 <= m < n < x.len() implies !name_before(
                #[trigger] x[n],
                #[trigger] x[m],
            ) by {
                assert(!name_before(a[n + 1], a[m + 1]));
            }
        }
        assert(ascending(y)) by {
            assert forall|m: int, n: int| 0 <= m < n < y.len() implies !name_before(
                #[trigger] y[n],
                #[trigger] y[m],
            ) by {
                assert(!name_before(b[n + 1], b[m + 1]));
            }
        }
        assert(x.no_duplicates()) by {
            assert forall|m: int, n: int| 0 <= m < x.len() && 0 <= n < x.len() && m
                != n implies x[m] != x[n] by {
                assert(a[m + 1] != a[n + 1]);
            }
        }
        assert(y.no_duplicates()) by {
            assert forall|m: int, n: int| 0 <= m < y.len() && 0 <= n < y.len() && m
                != n implies y[m] != y[n] by {
                assert(b[m + 1] != b[n + 1]);
            }
        }
        assert(x.to_set() =~= y.to_set()) by {
            assert forall|e: Seq<char>| x.to_set().contains(e) == y.to_set().contains(e) by {
                if x.contains(e) {
                    let m = choose|m: int| 0 <= m < x.len() && x[m] == e;
                    assert(a[m + 1] == e);
                    assert(a.to_set().contains(e));
                    assert(b.contains(e));
                    let n = choose|n: int| 0 <= n < b.len() && b[n] == e;
                    assert(n != 0) by {
                        assert(a[0] != a[m + 1]);
                    }
                    assert(y[n - 1] == e);
                }
                if y.contains(e) {
                    let m = choose|m: int| 0 <= m < y.len() && y[m] == e;
                    assert(b[m + 1] == e);
                    assert(b.to_set().contains(e));
                    assert(a.contains(e));
                    let n = choose|n: int| 0 <= n < a.len() && a[n] == e;
                    assert(n != 0) by {
                        assert(b[0] != b[m + 1]);
                    }
                    assert(x[n - 1] == e);
                }
            }
        }
        law_listing_is_unique(x, y);
        assert(a =~= seq![a[0]] + x);
        assert(b =~= seq![b[0]] + y);
    }
}

} // verus!
