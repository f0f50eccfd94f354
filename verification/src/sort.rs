//! Lexicographic order of strings by characters, and a merge sort under it.
//!
//! Comparing the UTF-8 bytes of two strings, as `str`'s `Ord` does, orders them as
//! comparing their characters does; the order here is the character one.
use vstd::prelude::*;
use vstd::relations::{sorted_by, total_ordering};

verus! {

broadcast use {vstd::seq_lib::group_to_multiset_ensures, vstd::multiset::group_multiset_axioms};

/// `a` comes before `b` or equals it, comparing character by character, a proper prefix
/// first.
pub open spec fn lex_le(a: Seq<char>, b: Seq<char>) -> bool
    decreases a.len(),
{
    if a.len() == 0 {
        true
    } else if b.len() == 0 {
        false
    } else if a[0] != b[0] {
        a[0] < b[0]
    } else {
        lex_le(a.drop_first(), b.drop_first())
    }
}

/// `lex_le` as a relation.
pub open spec fn lex_order() -> spec_fn(Seq<char>, Seq<char>) -> bool {
    |a: Seq<char>, b: Seq<char>| lex_le(a, b)
}

proof fn lemma_lex_reflexive(a: Seq<char>)
    ensures
        lex_le(a, a),
    decreases a.len(),
{
    if a.len() > 0 {
        lemma_lex_reflexive(a.drop_first());
    }
}

proof fn lemma_lex_antisymmetric(a: Seq<char>, b: Seq<char>)
    requires
        lex_le(a, b),
        lex_le(b, a),
    ensures
        a == b,
    decreases a.len(),
{
    if a.len() > 0 && b.len() > 0 {
        lemma_lex_antisymmetric(a.drop_first(), b.drop_first());
        assert(a =~= seq![a[0]] + a.drop_first());
        assert(b =~= seq![b[0]] + b.drop_first());
    } else {
        assert(a =~= b);
    }
}

proof fn lemma_lex_transitive(a: Seq<char>, b: Seq<char>, c: Seq<char>)
    requires
        lex_le(a, b),
        lex_le(b, c),
    ensures
        lex_le(a, c),
    decreases a.len(),
{
    if a.len() > 0 && b.len() > 0 && c.len() > 0 && a[0] == b[0] && b[0] == c[0] {
        lemma_lex_transitive(a.drop_first(), b.drop_first(), c.drop_first());
    }
}

proof fn lemma_lex_total(a: Seq<char>, b: Seq<char>)
    ensures
        lex_le(a, b) || lex_le(b, a),
    decreases a.len(),
{
    if a.len() > 0 && b.len() > 0 && a[0] == b[0] {
        lemma_lex_total(a.drop_first(), b.drop_first());
    }
}

/// `lex_le` is a total order.
pub proof fn lemma_lex_total_ordering()
    ensures
        total_ordering(lex_order()),
{
    assert forall|a: Seq<char>| #[trigger] lex_order()(a, a) by {
        lemma_lex_reflexive(a);
    }
    assert forall|a: Seq<char>, b: Seq<char>| #[trigger] lex_order()(a, b) && #[trigger] lex_order()(b, a) implies a == b by {
        lemma_lex_antisymmetric(a, b);
    }
    assert forall|a: Seq<char>, b: Seq<char>, c: Seq<char>| #[trigger] lex_order()(a, b) && #[trigger] lex_order()(b, c) implies lex_order()(a, c) by {
        lemma_lex_transitive(a, b, c);
    }
    assert forall|a: Seq<char>, b: Seq<char>| #[trigger] lex_order()(a, b) || #[trigger] lex_order()(b, a) by {
        lemma_lex_total(a, b);
    }
}

proof fn lemma_lex_skip(a: Seq<char>, b: Seq<char>, i: int)
    requires
        0 <= i <= a.len(),
        i <= b.len(),
        a.take(i) == b.take(i),
    ensures
        lex_le(a, b) == lex_le(a.skip(i), b.skip(i)),
    decreases i,
{
    if i > 0 {
        assert(a[0] == a.take(i)[0]);
        assert(b[0] == b.take(i)[0]);
        assert(a.drop_first().take(i - 1) =~= a.take(i).drop_first());
        assert(b.drop_first().take(i - 1) =~= b.take(i).drop_first());
        lemma_lex_skip(a.drop_first(), b.drop_first(), i - 1);
        assert(a.drop_first().skip(i - 1) =~= a.skip(i));
        assert(b.drop_first().skip(i - 1) =~= b.skip(i));
    } else {
        assert(a.skip(0) =~= a);
        assert(b.skip(0) =~= b);
    }
}

/// Tests `lex_le`.
pub fn chars_le(a: &Vec<char>, b: &Vec<char>) -> (res: bool)
    ensures
        res == lex_le(a@, b@),
{
    let n = a.len();
    let m = b.len();
    let mut i: usize = 0;
    while i < n && i < m && a[i] == b[i]
        invariant
            i <= n == a@.len(),
            i <= m == b@.len(),
            a@.take(i as int) == b@.take(i as int),
        decreases n - i,
    {
        assert(a@.take(i + 1) =~= a@.take(i as int).push(a@[i as int]));
        assert(b@.take(i + 1) =~= b@.take(i as int).push(b@[i as int]));
        i = i + 1;
    }
    proof {
        lemma_lex_skip(a@, b@, i as int);
    }
    if i == n {
        true
    } else if i == m {
        false
    } else {
        assert(a@.skip(i as int)[0] == a@[i as int]);
        assert(b@.skip(i as int)[0] == b@[i as int]);
        a[i] < b[i]
    }
}


/// The character sequences held by a sequence of character vectors.
pub open spec fn char_views(s: Seq<Vec<char>>) -> Seq<Seq<char>> {
    s.map_values(|x: Vec<char>| x@)
}

/// Sorted in non-increasing `lex_le` order.
spec fn sorted_desc(s: Seq<Seq<char>>) -> bool {
    forall|i: int, j: int| 0 <= i < j < s.len() ==> lex_le(#[trigger] s[j], #[trigger] s[i])
}

/// Merges two sorted vectors into one sorted vector holding the elements of both.
fn merge(left: Vec<Vec<char>>, right: Vec<Vec<char>>) -> (res: Vec<Vec<char>>)
    requires
        sorted_by(char_views(left@), lex_order()),
        sorted_by(char_views(right@), lex_order()),
    ensures
        sorted_by(char_views(res@), lex_order()),
        char_views(res@).to_multiset() == char_views(left@).to_multiset().add(
            char_views(right@).to_multiset(),
        ),
{
    proof {
        lemma_lex_total_ordering();
    }
    let ghost l0 = char_views(left@);
    let ghost r0 = char_views(right@);
    let mut l = left;
    let mut r = right;
    let mut rev: Vec<Vec<char>> = Vec::new();
    while l.len() > 0 || r.len() > 0
        invariant
            total_ordering(lex_order()),
            char_views(l@) == l0.take(l@.len() as int),
            char_views(r@) == r0.take(r@.len() as int),
            l@.len() <= l0.len(),
            r@.len() <= r0.len(),
            sorted_by(l0, lex_order()),
            sorted_by(r0, lex_order()),
            sorted_desc(char_views(rev@)),
            forall|i: int, j: int| 0 <= i < l@.len() && 0 <= j < rev@.len() ==> lex_le(
                #[trigger] l0[i],
                #[trigger] char_views(rev@)[j],
            ),
            forall|i: int, j: int| 0 <= i < r@.len() && 0 <= j < rev@.len() ==> lex_le(
                #[trigger] r0[i],
                #[trigger] char_views(rev@)[j],
            ),
            char_views(rev@).to_multiset().add(char_views(l@).to_multiset()).add(
                char_views(r@).to_multiset(),
            ) == l0.to_multiset().add(r0.to_multiset()),
        decreases l@.len() + r@.len(),
    {
        let take_left = if l.len() == 0 {
            false
        } else if r.len() == 0 {
            true
        } else {
            chars_le(&r[r.len() - 1], &l[l.len() - 1])
        };
        let ghost lv = char_views(l@);
        let ghost rv = char_views(r@);
        let ghost revv = char_views(rev@);
        let ghost old_l = l@;
        let ghost old_r = r@;
        if take_left {
            let x = l.pop().unwrap();
            proof {
                let li = lv.len() - 1;
                assert(lv[li] == old_l[li]@);
                assert(x@ == l0[li]);
                assert(char_views(l@) =~= lv.drop_last());
                assert(lv =~= char_views(l@).push(x@));
                assert(char_views(rev@.push(x)) =~= revv.push(x@));
                // x is at least every remaining element
                assert forall|i: int| 0 <= i < rv.len() implies lex_le(#[trigger] r0[i], x@) by {
                    let last = rv.len() - 1;
                    assert(rv[last] == old_r[last]@);
                    assert(rv[last] == r0[last]);
                    assert(lex_le(r0[last], x@));
                    if i < last {
                        assert(lex_order()(r0[i], r0[last]));
                        lemma_lex_transitive(r0[i], r0[last], x@);
                    }
                }
                assert forall|i: int| 0 <= i < li implies lex_le(#[trigger] l0[i], x@) by {
                    assert(lex_order()(l0[i], l0[li]));
                }
            }
            rev.push(x);
            proof {
                let nv = char_views(rev@);
                assert(nv =~= revv.push(x@));
                assert forall|i: int, j: int| 0 <= i < j < nv.len() implies lex_le(#[trigger] nv[j], #[trigger] nv[i]) by {
                    if j == nv.len() - 1 {
                        assert(lex_le(l0[lv.len() - 1], revv[i]));
                    }
                }
                assert(char_views(rev@).to_multiset() == revv.to_multiset().insert(x@));
                assert(lv.to_multiset() == char_views(l@).to_multiset().insert(x@));
            }
        } else {
            let x = r.pop().unwrap();
            proof {
                let ri = rv.len() - 1;
                assert(rv[ri] == old_r[ri]@);
                assert(x@ == r0[ri]);
                assert(char_views(r@) =~= rv.drop_last());
                assert(rv =~= char_views(r@).push(x@));
                assert forall|i: int| 0 <= i < lv.len() implies lex_le(#[trigger] l0[i], x@) by {
                    let last = lv.len() - 1;
                    assert(lv[last] == old_l[last]@);
                    assert(lv[last] == l0[last]);
                    lemma_lex_total(l0[last], x@);
                    assert(lex_le(l0[last], x@));
                    if i < last {
                        assert(lex_order()(l0[i], l0[last]));
                        lemma_lex_transitive(l0[i], l0[last], x@);
                    }
                }
                assert forall|i: int| 0 <= i < ri implies lex_le(#[trigger] r0[i], x@) by {
                    assert(lex_order()(r0[i], r0[ri]));
                }
            }
            rev.push(x);
            proof {
                let nv = char_views(rev@);
                assert(nv =~= revv.push(x@));
                assert forall|i: int, j: int| 0 <= i < j < nv.len() implies lex_le(#[trigger] nv[j], #[trigger] nv[i]) by {
                    if j == nv.len() - 1 {
                        assert(lex_le(r0[rv.len() - 1], revv[i]));
                    }
                }
                assert(char_views(rev@).to_multiset() == revv.to_multiset().insert(x@));
                assert(rv.to_multiset() == char_views(r@).to_multiset().insert(x@));
            }
        }
    }
    proof {
        assert(char_views(l@) =~= Seq::<Seq<char>>::empty());
        assert(char_views(r@) =~= Seq::<Seq<char>>::empty());
    }
    let ghost full = char_views(rev@);
    let mut res: Vec<Vec<char>> = Vec::new();
    while rev.len() > 0
        invariant
            total_ordering(lex_order()),
            char_views(rev@) == full.take(rev@.len() as int),
            rev@.len() <= full.len(),
            sorted_desc(full),
            char_views(res@).len() + rev@.len() == full.len(),
            forall|i: int| 0 <= i < res@.len() ==> #[trigger] char_views(res@)[i] == full[full.len() - 1 - i],
            char_views(res@).to_multiset().add(char_views(rev@).to_multiset()) == full.to_multiset(),
        decreases rev@.len(),
    {
        let ghost rv = char_views(rev@);
        let ghost resv = char_views(res@);
        let ghost old_rev = rev@;
        let x = rev.pop().unwrap();
        proof {
            assert(rv[rv.len() - 1] == old_rev[rv.len() - 1]@);
            assert(char_views(rev@).push(x@).to_multiset() == char_views(rev@).to_multiset().insert(x@));
            assert(char_views(rev@) =~= rv.drop_last());
            assert(rv =~= char_views(rev@).push(x@));
            assert(rv.to_multiset() == char_views(rev@).to_multiset().insert(x@));
        }
        res.push(x);
        proof {
            assert(char_views(res@) =~= resv.push(x@));
            assert(resv.push(x@).to_multiset() == resv.to_multiset().insert(x@));
            assert(char_views(res@).to_multiset() == resv.to_multiset().insert(x@));
        }
    }
    proof {
        let out = char_views(res@);
        assert(char_views(rev@) =~= Seq::<Seq<char>>::empty());
        assert forall|i: int, j: int| 0 <= i < j < out.len() implies #[trigger] lex_order()(out[i], out[j]) by {
            assert(out[i] == full[full.len() - 1 - i]);
            assert(out[j] == full[full.len() - 1 - j]);
        }
    }
    res
}

/// Sorts a vector of character sequences in `lex_le` order.
pub fn sort_chars(v: Vec<Vec<char>>) -> (res: Vec<Vec<char>>)
    ensures
        sorted_by(char_views(res@), lex_order()),
        char_views(res@).to_multiset() == char_views(v@).to_multiset(),
    decreases v@.len(),
{
    let n = v.len();
    if n <= 1 {
        return v;
    }
    let mut left = v;
    let ghost all = char_views(left@);
    let right = left.split_off(n / 2);
    proof {
        assert(all =~= char_views(left@) + char_views(right@));
        vstd::seq_lib::lemma_multiset_commutative(char_views(left@), char_views(right@));
    }
    let sl = sort_chars(left);
    let sr = sort_chars(right);
    merge(sl, sr)
}

} // verus!
