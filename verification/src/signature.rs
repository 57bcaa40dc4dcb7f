//! Header fingerprints and how alike two of them are.
//!
//! A fingerprint is the sequence of the tokens of a sheet's header row; the
//! signature of a file is the sequence of the fingerprints of its sheets.

use crate::natural::Natural;
use crate::token::Token;
use vstd::prelude::*;
use vstd::laws_eq::obeys_view_eq;

verus! {

/// The views of the items of `s`, in order.
pub open spec fn spec_views<T: View>(s: Seq<T>) -> Seq<T::V> {
    s.map_values(|t: T| t@)
}

/// How many different values occur in `a` and not in `b`.
pub open spec fn spec_missing<V>(a: Seq<V>, b: Seq<V>) -> nat {
    a.to_set().difference(b.to_set()).len()
}

/// The size of the symmetric difference of the sets of values of `a` and `b`.
pub open spec fn spec_differences<V>(a: Seq<V>, b: Seq<V>) -> nat {
    spec_missing(a, b) + spec_missing(b, a)
}

/// Whether `x` occurs among the first `n` items of `s`.
fn occurs_before<T: PartialEq + View>(s: &[T], n: usize, x: &T) -> (r: bool)
    requires
        obeys_view_eq::<T>(),
        n <= s.len(),
    ensures
        r == spec_views(s@).take(n as int).contains(x@),
{
    let ghost views = spec_views(s@).take(n as int);
    let mut i: usize = 0;
    while i < n
        invariant
            i <= n <= s.len(),
            views == spec_views(s@).take(n as int),
            forall|k: int| 0 <= k < i ==> views[k] != x@,
            obeys_view_eq::<T>(),
        decreases n - i,
    {
        let same = s[i] == *x;
        proof {
            reveal(obeys_view_eq);
            assert(same == (s@[i as int]@ == x@));
            assert(views[i as int] == s@[i as int]@);
        }
        if same {
            return true;
        }
        i += 1;
    }
    false
}

/// How many different values occur in `a` and not in `b`.
pub fn count_missing<T: PartialEq + View>(a: &[T], b: &[T]) -> (n: usize)
    requires
        obeys_view_eq::<T>(),
    ensures
        n == spec_missing(spec_views(a@), spec_views(b@)),
        n <= a.len(),
{
    broadcast use vstd::seq_lib::seq_to_set_is_finite;
    broadcast use vstd::set::axiom_set_difference_finite;

    let ghost va = spec_views(a@);
    let ghost vb = spec_views(b@);
    let mut n: usize = 0;
    let mut i: usize = 0;
    assert(va.take(0).to_set().difference(vb.to_set()) =~= Set::<T::V>::empty());
    while i < a.len()
        invariant
            i <= a.len(),
            n <= i,
            va == spec_views(a@),
            vb == spec_views(b@),
            n == va.take(i as int).to_set().difference(vb.to_set()).len(),
            obeys_view_eq::<T>(),
        decreases a.len() - i,
    {
        let in_b = occurs_before(b, b.len(), &a[i]);
        let seen = occurs_before(a, i, &a[i]);
        proof {
            let x = va[i as int];
            let before = va.take(i as int);
            assert(vb.take(vb.len() as int) == vb);
            assert(va.take(i + 1) == before.push(x));
            before.lemma_push_to_set_commute(x);
            let old_set = before.to_set().difference(vb.to_set());
            let new_set = va.take(i + 1).to_set().difference(vb.to_set());
            if in_b {
                assert(new_set =~= old_set);
            } else {
                assert(new_set =~= old_set.insert(x));
                vstd::set::axiom_set_insert_len(old_set, x);
            }
        }
        if !in_b && !seen {
            n += 1;
        }
        i += 1;
    }
    assert(va.take(i as int) == va);
    n
}

/// The number of values that occur in one of `a` and `b` and not in the
/// other, as far as the machine's numbers go.
pub fn vec_differences<T: PartialEq + View>(a: &[T], b: &[T]) -> (n: usize)
    requires
        obeys_view_eq::<T>(),
    ensures
        n == if spec_differences(spec_views(a@), spec_views(b@)) <= usize::MAX {
            spec_differences(spec_views(a@), spec_views(b@))
        } else {
            usize::MAX as nat
        },
{
    let here = count_missing(a, b);
    let there = count_missing(b, a);
    match here.checked_add(there) {
        Some(n) => n,
        None => usize::MAX,
    }
}

/// The fingerprints of a signature, each as the views of its tokens.
pub open spec fn spec_signature(s: Seq<Vec<Token>>) -> Seq<Seq<Seq<char>>> {
    s.map_values(|f: Vec<Token>| spec_views(f@))
}

/// The length of the longer of two fingerprints.
pub open spec fn spec_longer(x: Seq<Seq<char>>, y: Seq<Seq<char>>) -> nat {
    if x.len() >= y.len() {
        x.len()
    } else {
        y.len()
    }
}

/// How many sheets two signatures have in common, place by place.
pub open spec fn spec_aligned(a: Seq<Seq<Seq<char>>>, b: Seq<Seq<Seq<char>>>) -> nat {
    if a.len() <= b.len() {
        a.len()
    } else {
        b.len()
    }
}

/// The sheet count of the signature that has more sheets.
pub open spec fn spec_sheets(a: Seq<Seq<Seq<char>>>, b: Seq<Seq<Seq<char>>>) -> nat {
    if a.len() >= b.len() {
        a.len()
    } else {
        b.len()
    }
}

/// The product of the longer lengths of the first `k` aligned fingerprints:
/// the common denominator of their shares of differing tokens.
pub open spec fn spec_gap_den(a: Seq<Seq<Seq<char>>>, b: Seq<Seq<Seq<char>>>, k: nat) -> nat
    decreases k,
{
    if k == 0 {
        1
    } else {
        spec_gap_den(a, b, (k - 1) as nat) * spec_longer(a[k - 1], b[k - 1])
    }
}

/// Over that denominator, the sum over the first `k` aligned fingerprints of
/// the symmetric difference divided by the longer length.
pub open spec fn spec_gap_num(a: Seq<Seq<Seq<char>>>, b: Seq<Seq<Seq<char>>>, k: nat) -> nat
    decreases k,
{
    if k == 0 {
        0
    } else {
        spec_gap_num(a, b, (k - 1) as nat) * spec_longer(a[k - 1], b[k - 1]) + spec_differences(
            a[k - 1],
            b[k - 1],
        ) * spec_gap_den(a, b, (k - 1) as nat)
    }
}

/// Whether every aligned pair of fingerprints has a token on one side at
/// least, so that each share is a number.
pub open spec fn spec_comparable(a: Seq<Seq<Seq<char>>>, b: Seq<Seq<Seq<char>>>) -> bool {
    forall|i: int| 0 <= i < spec_aligned(a, b) ==> spec_longer(#[trigger] a[i], b[i]) > 0
}

/// The numerator of the average similarity: over the aligned sheets, one
/// minus the share of differing tokens, summed, over the denominator below.
pub open spec fn spec_similarity_num(a: Seq<Seq<Seq<char>>>, b: Seq<Seq<Seq<char>>>) -> int {
    spec_aligned(a, b) * spec_gap_den(a, b, spec_aligned(a, b)) - spec_gap_num(
        a,
        b,
        spec_aligned(a, b),
    )
}

/// The denominator of the average similarity: the larger sheet count times
/// the common denominator of the shares.
pub open spec fn spec_similarity_den(a: Seq<Seq<Seq<char>>>, b: Seq<Seq<Seq<char>>>) -> int {
    (spec_sheets(a, b) * spec_gap_den(a, b, spec_aligned(a, b))) as int
}

/// Whether two signatures belong to one group: they are equal, or they have
/// the same number of sheets and an average similarity of four fifths or more.
pub open spec fn spec_similar(a: Seq<Seq<Seq<char>>>, b: Seq<Seq<Seq<char>>>) -> bool {
    a == b || (a.len() == b.len() && spec_comparable(a, b) && 5 * spec_similarity_num(a, b) >= 4
        * spec_similarity_den(a, b))
}

/// Whether two fingerprints hold the same tokens in the same order.
pub fn same_fingerprint(x: &Vec<Token>, y: &Vec<Token>) -> (r: bool)
    ensures
        r == (spec_views(x@) == spec_views(y@)),
{
    if x.len() != y.len() {
        assert(spec_views(x@).len() != spec_views(y@).len());
        return false;
    }
    let mut i: usize = 0;
    while i < x.len()
        invariant
            i <= x.len() == y.len(),
            forall|k: int| 0 <= k < i ==> x@[k]@ == y@[k]@,
        decreases x.len() - i,
    {
        if x[i] != y[i] {
            assert(spec_views(x@)[i as int] != spec_views(y@)[i as int]);
            return false;
        }
        i += 1;
    }
    assert(spec_views(x@) =~= spec_views(y@));
    true
}

/// Whether two signatures hold the same fingerprints in the same order.
pub fn same_signature(a: &Vec<Vec<Token>>, b: &Vec<Vec<Token>>) -> (r: bool)
    ensures
        r == (spec_signature(a@) == spec_signature(b@)),
{
    if a.len() != b.len() {
        assert(spec_signature(a@).len() != spec_signature(b@).len());
        return false;
    }
    let mut i: usize = 0;
    while i < a.len()
        invariant
            i <= a.len() == b.len(),
            forall|k: int| 0 <= k < i ==> spec_views(a@[k]@) == spec_views(b@[k]@),
        decreases a.len() - i,
    {
        if !same_fingerprint(&a[i], &b[i]) {
            assert(spec_signature(a@)[i as int] != spec_signature(b@)[i as int]);
            return false;
        }
        i += 1;
    }
    assert(spec_signature(a@) =~= spec_signature(b@));
    true
}

/// Whether the files with the signatures `a` and `b` belong to one group.
pub fn similar(a: &Vec<Vec<Token>>, b: &Vec<Vec<Token>>) -> (r: bool)
    ensures
        r == spec_similar(spec_signature(a@), spec_signature(b@)),
{
    if same_signature(a, b) {
        return true;
    }
    let ghost sa = spec_signature(a@);
    let ghost sb = spec_signature(b@);
    if a.len() != b.len() {
        assert(sa.len() != sb.len());
        return false;
    }
    let n: usize = a.len();
    let mut num = Natural::from_usize(0);
    let mut den = Natural::from_usize(1);
    let mut i: usize = 0;
    while i < n
        invariant
            i <= n == a.len() == b.len(),
            sa == spec_signature(a@),
            sb == spec_signature(b@),
            sa != sb,
            num.value() == spec_gap_num(sa, sb, i as nat),
            den.value() == spec_gap_den(sa, sb, i as nat),
            forall|k: int| 0 <= k < i ==> spec_longer(#[trigger] sa[k], sb[k]) > 0,
        decreases n - i,
    {
        let m: usize = if a[i].len() >= b[i].len() {
            a[i].len()
        } else {
            b[i].len()
        };
        assert(m == spec_longer(sa[i as int], sb[i as int]));
        if m == 0 {
            assert(spec_longer(sa[i as int], sb[i as int]) == 0);
            assert(!spec_comparable(sa, sb));
            return false;
        }
        proof {
            crate::token::lemma_token_equality();
        }
        let here = count_missing(a[i].as_slice(), b[i].as_slice());
        let there = count_missing(b[i].as_slice(), a[i].as_slice());
        let ghost old_num = num.value();
        let ghost old_den = den.value();
        num = num.times(m).plus(&den.times(here)).plus(&den.times(there));
        den = den.times(m);
        proof {
            assert(old_num * m + old_den * here + old_den * there == old_num * m + (here + there)
                * old_den) by (nonlinear_arith);
        }
        i += 1;
    }
    assert(spec_comparable(sa, sb));
    let ghost p = n * den.value();
    let r = num.times(5).at_most(&den.times(n));
    proof {
        assert(den.value() * n == p) by (nonlinear_arith)
            requires
                p == n * den.value(),
        ;
        assert(spec_similarity_num(sa, sb) == p - num.value());
        assert(spec_similarity_den(sa, sb) == p);
    }
    r
}

/// The shares of differing tokens are the same whichever signature comes
/// first.
proof fn lemma_gap_symmetric(a: Seq<Seq<Seq<char>>>, b: Seq<Seq<Seq<char>>>, k: nat)
    ensures
        spec_gap_den(a, b, k) == spec_gap_den(b, a, k),
        spec_gap_num(a, b, k) == spec_gap_num(b, a, k),
    decreases k,
{
    if k > 0 {
        lemma_gap_symmetric(a, b, (k - 1) as nat);
    }
}

/// A signature differs from itself in nothing.
proof fn lemma_gap_of_equal(a: Seq<Seq<Seq<char>>>, k: nat)
    requires
        k <= a.len(),
    ensures
        spec_gap_num(a, a, k) == 0,
    decreases k,
{
    if k > 0 {
        lemma_gap_of_equal(a, (k - 1) as nat);
        let x = a[k - 1];
        assert(x.to_set().difference(x.to_set()) =~= Set::<Seq<char>>::empty());
        assert(spec_differences(x, x) == 0);
        assert(0 * spec_longer(x, x) == 0);
        assert(0 * spec_gap_den(a, a, (k - 1) as nat) == 0);
    }
}

/// Where no aligned pair differs in more tokens than its longer fingerprint
/// holds, the shares of the first `k` pairs sum to `k` at most.
proof fn lemma_gap_bounded(a: Seq<Seq<Seq<char>>>, b: Seq<Seq<Seq<char>>>, k: nat)
    requires
        k <= spec_aligned(a, b),
        forall|i: int|
            0 <= i < spec_aligned(a, b) ==> spec_differences(#[trigger] a[i], b[i]) <= spec_longer(
                a[i],
                b[i],
            ),
    ensures
        spec_gap_num(a, b, k) <= k * spec_gap_den(a, b, k),
    decreases k,
{
    if k > 0 {
        lemma_gap_bounded(a, b, (k - 1) as nat);
        let n = spec_gap_num(a, b, (k - 1) as nat);
        let d = spec_gap_den(a, b, (k - 1) as nat);
        let m = spec_longer(a[k - 1], b[k - 1]);
        let x = spec_differences(a[k - 1], b[k - 1]);
        assert(n * m + x * d <= k * (d * m)) by (nonlinear_arith)
            requires
                n <= (k - 1) * d,
                x <= m,
                k >= 1,
        ;
    } else {
        assert(0 * spec_gap_den(a, b, 0) == 0);
    }
}

/// The similarity of `a` and `b` is that of `b` and `a`, and so is the
/// answer to whether they belong to one group.
pub proof fn lemma_similarity_symmetric(a: Seq<Seq<Seq<char>>>, b: Seq<Seq<Seq<char>>>)
    ensures
        spec_similarity_num(a, b) == spec_similarity_num(b, a),
        spec_similarity_den(a, b) == spec_similarity_den(b, a),
        spec_similar(a, b) == spec_similar(b, a),
{
    lemma_gap_symmetric(a, b, spec_aligned(a, b));
    assert(spec_comparable(a, b) == spec_comparable(b, a)) by {
        if spec_comparable(a, b) {
            assert forall|i: int| 0 <= i < spec_aligned(b, a) implies spec_longer(
                #[trigger] b[i],
                a[i],
            ) > 0 by {
                assert(spec_longer(a[i], b[i]) > 0);
            }
        }
        if spec_comparable(b, a) {
            assert forall|i: int| 0 <= i < spec_aligned(a, b) implies spec_longer(
                #[trigger] a[i],
                b[i],
            ) > 0 by {
                assert(spec_longer(b[i], a[i]) > 0);
            }
        }
    }
}

/// The similarity is never more than one.
pub proof fn lemma_similarity_at_most_one(a: Seq<Seq<Seq<char>>>, b: Seq<Seq<Seq<char>>>)
    ensures
        spec_similarity_num(a, b) <= spec_similarity_den(a, b),
{
    let k = spec_aligned(a, b);
    let n = spec_sheets(a, b);
    let d = spec_gap_den(a, b, k);
    assert(k * d <= n * d) by (nonlinear_arith)
        requires
            k <= n,
            d >= 0,
    ;
}

/// The similarity of a signature and itself is one: numerator and
/// denominator are the same.
pub proof fn lemma_similarity_of_equal(a: Seq<Seq<Seq<char>>>)
    ensures
        spec_similarity_num(a, a) == spec_similarity_den(a, a),
        spec_similar(a, a),
{
    lemma_gap_of_equal(a, a.len());
}

/// The similarity is not negative where no aligned pair of fingerprints
/// differs in more tokens than its longer one holds.
pub proof fn lemma_similarity_not_negative(a: Seq<Seq<Seq<char>>>, b: Seq<Seq<Seq<char>>>)
    requires
        forall|i: int|
            0 <= i < spec_aligned(a, b) ==> spec_differences(#[trigger] a[i], b[i]) <= spec_longer(
                a[i],
                b[i],
            ),
    ensures
        0 <= spec_similarity_num(a, b),
        0 <= spec_similarity_den(a, b),
{
    lemma_gap_bounded(a, b, spec_aligned(a, b));
}

} // verus!
