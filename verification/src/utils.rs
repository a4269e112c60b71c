//! Sorting and small helpers.

use std::cmp::Ordering;
use rand::Rng;
use vstd::prelude::*;

verus! {

/// Whether the value of the `CI` variable, as the caller read it, says
/// that the program runs under continuous integration.
pub fn is_ci(ci: Option<&str>) -> (res: bool)
    ensures
        res == (ci matches Some(s) && s@ == "true"@),
{
    match ci {
        Some(s) => {
            let given: String = s.to_owned();
            let wanted: String = "true".to_owned();
            given == wanted
        },
        None => false,
    }
}

/// The part of `s` from `begin` up to, not including, `end`.
pub open spec fn window<T>(s: Seq<T>, begin: usize, end: usize) -> Seq<T> {
    s.subrange(begin as int, end as int)
}

/// `rand::Rng::gen_range` over `low..high` on the generator of the
/// current thread (`rand::thread_rng`): some index of that range. Which
/// one is not stated.
#[verifier::external_body]
pub(crate) fn random_index(low: usize, high: usize) -> (r: usize)
    requires
        low < high,
    ensures
        low <= r < high,
{
    rand::thread_rng().gen_range(low..high)
}

/// `slice::swap` on a vector: the elements at `i` and `j` change places.
#[verifier::external_body]
pub(crate) fn swap<T>(v: &mut Vec<T>, i: usize, j: usize)
    requires
        i < old(v).len(),
        j < old(v).len(),
    ensures
        final(v)@ == old(v)@.update(i as int, old(v)@[j as int]).update(j as int, old(v)@[i as int]),
{
    v.swap(i, j)
}

/// The element of `s` at `i`.
pub open spec fn item<T>(s: Seq<T>, i: usize) -> T {
    s[i as int]
}

/// `cmp_fn` can put `a` before `b` or level with it: one of its answers
/// for the pair is not `Greater`.
pub open spec fn not_after<T, F: Fn(&T, &T) -> Ordering>(cmp_fn: &F, a: &T, b: &T) -> bool {
    call_ensures(cmp_fn, (a, b), Ordering::Less) || call_ensures(cmp_fn, (a, b), Ordering::Equal)
}

/// Every answer of `cmp_fn` agrees with the relation `le`: where it does
/// not answer `Greater` the first value stands in `le` to the second, and
/// where it does, the second to the first.
pub open spec fn answers_by<T, F: Fn(&T, &T) -> Ordering>(
    cmp_fn: &F,
    le: spec_fn(T, T) -> bool,
) -> bool {
    forall|a: &T, b: &T, o: Ordering| #[trigger]
        call_ensures(cmp_fn, (a, b), o) ==> if o == Ordering::Greater {
            le(*b, *a)
        } else {
            le(*a, *b)
        }
}

/// `le` carries over: from `a` to `b` and from `b` to `c` gives from `a` to `c`.
pub open spec fn is_transitive<T>(le: spec_fn(T, T) -> bool) -> bool {
    forall|a: T, b: T, c: T| #[trigger] le(a, b) && #[trigger] le(b, c) ==> le(a, c)
}

/// `cmp_fn` accepts every pair of elements of `s` between `begin` and `end`.
pub open spec fn comparable_between<T, F: Fn(&T, &T) -> Ordering>(
    s: Seq<T>,
    begin: usize,
    end: usize,
    cmp_fn: &F,
) -> bool {
    forall|i: int, j: int|
        begin <= i < end && begin <= j < end ==> call_requires(cmp_fn, (&s[i], &s[j]))
}

/// Each element of `s` between `begin` and `end` stands in `le` to every
/// later one of that part.
pub open spec fn sorted_between<T>(
    s: Seq<T>,
    begin: usize,
    end: usize,
    le: spec_fn(T, T) -> bool,
) -> bool {
    forall|i: int, j: int| begin <= i < j < end ==> le(s[i], s[j])
}

/// `after` holds what `before` holds, the elements between `begin` and
/// `end` in some other order and the rest in place.
pub open spec fn rearranged_between<T>(before: Seq<T>, after: Seq<T>, begin: usize, end: usize) -> bool {
    &&& after.len() == before.len()
    &&& forall|k: int| 0 <= k < before.len() && !(begin <= k < end) ==> after[k] == before[k]
    &&& window(after, begin, end).to_multiset() == window(before, begin, end).to_multiset()
}

/// Changing the places of two elements between `begin` and `end` rearranges
/// that part and nothing else.
pub proof fn lemma_swap_rearranges<T>(s: Seq<T>, begin: usize, end: usize, i: usize, j: usize)
    requires
        begin <= i < end <= s.len(),
        begin <= j < end,
    ensures
        rearranged_between(
            s,
            s.update(i as int, s[j as int]).update(j as int, s[i as int]),
            begin,
            end,
        ),
{
    broadcast use {
        vstd::seq_lib::to_multiset_update,
        vstd::seq_lib::to_multiset_contains,
        vstd::multiset::group_multiset_axioms,
    };

    let t = s.update(i as int, s[j as int]).update(j as int, s[i as int]);
    let w = window(s, begin, end);
    let wi = i - begin;
    let wj = j - begin;
    let once = w.update(wi, w[wj]);
    assert(window(t, begin, end) =~= once.update(wj, w[wi]));
    assert(w.contains(w[wi]) && w.contains(w[wj]));
    assert(once.to_multiset() == w.to_multiset().insert(w[wj]).remove(w[wi]));
    assert(once.update(wj, w[wi]).to_multiset() == once.to_multiset().insert(w[wi]).remove(
        once[wj],
    ));
    assert(once.update(wj, w[wi]).to_multiset() =~= w.to_multiset());
}

/// A part rearranged inside a wider part rearranges the wider part.
pub proof fn lemma_rearranged_widens<T>(
    before: Seq<T>,
    after: Seq<T>,
    begin: usize,
    end: usize,
    lo: usize,
    hi: usize,
)
    requires
        begin <= lo <= hi <= end <= before.len(),
        rearranged_between(before, after, lo, hi),
    ensures
        rearranged_between(before, after, begin, end),
{
    broadcast use vstd::seq_lib::lemma_multiset_commutative;

    let head = window(before, begin, lo);
    let tail = window(before, hi, end);
    assert(window(after, begin, lo) =~= head);
    assert(window(after, hi, end) =~= tail);
    assert(window(before, begin, end) =~= head + window(before, lo, hi) + tail);
    assert(window(after, begin, end) =~= head + window(after, lo, hi) + tail);
}

/// Each element of a rearranged part stood somewhere in that part before.
pub proof fn lemma_rearranged_origin<T>(
    before: Seq<T>,
    after: Seq<T>,
    begin: usize,
    end: usize,
    k: int,
) -> (k0: int)
    requires
        begin <= k < end <= before.len(),
        rearranged_between(before, after, begin, end),
    ensures
        begin <= k0 < end,
        before[k0] == after[k],
{
    broadcast use vstd::seq_lib::to_multiset_contains;

    let w0 = window(before, begin, end);
    let w1 = window(after, begin, end);
    assert(w1[k - begin] == after[k]);
    assert(w1.contains(after[k]));
    assert(w1.to_multiset().count(after[k]) > 0);
    assert(w0.contains(after[k]));
    let d = choose|d: int| 0 <= d < w0.len() && w0[d] == after[k];
    begin + d
}

/// Splits the part of `v` between `begin` and `end` round the element at
/// `p`: that element moves to the returned place, what `cmp_fn` does not
/// put after it stands before that place, and the rest behind it.
pub fn partition_at<T>(
    v: &mut Vec<T>,
    begin: usize,
    end: usize,
    p: usize,
    cmp_fn: &impl Fn(&T, &T) -> Ordering,
) -> (mid: usize)
    requires
        begin <= p < end <= old(v).len(),
        comparable_between(old(v)@, begin, end, cmp_fn),
    ensures
        begin <= mid < end,
        rearranged_between(old(v)@, final(v)@, begin, end),
        item(final(v)@, mid) == item(old(v)@, p),
        forall|k: int|
            begin <= k < mid ==> not_after(cmp_fn, &final(v)@[k], &item(final(v)@, mid)),
        forall|k: int|
            mid < k < end ==> call_ensures(
                cmp_fn,
                (&final(v)@[k], &item(final(v)@, mid)),
                Ordering::Greater,
            ),
{
    let ghost pivot = item(v@, p);
    let last: usize = end - 1;
    proof {
        lemma_swap_rearranges(v@, begin, end, p, last);
    }
    swap(v, p, last);
    let mut i: usize = begin;
    let mut j: usize = begin;
    while j < last
        invariant
            begin <= i <= j <= last == end - 1,
            end <= v.len(),
            rearranged_between(old(v)@, v@, begin, end),
            comparable_between(v@, begin, end, cmp_fn),
            item(v@, last) == pivot,
            forall|k: int| begin <= k < i ==> not_after(cmp_fn, &v@[k], &pivot),
            forall|k: int|
                i <= k < j ==> call_ensures(cmp_fn, (&v@[k], &pivot), Ordering::Greater),
        decreases end - j,
    {
        let ghost before = v@;
        match cmp_fn(&v[j], &v[last]) {
            Ordering::Greater => {},
            _ => {
                proof {
                    lemma_swap_rearranges(before, begin, end, i, j);
                }
                swap(v, i, j);
                i += 1;
            },
        }
        j += 1;
    }
    proof {
        lemma_swap_rearranges(v@, begin, end, i, last);
    }
    swap(v, i, last);
    i
}

/// Splits the part of `v` between `begin` and `end` round an element of
/// it picked at random, as `partition_at` does round a given one.
fn partition<T>(
    v: &mut Vec<T>,
    begin: usize,
    end: usize,
    cmp_fn: &impl Fn(&T, &T) -> Ordering,
) -> (mid: usize)
    requires
        begin < end <= old(v).len(),
        comparable_between(old(v)@, begin, end, cmp_fn),
    ensures
        begin <= mid < end,
        rearranged_between(old(v)@, final(v)@, begin, end),
        forall|k: int|
            begin <= k < mid ==> not_after(cmp_fn, &final(v)@[k], &item(final(v)@, mid)),
        forall|k: int|
            mid < k < end ==> call_ensures(
                cmp_fn,
                (&final(v)@[k], &item(final(v)@, mid)),
                Ordering::Greater,
            ),
{
    let p = random_index(begin, end);
    partition_at(v, begin, end, p, cmp_fn)
}

/// Sorts the part of `v` between `begin` and `end` in place by quicksort,
/// leaving the rest of `v` as it is. The part always holds the elements it
/// held, and it comes out in the order of every transitive relation that
/// the answers of `cmp_fn` agree with.
pub fn inplace_sort<T>(
    v: &mut Vec<T>,
    begin: usize,
    end: usize,
    cmp_fn: &impl Fn(&T, &T) -> Ordering,
)
    requires
        begin <= end,
        end - begin >= 2 ==> end <= old(v).len() && comparable_between(
            old(v)@,
            begin,
            end,
            cmp_fn,
        ),
    ensures
        rearranged_between(old(v)@, final(v)@, begin, end),
        forall|le: spec_fn(T, T) -> bool| #[trigger]
            answers_by(cmp_fn, le) && is_transitive(le) ==> sorted_between(
                final(v)@,
                begin,
                end,
                le,
            ),
    decreases end - begin,
{
    if end - begin < 2 {
        return ;
    }
    let pivot_index = partition(v, begin, end, cmp_fn);
    let ghost split = v@;
    proof {
        lemma_comparable_rearranged(old(v)@, split, begin, end, cmp_fn);
    }
    inplace_sort(v, begin, pivot_index, cmp_fn);
    let ghost left = v@;
    proof {
        lemma_rearranged_widens(split, left, begin, end, begin, pivot_index);
        lemma_comparable_rearranged(old(v)@, left, begin, end, cmp_fn);
    }
    let next: usize = pivot_index + 1;
    inplace_sort(v, next, end, cmp_fn);
    proof {
        lemma_rearranged_widens(left, v@, begin, end, next, end);
        assert forall|le: spec_fn(T, T) -> bool| #[trigger]
            answers_by(cmp_fn, le) && is_transitive(le) implies sorted_between(
            v@,
            begin,
            end,
            le,
        ) by {
            lemma_sorted_round_pivot(split, left, v@, begin, end, pivot_index, next, cmp_fn, le);
        }
    }
}

/// What `cmp_fn` accepts of a part it accepts of that part rearranged.
proof fn lemma_comparable_rearranged<T, F: Fn(&T, &T) -> Ordering>(
    before: Seq<T>,
    after: Seq<T>,
    begin: usize,
    end: usize,
    cmp_fn: &F,
)
    requires
        begin <= end <= before.len(),
        rearranged_between(before, after, begin, end),
        comparable_between(before, begin, end, cmp_fn),
    ensures
        forall|lo: usize, hi: usize|
            begin <= lo <= hi <= end ==> #[trigger] comparable_between(after, lo, hi, cmp_fn),
{
    assert forall|i: int, j: int| begin <= i < end && begin <= j < end implies call_requires(
        cmp_fn,
        (&after[i], &after[j]),
    ) by {
        let i0 = lemma_rearranged_origin(before, after, begin, end, i);
        let j0 = lemma_rearranged_origin(before, after, begin, end, j);
    }
}

/// A part split round a pivot whose two sides were then sorted is sorted.
proof fn lemma_sorted_round_pivot<T, F: Fn(&T, &T) -> Ordering>(
    split: Seq<T>,
    left: Seq<T>,
    done: Seq<T>,
    begin: usize,
    end: usize,
    mid: usize,
    next: usize,
    cmp_fn: &F,
    le: spec_fn(T, T) -> bool,
)
    requires
        begin <= mid < end <= split.len(),
        answers_by(cmp_fn, le),
        is_transitive(le),
        forall|k: int| begin <= k < mid ==> not_after(cmp_fn, &split[k], &item(split, mid)),
        forall|k: int|
            mid < k < end ==> call_ensures(
                cmp_fn,
                (&split[k], &item(split, mid)),
                Ordering::Greater,
            ),
        rearranged_between(split, left, begin, mid),
        sorted_between(left, begin, mid, le),
        next == mid + 1,
        rearranged_between(left, done, next, end),
        sorted_between(done, next, end, le),
    ensures
        sorted_between(done, begin, end, le),
{
    let pivot = item(split, mid);
    assert(item(done, mid) == pivot);
    assert forall|i: int, j: int| begin <= i < j < end implies le(done[i], done[j]) by {
        if i < mid {
            let i0 = lemma_rearranged_origin(split, left, begin, mid, i);
            assert(not_after(cmp_fn, &done[i], &pivot));
            assert(le(done[i], pivot));
        }
        if j > mid {
            let j0 = lemma_rearranged_origin(left, done, next, end, j);
            assert(call_ensures(cmp_fn, (&done[j], &pivot), Ordering::Greater));
            assert(le(pivot, done[j]));
        }
    }
}

/// The whole part of the square root of `n`.
pub fn isqrt(n: usize) -> (r: usize)
    ensures
        r * r <= n < (r + 1) * (r + 1),
{
    let mut lo: u64 = 0;
    let mut hi: u64 = if (n as u64) < 0x1_0000_0000 {
        n as u64 + 1
    } else {
        0x1_0000_0000
    };
    proof {
        assert(n < hi * hi) by (nonlinear_arith)
            requires
                n <= u64::MAX,
                hi == (if n < 0x1_0000_0000 {
                    n + 1
                } else {
                    0x1_0000_0000
                }),
        ;
    }
    while hi - lo > 1
        invariant
            lo < hi <= 0x1_0000_0000,
            lo * lo <= n < hi * hi,
        decreases hi - lo,
    {
        let mid: u64 = lo + (hi - lo) / 2;
        proof {
            assert(mid * mid <= 0x1_0000_0000 * 0x1_0000_0000) by (nonlinear_arith)
                requires
                    0 <= mid <= 0x1_0000_0000,
            ;
        }
        if (mid as u128) * (mid as u128) <= n as u128 {
            lo = mid;
        } else {
            hi = mid;
        }
    }
    proof {
        assert(lo <= n) by (nonlinear_arith)
            requires
                lo * lo <= n,
                lo >= 0,
        ;
    }
    lo as usize
}

} // verus!
