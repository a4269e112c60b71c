//! The lattice of a gradient-noise field: three shuffled tables that
//! send each point of the integer lattice to one of 256 gradients.

use vstd::prelude::*;
use crate::utils::{lemma_rearranged_origin, lemma_swap_rearranges, random_index, rearranged_between, swap, window};

verus! {

/// The number of gradients of a field, and the length of its tables.
pub const PERLIN_POINT_COUNT: usize = 256;

/// The numbers from 0 up to, not including, `n`, in order.
pub open spec fn counting(n: usize) -> Seq<usize> {
    Seq::new(n as nat, |i: int| i as usize)
}

/// `p` holds each number below its length once.
pub open spec fn is_shuffle(p: Seq<usize>) -> bool {
    p.len() <= usize::MAX && p.to_multiset() == counting(p.len() as usize).to_multiset()
}

/// The remainder of `x` by 256, from 0 to 255 whatever the sign of `x`.
pub fn low_byte(x: i64) -> (r: usize)
    ensures
        r == x % 256,
{
    let t = x % 256;
    let m = if t < 0 {
        t + 256
    } else {
        t
    };
    m as usize
}

/// The three tables of a noise field.
pub struct Perlin {
    perm_x: Vec<usize>,
    perm_y: Vec<usize>,
    perm_z: Vec<usize>,
}

impl Perlin {
    #[verifier::type_invariant]
    spec fn tables_are_shuffles(self) -> bool {
        &&& self.perm_x@.len() == PERLIN_POINT_COUNT && is_shuffle(self.perm_x@)
        &&& self.perm_y@.len() == PERLIN_POINT_COUNT && is_shuffle(self.perm_y@)
        &&& self.perm_z@.len() == PERLIN_POINT_COUNT && is_shuffle(self.perm_z@)
    }

    /// The table for the first coordinate.
    pub closed spec fn table_x(self) -> Seq<usize> {
        self.perm_x@
    }

    /// The table for the second coordinate.
    pub closed spec fn table_y(self) -> Seq<usize> {
        self.perm_y@
    }

    /// The table for the third coordinate.
    pub closed spec fn table_z(self) -> Seq<usize> {
        self.perm_z@
    }

    /// The gradient of the lattice point `(i, j, k)`.
    pub open spec fn gradient_of(self, i: int, j: int, k: int) -> usize {
        self.table_x()[i % 256] ^ self.table_y()[j % 256] ^ self.table_z()[k % 256]
    }

    /// A field with three tables shuffled at random.
    pub fn new() -> (res: Self)
        ensures
            res.table_x().len() == PERLIN_POINT_COUNT && is_shuffle(res.table_x()),
            res.table_y().len() == PERLIN_POINT_COUNT && is_shuffle(res.table_y()),
            res.table_z().len() == PERLIN_POINT_COUNT && is_shuffle(res.table_z()),
    {
        let perm_x = Self::perlin_generate_perm();
        let perm_y = Self::perlin_generate_perm();
        let perm_z = Self::perlin_generate_perm();
        Self { perm_x, perm_y, perm_z }
    }

    /// The gradients of the eight corners of the lattice cell whose least
    /// corner is `(i, j, k)`: the entry at `[di][dj][dk]` is that of the
    /// corner `(i + di, j + dj, k + dk)`.
    pub fn corners(&self, i: i64, j: i64, k: i64) -> (c: [[[usize; 2]; 2]; 2])
        ensures
            forall|di: int, dj: int, dk: int|
                0 <= di < 2 && 0 <= dj < 2 && 0 <= dk < 2 ==> #[trigger] c[di][dj][dk]
                    == self.gradient_of(i + di, j + dj, k + dk),
            forall|di: int, dj: int, dk: int|
                0 <= di < 2 && 0 <= dj < 2 && 0 <= dk < 2 ==> #[trigger] c[di][dj][dk]
                    < PERLIN_POINT_COUNT,
    {
        let c = [
            [
                [self.corner(i, j, k, 0, 0, 0), self.corner(i, j, k, 0, 0, 1)],
                [self.corner(i, j, k, 0, 1, 0), self.corner(i, j, k, 0, 1, 1)],
            ],
            [
                [self.corner(i, j, k, 1, 0, 0), self.corner(i, j, k, 1, 0, 1)],
                [self.corner(i, j, k, 1, 1, 0), self.corner(i, j, k, 1, 1, 1)],
            ],
        ];
        c
    }

    /// The gradient of the corner `(i + di, j + dj, k + dk)`.
    fn corner(&self, i: i64, j: i64, k: i64, di: usize, dj: usize, dk: usize) -> (g: usize)
        requires
            di < 2,
            dj < 2,
            dk < 2,
        ensures
            g == self.gradient_of(i + di, j + dj, k + dk),
            g < PERLIN_POINT_COUNT,
    {
        proof {
            use_type_invariant(self);
            vstd::arithmetic::div_mod::lemma_add_mod_noop(i as int, di as int, 256);
            vstd::arithmetic::div_mod::lemma_add_mod_noop(j as int, dj as int, 256);
            vstd::arithmetic::div_mod::lemma_add_mod_noop(k as int, dk as int, 256);
            lemma_shuffle_entries(self.perm_x@);
            lemma_shuffle_entries(self.perm_y@);
            lemma_shuffle_entries(self.perm_z@);
        }
        let a = self.perm_x[(low_byte(i) + di) % 256];
        let b = self.perm_y[(low_byte(j) + dj) % 256];
        let c = self.perm_z[(low_byte(k) + dk) % 256];
        let g = a ^ b ^ c;
        assert(g < 256) by (bit_vector)
            requires
                g == a ^ b ^ c,
                a < 256,
                b < 256,
                c < 256,
        ;
        g
    }

    /// The numbers below 256 in an order drawn at random.
    pub fn perlin_generate_perm() -> (p: Vec<usize>)
        ensures
            p@.len() == PERLIN_POINT_COUNT,
            is_shuffle(p@),
    {
        let mut p: Vec<usize> = Vec::new();
        let mut i: usize = 0;
        while i < PERLIN_POINT_COUNT
            invariant
                i <= PERLIN_POINT_COUNT,
                p@ == counting(i),
            decreases PERLIN_POINT_COUNT - i,
        {
            p.push(i);
            proof {
                assert(p@ =~= counting((i + 1) as usize));
            }
            i += 1;
        }
        let ghost sorted = p@;
        Self::permute(&mut p);
        proof {
            assert(window(sorted, 0, 256) =~= sorted);
            assert(window(p@, 0, 256) =~= p@);
        }
        p
    }

    /// Shuffles `p`: going down from the last place to the second, what
    /// stands in each place changes places with what stands in a place
    /// drawn at random from those up to it. The outcome is `p` shuffled by
    /// the places drawn, whatever they were, and so holds what `p` held.
    pub fn permute(p: &mut Vec<usize>)
        ensures
            final(p)@.len() == old(p)@.len(),
            final(p)@.to_multiset() == old(p)@.to_multiset(),
            exists|draws: Seq<usize>| #[trigger]
                drawn_for(draws, old(p)@.len()) && final(p)@ == shuffled_from(old(p)@, draws, 1),
    {
        let n = p.len();
        let mut i: usize = n;
        let ghost mut draws: Seq<usize> = Seq::new(n as nat, |k: int| 0usize);
        proof {
            assert(window(p@, 0, n) =~= p@);
        }
        while i > 1
            invariant
                i <= n == p@.len() == old(p)@.len(),
                n >= 1 ==> i >= 1,
                rearranged_between(old(p)@, p@, 0, n),
                draws.len() == n,
                forall|k: int| 0 <= k < n ==> #[trigger] draws[k] <= k,
                p@ == shuffled_from(old(p)@, draws, i as int),
            decreases i,
        {
            i -= 1;
            let target = random_index(0, i + 1);
            proof {
                lemma_swap_rearranges(p@, 0, n, i, target);
                lemma_shuffled_by_later_draws(
                    old(p)@,
                    draws,
                    draws.update(i as int, target),
                    i + 1,
                );
                draws = draws.update(i as int, target);
            }
            swap(p, i, target);
        }
        proof {
            assert(window(p@, 0, n) =~= p@);
            assert(window(old(p)@, 0, n) =~= old(p)@);
            assert(drawn_for(draws, old(p)@.len()));
            assert(p@ == shuffled_from(old(p)@, draws, 1));
        }
    }
}

/// `draws` holds a place for each place of a sequence `n` long, and none
/// after the place it is drawn for.
pub open spec fn drawn_for(draws: Seq<usize>, n: nat) -> bool {
    draws.len() == n && forall|k: int| 0 <= k < n ==> #[trigger] draws[k] <= k
}

/// `s` after each place from the last down to `from` has changed places,
/// in that order, with the place that `draws` holds for it.
pub open spec fn shuffled_from<T>(s: Seq<T>, draws: Seq<usize>, from: int) -> Seq<T>
    decreases s.len() - from,
{
    if from < 0 || from >= s.len() {
        s
    } else {
        let before = shuffled_from(s, draws, from + 1);
        before.update(from, before[draws[from] as int]).update(draws[from] as int, before[from])
    }
}

/// What comes of the places from `from` on does not depend on what is
/// drawn for the places before it.
pub proof fn lemma_shuffled_by_later_draws<T>(
    s: Seq<T>,
    a: Seq<usize>,
    b: Seq<usize>,
    from: int,
)
    requires
        0 <= from,
        forall|k: int| from <= k < s.len() ==> a[k] == b[k],
    ensures
        shuffled_from(s, a, from) == shuffled_from(s, b, from),
    decreases s.len() - from,
{
    if from < s.len() {
        lemma_shuffled_by_later_draws(s, a, b, from + 1);
    }
}

/// Every entry of a shuffle is below its length.
pub proof fn lemma_shuffle_entries(p: Seq<usize>)
    requires
        is_shuffle(p),
    ensures
        forall|i: int| 0 <= i < p.len() ==> #[trigger] p[i] < p.len(),
{
    broadcast use vstd::seq_lib::to_multiset_contains;

    let base = counting(p.len() as usize);
    assert forall|i: int| 0 <= i < p.len() implies #[trigger] p[i] < p.len() by {
        assert(p.contains(p[i]));
        assert(p.to_multiset().count(p[i]) > 0);
        assert(base.contains(p[i]));
        let k = choose|k: int| 0 <= k < base.len() && base[k] == p[i];
    }
}

} // verus!
