//! Random number helpers: a small deterministic generator, and shuffling and
//! picking driven by macroquad's shared generator.

use vstd::prelude::*;

verus! {

broadcast use {vstd::multiset::group_multiset_axioms, vstd::seq_lib::group_to_multiset_ensures};

// ---------------------------------------------------------------------------
// Deterministic generator
// ---------------------------------------------------------------------------

/// The constant mixed into a seed.
pub open spec fn seed_mix() -> u64 {
    0x9E3779B97F4A7C15
}

/// The multiplier applied to the state to produce an output.
pub open spec fn output_multiplier() -> u64 {
    0x2545F4914F6CDD1D
}

/// One xorshift step of the generator's state.
pub open spec fn xorshift(x: u64) -> u64 {
    let a = x ^ (x >> 12u64);
    let b = a ^ (a << 25u64);
    b ^ (b >> 27u64)
}

/// The value produced from a (new) state: the state times the multiplier,
/// modulo 2^64.
pub open spec fn scramble(x: u64) -> u64 {
    ((x as nat * output_multiplier() as nat) % 0x1_0000_0000_0000_0000) as u64
}

/// The state after `n` draws from a generator seeded with `seed`.
pub open spec fn state_after(seed: u64, n: nat) -> u64
    decreases n,
{
    if n == 0 {
        seed ^ seed_mix()
    } else {
        xorshift(state_after(seed, (n - 1) as nat))
    }
}

/// The `n`-th value (counting from zero) drawn from a generator seeded with
/// `seed`.
pub open spec fn nth_output(seed: u64, n: nat) -> u64 {
    scramble(state_after(seed, n + 1))
}

/// Small deterministic RNG (xorshift64*) for reproducible generation.
#[derive(Debug, Clone, Copy)]
pub struct SeededRng {
    state: u64,
}

impl View for SeededRng {
    type V = u64;

    /// The generator's internal state.
    closed spec fn view(&self) -> u64 {
        self.state
    }
}

impl SeededRng {
    /// A generator whose state is the seed mixed with a fixed constant.
    pub fn new(seed: u64) -> (res: Self)
        ensures
            res@ == state_after(seed, 0),
    {
        let init = seed ^ 0x9E3779B97F4A7C15;
        SeededRng { state: init }
    }

    /// Advance the state by one xorshift step and return it scrambled.
    pub fn next_u64(&mut self) -> (res: u64)
        ensures
            final(self)@ == xorshift(old(self)@),
            res == scramble(final(self)@),
    {
        let mut x = self.state;
        x ^= x >> 12;
        x ^= x << 25;
        x ^= x >> 27;
        self.state = x;
        x.wrapping_mul(0x2545F4914F6CDD1D)
    }
}

/// Generators built from the same seed give the same values: after `n` draws
/// a generator seeded with `seed` is in `state_after(seed, n)`, and its next
/// value is `nth_output(seed, n)`, whatever else happened in the program.
pub proof fn law_seeded_rng_repeatable(seed: u64, n: nat, g: SeededRng, value: u64, next: SeededRng)
    requires
        g@ == state_after(seed, n),
        next@ == xorshift(g@),
        value == scramble(next@),
    ensures
        next@ == state_after(seed, n + 1),
        value == nth_output(seed, n),
{
}

// ---------------------------------------------------------------------------
// Macroquad's shared generator
// ---------------------------------------------------------------------------

/// Lengths below 2^53, for which a float draw scaled to the length stays
/// below it.
pub open spec fn drawable_len(n: int) -> bool {
    n < 0x20_0000_0000_0000
}

/// Draws an index in `0..bound` with `macroquad::rand::gen_range(0, bound)`.
/// quad-rand computes `(0.0 + bound as f64 * (rand() as f64 / 2^32)) as usize`,
/// which stays below `bound` while `bound` is exactly representable; which
/// index comes depends on the shared generator's hidden state, which no
/// clause describes.
#[verifier::external_body]
fn random_below(bound: usize) -> (r: usize)
    requires
        0 < bound,
        drawable_len(bound as int),
    ensures
        r < bound,
{
    macroquad::rand::gen_range(0, bound)
}

/// Exchanges two elements of a slice with `<[T]>::swap`.
#[verifier::external_body]
fn slice_swap<T>(slice: &mut [T], i: usize, j: usize)
    requires
        i < old(slice)@.len(),
        j < old(slice)@.len(),
    ensures
        final(slice)@ == old(slice)@.update(i as int, old(slice)@[j as int]).update(j as int, old(slice)@[i as int]),
{
    slice.swap(i, j);
}

/// `macroquad::rand::gen_range(0u64, u64::MAX)`. quad-rand scales a 32-bit
/// draw `d` as `(u64::MAX as f64) * (d as f64 / 2^32)`; `u64::MAX as f64` is
/// exactly `2^64`, so the product is exactly `d * 2^32`: a multiple of `2^32`
/// no larger than `2^64 - 2^32`. Which `d` comes depends on the shared
/// generator's hidden state, which no clause describes.
#[verifier::external_body]
fn draw_u64() -> (r: u64)
    ensures
        r < u64::MAX,
        r % 0x1_0000_0000 == 0,
{
    macroquad::rand::gen_range(0u64, u64::MAX)
}

/// `macroquad::rand::gen_range(0u32, u32::MAX)`, which quad-rand computes
/// as `(u32::MAX as f64 * (d as f64 / 2^32)) as u32` for a 32-bit draw `d`,
/// at most `u32::MAX - 1`. The value depends on the shared generator's
/// hidden state.
#[verifier::external_body]
fn draw_u32() -> (r: u32)
    ensures
        r < u32::MAX,
{
    macroquad::rand::gen_range(0u32, u32::MAX)
}

/// `macroquad::rand::srand`: reseeds the shared generator. Its state is
/// hidden, so nothing is claimed.
#[verifier::external_body]
fn seed_shared(seed: u64) {
    macroquad::rand::srand(seed)
}

/// Seed the shared random generator.
pub fn srand(seed: u64) {
    seed_shared(seed)
}

/// A random `u64` from the shared generator, useful for visual seeds and
/// IDs; never `u64::MAX`. It is a 32-bit draw scaled by `2^32`, so its low
/// 32 bits are zero.
pub fn random_u64() -> (r: u64)
    ensures
        r < u64::MAX,
        r % 0x1_0000_0000 == 0,
{
    draw_u64()
}

/// A random `u32` from the shared generator, useful for compact IDs; never
/// `u32::MAX`.
pub fn random_u32() -> (r: u32)
    ensures
        r < u32::MAX,
{
    draw_u32()
}

/// A percentage clamped to `0..=100`.
pub open spec fn clamp_percent(percent: i32) -> int {
    if percent < 0 {
        0
    } else if percent > 100 {
        100
    } else {
        percent as int
    }
}

/// Whether a roll in `0..100` lands under the percentage, clamped to
/// `0..=100`.
pub fn roll_hits(roll: usize, percent: i32) -> (res: bool)
    requires
        roll < 100,
    ensures
        res == (roll < clamp_percent(percent)),
{
    let clamped: i32 = if percent < 0 {
        0
    } else if percent > 100 {
        100
    } else {
        percent
    };
    (roll as i32) < clamped
}

/// `true` with a whole-number percentage chance: a roll of the shared
/// generator in `0..100` lands under the percentage, clamped to `0..=100`;
/// so always `false` at or below 0 and always `true` at or above 100.
pub fn chance_percent(percent: i32) -> (res: bool)
    ensures
        res ==> clamp_percent(percent) > 0,
        !res ==> clamp_percent(percent) < 100,
        percent <= 0 ==> !res,
        percent >= 100 ==> res,
        exists|roll: usize| #[trigger] generator_gave(100, roll) && roll < 100 && res == (roll < clamp_percent(percent)),
{
    let roll = random_below(100);
    let res = roll_hits(roll, percent);
    proof {
        assert(generator_gave(100, roll));
    }
    res
}

/// `s` with the elements at `i` and `j` exchanged.
pub open spec fn swapped<T>(s: Seq<T>, i: int, j: int) -> Seq<T> {
    s.update(i, s[j]).update(j, s[i])
}

/// Draws for a Fisher-Yates shuffle of `n` elements: one for each position
/// from the last down to the second, the `k`-th in `0..=n - 1 - k`.
pub open spec fn valid_draws(n: nat, draws: Seq<usize>) -> bool {
    &&& draws.len() == (if n == 0 { 0 } else { n - 1 })
    &&& forall|k: int| 0 <= k < draws.len() ==> #[trigger] draws[k] <= n - 1 - k
}

/// The Fisher-Yates shuffle of `s` with the given draws: the `k`-th draw
/// picks the element exchanged into position `s.len() - 1 - k`.
pub open spec fn fisher_yates<T>(s: Seq<T>, draws: Seq<usize>) -> Seq<T>
    decreases draws.len(),
{
    if draws.len() == 0 {
        s
    } else {
        swapped(fisher_yates(s, draws.drop_last()), s.len() - draws.len(), draws.last() as int)
    }
}

proof fn lemma_swap_multiset<T>(s: Seq<T>, i: int, j: int)
    requires
        0 <= i < s.len(),
        0 <= j < s.len(),
    ensures
        swapped(s, i, j).len() == s.len(),
        swapped(s, i, j).to_multiset() == s.to_multiset(),
{
    let mid = s.update(i, s[j]);
    assert(mid.to_multiset() == s.to_multiset().insert(s[j]).remove(s[i]));
    assert(swapped(s, i, j).to_multiset() == mid.to_multiset().insert(s[i]).remove(mid[j]));
    assert(swapped(s, i, j).to_multiset() =~= s.to_multiset());
}

proof fn lemma_fisher_yates_len<T>(s: Seq<T>, d: Seq<usize>)
    requires
        d.len() <= s.len(),
        forall|k: int| 0 <= k < d.len() ==> #[trigger] d[k] < s.len(),
    ensures
        fisher_yates(s, d).len() == s.len(),
    decreases d.len(),
{
    if d.len() > 0 {
        lemma_fisher_yates_len(s, d.drop_last());
    }
}

proof fn lemma_fisher_yates_no_dup<T>(s: Seq<T>, d: Seq<usize>)
    requires
        s.no_duplicates(),
        d.len() <= s.len(),
        forall|k: int| 0 <= k < d.len() ==> #[trigger] d[k] < s.len(),
    ensures
        fisher_yates(s, d).no_duplicates(),
    decreases d.len(),
{
    if d.len() > 0 {
        let d1 = d.drop_last();
        lemma_fisher_yates_no_dup(s, d1);
        lemma_fisher_yates_len(s, d1);
        let t = fisher_yates(s, d1);
        let i = s.len() - d.len();
        let j = d.last() as int;
        let u = swapped(t, i, j);
        assert forall|a: int, b: int| 0 <= a < b < u.len() implies u[a] != u[b] by {
            let pa = if a == i { j } else if a == j { i } else { a };
            let pb = if b == i { j } else if b == j { i } else { b };
            assert(u[a] == t[pa]);
            assert(u[b] == t[pb]);
        }
    }
}

/// The facts about the first draws of a valid draw sequence that a prefix
/// of it keeps.
proof fn lemma_draws_prefix(n: nat, d: Seq<usize>, l: int)
    requires
        valid_draws(n, d),
        0 <= l <= d.len(),
    ensures
        d.take(l).len() <= n,
        forall|k: int| 0 <= k < d.take(l).len() ==> #[trigger] d.take(l)[k] < n && d.take(l)[k] <= n - 1 - k,
{
    assert forall|k: int| 0 <= k < d.take(l).len() implies #[trigger] d.take(l)[k] < n && d.take(l)[k] <= n - 1 - k by {
        assert(d.take(l)[k] == d[k]);
    }
}

/// Once position `n - 1 - k` has received its element, the later draws do
/// not move it.
proof fn lemma_fisher_yates_fixes<T>(s: Seq<T>, d: Seq<usize>, k: int, l: int)
    requires
        valid_draws(s.len(), d),
        0 <= k < l <= d.len(),
    ensures
        fisher_yates(s, d.take(l))[s.len() - 1 - k] == fisher_yates(s, d.take(k + 1))[s.len() - 1 - k],
    decreases l,
{
    if l > k + 1 {
        lemma_fisher_yates_fixes(s, d, k, l - 1);
        let t = d.take(l);
        assert(t.drop_last() =~= d.take(l - 1));
        assert(t.last() == d[l - 1]);
        lemma_draws_prefix(s.len(), d, l - 1);
        lemma_fisher_yates_len(s, d.take(l - 1));
        assert(d[l - 1] <= s.len() - 1 - (l - 1));
    }
}

/// Different draws give different orders: for a sequence without repeated
/// elements, two valid draw sequences that differ anywhere produce different
/// shuffles, so every draw the generator makes matters to the result.
pub proof fn law_draws_decide_the_order<T>(s: Seq<T>, d1: Seq<usize>, d2: Seq<usize>)
    requires
        s.no_duplicates(),
        valid_draws(s.len(), d1),
        valid_draws(s.len(), d2),
        d1 != d2,
    ensures
        fisher_yates(s, d1) != fisher_yates(s, d2),
{
    let n = s.len();
    assert(d1.take(0) =~= d2.take(0));
    let k = lemma_first_difference(d1, d2, 0);
    let t1 = d1.take(k);
    assert(t1 == d2.take(k));
    lemma_draws_prefix(n, d1, k);
    lemma_fisher_yates_no_dup(s, t1);
    lemma_fisher_yates_len(s, t1);
    let base = fisher_yates(s, t1);
    let a1 = d1.take(k + 1);
    let a2 = d2.take(k + 1);
    assert(a1.drop_last() =~= t1);
    assert(a2.drop_last() =~= d2.take(k));
    assert(a1.last() == d1[k]);
    assert(a2.last() == d2[k]);
    assert(d1[k] <= n - 1 - k && d2[k] <= n - 1 - k);
    assert(fisher_yates(s, a1)[n - 1 - k] == base[d1[k] as int]);
    assert(fisher_yates(s, a2)[n - 1 - k] == base[d2[k] as int]);
    lemma_fisher_yates_fixes(s, d1, k, d1.len() as int);
    lemma_fisher_yates_fixes(s, d2, k, d2.len() as int);
    assert(d1.take(d1.len() as int) =~= d1);
    assert(d2.take(d2.len() as int) =~= d2);
    assert(base[d1[k] as int] != base[d2[k] as int]);
}

/// The first position where two sequences of the same length differ, at or
/// after `k`, when they agree before `k`.
proof fn lemma_first_difference(a: Seq<usize>, b: Seq<usize>, k: int) -> (r: int)
    requires
        a.len() == b.len(),
        0 <= k <= a.len(),
        a.take(k) == b.take(k),
        a != b,
    ensures
        k <= r < a.len(),
        a[r] != b[r],
        a.take(r) == b.take(r),
    decreases a.len() - k,
{
    if k == a.len() {
        assert(a =~= a.take(k));
        assert(b =~= b.take(k));
        k
    } else if a[k] != b[k] {
        k
    } else {
        assert(a.take(k + 1) =~= a.take(k).push(a[k]));
        assert(b.take(k + 1) =~= b.take(k).push(b[k]));
        lemma_first_difference(a, b, k + 1)
    }
}

/// Shuffle a slice in place with the Fisher-Yates algorithm, taking the
/// draws as given: for each position from the last down to the second, the
/// next draw names the position whose element is exchanged into it.
pub fn shuffle_with<T>(slice: &mut [T], draws: &[usize])
    requires
        valid_draws(old(slice)@.len(), draws@),
    ensures
        final(slice)@ == fisher_yates(old(slice)@, draws@),
        final(slice)@.len() == old(slice)@.len(),
        final(slice)@.to_multiset() == old(slice)@.to_multiset(),
{
    let n = slice.len();
    let m = draws.len();
    let mut k: usize = 0;
    proof {
        assert(draws@.take(0) =~= Seq::<usize>::empty());
    }
    while k < m
        invariant
            n == slice@.len() == old(slice)@.len(),
            m == draws@.len(),
            valid_draws(n as nat, draws@),
            k <= m,
            slice@ == fisher_yates(old(slice)@, draws@.take(k as int)),
            slice@.to_multiset() == old(slice)@.to_multiset(),
        decreases m - k,
    {
        let i = n - 1 - k;
        let j = draws[k];
        proof {
            assert(draws@[k as int] <= n - 1 - k);
            assert(draws@.take(k + 1).drop_last() =~= draws@.take(k as int));
            assert(draws@.take(k + 1).last() == j);
            lemma_swap_multiset(slice@, i as int, j as int);
        }
        slice_swap(slice, i, j);
        k += 1;
    }
    proof {
        assert(draws@.take(m as int) =~= draws@);
    }
}

/// `r` is a value the shared generator returned when asked for a position
/// in `0..bound` (`gen_range(0, bound)`).
pub closed spec fn generator_gave(bound: usize, r: usize) -> bool {
    call_ensures(random_below, (bound,), r)
}

/// Each draw is one that the shared generator returned: the `k`-th draw of
/// a shuffle of `n` elements is what `gen_range(0, n - k)` gave, a position
/// anywhere in `0..n - k`, not one the shuffle picks itself.
pub open spec fn drawn_from_generator(n: nat, draws: Seq<usize>) -> bool {
    forall|k: int| 0 <= k < draws.len() ==> generator_gave((n - k) as usize, #[trigger] draws[k])
}

/// Shuffle a slice in place with the Fisher-Yates algorithm: for each
/// position from the last down to the second, the shared generator draws a
/// position at or before it whose element is exchanged into it. The result
/// holds the same elements, each as often as before.
pub fn shuffle<T>(slice: &mut [T])
    requires
        drawable_len(old(slice)@.len() as int),
    ensures
        final(slice)@.len() == old(slice)@.len(),
        final(slice)@.to_multiset() == old(slice)@.to_multiset(),
        exists|draws: Seq<usize>|
            valid_draws(old(slice)@.len(), draws) && drawn_from_generator(old(slice)@.len(), draws)
                && final(slice)@ == #[trigger] fisher_yates(old(slice)@, draws),
{
    let n = slice.len();
    let mut draws: Vec<usize> = Vec::new();
    if n > 0 {
        let mut i: usize = n - 1;
        while i > 0
            invariant
                n == old(slice)@.len(),
                i < n,
                drawable_len(n as int),
                draws@.len() == n - 1 - i,
                forall|k: int| 0 <= k < draws@.len() ==> #[trigger] draws@[k] <= n - 1 - k,
                drawn_from_generator(n as nat, draws@),
            decreases i,
        {
            let j = random_below(i + 1);
            let ghost before = draws@;
            draws.push(j);
            proof {
                assert forall|k: int| 0 <= k < draws@.len() implies generator_gave(
                    (n - k) as usize,
                    #[trigger] draws@[k],
                ) by {
                    if k < before.len() {
                        assert(draws@[k] == before[k]);
                    } else {
                        assert((n - k) as usize == i + 1);
                    }
                }
            }
            i -= 1;
        }
    }
    let ghost ds = draws@;
    shuffle_with(slice, draws.as_slice());
    proof {
        assert(valid_draws(n as nat, ds) && drawn_from_generator(n as nat, ds) && slice@ == fisher_yates(old(slice)@, ds));
    }
}

/// Pick a random element; `None` for an empty slice.
pub fn choose_one<T>(slice: &[T]) -> (res: Option<&T>)
    requires
        drawable_len(slice@.len() as int),
    ensures
        res is None <==> slice@.len() == 0,
        res matches Some(r) ==> slice@.contains(*r),
        res matches Some(r) ==> exists|i: usize|
            #[trigger] generator_gave(slice@.len() as usize, i) && i < slice@.len() && *r == slice@[i as int],
{
    if slice.len() == 0 {
        None
    } else {
        let i = random_below(slice.len());
        proof {
            assert(slice@[i as int] == slice@[i as int]);
            assert(generator_gave(slice@.len() as usize, i));
        }
        Some(&slice[i])
    }
}

/// Pick a random element for modification; `None` for an empty slice.
pub fn choose_mut<T>(slice: &mut [T]) -> (res: Option<&mut T>)
    requires
        drawable_len(old(slice)@.len() as int),
    ensures
        res is None <==> old(slice)@.len() == 0,
        match res {
            Some(r) => exists|i: int|
                0 <= i < old(slice)@.len() && generator_gave(old(slice)@.len() as usize, i as usize) && *r
                    == old(slice)@[i] && final(slice)@ == old(slice)@.update(i, *final(r)),
            None => final(slice)@ == old(slice)@,
        },
{
    if slice.len() == 0 {
        None
    } else {
        let len = slice.len();
        let i = random_below(len);
        proof {
            assert(generator_gave(len, i));
        }
        Some(&mut slice[i])
    }
}

/// The positions `0, 1, ..., n - 1` in order.
pub open spec fn positions(n: nat) -> Seq<usize> {
    Seq::new(n, |j: int| j as usize)
}

/// The picked references are the elements of `slice` at `idx`, which are
/// distinct indices into it.
pub open spec fn picks<T>(slice: Seq<T>, res: Seq<&T>, idx: Seq<usize>) -> bool {
    &&& idx.len() == res.len()
    &&& idx.no_duplicates()
    &&& forall|k: int| 0 <= k < idx.len() ==> idx[k] < slice.len() && *res[k] == slice[idx[k] as int]
}

/// Pick up to `count` random elements from distinct positions of a slice.
pub fn choose_multiple<T>(slice: &[T], count: usize) -> (res: Vec<&T>)
    requires
        drawable_len(slice@.len() as int),
    ensures
        res@.len() == (if slice@.len() < count { slice@.len() as int } else { count as int }),
        exists|idx: Seq<usize>| #[trigger] picks(slice@, res@, idx),
        slice@.len() > 0 && count > 0 ==> exists|draws: Seq<usize>|
            valid_draws(slice@.len(), draws) && drawn_from_generator(slice@.len(), draws) && #[trigger] picks(
                slice@,
                res@,
                fisher_yates(positions(slice@.len()), draws).take(res@.len() as int),
            ),
{
    let mut res: Vec<&T> = Vec::new();
    if slice.len() == 0 || count == 0 {
        proof {
            assert(picks(slice@, res@, Seq::<usize>::empty()));
        }
        return res;
    }
    let n = slice.len();
    let mut indices: Vec<usize> = Vec::new();
    let mut k: usize = 0;
    while k < n
        invariant
            k <= n,
            n == slice@.len(),
            indices@.len() == k,
            forall|j: int| 0 <= j < k ==> #[trigger] indices@[j] == j,
        decreases n - k,
    {
        indices.push(k);
        k += 1;
    }
    let ghost ordered = indices@;
    proof {
        assert(ordered.no_duplicates());
        ordered.lemma_multiset_has_no_duplicates();
    }
    shuffle(indices.as_mut_slice());
    let ghost ds = choose|d: Seq<usize>|
        valid_draws(n as nat, d) && drawn_from_generator(n as nat, d) && #[trigger] fisher_yates(ordered, d) == indices@;
    proof {
        assert(ordered =~= positions(n as nat));
    }
    let take = if count < n { count } else { n };
    proof {
        assert forall|x: usize| indices@.to_multiset().count(x) <= 1 by {
            assert(indices@.to_multiset() == ordered.to_multiset());
        }
        indices@.lemma_multiset_has_no_duplicates_conv();
        assert forall|j: int| 0 <= j < n implies #[trigger] indices@[j] < n by {
            assert(indices@.to_multiset().count(indices@[j]) > 0);
            assert(ordered.to_multiset().count(indices@[j]) > 0);
            assert(ordered.contains(indices@[j]));
        }
    }
    let mut j: usize = 0;
    while j < take
        invariant
            take <= n == slice@.len() == indices@.len(),
            indices@.no_duplicates(),
            forall|m: int| 0 <= m < n ==> #[trigger] indices@[m] < n,
            j <= take,
            res@.len() == j,
            forall|m: int| 0 <= m < j ==> *res@[m] == slice@[#[trigger] indices@[m] as int],
        decreases take - j,
    {
        let idx = indices[j];
        res.push(&slice[idx]);
        j += 1;
    }
    proof {
        let idx = indices@.take(take as int);
        assert(picks(slice@, res@, idx));
        assert(fisher_yates(positions(slice@.len()), ds) == indices@);
    }
    res
}

} // verus!
