//! The seeded random source and the shuffle built on it.
//!
//! The generator is ChaCha with 8 rounds. Its state is kept as the three plain
//! values that determine every later output: the seed, the stream number and
//! the position in the stream, counted in 32-bit words. Each draw positions a
//! generator at that state, samples, and stores the position reached, so a
//! draw is a function of the state and the range alone.

use rand::thread_rng;
use rand::Rng;
use rand::SeedableRng;
use rand_chacha::ChaCha8Rng;
use vstd::prelude::*;
use vstd::seq_lib::to_multiset_update;

verus! {

/// The state of a ChaCha8 generator.
#[derive(Debug, PartialEq, Eq, Clone, Copy)]
pub struct SeededRandom {
    /// The 256-bit key of the stream.
    pub seed: [u8; 32],
    /// The stream number.
    pub stream: u64,
    /// The offset from the start of the stream, in 32-bit words.
    pub word_pos: u128,
}

/// The seed that `SeedableRng::seed_from_u64` of `rand_core` expands `state`
/// to, for a generator with a 32-byte seed.
pub uninterp spec fn seed_of_u64(state: u64) -> Seq<u8>;

/// The value that `Rng::gen_range(low..high)` of `rand` returns, sampling
/// `u64`, on the ChaCha8 generator of `rand_chacha` that has the given seed and
/// stream and stands at word `word_pos`.
pub uninterp spec fn drawn_value(seed: Seq<u8>, stream: u64, word_pos: u128, low: u64, high: u64) -> u64;

/// The word position that `ChaCha8Rng::get_word_pos` reports after the draw
/// that `drawn_value` names.
pub uninterp spec fn drawn_end(seed: Seq<u8>, stream: u64, word_pos: u128, low: u64, high: u64) -> u128;

/// `SeedableRng::seed_from_u64` on `ChaCha8Rng`, read back through `get_seed`,
/// `get_stream` and `get_word_pos`. The seed is the named expansion of
/// `state`; a generator made from a seed starts on stream 0 at word 0.
#[verifier::external_body]
fn chacha_seed_from_u64(state: u64) -> (r: SeededRandom)
    ensures
        r.seed@ == seed_of_u64(state),
        r.stream == 0,
        r.word_pos == 0,
{
    let rng = ChaCha8Rng::seed_from_u64(state);
    SeededRandom { seed: rng.get_seed(), stream: rng.get_stream(), word_pos: rng.get_word_pos() }
}

/// `Rng::gen_range` on a `ChaCha8Rng` that `from_seed`, `set_stream` and
/// `set_word_pos` put into the given state; the position is read back with
/// `get_word_pos`. The value lies in `low..high` and, like the position
/// reached, is the named function of the state and the range. Seed and stream
/// do not change. An empty range is left out: `gen_range` panics on it.
#[verifier::external_body]
fn chacha_gen_range(state: &mut SeededRandom, low: usize, high: usize) -> (r: usize)
    requires
        low < high,
    ensures
        low <= r < high,
        r == drawn_value(
            old(state).seed@,
            old(state).stream,
            old(state).word_pos,
            low as u64,
            high as u64,
        ),
        final(state).word_pos == drawn_end(
            old(state).seed@,
            old(state).stream,
            old(state).word_pos,
            low as u64,
            high as u64,
        ),
        final(state).seed == old(state).seed,
        final(state).stream == old(state).stream,
{
    let mut rng = ChaCha8Rng::from_seed(state.seed);
    rng.set_stream(state.stream);
    rng.set_word_pos(state.word_pos);
    let r = rng.gen_range(low as u64..high as u64) as usize;
    state.word_pos = rng.get_word_pos();
    r
}

/// `SeedableRng::from_rng` on `ChaCha8Rng`, fed by `rand::thread_rng`, read
/// back through `get_seed`, `get_stream` and `get_word_pos`; or the text of
/// the error. The seed comes from the random source of the system, so nothing
/// is said of it; a generator made from a seed starts on stream 0 at word 0.
#[verifier::external_body]
fn chacha_from_thread_rng() -> (r: Result<SeededRandom, String>)
    ensures
        r matches Ok(state) ==> state.stream == 0 && state.word_pos == 0,
{
    match ChaCha8Rng::from_rng(thread_rng()) {
        Ok(rng) => Ok(
            SeededRandom {
                seed: rng.get_seed(),
                stream: rng.get_stream(),
                word_pos: rng.get_word_pos(),
            },
        ),
        Err(e) => Err(e.to_string()),
    }
}

impl Default for SeededRandom {
    /// The generator with the all-zero seed, at the start of stream 0.
    fn default() -> (r: SeededRandom)
        ensures
            r.seed@ == Seq::new(32, |i: int| 0u8),
            r.stream == 0,
            r.word_pos == 0,
    {
        let r = SeededRandom { seed: [0u8; 32], stream: 0, word_pos: 0 };
        assert(r.seed@ =~= Seq::new(32, |i: int| 0u8));
        r
    }
}

impl SeededRandom {
    /// The value that the next draw from `low..high` gives.
    pub open spec fn drawn(self, low: int, high: int) -> int {
        drawn_value(self.seed@, self.stream, self.word_pos, low as u64, high as u64) as int
    }

    /// The state after the next draw from `low..high`.
    pub open spec fn after_draw(self, low: int, high: int) -> SeededRandom {
        SeededRandom {
            seed: self.seed,
            stream: self.stream,
            word_pos: drawn_end(self.seed@, self.stream, self.word_pos, low as u64, high as u64),
        }
    }

    /// The generator for the 64-bit seed `state`: its seed is the expansion of
    /// `state`, and it stands at the start of stream 0.
    pub open spec fn seeded(state: u64) -> SeededRandom {
        choose|r: SeededRandom| Self::is_seeded(r, state)
    }

    /// `r` is a generator for the 64-bit seed `state`.
    pub open spec fn is_seeded(r: SeededRandom, state: u64) -> bool {
        r.seed@ == seed_of_u64(state) && r.stream == 0 && r.word_pos == 0
    }

    /// The generator for a 64-bit seed, at the start of its stream.
    pub fn seed_from_u64(state: u64) -> (r: SeededRandom)
        ensures
            r == Self::seeded(state),
            Self::is_seeded(r, state),
    {
        let r = chacha_seed_from_u64(state);
        proof {
            assert(Self::is_seeded(r, state));
            lemma_same_state(r, Self::seeded(state));
        }
        r
    }

    /// A generator seeded by the random source of the system, or the text of
    /// the error if that source fails.
    pub fn from_thread_rng() -> (r: Result<SeededRandom, String>)
        ensures
            r matches Ok(state) ==> state.stream == 0 && state.word_pos == 0,
    {
        chacha_from_thread_rng()
    }

    /// Draws a uniform integer from `low..high` and advances the state.
    pub fn gen_range(&mut self, low: usize, high: usize) -> (r: usize)
        requires
            low < high,
        ensures
            low <= r < high,
            r == old(self).drawn(low as int, high as int),
            *final(self) == old(self).after_draw(low as int, high as int),
    {
        chacha_gen_range(self, low, high)
    }
}

/// Two states with the same seed, stream and position are the same state.
pub proof fn lemma_same_state(a: SeededRandom, b: SeededRandom)
    requires
        a.seed@ == b.seed@,
        a.stream == b.stream,
        a.word_pos == b.word_pos,
    ensures
        a == b,
{
    assert(a.seed =~= b.seed);
}

/// `s` with the items at `i` and `j` exchanged; `s` itself where either is no
/// position of `s`.
pub open spec fn swapped<T>(s: Seq<T>, i: int, j: int) -> Seq<T> {
    if 0 <= i < s.len() && 0 <= j < s.len() {
        s.update(i, s[j]).update(j, s[i])
    } else {
        s
    }
}

/// The shuffle of `s` from position `i` on: for each position `k` from `i` to
/// the end in turn, the item at `k` is exchanged with the item at a position
/// drawn from `k..len`.
pub open spec fn shuffled<T>(s: Seq<T>, i: int, rng: SeededRandom) -> Seq<T>
    decreases s.len() - i,
{
    if 0 <= i < s.len() {
        shuffled(
            swapped(s, i, rng.drawn(i, s.len() as int)),
            i + 1,
            rng.after_draw(i, s.len() as int),
        )
    } else {
        s
    }
}

/// The state of the generator after a shuffle of `n` items from position `i`
/// on.
pub open spec fn after_shuffle(n: int, i: int, rng: SeededRandom) -> SeededRandom
    decreases n - i,
{
    if 0 <= i < n {
        after_shuffle(n, i + 1, rng.after_draw(i, n))
    } else {
        rng
    }
}

/// Every draw of a shuffle of `n` items from position `i` on falls in its
/// range.
pub open spec fn draws_fit(n: int, i: int, rng: SeededRandom) -> bool
    decreases n - i,
{
    if 0 <= i < n {
        &&& i <= rng.drawn(i, n) < n
        &&& draws_fit(n, i + 1, rng.after_draw(i, n))
    } else {
        true
    }
}

/// The sequence `0, 1, .., n - 1` in a type that can hold it.
pub open spec fn counting<T: CanRand>(n: int) -> Seq<T> {
    Seq::new(n as nat, |i: int| T::from_index(i))
}

/// `s` read through the positions `idx`.
pub open spec fn picked<T>(s: Seq<T>, idx: Seq<usize>) -> Seq<T> {
    Seq::new(idx.len(), |i: int| s[idx[i] as int])
}

/// Exchanging two items of a sequence keeps its items.
pub proof fn lemma_swapped_keeps_items<T>(s: Seq<T>, i: int, j: int)
    requires
        0 <= i < s.len(),
        0 <= j < s.len(),
    ensures
        swapped(s, i, j).len() == s.len(),
        swapped(s, i, j).to_multiset() == s.to_multiset(),
{
    let a = s.update(i, s[j]);
    to_multiset_update(s, i, s[j]);
    to_multiset_update(a, j, s[i]);
    vstd::seq_lib::to_multiset_contains(s, s[i]);
    vstd::seq_lib::to_multiset_contains(s, s[j]);
    assert(s.contains(s[i]) && s.contains(s[j]));
    assert(swapped(s, i, j).to_multiset() =~= s.to_multiset());
}

/// A shuffle whose draws fall in their ranges permutes: it keeps the length
/// and the items.
pub proof fn lemma_shuffled_permutes<T>(s: Seq<T>, i: int, rng: SeededRandom)
    requires
        0 <= i <= s.len(),
        draws_fit(s.len() as int, i, rng),
    ensures
        shuffled(s, i, rng).len() == s.len(),
        shuffled(s, i, rng).to_multiset() == s.to_multiset(),
    decreases s.len() - i,
{
    if i < s.len() {
        let n = s.len() as int;
        let t = rng.drawn(i, n);
        lemma_swapped_keeps_items(s, i, t);
        lemma_shuffled_permutes(swapped(s, i, t), i + 1, rng.after_draw(i, n));
    }
}

/// Shuffling a sequence is shuffling its positions and reading the sequence
/// through them: the draws do not depend on the items.
pub proof fn lemma_shuffled_by_positions<T>(s: Seq<T>, idx: Seq<usize>, i: int, rng: SeededRandom)
    requires
        idx.len() == s.len(),
        0 <= i <= s.len(),
        forall|k: int| 0 <= k < idx.len() ==> 0 <= #[trigger] idx[k] < s.len(),
        draws_fit(s.len() as int, i, rng),
    ensures
        shuffled(picked(s, idx), i, rng) == picked(s, shuffled(idx, i, rng)),
    decreases s.len() - i,
{
    let n = s.len() as int;
    assert(picked(s, idx).len() == n);
    if i < n {
        let t = rng.drawn(i, n);
        let idx2 = swapped(idx, i, t);
        assert(swapped(picked(s, idx), i, t) =~= picked(s, idx2));
        lemma_shuffled_by_positions(s, idx2, i + 1, rng.after_draw(i, n));
    }
}

/// Integer types that can count from zero.
pub trait CanRand: Sized + Copy {
    /// The value of the type that stands for `i`.
    spec fn from_index(i: int) -> Self;

    /// How many values `0..(n as Self)` holds.
    spec fn count(n: usize) -> nat;

    /// The values `0, 1, ..` below `n as Self`, in order.
    fn from_n(n: usize) -> (r: Vec<Self>)
        ensures
            r@ == Seq::new(Self::count(n), |i: int| Self::from_index(i)),
    ;
}

impl CanRand for usize {
    open spec fn from_index(i: int) -> usize {
        i as usize
    }

    open spec fn count(n: usize) -> nat {
        n as nat
    }

    fn from_n(n: usize) -> (r: Vec<usize>) {
        let end: usize = n;
        let mut r: Vec<usize> = Vec::new();
        let mut i: usize = 0;
        while i < end
            invariant
                0 <= i <= end,
                r@ == Seq::new(i as nat, |k: int| k as usize),
            decreases end - i,
        {
            r.push(i);
            i += 1;
            assert(r@ =~= Seq::new(i as nat, |k: int| k as usize));
        }
        r
    }
}

impl CanRand for u8 {
    open spec fn from_index(i: int) -> u8 {
        i as u8
    }

    open spec fn count(n: usize) -> nat {
        (#[verifier::truncate] (n as u8)) as nat
    }

    fn from_n(n: usize) -> (r: Vec<u8>) {
        let end: u8 = #[verifier::truncate]
        (n as u8);
        let mut r: Vec<u8> = Vec::new();
        let mut i: u8 = 0;
        while i < end
            invariant
                0 <= i <= end,
                r@ == Seq::new(i as nat, |k: int| k as u8),
            decreases end - i,
        {
            r.push(i);
            i += 1;
            assert(r@ =~= Seq::new(i as nat, |k: int| k as u8));
        }
        r
    }
}

impl CanRand for u16 {
    open spec fn from_index(i: int) -> u16 {
        i as u16
    }

    open spec fn count(n: usize) -> nat {
        (#[verifier::truncate] (n as u16)) as nat
    }

    fn from_n(n: usize) -> (r: Vec<u16>) {
        let end: u16 = #[verifier::truncate]
        (n as u16);
        let mut r: Vec<u16> = Vec::new();
        let mut i: u16 = 0;
        while i < end
            invariant
                0 <= i <= end,
                r@ == Seq::new(i as nat, |k: int| k as u16),
            decreases end - i,
        {
            r.push(i);
            i += 1;
            assert(r@ =~= Seq::new(i as nat, |k: int| k as u16));
        }
        r
    }
}

impl CanRand for u32 {
    open spec fn from_index(i: int) -> u32 {
        i as u32
    }

    open spec fn count(n: usize) -> nat {
        (#[verifier::truncate] (n as u32)) as nat
    }

    fn from_n(n: usize) -> (r: Vec<u32>) {
        let end: u32 = #[verifier::truncate]
        (n as u32);
        let mut r: Vec<u32> = Vec::new();
        let mut i: u32 = 0;
        while i < end
            invariant
                0 <= i <= end,
                r@ == Seq::new(i as nat, |k: int| k as u32),
            decreases end - i,
        {
            r.push(i);
            i += 1;
            assert(r@ =~= Seq::new(i as nat, |k: int| k as u32));
        }
        r
    }
}

impl CanRand for u64 {
    open spec fn from_index(i: int) -> u64 {
        i as u64
    }

    open spec fn count(n: usize) -> nat {
        (#[verifier::truncate] (n as u64)) as nat
    }

    fn from_n(n: usize) -> (r: Vec<u64>) {
        let end: u64 = #[verifier::truncate]
        (n as u64);
        let mut r: Vec<u64> = Vec::new();
        let mut i: u64 = 0;
        while i < end
            invariant
                0 <= i <= end,
                r@ == Seq::new(i as nat, |k: int| k as u64),
            decreases end - i,
        {
            r.push(i);
            i += 1;
            assert(r@ =~= Seq::new(i as nat, |k: int| k as u64));
        }
        r
    }
}

impl CanRand for u128 {
    open spec fn from_index(i: int) -> u128 {
        i as u128
    }

    open spec fn count(n: usize) -> nat {
        (#[verifier::truncate] (n as u128)) as nat
    }

    fn from_n(n: usize) -> (r: Vec<u128>) {
        let end: u128 = #[verifier::truncate]
        (n as u128);
        let mut r: Vec<u128> = Vec::new();
        let mut i: u128 = 0;
        while i < end
            invariant
                0 <= i <= end,
                r@ == Seq::new(i as nat, |k: int| k as u128),
            decreases end - i,
        {
            r.push(i);
            i += 1;
            assert(r@ =~= Seq::new(i as nat, |k: int| k as u128));
        }
        r
    }
}

impl CanRand for isize {
    open spec fn from_index(i: int) -> isize {
        i as isize
    }

    open spec fn count(n: usize) -> nat {
        if (#[verifier::truncate] (n as isize)) > 0 {
            (#[verifier::truncate] (n as isize)) as nat
        } else {
            0
        }
    }

    fn from_n(n: usize) -> (r: Vec<isize>) {
        let end: isize = #[verifier::truncate]
        (n as isize);
        let mut r: Vec<isize> = Vec::new();
        let mut i: isize = 0;
        while i < end
            invariant
                0 <= i,
                i <= end || end <= 0,
                end <= 0 ==> i == 0,
                r@ == Seq::new(i as nat, |k: int| k as isize),
            decreases end - i,
        {
            r.push(i);
            i += 1;
            assert(r@ =~= Seq::new(i as nat, |k: int| k as isize));
        }
        r
    }
}

impl CanRand for i8 {
    open spec fn from_index(i: int) -> i8 {
        i as i8
    }

    open spec fn count(n: usize) -> nat {
        if (#[verifier::truncate] (n as i8)) > 0 {
            (#[verifier::truncate] (n as i8)) as nat
        } else {
            0
        }
    }

    fn from_n(n: usize) -> (r: Vec<i8>) {
        let end: i8 = #[verifier::truncate]
        (n as i8);
        let mut r: Vec<i8> = Vec::new();
        let mut i: i8 = 0;
        while i < end
            invariant
                0 <= i,
                i <= end || end <= 0,
                end <= 0 ==> i == 0,
                r@ == Seq::new(i as nat, |k: int| k as i8),
            decreases end - i,
        {
            r.push(i);
            i += 1;
            assert(r@ =~= Seq::new(i as nat, |k: int| k as i8));
        }
        r
    }
}

impl CanRand for i16 {
    open spec fn from_index(i: int) -> i16 {
        i as i16
    }

    open spec fn count(n: usize) -> nat {
        if (#[verifier::truncate] (n as i16)) > 0 {
            (#[verifier::truncate] (n as i16)) as nat
        } else {
            0
        }
    }

    fn from_n(n: usize) -> (r: Vec<i16>) {
        let end: i16 = #[verifier::truncate]
        (n as i16);
        let mut r: Vec<i16> = Vec::new();
        let mut i: i16 = 0;
        while i < end
            invariant
                0 <= i,
                i <= end || end <= 0,
                end <= 0 ==> i == 0,
                r@ == Seq::new(i as nat, |k: int| k as i16),
            decreases end - i,
        {
            r.push(i);
            i += 1;
            assert(r@ =~= Seq::new(i as nat, |k: int| k as i16));
        }
        r
    }
}

impl CanRand for i32 {
    open spec fn from_index(i: int) -> i32 {
        i as i32
    }

    open spec fn count(n: usize) -> nat {
        if (#[verifier::truncate] (n as i32)) > 0 {
            (#[verifier::truncate] (n as i32)) as nat
        } else {
            0
        }
    }

    fn from_n(n: usize) -> (r: Vec<i32>) {
        let end: i32 = #[verifier::truncate]
        (n as i32);
        let mut r: Vec<i32> = Vec::new();
        let mut i: i32 = 0;
        while i < end
            invariant
                0 <= i,
                i <= end || end <= 0,
                end <= 0 ==> i == 0,
                r@ == Seq::new(i as nat, |k: int| k as i32),
            decreases end - i,
        {
            r.push(i);
            i += 1;
            assert(r@ =~= Seq::new(i as nat, |k: int| k as i32));
        }
        r
    }
}

impl CanRand for i64 {
    open spec fn from_index(i: int) -> i64 {
        i as i64
    }

    open spec fn count(n: usize) -> nat {
        if (#[verifier::truncate] (n as i64)) > 0 {
            (#[verifier::truncate] (n as i64)) as nat
        } else {
            0
        }
    }

    fn from_n(n: usize) -> (r: Vec<i64>) {
        let end: i64 = #[verifier::truncate]
        (n as i64);
        let mut r: Vec<i64> = Vec::new();
        let mut i: i64 = 0;
        while i < end
            invariant
                0 <= i,
                i <= end || end <= 0,
                end <= 0 ==> i == 0,
                r@ == Seq::new(i as nat, |k: int| k as i64),
            decreases end - i,
        {
            r.push(i);
            i += 1;
            assert(r@ =~= Seq::new(i as nat, |k: int| k as i64));
        }
        r
    }
}

impl CanRand for i128 {
    open spec fn from_index(i: int) -> i128 {
        i as i128
    }

    open spec fn count(n: usize) -> nat {
        if (#[verifier::truncate] (n as i128)) > 0 {
            (#[verifier::truncate] (n as i128)) as nat
        } else {
            0
        }
    }

    fn from_n(n: usize) -> (r: Vec<i128>) {
        let end: i128 = #[verifier::truncate]
        (n as i128);
        let mut r: Vec<i128> = Vec::new();
        let mut i: i128 = 0;
        while i < end
            invariant
                0 <= i,
                i <= end || end <= 0,
                end <= 0 ==> i == 0,
                r@ == Seq::new(i as nat, |k: int| k as i128),
            decreases end - i,
        {
            r.push(i);
            i += 1;
            assert(r@ =~= Seq::new(i as nat, |k: int| k as i128));
        }
        r
    }
}

/// A random permutation of `0, 1, .., n - 1`.
///
/// For each position `i` from the first to the last, the item at `i` is
/// exchanged with the item at a position drawn from `i..n`.
pub fn randindex<T: CanRand>(rng: &mut SeededRandom, n: usize) -> (r: Vec<T>)
    requires
        T::count(n) == n,
    ensures
        r@ == shuffled(counting::<T>(n as int), 0, *old(rng)),
        *final(rng) == after_shuffle(n as int, 0, *old(rng)),
        draws_fit(n as int, 0, *old(rng)),
        r@.len() == n,
        r@.to_multiset() == counting::<T>(n as int).to_multiset(),
{
    let mut res = T::from_n(n);
    let ghost start = res@;
    let ghost rng0 = *rng;
    let mut i: usize = 0;
    while i < n
        invariant
            i <= n,
            res@.len() == n,
            start.len() == n,
            shuffled(start, 0, rng0) == shuffled(res@, i as int, *rng),
            after_shuffle(n as int, 0, rng0) == after_shuffle(n as int, i as int, *rng),
            draws_fit(n as int, 0, rng0) == draws_fit(n as int, i as int, *rng),
            res@.to_multiset() == start.to_multiset(),
        decreases n - i,
    {
        let ghost before = res@;
        let temp = rng.gen_range(i, n);
        let a = res[i];
        let b = res[temp];
        res[i] = b;
        res[temp] = a;
        proof {
            assert(res@ =~= swapped(before, i as int, temp as int));
            lemma_swapped_keeps_items(before, i as int, temp as int);
        }
        i += 1;
    }
    assert(start == counting::<T>(n as int));
    res
}

/// A random permutation of `arr`: the items of `arr` read through a random
/// permutation of their positions.
pub fn randarray<T: Copy>(rng: &mut SeededRandom, arr: &Vec<T>) -> (r: Vec<T>)
    ensures
        r@ == shuffled(arr@, 0, *old(rng)),
        *final(rng) == after_shuffle(arr@.len() as int, 0, *old(rng)),
        draws_fit(arr@.len() as int, 0, *old(rng)),
        r@.len() == arr@.len(),
        r@.to_multiset() == arr@.to_multiset(),
{
    let n = arr.len();
    let res_index: Vec<usize> = randindex::<usize>(rng, n);
    proof {
        let ident = counting::<usize>(n as int);
        assert(picked(arr@, ident) =~= arr@);
        lemma_shuffled_by_positions(arr@, ident, 0, *old(rng));
        lemma_shuffled_permutes(arr@, 0, *old(rng));
        lemma_shuffled_permutes(ident, 0, *old(rng));
        assert forall|k: int| 0 <= k < res_index@.len() implies 0 <= #[trigger] res_index@[k] < n by {
            vstd::seq_lib::to_multiset_contains(res_index@, res_index@[k]);
            vstd::seq_lib::to_multiset_contains(ident, res_index@[k]);
            assert(res_index@.contains(res_index@[k]));
            assert(ident.contains(res_index@[k]));
        }
    }
    let mut res: Vec<T> = Vec::new();
    let mut i: usize = 0;
    while i < n
        invariant
            i <= n,
            n == arr@.len(),
            res_index@.len() == n,
            forall|k: int| 0 <= k < n ==> 0 <= #[trigger] res_index@[k] < n,
            res@ == Seq::new(i as nat, |k: int| arr@[res_index@[k] as int]),
        decreases n - i,
    {
        res.push(arr[res_index[i]]);
        i += 1;
        assert(res@ =~= Seq::new(i as nat, |k: int| arr@[res_index@[k] as int]));
    }
    assert(res@ =~= picked(arr@, res_index@));
    res
}

} // verus!
