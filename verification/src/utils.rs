//! Small helpers: numbers in decimal notation, a stride for visiting
//! peers, a cursor over a slice, the tiers of a backoff, and capacity for
//! vectors.

use vstd::prelude::*;
use vstd::string::StringExecFns;

verus! {

/// The character of a digit.
pub open spec fn digit_char(digit: int) -> char {
    if digit == 0 {
        '0'
    } else if digit == 1 {
        '1'
    } else if digit == 2 {
        '2'
    } else if digit == 3 {
        '3'
    } else if digit == 4 {
        '4'
    } else if digit == 5 {
        '5'
    } else if digit == 6 {
        '6'
    } else if digit == 7 {
        '7'
    } else if digit == 8 {
        '8'
    } else {
        '9'
    }
}

/// The number in decimal notation, without leading zeros.
pub open spec fn decimal(n: nat) -> Seq<char>
    decreases n,
{
    if n < 10 {
        seq![digit_char(n as int)]
    } else {
        decimal(n / 10).push(digit_char((n % 10) as int))
    }
}

/// Appends the decimal notation of `n` to the text.
pub fn append_decimal(text: &mut String, n: usize)
    ensures
        final(text)@ == old(text)@ + decimal(n as nat),
    decreases n,
{
    if n >= 10 {
        append_decimal(text, n / 10);
    }
    let digit = n % 10;
    proof {
        reveal_strlit("0");
        reveal_strlit("1");
        reveal_strlit("2");
        reveal_strlit("3");
        reveal_strlit("4");
        reveal_strlit("5");
        reveal_strlit("6");
        reveal_strlit("7");
        reveal_strlit("8");
        reveal_strlit("9");
    }
    let ghost before = text@;
    if digit == 0 {
        text.append("0");
    } else if digit == 1 {
        text.append("1");
    } else if digit == 2 {
        text.append("2");
    } else if digit == 3 {
        text.append("3");
    } else if digit == 4 {
        text.append("4");
    } else if digit == 5 {
        text.append("5");
    } else if digit == 6 {
        text.append("6");
    } else if digit == 7 {
        text.append("7");
    } else if digit == 8 {
        text.append("8");
    } else {
        text.append("9");
    }
    proof {
        assert(text@ =~= before + seq![digit_char(digit as int)]);
        if n >= 10 {
            assert(text@ =~= old(text)@ + decimal(n as nat));
        } else {
            assert(text@ =~= old(text)@ + decimal(n as nat));
        }
    }
}


/// The number of primes in the table.
pub const NUM_PRIMES: usize = 60;

/// The first sixty primes.
pub open spec fn spec_primes() -> Seq<usize> {
    seq![
        2usize, 3, 5, 7, 11, 13, 17, 19, 23, 29, 31, 37, 41, 43, 47, 53, 59, 61, 67, 71, 73, 79,
        83, 89, 97, 101, 103, 107, 109, 113, 127, 131, 137, 139, 149, 151, 157, 163, 167, 173, 179,
        181, 191, 193, 197, 199, 211, 223, 227, 229, 233, 239, 241, 251, 257, 263, 269, 271, 277,
        281,
    ]
}

/// The first sixty primes.
pub fn primes() -> (table: [usize; 60])
    ensures
        table@ == spec_primes(),
{
    let table: [usize; 60] = [
        2, 3, 5, 7, 11, 13, 17, 19, 23, 29, 31, 37, 41, 43, 47, 53, 59, 61, 67, 71, 73, 79, 83, 89,
        97, 101, 103, 107, 109, 113, 127, 131, 137, 139, 149, 151, 157, 163, 167, 173, 179, 181, 191,
        193, 197, 199, 211, 223, 227, 229, 233, 239, 241, 251, 257, 263, 269, 271, 277, 281,
    ];
    assert(table@ =~= spec_primes());
    table
}

/// The place in the table at which try number `i` looks when the search
/// starts at the `start_offset`-th prime.
pub open spec fn prime_slot(start_offset: usize, i: int) -> int {
    (start_offset % 60 + i) % 60
}

/// The stride that `find_coprime_to` gives.
pub open spec fn spec_stride(start_offset: usize, num: usize) -> usize {
    if num <= 1 {
        1
    } else if exists|i: int| 0 <= i < 60 && num % spec_primes()[prime_slot(start_offset, i)] != 0 {
        let first = choose|i: int|
            0 <= i < 60 && num % spec_primes()[prime_slot(start_offset, i)] != 0 && forall|j: int|
                0 <= j < i ==> num % spec_primes()[prime_slot(start_offset, j)] == 0;
        spec_primes()[prime_slot(start_offset, first)]
    } else {
        1
    }
}

/// A prime from the table that does not divide `num`, so that stepping by
/// it through `num` places reaches every place. The search starts at the
/// `start_offset`-th prime and goes round the table once; the first prime
/// that does not divide `num` is returned. If `num` is at most one, or all
/// primes of the table divide it, the result is 1.
pub fn find_coprime_to(start_offset: usize, num: usize) -> (stride: usize)
    ensures
        stride == spec_stride(start_offset, num),
        num <= 1 ==> stride == 1,
        stride == 1 || exists|i: int|
            0 <= i < 60 && stride == #[trigger] spec_primes()[prime_slot(start_offset, i)] && num
                % stride != 0 && forall|j: int|
                0 <= j < i ==> num % (#[trigger] spec_primes()[prime_slot(start_offset, j)]) == 0,
        stride == 1 && num > 1 ==> forall|j: int|
            0 <= j < 60 ==> num % (#[trigger] spec_primes()[prime_slot(start_offset, j)]) == 0,
        1 <= stride <= 281,
{
    if num <= 1 {
        return 1;
    }
    let table = primes();
    let first = start_offset % NUM_PRIMES;
    let mut i: usize = 0;
    while i < NUM_PRIMES
        invariant
            i <= 60,
            num > 1,
            first == start_offset % 60,
            table@ == spec_primes(),
            forall|j: int|
                0 <= j < i ==> num % (#[trigger] spec_primes()[prime_slot(start_offset, j)]) == 0,
        decreases 60 - i,
    {
        let prime: usize = table[(first + i) % NUM_PRIMES];
        assert(prime == spec_primes()[prime_slot(start_offset, i as int)]);
        assert(2 <= prime <= 281) by {
            lemma_primes_range(prime_slot(start_offset, i as int));
        }
        if num % prime != 0 {
            return prime;
        }
        i = i + 1;
    }
    1
}

/// Every entry of the table lies between 2 and 281.
pub proof fn lemma_primes_range(slot: int)
    requires
        0 <= slot < 60,
    ensures
        2 <= spec_primes()[slot] <= 281,
{
    let table = spec_primes();
    assert(forall|k: int| 0 <= k < 60 ==> 2 <= #[trigger] table[k] <= 281);
}

/// The largest `k` with two to the `k` at most `n`; zero for `n` zero.
pub open spec fn floor_log2(n: nat) -> nat
    decreases n,
{
    if n <= 1 {
        0
    } else {
        1 + floor_log2(n / 2)
    }
}

/// The smallest `k` with two to the `k` at least `n`.
pub open spec fn ceil_log2(n: nat) -> nat {
    if n <= 1 {
        0
    } else {
        1 + floor_log2((n - 1) as nat)
    }
}

/// A number below two to the `k` has a logarithm below `k`.
pub proof fn lemma_floor_log2_bound(n: nat, k: nat)
    requires
        n < vstd::arithmetic::power2::pow2(k),
        k >= 1,
    ensures
        floor_log2(n) < k,
    decreases k,
{
    if n > 1 {
        vstd::arithmetic::power2::lemma_pow2_unfold(k);
        if k == 1 {
            vstd::arithmetic::power2::lemma2_to64();
        } else {
            lemma_floor_log2_bound(n / 2, (k - 1) as nat);
        }
    }
}

/// The binary logarithm of `n`, rounded down.
pub fn ilog2(n: usize) -> (log: usize)
    ensures
        log == floor_log2(n as nat),
        log < 64,
{
    proof {
        vstd::arithmetic::power2::lemma2_to64();
        lemma_floor_log2_bound(n as nat, 64);
    }
    let mut rest = n;
    let mut log: usize = 0;
    while rest > 1
        invariant
            log + floor_log2(rest as nat) == floor_log2(n as nat),
            floor_log2(n as nat) < 64,
        decreases rest,
    {
        rest = rest / 2;
        log = log + 1;
    }
    log
}

/// The binary logarithm, rounded up: the number of halvings that split a
/// search among `n` workers.
pub fn ilog2_ceil(n: usize) -> (log: usize)
    ensures
        log == ceil_log2(n as nat),
        log <= 64,
{
    if n <= 1 {
        0
    } else {
        1 + ilog2(n - 1)
    }
}

/// The binary logarithm for numbers that are not zero, kept above zero.
pub trait NonZeroUsizeExt {
    /// The binary logarithm rounded down, and 1 where that is 0.
    fn ilog2_nz_clamped(&self) -> usize;
}

impl NonZeroUsizeExt for usize {
    fn ilog2_nz_clamped(&self) -> (log: usize)
        ensures
            log == if floor_log2(*self as nat) == 0 {
                1
            } else {
                floor_log2(*self as nat)
            },
    {
        let log = ilog2(*self);
        if log == 0 {
            1
        } else {
            log
        }
    }
}

/// Room in a vector.
pub trait VecExt<T> {
    /// Makes room for at least `min` items in all.
    fn ensure_capacity(&mut self, min: usize);
}

impl<T> VecExt<T> for Vec<T> {
    fn ensure_capacity(&mut self, min: usize)
        ensures
            final(self)@ == old(self)@,
    {
        let capacity = vec_capacity(self);
        if capacity < min {
            self.reserve(min - capacity);
        }
    }
}

/// `Vec::capacity`: the number of items that the vector has room for. It
/// depends on the allocator, so nothing is stated of it.
#[verifier::external_body]
fn vec_capacity<T>(v: &Vec<T>) -> usize {
    v.capacity()
}

/// A cursor over a slice for searches that are known to succeed.
#[derive(Debug, Default, Clone, Copy)]
pub struct NonExhaustingCursor {
    idx: usize,
}

impl NonExhaustingCursor {
    /// The place at which the next search starts.
    pub closed spec fn position(&self) -> nat {
        self.idx as nat
    }

    /// A cursor at the start.
    pub fn new() -> (cursor: NonExhaustingCursor)
        ensures
            cursor.position() == 0,
    {
        NonExhaustingCursor { idx: 0 }
    }

    /// Moves the cursor back to the start.
    pub fn reset(&mut self)
        ensures
            final(self).position() == 0,
    {
        self.idx = 0;
    }

    /// The next item at or behind the cursor that the predicate accepts.
    /// There must be one. The cursor moves behind it.
    pub fn next_match<'a, T, P: Fn(&T) -> bool>(&mut self, slice: &'a [T], predicate: P) -> (item:
        &'a T)
        requires
            forall|i: int| 0 <= i < slice@.len() ==> call_requires(predicate, (&#[trigger] slice@[i],)),
            exists|i: int|
                old(self).position() <= i < slice@.len() && !call_ensures(
                    predicate,
                    (&#[trigger] slice@[i],),
                    false,
                ),
        ensures
            old(self).position() < final(self).position() <= slice@.len(),
            *item == slice@[final(self).position() - 1],
            call_ensures(predicate, (item,), true),
            forall|i: int|
                old(self).position() <= i < final(self).position() - 1 ==> call_ensures(
                    predicate,
                    (&#[trigger] slice@[i],),
                    false,
                ),
    {
        let ghost goal = choose|i: int|
            self.position() <= i < slice@.len() && !call_ensures(
                predicate,
                (&#[trigger] slice@[i],),
                false,
            );
        loop
            invariant
                old(self).position() <= self.idx <= goal < slice@.len(),
                !call_ensures(predicate, (&slice@[goal],), false),
                forall|i: int|
                    0 <= i < slice@.len() ==> call_requires(predicate, (&#[trigger] slice@[i],)),
                forall|i: int|
                    old(self).position() <= i < self.idx ==> call_ensures(
                        predicate,
                        (&#[trigger] slice@[i],),
                        false,
                    ),
            decreases slice@.len() - self.idx,
        {
            let item = &slice[self.idx];
            self.idx = self.idx + 1;
            if predicate(item) {
                return item;
            }
        }
    }
}

/// What a waiting thread does next.
#[derive(Debug, Clone, Copy, PartialEq, Eq, Structural)]
pub enum BackoffStep {
    /// Spin once in place.
    Spin,
    /// Give the processor to another thread.
    Yield,
    /// Sleep for this many nanoseconds.
    Sleep(u64),
}

/// The sleep that follows one of `current` nanoseconds: longer by the
/// factor `permille / 1000`, and no longer than `limit`.
pub open spec fn next_sleep(current: u64, permille: u64, limit: u64) -> u64 {
    if current * permille / 1000 < limit {
        (current * permille / 1000) as u64
    } else {
        limit
    }
}

/// A tiered backoff for polling: first spin, then yield, then sleep for
/// longer and longer spans up to a limit.
pub struct Backoff {
    num_spins: usize,
    spin_limit: usize,
    num_yields: usize,
    yield_limit: usize,
    initial_sleep: u64,
    current_sleep: u64,
    sleep_limit: u64,
    sleep_permille: u64,
}

/// The mathematical content of a `Backoff`.
pub struct BackoffView {
    pub spins: nat,
    pub spin_limit: nat,
    pub yields: nat,
    pub yield_limit: nat,
    pub initial_sleep: u64,
    pub current_sleep: u64,
    pub sleep_limit: u64,
    pub sleep_permille: u64,
}

impl BackoffView {
    /// What the next wait is: a spin while spins are left, then a yield
    /// while yields are left, then a sleep of the present length.
    pub open spec fn step(self) -> BackoffStep {
        if self.spins < self.spin_limit {
            BackoffStep::Spin
        } else if self.yields < self.yield_limit {
            BackoffStep::Yield
        } else {
            BackoffStep::Sleep(self.current_sleep)
        }
    }

    /// The backoff after the next wait: the spin or the yield is counted,
    /// and after a sleep the next one is longer.
    pub open spec fn waited(self) -> BackoffView {
        if self.spins < self.spin_limit {
            BackoffView { spins: self.spins + 1, ..self }
        } else if self.yields < self.yield_limit {
            BackoffView { yields: self.yields + 1, ..self }
        } else {
            BackoffView {
                current_sleep: next_sleep(self.current_sleep, self.sleep_permille, self.sleep_limit),
                ..self
            }
        }
    }

    /// The backoff started over: no spin and no yield counted, and the
    /// sleep at its initial length.
    pub open spec fn restarted(self) -> BackoffView {
        BackoffView { spins: 0, yields: 0, current_sleep: self.initial_sleep, ..self }
    }
}

impl View for Backoff {
    type V = BackoffView;

    closed spec fn view(&self) -> BackoffView {
        BackoffView {
            spins: self.num_spins as nat,
            spin_limit: self.spin_limit as nat,
            yields: self.num_yields as nat,
            yield_limit: self.yield_limit as nat,
            initial_sleep: self.initial_sleep,
            current_sleep: self.current_sleep,
            sleep_limit: self.sleep_limit,
            sleep_permille: self.sleep_permille,
        }
    }
}

impl Backoff {
    /// A backoff that spins `spin_limit` times, then yields `yield_limit`
    /// times, then sleeps: first for `initial_sleep` nanoseconds, then each
    /// time longer by the factor `sleep_permille / 1000`, up to `sleep_limit`.
    pub fn new(
        spin_limit: usize,
        yield_limit: usize,
        initial_sleep: u64,
        sleep_limit: u64,
        sleep_permille: u64,
    ) -> (backoff: Backoff)
        ensures
            backoff@ == (BackoffView {
                spins: 0,
                spin_limit: spin_limit as nat,
                yields: 0,
                yield_limit: yield_limit as nat,
                initial_sleep,
                current_sleep: initial_sleep,
                sleep_limit,
                sleep_permille,
            }),
    {
        Backoff {
            num_spins: 0,
            spin_limit,
            num_yields: 0,
            yield_limit,
            initial_sleep,
            current_sleep: initial_sleep,
            sleep_limit,
            sleep_permille,
        }
    }

    /// What to do for the next wait, and counts it.
    pub fn wait(&mut self) -> (step: BackoffStep)
        ensures
            step == old(self)@.step(),
            final(self)@ == old(self)@.waited(),
    {
        if self.num_spins < self.spin_limit {
            self.num_spins = self.num_spins + 1;
            BackoffStep::Spin
        } else if self.num_yields < self.yield_limit {
            self.num_yields = self.num_yields + 1;
            BackoffStep::Yield
        } else {
            let slept = self.current_sleep;
            let factor = self.sleep_permille;
            assert(slept * factor <= 0xFFFF_FFFF_FFFF_FFFF * 0xFFFF_FFFF_FFFF_FFFF)
                by (nonlinear_arith)
                requires
                    slept <= 0xFFFF_FFFF_FFFF_FFFF,
                    factor <= 0xFFFF_FFFF_FFFF_FFFF,
            ;
            let grown: u128 = (slept as u128) * (factor as u128) / 1000;
            if grown < self.sleep_limit as u128 {
                self.current_sleep = grown as u64;
            } else {
                self.current_sleep = self.sleep_limit;
            }
            BackoffStep::Sleep(slept)
        }
    }

    /// Starts over with spinning and with the initial sleep.
    pub fn reset(&mut self)
        ensures
            final(self)@ == old(self)@.restarted(),
    {
        self.num_spins = 0;
        self.num_yields = 0;
        self.current_sleep = self.initial_sleep;
    }
}

} // verus!
