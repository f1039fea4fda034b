//! The partitioned nonce search.
//!
//! Worker `w` of `W` starts at the offset `w` from the seed and steps by `W`,
//! so that the workers' offsets are disjoint and together cover every
//! non-negative integer. Offsets are whole units; attempt values are held in
//! halves (see the attempt module), so offset `n` is `2 * n` halves. A worker
//! checks its attempts in batches and, between batches, looks at the shared
//! race, which accepts exactly one solution.
use vstd::prelude::*;
use vstd::string::StringSliceAdditionalSpecFns;
use vstd::utf8::encode_utf8;
use crate::attempt::{
    ascii_chars, attempt_bytes, attempt_text_bytes, format_attempt, representable,
    HALVES_LIMIT, WHOLE_ONLY_HALVES,
};
use crate::evaluate::{evaluate_bytes, hash_input, hex_text, meets_difficulty, sha256_of};

verus! {

/// The offset from the seed that worker `w` of `workers` tries at its `k`-th step.
pub open spec fn worker_offset(workers: nat, w: nat, k: nat) -> nat {
    w + k * workers
}

/// The attempt value, in halves, that worker `w` tries at its `k`-th step.
pub open spec fn worker_attempt(seed: nat, workers: nat, w: nat, k: nat) -> nat {
    seed + 2 * worker_offset(workers, w, k)
}

/// The `j`-th attempt of a batch that starts at `start` and steps by `step`.
pub open spec fn nth_attempt(start: nat, step: nat, j: nat) -> nat {
    start + j * step
}

/// Whether the attempt value of `h` halves meets `difficulty` under `salt`.
pub open spec fn accepts(salt: Seq<u8>, difficulty: nat, h: nat) -> bool {
    meets_difficulty(sha256_of(hash_input(salt, attempt_bytes(h))), difficulty)
}

/// The first `n` attempts of a batch are representable and all fall short.
pub open spec fn batch_clear(salt: Seq<u8>, difficulty: nat, start: nat, step: nat, n: nat) -> bool {
    forall|j: nat|
        j < n ==> representable(#[trigger] nth_attempt(start, step, j)) && !accepts(
            salt,
            difficulty,
            nth_attempt(start, step, j),
        )
}

/// An accepted attempt: its exact text and the hexadecimal digest.
pub struct Solution {
    pub attempt: String,
    pub hash_hex: String,
}

/// What one batch of a worker's attempts came to.
pub enum BatchOutcome {
    /// The attempt at `index` in the batch, of `halves` halves, is accepted.
    Found { index: u64, halves: u64, solution: Solution },
    /// None of the batch is accepted; the worker goes on at `next`.
    Pending { next: u64 },
    /// The attempt at `index` (the batch's length at most) would leave the
    /// values that a double holds exactly.
    Exhausted { index: u64 },
}

/// How many attempts a worker makes between two looks at the race.
pub const CHECK_INTERVAL: u64 = 10_000;

/// Where worker `w` of `workers` starts, and its step, both in halves, for
/// a seed of `seed` halves; `None` when either does not fit in 64 bits.
pub fn worker_schedule(seed: u64, workers: u64, w: u64) -> (r: Option<(u64, u64)>)
    requires
        w < workers,
    ensures
        r is Some <==> seed + 2 * w <= u64::MAX && 2 * workers <= u64::MAX,
        r matches Some((start, step)) ==> start == worker_attempt(
            seed as nat,
            workers as nat,
            w as nat,
            0,
        ) && step == 2 * workers,
{
    if workers > u64::MAX / 2 || w > (u64::MAX - seed) / 2 {
        None
    } else {
        Some((seed + 2 * w, 2 * workers))
    }
}

/// Hashing the reported text of an attempt again, as the verifying side
/// does with the submitted bytes, gives the digest that was scored, and so
/// the same verdict and the same hexadecimal digest.
pub proof fn lemma_rehash_reproduces(salt: Seq<u8>, difficulty: nat, h: nat, attempt: Seq<char>)
    requires
        attempt == ascii_chars(attempt_bytes(h)),
    ensures
        hash_input(salt, encode_utf8(attempt)) == hash_input(salt, attempt_bytes(h)),
        meets_difficulty(sha256_of(hash_input(salt, encode_utf8(attempt))), difficulty) == accepts(
            salt,
            difficulty,
            h,
        ),
        hex_text(sha256_of(hash_input(salt, encode_utf8(attempt)))) == hex_text(
            sha256_of(hash_input(salt, attempt_bytes(h))),
        ),
{
    crate::attempt::lemma_attempt_ascii(h);
    crate::attempt::lemma_ascii_round_trip(attempt_bytes(h));
}

/// The attempts of a batch from a worker's schedule are the worker's own.
pub proof fn lemma_batch_follows_worker(seed: nat, workers: nat, w: nat, k: nat, j: nat)
    ensures
        nth_attempt(worker_attempt(seed, workers, w, k), 2 * workers, j) == worker_attempt(
            seed,
            workers,
            w,
            k + j,
        ),
{
    assert((k + j) * workers == k * workers + j * workers) by (nonlinear_arith);
    assert(j * (2 * workers) == 2 * (j * workers)) by (nonlinear_arith);
}

/// Tries up to `count` attempts, from `start` halves on by `step`, and stops
/// at the first one that meets `difficulty` under `salt`.
pub fn search_batch(salt: &str, difficulty: u32, start: u64, step: u64, count: u64) -> (r:
    BatchOutcome)
    ensures
        match r {
            BatchOutcome::Found { index, halves, solution } => {
                &&& index < count
                &&& halves == nth_attempt(start as nat, step as nat, index as nat)
                &&& batch_clear(salt.spec_bytes(), difficulty as nat, start as nat, step as nat, index as nat)
                &&& representable(halves as nat)
                &&& accepts(salt.spec_bytes(), difficulty as nat, halves as nat)
                &&& solution.attempt@ == ascii_chars(attempt_bytes(halves as nat))
                &&& encode_utf8(solution.attempt@) == attempt_bytes(halves as nat)
                &&& solution.hash_hex@ == hex_text(
                    sha256_of(hash_input(salt.spec_bytes(), attempt_bytes(halves as nat))),
                )
            },
            BatchOutcome::Pending { next } => {
                &&& batch_clear(salt.spec_bytes(), difficulty as nat, start as nat, step as nat, count as nat)
                &&& next == nth_attempt(start as nat, step as nat, count as nat)
                &&& representable(next as nat)
            },
            BatchOutcome::Exhausted { index } => {
                &&& index <= count
                &&& batch_clear(salt.spec_bytes(), difficulty as nat, start as nat, step as nat, index as nat)
                &&& !representable(nth_attempt(start as nat, step as nat, index as nat))
            },
        },
{
    let salt_bytes = salt.as_bytes();
    let mut i: u64 = 0;
    let mut h: u128 = start as u128;
    loop
        invariant
            i <= count,
            h as nat == nth_attempt(start as nat, step as nat, i as nat),
            salt_bytes@ == salt.spec_bytes(),
            batch_clear(salt_bytes@, difficulty as nat, start as nat, step as nat, i as nat),
        decreases count - i,
    {
        if !(h < HALVES_LIMIT as u128 && (h < WHOLE_ONLY_HALVES as u128 || h % 2 == 0)) {
            return BatchOutcome::Exhausted { index: i };
        }
        let hv = h as u64;
        if i == count {
            return BatchOutcome::Pending { next: hv };
        }
        let text = attempt_text_bytes(hv);
        let ev = evaluate_bytes(salt_bytes, text.as_slice(), difficulty);
        if ev.accepted {
            let attempt = format_attempt(hv);
            return BatchOutcome::Found {
                index: i,
                halves: hv,
                solution: Solution { attempt, hash_hex: ev.hash_hex },
            };
        }
        proof {
            assert forall|j: nat| j < i + 1 implies representable(
                #[trigger] nth_attempt(start as nat, step as nat, j),
            ) && !accepts(salt_bytes@, difficulty as nat, nth_attempt(start as nat, step as nat, j)) by {
                if j < i {
                } else {
                    assert(j == i);
                }
            }
            assert((i + 1) * step == i * step + step) by (nonlinear_arith);
        }
        h = h + step as u128;
        i = i + 1;
    }
}

/// Every offset from the seed belongs to exactly one worker: offset `n` is
/// the `n / workers`-th step of worker `n % workers`, and no two pairs of a
/// worker and a step give the same offset.
pub proof fn lemma_partition(workers: nat, n: nat, w1: nat, k1: nat, w2: nat, k2: nat)
    requires
        workers > 0,
    ensures
        n % workers < workers,
        worker_offset(workers, n % workers, n / workers) == n,
        w1 < workers && w2 < workers && worker_offset(workers, w1, k1) == worker_offset(
            workers,
            w2,
            k2,
        ) ==> w1 == w2 && k1 == k2,
{
    vstd::arithmetic::div_mod::lemma_fundamental_div_mod(n as int, workers as int);
    assert(n / workers * workers == workers * (n / workers)) by (nonlinear_arith);
    if w1 < workers && w2 < workers && worker_offset(workers, w1, k1) == worker_offset(
        workers,
        w2,
        k2,
    ) {
        let m = w1 + k1 * workers;
        vstd::arithmetic::div_mod::lemma_fundamental_div_mod_converse(
            m as int,
            workers as int,
            k1 as int,
            w1 as int,
        );
        vstd::arithmetic::div_mod::lemma_fundamental_div_mod_converse(
            m as int,
            workers as int,
            k2 as int,
            w2 as int,
        );
    }
}

/// The attempts of the workers, from the seed on, are the seed plus every
/// whole number of units, each tried by one worker only.
pub proof fn lemma_workers_cover_attempts(seed: nat, workers: nat, n: nat, w1: nat, k1: nat, w2: nat, k2: nat)
    requires
        workers > 0,
    ensures
        worker_attempt(seed, workers, n % workers, n / workers) == seed + 2 * n,
        w1 < workers && w2 < workers && worker_attempt(seed, workers, w1, k1) == worker_attempt(
            seed,
            workers,
            w2,
            k2,
        ) ==> w1 == w2 && k1 == k2,
{
    lemma_partition(workers, n, w1, k1, w2, k2);
}

/// Why a search ended without a solution.
#[derive(Debug, Clone, Copy, PartialEq, Eq, Structural)]
pub enum SearchError {
    /// Every worker stopped and none reported an accepted attempt.
    SearchFailed,
}

/// The race state after one claim of `s`, and whether that claim won.
pub open spec fn claim_step(winner: Option<Solution>, s: Solution) -> (Option<Solution>, bool) {
    match winner {
        None => (Some(s), true),
        Some(w) => (Some(w), false),
    }
}

/// The winner after the claims of `claims`, in order, from `winner`.
pub open spec fn after_claims(winner: Option<Solution>, claims: Seq<Solution>) -> Option<Solution>
    decreases claims.len(),
{
    if claims.len() == 0 {
        winner
    } else {
        after_claims(claim_step(winner, claims[0]).0, claims.drop_first())
    }
}

/// How many of the claims of `claims`, in order from `winner`, won.
pub open spec fn won_claims(winner: Option<Solution>, claims: Seq<Solution>) -> nat
    decreases claims.len(),
{
    if claims.len() == 0 {
        0
    } else {
        (if claim_step(winner, claims[0]).1 {
            1nat
        } else {
            0nat
        }) + won_claims(claim_step(winner, claims[0]).0, claims.drop_first())
    }
}

/// From a fresh race, any non-empty sequence of claims has exactly one
/// winning claim, the first, and the race then holds its solution.
pub proof fn lemma_single_winner(claims: Seq<Solution>)
    requires
        claims.len() > 0,
    ensures
        won_claims(None, claims) == 1,
        after_claims(None, claims) == Some(claims[0]),
{
    lemma_settled(claims[0], claims.drop_first());
}

/// Once the race has a winner, no later claim wins and the winner stays.
pub proof fn lemma_settled(w: Solution, claims: Seq<Solution>)
    ensures
        won_claims(Some(w), claims) == 0,
        after_claims(Some(w), claims) == Some(w),
    decreases claims.len(),
{
    if claims.len() > 0 {
        lemma_settled(w, claims.drop_first());
    }
}

/// What a worker does after a batch.
pub enum WorkerStep {
    /// Go on with the next batch, from `next` halves.
    Continue { next: u64 },
    /// Leave the search.
    Stop,
}

/// The shared decision of which accepted attempt is reported.
pub struct Race {
    winner: Option<Solution>,
}

impl Race {
    /// The solution that won, if any claim was made.
    pub closed spec fn winner(&self) -> Option<Solution> {
        self.winner
    }

    /// A race that nobody has claimed.
    pub fn new() -> (r: Race)
        ensures
            r.winner() is None,
    {
        Race { winner: None }
    }

    /// Whether a solution has been accepted.
    pub fn is_solved(&self) -> (r: bool)
        ensures
            r == self.winner() is Some,
    {
        self.winner.is_some()
    }

    /// Offers `s`; it is accepted, and `true` returned, only when no claim
    /// was accepted before.
    pub fn claim(&mut self, s: Solution) -> (r: bool)
        ensures
            (final(self).winner(), r) == claim_step(old(self).winner(), s),
    {
        if self.winner.is_some() {
            false
        } else {
            self.winner = Some(s);
            true
        }
    }

    /// Records what a worker's batch came to and tells the worker what to do:
    /// a found solution is claimed and the worker stops; after a batch with
    /// none, it goes on only while no solution has been accepted; once its
    /// attempts are exhausted, it stops.
    pub fn after_batch(&mut self, outcome: BatchOutcome) -> (r: WorkerStep)
        ensures
            match outcome {
                BatchOutcome::Found { solution, .. } => {
                    &&& final(self).winner() == claim_step(old(self).winner(), solution).0
                    &&& r is Stop
                },
                BatchOutcome::Pending { next } => {
                    &&& final(self).winner() == old(self).winner()
                    &&& (r is Stop <==> old(self).winner() is Some)
                    &&& r matches WorkerStep::Continue { next: n } ==> n == next
                },
                BatchOutcome::Exhausted { .. } => {
                    &&& final(self).winner() == old(self).winner()
                    &&& r is Stop
                },
            },
    {
        match outcome {
            BatchOutcome::Found { solution, .. } => {
                self.claim(solution);
                WorkerStep::Stop
            },
            BatchOutcome::Pending { next } => {
                if self.is_solved() {
                    WorkerStep::Stop
                } else {
                    WorkerStep::Continue { next }
                }
            },
            BatchOutcome::Exhausted { .. } => WorkerStep::Stop,
        }
    }

    /// The accepted solution, or `SearchFailed` when there is none.
    pub fn into_result(self) -> (r: Result<Solution, SearchError>)
        ensures
            match self.winner() {
                Some(s) => r == Ok::<Solution, SearchError>(s),
                None => r == Err::<Solution, SearchError>(SearchError::SearchFailed),
            },
    {
        match self.winner {
            Some(s) => Ok(s),
            None => Err(SearchError::SearchFailed),
        }
    }
}

} // verus!
