//! Calls into other crates. Nothing in this module is proved: each function
//! states what the called function is documented to do.

use vstd::prelude::*;
use cpu_time::ProcessTime;
use num_integer::Integer;
use rand::Rng;
use rand_chacha::rand_core::SeedableRng;
use rand_chacha::ChaCha8Rng;
use rulinalg::utils::{argmax, argmin};

verus! {

/// A point on the clock of the processor time that the process has used.
#[verifier::external_type_specification]
#[verifier::external_body]
pub struct ExProcessTime(cpu_time::ProcessTime);

/// A generator of pseudo-random numbers that a seed determines.
#[verifier::external_type_specification]
#[verifier::external_body]
pub struct ExChaCha8Rng(rand_chacha::ChaCha8Rng);

/// What the operating system reports when a call fails.
#[verifier::external_type_specification]
#[verifier::external_body]
pub struct ExIoError(std::io::Error);

/// Whether `i` is the place of the first largest key.
pub open spec fn is_first_max(keys: Seq<i64>, i: int) -> bool {
    &&& 0 <= i < keys.len()
    &&& forall|j: int| 0 <= j < keys.len() ==> keys[j] <= keys[i]
    &&& forall|j: int| 0 <= j < i ==> keys[j] < keys[i]
}

/// Whether `i` is the place of the first smallest key.
pub open spec fn is_first_min(keys: Seq<i64>, i: int) -> bool {
    &&& 0 <= i < keys.len()
    &&& forall|j: int| 0 <= j < keys.len() ==> keys[j] >= keys[i]
    &&& forall|j: int| 0 <= j < i ==> keys[j] > keys[i]
}

/// Calls `num_integer::Integer::is_even` on a `usize`, which takes the
/// remainder by two: the answer is `true` exactly for multiples of two.
#[verifier::external_body]
pub(crate) fn is_even(n: usize) -> (even: bool)
    ensures
        even == (n % 2 == 0),
{
    n.is_even()
}

/// Calls `num_integer::Integer::is_odd` on a `usize`, the negation of
/// `is_even`.
#[verifier::external_body]
pub(crate) fn is_odd(n: usize) -> (odd: bool)
    ensures
        odd == (n % 2 == 1),
{
    n.is_odd()
}

/// Calls `rulinalg::utils::argmax`, which walks the slice from the front and
/// moves on only to a strictly larger item: it gives the place of the first
/// largest item. It stops the program on an empty slice.
#[verifier::external_body]
pub(crate) fn index_of_max(keys: &Vec<i64>) -> (i: usize)
    requires
        keys@.len() > 0,
    ensures
        is_first_max(keys@, i as int),
{
    argmax(keys.as_slice()).0
}

/// Calls `rulinalg::utils::argmin`, which walks the slice from the front and
/// moves on only to a strictly smaller item: it gives the place of the first
/// smallest item. It stops the program on an empty slice.
#[verifier::external_body]
pub(crate) fn index_of_min(keys: &Vec<i64>) -> (i: usize)
    requires
        keys@.len() > 0,
    ensures
        is_first_min(keys@, i as int),
{
    argmin(keys.as_slice()).0
}

/// Calls `cpu_time::ProcessTime::try_now`, which reads the processor time
/// that the process has used so far, or reports why it cannot. Nothing is
/// claimed of what comes back.
#[verifier::external_body]
pub(crate) fn process_time_now() -> (now: Result<ProcessTime, std::io::Error>) {
    ProcessTime::try_now()
}

/// Calls `cpu_time::ProcessTime::try_elapsed`, which reads the clock again and
/// gives the time used since `start`, here in whole milliseconds, or reports
/// why the clock cannot be read. The processor time of a process does not run
/// backwards, so the difference can be taken. Nothing is claimed of what comes
/// back.
#[verifier::external_body]
pub(crate) fn elapsed_millis(start: &ProcessTime) -> (elapsed: Result<u128, std::io::Error>) {
    match start.try_elapsed() {
        Ok(elapsed) => Ok(elapsed.as_millis()),
        Err(error) => Err(error),
    }
}

/// Calls `rand::thread_rng` and `rand::Rng::gen_range` on `0..n`, which gives
/// a number of that range and stops the program on an empty range.
#[verifier::external_body]
pub(crate) fn random_index(n: usize) -> (i: usize)
    requires
        n > 0,
    ensures
        i < n,
{
    rand::thread_rng().gen_range(0..n)
}

/// Calls `rand_chacha::ChaCha8Rng::seed_from_u64`, which builds a generator
/// from the seed.
#[verifier::external_body]
pub(crate) fn seeded_rng(seed: u64) -> (rng: ChaCha8Rng) {
    ChaCha8Rng::seed_from_u64(seed)
}

/// Calls `rand::Rng::gen_range` on `0..n` with the given generator, which
/// gives a number of that range and stops the program on an empty range.
#[verifier::external_body]
pub(crate) fn draw_index(rng: &mut ChaCha8Rng, n: usize) -> (i: usize)
    requires
        n > 0,
    ensures
        i < n,
{
    rng.gen_range(0..n)
}

/// Calls `rand::Rng::gen_range` on `low..high` with the given generator, which
/// gives a number of that range and stops the program on an empty range.
#[verifier::external_body]
pub(crate) fn draw_between(rng: &mut ChaCha8Rng, low: i32, high: i32) -> (x: i32)
    requires
        low < high,
    ensures
        low <= x < high,
{
    rng.gen_range(low..high)
}

} // verus!
