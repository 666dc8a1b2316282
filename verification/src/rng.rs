use vstd::prelude::*;

verus! {

#[verifier::external_type_specification]
#[verifier::external_body]
pub struct ExStdRng(rand::rngs::StdRng);

/// The value that `rand::Rng::gen_range::<usize>(lo, hi)` returns on a
/// `rand::rngs::StdRng` that was seeded with `seed` and has since answered
/// one `gen_range::<usize>` call for each range in `history`, in order.
/// `StdRng` is a pure deterministic generator, so this is a function of
/// those arguments alone.
pub uninterp spec fn std_rng_draw(seed: u64, history: Seq<(int, int)>, lo: int, hi: int) -> int;

/// A deterministic generator together with the seed it was built from and
/// the ranges it has been asked to draw from so far, which between them
/// determine every draw it will make.
pub struct SeededRng {
    rng: rand::rngs::StdRng,
    seed: Ghost<u64>,
    history: Ghost<Seq<(int, int)>>,
}

impl SeededRng {
    /// The seed this generator was built from.
    pub closed spec fn seed_val(self) -> u64 {
        self.seed@
    }

    /// The ranges this generator has drawn from so far, in order.
    pub closed spec fn draws(self) -> Seq<(int, int)> {
        self.history@
    }
}

/// Relies on rand::rngs::StdRng::seed_from_u64 (rand_core::SeedableRng):
/// builds a generator whose state is a function of the seed alone.
#[verifier::external_body]
pub(crate) fn rng_from_seed(seed: u64) -> (r: SeededRng)
    ensures
        r.seed_val() == seed,
        r.draws() == Seq::<(int, int)>::empty(),
{
    SeededRng {
        rng: rand::SeedableRng::seed_from_u64(seed),
        seed: Ghost(seed),
        history: Ghost(Seq::empty()),
    }
}

/// Relies on rand::Rng::gen_range(lo, hi): uniform in [lo, hi), panicking
/// only when lo >= hi; on StdRng the result is a deterministic function of
/// the seed and of the ranges drawn before this call.
#[verifier::external_body]
pub(crate) fn draw_in_range(r: &mut SeededRng, lo: usize, hi: usize) -> (n: usize)
    requires
        lo < hi,
    ensures
        lo <= n < hi,
        n as int == std_rng_draw(old(r).seed_val(), old(r).draws(), lo as int, hi as int),
        final(r).seed_val() == old(r).seed_val(),
        final(r).draws() == old(r).draws().push((lo as int, hi as int)),
{
    rand::Rng::gen_range(&mut r.rng, lo, hi)
}

/// Relies on rand::thread_rng and rand::Rng::gen::<u64>: a u64 from the
/// process-wide entropy source; nothing is promised of its value.
#[verifier::external_body]
pub(crate) fn entropy_seed() -> u64 {
    rand::Rng::gen::<u64>(&mut rand::thread_rng())
}

} // verus!
