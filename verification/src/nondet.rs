//! Non-deterministic choice: a marker for chosen values, a distribution
//! abstraction, and a bounded rejection sampler.

use vstd::prelude::*;

verus! {

/// A value tagged as the result of a non-deterministic choice. No extra
/// runtime state: the wrapper only marks provenance.
pub struct Nondet<T>(pub T);

impl<T> Nondet<T> {
    /// Tags a value as chosen.
    pub fn new(value: T) -> (r: Self)
        ensures
            r.0 == value,
    {
        Nondet(value)
    }

    /// Unwraps the chosen value.
    pub fn get(self) -> (r: T)
        ensures
            r == self.0,
    {
        self.0
    }
}

/// A source of samples. `support` describes which values a draw can
/// produce and `draws` counts the draws made; one draw yields one supported
/// value, counts once, and never changes the support. Implementors decide
/// how the samples are produced; nothing more is promised of a single draw.
pub trait Distribution<T> {
    /// The set of values a draw can produce.
    spec fn support(&self, t: T) -> bool;

    /// The number of draws made from this distribution so far.
    spec fn draws(&self) -> nat;

    /// Draws one sample from the support, counting the draw.
    fn sample(&mut self) -> (t: T)
        ensures
            old(self).support(t),
            forall|u: T| final(self).support(u) == old(self).support(u),
            final(self).draws() == old(self).draws() + 1,
    ;
}

/// The number of draws the rejection sampler attempts before giving up.
pub const PICK_ATTEMPTS: usize = 50;

/// Picks a value from `distr` satisfying `f` by bounded rejection sampling:
/// it commits to the first accepted sample, drawing at most
/// [`PICK_ATTEMPTS`] times. `None` reports an exhausted budget — exactly
/// [`PICK_ATTEMPTS`] draws, every one of them rejected — which callers
/// treat as fatal; it can only happen when some supported value is rejected
/// by `f`, so a distribution whose whole support is accepted yields a
/// choice on the very first draw.
pub fn pick<T: Copy, D: Distribution<T>, F: Fn(T) -> bool>(distr: &mut D, f: F) -> (r: Option<
    Nondet<T>,
>)
    requires
        forall|t: T| old(distr).support(t) ==> call_requires(f, (t,)),
    ensures
        forall|u: T| final(distr).support(u) == old(distr).support(u),
        old(distr).draws() < final(distr).draws() <= old(distr).draws() + PICK_ATTEMPTS,
        r matches Some(n) ==> old(distr).support(n.0) && call_ensures(f, (n.0,), true),
        r is None ==> final(distr).draws() == old(distr).draws() + PICK_ATTEMPTS,
        r is None ==> exists|t: T| old(distr).support(t) && call_ensures(f, (t,), false),
        (forall|t: T| old(distr).support(t) ==> !call_ensures(f, (t,), false)) ==> r is Some
            && final(distr).draws() == old(distr).draws() + 1,
{
    let mut tries: usize = 0;
    while tries < PICK_ATTEMPTS
        invariant
            tries <= PICK_ATTEMPTS,
            forall|u: T| distr.support(u) == old(distr).support(u),
            distr.draws() == old(distr).draws() + tries,
            forall|t: T| old(distr).support(t) ==> call_requires(f, (t,)),
            tries > 0 ==> exists|t: T| old(distr).support(t) && call_ensures(f, (t,), false),
        decreases PICK_ATTEMPTS - tries,
    {
        let s = distr.sample();
        if f(s) {
            return Some(Nondet(s));
        }
        tries += 1;
    }
    None
}

/// The prediction oracle: meant to compute the unique value `_f` forces. It
/// is not implemented, so no value ever comes back; callers treat the
/// absence as fatal.
pub fn predict<T, F: Fn(T) -> bool>(_f: F) -> (r: Option<Nondet<T>>)
    ensures
        r is None,
{
    None
}

/// A distribution producing one fixed value, counting its draws.
pub struct Constant {
    value: u64,
    drawn: u64,
    tally: Ghost<nat>,
}

impl Constant {
    #[verifier::type_invariant]
    spec fn wf(self) -> bool {
        self.drawn as nat == if self.tally@ < u64::MAX {
            self.tally@
        } else {
            u64::MAX as nat
        }
    }

    /// A fresh distribution that always produces `value`.
    pub fn new(value: u64) -> (r: Constant)
        ensures
            r.draws() == 0,
            forall|t: u64| r.support(t) == (t == value),
    {
        Constant { value, drawn: 0, tally: Ghost(0) }
    }

    /// The number of draws made, saturating at the machine word's maximum.
    pub fn draws_count(&self) -> (r: u64)
        ensures
            self.draws() < u64::MAX ==> r == self.draws(),
    {
        proof {
            use_type_invariant(self);
        }
        self.drawn
    }
}

impl Distribution<u64> for Constant {
    closed spec fn support(&self, t: u64) -> bool {
        t == self.value
    }

    closed spec fn draws(&self) -> nat {
        self.tally@
    }

    fn sample(&mut self) -> u64 {
        proof {
            use_type_invariant(&*self);
        }
        let value = self.value;
        let drawn = if self.drawn < u64::MAX {
            self.drawn + 1
        } else {
            self.drawn
        };
        let ghost tally = self.tally@;
        *self = Constant { value, drawn, tally: Ghost(tally + 1) };
        value
    }
}

/// Relies on rand::random: one draw from the thread-local ambient
/// generator. The outcome depends on that generator's state, so nothing is
/// promised of it.
#[verifier::external_body]
fn random_u64() -> u64 {
    rand::random::<u64>()
}

/// The uniform distribution over all 64-bit values, drawn from the ambient
/// per-thread random source.
pub struct AmbientU64 {
    tally: Ghost<nat>,
}

impl AmbientU64 {
    /// A fresh handle on the ambient source.
    pub fn new() -> (r: AmbientU64)
        ensures
            r.draws() == 0,
            forall|t: u64| r.support(t),
    {
        AmbientU64 { tally: Ghost(0) }
    }
}

impl Distribution<u64> for AmbientU64 {
    closed spec fn support(&self, t: u64) -> bool {
        true
    }

    closed spec fn draws(&self) -> nat {
        self.tally@
    }

    fn sample(&mut self) -> u64 {
        let ghost tally = self.tally@;
        self.tally = Ghost(tally + 1);
        random_u64()
    }
}

} // verus!
