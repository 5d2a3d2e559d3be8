//! The capabilities that every decoding strategy offers to a simulation.

use vstd::prelude::*;

use crate::random::StreamRng;
use crate::simulation_result::DecodingResult;

verus! {

/// A decoding strategy bound to a code.
///
/// What a strategy decides is stated by its spec functions: which errors it
/// corrects, and which error it draws from a given position of a given
/// random stream. Decoding may reuse scratch space but changes neither.
pub trait Decoder: Sized {
    type Code;
    type Error: View;
    type Result: DecodingResult;
    type Noise;

    /// The decoder is bound to a code and ready to decode.
    spec fn wf(&self) -> bool;

    /// `code` is a code that `self` can be bound to.
    spec fn accepts(&self, code: &Self::Code) -> bool;

    /// The code that `self` is bound to.
    spec fn bound_code(&self) -> Self::Code;

    /// The parameters of the noise model of `self`.
    spec fn noise(&self) -> Self::Noise;

    /// `self` is bound to no code: the empty code of the strategy.
    spec fn is_unbound(&self) -> bool;

    /// `error` is in the domain of the strategy for the bound code.
    spec fn valid_error(&self, error: <Self::Error as View>::V) -> bool;

    /// Decoding `error` succeeds.
    spec fn succeeds_on(&self, error: <Self::Error as View>::V) -> bool;

    /// The error drawn from the stream of `seed` from its word `drawn` on, and
    /// the position of the stream after it.
    spec fn sampled(&self, seed: u64, drawn: nat) -> (<Self::Error as View>::V, nat);

    /// Binds `self` to `code`.
    fn for_code(self, code: Self::Code) -> (r: Self)
        requires
            self.accepts(&code),
        ensures
            r.wf(),
            r.bound_code() == code,
            r.noise() == self.noise(),
    ;

    /// Gives back the bound code and leaves `self` unbound.
    fn take_code(&mut self) -> (r: Self::Code)
        requires
            old(self).wf(),
        ensures
            r == old(self).bound_code(),
            final(self).wf(),
            final(self).is_unbound(),
            final(self).noise() == old(self).noise(),
    ;

    /// Decodes `error`.
    fn decode(&mut self, error: &Self::Error) -> (r: Self::Result)
        requires
            old(self).wf(),
            old(self).valid_error(error@),
        ensures
            final(self).wf(),
            final(self).bound_code() == old(self).bound_code(),
            final(self).noise() == old(self).noise(),
            r.spec_is_success() == old(self).succeeds_on(error@),
            forall|e| #[trigger] final(self).succeeds_on(e) == old(self).succeeds_on(e),
            forall|e| #[trigger] final(self).valid_error(e) == old(self).valid_error(e),
            forall|s: u64, d: nat| #[trigger] final(self).sampled(s, d) == old(self).sampled(s, d),
    ;

    /// Draws an error from the noise model of the strategy.
    fn get_random_error_with_rng(&self, rng: &mut StreamRng) -> (e: Self::Error)
        requires
            self.wf(),
        ensures
            (e@, final(rng).drawn()) == self.sampled(old(rng).seed(), old(rng).drawn()),
            final(rng).seed() == old(rng).seed(),
            self.valid_error(e@),
    ;
}

} // verus!
