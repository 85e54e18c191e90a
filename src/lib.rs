//! Class groups of imaginary quadratic orders: reduced binary quadratic
//! forms with composition, squaring, inversion and exponentiation.
mod class_ctx;
mod classy;
mod composition;
mod divisibility;
mod form;
mod lin_congruence;
mod mpz;
mod partial;

pub use classy::{ClassElem, ClassGroup, discriminant, mpz_get_si_2exp, signed_shift, test_reduction};
pub use class_ctx::ClassCtx;
pub use form::QForm;
pub use lin_congruence::LinCongruenceCtx;
pub use mpz::{Mpz, ProbabPrimeResult};
pub use partial::PartialGCDContext;
