//! Choice of the distance kernels: the AVX2 ones where the processor has
//! AVX2 and FMA, the scalar ones otherwise; the choice is made once. The
//! kernels themselves are floating-point code outside this crate.
use vstd::prelude::*;

verus! {

/// The kernel family in use.
#[derive(Debug, Clone, Copy, PartialEq, Eq, Structural)]
pub enum Kernels {
    Avx2,
    Scalar,
}

/// The kernels for a processor with (`true`) or without AVX2 and FMA.
pub open spec fn spec_init(avx2_detected: bool) -> Kernels {
    if avx2_detected {
        Kernels::Avx2
    } else {
        Kernels::Scalar
    }
}

/// The kernels in use after a choice is asked for, given the choice made
/// before, if any: an earlier choice stays, else the processor decides.
pub open spec fn spec_choose_once(chosen: Option<Kernels>, avx2_detected: bool) -> Kernels {
    match chosen {
        Some(k) => k,
        None => spec_init(avx2_detected),
    }
}

/// The kernels to install, given whether the processor has AVX2 and FMA.
pub fn init(avx2_detected: bool) -> (r: Kernels)
    ensures
        r == spec_init(avx2_detected),
{
    if avx2_detected {
        Kernels::Avx2
    } else {
        Kernels::Scalar
    }
}

/// The kernels in use once a choice is asked for: `chosen`, the choice made
/// before, if there is one; else the choice `init` makes now.
pub fn choose_once(chosen: Option<Kernels>, avx2_detected: bool) -> (r: Kernels)
    ensures
        r == spec_choose_once(chosen, avx2_detected),
{
    match chosen {
        Some(k) => k,
        None => init(avx2_detected),
    }
}

/// The kernels are chosen once: asking again, whatever the processor
/// reports then, keeps the first choice, which `init` made.
pub proof fn lemma_choice_is_kept(first: bool, later: bool)
    ensures
        spec_choose_once(None, first) == spec_init(first),
        spec_choose_once(Some(spec_choose_once(None, first)), later) == spec_choose_once(
            None,
            first,
        ),
{
}

} // verus!
