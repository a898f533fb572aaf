//! Inverted-file indexes that may copy a vector into several lists.
//!
//! `IvfSingle` puts each vector into the list of its nearest centroid.
//! `IvfSpillTopK` copies it into the lists of its nearest centroids. `IvfSoar`
//! picks further lists whose residuals are not parallel to those of the lists
//! picked before.

pub mod dataset;
pub mod estimate_laws;
pub mod ivf_common;
pub mod ivf_single;
pub mod ivf_soar;
pub mod ivf_spill_topk;
pub mod metrics;
pub mod penalty_laws;
pub mod postings;
pub mod probe_laws;
pub mod training_laws;

use vstd::prelude::*;

use crate::linalg::{difference, subtract};
use crate::scalar::Scalar;
use crate::table::copy_into;

pub use crate::linalg::{dot, sq_l2};
pub use crate::soar_ivf::ivf_common::{Centroids, IvfVariant, PostingLists};
pub use crate::soar_ivf::ivf_single::IvfSingle;
pub use crate::soar_ivf::ivf_soar::IvfSoar;
pub use crate::soar_ivf::ivf_spill_topk::IvfSpillTopK;
pub use crate::soar_ivf::metrics::{recall_at_k, Hit};

verus! {

/// Writes the differences of the components to `out`.
pub fn sub_into<R: Scalar>(a: &[R], b: &[R], out: &mut [R])
    requires
        a@.len() == b@.len(),
        a@.len() == old(out)@.len(),
    ensures
        final(out)@ == difference(a@, b@),
{
    let r = subtract(a, b);
    copy_into(r.as_slice(), out);
}

} // verus!
