//! What the machine says of its cores.
use vstd::prelude::*;

use crate::cores::known_cores;

verus! {

/// The receipt for a listing of the cores of this machine. Only [`available_cores`] issues one.
pub struct Listed {
    core_ids: Ghost<Seq<usize>>,
}

impl Listed {
    /// The cores that were listed; none, if they could not be had.
    pub closed spec fn core_ids(self) -> Seq<usize> {
        self.core_ids@
    }
}

/// Calls [`core_affinity::get_core_ids`]: the ids of the cores that are active, if they can be
/// had, each of them once. Which cores there are is up to the machine, so nothing else is claimed of
/// them but that the receipt lists the same.
#[verifier::external_body]
pub(crate) fn available_cores() -> (r: (Option<Vec<usize>>, Listed))
    ensures
        r.1.core_ids() == known_cores(r.0),
        r.1.core_ids().no_duplicates(),
{
    let core_ids: Option<Vec<usize>> = core_affinity::get_core_ids().map(
        |ids| ids.into_iter().map(|core| core.id).collect(),
    );
    let listed = Listed { core_ids: Ghost(known_cores(core_ids)) };
    (core_ids, listed)
}

} // verus!
