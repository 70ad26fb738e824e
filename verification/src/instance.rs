//! The operations on a solver handle that its owner may or may not have
//! initialised yet.

use vstd::prelude::*;
use crate::board::Board;
use crate::constraints::{generate_constraints, rules_of};
use crate::rng::seed_state;
use crate::scheduler::step_result;
use crate::solver::{reports, Wfc};
use crate::weights::{valid_weights, WeightTable};

verus! {

/// The seed of an instance that was given none.
pub const DEFAULT_SEED: u64 = 42;

/// How an initialisation ended.
#[derive(Clone, Copy, Debug, PartialEq, Eq, Structural)]
pub enum InitStatus {
    /// The handle holds a fresh instance.
    Ready,
    /// The handle held an instance already, and holds it still.
    AlreadySet,
    /// The weights cannot make a weight table; the handle is still empty.
    BadWeights,
}

/// The seed that an instance starts from.
pub open spec fn seed_or_default(seed: Option<u64>) -> u64 {
    match seed {
        Some(s) => s,
        None => DEFAULT_SEED,
    }
}

/// A handle that holds one solver instance, or none yet.
pub struct Instance {
    inner: Option<Wfc>,
}

impl Instance {
    /// The instance that the handle holds.
    pub closed spec fn solver(&self) -> Option<Wfc> {
        self.inner
    }

    /// The instance that the handle holds, if any, is well-formed.
    #[verifier::type_invariant]
    pub closed spec fn inv(&self) -> bool {
        self.inner.is_some() ==> self.inner.unwrap().wf()
    }

    /// An empty handle.
    pub fn new() -> (handle: Instance)
        ensures
            handle.solver().is_none(),
    {
        Instance { inner: None }
    }

    /// Whether the handle holds an instance.
    pub fn is_initialized(&self) -> (set: bool)
        ensures
            set == self.solver().is_some(),
    {
        self.inner.is_some()
    }
}

/// Puts a fresh instance into an empty handle. A handle that holds an
/// instance keeps it, whatever the arguments are.
pub fn init_instance(
    handle: &mut Instance,
    constraints: Vec<(usize, usize, i64, usize)>,
    weights: Vec<u64>,
    entropy_terms: Vec<u64>,
    seed: Option<u64>,
) -> (status: InitStatus)
    ensures
        old(handle).solver().is_some() ==> status == InitStatus::AlreadySet
            && final(handle).solver() == old(handle).solver(),
        old(handle).solver().is_none() && !valid_weights(weights@, entropy_terms@) ==> status
            == InitStatus::BadWeights && final(handle).solver().is_none(),
        old(handle).solver().is_none() && valid_weights(weights@, entropy_terms@) ==> {
            &&& status == InitStatus::Ready
            &&& final(handle).solver().is_some()
            &&& final(handle).solver().unwrap().wf()
            &&& final(handle).solver().unwrap().board() == Board::blank(weights@.len())
            &&& final(handle).solver().unwrap().rules() == rules_of(constraints@)
            &&& final(handle).solver().unwrap().weights() == weights@
            &&& final(handle).solver().unwrap().entropy_terms() == entropy_terms@
            &&& final(handle).solver().unwrap().rng_state() == seed_state(seed_or_default(seed))
            &&& final(handle).solver().unwrap().consistent()
        },
{
    if handle.inner.is_some() {
        return InitStatus::AlreadySet;
    }
    let table = match WeightTable::new(weights, entropy_terms) {
        Some(table) => table,
        None => {
            return InitStatus::BadWeights;
        },
    };
    let seed: u64 = match seed {
        Some(s) => s,
        None => DEFAULT_SEED,
    };
    let rules = generate_constraints(constraints);
    handle.inner = Some(Wfc::new(rules, table, seed));
    InitStatus::Ready
}

/// One step of the instance in the handle. An empty handle gives `false`
/// and stays empty.
pub fn step(handle: &mut Instance) -> (ok: bool)
    ensures
        old(handle).solver().is_none() ==> !ok && final(handle).solver().is_none(),
        old(handle).solver().is_some() ==> {
            let before = old(handle).solver().unwrap();
            let after = final(handle).solver().unwrap();
            &&& final(handle).solver().is_some()
            &&& after.wf()
            &&& after.rules() == before.rules()
            &&& after.weights() == before.weights()
            &&& after.entropy_terms() == before.entropy_terms()
            &&& step_result(before, after, ok)
            &&& ok && before.consistent() ==> after.consistent()
        },
{
    proof {
        use_type_invariant(&*handle);
    }
    let mut held: Option<Wfc> = None;
    core::mem::swap(&mut handle.inner, &mut held);
    match held {
        Some(mut wfc) => {
            let ok = wfc.step();
            handle.inner = Some(wfc);
            ok
        },
        None => false,
    }
}

/// One row for every collapsed point of the instance in the handle: its
/// coordinates, then its tile. An empty handle gives no row.
pub fn read_state(handle: &Instance) -> (rows: Vec<Vec<i64>>)
    ensures
        handle.solver().is_none() ==> rows@.len() == 0,
        handle.solver().is_some() ==> reports(handle.solver().unwrap().board().collapsed, rows@),
{
    proof {
        use_type_invariant(handle);
    }
    match &handle.inner {
        Some(wfc) => wfc.read_state(),
        None => Vec::new(),
    }
}

} // verus!
