use vstd::prelude::*;

use crate::error::{ContainerError, Phase, StopFailure};
use crate::graph::TypeKey;
use crate::repository::ComponentRepository;

verus! {

/// The start and stop hooks of a component. A component registered without
/// lifecycle never has them called.
pub trait ComponentLifecycle {
    /// Brings the component up; its dependencies are already started.
    fn start(&self) -> Result<(), String>;

    /// Brings the component down; its dependents are already stopped.
    fn stop(&self) -> Result<(), String>;
}

/// `after` is `before` once every component with hooks has started, in build order.
pub open spec fn started_after<V>(before: ComponentRepository<V>, after: ComponentRepository<V>) -> bool {
    &&& after.spec_phase() == Phase::Started
    &&& after.spec_slots() == before.spec_slots()
    &&& after.spec_start_calls() == before.hooked()
    &&& after.spec_stop_calls().len() == 0
}

/// `after` is `before` once every started component has been stopped, in
/// the reverse of the order in which they started.
pub open spec fn stopped_after<V>(before: ComponentRepository<V>, after: ComponentRepository<V>) -> bool {
    &&& after.spec_phase() == Phase::Stopped
    &&& after.spec_slots() == before.spec_slots()
    &&& after.spec_start_calls() == before.spec_start_calls()
    &&& after.spec_stop_calls() == before.spec_start_calls().reverse()
}

/// Stopping after a successful start runs the stop hooks of exactly the
/// components whose start hooks ran, each once, in the reverse order.
pub proof fn lemma_stop_reverses_start<V>(
    composed: ComponentRepository<V>,
    started: ComponentRepository<V>,
    stopped: ComponentRepository<V>,
)
    requires
        composed.spec_phase() == Phase::Composed,
        started_after(composed, started),
        stopped_after(started, stopped),
    ensures
        stopped.spec_stop_calls().len() == started.spec_start_calls().len(),
        forall|i: int|
            0 <= i < stopped.spec_stop_calls().len() ==> #[trigger] stopped.spec_stop_calls()[i]
                == started.spec_start_calls()[started.spec_start_calls().len() - 1 - i],
        stopped.spec_stop_calls().to_multiset() == composed.hooked().to_multiset(),
{
    started.spec_start_calls().lemma_reverse_to_multiset();
}

/// What the start phase does after one start hook returned.
pub enum StartStep {
    /// Go on with the next component.
    Next,
    /// Stop the components at these positions, in this order, then fail with `error`.
    Abort { stop: Vec<usize>, error: ContainerError },
}

/// `v` in reverse order.
pub fn reversed(v: &Vec<usize>) -> (r: Vec<usize>)
    ensures
        r@ == v@.reverse(),
{
    let n = v.len();
    let mut r: Vec<usize> = Vec::new();
    let mut j: usize = n;
    while j > 0
        invariant
            n == v@.len(),
            j <= n,
            r@.len() == n - j,
            forall|q: int| 0 <= q < n - j ==> #[trigger] r@[q] == v@[n - 1 - q],
        decreases j,
    {
        j = j - 1;
        r.push(v[j]);
    }
    assert(r@ =~= v@.reverse());
    r
}

/// Decides what follows the start hook of the component stored under `t`,
/// given the positions of the components started before it, in start order:
/// on success go on; on failure stop those in reverse order and report the
/// hook's failure.
pub fn after_start(started: &Vec<usize>, t: TypeKey, res: Result<(), String>) -> (r: StartStep)
    ensures
        match res {
            Ok(()) => r is Next,
            Err(c) => match r {
                StartStep::Abort { stop, error } => stop@ == started@.reverse() && error
                    == ContainerError::StartFailed { type_id: t, cause: c },
                StartStep::Next => false,
            },
        },
{
    match res {
        Ok(()) => StartStep::Next,
        Err(cause) => StartStep::Abort {
            stop: reversed(started),
            error: ContainerError::StartFailed { type_id: t, cause },
        },
    }
}

/// The failed results among `res`, each with the id at the same position, in order.
pub open spec fn failures_of(ids: Seq<TypeKey>, res: Seq<Result<(), String>>) -> Seq<(TypeKey, String)>
    decreases res.len(),
{
    if res.len() == 0 || ids.len() == 0 {
        Seq::empty()
    } else {
        let rest = failures_of(ids.drop_last(), res.drop_last());
        match res.last() {
            Ok(()) => rest,
            Err(c) => rest.push((ids.last(), c)),
        }
    }
}

/// `r` reports the stop hooks of `ids` that failed, `res[i]` being what the
/// hook of `ids[i]` returned: `Ok` when none failed, else every failure with
/// its cause, in order.
pub open spec fn stop_outcome(ids: Seq<TypeKey>, res: Seq<Result<(), String>>, r: Result<(), ContainerError>) -> bool {
    &&& res.len() == ids.len()
    &&& (r is Ok <==> failures_of(ids, res).len() == 0)
    &&& match r {
        Ok(()) => true,
        Err(ContainerError::StopFailed(fs)) => fs@.len() == failures_of(ids, res).len() && forall|j: int|
            0 <= j < fs@.len() ==> (#[trigger] fs@[j].type_id, fs@[j].cause) == failures_of(ids, res)[j],
        Err(_) => false,
    }
}

/// The outcome of a shutdown in which the stop hook of `ids[i]` returned
/// `res[i]`: success when none failed, else every failure, in order.
pub fn stop_report(ids: &Vec<TypeKey>, res: &Vec<Result<(), String>>) -> (r: Result<(), ContainerError>)
    requires
        ids@.len() == res@.len(),
    ensures
        stop_outcome(ids@, res@, r),
{
    let mut fs: Vec<StopFailure> = Vec::new();
    let mut i: usize = 0;
    while i < res.len()
        invariant
            ids@.len() == res@.len(),
            i <= res@.len(),
            fs@.len() == failures_of(ids@.subrange(0, i as int), res@.subrange(0, i as int)).len(),
            forall|j: int|
                0 <= j < fs@.len() ==> (#[trigger] fs@[j].type_id, fs@[j].cause) == failures_of(
                    ids@.subrange(0, i as int),
                    res@.subrange(0, i as int),
                )[j],
        decreases res@.len() - i,
    {
        let ghost (a, b) = (ids@.subrange(0, i as int), res@.subrange(0, i as int));
        let ghost (a1, b1) = (ids@.subrange(0, i as int + 1), res@.subrange(0, i as int + 1));
        assert(a1.drop_last() =~= a && b1.drop_last() =~= b);
        assert(b1.last() == res@[i as int] && a1.last() == ids@[i as int]);
        match &res[i] {
            Ok(()) => {},
            Err(c) => {
                let ghost f0 = fs@;
                fs.push(StopFailure { type_id: ids[i], cause: c.clone() });
                assert forall|j: int|
                    0 <= j < fs@.len() implies (#[trigger] fs@[j].type_id, fs@[j].cause) == failures_of(a1, b1)[j] by {
                    if j < f0.len() {
                        assert(fs@[j] == f0[j]);
                    }
                }
            },
        }
        i = i + 1;
    }
    assert(ids@.subrange(0, res@.len() as int) =~= ids@ && res@.subrange(0, res@.len() as int) =~= res@);
    if fs.len() == 0 {
        Ok(())
    } else {
        Err(ContainerError::StopFailed(fs))
    }
}

} // verus!
