//! The three tasks that carry a sanity pass through the host's scheduler:
//! one schedules the pass, one prepares it, one releases it. Each updates
//! the ledger and answers with what the host is to do next, in order.

use crate::codec::{zstd_content, zstd_frame};
use crate::format::dump_bytes;
use crate::heapdump::{HeapDumpView, RootEdge};
use crate::host::{common_space_views, CommonSpaceView, Plan, VMBinding};
use crate::process_edges::{ProcessEdgesView, SanityGCProcessEdges, WorkBucketStage};
use crate::sanity_checker::{
    capture_name, spaces_fault, with_spaces, LedgerView, SanityChecker, SanityError,
};
use vstd::prelude::*;

verus! {

/// One thing the host is asked to do for the sanity pass.
#[derive(Clone, Debug, PartialEq, Eq)]
pub enum SanityAction {
    /// Reset the transient state of the scheduler.
    ResetScheduler,
    /// Clear the edges that the edge logger recorded.
    ResetEdgeLogger,
    /// Announce that the sanity pass begins: the mutators stop.
    BeginSanity,
    /// Add this closure work on a group of root edges to the closure stage.
    TraceRoots(SanityGCProcessEdges),
    /// Add work that processes this group of root objects to the closure
    /// stage.
    TraceRootNodes(Vec<u64>),
    /// Add the prepare task of the pass to the prepare stage.
    SchedulePrepare,
    /// Add the release task of the pass to the release stage.
    ScheduleRelease,
    /// Add a prepare notice for this mutator to the prepare stage.
    PrepareMutator(usize),
    /// Hand a prepare notice to this worker.
    PrepareCollector(usize),
    /// Add a release notice for this mutator to the release stage.
    ReleaseMutator(usize),
    /// Hand a release notice to this worker.
    ReleaseCollector(usize),
    /// Store `bytes` under the name `file_name`.
    Persist { file_name: String, bytes: Vec<u8> },
    /// Announce that the sanity pass has ended: the mutators resume.
    EndSanity,
}

/// What a [`SanityAction`] holds, as a mathematical value.
pub enum SanityActionView {
    ResetScheduler,
    ResetEdgeLogger,
    BeginSanity,
    TraceRoots(ProcessEdgesView),
    TraceRootNodes(Seq<u64>),
    SchedulePrepare,
    ScheduleRelease,
    PrepareMutator(usize),
    PrepareCollector(usize),
    ReleaseMutator(usize),
    ReleaseCollector(usize),
    Persist { file_name: Seq<char>, bytes: Seq<u8> },
    EndSanity,
}

impl View for SanityAction {
    type V = SanityActionView;

    open spec fn view(&self) -> SanityActionView {
        match self {
            SanityAction::ResetScheduler => SanityActionView::ResetScheduler,
            SanityAction::ResetEdgeLogger => SanityActionView::ResetEdgeLogger,
            SanityAction::BeginSanity => SanityActionView::BeginSanity,
            SanityAction::TraceRoots(work) => SanityActionView::TraceRoots(work@),
            SanityAction::TraceRootNodes(nodes) => SanityActionView::TraceRootNodes(nodes@),
            SanityAction::SchedulePrepare => SanityActionView::SchedulePrepare,
            SanityAction::ScheduleRelease => SanityActionView::ScheduleRelease,
            SanityAction::PrepareMutator(m) => SanityActionView::PrepareMutator(*m),
            SanityAction::PrepareCollector(w) => SanityActionView::PrepareCollector(*w),
            SanityAction::ReleaseMutator(m) => SanityActionView::ReleaseMutator(*m),
            SanityAction::ReleaseCollector(w) => SanityActionView::ReleaseCollector(*w),
            SanityAction::Persist { file_name, bytes } => SanityActionView::Persist {
                file_name: file_name@,
                bytes: bytes@,
            },
            SanityAction::EndSanity => SanityActionView::EndSanity,
        }
    }
}

/// The views of a sequence of actions, in order.
pub open spec fn action_views(actions: Seq<SanityAction>) -> Seq<SanityActionView> {
    Seq::new(actions.len(), |i: int| actions[i]@)
}

/// Adding an action at the end adds its view at the end.
pub proof fn lemma_action_views_push(actions: Seq<SanityAction>, action: SanityAction)
    ensures
        action_views(actions.push(action)) == action_views(actions).push(action@),
{
    assert(action_views(actions.push(action)) =~= action_views(actions).push(action@));
}

/// The slots of the groups, group after group.
pub open spec fn slots_in_order(groups: Seq<Seq<u64>>) -> Seq<u64>
    decreases groups.len(),
{
    if groups.len() == 0 {
        Seq::empty()
    } else {
        slots_in_order(groups.drop_last()) + groups.last()
    }
}

/// Whether `loaded` are roots that the runtime loaded from `slots`, slot
/// by slot.
pub open spec fn roots_loaded<VM: VMBinding>(vm: &VM, slots: Seq<u64>, loaded: Seq<RootEdge>) -> bool {
    &&& loaded.len() == slots.len()
    &&& forall|k: int| 0 <= k < loaded.len() ==> vm.loads(slots[k], (#[trigger] loaded[k]).objref)
}

/// What scheduling a pass asks of the host: reset the scheduler, reset the
/// edge logger where one runs, stop the mutators, trace each cached group
/// of root edges and of root nodes, and queue the prepare and the release
/// task.
pub open spec fn schedule_actions(s: LedgerView, edge_logging: bool) -> Seq<SanityActionView> {
    seq![SanityActionView::ResetScheduler] + (if edge_logging {
        seq![SanityActionView::ResetEdgeLogger]
    } else {
        Seq::empty()
    }) + seq![SanityActionView::BeginSanity] + Seq::new(
        s.root_edges.len(),
        |i: int|
            SanityActionView::TraceRoots(
                ProcessEdgesView {
                    edges: s.root_edges[i],
                    nodes: Seq::empty(),
                    roots: true,
                    bucket: WorkBucketStage::Closure,
                },
            ),
    ) + Seq::new(s.root_nodes.len(), |i: int| SanityActionView::TraceRootNodes(s.root_nodes[i]))
        + seq![SanityActionView::SchedulePrepare, SanityActionView::ScheduleRelease]
}

/// What preparing a pass asks of the host: a notice to each mutator where
/// the plan wants one, then a notice to each worker.
pub open spec fn prepare_actions(
    prepares_mutators: bool,
    mutators: usize,
    workers: usize,
) -> Seq<SanityActionView> {
    (if prepares_mutators {
        Seq::new(mutators as nat, |i: int| SanityActionView::PrepareMutator(i as usize))
    } else {
        Seq::empty()
    }) + Seq::new(workers as nat, |i: int| SanityActionView::PrepareCollector(i as usize))
}

/// The task that schedules a sanity pass.
pub struct ScheduleSanityGC<P: Plan + 'static> {
    _plan: &'static P,
}

impl<P: Plan + 'static> ScheduleSanityGC<P> {
    pub fn new(plan: &'static P) -> (work: ScheduleSanityGC<P>)
        ensures
            work.plan() == plan,
    {
        ScheduleSanityGC { _plan: plan }
    }

    /// The plan the pass checks.
    pub closed spec fn plan(&self) -> &'static P {
        self._plan
    }

    /// Schedules the pass from the cached roots. In a profiled pass, what
    /// each cached root edge refers to now is loaded and added to the roots
    /// of the capture, group after group; otherwise the ledger stays as it
    /// is. Root nodes cached beside root edges are a fault, and then
    /// nothing changes.
    pub fn do_work<VM: VMBinding>(
        &mut self,
        checker: &mut SanityChecker,
        vm: &VM,
        edge_logging: bool,
        in_harness: bool,
    ) -> (r: Result<Vec<SanityAction>, SanityError>)
        ensures
            r is Err <==> old(checker)@.root_edges.len() > 0 && old(checker)@.root_nodes.len() > 0,
            r is Err ==> r == Err::<Vec<SanityAction>, SanityError>(SanityError::AmbiguousRoots)
                && final(checker)@ == old(checker)@,
            r is Ok ==> action_views(r->Ok_0@) == schedule_actions(old(checker)@, edge_logging),
            r is Ok && !in_harness ==> final(checker)@ == old(checker)@,
            r is Ok && in_harness ==> exists|loaded: Seq<RootEdge>|
                roots_loaded(vm, slots_in_order(old(checker)@.root_edges), loaded)
                    && final(checker)@ == old(checker)@.with_roots(loaded),
            final(self).plan() == old(self).plan(),
    {
        // We use the cached roots for sanity gc, based on the assumption that
        // the stack scanning triggered by the selected plan is correct and precise.
        let mut actions: Vec<SanityAction> = Vec::new();
        let mut roots: Vec<RootEdge> = Vec::new();
        {
            let root_edges = checker.root_edges();
            let root_nodes = checker.root_nodes();
            if root_edges.len() > 0 && root_nodes.len() > 0 {
                return Err(SanityError::AmbiguousRoots);
            }
            actions.push(SanityAction::ResetScheduler);
            // The sanity pass traverses the object graph again: what the
            // edge logger recorded belongs to the pass before.
            if edge_logging {
                actions.push(SanityAction::ResetEdgeLogger);
            }
            actions.push(SanityAction::BeginSanity);
            let ghost head = action_views(actions@);
            assert(head =~= seq![SanityActionView::ResetScheduler] + (if edge_logging {
                seq![SanityActionView::ResetEdgeLogger]
            } else {
                Seq::empty()
            }) + seq![SanityActionView::BeginSanity]);
            let mut i: usize = 0;
            while i < root_edges.len()
                invariant
                    i <= root_edges.len(),
                    crate::sanity_checker::group_views(root_edges@) == checker@.root_edges,
                    action_views(actions@) == head + Seq::new(
                        i as nat,
                        |k: int|
                            SanityActionView::TraceRoots(
                                ProcessEdgesView {
                                    edges: checker@.root_edges[k],
                                    nodes: Seq::empty(),
                                    roots: true,
                                    bucket: WorkBucketStage::Closure,
                                },
                            ),
                    ),
                    !in_harness ==> roots@.len() == 0,
                    in_harness ==> roots_loaded(
                        vm,
                        slots_in_order(checker@.root_edges.take(i as int)),
                        roots@,
                    ),
                decreases root_edges.len() - i,
            {
                let group = &root_edges[i];
                let ghost flat = slots_in_order(checker@.root_edges.take(i as int));
                assert(flat + group@.take(0) =~= flat);
                let mut edges: Vec<u64> = Vec::new();
                let mut j: usize = 0;
                while j < group.len()
                    invariant
                        j <= group.len(),
                        edges@ == group@.take(j as int),
                        !in_harness ==> roots@.len() == 0,
                        in_harness ==> roots_loaded(vm, flat + group@.take(j as int), roots@),
                    decreases group.len() - j,
                {
                    let slot = group[j];
                    edges.push(slot);
                    if in_harness {
                        let ghost earlier = roots@;
                        roots.push(RootEdge { objref: vm.load_edge(slot) });
                        proof {
                            let slots = flat + group@.take(j + 1);
                            assert(slots =~= (flat + group@.take(j as int)).push(slot));
                            assert forall|k: int| 0 <= k < roots@.len() implies vm.loads(
                                slots[k],
                                (#[trigger] roots@[k]).objref,
                            ) by {
                                if k < earlier.len() {
                                    assert(roots@[k] == earlier[k]);
                                }
                            }
                        }
                    }
                    assert(edges@ =~= group@.take(j + 1));
                    j += 1;
                }
                assert(edges@ =~= group@);
                let ghost earlier = actions@;
                let work = SanityGCProcessEdges::new(edges, true, WorkBucketStage::Closure);
                actions.push(SanityAction::TraceRoots(work));
                proof {
                    lemma_action_views_push(earlier, SanityAction::TraceRoots(work));
                    let groups = checker@.root_edges;
                    assert(groups[i as int] == group@);
                    assert(groups.take(i + 1).drop_last() =~= groups.take(i as int));
                    assert(groups.take(i + 1).last() == group@);
                    assert(action_views(actions@) =~= head + Seq::new(
                        (i + 1) as nat,
                        |k: int|
                            SanityActionView::TraceRoots(
                                ProcessEdgesView {
                                    edges: checker@.root_edges[k],
                                    nodes: Seq::empty(),
                                    roots: true,
                                    bucket: WorkBucketStage::Closure,
                                },
                            ),
                    ));
                }
                i += 1;
            }
            assert(checker@.root_edges.take(i as int) =~= checker@.root_edges);
            let ghost traced = action_views(actions@);
            let mut i: usize = 0;
            while i < root_nodes.len()
                invariant
                    i <= root_nodes.len(),
                    crate::sanity_checker::group_views(root_nodes@) == checker@.root_nodes,
                    action_views(actions@) == traced + Seq::new(
                        i as nat,
                        |k: int| SanityActionView::TraceRootNodes(checker@.root_nodes[k]),
                    ),
                decreases root_nodes.len() - i,
            {
                let group = &root_nodes[i];
                let mut nodes: Vec<u64> = Vec::new();
                let mut j: usize = 0;
                while j < group.len()
                    invariant
                        j <= group.len(),
                        nodes@ == group@.take(j as int),
                    decreases group.len() - j,
                {
                    nodes.push(group[j]);
                    assert(nodes@ =~= group@.take(j + 1));
                    j += 1;
                }
                assert(nodes@ =~= group@);
                let ghost earlier = actions@;
                actions.push(SanityAction::TraceRootNodes(nodes));
                proof {
                    lemma_action_views_push(earlier, SanityAction::TraceRootNodes(nodes));
                    assert(checker@.root_nodes[i as int] == group@);
                    assert(action_views(actions@) =~= traced + Seq::new(
                        (i + 1) as nat,
                        |k: int| SanityActionView::TraceRootNodes(checker@.root_nodes[k]),
                    ));
                }
                i += 1;
            }
        }
        proof {
            lemma_action_views_push(actions@, SanityAction::SchedulePrepare);
            lemma_action_views_push(
                actions@.push(SanityAction::SchedulePrepare),
                SanityAction::ScheduleRelease,
            );
        }
        // Prepare global/collectors/mutators
        actions.push(SanityAction::SchedulePrepare);
        // Release global/collectors/mutators
        actions.push(SanityAction::ScheduleRelease);
        assert(action_views(actions@) =~= schedule_actions(checker@, edge_logging));
        if in_harness {
            checker.record_roots(roots);
            assert(checker@ == old(checker)@.with_roots(roots@));
        }
        Ok(actions)
    }
}

/// The task that prepares a sanity pass.
pub struct SanityPrepare<P: Plan + 'static> {
    pub plan: &'static P,
}

impl<P: Plan + 'static> SanityPrepare<P> {
    pub fn new(plan: &'static P) -> (work: SanityPrepare<P>)
        ensures
            work.plan == plan,
    {
        SanityPrepare { plan }
    }

    /// Prepares the pass: nothing is marked any more, a profiled pass opens
    /// a new epoch, and the mutators and the workers get their notices.
    pub fn do_work(
        &mut self,
        checker: &mut SanityChecker,
        in_harness: bool,
        mutators: usize,
        workers: usize,
    ) -> (actions: Vec<SanityAction>)
        ensures
            final(checker)@ == (LedgerView {
                visited: Set::empty(),
                epochs: if in_harness {
                    old(checker)@.epochs.push(Seq::empty())
                } else {
                    old(checker)@.epochs
                },
                ..old(checker)@
            }),
            exists|needed: bool|
                old(self).plan.prepares(needed) && action_views(actions@) == prepare_actions(
                    needed,
                    mutators,
                    workers,
                ),
            final(self).plan == old(self).plan,
    {
        checker.begin_pass(in_harness);
        prepare_notices(self.plan.needs_prepare_mutator(), mutators, workers)
    }
}

/// The notices of the prepare stage: one to each mutator where the plan
/// wants them, then one to each worker.
pub fn prepare_notices(prepares_mutators: bool, mutators: usize, workers: usize) -> (actions: Vec<
    SanityAction,
>)
    ensures
        action_views(actions@) == prepare_actions(prepares_mutators, mutators, workers),
{
    {
        let mut actions: Vec<SanityAction> = Vec::new();
        if prepares_mutators {
            let mut m: usize = 0;
            while m < mutators
                invariant
                    m <= mutators,
                    action_views(actions@) == Seq::new(
                        m as nat,
                        |i: int| SanityActionView::PrepareMutator(i as usize),
                    ),
                decreases mutators - m,
            {
                proof {
                    lemma_action_views_push(actions@, SanityAction::PrepareMutator(m));
                }
                actions.push(SanityAction::PrepareMutator(m));
                m += 1;
                assert(action_views(actions@) =~= Seq::new(
                    m as nat,
                    |i: int| SanityActionView::PrepareMutator(i as usize),
                ));
            }
        }
        let ghost head = action_views(actions@);
        assert(head =~= if prepares_mutators {
            Seq::new(mutators as nat, |i: int| SanityActionView::PrepareMutator(i as usize))
        } else {
            Seq::empty()
        });
        let mut w: usize = 0;
        while w < workers
            invariant
                w <= workers,
                action_views(actions@) == head + Seq::new(
                    w as nat,
                    |i: int| SanityActionView::PrepareCollector(i as usize),
                ),
            decreases workers - w,
        {
            proof {
                lemma_action_views_push(actions@, SanityAction::PrepareCollector(w));
            }
            actions.push(SanityAction::PrepareCollector(w));
            w += 1;
            assert(action_views(actions@) =~= head + Seq::new(
                w as nat,
                |i: int| SanityActionView::PrepareCollector(i as usize),
            ));
        }
        actions
    }
}

/// What releasing a pass asks of the host after the capture is stored: a
/// notice to each mutator, a notice to each worker, and the end of the
/// pass.
pub open spec fn release_actions(mutators: usize, workers: usize) -> Seq<SanityActionView> {
    Seq::new(mutators as nat, |i: int| SanityActionView::ReleaseMutator(i as usize)) + Seq::new(
        workers as nat,
        |i: int| SanityActionView::ReleaseCollector(i as usize),
    ) + seq![SanityActionView::EndSanity]
}

/// The notices of the release stage: one to each mutator, one to each
/// worker, and the end of the pass.
pub fn release_notices(mutators: usize, workers: usize) -> (actions: Vec<SanityAction>)
    ensures
        action_views(actions@) == release_actions(mutators, workers),
{
    let mut actions: Vec<SanityAction> = Vec::new();
    let mut m: usize = 0;
    assert(action_views(actions@) =~= Seq::empty());
    while m < mutators
        invariant
            m <= mutators,
            action_views(actions@) == Seq::new(
                m as nat,
                |i: int| SanityActionView::ReleaseMutator(i as usize),
            ),
        decreases mutators - m,
    {
        proof {
            lemma_action_views_push(actions@, SanityAction::ReleaseMutator(m));
        }
        actions.push(SanityAction::ReleaseMutator(m));
        m += 1;
        assert(action_views(actions@) =~= Seq::new(
            m as nat,
            |i: int| SanityActionView::ReleaseMutator(i as usize),
        ));
    }
    let ghost head = action_views(actions@);
    assert(action_views(actions@) =~= head + Seq::<SanityActionView>::empty());
    let mut w: usize = 0;
    while w < workers
        invariant
            w <= workers,
            action_views(actions@) == head + Seq::new(
                w as nat,
                |i: int| SanityActionView::ReleaseCollector(i as usize),
            ),
        decreases workers - w,
    {
        proof {
            lemma_action_views_push(actions@, SanityAction::ReleaseCollector(w));
        }
        actions.push(SanityAction::ReleaseCollector(w));
        w += 1;
        assert(action_views(actions@) =~= head + Seq::new(
            w as nat,
            |i: int| SanityActionView::ReleaseCollector(i as usize),
        ));
    }
    proof {
        lemma_action_views_push(actions@, SanityAction::EndSanity);
    }
    actions.push(SanityAction::EndSanity);
    actions
}

/// The ledger after a pass was released: the cached roots and the capture
/// are cleared.
pub open spec fn cleared(s: LedgerView) -> LedgerView {
    LedgerView {
        root_edges: Seq::empty(),
        root_nodes: Seq::empty(),
        capture: HeapDumpView::empty(),
        ..s
    }
}

/// Whether releasing a profiled pass whose plan has the spaces `spaces`
/// took the ledger from `before` to `after` with the result `r`. A space
/// that is not contiguous is the fault before all others, then a space that
/// ends beyond the address range; the ledger then stays as it was. Else
/// the release succeeds exactly where the compressor makes a frame of the
/// stored form of the capture with the spaces: the host is then asked to
/// store that frame under the name of the pass and to hand out the
/// notices, and the ledger is cleared.
pub open spec fn released(
    before: LedgerView,
    after: LedgerView,
    spaces: Seq<CommonSpaceView>,
    gc_count: usize,
    mutators: usize,
    workers: usize,
    r: Result<Vec<SanityAction>, SanityError>,
) -> bool {
    let frame = zstd_frame(dump_bytes(with_spaces(before.capture, spaces)), 0);
    if spaces_fault(spaces) is Some {
        r is Err && r->Err_0 == spaces_fault(spaces)->0 && after == before
    } else if frame is None {
        r is Err && r->Err_0 == SanityError::CaptureNotStored && after == before
    } else {
        &&& r is Ok
        &&& after == cleared(before)
        &&& zstd_content(frame->0) == Some(
            dump_bytes(with_spaces(before.capture, spaces)),
        )
        &&& action_views(r->Ok_0@) == seq![
            SanityActionView::Persist {
                file_name: capture_name(gc_count as nat),
                bytes: frame->0,
            },
        ] + release_actions(mutators, workers)
    }
}

/// The task that releases a sanity pass.
pub struct SanityRelease<P: Plan + 'static> {
    pub plan: &'static P,
}

impl<P: Plan + 'static> SanityRelease<P> {
    pub fn new(plan: &'static P) -> (work: SanityRelease<P>)
        ensures
            work.plan == plan,
    {
        SanityRelease { plan }
    }

    /// Releases the pass. A profiled pass takes the spaces of the plan
    /// into the capture and has the capture stored under the name of the
    /// pass; then, profiled or not, the cached roots and the capture are
    /// cleared and the mutators and the workers get their notices. A space
    /// that is not contiguous is a fault, as is a capture that cannot be
    /// brought into its stored form: then the ledger stays as it was and
    /// nothing is asked of the host.
    pub fn do_work(
        &mut self,
        checker: &mut SanityChecker,
        in_harness: bool,
        gc_count: usize,
        mutators: usize,
        workers: usize,
    ) -> (r: Result<Vec<SanityAction>, SanityError>)
        ensures
            final(self).plan == old(self).plan,
            !in_harness ==> r is Ok && action_views(r->Ok_0@) == release_actions(mutators, workers)
                && final(checker)@ == cleared(old(checker)@),
            in_harness ==> exists|spaces: Seq<CommonSpaceView>|
                old(self).plan.lists(spaces) && released(
                    old(checker)@,
                    final(checker)@,
                    spaces,
                    gc_count,
                    mutators,
                    workers,
                    r,
                ),
    {
        let spaces = if in_harness {
            self.plan.spaces()
        } else {
            Vec::new()
        };
        let stored = match checker.end_pass(in_harness, gc_count, &spaces) {
            Ok(stored) => stored,
            Err(e) => {
                assert(released(
                    old(checker)@,
                    checker@,
                    common_space_views(spaces@),
                    gc_count,
                    mutators,
                    workers,
                    Err::<Vec<SanityAction>, SanityError>(e),
                ));
                return Err(e);
            },
        };
        let notices = release_notices(mutators, workers);
        match stored {
            None => Ok(notices),
            Some(capture) => {
                let mut actions: Vec<SanityAction> = Vec::new();
                let persist = SanityAction::Persist {
                    file_name: capture.file_name,
                    bytes: capture.bytes,
                };
                actions.push(persist);
                let mut notices = notices;
                let ghost rest = notices@;
                actions.append(&mut notices);
                proof {
                    let views = action_views(actions@);
                    assert(actions@ =~= seq![persist] + rest);
                    assert(views =~= seq![persist@] + action_views(rest));
                    assert(released(
                        old(checker)@,
                        checker@,
                        common_space_views(spaces@),
                        gc_count,
                        mutators,
                        workers,
                        Ok::<Vec<SanityAction>, SanityError>(actions),
                    ));
                }
                Ok(actions)
            },
        }
    }
}

} // verus!
