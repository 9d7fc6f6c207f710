use vstd::prelude::*;
use crate::state::{Registry, Codebase, CodebaseView, contains_id};

verus! {

/// The supervisor's bookkeeping: one running watcher task per
/// registered codebase.
///
/// The handle type `H` is whatever the runtime hands back for a spawned
/// task; the supervisor never looks inside one. It only decides which
/// tasks to drop and which codebases need a new task; the caller aborts
/// the returned handles and spawns the returned codebases, attaching
/// each new handle back here.
pub struct Supervisor<H> {
    /// Path of the chronicle file every watcher appends to.
    pub chronicle: String,
    /// One entry per running watcher task, keyed by codebase id.
    pub tasks: Vec<(String, H)>,
}

/// A task under `id` is present.
pub open spec fn has_task<H>(tasks: Seq<(String, H)>, id: Seq<char>) -> bool {
    exists|i: int| 0 <= i < tasks.len() && (#[trigger] tasks[i]).0@ == id
}

/// Task ids are pairwise distinct.
pub open spec fn unique_task_ids<H>(tasks: Seq<(String, H)>) -> bool {
    forall|i: int, j: int| 0 <= i < j < tasks.len()
        ==> (#[trigger] tasks[i]).0@ != (#[trigger] tasks[j]).0@
}

/// The tasks whose codebase is still registered, in their old order.
pub open spec fn spec_keep<H>(
    tasks: Seq<(String, H)>,
    reg: Seq<CodebaseView>,
) -> Seq<(String, H)>
    decreases tasks.len(),
{
    if tasks.len() == 0 {
        Seq::empty()
    } else {
        spec_keep(tasks.drop_last(), reg)
            + if contains_id(reg, tasks.last().0@) { seq![tasks.last()] } else { Seq::empty() }
    }
}

/// The handles of the tasks whose codebase is gone, in their old order.
pub open spec fn spec_dropped<H>(tasks: Seq<(String, H)>, reg: Seq<CodebaseView>) -> Seq<H>
    decreases tasks.len(),
{
    if tasks.len() == 0 {
        Seq::empty()
    } else {
        spec_dropped(tasks.drop_last(), reg)
            + if contains_id(reg, tasks.last().0@) { Seq::empty() } else { seq![tasks.last().1] }
    }
}

/// The registered codebases that have no task, in registry order.
pub open spec fn spec_missing<H>(
    reg: Seq<CodebaseView>,
    tasks: Seq<(String, H)>,
) -> Seq<CodebaseView>
    decreases reg.len(),
{
    if reg.len() == 0 {
        Seq::empty()
    } else {
        spec_missing(reg.drop_last(), tasks)
            + if has_task(tasks, reg.last().id) { Seq::empty() } else { seq![reg.last()] }
    }
}

/// The task map and the registry name the same codebases.
pub open spec fn converged<H>(tasks: Seq<(String, H)>, reg: Seq<CodebaseView>) -> bool {
    &&& forall|i: int| 0 <= i < tasks.len() ==> contains_id(reg, (#[trigger] tasks[i]).0@)
    &&& forall|i: int| 0 <= i < reg.len() ==> has_task(tasks, (#[trigger] reg[i]).id)
}

/// Anything `spec_keep` retains was a task before.
proof fn lemma_keep_subset<H>(tasks: Seq<(String, H)>, reg: Seq<CodebaseView>, id: Seq<char>)
    ensures
        has_task(spec_keep(tasks, reg), id) ==> has_task(tasks, id),
    decreases tasks.len(),
{
    if tasks.len() > 0 {
        lemma_keep_subset(tasks.drop_last(), reg, id);
        if has_task(spec_keep(tasks, reg), id) {
            let k = spec_keep(tasks, reg);
            let i = choose|i: int| 0 <= i < k.len() && (#[trigger] k[i]).0@ == id;
            if i < spec_keep(tasks.drop_last(), reg).len() {
                assert(has_task(spec_keep(tasks.drop_last(), reg), id));
                let j = choose|j: int|
                    0 <= j < tasks.drop_last().len()
                        && (#[trigger] tasks.drop_last()[j]).0@ == id;
                assert(tasks[j] == tasks.drop_last()[j]);
            } else {
                assert(k[i] == tasks.last());
                assert(tasks[tasks.len() - 1] == tasks.last());
            }
        }
    }
}

/// Law: reconciling a converged state changes nothing — nothing is
/// dropped, nothing is missing, the tasks stay as they were.
pub proof fn lemma_reconcile_idempotent<H>(tasks: Seq<(String, H)>, reg: Seq<CodebaseView>)
    requires
        converged(tasks, reg),
    ensures
        spec_keep(tasks, reg) == tasks,
        spec_dropped(tasks, reg) == Seq::<H>::empty(),
        spec_missing(reg, tasks) == Seq::<CodebaseView>::empty(),
{
    lemma_keep_converged(tasks, reg);
    lemma_missing_converged(reg, tasks);
}

proof fn lemma_keep_converged<H>(tasks: Seq<(String, H)>, reg: Seq<CodebaseView>)
    requires
        forall|i: int| 0 <= i < tasks.len() ==> contains_id(reg, (#[trigger] tasks[i]).0@),
    ensures
        spec_keep(tasks, reg) =~= tasks,
        spec_dropped(tasks, reg) =~= Seq::<H>::empty(),
    decreases tasks.len(),
{
    if tasks.len() > 0 {
        assert(tasks.last() == tasks[tasks.len() - 1]);
        assert(forall|i: int| 0 <= i < tasks.drop_last().len()
            ==> tasks.drop_last()[i] == tasks[i]);
        lemma_keep_converged(tasks.drop_last(), reg);
    }
}

proof fn lemma_missing_converged<H>(reg: Seq<CodebaseView>, tasks: Seq<(String, H)>)
    requires
        forall|i: int| 0 <= i < reg.len() ==> has_task(tasks, (#[trigger] reg[i]).id),
    ensures
        spec_missing(reg, tasks) =~= Seq::<CodebaseView>::empty(),
    decreases reg.len(),
{
    if reg.len() > 0 {
        assert(reg.last() == reg[reg.len() - 1]);
        assert(forall|i: int| 0 <= i < reg.drop_last().len() ==> reg.drop_last()[i] == reg[i]);
        lemma_missing_converged(reg.drop_last(), tasks);
    }
}

impl<H> Supervisor<H> {
    /// Task ids stay pairwise distinct.
    pub open spec fn wf(self) -> bool {
        unique_task_ids(self.tasks@)
    }

    pub fn new(chronicle: String) -> (r: Supervisor<H>)
        ensures
            r.chronicle == chronicle,
            r.tasks@ =~= Seq::<(String, H)>::empty(),
            r.wf(),
    {
        Supervisor { chronicle, tasks: Vec::new() }
    }

    /// Whether a watcher task runs for `id`.
    pub fn has_task_for(&self, id: &String) -> (r: bool)
        ensures
            r == has_task(self.tasks@, id@),
    {
        let n = self.tasks.len();
        let mut i: usize = 0;
        while i < n
            invariant
                n == self.tasks@.len(),
                i <= n,
                forall|j: int| 0 <= j < i ==> (#[trigger] self.tasks@[j]).0@ != id@,
            decreases n - i,
        {
            if crate::text::str_eq(self.tasks[i].0.as_str(), id.as_str()) {
                return true;
            }
            i += 1;
        }
        false
    }

    /// Converges the task map toward the registry snapshot.
    ///
    /// Drops every task whose codebase is no longer registered and
    /// returns their handles, for the caller to abort, together with
    /// the registered codebases that need a watcher spawned; the caller
    /// attaches each new handle with `attach`. Reconciling a converged
    /// state is a no-op with nothing to abort and nothing to spawn.
    pub fn reconcile(&mut self, reg: &Registry) -> (r: (Vec<H>, Vec<Codebase>))
        requires
            old(self).wf(),
        ensures
            final(self).wf(),
            final(self).chronicle == old(self).chronicle,
            final(self).tasks@ == spec_keep(old(self).tasks@, reg@),
            r.0@ == spec_dropped(old(self).tasks@, reg@),
            r.1@.map_values(|c: Codebase| c@) == spec_missing(reg@, final(self).tasks@),
            converged(old(self).tasks@, reg@) ==> {
                &&& final(self).tasks@ == old(self).tasks@
                &&& r.0@.len() == 0
                &&& r.1@.len() == 0
            },
    {
        let ghost orig = self.tasks@;
        let mut dropped: Vec<H> = Vec::new();
        let mut kept: Vec<(String, H)> = Vec::new();
        // walk the old tasks front to back, splitting them
        loop
            invariant
                unique_task_ids(orig),
                self.chronicle == old(self).chronicle,
                orig.skip((orig.len() - self.tasks@.len()) as int) =~= self.tasks@,
                self.tasks@.len() <= orig.len(),
                kept@ =~= spec_keep(orig.take((orig.len() - self.tasks@.len()) as int), reg@),
                dropped@ =~= spec_dropped(orig.take((orig.len() - self.tasks@.len()) as int), reg@),
            ensures
                self.chronicle == old(self).chronicle,
                self.tasks@.len() == 0,
                kept@ =~= spec_keep(orig, reg@),
                dropped@ =~= spec_dropped(orig, reg@),
            decreases self.tasks@.len(),
        {
            if self.tasks.len() == 0 {
                proof {
                    assert(orig.take(orig.len() as int) =~= orig);
                }
                break;
            }
            let ghost m = (orig.len() - self.tasks@.len()) as int;
            let pair = self.tasks.remove(0);
            proof {
                assert(orig.skip(m)[0] == orig[m]);
                assert(orig.skip(m).skip(1) =~= orig.skip(m + 1));
                assert(orig.take(m + 1).drop_last() =~= orig.take(m));
                assert(orig.take(m + 1).last() == orig[m]);
            }
            let registered = registry_has_id(reg, &pair.0);
            if registered {
                kept.push(pair);
            } else {
                dropped.push(pair.1);
            }
        }
        self.tasks = kept;
        // find the registered codebases that have no task
        let mut to_spawn: Vec<Codebase> = Vec::new();
        let n = reg.codebases.len();
        let mut i: usize = 0;
        while i < n
            invariant
                n == reg.codebases@.len(),
                i <= n,
                to_spawn@.map_values(|c: Codebase| c@)
                    =~= spec_missing(reg@.take(i as int), self.tasks@),
            decreases n - i,
        {
            proof {
                assert(reg@.take(i as int + 1).drop_last() =~= reg@.take(i as int));
                assert(reg@.take(i as int + 1).last() == reg@[i as int]);
                assert(reg@[i as int] == reg.codebases@[i as int]@);
            }
            let cb = &reg.codebases[i];
            if !self.has_task_for(&cb.id) {
                to_spawn.push(cb.duplicate());
            }
            i += 1;
        }
        proof {
            assert(reg@.take(n as int) =~= reg@);
            lemma_keep_unique(orig, reg@);
            if converged(orig, reg@) {
                lemma_reconcile_idempotent(orig, reg@);
            }
        }
        (dropped, to_spawn)
    }

    /// Records the handle of a freshly spawned watcher for `id`.
    ///
    /// The caller must not already run a task under this id; it checks
    /// with `has_task_for` first.
    pub fn attach(&mut self, id: String, handle: H)
        requires
            old(self).wf(),
            !has_task(old(self).tasks@, id@),
        ensures
            final(self).wf(),
            final(self).chronicle == old(self).chronicle,
            final(self).tasks@ == old(self).tasks@.push((id, handle)),
    {
        let ghost orig = self.tasks@;
        self.tasks.push((id, handle));
        proof {
            assert forall|i: int, j: int| 0 <= i < j < self.tasks@.len()
                implies (#[trigger] self.tasks@[i]).0@ != (#[trigger] self.tasks@[j]).0@ by {
                if j == orig.len() as int {
                    assert(self.tasks@[i] == orig[i]);
                }
            }
        }
    }

    /// Law: shutdown drains the map — afterwards no task entry remains,
    /// and every handle has been handed out for aborting.
    pub fn shutdown(&mut self) -> (handles: Vec<H>)
        ensures
            final(self).tasks@.len() == 0,
            final(self).chronicle == old(self).chronicle,
            handles@ == old(self).tasks@.map_values(|t: (String, H)| t.1),
    {
        let ghost orig = self.tasks@;
        let mut handles: Vec<H> = Vec::new();
        loop
            invariant
                self.chronicle == old(self).chronicle,
                orig.skip((orig.len() - self.tasks@.len()) as int) =~= self.tasks@,
                self.tasks@.len() <= orig.len(),
                handles@ =~= orig.take((orig.len() - self.tasks@.len()) as int)
                    .map_values(|t: (String, H)| t.1),
            ensures
                self.chronicle == old(self).chronicle,
                self.tasks@.len() == 0,
                handles@ =~= orig.map_values(|t: (String, H)| t.1),
            decreases self.tasks@.len(),
        {
            if self.tasks.len() == 0 {
                proof {
                    assert(orig.take(orig.len() as int) =~= orig);
                }
                break;
            }
            let ghost m = (orig.len() - self.tasks@.len()) as int;
            let pair = self.tasks.remove(0);
            proof {
                assert(orig.skip(m)[0] == orig[m]);
                assert(orig.skip(m).skip(1) =~= orig.skip(m + 1));
                assert(orig.take(m + 1).drop_last() =~= orig.take(m));
                assert(orig.take(m + 1).last() == orig[m]);
                assert(orig.take(m + 1).map_values(|t: (String, H)| t.1)
                    =~= orig.take(m).map_values(|t: (String, H)| t.1).push(orig[m].1));
            }
            handles.push(pair.1);
        }
        handles
    }
}

/// Whether the registry holds an entry under `id`.
pub fn registry_has_id(reg: &Registry, id: &String) -> (r: bool)
    ensures
        r == contains_id(reg@, id@),
{
    let n = reg.codebases.len();
    let mut i: usize = 0;
    while i < n
        invariant
            n == reg.codebases@.len(),
            i <= n,
            forall|j: int| 0 <= j < i ==> (#[trigger] reg@[j]).id != id@,
        decreases n - i,
    {
        assert(reg@[i as int] == reg.codebases@[i as int]@);
        if crate::text::str_eq(reg.codebases[i].id.as_str(), id.as_str()) {
            return true;
        }
        i += 1;
    }
    false
}

/// `spec_keep` keeps task ids pairwise distinct.
proof fn lemma_keep_unique<H>(tasks: Seq<(String, H)>, reg: Seq<CodebaseView>)
    requires
        unique_task_ids(tasks),
    ensures
        unique_task_ids(spec_keep(tasks, reg)),
    decreases tasks.len(),
{
    if tasks.len() > 0 {
        assert(forall|i: int| 0 <= i < tasks.drop_last().len()
            ==> tasks.drop_last()[i] == tasks[i]);
        lemma_keep_unique(tasks.drop_last(), reg);
        let k = spec_keep(tasks, reg);
        let k0 = spec_keep(tasks.drop_last(), reg);
        if contains_id(reg, tasks.last().0@) {
            assert forall|i: int, j: int| 0 <= i < j < k.len()
                implies (#[trigger] k[i]).0@ != (#[trigger] k[j]).0@ by {
                if j < k0.len() {
                    assert(k[i] == k0[i] && k[j] == k0[j]);
                } else {
                    assert(k[j] == tasks.last());
                    assert(k[i] == k0[i]);
                    lemma_keep_subset(tasks.drop_last(), reg, k0[i].0@);
                    let m = choose|m: int|
                        0 <= m < tasks.drop_last().len()
                            && (#[trigger] tasks.drop_last()[m]).0@ == k0[i].0@;
                    assert(tasks[m] == tasks.drop_last()[m]);
                    assert(tasks.last() == tasks[tasks.len() - 1]);
                }
            }
        }
    }
}

/// The wait before restarting: the current backoff, capped at 60 seconds.
pub open spec fn spec_backoff_delay(b: u64) -> u64 {
    if b < 60 { b } else { 60u64 }
}

/// The backoff after a crash: doubled, capped at 60 seconds.
pub open spec fn spec_next_backoff(b: u64) -> u64 {
    if b < 30 { (2 * b) as u64 } else { 60u64 }
}

/// Backoff before restarting a crashed watcher: capped at 60 seconds.
pub fn backoff_delay(b: u64) -> (d: u64)
    ensures
        d == spec_backoff_delay(b),
{
    if b < 60 { b } else { 60 }
}

/// The next backoff after a crash: doubled, capped at 60 seconds.
pub fn next_backoff(b: u64) -> (r: u64)
    ensures
        r == spec_next_backoff(b),
{
    if b < 30 { 2 * b } else { 60 }
}

/// What a supervised watcher run ended with.
#[derive(Clone, Copy, Debug, PartialEq, Eq, Structural)]
pub enum WatchOutcome {
    /// The watcher returned normally: leave the loop, the task is done.
    Finished,
    /// The watcher crashed: sleep, then run it again.
    Crashed,
}

/// One turn of the supervised watcher loop: on a crash, sleep for the
/// current capped backoff and double it; on normal termination, stop.
/// The backoff never resets within one supervised lifetime.
pub fn supervise_step(outcome: WatchOutcome, backoff: u64) -> (r: (Option<u64>, u64))
    ensures
        outcome is Finished ==> r.0 is None && r.1 == backoff,
        outcome is Crashed ==> {
            &&& r.0 == Some(spec_backoff_delay(backoff))
            &&& r.1 == spec_next_backoff(backoff)
        },
{
    match outcome {
        WatchOutcome::Finished => (None, backoff),
        WatchOutcome::Crashed => (Some(backoff_delay(backoff)), next_backoff(backoff)),
    }
}

} // verus!
