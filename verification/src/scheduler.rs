use vstd::prelude::*;

use crate::customtask::{lemma_task_view_in_range, task_in_range, CustomTask, TaskView};
use crate::errors::CpmError;
use crate::path::{floats_defined, path_duration, path_total_float, Path};

verus! {

/// The phases a scheduler moves through.
#[derive(Clone, Copy, PartialEq, Eq, Structural, Debug)]
pub enum SchedulerState {
    /// Nothing has been loaded or computed yet.
    Unknown,
    /// The task set changed after the last computation.
    Edited,
    /// Both propagation passes finished; results can be read.
    Ready,
}

/// Mathematical image of a scheduler: the stored tasks in insertion
/// order, and the state flag.
#[verifier::ext_equal]
pub ghost struct SchedulerView {
    pub tasks: Seq<TaskView>,
    pub state: SchedulerState,
}

/// No two stored tasks share an identifier.
pub open spec fn ids_unique(ts: Seq<TaskView>) -> bool {
    forall|i: int, j: int|
        0 <= i < j < ts.len() ==> (#[trigger] ts[i]).id != (#[trigger] ts[j]).id
}

/// Some stored task carries this identifier.
pub open spec fn has_id(ts: Seq<TaskView>, id: Seq<char>) -> bool {
    exists|i: int| 0 <= i < ts.len() && (#[trigger] ts[i]).id == id
}

/// The position of the task carrying this identifier (unique when
/// `ids_unique` holds).
pub open spec fn idx_of(ts: Seq<TaskView>, id: Seq<char>) -> int {
    choose|i: int| 0 <= i < ts.len() && (#[trigger] ts[i]).id == id
}

/// Task `j` is a dependency of task `i` that actually resolves: `i`
/// names `j`'s identifier among its dependencies.
pub open spec fn dep_edge(ts: Seq<TaskView>, i: int, j: int) -> bool {
    ts[i].dependencies.contains(ts[j].id)
}

/// Some stored task depends on task `i`.
pub open spec fn has_successor(ts: Seq<TaskView>, i: int) -> bool {
    exists|j: int| 0 <= j < ts.len() && #[trigger] dep_edge(ts, j, i)
}

/// Both sequences hold the same tasks (identifier, duration and
/// dependencies) position by position; timestamps are free to differ.
pub open spec fn same_structure(a: Seq<TaskView>, b: Seq<TaskView>) -> bool {
    &&& a.len() == b.len()
    &&& forall|i: int| 0 <= i < a.len() ==> (#[trigger] a[i]).same_structure(b[i])
}

/// The scheduling engine: owns the task store, runs the forward and
/// backward propagation passes, enumerates dependency chains, filters
/// the critical ones and measures parallelism.
#[derive(Debug)]
pub struct Scheduler {
    tasks: Vec<CustomTask>,
    state: SchedulerState,
}

impl View for Scheduler {
    type V = SchedulerView;

    closed spec fn view(&self) -> SchedulerView {
        SchedulerView {
            tasks: self.tasks@.map_values(|t: CustomTask| t@),
            state: self.state,
        }
    }
}

impl Scheduler {
    /// Identifiers are unique within the store.
    pub open spec fn wf(&self) -> bool {
        ids_unique(self@.tasks)
    }

    /// An empty scheduler in the uninitialized state.
    pub fn new() -> (r: Self)
        ensures
            r@.tasks == Seq::<TaskView>::empty(),
            r@.state == SchedulerState::Unknown,
            r.wf(),
    {
        let r = Scheduler { tasks: Vec::new(), state: SchedulerState::Unknown };
        assert(r@.tasks =~= Seq::<TaskView>::empty());
        r
    }

    /// The position of the first stored task carrying this identifier.
    fn find_index(&self, task_name: &String) -> (r: Option<usize>)
        ensures
            (match r {
                Option::Some(i) => i < self@.tasks.len() && self@.tasks[i as int].id == task_name@,
                Option::None => !has_id(self@.tasks, task_name@),
            }),
    {
        let mut i: usize = 0;
        while i < self.tasks.len()
            invariant
                i <= self.tasks@.len(),
                self@.tasks == self.tasks@.map_values(|t: CustomTask| t@),
                forall|k: int| 0 <= k < i ==> (#[trigger] self@.tasks[k]).id != task_name@,
            decreases self.tasks@.len() - i,
        {
            let tid = self.tasks[i].get_id();
            if tid.eq(task_name) {
                return Some(i);
            }
            i += 1;
        }
        None
    }

    /// Rejects the insertion when a stored task already carries the
    /// candidate's identifier.
    fn check_task_duplication(&self, ref_task: &CustomTask) -> (r: Result<(), CpmError>)
        ensures
            r is Ok <==> !has_id(self@.tasks, ref_task@.id),
            r matches Err(e) ==> e matches CpmError::DuplicateId(id) && id@ == ref_task@.id,
    {
        let name = ref_task.get_id();
        match self.find_index(&name) {
            Some(_) => Err(CpmError::DuplicateId(name)),
            None => Ok(()),
        }
    }

    /// Inserts one task.  A duplicate identifier is rejected and the
    /// store, the stored tasks' fields and the state flag are all left
    /// exactly as they were.
    pub fn add_task(&mut self, task: CustomTask) -> (r: Result<(), CpmError>)
        ensures
            r is Ok <==> !has_id(old(self)@.tasks, task@.id),
            r is Ok ==> final(self)@.tasks == old(self)@.tasks.push(task@) && final(self)@.state
                == SchedulerState::Edited,
            r matches Err(e) ==> e matches CpmError::DuplicateId(id) && id@ == task@.id
                && final(self)@ == old(self)@,
            old(self).wf() ==> final(self).wf(),
    {
        match self.check_task_duplication(&task) {
            Ok(_) => {
                let ghost prev = self@.tasks;
                self.tasks.push(task);
                self.state = SchedulerState::Edited;
                proof {
                    assert(final(self)@.tasks =~= prev.push(task@));
                    if old(self).wf() {
                        assert forall|i: int, j: int|
                            0 <= i < j < final(self)@.tasks.len() implies (#[trigger] final(
                            self)@.tasks[i]).id != (#[trigger] final(self)@.tasks[j]).id by {
                            if j < prev.len() {
                            } else {
                                assert(!has_id(prev, task@.id));
                                assert(final(self)@.tasks[j] == task@);
                            }
                        }
                    }
                }
                Ok(())
            },
            Err(e) => Err(e),
        }
    }

    /// Replaces the whole task set.  The input is screened for
    /// duplicate identifiers first: a rejected list leaves the previous
    /// store and state untouched.
    pub fn fill_tasklist(&mut self, task_list: Vec<CustomTask>) -> (r: Result<(), CpmError>)
        ensures
            r is Ok <==> ids_unique(task_list@.map_values(|t: CustomTask| t@)),
            r is Ok ==> final(self)@.tasks == task_list@.map_values(|t: CustomTask| t@)
                && final(self)@.state == SchedulerState::Edited && final(self).wf(),
            r matches Err(e) ==> (e matches CpmError::DuplicateId(id) && exists|i: int, j: int|
                0 <= i < j < task_list@.len() && (#[trigger] task_list@[i])@.id == id@ && (
                #[trigger] task_list@[j])@.id == id@) && final(self)@ == old(self)@,
    {
        let ghost vs = task_list@.map_values(|t: CustomTask| t@);
        let mut j: usize = 0;
        while j < task_list.len()
            invariant
                j <= task_list@.len(),
                vs == task_list@.map_values(|t: CustomTask| t@),
                self@ == old(self)@,
                ids_unique(vs.take(j as int)),
            decreases task_list@.len() - j,
        {
            let name = task_list[j].get_id();
            if contains_id_upto(&task_list, &name, j) {
                proof {
                    let k = choose|k: int| 0 <= k < j && (#[trigger] task_list@[k])@.id == name@;
                    assert(vs[k].id == vs[j as int].id);
                    assert(!ids_unique(vs));
                    assert(task_list@[j as int]@.id == name@);
                }
                return Err(CpmError::DuplicateId(name));
            }
            proof {
                assert forall|a: int, b: int| 0 <= a < b < j + 1 implies (#[trigger] vs.take(
                    j + 1,
                )[a]).id != (#[trigger] vs.take(j + 1)[b]).id by {
                    assert(vs.take(j + 1)[a] == vs.take(j as int)[a]);
                    if b < j {
                        assert(vs.take(j + 1)[b] == vs.take(j as int)[b]);
                    } else {
                        assert(vs.take(j + 1)[b] == task_list@[j as int]@);
                    }
                }
            }
            j += 1;
        }
        assert(vs.take(j as int) =~= vs);
        self.tasks = task_list;
        self.state = SchedulerState::Edited;
        Ok(())
    }

    /// Looks a task up by its identifier; a miss returns nothing.
    pub fn get_task_by_name(&self, task_name: &String) -> (r: Option<&CustomTask>)
        ensures
            r is Some <==> has_id(self@.tasks, task_name@),
            r matches Some(t) ==> t@.id == task_name@ && exists|i: int|
                0 <= i < self@.tasks.len() && #[trigger] self@.tasks[i] == t@,
    {
        match self.find_index(task_name) {
            Some(i) => {
                let t = &self.tasks[i];
                proof {
                    assert(self@.tasks[i as int] == t@);
                }
                Some(t)
            },
            None => None,
        }
    }

    /// Mutable access to one task by identifier.  A hit marks the
    /// store edited, since the caller may change the task through the
    /// borrow; the caller sees exactly which slot the final value of
    /// the borrow lands in.  Replacing the task's identifier through
    /// the borrow can break the uniqueness of identifiers; callers are
    /// expected to leave it.
    pub fn get_mut_task_by_name(&mut self, task_name: &String) -> (r: Option<&mut CustomTask>)
        ensures
            r is Some <==> has_id(old(self)@.tasks, task_name@),
            r is None ==> final(self)@ == old(self)@,
            (match r {
                Option::Some(t) => exists|i: int|
                    0 <= i < old(self)@.tasks.len() && (#[trigger] old(self)@.tasks[i]).id
                        == task_name@ && *t == old(self).spec_task_at(i) && final(self)@ == (
                    SchedulerView {
                        tasks: old(self)@.tasks.update(i, final(t)@),
                        state: SchedulerState::Edited,
                    }),
                Option::None => true,
            }),
    {
        match self.find_index(task_name) {
            Some(i) => {
                self.state = SchedulerState::Edited;
                let t = &mut self.tasks[i];
                Some(t)
            },
            None => None,
        }
    }

    /// The stored task at one position, as a value.
    pub closed spec fn spec_task_at(&self, i: int) -> CustomTask {
        self.tasks@[i]
    }

    /// Every stored task's numbers fit the machine range: the fields
    /// behind the view are machine integers.  Callers use this to
    /// discharge the range conditions of `lemma_schedule_deterministic`.
    pub proof fn lemma_tasks_in_range(&self)
        ensures
            tasks_in_range(self@.tasks),
    {
        lemma_store_in_range(self.tasks@);
    }

    /// The largest number of tasks that can run at the same time:
    /// consecutive distinct early-finish values (with zero) bound the
    /// time sections, and each section is charged with the tasks whose
    /// early window spans it whole.  Valid only once the scheduler is
    /// ready; asked earlier it reports the state mismatch.
    #[verifier::rlimit(100)]
    pub fn get_parallelism(&self) -> (r: Result<u32, CpmError>)
        ensures
            self@.state != SchedulerState::Ready ==> r == Result::<u32, CpmError>::Err(
                CpmError::StateMismatch,
            ),
            (match r {
                Result::Ok(m) => self@.state == SchedulerState::Ready && (forall|i: int|
                    0 <= i < self@.tasks.len()
                        ==> (#[trigger] self@.tasks[i]).early_finish is Some) && parallelism_spec(
                    self@.tasks,
                    m as int,
                ),
                Result::Err(e) => match e {
                    CpmError::StateMismatch => self@.state != SchedulerState::Ready,
                    CpmError::NotCalculated(id) => self@.state == SchedulerState::Ready && exists|
                        i: int,
                    |
                        0 <= i < self@.tasks.len() && (#[trigger] self@.tasks[i]).early_finish is None
                            && self@.tasks[i].id == id@,
                    CpmError::ValueOutOfRange => self@.state == SchedulerState::Ready && exists|
                        m: int,
                    | m > u32::MAX && #[trigger] parallelism_spec(self@.tasks, m),
                    _ => false,
                },
            }),
    {
        match self.state {
            SchedulerState::Ready => {},
            _ => {
                return Err(CpmError::StateMismatch);
            },
        }
        assert(self@.state == SchedulerState::Ready);
        let n = self.tasks.len();
        let ghost ts = self@.tasks;
        let mut efs: Vec<u64> = Vec::new();
        efs.push(0);
        proof {
            assert(sorted_strict(efs@));
            assert(efs@[0] == 0u64);
            assert forall|y: u64| #[trigger] efs@.contains(y) implies y == 0 by {
                let w = choose|w: int| 0 <= w < efs@.len() && efs@[w] == y;
            }
            assert(efs@.contains(0u64));
        }
        let mut i: usize = 0;
        while i < n
            invariant
                i <= n,
                n == self.tasks@.len(),
                ts == self@.tasks,
                self@.state == SchedulerState::Ready,
                forall|k: int| 0 <= k < i ==> (#[trigger] ts[k]).early_finish is Some,
                sorted_strict(efs@),
                efs@.contains(0u64),
                forall|y: u64|
                    #[trigger] efs@.contains(y) <==> (y == 0 || exists|k: int|
                        0 <= k < i && (#[trigger] ts[k]).early_finish == Some(y as int)),
            decreases n - i,
        {
            match self.tasks[i].get_early_finish() {
                Some(v) => {
                    let ghost prev_efs = efs@;
                    insert_sorted_distinct(&mut efs, v);
                    proof {
                        assert(ts[i as int].early_finish == Some(v as int));
                        assert forall|y: u64| #[trigger] efs@.contains(y) implies (y == 0
                            || exists|k: int|
                            0 <= k < i + 1 && (#[trigger] ts[k]).early_finish == Some(
                                y as int,
                            )) by {
                            if y != 0 {
                                if prev_efs.contains(y) {
                                    let k = choose|k: int|
                                        0 <= k < i && (#[trigger] ts[k]).early_finish == Some(
                                            y as int,
                                        );
                                    assert(ts[k].early_finish == Some(y as int));
                                } else {
                                    assert(y == v);
                                    assert(ts[i as int].early_finish == Some(y as int));
                                }
                            }
                        }
                        assert forall|y: u64|
                            (y == 0 || exists|k: int|
                                0 <= k < i + 1 && (#[trigger] ts[k]).early_finish == Some(
                                    y as int,
                                )) implies #[trigger] efs@.contains(y) by {
                            if y == 0 {
                                assert(prev_efs.contains(y));
                            } else {
                                let k = choose|k: int|
                                    0 <= k < i + 1 && (#[trigger] ts[k]).early_finish == Some(
                                        y as int,
                                    );
                                if k < i {
                                    assert(prev_efs.contains(y));
                                } else {
                                    assert(y == v);
                                }
                            }
                        }
                    }
                },
                None => {
                    proof {
                        assert(self@.tasks[i as int].early_finish is None);
                    }
                    return Err(CpmError::NotCalculated(self.tasks[i].get_id()));
                },
            }
            i += 1;
        }
        proof {
            assert(is_ef_values(ts, efs@));
            assert(efs@.len() >= 1) by {
                let w = choose|w: int| 0 <= w < efs@.len() && efs@[w] == 0u64;
            }
        }
        let mut max_parallel: usize = 0;
        let mut k: usize = 0;
        while k < efs.len() - 1
            invariant
                k <= efs@.len(),
                efs@.len() >= 1,
                n == self.tasks@.len(),
                ts == self@.tasks,
                self@.state == SchedulerState::Ready,
                forall|k: int| 0 <= k < n ==> (#[trigger] ts[k]).early_finish is Some,
                sorted_strict(efs@),
                is_ef_values(ts, efs@),
                max_parallel <= n,
                forall|k2: int|
                    0 <= k2 < k && k2 < efs@.len() - 1 ==> #[trigger] covering_count(
                        ts,
                        efs@[k2] as int,
                        efs@[k2 + 1] as int,
                    ) <= max_parallel,
                max_parallel == 0 || exists|k2: int|
                    0 <= k2 < efs@.len() - 1 && #[trigger] covering_count(
                        ts,
                        efs@[k2] as int,
                        efs@[k2 + 1] as int,
                    ) == max_parallel,
            decreases efs@.len() - k,
        {
            let a = efs[k];
            let b = efs[k + 1];
            let mut count: usize = 0;
            let mut t: usize = 0;
            while t < n
                invariant
                    t <= n,
                    n == self.tasks@.len(),
                    ts == self@.tasks,
                    count == covering_count(ts.take(t as int), a as int, b as int),
                    count <= t,
                decreases n - t,
            {
                proof {
                    assert(ts.take(t + 1).drop_last() =~= ts.take(t as int));
                    assert(ts.take(t + 1).last() == ts[t as int]);
                }
                let es_t = self.tasks[t].get_early_start();
                let ef_t = self.tasks[t].get_early_finish();
                match (es_t, ef_t) {
                    (Some(es), Some(ef)) => {
                        if es <= a && b <= ef {
                            count += 1;
                        }
                    },
                    _ => {},
                }
                t += 1;
            }
            proof {
                assert(ts.take(n as int) =~= ts);
            }
            if count > max_parallel {
                max_parallel = count;
            }
            k += 1;
        }
        proof {
            assert(is_parallelism(ts, efs@, max_parallel as int)) by {
                assert forall|k2: int|
                    0 <= k2 < efs@.len() - 1 implies #[trigger] covering_count(
                    ts,
                    efs@[k2] as int,
                    efs@[k2 + 1] as int,
                ) <= max_parallel by {}
            }
        }
        if max_parallel > u32::MAX as usize {
            proof {
                assert(parallelism_spec(ts, max_parallel as int));
            }
            return Err(CpmError::ValueOutOfRange);
        }
        proof {
            assert(parallelism_spec(ts, max_parallel as int));
        }
        Ok(max_parallel as u32)
    }

    /// Copies of the stored tasks that the given task's dependency
    /// names resolve to, in the order the names are listed.  A name
    /// matching no stored task contributes nothing: dangling references
    /// are ignored rather than rejected.
    pub fn get_task_dependencies(&self, task_ref: &CustomTask) -> (r: Vec<CustomTask>)
        requires
            self.wf(),
        ensures
            r@.map_values(|t: CustomTask| t@) == resolve_deps(self@.tasks, task_ref@.dependencies),
    {
        let names = task_ref.get_dependencies();
        let ghost nv = task_ref@.dependencies;
        let mut r: Vec<CustomTask> = Vec::new();
        let mut d: usize = 0;
        while d < names.len()
            invariant
                self.wf(),
                d <= names@.len(),
                nv == names@.map_values(|s: String| s@),
                self@.tasks == self.tasks@.map_values(|t: CustomTask| t@),
                r@.map_values(|t: CustomTask| t@) =~= resolve_deps(self@.tasks, nv.take(d as int)),
            decreases names@.len() - d,
        {
            let ghost prev = r@.map_values(|t: CustomTask| t@);
            match self.find_index(&names[d]) {
                Some(i) => {
                    r.push(self.tasks[i].duplicate());
                    proof {
                        let ts = self@.tasks;
                        assert(r@.map_values(|t: CustomTask| t@) =~= prev.push(ts[i as int]));
                        let w = idx_of(ts, nv[d as int]);
                        assert(ts[w].id == nv[d as int]);
                        assert(ts[i as int] == ts[w]) by {
                            if i as int != w {
                                assert(ts[i as int].id == ts[w].id);
                            }
                        }
                    }
                },
                None => {},
            }
            proof {
                assert(nv.take(d + 1).drop_last() =~= nv.take(d as int));
                assert(nv.take(d + 1).last() == nv[d as int]);
            }
            d += 1;
        }
        assert(nv.take(d as int) =~= nv);
        r
    }

    /// Every finished dependency walk that begins at the given task,
    /// each distinct walk listed once: single-dependency stretches are
    /// followed directly, and a task with several resolved
    /// dependencies fans out into one walk per combination.  `level`
    /// names the recursion depth of the caller's own bookkeeping and
    /// does not alter the walk; the walk bounds its own depth, so a
    /// cyclic graph is reported instead of walked forever — and a
    /// cycle report on a stored task really means the graph has no
    /// topological order.
    #[allow(unused_variables)]
    pub fn get_paths_from_task(&self, start_point: &CustomTask, level: u32) -> (r: Result<
        Vec<Path>,
        CpmError,
    >)
        requires
            self.wf(),
        ensures
            (match r {
                Result::Ok(paths) => {
                    &&& paths@.len() >= 1
                    &&& forall|q: int|
                        0 <= q < paths@.len() ==> chain_from(
                            self@.tasks,
                            start_point@,
                            (#[trigger] paths@[q])@,
                        )
                    &&& forall|c: Seq<TaskView>|
                        #[trigger] chain_from(self@.tasks, start_point@, c) ==> exists|q: int|
                            0 <= q < paths@.len() && (#[trigger] paths@[q])@ == c
                    &&& forall|q1: int, q2: int|
                        0 <= q1 < q2 < paths@.len() ==> (#[trigger] paths@[q1])@ != (
                        #[trigger] paths@[q2])@
                },
                Result::Err(e) => e is CycleDetected && (self@.tasks.contains(start_point@)
                    ==> !exists|ord: Seq<int>| is_topo_order(self@.tasks, ord)),
            }),
    {
        let ghost a0: Seq<TaskView> = seq![start_point@];
        proof {
            reveal(descent_ok);
            assert(a0[0] == start_point@);
        }
        match self.paths_walk(start_point, 0, Ghost(a0)) {
            Ok(v) => {
                let ghost vv = v@;
                let out = dedup_walks(v);
                proof {
                    broadcast use vstd::set::group_set_axioms;

                    let mo = paths_view(out@);
                    let mv = paths_view(vv);
                    assert forall|q: int|
                        0 <= q < out@.len() implies chain_from(
                        self@.tasks,
                        start_point@,
                        (#[trigger] out@[q])@,
                    ) by {
                        assert(mo[q] == out@[q]@);
                        assert(mo.contains(out@[q]@));
                        assert(mv.to_set().contains(out@[q]@));
                        assert(mv.contains(out@[q]@));
                        let w = choose|w: int| 0 <= w < mv.len() && #[trigger] mv[w] == out@[q]@;
                        assert(vv[w]@ == out@[q]@);
                        assert(chain_from(self@.tasks, start_point@, vv[w]@));
                    }
                    assert forall|c: Seq<TaskView>|
                        #[trigger] chain_from(self@.tasks, start_point@, c) implies exists|q: int|
                        0 <= q < out@.len() && (#[trigger] out@[q])@ == c by {
                        let w = choose|w: int| 0 <= w < vv.len() && (#[trigger] vv[w])@ == c;
                        assert(mv[w] == c);
                        assert(mv.contains(c));
                        assert(mo.to_set().contains(c));
                        assert(mo.contains(c));
                        let q = choose|q: int| 0 <= q < mo.len() && #[trigger] mo[q] == c;
                        assert(out@[q]@ == c);
                    }
                }
                Ok(out)
            },
            Err(e) => {
                proof {
                    assert(a0[0] == start_point@);
                }
                Err(e)
            },
        }
    }

    /// The walk behind `get_paths_from_task`.  `anc` is the chain of
    /// tasks the recursion descended through, ending at the current
    /// start; its length witnesses the depth, so when the depth
    /// outgrows the store the chain must revisit a task.
    #[verifier::rlimit(100)]
    fn paths_walk(
        &self,
        start_point: &CustomTask,
        depth: usize,
        Ghost(anc): Ghost<Seq<TaskView>>,
    ) -> (r: Result<Vec<Path>, CpmError>)
        requires
            self.wf(),
            descent_ok(self@.tasks, anc, start_point@, depth as int),
        ensures
            (match r {
                Result::Ok(paths) => {
                    &&& paths@.len() >= 1
                    &&& forall|q: int|
                        0 <= q < paths@.len() ==> chain_from(
                            self@.tasks,
                            start_point@,
                            (#[trigger] paths@[q])@,
                        )
                    &&& forall|c: Seq<TaskView>|
                        #[trigger] chain_from(self@.tasks, start_point@, c) ==> exists|q: int|
                            0 <= q < paths@.len() && (#[trigger] paths@[q])@ == c
                },
                Result::Err(e) => e is CycleDetected && (self@.tasks.contains(anc[0])
                    ==> !exists|ord: Seq<int>| is_topo_order(self@.tasks, ord)),
            }),
        decreases self@.tasks.len() + 1 - depth,
    {
        let n = self.tasks.len();
        // deeper nesting than there are tasks means the descent
        // revisited a task: the graph has a cycle
        if depth >= n {
            proof {
                reveal(descent_ok);
                assert(descent_ok(self@.tasks, anc, start_point@, depth as int));
                if self@.tasks.contains(anc[0]) {
                    assert(stored_chain(self@.tasks, anc));
                    lemma_long_chain_no_topo(self@.tasks, anc);
                }
            }
            return Err(CpmError::CycleDetected);
        }
        let mut head: CustomTask = start_point.duplicate();
        let mut base_path = Path::new();
        base_path.add_task(start_point);
        let mut found_paths: Vec<Path> = Vec::new();
        let mut steps: usize = 0;
        proof {
            assert(base_path@ =~= Seq::<TaskView>::empty().push(start_point@));
            assert forall|c: Seq<TaskView>|
                #[trigger] chain_from(self@.tasks, start_point@, c) implies c.len()
                >= base_path@.len() && c.take(base_path@.len() as int) == base_path@ by {
                assert(c.take(1) =~= base_path@);
            }
        }
        loop
            invariant_except_break
                self.wf(),
                n == self.tasks@.len(),
                depth < n,
                descent_ok(self@.tasks, anc, start_point@, depth as int),
                steps <= n,
                base_path@.len() == steps + 1,
                base_path@.len() >= 1,
                base_path@[base_path@.len() - 1] == head@,
                chain_prefix(self@.tasks, start_point@, base_path@),
                found_paths@.len() == 0,
                // the walk so far is forced: every finished walk goes
                // through it
                forall|c: Seq<TaskView>|
                    #[trigger] chain_from(self@.tasks, start_point@, c) ==> c.len()
                        >= base_path@.len() && c.take(base_path@.len() as int) == base_path@,
            ensures
                found_paths@.len() >= 1,
                forall|q: int|
                    0 <= q < found_paths@.len() ==> chain_from(
                        self@.tasks,
                        start_point@,
                        (#[trigger] found_paths@[q])@,
                    ),
                forall|c: Seq<TaskView>|
                    #[trigger] chain_from(self@.tasks, start_point@, c) ==> exists|q: int|
                        0 <= q < found_paths@.len() && (#[trigger] found_paths@[q])@ == c,
            decreases n + 1 - steps,
        {
            if steps >= n {
                proof {
                    reveal(descent_ok);
                    if self@.tasks.contains(anc[0]) {
                        // splicing the walk onto the descent chain
                        // gives a stored walk longer than the store
                        assert(anc[anc.len() - 1] == base_path@[0]);
                        lemma_comb_stored(self@.tasks, anc, base_path@);
                        lemma_long_chain_no_topo(self@.tasks, anc + base_path@.skip(1));
                    }
                }
                return Err(CpmError::CycleDetected);
            }
            let ghost ts = self@.tasks;
            let deps = self.get_task_dependencies(&head);
            let ghost dvs = deps@.map_values(|t: CustomTask| t@);
            proof {
                lemma_resolve_deps_members(ts, head@.dependencies);
            }
            if deps.len() > 1 {
                let mut d: usize = 0;
                while d < deps.len()
                    invariant
                        self.wf(),
                        n == self.tasks@.len(),
                        ts == self@.tasks,
                        depth < n,
                        descent_ok(ts, anc, start_point@, depth as int),
                        d <= deps@.len(),
                        dvs == deps@.map_values(|t: CustomTask| t@),
                        dvs == resolve_deps(ts, head@.dependencies),
                        base_path@.len() >= 1,
                        base_path@[base_path@.len() - 1] == head@,
                        chain_prefix(ts, start_point@, base_path@),
                        d > 0 ==> found_paths@.len() >= 1,
                        forall|q: int|
                            0 <= q < found_paths@.len() ==> chain_from(
                                ts,
                                start_point@,
                                (#[trigger] found_paths@[q])@,
                            ),
                        forall|c: Seq<TaskView>|
                            #[trigger] chain_from(ts, start_point@, c) ==> c.len()
                                >= base_path@.len() && c.take(base_path@.len() as int)
                                == base_path@,
                        forall|c: Seq<TaskView>|
                            (#[trigger] chain_from(ts, start_point@, c) && exists|d2: int|
                                0 <= d2 < d && c[base_path@.len() as int] == dvs[d2])
                                ==> exists|q: int|
                                0 <= q < found_paths@.len() && (#[trigger] found_paths@[q])@ == c,
                    decreases deps@.len() - d,
                {
                    proof {
                        lemma_resolve_deps_members(ts, head@.dependencies);
                        assert(ts.contains(dvs[d as int]));
                        assert(head@.dependencies.contains(dvs[d as int].id));
                    }
                    let ghost anc2 = anc + base_path@.skip(1) + seq![dvs[d as int]];
                    proof {
                        assert(base_path@[base_path@.len() - 1] == head@);
                        lemma_descend_step(
                            ts,
                            anc,
                            base_path@,
                            dvs[d as int],
                            start_point@,
                            depth as int,
                        );
                        assert(descent_ok(ts, anc2, dvs[d as int], depth + 1));
                        assert(anc2[0] == anc[0]);
                    }
                    let sub_paths = match self.paths_walk(&deps[d], depth + 1, Ghost(anc2)) {
                        Ok(v) => v,
                        Err(e) => {
                            proof {
                                if self@.tasks.contains(anc[0]) {
                                    assert(self@.tasks.contains(anc2[0]));
                                }
                            }
                            return Err(e);
                        },
                    };
                    let ghost prevf = found_paths@;
                    splice_walks(&base_path, &sub_paths, &mut found_paths);
                    proof {
                        lemma_fanout_step(
                            ts,
                            start_point@,
                            base_path@,
                            dvs,
                            d as int,
                            sub_paths@,
                            prevf,
                            found_paths@,
                        );
                    }
                    d += 1;
                }
                proof {
                    let gl = base_path@.len() as int;
                    lemma_resolve_deps_members(ts, head@.dependencies);
                    assert forall|c: Seq<TaskView>|
                        #[trigger] chain_from(self@.tasks, start_point@, c) implies exists|q: int|
                        0 <= q < found_paths@.len() && (#[trigger] found_paths@[q])@ == c by {
                        assert(c.len() >= gl && c.take(gl) == base_path@);
                        assert(c[gl - 1] == base_path@[gl - 1]);
                        if c.len() == gl {
                            let i = choose|i: int|
                                0 <= i < ts.len() && #[trigger] ts[i] == dvs[0];
                            assert(!head@.dependencies.contains(ts[i].id));
                            assert(false);
                        }
                        let u = c[gl];
                        assert(ts.contains(u));
                        assert(head@.dependencies.contains(u.id));
                        lemma_resolve_deps_complete(ts, head@.dependencies);
                        assert(dvs.contains(u));
                        let d2 = choose|d2: int| 0 <= d2 < dvs.len() && dvs[d2] == u;
                        assert(exists|d3: int| 0 <= d3 < deps@.len() && c[gl] == dvs[d3]);
                    }
                }
                break;
            }
            if deps.len() == 0 {
                proof {
                    lemma_resolve_deps_empty(ts, head@.dependencies);
                    assert forall|j: int|
                        0 <= j < ts.len() implies !head@.dependencies.contains(
                        (#[trigger] ts[j]).id,
                    ) by {
                        if head@.dependencies.contains(ts[j].id) {
                            assert(has_id(ts, ts[j].id));
                            let k = choose|k: int|
                                0 <= k < head@.dependencies.len() && head@.dependencies[k] == ts[j].id;
                            assert(!has_id(ts, head@.dependencies[k]));
                        }
                    }
                    assert(no_resolved_deps(ts, base_path@[base_path@.len() - 1]));
                    assert(chain_from(ts, start_point@, base_path@));
                }
                let ghost bv = base_path@;
                found_paths.push(base_path);
                proof {
                    assert(found_paths@[0]@ == bv);
                    // the walk could not have continued past a task
                    // with no resolved dependencies, so it is the only
                    // finished walk
                    assert forall|c: Seq<TaskView>|
                        #[trigger] chain_from(self@.tasks, start_point@, c) implies exists|q: int|
                        0 <= q < found_paths@.len() && (#[trigger] found_paths@[q])@ == c by {
                        assert(c.len() >= bv.len() && c.take(bv.len() as int) == bv);
                        assert(c[bv.len() - 1] == bv[bv.len() - 1]);
                        if c.len() > bv.len() {
                            let u = c[bv.len() as int];
                            assert(ts.contains(u));
                            assert(c[bv.len() - 1].dependencies.contains(u.id));
                            let i = choose|i: int| 0 <= i < ts.len() && #[trigger] ts[i] == u;
                            assert(!bv[bv.len() - 1].dependencies.contains(ts[i].id));
                            assert(false);
                        }
                        assert(c =~= bv);
                        assert(found_paths@[0]@ == c);
                    }
                }
                break;
            }
            // exactly one resolved dependency: extend the walk
            let ghost old_base = base_path@;
            let ghost old_head = head@;
            let new_head = deps[0].duplicate();
            base_path.add_task(&deps[0]);
            head = new_head;
            proof {
                assert(base_path@ == old_base.push(dvs[0]));
                assert(ts.contains(dvs[0]));
                assert(old_base[old_base.len() - 1] == old_head);
                assert(old_head.dependencies.contains(dvs[0].id));
                assert forall|k: int|
                    1 <= k < base_path@.len() implies ts.contains(#[trigger] base_path@[k]) by {
                    if k < old_base.len() {
                        assert(base_path@[k] == old_base[k]);
                    } else {
                        assert(base_path@[k] == dvs[0]);
                    }
                }
                assert forall|k: int|
                    0 <= k < base_path@.len() - 1 implies (#[trigger] base_path@[k]).dependencies.contains(
                    base_path@[k + 1].id,
                ) by {
                    if k < old_base.len() - 1 {
                        assert(base_path@[k] == old_base[k]);
                        assert(base_path@[k + 1] == old_base[k + 1]);
                    } else {
                        assert(base_path@[k] == old_head);
                        assert(base_path@[k + 1] == dvs[0]);
                    }
                }
                // the single resolved dependency forces every finished
                // walk to step the same way
                assert forall|c: Seq<TaskView>|
                    #[trigger] chain_from(ts, start_point@, c) implies c.len() >= base_path@.len()
                    && c.take(base_path@.len() as int) == base_path@ by {
                    assert(c.len() >= old_base.len());
                    assert(c.take(old_base.len() as int) == old_base);
                    assert(c[old_base.len() - 1] == old_base[old_base.len() - 1]);
                    if c.len() == old_base.len() {
                        let i = choose|i: int| 0 <= i < ts.len() && #[trigger] ts[i] == dvs[0];
                        assert(c[c.len() - 1] == old_head);
                        assert(!old_head.dependencies.contains(ts[i].id));
                        assert(false);
                    }
                    let u = c[old_base.len() as int];
                    assert(ts.contains(u));
                    assert(old_head.dependencies.contains(u.id));
                    lemma_resolve_deps_complete(ts, old_head.dependencies);
                    assert(resolve_deps(ts, old_head.dependencies).contains(u));
                    let q = choose|q: int| 0 <= q < dvs.len() && dvs[q] == u;
                    assert(u == dvs[0]);
                    assert(c.take(base_path@.len() as int) =~= old_base.push(dvs[0]));
                }
            }
            steps += 1;
        }
        Ok(found_paths)
    }

    /// Every finished dependency walk of the graph, gathered from
    /// every end point, each distinct walk listed once.  Each walk
    /// reads end-to-start; cycles are reported rather than walked
    /// forever.
    #[verifier::rlimit(100)]
    pub fn get_all_paths(&self) -> (r: Result<Vec<Path>, CpmError>)
        requires
            self.wf(),
        ensures
            (match r {
                Result::Ok(paths) => all_paths_spec(self@.tasks, paths@),
                Result::Err(e) => e is CycleDetected && !exists|ord: Seq<int>|
                    is_topo_order(self@.tasks, ord),
            }),
    {
        let ghost ts = self@.tasks;
        let endpoints = self.get_endpoints();
        let ghost pred = |t: TaskView| no_successor_of(ts, t.id);
        let mut paths: Vec<Path> = Vec::new();
        let mut e: usize = 0;
        while e < endpoints.len()
            invariant
                self.wf(),
                ts == self@.tasks,
                e <= endpoints@.len(),
                endpoints@.map_values(|t: CustomTask| t@) == ts.filter(pred),
                pred == (|t: TaskView| no_successor_of(ts, t.id)),
                forall|q: int|
                    0 <= q < paths@.len() ==> endpoint_chain(ts, (#[trigger] paths@[q])@),
                forall|p: Seq<TaskView>|
                    ((exists|e2: int|
                        0 <= e2 < e && p.len() >= 1 && p[0] == (#[trigger] endpoints@[e2])@)
                        && #[trigger] chain_from(ts, p[0], p)) ==> exists|q: int|
                        0 <= q < paths@.len() && (#[trigger] paths@[q])@ == p,
            decreases endpoints@.len() - e,
        {
            let ghost ev = endpoints@[e as int]@;
            proof {
                assert(endpoints@.map_values(|t: CustomTask| t@)[e as int] == ev);
                assert(ts.filter(pred).contains(ev));
                lemma_filter_member_of(ts, pred, ev);
                assert(no_successor_of(ts, ev.id));
            }
            let sub = match self.get_paths_from_task(&endpoints[e], 0) {
                Ok(v) => v,
                Err(err) => {
                    proof {
                        assert(ts.contains(endpoints@[e as int]@));
                    }
                    return Err(err);
                },
            };
            let mut s: usize = 0;
            while s < sub.len()
                invariant
                    self.wf(),
                    ts == self@.tasks,
                    s <= sub@.len(),
                    e < endpoints@.len(),
                    ts.contains(ev),
                    ev == endpoints@[e as int]@,
                    no_successor_of(ts, ev.id),
                    forall|q: int|
                        0 <= q < sub@.len() ==> chain_from(ts, ev, (#[trigger] sub@[q])@),
                    forall|c: Seq<TaskView>|
                        #[trigger] chain_from(ts, ev, c) ==> exists|q: int|
                            0 <= q < sub@.len() && (#[trigger] sub@[q])@ == c,
                    forall|q: int|
                        0 <= q < paths@.len() ==> endpoint_chain(ts, (#[trigger] paths@[q])@),
                    forall|p: Seq<TaskView>|
                        ((exists|e2: int|
                            0 <= e2 < e && p.len() >= 1 && p[0] == (#[trigger] endpoints@[e2])@)
                            && #[trigger] chain_from(ts, p[0], p)) ==> exists|q: int|
                            0 <= q < paths@.len() && (#[trigger] paths@[q])@ == p,
                    forall|q2: int|
                        0 <= q2 < s ==> exists|w: int|
                            0 <= w < paths@.len() && (#[trigger] paths@[w])@ == (
                            #[trigger] sub@[q2])@,
                decreases sub@.len() - s,
            {
                proof {
                    let p = sub@[s as int]@;
                    let i = choose|i: int| 0 <= i < ts.len() && ts[i] == ev;
                    assert(!has_successor(ts, i)) by {
                        if has_successor(ts, i) {
                            let j = choose|j: int| 0 <= j < ts.len() && dep_edge(ts, j, i);
                            assert(ts[j].dependencies.contains(ev.id));
                        }
                    }
                    assert(p[0] == ts[i]);
                    assert(endpoint_chain(ts, p));
                }
                let ghost prevp = paths@;
                paths.push(sub[s].duplicate());
                proof {
                    assert(paths@[prevp.len() as int]@ == sub@[s as int]@);
                    assert forall|q2: int|
                        0 <= q2 < s + 1 implies exists|w: int|
                        0 <= w < paths@.len() && (#[trigger] paths@[w])@ == (
                        #[trigger] sub@[q2])@ by {
                        if q2 < s {
                            let w0 = choose|w0: int|
                                0 <= w0 < prevp.len() && (#[trigger] prevp[w0])@ == sub@[q2]@;
                            assert(paths@[w0] == prevp[w0]);
                        }
                    }
                    assert forall|p: Seq<TaskView>|
                        ((exists|e2: int|
                            0 <= e2 < e && p.len() >= 1 && p[0] == (#[trigger] endpoints@[e2])@)
                            && #[trigger] chain_from(ts, p[0], p)) implies exists|q: int|
                        0 <= q < paths@.len() && (#[trigger] paths@[q])@ == p by {
                        let w0 = choose|w0: int|
                            0 <= w0 < prevp.len() && (#[trigger] prevp[w0])@ == p;
                        assert(paths@[w0] == prevp[w0]);
                    }
                }
                s += 1;
            }
            proof {
                assert forall|p: Seq<TaskView>|
                    ((exists|e2: int|
                        0 <= e2 < e + 1 && p.len() >= 1 && p[0] == (#[trigger] endpoints@[e2])@)
                        && #[trigger] chain_from(ts, p[0], p)) implies exists|q: int|
                    0 <= q < paths@.len() && (#[trigger] paths@[q])@ == p by {
                    let e2 = choose|e2: int|
                        0 <= e2 < e + 1 && p.len() >= 1 && p[0] == (#[trigger] endpoints@[e2])@;
                    if e2 < e {
                        assert(exists|e3: int|
                            0 <= e3 < e && p.len() >= 1 && p[0] == (#[trigger] endpoints@[e3])@);
                    } else {
                        assert(p[0] == ev);
                        assert(chain_from(ts, ev, p));
                        let q2 = choose|q2: int|
                            0 <= q2 < sub@.len() && (#[trigger] sub@[q2])@ == p;
                        let w = choose|w: int|
                            0 <= w < paths@.len() && (#[trigger] paths@[w])@ == sub@[q2]@;
                        assert(paths@[w]@ == p);
                    }
                }
            }
            e += 1;
        }
        proof {
            assert forall|p: Seq<TaskView>|
                #[trigger] endpoint_chain(self@.tasks, p) implies exists|q: int|
                0 <= q < paths@.len() && (#[trigger] paths@[q])@ == p by {
                let i = choose|i: int|
                    0 <= i < ts.len() && p.len() >= 1 && p[0] == #[trigger] ts[i]
                        && !has_successor(ts, i) && chain_from(ts, ts[i], p);
                assert(no_successor_of(ts, ts[i].id)) by {
                    assert forall|j: int|
                        0 <= j < ts.len() implies !(#[trigger] ts[j]).dependencies.contains(
                        ts[i].id,
                    ) by {
                        if ts[j].dependencies.contains(ts[i].id) {
                            assert(dep_edge(ts, j, i));
                        }
                    }
                }
                ts.lemma_filter_contains(pred, i);
                assert(ts.filter(pred).contains(ts[i]));
                let e2 = choose|e2: int|
                    0 <= e2 < ts.filter(pred).len() && ts.filter(pred)[e2] == ts[i];
                assert(endpoints@[e2]@ == ts[i]);
                assert(exists|e3: int|
                    0 <= e3 < endpoints@.len() && p.len() >= 1 && p[0] == (
                    #[trigger] endpoints@[e3])@);
                assert(chain_from(ts, p[0], p));
            }
        }
        let ghost cv = paths@;
        let deduped = dedup_walks(paths);
        proof {
            broadcast use vstd::set::group_set_axioms;

            let mo = paths_view(deduped@);
            let mv = paths_view(cv);
            assert forall|q: int|
                0 <= q < deduped@.len() implies endpoint_chain(
                self@.tasks,
                (#[trigger] deduped@[q])@,
            ) by {
                assert(mo[q] == deduped@[q]@);
                assert(mo.contains(deduped@[q]@));
                assert(mv.to_set().contains(deduped@[q]@));
                assert(mv.contains(deduped@[q]@));
                let w = choose|w: int| 0 <= w < mv.len() && #[trigger] mv[w] == deduped@[q]@;
                assert(cv[w]@ == deduped@[q]@);
                assert(endpoint_chain(self@.tasks, cv[w]@));
            }
            assert forall|p: Seq<TaskView>|
                #[trigger] endpoint_chain(self@.tasks, p) implies exists|q: int|
                0 <= q < deduped@.len() && (#[trigger] deduped@[q])@ == p by {
                let w = choose|w: int| 0 <= w < cv.len() && (#[trigger] cv[w])@ == p;
                assert(mv[w] == p);
                assert(mv.contains(p));
                assert(mo.to_set().contains(p));
                assert(mo.contains(p));
                let q = choose|q: int| 0 <= q < mo.len() && #[trigger] mo[q] == p;
                assert(deduped@[q]@ == p);
            }
            assert(all_paths_spec(self@.tasks, deduped@));
        }
        Ok(deduped)
    }

    /// The critical paths: among all finished walks, reversed to read
    /// start-to-end, those whose slack sum is zero and whose duration
    /// ties for the longest such.  Fails when a walk's slack is not
    /// yet computed (run `schedule` first), when a sum leaves the
    /// machine range, or when the graph has a cycle.
    #[verifier::rlimit(100)]
    pub fn get_critical_paths(&self) -> (r: Result<Vec<Path>, CpmError>)
        requires
            self.wf(),
        ensures
            (match r {
                Result::Ok(cps) => critical_paths_spec(self@.tasks, cps@),
                Result::Err(e) => e is CycleDetected || e is NotCalculated || e is NegativeFloat
                    || e is ValueOutOfRange,
            }),
            r == Result::<Vec<Path>, CpmError>::Err(CpmError::CycleDetected) ==> !exists|
                ord: Seq<int>,
            | is_topo_order(self@.tasks, ord),
            r == Result::<Vec<Path>, CpmError>::Err(CpmError::ValueOutOfRange) ==> exists|
                p: Seq<TaskView>,
            |
                #[trigger] endpoint_chain(self@.tasks, p) && (path_duration(p.reverse())
                    > u64::MAX || exists|k: int|
                    0 <= k <= p.len() && floats_defined(p.reverse().take(k)) && path_total_float(
                        p.reverse().take(k),
                    ) > u64::MAX),
            (match r {
                Result::Err(e) => match e {
                    CpmError::NotCalculated(id) => exists|i: int|
                        0 <= i < self@.tasks.len() && (#[trigger] self@.tasks[i]).id == id@ && (
                        self@.tasks[i].late_finish is None || self@.tasks[i].early_finish is None),
                    CpmError::NegativeFloat(id) => exists|i: int|
                        0 <= i < self@.tasks.len() && (#[trigger] self@.tasks[i]).id == id@
                            && self@.tasks[i].late_finish is Some
                            && self@.tasks[i].early_finish is Some
                            && self@.tasks[i].late_finish->0 < self@.tasks[i].early_finish->0,
                    _ => true,
                },
                _ => true,
            }),
    {
        let all = match self.get_all_paths() {
            Ok(v) => v,
            Err(e) => {
                return Err(e);
            },
        };
        let ghost av = all@.map_values(|p: Path| p@);
        let mut candidates: Vec<Path> = Vec::new();
        let mut max_length: u64 = 0;
        let mut i: usize = 0;
        while i < all.len()
            invariant
                i <= all@.len(),
                av == all@.map_values(|p: Path| p@),
                forall|q: int| 0 <= q < av.len() ==> endpoint_chain(self@.tasks, #[trigger] av[q]),
                forall|q: int|
                    0 <= q < candidates@.len() ==> floats_defined((#[trigger] candidates@[q])@)
                        && path_total_float(candidates@[q]@) == 0 && path_duration(
                        candidates@[q]@,
                    ) <= u64::MAX && av.contains(candidates@[q]@.reverse()),
                forall|q: int|
                    0 <= q < i && floats_defined((#[trigger] av[q]).reverse())
                        && path_total_float(av[q].reverse()) == 0 ==> path_duration(
                        av[q].reverse(),
                    ) <= max_length && exists|w: int|
                        0 <= w < candidates@.len() && (#[trigger] candidates@[w])@ == av[q].reverse(),
                max_length == 0 || exists|w: int|
                    0 <= w < candidates@.len() && path_duration((#[trigger] candidates@[w])@)
                        == max_length,
            decreases all@.len() - i,
        {
            let mut p = all[i].duplicate();
            p.reverse_tasks();
            proof {
                assert(p@ == av[i as int].reverse());
            }
            let tf = match p.get_total_float() {
                Ok(v) => v,
                Err(e) => {
                    proof {
                        // the failing member is a stored task: the walk
                        // holds snapshots of stored tasks only
                        let ts = self@.tasks;
                        let pv = p@;
                        let cv = av[i as int];
                        assert(endpoint_chain(ts, cv));
                        let i0 = choose|i0: int|
                            0 <= i0 < ts.len() && cv.len() >= 1 && cv[0] == #[trigger] ts[i0]
                                && !has_successor(ts, i0) && chain_from(ts, ts[i0], cv);
                        assert forall|k: int|
                            0 <= k < pv.len() implies ts.contains(#[trigger] pv[k]) by {
                            assert(pv[k] == cv[cv.len() - 1 - k]);
                            if cv.len() - 1 - k == 0 {
                                assert(cv[0] == ts[i0]);
                            } else {
                                assert(ts.contains(cv[cv.len() - 1 - k]));
                            }
                        }
                        match &e {
                            CpmError::NotCalculated(id) => {
                                let k = choose|k: int|
                                    0 <= k < pv.len() && (#[trigger] pv[k]).id == id@ && (
                                    pv[k].late_finish is None || pv[k].early_finish is None);
                                assert(ts.contains(pv[k]));
                                let j = choose|j: int| 0 <= j < ts.len() && ts[j] == pv[k];
                                assert(ts[j].id == id@);
                            },
                            CpmError::NegativeFloat(id) => {
                                let k = choose|k: int|
                                    0 <= k < pv.len() && (#[trigger] pv[k]).id == id@
                                        && pv[k].late_finish is Some && pv[k].early_finish is Some
                                        && pv[k].late_finish->0 < pv[k].early_finish->0;
                                assert(ts.contains(pv[k]));
                                let j = choose|j: int| 0 <= j < ts.len() && ts[j] == pv[k];
                                assert(ts[j].id == id@);
                            },
                            CpmError::ValueOutOfRange => {
                                // an enumerated walk's slack sum left
                                // the machine range
                                let k = choose|k: int|
                                    0 <= k <= pv.len() && floats_defined(#[trigger] pv.take(k))
                                        && path_total_float(pv.take(k)) > u64::MAX;
                                assert(cv.reverse() == pv);
                                assert(cv.reverse().take(k) == pv.take(k));
                                assert(cv.len() == pv.len());
                                assert(endpoint_chain(ts, cv));
                            },
                            _ => {},
                        }
                    }
                    return Err(e);
                },
            };
            let ghost entry_cands = candidates@;
            let ghost entry_max = max_length;
            if tf == 0 {
                let d = match p.get_dur() {
                    Ok(v) => v,
                    Err(e) => {
                        proof {
                            // the walk's duration sum left the machine
                            // range
                            assert(endpoint_chain(self@.tasks, av[i as int]));
                            assert(path_duration(av[i as int].reverse()) > u64::MAX);
                        }
                        return Err(e);
                    },
                };
                if d > max_length {
                    max_length = d;
                }
                let ghost prev = candidates@;
                candidates.push(p);
                proof {
                    assert(candidates@[prev.len() as int]@ == av[i as int].reverse());
                    assert(av.contains(av[i as int]));
                    assert(av[i as int].reverse().reverse() =~= av[i as int]);
                    assert forall|q: int|
                        0 <= q < i + 1 && floats_defined((#[trigger] av[q]).reverse())
                            && path_total_float(av[q].reverse()) == 0 implies path_duration(
                        av[q].reverse(),
                    ) <= max_length && exists|w: int|
                        0 <= w < candidates@.len() && (#[trigger] candidates@[w])@
                            == av[q].reverse() by {
                        if q < i {
                            let w0 = choose|w0: int|
                                0 <= w0 < entry_cands.len() && (#[trigger] entry_cands[w0])@
                                    == av[q].reverse();
                            assert(candidates@[w0] == entry_cands[w0]);
                        } else {
                            assert(candidates@[prev.len() as int]@ == av[q].reverse());
                        }
                    }
                    if max_length == d {
                        assert(path_duration(candidates@[prev.len() as int]@) == d);
                    } else if max_length != 0 {
                        let w0 = choose|w0: int|
                            0 <= w0 < entry_cands.len() && path_duration(
                                (#[trigger] entry_cands[w0])@,
                            ) == entry_max;
                        assert(candidates@[w0] == entry_cands[w0]);
                        assert(path_duration(candidates@[w0]@) == max_length);
                    }
                }
            } else {
                proof {
                    assert forall|q: int|
                        0 <= q < i + 1 && floats_defined((#[trigger] av[q]).reverse())
                            && path_total_float(av[q].reverse()) == 0 implies path_duration(
                        av[q].reverse(),
                    ) <= max_length && exists|w: int|
                        0 <= w < candidates@.len() && (#[trigger] candidates@[w])@
                            == av[q].reverse() by {
                        if q == i {
                            assert(path_total_float(av[q].reverse()) == tf as int);
                            assert(false);
                        }
                    }
                }
            }
            i += 1;
        }
        let ghost cands = candidates@.map_values(|p: Path| p@);
        let mut critical_paths: Vec<Path> = Vec::new();
        let mut c: usize = 0;
        while c < candidates.len()
            invariant
                c <= candidates@.len(),
                av == all@.map_values(|p: Path| p@),
                forall|q: int|
                    0 <= q < candidates@.len() ==> floats_defined((#[trigger] candidates@[q])@)
                        && path_total_float(candidates@[q]@) == 0 && path_duration(
                        candidates@[q]@,
                    ) <= u64::MAX && av.contains(candidates@[q]@.reverse()),
                forall|q: int|
                    0 <= q < critical_paths@.len() ==> floats_defined(
                        (#[trigger] critical_paths@[q])@,
                    ) && path_total_float(critical_paths@[q]@) == 0 && path_duration(
                        critical_paths@[q]@,
                    ) == max_length && av.contains(critical_paths@[q]@.reverse()),
                forall|q: int|
                    0 <= q < c && path_duration((#[trigger] candidates@[q])@) == max_length
                        ==> exists|w: int|
                        0 <= w < critical_paths@.len() && (#[trigger] critical_paths@[w])@
                            == candidates@[q]@,
            decreases candidates@.len() - c,
        {
            let d = match candidates[c].get_dur() {
                Ok(v) => v,
                Err(e) => {
                    proof {
                        // candidates were measured once already, so
                        // their durations fit
                        assert(path_duration(candidates@[c as int]@) <= u64::MAX);
                        assert(false);
                    }
                    return Err(e);
                },
            };
            let ghost entry_crit = critical_paths@;
            if d == max_length {
                let ghost prevc = critical_paths@;
                critical_paths.push(candidates[c].duplicate());
                proof {
                    assert(critical_paths@[prevc.len() as int]@ == candidates@[c as int]@);
                    assert forall|q: int|
                        0 <= q < c + 1 && path_duration((#[trigger] candidates@[q])@)
                            == max_length implies exists|w: int|
                        0 <= w < critical_paths@.len() && (#[trigger] critical_paths@[w])@
                            == candidates@[q]@ by {
                        if q < c {
                            let w0 = choose|w0: int|
                                0 <= w0 < entry_crit.len() && (#[trigger] entry_crit[w0])@
                                    == candidates@[q]@;
                            assert(critical_paths@[w0] == entry_crit[w0]);
                        } else {
                            assert(critical_paths@[prevc.len() as int]@ == candidates@[q]@);
                        }
                    }
                }
            } else {
                proof {
                    assert(d as int == path_duration(candidates@[c as int]@));
                }
            }
            c += 1;
        }
        proof {
            let rv = paths_view(critical_paths@);
            assert forall|q: int|
                0 <= q < av.len() && floats_defined((#[trigger] av[q]).reverse())
                    && path_total_float(av[q].reverse()) == 0 && path_duration(av[q].reverse())
                    == max_length as int implies rv.contains(av[q].reverse()) by {
                let w = choose|w: int|
                    0 <= w < candidates@.len() && (#[trigger] candidates@[w])@ == av[q].reverse();
                let w2 = choose|w2: int|
                    0 <= w2 < critical_paths@.len() && (#[trigger] critical_paths@[w2])@
                        == candidates@[w]@;
                assert(rv[w2] == av[q].reverse());
            }
            assert forall|q: int| 0 <= q < rv.len() implies av.contains(
                (#[trigger] rv[q]).reverse(),
            ) by {
                assert(rv[q] == critical_paths@[q]@);
            }
            if max_length != 0 {
                let w = choose|w: int|
                    0 <= w < candidates@.len() && path_duration((#[trigger] candidates@[w])@)
                        == max_length as int;
                let wr = candidates@[w]@.reverse();
                assert(av.contains(candidates@[w]@.reverse()));
                let q = choose|q: int| 0 <= q < av.len() && av[q] == candidates@[w]@.reverse();
                assert(av[q].reverse() =~= candidates@[w]@);
            }
            assert(critical_selection(av, paths_view(critical_paths@), max_length as int));
            assert forall|q: int|
                0 <= q < av.len() implies endpoint_chain(self@.tasks, #[trigger] av[q]) by {
                assert(av[q] == all@[q]@);
            }
            assert forall|p: Seq<TaskView>|
                #[trigger] endpoint_chain(self@.tasks, p) implies av.contains(p) by {
                let q = choose|q: int| 0 <= q < all@.len() && (#[trigger] all@[q])@ == p;
                assert(av[q] == p);
            }
            assert(complete_enumeration(self@.tasks, av));
            assert(critical_paths_spec(self@.tasks, critical_paths@));
        }
        Ok(critical_paths)
    }

    /// Copies of the stored tasks whose dependency names include the
    /// given task's identifier, in store order.
    pub fn get_task_successors(&self, task_ref: &CustomTask) -> (r: Vec<CustomTask>)
        ensures
            r@.map_values(|t: CustomTask| t@) == self@.tasks.filter(
                |t: TaskView| t.dependencies.contains(task_ref@.id),
            ),
    {
        let name = task_ref.get_id();
        let ghost ts = self@.tasks;
        let ghost pred = |t: TaskView| t.dependencies.contains(task_ref@.id);
        let mut r: Vec<CustomTask> = Vec::new();
        let mut j: usize = 0;
        while j < self.tasks.len()
            invariant
                j <= self.tasks@.len(),
                name@ == task_ref@.id,
                ts == self@.tasks,
                ts == self.tasks@.map_values(|t: CustomTask| t@),
                pred == (|t: TaskView| t.dependencies.contains(task_ref@.id)),
                r@.map_values(|t: CustomTask| t@) =~= ts.take(j as int).filter(pred),
            decreases self.tasks@.len() - j,
        {
            let ghost prev = r@.map_values(|t: CustomTask| t@);
            let deps = self.tasks[j].get_dependencies();
            if names_contain(&deps, &name) {
                r.push(self.tasks[j].duplicate());
                proof {
                    assert(r@.map_values(|t: CustomTask| t@) =~= prev.push(ts[j as int]));
                }
            }
            proof {
                reveal(Seq::filter);
                assert(ts.take(j + 1).drop_last() =~= ts.take(j as int));
                assert(ts.take(j + 1).last() == ts[j as int]);
            }
            j += 1;
        }
        assert(ts.take(j as int) =~= ts);
        r
    }

    /// Copies of the stored tasks none of whose dependency names
    /// resolve: the entry points of the graph.
    pub fn get_startpoints(&self) -> (r: Vec<CustomTask>)
        requires
            self.wf(),
        ensures
            r@.map_values(|t: CustomTask| t@) == self@.tasks.filter(
                |t: TaskView| resolve_deps(self@.tasks, t.dependencies).len() == 0,
            ),
    {
        let ghost ts = self@.tasks;
        let ghost pred = |t: TaskView| resolve_deps(ts, t.dependencies).len() == 0;
        let mut r: Vec<CustomTask> = Vec::new();
        let mut i: usize = 0;
        while i < self.tasks.len()
            invariant
                self.wf(),
                i <= self.tasks@.len(),
                ts == self@.tasks,
                ts == self.tasks@.map_values(|t: CustomTask| t@),
                pred == (|t: TaskView| resolve_deps(ts, t.dependencies).len() == 0),
                r@.map_values(|t: CustomTask| t@) =~= ts.take(i as int).filter(pred),
            decreases self.tasks@.len() - i,
        {
            let ghost prev = r@.map_values(|t: CustomTask| t@);
            let deps = self.get_task_dependencies(&self.tasks[i]);
            if deps.len() == 0 {
                r.push(self.tasks[i].duplicate());
                proof {
                    assert(resolve_deps(ts, ts[i as int].dependencies).len() == 0);
                    assert(r@.map_values(|t: CustomTask| t@) =~= prev.push(ts[i as int]));
                }
            }
            proof {
                reveal(Seq::filter);
                assert(ts.take(i + 1).drop_last() =~= ts.take(i as int));
                assert(ts.take(i + 1).last() == ts[i as int]);
            }
            i += 1;
        }
        assert(ts.take(i as int) =~= ts);
        r
    }

    /// The forward pass.  Clears every timestamp, then settles tasks in
    /// a fixed-point sweep: once all of a task's resolved dependencies
    /// have an early finish, its early start becomes their maximum
    /// (zero for a task whose dependencies all dangle or are absent)
    /// and its early finish adds the duration.  Finally every task
    /// without successors is seeded for the backward pass with its late
    /// values equal to its early values.  A sweep without progress
    /// means the graph has a cycle and is reported instead of looping
    /// forever; an early finish that leaves the machine range, or an
    /// end point whose late finish would be zero, is reported as out of
    /// range.
    fn calculate_es_ef(&mut self) -> (r: Result<(), CpmError>)
        requires
            old(self).wf(),
        ensures
            final(self).wf(),
            same_structure(old(self)@.tasks, final(self)@.tasks),
            final(self)@.state == old(self)@.state,
            r is Ok ==> forward_ok(final(self)@.tasks) && endpoints_seeded(final(self)@.tasks)
                && exists|ord: Seq<int>| is_topo_order(final(self)@.tasks, ord),
            r is Ok ==> forall|i: int|
                0 <= i < final(self)@.tasks.len() && (#[trigger] final(
                    self)@.tasks[i]).late_finish is Some ==> final(self)@.tasks[i].late_finish->0
                    > 0,
            r == Result::<(), CpmError>::Err(CpmError::CycleDetected) ==> !exists|ord: Seq<int>|
                is_topo_order(final(self)@.tasks, ord),
            r == Result::<(), CpmError>::Err(CpmError::ValueOutOfRange) ==> !exists|
                b: Seq<TaskView>,
            |
                #![trigger valid_solution(b)]
                same_structure(final(self)@.tasks, b) && valid_solution(b),
            r matches Err(e) ==> (e is CycleDetected || e is ValueOutOfRange),
    {
        let n = self.tasks.len();
        // Clear all four timestamps of every task.
        let mut i: usize = 0;
        while i < n
            invariant
                i <= n,
                n == self.tasks@.len(),
                self.wf(),
                self@.state == old(self)@.state,
                self@.tasks == self.tasks@.map_values(|t: CustomTask| t@),
                same_structure(old(self)@.tasks, self@.tasks),
                forall|k: int|
                    0 <= k < i ==> (#[trigger] self@.tasks[k]).early_start is None
                        && self@.tasks[k].early_finish is None && self@.tasks[k].late_start is None
                        && self@.tasks[k].late_finish is None,
            decreases n - i,
        {
            let ghost prev = self@.tasks;
            let cleared = CustomTask::new(
                self.tasks[i].get_id(),
                self.tasks[i].get_duration(),
                self.tasks[i].get_dependencies(),
            );
            self.tasks[i] = cleared;
            proof {
                assert(self@.tasks =~= prev.update(i as int, cleared@));
                assert(self@.tasks[i as int] == cleared@);
                assert(self@.tasks[i as int].same_structure(old(self)@.tasks[i as int]));
                assert forall|a: int, b: int|
                    0 <= a < b < self@.tasks.len() implies (#[trigger] self@.tasks[a]).id != (
                #[trigger] self@.tasks[b]).id by {
                    assert(old(self)@.tasks[a].id == self@.tasks[a].id);
                    assert(old(self)@.tasks[b].id == self@.tasks[b].id);
                }
            }
            i += 1;
        }
        // Fixed-point sweeps until every task is settled.
        let ghost mut ord: Seq<int> = Seq::empty();
        let mut resolved: usize = 0;
        proof {
            assert(forward_partial(self@.tasks, ord));
        }
        while resolved < n
            invariant
                resolved <= n,
                n == self.tasks@.len(),
                self.wf(),
                self@.state == old(self)@.state,
                self@.tasks == self.tasks@.map_values(|t: CustomTask| t@),
                same_structure(old(self)@.tasks, self@.tasks),
                forward_partial(self@.tasks, ord),
                ord.len() == resolved,
            decreases n - resolved,
        {
            let ghost round_start = resolved;
            let mut progress = false;
            let mut idx: usize = 0;
            while idx < n
                invariant
                    idx <= n,
                    resolved <= n,
                    n == self.tasks@.len(),
                    self.wf(),
                    self@.state == old(self)@.state,
                    self@.tasks == self.tasks@.map_values(|t: CustomTask| t@),
                    same_structure(old(self)@.tasks, self@.tasks),
                    forward_partial(self@.tasks, ord),
                    ord.len() == resolved,
                    progress ==> resolved > round_start,
                    !progress ==> resolved == round_start,
                    !progress ==> forall|k: int|
                        0 <= k < idx && (#[trigger] self@.tasks[k]).early_start is None
                            ==> !fwd_ready(self@.tasks, k),
                decreases n - idx,
            {
                let es_now = self.tasks[idx].get_early_start();
                if es_now.is_none() {
                    let ghost ts0 = self@.tasks;
                    let names = self.tasks[idx].get_dependencies();
                    let ghost nv = ts0[idx as int].dependencies;
                    let mut all_ready = true;
                    let mut max_ef: u64 = 0;
                    let ghost mut best: Option<int> = None;
                    let mut d: usize = 0;
                    while d < names.len()
                        invariant
                            d <= names@.len(),
                            idx < n,
                            n == self.tasks@.len(),
                            self.wf(),
                            self@.tasks == self.tasks@.map_values(|t: CustomTask| t@),
                            self@.tasks == ts0,
                            nv == names@.map_values(|s: String| s@),
                            nv == ts0[idx as int].dependencies,
                            all_ready ==> forall|j: int|
                                0 <= j < n && (exists|dd: int|
                                    0 <= dd < d && nv[dd] == (#[trigger] ts0[j]).id)
                                    ==> ts0[j].early_finish is Some && ts0[j].early_finish->0
                                    <= max_ef,
                            all_ready && max_ef != 0 ==> (best matches Some(b) && 0 <= b < n
                                && dep_edge(ts0, idx as int, b) && ts0[b].early_finish is Some
                                && ts0[b].early_finish->0 == max_ef),
                            !all_ready ==> exists|j: int|
                                0 <= j < n && #[trigger] dep_edge(ts0, idx as int, j)
                                    && ts0[j].early_finish is None,
                        decreases names@.len() - d,
                    {
                        if all_ready {
                            match self.find_index(&names[d]) {
                                Some(j) => {
                                    proof {
                                        assert(ts0[j as int].id == nv[d as int]);
                                        assert(nv.contains(ts0[j as int].id));
                                        assert(dep_edge(ts0, idx as int, j as int));
                                    }
                                    match self.tasks[j].get_early_finish() {
                                        Some(ef) => {
                                            if ef > max_ef {
                                                max_ef = ef;
                                                proof {
                                                    best = Some(j as int);
                                                }
                                            }
                                            proof {
                                                assert forall|j2: int|
                                                    0 <= j2 < n && (exists|dd: int|
                                                        0 <= dd < d + 1 && nv[dd] == (
                                                        #[trigger] ts0[j2]).id) implies ts0[j2].early_finish is Some
                                                    && ts0[j2].early_finish->0 <= max_ef by {
                                                    let dd = choose|dd: int|
                                                        0 <= dd < d + 1 && nv[dd] == ts0[j2].id;
                                                    if dd == d {
                                                        assert(ts0[j2].id == ts0[j as int].id);
                                                        if j2 != j {
                                                            assert(false);
                                                        }
                                                    } else {
                                                        assert(exists|dd2: int|
                                                            0 <= dd2 < d && nv[dd2] == ts0[j2].id);
                                                    }
                                                }
                                            }
                                        },
                                        None => {
                                            all_ready = false;
                                        },
                                    }
                                },
                                None => {
                                    proof {
                                        assert forall|j2: int|
                                            0 <= j2 < n && (exists|dd: int|
                                                0 <= dd < d + 1 && nv[dd] == (
                                            #[trigger] ts0[j2]).id) implies ts0[j2].early_finish is Some
                                            && ts0[j2].early_finish->0 <= max_ef by {
                                            let dd = choose|dd: int|
                                                0 <= dd < d + 1 && nv[dd] == ts0[j2].id;
                                            if dd == d {
                                                assert(has_id(ts0, nv[d as int]));
                                                assert(false);
                                            } else {
                                                assert(exists|dd2: int|
                                                    0 <= dd2 < d && nv[dd2] == ts0[j2].id);
                                            }
                                        }
                                    }
                                },
                            }
                        }
                        d += 1;
                    }
                    if all_ready {
                        proof {
                            assert forall|j: int|
                                0 <= j < n && #[trigger] dep_edge(ts0, idx as int, j) implies ts0[j].early_finish is Some
                                && ts0[j].early_finish->0 <= max_ef by {
                                assert(nv.contains(ts0[j].id));
                                let dd = choose|dd: int| 0 <= dd < nv.len() && nv[dd] == ts0[j].id;
                                assert(exists|dd2: int| 0 <= dd2 < nv.len() && nv[dd2] == ts0[j].id);
                            }
                        }
                        let dur = self.tasks[idx].get_duration();
                        if max_ef > u64::MAX - dur {
                            proof {
                                // an early finish beyond the machine
                                // range rules out any representable
                                // solution: every solution must assign
                                // exactly this value
                                if exists|b: Seq<TaskView>|
                                    #![trigger valid_solution(b)]
                                    same_structure(self@.tasks, b) && valid_solution(b) {
                                    let b = choose|b: Seq<TaskView>|
                                        same_structure(self@.tasks, b) && valid_solution(b);
                                    lemma_store_in_range(self.tasks@);
                                    lemma_partial_forward_matches(
                                        ts0,
                                        b,
                                        ord,
                                        ord.len() as int,
                                    );
                                    lemma_same_structure_edges(ts0, b);
                                    assert forall|j: int|
                                        0 <= j < n && #[trigger] dep_edge(
                                        ts0,
                                        idx as int,
                                        j,
                                    ) implies b[j].early_finish == ts0[j].early_finish by {
                                        assert(ts0[j].early_finish is Some);
                                        assert(ts0[j].early_start is Some);
                                        assert(ord.contains(j));
                                        let kj = choose|kj: int|
                                            0 <= kj < ord.len() && ord[kj] == j;
                                        assert(ts0[ord[kj]].early_finish
                                            == b[ord[kj]].early_finish);
                                    }
                                    assert(task_forward_ok(b, idx as int));
                                    let eb = b[idx as int].early_start->0;
                                    if max_ef != 0 {
                                        let bb = best->0;
                                        assert(dep_edge(b, idx as int, bb));
                                        assert(b[bb].early_finish->0 == max_ef as int);
                                        assert(eb >= max_ef as int);
                                    }
                                    if eb != 0 {
                                        let jb = choose|jb: int|
                                            0 <= jb < b.len() && #[trigger] dep_edge(
                                                b,
                                                idx as int,
                                                jb,
                                            ) && b[jb].early_finish is Some
                                                && b[jb].early_finish->0 == eb;
                                        assert(dep_edge(ts0, idx as int, jb));
                                        assert(ts0[jb].early_finish->0 <= max_ef as int);
                                        assert(eb <= max_ef as int);
                                    }
                                    assert(eb == max_ef as int);
                                    assert(b[idx as int].early_finish->0 == eb
                                        + b[idx as int].duration);
                                    assert(b[idx as int].duration == dur as int);
                                    assert(task_in_range(b[idx as int]));
                                    assert(false);
                                }
                            }
                            return Err(CpmError::ValueOutOfRange);
                        }
                        let ef_val = max_ef + dur;
                        let t = &mut self.tasks[idx];
                        let _set_es = t.set_early_start(max_ef);
                        let _set_ef = t.set_early_finish(ef_val);
                        proof {
                            let ts1 = self@.tasks;
                            assert(ts1 =~= ts0.update(
                                idx as int,
                                TaskView {
                                    early_start: Some(max_ef as int),
                                    early_finish: Some(ef_val as int),
                                    ..ts0[idx as int]
                                },
                            ));
                            assert(same_structure(ts0, ts1));
                            lemma_same_structure_edges(ts0, ts1);
                            assert(same_structure(old(self)@.tasks, ts1));
                            // identifiers did not move, so uniqueness carries over
                            assert forall|a: int, b: int|
                                0 <= a < b < ts1.len() implies (#[trigger] ts1[a]).id != (
                            #[trigger] ts1[b]).id by {
                                assert(ts0[a].same_structure(ts1[a]));
                                assert(ts0[b].same_structure(ts1[b]));
                            }
                            // the settled task was not yet listed
                            assert(!ord.contains(idx as int));
                            let ord1 = ord.push(idx as int);
                            // every resolved dependency of the settled task is listed
                            assert forall|j: int|
                                0 <= j < n && #[trigger] dep_edge(ts1, idx as int, j) implies ord.contains(
                                j,
                            ) by {
                                assert(dep_edge(ts0, idx as int, j));
                                assert(ts0[j].early_finish is Some);
                                assert(ts0[j].early_start is Some);
                            }
                            assert(topo_prefix_ok(ts1, ord1)) by {
                                assert forall|k: int, j: int|
                                    0 <= k < ord1.len() && 0 <= j < ts1.len() && #[trigger] dep_edge(
                                    ts1,
                                    ord1[k],
                                    j,
                                ) implies exists|k2: int| 0 <= k2 < k && ord1[k2] == j by {
                                    if k < ord.len() {
                                        assert(ord1[k] == ord[k]);
                                        assert(dep_edge(ts0, ord[k], j));
                                        let k2 = choose|k2: int| 0 <= k2 < k && ord[k2] == j;
                                        assert(ord1[k2] == j);
                                    } else {
                                        assert(ord1[k] == idx as int);
                                        assert(ord.contains(j));
                                        let k2 = choose|k2: int|
                                            0 <= k2 < ord.len() && ord[k2] == j;
                                        assert(ord1[k2] == j);
                                    }
                                }
                            }
                            // no settled task depended on the one just settled
                            assert forall|i2: int|
                                0 <= i2 < n && (#[trigger] ts1[i2]).early_start is Some implies task_forward_ok(
                                ts1,
                                i2,
                            ) by {
                                if i2 == idx as int {
                                    assert forall|j: int|
                                        0 <= j < n && #[trigger] dep_edge(ts1, idx as int, j) implies ts1[j].early_finish is Some
                                        && ts1[j].early_finish->0 <= max_ef by {
                                        assert(dep_edge(ts0, idx as int, j));
                                        if j == idx as int {
                                            assert(ts0[j].early_finish is None);
                                            assert(false);
                                        }
                                    }
                                    if max_ef != 0 {
                                        let b = best->0;
                                        assert(dep_edge(ts1, idx as int, b));
                                        assert(b != idx as int);
                                        assert(ts1[b].early_finish is Some
                                            && ts1[b].early_finish->0 == max_ef);
                                    }
                                } else {
                                    assert(task_forward_ok(ts0, i2));
                                    assert(ts1[i2] == ts0[i2]);
                                    assert forall|j: int|
                                        0 <= j < n && #[trigger] dep_edge(ts1, i2, j) implies ts1[j].early_finish is Some
                                        && ts1[j].early_finish->0 <= ts1[i2].early_start->0 by {
                                        assert(dep_edge(ts0, i2, j));
                                        if j == idx as int {
                                            assert(ts0[j].early_finish is Some);
                                            assert(false);
                                        }
                                    }
                                    if ts0[i2].early_start->0 != 0 {
                                        let j = choose|j: int|
                                            0 <= j < n && #[trigger] dep_edge(ts0, i2, j)
                                                && ts0[j].early_finish is Some
                                                && ts0[j].early_finish->0
                                                == ts0[i2].early_start->0;
                                        assert(j != idx as int);
                                        assert(dep_edge(ts1, i2, j));
                                    }
                                }
                            }
                            assert forall|i2: int|
                                0 <= i2 < n implies ((#[trigger] ts1[i2]).early_start is Some
                                <==> ord1.contains(i2)) by {
                                if i2 == idx as int {
                                    assert(ord1[ord.len() as int] == idx as int);
                                } else {
                                    if ts1[i2].early_start is Some {
                                        assert(ord.contains(i2));
                                        let k = choose|k: int|
                                            0 <= k < ord.len() && ord[k] == i2;
                                        assert(ord1[k] == i2);
                                    }
                                    if ord1.contains(i2) {
                                        let k = choose|k: int|
                                            0 <= k < ord1.len() && ord1[k] == i2;
                                        assert(k < ord.len());
                                        assert(ord[k] == i2);
                                    }
                                }
                            }
                            lemma_distinct_in_range_len(ord, n as int, idx as int);
                            assert(ord.len() < n);
                            ord = ord1;
                            assert(forward_partial(self@.tasks, ord));
                        }
                        resolved += 1;
                        progress = true;
                    }
                }
                idx += 1;
            }
            if !progress {
                proof {
                    lemma_short_order_misses(ord, n as int);
                    let i0 = choose|i: int| 0 <= i < n && !ord.contains(i);
                    assert(self@.tasks[i0].early_start is None);
                    lemma_stuck_forward_no_topo(self@.tasks);
                }
                return Err(CpmError::CycleDetected);
            }
        }
        proof {
            assert forall|i2: int| 0 <= i2 < n implies ord.contains(i2) by {
                if !ord.contains(i2) {
                    lemma_distinct_in_range_len(ord, n as int, i2);
                }
            }
            assert(is_topo_order(self@.tasks, ord));
        }
        // Seed the end points: late values equal early values.
        let ghost ts_fixed = self@.tasks;
        let ghost ord_fixed = ord;
        let mut i: usize = 0;
        while i < n
            invariant
                i <= n,
                n == self.tasks@.len(),
                self.wf(),
                self@.state == old(self)@.state,
                self@.tasks == self.tasks@.map_values(|t: CustomTask| t@),
                same_structure(old(self)@.tasks, self@.tasks),
                same_structure(ts_fixed, self@.tasks),
                forward_ok(self@.tasks),
                is_topo_order(ts_fixed, ord_fixed),
                forall|k: int|
                    0 <= k < n ==> (#[trigger] self@.tasks[k]).early_start
                        == ts_fixed[k].early_start && self@.tasks[k].early_finish
                        == ts_fixed[k].early_finish,
                forall|k: int|
                    i <= k < n ==> (#[trigger] self@.tasks[k]).late_start is None
                        && self@.tasks[k].late_finish is None,
                forall|k: int|
                    0 <= k < i && #[trigger] has_successor(self@.tasks, k)
                        ==> self@.tasks[k].late_start is None && self@.tasks[k].late_finish is None,
                forall|k: int|
                    0 <= k < i && !#[trigger] has_successor(self@.tasks, k)
                        ==> self@.tasks[k].late_start == self@.tasks[k].early_start
                        && self@.tasks[k].late_finish == self@.tasks[k].early_finish,
                forall|k: int|
                    0 <= k < n && (#[trigger] self@.tasks[k]).late_finish is Some
                        ==> self@.tasks[k].late_finish->0 > 0,
            decreases n - i,
        {
            let ghost ts0 = self@.tasks;
            let succs = self.get_task_successors(&self.tasks[i]);
            proof {
                lemma_filter_empty_iff(
                    ts0,
                    |t: TaskView| t.dependencies.contains(ts0[i as int].id),
                );
            }
            if succs.len() == 0 {
                proof {
                    assert(!has_successor(ts0, i as int));
                }
                let es: u64;
                let ef: u64;
                match self.tasks[i].get_early_start() {
                    Some(v) => {
                        es = v;
                    },
                    None => {
                        proof {
                            assert(task_forward_ok(ts0, i as int));
                            assert(false);
                        }
                        return Err(CpmError::ValueOutOfRange);
                    },
                }
                match self.tasks[i].get_early_finish() {
                    Some(v) => {
                        ef = v;
                    },
                    None => {
                        proof {
                            assert(task_forward_ok(ts0, i as int));
                            assert(false);
                        }
                        return Err(CpmError::ValueOutOfRange);
                    },
                }
                let t = &mut self.tasks[i];
                let r1 = t.set_late_finish(ef);
                let _set_ls = t.set_late_start(es);
                proof {
                    let ts1 = self@.tasks;
                    assert(same_structure(ts0, ts1)) by {
                        assert(ts1[i as int].same_structure(ts0[i as int]));
                        assert forall|k: int|
                            0 <= k < n implies (#[trigger] ts0[k]).same_structure(ts1[k]) by {
                            if k != i as int {
                                assert(ts1[k] == ts0[k]);
                            }
                        }
                    }
                    assert forall|a: int, b: int|
                        0 <= a < b < ts1.len() implies (#[trigger] ts1[a]).id != (
                    #[trigger] ts1[b]).id by {
                        assert(ts0[a].same_structure(ts1[a]));
                        assert(ts0[b].same_structure(ts1[b]));
                    }
                }
                if r1.is_err() {
                    proof {
                        assert forall|k: int|
                            0 <= k < n implies (#[trigger] old(self)@.tasks[k]).same_structure(
                            self@.tasks[k],
                        ) by {
                            assert(old(self)@.tasks[k].same_structure(ts0[k]));
                            assert(ts0[k].same_structure(self@.tasks[k]));
                        }
                        // an end point whose early finish is zero would
                        // need a late finish of zero, which no solution
                        // may carry
                        assert(ef == 0);
                        if exists|b: Seq<TaskView>|
                            #![trigger valid_solution(b)]
                            same_structure(self@.tasks, b) && valid_solution(b) {
                            let b = choose|b: Seq<TaskView>|
                                same_structure(self@.tasks, b) && valid_solution(b);
                            let ts1 = self@.tasks;
                            lemma_store_in_range(self.tasks@);
                            assert(same_structure(ts0, ts1)) by {
                                assert(ts1[i as int].same_structure(ts0[i as int]));
                                assert forall|k: int|
                                    0 <= k < n implies (#[trigger] ts0[k]).same_structure(
                                    ts1[k],
                                ) by {
                                    if k != i as int {
                                        assert(ts1[k] == ts0[k]);
                                    }
                                }
                            }
                            assert forall|k: int|
                                0 <= k < n implies (#[trigger] ts1[k]).early_start
                                == ts0[k].early_start && ts1[k].early_finish
                                == ts0[k].early_finish by {
                                if k != i as int {
                                    assert(ts1[k] == ts0[k]);
                                }
                            }
                            assert forall|k: int|
                                0 <= k < n implies (#[trigger] ts_fixed[k]).same_structure(
                                ts1[k],
                            ) by {
                                assert(ts_fixed[k].same_structure(ts0[k]));
                                assert(ts0[k].same_structure(ts1[k]));
                            }
                            lemma_topo_transfer(ts_fixed, ts1, ord_fixed);
                            assert forall|i2: int| 0 <= i2 < n implies task_forward_ok(
                                ts1,
                                i2,
                            ) by {
                                lemma_forward_ok_transfer(ts0, ts1, i2);
                            }
                            assert forall|i2: int|
                                0 <= i2 < n implies ((#[trigger] ts1[i2]).early_start is Some
                                <==> ord_fixed.contains(i2)) by {
                                assert(task_forward_ok(ts1, i2));
                            }
                            assert forall|i2: int|
                                0 <= i2 < n implies ((#[trigger] ts1[i2]).early_start is Some
                                <==> ts1[i2].early_finish is Some) by {
                                assert(task_forward_ok(ts1, i2));
                            }
                            lemma_partial_forward_matches(
                                ts1,
                                b,
                                ord_fixed,
                                ord_fixed.len() as int,
                            );
                            assert(ord_fixed.contains(i as int));
                            let ki = choose|ki: int|
                                0 <= ki < ord_fixed.len() && ord_fixed[ki] == i as int;
                            assert(ts1[ord_fixed[ki]].early_finish
                                == b[ord_fixed[ki]].early_finish);
                            assert(b[i as int].early_finish->0 == 0);
                            lemma_same_structure_edges(ts0, ts1);
                            lemma_same_structure_edges(ts1, b);
                            assert(!has_successor(ts1, i as int));
                            assert(!has_successor(b, i as int));
                            assert(task_backward_ok(b, i as int));
                            assert(b[i as int].late_finish == b[i as int].early_finish);
                            assert(b[i as int].late_finish->0 > 0);
                            assert(false);
                        }
                    }
                    return Err(CpmError::ValueOutOfRange);
                }
                proof {
                    let ts1 = self@.tasks;
                    assert(ts1 =~= ts0.update(
                        i as int,
                        TaskView {
                            late_start: Some(es as int),
                            late_finish: Some(ef as int),
                            ..ts0[i as int]
                        },
                    ));
                    assert(same_structure(ts0, ts1));
                    lemma_same_structure_edges(ts0, ts1);
                    assert forall|a: int, b: int|
                        0 <= a < b < ts1.len() implies (#[trigger] ts1[a]).id != (
                    #[trigger] ts1[b]).id by {
                        assert(ts0[a].same_structure(ts1[a]));
                        assert(ts0[b].same_structure(ts1[b]));
                    }
                    assert forall|i2: int| 0 <= i2 < n implies task_forward_ok(ts1, i2) by {
                        assert(task_forward_ok(ts0, i2));
                        assert forall|j: int|
                            0 <= j < n && #[trigger] dep_edge(ts1, i2, j) implies ts1[j].early_finish is Some
                            && ts1[j].early_finish->0 <= ts1[i2].early_start->0 by {
                            assert(dep_edge(ts0, i2, j));
                        }
                        if ts0[i2].early_start->0 != 0 {
                            let j = choose|j: int|
                                0 <= j < n && #[trigger] dep_edge(ts0, i2, j)
                                    && ts0[j].early_finish is Some && ts0[j].early_finish->0
                                    == ts0[i2].early_start->0;
                            assert(dep_edge(ts1, i2, j));
                        }
                    }
                }
            } else {
                proof {
                    assert(exists|j: int|
                        0 <= j < ts0.len() && (#[trigger] ts0[j]).dependencies.contains(
                            ts0[i as int].id,
                        ));
                    let j = choose|j: int|
                        0 <= j < ts0.len() && (#[trigger] ts0[j]).dependencies.contains(
                            ts0[i as int].id,
                        );
                    assert(dep_edge(ts0, j, i as int));
                    assert(has_successor(ts0, i as int));
                }
            }
            i += 1;
        }
        proof {
            lemma_same_structure_edges(ts_fixed, self@.tasks);
            assert(is_topo_order(self@.tasks, ord_fixed)) by {
                assert forall|k: int, j: int|
                    0 <= k < ord_fixed.len() && 0 <= j < n && #[trigger] dep_edge(
                    self@.tasks,
                    ord_fixed[k],
                    j,
                ) implies exists|k2: int| 0 <= k2 < k && ord_fixed[k2] == j by {
                    assert(dep_edge(ts_fixed, ord_fixed[k], j));
                }
            }
        }
        Ok(())
    }

    /// Runs both propagation passes.  On success every task carries
    /// all four timestamps, the forward and backward equations hold,
    /// early windows never overrun late ones, the graph is witnessed
    /// acyclic by a topological order, and the scheduler is ready for
    /// queries.  A cyclic graph, a timestamp outside the machine range
    /// and a late finish of zero are reported as errors, leaving the
    /// state flag as it was.
    pub fn calculate(&mut self) -> (r: Result<(), CpmError>)
        requires
            old(self).wf(),
        ensures
            final(self).wf(),
            same_structure(old(self)@.tasks, final(self)@.tasks),
            r is Ok ==> forward_ok(final(self)@.tasks) && backward_ok(final(self)@.tasks)
                && slack_nonneg(final(self)@.tasks),
            r is Ok ==> forall|i: int|
                0 <= i < final(self)@.tasks.len() ==> (#[trigger] final(
                    self)@.tasks[i]).late_finish->0 > 0,
            r is Ok ==> final(self)@.state == SchedulerState::Ready,
            r is Ok ==> exists|ord: Seq<int>| is_topo_order(final(self)@.tasks, ord),
            r is Ok ==> duration_equations_ok(final(self)@.tasks),
            r is Ok ==> forall|i: int|
                0 <= i < final(self)@.tasks.len() ==> (#[trigger] final(
                    self)@.tasks[i]).late_finish->0 > 0,
            r is Err ==> final(self)@.state == old(self)@.state,
            r == Result::<(), CpmError>::Err(CpmError::CycleDetected) ==> !exists|ord: Seq<int>|
                is_topo_order(final(self)@.tasks, ord),
            r == Result::<(), CpmError>::Err(CpmError::ValueOutOfRange) ==> !exists|
                b: Seq<TaskView>,
            |
                #![trigger valid_solution(b)]
                same_structure(final(self)@.tasks, b) && valid_solution(b),
            // success is owed: an acyclic graph with a representable
            // solution is always scheduled
            ((exists|ord: Seq<int>| is_topo_order(final(self)@.tasks, ord)) && (exists|
                b: Seq<TaskView>,
            |
                #![trigger valid_solution(b)]
                same_structure(final(self)@.tasks, b) && valid_solution(b))) ==> r is Ok,
            r matches Err(e) ==> (e is CycleDetected || e is ValueOutOfRange),
    {
        match self.calculate_es_ef() {
            Ok(()) => {},
            Err(e) => {
                return Err(e);
            },
        }
        let ghost mid = self@.tasks;
        let ghost ord = choose|ord: Seq<int>| is_topo_order(mid, ord);
        match self.calculate_ls_lf() {
            Ok(()) => {},
            Err(e) => {
                return Err(e);
            },
        }
        self.state = SchedulerState::Ready;
        proof {
            let ts1 = self@.tasks;
            assert(is_topo_order(ts1, ord)) by {
                lemma_same_structure_edges(mid, ts1);
                assert forall|k: int, j: int|
                    0 <= k < ord.len() && 0 <= j < ts1.len() && #[trigger] dep_edge(
                    ts1,
                    ord[k],
                    j,
                ) implies exists|k2: int| 0 <= k2 < k && ord[k2] == j by {
                    assert(dep_edge(mid, ord[k], j));
                }
            }
            assert forall|i: int| 0 <= i < ts1.len() implies (#[trigger] ts1[i]).early_start is Some
                && ts1[i].early_finish is Some && ts1[i].late_start is Some
                && ts1[i].late_finish is Some && ts1[i].early_finish->0 == ts1[i].early_start->0
                + ts1[i].duration && ts1[i].late_finish->0 == ts1[i].late_start->0
                + ts1[i].duration by {
                assert(task_forward_ok(ts1, i));
                assert(task_backward_ok(ts1, i));
            }
            assert(duration_equations_ok(ts1));
        }
        Ok(())
    }

    /// Ignites all the calculations: the two propagation passes, with
    /// the same outcome and errors as `calculate`.  Rendering the
    /// results is left to the caller, who can read them through
    /// `get_critical_paths`, `get_path_string` and `get_parallelism`.
    pub fn schedule(&mut self) -> (r: Result<(), CpmError>)
        requires
            old(self).wf(),
        ensures
            final(self).wf(),
            same_structure(old(self)@.tasks, final(self)@.tasks),
            r is Ok ==> forward_ok(final(self)@.tasks) && backward_ok(final(self)@.tasks)
                && slack_nonneg(final(self)@.tasks),
            r is Ok ==> final(self)@.state == SchedulerState::Ready,
            r is Ok ==> exists|ord: Seq<int>| is_topo_order(final(self)@.tasks, ord),
            r is Err ==> final(self)@.state == old(self)@.state,
            r == Result::<(), CpmError>::Err(CpmError::CycleDetected) ==> !exists|ord: Seq<int>|
                is_topo_order(final(self)@.tasks, ord),
            r == Result::<(), CpmError>::Err(CpmError::ValueOutOfRange) ==> !exists|
                b: Seq<TaskView>,
            |
                #![trigger valid_solution(b)]
                same_structure(final(self)@.tasks, b) && valid_solution(b),
            // success is owed: an acyclic graph with a representable
            // solution is always scheduled
            ((exists|ord: Seq<int>| is_topo_order(final(self)@.tasks, ord)) && (exists|
                b: Seq<TaskView>,
            |
                #![trigger valid_solution(b)]
                same_structure(final(self)@.tasks, b) && valid_solution(b))) ==> r is Ok,
            r matches Err(e) ==> (e is CycleDetected || e is ValueOutOfRange),
    {
        self.calculate()
    }

    /// One attempt of the backward pass on the task at `idx`, which has
    /// no late start yet.  When every successor already has a late
    /// start, writes the task's late finish (their minimum) and late
    /// start (minus the duration) and reports `true`; when some
    /// successor is still unsettled, changes nothing and reports
    /// `false`.  A minimum of zero cannot be stored as a late finish
    /// and is reported as out of range.
    #[verifier::rlimit(100)]
    fn backward_settle_task(&mut self, idx: usize, Ghost(orig): Ghost<Seq<TaskView>>) -> (r:
        Result<bool, CpmError>)
        requires
            idx < old(self)@.tasks.len(),
            backward_inv(orig, old(self)@.tasks),
            old(self)@.tasks[idx as int].late_start is None,
        ensures
            final(self)@.tasks.len() == old(self)@.tasks.len(),
            final(self)@.state == old(self)@.state,
            backward_inv(orig, final(self)@.tasks),
            (match r {
                Result::Ok(true) => unresolved_count(final(self)@.tasks) == unresolved_count(
                    old(self)@.tasks,
                ) - 1,
                Result::Ok(false) => final(self)@ == old(self)@ && exists|j: int|
                    0 <= j < old(self)@.tasks.len() && #[trigger] dep_edge(
                        old(self)@.tasks,
                        j,
                        idx as int,
                    ) && old(self)@.tasks[j].late_start is None,
                Result::Err(e) => e is ValueOutOfRange && !exists|b: Seq<TaskView>|
                    #![trigger valid_solution(b)]
                    same_structure(final(self)@.tasks, b) && valid_solution(b),
            }),
    {
        let n = self.tasks.len();
        let ghost ts0 = self@.tasks;
        let my_id = self.tasks[idx].get_id();
        let mut ready = true;
        let mut min_ls: Option<u64> = None;
        let mut j: usize = 0;
        while j < n
            invariant
                j <= n,
                idx < n,
                n == self.tasks@.len(),
                self@.tasks == self.tasks@.map_values(|t: CustomTask| t@),
                self@.tasks == ts0,
                self@ == old(self)@,
                my_id@ == ts0[idx as int].id,
                (ready && min_ls is None) ==> (forall|j2: int|
                    0 <= j2 < j ==> !#[trigger] dep_edge(ts0, j2, idx as int)),
                (ready && min_ls matches Some(m)) ==> (forall|j2: int|
                    0 <= j2 < j && #[trigger] dep_edge(ts0, j2, idx as int)
                        ==> ts0[j2].late_start is Some && min_ls->0 as int
                        <= ts0[j2].late_start->0),
                (ready && min_ls matches Some(m)) ==> (exists|b: int|
                    0 <= b < j && #[trigger] dep_edge(ts0, b, idx as int)
                        && ts0[b].late_start is Some && ts0[b].late_start->0 == min_ls->0 as int),
                !ready ==> exists|j2: int|
                    0 <= j2 < n && #[trigger] dep_edge(ts0, j2, idx as int)
                        && ts0[j2].late_start is None,
            decreases n - j,
        {
            if ready {
                let deps_j = self.tasks[j].get_dependencies();
                if names_contain(&deps_j, &my_id) {
                    proof {
                        assert(dep_edge(ts0, j as int, idx as int));
                    }
                    match self.tasks[j].get_late_start() {
                        Some(ls_j) => {
                            match min_ls {
                                Some(m) => {
                                    if ls_j < m {
                                        min_ls = Some(ls_j);
                                    }
                                },
                                None => {
                                    min_ls = Some(ls_j);
                                },
                            }
                        },
                        None => {
                            ready = false;
                        },
                    }
                }
            }
            j += 1;
        }
        if !ready {
            return Ok(false);
        }
        let m: u64;
        match min_ls {
            Some(v) => {
                m = v;
            },
            None => {
                // every unsettled task has a successor, so this cannot
                // be reached; treat it as settled-by-seed if it ever is
                proof {
                    assert(has_successor(ts0, idx as int)) by {
                        if !has_successor(ts0, idx as int) {
                            assert(ts0[idx as int].late_start == ts0[idx as int].early_start);
                            assert(task_forward_ok(ts0, idx as int));
                            assert(false);
                        }
                    }
                    let b = choose|b: int| 0 <= b < n && #[trigger] dep_edge(ts0, b, idx as int);
                    assert(false);
                }
                return Ok(false);
            },
        }
        let dur = self.tasks[idx].get_duration();
        proof {
            lemma_task_view_in_range(self.tasks@[idx as int]);
            let b = choose|b: int|
                0 <= b < n && #[trigger] dep_edge(ts0, b, idx as int) && ts0[b].late_start is Some
                    && ts0[b].late_start->0 == m as int;
            assert(ts0[b].late_start is Some);
            assert(task_forward_ok(ts0, b));
            assert(dep_edge(ts0, b, idx as int));
            assert(ts0[idx as int].early_finish->0 <= ts0[b].early_start->0);
            assert(ts0[b].early_start->0 <= ts0[b].late_start->0);
            assert(ts0[idx as int].early_finish->0 <= m as int);
            assert(task_forward_ok(ts0, idx as int));
            assert(ts0[idx as int].early_finish->0 == ts0[idx as int].early_start->0 + dur);
            assert(ts0[idx as int].early_start->0 >= 0);
            assert(m as int >= dur);
        }
        if m == 0 {
            proof {
                // a late finish of zero is forced here, and no solution
                // may carry one
                if exists|b: Seq<TaskView>|
                    #![trigger valid_solution(b)]
                    same_structure(self@.tasks, b) && valid_solution(b) {
                    let b = choose|b: Seq<TaskView>|
                        same_structure(self@.tasks, b) && valid_solution(b);
                    lemma_store_in_range(self.tasks@);
                    let ordo = choose|ordo: Seq<int>| is_topo_order(orig, ordo);
                    assert(same_structure(orig, ts0));
                    lemma_topo_transfer(orig, ts0, ordo);
                    assert forall|i2: int| 0 <= i2 < n implies ((#[trigger] ts0[i2]).early_start is Some
                        <==> ordo.contains(i2)) by {
                        assert(task_forward_ok(ts0, i2));
                    }
                    assert forall|i2: int| 0 <= i2 < n implies ((#[trigger] ts0[i2]).early_start is Some
                        <==> ts0[i2].early_finish is Some) by {
                        assert(task_forward_ok(ts0, i2));
                    }
                    lemma_partial_forward_matches(ts0, b, ordo, ordo.len() as int);
                    assert forall|i2: int|
                        0 <= i2 < n implies (#[trigger] ts0[i2]).early_start == b[i2].early_start
                        && ts0[i2].early_finish == b[i2].early_finish by {
                        assert(ordo.contains(i2));
                        let ki = choose|ki: int| 0 <= ki < ordo.len() && ordo[ki] == i2;
                        assert(ts0[ordo[ki]].early_start == b[ordo[ki]].early_start);
                        assert(ts0[ordo[ki]].early_finish == b[ordo[ki]].early_finish);
                    }
                    assert forall|i2: int|
                        #![trigger task_backward_ok(ts0, i2)]
                        0 <= i2 < n && ts0[i2].late_start is Some implies task_backward_ok(
                        ts0,
                        i2,
                    ) by {}
                    lemma_partial_backward_matches(ts0, b, ordo, 0);
                    let b0 = choose|b0: int|
                        0 <= b0 < n && #[trigger] dep_edge(ts0, b0, idx as int)
                            && ts0[b0].late_start is Some && ts0[b0].late_start->0 == m as int;
                    assert(ordo.contains(b0));
                    let kb = choose|kb: int| 0 <= kb < ordo.len() && ordo[kb] == b0;
                    assert(ts0[ordo[kb]].late_start == b[ordo[kb]].late_start);
                    assert(b[b0].late_start->0 == 0);
                    lemma_same_structure_edges(ts0, b);
                    assert(dep_edge(b, b0, idx as int));
                    assert(has_successor(b, idx as int));
                    assert(task_backward_ok(b, idx as int));
                    assert(b[idx as int].late_finish->0 <= 0);
                    assert(b[idx as int].late_finish->0 > 0);
                    assert(false);
                }
            }
            return Err(CpmError::ValueOutOfRange);
        }
        let ls_val = m - dur;
        let t = &mut self.tasks[idx];
        let _set_lf = t.set_late_finish(m);
        let _set_ls = t.set_late_start(ls_val);
        proof {
            let ts1 = self@.tasks;
            assert(same_structure(ts0, ts1)) by {
                assert(ts1[idx as int].same_structure(ts0[idx as int]));
                assert forall|k: int|
                    0 <= k < n implies (#[trigger] ts0[k]).same_structure(ts1[k]) by {
                    if k != idx as int {
                        assert(ts1[k] == ts0[k]);
                    }
                }
            }
            assert forall|a: int, b: int|
                0 <= a < b < ts1.len() implies (#[trigger] ts1[a]).id != (
            #[trigger] ts1[b]).id by {
                assert(ts0[a].same_structure(ts1[a]));
                assert(ts0[b].same_structure(ts1[b]));
            }
            assert forall|k: int|
                0 <= k < n implies (#[trigger] orig[k]).same_structure(ts1[k]) by {
                assert(orig[k].same_structure(ts0[k]));
                assert(ts0[k].same_structure(ts1[k]));
            }
        }
        proof {
            let ts1 = self@.tasks;
            assert(ts1 =~= ts0.update(
                idx as int,
                TaskView {
                    late_start: Some(ls_val as int),
                    late_finish: Some(m as int),
                    ..ts0[idx as int]
                },
            ));
            lemma_same_structure_edges(ts0, ts1);
            lemma_unresolved_count_update(ts0, ts1, idx as int);
            assert forall|i2: int| 0 <= i2 < n implies task_forward_ok(ts1, i2) by {
                lemma_forward_ok_transfer(ts0, ts1, i2);
            }
            assert forall|k: int|
                0 <= k < n implies (#[trigger] ts1[k]).early_start == orig[k].early_start
                && ts1[k].early_finish == orig[k].early_finish by {
                if k != idx as int {
                    assert(ts1[k] == ts0[k]);
                }
            }
            assert forall|k: int|
                0 <= k < n implies ((#[trigger] ts1[k]).late_start is Some
                <==> ts1[k].late_finish is Some) by {
                if k != idx as int {
                    assert(ts1[k] == ts0[k]);
                }
            }
            assert(ts1[idx as int].early_start->0 <= ts1[idx as int].late_start->0);
            assert(ts1[idx as int].early_finish->0 <= ts1[idx as int].late_finish->0);
            assert forall|k: int|
                0 <= k < n && (#[trigger] ts1[k]).late_start is Some implies ts1[k].early_start->0
                <= ts1[k].late_start->0 && ts1[k].early_finish->0 <= ts1[k].late_finish->0 by {
                if k != idx as int {
                    assert(ts1[k] == ts0[k]);
                }
            }
            // no settled task has this one as a successor
            assert forall|i2: int|
                0 <= i2 < n && (#[trigger] ts1[i2]).late_start is Some implies task_backward_ok(
                ts1,
                i2,
            ) by {
                if i2 == idx as int {
                    assert(has_successor(ts0, idx as int)) by {
                        if !has_successor(ts0, idx as int) {
                            assert(ts0[idx as int].late_start == ts0[idx as int].early_start);
                            assert(task_forward_ok(ts0, idx as int));
                            assert(false);
                        }
                    }
                    assert(has_successor(ts1, idx as int));
                    assert forall|j2: int|
                        0 <= j2 < n && #[trigger] dep_edge(ts1, j2, idx as int) implies ts1[j2].late_start is Some
                        && ts1[idx as int].late_finish->0 <= ts1[j2].late_start->0 by {
                        assert(dep_edge(ts0, j2, idx as int));
                        if j2 == idx as int {
                            assert(ts0[j2].late_start is None);
                            assert(false);
                        }
                        assert(ts1[j2] == ts0[j2]);
                    }
                    let b = choose|b: int|
                        0 <= b < n && #[trigger] dep_edge(ts0, b, idx as int)
                            && ts0[b].late_start is Some && ts0[b].late_start->0 == m as int;
                    assert(b != idx as int);
                    assert(dep_edge(ts1, b, idx as int));
                    assert(ts1[b].late_start is Some && ts1[b].late_start->0
                        == ts1[idx as int].late_finish->0);
                } else {
                    assert(task_backward_ok(ts0, i2));
                    assert(ts1[i2] == ts0[i2]);
                    if has_successor(ts0, i2) {
                        assert forall|j2: int|
                            0 <= j2 < n && #[trigger] dep_edge(ts1, j2, i2) implies ts1[j2].late_start is Some
                            && ts1[i2].late_finish->0 <= ts1[j2].late_start->0 by {
                            assert(dep_edge(ts0, j2, i2));
                            if j2 == idx as int {
                                assert(ts0[j2].late_start is Some);
                                assert(false);
                            }
                            assert(ts1[j2] == ts0[j2]);
                        }
                        let b2 = choose|b2: int|
                            0 <= b2 < n && #[trigger] dep_edge(ts0, b2, i2)
                                && ts0[b2].late_start is Some && ts0[b2].late_start->0
                                == ts0[i2].late_finish->0;
                        assert(b2 != idx as int);
                        assert(dep_edge(ts1, b2, i2));
                    }
                }
            }
            assert forall|k: int|
                0 <= k < n && !#[trigger] has_successor(ts1, k) implies ts1[k].late_start
                == ts1[k].early_start && ts1[k].late_finish == ts1[k].early_finish by {
                assert(!has_successor(ts0, k));
                if k == idx as int {
                    assert(ts0[k].late_start == ts0[k].early_start);
                    assert(task_forward_ok(ts0, k));
                    assert(false);
                }
                assert(ts1[k] == ts0[k]);
            }
        }
        Ok(true)
    }

    /// The backward pass.  Expects the forward pass to have run: every
    /// task has its early values and the end points carry their late
    /// seeds.  Settles the remaining tasks in a fixed-point sweep: once
    /// all of a task's successors have a late start, its late finish
    /// becomes their minimum and its late start subtracts the duration.
    /// A sweep without progress reports a cycle; a late finish of zero
    /// (a chain of zero durations) is reported as out of range.
    #[verifier::rlimit(100)]
    fn calculate_ls_lf(&mut self) -> (r: Result<(), CpmError>)
        requires
            old(self).wf(),
            forward_ok(old(self)@.tasks),
            endpoints_seeded(old(self)@.tasks),
            forall|k: int|
                0 <= k < old(self)@.tasks.len() && (#[trigger] old(
                    self)@.tasks[k]).late_finish is Some ==> old(self)@.tasks[k].late_finish->0
                    > 0,
            exists|ord: Seq<int>| is_topo_order(old(self)@.tasks, ord),
        ensures
            final(self).wf(),
            same_structure(old(self)@.tasks, final(self)@.tasks),
            final(self)@.state == old(self)@.state,
            forall|k: int|
                0 <= k < old(self)@.tasks.len() ==> (#[trigger] final(self)@.tasks[k]).early_start
                    == old(self)@.tasks[k].early_start && final(self)@.tasks[k].early_finish
                    == old(self)@.tasks[k].early_finish,
            forward_ok(final(self)@.tasks),
            r is Ok ==> backward_ok(final(self)@.tasks) && slack_nonneg(final(self)@.tasks),
            r is Ok ==> forall|i: int|
                0 <= i < final(self)@.tasks.len() ==> (#[trigger] final(
                    self)@.tasks[i]).late_finish->0 > 0,
            r == Result::<(), CpmError>::Err(CpmError::CycleDetected) ==> !exists|ord: Seq<int>|
                is_topo_order(final(self)@.tasks, ord),
            r == Result::<(), CpmError>::Err(CpmError::ValueOutOfRange) ==> !exists|
                b: Seq<TaskView>,
            |
                #![trigger valid_solution(b)]
                same_structure(final(self)@.tasks, b) && valid_solution(b),
            r matches Err(e) ==> (e is CycleDetected || e is ValueOutOfRange),
    {
        let n = self.tasks.len();
        proof {
            assert forall|k: int|
                0 <= k < n implies ((#[trigger] self@.tasks[k]).late_start is Some
                <==> self@.tasks[k].late_finish is Some) by {
                if !has_successor(self@.tasks, k) {
                    assert(task_forward_ok(self@.tasks, k));
                }
            }
            assert forall|k: int|
                0 <= k < n && (#[trigger] self@.tasks[k]).late_start is Some implies task_backward_ok(
                self@.tasks,
                k,
            ) && self@.tasks[k].early_start->0 <= self@.tasks[k].late_start->0
                && self@.tasks[k].early_finish->0 <= self@.tasks[k].late_finish->0 by {
                assert(task_forward_ok(self@.tasks, k));
                if has_successor(self@.tasks, k) {
                    assert(self@.tasks[k].late_start is None);
                    assert(false);
                }
            }
            assert forall|k: int|
                0 <= k < n implies (#[trigger] old(self)@.tasks[k]).same_structure(
                self@.tasks[k],
            ) by {}
            assert(backward_inv(old(self)@.tasks, self@.tasks));
        }
        loop
            invariant
                n == self.tasks@.len(),
                self@.state == old(self)@.state,
                backward_inv(old(self)@.tasks, self@.tasks),
            decreases unresolved_count(self@.tasks),
        {
            proof {
                lemma_unresolved_count_bounds(self@.tasks);
            }
            let pending = self.count_unsettled();
            if pending == 0 {
                proof {
                    lemma_unresolved_count_zero(self@.tasks);
                    assert forall|k: int| 0 <= k < n implies #[trigger] task_backward_ok(
                        self@.tasks,
                        k,
                    ) by {
                        assert(self@.tasks[k].late_start is Some);
                    }
                    assert forall|k: int|
                        0 <= k < n implies (#[trigger] self@.tasks[k]).early_start is Some
                        && self@.tasks[k].early_finish is Some && self@.tasks[k].late_start is Some
                        && self@.tasks[k].late_finish is Some && self@.tasks[k].early_start->0
                        <= self@.tasks[k].late_start->0 && self@.tasks[k].early_finish->0
                        <= self@.tasks[k].late_finish->0 by {
                        assert(task_forward_ok(self@.tasks, k));
                        assert(self@.tasks[k].late_start is Some);
                    }
                }
                return Ok(());
            }
            match self.backward_round(Ghost(old(self)@.tasks)) {
                Ok(true) => {
                    proof {
                        lemma_unresolved_count_bounds(self@.tasks);
                    }
                },
                Ok(false) => {
                    proof {
                        lemma_unresolved_count_pos(self@.tasks);
                        lemma_stuck_backward_no_topo(self@.tasks);
                    }
                    return Err(CpmError::CycleDetected);
                },
                Err(e) => {
                    return Err(e);
                },
            }
        }
    }

    /// How many stored tasks have no late start yet.
    fn count_unsettled(&self) -> (r: usize)
        ensures
            r == unresolved_count(self@.tasks),
    {
        let n = self.tasks.len();
        let mut pending: usize = 0;
        let mut i: usize = 0;
        while i < n
            invariant
                i <= n,
                n == self.tasks@.len(),
                self@.tasks == self.tasks@.map_values(|t: CustomTask| t@),
                pending <= i,
                pending == unresolved_count(self@.tasks.take(i as int)),
            decreases n - i,
        {
            proof {
                assert(self@.tasks.take(i + 1).drop_last() =~= self@.tasks.take(i as int));
                assert(self@.tasks.take(i + 1).last() == self@.tasks[i as int]);
            }
            if self.tasks[i].get_late_start().is_none() {
                pending += 1;
            }
            i += 1;
        }
        proof {
            assert(self@.tasks.take(n as int) =~= self@.tasks);
        }
        pending
    }

    /// One sweep of the backward pass over the whole store.  Reports
    /// whether any task was settled; when none was, every task that
    /// still lacks late values waits on a successor that also lacks
    /// them.
    #[verifier::rlimit(100)]
    fn backward_round(&mut self, Ghost(orig): Ghost<Seq<TaskView>>) -> (r: Result<bool, CpmError>)
        requires
            backward_inv(orig, old(self)@.tasks),
        ensures
            final(self)@.tasks.len() == old(self)@.tasks.len(),
            final(self)@.state == old(self)@.state,
            backward_inv(orig, final(self)@.tasks),
            (match r {
                Result::Ok(true) => unresolved_count(final(self)@.tasks) < unresolved_count(
                    old(self)@.tasks,
                ),
                Result::Ok(false) => final(self)@ == old(self)@ && (forall|k: int|
                    0 <= k < final(self)@.tasks.len() && (#[trigger] final(
                        self)@.tasks[k]).late_start is None ==> exists|j: int|
                        0 <= j < final(self)@.tasks.len() && #[trigger] dep_edge(
                            final(self)@.tasks,
                            j,
                            k,
                        ) && final(self)@.tasks[j].late_start is None),
                Result::Err(e) => e is ValueOutOfRange && !exists|b: Seq<TaskView>|
                    #![trigger valid_solution(b)]
                    same_structure(final(self)@.tasks, b) && valid_solution(b),
            }),
    {
        let n = self.tasks.len();
        let mut progress = false;
        let mut idx: usize = 0;
        while idx < n
            invariant
                idx <= n,
                n == self.tasks@.len(),
                n == old(self)@.tasks.len(),
                self@.state == old(self)@.state,
                backward_inv(orig, self@.tasks),
                progress ==> unresolved_count(self@.tasks) < unresolved_count(old(self)@.tasks),
                !progress ==> self@ == old(self)@,
                !progress ==> forall|k: int|
                    0 <= k < idx && (#[trigger] self@.tasks[k]).late_start is None ==> exists|
                        j: int,
                    |
                        0 <= j < n && #[trigger] dep_edge(self@.tasks, j, k)
                            && self@.tasks[j].late_start is None,
            decreases n - idx,
        {
            if self.tasks[idx].get_late_start().is_none() {
                match self.backward_settle_task(idx, Ghost(orig)) {
                    Ok(true) => {
                        progress = true;
                    },
                    Ok(false) => {},
                    Err(e) => {
                        return Err(e);
                    },
                }
            }
            idx += 1;
        }
        Ok(progress)
    }

    /// Copies of the stored tasks no stored task depends on: the end
    /// points of the graph.
    pub fn get_endpoints(&self) -> (r: Vec<CustomTask>)
        ensures
            r@.map_values(|t: CustomTask| t@) == self@.tasks.filter(
                |t: TaskView| no_successor_of(self@.tasks, t.id),
            ),
    {
        let ghost ts = self@.tasks;
        let ghost pred = |t: TaskView| no_successor_of(ts, t.id);
        let mut r: Vec<CustomTask> = Vec::new();
        let mut i: usize = 0;
        while i < self.tasks.len()
            invariant
                i <= self.tasks@.len(),
                ts == self@.tasks,
                ts == self.tasks@.map_values(|t: CustomTask| t@),
                pred == (|t: TaskView| no_successor_of(ts, t.id)),
                r@.map_values(|t: CustomTask| t@) =~= ts.take(i as int).filter(pred),
            decreases self.tasks@.len() - i,
        {
            let ghost prev = r@.map_values(|t: CustomTask| t@);
            let succs = self.get_task_successors(&self.tasks[i]);
            proof {
                let sp = |t: TaskView| t.dependencies.contains(ts[i as int].id);
                if succs@.len() == 0 {
                    assert forall|j: int| 0 <= j < ts.len() implies !(#[trigger] ts[j]).dependencies.contains(
                        ts[i as int].id,
                    ) by {
                        if ts[j].dependencies.contains(ts[i as int].id) {
                            ts.lemma_filter_contains(sp, j);
                            assert(succs@.map_values(|t: CustomTask| t@).contains(ts[j]));
                        }
                    }
                } else {
                    ts.lemma_filter_pred(sp, 0);
                    assert(sp(ts.filter(sp)[0]));
                    assert(!no_successor_of(ts, ts[i as int].id)) by {
                        let v = ts.filter(sp)[0];
                        assert(ts.filter(sp).contains(v));
                        lemma_filter_member_of(ts, sp, v);
                    }
                }
            }
            if succs.len() == 0 {
                r.push(self.tasks[i].duplicate());
                proof {
                    assert(r@.map_values(|t: CustomTask| t@) =~= prev.push(ts[i as int]));
                }
            }
            proof {
                reveal(Seq::filter);
                assert(ts.take(i + 1).drop_last() =~= ts.take(i as int));
                assert(ts.take(i + 1).last() == ts[i as int]);
            }
            i += 1;
        }
        assert(ts.take(i as int) =~= ts);
        r
    }
}

/// The dependency chain each name of `names` starts, flattened: for
/// every name, in order, the stored task it resolves to, or nothing
/// when the name is dangling.
pub open spec fn resolve_deps(ts: Seq<TaskView>, names: Seq<Seq<char>>) -> Seq<TaskView>
    decreases names.len(),
{
    if names.len() == 0 {
        Seq::empty()
    } else {
        resolve_deps(ts, names.drop_last()) + (if has_id(ts, names.last()) {
            seq![ts[idx_of(ts, names.last())]]
        } else {
            Seq::empty()
        })
    }
}

/// No stored task lists this identifier among its dependencies.
pub open spec fn no_successor_of(ts: Seq<TaskView>, id: Seq<char>) -> bool {
    forall|j: int| 0 <= j < ts.len() ==> !(#[trigger] ts[j]).dependencies.contains(id)
}

/// The task has no dependency name that resolves to a stored task.
pub open spec fn no_resolved_deps(ts: Seq<TaskView>, t: TaskView) -> bool {
    forall|j: int| 0 <= j < ts.len() ==> !t.dependencies.contains((#[trigger] ts[j]).id)
}

/// `p` walks the dependency graph away from `start`: it begins at
/// `start`, every later member is a stored task, each member names the
/// next among its dependencies, and the last member's dependencies all
/// dangle — the walk cannot be extended.
pub open spec fn chain_from(ts: Seq<TaskView>, start: TaskView, p: Seq<TaskView>) -> bool {
    &&& p.len() >= 1
    &&& p[0] == start
    &&& forall|k: int| 1 <= k < p.len() ==> ts.contains(#[trigger] p[k])
    &&& forall|k: int| 0 <= k < p.len() - 1 ==> (#[trigger] p[k]).dependencies.contains(p[k + 1].id)
    &&& no_resolved_deps(ts, p[p.len() - 1])
}

/// `p` is a full dependency chain of the graph read end-to-start: it
/// begins at a stored task that nothing depends on and follows
/// dependency links down to a task whose dependencies all dangle.
pub open spec fn endpoint_chain(ts: Seq<TaskView>, p: Seq<TaskView>) -> bool {
    exists|i: int|
        0 <= i < ts.len() && p.len() >= 1 && p[0] == #[trigger] ts[i] && !has_successor(ts, i)
            && chain_from(ts, ts[i], p)
}

/// The walk built so far: it begins at `start`, every later member is
/// stored, and each member names the next among its dependencies.
pub open spec fn chain_prefix(ts: Seq<TaskView>, start: TaskView, p: Seq<TaskView>) -> bool {
    &&& p.len() >= 1
    &&& p[0] == start
    &&& forall|k: int| 1 <= k < p.len() ==> ts.contains(#[trigger] p[k])
    &&& forall|k: int| 0 <= k < p.len() - 1 ==> (#[trigger] p[k]).dependencies.contains(p[k + 1].id)
}

/// Splicing a finished walk onto a prefix that links to its head
/// yields a finished walk.
proof fn lemma_chain_concat(ts: Seq<TaskView>, start: TaskView, base: Seq<TaskView>, sub: Seq<TaskView>)
    requires
        chain_prefix(ts, start, base),
        sub.len() >= 1,
        chain_from(ts, sub[0], sub),
        ts.contains(sub[0]),
        base[base.len() - 1].dependencies.contains(sub[0].id),
    ensures
        chain_from(ts, start, base + sub),
{
    let p = base + sub;
    assert(p[0] == base[0]);
    assert forall|k: int| 1 <= k < p.len() implies ts.contains(#[trigger] p[k]) by {
        if k < base.len() {
            assert(p[k] == base[k]);
        } else {
            assert(p[k] == sub[k - base.len()]);
            if k - base.len() >= 1 {
                assert(ts.contains(sub[k - base.len()]));
            }
        }
    }
    assert forall|k: int|
        0 <= k < p.len() - 1 implies (#[trigger] p[k]).dependencies.contains(p[k + 1].id) by {
        if k < base.len() - 1 {
            assert(p[k] == base[k]);
            assert(p[k + 1] == base[k + 1]);
        } else if k == base.len() - 1 {
            assert(p[k] == base[base.len() - 1]);
            assert(p[k + 1] == sub[0]);
        } else {
            assert(p[k] == sub[k - base.len()]);
            assert(p[k + 1] == sub[k + 1 - base.len()]);
            assert(sub[k - base.len()].dependencies.contains(sub[k - base.len() + 1].id));
        }
    }
    assert(p[p.len() - 1] == sub[sub.len() - 1]);
}

/// Every task that dependency names resolve to is stored and named.
proof fn lemma_resolve_deps_members(ts: Seq<TaskView>, names: Seq<Seq<char>>)
    ensures
        forall|d: int|
            0 <= d < resolve_deps(ts, names).len() ==> ts.contains(
                #[trigger] resolve_deps(ts, names)[d],
            ) && names.contains(resolve_deps(ts, names)[d].id),
    decreases names.len(),
{
    if names.len() > 0 {
        lemma_resolve_deps_members(ts, names.drop_last());
        let r = resolve_deps(ts, names);
        let r0 = resolve_deps(ts, names.drop_last());
        assert forall|d: int|
            0 <= d < r.len() implies ts.contains(#[trigger] r[d]) && names.contains(r[d].id) by {
            if d < r0.len() {
                assert(r[d] == r0[d]);
                let k = choose|k: int|
                    0 <= k < names.drop_last().len() && names.drop_last()[k] == r0[d].id;
                assert(names[k] == r0[d].id);
            } else {
                assert(has_id(ts, names.last()));
                let w = idx_of(ts, names.last());
                assert(r[d] == ts[w]);
                assert(ts[w].id == names.last());
                assert(names[names.len() - 1] == r[d].id);
            }
        }
    }
}

/// With unique identifiers, a stored task named in a dependency list
/// appears among the tasks the list resolves to.
proof fn lemma_resolve_deps_complete(ts: Seq<TaskView>, names: Seq<Seq<char>>)
    requires
        ids_unique(ts),
    ensures
        forall|u: TaskView|
            ts.contains(u) && names.contains(u.id) ==> #[trigger] resolve_deps(ts, names).contains(
                u,
            ),
    decreases names.len(),
{
    if names.len() > 0 {
        lemma_resolve_deps_complete(ts, names.drop_last());
        let r = resolve_deps(ts, names);
        let r0 = resolve_deps(ts, names.drop_last());
        assert forall|u: TaskView| ts.contains(u) && names.contains(u.id) implies #[trigger] r.contains(
            u,
        ) by {
            let k = choose|k: int| 0 <= k < names.len() && names[k] == u.id;
            if k < names.len() - 1 {
                assert(names.drop_last()[k] == u.id);
                assert(names.drop_last().contains(u.id));
                assert(r0.contains(u));
                let q = choose|q: int| 0 <= q < r0.len() && r0[q] == u;
                assert(r[q] == u);
            } else {
                let i = choose|i: int| 0 <= i < ts.len() && ts[i] == u;
                assert(has_id(ts, names.last()));
                let w = idx_of(ts, names.last());
                assert(ts[w].id == u.id);
                assert(ts[w] == u) by {
                    if w != i {
                        assert(ts[w].id != ts[i].id);
                    }
                }
                assert(r[r.len() - 1] == u);
            }
        }
    }
}

/// The resolution of a dependency list is empty exactly when every
/// name in it dangles.
proof fn lemma_resolve_deps_empty(ts: Seq<TaskView>, names: Seq<Seq<char>>)
    ensures
        resolve_deps(ts, names).len() == 0 <==> (forall|k: int|
            0 <= k < names.len() ==> !has_id(ts, #[trigger] names[k])),
    decreases names.len(),
{
    if names.len() > 0 {
        lemma_resolve_deps_empty(ts, names.drop_last());
        assert forall|k: int|
            0 <= k < names.drop_last().len() implies names.drop_last()[k] == #[trigger] names[k] by {
        }
        if resolve_deps(ts, names).len() == 0 {
            assert forall|k: int| 0 <= k < names.len() implies !has_id(ts, #[trigger] names[k]) by {
                if k < names.len() - 1 {
                    assert(names.drop_last()[k] == names[k]);
                }
            }
        }
    }
}

/// Task `i`'s early values agree with the forward-pass equations: the
/// early start is the maximum early finish over the dependencies that
/// resolve (zero when none do), and the early finish adds the duration.
pub open spec fn task_forward_ok(ts: Seq<TaskView>, i: int) -> bool {
    &&& ts[i].early_start is Some
    &&& ts[i].early_finish is Some
    &&& ts[i].early_finish->0 == ts[i].early_start->0 + ts[i].duration
    &&& forall|j: int|
        0 <= j < ts.len() && #[trigger] dep_edge(ts, i, j) ==> ts[j].early_finish is Some
            && ts[j].early_finish->0 <= ts[i].early_start->0
    &&& (ts[i].early_start->0 == 0 || exists|j: int|
        0 <= j < ts.len() && #[trigger] dep_edge(ts, i, j) && ts[j].early_finish is Some
            && ts[j].early_finish->0 == ts[i].early_start->0)
}

/// The forward-pass equations hold for every stored task.
pub open spec fn forward_ok(ts: Seq<TaskView>) -> bool {
    forall|i: int| 0 <= i < ts.len() ==> #[trigger] task_forward_ok(ts, i)
}

/// Every task without a successor carries its early values as its late
/// values (the backward pass starts from these seeds), and every other
/// task has no late values yet.
pub open spec fn endpoints_seeded(ts: Seq<TaskView>) -> bool {
    &&& forall|i: int|
        0 <= i < ts.len() && #[trigger] has_successor(ts, i) ==> ts[i].late_start is None
            && ts[i].late_finish is None
    &&& forall|i: int|
        0 <= i < ts.len() && !#[trigger] has_successor(ts, i) ==> ts[i].late_start
            == ts[i].early_start && ts[i].late_finish == ts[i].early_finish
}

/// All of task `i`'s resolved dependencies have an early finish, so the
/// forward pass can settle `i`.
pub open spec fn fwd_ready(ts: Seq<TaskView>, i: int) -> bool {
    forall|j: int|
        0 <= j < ts.len() && #[trigger] dep_edge(ts, i, j) ==> ts[j].early_finish is Some
}

/// Task `i`'s late values agree with the backward-pass equations: for
/// a task with successors the late finish is the minimum late start
/// over them and the late start subtracts the duration; a task without
/// successors keeps its early values as its late values.
pub open spec fn task_backward_ok(ts: Seq<TaskView>, i: int) -> bool {
    &&& ts[i].late_start is Some
    &&& ts[i].late_finish is Some
    &&& ts[i].late_finish->0 == ts[i].late_start->0 + ts[i].duration
    &&& has_successor(ts, i) ==> (forall|j: int|
        0 <= j < ts.len() && #[trigger] dep_edge(ts, j, i) ==> ts[j].late_start is Some
            && ts[i].late_finish->0 <= ts[j].late_start->0)
    &&& has_successor(ts, i) ==> (exists|j: int|
        0 <= j < ts.len() && #[trigger] dep_edge(ts, j, i) && ts[j].late_start is Some
            && ts[j].late_start->0 == ts[i].late_finish->0)
    &&& !has_successor(ts, i) ==> ts[i].late_finish == ts[i].early_finish && ts[i].late_start
        == ts[i].early_start
}

/// The backward-pass equations hold for every stored task.
pub open spec fn backward_ok(ts: Seq<TaskView>) -> bool {
    forall|i: int| 0 <= i < ts.len() ==> #[trigger] task_backward_ok(ts, i)
}

/// Every task can start as early as scheduled without missing its late
/// window: the late values dominate the early ones.
pub open spec fn slack_nonneg(ts: Seq<TaskView>) -> bool {
    forall|i: int|
        0 <= i < ts.len() ==> (#[trigger] ts[i]).early_start is Some && ts[i].early_finish is Some
            && ts[i].late_start is Some && ts[i].late_finish is Some && ts[i].early_start->0
            <= ts[i].late_start->0 && ts[i].early_finish->0 <= ts[i].late_finish->0
}

/// After a successful run every task has all four timestamps, its
/// early finish is its early start plus its duration, and its late
/// finish is its late start plus its duration.
pub open spec fn duration_equations_ok(ts: Seq<TaskView>) -> bool {
    forall|i: int|
        0 <= i < ts.len() ==> (#[trigger] ts[i]).early_start is Some && ts[i].early_finish is Some
            && ts[i].late_start is Some && ts[i].late_finish is Some && ts[i].early_finish->0
            == ts[i].early_start->0 + ts[i].duration && ts[i].late_finish->0 == ts[i].late_start->0
            + ts[i].duration
}

/// Every stored task's numbers fit the machine range.
pub open spec fn tasks_in_range(ts: Seq<TaskView>) -> bool {
    forall|i: int| 0 <= i < ts.len() ==> task_in_range(#[trigger] ts[i])
}

/// A complete, machine-representable timestamp assignment that
/// satisfies both propagation equation systems, with every late finish
/// positive (a late finish of zero is never accepted).
pub open spec fn valid_solution(b: Seq<TaskView>) -> bool {
    &&& forward_ok(b)
    &&& backward_ok(b)
    &&& tasks_in_range(b)
    &&& forall|i: int| 0 <= i < b.len() ==> (#[trigger] b[i]).late_finish->0 > 0
}

/// The views of a task store fit the machine range.
proof fn lemma_store_in_range(tasks: Seq<CustomTask>)
    ensures
        tasks_in_range(tasks.map_values(|t: CustomTask| t@)),
{
    let vs = tasks.map_values(|t: CustomTask| t@);
    assert forall|i: int| 0 <= i < vs.len() implies task_in_range(#[trigger] vs[i]) by {
        lemma_task_view_in_range(tasks[i]);
    }
}

/// A topological order carries over to an equally structured store.
pub proof fn lemma_topo_transfer(a: Seq<TaskView>, b: Seq<TaskView>, ord: Seq<int>)
    requires
        same_structure(a, b),
        is_topo_order(a, ord),
    ensures
        is_topo_order(b, ord),
{
    lemma_same_structure_edges(a, b);
    assert forall|k: int, j: int|
        0 <= k < ord.len() && 0 <= j < b.len() && #[trigger] dep_edge(b, ord[k], j) implies exists|
        k2: int,
    | 0 <= k2 < k && ord[k2] == j by {
        assert(dep_edge(a, ord[k], j));
    }
}

/// Along a topological order, a store in mid-propagation agrees with
/// any full solution on every task it has already settled: the forward
/// equations leave no choice.
#[verifier::rlimit(100)]
proof fn lemma_partial_forward_matches(a: Seq<TaskView>, b: Seq<TaskView>, ord: Seq<int>, k: int)
    requires
        same_structure(a, b),
        tasks_in_range(a),
        tasks_in_range(b),
        forward_ok(b),
        topo_prefix_ok(a, ord),
        forall|i: int|
            0 <= i < a.len() ==> ((#[trigger] a[i]).early_start is Some <==> ord.contains(i)),
        forall|i: int|
            0 <= i < a.len() ==> ((#[trigger] a[i]).early_start is Some
                <==> a[i].early_finish is Some),
        forall|i: int|
            0 <= i < a.len() && (#[trigger] a[i]).early_start is Some ==> task_forward_ok(a, i),
        0 <= k <= ord.len(),
    ensures
        forall|k2: int|
            0 <= k2 < k ==> a[#[trigger] ord[k2]].early_start == b[ord[k2]].early_start
                && a[ord[k2]].early_finish == b[ord[k2]].early_finish,
    decreases k,
{
    if k > 0 {
        lemma_partial_forward_matches(a, b, ord, k - 1);
        lemma_same_structure_edges(a, b);
        let i = ord[k - 1];
        assert(ord.contains(i));
        assert(a[i].early_start is Some);
        assert(task_forward_ok(a, i));
        assert(task_forward_ok(b, i));
        assert(task_in_range(a[i]));
        assert(task_in_range(b[i]));
        assert forall|j: int|
            0 <= j < a.len() && #[trigger] dep_edge(a, i, j) implies a[j].early_finish
            == b[j].early_finish by {
            let k2 = choose|k2: int| 0 <= k2 < k - 1 && ord[k2] == j;
            assert(a[ord[k2]].early_finish == b[ord[k2]].early_finish);
        }
        let ea = a[i].early_start->0;
        let eb = b[i].early_start->0;
        if ea != eb {
            if ea != 0 {
                let ja = choose|ja: int|
                    0 <= ja < a.len() && #[trigger] dep_edge(a, i, ja) && a[ja].early_finish is Some
                        && a[ja].early_finish->0 == ea;
                assert(dep_edge(b, i, ja));
                assert(b[ja].early_finish->0 == ea);
                assert(ea <= eb);
            }
            if eb != 0 {
                let jb = choose|jb: int|
                    0 <= jb < b.len() && #[trigger] dep_edge(b, i, jb) && b[jb].early_finish is Some
                        && b[jb].early_finish->0 == eb;
                assert(dep_edge(a, i, jb));
                assert(a[jb].early_finish->0 == eb);
                assert(eb <= ea);
            }
            if ea == 0 {
                let jb = choose|jb: int|
                    0 <= jb < b.len() && #[trigger] dep_edge(b, i, jb) && b[jb].early_finish is Some
                        && b[jb].early_finish->0 == eb;
                assert(dep_edge(a, i, jb));
                assert(a[jb].early_finish->0 == eb);
                assert(task_in_range(b[jb]));
                assert(false);
            }
            if eb == 0 {
                assert(false);
            }
            assert(false);
        }
        assert(a[i].early_start == b[i].early_start);
        assert(a[i].same_structure(b[i]));
        assert(a[i].early_finish == b[i].early_finish);
    }
}

/// Against the order read backwards, a store in mid-propagation agrees
/// with any full solution on every task whose late values it has
/// already settled.
#[verifier::rlimit(100)]
proof fn lemma_partial_backward_step(a: Seq<TaskView>, b: Seq<TaskView>, i: int)
    requires
        same_structure(a, b),
        0 <= i < a.len(),
        task_backward_ok(a, i),
        task_backward_ok(b, i),
        a[i].early_start == b[i].early_start,
        a[i].early_finish == b[i].early_finish,
        forall|j: int|
            0 <= j < a.len() && #[trigger] dep_edge(a, j, i) ==> a[j].late_start is Some
                && a[j].late_start == b[j].late_start,
    ensures
        a[i].late_start == b[i].late_start,
        a[i].late_finish == b[i].late_finish,
{
    lemma_same_structure_edges(a, b);
    if !has_successor(a, i) {
        assert(a[i].late_finish == b[i].late_finish);
        assert(a[i].late_start == b[i].late_start);
    } else {
        assert(has_successor(b, i));
        let la = a[i].late_finish->0;
        let lb = b[i].late_finish->0;
        if la != lb {
            let ja = choose|ja: int|
                0 <= ja < a.len() && #[trigger] dep_edge(a, ja, i) && a[ja].late_start is Some
                    && a[ja].late_start->0 == la;
            assert(dep_edge(b, ja, i));
            assert(b[ja].late_start->0 == la);
            assert(lb <= la);
            let jb = choose|jb: int|
                0 <= jb < b.len() && #[trigger] dep_edge(b, jb, i) && b[jb].late_start is Some
                    && b[jb].late_start->0 == lb;
            assert(dep_edge(a, jb, i));
            assert(a[jb].late_start is Some);
            assert(a[jb].late_start->0 == lb);
            assert(la <= lb);
            assert(false);
        }
        assert(a[i].late_finish == b[i].late_finish);
        assert(a[i].same_structure(b[i]));
        assert(a[i].late_start == b[i].late_start);
    }
}

/// The whole tail of the order agrees wherever the store has settled
/// late values.
#[verifier::rlimit(100)]
proof fn lemma_partial_backward_matches(a: Seq<TaskView>, b: Seq<TaskView>, ord: Seq<int>, k: int)
    requires
        same_structure(a, b),
        backward_ok(b),
        is_topo_order(a, ord),
        forall|i: int|
            0 <= i < a.len() ==> (#[trigger] a[i]).early_start == b[i].early_start
                && a[i].early_finish == b[i].early_finish,
        forall|i: int|
            #![trigger task_backward_ok(a, i)]
            0 <= i < a.len() && a[i].late_start is Some ==> task_backward_ok(a, i),
        0 <= k <= ord.len(),
    ensures
        forall|k2: int|
            k <= k2 < ord.len() && a[#[trigger] ord[k2]].late_start is Some ==> a[ord[k2]].late_start
                == b[ord[k2]].late_start && a[ord[k2]].late_finish == b[ord[k2]].late_finish,
    decreases ord.len() - k,
{
    if k < ord.len() {
        lemma_partial_backward_matches(a, b, ord, k + 1);
        let i = ord[k];
        if a[i].late_start is Some {
            assert(task_backward_ok(a, i));
            assert(task_backward_ok(b, i));
            assert forall|j: int|
                0 <= j < a.len() && #[trigger] dep_edge(a, j, i) implies a[j].late_start is Some
                && a[j].late_start == b[j].late_start by {
                assert(ord.contains(j));
                let kj = choose|kj: int| 0 <= kj < ord.len() && ord[kj] == j;
                assert(dep_edge(a, ord[kj], i));
                let k2 = choose|k2: int| 0 <= k2 < kj && ord[k2] == i;
                assert(k2 == k);
                assert(a[ord[kj]].late_start is Some ==> a[ord[kj]].late_start
                    == b[ord[kj]].late_start);
            }
            lemma_partial_backward_step(a, b, i);
        }
    }
}

/// Along a topological order, the forward equations pin the early
/// values down: any two solutions agree on every task up to position
/// `k` of the order.
proof fn lemma_forward_unique_upto(a: Seq<TaskView>, b: Seq<TaskView>, ord: Seq<int>, k: int)
    requires
        same_structure(a, b),
        tasks_in_range(a),
        tasks_in_range(b),
        forward_ok(a),
        forward_ok(b),
        is_topo_order(a, ord),
        0 <= k <= ord.len(),
    ensures
        forall|k2: int|
            0 <= k2 < k ==> a[#[trigger] ord[k2]].early_start == b[ord[k2]].early_start
                && a[ord[k2]].early_finish == b[ord[k2]].early_finish,
    decreases k,
{
    if k > 0 {
        lemma_forward_unique_upto(a, b, ord, k - 1);
        lemma_same_structure_edges(a, b);
        let i = ord[k - 1];
        assert(task_forward_ok(a, i));
        assert(task_forward_ok(b, i));
        assert(task_in_range(a[i]));
        assert(task_in_range(b[i]));
        // dependencies of the task at position k-1 sit earlier in the
        // order, where both solutions already agree
        assert forall|j: int|
            0 <= j < a.len() && #[trigger] dep_edge(a, i, j) implies a[j].early_finish
            == b[j].early_finish by {
            let k2 = choose|k2: int| 0 <= k2 < k - 1 && ord[k2] == j;
            assert(a[ord[k2]].early_finish == b[ord[k2]].early_finish);
        }
        let ea = a[i].early_start->0;
        let eb = b[i].early_start->0;
        if ea != eb {
            if ea != 0 {
                let ja = choose|ja: int|
                    0 <= ja < a.len() && #[trigger] dep_edge(a, i, ja) && a[ja].early_finish is Some
                        && a[ja].early_finish->0 == ea;
                assert(dep_edge(b, i, ja));
                assert(b[ja].early_finish->0 == ea);
                assert(ea <= eb);
            }
            if eb != 0 {
                let jb = choose|jb: int|
                    0 <= jb < b.len() && #[trigger] dep_edge(b, i, jb) && b[jb].early_finish is Some
                        && b[jb].early_finish->0 == eb;
                assert(dep_edge(a, i, jb));
                assert(a[jb].early_finish->0 == eb);
                assert(eb <= ea);
            }
            if ea == 0 {
                assert(eb != 0);
                let jb = choose|jb: int|
                    0 <= jb < b.len() && #[trigger] dep_edge(b, i, jb) && b[jb].early_finish is Some
                        && b[jb].early_finish->0 == eb;
                assert(dep_edge(a, i, jb));
                assert(a[jb].early_finish->0 == eb);
                assert(eb <= ea);
                assert(task_in_range(b[jb]));
                assert(false);
            }
            if eb == 0 {
                assert(false);
            }
            assert(false);
        }
        assert(a[i].early_start == b[i].early_start);
        assert(a[i].same_structure(b[i]));
        assert(a[i].early_finish == b[i].early_finish);
    }
}

/// Against the topological order read backwards, the backward
/// equations pin the late values down: any two solutions that already
/// agree on the early values agree on every task from position `k` on.
proof fn lemma_backward_unique_from(a: Seq<TaskView>, b: Seq<TaskView>, ord: Seq<int>, k: int)
    requires
        same_structure(a, b),
        backward_ok(a),
        backward_ok(b),
        is_topo_order(a, ord),
        forall|i: int|
            0 <= i < a.len() ==> (#[trigger] a[i]).early_start == b[i].early_start
                && a[i].early_finish == b[i].early_finish,
        0 <= k <= ord.len(),
    ensures
        forall|k2: int|
            k <= k2 < ord.len() ==> a[#[trigger] ord[k2]].late_start == b[ord[k2]].late_start
                && a[ord[k2]].late_finish == b[ord[k2]].late_finish,
    decreases ord.len() - k,
{
    if k < ord.len() {
        lemma_backward_unique_from(a, b, ord, k + 1);
        lemma_same_structure_edges(a, b);
        let i = ord[k];
        assert(task_backward_ok(a, i));
        assert(task_backward_ok(b, i));
        // successors of the task at position k sit later in the order,
        // where both solutions already agree
        assert forall|j: int|
            0 <= j < a.len() && #[trigger] dep_edge(a, j, i) implies a[j].late_start
            == b[j].late_start by {
            assert(ord.contains(j));
            let kj = choose|kj: int| 0 <= kj < ord.len() && ord[kj] == j;
            // the order places a task after its dependencies
            assert(dep_edge(a, ord[kj], i));
            let k2 = choose|k2: int| 0 <= k2 < kj && ord[k2] == i;
            assert(k2 == k);
            assert(a[ord[kj]].late_start == b[ord[kj]].late_start);
        }
        if !has_successor(a, i) {
            assert(a[i].late_finish == b[i].late_finish);
            assert(a[i].late_start == b[i].late_start);
        } else {
            assert(has_successor(b, i));
            let la = a[i].late_finish->0;
            let lb = b[i].late_finish->0;
            if la != lb {
                let ja = choose|ja: int|
                    0 <= ja < a.len() && #[trigger] dep_edge(a, ja, i) && a[ja].late_start is Some
                        && a[ja].late_start->0 == la;
                assert(dep_edge(b, ja, i));
                assert(b[ja].late_start->0 == la);
                assert(lb <= la);
                let jb = choose|jb: int|
                    0 <= jb < b.len() && #[trigger] dep_edge(b, jb, i) && b[jb].late_start is Some
                        && b[jb].late_start->0 == lb;
                assert(dep_edge(a, jb, i));
                assert(a[jb].late_start->0 == lb);
                assert(la <= lb);
                assert(false);
            }
            assert(a[i].late_finish == b[i].late_finish);
            assert(a[i].same_structure(b[i]));
            assert(a[i].late_start == b[i].late_start);
        }
    }
}

/// Scheduling is deterministic: on an acyclic graph the propagation
/// equations have exactly one solution, so two runs over the same
/// tasks — for instance a re-run on an unchanged task set — produce
/// identical timestamps everywhere.
pub proof fn lemma_schedule_deterministic(a: Seq<TaskView>, b: Seq<TaskView>)
    requires
        same_structure(a, b),
        tasks_in_range(a),
        tasks_in_range(b),
        forward_ok(a),
        forward_ok(b),
        backward_ok(a),
        backward_ok(b),
        exists|ord: Seq<int>| is_topo_order(a, ord),
    ensures
        forall|i: int|
            0 <= i < a.len() ==> (#[trigger] a[i]).early_start == b[i].early_start
                && a[i].early_finish == b[i].early_finish && a[i].late_start == b[i].late_start
                && a[i].late_finish == b[i].late_finish,
{
    let ord = choose|ord: Seq<int>| is_topo_order(a, ord);
    lemma_forward_unique_upto(a, b, ord, ord.len() as int);
    assert forall|i: int|
        0 <= i < a.len() implies (#[trigger] a[i]).early_start == b[i].early_start
        && a[i].early_finish == b[i].early_finish by {
        assert(ord.contains(i));
        let ki = choose|ki: int| 0 <= ki < ord.len() && ord[ki] == i;
        assert(a[ord[ki]].early_start == b[ord[ki]].early_start);
    }
    lemma_backward_unique_from(a, b, ord, 0);
    assert forall|i: int|
        0 <= i < a.len() implies (#[trigger] a[i]).late_start == b[i].late_start
        && a[i].late_finish == b[i].late_finish by {
        assert(ord.contains(i));
        let ki = choose|ki: int| 0 <= ki < ord.len() && ord[ki] == i;
        assert(a[ord[ki]].late_start == b[ord[ki]].late_start);
        assert(a[ord[ki]].late_finish == b[ord[ki]].late_finish);
    }
}

/// The running state of the backward pass over a store that the
/// forward pass left behind: structure and early values are untouched,
/// and every task that already has late values satisfies the backward
/// equations and dominates its early window.
pub open spec fn backward_inv(orig: Seq<TaskView>, ts: Seq<TaskView>) -> bool {
    &&& ids_unique(ts)
    &&& same_structure(orig, ts)
    &&& exists|ord: Seq<int>| is_topo_order(orig, ord)
    &&& forall|k: int|
        0 <= k < ts.len() ==> (#[trigger] ts[k]).early_start == orig[k].early_start
            && ts[k].early_finish == orig[k].early_finish
    &&& forward_ok(ts)
    &&& forall|k: int|
        0 <= k < ts.len() ==> ((#[trigger] ts[k]).late_start is Some <==> ts[k].late_finish is Some)
    &&& forall|k: int|
        0 <= k < ts.len() && !#[trigger] has_successor(ts, k) ==> ts[k].late_start
            == ts[k].early_start && ts[k].late_finish == ts[k].early_finish
    &&& forall|k: int|
        0 <= k < ts.len() && (#[trigger] ts[k]).late_start is Some ==> task_backward_ok(ts, k)
    &&& forall|k: int|
        0 <= k < ts.len() && (#[trigger] ts[k]).late_start is Some ==> ts[k].early_start->0
            <= ts[k].late_start->0 && ts[k].early_finish->0 <= ts[k].late_finish->0
    &&& forall|k: int|
        0 <= k < ts.len() && (#[trigger] ts[k]).late_finish is Some ==> ts[k].late_finish->0 > 0
}

/// How many tasks still have no late start.
spec fn unresolved_count(ts: Seq<TaskView>) -> int
    decreases ts.len(),
{
    if ts.len() == 0 {
        0
    } else {
        unresolved_count(ts.drop_last()) + if ts.last().late_start is None {
            1int
        } else {
            0int
        }
    }
}

/// The unresolved count is bounded by the store size.
proof fn lemma_unresolved_count_bounds(ts: Seq<TaskView>)
    ensures
        0 <= unresolved_count(ts) <= ts.len(),
    decreases ts.len(),
{
    if ts.len() > 0 {
        lemma_unresolved_count_bounds(ts.drop_last());
    }
}

/// Writing a late start into one task that had none lowers the
/// unresolved count by one.
proof fn lemma_unresolved_count_update(a: Seq<TaskView>, b: Seq<TaskView>, i: int)
    requires
        a.len() == b.len(),
        0 <= i < a.len(),
        forall|k: int| 0 <= k < a.len() && k != i ==> #[trigger] a[k] == b[k],
        a[i].late_start is None,
        b[i].late_start is Some,
    ensures
        unresolved_count(b) == unresolved_count(a) - 1,
    decreases a.len(),
{
    if i == a.len() - 1 {
        assert(a.drop_last() =~= b.drop_last());
    } else {
        lemma_unresolved_count_update(a.drop_last(), b.drop_last(), i);
    }
}

/// The forward equations carry over to an equally structured store
/// with the same early values.
proof fn lemma_forward_ok_transfer(a: Seq<TaskView>, b: Seq<TaskView>, i: int)
    requires
        same_structure(a, b),
        forall|k: int|
            0 <= k < a.len() ==> (#[trigger] a[k]).early_start == b[k].early_start
                && a[k].early_finish == b[k].early_finish,
        0 <= i < a.len(),
        task_forward_ok(a, i),
    ensures
        task_forward_ok(b, i),
{
    lemma_same_structure_edges(a, b);
    assert forall|j: int|
        0 <= j < b.len() && #[trigger] dep_edge(b, i, j) implies b[j].early_finish is Some
        && b[j].early_finish->0 <= b[i].early_start->0 by {
        assert(dep_edge(a, i, j));
    }
    if a[i].early_start->0 != 0 {
        let j = choose|j: int|
            0 <= j < a.len() && #[trigger] dep_edge(a, i, j) && a[j].early_finish is Some
                && a[j].early_finish->0 == a[i].early_start->0;
        assert(dep_edge(b, i, j));
    }
}

/// A store with nothing unresolved has a late start everywhere.
proof fn lemma_unresolved_count_zero(ts: Seq<TaskView>)
    requires
        unresolved_count(ts) == 0,
    ensures
        forall|k: int| 0 <= k < ts.len() ==> (#[trigger] ts[k]).late_start is Some,
    decreases ts.len(),
{
    if ts.len() > 0 {
        lemma_unresolved_count_bounds(ts.drop_last());
        lemma_unresolved_count_zero(ts.drop_last());
        assert forall|k: int| 0 <= k < ts.len() implies (#[trigger] ts[k]).late_start is Some by {
            if k < ts.len() - 1 {
                assert(ts.drop_last()[k] == ts[k]);
            }
        }
    }
}

/// `ord` lists every task exactly once, each after all the tasks its
/// resolved dependencies point at: a topological order of the graph.
pub open spec fn is_topo_order(ts: Seq<TaskView>, ord: Seq<int>) -> bool {
    &&& ord.len() == ts.len()
    &&& topo_prefix_ok(ts, ord)
    &&& forall|i: int| 0 <= i < ts.len() ==> ord.contains(i)
}

/// The well-formedness of a partial resolution order: positions are in
/// range and distinct, and every resolved dependency of a listed task
/// is listed earlier.
pub open spec fn topo_prefix_ok(ts: Seq<TaskView>, ord: Seq<int>) -> bool {
    &&& forall|k: int| 0 <= k < ord.len() ==> 0 <= #[trigger] ord[k] < ts.len()
    &&& forall|k1: int, k2: int| 0 <= k1 < k2 < ord.len() ==> ord[k1] != ord[k2]
    &&& forall|k: int, j: int|
        0 <= k < ord.len() && 0 <= j < ts.len() && #[trigger] dep_edge(ts, ord[k], j)
            ==> exists|k2: int| 0 <= k2 < k && ord[k2] == j
}

/// The invariant of the forward fixed point: the tasks listed in `ord`
/// are exactly those with an early start, their equations already hold,
/// and no late value has been written yet.
pub open spec fn forward_partial(ts: Seq<TaskView>, ord: Seq<int>) -> bool {
    &&& topo_prefix_ok(ts, ord)
    &&& forall|i: int|
        0 <= i < ts.len() ==> ((#[trigger] ts[i]).early_start is Some <==> ord.contains(i))
    &&& forall|i: int|
        0 <= i < ts.len() ==> (ts[i].early_start is Some <==> ts[i].early_finish is Some)
    &&& forall|i: int|
        0 <= i < ts.len() && (#[trigger] ts[i]).early_start is Some ==> task_forward_ok(ts, i)
    &&& forall|i: int|
        0 <= i < ts.len() ==> (#[trigger] ts[i]).late_start is None && ts[i].late_finish is None
}

/// A sequence of distinct positions below `n` that misses one such
/// position has fewer than `n` entries.
proof fn lemma_distinct_in_range_len(ord: Seq<int>, n: int, missing: int)
    requires
        forall|k: int| 0 <= k < ord.len() ==> 0 <= #[trigger] ord[k] < n,
        forall|k1: int, k2: int| 0 <= k1 < k2 < ord.len() ==> ord[k1] != ord[k2],
        0 <= missing < n,
        !ord.contains(missing),
    ensures
        ord.len() < n,
{
    broadcast use vstd::set::group_set_axioms;
    broadcast use vstd::seq_lib::seq_to_set_is_finite;

    assert(ord.no_duplicates()) by {
        assert forall|k1: int, k2: int|
            0 <= k1 < ord.len() && 0 <= k2 < ord.len() && k1 != k2 implies ord[k1] != ord[k2] by {
            if k1 < k2 {
            } else {
                assert(ord[k2] != ord[k1]);
            }
        }
    }
    ord.unique_seq_to_set();
    let s = ord.to_set();
    let r = vstd::set_lib::set_int_range(0, n).remove(missing);
    vstd::set_lib::lemma_int_range(0, n);
    assert(s.subset_of(r)) by {
        assert forall|x: int| s.contains(x) implies r.contains(x) by {
            assert(ord.contains(x));
        }
    }
    vstd::set_lib::lemma_len_subset(s, r);
    assert(vstd::set_lib::set_int_range(0, n).contains(missing));
    assert(r.len() == n - 1);
}

/// The walks a path list holds, as sequences of task views.
pub open spec fn paths_view(v: Seq<Path>) -> Seq<Seq<TaskView>> {
    v.map_values(|p: Path| p@)
}

/// The task's early window is computed and spans the whole section
/// `[a, b]`.
pub open spec fn covers(t: TaskView, a: int, b: int) -> bool {
    &&& t.early_start is Some
    &&& t.early_finish is Some
    &&& t.early_start->0 <= a
    &&& b <= t.early_finish->0
}

/// How many stored tasks span the whole section `[a, b]`.
pub open spec fn covering_count(ts: Seq<TaskView>, a: int, b: int) -> int
    decreases ts.len(),
{
    if ts.len() == 0 {
        0
    } else {
        covering_count(ts.drop_last(), a, b) + if covers(ts.last(), a, b) {
            1int
        } else {
            0int
        }
    }
}

/// Strictly increasing: sorted with no repetitions.
pub open spec fn sorted_strict(s: Seq<u64>) -> bool {
    forall|k1: int, k2: int| 0 <= k1 < k2 < s.len() ==> s[k1] < s[k2]
}

/// `s` holds exactly the early-finish values of the stored tasks, plus
/// zero.
pub open spec fn is_ef_values(ts: Seq<TaskView>, s: Seq<u64>) -> bool {
    forall|v: u64|
        #[trigger] s.contains(v) <==> (v == 0 || exists|i: int|
            0 <= i < ts.len() && (#[trigger] ts[i]).early_finish == Some(v as int))
}

/// `m` is the largest number of tasks that fully span one of the
/// sections between consecutive boundary values of `s`.
pub open spec fn is_parallelism(ts: Seq<TaskView>, s: Seq<u64>, m: int) -> bool {
    &&& forall|k: int|
        0 <= k < s.len() - 1 ==> #[trigger] covering_count(ts, s[k] as int, s[k + 1] as int) <= m
    &&& (m == 0 || exists|k: int|
        0 <= k < s.len() - 1 && #[trigger] covering_count(ts, s[k] as int, s[k + 1] as int) == m)
}

/// What a parallelism query reports on a ready scheduler: the maximum
/// section coverage over the sorted distinct early-finish boundaries.
pub open spec fn parallelism_spec(ts: Seq<TaskView>, m: int) -> bool {
    exists|s: Seq<u64>|
        #![trigger sorted_strict(s), is_ef_values(ts, s)]
        sorted_strict(s) && is_ef_values(ts, s) && is_parallelism(ts, s, m)
}

/// Inserts a value into a strictly sorted vector, keeping it strictly
/// sorted; a value already present is left alone.
fn insert_sorted_distinct(v: &mut Vec<u64>, x: u64)
    requires
        sorted_strict(old(v)@),
    ensures
        sorted_strict(final(v)@),
        forall|y: u64| final(v)@.contains(y) <==> (old(v)@.contains(y) || y == x),
{
    let mut j: usize = 0;
    while j < v.len() && v[j] < x
        invariant
            j <= v@.len(),
            sorted_strict(v@),
            v@ == old(v)@,
            forall|k: int| 0 <= k < j ==> v@[k] < x,
        decreases v@.len() - j,
    {
        j += 1;
    }
    if j < v.len() {
        let cur = v[j];
        if cur == x {
            proof {
                assert(v@[j as int] == x);
                assert(v@.contains(x));
                assert forall|y: u64| old(v)@.contains(y) || y == x implies #[trigger] v@.contains(
                    y,
                ) by {}
            }
            return ;
        }
    }
    let ghost prev = v@;
    v.insert(j, x);
    proof {
        assert(v@ == prev.insert(j as int, x));
        assert forall|k1: int, k2: int| 0 <= k1 < k2 < v@.len() implies v@[k1] < v@[k2] by {
            if k1 < j && k2 < j {
                assert(v@[k1] == prev[k1] && v@[k2] == prev[k2]);
            } else if k1 < j && k2 == j {
                assert(v@[k1] == prev[k1]);
            } else if k1 < j && k2 > j {
                assert(v@[k1] == prev[k1] && v@[k2] == prev[k2 - 1]);
                assert(prev[k1] < x);
                assert(j < prev.len() ==> x < prev[j as int] || x == prev[j as int]);
                if prev[k2 - 1] <= prev[k1] {
                    assert(false);
                }
            } else if k1 == j {
                assert(v@[k2] == prev[k2 - 1]);
                assert(k2 - 1 >= j);
                assert(j < prev.len());
                assert(prev[j as int] >= x);
                assert(prev[j as int] != x);
                if k2 - 1 > j {
                    assert(prev[j as int] < prev[k2 - 1]);
                }
            } else {
                assert(v@[k1] == prev[k1 - 1] && v@[k2] == prev[k2 - 1]);
            }
        }
        assert forall|y: u64| #[trigger] v@.contains(y) implies (old(v)@.contains(y) || y == x) by {
            let k = choose|k: int| 0 <= k < v@.len() && v@[k] == y;
            if k < j {
                assert(prev[k] == y);
                assert(old(v)@[k] == y);
            } else if k > j {
                assert(prev[k - 1] == y);
                assert(old(v)@[k - 1] == y);
            }
        }
        assert forall|y: u64| old(v)@.contains(y) || y == x implies #[trigger] v@.contains(y) by {
            if y == x {
                assert(v@[j as int] == x);
            } else if old(v)@.contains(y) {
                let k = choose|k: int| 0 <= k < old(v)@.len() && old(v)@[k] == y;
                if k < j {
                    assert(v@[k] == y);
                } else {
                    assert(v@[k + 1] == y);
                }
            }
        }
    }
}

/// Every member of `av` is a full dependency chain of the graph.
pub open spec fn all_endpoint_chains(ts: Seq<TaskView>, av: Seq<Seq<TaskView>>) -> bool {
    forall|q: int| 0 <= q < av.len() ==> endpoint_chain(ts, #[trigger] av[q])
}

/// What `get_all_paths` returns: exactly the graph's full dependency
/// chains — every listed walk is one, and every one is listed.
pub open spec fn all_paths_spec(ts: Seq<TaskView>, paths: Seq<Path>) -> bool {
    &&& forall|q: int| 0 <= q < paths.len() ==> endpoint_chain(ts, (#[trigger] paths[q])@)
    &&& forall|p: Seq<TaskView>|
        #[trigger] endpoint_chain(ts, p) ==> exists|q: int|
            0 <= q < paths.len() && (#[trigger] paths[q])@ == p
    &&& forall|q1: int, q2: int|
        0 <= q1 < q2 < paths.len() ==> (#[trigger] paths[q1])@ != (#[trigger] paths[q2])@
}

/// `av` enumerates the graph's full dependency chains exactly: every
/// member is one, and every chain appears.
pub open spec fn complete_enumeration(ts: Seq<TaskView>, av: Seq<Seq<TaskView>>) -> bool {
    &&& all_endpoint_chains(ts, av)
    &&& forall|p: Seq<TaskView>| #[trigger] endpoint_chain(ts, p) ==> av.contains(p)
}

/// What `get_critical_paths` returns: the critical subset of a
/// complete enumeration of the graph's full dependency chains.
pub open spec fn critical_paths_spec(ts: Seq<TaskView>, cps: Seq<Path>) -> bool {
    exists|av: Seq<Seq<TaskView>>, maxd: int|
        #![trigger critical_selection(av, paths_view(cps), maxd)]
        complete_enumeration(ts, av) && critical_selection(av, paths_view(cps), maxd)
}

/// The critical subset of an enumerated walk list `av`: `rv` holds the
/// start-to-end reversals of exactly those walks whose slack sum is
/// zero and whose duration is `maxd`, the largest duration any
/// zero-slack walk reaches (zero when there is none).
pub open spec fn critical_selection(
    av: Seq<Seq<TaskView>>,
    rv: Seq<Seq<TaskView>>,
    maxd: int,
) -> bool {
    &&& forall|q: int|
        0 <= q < rv.len() ==> floats_defined(#[trigger] rv[q]) && path_total_float(rv[q]) == 0
            && path_duration(rv[q]) == maxd
    &&& forall|q: int| 0 <= q < rv.len() ==> av.contains((#[trigger] rv[q]).reverse())
    &&& forall|q: int|
        0 <= q < av.len() && floats_defined((#[trigger] av[q]).reverse()) && path_total_float(
            av[q].reverse(),
        ) == 0 ==> path_duration(av[q].reverse()) <= maxd
    &&& forall|q: int|
        0 <= q < av.len() && floats_defined((#[trigger] av[q]).reverse()) && path_total_float(
            av[q].reverse(),
        ) == 0 && path_duration(av[q].reverse()) == maxd ==> rv.contains(av[q].reverse())
    &&& (maxd == 0 || exists|q: int|
        0 <= q < av.len() && floats_defined((#[trigger] av[q]).reverse()) && path_total_float(
            av[q].reverse(),
        ) == 0 && path_duration(av[q].reverse()) == maxd)
}

/// A sequence of distinct positions that is too short to list all of
/// `0..n` misses one of them.
proof fn lemma_short_order_misses(ord: Seq<int>, n: int)
    requires
        0 <= n,
        ord.len() < n,
    ensures
        exists|i: int| 0 <= i < n && !ord.contains(i),
{
    broadcast use vstd::set::group_set_axioms;
    broadcast use vstd::seq_lib::seq_to_set_is_finite;

    if forall|i: int| 0 <= i < n ==> ord.contains(i) {
        let s = ord.to_set();
        let r = vstd::set_lib::set_int_range(0, n);
        vstd::set_lib::lemma_int_range(0, n);
        assert(r.subset_of(s)) by {
            assert forall|x: int| r.contains(x) implies s.contains(x) by {
                assert(ord.contains(x));
            }
        }
        vstd::set_lib::lemma_len_subset(r, s);
        ord.lemma_cardinality_of_set();
        assert(false);
    }
}

/// Scanning a resolution order from position `k`, some position holds
/// an unsettled task while everything before it is settled.
proof fn lemma_first_unresolved_position(ts: Seq<TaskView>, ord: Seq<int>, k: int)
    requires
        0 <= k <= ord.len(),
        forall|k2: int| 0 <= k2 < ord.len() ==> 0 <= #[trigger] ord[k2] < ts.len(),
        forall|k2: int| 0 <= k2 < k ==> ts[#[trigger] ord[k2]].early_start is Some,
        exists|k2: int| k <= k2 < ord.len() && ts[#[trigger] ord[k2]].early_start is None,
    ensures
        exists|km: int|
            k <= km < ord.len() && ts[#[trigger] ord[km]].early_start is None && (forall|k2: int|
                0 <= k2 < km ==> ts[#[trigger] ord[k2]].early_start is Some),
    decreases ord.len() - k,
{
    if ts[ord[k]].early_start is None {
        assert(k <= k < ord.len() && ts[ord[k]].early_start is None && (forall|k2: int|
            0 <= k2 < k ==> ts[#[trigger] ord[k2]].early_start is Some));
    } else {
        lemma_first_unresolved_position(ts, ord, k + 1);
    }
}

/// When the forward fixed point is stuck — something is unsettled and
/// every unsettled task waits on an unsettled dependency — the graph
/// has no topological order: it contains a cycle.
#[verifier::rlimit(100)]
proof fn lemma_stuck_forward_with_order(ts: Seq<TaskView>, ord: Seq<int>)
    requires
        exists|i: int| 0 <= i < ts.len() && (#[trigger] ts[i]).early_start is None,
        forall|i: int|
            0 <= i < ts.len() ==> ((#[trigger] ts[i]).early_start is Some
                <==> ts[i].early_finish is Some),
        forall|i: int|
            0 <= i < ts.len() && (#[trigger] ts[i]).early_start is None ==> !fwd_ready(ts, i),
    ensures
        !is_topo_order(ts, ord),
{
    if is_topo_order(ts, ord) {
        let i0 = choose|i: int| 0 <= i < ts.len() && (#[trigger] ts[i]).early_start is None;
        assert(ord.contains(i0));
        let ki = choose|ki: int| 0 <= ki < ord.len() && ord[ki] == i0;
        lemma_first_unresolved_position(ts, ord, 0);
        let km = choose|km: int|
            0 <= km < ord.len() && ts[#[trigger] ord[km]].early_start is None && (forall|k2: int|
                0 <= k2 < km ==> ts[#[trigger] ord[k2]].early_start is Some);
        let j = ord[km];
        assert(!fwd_ready(ts, j));
        let j2 = choose|j2: int|
            0 <= j2 < ts.len() && #[trigger] dep_edge(ts, j, j2) && ts[j2].early_finish is None;
        assert(dep_edge(ts, ord[km], j2));
        let k2 = choose|k2: int| 0 <= k2 < km && ord[k2] == j2;
        assert(ts[ord[k2]].early_start is Some);
        assert(false);
    }
}

/// When the forward fixed point is stuck, no topological order can
/// exist.
proof fn lemma_stuck_forward_no_topo(ts: Seq<TaskView>)
    requires
        exists|i: int| 0 <= i < ts.len() && (#[trigger] ts[i]).early_start is None,
        forall|i: int|
            0 <= i < ts.len() ==> ((#[trigger] ts[i]).early_start is Some
                <==> ts[i].early_finish is Some),
        forall|i: int|
            0 <= i < ts.len() && (#[trigger] ts[i]).early_start is None ==> !fwd_ready(ts, i),
    ensures
        !exists|ord: Seq<int>| is_topo_order(ts, ord),
{
    if exists|ord: Seq<int>| is_topo_order(ts, ord) {
        let ord = choose|ord: Seq<int>| is_topo_order(ts, ord);
        lemma_stuck_forward_with_order(ts, ord);
    }
}

/// Scanning a resolution order backwards from position `k`, some
/// position holds a task without late values while everything after it
/// has them.
proof fn lemma_last_unresolved_position(ts: Seq<TaskView>, ord: Seq<int>, k: int)
    requires
        0 <= k < ord.len(),
        forall|k2: int| 0 <= k2 < ord.len() ==> 0 <= #[trigger] ord[k2] < ts.len(),
        forall|k2: int| k < k2 < ord.len() ==> ts[#[trigger] ord[k2]].late_start is Some,
        exists|k2: int| 0 <= k2 <= k && ts[#[trigger] ord[k2]].late_start is None,
    ensures
        exists|km: int|
            0 <= km < ord.len() && ts[#[trigger] ord[km]].late_start is None && (forall|k2: int|
                km < k2 < ord.len() ==> ts[#[trigger] ord[k2]].late_start is Some),
    decreases k,
{
    if ts[ord[k]].late_start is None {
        assert(0 <= k < ord.len() && ts[ord[k]].late_start is None && (forall|k2: int|
            k < k2 < ord.len() ==> ts[#[trigger] ord[k2]].late_start is Some));
    } else {
        assert(k > 0);
        lemma_last_unresolved_position(ts, ord, k - 1);
    }
}

/// When the backward fixed point is stuck — something lacks late
/// values and every such task waits on a successor that lacks them —
/// the graph has no topological order: it contains a cycle.
#[verifier::rlimit(100)]
proof fn lemma_stuck_backward_no_topo(ts: Seq<TaskView>)
    requires
        exists|i: int| 0 <= i < ts.len() && (#[trigger] ts[i]).late_start is None,
        forall|i: int|
            0 <= i < ts.len() && (#[trigger] ts[i]).late_start is None ==> exists|j: int|
                0 <= j < ts.len() && #[trigger] dep_edge(ts, j, i) && ts[j].late_start is None,
    ensures
        !exists|ord: Seq<int>| is_topo_order(ts, ord),
{
    if exists|ord: Seq<int>| is_topo_order(ts, ord) {
        let ord = choose|ord: Seq<int>| is_topo_order(ts, ord);
        let i0 = choose|i: int| 0 <= i < ts.len() && (#[trigger] ts[i]).late_start is None;
        assert(ord.contains(i0));
        let ki = choose|ki: int| 0 <= ki < ord.len() && ord[ki] == i0;
        lemma_last_unresolved_position(ts, ord, ord.len() - 1);
        let km = choose|km: int|
            0 <= km < ord.len() && ts[#[trigger] ord[km]].late_start is None && (forall|k2: int|
                km < k2 < ord.len() ==> ts[#[trigger] ord[k2]].late_start is Some);
        let i = ord[km];
        let j = choose|j: int|
            0 <= j < ts.len() && #[trigger] dep_edge(ts, j, i) && ts[j].late_start is None;
        // the order lists the depending task after its dependency
        assert(ord.contains(j));
        let kj = choose|kj: int| 0 <= kj < ord.len() && ord[kj] == j;
        assert(dep_edge(ts, ord[kj], i));
        let k2 = choose|k2: int| 0 <= k2 < kj && ord[k2] == i;
        assert(k2 == km);
        assert(ts[ord[kj]].late_start is Some);
        assert(false);
    }
}

/// A positive unresolved count names an unresolved task.
proof fn lemma_unresolved_count_pos(ts: Seq<TaskView>)
    requires
        unresolved_count(ts) > 0,
    ensures
        exists|i: int| 0 <= i < ts.len() && (#[trigger] ts[i]).late_start is None,
    decreases ts.len(),
{
    if ts.len() > 0 {
        if ts.last().late_start is None {
            assert(ts[ts.len() - 1].late_start is None);
        } else {
            lemma_unresolved_count_pos(ts.drop_last());
            let i = choose|i: int|
                0 <= i < ts.drop_last().len() && (#[trigger] ts.drop_last()[i]).late_start is None;
            assert(ts[i].late_start is None);
        }
    }
}

/// Every member of the walk is stored and names the next among its
/// dependencies.
pub open spec fn stored_chain(ts: Seq<TaskView>, c: Seq<TaskView>) -> bool {
    &&& forall|k: int| 0 <= k < c.len() ==> ts.contains(#[trigger] c[k])
    &&& forall|k: int| 0 <= k < c.len() - 1 ==> (#[trigger] c[k]).dependencies.contains(c[k + 1].id)
}

/// The recursion's descent chain: at least as long as the depth, a
/// linked walk of stored tasks (after its head) ending at the current
/// start.  Kept opaque so the fixed facts of a descent do not weigh on
/// every loop.
#[verifier::opaque]
spec fn descent_ok(ts: Seq<TaskView>, anc: Seq<TaskView>, start: TaskView, depth: int) -> bool {
    &&& anc.len() >= depth + 1
    &&& chain_prefix(ts, anc[0], anc)
    &&& anc[anc.len() - 1] == start
}

/// Splicing the walk built so far onto the descent chain, and then a
/// dependency of its head, gives a longer descent chain.
proof fn lemma_descend_chain(
    ts: Seq<TaskView>,
    anc: Seq<TaskView>,
    base: Seq<TaskView>,
    dep: TaskView,
)
    requires
        anc.len() >= 1,
        base.len() >= 1,
        chain_prefix(ts, anc[0], anc),
        anc[anc.len() - 1] == base[0],
        chain_prefix(ts, base[0], base),
        ts.contains(dep),
        base[base.len() - 1].dependencies.contains(dep.id),
    ensures
        chain_prefix(ts, anc[0], anc + base.skip(1) + seq![dep]),
        (anc + base.skip(1) + seq![dep]).len() == anc.len() + base.len(),
        (anc + base.skip(1) + seq![dep])[0] == anc[0],
        (anc + base.skip(1) + seq![dep])[(anc + base.skip(1) + seq![dep]).len() - 1] == dep,
{
    let c = anc + base.skip(1) + seq![dep];
    assert(c[0] == anc[0]);
    assert forall|k: int| 1 <= k < c.len() implies ts.contains(#[trigger] c[k]) by {
        if k < anc.len() {
            assert(c[k] == anc[k]);
        } else if k < c.len() - 1 {
            assert(c[k] == base[k - anc.len() + 1]);
        } else {
            assert(c[k] == dep);
        }
    }
    assert forall|k: int|
        0 <= k < c.len() - 1 implies (#[trigger] c[k]).dependencies.contains(c[k + 1].id) by {
        if k < anc.len() - 1 {
            assert(c[k] == anc[k]);
            assert(c[k + 1] == anc[k + 1]);
        } else if k == anc.len() - 1 {
            assert(c[k] == base[0]);
            if k + 1 < c.len() - 1 {
                assert(c[k + 1] == base[1]);
            } else {
                assert(base.len() == 1);
                assert(c[k + 1] == dep);
            }
        } else if k < c.len() - 2 {
            assert(c[k] == base[k - anc.len() + 1]);
            assert(c[k + 1] == base[k - anc.len() + 2]);
        } else {
            assert(c[k] == base[base.len() - 1]);
            assert(c[k + 1] == dep);
        }
    }
}

/// Splicing the walk built so far onto a fully stored descent chain
/// gives a fully stored walk.
proof fn lemma_comb_stored(ts: Seq<TaskView>, anc: Seq<TaskView>, base: Seq<TaskView>)
    requires
        anc.len() >= 1,
        base.len() >= 1,
        chain_prefix(ts, anc[0], anc),
        ts.contains(anc[0]),
        anc[anc.len() - 1] == base[0],
        chain_prefix(ts, base[0], base),
    ensures
        stored_chain(ts, anc + base.skip(1)),
        (anc + base.skip(1)).len() == anc.len() + base.len() - 1,
{
    let c = anc + base.skip(1);
    assert forall|k: int| 0 <= k < c.len() implies ts.contains(#[trigger] c[k]) by {
        if k == 0 {
            assert(c[k] == anc[0]);
        } else if k < anc.len() {
            assert(c[k] == anc[k]);
        } else {
            assert(c[k] == base[k - anc.len() + 1]);
        }
    }
    assert forall|k: int|
        0 <= k < c.len() - 1 implies (#[trigger] c[k]).dependencies.contains(c[k + 1].id) by {
        if k < anc.len() - 1 {
            assert(c[k] == anc[k]);
            assert(c[k + 1] == anc[k + 1]);
        } else if k == anc.len() - 1 {
            assert(c[k] == base[0]);
            assert(c[k + 1] == base[1]);
        } else {
            assert(c[k] == base[k - anc.len() + 1]);
            assert(c[k + 1] == base[k - anc.len() + 2]);
        }
    }
}

/// One recursion step of the walk: descending from the current walk's
/// head into one of its resolved dependencies extends the descent
/// chain, keeping its head.
proof fn lemma_descend_step(
    ts: Seq<TaskView>,
    anc: Seq<TaskView>,
    base: Seq<TaskView>,
    dep: TaskView,
    start: TaskView,
    depth: int,
)
    requires
        descent_ok(ts, anc, start, depth),
        chain_prefix(ts, start, base),
        base[base.len() - 1].dependencies.contains(dep.id),
        ts.contains(dep),
    ensures
        descent_ok(ts, anc + base.skip(1) + seq![dep], dep, depth + 1),
        (anc + base.skip(1) + seq![dep])[0] == anc[0],
{
    reveal(descent_ok);
    assert(anc[anc.len() - 1] == base[0]);
    lemma_descend_chain(ts, anc, base, dep);
    let anc2 = anc + base.skip(1) + seq![dep];
    assert(anc2[0] == anc[0]);
    assert(anc2.len() == anc.len() + base.len());
    assert(anc2[anc2.len() - 1] == dep);
}

/// One round of the fan-out: splicing every walk through one resolved
/// dependency of the head onto the walk built so far keeps every
/// collected walk finished and covers every finished walk that steps
/// into any dependency handled so far.
#[verifier::rlimit(100)]
proof fn lemma_fanout_step(
    ts: Seq<TaskView>,
    start: TaskView,
    base: Seq<TaskView>,
    dvs: Seq<TaskView>,
    d: int,
    sub: Seq<Path>,
    prevf: Seq<Path>,
    found: Seq<Path>,
)
    requires
        base.len() >= 1,
        0 <= d < dvs.len(),
        ts.contains(dvs[d]),
        chain_prefix(ts, start, base),
        base[base.len() - 1].dependencies.contains(dvs[d].id),
        forall|c: Seq<TaskView>|
            #[trigger] chain_from(ts, start, c) ==> c.len() >= base.len() && c.take(
                base.len() as int,
            ) == base,
        forall|q: int| 0 <= q < sub.len() ==> chain_from(ts, dvs[d], (#[trigger] sub[q])@),
        forall|c: Seq<TaskView>|
            #[trigger] chain_from(ts, dvs[d], c) ==> exists|q: int|
                0 <= q < sub.len() && (#[trigger] sub[q])@ == c,
        forall|q: int| 0 <= q < prevf.len() ==> chain_from(ts, start, (#[trigger] prevf[q])@),
        forall|c: Seq<TaskView>|
            (#[trigger] chain_from(ts, start, c) && exists|d2: int|
                0 <= d2 < d && c[base.len() as int] == dvs[d2]) ==> exists|q: int|
                0 <= q < prevf.len() && (#[trigger] prevf[q])@ == c,
        found.len() == prevf.len() + sub.len(),
        forall|q: int| 0 <= q < prevf.len() ==> #[trigger] found[q] == prevf[q],
        forall|q2: int|
            0 <= q2 < sub.len() ==> (#[trigger] found[prevf.len() + q2])@ == base + sub[q2]@,
    ensures
        forall|q: int| 0 <= q < found.len() ==> chain_from(ts, start, (#[trigger] found[q])@),
        forall|c: Seq<TaskView>|
            (#[trigger] chain_from(ts, start, c) && exists|d2: int|
                0 <= d2 < d + 1 && c[base.len() as int] == dvs[d2]) ==> exists|q: int|
                0 <= q < found.len() && (#[trigger] found[q])@ == c,
{
    let gl = base.len() as int;
    assert forall|q: int| 0 <= q < found.len() implies chain_from(
        ts,
        start,
        (#[trigger] found[q])@,
    ) by {
        if q < prevf.len() {
            assert(found[q] == prevf[q]);
        } else {
            let q2 = q - prevf.len();
            assert(found[prevf.len() + q2]@ == base + sub[q2]@);
            assert(chain_from(ts, dvs[d], sub[q2]@));
            assert(sub[q2]@[0] == dvs[d]);
            lemma_chain_concat(ts, start, base, sub[q2]@);
        }
    }
    assert forall|c: Seq<TaskView>|
        (#[trigger] chain_from(ts, start, c) && exists|d2: int|
            0 <= d2 < d + 1 && c[gl] == dvs[d2]) implies exists|q: int|
        0 <= q < found.len() && (#[trigger] found[q])@ == c by {
        let d2 = choose|d2: int| 0 <= d2 < d + 1 && c[gl] == dvs[d2];
        if d2 < d {
            assert(exists|d3: int| 0 <= d3 < d && c[gl] == dvs[d3]);
            let w0 = choose|w0: int| 0 <= w0 < prevf.len() && (#[trigger] prevf[w0])@ == c;
            assert(found[w0] == prevf[w0]);
        } else {
            assert(c.len() >= gl && c.take(gl) == base);
            if c.len() == gl {
                // the walk head still has a resolved dependency, so no
                // finished walk can stop here
                assert(c[gl - 1] == base[gl - 1]);
                let i = choose|i: int| 0 <= i < ts.len() && #[trigger] ts[i] == dvs[d];
                assert(!base[base.len() - 1].dependencies.contains(ts[i].id));
                assert(false);
            }
            let csub = c.subrange(gl, c.len() as int);
            assert(c[gl - 1] == base[gl - 1]);
            assert(chain_from(ts, dvs[d], csub)) by {
                assert(csub[0] == c[gl]);
                assert forall|k: int| 1 <= k < csub.len() implies ts.contains(
                    #[trigger] csub[k],
                ) by {
                    assert(csub[k] == c[gl + k]);
                }
                assert forall|k: int|
                    0 <= k < csub.len() - 1 implies (#[trigger] csub[k]).dependencies.contains(
                    csub[k + 1].id,
                ) by {
                    assert(csub[k] == c[gl + k]);
                    assert(csub[k + 1] == c[gl + k + 1]);
                }
                assert(csub[csub.len() - 1] == c[c.len() - 1]);
            }
            let q2 = choose|q2: int| 0 <= q2 < sub.len() && (#[trigger] sub[q2])@ == csub;
            assert(found[prevf.len() + q2]@ == base + sub[q2]@);
            assert(base + csub =~= c);
            assert(found[prevf.len() + q2]@ == c);
        }
    }
}

/// The position in the order of the task carrying this view.
spec fn ord_pos(ts: Seq<TaskView>, ord: Seq<int>, t: TaskView) -> int {
    choose|a: int| 0 <= a < ord.len() && ts[ord[a]] == t
}

/// Along a stored walk, order positions strictly decrease: each member
/// sits earlier in the order than the one that depends on it, by at
/// least one position per step.
#[verifier::rlimit(100)]
proof fn lemma_chain_positions(ts: Seq<TaskView>, ord: Seq<int>, c: Seq<TaskView>, k: int)
    requires
        ids_unique(ts),
        is_topo_order(ts, ord),
        stored_chain(ts, c),
        0 <= k < c.len(),
    ensures
        0 <= ord_pos(ts, ord, c[k]) < ord.len(),
        ts[ord[ord_pos(ts, ord, c[k])]] == c[k],
        ord_pos(ts, ord, c[k]) <= ord_pos(ts, ord, c[0]) - k,
    decreases k,
{
    assert(ts.contains(c[k]));
    let i = choose|i: int| 0 <= i < ts.len() && ts[i] == c[k];
    assert(ord.contains(i));
    let a = choose|a2: int| 0 <= a2 < ord.len() && ord[a2] == i;
    assert(ts[ord[a]] == c[k]);
    let ak = ord_pos(ts, ord, c[k]);
    assert(0 <= ak < ord.len() && ts[ord[ak]] == c[k]);
    if k > 0 {
        lemma_chain_positions(ts, ord, c, k - 1);
        let ap = ord_pos(ts, ord, c[k - 1]);
        assert(c[k - 1].dependencies.contains(c[k].id));
        assert(ts[ord[ap]] == c[k - 1]);
        assert(dep_edge(ts, ord[ap], ord[ak]));
        let k2 = choose|k2: int| 0 <= k2 < ap && ord[k2] == ord[ak];
        assert(k2 == ak) by {
            if k2 != ak {
                assert(ord[k2] != ord[ak]);
            }
        }
        assert(ak < ap);
    }
}

/// A stored walk longer than the store itself revisits a task, so the
/// graph has no topological order: it contains a cycle.
proof fn lemma_long_chain_no_topo(ts: Seq<TaskView>, c: Seq<TaskView>)
    requires
        ids_unique(ts),
        stored_chain(ts, c),
        c.len() > ts.len(),
    ensures
        !exists|ord: Seq<int>| is_topo_order(ts, ord),
{
    if exists|ord: Seq<int>| is_topo_order(ts, ord) {
        let ord = choose|ord: Seq<int>| is_topo_order(ts, ord);
        lemma_chain_positions(ts, ord, c, c.len() - 1);
        lemma_chain_positions(ts, ord, c, 0);
        assert(ord_pos(ts, ord, c[c.len() - 1]) <= ord_pos(ts, ord, c[0]) - (c.len() - 1));
        assert(false);
    }
}

/// Equally structured stores have the same dependency edges and the
/// same successor relation.
proof fn lemma_same_structure_edges(a: Seq<TaskView>, b: Seq<TaskView>)
    requires
        same_structure(a, b),
    ensures
        forall|i: int, j: int|
            #![trigger dep_edge(a, i, j)]
            #![trigger dep_edge(b, i, j)]
            0 <= i < a.len() && 0 <= j < a.len() ==> (dep_edge(a, i, j) <==> dep_edge(b, i, j)),
        forall|i: int|
            #![trigger has_successor(a, i)]
            #![trigger has_successor(b, i)]
            0 <= i < a.len() ==> (has_successor(a, i) <==> has_successor(b, i)),
{
    assert forall|i: int, j: int|
        0 <= i < a.len() && 0 <= j < a.len() implies (dep_edge(a, i, j) <==> dep_edge(b, i, j)) by {
        assert(a[i].same_structure(b[i]));
        assert(a[j].same_structure(b[j]));
    }
    assert forall|i: int| 0 <= i < a.len() implies (has_successor(a, i) <==> has_successor(
        b,
        i,
    )) by {
        if has_successor(a, i) {
            let j = choose|j: int| 0 <= j < a.len() && dep_edge(a, j, i);
            assert(dep_edge(b, j, i));
        }
        if has_successor(b, i) {
            let j = choose|j: int| 0 <= j < b.len() && dep_edge(b, j, i);
            assert(dep_edge(a, j, i));
        }
    }
}

/// A filtered sequence is empty exactly when no member satisfies the
/// predicate.
proof fn lemma_filter_empty_iff<A>(s: Seq<A>, pred: spec_fn(A) -> bool)
    ensures
        s.filter(pred).len() == 0 <==> (forall|i: int| 0 <= i < s.len() ==> !pred(#[trigger] s[i])),
{
    if s.filter(pred).len() == 0 {
        assert forall|i: int| 0 <= i < s.len() implies !pred(#[trigger] s[i]) by {
            if pred(s[i]) {
                s.lemma_filter_contains(pred, i);
            }
        }
    } else {
        s.lemma_filter_pred(pred, 0);
        let v = s.filter(pred)[0];
        assert(s.filter(pred).contains(v));
        lemma_filter_member_of(s, pred, v);
    }
}

/// A member of a filtered sequence satisfies the predicate and comes
/// from the original sequence.
proof fn lemma_filter_member_of<A>(s: Seq<A>, pred: spec_fn(A) -> bool, v: A)
    requires
        s.filter(pred).contains(v),
    ensures
        s.contains(v),
        pred(v),
    decreases s.len(),
{
    reveal(Seq::filter);
    if s.len() > 0 {
        if s.drop_last().filter(pred).contains(v) {
            lemma_filter_member_of(s.drop_last(), pred, v);
            let k = choose|k: int| 0 <= k < s.drop_last().len() && s.drop_last()[k] == v;
            assert(s[k] == v);
        } else {
            assert(v == s.last());
            assert(s[s.len() - 1] == v);
        }
    }
}

/// True when some collected walk already reads the same.
fn holds_same_walk(paths: &Vec<Path>, p: &Path) -> (r: bool)
    ensures
        r == exists|q: int| 0 <= q < paths@.len() && (#[trigger] paths@[q])@ == p@,
{
    let mut q: usize = 0;
    while q < paths.len()
        invariant
            q <= paths@.len(),
            forall|m: int| 0 <= m < q ==> (#[trigger] paths@[m])@ != p@,
        decreases paths@.len() - q,
    {
        if paths[q].same_as(p) {
            return true;
        }
        q += 1;
    }
    false
}

/// Drops repeated walks, keeping the first occurrence of each, in
/// order: afterwards every walk reads differently, and exactly the
/// same walks are listed.
#[verifier::rlimit(100)]
fn dedup_walks(paths: Vec<Path>) -> (r: Vec<Path>)
    ensures
        forall|q1: int, q2: int|
            0 <= q1 < q2 < r@.len() ==> (#[trigger] r@[q1])@ != (#[trigger] r@[q2])@,
        paths_view(r@).to_set() == paths_view(paths@).to_set(),
        paths@.len() >= 1 ==> r@.len() >= 1,
{
    broadcast use vstd::set::group_set_axioms;

    let mut out: Vec<Path> = Vec::new();
    let mut w: usize = 0;
    proof {
        assert(paths_view(out@).to_set() =~= paths_view(paths@.take(0)).to_set()) by {
            assert(paths_view(out@).len() == 0);
            assert(paths_view(paths@.take(0)).len() == 0);
        }
    }
    while w < paths.len()
        invariant
            w <= paths@.len(),
            forall|q1: int, q2: int|
                0 <= q1 < q2 < out@.len() ==> (#[trigger] out@[q1])@ != (#[trigger] out@[q2])@,
            paths_view(out@).to_set() == paths_view(paths@.take(w as int)).to_set(),
            w >= 1 ==> out@.len() >= 1,
        decreases paths@.len() - w,
    {
        let ghost prev = out@;
        let ghost pv = paths_view(paths@);
        let present = holds_same_walk(&out, &paths[w]);
        if !present {
            out.push(paths[w].duplicate());
            proof {
                assert(out@[prev.len() as int]@ == paths@[w as int]@);
                assert forall|q1: int, q2: int|
                    0 <= q1 < q2 < out@.len() implies (#[trigger] out@[q1])@ != (
                #[trigger] out@[q2])@ by {
                    if q2 < prev.len() {
                        assert(out@[q1] == prev[q1]);
                        assert(out@[q2] == prev[q2]);
                    } else {
                        assert(out@[q1] == prev[q1]);
                        assert(out@[q2]@ == paths@[w as int]@);
                    }
                }
            }
        }
        proof {
            let newv = paths@[w as int]@;
            let mo = paths_view(out@);
            let mp = paths_view(paths@.take(w as int));
            let mq = paths_view(paths@.take(w + 1));
            assert(mq.len() == w + 1);
            assert forall|k: int| 0 <= k < w implies #[trigger] mq[k] == mp[k] by {
                assert(paths@.take(w + 1)[k] == paths@.take(w as int)[k]);
            }
            assert(mq[w as int] == newv);
            assert(paths_view(out@).to_set() =~= paths_view(paths@.take(w + 1)).to_set()) by {
                assert forall|v: Seq<TaskView>|
                    mo.to_set().contains(v) == mq.to_set().contains(v) by {
                    if mo.contains(v) {
                        let q = choose|q: int| 0 <= q < mo.len() && #[trigger] mo[q] == v;
                        if q < prev.len() {
                            assert(paths_view(prev)[q] == v);
                            assert(paths_view(prev).to_set().contains(v));
                            assert(mp.to_set().contains(v));
                            assert(mp.contains(v));
                            let w2 = choose|w2: int| 0 <= w2 < mp.len() && #[trigger] mp[w2] == v;
                            assert(mq[w2] == v);
                            assert(mq.contains(v));
                        } else {
                            assert(v == newv);
                            assert(mq[w as int] == v);
                            assert(mq.contains(v));
                        }
                    }
                    if mq.contains(v) {
                        let w2 = choose|w2: int| 0 <= w2 < mq.len() && #[trigger] mq[w2] == v;
                        if w2 < w {
                            assert(mp[w2] == v);
                            assert(mp.contains(v));
                            assert(mp.to_set().contains(v));
                            assert(paths_view(prev).to_set().contains(v));
                            assert(paths_view(prev).contains(v));
                            let q = choose|q: int|
                                0 <= q < paths_view(prev).len() && #[trigger] paths_view(prev)[q]
                                    == v;
                            assert(mo[q] == v);
                            assert(mo.contains(v));
                        } else {
                            assert(v == newv);
                            if present {
                                let q0 = choose|q0: int|
                                    0 <= q0 < prev.len() && (#[trigger] prev[q0])@ == newv;
                                assert(mo[q0] == v);
                            } else {
                                assert(mo[prev.len() as int] == v);
                            }
                            assert(mo.contains(v));
                        }
                    }
                }
            }
        }
        w += 1;
    }
    proof {
        assert(paths@.take(w as int) =~= paths@);
    }
    out
}

/// Appends, for every member of `sub_paths`, the walk built so far
/// followed by that member, in order.
fn splice_walks(base_path: &Path, sub_paths: &Vec<Path>, found: &mut Vec<Path>)
    ensures
        final(found)@.len() == old(found)@.len() + sub_paths@.len(),
        forall|q: int| 0 <= q < old(found)@.len() ==> final(found)@[q] == old(found)@[q],
        forall|q2: int|
            0 <= q2 < sub_paths@.len() ==> (#[trigger] final(found)@[old(found)@.len() + q2])@
                == base_path@ + sub_paths@[q2]@,
{
    let mut s: usize = 0;
    while s < sub_paths.len()
        invariant
            s <= sub_paths@.len(),
            found@.len() == old(found)@.len() + s,
            forall|q: int| 0 <= q < old(found)@.len() ==> found@[q] == old(found)@[q],
            forall|q2: int|
                0 <= q2 < s ==> (#[trigger] found@[old(found)@.len() + q2])@ == base_path@
                    + sub_paths@[q2]@,
        decreases sub_paths@.len() - s,
    {
        let mut concatenated = base_path.duplicate();
        concatenated.join_path(&sub_paths[s]);
        found.push(concatenated);
        s += 1;
    }
}

/// True when one of the strings views to the given character sequence.
fn names_contain(v: &Vec<String>, name: &String) -> (r: bool)
    ensures
        r == v@.map_values(|s: String| s@).contains(name@),
{
    let mut k: usize = 0;
    while k < v.len()
        invariant
            k <= v@.len(),
            forall|m: int| 0 <= m < k ==> (#[trigger] v@[m])@ != name@,
        decreases v@.len() - k,
    {
        if v[k].eq(name) {
            assert(v@.map_values(|s: String| s@)[k as int] == name@);
            return true;
        }
        k += 1;
    }
    proof {
        let mapped = v@.map_values(|s: String| s@);
        assert forall|m: int| 0 <= m < mapped.len() implies #[trigger] mapped[m] != name@ by {
            assert(mapped[m] == v@[m]@);
        }
    }
    false
}

/// True when one of the first `upto` tasks of the list carries the
/// identifier.
fn contains_id_upto(tasks: &Vec<CustomTask>, name: &String, upto: usize) -> (r: bool)
    requires
        upto <= tasks@.len(),
    ensures
        r == exists|k: int| 0 <= k < upto && (#[trigger] tasks@[k])@.id == name@,
{
    let mut k: usize = 0;
    while k < upto
        invariant
            k <= upto <= tasks@.len(),
            forall|m: int| 0 <= m < k ==> (#[trigger] tasks@[m])@.id != name@,
        decreases upto - k,
    {
        let tid = tasks[k].get_id();
        if tid.eq(name) {
            return true;
        }
        k += 1;
    }
    false
}

} // verus!
