use vstd::prelude::*;

use crate::customtask::{lemma_task_view_in_range, CustomTask, TaskView};
use crate::decimal::{dec_str, u64_to_dec_string};
use crate::errors::CpmError;

verus! {

/// Sum of the durations along a path.
pub open spec fn path_duration(p: Seq<TaskView>) -> int
    decreases p.len(),
{
    if p.len() == 0 {
        0
    } else {
        path_duration(p.drop_last()) + p.last().duration
    }
}

/// Every member has both finish values computed, and none of them has a
/// negative slack.
pub open spec fn floats_defined(p: Seq<TaskView>) -> bool {
    forall|k: int|
        0 <= k < p.len() ==> (#[trigger] p[k]).late_finish is Some && p[k].early_finish is Some
            && p[k].early_finish->0 <= p[k].late_finish->0
}

/// Sum of the members' slacks (late finish minus early finish).
pub open spec fn path_total_float(p: Seq<TaskView>) -> int
    recommends
        floats_defined(p),
    decreases p.len(),
{
    if p.len() == 0 {
        0
    } else {
        path_total_float(p.drop_last()) + (p.last().late_finish->0 - p.last().early_finish->0)
    }
}

/// The rendering of one task in a path listing: `id(duration)->`.
pub open spec fn task_token(t: TaskView) -> Seq<char> {
    t.id + seq!['('] + dec_str(t.duration) + seq![')', '-', '>']
}

/// The rendering of a whole path: the members' tokens in order.
pub open spec fn path_render(p: Seq<TaskView>) -> Seq<char>
    decreases p.len(),
{
    if p.len() == 0 {
        Seq::empty()
    } else {
        path_render(p.drop_last()) + task_token(p.last())
    }
}

/// A partial sum of durations never exceeds the whole, as long as no
/// duration is negative.
proof fn lemma_path_duration_prefix(p: Seq<TaskView>, i: int)
    requires
        0 <= i <= p.len(),
        forall|k: int| 0 <= k < p.len() ==> (#[trigger] p[k]).duration >= 0,
    ensures
        0 <= path_duration(p.take(i)) <= path_duration(p),
    decreases p.len(),
{
    if i == p.len() {
        assert(p.take(i) =~= p);
        if p.len() > 0 {
            lemma_path_duration_prefix(p.drop_last(), i - 1);
            assert(p.drop_last().take(i - 1) =~= p.drop_last());
        }
    } else {
        lemma_path_duration_prefix(p.drop_last(), i);
        assert(p.drop_last().take(i) =~= p.take(i));
    }
}

/// A partial sum of slacks never exceeds the whole, as long as every
/// member's slack is non-negative.
proof fn lemma_path_float_prefix(p: Seq<TaskView>, i: int)
    requires
        0 <= i <= p.len(),
        floats_defined(p),
    ensures
        0 <= path_total_float(p.take(i)) <= path_total_float(p),
    decreases p.len(),
{
    if i == p.len() {
        assert(p.take(i) =~= p);
        if p.len() > 0 {
            assert(floats_defined(p.drop_last()));
            lemma_path_float_prefix(p.drop_last(), i - 1);
            assert(p.drop_last().take(i - 1) =~= p.drop_last());
        }
    } else {
        assert(floats_defined(p.drop_last()));
        lemma_path_float_prefix(p.drop_last(), i);
        assert(p.drop_last().take(i) =~= p.take(i));
    }
}

/// An ordered sequence of task snapshots: one dependency chain of the
/// graph.  A path owns copies of the tasks, never references into the
/// scheduler's own store.
#[derive(Debug)]
pub struct Path {
    tasks: Vec<CustomTask>,
}

impl View for Path {
    type V = Seq<TaskView>;

    closed spec fn view(&self) -> Seq<TaskView> {
        self.tasks@.map_values(|t: CustomTask| t@)
    }
}

impl Path {
    /// The empty path.
    pub fn new() -> (r: Self)
        ensures
            r@ == Seq::<TaskView>::empty(),
    {
        let r = Path { tasks: Vec::new() };
        assert(r@ =~= Seq::<TaskView>::empty());
        r
    }

    /// A path holding the given tasks in their given order.
    pub fn new_from_vec(_tasks: Vec<CustomTask>) -> (r: Self)
        ensures
            r@ == _tasks@.map_values(|t: CustomTask| t@),
    {
        Path { tasks: _tasks }
    }

    /// An owned copy of the path, member by member.
    pub fn duplicate(&self) -> (r: Self)
        ensures
            r@ == self@,
    {
        let mut tasks: Vec<CustomTask> = Vec::new();
        let mut i: usize = 0;
        while i < self.tasks.len()
            invariant
                i <= self.tasks@.len(),
                self@ == self.tasks@.map_values(|t: CustomTask| t@),
                tasks@.map_values(|t: CustomTask| t@) =~= self@.take(i as int),
            decreases self.tasks@.len() - i,
        {
            let ghost prev = tasks@.map_values(|t: CustomTask| t@);
            tasks.push(self.tasks[i].duplicate());
            proof {
                assert(tasks@.map_values(|t: CustomTask| t@) =~= prev.push(self@[i as int]));
                assert(self@.take(i + 1) =~= self@.take(i as int).push(self@[i as int]));
            }
            i += 1;
        }
        assert(self@.take(i as int) =~= self@);
        Path { tasks }
    }

    /// True exactly when the two paths hold the same task snapshots in
    /// the same order.
    pub(crate) fn same_as(&self, other: &Path) -> (r: bool)
        ensures
            r == (self@ == other@),
    {
        if self.tasks.len() != other.tasks.len() {
            proof {
                assert(self@.len() != other@.len());
            }
            return false;
        }
        let mut k: usize = 0;
        while k < self.tasks.len()
            invariant
                k <= self.tasks@.len(),
                self.tasks@.len() == other.tasks@.len(),
                self@ == self.tasks@.map_values(|t: CustomTask| t@),
                other@ == other.tasks@.map_values(|t: CustomTask| t@),
                forall|m: int| 0 <= m < k ==> (#[trigger] self@[m]) == other@[m],
            decreases self.tasks@.len() - k,
        {
            if !self.tasks[k].same_as(&other.tasks[k]) {
                proof {
                    assert(self@[k as int] != other@[k as int]);
                    if self@ == other@ {
                        assert(self@[k as int] == other@[k as int]);
                    }
                }
                return false;
            }
            k += 1;
        }
        proof {
            assert(self@ =~= other@);
        }
        true
    }

    /// Appends a copy of one task to the end of the path.
    pub fn add_task(&mut self, task: &CustomTask)
        ensures
            final(self)@ == old(self)@.push(task@),
    {
        self.tasks.push(task.duplicate());
        assert(final(self)@ =~= old(self)@.push(task@));
    }

    /// Appends copies of all of another path's tasks, in their order.
    pub fn join_path(&mut self, path: &Path)
        ensures
            final(self)@ == old(self)@ + path@,
    {
        let mut i: usize = 0;
        while i < path.tasks.len()
            invariant
                i <= path.tasks@.len(),
                path@ == path.tasks@.map_values(|t: CustomTask| t@),
                self@ =~= old(self)@ + path@.take(i as int),
            decreases path.tasks@.len() - i,
        {
            let ghost prev = self@;
            self.tasks.push(path.tasks[i].duplicate());
            proof {
                assert(self@ =~= prev.push(path@[i as int]));
                assert(old(self)@ + path@.take(i + 1) =~= (old(self)@ + path@.take(i as int)).push(
                    path@[i as int],
                ));
            }
            i += 1;
        }
        assert(self@ =~= old(self)@ + path@);
    }

    /// The sum of the members' slacks.  Zero marks the path as a
    /// critical-path candidate.  Fails when a member's slack is not yet
    /// computed or is negative, or when the sum leaves the machine
    /// range.
    pub fn get_total_float(&self) -> (r: Result<u64, CpmError>)
        ensures
            r is Ok <==> floats_defined(self@) && path_total_float(self@) <= u64::MAX,
            (match r {
                Result::Ok(tf) => tf as int == path_total_float(self@),
                Result::Err(e) => match e {
                    CpmError::NotCalculated(id) => exists|k: int|
                        0 <= k < self@.len() && (#[trigger] self@[k]).id == id@
                            && (self@[k].late_finish is None || self@[k].early_finish is None),
                    CpmError::NegativeFloat(id) => exists|k: int|
                        0 <= k < self@.len() && (#[trigger] self@[k]).id == id@
                            && self@[k].late_finish is Some && self@[k].early_finish is Some
                            && self@[k].late_finish->0 < self@[k].early_finish->0,
                    CpmError::ValueOutOfRange => exists|k: int|
                        0 <= k <= self@.len() && floats_defined(#[trigger] self@.take(k))
                            && path_total_float(self@.take(k)) > u64::MAX,
                    _ => false,
                },
            }),
    {
        let mut total: u64 = 0;
        let mut i: usize = 0;
        while i < self.tasks.len()
            invariant
                i <= self.tasks@.len(),
                self@ == self.tasks@.map_values(|t: CustomTask| t@),
                floats_defined(self@.take(i as int)),
                total as int == path_total_float(self@.take(i as int)),
            decreases self.tasks@.len() - i,
        {
            let tf = match self.tasks[i].get_total_float() {
                Ok(v) => v,
                Err(e) => {
                    proof {
                        assert(self@[i as int] == self.tasks@[i as int]@);
                        assert(!floats_defined(self@));
                    }
                    return Err(e);
                },
            };
            proof {
                assert(self@.take(i + 1).drop_last() =~= self@.take(i as int));
                assert(self@.take(i + 1).last() == self@[i as int]);
            }
            if total > u64::MAX - tf {
                proof {
                    assert(floats_defined(self@.take(i + 1)));
                    assert(path_total_float(self@.take(i + 1)) > u64::MAX);
                    if floats_defined(self@) {
                        lemma_path_float_prefix(self@, i + 1);
                    }
                }
                return Err(CpmError::ValueOutOfRange);
            }
            total = total + tf;
            i += 1;
        }
        proof {
            assert(self@.take(i as int) =~= self@);
        }
        Ok(total)
    }

    /// Reverses the order of the members.  Only this path changes; the
    /// scheduler's own task order is unaffected.
    pub fn reverse_tasks(&mut self)
        ensures
            final(self)@ == old(self)@.reverse(),
    {
        let n = self.tasks.len();
        let mut rev: Vec<CustomTask> = Vec::new();
        let mut i: usize = n;
        while i > 0
            invariant
                i <= n,
                n == self.tasks@.len(),
                self@ == old(self)@,
                self@ == self.tasks@.map_values(|t: CustomTask| t@),
                rev@.len() == n - i,
                forall|k: int| 0 <= k < n - i ==> (#[trigger] rev@[k])@ == self@[n - 1 - k],
            decreases i,
        {
            i -= 1;
            rev.push(self.tasks[i].duplicate());
        }
        self.tasks = rev;
        assert(final(self)@ =~= old(self)@.reverse());
    }

    /// The human-readable listing of the path: each member rendered as
    /// `id(duration)->`, in order.
    pub fn get_path_string(&self) -> (r: String)
        ensures
            r@ == path_render(self@),
    {
        let mut r = String::new();
        let mut i: usize = 0;
        while i < self.tasks.len()
            invariant
                i <= self.tasks@.len(),
                self@ == self.tasks@.map_values(|t: CustomTask| t@),
                r@ =~= path_render(self@.take(i as int)),
            decreases self.tasks@.len() - i,
        {
            let tid = self.tasks[i].get_id();
            let dur = self.tasks[i].get_duration();
            let ds = u64_to_dec_string(dur);
            r.append(tid.as_str());
            r.append("(");
            r.append(ds.as_str());
            r.append(")->");
            proof {
                reveal_strlit("(");
                reveal_strlit(")->");
                assert("("@ =~= seq!['(']);
                assert(")->"@ =~= seq![')', '-', '>']);
                assert(self@.take(i + 1).drop_last() =~= self@.take(i as int));
                assert(self@.take(i + 1).last() == self@[i as int]);
                assert(r@ =~= path_render(self@.take(i as int)) + task_token(self@[i as int]));
            }
            i += 1;
        }
        assert(self@.take(i as int) =~= self@);
        r
    }

    /// The sum of the members' durations, or an out-of-range report
    /// when it does not fit the machine integer.
    pub fn get_dur(&self) -> (r: Result<u64, CpmError>)
        ensures
            r is Ok <==> path_duration(self@) <= u64::MAX,
            (match r {
                Result::Ok(d) => d as int == path_duration(self@),
                Result::Err(e) => e is ValueOutOfRange,
            }),
    {
        proof {
            assert forall|k: int| 0 <= k < self@.len() implies (#[trigger] self@[k]).duration >= 0
                by {
                lemma_task_view_in_range(self.tasks@[k]);
                assert(self@[k] == self.tasks@[k]@);
            }
        }
        let mut total: u64 = 0;
        let mut i: usize = 0;
        while i < self.tasks.len()
            invariant
                i <= self.tasks@.len(),
                self@ == self.tasks@.map_values(|t: CustomTask| t@),
                forall|k: int| 0 <= k < self@.len() ==> (#[trigger] self@[k]).duration >= 0,
                total as int == path_duration(self@.take(i as int)),
            decreases self.tasks@.len() - i,
        {
            let d = self.tasks[i].get_duration();
            proof {
                assert(self@.take(i + 1).drop_last() =~= self@.take(i as int));
                assert(self@.take(i + 1).last() == self@[i as int]);
            }
            if total > u64::MAX - d {
                proof {
                    lemma_path_duration_prefix(self@, i + 1);
                }
                return Err(CpmError::ValueOutOfRange);
            }
            total = total + d;
            i += 1;
        }
        proof {
            assert(self@.take(i as int) =~= self@);
            lemma_path_duration_prefix(self@, self@.len() as int);
        }
        Ok(total)
    }
}
} // verus!
