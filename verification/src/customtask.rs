use vstd::prelude::*;

use crate::errors::CpmError;

verus! {

/// Mathematical image of a task: the identifier and dependency names as
/// character sequences, the duration and the four timestamps as
/// unbounded integers.
#[verifier::ext_equal]
pub ghost struct TaskView {
    pub id: Seq<char>,
    pub duration: int,
    pub early_start: Option<int>,
    pub early_finish: Option<int>,
    pub late_start: Option<int>,
    pub late_finish: Option<int>,
    pub dependencies: Seq<Seq<char>>,
}

/// Widens an optional machine integer to an optional mathematical one.
pub open spec fn opt_int(o: Option<u64>) -> Option<int> {
    match o {
        Option::Some(v) => Option::Some(v as int),
        Option::None => Option::None,
    }
}

impl TaskView {
    /// The static part of a task: what the caller fixed at construction,
    /// as opposed to the timestamps the scheduler computes.
    pub open spec fn same_structure(self, other: TaskView) -> bool {
        &&& self.id == other.id
        &&& self.duration == other.duration
        &&& self.dependencies == other.dependencies
    }
}

/// All numbers of the view fit the machine-integer range the executable
/// fields are stored in.
pub open spec fn task_in_range(tv: TaskView) -> bool {
    &&& 0 <= tv.duration <= u64::MAX
    &&& tv.early_start is Some ==> 0 <= tv.early_start->0 <= u64::MAX
    &&& tv.early_finish is Some ==> 0 <= tv.early_finish->0 <= u64::MAX
    &&& tv.late_start is Some ==> 0 <= tv.late_start->0 <= u64::MAX
    &&& tv.late_finish is Some ==> 0 <= tv.late_finish->0 <= u64::MAX
}

/// A node of the task graph: an identifier, a duration, the identifiers
/// of the tasks it depends on, and four timestamps that the scheduler
/// fills in during propagation.
#[derive(Debug)]
pub struct CustomTask {
    id: String,
    duration: u64,
    early_start: Option<u64>,
    early_finish: Option<u64>,
    late_start: Option<u64>,
    late_finish: Option<u64>,
    dependencies: Vec<String>,
}

impl View for CustomTask {
    type V = TaskView;

    closed spec fn view(&self) -> TaskView {
        TaskView {
            id: self.id@,
            duration: self.duration as int,
            early_start: opt_int(self.early_start),
            early_finish: opt_int(self.early_finish),
            late_start: opt_int(self.late_start),
            late_finish: opt_int(self.late_finish),
            dependencies: self.dependencies@.map_values(|d: String| d@),
        }
    }
}

/// The view of a task always fits the range of its machine fields.
pub broadcast proof fn lemma_task_view_in_range(t: CustomTask)
    ensures
        task_in_range(#[trigger] t@),
{
}

impl CustomTask {
    /// Builds a task with its duration and dependency names fixed; the
    /// four timestamps start out absent.
    pub fn new(_id: String, _duration: u64, _dependencies: Vec<String>) -> (r: Self)
        ensures
            r@.id == _id@,
            r@.duration == _duration as int,
            r@.dependencies == _dependencies@.map_values(|d: String| d@),
            r@.early_start is None,
            r@.early_finish is None,
            r@.late_start is None,
            r@.late_finish is None,
    {
        CustomTask {
            id: _id,
            duration: _duration,
            dependencies: _dependencies,
            early_start: None,
            early_finish: None,
            late_start: None,
            late_finish: None,
        }
    }

    /// An owned copy, timestamps included.
    pub fn duplicate(&self) -> (r: Self)
        ensures
            r@ == self@,
    {
        let r = CustomTask {
            id: self.id.clone(),
            duration: self.duration,
            early_start: self.early_start,
            early_finish: self.early_finish,
            late_start: self.late_start,
            late_finish: self.late_finish,
            dependencies: clone_string_vec(&self.dependencies),
        };
        assert(r@ =~= self@);
        r
    }

    pub fn get_id(&self) -> (r: String)
        ensures
            r@ == self@.id,
    {
        self.id.clone()
    }

    pub fn get_duration(&self) -> (r: u64)
        ensures
            r as int == self@.duration,
    {
        self.duration
    }

    pub fn set_duration(&mut self, dur: u64)
        ensures
            final(self)@ == (TaskView { duration: dur as int, ..old(self)@ }),
    {
        self.duration = dur;
        assert(final(self)@ =~= (TaskView { duration: dur as int, ..old(self)@ }));
    }

    pub fn get_dependencies(&self) -> (r: Vec<String>)
        ensures
            r@.map_values(|d: String| d@) == self@.dependencies,
    {
        clone_string_vec(&self.dependencies)
    }

    pub fn add_dependency(&mut self, _dependency: String)
        ensures
            final(self)@ == (TaskView {
                dependencies: old(self)@.dependencies.push(_dependency@),
                ..old(self)@
            }),
    {
        self.dependencies.push(_dependency);
        assert(final(self)@.dependencies =~= old(self)@.dependencies.push(_dependency@));
        assert(final(self)@ =~= (TaskView {
            dependencies: old(self)@.dependencies.push(_dependency@),
            ..old(self)@
        }));
    }

    pub fn add_dependencies(&mut self, _dependencies: &mut Vec<String>)
        ensures
            final(self)@ == (TaskView {
                dependencies: old(self)@.dependencies
                    + old(_dependencies)@.map_values(|d: String| d@),
                ..old(self)@
            }),
            final(_dependencies)@.len() == 0,
    {
        self.dependencies.append(_dependencies);
        assert(final(self)@.dependencies =~= old(self)@.dependencies
            + old(_dependencies)@.map_values(|d: String| d@));
        assert(final(self)@ =~= (TaskView {
            dependencies: old(self)@.dependencies
                + old(_dependencies)@.map_values(|d: String| d@),
            ..old(self)@
        }));
    }

    pub fn set_dependencies(&mut self, _dependencies: Vec<String>)
        ensures
            final(self)@ == (TaskView {
                dependencies: _dependencies@.map_values(|d: String| d@),
                ..old(self)@
            }),
    {
        let ghost new_deps = _dependencies@.map_values(|d: String| d@);
        self.dependencies = _dependencies;
        assert(final(self)@ =~= (TaskView { dependencies: new_deps, ..old(self)@ }));
    }

    pub fn get_early_start(&self) -> (r: Option<u64>)
        ensures
            opt_int(r) == self@.early_start,
    {
        self.early_start
    }

    /// A `u64` is never negative, so the guard against negative early
    /// starts has nothing to reject: the call always succeeds.
    pub fn set_early_start(&mut self, es: u64) -> (r: Result<(), CpmError>)
        ensures
            r is Ok,
            final(self)@ == (TaskView { early_start: Some(es as int), ..old(self)@ }),
    {
        self.early_start = Some(es);
        assert(final(self)@ =~= (TaskView { early_start: Some(es as int), ..old(self)@ }));
        Ok(())
    }

    pub fn get_early_finish(&self) -> (r: Option<u64>)
        ensures
            opt_int(r) == self@.early_finish,
    {
        self.early_finish
    }

    /// Always succeeds: an unsigned early finish cannot be out of range.
    pub fn set_early_finish(&mut self, ef: u64) -> (r: Result<(), CpmError>)
        ensures
            r is Ok,
            final(self)@ == (TaskView { early_finish: Some(ef as int), ..old(self)@ }),
    {
        self.early_finish = Some(ef);
        assert(final(self)@ =~= (TaskView { early_finish: Some(ef as int), ..old(self)@ }));
        Ok(())
    }

    pub fn get_late_start(&self) -> (r: Option<u64>)
        ensures
            opt_int(r) == self@.late_start,
    {
        self.late_start
    }

    /// Always succeeds: an unsigned late start cannot be out of range.
    pub fn set_late_start(&mut self, ls: u64) -> (r: Result<(), CpmError>)
        ensures
            r is Ok,
            final(self)@ == (TaskView { late_start: Some(ls as int), ..old(self)@ }),
    {
        self.late_start = Some(ls);
        assert(final(self)@ =~= (TaskView { late_start: Some(ls as int), ..old(self)@ }));
        Ok(())
    }

    pub fn get_late_finish(&self) -> (r: Option<u64>)
        ensures
            opt_int(r) == self@.late_finish,
    {
        self.late_finish
    }

    /// The late finish must be strictly positive; zero is rejected and
    /// the task is left unchanged.
    pub fn set_late_finish(&mut self, lf: u64) -> (r: Result<(), CpmError>)
        ensures
            lf > 0 ==> r is Ok
                && final(self)@ == (TaskView { late_finish: Some(lf as int), ..old(self)@ }),
            lf == 0 ==> r == Result::<(), CpmError>::Err(CpmError::ValueOutOfRange)
                && final(self)@ == old(self)@,
    {
        if lf > 0 {
            self.late_finish = Some(lf);
            assert(final(self)@ =~= (TaskView { late_finish: Some(lf as int), ..old(self)@ }));
            Ok(())
        } else {
            Err(CpmError::ValueOutOfRange)
        }
    }

    /// The slack of the task: late finish minus early finish.  Fails
    /// while either finish is still uncomputed, and reports an
    /// inconsistent propagation when the difference would be negative.
    pub fn get_total_float(&self) -> (r: Result<u64, CpmError>)
        ensures
            (match r {
                Result::Ok(tf) => {
                    &&& self@.late_finish is Some
                    &&& self@.early_finish is Some
                    &&& self@.late_finish.unwrap() - self@.early_finish.unwrap() == tf as int
                },
                Result::Err(e) => {
                    match e {
                        CpmError::NotCalculated(id) => {
                            &&& id@ == self@.id
                            &&& (self@.late_finish is None || self@.early_finish is None)
                        },
                        CpmError::NegativeFloat(id) => {
                            &&& id@ == self@.id
                            &&& self@.late_finish is Some
                            &&& self@.early_finish is Some
                            &&& self@.late_finish.unwrap() < self@.early_finish.unwrap()
                        },
                        _ => false,
                    }
                },
            }),
    {
        let lf: u64;
        let ef: u64;
        match self.late_finish {
            None => {
                return Err(CpmError::NotCalculated(self.id.clone()));
            },
            Some(v) => {
                lf = v;
            },
        };
        match self.early_finish {
            None => {
                return Err(CpmError::NotCalculated(self.id.clone()));
            },
            Some(v) => {
                ef = v;
            },
        };
        if lf < ef {
            return Err(CpmError::NegativeFloat(self.id.clone()));
        }
        Ok(lf - ef)
    }
}

impl CustomTask {
    /// True exactly when the two tasks read the same in every field.
    pub(crate) fn same_as(&self, other: &CustomTask) -> (r: bool)
        ensures
            r == (self@ == other@),
    {
        let ghost av = self@;
        let ghost bv = other@;
        let ida = self.get_id();
        let idb = other.get_id();
        if !ida.eq(&idb) {
            proof {
                if av == bv {
                    assert(av.id == bv.id);
                }
            }
            return false;
        }
        if self.get_duration() != other.get_duration() {
            return false;
        }
        if self.get_early_start() != other.get_early_start() {
            return false;
        }
        if self.get_early_finish() != other.get_early_finish() {
            return false;
        }
        if self.get_late_start() != other.get_late_start() {
            return false;
        }
        if self.get_late_finish() != other.get_late_finish() {
            return false;
        }
        let da = self.get_dependencies();
        let db = other.get_dependencies();
        if da.len() != db.len() {
            proof {
                assert(av.dependencies.len() != bv.dependencies.len());
            }
            return false;
        }
        let mut k: usize = 0;
        while k < da.len()
            invariant
                k <= da@.len(),
                da@.len() == db@.len(),
                av == self@,
                bv == other@,
                av.dependencies == da@.map_values(|d: String| d@),
                bv.dependencies == db@.map_values(|d: String| d@),
                forall|m: int| 0 <= m < k ==> (#[trigger] da@[m])@ == db@[m]@,
            decreases da@.len() - k,
        {
            if !da[k].eq(&db[k]) {
                proof {
                    assert(av.dependencies[k as int] == da@[k as int]@);
                    assert(bv.dependencies[k as int] == db@[k as int]@);
                    if av == bv {
                        assert(av.dependencies[k as int] == bv.dependencies[k as int]);
                    }
                }
                return false;
            }
            k += 1;
        }
        proof {
            assert(av.dependencies =~= bv.dependencies);
            assert(av =~= bv);
        }
        true
    }
}

/// An elementwise copy of a vector of strings.
fn clone_string_vec(v: &Vec<String>) -> (r: Vec<String>)
    ensures
        r@.map_values(|d: String| d@) == v@.map_values(|d: String| d@),
        r@.len() == v@.len(),
{
    let mut r: Vec<String> = Vec::new();
    let mut i: usize = 0;
    while i < v.len()
        invariant
            i <= v.len(),
            r@.len() == i,
            forall|k: int| 0 <= k < i ==> r@[k]@ == v@[k]@,
        decreases v.len() - i,
    {
        r.push(v[i].clone());
        i += 1;
    }
    assert(r@.map_values(|d: String| d@) =~= v@.map_values(|d: String| d@));
    r
}

} // verus!
