use vstd::prelude::*;

use crate::StoreError;

verus! {

/// The outcome state of a background job.
#[derive(PartialEq, Eq, Structural, Clone, Copy, Debug)]
pub enum JobState {
    Running,
    Succeed,
    Failed,
}

impl JobState {
    /// The stored numeric code of the state.
    pub open spec fn spec_code(self) -> i64 {
        match self {
            JobState::Running => 0,
            JobState::Succeed => 1,
            JobState::Failed => 2,
        }
    }

    /// The stored numeric code of the state.
    pub fn code(self) -> (r: i64)
        ensures
            r == self.spec_code(),
    {
        match self {
            JobState::Running => 0,
            JobState::Succeed => 1,
            JobState::Failed => 2,
        }
    }
}

/// One recorded background operation.
pub struct Job {
    pub id: i64,
    pub title: String,
    pub desc: String,
    pub state: i64,
    pub started_at: i64,
    pub stopped_at: Option<i64>,
}

/// The mathematical image of a `Job`.
pub struct JobModel {
    pub id: int,
    pub title: Seq<char>,
    pub desc: Seq<char>,
    pub state: int,
    pub started_at: int,
    pub stopped_at: Option<int>,
}

impl View for Job {
    type V = JobModel;

    open spec fn view(&self) -> JobModel {
        JobModel {
            id: self.id as int,
            title: self.title@,
            desc: self.desc@,
            state: self.state as int,
            started_at: self.started_at as int,
            stopped_at: match self.stopped_at {
                Some(t) => Some(t as int),
                None => None,
            },
        }
    }
}

/// The job ledger: every background operation ever recorded, newest last.
pub struct JobLedger {
    jobs: Vec<Job>,
    next_id: i64,
}

/// The mathematical image of the ledger.
pub struct JobLedgerModel {
    pub jobs: Seq<JobModel>,
    pub next_id: int,
}

impl View for JobLedger {
    type V = JobLedgerModel;

    closed spec fn view(&self) -> JobLedgerModel {
        JobLedgerModel { jobs: self.jobs@.map_values(|j: Job| j@), next_id: self.next_id as int }
    }
}

/// Ids are positive, below the fresh id, and distinct.
pub open spec fn ledger_wf(m: JobLedgerModel) -> bool {
    &&& 1 <= m.next_id
    &&& forall|i: int| 0 <= i < m.jobs.len() ==> 1 <= (#[trigger] m.jobs[i]).id < m.next_id
    &&& forall|i: int, j: int|
        0 <= i < j < m.jobs.len() ==> (#[trigger] m.jobs[i]).id != (#[trigger] m.jobs[j]).id
}

/// Index of the job with `id`, or -1.
pub open spec fn job_idx(jobs: Seq<JobModel>, id: int) -> int
    decreases jobs.len(),
{
    if jobs.len() == 0 {
        -1
    } else if jobs[0].id == id {
        0
    } else {
        let r = job_idx(jobs.drop_first(), id);
        if r == -1 {
            -1
        } else {
            r + 1
        }
    }
}

proof fn lemma_job_idx_found(jobs: Seq<JobModel>, id: int, i: int)
    requires
        0 <= i < jobs.len(),
        jobs[i].id == id,
        forall|k: int| 0 <= k < i ==> (#[trigger] jobs[k]).id != id,
    ensures
        job_idx(jobs, id) == i,
    decreases i,
{
    if i > 0 {
        let t = jobs.drop_first();
        assert forall|k: int| 0 <= k < i - 1 implies (#[trigger] t[k]).id != id by {
            assert(t[k] == jobs[k + 1]);
        }
        assert(t[i - 1] == jobs[i]);
        lemma_job_idx_found(t, id, i - 1);
    }
}

proof fn lemma_job_idx_absent(jobs: Seq<JobModel>, id: int)
    requires
        forall|k: int| 0 <= k < jobs.len() ==> (#[trigger] jobs[k]).id != id,
    ensures
        job_idx(jobs, id) == -1,
    decreases jobs.len(),
{
    if jobs.len() > 0 {
        let t = jobs.drop_first();
        assert forall|k: int| 0 <= k < t.len() implies (#[trigger] t[k]).id != id by {
            assert(t[k] == jobs[k + 1]);
        }
        lemma_job_idx_absent(t, id);
    }
}

impl JobLedger {
    /// The ledger invariant, stated over the view.
    pub open spec fn wf(&self) -> bool {
        ledger_wf(self@)
    }

    /// An empty ledger.
    pub fn new() -> (r: JobLedger)
        ensures
            r.wf(),
            r@.jobs == Seq::<JobModel>::empty(),
            r@.next_id == 1,
    {
        let r = JobLedger { jobs: Vec::new(), next_id: 1 };
        proof {
            assert(r@.jobs =~= Seq::<JobModel>::empty());
        }
        r
    }

    /// Records the start of a background operation as a running job and
    /// reports its id; fails only when the id space is spent.
    pub fn add_job(&mut self, title: &str, desc: &str, started_at: i64) -> (r: Result<
        i64,
        StoreError,
    >)
        requires
            old(self).wf(),
        ensures
            final(self).wf(),
            match r {
                Ok(id) => {
                    &&& old(self)@.next_id < i64::MAX
                    &&& id == old(self)@.next_id
                    &&& final(self)@.next_id == old(self)@.next_id + 1
                    &&& final(self)@.jobs == old(self)@.jobs.push(
                        JobModel {
                            id: id as int,
                            title: title@,
                            desc: desc@,
                            state: JobState::Running.spec_code() as int,
                            started_at: started_at as int,
                            stopped_at: None,
                        },
                    )
                },
                Err(e) => e == StoreError::CapacityExhausted && old(self)@.next_id == i64::MAX
                    && final(self)@ == old(self)@,
            },
    {
        let ghost m0 = self@;
        if self.next_id == i64::MAX {
            return Err(StoreError::CapacityExhausted);
        }
        let id = self.next_id;
        self.jobs.push(
            Job {
                id,
                title: title.to_owned(),
                desc: desc.to_owned(),
                state: JobState::Running.code(),
                started_at,
                stopped_at: None,
            },
        );
        self.next_id = id + 1;
        proof {
            assert(self@.jobs =~= m0.jobs.push(
                JobModel {
                    id: id as int,
                    title: title@,
                    desc: desc@,
                    state: JobState::Running.spec_code() as int,
                    started_at: started_at as int,
                    stopped_at: None,
                },
            ));
            let js = self@.jobs;
            let n = m0.jobs.len() as int;
            assert forall|k: int| 0 <= k < js.len() implies 1 <= (#[trigger] js[k]).id
                < self@.next_id by {
                if k < n {
                    assert(js[k] == m0.jobs[k]);
                }
            }
            assert forall|a: int, b: int| 0 <= a < b < js.len() implies (#[trigger] js[a]).id != (
            #[trigger] js[b]).id by {
                if b == n {
                    assert(js[a].id == m0.jobs[a].id < m0.next_id);
                }
            }
        }
        Ok(id)
    }

    /// Records the completion of a job: its description, outcome state and
    /// stop time are set.  Fails with `NotFound` if and only if no job has
    /// the given id.
    pub fn update_job(&mut self, id: i64, desc: &str, state: JobState, now: i64) -> (r: Result<
        (),
        StoreError,
    >)
        requires
            old(self).wf(),
        ensures
            final(self).wf(),
            final(self)@.next_id == old(self)@.next_id,
            match r {
                Ok(()) => {
                    let j = job_idx(old(self)@.jobs, id as int);
                    j >= 0 && final(self)@.jobs == old(self)@.jobs.update(
                        j,
                        JobModel {
                            desc: desc@,
                            state: state.spec_code() as int,
                            stopped_at: Some(now as int),
                            ..old(self)@.jobs[j]
                        },
                    )
                },
                Err(e) => e == StoreError::NotFound && job_idx(old(self)@.jobs, id as int) == -1
                    && final(self)@ == old(self)@,
            },
    {
        let ghost m0 = self@;
        let n = self.jobs.len();
        let mut i: usize = 0;
        while i < n
            invariant
                i <= n,
                n == self@.jobs.len(),
                self@ == m0,
                m0 == old(self)@,
                ledger_wf(m0),
                forall|k: int| 0 <= k < i ==> (#[trigger] m0.jobs[k]).id != id,
            decreases n - i,
        {
            if self.jobs[i].id == id {
                let row = &mut self.jobs[i];
                row.desc = desc.to_owned();
                row.state = state.code();
                row.stopped_at = Some(now);
                proof {
                    lemma_job_idx_found(m0.jobs, id as int, i as int);
                    assert(self@.jobs =~= m0.jobs.update(
                        i as int,
                        JobModel {
                            desc: desc@,
                            state: state.spec_code() as int,
                            stopped_at: Some(now as int),
                            ..m0.jobs[i as int]
                        },
                    ));
                    let js = self@.jobs;
                    assert forall|k: int| 0 <= k < js.len() implies (#[trigger] js[k]).id
                        == m0.jobs[k].id by {
                        if k != i {
                            assert(js[k] == m0.jobs[k]);
                        }
                    }
                    assert(ledger_wf(self@));
                }
                return Ok(());
            }
            i = i + 1;
        }
        proof {
            lemma_job_idx_absent(m0.jobs, id as int);
        }
        Err(StoreError::NotFound)
    }

    /// A page of the ledger, newest first (jobs are recorded in the order
    /// their operations started), together with the total number of jobs.
    pub fn get(&self, limit: i64, offset: i64) -> (r: (Vec<Job>, i64))
        requires
            limit >= 0,
            offset >= 0,
        ensures
            ({
                let rev = self@.jobs.reverse();
                let st = if offset as int > rev.len() {
                    rev.len() as int
                } else {
                    offset as int
                };
                let en = if st + limit > rev.len() {
                    rev.len() as int
                } else {
                    st + limit
                };
                r.0@.map_values(|j: Job| j@) == rev.subrange(st, en)
            }),
            r.1 == if self@.jobs.len() <= i64::MAX {
                self@.jobs.len() as int
            } else {
                i64::MAX as int
            },
    {
        let n = self.jobs.len();
        let st: usize = if offset as u64 >= n as u64 {
            n
        } else {
            offset as usize
        };
        let remaining = n - st;
        let cnt: usize = if limit as u64 >= remaining as u64 {
            remaining
        } else {
            limit as usize
        };
        let mut out: Vec<Job> = Vec::new();
        let mut k: usize = 0;
        while k < cnt
            invariant
                k <= cnt,
                st + cnt <= n,
                n == self@.jobs.len(),
                out@.map_values(|j: Job| j@) == self@.jobs.reverse().subrange(
                    st as int,
                    st + k as int,
                ),
            decreases cnt - k,
        {
            let idx = n - 1 - st - k;
            let j = &self.jobs[idx];
            out.push(
                Job {
                    id: j.id,
                    title: j.title.clone(),
                    desc: j.desc.clone(),
                    state: j.state,
                    started_at: j.started_at,
                    stopped_at: j.stopped_at,
                },
            );
            proof {
                assert(self@.jobs.reverse()[st + k as int] == self@.jobs[idx as int]);
                assert(out@.map_values(|j2: Job| j2@) =~= self@.jobs.reverse().subrange(
                    st as int,
                    st + k as int,
                ).push(self@.jobs[idx as int]));
                assert(self@.jobs.reverse().subrange(st as int, st + (k + 1) as int)
                    =~= self@.jobs.reverse().subrange(st as int, st + k as int).push(
                    self@.jobs.reverse()[st + k as int],
                ));
            }
            k = k + 1;
        }
        let total: i64 = if n as u64 <= i64::MAX as u64 {
            n as i64
        } else {
            i64::MAX
        };
        proof {
            assert(out@.map_values(|j: Job| j@) == self@.jobs.reverse().subrange(
                st as int,
                st + cnt as int,
            ));
        }
        (out, total)
    }

    /// Removes every finished job (one with a stop time) and reports how
    /// many were removed; running jobs stay.
    pub fn clean(&mut self) -> (deleted: u64)
        requires
            old(self).wf(),
        ensures
            final(self).wf(),
            final(self)@.jobs == old(self)@.jobs.filter(|j: JobModel| j.stopped_at is None),
            final(self)@.next_id == old(self)@.next_id,
            deleted == old(self)@.jobs.len() - final(self)@.jobs.len(),
    {
        let ghost m0 = self@;
        let n = self.jobs.len();
        let mut kept: Vec<Job> = Vec::new();
        let ghost mut kept_src: Seq<int> = Seq::empty();
        let mut i: usize = 0;
        proof {
            assert(m0.jobs.take(0).filter(|j: JobModel| j.stopped_at is None) =~= Seq::<
                JobModel,
            >::empty()) by {
                reveal(Seq::filter);
            }
            assert(kept@.map_values(|j: Job| j@) =~= Seq::<JobModel>::empty());
        }
        while i < n
            invariant
                i <= n,
                n == self@.jobs.len(),
                self@ == m0,
                ledger_wf(m0),
                kept@.map_values(|j: Job| j@) == m0.jobs.take(i as int).filter(
                    |j: JobModel| j.stopped_at is None,
                ),
                kept_src.len() == kept@.len(),
                forall|k: int|
                    0 <= k < kept_src.len() ==> 0 <= #[trigger] kept_src[k] < i && kept@.map_values(
                        |j: Job| j@,
                    )[k] == m0.jobs[kept_src[k]],
                forall|a: int, b: int| 0 <= a < b < kept_src.len() ==> kept_src[a] < kept_src[b],
            decreases n - i,
        {
            let keep = self.jobs[i].stopped_at.is_none();
            let ghost km0 = kept@.map_values(|j: Job| j@);
            if keep {
                let j = &self.jobs[i];
                kept.push(
                    Job {
                        id: j.id,
                        title: j.title.clone(),
                        desc: j.desc.clone(),
                        state: j.state,
                        started_at: j.started_at,
                        stopped_at: j.stopped_at,
                    },
                );
                proof {
                    kept_src = kept_src.push(i as int);
                    assert(kept@.map_values(|j2: Job| j2@) =~= km0.push(m0.jobs[i as int]));
                }
            }
            proof {
                assert(m0.jobs.take(i + 1 as int).drop_last() =~= m0.jobs.take(i as int));
                assert(m0.jobs.take(i + 1 as int).last() == m0.jobs[i as int]);
                reveal(Seq::filter);
            }
            i = i + 1;
        }
        let old_len = self.jobs.len();
        let new_len = kept.len();
        self.jobs = kept;
        proof {
            assert(m0.jobs.take(n as int) =~= m0.jobs);
            let js = self@.jobs;
            assert forall|k: int| 0 <= k < js.len() implies 1 <= (#[trigger] js[k]).id
                < self@.next_id by {
                assert(js[k] == m0.jobs[kept_src[k]]);
            }
            assert forall|a: int, b: int| 0 <= a < b < js.len() implies (#[trigger] js[a]).id != (
            #[trigger] js[b]).id by {
                assert(js[a] == m0.jobs[kept_src[a]]);
                assert(js[b] == m0.jobs[kept_src[b]]);
            }
            assert(ledger_wf(self@));
        }
        (old_len - new_len) as u64
    }
}

} // verus!
