//! A shared pool of large buffers: a job takes one out, fills it, and puts it back.

use vstd::prelude::*;

use crate::workloads::text::xor_seq;

verus! {

pub const THREADS: usize = 4;

pub const ROUNDS: usize = 4;

pub const BUFFERS: usize = 32;

pub const JOBS: usize = 128;

pub const BUFFER: usize = 65_536;

pub const ELEMENTS: usize = 512;

/// Buffers that no job holds.
pub struct BufferPool {
    pub free: Vec<Vec<u8>>,
}

impl BufferPool {
    /// Every buffer has the common size.
    pub open spec fn wf(self) -> bool {
        forall|i: int| 0 <= i < self.free@.len() ==> (#[trigger] self.free@[i])@.len() == BUFFER
    }

    /// A pool of zeroed buffers.
    pub fn new(buffers: usize) -> (pool: Self)
        ensures
            pool.wf(),
            pool.free@.len() == buffers,
            forall|i: int, k: int|
                0 <= i < buffers && 0 <= k < BUFFER ==> #[trigger] pool.free@[i]@[k] == 0,
    {
        let mut free: Vec<Vec<u8>> = Vec::new();
        let mut i: usize = 0;
        while i < buffers
            invariant
                i <= buffers,
                free@.len() == i,
                forall|j: int| 0 <= j < i ==> (#[trigger] free@[j])@.len() == BUFFER,
                forall|j: int, k: int|
                    0 <= j < i && 0 <= k < BUFFER ==> #[trigger] free@[j]@[k] == 0,
            decreases buffers - i,
        {
            free.push(vec![0u8; BUFFER]);
            i = i + 1;
        }
        Self { free }
    }

    /// Take the buffer that was put back last, or a fresh one when none is free.
    pub fn check_out(&mut self) -> (buffer: Vec<u8>)
        requires
            old(self).wf(),
        ensures
            final(self).wf(),
            buffer@.len() == BUFFER,
            old(self).free@.len() > 0 ==> buffer == old(self).free@.last() && final(self).free@
                == old(self).free@.drop_last(),
            old(self).free@.len() == 0 ==> final(self).free@.len() == 0 && forall|k: int|
                0 <= k < BUFFER ==> #[trigger] buffer@[k] == 0,
    {
        let ghost before = self.free@;
        match self.free.pop() {
            Some(buffer) => {
                assert(self.wf()) by {
                    assert forall|i: int| 0 <= i < self.free@.len() implies (
                    #[trigger] self.free@[i])@.len() == BUFFER by {
                        assert(self.free@[i] == before[i]);
                    }
                }
                buffer
            },
            None => vec![0u8; BUFFER],
        }
    }

    /// Put a buffer back.
    pub fn put_back(&mut self, buffer: Vec<u8>)
        requires
            old(self).wf(),
            buffer@.len() == BUFFER,
        ensures
            final(self).wf(),
            final(self).free@ == old(self).free@.push(buffer),
    {
        self.free.push(buffer);
    }
}

/// The byte that a job fills its buffer with.
pub open spec fn fill_byte(job: int, worker: int, round: int) -> int {
    (job + worker + round) % 256
}

/// What a job adds to the checksum: both ends of its buffer, and its number.
pub open spec fn job_value(job: usize, worker: int, round: int) -> usize {
    let fill = fill_byte(job as int, worker, round) as usize;
    (fill ^ fill) ^ job
}

/// Fill a buffer for a job.
pub fn fill_job(buffer: &mut Vec<u8>, job: usize, worker: usize, round: usize) -> (local: usize)
    requires
        old(buffer)@.len() == BUFFER,
        job + worker + round <= usize::MAX,
    ensures
        final(buffer)@.len() == BUFFER,
        forall|k: int|
            0 <= k < BUFFER ==> #[trigger] final(buffer)@[k] == fill_byte(
                job as int,
                worker as int,
                round as int,
            ),
        local == job_value(job, worker as int, round as int),
{
    let fill: u8 = ((job + worker + round) % 256) as u8;
    let mut k: usize = 0;
    while k < BUFFER
        invariant
            k <= BUFFER,
            buffer@.len() == BUFFER,
            forall|j: int| 0 <= j < k ==> #[trigger] buffer@[j] == fill,
        decreases BUFFER - k,
    {
        buffer.set(k, fill);
        k = k + 1;
    }
    (buffer[0] as usize ^ buffer[BUFFER - 1] as usize) ^ job
}

/// Which worker runs a job, and in which round, does not matter for what it adds.
pub proof fn law_worker_does_not_matter(job: usize, worker: int, round: int)
    ensures
        job_value(job, worker, round) == job,
{
    let fill = fill_byte(job as int, worker, round) as usize;
    assert((fill ^ fill) ^ job == job) by (bit_vector);
}

/// Run a job on a buffer of the pool.
pub fn run_job(pool: &mut BufferPool, job: usize, worker: usize, round: usize) -> (local: usize)
    requires
        old(pool).wf(),
        job + worker + round <= usize::MAX,
    ensures
        final(pool).wf(),
        final(pool).free@.len() == if old(pool).free@.len() == 0 {
            1
        } else {
            old(pool).free@.len()
        },
        local == job,
{
    let mut buffer = pool.check_out();
    let local: usize = fill_job(&mut buffer, job, worker, round);
    proof {
        law_worker_does_not_matter(job, worker as int, round as int);
    }
    pool.put_back(buffer);
    local
}

/// The checksum of one round.
pub open spec fn round_value() -> usize {
    xor_seq(Seq::new(JOBS as nat, |job: int| job as usize))
}

fn pool_round(pool: &mut BufferPool, round: usize) -> (folded: usize)
    requires
        old(pool).wf(),
        round < ROUNDS,
    ensures
        final(pool).wf(),
        folded == round_value(),
{
    let mut folded: usize = 0;
    let mut job: usize = 0;
    let ghost value = |job: int| job as usize;
    assert(Seq::new(0, value) =~= Seq::<usize>::empty());
    while job < JOBS
        invariant
            job <= JOBS,
            round < ROUNDS,
            pool.wf(),
            value == |job: int| job as usize,
            folded == xor_seq(Seq::new(job as nat, value)),
        decreases JOBS - job,
    {
        folded = folded ^ run_job(pool, job, job % THREADS, round);
        job = job + 1;
        assert(Seq::new(job as nat, value).drop_last() =~= Seq::new((job - 1) as nat, value));
    }
    folded
}

/// `checksum` is one that the workload may return.
pub open spec fn is_checksum(checksum: usize) -> bool {
    checksum == xor_seq(Seq::new(ROUNDS as nat, |round: int| round_value()))
}

/// The checksum, with the jobs run one after the other.
pub fn run() -> (checksum: usize)
    ensures
        is_checksum(checksum),
{
    let mut pool = BufferPool::new(BUFFERS);
    let mut checksum: usize = 0;
    let mut round: usize = 0;
    let ghost value = |round: int| round_value();
    assert(Seq::new(0, value) =~= Seq::<usize>::empty());
    while round < ROUNDS
        invariant
            round <= ROUNDS,
            pool.wf(),
            value == |round: int| round_value(),
            checksum == xor_seq(Seq::new(round as nat, value)),
        decreases ROUNDS - round,
    {
        checksum = checksum ^ pool_round(&mut pool, round);
        round = round + 1;
        assert(Seq::new(round as nat, value).drop_last() =~= Seq::new((round - 1) as nat, value));
    }
    checksum
}

} // verus!
