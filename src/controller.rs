use vstd::prelude::*;

use crate::bootloader::{bootloader_input, build_bootloader_input, lemma_page_in_range, NUM_PAGES};
use crate::memory::{
    is_sorted_by_idx, lemma_pages_unique, page_of, select_pages, selected_pages, snapshot_merged, sorted_by_idx,
    strictly_ascending, window_pages, MemoryAccess, MemorySnapshot,
};
use crate::trace::{
    agrees, is_first_match, columns_wf, first_match, has_match, in_reference, is_fault, last_row, lemma_first_match,
    rows_len, validate_chunk, IntegrityFault, TransposedTrace,
};

verus! {

/// What the controller does after accepting a chunk.
#[derive(Clone, Copy, Debug, PartialEq, Eq, Structural)]
pub enum StepOutcome {
    /// The chunk was full: run the next one with the new bootloader input.
    Continue,
    /// The execution ended inside the chunk.
    Done,
}

/// Why a continuation run halts.
#[derive(Clone, Copy, Debug, PartialEq, Eq, Structural)]
pub enum ContinuationError {
    /// The run's parameters are inconsistent.
    InvalidSetup,
    /// A chunk's columns differ in length, or its register set is not the
    /// reference's.
    MalformedTrace,
    /// A chunk has more rows than the row budget.
    ChunkTooLong { len: usize, num_rows: usize },
    /// The first chunk never reaches the bootloader's initial program counter.
    BootloaderPcNotFound,
    /// The chunk diverges from the reference execution.
    Integrity(IntegrityFault),
}

/// Rows a circuit of `degree` rows offers to the executor: two rows go to
/// the dispatcher. At least two rows are needed for the chunks to advance.
pub fn row_budget(degree: u64) -> (r: Option<usize>)
    ensures
        r matches Some(n) <==> degree >= 4 && degree - 2 <= usize::MAX,
        r matches Some(n) ==> n == degree - 2,
{
    if degree < 4 || degree - 2 > usize::MAX as u64 {
        None
    } else {
        Some((degree - 2) as usize)
    }
}

/// The mathematical state of a continuation run.
pub struct ContinuationView {
    pub full: Seq<Seq<u64>>,
    pub accesses: Seq<MemoryAccess>,
    pub num_rows: nat,
    pub pc_index: nat,
    pub chunk_index: nat,
    pub proven_trace: nat,
    pub input: Seq<u64>,
    pub snapshot: Map<u32, u64>,
}

/// The state of a run between chunks.
pub open spec fn view_wf(v: ContinuationView) -> bool {
    &&& columns_wf(v.full)
    &&& v.pc_index < v.full.len()
    &&& sorted_by_idx(v.accesses)
    &&& v.num_rows >= 2
    &&& v.pc_index < v.input.len()
    &&& v.proven_trace <= rows_len(v.full)
    &&& v.chunk_index <= v.proven_trace
    &&& (v.chunk_index == 0 <==> v.proven_trace == 0)
}

/// The chunk row from which the comparison starts: in the first chunk, the
/// row where the program counter first reaches the bootloader's initial one;
/// in later chunks, the first row.
pub open spec fn chunk_start(v: ContinuationView, chunk: Seq<Seq<u64>>) -> int {
    if v.chunk_index == 0 {
        first_match(chunk[v.pc_index as int], v.input[v.pc_index as int])
    } else {
        0
    }
}

/// The reference row compared with the chunk's `chunk_start` row: the same
/// row in the first chunk; the last proved row in later chunks.
pub open spec fn reference_start(v: ContinuationView, chunk: Seq<Seq<u64>>) -> int {
    if v.chunk_index == 0 {
        chunk_start(v, chunk)
    } else {
        v.proven_trace - 1
    }
}

/// Rows that a full chunk adds to the proved part of the reference.
pub open spec fn new_rows(v: ContinuationView) -> nat {
    if v.chunk_index == 0 {
        v.num_rows
    } else {
        (v.num_rows - 1) as nat
    }
}

/// Only the snapshot moved.
pub open spec fn keeps_progress(o: ContinuationView, n: ContinuationView) -> bool {
    &&& n.chunk_index == o.chunk_index
    &&& n.proven_trace == o.proven_trace
    &&& n.input == o.input
}

/// One step of the run: `o` is the state before, `chunk` and `updates` what
/// the executor returned for it, `n` the state after and `r` the result.
pub open spec fn step_spec(
    o: ContinuationView,
    chunk: Seq<Seq<u64>>,
    updates: Seq<(u32, u64)>,
    n: ContinuationView,
    r: Result<StepOutcome, ContinuationError>,
) -> bool {
    let pc = o.pc_index as int;
    let len = rows_len(chunk);
    let start = chunk_start(o, chunk);
    let fs = reference_start(o, chunk);
    &&& snapshot_merged(o.snapshot, updates, n.snapshot)
    &&& n.full == o.full
    &&& n.accesses == o.accesses
    &&& n.num_rows == o.num_rows
    &&& n.pc_index == o.pc_index
    &&& if !(columns_wf(chunk) && chunk.len() == o.full.len()) {
        r == Err::<StepOutcome, ContinuationError>(ContinuationError::MalformedTrace) && keeps_progress(o, n)
    } else if len > o.num_rows {
        r == Err::<StepOutcome, ContinuationError>(
            ContinuationError::ChunkTooLong { len: len as usize, num_rows: o.num_rows as usize },
        ) && keeps_progress(o, n)
    } else if o.chunk_index == 0 && !has_match(chunk[pc], o.input[pc]) {
        r == Err::<StepOutcome, ContinuationError>(ContinuationError::BootloaderPcNotFound)
            && keeps_progress(o, n)
    } else if !(in_reference(o.full, chunk, start, fs) && agrees(o.full, chunk, start, fs)) {
        &&& r matches Err(ContinuationError::Integrity(f))
        &&& is_fault(o.full, chunk, start, fs, pc, f)
        &&& keeps_progress(o, n)
    } else if len < o.num_rows {
        if fs + len - start != rows_len(o.full) {
            r == Err::<StepOutcome, ContinuationError>(
                ContinuationError::Integrity(
                    IntegrityFault::EndsEarly {
                        chunk_end: (fs + len - start) as usize,
                        full_len: rows_len(o.full) as usize,
                    },
                ),
            ) && keeps_progress(o, n)
        } else {
            r == Ok::<StepOutcome, ContinuationError>(StepOutcome::Done) && keeps_progress(o, n)
        }
    } else {
        &&& r == Ok::<StepOutcome, ContinuationError>(StepOutcome::Continue)
        &&& n.chunk_index == o.chunk_index + 1
        &&& n.proven_trace == o.proven_trace + new_rows(o)
        &&& n.input == bootloader_input(
            last_row(chunk),
            selected_pages(o.accesses, n.proven_trace as int, o.num_rows as int),
            n.snapshot,
        )
    }
}

/// The chunking controller: re-executes a program chunk by chunk, checks
/// each chunk against the reference execution, and builds the state that the
/// next chunk starts from.
pub struct Continuation {
    full_trace: TransposedTrace,
    memory_accesses: Vec<MemoryAccess>,
    num_rows: usize,
    pc_index: usize,
    chunk_index: usize,
    proven_trace: usize,
    bootloader_input: Vec<u64>,
    memory_snapshot: MemorySnapshot,
}

impl View for Continuation {
    type V = ContinuationView;

    closed spec fn view(&self) -> ContinuationView {
        ContinuationView {
            full: self.full_trace@,
            accesses: self.memory_accesses@,
            num_rows: self.num_rows as nat,
            pc_index: self.pc_index as nat,
            chunk_index: self.chunk_index as nat,
            proven_trace: self.proven_trace as nat,
            input: self.bootloader_input@,
            snapshot: self.memory_snapshot@,
        }
    }
}

impl Continuation {
    pub open spec fn wf(&self) -> bool {
        view_wf(self@)
    }

    /// Starts a run from the reference execution (its trace and memory
    /// access log), the row budget of one chunk, the column of the program
    /// counter and the first chunk's bootloader input.
    pub fn new(
        full_trace: TransposedTrace,
        memory_accesses: Vec<MemoryAccess>,
        num_rows: usize,
        pc_index: usize,
        bootloader_input: Vec<u64>,
    ) -> (r: Result<Continuation, ContinuationError>)
        ensures
            r is Ok <==> columns_wf(full_trace@) && pc_index < full_trace@.len() && sorted_by_idx(
                memory_accesses@,
            ) && num_rows >= 2 && pc_index < bootloader_input@.len(),
            r is Err ==> r == Err::<Continuation, ContinuationError>(ContinuationError::InvalidSetup),
            r matches Ok(c) ==> c.wf() && c@ == (ContinuationView {
                full: full_trace@,
                accesses: memory_accesses@,
                num_rows: num_rows as nat,
                pc_index: pc_index as nat,
                chunk_index: 0,
                proven_trace: 0,
                input: bootloader_input@,
                snapshot: Map::empty(),
            }),
    {
        if !full_trace.is_wf() || pc_index >= full_trace.num_registers() || !is_sorted_by_idx(
            &memory_accesses,
        ) || num_rows < 2 || pc_index >= bootloader_input.len() {
            return Err(ContinuationError::InvalidSetup);
        }
        Ok(
            Continuation {
                full_trace,
                memory_accesses,
                num_rows,
                pc_index,
                chunk_index: 0,
                proven_trace: 0,
                bootloader_input,
                memory_snapshot: MemorySnapshot::new(),
            },
        )
    }

    /// Index of the chunk to run next.
    pub fn chunk_index(&self) -> (r: usize)
        ensures
            r == self@.chunk_index,
    {
        self.chunk_index
    }

    /// Rows of the reference execution proved so far.
    pub fn proven_trace(&self) -> (r: usize)
        ensures
            r == self@.proven_trace,
    {
        self.proven_trace
    }

    /// Row budget of one chunk.
    pub fn num_rows(&self) -> (r: usize)
        ensures
            r == self@.num_rows,
    {
        self.num_rows
    }

    /// The bootloader input of the chunk to run next.
    pub fn bootloader_input(&self) -> (r: &Vec<u64>)
        ensures
            r@ == self@.input,
    {
        &self.bootloader_input
    }

    /// Number of rows in the reference execution.
    pub fn full_trace_len(&self) -> (r: usize)
        requires
            self.wf(),
        ensures
            r == rows_len(self@.full),
    {
        self.full_trace.len()
    }

    /// Takes the trace and the memory writes of the chunk just run with
    /// `bootloader_input()`, checks the trace against the reference, and
    /// either ends the run or prepares the next chunk's bootloader input.
    pub fn step(&mut self, chunk: &TransposedTrace, updates: &Vec<(u32, u64)>) -> (r: Result<
        StepOutcome,
        ContinuationError,
    >)
        requires
            old(self).wf(),
        ensures
            final(self).wf(),
            step_spec(old(self)@, chunk@, updates@, final(self)@, r),
    {
        let ghost o = self@;
        self.memory_snapshot.merge(updates);
        if !chunk.is_wf() || chunk.num_registers() != self.full_trace.num_registers() {
            return Err(ContinuationError::MalformedTrace);
        }
        let len = chunk.len();
        if len > self.num_rows {
            return Err(ContinuationError::ChunkTooLong { len, num_rows: self.num_rows });
        }
        let start: usize;
        let full_start: usize;
        if self.chunk_index == 0 {
            match chunk.find_first(self.pc_index, self.bootloader_input[self.pc_index]) {
                Some(s) => {
                    proof {
                        lemma_first_match(chunk@[self.pc_index as int], self.bootloader_input@[self.pc_index as int], s as int);
                    }
                    start = s;
                    full_start = s;
                },
                None => {
                    return Err(ContinuationError::BootloaderPcNotFound);
                },
            }
        } else {
            start = 0;
            full_start = self.proven_trace - 1;
        }
        assert(start == chunk_start(o, chunk@));
        assert(full_start == reference_start(o, chunk@));
        match validate_chunk(&self.full_trace, chunk, start, full_start, self.pc_index) {
            Err(f) => {
                return Err(ContinuationError::Integrity(f));
            },
            Ok(()) => {},
        }
        let full_len = self.full_trace.len();
        if len < self.num_rows {
            if full_start + (len - start) != full_len {
                return Err(
                    ContinuationError::Integrity(
                        IntegrityFault::EndsEarly { chunk_end: full_start + (len - start), full_len },
                    ),
                );
            }
            return Ok(StepOutcome::Done);
        }
        let added = if self.chunk_index == 0 {
            self.num_rows
        } else {
            self.num_rows - 1
        };
        self.proven_trace = self.proven_trace + added;
        let pages = select_pages(&self.memory_accesses, self.proven_trace, self.num_rows);
        proof {
            let chosen = selected_pages(o.accesses, self.proven_trace as int, o.num_rows as int);
            assert(strictly_ascending(chosen) && chosen.to_set() == window_pages(
                o.accesses,
                self.proven_trace as int,
                o.num_rows as int,
            ));
            lemma_pages_unique(pages@, chosen);
            assert forall|k: int| 0 <= k < pages@.len() implies #[trigger] pages@[k] < NUM_PAGES by {
                assert(pages@.to_set().contains(pages@[k]));
                let m = choose|m: int|
                    0 <= m < o.accesses.len() && self.proven_trace <= #[trigger] o.accesses[m].idx
                        < self.proven_trace + o.num_rows && page_of(o.accesses[m].address)
                        == pages@[k];
                lemma_page_in_range(o.accesses[m].address);
            }
        }
        let regs = chunk.last_row();
        self.bootloader_input = build_bootloader_input(&regs, &pages, &self.memory_snapshot);
        self.chunk_index = self.chunk_index + 1;
        Ok(StepOutcome::Continue)
    }
}

/// After a full chunk, the next chunk that is accepted starts with the last
/// row of the full one, register for register.
pub proof fn lemma_continuity(
    s0: ContinuationView,
    a: Seq<Seq<u64>>,
    ua: Seq<(u32, u64)>,
    s1: ContinuationView,
    b: Seq<Seq<u64>>,
    ub: Seq<(u32, u64)>,
    s2: ContinuationView,
    rb: Result<StepOutcome, ContinuationError>,
)
    requires
        view_wf(s0),
        step_spec(s0, a, ua, s1, Ok(StepOutcome::Continue)),
        step_spec(s1, b, ub, s2, rb),
        rb is Ok,
        rows_len(b) > 0,
    ensures
        forall|reg: int| 0 <= reg < a.len() ==> b[reg][0] == #[trigger] a[reg][rows_len(a) - 1],
{
    let start = chunk_start(s0, a);
    let fs = reference_start(s0, a);
    let last = rows_len(a) - 1;
    if s0.chunk_index == 0 {
        let pc = s0.pc_index as int;
        let w = choose|w: int| is_first_match(a[pc], s0.input[pc], w);
        lemma_first_match(a[pc], s0.input[pc], w);
    }
    assert forall|reg: int| 0 <= reg < a.len() implies b[reg][0] == #[trigger] a[reg][rows_len(a) - 1] by {
        assert(a[reg][start + (last - start)] == s0.full[reg][fs + (last - start)]);
        assert(b[reg][0int + 0int] == s1.full[reg][(s1.proven_trace - 1) + 0int]);
    }
}

/// Each accepted chunk reproduces the reference from where the proved part
/// ended (in the first chunk, from its comparison start) up to the new end
/// of the proved part, or up to the reference's last row when the run is
/// done. The proved parts of successive chunks thus tile the reference,
/// without gap or overlap, up to its last row.
pub proof fn lemma_completeness(
    o: ContinuationView,
    chunk: Seq<Seq<u64>>,
    updates: Seq<(u32, u64)>,
    n: ContinuationView,
    r: Result<StepOutcome, ContinuationError>,
)
    requires
        view_wf(o),
        step_spec(o, chunk, updates, n, r),
        r is Ok,
    ensures
        ({
            let lo = if o.chunk_index == 0 {
                chunk_start(o, chunk)
            } else {
                o.proven_trace as int
            };
            let hi = if r == Ok::<StepOutcome, ContinuationError>(StepOutcome::Continue) {
                n.proven_trace as int
            } else {
                rows_len(o.full) as int
            };
            &&& 0 <= lo <= hi <= rows_len(o.full)
            &&& r == Ok::<StepOutcome, ContinuationError>(StepOutcome::Continue) ==> n.proven_trace
                == o.proven_trace + new_rows(o)
            &&& forall|reg: int, j: int|
                0 <= reg < o.full.len() && lo <= j < hi ==> #[trigger] o.full[reg][j] == chunk[reg][j
                    - reference_start(o, chunk) + chunk_start(o, chunk)]
        }),
{
    let start = chunk_start(o, chunk);
    let fs = reference_start(o, chunk);
    if o.chunk_index == 0 {
        let pc = o.pc_index as int;
        let w = choose|w: int| is_first_match(chunk[pc], o.input[pc], w);
        lemma_first_match(chunk[pc], o.input[pc], w);
    }
    let lo = if o.chunk_index == 0 {
        start
    } else {
        o.proven_trace as int
    };
    let hi = if r == Ok::<StepOutcome, ContinuationError>(StepOutcome::Continue) {
        n.proven_trace as int
    } else {
        rows_len(o.full) as int
    };
    assert forall|reg: int, j: int| 0 <= reg < o.full.len() && lo <= j < hi implies #[trigger] o.full[reg][j]
        == chunk[reg][j - fs + start] by {
        assert(chunk[reg][start + (j - fs)] == o.full[reg][fs + (j - fs)]);
    }
}

/// One step is a function of the state and of what the executor returned:
/// two runs that reach the same state and get the same chunk and memory
/// writes reach the same next state (bootloader input and selected pages
/// included) and the same result.
pub proof fn lemma_step_deterministic(
    o: ContinuationView,
    chunk: Seq<Seq<u64>>,
    updates: Seq<(u32, u64)>,
    n1: ContinuationView,
    r1: Result<StepOutcome, ContinuationError>,
    n2: ContinuationView,
    r2: Result<StepOutcome, ContinuationError>,
)
    requires
        step_spec(o, chunk, updates, n1, r1),
        step_spec(o, chunk, updates, n2, r2),
    ensures
        n1 == n2,
        r1 == r2,
{
    assert(n1.snapshot =~= n2.snapshot);
    let start = chunk_start(o, chunk);
    let fs = reference_start(o, chunk);
    if let Err(ContinuationError::Integrity(f1)) = r1 {
        if let Err(ContinuationError::Integrity(f2)) = r2 {
            if let IntegrityFault::Mismatch { offset: i1, register: g1, .. } = f1 {
                if let IntegrityFault::Mismatch { offset: i2, register: g2, .. } = f2 {
                    if i1 < i2 || (i1 == i2 && g1 < g2) {
                        assert(chunk[g1 as int][start + i1] == o.full[g1 as int][fs + i1]);
                    }
                    if i2 < i1 || (i1 == i2 && g2 < g1) {
                        assert(chunk[g2 as int][start + i2] == o.full[g2 as int][fs + i2]);
                    }
                }
            }
        }
    }
}

} // verus!
