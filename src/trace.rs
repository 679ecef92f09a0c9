use vstd::prelude::*;

verus! {

/// Row-major output of one executor run: for each register, in canonical
/// order, the column that holds it, and one row of values per step.
pub struct ExecutionTrace {
    pub reg_map: Vec<usize>,
    pub rows: Vec<Vec<u64>>,
}

impl ExecutionTrace {
    /// Every register's column lies inside every row.
    pub open spec fn wf(&self) -> bool {
        forall|i: int, r: int|
            0 <= i < self.rows@.len() && 0 <= r < self.reg_map@.len() ==> #[trigger] self.reg_map@[r]
                < #[trigger] self.rows@[i]@.len()
    }

    /// Checks that every register's column lies inside every row.
    pub fn is_wf(&self) -> (r: bool)
        ensures
            r == self.wf(),
    {
        let mut i: usize = 0;
        while i < self.rows.len()
            invariant
                i <= self.rows@.len(),
                forall|k: int, r: int|
                    0 <= k < i && 0 <= r < self.reg_map@.len() ==> #[trigger] self.reg_map@[r]
                        < #[trigger] self.rows@[k]@.len(),
            decreases self.rows@.len() - i,
        {
            let mut reg: usize = 0;
            while reg < self.reg_map.len()
                invariant
                    i < self.rows@.len(),
                    reg <= self.reg_map@.len(),
                    forall|k: int, r: int|
                        (0 <= k < i && 0 <= r < self.reg_map@.len()) || (k == i && 0 <= r < reg)
                            ==> #[trigger] self.reg_map@[r] < #[trigger] self.rows@[k]@.len(),
                decreases self.reg_map@.len() - reg,
            {
                if self.reg_map[reg] >= self.rows[i].len() {
                    return false;
                }
                reg += 1;
            }
            i += 1;
        }
        true
    }
}

/// The number of rows of a column-major trace.
pub open spec fn rows_len(t: Seq<Seq<u64>>) -> nat {
    if t.len() == 0 {
        0
    } else {
        t[0].len()
    }
}

/// All columns have the same length.
pub open spec fn columns_wf(t: Seq<Seq<u64>>) -> bool {
    forall|r: int| 0 <= r < t.len() ==> (#[trigger] t[r]).len() == rows_len(t)
}

/// Column-major trace: one column of values per register, in canonical order.
pub struct TransposedTrace {
    pub columns: Vec<Vec<u64>>,
}

impl View for TransposedTrace {
    type V = Seq<Seq<u64>>;

    open spec fn view(&self) -> Seq<Seq<u64>> {
        self.columns@.map_values(|c: Vec<u64>| c@)
    }
}

impl TransposedTrace {
    pub open spec fn wf(&self) -> bool {
        columns_wf(self@)
    }

    /// Number of rows.
    pub fn len(&self) -> (r: usize)
        requires
            self.wf(),
        ensures
            r == rows_len(self@),
    {
        if self.columns.len() == 0 {
            0
        } else {
            self.columns[0].len()
        }
    }

    /// Number of registers.
    pub fn num_registers(&self) -> (r: usize)
        ensures
            r == self@.len(),
    {
        self.columns.len()
    }

    /// Checks that all columns have the same length.
    pub fn is_wf(&self) -> (r: bool)
        ensures
            r == self.wf(),
    {
        if self.columns.len() == 0 {
            return true;
        }
        let n = self.columns[0].len();
        let mut reg: usize = 0;
        while reg < self.columns.len()
            invariant
                reg <= self@.len(),
                self@.len() > 0,
                n == rows_len(self@),
                forall|c: int| 0 <= c < reg ==> (#[trigger] self@[c]).len() == rows_len(self@),
            decreases self@.len() - reg,
        {
            if self.columns[reg].len() != n {
                assert(self@[reg as int].len() != rows_len(self@));
                return false;
            }
            reg += 1;
        }
        true
    }

    /// The first row at which register `reg` holds `v`, if any.
    pub fn find_first(&self, reg: usize, v: u64) -> (r: Option<usize>)
        requires
            self.wf(),
            reg < self@.len(),
        ensures
            r matches Some(s) ==> is_first_match(self@[reg as int], v, s as int),
            r is None ==> forall|j: int| 0 <= j < rows_len(self@) ==> #[trigger] self@[reg as int][j] != v,
            r is None ==> !has_match(self@[reg as int], v),
    {
        let n = self.len();
        let mut i: usize = 0;
        while i < n
            invariant
                self.wf(),
                reg < self@.len(),
                n == rows_len(self@),
                i <= n,
                forall|j: int| 0 <= j < i ==> #[trigger] self@[reg as int][j] != v,
            decreases n - i,
        {
            if self.value(reg, i) == v {
                return Some(i);
            }
            i += 1;
        }
        None
    }

    /// The values of all registers at the last row.
    pub fn last_row(&self) -> (r: Vec<u64>)
        requires
            self.wf(),
            rows_len(self@) > 0,
        ensures
            r@ == last_row(self@),
    {
        let n = self.len();
        let mut out: Vec<u64> = Vec::new();
        let mut reg: usize = 0;
        while reg < self.columns.len()
            invariant
                self.wf(),
                n == rows_len(self@),
                n > 0,
                reg <= self@.len(),
                out@ == last_row(self@).take(reg as int),
            decreases self@.len() - reg,
        {
            out.push(self.value(reg, n - 1));
            reg += 1;
            assert(out@ =~= last_row(self@).take(reg as int));
        }
        assert(last_row(self@).take(reg as int) =~= last_row(self@));
        out
    }

    /// The value of register `reg` at row `row`.
    pub fn value(&self, reg: usize, row: usize) -> (r: u64)
        requires
            self.wf(),
            reg < self@.len(),
            row < rows_len(self@),
        ensures
            r == self@[reg as int][row as int],
    {
        assert(self@[reg as int].len() == rows_len(self@));
        self.columns[reg][row]
    }
}

/// Turns a row-major trace into one column per register.
pub fn transposed_trace(trace: &ExecutionTrace) -> (r: TransposedTrace)
    requires
        trace.wf(),
    ensures
        r.wf(),
        r@.len() == trace.reg_map@.len(),
        forall|reg: int| 0 <= reg < r@.len() ==> (#[trigger] r@[reg]).len() == trace.rows@.len(),
        forall|reg: int, i: int|
            0 <= reg < r@.len() && 0 <= i < trace.rows@.len() ==> #[trigger] r@[reg][i]
                == trace.rows@[i]@[trace.reg_map@[reg] as int],
{
    let mut columns: Vec<Vec<u64>> = Vec::new();
    let mut reg: usize = 0;
    while reg < trace.reg_map.len()
        invariant
            reg <= trace.reg_map@.len(),
            trace.wf(),
            columns@.len() == reg,
            forall|c: int| 0 <= c < reg ==> (#[trigger] columns@[c])@.len() == trace.rows@.len(),
            forall|c: int, i: int|
                0 <= c < reg && 0 <= i < trace.rows@.len() ==> #[trigger] columns@[c]@[i]
                    == trace.rows@[i]@[trace.reg_map@[c] as int],
        decreases trace.reg_map@.len() - reg,
    {
        let index = trace.reg_map[reg];
        let mut column: Vec<u64> = Vec::new();
        let mut i: usize = 0;
        while i < trace.rows.len()
            invariant
                i <= trace.rows@.len(),
                reg < trace.reg_map@.len(),
                index == trace.reg_map@[reg as int],
                trace.wf(),
                column@.len() == i,
                forall|k: int| 0 <= k < i ==> #[trigger] column@[k] == trace.rows@[k]@[index as int],
            decreases trace.rows@.len() - i,
        {
            assert(trace.reg_map@[reg as int] < trace.rows@[i as int]@.len());
            column.push(trace.rows[i][index]);
            i += 1;
        }
        columns.push(column);
        reg += 1;
    }
    let r = TransposedTrace { columns };
    proof {
        if r@.len() > 0 {
            assert(rows_len(r@) == trace.rows@.len());
        }
    }
    r
}

/// `s` is the first row of `col` that holds `v`.
pub open spec fn is_first_match(col: Seq<u64>, v: u64, s: int) -> bool {
    &&& 0 <= s < col.len()
    &&& col[s] == v
    &&& forall|j: int| 0 <= j < s ==> #[trigger] col[j] != v
}

/// Some row of `col` holds `v`, so there is a first such row.
pub open spec fn has_match(col: Seq<u64>, v: u64) -> bool {
    exists|s: int| is_first_match(col, v, s)
}

/// The first row of `col` that holds `v`.
pub open spec fn first_match(col: Seq<u64>, v: u64) -> int {
    choose|s: int| is_first_match(col, v, s)
}

/// There is exactly one first match.
pub proof fn lemma_first_match(col: Seq<u64>, v: u64, s: int)
    requires
        is_first_match(col, v, s),
    ensures
        first_match(col, v) == s,
{
    let t = first_match(col, v);
    assert(is_first_match(col, v, t));
    if t < s {
        assert(col[t] != v);
    } else if s < t {
        assert(col[s] != v);
    }
}

/// The values of all registers at the last row.
pub open spec fn last_row(t: Seq<Seq<u64>>) -> Seq<u64> {
    Seq::new(t.len(), |r: int| t[r][rows_len(t) - 1])
}

/// Every compared row of `chunk` (from `start` on) equals the row of `full`
/// at the same offset from `full_start`, for every register.
pub open spec fn agrees(full: Seq<Seq<u64>>, chunk: Seq<Seq<u64>>, start: int, full_start: int) -> bool {
    forall|r: int, i: int|
        0 <= r < chunk.len() && 0 <= i < rows_len(chunk) - start ==> #[trigger] chunk[r][start + i]
            == full[r][full_start + i]
}

/// The compared part of `chunk` lies inside `full`.
pub open spec fn in_reference(full: Seq<Seq<u64>>, chunk: Seq<Seq<u64>>, start: int, full_start: int) -> bool {
    &&& chunk.len() == full.len()
    &&& 0 <= start <= rows_len(chunk)
    &&& 0 <= full_start
    &&& full_start + rows_len(chunk) - start <= rows_len(full)
}

/// A chunk that diverges from the reference execution.
#[derive(Clone, Copy, Debug, PartialEq, Eq, Structural)]
pub enum IntegrityFault {
    /// The register sets differ, or the compared rows run past the end of
    /// the reference trace.
    OutOfReference { start: usize, full_start: usize, chunk_len: usize, full_len: usize },
    /// The first differing value, by row offset and then by register.
    Mismatch {
        start: usize,
        full_start: usize,
        offset: usize,
        register: usize,
        chunk_value: u64,
        full_value: u64,
        chunk_pc: u64,
        full_pc: u64,
    },
    /// The execution finished inside the chunk before the reference did.
    EndsEarly { chunk_end: usize, full_len: usize },
}

/// Row offset `offset` and register `register` are the first difference
/// between the chunk and the reference, by offset and then by register.
pub open spec fn is_first_mismatch(
    full: Seq<Seq<u64>>,
    chunk: Seq<Seq<u64>>,
    start: int,
    full_start: int,
    offset: int,
    register: int,
) -> bool {
    &&& 0 <= offset < rows_len(chunk) - start
    &&& 0 <= register < chunk.len()
    &&& chunk[register][start + offset] != full[register][full_start + offset]
    &&& forall|reg: int, i: int|
        (0 <= i < offset && 0 <= reg < chunk.len()) || (i == offset && 0 <= reg < register)
            ==> #[trigger] chunk[reg][start + i] == full[reg][full_start + i]
}

/// `f` is the fault that a comparison of `chunk` from `start` against `full`
/// from `full_start` reports.
pub open spec fn is_fault(
    full: Seq<Seq<u64>>,
    chunk: Seq<Seq<u64>>,
    start: int,
    full_start: int,
    pc_index: int,
    f: IntegrityFault,
) -> bool {
    match f {
        IntegrityFault::OutOfReference { start: s, full_start: fs, chunk_len, full_len } => {
            &&& !in_reference(full, chunk, start, full_start)
            &&& s == start
            &&& fs == full_start
            &&& chunk_len == rows_len(chunk)
            &&& full_len == rows_len(full)
        },
        IntegrityFault::Mismatch {
            start: s,
            full_start: fs,
            offset,
            register,
            chunk_value,
            full_value,
            chunk_pc,
            full_pc,
        } => {
            &&& in_reference(full, chunk, start, full_start)
            &&& is_first_mismatch(full, chunk, start, full_start, offset as int, register as int)
            &&& s == start
            &&& fs == full_start
            &&& chunk_value == chunk[register as int][start + offset]
            &&& full_value == full[register as int][full_start + offset]
            &&& chunk_pc == chunk[pc_index][start + offset]
            &&& full_pc == full[pc_index][full_start + offset]
        },
        IntegrityFault::EndsEarly { .. } => false,
    }
}

/// Checks `chunk[start + i] == full[full_start + i]` for every register and
/// every `i` in `[0, chunk_len - start)`, reporting the first difference.
pub fn validate_chunk(
    full: &TransposedTrace,
    chunk: &TransposedTrace,
    start: usize,
    full_start: usize,
    pc_index: usize,
) -> (r: Result<(), IntegrityFault>)
    requires
        full.wf(),
        chunk.wf(),
        pc_index < full@.len(),
    ensures
        r is Ok <==> in_reference(full@, chunk@, start as int, full_start as int) && agrees(
            full@,
            chunk@,
            start as int,
            full_start as int,
        ),
        r matches Err(f) ==> is_fault(full@, chunk@, start as int, full_start as int, pc_index as int, f),
{
    let chunk_len = chunk.len();
    let full_len = full.len();
    if chunk.num_registers() != full.num_registers() || start > chunk_len || chunk_len - start
        > full_len || full_start > full_len - (chunk_len - start) {
        return Err(IntegrityFault::OutOfReference { start, full_start, chunk_len, full_len });
    }
    let n = chunk_len - start;
    let regs = chunk.num_registers();
    let mut i: usize = 0;
    while i < n
        invariant
            full.wf(),
            chunk.wf(),
            pc_index < full@.len(),
            in_reference(full@, chunk@, start as int, full_start as int),
            n == rows_len(chunk@) - start,
            chunk_len == rows_len(chunk@),
            full_len == rows_len(full@),
            regs == chunk@.len(),
            i <= n,
            forall|reg: int, k: int|
                0 <= k < i && 0 <= reg < regs ==> #[trigger] chunk@[reg][start + k]
                    == full@[reg][full_start + k],
        decreases n - i,
    {
        let mut reg: usize = 0;
        while reg < regs
            invariant
                full.wf(),
                chunk.wf(),
                pc_index < full@.len(),
                in_reference(full@, chunk@, start as int, full_start as int),
                n == rows_len(chunk@) - start,
                chunk_len == rows_len(chunk@),
                full_len == rows_len(full@),
            chunk_len == rows_len(chunk@),
            full_len == rows_len(full@),
                regs == chunk@.len(),
                i < n,
                reg <= regs,
                forall|r2: int, k: int|
                    (0 <= k < i && 0 <= r2 < regs) || (k == i && 0 <= r2 < reg)
                        ==> #[trigger] chunk@[r2][start + k] == full@[r2][full_start + k],
            decreases regs - reg,
        {
            let chunk_value = chunk.value(reg, start + i);
            let full_value = full.value(reg, full_start + i);
            if chunk_value != full_value {
                return Err(
                    IntegrityFault::Mismatch {
                        start,
                        full_start,
                        offset: i,
                        register: reg,
                        chunk_value,
                        full_value,
                        chunk_pc: chunk.value(pc_index, start + i),
                        full_pc: full.value(pc_index, full_start + i),
                    },
                );
            }
            reg += 1;
        }
        i += 1;
    }
    Ok(())
}

} // verus!
