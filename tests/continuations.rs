use riscv_continuations::backend::{BBergMock, BackendError};
use riscv_continuations::bootloader::{build_bootloader_input, NUM_PAGES};
use riscv_continuations::controller::{row_budget, Continuation, ContinuationError, StepOutcome};
use riscv_continuations::memory::{
    is_sorted_by_idx, lower_bound, select_pages, MemoryAccess, MemorySnapshot, PAGE_SIZE_BYTES,
    WORDS_PER_PAGE,
};
use riscv_continuations::trace::{transposed_trace, validate_chunk, ExecutionTrace, IntegrityFault, TransposedTrace};

const PC: usize = 1;

/// A two-register trace (`x`, `pc`) whose row `i` holds `(10 * i, 100 + i)`.
fn reference(len: usize) -> TransposedTrace {
    let rows: Vec<Vec<u64>> = (0..len).map(|i| vec![10 * i as u64, 100 + i as u64]).collect();
    transposed_trace(&ExecutionTrace { reg_map: vec![0, 1], rows })
}

/// Rows `[from, to)` of `reference`.
fn window(from: usize, to: usize) -> TransposedTrace {
    let rows: Vec<Vec<u64>> = (from..to).map(|i| vec![10 * i as u64, 100 + i as u64]).collect();
    transposed_trace(&ExecutionTrace { reg_map: vec![0, 1], rows })
}

fn access(idx: usize, address: u32) -> MemoryAccess {
    MemoryAccess { idx, address }
}

#[test]
fn transposes_rows_into_columns() {
    let trace = ExecutionTrace { reg_map: vec![2, 0], rows: vec![vec![1, 2, 3], vec![4, 5, 6]] };
    let t = transposed_trace(&trace);
    assert_eq!(t.columns, vec![vec![3, 6], vec![1, 4]]);
    assert_eq!(t.len(), 2);
    assert_eq!(t.num_registers(), 2);
    assert_eq!(t.last_row(), vec![6, 4]);
}

#[test]
fn finds_first_row_with_value() {
    let t = TransposedTrace { columns: vec![vec![7, 9, 9], vec![1, 2, 3]] };
    assert_eq!(t.find_first(0, 9), Some(1));
    assert_eq!(t.find_first(1, 9), None);
    assert!(t.is_wf());
    assert!(!TransposedTrace { columns: vec![vec![1], vec![]] }.is_wf());
}

#[test]
fn validation_accepts_matching_window() {
    let full = reference(10);
    let chunk = window(3, 8);
    assert_eq!(validate_chunk(&full, &chunk, 0, 3, PC), Ok(()));
    assert_eq!(validate_chunk(&full, &chunk, 2, 5, PC), Ok(()));
}

#[test]
fn validation_reports_first_mismatch() {
    let full = reference(10);
    let mut chunk = window(3, 8);
    chunk.columns[1][3] = 999;
    chunk.columns[0][4] = 1;
    let r = validate_chunk(&full, &chunk, 0, 3, PC);
    assert_eq!(
        r,
        Err(IntegrityFault::Mismatch {
            start: 0,
            full_start: 3,
            offset: 3,
            register: 1,
            chunk_value: 999,
            full_value: 106,
            chunk_pc: 999,
            full_pc: 106,
        })
    );
}

#[test]
fn validation_rejects_rows_past_reference() {
    let full = reference(10);
    let chunk = window(6, 10);
    assert_eq!(
        validate_chunk(&full, &chunk, 0, 7, PC),
        Err(IntegrityFault::OutOfReference { start: 0, full_start: 7, chunk_len: 4, full_len: 10 })
    );
}

#[test]
fn row_budget_reserves_dispatcher_rows() {
    assert_eq!(row_budget(1024), Some(1022));
    assert_eq!(row_budget(4), Some(2));
    assert_eq!(row_budget(3), None);
    assert_eq!(row_budget(0), None);
}

#[test]
fn snapshot_last_write_wins() {
    let mut s = MemorySnapshot::new();
    assert_eq!(s.get_or_zero(8), 0);
    s.merge(&vec![(8, 1), (12, 2), (8, 3)]);
    assert_eq!(s.get_or_zero(8), 3);
    assert_eq!(s.get_or_zero(12), 2);
    s.merge(&vec![(16, 5)]);
    assert_eq!(s.get_or_zero(8), 3);
    assert_eq!(s.get_or_zero(16), 5);
    assert_eq!(s.get_or_zero(20), 0);
}

#[test]
fn lower_bound_finds_first_access_in_window() {
    let log = vec![access(1, 0), access(3, 0), access(3, 4), access(7, 0)];
    assert_eq!(lower_bound(&log, 0), 0);
    assert_eq!(lower_bound(&log, 3), 1);
    assert_eq!(lower_bound(&log, 4), 3);
    assert_eq!(lower_bound(&log, 8), 4);
    assert!(is_sorted_by_idx(&log));
    assert!(!is_sorted_by_idx(&vec![access(2, 0), access(1, 0)]));
}

#[test]
fn two_adjacent_pages_selected_in_order() {
    let log = vec![access(2, 0x1000 + PAGE_SIZE_BYTES), access(3, 0x1000)];
    assert_eq!(select_pages(&log, 0, 10), vec![4, 5]);
}

#[test]
fn page_selection_keeps_to_window() {
    let log = vec![
        access(1, 0x0),
        access(4, 0x2400),
        access(5, 0x2404),
        access(6, 0x0800),
        access(8, 0x1000),
        access(9, 0x9000),
    ];
    assert_eq!(select_pages(&log, 4, 5), vec![2, 4, 9]);
    assert_eq!(select_pages(&log, 4, 0), Vec::<u32>::new());
    assert_eq!(select_pages(&log, 10, 5), Vec::<u32>::new());
}

#[test]
fn bootloader_input_layout() {
    let mut s = MemorySnapshot::new();
    s.merge(&vec![(0x1004, 7), (0x13fc, 9), (0x0, 1)]);
    let input = build_bootloader_input(&vec![11, 22], &vec![4], &s);
    assert_eq!(input.len(), 2 + 1 + 1 + WORDS_PER_PAGE as usize);
    assert_eq!(&input[..5], &[11, 22, 1, 4, 0]);
    assert_eq!(input[5], 7);
    assert_eq!(input[4 + 255], 9);
    assert_eq!(input.iter().sum::<u64>(), 11 + 22 + 1 + 4 + 7 + 9);
    assert_eq!(build_bootloader_input(&vec![3], &vec![], &s), vec![3, 0]);
    assert!(NUM_PAGES == 1 << 22);
}

#[test]
fn trace_of_budget_plus_five_takes_two_chunks() {
    let num_rows = row_budget(16).unwrap();
    let full = reference(num_rows + 5);
    let mut c = Continuation::new(full, vec![access(3, 0x400), access(15, 0x2000)], num_rows, PC, vec![0, 100]).unwrap();
    let first = window(0, num_rows);
    assert_eq!(c.step(&first, &vec![(0x2000, 5)]), Ok(StepOutcome::Continue));
    assert_eq!(c.chunk_index(), 1);
    assert_eq!(c.proven_trace(), num_rows);
    let input = c.bootloader_input().clone();
    assert_eq!(&input[..4], &[10 * (num_rows as u64 - 1), 100 + num_rows as u64 - 1, 1, 8]);
    assert_eq!(input[4], 5);
    let second = window(num_rows - 1, num_rows + 5);
    assert!(second.len() <= num_rows);
    assert_eq!(second.last_row().len(), 2);
    assert_eq!(second.columns[0][0], first.columns[0][num_rows - 1]);
    assert_eq!(second.columns[1][0], first.columns[1][num_rows - 1]);
    assert_eq!(c.step(&second, &vec![]), Ok(StepOutcome::Done));
    assert_eq!(c.chunk_index(), 1);
}

#[test]
fn trace_of_exactly_budget_carries_no_pages() {
    let num_rows = row_budget(8).unwrap();
    let mut c = Continuation::new(reference(num_rows), vec![], num_rows, PC, vec![0, 100]).unwrap();
    assert_eq!(c.full_trace_len(), num_rows);
    assert_eq!(c.num_rows(), num_rows);
    assert_eq!(c.step(&window(0, num_rows), &vec![]), Ok(StepOutcome::Continue));
    assert_eq!(c.bootloader_input(), &vec![10 * (num_rows as u64 - 1), 100 + num_rows as u64 - 1, 0]);
    assert_eq!(c.step(&window(num_rows - 1, num_rows), &vec![]), Ok(StepOutcome::Done));
}

#[test]
fn first_chunk_skips_bootloader_rows() {
    let full = reference(20);
    let mut c = Continuation::new(full, vec![], 6, PC, vec![0, 102]).unwrap();
    let first = window(0, 6);
    assert_eq!(c.step(&first, &vec![]), Ok(StepOutcome::Continue));
    assert_eq!(c.proven_trace(), 6);
    assert_eq!(c.step(&window(5, 11), &vec![]), Ok(StepOutcome::Continue));
    assert_eq!(c.proven_trace(), 11);
    assert_eq!(c.chunk_index(), 2);
}

#[test]
fn short_final_chunk_must_reach_reference_end() {
    let mut c = Continuation::new(reference(10), vec![], 6, PC, vec![0, 100]).unwrap();
    assert_eq!(c.step(&window(0, 6), &vec![]), Ok(StepOutcome::Continue));
    assert_eq!(
        c.step(&window(5, 8), &vec![]),
        Err(ContinuationError::Integrity(IntegrityFault::EndsEarly { chunk_end: 8, full_len: 10 }))
    );
    assert_eq!(c.chunk_index(), 1);
}

#[test]
fn diverging_chunk_is_an_integrity_fault() {
    let mut c = Continuation::new(reference(10), vec![], 6, PC, vec![0, 100]).unwrap();
    let mut bad = window(0, 6);
    bad.columns[0][2] = 5;
    let r = c.step(&bad, &vec![]);
    assert!(matches!(
        r,
        Err(ContinuationError::Integrity(IntegrityFault::Mismatch { offset: 2, register: 0, .. }))
    ));
    assert_eq!(c.proven_trace(), 0);
}

#[test]
fn step_rejects_bad_chunks() {
    let mut c = Continuation::new(reference(10), vec![], 6, PC, vec![0, 100]).unwrap();
    assert_eq!(c.step(&window(0, 7), &vec![]), Err(ContinuationError::ChunkTooLong { len: 7, num_rows: 6 }));
    let odd = TransposedTrace { columns: vec![vec![0, 10], vec![100]] };
    assert_eq!(c.step(&odd, &vec![]), Err(ContinuationError::MalformedTrace));
    let one_reg = TransposedTrace { columns: vec![vec![100]] };
    assert_eq!(c.step(&one_reg, &vec![]), Err(ContinuationError::MalformedTrace));
    assert_eq!(c.step(&window(1, 6), &vec![]), Err(ContinuationError::BootloaderPcNotFound));
}

#[test]
fn setup_is_checked() {
    assert!(Continuation::new(reference(10), vec![], 6, PC, vec![0, 100]).is_ok());
    assert_eq!(Continuation::new(reference(10), vec![], 1, PC, vec![0, 100]).err(), Some(ContinuationError::InvalidSetup));
    assert_eq!(Continuation::new(reference(10), vec![], 6, 2, vec![0, 100, 1]).err(), Some(ContinuationError::InvalidSetup));
    assert_eq!(Continuation::new(reference(10), vec![], 6, PC, vec![0]).err(), Some(ContinuationError::InvalidSetup));
    let unsorted = vec![access(2, 0), access(1, 0)];
    assert_eq!(Continuation::new(reference(10), unsorted, 6, PC, vec![0, 100]).err(), Some(ContinuationError::InvalidSetup));
}

#[test]
fn identical_runs_agree() {
    let log = vec![access(2, 0x400), access(7, 0x3000), access(9, 0x400)];
    let run = || {
        let mut c = Continuation::new(reference(12), log.clone(), 6, PC, vec![0, 100]).unwrap();
        let r = c.step(&window(0, 6), &vec![(0x400, 9), (0x3000, 4)]);
        (r, c.bootloader_input().clone(), c.proven_trace())
    };
    assert_eq!(run(), run());
    let (_, input, _) = run();
    assert_eq!(&input[..4], &[50, 105, 2, 1]);
}

#[test]
fn mock_backend_declines() {
    let m = BBergMock::new(1024);
    assert_eq!(m.prove(&vec![], &vec![], Some(vec![1]), None), Err(BackendError::AggregationUnsupported));
    assert_eq!(
        m.prove(&vec![("main.pc".to_string(), vec![1])], &vec![], None, Some("b".to_string())),
        Err(BackendError::ProverUnavailable)
    );
}

#[test]
fn execution_trace_shape_is_checked() {
    assert!(ExecutionTrace { reg_map: vec![1, 0], rows: vec![vec![1, 2], vec![3, 4]] }.is_wf());
    assert!(!ExecutionTrace { reg_map: vec![2], rows: vec![vec![1, 2, 3], vec![4, 5]] }.is_wf());
    assert!(ExecutionTrace { reg_map: vec![5], rows: vec![] }.is_wf());
}
