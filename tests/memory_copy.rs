use memory_copy::buffer_reader::{count_selected, BufferReader, CAPACITY};
use memory_copy::comparator::{compare, Order, COMPARE_BOUND};
use memory_copy::copy_row::{assign_row, AssignError, CopyRow, CopyStepAux, Lookup, RwEntry};
use memory_copy::trace::{make_copy_trace, read_back, CopyTrace};

const CALL_ID: u64 = 1;
const TX_ID: u64 = 1;
const RW_START: u64 = 1;

fn sample_bytes(n: usize) -> Vec<u8> {
    (0..n).map(|i| (i * 37 + 11) as u8 | 1).collect()
}

/// Builds the trace of a copy, assigns every row from its slice of the log,
/// and checks that every constraint of every row holds.
fn run_copy(
    buffer: &[u8],
    buffer_addr: u64,
    src_addr: u64,
    dst_addr: u64,
    length: u64,
    from_tx: bool,
) -> (CopyTrace, Vec<CopyRow>) {
    let t = make_copy_trace(
        CALL_ID, buffer, buffer_addr, src_addr, dst_addr, length, from_tx, TX_ID, RW_START,
    );
    let call_data: &[u8] = if from_tx { buffer } else { &[] };
    let mut rows: Vec<CopyRow> = Vec::new();
    for (j, aux) in t.steps.iter().enumerate() {
        let start = (t.rw_counters[j] - RW_START) as usize;
        let end = if j + 1 < t.steps.len() {
            (t.rw_counters[j + 1] - RW_START) as usize
        } else {
            t.rws.len()
        };
        let row = assign_row(aux, CALL_ID, t.rw_counters[j], &t.rws[start..end], call_data)
            .expect("row assigns");
        assert!(row.check());
        assert!(row.lookups_hold(&t.rws, TX_ID, call_data));
        rows.push(row);
    }
    for j in 0..rows.len().saturating_sub(1) {
        assert!(!rows[j].finished());
        assert!(rows[j].check_next(&rows[j + 1]));
    }
    if let Some(last) = rows.last() {
        assert!(last.finished());
    }
    (t, rows)
}

fn test_ok_from_memory(src_addr: u64, dst_addr: u64, src_addr_end: u64, length: u64) {
    let buffer = sample_bytes((src_addr_end - src_addr) as usize);
    run_copy(&buffer, src_addr, src_addr, dst_addr, length, false);
}

fn test_ok_from_tx(calldata_length: usize, src_addr: u64, dst_addr: u64, length: u64) {
    let calldata = sample_bytes(calldata_length);
    run_copy(&calldata, 0, src_addr, dst_addr, length, true);
}

#[test]
fn copy_to_memory_simple() {
    test_ok_from_memory(0x40, 0xA0, 0x70, 5);
    test_ok_from_tx(32, 5, 0x40, 5);
}

#[test]
fn copy_to_memory_multi_step() {
    test_ok_from_memory(0x20, 0xA0, 0x80, 80);
    test_ok_from_tx(128, 10, 0x40, 90);
}

#[test]
fn copy_to_memory_out_of_bound() {
    test_ok_from_memory(0x40, 0xA0, 0x60, 45);
    test_ok_from_tx(32, 5, 0x40, 45);
    test_ok_from_tx(32, 40, 0x40, 5);
}

fn count_lookups(row: &CopyRow) -> (usize, usize, usize) {
    let mut reads = 0;
    let mut call_data = 0;
    let mut writes = 0;
    for l in row.lookups() {
        match l {
            Lookup::Rw(e) if e.is_write => writes += 1,
            Lookup::Rw(_) => reads += 1,
            Lookup::CallData { .. } => call_data += 1,
        }
    }
    (reads, call_data, writes)
}

#[test]
fn memory_copy_single_row_finishes() {
    let buffer = sample_bytes(0xA0 - 0x40);
    let (t, rows) = run_copy(&buffer, 0x40, 0x40, 0x100, 5, false);
    assert_eq!(rows.len(), 1);
    assert_eq!(rows[0].copied_size(), 5);
    assert_eq!(rows[0].bytes_left, 5);
    assert!(rows[0].finished());
    assert_eq!(count_lookups(&rows[0]), (5, 0, 5));
    assert_eq!(rows[0].rw_counter_delta(), 10);
    assert_eq!(t.rws.len(), 10);
    for i in 0..5 {
        assert_eq!(rows[0].reader.byte(i), buffer[i]);
    }
}

#[test]
fn call_data_copy_in_bound_uses_call_data_table() {
    let calldata = sample_bytes(32);
    let (t, rows) = run_copy(&calldata, 0, 5, 0x40, 5, true);
    assert_eq!(rows.len(), 1);
    assert_eq!(count_lookups(&rows[0]), (0, 5, 5));
    assert_eq!(rows[0].rw_counter_delta(), 5);
    assert!(t.rws.iter().all(|e| e.is_write));
    for i in 0..5 {
        assert_eq!(rows[0].reader.byte(i), calldata[5 + i]);
    }
}

#[test]
fn memory_copy_two_rows() {
    let buffer = sample_bytes(0x80 - 0x20);
    let (t, rows) = run_copy(&buffer, 0x20, 0x20, 0xA0, 80, false);
    assert_eq!(rows.len(), 2);
    assert_eq!(rows[0].copied_size(), 71);
    assert_eq!(rows[0].bytes_left, 80);
    assert!(!rows[0].finished());
    assert_eq!(rows[1].copied_size(), 9);
    assert_eq!(rows[1].bytes_left, 9);
    assert!(rows[1].finished());
    assert_eq!(t.steps[1].src_addr, 0x20 + 71);
    assert_eq!(t.steps[1].dst_addr, 0xA0 + 71);
    assert_eq!(rows[1].rw_counter, rows[0].rw_counter + rows[0].rw_counter_delta());
}

#[test]
fn memory_copy_zero_fills_past_bound() {
    let buffer = sample_bytes(0x60 - 0x40);
    let (t, rows) = run_copy(&buffer, 0x40, 0x40, 0xA0, 45, false);
    assert_eq!(rows.len(), 1);
    assert!(rows[0].finished());
    let r = &rows[0].reader;
    for i in 0..32 {
        assert!(r.read_flag(i));
        assert_eq!(r.byte(i), buffer[i]);
    }
    for i in 32..45 {
        assert!(!r.read_flag(i));
        assert!(r.has_data(i));
        assert_eq!(r.byte(i), 0);
    }
    assert_eq!(count_lookups(&rows[0]), (32, 0, 45));
    for k in 0..45u64 {
        let want = if k < 32 { buffer[k as usize] } else { 0 };
        assert_eq!(read_back(&t.rws, 0xA0 + k), Some(want));
    }
}

#[test]
fn call_data_copy_past_end_writes_zeros() {
    let calldata = sample_bytes(32);
    let (t, rows) = run_copy(&calldata, 0, 40, 0x40, 5, true);
    assert_eq!(rows.len(), 1);
    assert_eq!(count_lookups(&rows[0]), (0, 0, 5));
    for i in 0..5 {
        assert_eq!(rows[0].reader.byte(i), 0);
    }
    assert_eq!(t.rws.len(), 5);
    assert!(t.rws.iter().all(|e| e.is_write && e.byte == 0));
}

#[test]
fn row_count_is_ceiling() {
    let buffer = sample_bytes(400);
    for (length, rows) in [(0u64, 0usize), (1, 1), (71, 1), (72, 2), (142, 2), (143, 3)] {
        let t = make_copy_trace(CALL_ID, &buffer, 0, 0, 1000, length, true, TX_ID, RW_START);
        assert_eq!(t.steps.len(), rows);
        let total: u64 = t
            .steps
            .iter()
            .map(|s| count_selected(&s.selectors))
            .sum();
        assert_eq!(total, length);
    }
}

#[test]
fn log_counters_are_consecutive() {
    let buffer = sample_bytes(100);
    let t = make_copy_trace(CALL_ID, &buffer, 0, 0, 500, 150, false, TX_ID, 7);
    for (w, e) in t.rws.iter().enumerate() {
        assert_eq!(e.counter, 7 + w as u64);
    }
    assert_eq!(t.rws.len(), 100 * 2 + 50);
}

#[test]
fn round_trip_reads_source_then_zeros() {
    let buffer = sample_bytes(100);
    let t = make_copy_trace(CALL_ID, &buffer, 0x10, 0x10, 0x400, 130, false, TX_ID, RW_START);
    for k in 0..130u64 {
        let want = if k < 100 { buffer[k as usize] } else { 0 };
        assert_eq!(read_back(&t.rws, 0x400 + k), Some(want));
    }
    assert_eq!(read_back(&t.rws, 0x400 + 130), None);
}

#[test]
fn assign_fails_when_log_runs_out() {
    let buffer = sample_bytes(32);
    let t = make_copy_trace(CALL_ID, &buffer, 0x40, 0x40, 0xA0, 5, false, TX_ID, RW_START);
    let short = &t.rws[..9];
    let r = assign_row(&t.steps[0], CALL_ID, RW_START, short, &[]);
    assert_eq!(r.err(), Some(AssignError::LogExhausted));
}

#[test]
fn assign_fails_past_call_data() {
    let calldata = sample_bytes(32);
    let t = make_copy_trace(CALL_ID, &calldata, 0, 5, 0x40, 5, true, TX_ID, RW_START);
    let r = assign_row(&t.steps[0], CALL_ID, RW_START, &t.rws, &calldata[..7]);
    assert_eq!(r.err(), Some(AssignError::CallDataOutOfRange));
}

#[test]
fn row_with_wrong_byte_is_rejected() {
    let buffer = sample_bytes(32);
    let (t, rows) = run_copy(&buffer, 0x40, 0x40, 0xA0, 5, false);
    let mut bad = rows[0].clone();
    bad.reader.bytes[2] ^= 0xFF;
    assert!(bad.check());
    assert!(!bad.lookups_hold(&t.rws, TX_ID, &[]));
    let mut zero_fill = rows[0].clone();
    zero_fill.reader.bytes[10] = 3;
    assert!(!zero_fill.check());
}

#[test]
fn broken_chain_is_rejected() {
    let buffer = sample_bytes(0x80 - 0x20);
    let (_, rows) = run_copy(&buffer, 0x20, 0x20, 0xA0, 80, false);
    let mut next = rows[1].clone();
    next.dst_addr += 1;
    assert!(!rows[0].check_next(&next));
    let mut next = rows[1].clone();
    next.rw_counter += 1;
    assert!(!rows[0].check_next(&next));
}

#[test]
fn comparator_values() {
    let c = compare(3, 9);
    assert!(c.lt && !c.eq);
    assert_eq!(c.order(), Order::Less);
    assert_eq!(c.diff, vec![0xFA, 0xFF, 0xFF, 0xFF]);
    assert!(c.holds(3, 9));
    let c = compare(9, 9);
    assert_eq!(c.order(), Order::Equal);
    assert_eq!(c.diff, vec![0, 0, 0, 0]);
    let c = compare(0x0102_0304, 2);
    assert_eq!(c.order(), Order::Greater);
    assert_eq!(c.diff, vec![0x02, 0x03, 0x02, 0x01]);
    let c = compare(COMPARE_BOUND - 1, 0);
    assert_eq!(c.diff, vec![0xFF, 0xFF, 0xFF, 0xFF]);
    let mut forged = compare(3, 9);
    forged.lt = false;
    assert!(!forged.holds(3, 9));
}

#[test]
fn buffer_reader_constraints() {
    let mut selectors = vec![false; CAPACITY];
    for s in selectors.iter_mut().take(4) {
        *s = true;
    }
    let mut bytes = vec![0u8; CAPACITY];
    bytes[0] = 5;
    bytes[1] = 6;
    let r = BufferReader::new(100, 102, bytes.clone(), selectors.clone());
    assert!(r.check());
    assert_eq!(r.num_bytes(), 4);
    assert!(r.read_flag(1) && !r.read_flag(2) && r.has_data(3));
    bytes[2] = 1;
    assert!(!BufferReader::new(100, 102, bytes, selectors.clone()).check());
    selectors[6] = true;
    assert!(!BufferReader::new(100, 102, vec![0u8; CAPACITY], selectors).check());
}

#[test]
fn full_row_largest_size() {
    let buffer = sample_bytes(CAPACITY);
    let (_, rows) = run_copy(&buffer, 0, 0, 0x200, CAPACITY as u64, false);
    assert_eq!(rows.len(), 1);
    assert_eq!(rows[0].copied_size(), CAPACITY as u64);
    assert_eq!(rows[0].rw_counter_delta(), 2 * CAPACITY as u64);
    let e: RwEntry = match rows[0].lookups()[1] {
        Lookup::Rw(e) => e,
        Lookup::CallData { .. } => panic!("write expected"),
    };
    assert!(e.is_write);
    assert_eq!(e.address, 0x200);
    let _ = CopyStepAux {
        src_addr: 0,
        dst_addr: 0,
        bytes_left: 0,
        src_addr_end: 0,
        from_tx: false,
        tx_id: 0,
        selectors: vec![false; CAPACITY],
    };
}
