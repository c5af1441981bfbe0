use vstd::prelude::*;
use crate::buffer_reader::{count_true, in_bound, lemma_count_prefix, selectors_for, CAPACITY};
use crate::copy_row::{
    assigned_from, entries_needed, lemma_rw_ops_bounded, rw_ops_upto, CopyRow, CopyStepAux, RwEntry,
};

verus! {

/// Number of rows that a copy of `length` bytes takes: `ceil(length / CAPACITY)`.
pub open spec fn row_count(length: nat) -> nat {
    ((length + CAPACITY - 1) / (CAPACITY as int)) as nat
}

/// The byte at absolute address `addr` of a source buffer placed at
/// `buffer_addr`; zero outside the buffer.
pub open spec fn source_byte(buffer: Seq<u8>, buffer_addr: u64, addr: int) -> u8 {
    if buffer_addr <= addr < buffer_addr + buffer.len() {
        buffer[addr - buffer_addr]
    } else {
        0
    }
}

/// `aux` is row `j` of a copy of `length` bytes from `src` to `dst`.
pub open spec fn planned_step(
    aux: CopyStepAux,
    src: u64,
    dst: u64,
    src_end: u64,
    length: u64,
    from_tx: bool,
    tx_id: u64,
    j: int,
) -> bool {
    &&& aux.src_addr == src + j * CAPACITY
    &&& aux.dst_addr == dst + j * CAPACITY
    &&& aux.bytes_left == length - j * CAPACITY
    &&& aux.src_addr_end == src_end
    &&& aux.from_tx == from_tx
    &&& aux.tx_id == tx_id
    &&& selectors_for(aux.selectors@, aux.bytes_left as int)
}

/// Some write entry of `rws` targets address `dst + k`.
pub open spec fn writes_offset(rws: Seq<RwEntry>, dst: u64, k: int) -> bool {
    exists|w: int| 0 <= w < rws.len() && (#[trigger] rws[w]).is_write && rws[w].address == dst + k
}

/// The rows of one copy, and the slice of the global log that they consume.
#[derive(Clone, Debug)]
pub struct CopyTrace {
    pub steps: Vec<CopyStepAux>,
    /// Counter of the global log at the start of each row.
    pub rw_counters: Vec<u64>,
    /// The log entries, in emission order.
    pub rws: Vec<RwEntry>,
}

/// Builds the rows of a copy of `length` bytes from `src_addr` to `dst_addr`,
/// out of `buffer`, which lies at `buffer_addr` (0 for call data) and bounds
/// the source, together with the log entries that they consume, counted from
/// `rw_counter`. A call-data copy logs only its writes.
pub fn make_copy_trace(
    call_id: u64,
    buffer: &[u8],
    buffer_addr: u64,
    src_addr: u64,
    dst_addr: u64,
    length: u64,
    from_tx: bool,
    tx_id: u64,
    rw_counter: u64,
) -> (t: CopyTrace)
    requires
        buffer_addr <= src_addr,
        buffer_addr + buffer@.len() <= u64::MAX,
        src_addr + length + CAPACITY <= u64::MAX,
        dst_addr + length + CAPACITY <= u64::MAX,
        rw_counter + 2 * length <= u64::MAX,
    ensures
        is_plan(t.steps@, src_addr, dst_addr, (buffer_addr + buffer@.len()) as u64, length, from_tx, tx_id),
        t.steps@.len() == row_count(length as nat),
        t.rw_counters@.len() == t.steps@.len(),
        forall|j: int|
            0 <= j < t.steps@.len() ==> planned_step(
                #[trigger] t.steps@[j],
                src_addr,
                dst_addr,
                (buffer_addr + buffer@.len()) as u64,
                length,
                from_tx,
                tx_id,
                j,
            ),
        t.steps@.len() > 0 ==> t.rw_counters@[0] == rw_counter,
        forall|j: int|
            0 <= j < t.steps@.len() ==> #[trigger] t.rw_counters@[j] + entries_needed(t.steps@[j]) == (
            if j + 1 < t.steps@.len() {
                t.rw_counters@[j + 1] as int
            } else {
                rw_counter + t.rws@.len()
            }),
        forall|w: int|
            0 <= w < t.rws@.len() ==> (#[trigger] t.rws@[w]).counter == rw_counter + w
                && t.rws@[w].call_id == call_id,
        forall|w: int|
            0 <= w < t.rws@.len() && !(#[trigger] t.rws@[w]).is_write ==> src_addr <= t.rws@[w].address
                < buffer_addr + buffer@.len() && t.rws@[w].byte == source_byte(
                buffer@,
                buffer_addr,
                t.rws@[w].address as int,
            ),
        forall|w: int|
            0 <= w < t.rws@.len() && (#[trigger] t.rws@[w]).is_write ==> dst_addr <= t.rws@[w].address
                < dst_addr + length && t.rws@[w].byte == source_byte(
                buffer@,
                buffer_addr,
                src_addr + (t.rws@[w].address - dst_addr),
            ),
        forall|k: int| 0 <= k < length ==> #[trigger] writes_offset(t.rws@, dst_addr, k),
{
    let src_end: u64 = buffer_addr + buffer.len() as u64;
    let mut steps: Vec<CopyStepAux> = Vec::new();
    let mut rw_counters: Vec<u64> = Vec::new();
    let mut rws: Vec<RwEntry> = Vec::new();
    let mut copied: u64 = 0;
    let mut counter: u64 = rw_counter;
    let ghost mut wpos: Seq<int> = Seq::empty();
    while copied < length
        invariant
            copied <= length,
            src_end == buffer_addr + buffer@.len(),
            buffer_addr <= src_addr,
            buffer_addr + buffer@.len() <= u64::MAX,
            src_addr + length + CAPACITY <= u64::MAX,
            dst_addr + length + CAPACITY <= u64::MAX,
            rw_counter + 2 * length <= u64::MAX,
            copied < length ==> copied == steps@.len() * CAPACITY,
            copied == length ==> steps@.len() == row_count(length as nat),
            rw_counters@.len() == steps@.len(),
            counter == rw_counter + rws@.len(),
            rws@.len() <= 2 * copied,
            forall|j: int|
                0 <= j < steps@.len() ==> planned_step(
                    #[trigger] steps@[j],
                    src_addr,
                    dst_addr,
                    src_end,
                    length,
                    from_tx,
                    tx_id,
                    j,
                ),
            steps@.len() > 0 ==> rw_counters@[0] == rw_counter,
            forall|j: int|
                0 <= j < steps@.len() ==> #[trigger] rw_counters@[j] + entries_needed(steps@[j]) == (
                if j + 1 < steps@.len() {
                    rw_counters@[j + 1] as int
                } else {
                    counter as int
                }),
            forall|w: int|
                0 <= w < rws@.len() ==> (#[trigger] rws@[w]).counter == rw_counter + w && rws@[w].call_id
                    == call_id,
            forall|w: int|
                0 <= w < rws@.len() && !(#[trigger] rws@[w]).is_write ==> src_addr <= rws@[w].address
                    < src_end && rws@[w].byte == source_byte(buffer@, buffer_addr, rws@[w].address as int),
            forall|w: int|
                0 <= w < rws@.len() && (#[trigger] rws@[w]).is_write ==> dst_addr <= rws@[w].address
                    < dst_addr + copied && rws@[w].address < dst_addr + length && rws@[w].byte
                    == source_byte(buffer@, buffer_addr, src_addr + (rws@[w].address - dst_addr)),
            wpos.len() == copied,
            forall|k: int|
                0 <= k < copied ==> 0 <= #[trigger] wpos[k] < rws@.len() && rws@[wpos[k]].is_write
                    && rws@[wpos[k]].address == dst_addr + k,
        decreases length - copied,
    {
        let left: u64 = length - copied;
        let row_src: u64 = src_addr + copied;
        let row_dst: u64 = dst_addr + copied;
        let mut selectors: Vec<bool> = Vec::new();
        let mut i: usize = 0;
        while i < CAPACITY
            invariant
                i <= CAPACITY,
                selectors@.len() == i,
                forall|p: int| 0 <= p < i ==> #[trigger] selectors@[p] == (p < left),
            decreases CAPACITY - i,
        {
            selectors.push((i as u64) < left);
            i = i + 1;
        }
        let ghost sel = selectors@;
        let ghost rws_start = rws@.len();
        rw_counters.push(counter);
        i = 0;
        while i < CAPACITY
            invariant
                i <= CAPACITY,
                sel.len() == CAPACITY,
                forall|p: int| 0 <= p < CAPACITY ==> #[trigger] sel[p] == (p < left),
                left == length - copied,
                left > 0,
                row_src == src_addr + copied,
                row_dst == dst_addr + copied,
                copied <= length,
                src_end == buffer_addr + buffer@.len(),
                buffer_addr <= src_addr,
                buffer_addr + buffer@.len() <= u64::MAX,
                src_addr + length + CAPACITY <= u64::MAX,
                dst_addr + length + CAPACITY <= u64::MAX,
                rw_counter + 2 * length <= u64::MAX,
                rws_start <= 2 * copied,
                rws@.len() <= 2 * (copied + (if i < left { i as int } else { left as int })),
                rws@.len() == rws_start + rw_ops_upto(sel, row_src, src_end, from_tx, i as int),
                counter == rw_counter + rws@.len(),
                forall|w: int|
                    0 <= w < rws@.len() ==> (#[trigger] rws@[w]).counter == rw_counter + w
                        && rws@[w].call_id == call_id,
                forall|w: int|
                    0 <= w < rws@.len() && !(#[trigger] rws@[w]).is_write ==> src_addr <= rws@[w].address
                        < src_end && rws@[w].byte == source_byte(buffer@, buffer_addr, rws@[w].address as int),
                forall|w: int|
                    0 <= w < rws@.len() && (#[trigger] rws@[w]).is_write ==> dst_addr <= rws@[w].address
                        < dst_addr + copied + i && rws@[w].address < dst_addr + length && rws@[w].byte
                        == source_byte(buffer@, buffer_addr, src_addr + (rws@[w].address - dst_addr)),
                wpos.len() == copied + (if i < left { i as int } else { left as int }),
                forall|k: int|
                    0 <= k < wpos.len() ==> 0 <= #[trigger] wpos[k] < rws@.len() && rws@[wpos[k]].is_write
                        && rws@[wpos[k]].address == dst_addr + k,
            decreases CAPACITY - i,
        {
            proof {
                lemma_rw_ops_bounded(sel, row_src, src_end, from_tx, i as int);
            }
            if (i as u64) < left {
                let addr = row_src + i as u64;
                let inb = addr < src_end;
                let b: u8 = if inb {
                    assert(addr - buffer_addr < buffer@.len());
                    buffer[(addr - buffer_addr) as usize]
                } else {
                    0
                };
                assert(b == source_byte(buffer@, buffer_addr, addr as int));
                assert(inb == in_bound(row_src, src_end, i as int));
                if inb && !from_tx {
                    rws.push(RwEntry { counter, is_write: false, call_id, address: addr, byte: b });
                    counter = counter + 1;
                }
                let ghost wp = rws@.len() as int;
                rws.push(RwEntry { counter, is_write: true, call_id, address: row_dst + i as u64, byte: b });
                counter = counter + 1;
                proof {
                    wpos = wpos.push(wp);
                }
            }
            i = i + 1;
        }
        let ghost n = steps@.len();
        assert(rws@.len() - rws_start == entries_needed(
            CopyStepAux {
                src_addr: row_src,
                dst_addr: row_dst,
                bytes_left: left,
                src_addr_end: src_end,
                from_tx,
                tx_id,
                selectors,
            },
        ));
        let aux = CopyStepAux {
            src_addr: row_src,
            dst_addr: row_dst,
            bytes_left: left,
            src_addr_end: src_end,
            from_tx,
            tx_id,
            selectors,
        };
        steps.push(aux);
        copied = if left < CAPACITY as u64 {
            length
        } else {
            copied + CAPACITY as u64
        };
        assert(planned_step(steps@[n as int], src_addr, dst_addr, src_end, length, from_tx, tx_id, n as int));
        proof {
            let nn = n as int;
            if copied == length {
                assert(row_count(length as nat) == nn + 1) by (nonlinear_arith)
                    requires
                        length == nn * 71 + left,
                        0 < left <= 71,
                        row_count(length as nat) == (length + 70) / 71,
                ;
            }
        }
    }
    assert forall|k: int| 0 <= k < length implies #[trigger] writes_offset(rws@, dst_addr, k) by {
        assert(rws@[wpos[k]].is_write);
    }
    CopyTrace { steps, rw_counters, rws }
}

/// `steps` are the rows of a copy of `length` bytes from `src` to `dst`.
pub open spec fn is_plan(
    steps: Seq<CopyStepAux>,
    src: u64,
    dst: u64,
    src_end: u64,
    length: u64,
    from_tx: bool,
    tx_id: u64,
) -> bool {
    &&& steps.len() == row_count(length as nat)
    &&& forall|j: int|
        0 <= j < steps.len() ==> planned_step(#[trigger] steps[j], src, dst, src_end, length, from_tx, tx_id, j)
}

/// Bytes copied by the first `n` rows.
pub open spec fn total_copied(steps: Seq<CopyStepAux>, n: int) -> nat
    decreases n,
{
    if n <= 0 {
        0
    } else {
        total_copied(steps, n - 1) + count_true(steps[n - 1].selectors@)
    }
}

/// Each row copies `min(bytes_left, CAPACITY)` bytes.
pub proof fn lemma_step_copied(aux: CopyStepAux)
    requires
        selectors_for(aux.selectors@, aux.bytes_left as int),
    ensures
        count_true(aux.selectors@) == if aux.bytes_left < CAPACITY {
            aux.bytes_left as nat
        } else {
            CAPACITY as nat
        },
{
    let n: int = if aux.bytes_left < CAPACITY { aux.bytes_left as int } else { CAPACITY as int };
    lemma_count_prefix(aux.selectors@, n);
}

/// A copy of `length` bytes takes `ceil(length / CAPACITY)` rows: every row but
/// the last copies fewer bytes than it has left, and the last copies exactly
/// what it has left.
pub proof fn lemma_row_count(
    steps: Seq<CopyStepAux>,
    src: u64,
    dst: u64,
    src_end: u64,
    length: u64,
    from_tx: bool,
    tx_id: u64,
)
    requires
        is_plan(steps, src, dst, src_end, length, from_tx, tx_id),
    ensures
        steps.len() == row_count(length as nat),
        length > 0 ==> steps.len() > 0 && steps.last().bytes_left - count_true(steps.last().selectors@) == 0,
        forall|j: int|
            0 <= j < steps.len() - 1 ==> count_true((#[trigger] steps[j]).selectors@) < steps[j].bytes_left,
{
    assert forall|j: int| 0 <= j < steps.len() - 1 implies count_true((#[trigger] steps[j]).selectors@)
        < steps[j].bytes_left by {
        assert(planned_step(steps[j], src, dst, src_end, length, from_tx, tx_id, j));
        lemma_step_copied(steps[j]);
        assert(length - j * 71 > 71) by (nonlinear_arith)
            requires
                j + 1 < (length + 70) / 71,
                0 <= j,
        ;
    }
    if length > 0 {
        let last = steps.len() - 1;
        assert(steps.len() > 0) by (nonlinear_arith)
            requires
                steps.len() == (length + 70) / 71,
                length > 0,
        ;
        assert(planned_step(steps[last], src, dst, src_end, length, from_tx, tx_id, last));
        lemma_step_copied(steps[last]);
        assert(length - last * 71 <= 71) by (nonlinear_arith)
            requires
                last + 1 == (length + 70) / 71,
        ;
    }
}

/// Consecutive rows chain: source, destination and bytes left advance by the
/// copied size, the bound and the source kind carry over, and the copied
/// sizes add up to the length.
pub proof fn lemma_chaining(
    steps: Seq<CopyStepAux>,
    src: u64,
    dst: u64,
    src_end: u64,
    length: u64,
    from_tx: bool,
    tx_id: u64,
)
    requires
        is_plan(steps, src, dst, src_end, length, from_tx, tx_id),
    ensures
        forall|j: int|
            0 <= j < steps.len() - 1 ==> {
                let c = count_true((#[trigger] steps[j]).selectors@);
                &&& steps[j + 1].src_addr == steps[j].src_addr + c
                &&& steps[j + 1].dst_addr == steps[j].dst_addr + c
                &&& steps[j + 1].bytes_left + c == steps[j].bytes_left
                &&& steps[j + 1].src_addr_end == steps[j].src_addr_end
                &&& steps[j + 1].from_tx == steps[j].from_tx
                &&& steps[j + 1].tx_id == steps[j].tx_id
            },
        total_copied(steps, steps.len() as int) == length,
{
    lemma_row_count(steps, src, dst, src_end, length, from_tx, tx_id);
    assert forall|j: int| 0 <= j < steps.len() - 1 implies {
        let c = count_true((#[trigger] steps[j]).selectors@);
        &&& steps[j + 1].src_addr == steps[j].src_addr + c
        &&& steps[j + 1].dst_addr == steps[j].dst_addr + c
        &&& steps[j + 1].bytes_left + c == steps[j].bytes_left
        &&& steps[j + 1].src_addr_end == steps[j].src_addr_end
        &&& steps[j + 1].from_tx == steps[j].from_tx
        &&& steps[j + 1].tx_id == steps[j].tx_id
    } by {
        assert(planned_step(steps[j], src, dst, src_end, length, from_tx, tx_id, j));
        assert(planned_step(steps[j + 1], src, dst, src_end, length, from_tx, tx_id, j + 1));
        lemma_step_copied(steps[j]);
        assert((j + 1) * 71 == j * 71 + 71) by (nonlinear_arith);
    }
    lemma_total_copied_prefix(steps, src, dst, src_end, length, from_tx, tx_id, steps.len() as int);
    if steps.len() > 0 {
        let last = steps.len() - 1;
        assert(planned_step(steps[last], src, dst, src_end, length, from_tx, tx_id, last));
    }
}

/// The first `n` rows of a plan copy `n * CAPACITY` bytes, except that the
/// last row stops at the length.
proof fn lemma_total_copied_prefix(
    steps: Seq<CopyStepAux>,
    src: u64,
    dst: u64,
    src_end: u64,
    length: u64,
    from_tx: bool,
    tx_id: u64,
    n: int,
)
    requires
        is_plan(steps, src, dst, src_end, length, from_tx, tx_id),
        0 <= n <= steps.len(),
    ensures
        total_copied(steps, n) == if n < steps.len() {
            n * CAPACITY
        } else {
            length as int
        },
    decreases n,
{
    lemma_row_count(steps, src, dst, src_end, length, from_tx, tx_id);
    if n > 0 {
        lemma_total_copied_prefix(steps, src, dst, src_end, length, from_tx, tx_id, n - 1);
        assert(planned_step(steps[n - 1], src, dst, src_end, length, from_tx, tx_id, n - 1));
        lemma_step_copied(steps[n - 1]);
        assert((n - 1) * 71 + 71 == n * 71) by (nonlinear_arith);
        if n < steps.len() {
            assert(count_true(steps[n - 1].selectors@) < steps[n - 1].bytes_left);
        }
    } else if steps.len() == 0 {
        assert(length == 0) by (nonlinear_arith)
            requires
                0 == (length + 70) / 71,
        ;
    }
}

/// The byte of the last write to `addr` in `rws`, if any.
pub open spec fn last_write(rws: Seq<RwEntry>, addr: u64) -> Option<u8>
    decreases rws.len(),
{
    if rws.len() == 0 {
        None
    } else if rws.last().is_write && rws.last().address == addr {
        Some(rws.last().byte)
    } else {
        last_write(rws.drop_last(), addr)
    }
}

/// Reads address `addr` back from the log: the byte of its last write.
pub fn read_back(rws: &[RwEntry], addr: u64) -> (r: Option<u8>)
    ensures
        r == last_write(rws@, addr),
{
    let mut n: usize = rws.len();
    assert(rws@.take(rws@.len() as int) =~= rws@);
    while n > 0
        invariant
            n <= rws@.len(),
            last_write(rws@, addr) == last_write(rws@.take(n as int), addr),
        decreases n,
    {
        let e = rws[n - 1];
        assert(rws@.take(n as int).drop_last() =~= rws@.take(n - 1));
        if e.is_write && e.address == addr {
            return Some(e.byte);
        }
        n = n - 1;
    }
    None
}

proof fn lemma_last_write_is(rws: Seq<RwEntry>, addr: u64, v: u8, w: int)
    requires
        0 <= w < rws.len(),
        rws[w].is_write && rws[w].address == addr,
        forall|x: int| 0 <= x < rws.len() && (#[trigger] rws[x]).is_write && rws[x].address == addr ==> rws[x].byte == v,
    ensures
        last_write(rws, addr) == Some(v),
    decreases rws.len(),
{
    if !(rws.last().is_write && rws.last().address == addr) {
        let t = rws.drop_last();
        assert(t[w] == rws[w]);
        assert forall|x: int| 0 <= x < t.len() && (#[trigger] t[x]).is_write && t[x].address == addr implies t[x].byte == v by {
            assert(t[x] == rws[x]);
        }
        lemma_last_write_is(t, addr, v, w);
    }
}

/// Copying `length` bytes and then reading the destination back gives the
/// source: offset `k` reads the buffer's byte at `src + k` when that address
/// lies before the buffer's end, and zero after it.
pub proof fn lemma_round_trip(
    t: CopyTrace,
    buffer: Seq<u8>,
    buffer_addr: u64,
    src_addr: u64,
    dst_addr: u64,
    length: u64,
    k: int,
)
    requires
        forall|w: int|
            0 <= w < t.rws@.len() && (#[trigger] t.rws@[w]).is_write ==> dst_addr <= t.rws@[w].address
                < dst_addr + length && t.rws@[w].byte == source_byte(
                buffer,
                buffer_addr,
                src_addr + (t.rws@[w].address - dst_addr),
            ),
        forall|j: int| 0 <= j < length ==> #[trigger] writes_offset(t.rws@, dst_addr, j),
        0 <= k < length,
        buffer_addr <= src_addr,
        dst_addr + length <= u64::MAX,
    ensures
        last_write(t.rws@, (dst_addr + k) as u64) == Some(
            if src_addr + k < buffer_addr + buffer.len() {
                buffer[src_addr + k - buffer_addr]
            } else {
                0u8
            },
        ),
{
    assert(writes_offset(t.rws@, dst_addr, k));
    let w = choose|w: int| 0 <= w < t.rws@.len() && (#[trigger] t.rws@[w]).is_write && t.rws@[w].address == dst_addr + k;
    lemma_last_write_is(t.rws@, (dst_addr + k) as u64, source_byte(buffer, buffer_addr, src_addr + k), w);
}

/// The log counters that a chain of linked rows asserts never repeat.
pub proof fn lemma_counters_distinct(rows: Seq<CopyRow>)
    requires
        forall|j: int| 0 <= j < rows.len() ==> (#[trigger] rows[j]).addressable(),
        forall|j: int| 0 <= j < rows.len() - 1 ==> (#[trigger] rows[j]).linked(&rows[j + 1]),
    ensures
        forall|j1: int, a: int, j2: int, b: int|
            0 <= j1 < rows.len() && 0 <= j2 < rows.len() && 0 <= a < rows[j1].lookups_spec().len() && 0 <= b
                < rows[j2].lookups_spec().len() && (j1, a) != (j2, b) && #[trigger] rows[j1].lookups_spec()[a] is Rw
                && #[trigger] rows[j2].lookups_spec()[b] is Rw ==> rows[j1].lookups_spec()[a]->Rw_0.counter
                != rows[j2].lookups_spec()[b]->Rw_0.counter,
{
    assert forall|j1: int, a: int, j2: int, b: int|
        0 <= j1 < rows.len() && 0 <= j2 < rows.len() && 0 <= a < rows[j1].lookups_spec().len() && 0 <= b
            < rows[j2].lookups_spec().len() && (j1, a) != (j2, b) && #[trigger] rows[j1].lookups_spec()[a] is Rw
            && #[trigger] rows[j2].lookups_spec()[b] is Rw implies rows[j1].lookups_spec()[a]->Rw_0.counter
            != rows[j2].lookups_spec()[b]->Rw_0.counter by {
        rows[j1].lemma_lookup_counters(CAPACITY as int);
        rows[j2].lemma_lookup_counters(CAPACITY as int);
        if j1 < j2 {
            lemma_counter_advances(rows, j1, j2);
        } else if j2 < j1 {
            lemma_counter_advances(rows, j2, j1);
        } else if a < b {
        } else {
        }
    }
}

proof fn lemma_counter_advances(rows: Seq<CopyRow>, j1: int, j2: int)
    requires
        forall|j: int| 0 <= j < rows.len() - 1 ==> (#[trigger] rows[j]).linked(&rows[j + 1]),
        0 <= j1 < j2 < rows.len(),
    ensures
        rows[j1].rw_counter + rows[j1].rw_delta_spec() <= rows[j2].rw_counter,
    decreases j2,
{
    if j1 + 1 < j2 {
        lemma_counter_advances(rows, j1, j2 - 1);
        assert(rows[j2 - 1].linked(&rows[j2]));
    } else {
        assert(rows[j1].linked(&rows[j1 + 1]));
    }
}

/// Rows assigned from the consecutive steps of a plan, each starting at the
/// counter where the one before it ended, satisfy the constraints that link
/// them; every row but the last continues the copy, and the last finishes it.
pub proof fn lemma_assigned_rows_linked(
    steps: Seq<CopyStepAux>,
    rows: Seq<CopyRow>,
    counters: Seq<u64>,
    logs: Seq<Seq<RwEntry>>,
    call_data: Seq<u8>,
    call_id: u64,
    src: u64,
    dst: u64,
    src_end: u64,
    length: u64,
    from_tx: bool,
    tx_id: u64,
)
    requires
        is_plan(steps, src, dst, src_end, length, from_tx, tx_id),
        rows.len() == steps.len(),
        counters.len() == steps.len(),
        logs.len() == steps.len(),
        forall|j: int|
            0 <= j < steps.len() ==> assigned_from(
                #[trigger] rows[j],
                steps[j],
                call_id,
                counters[j],
                logs[j],
                call_data,
            ),
        forall|j: int| 0 <= j < steps.len() - 1 ==> #[trigger] counters[j] + entries_needed(steps[j]) == counters[j + 1],
    ensures
        forall|j: int| 0 <= j < rows.len() - 1 ==> (#[trigger] rows[j]).linked(&rows[j + 1]),
        forall|j: int| 0 <= j < rows.len() - 1 ==> !(#[trigger] rows[j]).finished_spec(),
        rows.len() > 0 ==> rows.last().finished_spec(),
{
    lemma_row_count(steps, src, dst, src_end, length, from_tx, tx_id);
    lemma_chaining(steps, src, dst, src_end, length, from_tx, tx_id);
    assert forall|j: int| 0 <= j < rows.len() - 1 implies (#[trigger] rows[j]).linked(&rows[j + 1])
        && !rows[j].finished_spec() by {
        assert(assigned_from(rows[j], steps[j], call_id, counters[j], logs[j], call_data));
        assert(assigned_from(rows[j + 1], steps[j + 1], call_id, counters[j + 1], logs[j + 1], call_data));
        assert(counters[j] + entries_needed(steps[j]) == counters[j + 1]);
        assert(count_true(steps[j].selectors@) < steps[j].bytes_left);
    }
    if rows.len() > 0 {
        let last = rows.len() - 1;
        assert(assigned_from(rows[last], steps[last], call_id, counters[last], logs[last], call_data));
    }
}

} // verus!
