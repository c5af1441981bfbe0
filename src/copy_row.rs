use vstd::prelude::*;
use crate::buffer_reader::{
    count_true, count_selected, in_bound, lemma_count_prefix, lemma_count_true_bounded,
    selectors_for, BufferReader, CAPACITY,
};
use crate::comparator::{compare, lemma_comparison_sound, Comparison, COMPARE_BOUND};

verus! {

/// The state that one row of a copy carries.
#[derive(Clone, Debug)]
pub struct CopyStepAux {
    pub src_addr: u64,
    pub dst_addr: u64,
    pub bytes_left: u64,
    /// Exclusive bound of the valid source buffer.
    pub src_addr_end: u64,
    /// The source is the transaction's call data rather than memory.
    pub from_tx: bool,
    pub tx_id: u64,
    pub selectors: Vec<bool>,
}

/// An entry of the global read/write log.
#[derive(PartialEq, Eq, Structural, Clone, Copy, Debug)]
pub struct RwEntry {
    pub counter: u64,
    pub is_write: bool,
    pub call_id: u64,
    pub address: u64,
    pub byte: u8,
}

/// A table-membership assertion that a row emits.
#[derive(PartialEq, Eq, Structural, Clone, Copy, Debug)]
pub enum Lookup {
    /// The entry must be in the global read/write log.
    Rw(RwEntry),
    /// Byte `index` of the call data of transaction `tx_id` must be `byte`.
    CallData { tx_id: u64, index: u64, byte: u8 },
}

/// Why a row's witness could not be assigned from a trace step.
#[derive(PartialEq, Eq, Structural, Clone, Copy, Debug)]
pub enum AssignError {
    /// The row consumes more log entries than it was given.
    LogExhausted,
    /// An in-bound call-data position lies past the end of the call data.
    CallDataOutOfRange,
}

/// Position `i` reads the source log: active, in bound, and the source is memory.
pub open spec fn is_mem_read(sel: Seq<bool>, src: u64, end: u64, from_tx: bool, i: int) -> bool {
    sel[i] && in_bound(src, end, i) && !from_tx
}

/// Number of in-bound memory reads among the positions below `k`.
pub open spec fn mem_reads_upto(sel: Seq<bool>, src: u64, end: u64, from_tx: bool, k: int) -> nat
    decreases k,
{
    if k <= 0 {
        0
    } else {
        mem_reads_upto(sel, src, end, from_tx, k - 1) + (if is_mem_read(sel, src, end, from_tx, k - 1) {
            1nat
        } else {
            0nat
        })
    }
}

/// Number of log entries that the positions below `k` consume: one per
/// in-bound memory read and one per write.
pub open spec fn rw_ops_upto(sel: Seq<bool>, src: u64, end: u64, from_tx: bool, k: int) -> nat
    decreases k,
{
    if k <= 0 {
        0
    } else {
        rw_ops_upto(sel, src, end, from_tx, k - 1) + (if is_mem_read(sel, src, end, from_tx, k - 1) {
            1nat
        } else {
            0nat
        }) + (if sel[k - 1] {
            1nat
        } else {
            0nat
        })
    }
}

/// Each position consumes at most two log entries.
pub proof fn lemma_rw_ops_bounded(sel: Seq<bool>, src: u64, end: u64, from_tx: bool, k: int)
    requires
        0 <= k,
    ensures
        rw_ops_upto(sel, src, end, from_tx, k) <= 2 * k,
        mem_reads_upto(sel, src, end, from_tx, k) <= k,
    decreases k,
{
    if k > 0 {
        lemma_rw_ops_bounded(sel, src, end, from_tx, k - 1);
    }
}

/// Later positions have consumed at least as many log entries.
pub proof fn lemma_rw_ops_monotone(sel: Seq<bool>, src: u64, end: u64, from_tx: bool, j: int, k: int)
    requires
        0 <= j <= k,
    ensures
        rw_ops_upto(sel, src, end, from_tx, j) <= rw_ops_upto(sel, src, end, from_tx, k),
    decreases k,
{
    if j < k {
        lemma_rw_ops_monotone(sel, src, end, from_tx, j, k - 1);
    }
}

/// The byte that witness assignment reconstructs at position `i`.
pub open spec fn assigned_byte(aux: CopyStepAux, log: Seq<RwEntry>, call_data: Seq<u8>, i: int) -> u8 {
    if aux.selectors@[i] && in_bound(aux.src_addr, aux.src_addr_end, i) {
        if aux.from_tx {
            call_data[aux.src_addr + i]
        } else {
            log[rw_ops_upto(aux.selectors@, aux.src_addr, aux.src_addr_end, aux.from_tx, i) as int].byte
        }
    } else {
        0
    }
}

/// Log entries that the row of `aux` consumes.
pub open spec fn entries_needed(aux: CopyStepAux) -> nat {
    rw_ops_upto(aux.selectors@, aux.src_addr, aux.src_addr_end, aux.from_tx, CAPACITY as int)
}

/// Every in-bound active position of a call-data copy lies within the call data.
pub open spec fn call_data_covers(aux: CopyStepAux, call_data_len: int) -> bool {
    aux.from_tx ==> forall|i: int|
        0 <= i < CAPACITY && #[trigger] aux.selectors@[i] && in_bound(aux.src_addr, aux.src_addr_end, i)
            ==> aux.src_addr + i < call_data_len
}

/// The witness of one row.
#[derive(Clone, Debug)]
pub struct CopyRow {
    pub reader: BufferReader,
    pub dst_addr: u64,
    pub bytes_left: u64,
    pub from_tx: bool,
    pub tx_id: u64,
    pub call_id: u64,
    /// Value of the global read/write counter when the row starts.
    pub rw_counter: u64,
    /// Relation between the copied size and `bytes_left`.
    pub finish: Comparison,
}

impl CopyRow {
    pub open spec fn src_addr(&self) -> u64 {
        self.reader.src_addr
    }

    pub open spec fn src_addr_end(&self) -> u64 {
        self.reader.src_addr_end
    }

    pub open spec fn selectors(&self) -> Seq<bool> {
        self.reader.selectors@
    }

    pub open spec fn copied_size_spec(&self) -> nat {
        count_true(self.selectors())
    }

    pub open spec fn finished_spec(&self) -> bool {
        self.finish.eq
    }

    /// Log entries consumed by the positions below `k`.
    pub open spec fn rw_ops(&self, k: int) -> nat {
        rw_ops_upto(self.selectors(), self.src_addr(), self.src_addr_end(), self.from_tx, k)
    }

    /// In-bound memory reads among the positions below `k`.
    pub open spec fn mem_reads(&self, k: int) -> nat {
        mem_reads_upto(self.selectors(), self.src_addr(), self.src_addr_end(), self.from_tx, k)
    }

    /// Amount by which the row advances the global read/write counter.
    pub open spec fn rw_delta_spec(&self) -> nat {
        self.rw_ops(CAPACITY as int)
    }

    /// The assertions of position `i`, whose first log entry has counter `c`.
    pub open spec fn position_lookups(&self, i: int, c: int) -> Seq<Lookup> {
        let read = self.reader.read_flag_spec(i);
        let b = self.reader.bytes@[i];
        let reads: Seq<Lookup> = if read && !self.from_tx {
            seq![
                Lookup::Rw(
                    RwEntry {
                        counter: c as u64,
                        is_write: false,
                        call_id: self.call_id,
                        address: (self.src_addr() + i) as u64,
                        byte: b,
                    },
                ),
            ]
        } else if read {
            seq![Lookup::CallData { tx_id: self.tx_id, index: (self.src_addr() + i) as u64, byte: b }]
        } else {
            seq![]
        };
        let wc = if read && !self.from_tx { c + 1 } else { c };
        let writes: Seq<Lookup> = if self.selectors()[i] {
            seq![
                Lookup::Rw(
                    RwEntry {
                        counter: wc as u64,
                        is_write: true,
                        call_id: self.call_id,
                        address: (self.dst_addr + i) as u64,
                        byte: b,
                    },
                ),
            ]
        } else {
            seq![]
        };
        reads + writes
    }

    /// The assertions of the positions below `k`, in emission order.
    pub open spec fn lookups_upto(&self, k: int) -> Seq<Lookup>
        decreases k,
    {
        if k <= 0 {
            seq![]
        } else {
            self.lookups_upto(k - 1) + self.position_lookups(k - 1, self.rw_counter + self.rw_ops(k - 1))
        }
    }

    /// All assertions of the row, in emission order.
    pub open spec fn lookups_spec(&self) -> Seq<Lookup> {
        self.lookups_upto(CAPACITY as int)
    }

    /// Sizes within which the row's lookups can be written down.
    pub open spec fn addressable(&self) -> bool {
        &&& self.reader.selectors@.len() == CAPACITY
        &&& self.reader.bytes@.len() == CAPACITY
        &&& self.dst_addr + CAPACITY <= u64::MAX
        &&& self.rw_counter + 2 * CAPACITY <= u64::MAX
    }

    /// The row's own constraints: the reader's, the selectors that cover
    /// `min(bytes_left, CAPACITY)` positions, and the finish comparator, whose
    /// `lt` and `eq` may not both hold.
    pub open spec fn constrained(&self) -> bool {
        &&& self.reader.constrained()
        &&& selectors_for(self.selectors(), self.bytes_left as int)
        &&& self.bytes_left < COMPARE_BOUND
        &&& self.finish.holds_spec(self.copied_size_spec() as int, self.bytes_left as int)
        &&& !(self.finish.lt && self.finish.eq)
    }

    /// The constraints that link this row to the row that follows it. The
    /// global counter advances by the row's log entries and the call stays the
    /// same; unless this row finishes, the copy state carries over, advanced by
    /// the copied size.
    pub open spec fn linked(&self, next: &CopyRow) -> bool {
        &&& next.rw_counter == self.rw_counter + self.rw_delta_spec()
        &&& next.call_id == self.call_id
        &&& !self.finished_spec() ==> {
            &&& next.src_addr() == self.src_addr() + self.copied_size_spec()
            &&& next.dst_addr == self.dst_addr + self.copied_size_spec()
            &&& next.bytes_left + self.copied_size_spec() == self.bytes_left
            &&& next.src_addr_end() == self.src_addr_end()
            &&& next.from_tx == self.from_tx
            &&& next.tx_id == self.tx_id
        }
    }

    /// Evaluates the row's own constraints.
    pub fn check(&self) -> (r: bool)
        ensures
            r == self.constrained(),
    {
        if !self.reader.check() || self.bytes_left >= COMPARE_BOUND {
            return false;
        }
        let mut i: usize = 0;
        while i < CAPACITY
            invariant
                i <= CAPACITY,
                self.reader.constrained(),
                forall|j: int| 0 <= j < i ==> #[trigger] self.selectors()[j] == (j < self.bytes_left),
            decreases CAPACITY - i,
        {
            if self.reader.selectors[i] != ((i as u64) < self.bytes_left) {
                return false;
            }
            i = i + 1;
        }
        let copied = self.copied_size();
        self.finish.holds(copied, self.bytes_left) && !(self.finish.lt && self.finish.eq)
    }

    /// Evaluates the constraints that link this row to `next`.
    pub fn check_next(&self, next: &CopyRow) -> (r: bool)
        requires
            self.reader.selectors@.len() == CAPACITY,
        ensures
            r == self.linked(next),
    {
        let copied = self.copied_size();
        let delta = self.rw_counter_delta();
        if self.rw_counter > u64::MAX - delta || next.rw_counter != self.rw_counter + delta {
            return false;
        }
        if next.call_id != self.call_id {
            return false;
        }
        if self.finished() {
            return true;
        }
        self.reader.src_addr <= u64::MAX - copied && next.reader.src_addr == self.reader.src_addr + copied
            && self.dst_addr <= u64::MAX - copied && next.dst_addr == self.dst_addr + copied
            && copied <= self.bytes_left && next.bytes_left == self.bytes_left - copied
            && next.reader.src_addr_end == self.reader.src_addr_end && next.from_tx == self.from_tx
            && next.tx_id == self.tx_id
    }

    /// Number of bytes that the row copies.
    pub fn copied_size(&self) -> (r: u64)
        requires
            self.reader.selectors@.len() == CAPACITY,
        ensures
            r == self.copied_size_spec(),
            r <= CAPACITY,
    {
        self.reader.num_bytes()
    }

    /// Whether this row ends the copy.
    pub fn finished(&self) -> (r: bool)
        ensures
            r == self.finished_spec(),
    {
        self.finish.eq
    }

    /// Amount by which the row advances the global read/write counter.
    pub fn rw_counter_delta(&self) -> (r: u64)
        requires
            self.reader.selectors@.len() == CAPACITY,
        ensures
            r == self.rw_delta_spec(),
            r == self.mem_reads(CAPACITY as int) + self.copied_size_spec(),
    {
        let mut r: u64 = 0;
        let mut i: usize = 0;
        while i < CAPACITY
            invariant
                i <= CAPACITY,
                self.reader.selectors@.len() == CAPACITY,
                r == self.rw_ops(i as int),
            decreases CAPACITY - i,
        {
            proof {
                lemma_rw_ops_bounded(self.selectors(), self.src_addr(), self.src_addr_end(), self.from_tx, i as int);
            }
            if self.reader.read_flag(i) && !self.from_tx {
                r = r + 1;
            }
            if self.reader.has_data(i) {
                r = r + 1;
            }
            i = i + 1;
        }
        proof {
            self.lemma_rw_ops_split(CAPACITY as int);
            assert(self.selectors().take(CAPACITY as int) =~= self.selectors());
        }
        r
    }

    /// The counter advance splits into reads and writes.
    pub proof fn lemma_rw_ops_split(&self, k: int)
        requires
            0 <= k <= self.selectors().len(),
        ensures
            self.rw_ops(k) == self.mem_reads(k) + count_true(self.selectors().take(k)),
        decreases k,
    {
        if k > 0 {
            self.lemma_rw_ops_split(k - 1);
            assert(self.selectors().take(k).drop_last() =~= self.selectors().take(k - 1));
        } else {
            assert(self.selectors().take(0) =~= Seq::<bool>::empty());
        }
    }

    /// The row's assertions, in emission order.
    pub fn lookups(&self) -> (r: Vec<Lookup>)
        requires
            self.addressable(),
        ensures
            r@ == self.lookups_spec(),
    {
        let mut out: Vec<Lookup> = Vec::new();
        let mut c: u64 = self.rw_counter;
        let mut i: usize = 0;
        while i < CAPACITY
            invariant
                i <= CAPACITY,
                self.addressable(),
                out@ == self.lookups_upto(i as int),
                c == self.rw_counter + self.rw_ops(i as int),
            decreases CAPACITY - i,
        {
            proof {
                lemma_rw_ops_bounded(self.selectors(), self.src_addr(), self.src_addr_end(), self.from_tx, i as int);
            }
            let ghost before = out@;
            let read = self.reader.read_flag(i);
            let b = self.reader.byte(i);
            if read {
                let addr = self.reader.src_addr + i as u64;
                if self.from_tx {
                    out.push(Lookup::CallData { tx_id: self.tx_id, index: addr, byte: b });
                } else {
                    out.push(
                        Lookup::Rw(
                            RwEntry { counter: c, is_write: false, call_id: self.call_id, address: addr, byte: b },
                        ),
                    );
                    c = c + 1;
                }
            }
            if self.reader.has_data(i) {
                out.push(
                    Lookup::Rw(
                        RwEntry {
                            counter: c,
                            is_write: true,
                            call_id: self.call_id,
                            address: self.dst_addr + i as u64,
                            byte: b,
                        },
                    ),
                );
                c = c + 1;
            }
            assert(out@ =~= before + self.position_lookups(i as int, self.rw_counter + self.rw_ops(i as int)));
            i = i + 1;
        }
        out
    }
}

/// `row` is the witness that assignment gives for step `aux`.
pub open spec fn assigned_from(
    row: CopyRow,
    aux: CopyStepAux,
    call_id: u64,
    rw_counter: u64,
    log: Seq<RwEntry>,
    call_data: Seq<u8>,
) -> bool {
    &&& row.reader.src_addr == aux.src_addr
    &&& row.reader.src_addr_end == aux.src_addr_end
    &&& row.reader.selectors@ == aux.selectors@
    &&& row.reader.bytes@ == Seq::new(CAPACITY as nat, |i: int| assigned_byte(aux, log, call_data, i))
    &&& row.dst_addr == aux.dst_addr
    &&& row.bytes_left == aux.bytes_left
    &&& row.from_tx == aux.from_tx
    &&& row.tx_id == aux.tx_id
    &&& row.call_id == call_id
    &&& row.rw_counter == rw_counter
    &&& row.finish.lt == (count_true(aux.selectors@) < aux.bytes_left)
    &&& row.finish.eq == (count_true(aux.selectors@) == aux.bytes_left)
    &&& row.finish.holds_spec(count_true(aux.selectors@) as int, aux.bytes_left as int)
}

/// Assigns the witness of a row from its trace step.
///
/// `log` is the slice of the global read/write log that the row consumes,
/// replayed in emission order: per active position, one entry for an in-bound
/// memory read, then one for the write. For a call-data copy the source bytes
/// come from `call_data`.
pub fn assign_row(
    aux: &CopyStepAux,
    call_id: u64,
    rw_counter: u64,
    log: &[RwEntry],
    call_data: &[u8],
) -> (r: Result<CopyRow, AssignError>)
    requires
        aux.selectors@.len() == CAPACITY,
        aux.bytes_left < COMPARE_BOUND,
    ensures
        r == Err::<CopyRow, AssignError>(AssignError::LogExhausted) <==> entries_needed(*aux) > log@.len(),
        r == Err::<CopyRow, AssignError>(AssignError::CallDataOutOfRange) <==> (entries_needed(*aux)
            <= log@.len() && !call_data_covers(*aux, call_data@.len() as int)),
        r is Ok <==> (entries_needed(*aux) <= log@.len() && call_data_covers(
            *aux,
            call_data@.len() as int,
        )),
        r is Ok ==> assigned_from(r->Ok_0, *aux, call_id, rw_counter, log@, call_data@),
        r is Ok && selectors_for(aux.selectors@, aux.bytes_left as int) ==> (r->Ok_0).constrained(),
{
    let ghost sel = aux.selectors@;
    let mut need: u64 = 0;
    let mut i: usize = 0;
    while i < CAPACITY
        invariant
            i <= CAPACITY,
            sel == aux.selectors@,
            sel.len() == CAPACITY,
            need == rw_ops_upto(sel, aux.src_addr, aux.src_addr_end, aux.from_tx, i as int),
        decreases CAPACITY - i,
    {
        proof {
            lemma_rw_ops_bounded(sel, aux.src_addr, aux.src_addr_end, aux.from_tx, i as int);
        }
        let inb = aux.src_addr < aux.src_addr_end && (i as u64) < aux.src_addr_end - aux.src_addr;
        if aux.selectors[i] && inb && !aux.from_tx {
            need = need + 1;
        }
        if aux.selectors[i] {
            need = need + 1;
        }
        i = i + 1;
    }
    if need > log.len() as u64 {
        return Err(AssignError::LogExhausted);
    }
    let mut bytes: Vec<u8> = Vec::new();
    let mut idx: u64 = 0;
    i = 0;
    while i < CAPACITY
        invariant
            i <= CAPACITY,
            sel == aux.selectors@,
            sel.len() == CAPACITY,
            need == entries_needed(*aux),
            need <= log@.len(),
            idx == rw_ops_upto(sel, aux.src_addr, aux.src_addr_end, aux.from_tx, i as int),
            bytes@.len() == i,
            forall|j: int| 0 <= j < i ==> bytes@[j] == assigned_byte(*aux, log@, call_data@, j),
            aux.from_tx ==> forall|j: int|
                0 <= j < i && #[trigger] sel[j] && in_bound(aux.src_addr, aux.src_addr_end, j)
                    ==> aux.src_addr + j < call_data@.len(),
        decreases CAPACITY - i,
    {
        proof {
            lemma_rw_ops_bounded(sel, aux.src_addr, aux.src_addr_end, aux.from_tx, i as int);
            lemma_rw_ops_monotone(sel, aux.src_addr, aux.src_addr_end, aux.from_tx, i + 1, CAPACITY as int);
        }
        let inb = aux.src_addr < aux.src_addr_end && (i as u64) < aux.src_addr_end - aux.src_addr;
        let active = aux.selectors[i];
        let b: u8 = if active && inb {
            if aux.from_tx {
                let addr = aux.src_addr + i as u64;
                if addr >= call_data.len() as u64 {
                    assert(sel[i as int] && in_bound(aux.src_addr, aux.src_addr_end, i as int));
                    return Err(AssignError::CallDataOutOfRange);
                }
                call_data[addr as usize]
            } else {
                let e = log[idx as usize].byte;
                idx = idx + 1;
                e
            }
        } else {
            0
        };
        if active {
            idx = idx + 1;
        }
        bytes.push(b);
        i = i + 1;
    }
    let copied = count_selected(&aux.selectors);
    proof {
        lemma_count_true_bounded(sel);
    }
    let finish = compare(copied, aux.bytes_left);
    let reader = BufferReader::new(aux.src_addr, aux.src_addr_end, bytes, aux.selectors.clone());
    let row = CopyRow {
        reader,
        dst_addr: aux.dst_addr,
        bytes_left: aux.bytes_left,
        from_tx: aux.from_tx,
        tx_id: aux.tx_id,
        call_id,
        rw_counter,
        finish,
    };
    assert(row.reader.bytes@ =~= Seq::new(CAPACITY as nat, |j: int| assigned_byte(*aux, log@, call_data@, j)));
    proof {
        if selectors_for(sel, aux.bytes_left as int) {
            let n: int = if aux.bytes_left < CAPACITY { aux.bytes_left as int } else { CAPACITY as int };
            lemma_count_prefix(sel, n);
            assert forall|j: int| 0 <= j < CAPACITY implies !#[trigger] row.reader.read_flag_spec(j)
                ==> row.reader.bytes@[j] == 0 by {
                assert(row.reader.bytes@[j] == assigned_byte(*aux, log@, call_data@, j));
            }
            assert forall|j: int| 0 < j < CAPACITY implies #[trigger] row.reader.selectors@[j]
                ==> row.reader.selectors@[j - 1] by {
                assert(sel[j] == (j < aux.bytes_left));
                assert(sel[j - 1] == (j - 1 < aux.bytes_left));
            }
        }
    }
    Ok(row)
}

/// A lookup is met by the tables: the global log holds the entry, or the call
/// data of transaction `tx_id` holds the byte at the index.
pub open spec fn in_tables(l: Lookup, log: Seq<RwEntry>, tx_id: u64, call_data: Seq<u8>) -> bool {
    match l {
        Lookup::Rw(e) => log.contains(e),
        Lookup::CallData { tx_id: t, index, byte } => t == tx_id && index < call_data.len()
            && call_data[index as int] == byte,
    }
}

/// Whether `log` holds `e`.
pub fn log_contains(log: &[RwEntry], e: RwEntry) -> (r: bool)
    ensures
        r == log@.contains(e),
{
    let mut j: usize = 0;
    while j < log.len()
        invariant
            j <= log@.len(),
            forall|k: int| 0 <= k < j ==> log@[k] != e,
        decreases log@.len() - j,
    {
        if log[j] == e {
            return true;
        }
        j = j + 1;
    }
    false
}

/// Whether the tables meet lookup `l`.
pub fn lookup_holds(l: Lookup, log: &[RwEntry], tx_id: u64, call_data: &[u8]) -> (r: bool)
    ensures
        r == in_tables(l, log@, tx_id, call_data@),
{
    match l {
        Lookup::Rw(e) => log_contains(log, e),
        Lookup::CallData { tx_id: t, index, byte } => t == tx_id && index < call_data.len() as u64
            && call_data[index as usize] == byte,
    }
}

impl CopyRow {
    /// Every assertion of the row is met by the tables.
    pub open spec fn lookups_met(&self, log: Seq<RwEntry>, tx_id: u64, call_data: Seq<u8>) -> bool {
        forall|k: int|
            0 <= k < self.lookups_spec().len() ==> in_tables(
                #[trigger] self.lookups_spec()[k],
                log,
                tx_id,
                call_data,
            )
    }

    /// Evaluates the row's table-membership assertions against the global log
    /// and the call data of transaction `tx_id`.
    pub fn lookups_hold(&self, log: &[RwEntry], tx_id: u64, call_data: &[u8]) -> (r: bool)
        requires
            self.addressable(),
        ensures
            r == self.lookups_met(log@, tx_id, call_data@),
    {
        let ls = self.lookups();
        let mut k: usize = 0;
        while k < ls.len()
            invariant
                k <= ls@.len(),
                ls@ == self.lookups_spec(),
                forall|j: int| 0 <= j < k ==> in_tables(#[trigger] ls@[j], log@, tx_id, call_data@),
            decreases ls@.len() - k,
        {
            if !lookup_holds(ls[k], log, tx_id, call_data) {
                return false;
            }
            k = k + 1;
        }
        true
    }

    /// A row that meets its own constraints copies `min(bytes_left, CAPACITY)`
    /// bytes, never more than it has left, and finishes exactly when that is
    /// all it has left.
    pub proof fn lemma_constrained_row(&self)
        requires
            self.constrained(),
        ensures
            self.copied_size_spec() == if self.bytes_left < CAPACITY {
                self.bytes_left as nat
            } else {
                CAPACITY as nat
            },
            self.copied_size_spec() <= self.bytes_left,
            self.finish.lt == (self.copied_size_spec() < self.bytes_left),
            self.finished_spec() == (self.bytes_left <= CAPACITY),
    {
        let n: int = if self.bytes_left < CAPACITY { self.bytes_left as int } else { CAPACITY as int };
        lemma_count_prefix(self.selectors(), n);
        lemma_comparison_sound(self.finish, self.copied_size_spec() as int, self.bytes_left as int);
    }

    /// Zero-fill beyond the source bound: an active position whose source
    /// address is at or past `src_addr_end` holds byte 0, emits no source read,
    /// and still emits the destination write, with value 0.
    pub proof fn lemma_out_of_bound_position(&self, i: int, c: int)
        requires
            self.constrained(),
            0 <= i < CAPACITY,
            self.selectors()[i],
            self.src_addr() + i >= self.src_addr_end(),
        ensures
            self.reader.bytes@[i] == 0,
            self.position_lookups(i, c) == seq![
                Lookup::Rw(
                    RwEntry {
                        counter: c as u64,
                        is_write: true,
                        call_id: self.call_id,
                        address: (self.dst_addr + i) as u64,
                        byte: 0,
                    },
                ),
            ],
    {
        assert(!self.reader.read_flag_spec(i));
        assert(self.position_lookups(i, c) =~= seq![
            Lookup::Rw(
                RwEntry {
                    counter: c as u64,
                    is_write: true,
                    call_id: self.call_id,
                    address: (self.dst_addr + i) as u64,
                    byte: 0,
                },
            ),
        ]);
    }

    /// The log entries that the positions below `k` assert have counters in
    /// `[rw_counter, rw_counter + rw_ops(k))`, strictly increasing in emission
    /// order.
    pub proof fn lemma_lookup_counters(&self, k: int)
        requires
            self.addressable(),
            0 <= k <= CAPACITY,
        ensures
            forall|a: int|
                0 <= a < self.lookups_upto(k).len() && #[trigger] self.lookups_upto(k)[a] is Rw ==> {
                    let e = self.lookups_upto(k)[a]->Rw_0;
                    self.rw_counter <= e.counter < self.rw_counter + self.rw_ops(k)
                },
            forall|a: int, b: int|
                0 <= a < b < self.lookups_upto(k).len() && #[trigger] self.lookups_upto(k)[a] is Rw
                    && #[trigger] self.lookups_upto(k)[b] is Rw ==> self.lookups_upto(k)[a]->Rw_0.counter
                    < self.lookups_upto(k)[b]->Rw_0.counter,
        decreases k,
    {
        if k > 0 {
            self.lemma_lookup_counters(k - 1);
            lemma_rw_ops_bounded(self.selectors(), self.src_addr(), self.src_addr_end(), self.from_tx, k);
            lemma_rw_ops_monotone(self.selectors(), self.src_addr(), self.src_addr_end(), self.from_tx, k - 1, k);
            let prev = self.lookups_upto(k - 1);
            let c = self.rw_counter + self.rw_ops(k - 1);
            let pos = self.position_lookups(k - 1, c);
            let all = self.lookups_upto(k);
            assert(all == prev + pos);
            let read = self.reader.read_flag_spec(k - 1);
            let mem = read && !self.from_tx;
            let active = self.selectors()[k - 1];
            assert(self.rw_ops(k) == self.rw_ops(k - 1) + (if mem { 1nat } else { 0nat }) + (if active {
                1nat
            } else {
                0nat
            }));
            assert(read ==> active);
            assert forall|a: int| prev.len() <= a < all.len() && #[trigger] all[a] is Rw implies {
                let e = all[a]->Rw_0;
                &&& c <= e.counter < self.rw_counter + self.rw_ops(k)
                &&& (mem && a == prev.len() ==> e.counter == c)
                &&& (mem && a == prev.len() + 1 ==> e.counter == c + 1)
            } by {
                assert(all[a] == pos[a - prev.len()]);
            }
            assert forall|a: int|
                0 <= a < all.len() && #[trigger] all[a] is Rw implies {
                    let e = all[a]->Rw_0;
                    self.rw_counter <= e.counter < self.rw_counter + self.rw_ops(k)
                } by {
                if a < prev.len() {
                    assert(all[a] == prev[a]);
                }
            }
            assert forall|a: int, b: int|
                0 <= a < b < all.len() && #[trigger] all[a] is Rw && #[trigger] all[b] is Rw implies all[a]->Rw_0.counter
                    < all[b]->Rw_0.counter by {
                if b < prev.len() {
                    assert(all[a] == prev[a]);
                    assert(all[b] == prev[b]);
                } else if a < prev.len() {
                    assert(all[a] == prev[a]);
                    assert(prev[a] is Rw);
                } else {
                    assert(all[a] == pos[a - prev.len()]);
                    assert(all[b] == pos[b - prev.len()]);
                    assert(mem);
                }
            }
        }
    }
}

} // verus!
