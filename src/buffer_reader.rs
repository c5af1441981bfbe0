use vstd::prelude::*;

verus! {

/// Maximum number of bytes that one row copies.
pub const CAPACITY: usize = 71;

/// Number of `true` entries of `s`.
pub open spec fn count_true(s: Seq<bool>) -> nat
    decreases s.len(),
{
    if s.len() == 0 {
        0
    } else {
        count_true(s.drop_last()) + (if s.last() { 1nat } else { 0nat })
    }
}

/// Whether the absolute source address of position `i` lies below the bound.
pub open spec fn in_bound(src_addr: u64, src_addr_end: u64, i: int) -> bool {
    src_addr + i < src_addr_end
}

/// Selectors that are `true` exactly at the positions `i < bytes_left`.
pub open spec fn selectors_for(sel: Seq<bool>, bytes_left: int) -> bool {
    &&& sel.len() == CAPACITY
    &&& forall|i: int| 0 <= i < CAPACITY ==> #[trigger] sel[i] == (i < bytes_left)
}

/// At most every entry is counted.
pub proof fn lemma_count_true_bounded(s: Seq<bool>)
    ensures
        count_true(s) <= s.len(),
    decreases s.len(),
{
    if s.len() > 0 {
        lemma_count_true_bounded(s.drop_last());
    }
}

/// Selectors that are `true` on a prefix of length `n` count `n`.
pub proof fn lemma_count_prefix(s: Seq<bool>, n: int)
    requires
        0 <= n <= s.len(),
        forall|i: int| 0 <= i < s.len() ==> #[trigger] s[i] == (i < n),
    ensures
        count_true(s) == n,
    decreases s.len(),
{
    if s.len() > 0 {
        let t = s.drop_last();
        if n == s.len() {
            lemma_count_prefix(t, n - 1);
        } else {
            lemma_count_prefix(t, n);
        }
    }
}

/// Counts the `true` entries of `s`.
pub fn count_selected(s: &Vec<bool>) -> (r: u64)
    requires
        s@.len() <= u64::MAX,
    ensures
        r == count_true(s@),
{
    let mut r: u64 = 0;
    let mut i: usize = 0;
    while i < s.len()
        invariant
            i <= s@.len(),
            s@.len() <= u64::MAX,
            r == count_true(s@.take(i as int)),
        decreases s@.len() - i,
    {
        assert(s@.take(i + 1).drop_last() =~= s@.take(i as int));
        proof {
            lemma_count_true_bounded(s@.take(i as int));
        }
        if s[i] {
            r = r + 1;
        }
        i = i + 1;
    }
    assert(s@.take(s@.len() as int) =~= s@);
    r
}

/// One row's view of the source buffer: which positions are active, and the
/// byte witnessed at each of them.
#[derive(Clone, Debug)]
pub struct BufferReader {
    pub src_addr: u64,
    pub src_addr_end: u64,
    pub selectors: Vec<bool>,
    pub bytes: Vec<u8>,
}

impl BufferReader {
    /// Position `i` reads the source: it is active and below the bound.
    pub open spec fn read_flag_spec(&self, i: int) -> bool {
        self.selectors@[i] && in_bound(self.src_addr, self.src_addr_end, i)
    }

    /// Number of active positions.
    pub open spec fn num_bytes_spec(&self) -> nat {
        count_true(self.selectors@)
    }

    /// The reader's constraints: fixed width, active positions form a prefix,
    /// and every byte that is not read from the source is zero.
    pub open spec fn constrained(&self) -> bool {
        &&& self.selectors@.len() == CAPACITY
        &&& self.bytes@.len() == CAPACITY
        &&& forall|i: int|
            0 < i < CAPACITY ==> #[trigger] self.selectors@[i] ==> self.selectors@[i - 1]
        &&& forall|i: int|
            0 <= i < CAPACITY ==> !#[trigger] self.read_flag_spec(i) ==> self.bytes@[i] == 0
    }

    /// Builds a reader from a source range, the bytes and the selectors.
    pub fn new(src_addr: u64, src_addr_end: u64, bytes: Vec<u8>, selectors: Vec<bool>) -> (r: Self)
        ensures
            r.src_addr == src_addr,
            r.src_addr_end == src_addr_end,
            r.bytes@ == bytes@,
            r.selectors@ == selectors@,
    {
        BufferReader { src_addr, src_addr_end, selectors, bytes }
    }

    /// Whether position `i` lies below the source bound.
    pub fn in_bound(&self, i: usize) -> (r: bool)
        ensures
            r == in_bound(self.src_addr, self.src_addr_end, i as int),
    {
        self.src_addr < self.src_addr_end && (i as u64) < self.src_addr_end - self.src_addr
    }

    /// Whether position `i` reads the source.
    pub fn read_flag(&self, i: usize) -> (r: bool)
        requires
            i < self.selectors@.len(),
        ensures
            r == self.read_flag_spec(i as int),
    {
        self.selectors[i] && self.in_bound(i)
    }

    /// Whether position `i` writes the destination.
    pub fn has_data(&self, i: usize) -> (r: bool)
        requires
            i < self.selectors@.len(),
        ensures
            r == self.selectors@[i as int],
    {
        self.selectors[i]
    }

    /// The byte witnessed at position `i`.
    pub fn byte(&self, i: usize) -> (r: u8)
        requires
            i < self.bytes@.len(),
        ensures
            r == self.bytes@[i as int],
    {
        self.bytes[i]
    }

    /// Number of active positions.
    pub fn num_bytes(&self) -> (r: u64)
        requires
            self.selectors@.len() == CAPACITY,
        ensures
            r == self.num_bytes_spec(),
            r <= CAPACITY,
    {
        proof {
            lemma_count_true_bounded(self.selectors@);
        }
        count_selected(&self.selectors)
    }

    /// Evaluates the reader's constraints.
    pub fn check(&self) -> (r: bool)
        ensures
            r == self.constrained(),
    {
        if self.selectors.len() != CAPACITY || self.bytes.len() != CAPACITY {
            return false;
        }
        let mut i: usize = 0;
        while i < CAPACITY
            invariant
                i <= CAPACITY,
                self.selectors@.len() == CAPACITY,
                self.bytes@.len() == CAPACITY,
                forall|j: int| 0 < j < i ==> #[trigger] self.selectors@[j] ==> self.selectors@[j - 1],
                forall|j: int| 0 <= j < i ==> !#[trigger] self.read_flag_spec(j) ==> self.bytes@[j] == 0,
            decreases CAPACITY - i,
        {
            if i > 0 && self.selectors[i] && !self.selectors[i - 1] {
                return false;
            }
            if !self.read_flag(i) && self.bytes[i] != 0 {
                return false;
            }
            i = i + 1;
        }
        true
    }
}

} // verus!
