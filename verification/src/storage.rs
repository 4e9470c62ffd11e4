//! Structure-of-arrays attribute storage with an optional second buffer.
//!
//! Attribute values are held as the 64-bit patterns of their `f64` values
//! (`f64::to_bits`), so that the storage logic works on plain integers.

use vstd::prelude::*;

verus! {

/// Single buffer, or double buffer: during a tick reads see the state of the
/// last commit while writes go to the front buffer.
#[derive(Clone, Copy, Debug, PartialEq, Eq, Structural)]
pub enum BufferMode {
    Single,
    Double,
}

/// Start of an entity's block of float slots in the storage.
#[derive(Clone, Copy, Debug, PartialEq, Eq, Structural, Hash)]
pub struct FloatOffset(pub u32);

/// Start of an entity's block of integer slots in the storage.
#[derive(Clone, Copy, Debug, PartialEq, Eq, Structural, Hash)]
pub struct IntOffset(pub u32);

/// Position of a field inside an entity's block.
#[derive(Clone, Copy, Debug, PartialEq, Eq, Structural, Hash)]
pub struct FieldIndex(pub u16);

/// Number of float slots tracked by one dirty bit.
pub const PAGE_SIZE: usize = 512;

/// Number of pages needed for `len` slots.
pub open spec fn page_count(len: int) -> int {
    (len + PAGE_SIZE - 1) / (PAGE_SIZE as int)
}

pub struct Storage {
    buf_a: Vec<u64>,
    buf_b: Vec<u64>,
    mode: BufferMode,
    dirty_pages: Vec<bool>,
    ints: Vec<i64>,
    float_allocated: usize,
    int_allocated: usize,
    snapshot_valid: bool,
    tick_in_progress: bool,
}

impl Storage {
    /// The front buffer: the values written last.
    pub closed spec fn front(&self) -> Seq<u64> {
        self.buf_a@
    }

    /// The back buffer: in double mode, the values of the last commit.
    pub closed spec fn back(&self) -> Seq<u64> {
        self.buf_b@
    }

    /// One dirty bit per page of the front buffer (double mode).
    pub closed spec fn dirty(&self) -> Seq<bool> {
        self.dirty_pages@
    }

    pub closed spec fn mode_spec(&self) -> BufferMode {
        self.mode
    }

    /// The integer slots.
    pub closed spec fn int_slots(&self) -> Seq<i64> {
        self.ints@
    }

    pub closed spec fn in_tick(&self) -> bool {
        self.tick_in_progress
    }

    /// What a read during a tick sees.
    pub open spec fn read_view(&self) -> Seq<u64> {
        if self.mode_spec() == BufferMode::Double { self.back() } else { self.front() }
    }

    /// In double-buffered mode, a write of the tick leaves what the tick's
    /// reads see unchanged.
    pub proof fn law_reads_ignore_writes(s1: Storage, s2: Storage, abs: int, v: u64)
        requires
            s1.mode_spec() == BufferMode::Double,
            s2.mode_spec() == s1.mode_spec(),
            s2.front() == s1.front().update(abs, v),
            s2.back() == s1.back(),
        ensures
            s2.read_view() == s1.read_view(),
    {
    }

    /// Once committed, the reads see every write: what they see is the
    /// current buffer.
    pub proof fn law_commit_publishes(s1: Storage, s2: Storage)
        requires
            s1.mode_spec() == BufferMode::Double ==> s2.back() == s2.front(),
            s2.mode_spec() == s1.mode_spec(),
        ensures
            s2.read_view() == s2.front(),
    {
    }

    /// Double-buffer bookkeeping: both buffers have one length, and every slot
    /// where they differ lies on a dirty page.
    pub open spec fn double_synced(&self) -> bool {
        &&& self.back().len() == self.front().len()
        &&& self.dirty().len() == page_count(self.front().len() as int)
        &&& forall|i: int|
            0 <= i < self.front().len() && #[trigger] self.front()[i] != self.back()[i]
                ==> self.dirty()[i / (PAGE_SIZE as int)]
    }

    /// Offsets are `u32`, and the page count `(len + PAGE_SIZE - 1) /
    /// PAGE_SIZE` is computed in `usize`, which may be 32 bits wide: the
    /// buffers stay a page short of `u32::MAX`.
    pub open spec fn wf(&self) -> bool {
        &&& self.wf_inner()
        &&& self.front().len() + PAGE_SIZE <= u32::MAX
    }

    pub closed spec fn wf_inner(&self) -> bool {
        &&& self.buf_a@.len() == self.float_allocated as nat
        &&& self.buf_a@.len() + PAGE_SIZE <= u32::MAX
        &&& self.int_slots().len() == self.int_allocated as nat
        &&& self.mode == BufferMode::Double ==> self.double_synced()
    }

    pub fn new() -> (s: Self)
        ensures
            s.wf(),
            s.mode_spec() == BufferMode::Single,
            s.front() == Seq::<u64>::empty(),
            s.back() == Seq::<u64>::empty(),
            s.dirty() == Seq::<bool>::empty(),
            s.int_slots() == Seq::<i64>::empty(),
            !s.in_tick(),
    {
        Self::with_mode(BufferMode::Single)
    }

    pub fn with_mode(mode: BufferMode) -> (s: Self)
        ensures
            s.wf(),
            s.mode_spec() == mode,
            s.front() == Seq::<u64>::empty(),
            s.back() == Seq::<u64>::empty(),
            s.dirty() == Seq::<bool>::empty(),
            s.int_slots() == Seq::<i64>::empty(),
            !s.in_tick(),
    {
        Storage {
            buf_a: Vec::new(),
            buf_b: Vec::new(),
            mode,
            dirty_pages: Vec::new(),
            ints: Vec::new(),
            float_allocated: 0,
            int_allocated: 0,
            snapshot_valid: false,
            tick_in_progress: false,
        }
    }

    /// Switches the buffer mode; entering double mode copies the front buffer
    /// into the back buffer and clears every dirty bit.
    pub fn set_mode(&mut self, mode: BufferMode)
        requires
            old(self).wf(),
        ensures
            final(self).wf(),
            final(self).mode_spec() == mode,
            final(self).front() == old(self).front(),
            final(self).int_slots() == old(self).int_slots(),
            final(self).in_tick() == old(self).in_tick(),
            mode == BufferMode::Double ==> final(self).back() == final(self).front(),
            mode == BufferMode::Double ==> forall|p: int| 0 <= p < final(self).dirty().len() ==> !final(self).dirty()[p],
    {
        self.mode = mode;
        if mode == BufferMode::Double {
            let n = self.buf_a.len();
            let mut b: Vec<u64> = Vec::new();
            let mut i: usize = 0;
            while i < n
                invariant
                    n == self.buf_a@.len(),
                    i <= n,
                    b@ == self.buf_a@.subrange(0, i as int),
                decreases n - i,
            {
                b.push(self.buf_a[i]);
                i = i + 1;
                proof {
                    assert(b@ =~= self.buf_a@.subrange(0, i as int));
                }
            }
            proof {
                assert(b@ =~= self.buf_a@);
            }
            self.buf_b = b;
            let page_count = (n + PAGE_SIZE - 1) / PAGE_SIZE;
            self.dirty_pages = vec![false; page_count];
            self.snapshot_valid = true;
        }
    }

    pub fn mode(&self) -> (m: BufferMode)
        ensures
            m == self.mode_spec(),
    {
        self.mode
    }

    /// Reserves `count` float slots (zero) and returns the first one.
    pub fn alloc_floats(&mut self, count: usize) -> (off: FloatOffset)
        requires
            old(self).wf(),
            old(self).front().len() + count + PAGE_SIZE <= u32::MAX,
        ensures
            final(self).wf(),
            off.0 as int == old(self).front().len(),
            final(self).front() == old(self).front() + Seq::new(count as nat, |i: int| 0u64),
            final(self).read_view().len() == final(self).front().len(),
            forall|i: int| 0 <= i < old(self).front().len() ==> final(self).read_view()[i] == old(self).read_view()[i],
            final(self).mode_spec() == old(self).mode_spec(),
            final(self).int_slots() == old(self).int_slots(),
            final(self).in_tick() == old(self).in_tick(),
    {
        let offset = self.float_allocated;
        self.float_allocated = self.float_allocated + count;
        if self.buf_a.len() < self.float_allocated {
            let fa = self.float_allocated;
            self.buf_a.resize(fa, 0);
            if self.mode == BufferMode::Double {
                self.buf_b.resize(fa, 0);
                let page_count = (fa + PAGE_SIZE - 1) / PAGE_SIZE;
                self.dirty_pages.resize(page_count, false);
                proof {
                    assert forall|i: int|
                        0 <= i < self.buf_a@.len() && #[trigger] self.buf_a@[i] != self.buf_b@[i]
                        implies self.dirty_pages@[i / (PAGE_SIZE as int)] by {
                        if i < old(self).buf_a@.len() {
                            assert(self.buf_a@[i] == old(self).buf_a@[i]);
                            assert(self.buf_b@[i] == old(self).buf_b@[i]);
                            assert(i / (PAGE_SIZE as int) < old(self).dirty_pages@.len()) by {
                                assert(i / 512 <= (old(self).buf_a@.len() - 1) / 512);
                            }
                        }
                    }
                }
            }
        }
        proof {
            assert(self.buf_a@ =~= old(self).buf_a@ + Seq::new(count as nat, |i: int| 0u64));
        }
        FloatOffset(offset as u32)
    }

    /// Reserves `count` integer slots (zero) and returns the first one.
    pub fn alloc_ints(&mut self, count: usize) -> (off: IntOffset)
        requires
            old(self).wf(),
            old(self).int_slots().len() + count <= u32::MAX,
        ensures
            final(self).wf(),
            off.0 as int == old(self).int_slots().len(),
            final(self).int_slots() == old(self).int_slots() + Seq::new(count as nat, |i: int| 0i64),
            final(self).front() == old(self).front(),
            final(self).back() == old(self).back(),
            final(self).dirty() == old(self).dirty(),
            final(self).mode_spec() == old(self).mode_spec(),
            final(self).in_tick() == old(self).in_tick(),
    {
        let offset = self.int_allocated;
        self.int_allocated = self.int_allocated + count;
        if self.ints.len() < self.int_allocated {
            let ia = self.int_allocated;
            self.ints.resize(ia, 0);
        }
        proof {
            assert(self.ints@ =~= old(self).ints@ + Seq::new(count as nat, |i: int| 0i64));
        }
        IntOffset(offset as u32)
    }

    /// Value of `field` in the block at `offset` (front buffer).
    pub fn read_float(&self, offset: FloatOffset, field: FieldIndex) -> (v: u64)
        requires
            self.wf(),
            offset.0 + field.0 < self.front().len(),
        ensures
            v == self.front()[offset.0 + field.0],
    {
        let idx = offset.0 as usize + field.0 as usize;
        self.buf_a[idx]
    }

    /// Sets `field` of the block at `offset` in both buffers (double mode), or
    /// in the front buffer; out-of-range positions are ignored.
    pub fn init_float(&mut self, offset: FloatOffset, field: FieldIndex, value: u64)
        requires
            old(self).wf(),
            offset.0 + field.0 <= usize::MAX,
        ensures
            final(self).wf(),
            final(self).front() == Self::write_spec(old(self).front(), offset.0 + field.0, value),
            final(self).read_view() == Self::write_spec(old(self).read_view(), offset.0 + field.0, value),
            final(self).mode_spec() == old(self).mode_spec(),
            final(self).int_slots() == old(self).int_slots(),
            final(self).in_tick() == old(self).in_tick(),
    {
        let idx = offset.0 as usize + field.0 as usize;
        self.write_abs(idx, value);
    }

    /// `s` with position `i` set to `v` when it is in range.
    pub open spec fn write_spec(s: Seq<u64>, i: int, v: u64) -> Seq<u64> {
        if 0 <= i < s.len() { s.update(i, v) } else { s }
    }

    /// Value at absolute position `abs` of the front buffer, 0 out of range.
    pub fn read_abs(&self, abs: usize) -> (v: u64)
        requires
            self.wf(),
        ensures
            v == (if abs < self.front().len() { self.front()[abs as int] } else { 0 }),
    {
        if abs < self.buf_a.len() {
            self.buf_a[abs]
        } else {
            0
        }
    }

    /// Writes absolute position `abs` outside a tick: the front buffer and, in
    /// double mode, the back buffer too; out-of-range positions are ignored.
    pub fn write_abs(&mut self, abs: usize, value: u64)
        requires
            old(self).wf(),
        ensures
            final(self).wf(),
            final(self).front() == Self::write_spec(old(self).front(), abs as int, value),
            final(self).read_view() == Self::write_spec(old(self).read_view(), abs as int, value),
            final(self).mode_spec() == BufferMode::Double ==> final(self).back() == Self::write_spec(old(self).back(), abs as int, value),
            final(self).mode_spec() == old(self).mode_spec(),
            final(self).dirty() == old(self).dirty(),
            final(self).int_slots() == old(self).int_slots(),
            final(self).in_tick() == old(self).in_tick(),
    {
        if abs < self.buf_a.len() {
            self.buf_a.set(abs, value);
            if self.mode == BufferMode::Double && abs < self.buf_b.len() {
                self.buf_b.set(abs, value);
            }
        }
        proof {
            if self.mode == BufferMode::Double {
                assert forall|i: int|
                    0 <= i < self.buf_a@.len() && #[trigger] self.buf_a@[i] != self.buf_b@[i]
                    implies self.dirty_pages@[i / (PAGE_SIZE as int)] by {
                    assert(i != abs);
                }
            }
        }
    }

    pub fn begin_tick(&mut self)
        requires
            old(self).wf(),
        ensures
            final(self).wf(),
            final(self).in_tick(),
            final(self).front() == old(self).front(),
            final(self).back() == old(self).back(),
            final(self).dirty() == old(self).dirty(),
            final(self).mode_spec() == old(self).mode_spec(),
            final(self).int_slots() == old(self).int_slots(),
    {
        self.tick_in_progress = true;
    }

    pub fn end_tick(&mut self)
        requires
            old(self).wf(),
        ensures
            final(self).wf(),
            !final(self).in_tick(),
            final(self).front() == old(self).front(),
            final(self).back() == old(self).back(),
            final(self).dirty() == old(self).dirty(),
            final(self).mode_spec() == old(self).mode_spec(),
            final(self).int_slots() == old(self).int_slots(),
    {
        self.tick_in_progress = false;
    }

    /// Number of slots a tick may read and write.
    pub open spec fn tick_len(&self) -> int {
        if self.mode_spec() == BufferMode::Double {
            if self.front().len() <= self.back().len() { self.front().len() as int } else { self.back().len() as int }
        } else {
            self.front().len() as int
        }
    }

    /// Float positions a tick may use.
    pub fn tick_len_exec(&self) -> (n: usize)
        requires
            self.wf(),
        ensures
            n as int == self.tick_len(),
    {
        match self.mode {
            BufferMode::Double => {
                if self.buf_a.len() <= self.buf_b.len() { self.buf_a.len() } else { self.buf_b.len() }
            },
            BufferMode::Single => self.buf_a.len(),
        }
    }

    /// Read during a tick: the back buffer in double mode, else the front one.
    pub fn tick_read(&self, abs: usize) -> (v: u64)
        requires
            self.wf(),
            abs < self.tick_len(),
        ensures
            v == self.read_view()[abs as int],
    {
        match self.mode {
            BufferMode::Single => self.buf_a[abs],
            BufferMode::Double => self.buf_b[abs],
        }
    }

    /// Own-field read during a tick: always the front buffer.
    pub fn tick_read_front(&self, abs: usize) -> (v: u64)
        requires
            self.wf(),
            abs < self.tick_len(),
        ensures
            v == self.front()[abs as int],
    {
        self.buf_a[abs]
    }

    /// Write during a tick: the front buffer only; in double mode the page of
    /// `abs` is marked dirty.
    pub fn tick_write(&mut self, abs: usize, value: u64)
        requires
            old(self).wf(),
            abs < old(self).tick_len(),
        ensures
            final(self).wf(),
            final(self).front() == old(self).front().update(abs as int, value),
            final(self).back() == old(self).back(),
            final(self).mode_spec() == old(self).mode_spec(),
            final(self).int_slots() == old(self).int_slots(),
            final(self).in_tick() == old(self).in_tick(),
            final(self).mode_spec() == BufferMode::Double ==> final(self).dirty()[abs as int / (PAGE_SIZE as int)],
    {
        self.buf_a.set(abs, value);
        if self.mode == BufferMode::Double {
            let page = abs / PAGE_SIZE;
            if page < self.dirty_pages.len() {
                self.dirty_pages.set(page, true);
            }
            proof {
                assert(page < self.dirty_pages@.len()) by {
                    assert(abs / 512 <= (self.buf_a@.len() - 1) / 512);
                }
                assert forall|i: int|
                    0 <= i < self.buf_a@.len() && #[trigger] self.buf_a@[i] != self.buf_b@[i]
                    implies self.dirty_pages@[i / (PAGE_SIZE as int)] by {
                    if i != abs {
                        assert(old(self).buf_a@[i] != old(self).buf_b@[i]);
                    }
                }
            }
        }
    }

    /// Publishes the writes of a tick: in double mode every dirty page is
    /// copied from the front to the back buffer and its bit cleared, after
    /// which both buffers agree.
    pub fn commit(&mut self)
        requires
            old(self).wf(),
        ensures
            final(self).wf(),
            final(self).front() == old(self).front(),
            final(self).mode_spec() == old(self).mode_spec(),
            final(self).int_slots() == old(self).int_slots(),
            final(self).in_tick() == old(self).in_tick(),
            old(self).mode_spec() == BufferMode::Single ==> final(self).back() == old(self).back(),
            old(self).mode_spec() == BufferMode::Double ==> final(self).back() == final(self).front(),
            old(self).mode_spec() == BufferMode::Double ==> forall|p: int| 0 <= p < final(self).dirty().len() ==> !final(self).dirty()[p],
    {
        match self.mode {
            BufferMode::Single => {},
            BufferMode::Double => {
                let len = self.buf_a.len();
                let np = self.dirty_pages.len();
                let mut page_idx: usize = 0;
                while page_idx < np
                    invariant
                        self.wf(),
                        self.mode == BufferMode::Double,
                        len == self.buf_a@.len(),
                        np == self.dirty_pages@.len(),
                        np == page_count(len as int),
                        page_idx <= np,
                        self.buf_a@ == old(self).buf_a@,
                        self.int_slots() == old(self).int_slots(),
                        self.tick_in_progress == old(self).tick_in_progress,
                        forall|i: int| 0 <= i < len && i / 512 < page_idx ==> #[trigger] self.buf_b@[i] == self.buf_a@[i],
                        forall|p: int| 0 <= p < page_idx ==> !#[trigger] self.dirty_pages@[p],
                    decreases np - page_idx,
                {
                    if self.dirty_pages[page_idx] {
                        proof {
                            assert(page_idx * 512 <= len) by (nonlinear_arith)
                                requires page_idx < np, np == (len + 511) / 512;
                        }
                        let start = page_idx * PAGE_SIZE;
                        let end = if start + PAGE_SIZE < len { start + PAGE_SIZE } else { len };
                        let mut k: usize = start;
                        while k < end
                            invariant
                                self.wf(),
                                self.mode == BufferMode::Double,
                                len == self.buf_a@.len(),
                                np == self.dirty_pages@.len(),
                                np == page_count(len as int),
                                page_idx < np,
                                start == page_idx * 512,
                                end <= len,
                                start <= k <= end,
                                end == start + 512 || end == len,
                                self.dirty_pages@[page_idx as int],
                                self.buf_a@ == old(self).buf_a@,
                                self.int_slots() == old(self).int_slots(),
                                self.tick_in_progress == old(self).tick_in_progress,
                                forall|i: int| 0 <= i < len && i / 512 < page_idx ==> #[trigger] self.buf_b@[i] == self.buf_a@[i],
                                forall|i: int| start <= i < k ==> #[trigger] self.buf_b@[i] == self.buf_a@[i],
                                forall|p: int| 0 <= p < page_idx ==> !#[trigger] self.dirty_pages@[p],
                            decreases end - k,
                        {
                            let v = self.buf_a[k];
                            self.buf_b.set(k, v);
                            k = k + 1;
                        }
                        self.dirty_pages.set(page_idx, false);
                        proof {
                            assert forall|i: int| 0 <= i < len && i / 512 < page_idx + 1 implies #[trigger] self.buf_b@[i] == self.buf_a@[i] by {
                                if i / 512 == page_idx as int {
                                    assert(start <= i);
                                    assert(i < end) by {
                                        assert(i < (page_idx + 1) * 512);
                                    }
                                }
                            }
                        }
                    } else {
                        proof {
                            assert forall|i: int| 0 <= i < len && i / 512 < page_idx + 1 implies #[trigger] self.buf_b@[i] == self.buf_a@[i] by {
                                if i / 512 == page_idx as int && self.buf_b@[i] != self.buf_a@[i] {
                                    assert(self.dirty_pages@[i / 512]);
                                }
                            }
                        }
                    }
                    page_idx = page_idx + 1;
                }
                self.snapshot_valid = true;
                proof {
                    assert forall|i: int| 0 <= i < len implies #[trigger] self.buf_b@[i] == self.buf_a@[i] by {
                        assert(i / 512 < np) by {
                            assert(i / 512 <= (len - 1) / 512);
                        }
                    }
                    assert(self.buf_b@ =~= self.buf_a@);
                }
            },
        }
    }

    /// Bytes held by the front buffer and the integer slots.
    pub fn memory_bytes(&self) -> (n: usize)
        requires
            self.wf(),
            (self.front().len() + self.int_slots().len()) * 8 <= usize::MAX,
        ensures
            n == (self.front().len() + self.int_slots().len()) * 8,
    {
        self.buf_a.len() * 8 + self.ints.len() * 8
    }

    /// Bytes held by all float buffers in use and the integer slots.
    pub fn total_memory_bytes(&self) -> (n: usize)
        requires
            self.wf(),
            (self.front().len() + self.back().len() + self.int_slots().len()) * 8 <= usize::MAX,
        ensures
            n == (if self.mode_spec() == BufferMode::Single {
                self.front().len() * 8
            } else {
                (self.front().len() + self.back().len()) * 8
            }) + self.int_slots().len() * 8,
    {
        let float_bytes = match self.mode {
            BufferMode::Single => self.buf_a.len() * 8,
            BufferMode::Double => (self.buf_a.len() + self.buf_b.len()) * 8,
        };
        float_bytes + self.ints.len() * 8
    }

    pub fn float_count(&self) -> (n: usize)
        ensures
            n == self.front().len(),
    {
        self.buf_a.len()
    }
}

} // verus!
