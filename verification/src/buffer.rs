//! A growable byte store with independent read/write cursors, in-place
//! compaction and an embedded string-interning table.
//!
//! The bytes in `[rpos, wpos)` are the only live, unread bytes; every
//! operation preserves their order and content. Compaction may move them to
//! the front of the backing store and reset the cursors.

use vstd::prelude::*;

use crate::values::{ErrorKind, RpError, RpResult};
use vstd::pervasive::VecAdditionalExecFns;

verus! {

/// What compaction does to a backing store and its cursors.
///
/// When everything live has been read, both cursors reset to the front and
/// an oversized backing store shrinks back to the ceiling. When the read
/// cursor has passed half of the backing store, the live span moves down to
/// offset zero, the bytes after it keeping their old values. Otherwise
/// nothing changes.
pub open spec fn spec_fix(data: Seq<u8>, rpos: nat, wpos: nat) -> (Seq<u8>, nat, nat) {
    if rpos >= wpos {
        if data.len() > BUFFER_CEILING {
            (data.take(BUFFER_CEILING as int), 0 as nat, 0 as nat)
        } else {
            (data, 0 as nat, 0 as nat)
        }
    } else if rpos > data.len() / 2 {
        (
            Seq::new(
                data.len(),
                |i: int|
                    if i < wpos - rpos {
                        data[rpos + i]
                    } else {
                        data[i]
                    },
            ),
            0 as nat,
            (wpos - rpos) as nat,
        )
    } else {
        (data, rpos, wpos)
    }
}

/// The backing store shrinks back to this many bytes when a full drain
/// finds it grown beyond it.
pub const BUFFER_CEILING: usize = 512000;

/// The initial size of the backing store.
pub const INITIAL_SIZE: usize = 2048;

/// A growable byte store with a read cursor, a write cursor and an
/// append-only string table.
pub struct Buffer {
    val: Vec<u8>,
    rpos: usize,
    wpos: usize,
    /// The per-message string-interning table, in first-seen order.
    pub str_arr: Vec<String>,
}

/// True when the table holds `s`.
pub open spec fn tbl_contains(tbl: Seq<Seq<char>>, s: Seq<char>) -> bool {
    exists|i: int| 0 <= i < tbl.len() && tbl[i] == s
}

/// The least index at which the table holds `s`.
pub open spec fn tbl_index_of(tbl: Seq<Seq<char>>, s: Seq<char>) -> int
    decreases tbl.len(),
{
    if tbl.len() == 0 {
        0
    } else if tbl[0] == s {
        0
    } else {
        1 + tbl_index_of(tbl.skip(1), s)
    }
}

/// What interning `s` does to a table: an existing entry is reused, a new
/// string is appended. Returns the new table and the index handed out.
pub open spec fn spec_add_str(tbl: Seq<Seq<char>>, s: Seq<char>) -> (Seq<Seq<char>>, int) {
    if tbl_contains(tbl, s) {
        (tbl, tbl_index_of(tbl, s))
    } else {
        (tbl.push(s), tbl.len() as int)
    }
}

/// The interned index of `s` names `s` in the table `spec_add_str` returns.
pub proof fn lemma_tbl_index_of(tbl: Seq<Seq<char>>, s: Seq<char>)
    requires
        tbl_contains(tbl, s),
    ensures
        0 <= tbl_index_of(tbl, s) < tbl.len(),
        tbl[tbl_index_of(tbl, s)] == s,
    decreases tbl.len(),
{
    if tbl.len() > 0 && tbl[0] != s {
        assert(tbl_contains(tbl.skip(1), s)) by {
            let i = choose|i: int| 0 <= i < tbl.len() && tbl[i] == s;
            assert(tbl.skip(1)[i - 1] == s);
        }
        lemma_tbl_index_of(tbl.skip(1), s);
    }
}

impl Buffer {
    /// The size of the backing store.
    pub open spec fn spec_cap(&self) -> nat {
        self.spec_data().len()
    }

    /// The whole backing store.
    pub closed spec fn spec_data(&self) -> Seq<u8> {
        self.val@
    }

    /// The read cursor.
    pub closed spec fn spec_rpos(&self) -> nat {
        self.rpos as nat
    }

    /// The write cursor.
    pub closed spec fn spec_wpos(&self) -> nat {
        self.wpos as nat
    }

    /// The live, unread bytes: the span `[rpos, wpos)` of the backing store.
    /// When the cursors are out of order nothing is live.
    pub open spec fn live(&self) -> Seq<u8> {
        if self.wf() {
            self.spec_data().subrange(self.spec_rpos() as int, self.spec_wpos() as int)
        } else {
            Seq::<u8>::empty()
        }
    }

    /// The cursors stay ordered and inside the backing store.
    pub open spec fn wf(&self) -> bool {
        self.spec_rpos() <= self.spec_wpos() <= self.spec_cap()
    }

    /// The string table as a sequence of character strings.
    pub closed spec fn table(&self) -> Seq<Seq<char>> {
        Seq::new(self.str_arr@.len(), |i: int| self.str_arr@[i]@)
    }

    /// A fresh buffer: an all-zero backing store of the initial size, both
    /// cursors at the start, an empty string table.
    pub fn new() -> (r: Buffer)
        ensures
            r.wf(),
            r.spec_rpos() == 0,
            r.spec_wpos() == 0,
            r.spec_cap() == INITIAL_SIZE,
            r.live() == Seq::<u8>::empty(),
            r.table() == Seq::<Seq<char>>::empty(),
    {
        let mut vec: Vec<u8> = Vec::new();
        while vec.len() < INITIAL_SIZE
            invariant
                vec@.len() <= INITIAL_SIZE,
            decreases INITIAL_SIZE - vec@.len(),
        {
            vec.push(0);
        }
        let r = Buffer { val: vec, rpos: 0, wpos: 0, str_arr: Vec::new() };
        proof {
            assert(r.live() =~= Seq::<u8>::empty());
            assert(r.table() =~= Seq::<Seq<char>>::empty());
        }
        r
    }

    /// Interns a string: returns the index of an existing exact match, else
    /// appends the string and returns its new index.
    pub fn add_str(&mut self, value: String) -> (idx: u16)
        ensures
            final(self).table() == spec_add_str(old(self).table(), value@).0,
            idx as int == spec_add_str(old(self).table(), value@).1 % 65536,
            final(self).spec_data() == old(self).spec_data(),
            final(self).spec_rpos() == old(self).spec_rpos(),
            final(self).spec_wpos() == old(self).spec_wpos(),
    {
        let ghost tbl = old(self).table();
        let n = self.str_arr.len();
        let mut i: usize = 0;
        while i < n
            invariant
                n == tbl.len(),
                i <= n,
                self == old(self),
                tbl == self.table(),
                forall|j: int| 0 <= j < i ==> tbl[j] != value@,
            decreases n - i,
        {
            if self.str_arr[i] == value {
                proof {
                    assert(tbl[i as int] == value@);
                    lemma_tbl_index_of_found(tbl, value@, i as int);
                }
                return (i % 65536) as u16;
            }
            i += 1;
        }
        assert(!tbl_contains(tbl, value@));
        self.str_arr.push(value);
        proof {
            assert(self.table() =~= tbl.push(value@));
        }
        (n % 65536) as u16
    }

    /// How many strings the table holds.
    pub fn table_size(&self) -> (n: usize)
        ensures
            n == self.table().len(),
    {
        self.str_arr.len()
    }

    /// Returns the interned string at `idx`, or an out-of-range error.
    pub fn get_str(&self, idx: u16) -> (r: RpResult<String>)
        ensures
            match r {
                Ok(s) => idx < self.table().len() && s@ == self.table()[idx as int],
                Err(e) => idx >= self.table().len() && e.spec_kind()
                    == ErrorKind::BufferOverMaxError,
            },
    {
        if idx as usize >= self.str_arr.len() {
            Err(RpError::with_description(ErrorKind::BufferOverMaxError, "must left space to read "))
        } else {
            Ok(self.str_arr[idx as usize].clone())
        }
    }

    /// The whole backing store.
    pub fn get_data(&self) -> (r: &Vec<u8>)
        ensures
            r@ == self.spec_data(),
    {
        &self.val
    }

    /// A copy of the live span `[rpos, wpos)`.
    pub fn get_write_data(&self) -> (r: Vec<u8>)
        requires
            self.wf(),
        ensures
            r@ == self.live(),
    {
        let mut out: Vec<u8> = Vec::new();
        let mut i = self.rpos;
        while i < self.wpos
            invariant
                self.wf(),
                self.spec_rpos() <= i <= self.spec_wpos(),
                out@ == self.spec_data().subrange(self.spec_rpos() as int, i as int),
            decreases self.spec_wpos() - i,
        {
            out.push(self.val[i]);
            proof {
                assert(out@ =~= self.spec_data().subrange(
                    self.spec_rpos() as int,
                    i + 1 as int,
                ));
            }
            i += 1;
        }
        out
    }

    /// The size of the backing store.
    pub fn len(&self) -> (r: usize)
        ensures
            r == self.spec_cap(),
    {
        self.val.len()
    }

    /// How many live bytes remain to be read.
    pub fn data_len(&self) -> (r: usize)
        ensures
            r == if self.spec_wpos() > self.spec_rpos() {
                self.spec_wpos() - self.spec_rpos()
            } else {
                0
            },
    {
        if self.wpos > self.rpos {
            self.wpos - self.rpos
        } else {
            0
        }
    }

    /// Moves the read cursor.
    pub fn set_rpos(&mut self, rpos: usize)
        ensures
            final(self).spec_rpos() == rpos,
            final(self).spec_wpos() == old(self).spec_wpos(),
            final(self).spec_data() == old(self).spec_data(),
            final(self).table() == old(self).table(),
    {
        self.rpos = rpos;
    }

    /// The read cursor.
    pub fn get_rpos(&self) -> (r: usize)
        ensures
            r == self.spec_rpos(),
    {
        self.rpos
    }

    /// Moves the write cursor.
    pub fn set_wpos(&mut self, wpos: usize)
        ensures
            final(self).spec_wpos() == wpos,
            final(self).spec_rpos() == old(self).spec_rpos(),
            final(self).spec_data() == old(self).spec_data(),
            final(self).table() == old(self).table(),
    {
        self.wpos = wpos;
    }

    /// The write cursor.
    pub fn get_wpos(&self) -> (r: usize)
        ensures
            r == self.spec_wpos(),
    {
        self.wpos
    }

    /// Resets both cursors, keeping the backing store and the table.
    pub fn clear(&mut self)
        ensures
            final(self).spec_rpos() == 0,
            final(self).spec_wpos() == 0,
            final(self).spec_data() == old(self).spec_data(),
            final(self).table() == old(self).table(),
    {
        self.rpos = 0;
        self.wpos = 0;
    }

    /// Appends the given bytes at the write cursor, growing the backing
    /// store to twice the required size when it is too small. A zero-length
    /// write is a no-op success.
    pub fn write(&mut self, buf: &[u8]) -> (r: RpResult<usize>)
        requires
            old(self).wf(),
            old(self).spec_wpos() + buf@.len() <= usize::MAX / 2,
        ensures
            final(self).wf(),
            r matches Ok(n) && n == buf@.len(),
            final(self).spec_rpos() == old(self).spec_rpos(),
            final(self).spec_wpos() == old(self).spec_wpos() + buf@.len(),
            final(self).table() == old(self).table(),
            final(self).live() == old(self).live() + buf@,
            final(self).spec_cap() == if old(self).spec_cap() < old(self).spec_wpos()
                + buf@.len() {
                (old(self).spec_wpos() + buf@.len()) * 2
            } else {
                old(self).spec_cap()
            },
    {
        let ghost pre = *old(self);
        if self.val.len() < self.wpos + buf.len() {
            let target = (self.wpos + buf.len()) * 2;
            while self.val.len() < target
                invariant
                    self.val@.len() <= target,
                    self.val@.len() >= pre.spec_cap(),
                    self.val@.subrange(0, pre.spec_cap() as int) == pre.spec_data(),
                    self.rpos == pre.spec_rpos(),
                    self.wpos == pre.spec_wpos(),
                    self.str_arr == pre.str_arr,
                decreases target - self.val@.len(),
            {
                self.val.push(0);
                proof {
                    assert(self.val@.subrange(0, pre.spec_cap() as int) =~= pre.spec_data());
                }
            }
        }
        let n = buf.len();
        proof {
            assert(self.wpos + n <= usize::MAX / 2);
        }
        let mut i: usize = 0;
        while i < n
            invariant
                pre.wf(),
                i <= n,
                n == buf@.len(),
                self.wpos == pre.spec_wpos(),
                self.rpos == pre.spec_rpos(),
                self.str_arr == pre.str_arr,
                self.wpos + n <= usize::MAX / 2,
                self.wpos + n <= self.val@.len(),
                self.val@.len() == if pre.spec_cap() < pre.spec_wpos() + n {
                    (pre.spec_wpos() + n) * 2
                } else {
                    pre.spec_cap() as int
                },
                forall|k: int| 0 <= k < self.wpos ==> self.val@[k] == pre.spec_data()[k],
                forall|k: int| 0 <= k < i ==> self.val@[self.wpos + k] == buf@[k],
            decreases n - i,
        {
            self.val.set(self.wpos + i, buf[i]);
            i += 1;
        }
        self.wpos = self.wpos + n;
        proof {
            assert(self.live() =~= pre.live() + buf@);
        }
        Ok(n)
    }

    /// Copies at most `data.len()` live bytes into the front of `data`,
    /// advances the read cursor by the count copied and returns it; the
    /// rest of `data` is untouched. Never blocks.
    pub fn read(&mut self, data: &mut Vec<u8>) -> (n: usize)
        requires
            old(self).wf(),
        ensures
            final(self).wf(),
            n == if old(data)@.len() <= old(self).live().len() {
                old(data)@.len()
            } else {
                old(self).live().len()
            },
            final(self).spec_rpos() == old(self).spec_rpos() + n,
            final(self).spec_wpos() == old(self).spec_wpos(),
            final(self).spec_data() == old(self).spec_data(),
            final(self).table() == old(self).table(),
            final(self).live() == old(self).live().skip(n as int),
            final(data)@.len() == old(data)@.len(),
            final(data)@.subrange(0, n as int) == old(self).live().subrange(0, n as int),
            final(data)@.subrange(n as int, final(data)@.len() as int) == old(data)@.subrange(
                n as int,
                old(data)@.len() as int,
            ),
    {
        let ghost pre = *old(self);
        let ghost predata = old(data)@;
        let left = self.wpos - self.rpos;
        let want = data.len();
        let n = if left > want {
            want
        } else {
            left
        };
        let mut i: usize = 0;
        while i < n
            invariant
                i <= n,
                n <= predata.len(),
                *self == pre,
                pre.wf(),
                pre.spec_rpos() + n <= pre.spec_wpos(),
                data@.len() == predata.len(),
                forall|k: int| 0 <= k < i ==> data@[k] == pre.live()[k],
                forall|k: int| i <= k < data@.len() ==> data@[k] == predata[k],
            decreases n - i,
        {
            data.set(i, self.val[self.rpos + i]);
            i += 1;
        }
        self.rpos = self.rpos + n;
        proof {
            assert(self.live() =~= pre.live().skip(n as int));
            assert(data@.subrange(0, n as int) =~= pre.live().subrange(0, n as int));
            assert(data@.subrange(n as int, data@.len() as int) =~= predata.subrange(
                n as int,
                predata.len() as int,
            ));
        }
        n
    }

    /// Ensures room for an incoming read of up to `max_bytes - 1` bytes
    /// after the write cursor, growing the backing store when needed, and
    /// returns a copy of that window.
    pub fn get_read_array(&mut self, max_bytes: usize) -> (r: Vec<u8>)
        requires
            old(self).wf(),
            1 <= max_bytes,
            old(self).spec_wpos() + max_bytes + 1 <= usize::MAX,
        ensures
            final(self).wf(),
            final(self).spec_rpos() == old(self).spec_rpos(),
            final(self).spec_wpos() == old(self).spec_wpos(),
            final(self).table() == old(self).table(),
            final(self).spec_cap() == if old(self).spec_cap() - old(self).spec_wpos() < max_bytes {
                old(self).spec_wpos() + max_bytes + 1
            } else {
                old(self).spec_cap() as int
            },
            final(self).live() == old(self).live(),
            r@ == final(self).spec_data().subrange(
                final(self).spec_wpos() as int,
                final(self).spec_wpos() + max_bytes - 1,
            ),
    {
        let ghost pre = *old(self);
        if self.val.len() - self.wpos < max_bytes {
            let target = self.wpos + max_bytes + 1;
            while self.val.len() < target
                invariant
                    self.val@.len() <= target,
                    self.val@.len() >= pre.spec_cap(),
                    self.val@.subrange(0, pre.spec_cap() as int) == pre.spec_data(),
                    self.rpos == pre.spec_rpos(),
                    self.wpos == pre.spec_wpos(),
                    self.str_arr == pre.str_arr,
                decreases target - self.val@.len(),
            {
                self.val.push(0);
                proof {
                    assert(self.val@.subrange(0, pre.spec_cap() as int) =~= pre.spec_data());
                }
            }
            proof {
                assert(self.live() =~= pre.live());
            }
        }
        let mut out: Vec<u8> = Vec::new();
        let hi = self.wpos + max_bytes - 1;
        let mut i = self.wpos;
        while i < hi
            invariant
                self.wpos <= i <= hi,
                hi <= self.val@.len(),
                out@ == self.val@.subrange(self.wpos as int, i as int),
            decreases hi - i,
        {
            out.push(self.val[i]);
            proof {
                assert(out@ =~= self.val@.subrange(self.wpos as int, i + 1));
            }
            i += 1;
        }
        out
    }

    /// Advances the write cursor over bytes that an outside reader has
    /// deposited in the backing store.
    pub fn write_offset(&mut self, pos: usize)
        requires
            old(self).spec_wpos() + pos <= usize::MAX,
        ensures
            final(self).spec_wpos() == old(self).spec_wpos() + pos,
            final(self).spec_rpos() == old(self).spec_rpos(),
            final(self).spec_data() == old(self).spec_data(),
            final(self).table() == old(self).table(),
    {
        self.wpos = self.wpos + pos;
    }

    /// Advances the read cursor, compacts, and reports whether everything
    /// live has now been read.
    pub fn read_offset(&mut self, pos: usize) -> (r: bool)
        requires
            old(self).spec_rpos() + pos <= usize::MAX,
            old(self).spec_wpos() <= old(self).spec_cap(),
        ensures
            ({
                let (d, rp, wp) = spec_fix(
                    old(self).spec_data(),
                    (old(self).spec_rpos() + pos) as nat,
                    old(self).spec_wpos(),
                );
                &&& final(self).spec_data() == d
                &&& final(self).spec_rpos() == rp
                &&& final(self).spec_wpos() == wp
            }),
            final(self).table() == old(self).table(),
            final(self).wf(),
            r == (final(self).spec_rpos() == final(self).spec_wpos()),
    {
        self.rpos = self.rpos + pos;
        self.fix_buffer();
        self.rpos == self.wpos
    }

    /// Compacts the backing store: resets the cursors once everything live
    /// has been read (shrinking an oversized store), and moves the live
    /// span down to offset zero once the read cursor has passed half of
    /// the backing store. The live bytes are preserved in order.
    pub fn fix_buffer(&mut self) -> (r: bool)
        requires
            old(self).spec_wpos() <= old(self).spec_cap(),
        ensures
            r,
            ({
                let (d, rp, wp) = spec_fix(
                    old(self).spec_data(),
                    old(self).spec_rpos(),
                    old(self).spec_wpos(),
                );
                &&& final(self).spec_data() == d
                &&& final(self).spec_rpos() == rp
                &&& final(self).spec_wpos() == wp
            }),
            final(self).table() == old(self).table(),
            final(self).wf(),
            final(self).live() == old(self).live(),
    {
        let ghost pre = *old(self);
        if self.rpos >= self.wpos {
            self.rpos = 0;
            self.wpos = 0;
            if self.val.len() > BUFFER_CEILING {
                self.val.truncate(BUFFER_CEILING);
                proof {
                    assert(self.val@ =~= pre.spec_data().take(BUFFER_CEILING as int));
                }
            }
            proof {
                assert(self.live() =~= Seq::<u8>::empty());
                if pre.wf() {
                    assert(pre.live() =~= Seq::<u8>::empty());
                }
            }
        } else if self.rpos > self.val.len() / 2 {
            let len = self.wpos - self.rpos;
            let mut i: usize = 0;
            while i < len
                invariant
                    i <= len,
                    len == pre.spec_wpos() - pre.spec_rpos(),
                    pre.spec_rpos() < pre.spec_wpos() <= pre.spec_cap(),
                    len <= pre.spec_rpos(),
                    self.rpos == pre.spec_rpos(),
                    self.wpos == pre.spec_wpos(),
                    self.str_arr == pre.str_arr,
                    self.val@.len() == pre.spec_cap(),
                    forall|j: int| 0 <= j < i ==> self.val@[j] == pre.spec_data()[pre.spec_rpos()
                        + j],
                    forall|j: int|
                        i <= j < self.val@.len() ==> self.val@[j] == pre.spec_data()[j],
                decreases len - i,
            {
                let b = self.val[self.rpos + i];
                self.val.set(i, b);
                i += 1;
            }
            self.rpos = 0;
            self.wpos = len;
            proof {
                let (d, rp, wp) = spec_fix(pre.spec_data(), pre.spec_rpos(), pre.spec_wpos());
                assert(self.val@ =~= d);
                assert(self.live() =~= pre.live());
            }
        }
        true
    }

    /// Removes the first `pos` bytes of the backing store, clamping the
    /// cursor decrements at zero, then compacts.
    pub fn drain(&mut self, pos: usize)
        requires
            old(self).wf(),
        ensures
            ({
                let k = if pos <= old(self).spec_cap() {
                    pos as nat
                } else {
                    old(self).spec_cap()
                };
                let rp = if pos <= old(self).spec_rpos() {
                    (old(self).spec_rpos() - pos) as nat
                } else {
                    0 as nat
                };
                let wp = if pos <= old(self).spec_wpos() {
                    (old(self).spec_wpos() - pos) as nat
                } else {
                    0 as nat
                };
                let (d, rp2, wp2) = spec_fix(old(self).spec_data().skip(k as int), rp, wp);
                &&& final(self).spec_data() == d
                &&& final(self).spec_rpos() == rp2
                &&& final(self).spec_wpos() == wp2
            }),
            final(self).table() == old(self).table(),
            final(self).wf(),
    {
        let _ = self.drain_collect(pos);
    }

    /// Removes the first `pos` bytes of the backing store as `drain` does
    /// and returns them.
    pub fn drain_collect(&mut self, pos: usize) -> (r: Vec<u8>)
        requires
            old(self).wf(),
        ensures
            ({
                let k = if pos <= old(self).spec_cap() {
                    pos as nat
                } else {
                    old(self).spec_cap()
                };
                let rp = if pos <= old(self).spec_rpos() {
                    (old(self).spec_rpos() - pos) as nat
                } else {
                    0 as nat
                };
                let wp = if pos <= old(self).spec_wpos() {
                    (old(self).spec_wpos() - pos) as nat
                } else {
                    0 as nat
                };
                let (d, rp2, wp2) = spec_fix(old(self).spec_data().skip(k as int), rp, wp);
                &&& final(self).spec_data() == d
                &&& final(self).spec_rpos() == rp2
                &&& final(self).spec_wpos() == wp2
                &&& r@ == old(self).spec_data().take(k as int)
            }),
            final(self).table() == old(self).table(),
            final(self).wf(),
    {
        let ghost pre = *old(self);
        self.rpos = self.rpos - if self.rpos <= pos {
            self.rpos
        } else {
            pos
        };
        self.wpos = self.wpos - if self.wpos <= pos {
            self.wpos
        } else {
            pos
        };
        let k = if pos <= self.val.len() {
            pos
        } else {
            self.val.len()
        };
        let mut removed: Vec<u8> = Vec::new();
        let mut i: usize = 0;
        while i < k
            invariant
                i <= k,
                k <= self.val@.len(),
                self.val@ == pre.spec_data(),
                removed@ == pre.spec_data().subrange(0, i as int),
            decreases k - i,
        {
            removed.push(self.val[i]);
            proof {
                assert(removed@ =~= pre.spec_data().subrange(0, i + 1));
            }
            i += 1;
        }
        let mut rest: Vec<u8> = Vec::new();
        let mut j: usize = k;
        while j < self.val.len()
            invariant
                k <= j <= self.val@.len(),
                self.val@ == pre.spec_data(),
                rest@ == pre.spec_data().subrange(k as int, j as int),
            decreases self.val@.len() - j,
        {
            rest.push(self.val[j]);
            proof {
                assert(rest@ =~= pre.spec_data().subrange(k as int, j + 1));
            }
            j += 1;
        }
        self.val = rest;
        proof {
            assert(self.val@ =~= pre.spec_data().skip(k as int));
        }
        self.fix_buffer();
        removed
    }

    /// Removes and returns the live span, resetting both cursors; the rest
    /// of the backing store stays.
    pub fn drain_all_collect(&mut self) -> (r: Vec<u8>)
        requires
            old(self).wf(),
        ensures
            r@ == old(self).live(),
            final(self).spec_rpos() == 0,
            final(self).spec_wpos() == 0,
            final(self).spec_data() == old(self).spec_data().take(old(self).spec_rpos() as int)
                + old(self).spec_data().skip(old(self).spec_wpos() as int),
            final(self).table() == old(self).table(),
            final(self).wf(),
    {
        let ghost pre = *old(self);
        let rpos = self.rpos;
        let wpos = self.wpos;
        self.clear();
        let mut taken: Vec<u8> = Vec::new();
        let mut keep: Vec<u8> = Vec::new();
        let mut i: usize = 0;
        while i < rpos
            invariant
                i <= rpos,
                rpos == pre.spec_rpos(),
                pre.wf(),
                self.val@ == pre.spec_data(),
                keep@ == pre.spec_data().subrange(0, i as int),
            decreases rpos - i,
        {
            keep.push(self.val[i]);
            proof {
                assert(keep@ =~= pre.spec_data().subrange(0, i + 1));
            }
            i += 1;
        }
        let mut j: usize = rpos;
        while j < wpos
            invariant
                rpos <= j <= wpos,
                rpos == pre.spec_rpos(),
                wpos == pre.spec_wpos(),
                pre.wf(),
                self.val@ == pre.spec_data(),
                taken@ == pre.spec_data().subrange(rpos as int, j as int),
            decreases wpos - j,
        {
            taken.push(self.val[j]);
            proof {
                assert(taken@ =~= pre.spec_data().subrange(rpos as int, j + 1));
            }
            j += 1;
        }
        let mut t: usize = wpos;
        while t < self.val.len()
            invariant
                wpos <= t <= self.val@.len(),
                rpos == pre.spec_rpos(),
                wpos == pre.spec_wpos(),
                pre.wf(),
                self.val@ == pre.spec_data(),
                keep@ == pre.spec_data().subrange(0, rpos as int) + pre.spec_data().subrange(
                    wpos as int,
                    t as int,
                ),
            decreases self.val@.len() - t,
        {
            keep.push(self.val[t]);
            proof {
                assert(keep@ =~= pre.spec_data().subrange(0, rpos as int)
                    + pre.spec_data().subrange(wpos as int, t + 1));
            }
            t += 1;
        }
        self.val = keep;
        proof {
            assert(pre.live() =~= pre.spec_data().subrange(
                pre.spec_rpos() as int,
                pre.spec_wpos() as int,
            ));
        }
        taken
    }

    /// Appends one byte at the write cursor.
    pub(crate) fn write_byte(&mut self, b: u8)
        requires
            old(self).wf(),
            old(self).spec_wpos() + 1 <= usize::MAX / 2,
        ensures
            final(self).wf(),
            final(self).spec_rpos() == old(self).spec_rpos(),
            final(self).spec_wpos() == old(self).spec_wpos() + 1,
            final(self).table() == old(self).table(),
            final(self).live() == old(self).live().push(b),
    {
        let mut tmp: Vec<u8> = Vec::new();
        tmp.push(b);
        let _ = self.write(tmp.as_slice());
        proof {
            assert(old(self).live() + tmp@ =~= old(self).live().push(b));
        }
    }

    /// Takes the next live byte, advancing the read cursor; `None` when
    /// nothing is live.
    pub(crate) fn read_byte(&mut self) -> (r: Option<u8>)
        requires
            old(self).wf(),
        ensures
            final(self).wf(),
            final(self).spec_wpos() == old(self).spec_wpos(),
            final(self).spec_data() == old(self).spec_data(),
            final(self).table() == old(self).table(),
            old(self).live().len() == 0 ==> r is None && final(self).spec_rpos() == old(
                self,
            ).spec_rpos(),
            old(self).live().len() > 0 ==> r == Some(old(self).live()[0]) && final(self).spec_rpos()
                == old(self).spec_rpos() + 1 && final(self).live() == old(self).live().skip(1),
    {
        if self.rpos < self.wpos {
            let b = self.val[self.rpos];
            self.rpos = self.rpos + 1;
            proof {
                assert(self.live() =~= old(self).live().skip(1));
            }
            Some(b)
        } else {
            None
        }
    }

    /// Takes the next `n` live bytes, advancing the read cursor. When fewer
    /// are live, everything live is consumed and `None` comes back.
    pub(crate) fn read_exact(&mut self, n: usize) -> (r: Option<Vec<u8>>)
        requires
            old(self).wf(),
        ensures
            final(self).wf(),
            final(self).spec_wpos() == old(self).spec_wpos(),
            final(self).spec_data() == old(self).spec_data(),
            final(self).table() == old(self).table(),
            old(self).live().len() >= n ==> ({
                &&& r matches Some(v) && v@ == old(self).live().take(n as int)
                &&& final(self).spec_rpos() == old(self).spec_rpos() + n
                &&& final(self).live() == old(self).live().skip(n as int)
            }),
            old(self).live().len() < n ==> r is None && final(self).spec_rpos() == old(
                self,
            ).spec_wpos(),
    {
        let ghost pre = *old(self);
        let avail = self.wpos - self.rpos;
        if avail < n {
            self.rpos = self.wpos;
            return None;
        }
        let mut out: Vec<u8> = Vec::new();
        let mut i: usize = 0;
        while i < n
            invariant
                i <= n,
                *self == pre,
                pre.wf(),
                pre.spec_rpos() + n <= pre.spec_wpos(),
                out@ == pre.live().subrange(0, i as int),
            decreases n - i,
        {
            out.push(self.val[self.rpos + i]);
            proof {
                assert(out@ =~= pre.live().subrange(0, i + 1));
            }
            i += 1;
        }
        self.rpos = self.rpos + n;
        proof {
            assert(out@ =~= pre.live().take(n as int));
            assert(self.live() =~= pre.live().skip(n as int));
        }
        Some(out)
    }

    /// Appends another buffer's live bytes to this one.
    pub fn extend(&mut self, buffer: &Buffer) -> (r: RpResult<usize>)
        requires
            old(self).wf(),
            buffer.wf(),
            old(self).spec_wpos() + buffer.live().len() <= usize::MAX / 2,
        ensures
            final(self).wf(),
            r matches Ok(n) && n == buffer.live().len(),
            final(self).spec_rpos() == old(self).spec_rpos(),
            final(self).spec_wpos() == old(self).spec_wpos() + buffer.live().len(),
            final(self).table() == old(self).table(),
            final(self).live() == old(self).live() + buffer.live(),
    {
        let data = buffer.get_write_data();
        self.write(data.as_slice())
    }
}

/// Establishes `tbl_index_of` for a first match found by a scan from the
/// front: if `tbl[i] == s` and no earlier entry equals `s`, the least index
/// is `i`.
pub proof fn lemma_tbl_index_of_found(tbl: Seq<Seq<char>>, s: Seq<char>, i: int)
    requires
        0 <= i < tbl.len(),
        tbl[i] == s,
        forall|j: int| 0 <= j < i ==> tbl[j] != s,
    ensures
        tbl_contains(tbl, s),
        tbl_index_of(tbl, s) == i,
    decreases tbl.len(),
{
    if i > 0 {
        assert(tbl.skip(1)[i - 1] == s);
        assert(forall|j: int| 0 <= j < i - 1 ==> tbl.skip(1)[j] == tbl[j + 1]);
        lemma_tbl_index_of_found(tbl.skip(1), s, i - 1);
    }
}

} // verus!
