//! The byte-addressable memory region: a growable zero-filled byte buffer
//! paired with a free-extent list, supporting push/extend/alloc/free with
//! first-fit allocation and full coalescing on free.

use vstd::prelude::*;

verus! {

/// The mathematical value of a `Memory`: the bytes written so far, and the
/// free list as a sequence of `(start address, length)` extents.
#[verifier::ext_equal]
pub struct MemV {
    pub bytes: Seq<u8>,
    pub free: Seq<(usize, usize)>,
}

/// A free list in which every extent is non-empty, ends within the address
/// space, and starts no earlier than the end of its predecessor. This is the
/// state of the list right after a new extent is inserted, before coalescing.
pub open spec fn free_list_sorted(free: Seq<(usize, usize)>) -> bool {
    &&& forall|i: int|
        0 <= i < free.len() ==> (#[trigger] free[i]).1 >= 1 && free[i].0 + free[i].1 <= usize::MAX
    &&& forall|i: int|
        0 <= i && i + 1 < free.len() ==> (#[trigger] free[i]).0 + free[i].1 <= free[i + 1].0
}

/// A well-formed free list: sorted and disjoint as above and, additionally,
/// maximally coalesced — no extent ends where the next one starts.
pub open spec fn free_list_wf(free: Seq<(usize, usize)>) -> bool {
    &&& forall|i: int|
        0 <= i < free.len() ==> (#[trigger] free[i]).1 >= 1 && free[i].0 + free[i].1 <= usize::MAX
    &&& forall|i: int|
        0 <= i && i + 1 < free.len() ==> (#[trigger] free[i]).0 + free[i].1 < free[i + 1].0
}

/// The byte range `[a, a + l)` overlaps no extent of the free list.
pub open spec fn range_disjoint_from_free(free: Seq<(usize, usize)>, a: int, l: int) -> bool {
    forall|i: int|
        0 <= i < free.len() ==> (a + l <= (#[trigger] free[i]).0 || free[i].0 + free[i].1 <= a)
}

/// `bytes`, grown with zero bytes until it is at least `n` long.
pub open spec fn grow_to(bytes: Seq<u8>, n: int) -> Seq<u8> {
    if bytes.len() >= n {
        bytes
    } else {
        bytes + Seq::new((n - bytes.len()) as nat, |i: int| 0u8)
    }
}

/// `bytes` with `data` written starting at address `a`.
pub open spec fn write_seq(bytes: Seq<u8>, a: int, data: Seq<u8>) -> Seq<u8> {
    Seq::new(
        bytes.len(),
        |i: int|
            if a <= i < a + data.len() {
                data[i - a]
            } else {
                bytes[i]
            },
    )
}

/// The index of the first extent of length at least `need` (first fit).
pub open spec fn first_fit(free: Seq<(usize, usize)>, need: nat) -> Option<int>
    decreases free.len(),
{
    if free.len() == 0 {
        None
    } else if free[0].1 >= need {
        Some(0int)
    } else {
        match first_fit(free.drop_first(), need) {
            Some(i) => Some(i + 1),
            None => None,
        }
    }
}

/// The free list after the extent at `i` has served `need` bytes: it shrinks
/// from the left, and leaves the list when exhausted.
pub open spec fn free_after_take(free: Seq<(usize, usize)>, i: int, need: nat) -> Seq<
    (usize, usize),
> {
    if free[i].1 == need {
        free.remove(i)
    } else {
        free.update(i, ((free[i].0 + need) as usize, (free[i].1 - need) as usize))
    }
}

/// Writing one byte at the start of the lowest-addressed free extent.
/// `None` when the free list is empty.
pub open spec fn spec_push(v: MemV, value: u8) -> Option<(MemV, usize)> {
    if v.free.len() == 0 {
        None
    } else {
        let a = v.free[0].0;
        let bytes2 = write_seq(grow_to(v.bytes, a + 1), a as int, seq![value]);
        Some((MemV { bytes: bytes2, free: free_after_take(v.free, 0, 1) }, a))
    }
}

/// Writing `data` at the start of the first free extent that fits it.
/// `None` when no extent is large enough.
pub open spec fn spec_extend(v: MemV, data: Seq<u8>) -> Option<(MemV, usize)> {
    match first_fit(v.free, data.len()) {
        None => None,
        Some(i) => {
            let a = v.free[i].0;
            let bytes2 = write_seq(grow_to(v.bytes, a + data.len()), a as int, data);
            Some((MemV { bytes: bytes2, free: free_after_take(v.free, i, data.len()) }, a))
        },
    }
}

/// Reserving `len` bytes at the start of the first free extent that fits
/// them, zero-filling any newly covered bytes. `None` when no extent fits.
pub open spec fn spec_alloc(v: MemV, len: usize) -> Option<(MemV, usize)> {
    match first_fit(v.free, len as nat) {
        None => None,
        Some(i) => {
            let a = v.free[i].0;
            Some(
                (
                    MemV { bytes: grow_to(v.bytes, a + len), free: free_after_take(v.free, i, len as nat) },
                    a,
                ),
            )
        },
    }
}

/// One left-to-right pass merging every extent that ends exactly where its
/// successor starts. On a sorted list this coalesces maximally, including
/// multi-way chains, since each merge extends the extent under the cursor.
pub open spec fn merge_adjacent(s: Seq<(usize, usize)>) -> Seq<(usize, usize)>
    decreases s.len(),
{
    if s.len() <= 1 {
        s
    } else if s[0].0 + s[0].1 == s[1].0 {
        merge_adjacent(s.drop_first().update(0, (s[0].0, (s[0].1 + s[1].1) as usize)))
    } else {
        seq![s[0]] + merge_adjacent(s.drop_first())
    }
}

/// The position at which an extent starting at `a` belongs in the sorted
/// free list: the index of the first extent that starts at `a` or later.
pub open spec fn insert_pos(free: Seq<(usize, usize)>, a: int) -> int
    decreases free.len(),
{
    if free.len() == 0 {
        0
    } else if free[0].0 >= a {
        0
    } else {
        1 + insert_pos(free.drop_first(), a)
    }
}

/// Freeing the range `[a, a + l)`: its bytes are zeroed, and the extent is
/// inserted into the free list in address order and coalesced.
pub open spec fn spec_remove(v: MemV, a: usize, l: usize) -> MemV {
    let bytes2 = write_seq(v.bytes, a as int, Seq::new(l as nat, |i: int| 0u8));
    let free2 = merge_adjacent(v.free.insert(insert_pos(v.free, a as int), (a, l)));
    MemV { bytes: bytes2, free: free2 }
}

/// A byte buffer, logically addressed from 0 and grown zero-filled on
/// demand, with a free-extent list that initially covers the whole address
/// space.
#[derive(Debug)]
pub struct Memory {
    memory: Vec<u8>,
    free: Vec<(usize, usize)>,
}

impl View for Memory {
    type V = MemV;

    closed spec fn view(&self) -> MemV {
        MemV { bytes: self.memory@, free: self.free@ }
    }
}

impl Memory {
    /// The free list is well formed: disjoint, ascending, maximally coalesced.
    pub open spec fn wf(&self) -> bool {
        free_list_wf(self@.free)
    }

    /// A fresh memory: no byte written, one free extent covering every address.
    pub fn new() -> (r: Memory)
        ensures
            r.wf(),
            r@.bytes == Seq::<u8>::empty(),
            r@.free == seq![(0usize, usize::MAX)],
    {
        let mut free: Vec<(usize, usize)> = Vec::new();
        free.push((0, usize::MAX));
        proof {
            assert(free@ =~= seq![(0usize, usize::MAX)]);
            assert(forall|i: int| 0 <= i < free@.len() ==> free@[i] == (0usize, usize::MAX));
        }
        Memory { memory: Vec::new(), free }
    }

    /// Grows the buffer with zero bytes until it is at least `n` long.
    fn grow(&mut self, n: usize)
        ensures
            final(self)@.bytes == grow_to(old(self)@.bytes, n as int),
            final(self)@.free == old(self)@.free,
    {
        proof {
            assert(self@.bytes =~= grow_to(self@.bytes, self@.bytes.len() as int));
        }
        while self.memory.len() < n
            invariant
                self@.bytes.len() <= n || self@.bytes == grow_to(old(self)@.bytes, n as int),
                grow_to(self@.bytes, n as int) == grow_to(old(self)@.bytes, n as int),
                self@.free == old(self)@.free,
            decreases n - self.memory.len(),
        {
            let ghost pre = self@.bytes;
            self.memory.push(0);
            proof {
                assert(grow_to(pre.push(0u8), n as int) =~= grow_to(pre, n as int));
            }
        }
        proof {
            assert(self@.bytes =~= grow_to(self@.bytes, n as int));
        }
    }

    /// Writes one byte at the lowest free address.
    ///
    /// The byte goes at the current start of the first free extent, which
    /// advances and shrinks by one, leaving the list when exhausted. Returns
    /// the written address.
    pub fn push(&mut self, value: u8) -> (address: usize)
        requires
            old(self).wf(),
            old(self)@.free.len() >= 1,
        ensures
            final(self).wf(),
            spec_push(old(self)@, value) == Some((final(self)@, address)),
    {
        proof {
            assert(old(self)@.free[0].1 >= 1 && old(self)@.free[0].0 + old(self)@.free[0].1
                <= usize::MAX);
        }
        let (a, n): (usize, usize) = self.free[0];
        self.grow(a + 1);
        proof {
            assert(self@.bytes.len() >= a + 1);
        }
        self.memory.set(a, value);
        if n == 1 {
            self.free.remove(0);
        } else {
            self.free.set(0, (a + 1, n - 1));
        }
        proof {
            lemma_free_after_take_wf(old(self)@.free, 0, 1);
            assert(self@.bytes =~= write_seq(grow_to(old(self)@.bytes, a + 1), a as int, seq![value]));
            if n == 1 {
                assert(self@.free =~= free_after_take(old(self)@.free, 0, 1));
            }
        }
        a
    }

    /// The first-fit search: the index of the first free extent of length at
    /// least `need`, if any extent is that large.
    pub(crate) fn find_fit(&self, need: usize) -> (r: Option<usize>)
        ensures
            match r {
                Some(i) => first_fit(self@.free, need as nat) == Some(i as int),
                None => first_fit(self@.free, need as nat) is None,
            },
    {
        proof {
            assert(self@.free.skip(0) =~= self@.free);
        }
        let mut i: usize = 0;
        while i < self.free.len()
            invariant
                i <= self@.free.len(),
                match first_fit(self@.free.skip(i as int), need as nat) {
                    Some(j) => first_fit(self@.free, need as nat) == Some(j + i),
                    None => first_fit(self@.free, need as nat) is None,
                },
            decreases self.free.len() - i,
        {
            let ghost pre = self@.free.skip(i as int);
            proof {
                assert(pre[0] == self@.free[i as int]);
            }
            if self.free[i].1 >= need {
                return Some(i);
            }
            i = i + 1;
            proof {
                assert(pre.drop_first() =~= self@.free.skip(i as int));
            }
        }
        proof {
            assert(self@.free.skip(i as int) =~= Seq::<(usize, usize)>::empty());
        }
        None
    }

    /// Writes `data` at the start of the first free extent that can hold it
    /// (first fit), shrinking or removing that extent; returns the starting
    /// address. The caller must have checked that some extent fits.
    pub fn extend(&mut self, data: &[u8]) -> (address: usize)
        requires
            old(self).wf(),
            first_fit(old(self)@.free, data@.len()) is Some,
        ensures
            final(self).wf(),
            spec_extend(old(self)@, data@) == Some((final(self)@, address)),
    {
        let index: usize = match self.find_fit(data.len()) {
            Some(i) => i,
            None => {
                proof {
                    assert(false);
                }
                0
            },
        };
        proof {
            lemma_first_fit_in_range(old(self)@.free, data@.len());
            assert(old(self)@.free[index as int].1 >= data@.len());
            assert(old(self)@.free[index as int].0 + old(self)@.free[index as int].1
                <= usize::MAX);
        }
        let (a, n): (usize, usize) = self.free[index];
        self.grow(a + data.len());
        proof {
            assert(self@.bytes.len() >= a + data@.len());
        }
        let ghost grown = self@.bytes;
        let mut k: usize = 0;
        while k < data.len()
            invariant
                k <= data@.len(),
                a + data@.len() <= usize::MAX,
                a + data@.len() <= self@.bytes.len(),
                self@.bytes.len() == grown.len(),
                forall|j: int|
                    0 <= j < self@.bytes.len() ==> self@.bytes[j] == (if a <= j < a + k {
                        data@[j - a]
                    } else {
                        grown[j]
                    }),
                self@.free == old(self)@.free,
            decreases data@.len() - k,
        {
            self.memory.set(a + k, data[k]);
            k = k + 1;
        }
        if n == data.len() {
            self.free.remove(index);
        } else {
            self.free.set(index, (a + data.len(), n - data.len()));
        }
        proof {
            lemma_free_after_take_wf(old(self)@.free, index as int, data@.len());
            assert(self@.bytes =~= write_seq(grow_to(old(self)@.bytes, a + data@.len()), a as int, data@));
            if n == data@.len() {
                assert(self@.free =~= free_after_take(old(self)@.free, index as int, data@.len()));
            }
        }
        a
    }

    /// Reserves `len` bytes at the start of the first free extent that can
    /// hold them, zero-filling any newly covered buffer bytes; returns the
    /// starting address. The caller must have checked that some extent fits.
    pub fn allocate(&mut self, len: usize) -> (address: usize)
        requires
            old(self).wf(),
            first_fit(old(self)@.free, len as nat) is Some,
        ensures
            final(self).wf(),
            spec_alloc(old(self)@, len) == Some((final(self)@, address)),
    {
        let index: usize = match self.find_fit(len) {
            Some(i) => i,
            None => {
                proof {
                    assert(false);
                }
                0
            },
        };
        proof {
            lemma_first_fit_in_range(old(self)@.free, len as nat);
            assert(old(self)@.free[index as int].1 >= len);
            assert(old(self)@.free[index as int].0 + old(self)@.free[index as int].1
                <= usize::MAX);
        }
        let (a, n): (usize, usize) = self.free[index];
        self.grow(a + len);
        if n == len {
            self.free.remove(index);
        } else {
            self.free.set(index, (a + len, n - len));
        }
        proof {
            lemma_free_after_take_wf(old(self)@.free, index as int, len as nat);
            if n == len {
                assert(self@.free =~= free_after_take(old(self)@.free, index as int, len as nat));
            }
        }
        a
    }

    /// Reads the byte at `index`: `None` past the end of the buffer.
    pub fn get(&self, index: usize) -> (r: Option<&u8>)
        ensures
            match r {
                Some(b) => index < self@.bytes.len() && *b == self@.bytes[index as int],
                None => index >= self@.bytes.len(),
            },
    {
        self.memory.get(index)
    }

    /// Writes the byte at `index`, which must lie within the buffer.
    pub fn set(&mut self, index: usize, value: u8)
        requires
            index < old(self)@.bytes.len(),
        ensures
            final(self)@.bytes == old(self)@.bytes.update(index as int, value),
            final(self)@.free == old(self)@.free,
    {
        self.memory.set(index, value);
    }

    /// The number of bytes written so far (the high-water mark).
    pub fn len(&self) -> (r: usize)
        ensures
            r == self@.bytes.len(),
    {
        self.memory.len()
    }

    /// The written bytes of the memory.
    pub fn buffer(&self) -> (r: &Vec<u8>)
        ensures
            r@ == self@.bytes,
    {
        &self.memory
    }

    /// The free-extent list, in ascending address order.
    pub fn free_list(&self) -> (r: &Vec<(usize, usize)>)
        ensures
            r@ == self@.free,
    {
        &self.free
    }

    /// Whether the byte range `[address, address + len)` overlaps no free
    /// extent, so that freeing it keeps the free list disjoint.
    pub(crate) fn range_is_unallocated(&self, address: usize, len: usize) -> (r: bool)
        requires
            address + len <= usize::MAX,
        ensures
            r == range_disjoint_from_free(self@.free, address as int, len as int),
    {
        let mut i: usize = 0;
        while i < self.free.len()
            invariant
                i <= self@.free.len(),
                address + len <= usize::MAX,
                forall|j: int|
                    0 <= j < i ==> (address + len <= (#[trigger] self@.free[j]).0
                        || self@.free[j].0 + self@.free[j].1 <= address),
            decreases self.free.len() - i,
        {
            let (a, n): (usize, usize) = self.free[i];
            if !(address + len <= a || (n <= usize::MAX - a && a + n <= address)) {
                return false;
            }
            i = i + 1;
        }
        true
    }

    /// Returns the byte range `[address, address + len)` to the free list:
    /// zeroes the bytes, inserts the extent in address order, and coalesces
    /// the whole list, so that no two adjacent extents remain.
    ///
    /// The range must lie within the written buffer and must not overlap any
    /// free extent: the allocator trusts its caller to pair every allocation
    /// with at most one matching free.
    pub fn remove(&mut self, address: usize, len: usize)
        requires
            old(self).wf(),
            len >= 1,
            address + len <= old(self)@.bytes.len(),
            range_disjoint_from_free(old(self)@.free, address as int, len as int),
        ensures
            final(self).wf(),
            final(self)@ == spec_remove(old(self)@, address, len),
    {
        proof {
            assert(old(self).memory.len() == old(self)@.bytes.len());
        }
        let mut k: usize = 0;
        while k < len
            invariant
                k <= len,
                address + len <= usize::MAX,
                address + len <= self@.bytes.len(),
                self@.bytes.len() == old(self)@.bytes.len(),
                forall|j: int|
                    0 <= j < self@.bytes.len() ==> self@.bytes[j] == (if address <= j < address + k {
                        0u8
                    } else {
                        old(self)@.bytes[j]
                    }),
                self@.free == old(self)@.free,
            decreases len - k,
        {
            self.memory.set(address + k, 0);
            k = k + 1;
        }
        proof {
            assert(self@.bytes =~= write_seq(
                old(self)@.bytes,
                address as int,
                Seq::new(len as nat, |i: int| 0u8),
            ));
        }
        let ghost zeroed = self@.bytes;

        // Insert the extent at its sorted position.
        proof {
            assert(self@.free.skip(0) =~= self@.free);
        }
        let mut pos: usize = 0;
        while pos < self.free.len() && self.free[pos].0 < address
            invariant
                pos <= self@.free.len(),
                insert_pos(self@.free, address as int) == insert_pos(
                    self@.free.skip(pos as int),
                    address as int,
                ) + pos,
                self@.free == old(self)@.free,
                self@.bytes == zeroed,
            decreases self.free.len() - pos,
        {
            let ghost pre = self@.free.skip(pos as int);
            proof {
                assert(pre[0] == self@.free[pos as int]);
            }
            pos = pos + 1;
            proof {
                assert(pre.drop_first() =~= self@.free.skip(pos as int));
            }
        }
        proof {
            let tail = self@.free.skip(pos as int);
            if pos < self.free.len() {
                assert(tail[0] == self@.free[pos as int]);
            }
            assert(insert_pos(tail, address as int) == 0);
            assert(insert_pos(self@.free, address as int) == pos);
        }
        self.free.insert(pos, (address, len));
        let ghost inserted = self@.free;
        proof {
            lemma_insert_sorted(old(self)@.free, address, len);
            assert(inserted == old(self)@.free.insert(
                insert_pos(old(self)@.free, address as int),
                (address, len),
            ));
        }

        // Coalesce: one pass, merging every extent into its predecessor when
        // they touch; chains merge fully because the merged extent stays
        // under the cursor.
        let mut new_free: Vec<(usize, usize)> = Vec::new();
        new_free.push(self.free[0]);
        proof {
            assert(inserted.len() >= 1);
            assert(new_free@ =~= seq![inserted[0]]);
            assert(seq![inserted[0]] + inserted.skip(1) =~= inserted);
            assert(new_free@.drop_last() =~= Seq::<(usize, usize)>::empty());
            assert(merge_adjacent(inserted) == new_free@.drop_last() + merge_adjacent(
                seq![new_free@.last()] + inserted.skip(1),
            ));
        }
        let mut i: usize = 1;
        while i < self.free.len()
            invariant
                1 <= i <= self@.free.len(),
                self@.free == inserted,
                self@.bytes == zeroed,
                new_free@.len() >= 1,
                free_list_sorted(inserted),
                merge_adjacent(inserted) == new_free@.drop_last() + merge_adjacent(
                    seq![new_free@.last()] + inserted.skip(i as int),
                ),
            decreases self.free.len() - i,
        {
            let next: (usize, usize) = self.free[i];
            let last_idx: usize = new_free.len() - 1;
            let (la, ln): (usize, usize) = new_free[last_idx];
            let ghost acc_pre = new_free@;
            proof {
                assert(inserted[i as int].0 + inserted[i as int].1 <= usize::MAX);
            }
            if ln <= usize::MAX - la && la + ln == next.0 {
                new_free.set(last_idx, (la, ln + next.1));
                proof {
                    let merged = (la, (ln + next.1) as usize);
                    assert(seq![acc_pre.last()] + inserted.skip(i as int - 0)
                        =~= (seq![acc_pre.last()] + inserted.skip(i as int)));
                    assert((seq![acc_pre.last()] + inserted.skip(i as int)).drop_first().update(
                        0,
                        merged,
                    ) =~= seq![merged] + inserted.skip(i as int + 1));
                    assert(new_free@.drop_last() =~= acc_pre.drop_last());
                    assert(new_free@.last() == merged);
                }
            } else {
                new_free.push(next);
                proof {
                    assert((seq![acc_pre.last()] + inserted.skip(i as int)).drop_first()
                        =~= seq![next] + inserted.skip(i as int + 1));
                    assert(seq![acc_pre.last()] + (seq![next] + inserted.skip(i as int + 1)).drop_first()
                        =~= seq![acc_pre.last()] + inserted.skip(i as int + 1));
                    assert(new_free@.drop_last() =~= acc_pre.drop_last() + seq![acc_pre.last()]);
                    assert(new_free@.last() == next);
                }
            }
            i = i + 1;
        }
        self.free = new_free;
        proof {
            assert(seq![self@.free.last()] + inserted.skip(inserted.len() as int)
                =~= seq![self@.free.last()]);
            assert(self@.free =~= self@.free.drop_last() + seq![self@.free.last()]);
            assert(self@.free == merge_adjacent(inserted));
            lemma_merge_adjacent_wf(inserted);
        }
    }
}


/// `first_fit`, when it finds an index, finds one inside the list whose
/// extent is large enough.
proof fn lemma_first_fit_in_range(free: Seq<(usize, usize)>, need: nat)
    requires
        first_fit(free, need) is Some,
    ensures
        0 <= first_fit(free, need).unwrap() < free.len(),
        free[first_fit(free, need).unwrap()].1 >= need,
    decreases free.len(),
{
    if free.len() > 0 && free[0].1 < need {
        let rest = free.drop_first();
        lemma_first_fit_in_range(rest, need);
        let j = first_fit(rest, need).unwrap();
        assert(rest[j] == free[j + 1]);
    }
}

/// Shrinking (or removing, when exhausted) the extent that served an
/// allocation keeps the free list well formed.
proof fn lemma_free_after_take_wf(free: Seq<(usize, usize)>, i: int, need: nat)
    requires
        free_list_wf(free),
        0 <= i < free.len(),
        free[i].1 >= need,
    ensures
        free_list_wf(free_after_take(free, i, need)),
{
    let r = free_after_take(free, i, need);
    if free[i].1 == need {
        free.remove_ensures(i);
        assert(r == free.remove(i));
        assert(forall|j: int| 0 <= j < i ==> free.remove(i)[j] == free[j]);
        assert(forall|j: int|
            i <= j < free.len() - 1 ==> free.remove(i)[j] == free[j + 1]);
        assert forall|j: int|
            0 <= j < r.len() implies (#[trigger] r[j]).1 >= 1 && r[j].0 + r[j].1 <= usize::MAX by {
            if j < i {
                assert(r[j] == free[j]);
            } else {
                assert(r[j] == free[j + 1]);
            }
        }
        assert forall|j: int| 0 <= j && j + 1 < r.len() implies (#[trigger] r[j]).0 + r[j].1 < r[j
            + 1].0 by {
            if j + 1 < i {
                assert(r[j] == free[j]);
                assert(r[j + 1] == free[j + 1]);
            } else if j + 1 == i {
                assert(r[j] == free[j]);
                assert(r[j + 1] == free[i + 1]);
                assert(free[j].0 + free[j].1 < free[i].0);
                assert(free[i].0 + free[i].1 < free[i + 1].0);
            } else {
                assert(r[j] == free[j + 1]);
                assert(r[j + 1] == free[j + 2]);
            }
        }
    } else {
        let moved = ((free[i].0 + need) as usize, (free[i].1 - need) as usize);
        assert(r == free.update(i, moved));
        assert(forall|j: int|
            0 <= j < free.len() && j != i ==> free.update(i, moved)[j] == free[j]);
        assert(free.update(i, moved)[i] == moved);
        assert forall|j: int|
            0 <= j < r.len() implies (#[trigger] r[j]).1 >= 1 && r[j].0 + r[j].1 <= usize::MAX by {
            if j == i {
                assert(r[j] == moved);
                assert(free[i].0 + free[i].1 <= usize::MAX);
            } else {
                assert(r[j] == free[j]);
            }
        }
        assert forall|j: int| 0 <= j && j + 1 < r.len() implies (#[trigger] r[j]).0 + r[j].1 < r[j
            + 1].0 by {
            if j == i {
                assert(r[j] == moved && r[j + 1] == free[j + 1]);
                assert(free[i].0 + free[i].1 < free[i + 1].0);
            } else if j + 1 == i {
                assert(r[j] == free[j] && r[j + 1] == moved);
                assert(free[j].0 + free[j].1 < free[i].0);
            } else {
                assert(r[j] == free[j] && r[j + 1] == free[j + 1]);
            }
        }
    }
}

/// The insert position never runs past the end of the list.
proof fn lemma_insert_pos_bounds(free: Seq<(usize, usize)>, a: int)
    ensures
        0 <= insert_pos(free, a) <= free.len(),
    decreases free.len(),
{
    if free.len() > 0 && free[0].0 < a {
        lemma_insert_pos_bounds(free.drop_first(), a);
    }
}

/// Every extent before the insert position starts before `a`.
proof fn lemma_insert_pos_before(free: Seq<(usize, usize)>, a: int, j: int)
    requires
        0 <= j < insert_pos(free, a),
        insert_pos(free, a) <= free.len(),
    ensures
        free[j].0 < a,
    decreases free.len(),
{
    if free.len() > 0 && free[0].0 < a && j > 0 {
        lemma_insert_pos_before(free.drop_first(), a, j - 1);
        assert(free.drop_first()[j - 1] == free[j]);
    }
}

/// The extent at the insert position, when there is one, starts at `a` or
/// later.
proof fn lemma_insert_pos_at(free: Seq<(usize, usize)>, a: int)
    requires
        insert_pos(free, a) < free.len(),
    ensures
        free[insert_pos(free, a)].0 >= a,
    decreases free.len(),
{
    if free.len() > 0 && free[0].0 < a {
        lemma_insert_pos_bounds(free.drop_first(), a);
        lemma_insert_pos_at(free.drop_first(), a);
        assert(free.drop_first()[insert_pos(free.drop_first(), a)] == free[insert_pos(free, a)]);
    }
}

/// Inserting an extent that overlaps no extent of a well-formed free list at
/// its sorted position yields a sorted, disjoint list, ready for coalescing.
proof fn lemma_insert_sorted(free: Seq<(usize, usize)>, a: usize, l: usize)
    requires
        free_list_wf(free),
        l >= 1,
        a + l <= usize::MAX,
        range_disjoint_from_free(free, a as int, l as int),
    ensures
        free_list_sorted(free.insert(insert_pos(free, a as int), (a, l))),
        0 <= insert_pos(free, a as int) <= free.len(),
{
    let p = insert_pos(free, a as int);
    lemma_insert_pos_bounds(free, a as int);
    free.insert_ensures(p, (a, l));
    let r = free.insert(p, (a, l));
    assert(forall|j: int| 0 <= j < p ==> free.insert(p, (a, l))[j] == free[j]);
    assert(forall|j: int|
        p <= j < free.len() ==> free.insert(p, (a, l))[j + 1] == free[j]);
    assert(free.insert(p, (a, l))[p] == (a, l));
    assert(r.len() == free.len() + 1);
    assert forall|j: int|
        0 <= j < r.len() implies (#[trigger] r[j]).1 >= 1 && r[j].0 + r[j].1 <= usize::MAX by {
        if j < p {
            assert(r[j] == free[j]);
        } else if j == p {
            assert(r[j] == (a, l));
        } else {
            assert(r[j] == free[j - 1]);
        }
    }
    assert forall|j: int| 0 <= j && j + 1 < r.len() implies (#[trigger] r[j]).0 + r[j].1 <= r[j + 1].0 by {
        if j + 1 < p {
            assert(r[j] == free[j] && r[j + 1] == free[j + 1]);
        } else if j + 1 == p {
            assert(r[j] == free[j] && r[j + 1] == (a, l));
            lemma_insert_pos_before(free, a as int, j);
            assert(a + l <= free[j].0 || free[j].0 + free[j].1 <= a);
        } else if j == p {
            assert(r[j] == (a, l) && r[j + 1] == free[j]);
            lemma_insert_pos_at(free, a as int);
            assert(a + l <= free[p].0 || free[p].0 + free[p].1 <= a);
        } else {
            assert(r[j] == free[j - 1] && r[j + 1] == free[j]);
        }
    }
}

/// The one merge pass turns a sorted, disjoint list into a well-formed one:
/// still sorted and disjoint, with no two adjacent extents left, and the
/// first extent keeps its start.
#[verifier::rlimit(30)]
proof fn lemma_merge_adjacent_wf(s: Seq<(usize, usize)>)
    requires
        free_list_sorted(s),
    ensures
        free_list_wf(merge_adjacent(s)),
        s.len() >= 1 ==> merge_adjacent(s).len() >= 1 && merge_adjacent(s)[0].0 == s[0].0
            && merge_adjacent(s)[0].1 >= s[0].1,
    decreases s.len(),
{
    if s.len() <= 1 {
    } else if s[0].0 + s[0].1 == s[1].0 {
        let t = s.drop_first().update(0, (s[0].0, (s[0].1 + s[1].1) as usize));
        assert forall|j: int|
            0 <= j < t.len() implies (#[trigger] t[j]).1 >= 1 && t[j].0 + t[j].1 <= usize::MAX by {
            if j > 0 {
                assert(t[j] == s[j + 1]);
            } else {
                assert(s[1].0 + s[1].1 <= usize::MAX);
            }
        }
        assert forall|j: int| 0 <= j && j + 1 < t.len() implies (#[trigger] t[j]).0 + t[j].1 <= t[j
            + 1].0 by {
            if j > 0 {
                assert(t[j] == s[j + 1] && t[j + 1] == s[j + 2]);
            } else {
                assert(t[0].0 + t[0].1 == s[1].0 + s[1].1);
                assert(t[1] == s[2]);
            }
        }
        lemma_merge_adjacent_wf(t);
    } else {
        let t = s.drop_first();
        assert(t =~= s.skip(1));
        lemma_sorted_skip(s, 1);
        lemma_merge_adjacent_wf(t);
        let m = merge_adjacent(s);
        let mt = merge_adjacent(t);
        assert(m == seq![s[0]] + mt);
        assert(t.len() >= 1);
        assert(t[0] == s[1]);
        assert forall|j: int|
            0 <= j < m.len() implies (#[trigger] m[j]).1 >= 1 && m[j].0 + m[j].1 <= usize::MAX by {
            if j > 0 {
                assert(m[j] == mt[j - 1]);
            } else {
                assert(m[0] == s[0]);
            }
        }
        assert forall|j: int| 0 <= j && j + 1 < m.len() implies (#[trigger] m[j]).0 + m[j].1 < m[j
            + 1].0 by {
            if j > 0 {
                assert(m[j] == mt[j - 1] && m[j + 1] == mt[j]);
            } else {
                assert(m[0] == s[0] && m[1] == mt[0]);
                assert(mt[0].0 == t[0].0);
                assert(s[0].0 + s[0].1 <= s[1].0 && s[0].0 + s[0].1 != s[1].0);
            }
        }
    }
}

/// A sorted list stays sorted when a prefix is dropped.
proof fn lemma_sorted_skip(s: Seq<(usize, usize)>, i: int)
    requires
        free_list_sorted(s),
        0 <= i <= s.len(),
    ensures
        free_list_sorted(s.skip(i)),
{
    assert forall|j: int|
        0 <= j < s.skip(i).len() implies (#[trigger] s.skip(i)[j]).1 >= 1 && s.skip(i)[j].0
        + s.skip(i)[j].1 <= usize::MAX by {
        assert(s.skip(i)[j] == s[i + j]);
    }
    assert forall|j: int| 0 <= j && j + 1 < s.skip(i).len() implies (#[trigger] s.skip(i)[j]).0 + s.skip(
        i,
    )[j].1 <= s.skip(i)[j + 1].0 by {
        assert(s.skip(i)[j] == s[i + j] && s.skip(i)[j + 1] == s[i + j + 1]);
    }
}

} // verus!
