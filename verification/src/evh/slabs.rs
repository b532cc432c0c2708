use vstd::prelude::*;
use crate::base::error::Error;

verus! {

/// The id that ends a chain of read slabs (and marks a connection without slabs).
pub const SLAB_END: usize = 0xFFFF_FFFF;

/// The smallest slab size a pool accepts.
pub const MIN_SLAB_SIZE: usize = 25;

/// The id of the next slab, held big-endian in the last four bytes of a slab.
pub open spec fn next_field(s: Seq<u8>) -> int {
    let n = s.len() as int;
    s[n - 4] * 16777216 + s[n - 3] * 65536 + s[n - 2] * 256 + s[n - 1]
}

/// The bytes a chain holds: the first `width` bytes of every slab but the last, then the
/// first `offset` bytes of the last one.
pub open spec fn chain_data(slabs: Seq<Seq<u8>>, ids: Seq<usize>, width: int, offset: int) -> Seq<u8>
    decreases ids.len(),
{
    if ids.len() == 0 {
        Seq::empty()
    } else if ids.len() == 1 {
        slabs[ids[0] as int].take(offset)
    } else {
        slabs[ids[0] as int].take(width) + chain_data(slabs, ids.skip(1), width, offset)
    }
}

/// The bytes of every slab of a chain but the last (`width` of each).
pub open spec fn chain_front(slabs: Seq<Seq<u8>>, ids: Seq<usize>, width: int) -> Seq<u8>
    decreases ids.len(),
{
    if ids.len() <= 1 {
        Seq::empty()
    } else {
        slabs[ids[0] as int].take(width) + chain_front(slabs, ids.skip(1), width)
    }
}

/// A non-empty chain's bytes are its front followed by its last slab's piece.
proof fn lemma_chain_split(slabs: Seq<Seq<u8>>, ids: Seq<usize>, width: int, offset: int)
    requires
        ids.len() > 0,
    ensures
        chain_data(slabs, ids, width, offset) == chain_front(slabs, ids, width) + slabs[ids.last() as int].take(offset),
    decreases ids.len(),
{
    if ids.len() == 1 {
        assert(chain_front(slabs, ids, width) + slabs[ids.last() as int].take(offset) =~= slabs[ids[0] as int].take(offset));
    } else {
        lemma_chain_split(slabs, ids.skip(1), width, offset);
        assert(ids.skip(1).last() == ids.last());
        assert(slabs[ids[0] as int].take(width) + (chain_front(slabs, ids.skip(1), width) + slabs[ids.last() as int].take(offset))
            =~= (slabs[ids[0] as int].take(width) + chain_front(slabs, ids.skip(1), width)) + slabs[ids.last() as int].take(offset));
    }
}

/// Adding a slab to a chain moves the old last slab's full piece into the front.
proof fn lemma_front_push(slabs: Seq<Seq<u8>>, ids: Seq<usize>, n: usize, width: int)
    requires
        ids.len() > 0,
    ensures
        chain_front(slabs, ids.push(n), width) == chain_front(slabs, ids, width) + slabs[ids.last() as int].take(width),
    decreases ids.len(),
{
    if ids.len() == 1 {
        assert(ids.push(n).skip(1) =~= seq![n]);
        assert(ids.push(n)[0] == ids[0]);
        assert(chain_front(slabs, seq![n], width) == Seq::<u8>::empty());
        assert(chain_front(slabs, ids, width) + slabs[ids.last() as int].take(width) =~= slabs[ids[0] as int].take(width));
        assert(slabs[ids[0] as int].take(width) + Seq::<u8>::empty() =~= slabs[ids[0] as int].take(width));
    } else {
        lemma_front_push(slabs, ids.skip(1), n, width);
        assert(ids.push(n).skip(1) =~= ids.skip(1).push(n));
        assert(ids.push(n)[0] == ids[0]);
        assert(ids.skip(1).last() == ids.last());
        assert(slabs[ids[0] as int].take(width) + (chain_front(slabs, ids.skip(1), width) + slabs[ids.last() as int].take(width))
            =~= (slabs[ids[0] as int].take(width) + chain_front(slabs, ids.skip(1), width)) + slabs[ids.last() as int].take(width));
    }
}

/// A chain's front depends only on the slabs of the front.
proof fn lemma_front_frame(a: Seq<Seq<u8>>, b: Seq<Seq<u8>>, ids: Seq<usize>, width: int)
    requires
        forall|i: int| 0 <= i < ids.len() - 1 ==> a[#[trigger] ids[i] as int] == b[ids[i] as int],
    ensures
        chain_front(a, ids, width) == chain_front(b, ids, width),
    decreases ids.len(),
{
    if ids.len() > 1 {
        assert(a[ids[0] as int] == b[ids[0] as int]);
        assert forall|i: int| 0 <= i < ids.skip(1).len() - 1 implies a[#[trigger] ids.skip(1)[i] as int]
            == b[ids.skip(1)[i] as int] by {
            assert(ids.skip(1)[i] == ids[i + 1]);
        }
        lemma_front_frame(a, b, ids.skip(1), width);
    }
}

/// The front of `old` overwritten with as much of `data` as fits.
pub open spec fn copy_front(old: Seq<u8>, data: Seq<u8>) -> Seq<u8> {
    let n = if data.len() < old.len() { data.len() } else { old.len() };
    data.take(n as int) + old.skip(n as int)
}

/// A pool of equal-size read slabs, each used by at most one chain.
pub struct ReadSlabs {
    slabs: Vec<Vec<u8>>,
    used: Vec<bool>,
    slab_size: usize,
}

/// A connection's chain of read slabs: its first and last slab, and how much of the last one
/// is filled.
pub struct SlabChain {
    first: usize,
    last: usize,
    offset: usize,
    ids: Ghost<Seq<usize>>,
}

impl SlabChain {
    /// The chain's slabs, in order.
    pub closed spec fn ids(&self) -> Seq<usize> {
        self.ids@
    }

    /// The first slab.
    pub closed spec fn spec_first(&self) -> usize {
        self.first
    }

    /// The last slab.
    pub closed spec fn spec_last(&self) -> usize {
        self.last
    }

    /// How much of the last slab is filled.
    pub closed spec fn spec_offset(&self) -> usize {
        self.offset
    }

    /// A chain without slabs.
    pub fn new() -> (r: Self)
        ensures
            r.ids() == Seq::<usize>::empty(),
            r.spec_first() == usize::MAX,
            r.spec_last() == usize::MAX,
            r.spec_offset() == 0,
    {
        SlabChain { first: usize::MAX, last: usize::MAX, offset: 0, ids: Ghost(Seq::empty()) }
    }

    /// The first slab.
    pub fn first_slab(&self) -> (r: usize)
        ensures
            r == self.spec_first(),
    {
        self.first
    }

    /// The last slab.
    pub fn last_slab(&self) -> (r: usize)
        ensures
            r == self.spec_last(),
    {
        self.last
    }

    /// How much of the last slab is filled.
    pub fn slab_offset(&self) -> (r: usize)
        ensures
            r == self.spec_offset(),
    {
        self.offset
    }
}

impl ReadSlabs {
    /// The slabs' bytes.
    pub closed spec fn contents(&self) -> Seq<Seq<u8>> {
        self.slabs@.map_values(|v: Vec<u8>| v@)
    }

    /// Which slabs are in use.
    pub closed spec fn used_flags(&self) -> Seq<bool> {
        self.used@
    }

    /// The size of every slab.
    pub closed spec fn size(&self) -> int {
        self.slab_size as int
    }

    /// The pool is well formed: one flag per slab, every slab of the pool's size.
    pub closed spec fn wf(&self) -> bool {
        &&& self.used@.len() == self.slabs@.len()
        &&& self.slabs@.len() < SLAB_END
        &&& MIN_SLAB_SIZE <= self.slab_size
        &&& forall|i: int| 0 <= i < self.slabs@.len() ==> (#[trigger] self.slabs@[i])@.len() == self.slab_size
    }

    /// The chain is laid out in the pool: its slabs are distinct slabs in use, each holds the
    /// id of the next one, the last holds `SLAB_END`, and its first and last slab and offset
    /// are recorded; a chain without slabs has both ends at or beyond `SLAB_END`.
    pub closed spec fn holds(&self, c: SlabChain) -> bool {
        let ids = c.ids@;
        &&& ids.len() == 0 ==> c.first >= SLAB_END && c.last >= SLAB_END
        &&& ids.len() > 0 ==> {
            &&& c.first == ids[0]
            &&& c.last == ids.last()
            &&& c.offset <= self.slab_size - 4
            &&& forall|i: int| 0 <= i < ids.len() ==> #[trigger] ids[i] < self.slabs@.len() && self.used@[ids[i] as int]
            &&& forall|i: int, j: int| 0 <= i < j < ids.len() ==> ids[i] != ids[j]
            &&& forall|i: int| 0 <= i < ids.len() - 1 ==> next_field(self.slabs@[#[trigger] ids[i] as int]@) == ids[i + 1]
            &&& next_field(self.slabs@[ids.last() as int]@) == SLAB_END
        }
    }

    /// The bytes the chain holds (see `chain_data`).
    pub closed spec fn data(&self, c: SlabChain) -> Seq<u8> {
        chain_data(self.contents(), c.ids@, self.slab_size - 4, c.offset as int)
    }

    /// A pool of `slab_count` zeroed slabs of `slab_size` bytes, none in use;
    /// `IllegalArgument` for no slabs, slabs under `MIN_SLAB_SIZE` bytes, or `SLAB_END` slabs
    /// or more.
    pub fn new(slab_size: usize, slab_count: usize) -> (r: Result<Self, Error>)
        ensures
            (slab_count == 0 || slab_size < MIN_SLAB_SIZE || slab_count >= SLAB_END) ==> r == Err::<
                Self,
                Error,
            >(Error::IllegalArgument),
            !(slab_count == 0 || slab_size < MIN_SLAB_SIZE || slab_count >= SLAB_END) ==> (r matches Ok(p)
                && p.wf() && p.size() == slab_size && p.contents().len() == slab_count && forall|i: int|
                0 <= i < slab_count ==> !#[trigger] p.used_flags()[i]),
    {
        if slab_count == 0 || slab_size < MIN_SLAB_SIZE || slab_count >= SLAB_END {
            return Err(Error::IllegalArgument);
        }
        let mut slabs: Vec<Vec<u8>> = Vec::new();
        let mut used: Vec<bool> = Vec::new();
        let mut i: usize = 0;
        while i < slab_count
            invariant
                i <= slab_count,
                slabs@.len() == i,
                used@.len() == i,
                forall|j: int| 0 <= j < i ==> (#[trigger] slabs@[j])@.len() == slab_size,
                forall|j: int| 0 <= j < i ==> !#[trigger] used@[j],
            decreases slab_count - i,
        {
            let mut s: Vec<u8> = Vec::new();
            let mut k: usize = 0;
            while k < slab_size
                invariant
                    k <= slab_size,
                    s@.len() == k,
                decreases slab_size - k,
            {
                s.push(0u8);
                k += 1;
            }
            slabs.push(s);
            used.push(false);
            i += 1;
        }
        Ok(ReadSlabs { slabs, used, slab_size })
    }

    /// Takes the first free slab.
    fn allocate(&mut self) -> (r: Option<usize>)
        requires
            old(self).wf(),
        ensures
            final(self).wf(),
            final(self).slab_size == old(self).slab_size,
            final(self).slabs == old(self).slabs,
            match r {
                Some(i) => i < old(self).slabs@.len() && !old(self).used@[i as int] && final(self).used@
                    == old(self).used@.update(i as int, true)
                    && forall|j: int| 0 <= j < i ==> #[trigger] old(self).used@[j],
                None => final(self).used@ == old(self).used@
                    && forall|j: int| 0 <= j < old(self).used@.len() ==> #[trigger] old(self).used@[j],
            },
    {
        let mut i: usize = 0;
        while i < self.used.len()
            invariant
                self.wf(),
                *self == *old(self),
                i <= self.used@.len(),
                forall|j: int| 0 <= j < i ==> #[trigger] self.used@[j],
            decreases self.used@.len() - i,
        {
            if !self.used[i] {
                self.used.set(i, true);
                return Some(i);
            }
            i += 1;
        }
        None
    }

    /// Writes `next` big-endian into the last four bytes of slab `id`.
    fn write_next(&mut self, id: usize, next: u32)
        requires
            old(self).wf(),
            id < old(self).slabs@.len(),
        ensures
            final(self).wf(),
            final(self).slab_size == old(self).slab_size,
            final(self).used == old(self).used,
            final(self).slabs@.len() == old(self).slabs@.len(),
            forall|i: int| 0 <= i < old(self).slabs@.len() && i != id ==> (#[trigger] final(self).slabs@[i])@
                == old(self).slabs@[i]@,
            final(self).slabs@[id as int]@.take(old(self).slab_size - 4) == old(self).slabs@[id as int]@.take(
                old(self).slab_size - 4),
            next_field(final(self).slabs@[id as int]@) == next,
    {
        let n = self.slab_size;
        let mut s = self.slabs[id].clone();
        assert(s@ =~= self.slabs@[id as int]@);
        let x0: u32 = next >> 24;
        let x1: u32 = (next >> 16) & 0xFF;
        let x2: u32 = (next >> 8) & 0xFF;
        let x3: u32 = next & 0xFF;
        assert(x0 * 16777216 + x1 * 65536 + x2 * 256 + x3 == next && x0 < 256 && x1 < 256 && x2 < 256
            && x3 < 256) by (bit_vector)
            requires
                x0 == next >> 24,
                x1 == (next >> 16) & 0xFF,
                x2 == (next >> 8) & 0xFF,
                x3 == next & 0xFF;
        let b0 = x0 as u8;
        let b1 = x1 as u8;
        let b2 = x2 as u8;
        let b3 = x3 as u8;
        s.set(n - 4, b0);
        s.set(n - 3, b1);
        s.set(n - 2, b2);
        s.set(n - 1, b3);
        assert(s@.take(n - 4) =~= self.slabs@[id as int]@.take(n - 4));
        self.slabs.set(id, s);
    }

    /// The id held in the last four bytes of slab `id`.
    fn read_next(&self, id: usize) -> (r: usize)
        requires
            self.wf(),
            id < self.slabs@.len(),
        ensures
            r == next_field(self.slabs@[id as int]@),
    {
        let n = self.slab_size;
        let s = &self.slabs[id];
        let b0 = s[n - 4] as usize;
        let b1 = s[n - 3] as usize;
        let b2 = s[n - 2] as usize;
        let b3 = s[n - 1] as usize;
        assert(b0 * 16777216 + b1 * 65536 + b2 * 256 + b3 <= 0xFFFF_FFFF);
        b0 * 16777216 + b1 * 65536 + b2 * 256 + b3
    }

    /// Makes room for a read into the chain: a chain without slabs gets a first slab, a chain
    /// whose last slab is full gets a new last slab linked after it; gives the last slab and
    /// the offset in it where the next bytes go (there is room from there up to
    /// `size - 4`). The chain's bytes are unchanged. `CapacityExceeded`, with nothing
    /// changed, when a slab is needed and none is free.
    pub fn read_slot(&mut self, c: &mut SlabChain) -> (r: Result<(usize, usize), Error>)
        requires
            old(self).wf(),
            old(self).holds(*old(c)),
        ensures
            final(self).wf(),
            final(self).size() == old(self).size(),
            final(self).contents().len() == old(self).contents().len(),
            final(self).holds(*final(c)),
            final(self).data(*final(c)) == old(self).data(*old(c)),
            r matches Ok((id, start)) ==> id == final(c).spec_last() && start == final(c).spec_offset()
                && start < final(self).size() - 4 && (final(c).ids() == old(c).ids() || (final(c).ids()
                == old(c).ids().push(id) && !old(self).used_flags()[id as int] && !old(c).ids().contains(id))),
            r is Err <==> ((old(c).spec_last() >= SLAB_END || old(c).spec_offset() == old(self).size() - 4)
                && forall|i: int| 0 <= i < old(self).used_flags().len() ==> #[trigger] old(self).used_flags()[i]),
            !(old(c).spec_last() >= SLAB_END || old(c).spec_offset() == old(self).size() - 4) ==> r == Ok::<
                (usize, usize),
                Error,
            >((old(c).spec_last(), old(c).spec_offset())) && *final(c) == *old(c),
            r is Err ==> r == Err::<(usize, usize), Error>(Error::CapacityExceeded) && *final(c) == *old(c)
                && final(self).contents() == old(self).contents() && final(self).used_flags() == old(
                self).used_flags(),
            forall|i: int| 0 <= i < old(self).contents().len() && !old(c).ids().contains(i as usize) && (
                r matches Ok((id, _)) ==> i != id) ==> #[trigger] final(self).contents()[i] == old(
                self).contents()[i] && final(self).used_flags()[i] == old(self).used_flags()[i],
    {
        let w = self.slab_size - 4;
        if c.last >= SLAB_END {
            let id = match self.allocate() {
                Some(id) => id,
                None => return Err(Error::CapacityExceeded),
            };
            assert(!old(self).used_flags()[id as int]);
            self.write_next(id, 0xFFFF_FFFF);
            c.first = id;
            c.last = id;
            c.offset = 0;
            proof {
                c.ids@ = seq![id];
                assert(self.contents() =~= old(self).contents().update(id as int, self.slabs@[id as int]@));
                assert(chain_data(self.contents(), c.ids@, w as int, 0) =~= Seq::<u8>::empty());
            }
            Ok((id, 0))
        } else if c.offset == w {
            let ghost ids0 = c.ids@;
            let ghost slabs0 = self.contents();
            let last = c.last;
            let id = match self.allocate() {
                Some(id) => id,
                None => return Err(Error::CapacityExceeded),
            };
            assert(!old(self).used_flags()[id as int]);
            proof {
                if ids0.contains(id) {
                    let k = choose|k: int| 0 <= k < ids0.len() && ids0[k] == id;
                    assert(old(self).used@[ids0[k] as int]);
                }
            }
            self.write_next(last, id as u32);
            self.write_next(id, 0xFFFF_FFFF);
            c.last = id;
            c.offset = 0;
            proof {
                c.ids@ = ids0.push(id);
                let ids = c.ids@;
                let s1 = self.contents();
                assert forall|i: int| 0 <= i < ids0.len() - 1 implies slabs0[#[trigger] ids0[i] as int]
                    == s1[ids0[i] as int] by {
                    assert(ids0[i] != last);
                }
                lemma_front_frame(slabs0, s1, ids0, w as int);
                lemma_front_push(s1, ids0, id, w as int);
                lemma_chain_split(s1, ids, w as int, 0);
                lemma_chain_split(slabs0, ids0, w as int, w as int);
                assert(ids.last() == id);
                assert(s1[ids0.last() as int].take(w as int) == slabs0[ids0.last() as int].take(w as int));
                assert(s1[id as int].take(0) =~= Seq::<u8>::empty());
                assert(chain_data(s1, ids, w as int, 0) =~= chain_data(slabs0, ids0, w as int, w as int));
                assert forall|i: int| 0 <= i < ids.len() - 1 implies next_field(self.slabs@[#[trigger] ids[i] as int]@)
                    == ids[i + 1] by {
                    if i < ids0.len() - 1 {
                        assert(ids[i] == ids0[i]);
                        assert(ids0[i] != last);
                    }
                }
                assert forall|i: int, j: int| 0 <= i < j < ids.len() implies ids[i] != ids[j] by {
                    if j == ids.len() - 1 {
                        assert(ids[i] == ids0[i]);
                        assert(old(self).used@[ids0[i] as int]);
                    }
                }
            }
            Ok((id, 0))
        } else {
            Ok((c.last, c.offset))
        }
    }

    /// Records `data` as read into the chain's last slab at its offset (see `read_slot`):
    /// the chain then holds its bytes followed by `data`.
    pub fn record_read(&mut self, c: &mut SlabChain, data: &[u8])
        requires
            old(self).wf(),
            old(self).holds(*old(c)),
            old(c).ids().len() > 0,
            old(c).spec_offset() + data@.len() <= old(self).size() - 4,
        ensures
            final(self).wf(),
            final(self).size() == old(self).size(),
            final(self).contents().len() == old(self).contents().len(),
            final(self).used_flags() == old(self).used_flags(),
            final(self).holds(*final(c)),
            final(c).ids() == old(c).ids(),
            final(c).spec_offset() == old(c).spec_offset() + data@.len(),
            final(self).data(*final(c)) == old(self).data(*old(c)) + data@,
            forall|i: int| 0 <= i < old(self).contents().len() && !old(c).ids().contains(i as usize)
                ==> #[trigger] final(self).contents()[i] == old(self).contents()[i],
    {
        let ghost slabs0 = self.contents();
        let ghost ids = c.ids@;
        let last = c.last;
        let off = c.offset;
        let mut s = self.slabs[last].clone();
        assert(s@ =~= self.slabs@[last as int]@);
        let mut k: usize = 0;
        while k < data.len()
            invariant
                k <= data@.len(),
                off + data@.len() <= self.slab_size - 4,
                s@.len() == self.slab_size,
                self.slab_size == old(self).slab_size,
                forall|j: int| 0 <= j < off ==> s@[j] == slabs0[last as int][j],
                forall|j: int| 0 <= j < k ==> s@[off + j] == data@[j],
                forall|j: int| off + data@.len() <= j < s@.len() ==> s@[j] == slabs0[last as int][j],
                slabs0 == old(self).contents(),
                self.slabs@.len() == old(self).slabs@.len(),
                last < self.slabs@.len(),
                slabs0[last as int].len() == self.slab_size,
            decreases data@.len() - k,
        {
            s.set(off + k, data[k]);
            k += 1;
        }
        self.slabs.set(last, s);
        c.offset = off + data.len();
        proof {
            let s1 = self.contents();
            let w = (self.slab_size - 4) as int;
            assert(s1 =~= slabs0.update(last as int, s@));
            assert forall|i: int| 0 <= i < ids.len() - 1 implies slabs0[#[trigger] ids[i] as int] == s1[ids[i] as int] by {
                assert(ids[i] != ids.last());
            }
            lemma_front_frame(slabs0, s1, ids, w);
            lemma_chain_split(slabs0, ids, w, off as int);
            lemma_chain_split(s1, ids, w, off + data@.len());
            assert(s@.take(off + data@.len()) =~= slabs0[last as int].take(off as int) + data@);
            assert(next_field(s@) == next_field(slabs0[last as int]));
            assert forall|i: int| 0 <= i < ids.len() - 1 implies next_field(self.slabs@[#[trigger] ids[i] as int]@)
                == ids[i + 1] by {
                assert(ids[i] != ids.last());
            }
            assert(chain_data(s1, ids, w, off + data@.len()) =~= chain_data(slabs0, ids, w, off as int) + data@);
        }
    }

    /// The piece of the chain held by its `j`-th slab.
    pub closed spec fn piece(&self, c: SlabChain, j: int) -> Seq<u8> {
        if j == c.ids@.len() - 1 {
            self.slabs@[c.ids@[j] as int]@.take(c.offset as int)
        } else {
            self.slabs@[c.ids@[j] as int]@.take(self.slab_size - 4)
        }
    }

    /// Copies the piece of the chain held by slab `cur` into the front of `buf` (as much of
    /// it as fits), gives the number of bytes copied and moves `cur` to the next slab of the
    /// chain (`SLAB_END` after the last). Gives 0, changing nothing, when `cur` is at or
    /// beyond `SLAB_END`.
    pub fn clone_next_chunk(&self, c: &SlabChain, cur: &mut usize, buf: &mut [u8]) -> (r: usize)
        requires
            self.wf(),
            self.holds(*c),
            *old(cur) >= SLAB_END || c.ids().contains(*old(cur)),
        ensures
            *old(cur) >= SLAB_END ==> r == 0 && *final(cur) == *old(cur) && final(buf)@ == old(buf)@,
            *old(cur) < SLAB_END ==> exists|j: int| 0 <= j < c.ids().len() && #[trigger] c.ids()[j]
                == *old(cur) && final(buf)@ == copy_front(old(buf)@, self.piece(*c, j)) && r == (if self.piece(
                *c, j).len() < old(buf)@.len() { self.piece(*c, j).len() } else { old(buf)@.len() })
                && *final(cur) == (if j < c.ids().len() - 1 { c.ids()[j + 1] } else { SLAB_END }),
    {
        if *cur >= SLAB_END {
            return 0;
        }
        let ghost j = choose|j: int| 0 <= j < c.ids@.len() && c.ids@[j] == *cur;
        proof {
            if j < c.ids@.len() - 1 {
                assert(c.ids@[j] != c.ids@.last());
            }
        }
        let id = *cur;
        let start_ptr = self.slab_size - 4;
        let mut offset = if id == c.last { c.offset } else { start_ptr };
        if buf.len() < offset {
            offset = buf.len();
        }
        let slab = &self.slabs[id];
        let mut k: usize = 0;
        while k < offset
            invariant
                offset <= buf@.len(),
                offset <= slab@.len(),
                buf@.len() == old(buf)@.len(),
                k <= offset,
                buf@ == slab@.take(k as int) + old(buf)@.skip(k as int),
            decreases offset - k,
        {
            buf[k] = slab[k];
            k += 1;
            assert(buf@ =~= slab@.take(k as int) + old(buf)@.skip(k as int));
        }
        let next = self.read_next(id);
        *cur = next;
        proof {
            let p = self.piece(*c, j);
            assert(slab@.take(offset as int) =~= p.take(offset as int));
        }
        offset
    }

    /// Frees the chain's slabs from its first one up to and including `slab_id` (all of them
    /// when `slab_id` is not in the chain); the chain then starts at the slab after it, or has
    /// no slabs (both ends `SLAB_END`).
    #[verifier::rlimit(60)]
    pub fn clear_through(&mut self, c: &mut SlabChain, slab_id: usize)
        requires
            old(self).wf(),
            old(self).holds(*old(c)),
        ensures
            final(self).wf(),
            final(self).size() == old(self).size(),
            final(self).contents() == old(self).contents(),
            final(self).holds(*final(c)),
            final(c).spec_offset() == old(c).spec_offset(),
            ({
                let ids = old(c).ids();
                let k = if ids.contains(slab_id) { ids.index_of(slab_id) + 1 } else { ids.len() as int };
                &&& final(c).ids() == ids.skip(k)
                &&& final(self).used_flags().len() == old(self).used_flags().len()
                &&& forall|i: int| 0 <= i < k ==> !final(self).used_flags()[#[trigger] ids[i] as int]
                &&& forall|i: int| 0 <= i < old(self).used_flags().len() && !ids.take(k).contains(i as usize)
                    ==> #[trigger] final(self).used_flags()[i] == old(self).used_flags()[i]
                &&& final(self).data(*final(c)) == chain_data(old(self).contents(), ids.skip(k), old(self).size() - 4,
                    old(c).spec_offset() as int)
            }),
    {
        let ghost ids = c.ids@;
        let ghost k_end: int = if ids.contains(slab_id) { ids.index_of(slab_id) + 1 } else { ids.len() as int };
        proof {
            if ids.contains(slab_id) {
                assert(0 <= ids.index_of(slab_id) < ids.len() && ids[ids.index_of(slab_id)] == slab_id);
            }
        }
        let mut cur = c.first;
        let ghost mut i: int = 0;
        assert(ids.skip(0) =~= ids);
        loop
            invariant_except_break
                self.wf(),
                self.slab_size == old(self).slab_size,
                self.slabs == old(self).slabs,
                old(self).holds(*old(c)),
                ids == old(c).ids(),
                0 <= i <= k_end,
                i < ids.len() ==> i < k_end,
                k_end <= ids.len(),
                ids.contains(slab_id) ==> k_end == ids.index_of(slab_id) + 1 && ids[k_end - 1] == slab_id,
                !ids.contains(slab_id) ==> k_end == ids.len(),
                forall|m: int| 0 <= m < k_end - 1 ==> ids[m] != slab_id,
                c.ids@ == ids.skip(i),
                c.offset == old(c).offset,
                c.last == old(c).last || (i == ids.len() && c.last >= SLAB_END),
                i < ids.len() ==> cur == ids[i] && c.first == ids[i],
                i == ids.len() ==> cur >= SLAB_END && c.first >= SLAB_END,
                self.used@.len() == old(self).used@.len(),
                forall|m: int| 0 <= m < i ==> !self.used@[#[trigger] ids[m] as int],
                forall|m: int| 0 <= m < self.used@.len() && !ids.take(i).contains(m as usize)
                    ==> #[trigger] self.used@[m] == old(self).used@[m],
                i < ids.len() ==> c.last == old(c).last,
            ensures
                self.wf(),
                self.slab_size == old(self).slab_size,
                self.slabs == old(self).slabs,
                i == k_end,
                c.ids@ == ids.skip(i),
                c.offset == old(c).offset,
                i < ids.len() ==> c.first == ids[i] && c.last == old(c).last,
                i == ids.len() ==> c.first >= SLAB_END && c.last >= SLAB_END,
                self.used@.len() == old(self).used@.len(),
                forall|m: int| 0 <= m < i ==> !self.used@[#[trigger] ids[m] as int],
                forall|m: int| 0 <= m < self.used@.len() && !ids.take(i).contains(m as usize)
                    ==> #[trigger] self.used@[m] == old(self).used@[m],
            decreases ids.len() - i,
        {
            if cur >= SLAB_END {
                c.first = 0xFFFF_FFFF;
                c.last = 0xFFFF_FFFF;
                proof {
                    assert(i == ids.len());
                }
                break;
            }
            let next = self.read_next(cur);
            proof {
                assert(ids[i] == cur);
                if i < ids.len() - 1 {
                    assert(next == ids[i + 1]);
                } else {
                    assert(next == SLAB_END);
                }
                assert(ids.take(i + 1) =~= ids.take(i).push(ids[i]));
                assert forall|m: int| 0 <= m < i implies ids[m] != cur by {
                }
            }
            let ghost used_before = self.used@;
            self.used.set(cur, false);
            proof {
                assert forall|m: int| 0 <= m < self.used@.len() && !ids.take(i + 1).contains(m as usize)
                    implies #[trigger] self.used@[m] == old(self).used@[m] by {
                    assert(ids.take(i + 1)[i] == cur);
                    if ids.take(i).contains(m as usize) {
                        let q = choose|q: int| 0 <= q < ids.take(i).len() && ids.take(i)[q] == m as usize;
                        assert(ids.take(i + 1)[q] == ids.take(i)[q]);
                    }
                    assert(m != cur);
                    assert(used_before[m] == old(self).used@[m]);
                }
            }
            c.first = next;
            if c.first >= SLAB_END {
                c.last = c.first;
            }
            proof {
                i = i + 1;
                c.ids@ = ids.skip(i);
            }
            if cur == slab_id {
                proof {
                    assert(ids.contains(slab_id));
                    let x = ids.index_of(slab_id);
                    assert(0 <= ids.index_of(slab_id) < ids.len() && ids[ids.index_of(slab_id)] == slab_id);
                    if x != i - 1 {
                        assert(ids[x] == ids[i - 1]);
                    }
                }
                break;
            }
            cur = next;
        }
        proof {
            let w = (self.slab_size - 4) as int;
            assert(self.contents() == old(self).contents());
            let nids = c.ids@;
            if nids.len() > 0 {
                assert forall|m: int| 0 <= m < nids.len() implies #[trigger] nids[m] < self.slabs@.len()
                    && self.used@[nids[m] as int] by {
                    assert(nids[m] == ids[m + i]);
                    assert(!ids.take(i).contains(nids[m])) by {
                        if ids.take(i).contains(nids[m]) {
                            let q = choose|q: int| 0 <= q < ids.take(i).len() && ids.take(i)[q] == nids[m];
                            assert(ids[q] == ids[m + i]);
                        }
                    }
                }
                assert forall|m: int| 0 <= m < nids.len() - 1 implies next_field(self.slabs@[#[trigger] nids[m] as int]@)
                    == nids[m + 1] by {
                    assert(nids[m] == ids[m + i]);
                }
                assert(nids.last() == ids.last());
            }
        }
    }

    /// Frees all of the chain's slabs (see `clear_through`).
    pub fn clear_all(&mut self, c: &mut SlabChain)
        requires
            old(self).wf(),
            old(self).holds(*old(c)),
        ensures
            final(self).wf(),
            final(self).contents() == old(self).contents(),
            final(self).holds(*final(c)),
            final(c).ids() == Seq::<usize>::empty(),
            final(self).data(*final(c)) == Seq::<u8>::empty(),
            forall|i: int| 0 <= i < old(c).ids().len() ==> !final(self).used_flags()[#[trigger] old(c).ids()[i] as int],
    {
        let last = c.last;
        proof {
            let ids = c.ids@;
            if ids.len() > 0 {
                assert(ids.contains(last)) by {
                    assert(ids[ids.len() - 1] == last);
                }
                assert(0 <= ids.index_of(last) < ids.len() && ids[ids.index_of(last)] == last);
                let x = ids.index_of(last);
                if x != ids.len() - 1 {
                    assert(ids[x] == ids[ids.len() - 1]);
                }
            }
        }
        self.clear_through(c, last);
        proof {
            assert(c.ids@.len() == 0);
        }
    }
}


} // verus!
