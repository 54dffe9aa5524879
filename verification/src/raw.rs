//! The raw buffer engine: segment layout, the claim-and-write append
//! path, the exclusive claim-and-read drain path with segment
//! recycling, and bulk iteration over unread data.
//!
//! Segments live in an arena (`RawBuffer::segments`) and are linked
//! into a chain by arena indices. The chain order, tail first, is
//! tracked by the ghost field `chain`; every segment of the arena is in
//! the chain exactly once, because segments are never freed before the
//! whole buffer goes away.

use vstd::prelude::*;

verus! {

/// Capacity of the first segment in the buffer.
pub const STARTING_SIZE: usize = 64;

/// Largest capacity a segment in the buffer may have.
pub const MAX_SIZE: usize = 262144;

/// One fixed-capacity block of storage in the buffer's chain, with its
/// own write and read cursors.
pub struct Segment<T> {
    /// Arena index of the next segment in the chain, if any.
    next: Option<usize>,
    /// Number of slots. Fixed at allocation time.
    capacity: usize,
    /// Write cursor: index of the next slot to write. May exceed
    /// `capacity`; any value at or past `capacity` means the segment is
    /// fully written (over-subscribed claims are abandoned, never
    /// reused).
    front: usize,
    /// Read cursor: index of the next slot to read. At or past
    /// `capacity` means the segment is fully drained.
    back: usize,
    /// Storage slots. `Some` holds exactly one written, unread value;
    /// `None` is either never written or already consumed.
    slots: Vec<Option<T>>,
}

impl<T> Segment<T> {
    /// The fixed capacity of this segment.
    pub closed spec fn cap(&self) -> usize {
        self.capacity
    }

    /// The write cursor.
    pub closed spec fn write_cursor(&self) -> usize {
        self.front
    }

    /// The read cursor.
    pub closed spec fn read_cursor(&self) -> usize {
        self.back
    }

    /// The link to the next segment in the chain.
    pub closed spec fn link(&self) -> Option<usize> {
        self.next
    }

    /// Index just past the last written slot: the write cursor clamped
    /// to the capacity.
    pub closed spec fn write_limit(&self) -> int {
        if self.front < self.capacity {
            self.front as int
        } else {
            self.capacity as int
        }
    }

    /// The written-but-unread slots, oldest first, tags still on.
    pub closed spec fn unread_opts(&self) -> Seq<Option<T>> {
        self.slots@.subrange(self.back as int, self.write_limit())
    }

    /// The live (written, unread) values of this segment, oldest first.
    pub closed spec fn unread(&self) -> Seq<T> {
        self.unread_opts().map_values(|o: Option<T>| o.unwrap())
    }

    /// Slots of this segment still open for claims: those between the
    /// clamped write cursor and the capacity.
    pub closed spec fn free_slots(&self) -> int {
        self.capacity - self.write_limit()
    }

    /// Well-formedness of one segment: the slot array has exactly
    /// `capacity` slots, the read cursor does not pass the clamped
    /// write cursor, and a slot holds a value exactly when it lies in
    /// the live region `[back, min(front, capacity))`.
    pub closed spec fn seg_wf(&self) -> bool {
        &&& self.slots@.len() == self.capacity
        &&& 1 <= self.capacity <= MAX_SIZE
        &&& self.back <= self.write_limit()
        &&& forall|j: int|
            0 <= j < self.capacity ==> ((#[trigger] self.slots@[j]) is Some <==> self.back <= j
                < self.write_limit())
    }
}

/// Allocates a fresh segment of the given capacity: all slots empty,
/// both cursors at zero, no link.
pub fn new_segment<T>(capacity: usize) -> (s: Segment<T>)
    requires
        1 <= capacity <= MAX_SIZE,
    ensures
        s.seg_wf(),
        s.cap() == capacity,
        s.write_cursor() == 0,
        s.read_cursor() == 0,
        s.link() is None,
        s.unread() == Seq::<T>::empty(),
{
    let mut slots: Vec<Option<T>> = Vec::new();
    let mut i: usize = 0;
    while i < capacity
        invariant
            i <= capacity,
            slots@.len() == i,
            forall|j: int| 0 <= j < i ==> (#[trigger] slots@[j]) is None,
        decreases capacity - i,
    {
        slots.push(None);
        i = i + 1;
    }
    let s = Segment { next: None, capacity, front: 0, back: 0, slots };
    proof {
        assert(s.unread_opts() =~= Seq::<Option<T>>::empty());
        assert(s.unread() =~= Seq::<T>::empty());
    }
    s
}

/// The buffer core: an arena of segments, the head (write end) and
/// tail (drain end) of the chain.
///
/// Dropping the buffer releases every segment; because a slot holds a
/// value exactly while it is written and unread, teardown destructs
/// exactly the values never handed out, and no other.
pub struct RawBuffer<T> {
    /// Arena holding every segment the buffer ever allocated.
    segments: Vec<Segment<T>>,
    /// Arena index of the segment currently accepting writes. Segments
    /// may exist past the head in the chain (freshly grown or recycled
    /// ones); the head advances into them as it fills.
    head: usize,
    /// Arena index of the segment currently being drained.
    tail: usize,
    /// Ghost: the arena indices in chain order, tail first. The chain
    /// lists every arena index exactly once.
    chain: Ghost<Seq<usize>>,
    /// Ghost: the position of the head segment in `chain`.
    hpos: Ghost<int>,
}

impl<T> RawBuffer<T> {
    /// The segment standing at chain position `p`.
    pub closed spec fn seg_at(&self, p: int) -> Segment<T> {
        self.segments@[self.chain@[p] as int]
    }

    /// Length of the chain (equal to the arena's length when the
    /// buffer is well-formed).
    pub closed spec fn chain_len(&self) -> int {
        self.chain@.len() as int
    }

    /// How many segments the buffer has allocated in its lifetime; all
    /// of them are still live, linked somewhere in the chain.
    pub closed spec fn segment_count(&self) -> int {
        self.segments@.len() as int
    }

    /// The ghost chain lists every arena index exactly once, tail
    /// first; `next` links follow the chain order and the last segment
    /// has no link; head stands at position `hpos`.
    pub closed spec fn chain_wf(&self) -> bool {
        &&& self.chain@.len() == self.segments@.len()
        &&& self.segments@.len() >= 1
        &&& forall|p: int|
            0 <= p < self.chain@.len() ==> (#[trigger] self.chain@[p]) < self.segments@.len()
        &&& forall|p: int, q: int|
            #![trigger self.chain@[p], self.chain@[q]]
            0 <= p < q < self.chain@.len() ==> self.chain@[p] != self.chain@[q]
        &&& self.tail == self.chain@[0]
        &&& 0 <= self.hpos@ < self.chain@.len()
        &&& self.head == self.chain@[self.hpos@]
        &&& forall|p: int|
            0 <= p < self.chain@.len() - 1 ==> (#[trigger] self.seg_at(p).link()) == Some(
                self.chain@[p + 1],
            )
        &&& self.seg_at(self.chain@.len() - 1).link() is None
    }

    /// Cursor discipline at chain position `p`: segments the head has
    /// moved past are full (their write cursor passed the capacity);
    /// segments past the head are untouched; only the tail may have a
    /// nonzero read cursor.
    pub closed spec fn seg_ok(&self, p: int) -> bool {
        let s = self.seg_at(p);
        &&& s.seg_wf()
        &&& p < self.hpos@ ==> s.cap() < s.write_cursor() <= s.cap() + 2
        &&& p == self.hpos@ ==> s.write_cursor() <= s.cap() + 2
        &&& p > self.hpos@ ==> s.write_cursor() == 0 && s.read_cursor() == 0
        &&& p >= 1 ==> s.read_cursor() == 0
    }

    /// Well-formedness of the whole structure, except that the head's
    /// write cursor may stand past the capacity (as it briefly does in
    /// the middle of an append that has to move the head on).
    pub closed spec fn wf_core(&self) -> bool {
        &&& self.chain_wf()
        &&& forall|p: int| 0 <= p < self.chain@.len() ==> #[trigger] self.seg_ok(p)
    }

    /// Well-formedness at rest: additionally, the head's write cursor
    /// is within its capacity (every append leaves it so).
    pub closed spec fn wf(&self) -> bool {
        &&& self.wf_core()
        &&& self.seg_at(self.hpos@).write_cursor() <= self.seg_at(self.hpos@).cap()
    }

    /// The unread values of the chain suffix starting at position `p`,
    /// in drain order.
    pub closed spec fn view_from(&self, p: int) -> Seq<T>
        decreases self.chain_len() - p,
    {
        if 0 <= p < self.chain@.len() {
            self.seg_at(p).unread() + self.view_from(p + 1)
        } else {
            Seq::empty()
        }
    }

    /// Free slots in the chain suffix starting at position `p`.
    pub closed spec fn free_from(&self, p: int) -> int
        decreases self.chain_len() - p,
    {
        if 0 <= p < self.chain@.len() {
            self.seg_at(p).free_slots() + self.free_from(p + 1)
        } else {
            0
        }
    }

    /// Slots still open for appends without allocating: the free slots
    /// of the head segment and of every segment after it in the chain
    /// (freshly grown or recycled ones). Appends consume it one slot at
    /// a time; recycling a drained segment replenishes it.
    pub closed spec fn spare_capacity(&self) -> int {
        self.free_from(self.hpos@)
    }

    /// An append allocates exactly when the spare capacity is
    /// exhausted: while any recycled or grown storage remains open
    /// behind the head, pushes allocate nothing.
    pub proof fn lemma_grow_iff_no_spare(&self)
        requires
            self.wf(),
        ensures
            self.spare_capacity() >= 0,
            self.must_grow() <==> self.spare_capacity() == 0,
    {
        lemma_free_from_nonneg(*self, self.hpos@ + 1);
        assert(self.seg_ok(self.hpos@));
        if self.must_grow() {
            assert(self.seg_at(self.hpos@).free_slots() == 0);
            assert(self.free_from(self.hpos@ + 1) == 0);
            assert(self.spare_capacity() == 0);
        } else {
            if self.hpos@ < self.chain@.len() - 1 {
                assert(self.seg_ok(self.hpos@ + 1));
                assert(self.seg_at(self.hpos@ + 1).free_slots() >= 1);
                lemma_free_from_nonneg(*self, self.hpos@ + 2);
                assert(self.free_from(self.hpos@ + 1) >= 1);
                assert(self.spare_capacity() >= 1);
            } else {
                assert(self.seg_at(self.hpos@).free_slots() >= 1);
                assert(self.spare_capacity() >= 1);
            }
        }
    }

    /// True when no segment stands after the head and the head is
    /// full: the next append has nothing to advance into and must
    /// allocate. When this is false, an append reuses storage (a
    /// recycled or freshly grown segment already in the chain).
    pub closed spec fn must_grow(&self) -> bool {
        &&& self.hpos@ == self.chain@.len() - 1
        &&& self.seg_at(self.hpos@).write_cursor() >= self.seg_at(self.hpos@).cap()
    }

    /// True when the tail segment is fully drained and the head has
    /// moved past it: the state in which the next drain recycles the
    /// tail (resets its cursors and re-appends it at the chain's end).
    pub closed spec fn tail_recyclable(&self) -> bool {
        &&& self.hpos@ > 0
        &&& self.seg_at(0).read_cursor() >= self.seg_at(0).cap()
    }
}

/// Capacity of the segment an append allocates when it must grow:
/// twice the capacity `c` of the chain's last segment, capped at the
/// hard ceiling.
pub open spec fn grown_capacity(c: usize) -> int {
    if 2 * c > MAX_SIZE {
        MAX_SIZE as int
    } else {
        2 * c
    }
}

/// The buffer is modeled as the sequence of its unread values, in
/// drain order: the concatenation of every segment's live region along
/// the chain.
impl<T> View for RawBuffer<T> {
    type V = Seq<T>;

    closed spec fn view(&self) -> Seq<T> {
        self.view_from(0)
    }
}

impl<T> RawBuffer<T> {
    /// Constructs a buffer with one empty segment of the starting
    /// capacity; head and tail both point at it.
    pub fn new() -> (b: Self)
        ensures
            b.wf(),
            b@ == Seq::<T>::empty(),
            b.segment_count() == 1,
            b.chain_len() == 1,
            b.seg_at(0).cap() == STARTING_SIZE,
            b.seg_at(0).write_cursor() == 0,
            b.seg_at(0).read_cursor() == 0,
            b.seg_at(0).link() is None,
            !b.must_grow(),
            b.spare_capacity() == STARTING_SIZE,
    {
        let seg = new_segment(STARTING_SIZE);
        let mut segments: Vec<Segment<T>> = Vec::new();
        segments.push(seg);
        let ghost chain0: Seq<usize> = seq![0usize];
        let b = RawBuffer::<T> { segments, head: 0, tail: 0, chain: Ghost(chain0), hpos: Ghost(0int) };
        proof {
            assert forall|p: int| 0 <= p < b.chain@.len() implies #[trigger] b.seg_ok(p) by {
                assert(b.seg_at(p) == b.segments@[0]);
            }
            assert(b.view_from(1) =~= Seq::<T>::empty());
            assert(b.seg_at(0) == seg);
            assert(b@ =~= Seq::<T>::empty());
            assert(b.free_from(1) == 0);
            assert(b.spare_capacity() == STARTING_SIZE);
        }
        b
    }

    /// The number of live segments; each was allocated once and is
    /// reused thereafter, so this counts allocations.
    pub fn num_segments(&self) -> (n: usize)
        ensures
            n as int == self.segment_count(),
    {
        self.segments.len()
    }

    /// Appends a value at the buffer's head: the claim-and-write
    /// producer path. A slot index is claimed by advancing the head's
    /// write cursor past it; a claim at or past the capacity is
    /// abandoned (never reused) and the head moves on to its successor,
    /// allocating a segment of twice the capacity (capped at
    /// `MAX_SIZE`) exactly when no segment stands after the head. So
    /// when `must_grow` does not hold — in particular when a drained
    /// segment was recycled behind the head — no allocation happens.
    #[verifier::loop_isolation(false)]
    pub fn push(&mut self, value: T)
        requires
            old(self).wf(),
        ensures
            final(self).wf(),
            final(self)@ == old(self)@.push(value),
            final(self).segment_count() == old(self).segment_count() + (if old(self).must_grow() {
                1int
            } else {
                0int
            }),
            old(self).must_grow() ==> final(self).seg_at(final(self).chain_len() - 1).cap() as int
                == grown_capacity(old(self).seg_at(old(self).chain_len() - 1).cap()),
            final(self).spare_capacity() == old(self).spare_capacity() - 1 + (if old(
                self,
            ).must_grow() {
                grown_capacity(old(self).seg_at(old(self).chain_len() - 1).cap())
            } else {
                0int
            }),
            forall|p: int|
                0 <= p < old(self).chain_len() ==> (#[trigger] final(self).seg_at(p)).cap() == old(
                    self,
                ).seg_at(p).cap(),
    {
        let mut pending: Option<T> = Some(value);
        loop
            invariant
                self.wf_core(),
                pending == Some(value),
                self.view_from(0) == old(self).view_from(0),
                old(self).segments@.len() <= self.segments@.len() <= old(self).segments@.len()
                    + 1,
                self.seg_at(self.hpos@).write_cursor() <= self.seg_at(self.hpos@).cap() + 1,
                self.seg_at(self.hpos@).write_cursor() > self.seg_at(self.hpos@).cap()
                    ==> self.hpos@ < self.chain@.len() - 1,
                !old(self).must_grow() ==> self.segments@.len() == old(self).segments@.len() && !(
                self.hpos@ == self.chain@.len() - 1 && self.seg_at(self.hpos@).write_cursor()
                    >= self.seg_at(self.hpos@).cap()),
                self.segments@.len() == old(self).segments@.len() + 1 ==> self.seg_at(
                    self.chain@.len() - 1,
                ).write_cursor() < self.seg_at(self.chain@.len() - 1).cap(),
                old(self).must_grow() ==> (self.segments@.len() == old(self).segments@.len() + 1
                    || (self.hpos@ == self.chain@.len() - 1 && self.seg_at(
                    self.hpos@,
                ).write_cursor() >= self.seg_at(self.hpos@).cap())),
                self.segments@.len() == old(self).segments@.len() ==> self.chain@ == old(
                    self,
                ).chain@,
                forall|p: int|
                    0 <= p < old(self).chain@.len() ==> (#[trigger] self.seg_at(p)).cap() == old(
                        self,
                    ).seg_at(p).cap(),
                self.segments@.len() == old(self).segments@.len() + 1 ==> self.seg_at(
                    self.chain@.len() - 1,
                ).cap() as int == grown_capacity(old(self).seg_at(old(self).chain_len() - 1).cap()),
                self.free_from(self.hpos@) == old(self).free_from(old(self).hpos@) + (if self.segments@.len()
                    == old(self).segments@.len() + 1 {
                    grown_capacity(old(self).seg_at(old(self).chain_len() - 1).cap())
                } else {
                    0int
                }),
            decreases
                    self.chain@.len() - self.hpos@ + (if self.hpos@ == self.chain@.len() - 1
                        && self.seg_at(self.hpos@).write_cursor() >= self.seg_at(
                        self.hpos@,
                    ).cap() {
                        2int
                    } else {
                        0int
                    }),
        {
            let ghost s0 = *self;
            let h = self.head;
            proof {
                assert(self.seg_ok(self.hpos@));
            }
            let pos = self.segments[h].front;
            let cap = self.segments[h].capacity;
            {
                let seg = &mut self.segments[h];
                seg.front = pos + 1;
            }
            if pos < cap {
                // the claimed index is in range: the slot is ours; write the value
                let v = pending.take();
                let seg = &mut self.segments[h];
                let slot = &mut seg.slots[pos];
                *slot = v;
                proof {
                    let s2 = *self;
                    let hp = s0.hpos@;
                    assert(s2.seg_at(hp).slots@ == s0.seg_at(hp).slots@.update(
                        pos as int,
                        Some(value),
                    ));
                    assert(s2.seg_at(hp).unread_opts() =~= s0.seg_at(hp).unread_opts().push(
                        Some(value),
                    ));
                    assert(s2.seg_at(hp).unread() =~= s0.seg_at(hp).unread().push(value));
                    assert forall|k: int| 0 <= k < s0.chain@.len() && k != hp implies (
                    #[trigger] s0.seg_at(k)).unread() == s2.seg_at(k).unread() by {
                        assert(s0.chain@[k] != s0.chain@[hp]);
                    }
                    assert forall|k: int| hp < k < s0.chain@.len() implies (#[trigger] s0.seg_at(
                        k,
                    )).unread() == Seq::<T>::empty() by {
                        assert(s0.seg_ok(k));
                        assert(s0.seg_at(k).unread_opts() =~= Seq::<Option<T>>::empty());
                        assert(s0.seg_at(k).unread() =~= Seq::<T>::empty());
                    }
                    lemma_view_from_push_at(s0, s2, 0, hp, value);
                    assert(s2.seg_at(hp).seg_wf()) by {
                        assert(s0.seg_at(hp).seg_wf());
                        assert forall|j: int|
                            0 <= j < s2.seg_at(hp).cap() implies ((#[trigger] s2.seg_at(
                            hp,
                        ).slots@[j]) is Some <==> s2.seg_at(hp).read_cursor() <= j < s2.seg_at(
                            hp,
                        ).write_limit()) by {
                            if j != pos {
                                assert(s2.seg_at(hp).slots@[j] == s0.seg_at(hp).slots@[j]);
                            }
                        }
                    }
                    assert forall|k: int| 0 <= k < s2.chain@.len() implies #[trigger] s2.seg_ok(
                        k,
                    ) by {
                        assert(s0.seg_ok(k));
                        if k != hp {
                            assert(s2.seg_at(k) == s0.seg_at(k));
                        }
                    }
                    assert forall|k: int| 0 <= k < s2.chain@.len() implies (#[trigger] s2.seg_at(
                        k,
                    )).link() == s0.seg_at(k).link() by {
                        if k != hp {
                            assert(s2.seg_at(k) == s0.seg_at(k));
                        }
                    }
                    assert(s2.seg_at(hp).write_cursor() == pos + 1);
                    assert(s2.chain_wf());
                    assert(s0.seg_at(s0.hpos@).write_cursor() == pos);
                    // the claim consumed one spare slot of the head
                    assert forall|k: int|
                        0 <= k < s0.chain@.len() && k != hp implies #[trigger] s2.seg_at(k)
                            == s0.seg_at(k) by {
                        assert(s0.chain@[k] != s0.chain@[hp]);
                    }
                    assert(s2.seg_at(hp).free_slots() == s0.seg_at(hp).free_slots() - 1);
                    lemma_free_from_eq(s0, s2, hp + 1, hp + 1);
                    assert(s0.free_from(hp) == s0.seg_at(hp).free_slots() + s0.free_from(hp + 1));
                    assert(s2.free_from(hp) == s2.seg_at(hp).free_slots() + s2.free_from(hp + 1));
                }
                return ;
            } else {
                let nxt_opt = self.segments[h].next;
                match nxt_opt {
                    Some(n) => {
                        // a successor already exists: advance the head and retry
                        proof {
                            if s0.hpos@ == s0.chain@.len() - 1 {
                                assert(s0.seg_at(s0.hpos@).link() is None);
                                assert(false);
                            }
                            assert(s0.seg_at(s0.hpos@).link() == Some(s0.chain@[s0.hpos@ + 1]));
                        }
                        self.head = n;
                        self.hpos = Ghost(s0.hpos@ + 1);
                        proof {
                            let s2 = *self;
                            assert forall|k: int|
                                0 <= k < s0.chain@.len() implies (#[trigger] s2.seg_at(k)).unread()
                                == s0.seg_at(k).unread() && s2.seg_at(k).link() == s0.seg_at(
                                k,
                            ).link() by {
                                if k != s0.hpos@ {
                                    assert(s0.chain@[k] != s0.chain@[s0.hpos@]);
                                    assert(s2.seg_at(k) == s0.seg_at(k));
                                } else {
                                    assert(s0.seg_ok(k));
                                    assert(s2.seg_at(k).unread_opts() == s0.seg_at(
                                        k,
                                    ).unread_opts());
                                }
                            }
                            assert forall|k: int|
                                0 <= k < s2.chain@.len() implies #[trigger] s2.seg_ok(k) by {
                                assert(s0.seg_ok(k));
                                if k != s0.hpos@ {
                                    assert(s2.seg_at(k) == s0.seg_at(k));
                                }
                            }
                            assert(s0.seg_ok(s0.hpos@ + 1));
                            assert(s2.seg_at(s2.hpos@) == s0.seg_at(s0.hpos@ + 1));
                            assert(s2.seg_at(s2.hpos@).write_cursor() == 0);
                            lemma_view_from_eq(s0, s2, 0, 0);
                            // the passed-over head was out of spare slots, so
                            // none are lost by moving on
                            assert forall|k: int|
                                0 <= k < s0.chain@.len() && k != s0.hpos@ implies #[trigger] s2.seg_at(
                                k,
                            ) == s0.seg_at(k) by {
                                assert(s0.chain@[k] != s0.chain@[s0.hpos@]);
                            }
                            assert(s0.seg_at(s0.hpos@).free_slots() == 0);
                            assert(s2.seg_at(s0.hpos@).free_slots() == 0);
                            lemma_free_from_eq(s0, s2, s0.hpos@, s0.hpos@);
                            assert(s2.free_from(s0.hpos@) == s2.seg_at(s0.hpos@).free_slots()
                                + s2.free_from(s0.hpos@ + 1));
                        }
                    },
                    None => {
                        // no successor anywhere: grow the chain by one segment of
                        // twice the head's capacity, capped at the ceiling
                        proof {
                            if s0.hpos@ < s0.chain@.len() - 1 {
                                assert(s0.seg_at(s0.hpos@).link() == Some(
                                    s0.chain@[s0.hpos@ + 1],
                                ));
                                assert(false);
                            }
                            assert(pos == cap);
                        }
                        let grown = if cap > MAX_SIZE / 2 {
                            MAX_SIZE
                        } else {
                            cap * 2
                        };
                        let fresh = new_segment::<T>(grown);
                        self.segments.push(fresh);
                        let idx = self.segments.len() - 1;
                        proof {
                            let s2 = *self;
                            assert forall|k: int|
                                0 <= k < s0.chain@.len() implies (#[trigger] s2.seg_at(k)).unread()
                                == s0.seg_at(k).unread() && s2.seg_at(k).link() == s0.seg_at(
                                k,
                            ).link() by {
                                if k != s0.hpos@ {
                                    assert(s0.chain@[k] != s0.chain@[s0.hpos@]);
                                    assert(s2.seg_at(k) == s0.seg_at(k));
                                } else {
                                    assert(s0.seg_ok(k));
                                    assert(s2.seg_at(k).unread_opts() == s0.seg_at(
                                        k,
                                    ).unread_opts());
                                }
                            }
                            assert forall|k: int|
                                0 <= k < s2.chain@.len() implies #[trigger] s2.seg_ok(k) by {
                                assert(s0.seg_ok(k));
                                if k != s0.hpos@ {
                                    assert(s2.seg_at(k) == s0.seg_at(k));
                                }
                            }
                            assert(s2.detached_wf(idx as int));
                        }
                        let ghost s2 = *self;
                        self.append_segment(idx);
                        proof {
                            let s3 = *self;
                            assert forall|k: int|
                                0 <= k < s0.chain@.len() implies (#[trigger] s3.seg_at(k)).unread()
                                == s0.seg_at(k).unread() by {
                                assert(s3.seg_at(k).unread() == s2.seg_at(k).unread());
                            }
                            lemma_view_from_grow(s0, s3, 0);
                            assert(s2.seg_at(s2.hpos@).write_cursor() == pos + 1);
                            assert(s3.seg_at(s3.hpos@).write_cursor() == s2.seg_at(
                                s2.hpos@,
                            ).write_cursor());
                            assert(s3.seg_ok(s3.chain@.len() - 1));
                            if s0.segments@.len() == old(self).segments@.len() + 1 {
                                assert(s0.seg_at(s0.chain@.len() - 1).write_cursor() < s0.seg_at(
                                    s0.chain@.len() - 1,
                                ).cap());
                                assert(false);
                            }
                            // growth happens only when the append started
                            // with a full head at the chain's end
                            if !old(self).must_grow() {
                                assert(s0.seg_at(s0.hpos@).write_cursor() == pos);
                                assert(false);
                            }
                            // the spare capacity was exhausted; the fresh
                            // segment is all the spare there now is
                            assert(s0.free_from(s0.hpos@ + 1) == 0);
                            assert(s0.seg_at(s0.hpos@).free_slots() == 0);
                            assert(s0.free_from(s0.hpos@) == 0);
                            assert forall|k: int|
                                0 <= k < s0.chain@.len() && k != s0.hpos@ implies #[trigger] s2.seg_at(
                                k,
                            ) == s0.seg_at(k) by {
                                assert(s0.chain@[k] != s0.chain@[s0.hpos@]);
                            }
                            assert(s2.seg_at(s0.hpos@).free_slots() == 0);
                            lemma_free_from_eq(s0, s2, s0.hpos@, s0.hpos@);
                            assert forall|k: int|
                                s0.hpos@ <= k < s2.chain@.len() implies (#[trigger] s3.seg_at(
                                k,
                            )).free_slots() == s2.seg_at(k).free_slots() by {
                                assert(s3.seg_at(k).write_cursor() == s2.seg_at(k).write_cursor());
                                assert(s3.seg_at(k).cap() == s2.seg_at(k).cap());
                            }
                            lemma_free_from_snoc(s2, s3, s0.hpos@);
                            assert(s3.seg_at(s2.chain@.len() as int).free_slots() == grown as int);
                        }
                    },
                }
            }
        }
    }

    /// Removes the oldest unread value: the claim-and-read consumer
    /// path. Returns `None` exactly when the buffer holds no unread
    /// value. A fully drained tail segment has its cursors reset and,
    /// unless it is also the head, is detached and re-appended at the
    /// end of the chain, recycling its storage; no allocation ever
    /// happens here.
    #[verifier::loop_isolation(false)]
    pub fn pop(&mut self) -> (r: Option<T>)
        requires
            old(self).wf(),
        ensures
            final(self).wf(),
            final(self).segment_count() == old(self).segment_count(),
            old(self)@.len() == 0 ==> r is None && final(self)@ == old(self)@,
            old(self)@.len() > 0 ==> r == Some(old(self)@[0]) && final(self)@ == old(
                self,
            )@.drop_first(),
            old(self).tail_recyclable() ==> ({
                let last = final(self).chain_len() - 1;
                &&& final(self).chain_len() == old(self).chain_len()
                &&& final(self).seg_at(last).cap() == old(self).seg_at(0).cap()
                &&& final(self).seg_at(last).write_cursor() == 0
                &&& final(self).seg_at(last).read_cursor() == 0
                &&& forall|p: int|
                    0 <= p < last ==> (#[trigger] final(self).seg_at(p)).cap() == old(self).seg_at(
                        p + 1,
                    ).cap()
            }),
            final(self).spare_capacity() == old(self).spare_capacity() + (if old(
                self,
            ).tail_recyclable() {
                old(self).seg_at(0).cap() as int
            } else {
                0int
            }),
            !old(self).tail_recyclable() ==> (forall|p: int|
                0 <= p < final(self).chain_len() ==> (#[trigger] final(self).seg_at(p)).cap()
                    == old(self).seg_at(p).cap()),
    {
        loop
            invariant
                self.wf(),
                self.view_from(0) == old(self).view_from(0),
                self.segments@.len() == old(self).segments@.len(),
                *self == *old(self) || (old(self).tail_recyclable() && ({
                    let last = self.chain@.len() - 1;
                    &&& self.chain@.len() == old(self).chain@.len()
                    &&& self.chain@.len() >= 2
                    &&& self.seg_at(0).read_cursor() == 0
                    &&& self.seg_at(last).cap() == old(self).seg_at(0).cap()
                    &&& self.seg_at(last).write_cursor() == 0
                    &&& self.seg_at(last).read_cursor() == 0
                    &&& self.free_from(self.hpos@) == old(self).free_from(old(self).hpos@) + old(
                        self,
                    ).seg_at(0).cap()
                    &&& forall|p: int|
                        0 <= p < last ==> (#[trigger] self.seg_at(p)).cap() == old(self).seg_at(
                            p + 1,
                        ).cap()
                })),
            decreases self.hpos@,
        {
            let ghost s0 = *self;
            let t = self.tail;
            proof {
                assert(self.seg_ok(0));
            }
            let index = self.segments[t].back;
            {
                let seg = &mut self.segments[t];
                seg.back = index + 1;
            }
            let front = self.segments[t].front;
            let cap = self.segments[t].capacity;
            if index >= front {
                // no value is pending in the tail right now: leave the read
                // cursor where it was and signal empty
                let seg = &mut self.segments[t];
                seg.back = front;
                proof {
                    let s2 = *self;
                    // the read cursor had caught up with the write cursor, so
                    // the tail is empty and within capacity; then the tail must
                    // be the head, and everything past the head is empty too
                    assert(index == front);
                    assert(s2.segments@ =~= s0.segments@);
                    assert forall|k: int|
                        0 <= k < s2.chain@.len() implies #[trigger] s2.seg_at(k) == s0.seg_at(
                        k,
                    ) by {}
                    if s0.hpos@ > 0 {
                        assert(s0.seg_ok(0));
                        assert(false);
                    }
                    assert forall|k: int| 0 <= k < s0.chain@.len() implies (#[trigger] s0.seg_at(
                        k,
                    )).unread() == Seq::<T>::empty() by {
                        assert(s0.seg_ok(k));
                        assert(s0.seg_at(k).unread_opts() =~= Seq::<Option<T>>::empty());
                        assert(s0.seg_at(k).unread() =~= Seq::<T>::empty());
                    }
                    assert forall|k: int| 0 <= k < s2.chain@.len() implies (#[trigger] s2.seg_at(
                        k,
                    )).unread() == Seq::<T>::empty() && #[trigger] s2.seg_ok(k) by {
                        assert(s0.seg_ok(k));
                        assert(s2.seg_at(k) == s0.seg_at(k));
                        assert(s0.seg_at(k).unread() == Seq::<T>::empty());
                    }
                    assert(s2.chain_wf());
                    assert(s2.wf());
                    lemma_view_from_empty(s0, 0);
                    lemma_view_from_empty(s2, 0);
                    lemma_free_from_eq(s0, s2, s0.hpos@, s0.hpos@);
                    if old(self).tail_recyclable() {
                        // an empty tail within capacity cannot be the starting
                        // state's drained, passed-over tail: the rotation
                        // already happened, and this step changed no segment
                        if s0 == *old(self) {
                            assert(false);
                        }
                    }
                }
                return None;
            }
            if index >= cap {
                // the tail segment is fully drained: reset its cursors
                {
                    let seg = &mut self.segments[t];
                    seg.back = 0;
                    seg.front = 0;
                }
                proof {
                    // a drained tail's write cursor stands past the capacity,
                    // a resting head's within it: this tail is not the head
                    assert(index == cap);
                    assert(s0.seg_at(0).write_cursor() > cap);
                    if s0.hpos@ == 0 {
                        assert(false);
                    }
                }
                if self.head == t {
                    // no segment ahead of a drained tail: signal empty (with an
                    // exclusive consumer the head never lags a drained tail, so
                    // this arm mirrors the protocol but cannot be taken)
                    proof {
                        assert(s0.chain@[0] != s0.chain@[s0.hpos@]);
                        assert(false);
                    }
                    return None;
                }
                // advance the tail to its successor, detach the drained
                // segment and recycle it at the end of the chain
                let nxt_opt = self.segments[t].next;
                let nxt = match nxt_opt {
                    Some(n) => n,
                    None => {
                        proof {
                            assert(s0.seg_at(0).link() == Some(s0.chain@[1]));
                            assert(false);
                        }
                        vstd::pervasive::unreached()
                    },
                };
                self.tail = nxt;
                {
                    let seg = &mut self.segments[t];
                    seg.next = None;
                }
                self.chain = Ghost(s0.chain@.drop_first());
                self.hpos = Ghost(s0.hpos@ - 1);
                proof {
                    let s2 = *self;
                    assert(s0.seg_at(0).link() == Some(s0.chain@[1]));
                    assert forall|j: int|
                        0 <= j < s2.segments@[t as int].cap() implies !((
                        #[trigger] s2.segments@[t as int].slots@[j]) is Some) by {
                        assert(s0.seg_at(0).seg_wf());
                        assert(s2.segments@[t as int].slots@[j] == s0.seg_at(0).slots@[j]);
                    }
                    assert(s2.segments@[t as int].seg_wf());
                    assert forall|p: int|
                        0 <= p < s2.chain@.len() implies (#[trigger] s2.chain@[p]) != t
                            && s2.seg_at(p) == s0.seg_at(p + 1) by {
                        assert(s0.chain@[0] != s0.chain@[p + 1]);
                    }
                    assert forall|p: int| 0 <= p < s2.chain@.len() implies #[trigger] s2.seg_ok(
                        p,
                    ) by {
                        assert(s0.seg_ok(p + 1));
                        assert(s2.seg_at(p) == s0.seg_at(p + 1));
                    }
                    assert(s2.detached_wf(t as int));
                }
                let ghost s2 = *self;
                self.append_segment(t);
                proof {
                    let s3 = *self;
                    assert forall|k: int|
                        0 <= k < s3.chain@.len() - 1 implies (#[trigger] s3.seg_at(k)).unread()
                            == s0.seg_at(k + 1).unread() by {
                        assert(s3.seg_at(k).unread() == s2.seg_at(k).unread());
                        assert(s2.seg_at(k) == s0.seg_at(k + 1));
                    }
                    lemma_view_from_shift(s0, s3, 0);
                    assert(s0.seg_at(0).unread_opts() =~= Seq::<Option<T>>::empty());
                    assert(s0.seg_at(0).unread() =~= Seq::<T>::empty());
                    assert(s0.view_from(0) =~= s0.view_from(1));
                    // the head keeps its resting cursor across the recycle
                    assert(s3.seg_at(s3.hpos@).write_cursor() == s2.seg_at(
                        s2.hpos@,
                    ).write_cursor());
                    assert(s2.seg_at(s2.hpos@) == s0.seg_at(s0.hpos@));
                    // a rotation only ever happens straight from the starting
                    // state (a rotated tail has its read cursor at zero)
                    if s0 != *old(self) {
                        assert(s0.seg_at(0).read_cursor() == 0);
                        assert(false);
                    }
                    assert(old(self).tail_recyclable());
                    assert forall|p: int|
                        0 <= p < s3.chain@.len() - 1 implies (#[trigger] s3.seg_at(p)).cap()
                        == s0.seg_at(p + 1).cap() by {
                        assert(s3.seg_at(p).cap() == s2.seg_at(p).cap());
                        assert(s2.seg_at(p) == s0.seg_at(p + 1));
                    }
                    assert(s3.seg_at(s3.chain@.len() - 1).cap() == s0.seg_at(0).cap());
                    assert(s3.seg_at(0).read_cursor() == s2.seg_at(0).read_cursor());
                    assert(s2.seg_at(0) == s0.seg_at(1));
                    assert(s0.seg_ok(1));
                    // the recycled segment's storage is all spare again
                    assert forall|k: int|
                        s3.hpos@ <= k < s3.chain@.len() - 1 implies (#[trigger] s3.seg_at(
                        k,
                    )).free_slots() == s0.seg_at(k + 1).free_slots() by {
                        assert(s3.seg_at(k).write_cursor() == s2.seg_at(k).write_cursor());
                        assert(s3.seg_at(k).cap() == s2.seg_at(k).cap());
                        assert(s2.seg_at(k) == s0.seg_at(k + 1));
                    }
                    lemma_free_from_shift(s0, s3, s3.hpos@);
                    assert(s3.seg_at(s3.chain@.len() - 1).free_slots() == s0.seg_at(0).cap());
                }
                // loop on: the tail may again be drained or empty
            } else {
                // a live slot: advance the read cursor and take the value
                let seg = &mut self.segments[t];
                let slot = &mut seg.slots[index];
                let v = slot.take();
                proof {
                    let s2 = *self;
                    assert(s0.seg_at(0).seg_wf());
                    assert(s0.seg_at(0).slots@[index as int] is Some);
                    assert(v == s0.seg_at(0).unread_opts()[0]);
                    assert(s0.seg_at(0).unread()[0] == v.unwrap());
                    assert(s2.seg_at(0).slots@ == s0.seg_at(0).slots@.update(index as int, None));
                    assert(s2.seg_at(0).unread_opts() =~= s0.seg_at(0).unread_opts().drop_first());
                    assert(s2.seg_at(0).unread() =~= s0.seg_at(0).unread().drop_first());
                    assert forall|k: int|
                        1 <= k < s0.chain@.len() implies (#[trigger] s0.seg_at(k)).unread()
                            == s2.seg_at(k).unread() && s2.seg_at(k) == s0.seg_at(k) by {
                        assert(s0.chain@[k] != s0.chain@[0]);
                    }
                    lemma_view_from_eq(s0, s2, 1, 1);
                    assert(s0.view_from(0) == s0.seg_at(0).unread() + s0.view_from(1));
                    assert(s0.seg_at(0).unread().len() > 0);
                    assert(old(self)@[0] == v.unwrap());
                    assert(s2.view_from(0) == s2.seg_at(0).unread() + s2.view_from(1));
                    assert(s2.view_from(0) =~= old(self)@.drop_first());
                    // the tail is well formed again, one slot shorter
                    assert(s2.seg_at(0).seg_wf()) by {
                        assert forall|j: int|
                            0 <= j < s2.seg_at(0).cap() implies ((#[trigger] s2.seg_at(
                            0,
                        ).slots@[j]) is Some <==> s2.seg_at(0).read_cursor() <= j < s2.seg_at(
                            0,
                        ).write_limit()) by {
                            if j != index {
                                assert(s2.seg_at(0).slots@[j] == s0.seg_at(0).slots@[j]);
                            }
                        }
                    }
                    assert forall|k: int| 0 <= k < s2.chain@.len() implies #[trigger] s2.seg_ok(
                        k,
                    ) by {
                        assert(s0.seg_ok(k));
                        if k != 0 {
                            assert(s2.seg_at(k) == s0.seg_at(k));
                        }
                    }
                    assert forall|k: int| 0 <= k < s2.chain@.len() implies (#[trigger] s2.seg_at(
                        k,
                    )).link() == s0.seg_at(k).link() by {
                        if k != 0 {
                            assert(s2.seg_at(k) == s0.seg_at(k));
                        }
                    }
                    assert(s2.chain_wf());
                    assert(s2.seg_at(s2.hpos@).write_cursor() == s0.seg_at(
                        s0.hpos@,
                    ).write_cursor());
                    // the read moved no write cursor: every segment keeps its
                    // free slots
                    assert(s2.seg_at(0).free_slots() == s0.seg_at(0).free_slots());
                    lemma_free_from_eq(s0, s2, s0.hpos@, s0.hpos@);
                    if old(self).tail_recyclable() {
                        // the starting state's tail was drained, so this read
                        // follows a rotation; the read touched only the tail
                        // slot, and the rotation facts carry over
                        if s0 == *old(self) {
                            assert(false);
                        }
                        assert(s2.seg_at(s2.chain@.len() - 1) == s0.seg_at(s0.chain@.len() - 1));
                        assert(s2.seg_at(0).cap() == s0.seg_at(0).cap());
                        assert forall|p: int|
                            0 <= p < s2.chain@.len() - 1 implies (#[trigger] s2.seg_at(p)).cap()
                            == old(self).seg_at(p + 1).cap() by {
                            if p != 0 {
                                assert(s2.seg_at(p) == s0.seg_at(p));
                            }
                            assert(s0.seg_at(p).cap() == old(self).seg_at(p + 1).cap());
                        }
                    }
                }
                return v;
            }
        }
    }

    /// Returns the sequential bulk view: an iterator that yields one
    /// slice of slots per segment, tail first, covering each segment's
    /// unread region, without moving any cursor. The borrow it keeps on
    /// the buffer rules out appends and drains while it lives.
    pub fn iter(&self) -> (it: RawIter<'_, T>)
        requires
            self.wf(),
        ensures
            it.iter_wf(),
            it.buf() == *self,
            it.position() == 0,
            it.remaining() == self@,
    {
        RawIter { buffer: self, segment: Some(self.tail), pos: Ghost(0int) }
    }

    /// Returns the splittable bulk view for a divide-and-conquer
    /// executor: a work source standing at the tail whose `split` peels
    /// off one work unit per segment and whose `slice` yields the same
    /// slice the sequential iterator would.
    pub fn par_iter(&self) -> (it: ParRawIter<'_, T>)
        requires
            self.wf(),
        ensures
            it.par_wf(),
            it.buf() == *self,
            it.position() == 0,
    {
        ParRawIter { buffer: self, segment: self.tail, pos: Ghost(0int) }
    }

    /// Like `chain_wf` plus the cursor discipline, but for a buffer
    /// whose arena holds one segment, `extra`, that is not linked into
    /// the chain yet: fresh (just allocated) or just detached for
    /// recycling. `extra` is empty, with cursors reset and no link.
    spec fn detached_wf(&self, extra: int) -> bool {
        &&& self.chain@.len() + 1 == self.segments@.len()
        &&& self.chain@.len() >= 1
        &&& 0 <= extra < self.segments@.len()
        &&& forall|p: int|
            0 <= p < self.chain@.len() ==> (#[trigger] self.chain@[p]) < self.segments@.len()
        &&& forall|p: int, q: int|
            #![trigger self.chain@[p], self.chain@[q]]
            0 <= p < q < self.chain@.len() ==> self.chain@[p] != self.chain@[q]
        &&& forall|p: int| 0 <= p < self.chain@.len() ==> (#[trigger] self.chain@[p]) as int != extra
        &&& self.tail == self.chain@[0]
        &&& 0 <= self.hpos@ < self.chain@.len()
        &&& self.head == self.chain@[self.hpos@]
        &&& forall|p: int|
            0 <= p < self.chain@.len() - 1 ==> (#[trigger] self.seg_at(p).link()) == Some(
                self.chain@[p + 1],
            )
        &&& self.seg_at(self.chain@.len() - 1).link() is None
        &&& forall|p: int| 0 <= p < self.chain@.len() ==> #[trigger] self.seg_ok(p)
        &&& self.segments@[extra].seg_wf()
        &&& self.segments@[extra].write_cursor() == 0
        &&& self.segments@[extra].read_cursor() == 0
        &&& self.segments@[extra].link() is None
    }

    /// Links the detached segment `idx` at the current end of the
    /// chain, by walking `next` links forward from the head until a
    /// segment without a successor is found (the append protocol shared
    /// by growth and recycling).
    fn append_segment(&mut self, idx: usize)
        requires
            old(self).detached_wf(idx as int),
        ensures
            final(self).wf_core(),
            final(self).segments@.len() == old(self).segments@.len(),
            final(self).chain@ == old(self).chain@.push(idx),
            final(self).hpos@ == old(self).hpos@,
            final(self).head == old(self).head,
            final(self).tail == old(self).tail,
            forall|p: int|
                0 <= p < old(self).chain@.len() ==> (#[trigger] final(self).seg_at(p)).unread()
                    == old(self).seg_at(p).unread(),
            forall|p: int|
                0 <= p < old(self).chain@.len() ==> (#[trigger] final(self).seg_at(
                    p,
                )).write_cursor() == old(self).seg_at(p).write_cursor() && final(self).seg_at(
                    p,
                ).read_cursor() == old(self).seg_at(p).read_cursor() && final(self).seg_at(p).cap()
                    == old(self).seg_at(p).cap(),
            final(self).seg_at(old(self).chain@.len() as int).write_cursor() == 0,
            final(self).seg_at(old(self).chain@.len() as int).read_cursor() == 0,
            final(self).seg_at(old(self).chain@.len() as int).cap() == old(
                self,
            ).segments@[idx as int].cap(),
            final(self).seg_at(old(self).chain@.len() as int).unread() == Seq::<T>::empty(),
    {
        let ghost pre = *self;
        let mut cur: usize = self.head;
        let ghost mut j: int = self.hpos@;
        loop
            invariant
                *self == pre,
                pre.detached_wf(idx as int),
                pre.hpos@ <= j < pre.chain@.len(),
                cur == pre.chain@[j],
            ensures
                *self == pre,
                j == pre.chain@.len() - 1,
                cur == pre.chain@[j],
            decreases pre.chain@.len() - j,
        {
            let nxt = self.segments[cur].next;
            match nxt {
                Some(n) => {
                    proof {
                        if j == pre.chain@.len() - 1 {
                            assert(pre.seg_at(j).link() is None);
                            assert(false);
                        }
                        assert(pre.seg_at(j).link() == Some(pre.chain@[j + 1]));
                        
                        j = j + 1;
                    }
                    cur = n;
                },
                None => {
                    proof {
                        if j < self.chain@.len() - 1 {
                            assert(self.seg_at(j).link() == Some(self.chain@[j + 1]));
                            assert(false);
                        }
                    }
                    break ;
                },
            }
        }
        let ghost last: int = pre.chain@[pre.chain@.len() - 1] as int;
        let seg = &mut self.segments[cur];
        seg.next = Some(idx);
        self.chain = Ghost(pre.chain@.push(idx));
        proof {
            let post = *self;
            assert(post.segments@ == pre.segments@.update(last, post.segments@[last]));
            assert(post.segments@[last].slots@ == pre.segments@[last].slots@);
            // every chain position except the old end keeps its segment
            // value; the old end changes only its link
            assert forall|p: int| 0 <= p < post.chain@.len() - 1 implies (#[trigger] post.seg_at(
                p,
            )).link() == Some(post.chain@[p + 1]) by {
                if p < pre.chain@.len() - 1 {
                    assert(pre.seg_at(p).link() == Some(pre.chain@[p + 1]));
                }
            }
            assert(post.seg_at(post.chain@.len() - 1) == pre.segments@[idx as int]);
            assert forall|p: int| 0 <= p < post.chain@.len() implies #[trigger] post.seg_ok(p) by {
                if p < pre.chain@.len() {
                    assert(pre.seg_ok(p));
                    assert(post.seg_at(p).unread_opts() == pre.seg_at(p).unread_opts());
                } else {
                    assert(post.seg_at(p) == pre.segments@[idx as int]);
                    assert(post.seg_at(p).unread_opts() =~= Seq::<Option<T>>::empty());
                }
            }
            assert forall|p: int| 0 <= p < pre.chain@.len() implies (#[trigger] post.seg_at(
                p,
            )).unread() == pre.seg_at(p).unread() by {
                assert(pre.seg_ok(p));
                assert(post.seg_at(p).unread_opts() == pre.seg_at(p).unread_opts());
            }
            assert(post.seg_at(pre.chain@.len() as int).unread_opts() =~= Seq::<
                Option<T>,
            >::empty());
            assert(post.seg_at(pre.chain@.len() as int).unread() =~= Seq::<T>::empty());
        }
    }
}

/// The sequential bulk view over a buffer: a lazy, single-pass walk of
/// the segment chain from the tail to the end, yielding one slice of
/// storage slots per segment — exactly the segment's unread region at
/// the time of the walk. It never moves a cursor and never recycles.
pub struct RawIter<'a, T> {
    /// The buffer being viewed.
    buffer: &'a RawBuffer<T>,
    /// Arena index of the segment the next step yields, if any is left.
    segment: Option<usize>,
    /// Ghost: the chain position of that segment.
    pos: Ghost<int>,
}

impl<'a, T> RawIter<'a, T> {
    /// The buffer this iterator walks.
    pub closed spec fn buf(&self) -> RawBuffer<T> {
        *self.buffer
    }

    /// The chain position the next step yields (the chain's length once
    /// the walk is done).
    pub closed spec fn position(&self) -> int {
        self.pos@
    }

    /// The iterator stands at a chain position of a well-formed buffer,
    /// or one past the end.
    pub closed spec fn iter_wf(&self) -> bool {
        &&& self.buffer.wf()
        &&& 0 <= self.pos@ <= self.buffer.chain_len()
        &&& if self.pos@ < self.buffer.chain_len() {
            self.segment == Some(self.buffer.chain@[self.pos@])
        } else {
            self.segment is None
        }
    }

    /// The values of the slices not yet yielded, in drain order.
    pub closed spec fn remaining(&self) -> Seq<T> {
        self.buffer.view_from(self.pos@)
    }

    /// Yields the next segment's unread region, or `None` once every
    /// segment has been yielded. Every slot of the slice holds a value,
    /// and the slices' values, in yield order, concatenate to the
    /// buffer's view.
    pub fn next(&mut self) -> (r: Option<&'a [Option<T>]>)
        requires
            old(self).iter_wf(),
        ensures
            final(self).iter_wf(),
            final(self).buf() == old(self).buf(),
            r is None <==> old(self).position() == old(self).buf().chain_len(),
            r is None ==> final(self).position() == old(self).position(),
            r is Some ==> final(self).position() == old(self).position() + 1,
            r is Some ==> r.unwrap()@ == old(self).buf().seg_at(old(self).position()).unread_opts()
                && (forall|k: int| 0 <= k < r.unwrap()@.len() ==> (#[trigger] r.unwrap()@[k])
                is Some) && r.unwrap()@.map_values(|o: Option<T>| o.unwrap()) == old(
                self,
            ).buf().seg_at(old(self).position()).unread() && old(self).remaining() == old(
                self,
            ).buf().seg_at(old(self).position()).unread() + final(self).remaining(),
    {
        let buf = self.buffer;
        match self.segment {
            None => None,
            Some(i) => {
                proof {
                    assert(buf.chain_wf());
                    assert((i as int) < buf.segments@.len());
                    assert(buf.seg_ok(self.pos@));
                }
                let seg = &buf.segments[i];
                let start = seg.back;
                let limit = if seg.front < seg.capacity {
                    seg.front
                } else {
                    seg.capacity
                };
                let sl = vstd::slice::slice_subrange(seg.slots.as_slice(), start, limit);
                let ghost p = self.pos@;
                self.segment = seg.next;
                self.pos = Ghost(p + 1);
                proof {
                    if p < buf.chain_len() - 1 {
                        assert(buf.seg_at(p).link() == Some(buf.chain@[p + 1]));
                    } else {
                        assert(buf.seg_at(p).link() is None);
                    }
                    assert(sl@ == buf.seg_at(p).unread_opts());
                    assert forall|k: int| 0 <= k < sl@.len() implies (#[trigger] sl@[k])
                        is Some by {
                        assert(sl@[k] == buf.seg_at(p).slots@[start + k]);
                    }
                    assert(sl@.map_values(|o: Option<T>| o.unwrap()) =~= buf.seg_at(p).unread());
                    assert(buf.view_from(p) == buf.seg_at(p).unread() + buf.view_from(p + 1));
                }
                Some(sl)
            },
        }
    }
}

/// One work unit of the parallel bulk view: a position in the chain,
/// ready to be split at the chain's link boundaries by an external
/// divide-and-conquer executor. Each unit yields, through `slice`,
/// exactly the slice the sequential iterator yields for its segment.
pub struct ParRawIter<'a, T> {
    /// The buffer being viewed.
    buffer: &'a RawBuffer<T>,
    /// Arena index of this unit's segment.
    segment: usize,
    /// Ghost: the chain position of that segment.
    pos: Ghost<int>,
}

impl<'a, T> ParRawIter<'a, T> {
    /// The buffer this work unit views.
    pub closed spec fn buf(&self) -> RawBuffer<T> {
        *self.buffer
    }

    /// The chain position of this unit's segment.
    pub closed spec fn position(&self) -> int {
        self.pos@
    }

    /// The unit stands at a chain position of a well-formed buffer.
    pub closed spec fn par_wf(&self) -> bool {
        &&& self.buffer.wf()
        &&& 0 <= self.pos@ < self.buffer.chain_len()
        &&& self.segment == self.buffer.chain@[self.pos@]
    }

    /// Splits at the chain's next-link boundary: keeps this unit as is
    /// and peels off the rest of the chain as a second work source, or
    /// nothing if this unit's segment is the last.
    pub fn split(self) -> (r: (Self, Option<Self>))
        requires
            self.par_wf(),
        ensures
            r.0 == self,
            self.position() < self.buf().chain_len() - 1 ==> r.1 is Some && r.1.unwrap().par_wf()
                && r.1.unwrap().buf() == self.buf() && r.1.unwrap().position() == self.position()
                + 1,
            self.position() == self.buf().chain_len() - 1 ==> r.1 is None,
    {
        proof {
            assert(self.buffer.chain_wf());
            assert((self.segment as int) < self.buffer.segments@.len());
            if self.pos@ < self.buffer.chain_len() - 1 {
                assert(self.buffer.seg_at(self.pos@).link() == Some(
                    self.buffer.chain@[self.pos@ + 1],
                ));
            } else {
                assert(self.buffer.seg_at(self.pos@).link() is None);
            }
        }
        let nxt = self.buffer.segments[self.segment].next;
        match nxt {
            Some(n) => {
                let rest = ParRawIter { buffer: self.buffer, segment: n, pos: Ghost(self.pos@ + 1) };
                (self, Some(rest))
            },
            None => (self, None),
        }
    }

    /// The one slice this work unit contributes: its segment's unread
    /// region, every slot holding a value.
    pub fn slice(&self) -> (r: &'a [Option<T>])
        requires
            self.par_wf(),
        ensures
            r@ == self.buf().seg_at(self.position()).unread_opts(),
            forall|k: int| 0 <= k < r@.len() ==> (#[trigger] r@[k]) is Some,
            r@.map_values(|o: Option<T>| o.unwrap()) == self.buf().seg_at(
                self.position(),
            ).unread(),
    {
        let buf = self.buffer;
        proof {
            assert(buf.chain_wf());
            assert((self.segment as int) < buf.segments@.len());
            assert(buf.seg_ok(self.pos@));
        }
        let seg = &buf.segments[self.segment];
        let start = seg.back;
        let limit = if seg.front < seg.capacity {
            seg.front
        } else {
            seg.capacity
        };
        let sl = vstd::slice::slice_subrange(seg.slots.as_slice(), start, limit);
        proof {
            assert(sl@ == buf.seg_at(self.pos@).unread_opts());
            assert forall|k: int| 0 <= k < sl@.len() implies (#[trigger] sl@[k]) is Some by {
                assert(sl@[k] == buf.seg_at(self.pos@).slots@[start + k]);
            }
            assert(sl@.map_values(|o: Option<T>| o.unwrap()) =~= buf.seg_at(self.pos@).unread());
        }
        sl
    }
}

/// The free-slot count of a chain suffix is never negative.
proof fn lemma_free_from_nonneg<T>(a: RawBuffer<T>, p: int)
    ensures
        a.free_from(p) >= 0,
    decreases a.chain@.len() - p,
{
    if 0 <= p < a.chain@.len() {
        lemma_free_from_nonneg(a, p + 1);
    }
}

/// Chain suffixes of equal length whose segments hold positionally
/// equal free-slot counts hold equally many free slots.
proof fn lemma_free_from_eq<T>(a: RawBuffer<T>, b: RawBuffer<T>, pa: int, pb: int)
    requires
        0 <= pa <= a.chain@.len(),
        0 <= pb <= b.chain@.len(),
        a.chain@.len() - pa == b.chain@.len() - pb,
        forall|k: int|
            pa <= k < a.chain@.len() ==> (#[trigger] a.seg_at(k)).free_slots() == b.seg_at(
                k - pa + pb,
            ).free_slots(),
    ensures
        a.free_from(pa) == b.free_from(pb),
    decreases a.chain@.len() - pa,
{
    if pa < a.chain@.len() {
        lemma_free_from_eq(a, b, pa + 1, pb + 1);
        assert(a.seg_at(pa).free_slots() == b.seg_at(pb).free_slots());
    }
}

/// A chain that grew by one segment at the end gained that segment's
/// free slots.
proof fn lemma_free_from_snoc<T>(a: RawBuffer<T>, b: RawBuffer<T>, p: int)
    requires
        b.chain@.len() == a.chain@.len() + 1,
        0 <= p <= a.chain@.len(),
        forall|k: int|
            p <= k < a.chain@.len() ==> (#[trigger] b.seg_at(k)).free_slots() == a.seg_at(
                k,
            ).free_slots(),
    ensures
        b.free_from(p) == a.free_from(p) + b.seg_at(a.chain@.len() as int).free_slots(),
    decreases a.chain@.len() - p,
{
    if p == a.chain@.len() {
        assert(b.free_from(p + 1) == 0);
        assert(a.free_from(p) == 0);
    } else {
        lemma_free_from_snoc(a, b, p + 1);
        assert(b.seg_at(p).free_slots() == a.seg_at(p).free_slots());
    }
}

/// Rotating the chain: if `b`'s segments hold, position for position,
/// the free slots of `a`'s segments one position later, then `b`'s
/// count from `p` is `a`'s count from `p + 1` plus whatever `b`'s last
/// segment has free.
proof fn lemma_free_from_shift<T>(a: RawBuffer<T>, b: RawBuffer<T>, p: int)
    requires
        a.chain@.len() == b.chain@.len(),
        a.chain@.len() >= 1,
        0 <= p <= a.chain@.len() - 1,
        forall|k: int|
            p <= k < a.chain@.len() - 1 ==> (#[trigger] b.seg_at(k)).free_slots() == a.seg_at(
                k + 1,
            ).free_slots(),
    ensures
        b.free_from(p) == a.free_from(p + 1) + b.seg_at(a.chain@.len() - 1).free_slots(),
    decreases a.chain@.len() - p,
{
    if p == a.chain@.len() - 1 {
        assert(b.free_from(p + 1) == 0);
        assert(a.free_from(p + 1) == 0);
    } else {
        lemma_free_from_shift(a, b, p + 1);
        assert(b.seg_at(p).free_slots() == a.seg_at(p + 1).free_slots());
    }
}

/// Chain suffixes of equal length whose segments hold positionally
/// equal unread regions have equal views.
proof fn lemma_view_from_eq<T>(a: RawBuffer<T>, b: RawBuffer<T>, pa: int, pb: int)
    requires
        0 <= pa <= a.chain@.len(),
        0 <= pb <= b.chain@.len(),
        a.chain@.len() - pa == b.chain@.len() - pb,
        forall|k: int|
            pa <= k < a.chain@.len() ==> (#[trigger] a.seg_at(k)).unread() == b.seg_at(
                k - pa + pb,
            ).unread(),
    ensures
        a.view_from(pa) == b.view_from(pb),
    decreases a.chain@.len() - pa,
{
    if pa < a.chain@.len() {
        lemma_view_from_eq(a, b, pa + 1, pb + 1);
        assert(a.seg_at(pa).unread() == b.seg_at(pb).unread());
    }
}

/// A chain suffix of segments with empty unread regions has an empty
/// view.
proof fn lemma_view_from_empty<T>(a: RawBuffer<T>, p: int)
    requires
        0 <= p <= a.chain@.len(),
        forall|k: int|
            p <= k < a.chain@.len() ==> (#[trigger] a.seg_at(k)).unread() == Seq::<T>::empty(),
    ensures
        a.view_from(p) == Seq::<T>::empty(),
    decreases a.chain@.len() - p,
{
    if p < a.chain@.len() {
        lemma_view_from_empty(a, p + 1);
        assert(a.view_from(p) =~= Seq::<T>::empty());
    }
}

/// Appending one value to the unread region of the segment at position
/// `h` appends it to the view, provided every segment past `h` is
/// empty.
proof fn lemma_view_from_push_at<T>(a: RawBuffer<T>, b: RawBuffer<T>, p: int, h: int, v: T)
    requires
        0 <= p <= h < a.chain@.len(),
        a.chain@.len() == b.chain@.len(),
        forall|k: int|
            p <= k < a.chain@.len() && k != h ==> (#[trigger] a.seg_at(k)).unread() == b.seg_at(
                k,
            ).unread(),
        b.seg_at(h).unread() == a.seg_at(h).unread().push(v),
        forall|k: int|
            h < k < a.chain@.len() ==> (#[trigger] a.seg_at(k)).unread() == Seq::<T>::empty(),
    ensures
        b.view_from(p) == a.view_from(p).push(v),
    decreases h - p,
{
    if p == h {
        lemma_view_from_empty(a, h + 1);
        assert forall|k: int| h + 1 <= k < b.chain@.len() implies (#[trigger] b.seg_at(
            k,
        )).unread() == Seq::<T>::empty() by {
            assert(a.seg_at(k).unread() == b.seg_at(k).unread());
        }
        lemma_view_from_empty(b, h + 1);
        assert(b.view_from(h) =~= a.view_from(h).push(v));
    } else {
        lemma_view_from_push_at(a, b, p + 1, h, v);
        assert(a.seg_at(p).unread() == b.seg_at(p).unread());
        assert(b.view_from(p) =~= a.view_from(p).push(v));
    }
}

/// Rotating the chain: if `b`'s segments hold, position for position,
/// the unread regions of `a`'s segments one position later, and `b`'s
/// last segment is empty, then `b`'s view from `p` is `a`'s view from
/// `p + 1`.
proof fn lemma_view_from_shift<T>(a: RawBuffer<T>, b: RawBuffer<T>, p: int)
    requires
        a.chain@.len() == b.chain@.len(),
        a.chain@.len() >= 1,
        0 <= p <= a.chain@.len() - 1,
        forall|k: int|
            p <= k < a.chain@.len() - 1 ==> (#[trigger] b.seg_at(k)).unread() == a.seg_at(
                k + 1,
            ).unread(),
        b.seg_at(a.chain@.len() - 1).unread() == Seq::<T>::empty(),
    ensures
        b.view_from(p) == a.view_from(p + 1),
    decreases a.chain@.len() - p,
{
    if p == a.chain@.len() - 1 {
        assert(b.view_from(p + 1) =~= Seq::<T>::empty());
        assert(b.view_from(p) =~= Seq::<T>::empty());
        assert(a.view_from(p + 1) =~= Seq::<T>::empty());
    } else {
        lemma_view_from_shift(a, b, p + 1);
        assert(b.seg_at(p).unread() == a.seg_at(p + 1).unread());
        assert(b.view_from(p) == b.seg_at(p).unread() + b.view_from(p + 1));
        assert(a.view_from(p + 1) == a.seg_at(p + 1).unread() + a.view_from(p + 2));
    }
}

/// A buffer whose chain grew by one empty segment at the end keeps its
/// view.
proof fn lemma_view_from_grow<T>(a: RawBuffer<T>, b: RawBuffer<T>, p: int)
    requires
        b.chain@.len() == a.chain@.len() + 1,
        0 <= p <= a.chain@.len(),
        forall|k: int|
            p <= k < a.chain@.len() ==> (#[trigger] b.seg_at(k)).unread() == a.seg_at(k).unread(),
        b.seg_at(a.chain@.len() as int).unread() == Seq::<T>::empty(),
    ensures
        b.view_from(p) == a.view_from(p),
    decreases a.chain@.len() - p,
{
    if p == a.chain@.len() {
        assert(b.view_from(p + 1) =~= Seq::<T>::empty());
        assert(b.view_from(p) =~= Seq::<T>::empty());
        assert(a.view_from(p) =~= Seq::<T>::empty());
    } else {
        lemma_view_from_grow(a, b, p + 1);
        assert(b.seg_at(p).unread() == a.seg_at(p).unread());
        assert(b.view_from(p) == b.seg_at(p).unread() + b.view_from(p + 1));
    }
}

} // verus!
