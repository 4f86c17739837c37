//! The last bytes of a stream.

use vstd::prelude::*;

verus! {

/// Keeps the last `cap` bytes that were pushed.
pub struct RingBuf {
    buf: Vec<u8>,
    cap: usize,
    write_pos: usize,
    len: usize,
}

/// The last `cap` bytes.
pub open spec fn last_bytes(s: Seq<u8>, cap: nat) -> Seq<u8> {
    if s.len() <= cap {
        s
    } else {
        s.skip(s.len() - cap)
    }
}

/// Pushing two pieces one after the other keeps the same bytes as pushing them
/// together.
pub proof fn law_pushes_compose(kept: Seq<u8>, a: Seq<u8>, b: Seq<u8>, cap: nat)
    ensures
        last_bytes(last_bytes(kept + a, cap) + b, cap) == last_bytes(kept + (a + b), cap),
{
    assert(kept + (a + b) =~= (kept + a) + b);
    assert(last_bytes(last_bytes(kept + a, cap) + b, cap) =~= last_bytes((kept + a) + b, cap));
}

impl View for RingBuf {
    type V = Seq<u8>;

    closed spec fn view(&self) -> Seq<u8> {
        Seq::new(self.len as nat, |i: int| self.buf@[self.place(i)])
    }
}

impl RingBuf {
    /// Where the `i`-th kept byte is stored.
    spec fn place(&self, i: int) -> int {
        let p = self.write_pos - self.len + i;
        if p < 0 {
            p + self.cap
        } else {
            p
        }
    }

    pub closed spec fn wf(&self) -> bool {
        &&& self.buf@.len() == self.cap
        &&& 1 <= self.cap <= isize::MAX
        &&& self.write_pos < self.cap
        &&& self.len <= self.cap
    }

    /// How many bytes are kept at most.
    pub closed spec fn room(&self) -> nat {
        self.cap as nat
    }

    /// An empty buffer for `cap` bytes, for one where `cap` is zero.
    pub fn new(cap: usize) -> (r: Self)
        requires
            cap <= isize::MAX,
        ensures
            r.wf(),
            r@ == Seq::<u8>::empty(),
            r.room() == (if cap == 0 {
                1
            } else {
                cap as int
            }),
    {
        let cap: usize = if cap == 0 {
            1
        } else {
            cap
        };
        let r = RingBuf { buf: vec![0; cap], cap, write_pos: 0, len: 0 };
        assert(r@ =~= Seq::<u8>::empty());
        r
    }

    pub fn len(&self) -> (r: usize)
        requires
            self.wf(),
        ensures
            r == self@.len(),
            r <= self.room(),
    {
        self.len
    }

    fn push_byte(&mut self, b: u8)
        requires
            old(self).wf(),
        ensures
            final(self).wf(),
            final(self).room() == old(self).room(),
            final(self)@ == last_bytes(old(self)@.push(b), old(self).room()),
    {
        let at: usize = self.write_pos;
        self.buf.set(at, b);
        self.write_pos = if at + 1 == self.cap {
            0
        } else {
            at + 1
        };
        if self.len < self.cap {
            self.len = self.len + 1;
        }
        assert(self@ =~= last_bytes(old(self)@.push(b), old(self).room()));
    }

    /// Appends bytes and forgets the oldest ones that no longer fit.
    pub fn push(&mut self, data: &[u8])
        requires
            old(self).wf(),
        ensures
            final(self).wf(),
            final(self).room() == old(self).room(),
            final(self)@ == last_bytes(old(self)@ + data@, old(self).room()),
    {
        let ghost start = self@;
        let ghost room = self.room();
        let mut i: usize = 0;
        proof {
            assert(start + data@.take(0) =~= start);
            assert(start.len() <= room);
        }
        while i < data.len()
            invariant
                i <= data@.len(),
                self.wf(),
                self.room() == room,
                room == old(self).room(),
                start == old(self)@,
                self@ == last_bytes(start + data@.take(i as int), room),
            decreases data@.len() - i,
        {
            let ghost before = start + data@.take(i as int);
            self.push_byte(data[i]);
            proof {
                assert(start + data@.take(i as int + 1) =~= before.push(data@[i as int]));
                assert(last_bytes(last_bytes(before, room).push(data@[i as int]), room) =~= last_bytes(
                    before.push(data@[i as int]),
                    room,
                ));
            }
            i = i + 1;
        }
        assert(data@.take(data@.len() as int) =~= data@);
    }

    /// The kept bytes from place `offset` on.
    pub fn copy_from_offset_to_end(&self, offset: usize) -> (r: Vec<u8>)
        requires
            self.wf(),
        ensures
            r@ == (if offset < self@.len() {
                self@.skip(offset as int)
            } else {
                Seq::<u8>::empty()
            }),
    {
        let from: usize = if offset < self.len {
            offset
        } else {
            self.len
        };
        let r = self.copy_range(from, self.len - from);
        assert(r@ =~= self@.skip(from as int));
        r
    }

    /// At most `len` kept bytes from place `offset` on.
    pub fn copy_range(&self, offset: usize, len: usize) -> (r: Vec<u8>)
        requires
            self.wf(),
        ensures
            r@ == ({
                let from = if offset < self@.len() {
                    offset as int
                } else {
                    self@.len() as int
                };
                let to = if len < self@.len() - from {
                    from + len
                } else {
                    self@.len() as int
                };
                self@.subrange(from, to)
            }),
    {
        let from: usize = if offset < self.len {
            offset
        } else {
            self.len
        };
        let count: usize = if len < self.len - from {
            len
        } else {
            self.len - from
        };
        let ghost want = self@.subrange(from as int, from + count);
        let mut pos: usize = if self.write_pos + from >= self.len {
            self.write_pos + from - self.len
        } else {
            self.write_pos + self.cap - self.len + from
        };
        let mut out: Vec<u8> = Vec::new();
        let mut k: usize = 0;
        while k < count
            invariant
                self.wf(),
                from + count <= self.len,
                k <= count,
                want == self@.subrange(from as int, from + count),
                pos == self.place(from + k),
                pos < self.cap,
                out@ == want.take(k as int),
            decreases count - k,
        {
            proof {
                assert(self@[from + k] == self.buf@[self.place(from + k)]);
            }
            out.push(self.buf[pos]);
            pos = pos + 1;
            if pos == self.cap {
                pos = 0;
            }
            k = k + 1;
            assert(out@ =~= want.take(k as int));
        }
        assert(out@ =~= want);
        out
    }
}

/// What is kept is the end of what was pushed, as much as there is room for.
pub proof fn law_the_end_is_kept(s: Seq<u8>, cap: nat)
    ensures
        ({
            let kept = last_bytes(s, cap);
            &&& kept.len() == (if s.len() < cap {
                s.len()
            } else {
                cap
            })
            &&& forall|i: int| 0 <= i < kept.len() ==> #[trigger] kept[i] == s[s.len() - kept.len() + i]
        }),
{
}

} // verus!
