use vstd::prelude::*;
use vstd::bytes::{
    spec_u64_to_le_bytes, spec_u64_from_le_bytes, lemma_auto_spec_u64_to_from_le_bytes,
    u64_from_le_bytes, u64_to_le_bytes,
};
use vstd::arithmetic::div_mod::lemma_fundamental_div_mod;
use crate::arena::{bumped, Arena, ArenaArray, ArenaBox};
use crate::error::DecodeError;
use crate::item::{
    array_wire, elems_wire, lemma_array_wire_parts, lemma_elems_wire_index,
    lemma_elems_wire_push, type_is_byte, Item,
};

verus! {

/// Subtraction on read-budget accounting: a reservation never goes below
/// zero.
pub open spec fn sat_sub(a: int, b: int) -> int {
    if a >= b {
        a - b
    } else {
        0
    }
}

/// A byte reader with claim/unclaim budget accounting.
///
/// `claimed()` is the number of input bytes currently reserved but not yet
/// consumed. Well-formedness is the aggregate accounting law: the position
/// plus every outstanding reservation never passes the end of the input, so
/// no sequence of claims, unclaims and reads can let a declared size slip
/// past the remaining-input check.
pub struct Reader {
    bytes: Vec<u8>,
    pos: usize,
    claimed: usize,
}

impl Reader {
    /// The whole input.
    pub closed spec fn input(&self) -> Seq<u8> {
        self.bytes@
    }

    /// How many bytes have been consumed.
    pub closed spec fn position(&self) -> int {
        self.pos as int
    }

    /// The outstanding reservation.
    pub closed spec fn claimed(&self) -> int {
        self.claimed as int
    }

    /// The bytes not yet consumed.
    pub open spec fn remaining(&self) -> int {
        self.input().len() - self.position()
    }

    /// The unconsumed suffix of the input.
    pub open spec fn tail(&self) -> Seq<u8> {
        self.input().subrange(self.position(), self.input().len() as int)
    }

    /// The accounting invariant: every reservation fits in what remains.
    pub open spec fn wf(&self) -> bool {
        &&& 0 <= self.position()
        &&& 0 <= self.claimed()
        &&& self.position() + self.claimed() <= self.input().len()
        &&& self.input().len() <= usize::MAX
    }

    pub fn new(bytes: Vec<u8>) -> (r: Reader)
        ensures
            r.wf(),
            r.input() == bytes@,
            r.position() == 0,
            r.claimed() == 0,
    {
        // The vector's length bounds the input by the addressable size,
        // which well-formedness records.
        let input_len = bytes.len();
        Reader { bytes, pos: 0, claimed: 0 }
    }

    /// Bytes not yet consumed, as a machine integer.
    pub fn remaining_len(&self) -> (n: usize)
        requires
            self.wf(),
        ensures
            n == self.remaining(),
    {
        self.bytes.len() - self.pos
    }

    /// How many bytes have been consumed, as a machine integer.
    pub fn position_index(&self) -> (n: usize)
        ensures
            n == self.position(),
    {
        self.pos
    }

    /// Bytes that remain and are not spoken for by a reservation.
    pub fn available(&self) -> (n: usize)
        requires
            self.wf(),
        ensures
            n == self.remaining() - self.claimed(),
    {
        self.bytes.len() - self.pos - self.claimed
    }

    /// Reserve `n` bytes of the remaining input ahead of reading them;
    /// refuse a reservation that cannot be covered.
    pub fn claim(&mut self, n: usize) -> (res: Result<(), DecodeError>)
        requires
            old(self).wf(),
        ensures
            final(self).wf(),
            final(self).input() == old(self).input(),
            final(self).position() == old(self).position(),
            match res {
                Ok(()) => {
                    &&& old(self).claimed() + n <= old(self).remaining()
                    &&& final(self).claimed() == old(self).claimed() + n
                },
                Err(e) => {
                    &&& e == DecodeError::BudgetExceeded
                    &&& old(self).claimed() + n > old(self).remaining()
                    &&& final(self).claimed() == old(self).claimed()
                },
            },
    {
        let avail = self.bytes.len() - self.pos - self.claimed;
        if n <= avail {
            self.claimed = self.claimed + n;
            Ok(())
        } else {
            Err(DecodeError::BudgetExceeded)
        }
    }

    /// Return `n` bytes of reservation, e.g. before an element's own decode
    /// re-claims them.
    pub fn unclaim(&mut self, n: usize)
        requires
            old(self).wf(),
        ensures
            final(self).wf(),
            final(self).input() == old(self).input(),
            final(self).position() == old(self).position(),
            final(self).claimed() == sat_sub(old(self).claimed(), n as int),
    {
        if n <= self.claimed {
            self.claimed = self.claimed - n;
        } else {
            self.claimed = 0;
        }
    }

    /// Consume the next `n` bytes in one bulk copy; consuming input consumes
    /// reservation first.
    pub fn read_exact(&mut self, n: usize) -> (res: Result<Vec<u8>, DecodeError>)
        requires
            old(self).wf(),
        ensures
            final(self).wf(),
            final(self).input() == old(self).input(),
            match res {
                Ok(b) => {
                    &&& n <= old(self).remaining()
                    &&& b@ == old(self).input().subrange(
                        old(self).position(),
                        old(self).position() + n,
                    )
                    &&& final(self).position() == old(self).position() + n
                    &&& final(self).claimed() == sat_sub(old(self).claimed(), n as int)
                },
                Err(e) => {
                    &&& e == DecodeError::UnexpectedEnd
                    &&& n > old(self).remaining()
                    &&& final(self).position() == old(self).position()
                    &&& final(self).claimed() == old(self).claimed()
                },
            },
    {
        if n > self.bytes.len() - self.pos {
            return Err(DecodeError::UnexpectedEnd);
        }
        let mut out: Vec<u8> = Vec::new();
        let mut i: usize = 0;
        while i < n
            invariant
                self.wf(),
                i <= n,
                self.pos + n <= self.bytes@.len(),
                out@ == self.bytes@.subrange(self.pos as int, self.pos + i),
            decreases n - i,
        {
            out.push(self.bytes[self.pos + i]);
            i = i + 1;
            proof {
                assert(out@ =~= self.bytes@.subrange(self.pos as int, self.pos + i));
            }
        }
        self.pos = self.pos + n;
        if n <= self.claimed {
            self.claimed = self.claimed - n;
        } else {
            self.claimed = 0;
        }
        Ok(out)
    }

    /// Borrow a consumed stretch of the input, for callers that were handed
    /// positions instead of copies.
    pub fn input_slice(&self, start: usize, end: usize) -> (s: &[u8])
        requires
            start <= end <= self.input().len(),
        ensures
            s@ == self.input().subrange(start as int, end as int),
    {
        vstd::slice::slice_subrange(self.bytes.as_slice(), start, end)
    }

    /// Consume `n` bytes that were already inspected in place.
    fn advance(&mut self, n: usize)
        requires
            old(self).wf(),
            n <= old(self).remaining(),
        ensures
            final(self).wf(),
            final(self).input() == old(self).input(),
            final(self).position() == old(self).position() + n,
            final(self).claimed() == sat_sub(old(self).claimed(), n as int),
    {
        self.pos = self.pos + n;
        if n <= self.claimed {
            self.claimed = self.claimed - n;
        } else {
            self.claimed = 0;
        }
    }
}

/// Decode one element: re-claim its bytes, then consume them.
///
/// On success the element's wire image is exactly the consumed bytes and
/// the outstanding reservation is what it was; on failure the reader is
/// unchanged, and which error comes out says exactly what went wrong.
pub fn decode_item<T: Item>(r: &mut Reader) -> (res: Result<T, DecodeError>)
    requires
        old(r).wf(),
    ensures
        final(r).wf(),
        final(r).input() == old(r).input(),
        match res {
            Ok(v) => {
                &&& old(r).position() + T::wire_size() <= old(r).input().len()
                &&& v.wire() == old(r).input().subrange(
                    old(r).position(),
                    old(r).position() + T::wire_size(),
                )
                &&& final(r).position() == old(r).position() + T::wire_size()
                &&& final(r).claimed() == old(r).claimed()
            },
            Err(e) => {
                &&& final(r).position() == old(r).position()
                &&& final(r).claimed() == old(r).claimed()
                &&& (e == DecodeError::UnexpectedEnd || e == DecodeError::BudgetExceeded
                    || e == DecodeError::FormatError)
                &&& (e == DecodeError::UnexpectedEnd <==> T::wire_size() > old(r).remaining())
                &&& (e == DecodeError::BudgetExceeded <==> {
                    &&& T::wire_size() <= old(r).remaining()
                    &&& old(r).claimed() + T::wire_size() > old(r).remaining()
                })
                &&& (e == DecodeError::FormatError ==> {
                    &&& T::wire_size() <= old(r).remaining()
                    &&& forall|v: T| (#[trigger] v.wire()) != old(r).input().subrange(
                        old(r).position(),
                        old(r).position() + T::wire_size(),
                    )
                })
            },
        },
{
    let size = T::size_hint();
    if size > r.remaining_len() {
        return Err(DecodeError::UnexpectedEnd);
    }
    match r.claim(size) {
        Ok(()) => {}
        Err(e) => {
            return Err(e);
        }
    }
    match T::read_at(&r.bytes, r.pos) {
        Ok(v) => {
            r.advance(size);
            Ok(v)
        }
        Err(e) => {
            r.unclaim(size);
            Err(e)
        }
    }
}

/// Decode a sequence into a fresh array allocated in `arena`.
///
/// The length is read as an unsigned 64-bit count and refused with
/// `LengthOverflow` when it does not fit an addressable size; the whole
/// collection's worst case is then claimed against the read budget and
/// refused with `BudgetExceeded` — both before anything is allocated in the
/// arena. When the element type is the byte type, a buffer is allocated in
/// the arena and filled from the input in one bulk read; otherwise one unit
/// of the collection's reservation is returned before each element's own
/// decode re-claims it. On success the array's framed image is exactly the
/// consumed input, elements in order; and on input that carries a
/// well-formed frame, with no outstanding reservation, the decode always
/// succeeds.
pub fn decode_array<T: Item>(r: &mut Reader, arena: &mut Arena) -> (res: Result<
    ArenaArray<T>,
    DecodeError,
>)
    requires
        old(r).wf(),
    ensures
        final(r).wf(),
        final(r).input() == old(r).input(),
        final(arena).allocations() >= old(arena).allocations(),
        match res {
            Ok(a) => {
                &&& array_wire(a@).is_prefix_of(old(r).tail())
                &&& final(r).position() == old(r).position() + 8 + a@.len() * T::wire_size()
                &&& final(r).claimed() == sat_sub(old(r).claimed(), 8)
                &&& final(arena).allocations() == bumped(old(arena).allocations())
            },
            Err(e) => {
                &&& (e != DecodeError::FormatError ==> final(arena).allocations() == old(
                    arena,
                ).allocations())
                &&& (e == DecodeError::UnexpectedEnd ==> {
                    &&& final(r).position() == old(r).position()
                    &&& final(r).claimed() == old(r).claimed()
                })
                &&& ((e == DecodeError::LengthOverflow || e == DecodeError::BudgetExceeded) ==> {
                    &&& final(r).position() == old(r).position() + 8
                    &&& final(r).claimed() == sat_sub(old(r).claimed(), 8)
                })
                &&& (e == DecodeError::FormatError ==> {
                    &&& old(r).position() + 8 <= final(r).position()
                    &&& final(r).claimed() >= sat_sub(old(r).claimed(), 8)
                })
                &&& (e == DecodeError::UnexpectedEnd ==> old(r).remaining() < 8)
                &&& (e == DecodeError::LengthOverflow ==> {
                    &&& old(r).remaining() >= 8
                    &&& spec_u64_from_le_bytes(old(r).tail().take(8)) > usize::MAX
                })
                &&& (e == DecodeError::BudgetExceeded ==> {
                    &&& old(r).remaining() >= 8
                    &&& spec_u64_from_le_bytes(old(r).tail().take(8)) * T::wire_size() > old(
                        r,
                    ).remaining() - 8 - sat_sub(old(r).claimed(), 8)
                })
            },
        },
        (old(r).claimed() == 0 && (exists|s: Seq<T>| (#[trigger] array_wire(s)).is_prefix_of(
            old(r).tail(),
        ))) ==> res is Ok,
        old(r).remaining() < 8 ==> res == Err::<ArenaArray<T>, DecodeError>(
            DecodeError::UnexpectedEnd,
        ),
        (old(r).remaining() >= 8 && spec_u64_from_le_bytes(old(r).tail().take(8)) > usize::MAX)
            ==> res == Err::<ArenaArray<T>, DecodeError>(DecodeError::LengthOverflow),
        ({
            &&& old(r).remaining() >= 8
            &&& spec_u64_from_le_bytes(old(r).tail().take(8)) <= usize::MAX
            &&& spec_u64_from_le_bytes(old(r).tail().take(8)) * T::wire_size() > old(
                r,
            ).remaining() - 8 - sat_sub(old(r).claimed(), 8)
        }) ==> res == Err::<ArenaArray<T>, DecodeError>(DecodeError::BudgetExceeded),
{
    let ghost inp = old(r).input();
    let ghost pos0 = old(r).position();
    let ghost cl0 = old(r).claimed();
    let ghost t0 = old(r).tail();
    proof {
        lemma_auto_spec_u64_to_from_le_bytes();
        T::lemma_size();
    }
    let header = match r.read_exact(8) {
        Ok(h) => h,
        Err(e) => {
            proof {
                if cl0 == 0 && exists|s: Seq<T>| (#[trigger] array_wire(s)).is_prefix_of(t0) {
                    let s = choose|s: Seq<T>| (#[trigger] array_wire(s)).is_prefix_of(t0);
                    lemma_array_wire_parts::<T>(t0, s);
                    assert(false);
                }
            }
            return Err(e);
        }
    };
    let len64 = u64_from_le_bytes(header.as_slice());
    proof {
        assert(t0.take(8) =~= inp.subrange(pos0, pos0 + 8));
        assert(header@ == t0.take(8));
    }
    if len64 > usize::MAX as u64 {
        proof {
            if cl0 == 0 && exists|s: Seq<T>| (#[trigger] array_wire(s)).is_prefix_of(t0) {
                let s = choose|s: Seq<T>| (#[trigger] array_wire(s)).is_prefix_of(t0);
                lemma_array_wire_parts::<T>(t0, s);
                assert(len64 == s.len() as u64);
                assert(s.len() <= t0.len() <= inp.len() <= usize::MAX);
                assert(false);
            }
        }
        return Err(DecodeError::LengthOverflow);
    }
    let len = len64 as usize;
    let size = T::size_hint();
    let avail = r.available();
    let q = avail / size;
    if len > q {
        proof {
            lemma_fundamental_div_mod(avail as int, size as int);
            let m = (avail as int) % (size as int);
            assert(0 <= m && m < size) by (nonlinear_arith)
                requires
                    m == (avail as int) % (size as int),
                    1 <= size,
            ;
            assert(len * size > avail) by (nonlinear_arith)
                requires
                    len > q,
                    avail as int == (size as int) * (q as int) + m,
                    0 <= m,
                    m < size,
                    1 <= size,
            ;
            if cl0 == 0 && exists|s: Seq<T>| (#[trigger] array_wire(s)).is_prefix_of(t0) {
                let s = choose|s: Seq<T>| (#[trigger] array_wire(s)).is_prefix_of(t0);
                lemma_array_wire_parts::<T>(t0, s);
                assert(len64 == s.len() as u64);
                assert(s.len() <= t0.len() <= inp.len() <= usize::MAX);
                assert(s.len() == len);
                assert(avail == t0.len() - 8);
                assert(len * size <= avail);
                assert(false);
            }
        }
        return Err(DecodeError::BudgetExceeded);
    }
    proof {
        lemma_fundamental_div_mod(avail as int, size as int);
        let m = (avail as int) % (size as int);
        assert(0 <= m) by (nonlinear_arith)
            requires
                m == (avail as int) % (size as int),
                1 <= size,
        ;
        assert(len * size <= avail) by (nonlinear_arith)
            requires
                len <= q,
                avail as int == (size as int) * (q as int) + m,
                0 <= m,
                1 <= size,
        ;
    }
    let claim_bytes = len * size;
    match r.claim(claim_bytes) {
        Ok(()) => {}
        Err(_) => {
            proof {
                assert(false);
            }
            return Err(DecodeError::BudgetExceeded);
        }
    }
    let ghost c0 = sat_sub(cl0, 8);
    if type_is_byte::<T>() {
        let mut a = ArenaArray::<T>::with_capacity_in(len, arena);
        let raw = match r.read_exact(len) {
            Ok(b) => b,
            Err(_) => {
                proof {
                    assert(false);
                }
                return Err(DecodeError::UnexpectedEnd);
            }
        };
        let mut j: usize = 0;
        while j < len
            invariant
                T::is_byte(),
                j <= len,
                raw@.len() == len,
                a@.len() == j,
                elems_wire(a@) == raw@.take(j as int),
            decreases len - j,
        {
            let v = T::from_byte(raw[j]);
            proof {
                lemma_elems_wire_push::<T>(a@, v);
                assert(raw@.take(j + 1) =~= raw@.take(j as int) + seq![raw@[j as int]]);
            }
            a.push(v);
            j = j + 1;
        }
        proof {
            assert(raw@.take(len as int) =~= raw@);
            assert(spec_u64_to_le_bytes(a@.len() as u64) == header@);
            assert(a@.len() * T::wire_size() == len) by (nonlinear_arith)
                requires
                    a@.len() == len,
                    T::wire_size() == 1,
            ;
            assert(array_wire(a@) =~= t0.take(8 + len as int));
            assert(array_wire(a@).is_prefix_of(t0));
        }
        Ok(a)
    } else {
        let mut a = ArenaArray::<T>::with_capacity_in(len, arena);
        let mut i: usize = 0;
        proof {
            assert((len - 0) * size == len * size);
        }
        while i < len
            invariant
                r.wf(),
                r.input() == inp,
                old(r).wf(),
                t0 == old(r).tail(),
                inp == old(r).input(),
                pos0 == old(r).position(),
                cl0 == old(r).claimed(),
                c0 == sat_sub(cl0, 8),
                header@ == t0.take(8),
                len64 == spec_u64_from_le_bytes(header@),
                len == len64,
                size == T::wire_size(),
                1 <= size,
                i <= len,
                a@.len() == i,
                r.position() == pos0 + 8 + i * size,
                r.claimed() == c0 + (len - i) * size,
                0 <= c0,
                8 <= old(r).remaining(),
                len * size <= old(r).remaining() - 8 - c0,
                pos0 + 8 <= inp.len(),
                elems_wire(a@) == inp.subrange(pos0 + 8, r.position()),
                arena.allocations() == bumped(old(arena).allocations()),
            decreases len - i,
        {
            proof {
                assert((len - i) * size >= size) by (nonlinear_arith)
                    requires
                        i < len,
                        1 <= size,
                ;
                assert((len - i) * size - size == (len - (i + 1)) * size) by (nonlinear_arith);
            }
            r.unclaim(size);
            let ghost pos_before = r.position();
            match decode_item::<T>(r) {
                Ok(v) => {
                    proof {
                        assert((i + 1) * size == i * size + size) by (nonlinear_arith);
                        lemma_elems_wire_push::<T>(a@, v);
                        assert(elems_wire(a@.push(v)) =~= inp.subrange(pos0 + 8, r.position()));
                    }
                    a.push(v);
                }
                Err(e) => {
                    proof {
                        lemma_auto_spec_u64_to_from_le_bytes();
                        T::lemma_size();
                        assert(e == DecodeError::FormatError);
                        assert(0 <= i * size && 0 <= (len - (i + 1)) * size) by (nonlinear_arith)
                            requires
                                0 <= i < len,
                                0 <= size,
                        ;
                        if cl0 == 0 && exists|s: Seq<T>| (#[trigger] array_wire(s)).is_prefix_of(
                            t0,
                        ) {
                            let s = choose|s: Seq<T>| (#[trigger] array_wire(s)).is_prefix_of(t0);
                            lemma_array_wire_parts::<T>(t0, s);
                            assert(len64 == s.len() as u64);
                            assert(s.len() <= t0.len() <= inp.len() <= usize::MAX);
                            assert(s.len() == len);
                            lemma_elems_wire_index::<T>(s, i as int);
                            assert((i + 1) * size == i * size + size) by (nonlinear_arith);
                            assert(0 <= i * size && (i + 1) * size <= s.len() * size)
                                by (nonlinear_arith)
                                requires
                                    0 <= i < s.len(),
                                    1 <= size,
                            ;
                            assert(s[i as int].wire() =~= inp.subrange(
                                pos_before,
                                pos_before + size,
                            ));
                            assert(false);
                        }
                    }
                    return Err(e);
                }
            }
            i = i + 1;
        }
        proof {
            assert((len - len) * size == 0);
            assert(spec_u64_to_le_bytes(a@.len() as u64) == header@);
            assert(8 + len * size <= t0.len());
            assert(array_wire(a@) =~= t0.take(8 + (len * size) as int));
            assert(array_wire(a@).is_prefix_of(t0));
        }
        Ok(a)
    }
}

/// Encode a sequence: the 64-bit length, then each element in order. Never
/// touches any arena.
pub fn encode_array<T: Item>(a: &ArenaArray<T>, out: &mut Vec<u8>)
    ensures
        final(out)@ == old(out)@ + array_wire(a@),
{
    proof {
        lemma_auto_spec_u64_to_from_le_bytes();
    }
    let n = a.len();
    let mut header = u64_to_le_bytes(n as u64);
    out.append(&mut header);
    let mut i: usize = 0;
    while i < n
        invariant
            i <= n,
            n == a@.len(),
            out@ == old(out)@ + spec_u64_to_le_bytes(n as u64) + elems_wire(a@.take(i as int)),
        decreases n - i,
    {
        a.get(i).write_wire(out);
        proof {
            assert(a@.take(i + 1) =~= a@.take(i as int).push(a@[i as int]));
            crate::item::lemma_elems_wire_push::<T>(a@.take(i as int), a@[i as int]);
            assert(out@ =~= old(out)@ + spec_u64_to_le_bytes(n as u64) + elems_wire(a@.take(i + 1)));
        }
        i = i + 1;
    }
    proof {
        assert(a@.take(n as int) =~= a@);
        assert(final(out)@ =~= old(out)@ + array_wire(a@));
    }
}

/// The borrowing variant of byte-sequence decode: the same length field,
/// overflow check and budget claim as `decode_array`, but the payload is
/// handed back as a range of the original input — no copy is made and no
/// arena is touched. `Reader::input_slice` turns the range into a borrowed
/// slice.
pub fn borrow_decode_bytes(r: &mut Reader) -> (res: Result<(usize, usize), DecodeError>)
    requires
        old(r).wf(),
    ensures
        final(r).wf(),
        final(r).input() == old(r).input(),
        match res {
            Ok((start, n)) => {
                &&& start == old(r).position() + 8
                &&& start + n <= old(r).input().len()
                &&& array_wire::<u8>(old(r).input().subrange(start as int, start + n)).is_prefix_of(
                    old(r).tail(),
                )
                &&& final(r).position() == start + n
                &&& final(r).claimed() == sat_sub(old(r).claimed(), 8)
            },
            Err(e) => {
                &&& (e == DecodeError::UnexpectedEnd ==> {
                    &&& final(r).position() == old(r).position()
                    &&& final(r).claimed() == old(r).claimed()
                })
                &&& ((e == DecodeError::LengthOverflow || e == DecodeError::BudgetExceeded) ==> {
                    &&& final(r).position() == old(r).position() + 8
                    &&& final(r).claimed() == sat_sub(old(r).claimed(), 8)
                })
                &&& (e == DecodeError::UnexpectedEnd <==> old(r).remaining() < 8)
                &&& (e == DecodeError::LengthOverflow <==> {
                    &&& old(r).remaining() >= 8
                    &&& spec_u64_from_le_bytes(old(r).tail().take(8)) > usize::MAX
                })
                &&& (e == DecodeError::BudgetExceeded <==> {
                    &&& old(r).remaining() >= 8
                    &&& spec_u64_from_le_bytes(old(r).tail().take(8)) <= usize::MAX
                    &&& spec_u64_from_le_bytes(old(r).tail().take(8)) > old(r).remaining() - 8
                        - sat_sub(old(r).claimed(), 8)
                })
                &&& (e == DecodeError::UnexpectedEnd || e == DecodeError::LengthOverflow || e
                    == DecodeError::BudgetExceeded)
            },
        },
{
    let ghost inp = old(r).input();
    let ghost pos0 = old(r).position();
    let ghost t0 = old(r).tail();
    proof {
        lemma_auto_spec_u64_to_from_le_bytes();
    }
    let header = match r.read_exact(8) {
        Ok(h) => h,
        Err(e) => {
            return Err(e);
        }
    };
    let len64 = u64_from_le_bytes(header.as_slice());
    proof {
        assert(t0.take(8) =~= inp.subrange(pos0, pos0 + 8));
        assert(header@ == t0.take(8));
    }
    if len64 > usize::MAX as u64 {
        return Err(DecodeError::LengthOverflow);
    }
    let len = len64 as usize;
    match r.claim(len) {
        Ok(()) => {}
        Err(e) => {
            return Err(e);
        }
    }
    let start = r.position_index();
    r.advance(len);
    proof {
        let p = inp.subrange(start as int, start + len);
        crate::item::lemma_byte_fast_path(p);
        assert(spec_u64_to_le_bytes(p.len() as u64) == header@);
        assert(array_wire::<u8>(p) =~= t0.take(8 + len as int));
        assert(array_wire::<u8>(p).is_prefix_of(t0));
    }
    Ok((start, len))
}

/// Round trip of the framed sequence codec: decoding an encoding yields the
/// encoded sequence. `encode_array` appends exactly `array_wire(v)`, and
/// `decode_array` returns a sequence whose image is the consumed prefix of
/// the input; this law closes the loop — any sequence whose image begins
/// the encoder's output, whatever follows it, is the encoded sequence —
/// under the bulk byte path and the per-element path alike.
pub proof fn lemma_array_round_trip<T: Item>(v: Seq<T>, decoded: Seq<T>, rest: Seq<u8>)
    requires
        v.len() <= u64::MAX,
        decoded.len() <= u64::MAX,
        array_wire(decoded).is_prefix_of(array_wire(v) + rest),
    ensures
        decoded == v,
{
    crate::item::lemma_array_wire_injective::<T>(v, decoded, rest);
}

/// Encode a box: the referent's wire image, nothing more.
pub fn encode_box<T: Item>(b: &ArenaBox<T>, out: &mut Vec<u8>)
    ensures
        final(out)@ == old(out)@ + b@.wire(),
{
    b.get().write_wire(out);
}

/// Decode a box: decode the inner value, then allocate it into the arena
/// and wrap it. Nothing is allocated when the inner decode fails.
pub fn decode_box<T: Item>(r: &mut Reader, arena: &mut Arena) -> (res: Result<
    ArenaBox<T>,
    DecodeError,
>)
    requires
        old(r).wf(),
    ensures
        final(r).wf(),
        final(r).input() == old(r).input(),
        match res {
            Ok(b) => {
                &&& b@.wire() == old(r).input().subrange(
                    old(r).position(),
                    old(r).position() + T::wire_size(),
                )
                &&& final(r).position() == old(r).position() + T::wire_size()
                &&& final(r).claimed() == old(r).claimed()
                &&& final(arena).allocations() == bumped(old(arena).allocations())
            },
            Err(e) => {
                &&& final(r).position() == old(r).position()
                &&& final(r).claimed() == old(r).claimed()
                &&& final(arena).allocations() == old(arena).allocations()
                &&& (e == DecodeError::UnexpectedEnd || e == DecodeError::BudgetExceeded
                    || e == DecodeError::FormatError)
                &&& (e == DecodeError::UnexpectedEnd <==> T::wire_size() > old(r).remaining())
                &&& (e == DecodeError::BudgetExceeded <==> {
                    &&& T::wire_size() <= old(r).remaining()
                    &&& old(r).claimed() + T::wire_size() > old(r).remaining()
                })
                &&& (e == DecodeError::FormatError ==> forall|v: T|
                    (#[trigger] v.wire()) != old(r).input().subrange(
                        old(r).position(),
                        old(r).position() + T::wire_size(),
                    ))
            },
        },
{
    match decode_item::<T>(r) {
        Ok(v) => Ok(ArenaBox::new_in(v, arena)),
        Err(e) => Err(e),
    }
}

} // verus!
