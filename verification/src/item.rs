use vstd::prelude::*;
use vstd::bytes::{
    spec_u32_to_le_bytes, spec_u32_from_le_bytes, lemma_auto_spec_u32_to_from_le_bytes,
    spec_u64_to_le_bytes, lemma_auto_spec_u64_to_from_le_bytes,
    u32_from_le_bytes, u32_to_le_bytes,
};
use vstd::slice::slice_subrange;
use crate::error::DecodeError;

verus! {

/// An element type of both codecs.
///
/// Every value of an implementing type has a fixed-size wire image. The two
/// proof obligations pin the image down: its length is the declared size, and
/// the image determines the value. The byte hooks exist for the decoder's
/// bulk fast path, which applies exactly to the single-byte element type.
pub trait Item: Sized {
    /// The wire image of this value.
    spec fn wire(&self) -> Seq<u8>;

    /// The length in bytes of every wire image of this type; also the unit
    /// the decoder claims against its read budget for each element.
    spec fn wire_size() -> nat;

    /// Whether this type is the single-byte element type.
    spec fn is_byte() -> bool;

    /// The one byte of the wire image; meaningful only when `is_byte()`.
    spec fn as_byte(&self) -> u8;

    /// Sizes are small machine integers, and the byte type's size is one.
    proof fn lemma_size()
        ensures
            1 <= Self::wire_size() <= 0xffff,
            Self::is_byte() ==> Self::wire_size() == 1,
    ;

    /// The wire image has the declared size, and for the byte type the
    /// image is the byte itself.
    proof fn lemma_wire(&self)
        ensures
            self.wire().len() == Self::wire_size(),
            Self::is_byte() ==> self.wire() == seq![self.as_byte()],
    ;

    /// The wire image determines the value.
    proof fn lemma_wire_injective(&self, other: &Self)
        ensures
            self.wire() == other.wire() ==> self == other,
    ;

    /// The declared size as a machine integer.
    fn size_hint() -> (n: usize)
        ensures
            n == Self::wire_size(),
    ;

    /// Append the wire image of this value.
    fn write_wire(&self, out: &mut Vec<u8>)
        ensures
            final(out)@ == old(out)@ + self.wire(),
    ;

    /// Read the value whose wire image starts at `pos`.
    fn read_at(bytes: &Vec<u8>, pos: usize) -> (res: Result<Self, DecodeError>)
        requires
            pos + Self::wire_size() <= bytes@.len(),
        ensures
            match res {
                Ok(v) => v.wire() == bytes@.subrange(
                    pos as int,
                    pos + Self::wire_size(),
                ),
                Err(e) => {
                    &&& e == DecodeError::FormatError
                    &&& forall|v: Self| (#[trigger] v.wire()) != bytes@.subrange(
                        pos as int,
                        pos + Self::wire_size(),
                    )
                },
            },
    ;

    /// Reconstitute a value from one raw byte: the checked stand-in for the
    /// fast path's reinterpretation of a freshly filled byte buffer.
    fn from_byte(b: u8) -> (r: Self)
        ensures
            Self::is_byte() ==> r.wire() == seq![b],
    ;

    /// Equality of two values, decided without allocating.
    fn eq_item(&self, other: &Self) -> (r: bool)
        ensures
            r == (self == other),
    ;

    /// The element order that ordered comparisons go by: numeric order for
    /// integers, tag order for the syntax enums.
    spec fn le_spec(&self, other: &Self) -> bool;

    /// Whether `self` comes no later than `other` in the element order,
    /// decided without allocating.
    fn le_item(&self, other: &Self) -> (r: bool)
        ensures
            r == self.le_spec(other),
    ;
}

/// Relies on `unty::type_equal`, which compares the (lifetime-erased)
/// identities of its two type arguments and returns true exactly when `T`
/// is `u8`. The contract equates that with `T::is_byte()`, so it holds as
/// long as `u8` alone declares `is_byte()` — which every `Item`
/// implementation in this crate upholds, and any new implementation must.
#[verifier::external_body]
pub(crate) fn type_is_byte<T: Item>() -> (r: bool)
    ensures
        r == T::is_byte(),
{
    unty::type_equal::<T, u8>()
}

impl Item for u8 {
    open spec fn wire(&self) -> Seq<u8> {
        seq![*self]
    }

    open spec fn wire_size() -> nat {
        1
    }

    open spec fn is_byte() -> bool {
        true
    }

    open spec fn as_byte(&self) -> u8 {
        *self
    }

    proof fn lemma_size() {
    }

    proof fn lemma_wire(&self) {
    }

    proof fn lemma_wire_injective(&self, other: &Self) {
        if self.wire() == other.wire() {
            assert(self.wire()[0] == other.wire()[0]);
        }
    }

    fn size_hint() -> (n: usize) {
        1
    }

    fn write_wire(&self, out: &mut Vec<u8>) {
        out.push(*self);
        proof {
            assert(out@ =~= old(out)@ + self.wire());
        }
    }

    fn read_at(bytes: &Vec<u8>, pos: usize) -> (res: Result<Self, DecodeError>) {
        let b = bytes[pos];
        proof {
            assert(b.wire() =~= bytes@.subrange(pos as int, pos + 1));
        }
        Ok(b)
    }

    fn from_byte(b: u8) -> (r: Self) {
        b
    }

    fn eq_item(&self, other: &Self) -> (r: bool) {
        *self == *other
    }

    open spec fn le_spec(&self, other: &Self) -> bool {
        *self <= *other
    }

    fn le_item(&self, other: &Self) -> (r: bool) {
        *self <= *other
    }
}

/// The unsigned 32-bit image of a signed 32-bit value: the two's-complement
/// bit pattern, written out arithmetically.
pub open spec fn i32_bits(v: i32) -> u32 {
    if v >= 0 {
        v as u32
    } else {
        (v + 0x1_0000_0000int) as u32
    }
}

impl Item for i32 {
    open spec fn wire(&self) -> Seq<u8> {
        spec_u32_to_le_bytes(i32_bits(*self))
    }

    open spec fn wire_size() -> nat {
        4
    }

    open spec fn is_byte() -> bool {
        false
    }

    open spec fn as_byte(&self) -> u8 {
        0
    }

    proof fn lemma_size() {
    }

    proof fn lemma_wire(&self) {
        lemma_auto_spec_u32_to_from_le_bytes();
        assert(spec_u32_to_le_bytes(i32_bits(*self)).len() == 4);
    }

    proof fn lemma_wire_injective(&self, other: &Self) {
        lemma_auto_spec_u32_to_from_le_bytes();
        if self.wire() == other.wire() {
            let b1 = i32_bits(*self);
            let b2 = i32_bits(*other);
            assert(spec_u32_to_le_bytes(b1).len() == 4);
            assert(spec_u32_to_le_bytes(b2).len() == 4);
            assert(spec_u32_from_le_bytes(spec_u32_to_le_bytes(b1)) == b1);
            assert(spec_u32_from_le_bytes(spec_u32_to_le_bytes(b2)) == b2);
            assert(b1 == b2);
            assert(*self == *other);
        }
    }

    fn size_hint() -> (n: usize) {
        4
    }

    fn write_wire(&self, out: &mut Vec<u8>) {
        let bits: u32 = if *self >= 0 {
            *self as u32
        } else {
            ((*self as i64) + 0x1_0000_0000i64) as u32
        };
        let mut image = u32_to_le_bytes(bits);
        out.append(&mut image);
        proof {
            assert(out@ =~= old(out)@ + self.wire());
        }
    }

    fn read_at(bytes: &Vec<u8>, pos: usize) -> (res: Result<Self, DecodeError>) {
        let n = bytes.len();
        proof {
            assert(Self::wire_size() == 4);
            assert(pos + 4 <= n);
        }
        let image = slice_subrange(bytes.as_slice(), pos, pos + 4);
        let bits = u32_from_le_bytes(image);
        let v: i32 = if bits <= 0x7fff_ffffu32 {
            bits as i32
        } else {
            ((bits as i64) - 0x1_0000_0000i64) as i32
        };
        proof {
            lemma_auto_spec_u32_to_from_le_bytes();
            assert(image@.len() == 4);
            assert(spec_u32_to_le_bytes(spec_u32_from_le_bytes(image@)) == image@);
            assert(i32_bits(v) == bits);
            assert(v.wire() == spec_u32_to_le_bytes(spec_u32_from_le_bytes(image@)));
            assert(v.wire() == bytes@.subrange(pos as int, pos + 4));
        }
        Ok(v)
    }

    fn from_byte(b: u8) -> (r: Self) {
        0
    }

    fn eq_item(&self, other: &Self) -> (r: bool) {
        *self == *other
    }

    open spec fn le_spec(&self, other: &Self) -> bool {
        *self <= *other
    }

    fn le_item(&self, other: &Self) -> (r: bool) {
        *self <= *other
    }
}

/// The concatenated wire images of a sequence of elements.
pub open spec fn elems_wire<T: Item>(s: Seq<T>) -> Seq<u8>
    decreases s.len(),
{
    if s.len() == 0 {
        Seq::empty()
    } else {
        s[0].wire() + elems_wire(s.drop_first())
    }
}

/// The framed image of a sequence: an unsigned 64-bit little-endian length,
/// then the elements' wire images in order. Both codecs lay sequences out
/// this way.
pub open spec fn array_wire<T: Item>(s: Seq<T>) -> Seq<u8> {
    spec_u64_to_le_bytes(s.len() as u64) + elems_wire(s)
}

pub proof fn lemma_elems_wire_len<T: Item>(s: Seq<T>)
    ensures
        elems_wire(s).len() == s.len() * T::wire_size(),
    decreases s.len(),
{
    if s.len() == 0 {
    } else {
        s[0].lemma_wire();
        lemma_elems_wire_len::<T>(s.drop_first());
        assert(s.len() * T::wire_size()
            == T::wire_size() + (s.len() - 1) * T::wire_size()) by (nonlinear_arith);
    }
}

pub proof fn lemma_elems_wire_push<T: Item>(s: Seq<T>, v: T)
    ensures
        elems_wire(s.push(v)) == elems_wire(s) + v.wire(),
    decreases s.len(),
{
    if s.len() == 0 {
        assert(s.push(v)[0] == v);
        assert(s.push(v).drop_first().len() == 0);
        assert(elems_wire(s.push(v).drop_first()) == Seq::<u8>::empty());
        assert(elems_wire(s) == Seq::<u8>::empty());
        assert(elems_wire(s.push(v)) == v.wire() + Seq::<u8>::empty());
        assert(elems_wire(s.push(v)) =~= elems_wire(s) + v.wire());
    } else {
        assert(s.push(v).drop_first() =~= s.drop_first().push(v));
        lemma_elems_wire_push::<T>(s.drop_first(), v);
        assert(s.push(v).len() != 0);
        assert(s.push(v)[0] == s[0]);
        assert(elems_wire(s.push(v))
            == s[0].wire() + elems_wire(s.drop_first().push(v)));
        assert(elems_wire(s) == s[0].wire() + elems_wire(s.drop_first()));
        assert(s[0].wire() + (elems_wire(s.drop_first()) + v.wire())
            =~= (s[0].wire() + elems_wire(s.drop_first())) + v.wire());
        assert(elems_wire(s.push(v)) =~= elems_wire(s) + v.wire());
    }
}

/// Where element `i`'s wire image sits inside the concatenated image.
pub proof fn lemma_elems_wire_index<T: Item>(s: Seq<T>, i: int)
    requires
        0 <= i < s.len(),
    ensures
        s[i].wire() == elems_wire(s).subrange(
            i * T::wire_size(),
            (i + 1) * T::wire_size(),
        ),
    decreases s.len(),
{
    let size = T::wire_size() as int;
    lemma_elems_wire_len::<T>(s);
    lemma_elems_wire_len::<T>(s.drop_first());
    s[0].lemma_wire();
    T::lemma_size();
    if i == 0 {
        assert(s[0].wire() =~= elems_wire(s).subrange(0, size));
    } else {
        lemma_elems_wire_index::<T>(s.drop_first(), i - 1);
        assert((i - 1) * size == i * size - size) by (nonlinear_arith);
        assert((i + 1) * size == i * size + size) by (nonlinear_arith);
        assert(0 <= (i - 1) * size) by (nonlinear_arith)
            requires
                1 <= i,
                0 <= size,
        ;
        assert((i + 1) * size <= s.len() * size) by (nonlinear_arith)
            requires
                i + 1 <= s.len(),
                0 <= size,
        ;
        assert(s[i] == s.drop_first()[i - 1]);
        assert(elems_wire(s).subrange(i * size, (i + 1) * size)
            =~= elems_wire(s.drop_first()).subrange((i - 1) * size, ((i - 1) + 1) * size));
    }
}

/// Equal-length sequences with the same concatenated image are equal.
pub proof fn lemma_elems_wire_injective<T: Item>(a: Seq<T>, b: Seq<T>)
    requires
        a.len() == b.len(),
        elems_wire(a) == elems_wire(b),
    ensures
        a == b,
    decreases a.len(),
{
    if a.len() == 0 {
        assert(a =~= b);
    } else {
        a[0].lemma_wire();
        b[0].lemma_wire();
        lemma_elems_wire_len::<T>(a.drop_first());
        lemma_elems_wire_len::<T>(b.drop_first());
        let n = T::wire_size() as int;
        assert(a[0].wire() =~= elems_wire(a).subrange(0, n));
        assert(b[0].wire() =~= elems_wire(b).subrange(0, n));
        a[0].lemma_wire_injective(&b[0]);
        assert(elems_wire(a.drop_first()) =~= elems_wire(a).subrange(n, elems_wire(a).len() as int));
        assert(elems_wire(b.drop_first()) =~= elems_wire(b).subrange(n, elems_wire(b).len() as int));
        lemma_elems_wire_injective::<T>(a.drop_first(), b.drop_first());
        assert(a[0] == b[0]);
        assert forall|i: int| 0 <= i < a.len() implies a[i] == b[i] by {
            if i > 0 {
                assert(a[i] == a.drop_first()[i - 1]);
                assert(b[i] == b.drop_first()[i - 1]);
            }
        }
        assert(a =~= b);
    }
}

/// The round-trip law of the framed sequence format: a sequence's image
/// determines the sequence. If the image of `b` is a prefix of the image of
/// `a` followed by anything, then `b` is `a`; together with the encoder's
/// and decoder's contracts this says that decoding the encoding of any
/// sequence yields that sequence, under either decoding path.
pub proof fn lemma_array_wire_injective<T: Item>(a: Seq<T>, b: Seq<T>, rest: Seq<u8>)
    requires
        array_wire(b).is_prefix_of(array_wire(a) + rest),
        a.len() <= u64::MAX,
        b.len() <= u64::MAX,
    ensures
        a == b,
{
    lemma_auto_spec_u64_to_from_le_bytes();
    lemma_elems_wire_len::<T>(a);
    lemma_elems_wire_len::<T>(b);
    let wa = array_wire(a) + rest;
    let wb = array_wire(b);
    assert(spec_u64_to_le_bytes(a.len() as u64) =~= wa.subrange(0, 8));
    assert(spec_u64_to_le_bytes(b.len() as u64) =~= wb.subrange(0, 8));
    assert(wb.subrange(0, 8) =~= wa.subrange(0, 8));
    assert(a.len() as u64 == b.len() as u64);
    assert(a.len() == b.len());
    assert(elems_wire(a) =~= wa.subrange(8, 8 + elems_wire(a).len() as int));
    assert(elems_wire(b) =~= wb.subrange(8, 8 + elems_wire(b).len() as int));
    assert(elems_wire(a) =~= elems_wire(b));
    lemma_elems_wire_injective::<T>(a, b);
}

/// Where the parts of a framed sequence sit inside any byte sequence that
/// the frame is a prefix of.
pub proof fn lemma_array_wire_parts<T: Item>(t: Seq<u8>, s: Seq<T>)
    requires
        array_wire(s).is_prefix_of(t),
    ensures
        8 + s.len() * T::wire_size() <= t.len(),
        s.len() <= t.len(),
        t.take(8) == spec_u64_to_le_bytes(s.len() as u64),
        elems_wire(s) == t.subrange(8, 8 + s.len() * T::wire_size() as int),
{
    T::lemma_size();
    lemma_elems_wire_len::<T>(s);
    lemma_auto_spec_u64_to_from_le_bytes();
    let w = array_wire(s);
    assert(spec_u64_to_le_bytes(s.len() as u64).len() == 8);
    assert(w.len() == 8 + s.len() * T::wire_size());
    assert(w == t.subrange(0, w.len() as int));
    assert(t.take(8) =~= w.take(8));
    assert(w.take(8) =~= spec_u64_to_le_bytes(s.len() as u64));
    assert(elems_wire(s) =~= w.subrange(8, w.len() as int));
    assert(w.subrange(8, w.len() as int) =~= t.subrange(8, 8 + s.len() * T::wire_size() as int));
    assert(s.len() <= s.len() * T::wire_size()) by (nonlinear_arith)
        requires
            1 <= T::wire_size(),
    ;
}

/// The byte fast path writes and reads images bit-identical to the general
/// per-element path: the concatenated image of a byte sequence is the
/// sequence itself, so the framed image is just the length header followed
/// by the raw bytes.
pub proof fn lemma_byte_fast_path(s: Seq<u8>)
    ensures
        elems_wire(s) == s,
        array_wire(s) == spec_u64_to_le_bytes(s.len() as u64) + s,
    decreases s.len(),
{
    if s.len() == 0 {
        assert(elems_wire(s) =~= s);
    } else {
        lemma_byte_fast_path(s.drop_first());
        assert(elems_wire(s) =~= s);
    }
}

} // verus!
