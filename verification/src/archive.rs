use vstd::prelude::*;
use vstd::bytes::{
    spec_u64_to_le_bytes, lemma_auto_spec_u64_to_from_le_bytes, u64_from_le_bytes,
    u64_to_le_bytes,
};
use vstd::pervasive::unreached;
use vstd::slice::slice_subrange;
use crate::arena::{bumped, Arena, ArenaArray, ArenaBox, ArenaByteBox};
use crate::item::{
    array_wire, lemma_array_wire_injective, lemma_array_wire_parts, lemma_elems_wire_index,
    Item,
};

verus! {

/// The archived image of a boxed sized value: the referent serialized out
/// of line first, then the inline pair — the relative offset from the pair
/// back to the referent, and the metadata, which a sized referent does not
/// need.
pub open spec fn box_archive<T: Item>(v: T) -> Seq<u8> {
    v.wire() + spec_u64_to_le_bytes(T::wire_size() as u64) + spec_u64_to_le_bytes(0)
}

/// The archived image of a boxed byte slice: the payload out of line, then
/// the inline pair — the relative offset back to the payload, and the
/// length metadata of the fat pointer.
pub open spec fn byte_box_archive(p: Seq<u8>) -> Seq<u8> {
    p + spec_u64_to_le_bytes(p.len() as u64) + spec_u64_to_le_bytes(p.len() as u64)
}

/// Archive a sequence: the layout is the same length-prefixed contiguous
/// form as the framed codec's, readable in place.
pub fn archive_array<T: Item>(a: &ArenaArray<T>) -> (out: Vec<u8>)
    ensures
        out@ == array_wire(a@),
{
    let mut out: Vec<u8> = Vec::new();
    crate::incremental::encode_array(a, &mut out);
    proof {
        assert(out@ =~= array_wire(a@));
    }
    out
}

/// Materialize an archived sequence into a fresh array in `arena`: room for
/// the archived length is allocated, then each archived element is read in
/// order and pushed — always a copy.
pub fn dematerialize_array<T: Item>(bytes: &Vec<u8>, arena: &mut Arena) -> (a: ArenaArray<T>)
    requires
        exists|s: Seq<T>| bytes@ == #[trigger] array_wire(s),
    ensures
        array_wire(a@) == bytes@,
        final(arena).allocations() == bumped(old(arena).allocations()),
{
    let ghost s = choose|s: Seq<T>| bytes@ == #[trigger] array_wire(s);
    let n = bytes.len();
    proof {
        lemma_auto_spec_u64_to_from_le_bytes();
        T::lemma_size();
        assert(array_wire(s).is_prefix_of(bytes@));
        lemma_array_wire_parts::<T>(bytes@, s);
    }
    let header = slice_subrange(bytes.as_slice(), 0, 8);
    let len64 = u64_from_le_bytes(header);
    proof {
        assert(header@ == bytes@.take(8));
        assert(len64 == s.len() as u64);
        assert(s.len() <= n <= usize::MAX);
    }
    let len = len64 as usize;
    let size = T::size_hint();
    let mut a = ArenaArray::<T>::with_capacity_in(len, arena);
    let mut i: usize = 0;
    while i < len
        invariant
            bytes@ == array_wire(s),
            s.len() == len,
            size == T::wire_size(),
            1 <= size,
            8 + len * size <= bytes@.len(),
            bytes@.len() <= usize::MAX,
            i <= len,
            a@ == s.take(i as int),
            arena.allocations() == bumped(old(arena).allocations()),
        decreases len - i,
    {
        proof {
            assert((i + 1) * size == i * size + size) by (nonlinear_arith);
            assert(0 <= i * size && (i + 1) * size <= len * size) by (nonlinear_arith)
                requires
                    0 <= i < len,
                    1 <= size,
            ;
        }
        let pos = 8 + i * size;
        match T::read_at(bytes, pos) {
            Ok(v) => {
                proof {
                    lemma_array_wire_parts::<T>(bytes@, s);
                    lemma_elems_wire_index::<T>(s, i as int);
                    assert(s[i as int].wire() =~= bytes@.subrange(pos as int, pos + size));
                    v.lemma_wire_injective(&s[i as int]);
                    assert(v == s[i as int]);
                    assert(s.take(i + 1) =~= s.take(i as int).push(s[i as int]));
                }
                a.push(v);
            }
            Err(_) => {
                proof {
                    lemma_array_wire_parts::<T>(bytes@, s);
                    lemma_elems_wire_index::<T>(s, i as int);
                    assert(s[i as int].wire() =~= bytes@.subrange(pos as int, pos + size));
                    assert(false);
                }
                return unreached();
            }
        }
        i = i + 1;
    }
    proof {
        assert(a@ =~= s);
    }
    a
}

/// Read an archived sequence's length directly from the buffer, with no
/// deserialization and no allocation.
pub fn archived_array_len<T: Item>(bytes: &Vec<u8>) -> (n: usize)
    requires
        exists|s: Seq<T>| bytes@ == #[trigger] array_wire(s),
    ensures
        forall|s: Seq<T>| bytes@ == #[trigger] array_wire(s) ==> n == s.len(),
{
    let ghost s0 = choose|s: Seq<T>| bytes@ == #[trigger] array_wire(s);
    let total = bytes.len();
    proof {
        lemma_auto_spec_u64_to_from_le_bytes();
        T::lemma_size();
        assert(array_wire(s0).is_prefix_of(bytes@));
        lemma_array_wire_parts::<T>(bytes@, s0);
        assert(s0.len() <= total <= usize::MAX);
    }
    let header = slice_subrange(bytes.as_slice(), 0, 8);
    let len64 = u64_from_le_bytes(header);
    proof {
        assert(header@ == bytes@.take(8));
        assert(len64 == s0.len() as u64);
        assert forall|s: Seq<T>| bytes@ == #[trigger] array_wire(s) implies s.len() == s0.len() by {
            assert(array_wire(s0).is_prefix_of(array_wire(s) + Seq::<u8>::empty())) by {
                assert(array_wire(s) + Seq::<u8>::empty() =~= bytes@);
            }
            lemma_array_wire_parts::<T>(bytes@, s);
            lemma_array_wire_injective::<T>(s, s0, Seq::<u8>::empty());
        }
    }
    len64 as usize
}

/// Read one archived element directly from the buffer, with no
/// deserialization pass and no allocation.
pub fn archived_array_get<T: Item>(bytes: &Vec<u8>, i: usize) -> (v: T)
    requires
        exists|s: Seq<T>| bytes@ == #[trigger] array_wire(s) && i < s.len(),
    ensures
        forall|s: Seq<T>| bytes@ == #[trigger] array_wire(s) && i < s.len() ==> v == s[i as int],
{
    let ghost s0 = choose|s: Seq<T>| bytes@ == #[trigger] array_wire(s) && i < s.len();
    let total = bytes.len();
    proof {
        lemma_auto_spec_u64_to_from_le_bytes();
        T::lemma_size();
        assert(array_wire(s0).is_prefix_of(bytes@));
        lemma_array_wire_parts::<T>(bytes@, s0);
        assert((i + 1) * T::wire_size() == i * T::wire_size() + T::wire_size())
            by (nonlinear_arith);
        assert(0 <= i * T::wire_size() && (i + 1) * T::wire_size() <= s0.len() * T::wire_size())
            by (nonlinear_arith)
            requires
                0 <= i < s0.len(),
                1 <= T::wire_size(),
        ;
        assert(i * T::wire_size() <= usize::MAX);
    }
    let size = T::size_hint();
    let pos = 8 + i * size;
    let v = match T::read_at(bytes, pos) {
        Ok(v) => v,
        Err(_) => {
            proof {
                lemma_elems_wire_index::<T>(s0, i as int);
                assert(s0[i as int].wire() =~= bytes@.subrange(pos as int, pos + size));
                assert(false);
            }
            return unreached();
        }
    };
    proof {
        lemma_elems_wire_index::<T>(s0, i as int);
        assert(s0[i as int].wire() =~= bytes@.subrange(pos as int, pos + size));
        v.lemma_wire_injective(&s0[i as int]);
        assert(v == s0[i as int]);
        assert forall|s: Seq<T>| bytes@ == #[trigger] array_wire(s) && i < s.len() implies s[i as int]
            == s0[i as int] by {
            assert(array_wire(s0).is_prefix_of(array_wire(s) + Seq::<u8>::empty())) by {
                assert(array_wire(s) + Seq::<u8>::empty() =~= bytes@);
            }
            lemma_array_wire_parts::<T>(bytes@, s);
            lemma_array_wire_injective::<T>(s, s0, Seq::<u8>::empty());
        }
    }
    v
}

/// Archive a box in two phases: first serialize the referent out of line
/// and resolve where it landed, then write the fixed-size inline pair that
/// refers back to it.
pub fn archive_box<T: Item>(b: &ArenaBox<T>) -> (out: Vec<u8>)
    ensures
        out@ == box_archive(b@),
{
    let mut out: Vec<u8> = Vec::new();
    b.get().write_wire(&mut out);
    let rel = out.len() as u64;
    proof {
        b@.lemma_wire();
        T::lemma_size();
        assert(rel == T::wire_size() as u64);
    }
    let mut pair_rel = u64_to_le_bytes(rel);
    out.append(&mut pair_rel);
    let mut pair_meta = u64_to_le_bytes(0);
    out.append(&mut pair_meta);
    proof {
        assert(out@ =~= box_archive(b@));
    }
    out
}

/// Materialize an archived box of a sized referent: the referent's payload
/// is read from where the pair's relative offset points and moved into the
/// arena; a sized referent's metadata carries nothing.
pub fn dematerialize_box<T: Item>(bytes: &Vec<u8>, arena: &mut Arena) -> (b: ArenaBox<T>)
    requires
        exists|v: T| bytes@ == #[trigger] box_archive(v),
    ensures
        bytes@ == box_archive(b@),
        final(arena).allocations() == bumped(old(arena).allocations()),
{
    let ghost v0 = choose|v: T| bytes@ == #[trigger] box_archive(v);
    let n = bytes.len();
    proof {
        lemma_auto_spec_u64_to_from_le_bytes();
        T::lemma_size();
        v0.lemma_wire();
        assert(n == T::wire_size() + 16);
    }
    let pair_pos = n - 16;
    let rel_image = slice_subrange(bytes.as_slice(), pair_pos, pair_pos + 8);
    let rel64 = u64_from_le_bytes(rel_image);
    proof {
        assert(rel_image@ =~= spec_u64_to_le_bytes(T::wire_size() as u64));
        assert(rel64 == T::wire_size() as u64);
    }
    let rel = rel64 as usize;
    let data_pos = pair_pos - rel;
    let value = match T::read_at(bytes, data_pos) {
        Ok(value) => value,
        Err(_) => {
            proof {
                assert(v0.wire() =~= bytes@.subrange(data_pos as int, data_pos + T::wire_size()));
                assert(false);
            }
            return unreached();
        }
    };
    proof {
        assert(v0.wire() =~= bytes@.subrange(data_pos as int, data_pos + T::wire_size()));
        value.lemma_wire_injective(&v0);
        assert(value == v0);
    }
    // The metadata half of the pair is deserialized separately, after the
    // payload; a sized referent stores none.
    let meta_image = slice_subrange(bytes.as_slice(), pair_pos + 8, n);
    let meta64 = u64_from_le_bytes(meta_image);
    proof {
        assert(meta_image@ =~= spec_u64_to_le_bytes(0));
        assert(meta64 == 0);
    }
    ArenaBox::new_in(value, arena)
}

/// Archive a box of a byte slice: payload out of line, then the pair with
/// the fat pointer's length metadata.
pub fn archive_byte_box(b: &ArenaByteBox) -> (out: Vec<u8>)
    ensures
        out@ == byte_box_archive(b@),
{
    let payload = b.as_slice();
    let mut out: Vec<u8> = vstd::slice::slice_to_vec(payload);
    let rel = out.len() as u64;
    let mut pair_rel = u64_to_le_bytes(rel);
    out.append(&mut pair_rel);
    let mut pair_meta = u64_to_le_bytes(rel);
    out.append(&mut pair_meta);
    proof {
        assert(out@ =~= byte_box_archive(b@));
    }
    out
}

/// Materialize an archived box of a byte slice, the delicate step: (a) the
/// payload is copied into storage the arena hands back, (b) the metadata is
/// deserialized separately, (c) the two halves are combined into one owned
/// fat pointer.
pub fn dematerialize_byte_box(bytes: &Vec<u8>, arena: &mut Arena) -> (b: ArenaByteBox)
    requires
        exists|p: Seq<u8>| bytes@ == #[trigger] byte_box_archive(p),
    ensures
        bytes@ == byte_box_archive(b@),
        final(arena).allocations() == bumped(old(arena).allocations()),
{
    let ghost p0 = choose|p: Seq<u8>| bytes@ == #[trigger] byte_box_archive(p);
    let n = bytes.len();
    proof {
        lemma_auto_spec_u64_to_from_le_bytes();
        assert(n == p0.len() + 16);
    }
    let pair_pos = n - 16;
    let rel_image = slice_subrange(bytes.as_slice(), pair_pos, pair_pos + 8);
    let rel64 = u64_from_le_bytes(rel_image);
    proof {
        assert(rel_image@ =~= spec_u64_to_le_bytes(p0.len() as u64));
        assert(rel64 == p0.len() as u64);
    }
    let rel = rel64 as usize;
    let data_pos = pair_pos - rel;
    // (a) deserialize the unsized payload through the arena's allocation
    // callback, which hands back storage carved from the arena.
    let payload = slice_subrange(bytes.as_slice(), data_pos, data_pos + rel);
    let data = arena.alloc_bytes_from(payload);
    // (b) deserialize the metadata on its own.
    let meta_image = slice_subrange(bytes.as_slice(), pair_pos + 8, n);
    let meta64 = u64_from_le_bytes(meta_image);
    proof {
        assert(meta_image@ =~= spec_u64_to_le_bytes(p0.len() as u64));
        assert(meta64 == p0.len() as u64);
    }
    let metadata = meta64 as usize;
    // (c) combine payload address and metadata into one owned box.
    let b = ArenaByteBox::from_parts(data, metadata);
    proof {
        assert(data@ =~= p0);
        assert(bytes@ == byte_box_archive(b@));
    }
    b
}

/// Compare an archived box against a live box without allocating: the
/// archived referent's view is read in place and compared with the live
/// referent's dereferenced view.
pub fn archived_box_eq<T: Item>(bytes: &Vec<u8>, b: &ArenaBox<T>) -> (r: bool)
    requires
        exists|v: T| bytes@ == #[trigger] box_archive(v),
    ensures
        r == (bytes@ == box_archive(b@)),
{
    let ghost v0 = choose|v: T| bytes@ == #[trigger] box_archive(v);
    let n = bytes.len();
    proof {
        lemma_auto_spec_u64_to_from_le_bytes();
        T::lemma_size();
        v0.lemma_wire();
        assert(n == T::wire_size() + 16);
    }
    let pair_pos = n - 16;
    let rel_image = slice_subrange(bytes.as_slice(), pair_pos, pair_pos + 8);
    let rel64 = u64_from_le_bytes(rel_image);
    proof {
        assert(rel_image@ =~= spec_u64_to_le_bytes(T::wire_size() as u64));
        assert(rel64 == T::wire_size() as u64);
    }
    let rel = rel64 as usize;
    let data_pos = pair_pos - rel;
    let value = match T::read_at(bytes, data_pos) {
        Ok(value) => value,
        Err(_) => {
            proof {
                assert(v0.wire() =~= bytes@.subrange(data_pos as int, data_pos + T::wire_size()));
                assert(false);
            }
            return unreached();
        }
    };
    proof {
        assert(v0.wire() =~= bytes@.subrange(data_pos as int, data_pos + T::wire_size()));
        value.lemma_wire_injective(&v0);
        assert(value == v0);
        b@.lemma_wire();
        if bytes@ == box_archive(b@) {
            assert(b@.wire() =~= bytes@.subrange(data_pos as int, data_pos + T::wire_size()));
            b@.lemma_wire_injective(&v0);
            assert(b@ == v0);
        }
    }
    value.eq_item(b.get())
}

/// Order an archived box against a live box without allocating: the
/// archived referent's view is read in place and compared with the live
/// referent's dereferenced view in the element order.
pub fn archived_box_le<T: Item>(bytes: &Vec<u8>, b: &ArenaBox<T>) -> (r: bool)
    requires
        exists|v: T| bytes@ == #[trigger] box_archive(v),
    ensures
        forall|v: T| bytes@ == #[trigger] box_archive(v) ==> r == v.le_spec(&b@),
{
    let ghost v0 = choose|v: T| bytes@ == #[trigger] box_archive(v);
    let n = bytes.len();
    proof {
        lemma_auto_spec_u64_to_from_le_bytes();
        T::lemma_size();
        v0.lemma_wire();
        assert(n == T::wire_size() + 16);
    }
    let pair_pos = n - 16;
    let rel_image = slice_subrange(bytes.as_slice(), pair_pos, pair_pos + 8);
    let rel64 = u64_from_le_bytes(rel_image);
    proof {
        assert(rel_image@ =~= spec_u64_to_le_bytes(T::wire_size() as u64));
        assert(rel64 == T::wire_size() as u64);
    }
    let rel = rel64 as usize;
    let data_pos = pair_pos - rel;
    let value = match T::read_at(bytes, data_pos) {
        Ok(value) => value,
        Err(_) => {
            proof {
                assert(v0.wire() =~= bytes@.subrange(data_pos as int, data_pos + T::wire_size()));
                assert(false);
            }
            return unreached();
        }
    };
    proof {
        assert(v0.wire() =~= bytes@.subrange(data_pos as int, data_pos + T::wire_size()));
        value.lemma_wire_injective(&v0);
        assert(value == v0);
        assert forall|v: T| bytes@ == #[trigger] box_archive(v) implies v == v0 by {
            lemma_box_archive_injective::<T>(v, v0);
        }
    }
    value.le_item(b.get())
}

/// The round-trip law of the archive codec for sequences: materializing
/// the archive of any sequence yields that sequence. `archive_array`
/// produces exactly `array_wire(v)`, and `dematerialize_array` returns a
/// sequence whose image is the whole buffer, so the two images coincide
/// and the sequences are equal.
pub proof fn lemma_archive_array_round_trip<T: Item>(v: Seq<T>, back: Seq<T>)
    requires
        v.len() <= u64::MAX,
        back.len() <= u64::MAX,
        array_wire(back) == array_wire(v),
    ensures
        back == v,
{
    assert(array_wire(back).is_prefix_of(array_wire(v) + Seq::<u8>::empty())) by {
        assert(array_wire(v) + Seq::<u8>::empty() =~= array_wire(v));
    }
    lemma_array_wire_injective::<T>(v, back, Seq::<u8>::empty());
}

/// The round-trip law of the archive box format: a boxed value's archived
/// image determines it, so materializing the archive of any boxed value
/// yields that value.
pub proof fn lemma_box_archive_injective<T: Item>(a: T, b: T)
    requires
        box_archive(a) == box_archive(b),
    ensures
        a == b,
{
    T::lemma_size();
    a.lemma_wire();
    b.lemma_wire();
    assert(a.wire() =~= box_archive(a).take(T::wire_size() as int));
    assert(b.wire() =~= box_archive(b).take(T::wire_size() as int));
    a.lemma_wire_injective(&b);
}

/// The round-trip law of the archive byte-slice box format: the archived
/// image determines the payload.
pub proof fn lemma_byte_box_archive_injective(p: Seq<u8>, q: Seq<u8>)
    requires
        byte_box_archive(p) == byte_box_archive(q),
    ensures
        p == q,
{
    lemma_auto_spec_u64_to_from_le_bytes();
    assert(spec_u64_to_le_bytes(p.len() as u64).len() == 8);
    assert(spec_u64_to_le_bytes(q.len() as u64).len() == 8);
    assert(byte_box_archive(p).len() == p.len() + 16);
    assert(byte_box_archive(q).len() == q.len() + 16);
    assert(p.len() == q.len());
    assert(p =~= byte_box_archive(p).take(p.len() as int));
    assert(q =~= byte_box_archive(q).take(q.len() as int));
}

} // verus!
