use vstd::prelude::*;
use crate::error::DecodeError;
use crate::item::Item;

verus! {

/// The written base of a number literal.
#[derive(Debug, Clone, Copy, PartialEq, Eq, Hash, Structural)]
pub enum NumberBase {
    Float,
    Decimal,
    Binary,
    Octal,
    Hex,
}

impl NumberBase {
    /// The tag byte of this base on the wire.
    pub open spec fn tag(&self) -> u8 {
        match *self {
            NumberBase::Float => 0,
            NumberBase::Decimal => 1,
            NumberBase::Binary => 2,
            NumberBase::Octal => 3,
            NumberBase::Hex => 4,
        }
    }

    pub fn is_base_10(&self) -> (r: bool)
        ensures
            r == (*self == NumberBase::Float || *self == NumberBase::Decimal),
    {
        matches!(*self, NumberBase::Float | NumberBase::Decimal)
    }
}

impl Item for NumberBase {
    open spec fn wire(&self) -> Seq<u8> {
        seq![self.tag()]
    }

    open spec fn wire_size() -> nat {
        1
    }

    open spec fn is_byte() -> bool {
        false
    }

    open spec fn as_byte(&self) -> u8 {
        0
    }

    proof fn lemma_size() {
    }

    proof fn lemma_wire(&self) {
    }

    proof fn lemma_wire_injective(&self, other: &Self) {
        if self.wire() == other.wire() {
            assert(self.wire()[0] == other.wire()[0]);
            assert(self.tag() == other.tag());
        }
    }

    fn size_hint() -> (n: usize) {
        1
    }

    fn write_wire(&self, out: &mut Vec<u8>) {
        let b: u8 = match *self {
            NumberBase::Float => 0,
            NumberBase::Decimal => 1,
            NumberBase::Binary => 2,
            NumberBase::Octal => 3,
            NumberBase::Hex => 4,
        };
        out.push(b);
        proof {
            assert(out@ =~= old(out)@ + self.wire());
        }
    }

    fn read_at(bytes: &Vec<u8>, pos: usize) -> (res: Result<Self, DecodeError>) {
        let b = bytes[pos];
        proof {
            assert(bytes@.subrange(pos as int, pos + 1) =~= seq![b]);
        }
        let res: Result<Self, DecodeError> = match b {
            0u8 => Ok(NumberBase::Float),
            1u8 => Ok(NumberBase::Decimal),
            2u8 => Ok(NumberBase::Binary),
            3u8 => Ok(NumberBase::Octal),
            4u8 => Ok(NumberBase::Hex),
            _ => {
                proof {
                    assert forall|v: NumberBase| (#[trigger] v.wire()) != bytes@.subrange(
                        pos as int,
                        pos + 1,
                    ) by {
                        assert(v.tag() <= 4);
                        assert(v.wire()[0] == v.tag());
                    }
                }
                Err(DecodeError::FormatError)
            }
        };
        res
    }

    fn from_byte(_b: u8) -> (r: Self) {
        NumberBase::Float
    }

    fn eq_item(&self, other: &Self) -> (r: bool) {
        *self == *other
    }

    open spec fn le_spec(&self, other: &Self) -> bool {
        self.tag() <= other.tag()
    }

    fn le_item(&self, other: &Self) -> (r: bool) {
        let a: u8 = match *self {
            NumberBase::Float => 0,
            NumberBase::Decimal => 1,
            NumberBase::Binary => 2,
            NumberBase::Octal => 3,
            NumberBase::Hex => 4,
        };
        let b: u8 = match *other {
            NumberBase::Float => 0,
            NumberBase::Decimal => 1,
            NumberBase::Binary => 2,
            NumberBase::Octal => 3,
            NumberBase::Hex => 4,
        };
        a <= b
    }
}

/// The written base of a big-integer literal.
#[derive(Debug, Clone, Copy, PartialEq, Eq, Hash, Structural)]
pub enum BigintBase {
    Decimal,
    Binary,
    Octal,
    Hex,
}

impl BigintBase {
    /// The tag byte of this base on the wire.
    pub open spec fn tag(&self) -> u8 {
        match *self {
            BigintBase::Decimal => 0,
            BigintBase::Binary => 1,
            BigintBase::Octal => 2,
            BigintBase::Hex => 3,
        }
    }

    pub fn is_base_10(&self) -> (r: bool)
        ensures
            r == (*self == BigintBase::Decimal),
    {
        *self == BigintBase::Decimal
    }
}

impl Item for BigintBase {
    open spec fn wire(&self) -> Seq<u8> {
        seq![self.tag()]
    }

    open spec fn wire_size() -> nat {
        1
    }

    open spec fn is_byte() -> bool {
        false
    }

    open spec fn as_byte(&self) -> u8 {
        0
    }

    proof fn lemma_size() {
    }

    proof fn lemma_wire(&self) {
    }

    proof fn lemma_wire_injective(&self, other: &Self) {
        if self.wire() == other.wire() {
            assert(self.wire()[0] == other.wire()[0]);
            assert(self.tag() == other.tag());
        }
    }

    fn size_hint() -> (n: usize) {
        1
    }

    fn write_wire(&self, out: &mut Vec<u8>) {
        let b: u8 = match *self {
            BigintBase::Decimal => 0,
            BigintBase::Binary => 1,
            BigintBase::Octal => 2,
            BigintBase::Hex => 3,
        };
        out.push(b);
        proof {
            assert(out@ =~= old(out)@ + self.wire());
        }
    }

    fn read_at(bytes: &Vec<u8>, pos: usize) -> (res: Result<Self, DecodeError>) {
        let b = bytes[pos];
        proof {
            assert(bytes@.subrange(pos as int, pos + 1) =~= seq![b]);
        }
        let res: Result<Self, DecodeError> = match b {
            0u8 => Ok(BigintBase::Decimal),
            1u8 => Ok(BigintBase::Binary),
            2u8 => Ok(BigintBase::Octal),
            3u8 => Ok(BigintBase::Hex),
            _ => {
                proof {
                    assert forall|v: BigintBase| (#[trigger] v.wire()) != bytes@.subrange(
                        pos as int,
                        pos + 1,
                    ) by {
                        assert(v.tag() <= 3);
                        assert(v.wire()[0] == v.tag());
                    }
                }
                Err(DecodeError::FormatError)
            }
        };
        res
    }

    fn from_byte(_b: u8) -> (r: Self) {
        BigintBase::Decimal
    }

    fn eq_item(&self, other: &Self) -> (r: bool) {
        *self == *other
    }

    open spec fn le_spec(&self, other: &Self) -> bool {
        self.tag() <= other.tag()
    }

    fn le_item(&self, other: &Self) -> (r: bool) {
        let a: u8 = match *self {
            BigintBase::Decimal => 0,
            BigintBase::Binary => 1,
            BigintBase::Octal => 2,
            BigintBase::Hex => 3,
        };
        let b: u8 = match *other {
            BigintBase::Decimal => 0,
            BigintBase::Binary => 1,
            BigintBase::Octal => 2,
            BigintBase::Hex => 3,
        };
        a <= b
    }
}

} // verus!
