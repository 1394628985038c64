use vstd::prelude::*;
use crate::error::DecodeError;
use crate::incremental::{decode_item, Reader};
use crate::item::Item;

verus! {

/// A mutable slot for a field whose value is filled in or replaced after a
/// record is constructed — a resolved reference written by a later pass —
/// while the record around it stays put.
pub struct MutCell<T> {
    value: T,
}

impl<T> View for MutCell<T> {
    type V = T;

    closed spec fn view(&self) -> T {
        self.value
    }
}

impl<T: Copy> MutCell<T> {
    pub fn new(value: T) -> (c: Self)
        ensures
            c@ == value,
    {
        MutCell { value }
    }

    /// The current snapshot, by copy.
    pub fn get(&self) -> (v: T)
        ensures
            v == self@,
    {
        self.value
    }

    pub fn set(&mut self, value: T)
        ensures
            final(self)@ == value,
    {
        self.value = value;
    }
}

/// Serialization adapter for interior-mutable fields. A mutable cell does
/// not archive itself — only its content does — so each field holding one
/// opts in through this adapter: archiving reads the current snapshot by
/// copy (the content must be trivially copyable) and writes the content's
/// own image, with no cell wrapper in the archive; materializing wraps the
/// read-back value in a fresh, independently mutable cell.
pub struct CellContent;

impl CellContent {
    /// Archive the cell's current snapshot: the content's image, nothing
    /// more.
    pub fn serialize_with<T: Item + Copy>(field: &MutCell<T>, out: &mut Vec<u8>)
        ensures
            final(out)@ == old(out)@ + field@.wire(),
    {
        let content = field.get();
        content.write_wire(out);
    }

    /// Materialize an archived content into a fresh mutable cell.
    pub fn deserialize_with<T: Item + Copy>(r: &mut Reader) -> (res: Result<
        MutCell<T>,
        DecodeError,
    >)
        requires
            old(r).wf(),
        ensures
            final(r).wf(),
            final(r).input() == old(r).input(),
            match res {
                Ok(c) => {
                    &&& c@.wire() == old(r).input().subrange(
                        old(r).position(),
                        old(r).position() + T::wire_size(),
                    )
                    &&& final(r).position() == old(r).position() + T::wire_size()
                    &&& final(r).claimed() == old(r).claimed()
                },
                Err(e) => {
                    &&& final(r).position() == old(r).position()
                    &&& final(r).claimed() == old(r).claimed()
                    &&& (e == DecodeError::UnexpectedEnd || e == DecodeError::BudgetExceeded
                        || e == DecodeError::FormatError)
                    &&& (e == DecodeError::UnexpectedEnd <==> T::wire_size() > old(r).remaining())
                    &&& (e == DecodeError::BudgetExceeded <==> {
                        &&& T::wire_size() <= old(r).remaining()
                        &&& old(r).claimed() + T::wire_size() > old(r).remaining()
                    })
                    &&& (e == DecodeError::FormatError ==> forall|v: T|
                        (#[trigger] v.wire()) != old(r).input().subrange(
                            old(r).position(),
                            old(r).position() + T::wire_size(),
                        ))
                },
            },
    {
        match decode_item::<T>(r) {
            Ok(content) => Ok(MutCell::new(content)),
            Err(e) => Err(e),
        }
    }
}

} // verus!
