//! The self-relative reference: a signed 16-bit displacement that leads
//! from the place where the reference itself is stored to its target.
//!
//! Places are byte offsets from the start of the buffer. Because only the
//! difference between two places is stored, a buffer can be moved or copied
//! as a whole and every reference in it still leads to the same target.
use vstd::prelude::*;
use core::marker::PhantomData;
use crate::error::Error;
use crate::message_builder::{
    aligned_start, fits, is_power_of_two, lemma_aligned_start, lemma_padding, MessageBuilder,
};
use crate::string::{framed, frame, String};
use crate::wire::{
    i16_from_le, i16_le, lemma_i16_round_trip, read_i16, write_i16, FIELD_SIZE,
};

verus! {

/// Smallest displacement that a reference can store.
pub const DISPLACEMENT_MIN: i16 = -32768;

/// Largest displacement that a reference can store.
pub const DISPLACEMENT_MAX: i16 = 32767;

/// The displacement that leads from `own` to `target`.
pub open spec fn displacement(own: int, target: int) -> int {
    target - own
}

/// The place that the displacement `d` leads to from `own`.
pub open spec fn resolved(own: int, d: int) -> int {
    own + d
}

/// True when a reference stored at `own` with displacement `d` leads to a
/// place inside a buffer of `len` bytes.
pub open spec fn in_bounds(own: int, d: int, len: int) -> bool {
    0 <= resolved(own, d) < len
}

/// A reference to a value of type `T` that lies elsewhere in the same
/// buffer.
#[derive(Debug)]
pub struct Pointer<T> {
    offset: i16,
    target: PhantomData<T>,
}

impl<T> View for Pointer<T> {
    type V = int;

    /// The stored displacement.
    closed spec fn view(&self) -> int {
        self.offset as int
    }
}

/// The displacement stored at place `own` of a buffer that holds `bytes`.
pub open spec fn stored_at(bytes: Seq<u8>, own: int) -> int {
    i16_from_le(bytes.subrange(own, own + 2))
}

/// The place that the reference stored at place `own` of `bytes` leads to.
pub open spec fn target_of(bytes: Seq<u8>, own: int) -> int {
    resolved(own, stored_at(bytes, own))
}

/// What `link` answers when the cursor stands at `cursor` in an arena of
/// `capacity` bytes: the place of the new reference, or the reason why
/// there is none.
pub open spec fn link_outcome(cursor: int, capacity: int, target: int) -> Result<int, Error> {
    let own = aligned_start(cursor, 2);
    if target >= cursor {
        Err(Error::OutOfBounds)
    } else if displacement(own, target) < DISPLACEMENT_MIN {
        Err(Error::ValueTooLarge)
    } else if !fits(cursor, capacity, 2, 2) {
        Err(Error::OutOfSpace)
    } else {
        Ok(own)
    }
}

impl<T> Pointer<T> {
    /// The reference that, stored at `own`, leads to `target`.
    ///
    /// Fails with `ValueTooLarge` when the displacement does not fit the
    /// 16-bit field.
    pub fn new(own: usize, target: usize) -> (r: Result<Pointer<T>, Error>)
        ensures
            r is Ok <==> DISPLACEMENT_MIN <= displacement(own as int, target as int)
                <= DISPLACEMENT_MAX,
            r matches Err(e) ==> e == Error::ValueTooLarge,
            r matches Ok(p) ==> p@ == displacement(own as int, target as int),
    {
        if target >= own {
            let d = target - own;
            if d > 32767 {
                return Err(Error::ValueTooLarge);
            }
            Ok(Pointer { offset: d as i16, target: PhantomData })
        } else {
            let d = own - target;
            if d > 32768 {
                return Err(Error::ValueTooLarge);
            }
            let neg: i32 = -(d as i32);
            Ok(Pointer { offset: neg as i16, target: PhantomData })
        }
    }

    /// The stored displacement.
    pub fn offset(&self) -> (d: i16)
        ensures
            d == self@,
    {
        self.offset
    }

    /// The place that this reference leads to when it is stored at `own`
    /// in a buffer of `len` bytes.
    ///
    /// Fails with `OutOfBounds` when that place is not inside the buffer.
    pub fn resolve(&self, own: usize, len: usize) -> (r: Result<usize, Error>)
        ensures
            r is Ok <==> in_bounds(own as int, self@, len as int),
            r matches Err(e) ==> e == Error::OutOfBounds,
            r matches Ok(target) ==> target == resolved(own as int, self@),
    {
        if self.offset >= 0 {
            let d = self.offset as usize;
            if own >= len || d >= len - own {
                return Err(Error::OutOfBounds);
            }
            Ok(own + d)
        } else {
            let back: i32 = -(self.offset as i32);
            let d = back as usize;
            if d > own {
                return Err(Error::OutOfBounds);
            }
            let target = own - d;
            if target >= len {
                return Err(Error::OutOfBounds);
            }
            Ok(target)
        }
    }

    /// Interprets the start of `range` as a stored reference.
    ///
    /// Fails with `Truncated` when `range` is shorter than the field.
    pub fn from_buffer(range: &[u8]) -> (r: Result<Pointer<T>, Error>)
        ensures
            r is Ok <==> range@.len() >= 2,
            r matches Err(e) ==> e == Error::Truncated,
            r matches Ok(p) ==> p@ == i16_from_le(range@),
    {
        if range.len() < FIELD_SIZE {
            return Err(Error::Truncated);
        }
        Ok(Pointer { offset: read_i16(range), target: PhantomData })
    }

    /// Stores this reference in the first two bytes of `range`.
    ///
    /// Fails with `Truncated`, and writes nothing, when `range` is shorter
    /// than the field.
    pub fn write(&self, range: &mut [u8]) -> (r: Result<(), Error>)
        ensures
            r is Ok <==> old(range)@.len() >= 2,
            r matches Err(e) ==> e == Error::Truncated && final(range)@ == old(range)@,
            r is Ok ==> final(range)@ == i16_le(self@) + old(range)@.subrange(
                2,
                old(range)@.len() as int,
            ),
    {
        if range.len() < FIELD_SIZE {
            return Err(Error::Truncated);
        }
        write_i16(range, self.offset);
        assert(range@ =~= range@.subrange(0, 2) + range@.subrange(2, range@.len() as int));
        Ok(())
    }

    /// Stores in `mb`, at the next even place, a reference to the value at
    /// `target`, and returns the place of the reference.
    ///
    /// A reference may only lead to what has been written: fails with
    /// `OutOfBounds` when `target` is not in front of the cursor. Fails
    /// with `ValueTooLarge` when the target is too far back for the 16-bit
    /// field, and with `OutOfSpace` when the arena cannot hold the
    /// reference. A failure leaves the arena as it was.
    pub fn link(mb: &mut MessageBuilder<'_>, target: usize) -> (r: Result<usize, Error>)
        ensures
            final(mb).capacity() == old(mb).capacity(),
            final(mb).cursor() <= final(mb).capacity(),
            r is Ok <==> link_outcome(
                old(mb).cursor() as int,
                old(mb).capacity() as int,
                target as int,
            ) is Ok,
            r matches Err(e) ==> {
                &&& Err::<int, Error>(e) == link_outcome(
                    old(mb).cursor() as int,
                    old(mb).capacity() as int,
                    target as int,
                )
                &&& final(mb).cursor() == old(mb).cursor()
                &&& final(mb).contents() == old(mb).contents()
            },
            r matches Ok(own) ==> {
                &&& own == aligned_start(old(mb).cursor() as int, 2)
                &&& own % 2 == 0
                &&& final(mb).cursor() == own + 2
                &&& final(mb).contents() == old(mb).contents().subrange(0, own as int) + i16_le(
                    displacement(own as int, target as int),
                ) + old(mb).contents().subrange(own + 2, old(mb).capacity() as int)
                &&& target_of(final(mb).contents(), own as int) == target
            },
    {
        proof {
            use_type_invariant(&*mb);
            lemma_padding(mb.cursor() as int, 2);
            lemma_aligned_start(mb.cursor() as int, 2);
            reveal_with_fuel(is_power_of_two, 2);
        }
        let cursor = mb.position();
        if target >= cursor {
            return Err(Error::OutOfBounds);
        }
        let pad = cursor % 2;
        let back = cursor - target;
        if back > 32768 - pad {
            return Err(Error::ValueTooLarge);
        }
        let d: i32 = -((back + pad) as i32);
        let pointer: Pointer<T> = Pointer { offset: d as i16, target: PhantomData };
        match mb.allocate(FIELD_SIZE, 2) {
            Err(e) => Err(e),
            Ok(range) => {
                write_i16(range, pointer.offset);
                proof {
                    lemma_i16_round_trip(pointer@);
                }
                assert(range@ =~= i16_le(pointer@));
                Ok(cursor + pad)
            },
        }
    }
}

impl<'a> Pointer<String<'a>> {
    /// The string that this reference leads to when it is stored at place
    /// `own` of `buf`.
    ///
    /// Fails with `OutOfBounds` when following the reference would read
    /// outside `buf`: when it leads out of `buf`, and when `buf` ends
    /// before the length field or the declared payload of the string does.
    pub fn deref<'b>(&self, buf: &'b [u8], own: usize) -> (r: Result<String<'b>, Error>)
        ensures
            r is Ok <==> in_bounds(own as int, self@, buf@.len() as int) && framed(
                buf@.subrange(resolved(own as int, self@), buf@.len() as int),
            ),
            r matches Err(e) ==> e == Error::OutOfBounds,
            r matches Ok(s) ==> s@ == frame(
                buf@.subrange(resolved(own as int, self@), buf@.len() as int),
            ),
    {
        match self.resolve(own, buf.len()) {
            Err(e) => Err(e),
            Ok(target) => {
                match String::from_buffer(vstd::slice::slice_subrange(buf, target, buf.len())) {
                    Ok(s) => Ok(s),
                    Err(_) => Err(Error::OutOfBounds),
                }
            },
        }
    }
}

/// Leading from a place by the displacement to a target arrives at the
/// target.
pub proof fn lemma_resolve_displacement(own: int, target: int)
    ensures
        resolved(own, displacement(own, target)) == target,
{
}

/// A reference that was stored can be read back: where the two bytes at
/// place `own` encode the displacement to `target`, the reference stored
/// there leads to `target`.
pub proof fn lemma_stored_reference(bytes: Seq<u8>, own: int, target: int)
    requires
        0 <= own,
        own + 2 <= bytes.len(),
        DISPLACEMENT_MIN <= displacement(own, target) <= DISPLACEMENT_MAX,
        bytes.subrange(own, own + 2) == i16_le(displacement(own, target)),
    ensures
        stored_at(bytes, own) == displacement(own, target),
        target_of(bytes, own) == target,
{
    lemma_i16_round_trip(displacement(own, target));
}

/// A buffer can be moved as a whole. Let a buffer of `len` bytes lie at
/// address `base` of the memory `from`, and a verbatim copy of it at
/// address `moved` of the memory `to`. The reference stored at place `own`
/// of the buffer holds the same displacement in both, and the address it
/// leads to lies as far from `moved` in the copy as it lies from `base` in
/// the original: it is the same place of the buffer.
pub proof fn lemma_relocation(
    from: Seq<u8>,
    base: int,
    to: Seq<u8>,
    moved: int,
    len: int,
    own: int,
)
    requires
        0 <= base,
        base + len <= from.len(),
        0 <= moved,
        moved + len <= to.len(),
        to.subrange(moved, moved + len) == from.subrange(base, base + len),
        0 <= own,
        own + 2 <= len,
    ensures
        stored_at(to, moved + own) == stored_at(from, base + own),
        target_of(to, moved + own) - moved == target_of(from, base + own) - base,
        target_of(to, moved + own) - moved == target_of(from.subrange(base, base + len), own),
{
    let original = from.subrange(base, base + len);
    let copy = to.subrange(moved, moved + len);
    assert(from.subrange(base + own, base + own + 2) =~= original.subrange(own, own + 2));
    assert(to.subrange(moved + own, moved + own + 2) =~= copy.subrange(own, own + 2));
}

} // verus!
