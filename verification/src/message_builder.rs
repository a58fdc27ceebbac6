//! The arena: a fixed-capacity byte buffer with a forward-only write cursor.
use vstd::prelude::*;
use crate::error::Error;

verus! {

/// True when `a` is a power of two: 1, 2, 4, 8, ...
pub open spec fn is_power_of_two(a: int) -> bool
    decreases a,
{
    a == 1 || (a > 1 && a % 2 == 0 && is_power_of_two(a / 2))
}

/// Number of padding bytes between `cursor` and the next multiple of
/// `align`.
pub open spec fn padding(cursor: int, align: int) -> int {
    (align - cursor % align) % align
}

/// Where an allocation with alignment `align` starts when the cursor stands
/// at `cursor`: the least multiple of `align` that is not below the cursor.
pub open spec fn aligned_start(cursor: int, align: int) -> int {
    cursor + padding(cursor, align)
}

/// True when an allocation of `size` bytes with alignment `align`, padding
/// included, fits between `cursor` and `capacity`.
pub open spec fn fits(cursor: int, capacity: int, size: int, align: int) -> bool {
    aligned_start(cursor, align) + size <= capacity
}

/// Where the cursor stands after a request for `size` bytes with alignment
/// `align`: past the reserved bytes if the request fits, where it was if not.
pub open spec fn cursor_after(cursor: int, capacity: int, size: int, align: int) -> int {
    if fits(cursor, capacity, size, align) {
        aligned_start(cursor, align) + size
    } else {
        cursor
    }
}

/// The padding is zero at a multiple of `align`, and what is missing to the
/// next multiple elsewhere.
pub proof fn lemma_padding(cursor: int, align: int)
    requires
        0 <= cursor,
        1 <= align,
    ensures
        0 <= cursor % align < align,
        padding(cursor, align) == if cursor % align == 0 {
            0
        } else {
            align - cursor % align
        },
{
    let r = cursor % align;
    assert(0 <= r < align) by (nonlinear_arith)
        requires
            r == cursor % align,
            align >= 1,
    ;
    if r == 0 {
        assert(align % align == 0) by (nonlinear_arith)
            requires
                align >= 1,
        ;
    } else {
        assert((align - r) % align == align - r) by (nonlinear_arith)
            requires
                0 < r < align,
        ;
    }
}

/// The aligned start is the least multiple of `align` at or above the
/// cursor.
pub proof fn lemma_aligned_start(cursor: int, align: int)
    requires
        0 <= cursor,
        1 <= align,
    ensures
        aligned_start(cursor, align) % align == 0,
        cursor <= aligned_start(cursor, align) < cursor + align,
        forall|m: int| cursor <= m && #[trigger] (m % align) == 0 ==> aligned_start(cursor, align) <= m,
{
    lemma_padding(cursor, align);
    let r = cursor % align;
    let q = cursor / align;
    assert(cursor == q * align + r) by (nonlinear_arith)
        requires
            r == cursor % align,
            q == cursor / align,
            align >= 1,
    ;
    if r == 0 {
    } else {
        assert((q * align + align) % align == 0) by (nonlinear_arith)
            requires
                align >= 1,
        ;
    }
    assert forall|m: int| cursor <= m && #[trigger] (m % align) == 0 implies aligned_start(
        cursor,
        align,
    ) <= m by {
        let s = aligned_start(cursor, align);
        if m < s {
            assert(false) by (nonlinear_arith)
                requires
                    cursor <= m < s,
                    s < cursor + align,
                    m % align == 0,
                    s % align == 0,
                    align >= 1,
            ;
        }
    }
}

/// One call of `allocate`: how many bytes, and on what boundary.
#[derive(Clone, Copy, Debug)]
pub struct Request {
    pub size: usize,
    pub align: usize,
}

/// Where the cursor stands before the `i`-th of `requests` is served, when
/// it stood at `cursor` before the first.
pub open spec fn cursor_before(cursor: int, capacity: int, requests: Seq<Request>, i: int) -> int
    decreases i,
{
    if i <= 0 {
        cursor
    } else {
        cursor_after(
            cursor_before(cursor, capacity, requests, i - 1),
            capacity,
            requests[i - 1].size as int,
            requests[i - 1].align as int,
        )
    }
}

/// The range `(start, end)` that the `i`-th of `requests` is given, if it
/// is given one.
pub open spec fn granted(cursor: int, capacity: int, requests: Seq<Request>, i: int) -> Option<
    (int, int),
> {
    let at = cursor_before(cursor, capacity, requests, i);
    let start = aligned_start(at, requests[i].align as int);
    if fits(at, capacity, requests[i].size as int, requests[i].align as int) {
        Some((start, start + requests[i].size))
    } else {
        None
    }
}

/// The cursor never moves back, and never leaves the buffer.
pub proof fn lemma_cursor_monotonic(
    cursor: int,
    capacity: int,
    requests: Seq<Request>,
    i: int,
    j: int,
)
    requires
        0 <= cursor <= capacity,
        forall|k: int| 0 <= k < requests.len() ==> (#[trigger] requests[k]).align >= 1,
        0 <= i <= j <= requests.len(),
    ensures
        cursor <= cursor_before(cursor, capacity, requests, i) <= cursor_before(
            cursor,
            capacity,
            requests,
            j,
        ) <= capacity,
    decreases j,
{
    if j == 0 {
    } else if i == j {
        lemma_cursor_monotonic(cursor, capacity, requests, i - 1, j - 1);
        let at = cursor_before(cursor, capacity, requests, j - 1);
        lemma_aligned_start(at, requests[j - 1].align as int);
    } else {
        lemma_cursor_monotonic(cursor, capacity, requests, i, j - 1);
        let at = cursor_before(cursor, capacity, requests, j - 1);
        lemma_aligned_start(at, requests[j - 1].align as int);
    }
}

/// Every range that is handed out lies inside the buffer, starts on the
/// boundary that was asked for, and has the size that was asked for.
pub proof fn lemma_range_in_bounds(cursor: int, capacity: int, requests: Seq<Request>, i: int)
    requires
        0 <= cursor <= capacity,
        forall|k: int| 0 <= k < requests.len() ==> (#[trigger] requests[k]).align >= 1,
        0 <= i < requests.len(),
    ensures
        granted(cursor, capacity, requests, i) matches Some(range) ==> {
            &&& 0 <= range.0 <= range.1 <= capacity
            &&& range.0 % (requests[i].align as int) == 0
            &&& range.1 - range.0 == requests[i].size
        },
{
    lemma_cursor_monotonic(cursor, capacity, requests, i, i);
    lemma_aligned_start(cursor_before(cursor, capacity, requests, i), requests[i].align as int);
}

/// No two ranges handed out by one arena overlap: whatever is asked for,
/// and in whatever order, a range that is handed out later starts at or
/// after the end of every range handed out before it.
pub proof fn lemma_ranges_disjoint(
    cursor: int,
    capacity: int,
    requests: Seq<Request>,
    i: int,
    j: int,
)
    requires
        0 <= cursor <= capacity,
        forall|k: int| 0 <= k < requests.len() ==> (#[trigger] requests[k]).align >= 1,
        0 <= i < j < requests.len(),
    ensures
        granted(cursor, capacity, requests, i) matches Some(earlier) ==> (granted(
            cursor,
            capacity,
            requests,
            j,
        ) matches Some(later) ==> earlier.1 <= later.0),
{
    lemma_cursor_monotonic(cursor, capacity, requests, i + 1, j);
    lemma_aligned_start(cursor_before(cursor, capacity, requests, j), requests[j].align as int);
}

/// A mutable window onto `buf[start..end]`.
///
/// Trusted: this is std's range indexing of a mutable slice
/// (`IndexMut<Range<usize>>` for `[u8]`), which panics unless
/// `start <= end <= buf.len()`. The contract claims that the window shows
/// the bytes of that range, that whatever is written through the window
/// ends up in that range of `buf` and nowhere else, and that a window keeps
/// its length for as long as it lives.
#[verifier::external_body]
fn window<'b>(buf: &'b mut [u8], start: usize, end: usize) -> (w: &'b mut [u8])
    requires
        start <= end <= old(buf)@.len(),
    ensures
        w@ == old(buf)@.subrange(start as int, end as int),
        final(w)@.len() == w@.len(),
        final(buf)@ == old(buf)@.subrange(0, start as int) + final(w)@ + old(buf)@.subrange(
            end as int,
            old(buf)@.len() as int,
        ),
    no_unwind
{
    &mut buf[start..end]
}

/// An arena over a caller-owned buffer: hands out aligned, pairwise
/// disjoint byte ranges, front to back, and never takes one back.
pub struct MessageBuilder<'a> {
    data: &'a mut [u8],
    ptr: usize,
}

impl<'a> MessageBuilder<'a> {
    /// Offset of the first byte that has not been handed out.
    pub closed spec fn cursor(&self) -> nat {
        self.ptr as nat
    }

    /// The bytes of the underlying buffer, handed out or not.
    pub closed spec fn contents(&self) -> Seq<u8> {
        self.data@
    }

    /// Number of bytes in the underlying buffer.
    pub open spec fn capacity(&self) -> nat {
        self.contents().len()
    }

    /// The cursor never leaves the buffer, and the buffer is one that a
    /// machine can hold. This holds of every arena.
    #[verifier::type_invariant]
    pub open spec fn well_formed(&self) -> bool {
        self.cursor() <= self.capacity() <= usize::MAX
    }

    /// An arena over `buf` with nothing handed out yet.
    pub fn new(buf: &'a mut [u8]) -> (mb: MessageBuilder<'a>)
        ensures
            mb.cursor() == 0,
            mb.capacity() == old(buf)@.len(),
            mb.contents() == old(buf)@,
    {
        assert(buf@.len() == buf.len());
        MessageBuilder { data: buf, ptr: 0 }
    }

    /// Reserves `size` bytes that start at the next multiple of `align`.
    ///
    /// The bytes skipped for alignment are padding: they keep whatever they
    /// held. On success the cursor stands just past the reserved range; on
    /// failure nothing changes.
    pub fn allocate(&mut self, size: usize, align: usize) -> (r: Result<&mut [u8], Error>)
        requires
            is_power_of_two(align as int),
        ensures
            final(self).capacity() == old(self).capacity(),
            final(self).cursor() <= final(self).capacity(),
            final(self).cursor() == cursor_after(
                old(self).cursor() as int,
                old(self).capacity() as int,
                size as int,
                align as int,
            ),
            r is Ok <==> fits(
                old(self).cursor() as int,
                old(self).capacity() as int,
                size as int,
                align as int,
            ),
            r matches Err(e) ==> {
                &&& e == Error::OutOfSpace
                &&& final(self).cursor() == old(self).cursor()
                &&& final(self).contents() == old(self).contents()
            },
            r matches Ok(range) ==> {
                let start = aligned_start(old(self).cursor() as int, align as int);
                &&& start % (align as int) == 0
                &&& old(self).cursor() <= start < old(self).cursor() + align
                &&& final(self).cursor() == start + size
                &&& range@.len() == size
                &&& range@ == old(self).contents().subrange(start, start + size)
                &&& final(range)@.len() == size
                &&& final(self).contents() == old(self).contents().subrange(0, start)
                    + final(range)@
                    + old(self).contents().subrange(start + size, old(self).capacity() as int)
            },
    {
        proof {
            use_type_invariant(&*self);
            lemma_padding(self.ptr as int, align as int);
            lemma_aligned_start(self.ptr as int, align as int);
        }
        let rem = self.ptr % align;
        let pad = if rem == 0 { 0 } else { align - rem };
        let room = self.data.len() - self.ptr;
        if pad > room || size > room - pad {
            return Err(Error::OutOfSpace);
        }
        let start = self.ptr + pad;
        let end = start + size;
        self.ptr = end;
        Ok(window(self.data, start, end))
    }

    /// Offset of the first byte that has not been handed out.
    pub fn position(&self) -> (p: usize)
        ensures
            p == self.cursor(),
            p <= self.capacity(),
    {
        proof {
            use_type_invariant(self);
        }
        self.ptr
    }

    /// Number of bytes in the underlying buffer.
    pub fn capacity_bytes(&self) -> (c: usize)
        ensures
            c == self.capacity(),
    {
        self.data.len()
    }

    /// Number of bytes between the cursor and the end of the buffer.
    pub fn remaining(&self) -> (n: usize)
        ensures
            n == self.capacity() - self.cursor(),
    {
        proof {
            use_type_invariant(self);
        }
        self.data.len() - self.ptr
    }

    /// The bytes in front of the cursor: every range handed out so far, and
    /// the padding between them.
    pub fn written(&self) -> (bytes: &[u8])
        ensures
            bytes@ == self.contents().subrange(0, self.cursor() as int),
    {
        proof {
            use_type_invariant(self);
        }
        vstd::slice::slice_subrange(self.data, 0, self.ptr)
    }

    /// Ends construction and gives the buffer back.
    pub fn finish(self) -> (buf: &'a mut [u8])
        ensures
            buf@ == self.contents(),
            buf@.len() == self.capacity(),
    {
        let MessageBuilder { data, ptr: _ } = self;
        data
    }
}

/// Tells whether `align` is a power of two, which is what `allocate` asks
/// of an alignment.
pub fn valid_alignment(align: usize) -> (ok: bool)
    ensures
        ok == is_power_of_two(align as int),
{
    if align == 0 {
        return false;
    }
    let mut a: usize = align;
    while a % 2 == 0
        invariant
            a >= 1,
            is_power_of_two(a as int) == is_power_of_two(align as int),
        decreases a,
    {
        a = a / 2;
    }
    a == 1
}

} // verus!
