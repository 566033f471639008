use vstd::prelude::*;

use crate::arch::Endian;

verus! {

/// Why an address range could not be read.
#[derive(Clone, Copy, Debug, PartialEq, Eq, Structural)]
pub enum SegmentError {
    /// No segment covers the range.
    RangeNotFound { start_addr: u64, end_addr: u64 },
    /// A segment covers the range, but its bytes stop before the range ends.
    UninitialisedRange { start_addr: u64, end_addr: u64 },
}

/// A loaded region of the address space; `bytes` may stop short of `end_addr`.
#[derive(Debug)]
pub struct Segment {
    pub start_addr: u64,
    pub end_addr: u64,
    pub name: String,
    pub bytes: Vec<u8>,
}

/// The segments of an image, in increasing address order and pairwise disjoint.
#[derive(Debug)]
pub struct Segments(pub Vec<Segment>);

impl Segment {
    pub open spec fn wf(&self) -> bool {
        &&& self.start_addr <= self.end_addr
        &&& self.bytes@.len() <= self.end_addr - self.start_addr
    }

    /// Whether `[start, end)` is a non-inverted range lying inside this segment.
    pub open spec fn covers(&self, start: u64, end: u64) -> bool {
        self.start_addr <= start && start <= end && end <= self.end_addr
    }

    pub fn new(start_addr: u64, end_addr: u64, name: String, bytes: Vec<u8>) -> (r: Segment)
        ensures
            r.start_addr == start_addr,
            r.end_addr == end_addr,
            r.name == name,
            r.bytes == bytes,
    {
        Segment { start_addr, end_addr, name, bytes }
    }
}

/// Whether a byte may appear inside a C string: ASCII letters, digits,
/// punctuation and whitespace (space, tab, line feed, form feed, carriage return).
pub open spec fn is_string_byte(b: u8) -> bool {
    (33 <= b && b <= 126) || b == 32 || b == 9 || b == 10 || b == 12 || b == 13
}

/// The C string at the start of `window`: the bytes before its first NUL, when
/// that NUL lies inside the window and every byte before it is a string byte.
pub open spec fn cstring_in(window: Seq<u8>) -> Option<Seq<u8>> {
    if exists|i: int|
        0 <= i < window.len() && window[i] == 0 && forall|j: int|
            0 <= j < i ==> is_string_byte(#[trigger] window[j]) {
        let i = choose|i: int|
            0 <= i < window.len() && window[i] == 0 && forall|j: int|
                0 <= j < i ==> is_string_byte(#[trigger] window[j]);
        Some(window.subrange(0, i))
    } else {
        None
    }
}

/// The unsigned value of `s` read in the given byte order.
pub open spec fn unsigned_value(endian: Endian, s: Seq<u8>) -> nat
    decreases s.len(),
{
    if s.len() == 0 {
        0
    } else {
        match endian {
            Endian::Little => s[0] as nat + 256 * unsigned_value(endian, s.drop_first()),
            Endian::Big => 256 * unsigned_value(endian, s.drop_last()) + s.last() as nat,
        }
    }
}

/// The two's-complement reading of an unsigned value `v < full`, where `full`
/// is two to the width of the integer and `half` is its half.
pub open spec fn signed_value(v: nat, half: int, full: int) -> int {
    if v < half {
        v as int
    } else {
        v - full
    }
}

pub open spec fn pow256(n: nat) -> nat
    decreases n,
{
    if n == 0 {
        1
    } else {
        256 * pow256((n - 1) as nat)
    }
}

proof fn lemma_unsigned_value_bound(endian: Endian, s: Seq<u8>)
    ensures
        unsigned_value(endian, s) < pow256(s.len()),
    decreases s.len(),
{
    if s.len() > 0 {
        let t = if endian == Endian::Little { s.drop_first() } else { s.drop_last() };
        lemma_unsigned_value_bound(endian, t);
    }
}

proof fn lemma_pow256_mono(a: nat, b: nat)
    requires
        a <= b,
    ensures
        pow256(a) <= pow256(b),
    decreases b,
{
    if a < b {
        lemma_pow256_mono(a, (b - 1) as nat);
    }
}

proof fn lemma_pow256_seven()
    ensures
        pow256(7) == 0x100_0000_0000_0000,
{
    reveal_with_fuel(pow256, 8);
}


impl Segments {
    pub open spec fn view(&self) -> Seq<Segment> {
        self.0@
    }

    /// Each segment is well formed, and the segments are sorted and disjoint.
    pub open spec fn wf(&self) -> bool {
        &&& forall|i: int| 0 <= i < self.view().len() ==> (#[trigger] self.view()[i]).wf()
        &&& forall|i: int, j: int|
            0 <= i < j < self.view().len() ==> (#[trigger] self.view()[i]).end_addr
                <= (#[trigger] self.view()[j]).start_addr
    }

    /// The index of a segment that covers `[start, end)`, if any; for a
    /// non-empty range there is at most one (`lemma_cover_unique`).
    pub open spec fn cover_index(&self, start: u64, end: u64) -> Option<int> {
        if exists|i: int| 0 <= i < self.view().len() && (#[trigger] self.view()[i]).covers(start, end) {
            Some(
                choose|i: int|
                    0 <= i < self.view().len() && (#[trigger] self.view()[i]).covers(start, end),
            )
        } else {
            None
        }
    }

    /// The bytes of `[start, end)`, or why they cannot be read.
    pub open spec fn bytes_at(&self, start: u64, end: u64) -> Result<Seq<u8>, SegmentError> {
        match self.cover_index(start, end) {
            None => Err(SegmentError::RangeNotFound { start_addr: start, end_addr: end }),
            Some(i) => {
                let seg = self.view()[i];
                if seg.bytes@.len() >= end - seg.start_addr {
                    Ok(seg.bytes@.subrange(start - seg.start_addr, end - seg.start_addr))
                } else {
                    Err(SegmentError::UninitialisedRange { start_addr: start, end_addr: end })
                }
            },
        }
    }

    /// The unsigned integer stored in the `n` bytes at `addr`.
    pub open spec fn unsigned_at(&self, endian: Endian, addr: u64, n: u64) -> Result<nat, SegmentError> {
        match self.bytes_at(addr, addr.wrapping_add(n)) {
            Ok(b) => Ok(unsigned_value(endian, b)),
            Err(e) => Err(e),
        }
    }

    /// The `i32` stored at `addr`.
    pub open spec fn i32_at(&self, endian: Endian, addr: u64) -> Result<i32, SegmentError> {
        match self.unsigned_at(endian, addr, 4) {
            Ok(v) => Ok(signed_value(v, 0x8000_0000, 0x1_0000_0000) as i32),
            Err(e) => Err(e),
        }
    }

    /// What `get_cstring` finds at `addr` when scanning `limit` bytes.
    pub open spec fn cstring_at(&self, addr: u64, limit: nat) -> Result<Option<Seq<u8>>, SegmentError> {
        let end = addr.wrapping_add(1);
        match self.cover_index(addr, end) {
            None => Err(SegmentError::RangeNotFound { start_addr: addr, end_addr: end }),
            Some(i) => {
                let seg = self.view()[i];
                let off = addr - seg.start_addr;
                if seg.bytes@.len() < off + limit {
                    Err(SegmentError::UninitialisedRange { start_addr: addr, end_addr: addr })
                } else {
                    Ok(cstring_in(seg.bytes@.subrange(off, off + limit)))
                }
            },
        }
    }

    /// A non-empty range lies in at most one segment of a well-formed store.
    pub proof fn lemma_cover_unique(&self, start: u64, end: u64, i: int, j: int)
        requires
            self.wf(),
            start < end,
            0 <= i < self.view().len(),
            0 <= j < self.view().len(),
            self.view()[i].covers(start, end),
            self.view()[j].covers(start, end),
        ensures
            i == j,
    {
    }

    pub fn new() -> (r: Segments)
        ensures
            r.view() == Seq::<Segment>::empty(),
            r.wf(),
    {
        Segments(Vec::new())
    }

    /// Appends a segment that lies above every segment already held.
    pub fn add(&mut self, segment: Segment)
        requires
            old(self).wf(),
            segment.wf(),
            old(self).view().len() > 0 ==> old(self).view().last().end_addr <= segment.start_addr,
        ensures
            final(self).view() == old(self).view().push(segment),
            final(self).wf(),
    {
        self.0.push(segment);
    }

    /// The segment that covers `[start_addr, end_addr)`, found by binary search.
    pub fn get_segment(&self, start_addr: u64, end_addr: u64) -> (r: Result<&Segment, SegmentError>)
        requires
            self.wf(),
        ensures
            match r {
                Ok(seg) => exists|i: int|
                    0 <= i < self.view().len() && self.view()[i] == *seg && seg.covers(
                        start_addr,
                        end_addr,
                    ),
                Err(e) => e == (SegmentError::RangeNotFound { start_addr, end_addr })
                    && self.cover_index(start_addr, end_addr) is None,
            },
            start_addr < end_addr ==> match r {
                Ok(seg) => self.cover_index(start_addr, end_addr) == Some(
                    self.cover_index(start_addr, end_addr).unwrap(),
                ) && *seg == self.view()[self.cover_index(start_addr, end_addr).unwrap()],
                Err(_) => true,
            },
    {
        if start_addr > end_addr {
            return Err(SegmentError::RangeNotFound { start_addr, end_addr });
        }
        let len = self.0.len();
        let mut upper: usize = len;
        let mut lower: usize = 0;
        while lower < upper
            invariant
                self.wf(),
                start_addr <= end_addr,
                lower <= upper <= len,
                len == self.view().len(),
                forall|i: int|
                    0 <= i < len && (#[trigger] self.view()[i]).covers(start_addr, end_addr) ==> lower
                        <= i < upper,
            decreases upper - lower,
        {
            let mid = lower + (upper - lower) / 2;
            let seg = &self.0[mid];
            if seg.start_addr <= start_addr && seg.end_addr >= end_addr {
                proof {
                    if start_addr < end_addr {
                        let k = self.cover_index(start_addr, end_addr).unwrap();
                        self.lemma_cover_unique(start_addr, end_addr, k, mid as int);
                    }
                }
                return Ok(seg);
            }
            if start_addr >= seg.end_addr {
                proof {
                    assert forall|i: int| 0 <= i <= mid implies !(#[trigger] self.view()[i]).covers(
                        start_addr,
                        end_addr,
                    ) by {
                        if i < mid {
                            assert(self.view()[i].end_addr <= self.view()[mid as int].start_addr);
                        }
                    }
                }
                lower = mid + 1;
            } else if end_addr <= seg.start_addr {
                proof {
                    assert forall|i: int| mid <= i < len implies !(#[trigger] self.view()[i]).covers(
                        start_addr,
                        end_addr,
                    ) by {
                        if i > mid {
                            assert(self.view()[mid as int].end_addr <= self.view()[i].start_addr);
                        }
                    }
                }
                upper = mid;
            } else {
                proof {
                    assert forall|i: int| 0 <= i < len implies !(#[trigger] self.view()[i]).covers(
                        start_addr,
                        end_addr,
                    ) by {
                        if i < mid {
                            assert(self.view()[i].end_addr <= self.view()[mid as int].start_addr);
                        } else if i > mid {
                            assert(self.view()[mid as int].end_addr <= self.view()[i].start_addr);
                        }
                    }
                }
                return Err(SegmentError::RangeNotFound { start_addr, end_addr });
            }
        }
        Err(SegmentError::RangeNotFound { start_addr, end_addr })
    }

    /// The initialised bytes of `[start_addr, end_addr)`.
    pub fn get_bytes(&self, start_addr: u64, end_addr: u64) -> (r: Result<&[u8], SegmentError>)
        requires
            self.wf(),
        ensures
            start_addr != end_addr ==> match r {
                Ok(b) => self.bytes_at(start_addr, end_addr) == Ok::<Seq<u8>, SegmentError>(b@),
                Err(e) => self.bytes_at(start_addr, end_addr) == Err::<Seq<u8>, SegmentError>(e),
            },
            match r {
                Ok(b) => exists|i: int|
                    0 <= i < self.view().len() && (#[trigger] self.view()[i]).covers(
                        start_addr,
                        end_addr,
                    ) && self.view()[i].bytes@.len() >= end_addr - self.view()[i].start_addr
                        && b@ == self.view()[i].bytes@.subrange(
                        start_addr - self.view()[i].start_addr,
                        end_addr - self.view()[i].start_addr,
                    ),
                Err(SegmentError::RangeNotFound { start_addr: s, end_addr: e }) => s == start_addr
                    && e == end_addr && self.cover_index(start_addr, end_addr) is None,
                Err(SegmentError::UninitialisedRange { start_addr: s, end_addr: e }) => s
                    == start_addr && e == end_addr && exists|i: int|
                    0 <= i < self.view().len() && (#[trigger] self.view()[i]).covers(
                        start_addr,
                        end_addr,
                    ) && self.view()[i].bytes@.len() < end_addr - self.view()[i].start_addr,
            },
    {
        let seg = match self.get_segment(start_addr, end_addr) {
            Ok(seg) => seg,
            Err(e) => return Err(e),
        };
        let start = start_addr - seg.start_addr;
        let end = end_addr - seg.start_addr;
        if (seg.bytes.len() as u64) >= end {
            Ok(vstd::slice::slice_subrange(seg.bytes.as_slice(), start as usize, end as usize))
        } else {
            Err(SegmentError::UninitialisedRange { start_addr, end_addr })
        }
    }

    /// The `i16` stored at `addr` in the given byte order.
    pub fn get_i16(&self, endian: Endian, addr: u64) -> (r: Result<i16, SegmentError>)
        requires
            self.wf(),
        ensures
            r == match self.unsigned_at(endian, addr, 2) {
                Ok(v) => Ok(signed_value(v, 0x8000, 0x1_0000) as i16),
                Err(e) => Err(e),
            },
    {
        match self.get_bytes(addr, addr.wrapping_add(2)) {
            Ok(b) => {
                let v = read_unsigned(endian, b, 2);
                proof {
                    assert(b@.subrange(0, 2) =~= b@);
                    lemma_unsigned_value_bound(endian, b@);
                    reveal_with_fuel(pow256, 3);
                }
                if v < 0x8000 {
                    Ok(v as i16)
                } else {
                    Ok((v as i32 - 0x1_0000) as i16)
                }
            },
            Err(e) => Err(e),
        }
    }

    /// The `i32` stored at `addr` in the given byte order.
    pub fn get_i32(&self, endian: Endian, addr: u64) -> (r: Result<i32, SegmentError>)
        requires
            self.wf(),
        ensures
            r == self.i32_at(endian, addr),
    {
        match self.get_bytes(addr, addr.wrapping_add(4)) {
            Ok(b) => {
                let v = read_unsigned(endian, b, 4);
                proof {
                    assert(b@.subrange(0, 4) =~= b@);
                    lemma_unsigned_value_bound(endian, b@);
                    reveal_with_fuel(pow256, 5);
                }
                if v < 0x8000_0000 {
                    Ok(v as i32)
                } else {
                    Ok((v as i64 - 0x1_0000_0000) as i32)
                }
            },
            Err(e) => Err(e),
        }
    }

    /// The `i64` stored at `addr` in the given byte order.
    pub fn get_i64(&self, endian: Endian, addr: u64) -> (r: Result<i64, SegmentError>)
        requires
            self.wf(),
        ensures
            r == match self.unsigned_at(endian, addr, 8) {
                Ok(v) => Ok(signed_value(v, 0x8000_0000_0000_0000, 0x1_0000_0000_0000_0000) as i64),
                Err(e) => Err(e),
            },
    {
        match self.get_bytes(addr, addr.wrapping_add(8)) {
            Ok(b) => {
                let v = read_unsigned(endian, b, 8);
                proof {
                    assert(b@.subrange(0, 8) =~= b@);
                }
                if v < 0x8000_0000_0000_0000 {
                    Ok(v as i64)
                } else {
                    Ok((v as i128 - 0x1_0000_0000_0000_0000) as i64)
                }
            },
            Err(e) => Err(e),
        }
    }

    /// Scans at most `limit` bytes (16 when `None`) from `addr` for a C string:
    /// `Some` of the bytes before the first NUL when all of them are string
    /// bytes, `None` when another byte comes first or no NUL lies in the window.
    pub fn get_cstring(&self, addr: u64, limit: Option<usize>) -> (r: Result<Option<&[u8]>, SegmentError>)
        requires
            self.wf(),
        ensures
            match r {
                Ok(Some(b)) => self.cstring_at(addr, limit_or_default(limit)) == Ok::<
                    Option<Seq<u8>>,
                    SegmentError,
                >(Some(b@)),
                Ok(None) => self.cstring_at(addr, limit_or_default(limit)) == Ok::<
                    Option<Seq<u8>>,
                    SegmentError,
                >(None),
                Err(e) => self.cstring_at(addr, limit_or_default(limit)) == Err::<
                    Option<Seq<u8>>,
                    SegmentError,
                >(e),
            },
    {
        let end_addr = addr.wrapping_add(1);
        let seg = match self.get_segment(addr, end_addr) {
            Ok(seg) => seg,
            Err(e) => return Err(e),
        };
        let lim: usize = match limit {
            Some(l) => l,
            None => 16,
        };
        let start = addr - seg.start_addr;
        let len = seg.bytes.len();
        if (len as u64) < start || ((len as u64 - start) as usize) < lim {
            return Err(SegmentError::UninitialisedRange { start_addr: addr, end_addr: addr });
        }
        let start = start as usize;
        let window = vstd::slice::slice_subrange(seg.bytes.as_slice(), start, start + lim);
        assert(self.cstring_at(addr, limit_or_default(limit)) == Ok::<Option<Seq<u8>>, SegmentError>(
            cstring_in(window@),
        ));
        let mut i: usize = 0;
        while i < window.len()
            invariant
                self.cstring_at(addr, limit_or_default(limit)) == Ok::<Option<Seq<u8>>, SegmentError>(
                    cstring_in(window@),
                ),
                i <= window@.len(),
                forall|j: int| 0 <= j < i ==> is_string_byte(#[trigger] window@[j]),
            decreases window@.len() - i,
        {
            let b = window[i];
            if is_cstring_byte(b) {
                i = i + 1;
            } else if b == 0 {
                proof {
                    let w = window@;
                    assert(0 <= i < w.len() && w[i as int] == 0 && forall|j: int|
                        0 <= j < i ==> is_string_byte(#[trigger] w[j]));
                    let k = choose|k: int|
                        0 <= k < w.len() && w[k] == 0 && forall|j: int|
                            0 <= j < k ==> is_string_byte(#[trigger] w[j]);
                    if k < i {
                        assert(is_string_byte(w[k]));
                    } else if k > i {
                        assert(is_string_byte(w[i as int]));
                    }
                }
                return Ok(Some(vstd::slice::slice_subrange(window, 0, i)));
            } else {
                proof {
                    let w = window@;
                    assert forall|k: int|
                        0 <= k < w.len() && w[k] == 0 implies !(forall|j: int|
                        0 <= j < k ==> is_string_byte(#[trigger] w[j])) by {
                        if k < i {
                            assert(is_string_byte(w[k]));
                        } else if k > i {
                            assert(!is_string_byte(w[i as int]));
                        }
                    }
                }
                return Ok(None);
            }
        }
        Ok(None)
    }
}

impl Default for Segments {
    fn default() -> (r: Segments)
        ensures
            r.view() == Seq::<Segment>::empty(),
            r.wf(),
    {
        Segments::new()
    }
}

/// The scan length of `get_cstring`: the given limit, or 16.
pub open spec fn limit_or_default(limit: Option<usize>) -> nat {
    match limit {
        Some(l) => l as nat,
        None => 16,
    }
}

/// Whether `b` may appear inside a C string.
pub fn is_cstring_byte(b: u8) -> (r: bool)
    ensures
        r == is_string_byte(b),
{
    (33 <= b && b <= 126) || b == 32 || b == 9 || b == 10 || b == 12 || b == 13
}

/// Reads the first `n` bytes of `b` as an unsigned integer.
fn read_unsigned(endian: Endian, b: &[u8], n: usize) -> (r: u64)
    requires
        n <= 8,
        n <= b@.len(),
    ensures
        r == unsigned_value(endian, b@.subrange(0, n as int)),
{
    let ghost s = b@.subrange(0, n as int);
    let mut acc: u64 = 0;
    match endian {
        Endian::Little => {
            let mut i: usize = n;
            while i > 0
                invariant
                    i <= n,
                    n <= 8,
                    n <= b@.len(),
                    s == b@.subrange(0, n as int),
                    acc == unsigned_value(endian, s.subrange(i as int, n as int)),
                    endian == Endian::Little,
                decreases i,
            {
                let ghost prev = s.subrange(i as int, n as int);
                i = i - 1;
                let ghost cur = s.subrange(i as int, n as int);
                assert(cur.drop_first() =~= prev);
                proof {
                    lemma_unsigned_value_bound(endian, prev);
                    lemma_pow256_mono(prev.len(), 7);
                    lemma_pow256_seven();
                }
                acc = b[i] as u64 + 256 * acc;
            }
            assert(s.subrange(0, n as int) =~= s);
        },
        Endian::Big => {
            let mut i: usize = 0;
            while i < n
                invariant
                    i <= n,
                    n <= 8,
                    n <= b@.len(),
                    s == b@.subrange(0, n as int),
                    acc == unsigned_value(endian, s.subrange(0, i as int)),
                    endian == Endian::Big,
                decreases n - i,
            {
                let ghost prev = s.subrange(0, i as int);
                let ghost cur = s.subrange(0, i + 1);
                assert(cur.drop_last() =~= prev);
                proof {
                    lemma_unsigned_value_bound(endian, prev);
                    lemma_pow256_mono(prev.len(), 7);
                    lemma_pow256_seven();
                }
                acc = 256 * acc + b[i] as u64;
                i = i + 1;
            }
            assert(s.subrange(0, n as int) =~= s);
        },
    }
    acc
}

} // verus!
