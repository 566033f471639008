use vstd::prelude::*;

use crate::arch::{Arch, Bits, Endian};
use crate::function::Function;
use crate::segment::Segments;

verus! {

/// Why an image cannot be analysed.
#[derive(Clone, Copy, Debug, PartialEq, Eq, Structural)]
pub enum ImageError {
    UnsupportedArchitecture,
}

/// A loaded program: its segments and its functions, in increasing order of
/// start address.
#[derive(Debug)]
pub struct Image {
    pub arch: Arch,
    pub bits: Bits,
    pub endian: Endian,
    pub segments: Segments,
    pub functions: Vec<Function>,
}

impl Image {
    pub open spec fn wf(&self) -> bool {
        &&& self.segments.wf()
        &&& forall|i: int| 0 <= i < self.functions@.len() ==> (#[trigger] self.functions@[i]).wf()
        &&& forall|i: int, j: int|
            0 <= i < j < self.functions@.len() ==> (#[trigger] self.functions@[i]).start_addr
                < (#[trigger] self.functions@[j]).start_addr
    }

    pub fn is_64bit(&self) -> (r: bool)
        ensures
            r == (self.bits == Bits::Bits64),
    {
        self.bits == Bits::Bits64
    }

    pub fn is_be(&self) -> (r: bool)
        ensures
            r == (self.endian == Endian::Big),
    {
        self.endian == Endian::Big
    }

    /// The function that starts at `addr`.
    pub fn find_function(&self, addr: u64) -> (r: Option<&Function>)
        ensures
            match r {
                Some(f) => exists|i: int|
                    0 <= i < self.functions@.len() && self.functions@[i] == *f && f.start_addr == addr,
                None => forall|i: int|
                    0 <= i < self.functions@.len() ==> (#[trigger] self.functions@[i]).start_addr != addr,
            },
    {
        let mut i: usize = 0;
        while i < self.functions.len()
            invariant
                i <= self.functions@.len(),
                forall|j: int| 0 <= j < i ==> (#[trigger] self.functions@[j]).start_addr != addr,
            decreases self.functions@.len() - i,
        {
            if self.functions[i].start_addr == addr {
                return Some(&self.functions[i]);
            }
            i = i + 1;
        }
        None
    }
}

} // verus!
