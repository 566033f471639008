use vstd::prelude::*;

verus! {

/// The instruction set an image is built for.
#[derive(Clone, Copy, Debug, PartialEq, Eq, Structural)]
pub enum Arch {
    Arm,
    Mips,
    NotSupported,
}

/// The word size of an image.
#[derive(Clone, Copy, Debug, PartialEq, Eq, Structural)]
pub enum Bits {
    Bits32,
    Bits64,
}

/// The byte order of an image.
#[derive(Clone, Copy, Debug, PartialEq, Eq, Structural)]
pub enum Endian {
    Big,
    Little,
}

} // verus!
