use vstd::prelude::*;

verus! {

/// What a register is known to hold at a call.
#[derive(Clone, Copy, Debug, PartialEq, Eq, Structural)]
pub enum Access<T> {
    /// A pointer into the stack frame.
    Stack,
    /// The unknown value of another register.
    Register,
    /// A known constant.
    Constant(T),
    /// A constant that addresses a C string of the given length.
    String(u64, usize),
    /// Anything else.
    Other,
    /// Nothing was assigned.
    Never,
}

/// The arguments of a call, one `Access` per argument slot.
#[derive(Debug)]
pub struct Accesses<T>(pub Vec<Access<T>>);

/// A call whose result decides a zero-conditional branch.
#[derive(Debug)]
pub struct ZCondBranchAnalysis {
    /// The address of the called function.
    pub function: u64,
    /// What each argument register held at the call.
    pub arguments: Accesses<i64>,
    /// The successor taken when the call returned zero.
    pub destination: u64,
}

/// An integer type that constants are held in.
pub trait Constant: Sized {
    spec fn value(&self) -> int;

    /// The value as an `i64`.
    fn normalise(&self) -> (r: i64)
        requires
            i64::MIN <= self.value() <= i64::MAX,
        ensures
            r == self.value(),
    ;

    /// The value as an address: its 64-bit two's-complement pattern.
    fn as_address(&self) -> (r: u64)
        requires
            i64::MIN <= self.value() <= i64::MAX,
        ensures
            r == #[verifier::truncate] (self.value() as u64),
    ;
}

impl Constant for i32 {
    open spec fn value(&self) -> int {
        *self as int
    }

    fn normalise(&self) -> (r: i64) {
        *self as i64
    }

    fn as_address(&self) -> (r: u64) {
        #[verifier::truncate] (*self as u64)
    }
}

impl Constant for i64 {
    open spec fn value(&self) -> int {
        *self as int
    }

    fn normalise(&self) -> (r: i64) {
        *self
    }

    fn as_address(&self) -> (r: u64) {
        #[verifier::truncate] (*self as u64)
    }
}

impl Constant for u64 {
    open spec fn value(&self) -> int {
        *self as int
    }

    fn normalise(&self) -> (r: i64) {
        *self as i64
    }

    fn as_address(&self) -> (r: u64) {
        *self
    }
}

/// `a` with `k` added to a constant, wrapping at 32 bits; other accesses unchanged.
pub open spec fn add_to_constant(a: Access<i32>, k: i32) -> Access<i32> {
    match a {
        Access::Constant(v) => Access::Constant(v.wrapping_add(k)),
        _ => a,
    }
}

/// `a` widened to 64 bits by sign extension.
pub open spec fn widen(a: Access<i32>) -> Access<i64> {
    match a {
        Access::Constant(v) => Access::Constant(v as i64),
        Access::Stack => Access::Stack,
        Access::Register => Access::Register,
        Access::String(addr, len) => Access::String(addr, len),
        Access::Other => Access::Other,
        Access::Never => Access::Never,
    }
}

impl<T: Copy> Access<T> {
    /// Applies `f` to a constant; every other access is kept as it is.
    pub fn map_constant<U, F: Fn(T) -> U>(&self, f: F) -> (r: Access<U>)
        requires
            forall|v: T| f.requires((v,)),
        ensures
            match *self {
                Access::Constant(v) => exists|u: U| r == Access::Constant(u) && f.ensures((v,), u),
                Access::Stack => r == Access::<U>::Stack,
                Access::Register => r == Access::<U>::Register,
                Access::String(addr, len) => r == Access::<U>::String(addr, len),
                Access::Other => r == Access::<U>::Other,
                Access::Never => r == Access::<U>::Never,
            },
    {
        match *self {
            Access::Constant(v) => Access::Constant(f(v)),
            Access::String(sa, len) => Access::String(sa, len),
            Access::Stack => Access::Stack,
            Access::Register => Access::Register,
            Access::Other => Access::Other,
            Access::Never => Access::Never,
        }
    }
}

impl<T> Access<T> {
    pub fn is_never(&self) -> (r: bool)
        ensures
            r == (*self is Never),
    {
        match self {
            Access::Never => true,
            _ => false,
        }
    }
}

impl Access<i32> {
    /// Adds `v` to a constant, wrapping at 32 bits; other accesses are kept.
    pub fn wrapping_add(&self, v: i32) -> (r: Access<i32>)
        ensures
            r == add_to_constant(*self, v),
    {
        match *self {
            Access::Constant(u) => Access::Constant(u.wrapping_add(v)),
            x => x,
        }
    }
}

impl<T: Copy> Accesses<T> {
    /// `n` slots, none of them assigned.
    pub fn new(n: usize) -> (r: Accesses<T>)
        ensures
            r.0@ == Seq::new(n as nat, |i: int| Access::<T>::Never),
    {
        let mut v: Vec<Access<T>> = Vec::new();
        let mut i: usize = 0;
        while i < n
            invariant
                i <= n,
                v@ == Seq::new(i as nat, |j: int| Access::<T>::Never),
            decreases n - i,
        {
            v.push(Access::Never);
            i = i + 1;
            assert(v@ =~= Seq::new(i as nat, |j: int| Access::<T>::Never));
        }
        Accesses(v)
    }

    pub fn get(&self, n: usize) -> (r: &Access<T>)
        requires
            n < self.0@.len(),
        ensures
            *r == self.0@[n as int],
    {
        &self.0[n]
    }

    pub fn get_mut(&mut self, n: usize) -> (r: &mut Access<T>)
        requires
            n < old(self).0@.len(),
        ensures
            *r == old(self).0@[n as int],
            final(self).0@ == old(self).0@.update(n as int, *final(r)),
    {
        &mut self.0[n]
    }
}

} // verus!
