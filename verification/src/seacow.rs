//! Memory that an image either borrows from its caller or owns, and the flags by which a
//! caller hands ownership over.
use vstd::prelude::*;

verus! {

/// The parts of an image's memory that the library is asked to take over.
///
/// A set of three flags, `LIQ_OWN_ROWS`, `LIQ_OWN_PIXELS` and `LIQ_COPY_PIXELS`; sets are
/// joined with `|`.
#[allow(non_camel_case_types)]
#[derive(Clone, Copy, Debug, PartialEq, Eq, Structural)]
pub struct liq_ownership {
    /// The array of row starts is handed over
    pub own_rows: bool,
    /// The pixels are handed over
    pub own_pixels: bool,
    /// The pixels are to be copied
    pub copy_pixels: bool,
}

/// The number that stands for a set of flags: 4 for the rows, 8 for the pixels and 16 for
/// copying the pixels, added up.
pub open spec fn flag_bits(flags: liq_ownership) -> int {
    (if flags.own_rows { 4int } else { 0int }) + (if flags.own_pixels { 8int } else { 0int }) + (
    if flags.copy_pixels { 16int } else { 0int })
}

/// Two sets of flags that stand for the same number are the same set.
pub proof fn lemma_flag_bits_distinct(a: liq_ownership, b: liq_ownership)
    requires
        flag_bits(a) == flag_bits(b),
    ensures
        a == b,
{
}

impl liq_ownership {
    /// The set that holds only the flag for the array of row starts.
    #[allow(non_snake_case)]
    pub fn LIQ_OWN_ROWS() -> (flags: liq_ownership)
        ensures
            flags == (liq_ownership { own_rows: true, own_pixels: false, copy_pixels: false }),
    {
        liq_ownership { own_rows: true, own_pixels: false, copy_pixels: false }
    }

    /// The set that holds only the flag for the pixels.
    #[allow(non_snake_case)]
    pub fn LIQ_OWN_PIXELS() -> (flags: liq_ownership)
        ensures
            flags == (liq_ownership { own_rows: false, own_pixels: true, copy_pixels: false }),
    {
        liq_ownership { own_rows: false, own_pixels: true, copy_pixels: false }
    }

    /// The set that holds only the flag for copying the pixels.
    #[allow(non_snake_case)]
    pub fn LIQ_COPY_PIXELS() -> (flags: liq_ownership)
        ensures
            flags == (liq_ownership { own_rows: false, own_pixels: false, copy_pixels: true }),
    {
        liq_ownership { own_rows: false, own_pixels: false, copy_pixels: true }
    }

    /// The set without any flag.
    pub fn empty() -> (flags: liq_ownership)
        ensures
            flags == (liq_ownership { own_rows: false, own_pixels: false, copy_pixels: false }),
    {
        liq_ownership { own_rows: false, own_pixels: false, copy_pixels: false }
    }

    /// The number that stands for this set.
    pub fn bits(&self) -> (bits: u32)
        ensures
            bits == flag_bits(*self),
    {
        let rows: u32 = if self.own_rows { 4 } else { 0 };
        let pixels: u32 = if self.own_pixels { 8 } else { 0 };
        let copy: u32 = if self.copy_pixels { 16 } else { 0 };
        rows + pixels + copy
    }

    /// The set that a number stands for, if it stands for one.
    pub fn from_bits(bits: u32) -> (r: Option<liq_ownership>)
        ensures
            match r {
                Some(flags) => flag_bits(flags) == bits,
                None => forall|flags: liq_ownership| flag_bits(flags) != bits,
            },
    {
        if bits > 28 || bits % 4 != 0 {
            return None;
        }
        Some(
            liq_ownership {
                own_rows: bits % 8 >= 4,
                own_pixels: bits % 16 >= 8,
                copy_pixels: bits >= 16,
            },
        )
    }

    /// Whether no flag is set.
    pub fn is_empty(&self) -> (b: bool)
        ensures
            b == (!self.own_rows && !self.own_pixels && !self.copy_pixels),
    {
        !self.own_rows && !self.own_pixels && !self.copy_pixels
    }

    /// Whether every flag of `other` is set in this set too.
    pub fn contains(&self, other: liq_ownership) -> (b: bool)
        ensures
            b == ((other.own_rows ==> self.own_rows) && (other.own_pixels ==> self.own_pixels) && (
            other.copy_pixels ==> self.copy_pixels)),
    {
        (!other.own_rows || self.own_rows) && (!other.own_pixels || self.own_pixels) && (
        !other.copy_pixels || self.copy_pixels)
    }

    /// The flags that are in either set.
    pub open spec fn union(self, rhs: liq_ownership) -> liq_ownership {
        liq_ownership {
            own_rows: self.own_rows || rhs.own_rows,
            own_pixels: self.own_pixels || rhs.own_pixels,
            copy_pixels: self.copy_pixels || rhs.copy_pixels,
        }
    }
}

impl core::ops::BitOr for liq_ownership {
    type Output = liq_ownership;

    fn bitor(self, rhs: liq_ownership) -> (r: liq_ownership) {
        liq_ownership {
            own_rows: self.own_rows || rhs.own_rows,
            own_pixels: self.own_pixels || rhs.own_pixels,
            copy_pixels: self.copy_pixels || rhs.copy_pixels,
        }
    }
}

impl vstd::std_specs::ops::BitOrSpecImpl for liq_ownership {
    open spec fn obeys_bitor_spec() -> bool {
        true
    }

    open spec fn bitor_req(self, rhs: liq_ownership) -> bool {
        true
    }

    open spec fn bitor_spec(self, rhs: liq_ownership) -> liq_ownership {
        self.union(rhs)
    }
}

/// A run of values that is either borrowed from the caller or owned.
pub enum SeaCow<'a, T> {
    /// The values belong to the caller
    Borrowed(&'a [T]),
    /// The values belong to this object
    Owned(Vec<T>),
}

impl<'a, T> View for SeaCow<'a, T> {
    type V = Seq<T>;

    open spec fn view(&self) -> Seq<T> {
        match self {
            SeaCow::Borrowed(s) => s@,
            SeaCow::Owned(v) => v@,
        }
    }
}

impl<'a, T> SeaCow<'a, T> {
    /// The values of a slice, left with the caller.
    pub fn borrowed(data: &'a [T]) -> (s: SeaCow<'a, T>)
        ensures
            s == SeaCow::Borrowed(data),
    {
        SeaCow::Borrowed(data)
    }

    /// The values of a vector, which is taken over.
    pub fn boxed(data: Vec<T>) -> (s: SeaCow<'static, T>)
        ensures
            s == SeaCow::<'static, T>::Owned(data),
    {
        SeaCow::Owned(data)
    }

    /// Whether the values belong to this object.
    pub fn is_owned(&self) -> (b: bool)
        ensures
            b == (self is Owned),
    {
        match self {
            SeaCow::Owned(_) => true,
            SeaCow::Borrowed(_) => false,
        }
    }

    /// The values.
    pub fn as_slice(&self) -> (s: &[T])
        ensures
            s@ == self@,
    {
        match self {
            SeaCow::Borrowed(s) => s,
            SeaCow::Owned(v) => v.as_slice(),
        }
    }

    /// Number of values.
    pub fn len(&self) -> (n: usize)
        ensures
            n == self@.len(),
    {
        self.as_slice().len()
    }
}

impl<'a, T: Copy> SeaCow<'a, T> {
    /// Takes the values over: what was borrowed is copied, what was owned stays as it is.
    pub fn make_owned(&mut self)
        ensures
            *final(self) is Owned,
            final(self)@ == old(self)@,
    {
        let copy: Option<Vec<T>> = match self {
            SeaCow::Borrowed(s) => Some(vstd::slice::slice_to_vec(s)),
            SeaCow::Owned(_) => None,
        };
        match copy {
            Some(v) => {
                *self = SeaCow::Owned(v);
            },
            None => {},
        }
    }
}

} // verus!
