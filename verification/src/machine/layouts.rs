//! Precomputed layouts.
use vstd::prelude::*;

verus! {

/// The primitive types that the machine needs the layouts of.
#[derive(Copy, Clone, Debug, PartialEq, Eq, Structural)]
pub enum PrimitiveTy {
    Unit,
    I8,
    I32,
    Isize,
    U8,
    U32,
    Usize,
    Bool,
    /// A `*mut ()`.
    MutRawPtr,
}

impl PrimitiveTy {
    /// How many layouts are computed before this one.
    pub open spec fn rank(self) -> int {
        match self {
            PrimitiveTy::Unit => 0,
            PrimitiveTy::I8 => 1,
            PrimitiveTy::I32 => 2,
            PrimitiveTy::Isize => 3,
            PrimitiveTy::U8 => 4,
            PrimitiveTy::U32 => 5,
            PrimitiveTy::Usize => 6,
            PrimitiveTy::Bool => 7,
            PrimitiveTy::MutRawPtr => 8,
        }
    }
}

/// Precomputed layouts of primitive types
#[derive(Debug)]
pub struct PrimitiveLayouts<L> {
    pub unit: L,
    pub i8: L,
    pub i32: L,
    pub isize: L,
    pub u8: L,
    pub u32: L,
    pub usize: L,
    pub bool: L,
    pub mut_raw_ptr: L,
}

impl<L> PrimitiveLayouts<L> {
    /// The layout of the type.
    pub open spec fn layout(self, ty: PrimitiveTy) -> L {
        match ty {
            PrimitiveTy::Unit => self.unit,
            PrimitiveTy::I8 => self.i8,
            PrimitiveTy::I32 => self.i32,
            PrimitiveTy::Isize => self.isize,
            PrimitiveTy::U8 => self.u8,
            PrimitiveTy::U32 => self.u32,
            PrimitiveTy::Usize => self.usize,
            PrimitiveTy::Bool => self.bool,
            PrimitiveTy::MutRawPtr => self.mut_raw_ptr,
        }
    }

    /// The layout of the type.
    pub fn get(&self, ty: PrimitiveTy) -> (layout: &L)
        ensures
            *layout == self.layout(ty),
    {
        match ty {
            PrimitiveTy::Unit => &self.unit,
            PrimitiveTy::I8 => &self.i8,
            PrimitiveTy::I32 => &self.i32,
            PrimitiveTy::Isize => &self.isize,
            PrimitiveTy::U8 => &self.u8,
            PrimitiveTy::U32 => &self.u32,
            PrimitiveTy::Usize => &self.usize,
            PrimitiveTy::Bool => &self.bool,
            PrimitiveTy::MutRawPtr => &self.mut_raw_ptr,
        }
    }

    /// Whether `layout_of` can compute the layouts of all types before `ty`.
    pub open spec fn computed_before<E, F: Fn(PrimitiveTy) -> Result<L, E>>(
        layout_of: F,
        ty: PrimitiveTy,
    ) -> bool {
        forall|earlier: PrimitiveTy| #[trigger]
            earlier.rank() < ty.rank() ==> exists|layout: L|
                #[trigger] layout_of.ensures((earlier,), Ok(layout))
    }

    /// Asks for the layouts one after the other, until there is one that cannot be computed.
    pub fn new<E, F: Fn(PrimitiveTy) -> Result<L, E>>(layout_of: F) -> (result: Result<Self, E>)
        requires
            forall|ty: PrimitiveTy| #[trigger] layout_of.requires((ty,)),
        ensures
            match result {
                Ok(layouts) => forall|ty: PrimitiveTy|
                    layout_of.ensures((ty,), Ok(#[trigger] layouts.layout(ty))),
                Err(error) => exists|ty: PrimitiveTy|
                    {
                        &&& #[trigger] layout_of.ensures((ty,), Err(error))
                        &&& Self::computed_before(layout_of, ty)
                    },
            },
    {
        Ok(
            PrimitiveLayouts {
                unit: layout_of(PrimitiveTy::Unit)?,
                i8: layout_of(PrimitiveTy::I8)?,
                i32: layout_of(PrimitiveTy::I32)?,
                isize: layout_of(PrimitiveTy::Isize)?,
                u8: layout_of(PrimitiveTy::U8)?,
                u32: layout_of(PrimitiveTy::U32)?,
                usize: layout_of(PrimitiveTy::Usize)?,
                bool: layout_of(PrimitiveTy::Bool)?,
                mut_raw_ptr: layout_of(PrimitiveTy::MutRawPtr)?,
            },
        )
    }
}

} // verus!
