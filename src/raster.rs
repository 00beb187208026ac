//! Names of the raster conversion settings, and the order in which the
//! vertices of a cell boundary are visited.
use vstd::prelude::*;
use crate::error::Error;
use vstd::string::StringSliceAdditionalSpecFns;

verus! {

/// The order of the axes of a raster array.
#[derive(Debug, Clone, Copy, PartialEq, Eq, Structural)]
pub enum AxisOrderKind {
    XY,
    YX,
}

/// How the resolution nearest to the pixel size is searched.
#[derive(Debug, Clone, Copy, PartialEq, Eq, Structural)]
pub enum ResolutionSearchModeKind {
    MinDiff,
    SmallerThanPixel,
}

/// An axis order given by name.
#[derive(Debug, Clone, Copy, PartialEq, Eq, Structural)]
pub struct AxisOrder {
    pub inner: AxisOrderKind,
}

/// A resolution search mode given by name.
#[derive(Debug, Clone, Copy, PartialEq, Eq, Structural)]
pub struct ResolutionSearchMode {
    pub inner: ResolutionSearchModeKind,
}

/// The axis order a name denotes: `yx` or `YX`, `xy` or `XY`.
pub open spec fn axis_order_of(b: Seq<u8>) -> Option<AxisOrderKind> {
    if b == seq![121u8, 120u8] || b == seq![89u8, 88u8] {
        Some(AxisOrderKind::YX)
    } else if b == seq![120u8, 121u8] || b == seq![88u8, 89u8] {
        Some(AxisOrderKind::XY)
    } else {
        None
    }
}

/// `min_diff` with `_` or `-` between the words.
pub open spec fn min_diff_name(sep: u8) -> Seq<u8> {
    seq![109u8, 105u8, 110u8, sep, 100u8, 105u8, 102u8, 102u8]
}

/// `smaller_than_pixel` with `_` or `-` between the words.
pub open spec fn smaller_than_pixel_name(sep: u8) -> Seq<u8> {
    seq![
        115u8, 109u8, 97u8, 108u8, 108u8, 101u8, 114u8, sep,
        116u8, 104u8, 97u8, 110u8, sep,
        112u8, 105u8, 120u8, 101u8, 108u8,
    ]
}

/// The resolution search mode a name denotes.
pub open spec fn search_mode_of(b: Seq<u8>) -> Option<ResolutionSearchModeKind> {
    if b == min_diff_name(95u8) || b == min_diff_name(45u8) {
        Some(ResolutionSearchModeKind::MinDiff)
    } else if b == smaller_than_pixel_name(95u8) || b == smaller_than_pixel_name(45u8) {
        Some(ResolutionSearchModeKind::SmallerThanPixel)
    } else {
        None
    }
}

fn same_bytes(a: &[u8], b: &Vec<u8>) -> (r: bool)
    ensures
        r == (a@ == b@),
{
    if a.len() != b.len() {
        return false;
    }
    let mut i: usize = 0;
    while i < a.len()
        invariant
            a@.len() == b@.len(),
            i <= a@.len(),
            forall|k: int| 0 <= k < i ==> a@[k] == b@[k],
        decreases a@.len() - i,
    {
        if a[i] != b[i] {
            return false;
        }
        i = i + 1;
    }
    assert(a@ =~= b@);
    true
}

impl AxisOrder {
    /// The axis order named `s`; fails on any other name.
    pub fn from_str(s: &str) -> (r: Result<AxisOrder, Error>)
        ensures
            axis_order_of(s.spec_bytes()) matches Some(k) ==> r == Ok::<AxisOrder, Error>(
                AxisOrder { inner: k },
            ),
            axis_order_of(s.spec_bytes()) is None ==> r == Err::<AxisOrder, Error>(
                Error::UnknownAxisOrder,
            ),
    {
        let b = s.as_bytes();
        if same_bytes(b, &vec![121u8, 120u8]) || same_bytes(b, &vec![89u8, 88u8]) {
            Ok(AxisOrder { inner: AxisOrderKind::YX })
        } else if same_bytes(b, &vec![120u8, 121u8]) || same_bytes(b, &vec![88u8, 89u8]) {
            Ok(AxisOrder { inner: AxisOrderKind::XY })
        } else {
            Err(Error::UnknownAxisOrder)
        }
    }
}

fn min_diff_bytes(sep: u8) -> (r: Vec<u8>)
    ensures
        r@ == min_diff_name(sep),
{
    let r = vec![109u8, 105u8, 110u8, sep, 100u8, 105u8, 102u8, 102u8];
    assert(r@ =~= min_diff_name(sep));
    r
}

fn smaller_than_pixel_bytes(sep: u8) -> (r: Vec<u8>)
    ensures
        r@ == smaller_than_pixel_name(sep),
{
    let r = vec![
        115u8, 109u8, 97u8, 108u8, 108u8, 101u8, 114u8, sep,
        116u8, 104u8, 97u8, 110u8, sep,
        112u8, 105u8, 120u8, 101u8, 108u8,
    ];
    assert(r@ =~= smaller_than_pixel_name(sep));
    r
}

impl ResolutionSearchMode {
    /// The resolution search mode named `s`; fails on any other name.
    pub fn from_str(s: &str) -> (r: Result<ResolutionSearchMode, Error>)
        ensures
            search_mode_of(s.spec_bytes()) matches Some(k) ==> r == Ok::<ResolutionSearchMode, Error>(
                ResolutionSearchMode { inner: k },
            ),
            search_mode_of(s.spec_bytes()) is None ==> r == Err::<ResolutionSearchMode, Error>(
                Error::UnknownResolutionSearchMode,
            ),
    {
        let b = s.as_bytes();
        if same_bytes(b, &min_diff_bytes(95u8)) || same_bytes(b, &min_diff_bytes(45u8)) {
            Ok(ResolutionSearchMode { inner: ResolutionSearchModeKind::MinDiff })
        } else if same_bytes(b, &smaller_than_pixel_bytes(95u8)) || same_bytes(
            b,
            &smaller_than_pixel_bytes(45u8),
        ) {
            Ok(ResolutionSearchMode { inner: ResolutionSearchModeKind::SmallerThanPixel })
        } else {
            Err(Error::UnknownResolutionSearchMode)
        }
    }
}

/// The vertex the boundary walk visits at position `pos` of a boundary with
/// `num_verts` vertices: each vertex once in order, then the first vertex
/// again when the ring is closed.
pub open spec fn spec_vertex_at(num_verts: usize, close_ring: bool, pos: usize) -> Option<usize> {
    if pos < num_verts {
        Some(pos)
    } else if pos == num_verts && close_ring && num_verts != 0 {
        Some(0)
    } else {
        None
    }
}

/// A walk over the vertices of a cell boundary.
#[derive(Debug, Clone, Copy, PartialEq, Eq, Structural)]
pub struct BoundaryWalk {
    pub num_verts: usize,
    pub close_ring: bool,
    pub pos: usize,
}

impl BoundaryWalk {
    /// A walk at the first vertex.
    pub fn new(num_verts: usize, close_ring: bool) -> (r: BoundaryWalk)
        ensures
            r == (BoundaryWalk { num_verts, close_ring, pos: 0 }),
    {
        BoundaryWalk { num_verts, close_ring, pos: 0 }
    }

    /// Number of vertices of the boundary, without the extra one that closes
    /// the ring.
    pub fn num_verts(&self) -> (r: usize)
        ensures
            r == self.num_verts,
    {
        self.num_verts
    }

    /// The index of the next vertex to visit, if any, and a step forward.
    pub fn next_vertex(&mut self) -> (r: Option<usize>)
        ensures
            r == spec_vertex_at(old(self).num_verts, old(self).close_ring, old(self).pos),
            final(self).num_verts == old(self).num_verts,
            final(self).close_ring == old(self).close_ring,
            final(self).pos == if old(self).pos < usize::MAX {
                old(self).pos + 1
            } else {
                old(self).pos as int
            },
    {
        let value = if self.pos < self.num_verts {
            Some(self.pos)
        } else if self.pos == self.num_verts && self.close_ring && self.num_verts != 0 {
            Some(0)
        } else {
            None
        };
        if self.pos < usize::MAX {
            self.pos = self.pos + 1;
        }
        value
    }

    /// How many vertices are left to visit, at most `usize::MAX`.
    pub fn remaining(&self) -> (r: usize)
        ensures
            r as int == {
                let len = self.num_verts + if self.close_ring && self.num_verts != 0 { 1int } else { 0 };
                let left = if len > self.pos { len - self.pos } else { 0 };
                if left > usize::MAX { usize::MAX as int } else { left }
            },
    {
        let closes = self.close_ring && self.num_verts != 0;
        if self.pos < self.num_verts {
            let rest = self.num_verts - self.pos;
            if closes && rest < usize::MAX {
                rest + 1
            } else {
                rest
            }
        } else if self.pos == self.num_verts && closes {
            1
        } else {
            0
        }
    }
}

} // verus!
