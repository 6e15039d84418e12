//! Homogeneous 4x4 transform matrices.
//!
//! The library stores a matrix as the 16 bit patterns of its entries in
//! column-major order, so that the spatial data can flow through verified
//! code as plain words; the one operation the propagation needs, the
//! matrix product, is delegated to nalgebra-glm behind a trusted wrapper.

use vstd::prelude::*;

verus! {

/// The bit pattern of the entry value one.
pub const UNIT_BITS: u32 = 0x3F80_0000;

/// A 4x4 transform, held as the bit patterns of its 16 entries in
/// column-major order.
#[derive(Clone, Copy, Debug)]
pub struct Matrix4 {
    pub bits: [u32; 16],
}

impl View for Matrix4 {
    type V = Seq<u32>;

    open spec fn view(&self) -> Seq<u32> {
        self.bits@
    }
}

/// The entries of the identity transform.
pub open spec fn identity_bits() -> Seq<u32> {
    seq![
        UNIT_BITS, 0u32, 0u32, 0u32,
        0u32, UNIT_BITS, 0u32, 0u32,
        0u32, 0u32, UNIT_BITS, 0u32,
        0u32, 0u32, 0u32, UNIT_BITS,
    ]
}

/// The entries of the product of two 4x4 transforms, left operand first.
/// Named, not written out: for tame operands (below) the value is fixed
/// by the two operands alone, and the trusted wrapper below ties the
/// name to nalgebra-glm's product.
pub uninterp spec fn mat4_mul_of(a: Seq<u32>, b: Seq<u32>) -> Seq<u32>;

/// The biased exponent field of an entry's bit pattern.
pub open spec fn exponent_bits(u: u32) -> u32 {
    (u >> 23u32) & 0xFFu32
}

/// Entries whose product is pinned down: a biased exponent below 189
/// keeps every magnitude below two to the 62nd, so no entry encodes an
/// infinity or a not-a-number, no product or four-term sum can overflow,
/// and in particular no operation can produce a not-a-number — the one
/// value whose bit pattern the language leaves open.
pub open spec fn mat4_entries_tame(s: Seq<u32>) -> bool {
    forall|i: int| 0 <= i < s.len() ==> exponent_bits(#[trigger] s[i]) < 189
}

impl Matrix4 {
    /// The identity transform.
    pub fn identity() -> (m: Matrix4)
        ensures
            m@ == identity_bits(),
    {
        let m = Matrix4 {
            bits: [
                UNIT_BITS, 0u32, 0u32, 0u32,
                0u32, UNIT_BITS, 0u32, 0u32,
                0u32, 0u32, UNIT_BITS, 0u32,
                0u32, 0u32, 0u32, UNIT_BITS,
            ],
        };
        proof {
            assert(m@ =~= identity_bits());
        }
        m
    }

    /// A matrix from its 16 column-major entry bit patterns.
    pub fn from_bits(bits: [u32; 16]) -> (m: Matrix4)
        ensures
            m@ == bits@,
    {
        Matrix4 { bits }
    }
}

/// The product `a * b` of two transforms, with `a` the parent-side (left)
/// operand.
///
/// Relies on nalgebra-glm: `make_mat4` reads 16 entries in column-major
/// order, `*` is the plain scalar multiply-add 4x4 product, and
/// `as_slice` hands the result back in column-major order. For tame
/// operands every intermediate value is finite, so each entry is the
/// correctly rounded IEEE result and the product is a function of the
/// two operands alone; outside that range an operation may produce a
/// not-a-number, whose bit pattern is not pinned down, so nothing more
/// is claimed there.
#[verifier::external_body]
pub fn mat4_mul(a: &Matrix4, b: &Matrix4) -> (r: Matrix4)
    ensures
        r@.len() == 16,
        mat4_entries_tame(a@) && mat4_entries_tame(b@) ==> r@ == mat4_mul_of(a@, b@),
{
    let ma: nalgebra_glm::Mat4 = nalgebra_glm::make_mat4(bytemuck::cast_slice(&a.bits));
    let mb: nalgebra_glm::Mat4 = nalgebra_glm::make_mat4(bytemuck::cast_slice(&b.bits));
    let mc: nalgebra_glm::Mat4 = ma * mb;
    let mut bits = [0u32; 16];
    bits.copy_from_slice(bytemuck::cast_slice(mc.as_slice()));
    Matrix4 { bits }
}

} // verus!
