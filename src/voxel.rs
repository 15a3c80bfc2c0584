//! The voxel codec and the dense voxel grid.

use vstd::prelude::*;

verus! {

/// Bit offset of the 5-bit red field.
pub const RED_SHIFT: u32 = 27;

/// Bit offset of the 6-bit green field.
pub const GREEN_SHIFT: u32 = 21;

/// Bit offset of the 5-bit blue field.
pub const BLUE_SHIFT: u32 = 16;

/// Largest red or blue level.
pub const MAX_5: u32 = 31;

/// Largest green level.
pub const MAX_6: u32 = 63;

/// Mask of the type byte.
pub const TYPE_MASK: u32 = 255;

/// The red level held in `v`.
pub open spec fn red_of(v: u32) -> u32 {
    (v >> 27u32) & 31u32
}

/// The green level held in `v`.
pub open spec fn green_of(v: u32) -> u32 {
    (v >> 21u32) & 63u32
}

/// The blue level held in `v`.
pub open spec fn blue_of(v: u32) -> u32 {
    (v >> 16u32) & 31u32
}

/// The type byte held in `v`.
pub open spec fn type_of(v: u32) -> u32 {
    v & 255u32
}

/// `level` limited to `max`.
pub open spec fn clamp(level: u32, max: u32) -> u32 {
    if level > max {
        max
    } else {
        level
    }
}

/// `v` with the color levels `(r, g, b)`, each limited to its field, OR-ed
/// into their fields.
pub open spec fn with_color(v: u32, r: u32, g: u32, b: u32) -> u32 {
    v | (clamp(r, 31) << 27u32) | (clamp(g, 63) << 21u32) | (clamp(b, 31) << 16u32)
}

/// `v` with its type byte replaced by the low byte of `t`.
pub open spec fn with_type(v: u32, t: u32) -> u32 {
    (v & 0xffff_ff00u32) | (t & 255u32)
}

/// Kinds of material.
#[derive(Clone, Copy, Debug, Default, PartialEq, Eq, Structural)]
pub enum VoxelType {
    #[default]
    Grass,
    Dirt,
}

/// One voxel, packed into 32 bits: red in bits 27..32, green in bits 21..27,
/// blue in bits 16..21, and the type in the low byte. All zero is an empty
/// voxel.
#[derive(Clone, Copy, Debug, Default, PartialEq, Eq, Structural)]
pub struct Voxel(pub u32);

impl Voxel {
    /// The color levels `(red, green, blue)`: red and blue in `0..32`, green
    /// in `0..64`.
    pub fn get_color(&self) -> (r: (u32, u32, u32))
        ensures
            r == (red_of(self.0), green_of(self.0), blue_of(self.0)),
            r.0 <= MAX_5 && r.1 <= MAX_6 && r.2 <= MAX_5,
    {
        let voxel_data = self.0;
        let r: u32 = (voxel_data & (MAX_5 << RED_SHIFT)) >> RED_SHIFT;
        let g: u32 = (voxel_data & (MAX_6 << GREEN_SHIFT)) >> GREEN_SHIFT;
        let b: u32 = (voxel_data & (MAX_5 << BLUE_SHIFT)) >> BLUE_SHIFT;
        proof {
            assert((voxel_data & (31u32 << 27u32)) >> 27u32 == red_of(voxel_data) && (voxel_data & (
            63u32 << 21u32)) >> 21u32 == green_of(voxel_data) && (voxel_data & (31u32 << 16u32))
                >> 16u32 == blue_of(voxel_data) && red_of(voxel_data) <= 31 && green_of(voxel_data)
                <= 63 && blue_of(voxel_data) <= 31) by (bit_vector);
        }
        (r, g, b)
    }

    /// ORs the color levels `(r, g, b)` into their fields, each limited to
    /// the largest level of its field. Fields are not cleared first: a color
    /// is set once on a voxel whose color bits are zero.
    pub fn set_color(&mut self, r: u32, g: u32, b: u32)
        ensures
            final(self).0 == with_color(old(self).0, r, g, b),
    {
        let r = if r > MAX_5 {
            MAX_5
        } else {
            r
        };
        let g = if g > MAX_6 {
            MAX_6
        } else {
            g
        };
        let b = if b > MAX_5 {
            MAX_5
        } else {
            b
        };
        self.0 = self.0 | (r << RED_SHIFT);
        self.0 = self.0 | (g << GREEN_SHIFT);
        self.0 = self.0 | (b << BLUE_SHIFT);
    }

    /// The type byte.
    pub fn get_voxel_type(&self) -> (r: u32)
        ensures
            r == type_of(self.0),
            r <= TYPE_MASK,
    {
        proof {
            let v = self.0;
            assert(v & 255u32 <= 255u32) by (bit_vector);
        }
        self.0 & TYPE_MASK
    }

    /// Replaces the type byte by the low byte of `voxel_type`; the color is
    /// kept.
    pub fn set_voxel_type(&mut self, voxel_type: u32)
        ensures
            final(self).0 == with_type(old(self).0, voxel_type),
            type_of(final(self).0) == voxel_type & 255,
            red_of(final(self).0) == red_of(old(self).0),
            green_of(final(self).0) == green_of(old(self).0),
            blue_of(final(self).0) == blue_of(old(self).0),
    {
        let v = self.0;
        self.0 = self.0 >> 8;
        self.0 = self.0 << 8;
        self.0 = self.0 | (voxel_type & TYPE_MASK);
        proof {
            assert((((v >> 8u32) << 8u32) | (voxel_type & 255u32)) == with_type(v, voxel_type)
                && type_of(with_type(v, voxel_type)) == voxel_type & 255u32 && red_of(
                with_type(v, voxel_type),
            ) == red_of(v) && green_of(with_type(v, voxel_type)) == green_of(v) && blue_of(
                with_type(v, voxel_type),
            ) == blue_of(v)) by (bit_vector);
        }
    }
}

impl From<Voxel> for u32 {
    /// The packed bits of a voxel.
    fn from(v: Voxel) -> (r: u32)
        ensures
            r == v.0,
    {
        v.0
    }
}

impl vstd::std_specs::convert::FromSpecImpl<Voxel> for u32 {
    open spec fn obeys_from_spec() -> bool {
        true
    }

    open spec fn from_spec(v: Voxel) -> u32 {
        v.0
    }
}

/// A three-component float vector, held as the IEEE-754 bit patterns of its
/// components: the grid stores and uploads it and never computes with it.
#[derive(Clone, Copy, Debug, PartialEq, Eq, Structural)]
pub struct Vec3Bits {
    pub x: u32,
    pub y: u32,
    pub z: u32,
}

/// Bit pattern of `0.0f32`.
pub const ZERO_BITS: u32 = 0;

/// Bit pattern of `-1.0f32`.
pub const MINUS_ONE_BITS: u32 = 0xbf80_0000;

/// Words of the upload header: the dimension and three vectors, each padded
/// to 16 bytes, so that the voxel array starts 64 bytes in.
pub const HEADER_WORDS: usize = 16;

/// Voxels in a cubic grid of edge `d`.
pub open spec fn cube(d: nat) -> nat {
    d * d * d
}

/// Row-major position of `(x, y, z)` in a grid of edge `d`.
pub open spec fn cell_index(d: nat, x: nat, y: nat, z: nat) -> nat {
    x * d * d + y * d + z
}

/// The upload header of a grid.
pub open spec fn header_words(dim: u32, pos: Vec3Bits, selected: Vec3Bits, normal: Vec3Bits) -> Seq<
    u32,
> {
    seq![
        dim, 0, 0, 0,
        pos.x, pos.y, pos.z, 0,
        selected.x, selected.y, selected.z, 0,
        normal.x, normal.y, normal.z, 0,
    ]
}

/// The packed values of a sequence of voxels.
pub open spec fn voxel_words(v: Seq<Voxel>) -> Seq<u32> {
    v.map_values(|c: Voxel| c.0)
}

/// Whether cell `(i, j, k)` of a grid of edge `n` lies in the ball inscribed
/// in the grid: its doubled position, taken from the doubled center `n`, is
/// at most `n - 1` long.
pub open spec fn in_sphere(n: int, i: int, j: int, k: int) -> bool {
    (2 * i - n) * (2 * i - n) + (2 * j - n) * (2 * j - n) + (2 * k - n) * (2 * k - n) <= (n - 1) * (
    n - 1)
}

/// A voxel with the color levels `c` OR-ed in.
pub open spec fn painted(v: Voxel, c: (u32, u32, u32)) -> Voxel {
    Voxel(with_color(v.0, c.0, c.1, c.2))
}

/// Whether `(x, y, z)` comes before `(i, j, k)` in row-major order.
pub open spec fn lex_before(x: nat, y: nat, z: nat, i: nat, j: nat, k: nat) -> bool {
    x < i || (x == i && (y < j || (y == j && z < k)))
}

/// Whether cell `(i, j, k)` of a grid of edge `n` lies in the inscribed ball.
pub fn sphere_contains(n: u32, i: u32, j: u32, k: u32) -> (r: bool)
    ensures
        r == in_sphere(n as int, i as int, j as int, k as int),
{
    let a: i128 = 2 * (i as i128) - n as i128;
    let b: i128 = 2 * (j as i128) - n as i128;
    let c: i128 = 2 * (k as i128) - n as i128;
    let m: i128 = n as i128 - 1;
    proof {
        lemma_square_bound(a as int);
        lemma_square_bound(b as int);
        lemma_square_bound(c as int);
        lemma_square_bound(m as int);
    }
    a * a + b * b + c * c <= m * m
}

/// Squares of numbers up to `2^33` in size stay below `2^66`.
proof fn lemma_square_bound(a: int)
    requires
        -0x2_0000_0000 <= a <= 0x2_0000_0000,
    ensures
        0 <= a * a <= 0x4_0000_0000_0000_0000,
{
    assert(0 <= a * a <= 0x4_0000_0000_0000_0000) by (nonlinear_arith)
        requires
            -0x2_0000_0000 <= a <= 0x2_0000_0000,
    ;
}

/// A dense cubic grid of voxels in row-major order, with the header that
/// the compute passes read: its dimension, its world position, the selected
/// cell and a surface normal.
#[derive(Clone, Debug)]
pub struct VoxelGrid {
    dim: u32,
    pos: Vec3Bits,
    selected: Vec3Bits,
    normal: Vec3Bits,
    voxels: Vec<Voxel>,
}

impl View for VoxelGrid {
    type V = Seq<Voxel>;

    /// The voxels in row-major order.
    closed spec fn view(&self) -> Seq<Voxel> {
        self.voxels@
    }
}

impl VoxelGrid {
    /// Edge length of the grid.
    pub closed spec fn spec_dim(&self) -> nat {
        self.dim as nat
    }

    /// The upload header of the grid.
    pub closed spec fn spec_header(&self) -> Seq<u32> {
        header_words(self.dim, self.pos, self.selected, self.normal)
    }

    /// The grid holds `dim³` voxels, a count that fits in 32 bits.
    pub closed spec fn wf(&self) -> bool {
        &&& self.voxels@.len() == cube(self.dim as nat)
        &&& cube(self.dim as nat) <= u32::MAX
    }

    /// A grid of edge `dim` at `pos`, all voxels empty, with no selected cell
    /// and a zero normal.
    pub fn new(dim: u32, pos: Vec3Bits) -> (r: VoxelGrid)
        requires
            cube(dim as nat) <= u32::MAX,
        ensures
            r.wf(),
            r.spec_dim() == dim,
            r@ == Seq::new(cube(dim as nat), |i: int| Voxel(0)),
            r.spec_header() == header_words(
                dim,
                pos,
                Vec3Bits { x: MINUS_ONE_BITS, y: MINUS_ONE_BITS, z: MINUS_ONE_BITS },
                Vec3Bits { x: ZERO_BITS, y: ZERO_BITS, z: ZERO_BITS },
            ),
    {
        proof {
            lemma_square_fits(dim as nat);
        }
        let total = (dim * dim * dim) as usize;
        let voxels = vec![Voxel(0); total];
        let r = VoxelGrid {
            dim,
            pos,
            selected: Vec3Bits { x: MINUS_ONE_BITS, y: MINUS_ONE_BITS, z: MINUS_ONE_BITS },
            normal: Vec3Bits { x: ZERO_BITS, y: ZERO_BITS, z: ZERO_BITS },
            voxels,
        };
        assert(r@ =~= Seq::new(cube(dim as nat), |i: int| Voxel(0)));
        r
    }

    /// Number of voxels, `dim³`.
    pub fn total(&self) -> (r: usize)
        requires
            self.wf(),
        ensures
            r == cube(self.spec_dim()),
            r == self@.len(),
    {
        proof {
            lemma_square_fits(self.dim as nat);
        }
        (self.dim * self.dim * self.dim) as usize
    }

    /// The voxel at `(x, y, z)`, or `None` when any coordinate is `dim` or
    /// more.
    pub fn get(&self, x: u32, y: u32, z: u32) -> (r: Option<&Voxel>)
        requires
            self.wf(),
        ensures
            r.is_some() == (x < self.spec_dim() && y < self.spec_dim() && z < self.spec_dim()),
            r.is_some() ==> *r.unwrap() == self@[cell_index(
                self.spec_dim(),
                x as nat,
                y as nat,
                z as nat,
            ) as int],
    {
        if x < self.dim && y < self.dim && z < self.dim {
            proof {
                lemma_index_bound(self.dim as nat, x as nat, y as nat, z as nat);
            }
            let index = (x * self.dim * self.dim) + (y * self.dim) + z;
            Some(&self.voxels[index as usize])
        } else {
            None
        }
    }

    /// The voxel at `(x, y, z)` for changing, or `None` when any coordinate is
    /// `dim` or more.
    pub fn get_mut(&mut self, x: u32, y: u32, z: u32) -> (r: Option<&mut Voxel>)
        requires
            old(self).wf(),
        ensures
            r.is_some() == (x < old(self).spec_dim() && y < old(self).spec_dim() && z < old(
                self,
            ).spec_dim()),
            r.is_none() ==> *final(self) == *old(self),
            r.is_some() ==> {
                let i = cell_index(old(self).spec_dim(), x as nat, y as nat, z as nat) as int;
                &&& *r.unwrap() == old(self)@[i]
                &&& final(self)@ == old(self)@.update(i, *final(r.unwrap()))
                &&& final(self).wf()
                &&& final(self).spec_dim() == old(self).spec_dim()
                &&& final(self).spec_header() == old(self).spec_header()
            },
    {
        if x < self.dim && y < self.dim && z < self.dim {
            proof {
                lemma_index_bound(self.dim as nat, x as nat, y as nat, z as nat);
            }
            let index = (x * self.dim * self.dim) + (y * self.dim) + z;
            Some(&mut self.voxels[index as usize])
        } else {
            None
        }
    }

    /// ORs the color levels `colors[p]` into each voxel `p` whose cell lies
    /// in the ball inscribed in the grid; the other voxels are kept.
    pub fn fill_sphere(&mut self, colors: &Vec<(u32, u32, u32)>)
        requires
            old(self).wf(),
            colors@.len() == old(self)@.len(),
        ensures
            final(self).wf(),
            final(self).spec_dim() == old(self).spec_dim(),
            final(self).spec_header() == old(self).spec_header(),
            final(self)@.len() == old(self)@.len(),
            forall|x: nat, y: nat, z: nat|
                x < old(self).spec_dim() && y < old(self).spec_dim() && z < old(self).spec_dim()
                    ==> {
                    let p = #[trigger] cell_index(old(self).spec_dim(), x, y, z) as int;
                    final(self)@[p] == if in_sphere(old(self).spec_dim() as int, x as int, y as int, z as int) {
                        painted(old(self)@[p], colors@[p])
                    } else {
                        old(self)@[p]
                    }
                },
    {
        let d = self.dim;
        let ghost dn = d as nat;
        let ghost orig = self.voxels@;
        let mut i: u32 = 0;
        while i < d
            invariant
                self.dim == d,
                dn == d as nat,
                self.wf(),
                self.spec_header() == old(self).spec_header(),
                orig == old(self)@,
                colors@.len() == orig.len(),
                self.voxels@.len() == orig.len(),
                i <= d,
                forall|x: nat, y: nat, z: nat|
                    x < dn && y < dn && z < dn ==> {
                        let p = #[trigger] cell_index(dn, x, y, z) as int;
                        self.voxels@[p] == if lex_before(x, y, z, i as nat, 0, 0) && in_sphere(dn as int, x as int, y as int, z as int) {
                            painted(orig[p], colors@[p])
                        } else {
                            orig[p]
                        }
                    },
            decreases d - i,
        {
            let mut j: u32 = 0;
            while j < d
                invariant
                    self.dim == d,
                    dn == d as nat,
                    self.wf(),
                    self.spec_header() == old(self).spec_header(),
                    orig == old(self)@,
                    colors@.len() == orig.len(),
                    self.voxels@.len() == orig.len(),
                    i < d,
                    j <= d,
                    forall|x: nat, y: nat, z: nat|
                        x < dn && y < dn && z < dn ==> {
                            let p = #[trigger] cell_index(dn, x, y, z) as int;
                            self.voxels@[p] == if lex_before(x, y, z, i as nat, j as nat, 0) && in_sphere(dn as int, x as int, y as int, z as int) {
                                painted(orig[p], colors@[p])
                            } else {
                                orig[p]
                            }
                        },
                decreases d - j,
            {
                let mut k: u32 = 0;
                while k < d
                    invariant
                        self.dim == d,
                        dn == d as nat,
                        self.wf(),
                        self.spec_header() == old(self).spec_header(),
                        orig == old(self)@,
                        colors@.len() == orig.len(),
                        self.voxels@.len() == orig.len(),
                        i < d,
                        j < d,
                        k <= d,
                        forall|x: nat, y: nat, z: nat|
                            x < dn && y < dn && z < dn ==> {
                                let p = #[trigger] cell_index(dn, x, y, z) as int;
                                self.voxels@[p] == if lex_before(x, y, z, i as nat, j as nat, k as nat) && in_sphere(dn as int, x as int, y as int, z as int) {
                                    painted(orig[p], colors@[p])
                                } else {
                                    orig[p]
                                }
                            },
                    decreases d - k,
                {
                    proof {
                        lemma_index_bound(dn, i as nat, j as nat, k as nat);
                    }
                    let index = ((i * d * d) + (j * d) + k) as usize;
                    let ghost before = self.voxels@;
                    if sphere_contains(d, i, j, k) {
                        let c = colors[index];
                        let mut v = self.voxels[index];
                        v.set_color(c.0, c.1, c.2);
                        self.voxels.set(index, v);
                    }
                    proof {
                        let ci = cell_index(dn, i as nat, j as nat, k as nat);
                        assert(index == ci);
                        assert(before[ci as int] == orig[ci as int]);
                        assert forall|x: nat, y: nat, z: nat|
                            x < dn && y < dn && z < dn implies {
                                let p = #[trigger] cell_index(dn, x, y, z) as int;
                                self.voxels@[p] == if lex_before(x, y, z, i as nat, j as nat, (k + 1) as nat) && in_sphere(dn as int, x as int, y as int, z as int) {
                                    painted(orig[p], colors@[p])
                                } else {
                                    orig[p]
                                }
                            } by {
                            lemma_index_bound(dn, x, y, z);
                            if !(x == i && y == j && z == k) {
                                if lex_before(x, y, z, i as nat, j as nat, k as nat) {
                                    lemma_index_order(dn, x, y, z, i as nat, j as nat, k as nat);
                                } else {
                                    lemma_index_order(dn, i as nat, j as nat, k as nat, x, y, z);
                                }
                            }
                        }
                    }
                    k = k + 1;
                }
                j = j + 1;
            }
            i = i + 1;
        }
    }

    /// All voxels in row-major order.
    pub fn as_slice(&self) -> (r: &[Voxel])
        ensures
            r@ == self@,
    {
        self.voxels.as_slice()
    }

    /// The grid as the compute passes read it: the header, then the packed
    /// voxels in row-major order.
    pub fn to_upload_words(&self) -> (r: Vec<u32>)
        requires
            self.wf(),
        ensures
            r@ == self.spec_header() + voxel_words(self@),
    {
        let mut words: Vec<u32> = Vec::new();
        words.push(self.dim);
        words.push(0);
        words.push(0);
        words.push(0);
        words.push(self.pos.x);
        words.push(self.pos.y);
        words.push(self.pos.z);
        words.push(0);
        words.push(self.selected.x);
        words.push(self.selected.y);
        words.push(self.selected.z);
        words.push(0);
        words.push(self.normal.x);
        words.push(self.normal.y);
        words.push(self.normal.z);
        words.push(0);
        let ghost header = words@;
        assert(header =~= self.spec_header());
        let mut i: usize = 0;
        while i < self.voxels.len()
            invariant
                i <= self.voxels@.len(),
                words@ =~= header + voxel_words(self.voxels@.subrange(0, i as int)),
            decreases self.voxels@.len() - i,
        {
            words.push(self.voxels[i].0);
            i = i + 1;
            assert(self.voxels@.subrange(0, i as int) =~= self.voxels@.subrange(0, i - 1).push(
                self.voxels@[i - 1],
            ));
        }
        assert(self.voxels@.subrange(0, i as int) =~= self.voxels@);
        words
    }
}

/// Row-major order and position order agree.
proof fn lemma_index_order(d: nat, x: nat, y: nat, z: nat, a: nat, b: nat, c: nat)
    requires
        x < d,
        y < d,
        z < d,
        a < d,
        b < d,
        c < d,
        lex_before(x, y, z, a, b, c),
    ensures
        cell_index(d, x, y, z) < cell_index(d, a, b, c),
{
    assert(y * d + z < d * d) by (nonlinear_arith)
        requires
            y < d,
            z < d,
    ;
    if x < a {
        assert(x * d * d + d * d <= a * d * d) by (nonlinear_arith)
            requires
                x < a,
        ;
        assert(0 <= b * d) by (nonlinear_arith);
    } else if y < b {
        assert(y * d + d <= b * d) by (nonlinear_arith)
            requires
                y < b,
        ;
    }
}

/// The square of an edge whose cube fits in 32 bits fits too.
proof fn lemma_square_fits(d: nat)
    requires
        cube(d) <= u32::MAX,
    ensures
        d * d <= cube(d),
        d <= d * d || d == 0,
{
    if d > 0 {
        assert(d * d <= d * d * d) by (nonlinear_arith)
            requires
                d > 0,
        ;
        assert(d <= d * d) by (nonlinear_arith)
            requires
                d > 0,
        ;
    } else {
        assert(d * d * d == 0 && d * d == 0) by (nonlinear_arith)
            requires
                d == 0,
        ;
    }
}

/// A cell inside the grid has a position below `d³`.
proof fn lemma_index_bound(d: nat, x: nat, y: nat, z: nat)
    requires
        x < d,
        y < d,
        z < d,
    ensures
        x * d <= x * d * d,
        cell_index(d, x, y, z) < cube(d),
        x * d * d + y * d < cube(d),
{
    assert(x * d <= x * d * d) by (nonlinear_arith)
        requires
            x < d,
    ;
    assert(x * d * d <= (d - 1) * d * d) by (nonlinear_arith)
        requires
            x < d,
    ;
    assert(y * d <= (d - 1) * d) by (nonlinear_arith)
        requires
            y < d,
    ;
    assert((d - 1) * d * d + (d - 1) * d + (d - 1) < d * d * d) by (nonlinear_arith)
        requires
            d > 0,
    ;
}

/// Setting the color of a voxel whose color bits are clear, then reading it
/// back, gives the levels that were set, each limited to its field; the type
/// byte is kept.
pub proof fn lemma_color_round_trip(v: u32, r: u32, g: u32, b: u32)
    requires
        red_of(v) == 0,
        green_of(v) == 0,
        blue_of(v) == 0,
    ensures
        red_of(with_color(v, r, g, b)) == clamp(r, 31),
        green_of(with_color(v, r, g, b)) == clamp(g, 63),
        blue_of(with_color(v, r, g, b)) == clamp(b, 31),
        type_of(with_color(v, r, g, b)) == type_of(v),
{
    let (cr, cg, cb) = (clamp(r, 31), clamp(g, 63), clamp(b, 31));
    assert(red_of(v | (cr << 27u32) | (cg << 21u32) | (cb << 16u32)) == cr && green_of(
        v | (cr << 27u32) | (cg << 21u32) | (cb << 16u32),
    ) == cg && blue_of(v | (cr << 27u32) | (cg << 21u32) | (cb << 16u32)) == cb && type_of(
        v | (cr << 27u32) | (cg << 21u32) | (cb << 16u32),
    ) == type_of(v)) by (bit_vector)
        requires
            red_of(v) == 0,
            green_of(v) == 0,
            blue_of(v) == 0,
            cr <= 31,
            cg <= 63,
            cb <= 31,
    ;
}

} // verus!
