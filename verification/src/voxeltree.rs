//! A dense voxel volume and an octree summarising it.
use vstd::prelude::*;

verus! {

/// No face is visible.
pub const F_NONE: u8 = 0x00;
/// Face towards `z - 1`.
pub const F_FRONT: u8 = 0x01;
/// Face towards `y - 1`.
pub const F_TOP: u8 = 0x02;
/// Face towards `z + 1`.
pub const F_BACK: u8 = 0x04;
/// Face towards `x - 1`.
pub const F_LEFT: u8 = 0x08;
/// Face towards `x + 1`.
pub const F_RIGHT: u8 = 0x10;
/// Face towards `y + 1`.
pub const F_BOTTOM: u8 = 0x20;

/// A colour that voxels can carry. One colour value marks "no voxel here".
pub trait VoxelColor: Sized + Copy {
    /// The colour of an empty voxel.
    spec fn empty_color() -> Self;

    /// Returns the colour of an empty voxel.
    fn default_color() -> (c: Self)
        ensures
            c == Self::empty_color(),
    ;

    /// Compares two colours.
    fn same_color(&self, other: &Self) -> (b: bool)
        ensures
            b == (*self == *other),
    ;
}

impl VoxelColor for u8 {
    open spec fn empty_color() -> u8 {
        0
    }

    fn default_color() -> (c: u8) {
        0
    }

    fn same_color(&self, other: &u8) -> (b: bool) {
        *self == *other
    }
}

/// A single voxel: its colour and the set of faces (bit mask) that border
/// empty space or the volume's edge. Along y and z a voxel at the low
/// edge counts only that face, not also the high one, so in a volume of
/// edge 1 the bottom and back faces are not set.
#[derive(Clone, Copy, Debug, PartialEq)]
pub struct Voxel<C: VoxelColor> {
    pub color: C,
    pub faces: u8,
}

impl<C: VoxelColor> Voxel<C> {
    /// The voxel that a fresh volume is filled with.
    pub open spec fn blank() -> Voxel<C> {
        Voxel { color: C::empty_color(), faces: 0 }
    }
}

impl<C: VoxelColor> Default for Voxel<C> {
    fn default() -> (v: Self)
        ensures
            v == Voxel::<C>::blank(),
    {
        Voxel { color: C::default_color(), faces: 0 }
    }
}

impl From<u8> for Voxel<u8> {
    fn from(c: u8) -> (v: Voxel<u8>) {
        Voxel { color: c, faces: 0 }
    }
}

impl vstd::std_specs::convert::FromSpecImpl<u8> for Voxel<u8> {
    open spec fn obeys_from_spec() -> bool {
        true
    }

    open spec fn from_spec(c: u8) -> Voxel<u8> {
        Voxel { color: c, faces: 0 }
    }
}

/// The face mask that a corner of the unit cube at (`x`, `y`, `z`) sees.
/// Every corner reports all faces.
pub fn xyz2facemask(x: u16, y: u16, z: u16) -> (mask: u8)
    ensures
        mask == 0xFF,
{
    let mut mask: u8 = F_NONE;
    if x == 0 {
        mask = mask | F_LEFT;
    } else {
        mask = mask | F_RIGHT;
    }
    if y == 0 {
        mask = mask | F_TOP;
    } else {
        mask = mask | F_BOTTOM;
    }
    if z == 0 {
        mask = mask | F_FRONT;
    } else {
        mask = mask | F_BACK;
    }
    mask = 0xFF;
    mask
}

/// The bit mask built from six face flags.
pub open spec fn face_bits(
    front: bool,
    top: bool,
    back: bool,
    left: bool,
    right: bool,
    bottom: bool,
) -> u8 {
    (if front { F_FRONT } else { 0u8 }) | (if top { F_TOP } else { 0u8 }) | (if back {
        F_BACK
    } else {
        0u8
    }) | (if left { F_LEFT } else { 0u8 }) | (if right { F_RIGHT } else { 0u8 }) | (if bottom {
        F_BOTTOM
    } else {
        0u8
    })
}

fn make_face_bits(
    front: bool,
    top: bool,
    back: bool,
    left: bool,
    right: bool,
    bottom: bool,
) -> (m: u8)
    ensures
        m == face_bits(front, top, back, left, right, bottom),
{
    (if front { F_FRONT } else { 0u8 }) | (if top { F_TOP } else { 0u8 }) | (if back {
        F_BACK
    } else {
        0u8
    }) | (if left { F_LEFT } else { 0u8 }) | (if right { F_RIGHT } else { 0u8 }) | (if bottom {
        F_BOTTOM
    } else {
        0u8
    })
}


/// `b` raised to the `e`-th power.
pub open spec fn exp(b: nat, e: nat) -> nat
    decreases e,
{
    if e == 0 {
        1
    } else {
        b * exp(b, (e - 1) as nat)
    }
}

pub proof fn lemma_exp_pos(b: nat, e: nat)
    requires
        b >= 1,
    ensures
        exp(b, e) >= 1,
    decreases e,
{
    if e > 0 {
        lemma_exp_pos(b, (e - 1) as nat);
        assert(b * exp(b, (e - 1) as nat) >= 1) by (nonlinear_arith)
            requires
                b >= 1,
                exp(b, (e - 1) as nat) >= 1,
        ;
    }
}

pub proof fn lemma_exp_mono(b: nat, e1: nat, e2: nat)
    requires
        b >= 1,
        e1 <= e2,
    ensures
        exp(b, e1) <= exp(b, e2),
    decreases e2,
{
    if e1 < e2 {
        lemma_exp_mono(b, e1, (e2 - 1) as nat);
        lemma_exp_pos(b, (e2 - 1) as nat);
        assert(exp(b, (e2 - 1) as nat) <= b * exp(b, (e2 - 1) as nat)) by (nonlinear_arith)
            requires
                b >= 1,
        ;
    }
}

/// Computes `base` to the power `e`; the result must fit a `usize`.
fn pow_usize(base: usize, e: u32) -> (r: usize)
    requires
        base >= 1,
        exp(base as nat, e as nat) <= usize::MAX,
    ensures
        r == exp(base as nat, e as nat),
{
    let mut r: usize = 1;
    let mut i: u32 = 0;
    while i < e
        invariant
            i <= e,
            base >= 1,
            r == exp(base as nat, i as nat),
            exp(base as nat, e as nat) <= usize::MAX,
        decreases e - i,
    {
        proof {
            lemma_exp_mono(base as nat, (i + 1) as nat, e as nat);
        }
        assert(exp(base as nat, (i + 1) as nat) == base * exp(base as nat, i as nat));
        r = base * r;
        i = i + 1;
    }
    r
}

/// A voxel position inside a volume.
#[derive(Clone, Copy, Debug, PartialEq)]
pub struct Pos {
    pub x: u16,
    pub y: u16,
    pub z: u16,
}

impl Default for Pos {
    fn default() -> (p: Self)
        ensures
            p == (Pos { x: 0, y: 0, z: 0 }),
    {
        Pos { x: 0, y: 0, z: 0 }
    }
}

impl Pos {
    pub fn new(x: u16, y: u16, z: u16) -> (p: Self)
        ensures
            p == (Pos { x, y, z }),
    {
        Pos { x, y, z }
    }

    /// The position moved by the given offsets.
    pub fn offs(&self, xo: u16, yo: u16, zo: u16) -> (p: Self)
        requires
            self.x + xo <= u16::MAX,
            self.y + yo <= u16::MAX,
            self.z + zo <= u16::MAX,
        ensures
            p.x == self.x + xo,
            p.y == self.y + yo,
            p.z == self.z + zo,
    {
        Pos { x: self.x + xo, y: self.y + yo, z: self.z + zo }
    }

    /// The position scaled by `m`.
    pub fn mul(&self, m: u16) -> (p: Self)
        requires
            self.x * m <= u16::MAX,
            self.y * m <= u16::MAX,
            self.z * m <= u16::MAX,
        ensures
            p.x == self.x * m,
            p.y == self.y * m,
            p.z == self.z * m,
    {
        Pos { x: self.x * m, y: self.y * m, z: self.z * m }
    }
}

/// A node's place in the flattened octree: the offset of its level in the
/// node array, the level, and its coordinates within that level.
#[derive(Clone, Copy, Debug, PartialEq)]
pub struct TreePos {
    pub offs: usize,
    pub level: usize,
    pub x: u8,
    pub y: u8,
    pub z: u8,
}

impl Default for TreePos {
    fn default() -> (t: Self)
        ensures
            t == TreePos::root(),
    {
        TreePos { offs: 0, level: 0, x: 0, y: 0, z: 0 }
    }
}

/// Doubles a level coordinate the way an 8-bit left shift does.
pub open spec fn shl1(v: u8) -> int {
    (v * 2) % 256
}

proof fn lemma_shl1(v: u8)
    ensures
        (v << 1u8) as int == shl1(v),
        shl1(v) <= 254,
{
    assert((v << 1u8) as int == (v * 2) % 256) by (bit_vector);
    assert((v * 2) % 256 <= 254) by (bit_vector);
}

impl TreePos {
    /// The root of the tree.
    pub open spec fn root() -> TreePos {
        TreePos { offs: 0, level: 0, x: 0, y: 0, z: 0 }
    }

    /// The number of nodes by which the next level's offset advances.
    pub open spec fn step(self) -> nat {
        if self.level == 0 {
            1
        } else {
            exp(8, (#[verifier::truncate] (self.level as u32)) as nat)
        }
    }

    /// The conditions under which `lvl_offs` computes without overflow.
    pub open spec fn lvl_offs_ok(self, xo: u8, yo: u8, zo: u8) -> bool {
        &&& self.step() <= usize::MAX
        &&& self.offs + self.step() <= usize::MAX
        &&& self.level + 1 <= usize::MAX
        &&& shl1(self.x) + xo <= u8::MAX
        &&& shl1(self.y) + yo <= u8::MAX
        &&& shl1(self.z) + zo <= u8::MAX
    }

    /// The child position `lvl_offs` returns.
    pub open spec fn child(self, xo: u8, yo: u8, zo: u8) -> TreePos {
        TreePos {
            offs: (self.offs + self.step()) as usize,
            level: (self.level + 1) as usize,
            x: (shl1(self.x) + xo) as u8,
            y: (shl1(self.y) + yo) as u8,
            z: (shl1(self.z) + zo) as u8,
        }
    }

    /// The edge length of this node's level, in nodes.
    pub open spec fn edge(self) -> nat {
        exp(2, (#[verifier::truncate] (self.level as u32)) as nat)
    }

    /// The conditions under which `idx` computes without overflow.
    pub open spec fn idx_ok(self) -> bool {
        self.level == 0 || (self.edge() <= usize::MAX && self.index() <= usize::MAX)
    }

    /// The node array index that `idx` returns.
    pub open spec fn index(self) -> int {
        if self.level == 0 {
            0
        } else {
            self.offs + self.z * self.edge() * self.edge() + self.y * self.edge() + self.x
        }
    }

    pub fn new() -> (t: Self)
        ensures
            t == TreePos::root(),
    {
        TreePos { offs: 0, level: 0, x: 0, y: 0, z: 0 }
    }

    /// The position of the child at (`xo`, `yo`, `zo`) on the next level.
    pub fn lvl_offs(&self, xo: u8, yo: u8, zo: u8) -> (t: Self)
        requires
            self.lvl_offs_ok(xo, yo, zo),
        ensures
            t == self.child(xo, yo, zo),
    {
        let add_offs = if self.level == 0 {
            1
        } else {
            proof {
                lemma_exp_pos(8, (#[verifier::truncate] (self.level as u32)) as nat);
            }
            pow_usize(8, #[verifier::truncate] (self.level as u32))
        };
        proof {
            lemma_shl1(self.x);
            lemma_shl1(self.y);
            lemma_shl1(self.z);
        }
        TreePos {
            offs: self.offs + add_offs,
            level: self.level + 1,
            x: (self.x << 1u8) + xo,
            y: (self.y << 1u8) + yo,
            z: (self.z << 1u8) + zo,
        }
    }

    /// The index of this node in the flattened node array.
    pub fn idx(&self) -> (i: usize)
        requires
            self.idx_ok(),
        ensures
            i == self.index(),
    {
        if self.level == 0 {
            return 0;
        }
        let edge_size = pow_usize(2, #[verifier::truncate] (self.level as u32));
        let ghost e = edge_size as int;
        let ghost z = self.z as int;
        let ghost y = self.y as int;
        proof {
            lemma_exp_pos(2, (#[verifier::truncate] (self.level as u32)) as nat);
            assert(0 <= z * e * e) by (nonlinear_arith)
                requires
                    0 <= z,
                    0 <= e,
            ;
            assert(0 <= y * e) by (nonlinear_arith)
                requires
                    0 <= y,
                    0 <= e,
            ;
            assert(z * e <= z * e * e) by (nonlinear_arith)
                requires
                    0 <= z,
                    1 <= e,
            ;
        }
        self.offs + self.z as usize * edge_size * edge_size + self.y as usize * edge_size
            + self.x as usize
    }
}

/// The linear index of (`x`, `y`, `z`) in a volume of edge length `size`.
pub open spec fn vox_index(size: int, x: int, y: int, z: int) -> int {
    z * size * size + y * size + x
}

pub proof fn lemma_index_parts(s: int, y: int, z: int)
    requires
        s >= 0,
        y >= 0,
        z >= 0,
    ensures
        0 <= z * s,
        z * s <= z * s * s,
        0 <= y * s,
        (y + 1) * s == y * s + s,
        (z + 1) * s * s == z * s * s + s * s,
        (z - 1) * s * s == z * s * s - s * s,
        (y - 1) * s == y * s - s,
        0 <= s * s,
        (z + 1) * s <= (z + 1) * s * s,
        z >= 1 ==> (z - 1) * s <= (z - 1) * s * s,
{
    assert((z + 1) * s <= (z + 1) * s * s) by (nonlinear_arith)
        requires
            s >= 0,
            z >= 0,
    ;
    assert(z >= 1 ==> (z - 1) * s <= (z - 1) * s * s) by (nonlinear_arith)
        requires
            s >= 0,
    ;
    assert(0 <= z * s) by (nonlinear_arith)
        requires
            s >= 0,
            z >= 0,
    ;
    assert(z * s <= z * s * s) by (nonlinear_arith)
        requires
            s >= 0,
            z >= 0,
    ;
    assert(0 <= y * s) by (nonlinear_arith)
        requires
            s >= 0,
            y >= 0,
    ;
    assert((y + 1) * s == y * s + s) by (nonlinear_arith);
    assert((z + 1) * s * s == z * s * s + s * s) by (nonlinear_arith);
    assert((z - 1) * s * s == z * s * s - s * s) by (nonlinear_arith);
    assert((y - 1) * s == y * s - s) by (nonlinear_arith);
    assert(0 <= s * s) by (nonlinear_arith)
        requires
            s >= 0,
    ;
}

/// The conditions under which `Vol::get` at `p` reads only stored voxels,
/// for a volume of edge length `s` holding `len` voxels.
pub open spec fn get_ok_at(s: int, len: int, p: Pos) -> bool {
    let i = vox_index(s, p.x as int, p.y as int, p.z as int);
    let last = (#[verifier::truncate] ((s - 1) as u16));
    &&& s >= 1
    &&& i < len
    &&& p.x < last ==> i + 1 < len
    &&& p.y < last ==> i + s < len
    &&& p.z < last ==> i + s * s < len
}

/// A dense cube of voxels, stored z-major, then y, then x.
#[derive(Clone, Debug, PartialEq)]
pub struct Vol<C: VoxelColor> {
    pub size: usize,
    pub data: Vec<Voxel<C>>,
}

/// The colour of each voxel, in storage order.
pub open spec fn colors_of<C: VoxelColor>(data: Seq<Voxel<C>>) -> Seq<C> {
    Seq::new(data.len(), |i: int| data[i].color)
}

/// The faces that `Vol::get` reports for the voxel at `p`, given the
/// colours of a volume of edge length `size`.
pub open spec fn face_mask<C: VoxelColor>(colors: Seq<C>, size: int, p: Pos) -> u8 {
    let i = vox_index(size, p.x as int, p.y as int, p.z as int);
    let last = (#[verifier::truncate] ((size - 1) as u16));
    let e = C::empty_color();
    face_bits(
        p.z == 0 || (p.z > 0 && colors[i - size * size] == e),
        p.y == 0 || (p.y > 0 && colors[i - size] == e),
        (p.z != 0 && p.z == last) || (p.z < last && colors[i + size * size] == e),
        p.x == 0 || (p.x > 0 && colors[i - 1] == e),
        p.x == last || (p.x < last && colors[i + 1] == e),
        (p.y != 0 && p.y == last) || (p.y < last && colors[i + size] == e),
    )
}

impl<C: VoxelColor> Vol<C> {
    /// The data holds exactly `size`³ voxels.
    pub open spec fn wf(&self) -> bool {
        self.data@.len() == self.size * self.size * self.size
    }

    /// The linear index of `p` in this volume.
    pub open spec fn index_of(&self, p: Pos) -> int {
        vox_index(self.size as int, p.x as int, p.y as int, p.z as int)
    }

    /// `p` addresses a stored voxel.
    pub open spec fn holds(&self, p: Pos) -> bool {
        self.index_of(p) < self.data@.len()
    }

    /// The colours of all voxels, in storage order.
    pub open spec fn colors(&self) -> Seq<C> {
        colors_of(self.data@)
    }

    /// The conditions under which `get` reads only stored voxels.
    pub open spec fn get_ok(&self, p: Pos) -> bool {
        get_ok_at(self.size as int, self.data@.len() as int, p)
    }

    /// A volume of edge length `size` filled with blank voxels.
    pub fn new(size: usize) -> (v: Self)
        requires
            size * size * size <= usize::MAX,
        ensures
            v.size == size,
            v.wf(),
            forall|i: int| 0 <= i < v.data@.len() ==> #[trigger] v.data@[i] == Voxel::<C>::blank(),
    {
        proof {
            lemma_index_parts(size as int, 0, size as int);
        }
        let n = size * size * size;
        let mut data: Vec<Voxel<C>> = Vec::new();
        let blank: Voxel<C> = Voxel::default();
        let mut k: usize = 0;
        while k < n
            invariant
                k <= n,
                data@.len() == k,
                blank == Voxel::<C>::blank(),
                forall|i: int| 0 <= i < k ==> #[trigger] data@[i] == Voxel::<C>::blank(),
            decreases n - k,
        {
            data.push(blank);
            k = k + 1;
        }
        Vol { size, data }
    }

    /// Stores `v` at (`x`, `y`, `z`).
    pub fn set(&mut self, x: u16, y: u16, z: u16, v: Voxel<C>)
        requires
            old(self).holds(Pos { x, y, z }),
        ensures
            final(self).size == old(self).size,
            final(self).data@ == old(self).data@.update(old(self).index_of(Pos { x, y, z }), v),
    {
        proof {
            lemma_index_parts(self.size as int, y as int, z as int);
        }
        // The vector's length, a usize, bounds the index computed below.
        let _len = self.data.len();
        let i = z as usize * self.size * self.size + y as usize * self.size + x as usize;
        self.data.set(i, v);
    }

    /// The voxel at `pos`.
    pub fn at(&self, pos: Pos) -> (r: &Voxel<C>)
        requires
            self.holds(pos),
        ensures
            *r == self.data@[self.index_of(pos)],
    {
        proof {
            lemma_index_parts(self.size as int, pos.y as int, pos.z as int);
        }
        let _len = self.data.len();
        &self.data[pos.z as usize * self.size * self.size + pos.y as usize * self.size
            + pos.x as usize]
    }

    fn is_empty_at(&self, i: usize) -> (b: bool)
        requires
            i < self.data@.len(),
        ensures
            b == (self.data@[i as int].color == C::empty_color()),
    {
        let clr_def = C::default_color();
        self.data[i].color.same_color(&clr_def)
    }

    /// Recomputes the face mask of the voxel at `pos` from the colours of
    /// its neighbours and returns the updated voxel.
    pub fn get(&mut self, pos: Pos) -> (r: &Voxel<C>)
        requires
            old(self).get_ok(pos),
        ensures
            final(self).size == old(self).size,
            final(self).data@ == old(self).data@.update(
                old(self).index_of(pos),
                Voxel {
                    color: old(self).data@[old(self).index_of(pos)].color,
                    faces: face_mask(old(self).colors(), old(self).size as int, pos),
                },
            ),
            *r == final(self).data@[old(self).index_of(pos)],
    {
        let size = self.size;
        let last: u16 = #[verifier::truncate] ((self.size - 1) as u16);
        let ghost s = size as int;
        proof {
            lemma_index_parts(s, pos.y as int, pos.z as int);
        }
        let _len = self.data.len();
        let i = pos.z as usize * size * size + pos.y as usize * size + pos.x as usize;
        let ghost cs = self.colors();
        assert(forall|j: int|
            0 <= j < self.data@.len() ==> (#[trigger] cs[j] == C::empty_color()) == (
            self.data@[j].color == C::empty_color()));

        let left = pos.x == 0 || (pos.x > 0 && self.is_empty_at(i - 1));
        let right = pos.x == last || (pos.x < last && self.is_empty_at(i + 1));
        let top = pos.y == 0 || (pos.y > 0 && self.is_empty_at(
            pos.z as usize * size * size + (pos.y as usize - 1) * size + pos.x as usize,
        ));
        let bottom = (pos.y != 0 && pos.y == last) || (pos.y < last && self.is_empty_at(
            pos.z as usize * size * size + (pos.y as usize + 1) * size + pos.x as usize,
        ));
        let front = pos.z == 0 || (pos.z > 0 && self.is_empty_at(
            (pos.z as usize - 1) * size * size + pos.y as usize * size + pos.x as usize,
        ));
        let back = (pos.z != 0 && pos.z == last) || (pos.z < last && self.is_empty_at(
            (pos.z as usize + 1) * size * size + pos.y as usize * size + pos.x as usize,
        ));
        let faces = make_face_bits(front, top, back, left, right, bottom);
        let color = self.data[i].color;
        let vox = Voxel { color, faces };
        self.data.set(i, vox);
        &self.data[i]
    }

    /// Stores `v` in every position of the box at (`x`, `y`, `z`) with
    /// extent (`w`, `h`, `d`).
    pub fn fill(&mut self, x: u16, y: u16, z: u16, w: u16, h: u16, d: u16, v: Voxel<C>)
        requires
            old(self).fill_ok(x, y, z, w, h, d),
        ensures
            final(self).size == old(self).size,
            final(self).data@.len() == old(self).data@.len(),
            forall|i: int|
                0 <= i < old(self).data@.len() ==> #[trigger] final(self).data@[i] == (if in_box(
                    old(self).size as int,
                    i,
                    x as int,
                    y as int,
                    z as int,
                    w as int,
                    h as int,
                    d as int,
                ) {
                    v
                } else {
                    old(self).data@[i]
                }),
    {
        let ghost s = self.size as int;
        let ghost old_data = self.data@;
        let mut zz: u16 = z;
        while zz < z + d
            invariant
                z <= zz <= z + d,
                z + d <= u16::MAX,
                self.size == s,
                self.data@.len() == old_data.len(),
                old(self).fill_ok(x, y, z, w, h, d),
                old(self).size == s,
                old(self).data@ == old_data,
                forall|i: int|
                    0 <= i < old_data.len() ==> #[trigger] self.data@[i] == (if in_box(
                        s,
                        i,
                        x as int,
                        y as int,
                        z as int,
                        w as int,
                        h as int,
                        (zz - z) as int,
                    ) {
                        v
                    } else {
                        old_data[i]
                    }),
            decreases z + d - zz,
        {
            let mut yy: u16 = y;
            while yy < y + h
                invariant
                    z <= zz < z + d,
                    y <= yy <= y + h,
                    y + h <= u16::MAX,
                    self.size == s,
                    self.data@.len() == old_data.len(),
                    old(self).fill_ok(x, y, z, w, h, d),
                    old(self).size == s,
                    old(self).data@ == old_data,
                    forall|i: int|
                        0 <= i < old_data.len() ==> #[trigger] self.data@[i] == (if in_box(
                            s,
                            i,
                            x as int,
                            y as int,
                            z as int,
                            w as int,
                            h as int,
                            (zz - z) as int,
                        ) || in_row_range(s, i, x as int, y as int, yy as int, zz as int, w as int) {
                            v
                        } else {
                            old_data[i]
                        }),
                decreases y + h - yy,
            {
                let mut xx: u16 = x;
                while xx < x + w
                    invariant
                        z <= zz < z + d,
                        y <= yy < y + h,
                        x <= xx <= x + w,
                        x + w <= u16::MAX,
                        self.size == s,
                        self.data@.len() == old_data.len(),
                        old(self).fill_ok(x, y, z, w, h, d),
                        old(self).size == s,
                        old(self).data@ == old_data,
                        forall|i: int|
                            0 <= i < old_data.len() ==> #[trigger] self.data@[i] == (if in_box(
                                s,
                                i,
                                x as int,
                                y as int,
                                z as int,
                                w as int,
                                h as int,
                                (zz - z) as int,
                            ) || in_row_range(s, i, x as int, y as int, yy as int, zz as int, w as int)
                                || in_row_range(s, i, x as int, yy as int, yy as int + 1, zz as int, (xx - x) as int) {
                                v
                            } else {
                                old_data[i]
                            }),
                    decreases x + w - xx,
                {
                    proof {
                        lemma_fill_point_holds(s, old_data.len() as int, x as int, y as int, z as int, w as int, h as int, d as int, xx as int, yy as int, zz as int);
                    }
                    self.set(xx, yy, zz, v);
                    proof {
                        let j = vox_index(s, xx as int, yy as int, zz as int);
                        assert forall|i: int| 0 <= i < old_data.len() implies #[trigger] self.data@[i] == (if in_box(
                                s,
                                i,
                                x as int,
                                y as int,
                                z as int,
                                w as int,
                                h as int,
                                (zz - z) as int,
                            ) || in_row_range(s, i, x as int, y as int, yy as int, zz as int, w as int)
                                || in_row_range(s, i, x as int, yy as int, yy as int + 1, zz as int, (xx + 1 - x) as int) {
                                v
                            } else {
                                old_data[i]
                            }) by {
                            if i == j {
                                assert(in_row_range(s, i, x as int, yy as int, yy as int + 1, zz as int, (xx + 1 - x) as int)) by {
                                    assert(i == vox_index(s, (x + (xx - x)) as int, yy as int, zz as int));
                                }
                            } else {
                                if in_row_range(s, i, x as int, yy as int, yy as int + 1, zz as int, (xx + 1 - x) as int) {
                                    let (a, b) = choose|a: int, b: int| 0 <= a < (xx + 1 - x) && yy <= b < yy + 1 && i == #[trigger] vox_index(s, x + a, b, zz as int);
                                    assert(b == yy);
                                    if a == xx - x {
                                        assert(false);
                                    }
                                    assert(in_row_range(s, i, x as int, yy as int, yy as int + 1, zz as int, (xx - x) as int));
                                }
                            }
                        }
                    }
                    xx = xx + 1;
                }
                proof {
                    assert forall|i: int| 0 <= i < old_data.len() implies #[trigger] self.data@[i] == (if in_box(
                            s,
                            i,
                            x as int,
                            y as int,
                            z as int,
                            w as int,
                            h as int,
                            (zz - z) as int,
                        ) || in_row_range(s, i, x as int, y as int, yy as int + 1, zz as int, w as int) {
                            v
                        } else {
                            old_data[i]
                        }) by {
                        lemma_rows_extend(s, i, x as int, y as int, yy as int, zz as int, w as int);
                    }
                }
                yy = yy + 1;
            }
            proof {
                assert forall|i: int| 0 <= i < old_data.len() implies #[trigger] self.data@[i] == (if in_box(
                        s,
                        i,
                        x as int,
                        y as int,
                        z as int,
                        w as int,
                        h as int,
                        (zz + 1 - z) as int,
                    ) {
                        v
                    } else {
                        old_data[i]
                    }) by {
                    lemma_box_extend(s, i, x as int, y as int, z as int, zz as int, w as int, h as int);
                }
            }
            zz = zz + 1;
        }
    }

    /// The conditions under which `fill` computes its loop bounds and
    /// addresses only stored voxels.
    pub open spec fn fill_ok(&self, x: u16, y: u16, z: u16, w: u16, h: u16, d: u16) -> bool {
        &&& z + d <= u16::MAX
        &&& d > 0 ==> y + h <= u16::MAX
        &&& d > 0 && h > 0 ==> x + w <= u16::MAX
        &&& d > 0 && h > 0 && w > 0 ==> vox_index(
            self.size as int,
            x + w - 1,
            y + h - 1,
            z + d - 1,
        ) < self.data@.len()
    }
}

/// Some position (`x`+a, `y`+b, `z`+c) with 0 <= a < `w`, 0 <= b < `h`,
/// 0 <= c < `d` has linear index `i`.
pub open spec fn in_box(s: int, i: int, x: int, y: int, z: int, w: int, h: int, d: int) -> bool {
    exists|a: int, b: int, c: int|
        0 <= a < w && 0 <= b < h && 0 <= c < d && i == #[trigger] vox_index(s, x + a, y + b, z + c)
}

/// Some position (`x`+a, b, `z`) with 0 <= a < `w` and `y0` <= b < `y1` has
/// linear index `i`.
pub open spec fn in_row_range(s: int, i: int, x: int, y0: int, y1: int, z: int, w: int) -> bool {
    exists|a: int, b: int| 0 <= a < w && y0 <= b < y1 && i == #[trigger] vox_index(s, x + a, b, z)
}

proof fn lemma_rows_extend(s: int, i: int, x: int, y: int, yy: int, z: int, w: int)
    requires
        y <= yy,
    ensures
        in_row_range(s, i, x, y, yy + 1, z, w) == (in_row_range(s, i, x, y, yy, z, w)
            || in_row_range(s, i, x, yy, yy + 1, z, w)),
{
    if in_row_range(s, i, x, y, yy + 1, z, w) {
        let (a, b) = choose|a: int, b: int| 0 <= a < w && y <= b < yy + 1 && i == #[trigger] vox_index(s, x + a, b, z);
        if b == yy {
            assert(in_row_range(s, i, x, yy, yy + 1, z, w));
        } else {
            assert(in_row_range(s, i, x, y, yy, z, w));
        }
    }
    if in_row_range(s, i, x, y, yy, z, w) {
        let (a, b) = choose|a: int, b: int| 0 <= a < w && y <= b < yy && i == #[trigger] vox_index(s, x + a, b, z);
        assert(i == vox_index(s, x + a, b, z));
    }
    if in_row_range(s, i, x, yy, yy + 1, z, w) {
        let (a, b) = choose|a: int, b: int| 0 <= a < w && yy <= b < yy + 1 && i == #[trigger] vox_index(s, x + a, b, z);
        assert(i == vox_index(s, x + a, b, z));
    }
}

proof fn lemma_box_extend(s: int, i: int, x: int, y: int, z: int, zz: int, w: int, h: int)
    requires
        z <= zz,
    ensures
        in_box(s, i, x, y, z, w, h, zz + 1 - z) == (in_box(s, i, x, y, z, w, h, zz - z)
            || in_row_range(s, i, x, y, y + h, zz, w)),
{
    if in_box(s, i, x, y, z, w, h, zz + 1 - z) {
        let (a, b, c) = choose|a: int, b: int, c: int|
            0 <= a < w && 0 <= b < h && 0 <= c < zz + 1 - z && i == #[trigger] vox_index(s, x + a, y + b, z + c);
        if c == zz - z {
            assert(i == vox_index(s, x + a, y + b, zz));
            assert(in_row_range(s, i, x, y, y + h, zz, w));
        } else {
            assert(in_box(s, i, x, y, z, w, h, zz - z));
        }
    }
    if in_box(s, i, x, y, z, w, h, zz - z) {
        let (a, b, c) = choose|a: int, b: int, c: int|
            0 <= a < w && 0 <= b < h && 0 <= c < zz - z && i == #[trigger] vox_index(s, x + a, y + b, z + c);
        assert(i == vox_index(s, x + a, y + b, z + c));
    }
    if in_row_range(s, i, x, y, y + h, zz, w) {
        let (a, b) = choose|a: int, b: int| 0 <= a < w && y <= b < y + h && i == #[trigger] vox_index(s, x + a, b, zz);
        assert(i == vox_index(s, x + a, y + (b - y), z + (zz - z)));
    }
}

proof fn lemma_index_mono(s: int, x1: int, y1: int, z1: int, x2: int, y2: int, z2: int)
    requires
        s >= 0,
        0 <= x1 <= x2,
        0 <= y1 <= y2,
        0 <= z1 <= z2,
    ensures
        vox_index(s, x1, y1, z1) <= vox_index(s, x2, y2, z2),
{
    assert(z1 * s * s <= z2 * s * s) by (nonlinear_arith)
        requires
            s >= 0,
            0 <= z1 <= z2,
    ;
    assert(y1 * s <= y2 * s) by (nonlinear_arith)
        requires
            s >= 0,
            0 <= y1 <= y2,
    ;
}

proof fn lemma_fill_point_holds(
    s: int,
    len: int,
    x: int,
    y: int,
    z: int,
    w: int,
    h: int,
    d: int,
    xx: int,
    yy: int,
    zz: int,
)
    requires
        s >= 0,
        0 <= x <= xx < x + w,
        0 <= y <= yy < y + h,
        0 <= z <= zz < z + d,
        vox_index(s, x + w - 1, y + h - 1, z + d - 1) < len,
    ensures
        vox_index(s, xx, yy, zz) < len,
{
    lemma_index_mono(s, xx, yy, zz, x + w - 1, y + h - 1, z + d - 1);
}

} // verus!
