use vstd::prelude::*;

verus! {

/// Fixed-point value of 1.0 in a material channel (16 fractional bits).
pub const CHANNEL_ONE: u32 = 65536;

/// Number of scalar channels of a material.
pub const CHANNELS: usize = 8;

#[derive(Clone, Copy, Debug, PartialEq, Eq, Structural)]
pub struct Rgba {
    pub r: u32,
    pub g: u32,
    pub b: u32,
    pub a: u32,
}

#[derive(Clone, Copy, Debug, PartialEq, Eq, Structural)]
pub struct Rgb {
    pub r: u32,
    pub g: u32,
    pub b: u32,
}

/// Surface description of a voxel. Every channel is a fixed-point number with
/// `CHANNEL_ONE` standing for 1.0; equality is exact, channel by channel.
#[derive(Clone, Copy, Debug, PartialEq, Eq, Structural)]
pub struct Material {
    pub color: Rgba,
    pub emissive_color: Rgb,
    pub emissive_strength: u32,
}

/// A material together with the volume it stands for.
#[derive(Clone, Copy, Debug, PartialEq, Eq, Structural)]
pub struct MaterialWeight {
    pub material: Material,
    pub weight: u64,
}

/// The default material: opaque black, no emission.
pub open spec fn default_material() -> Material {
    Material {
        color: Rgba { r: 0, g: 0, b: 0, a: CHANNEL_ONE },
        emissive_color: Rgb { r: 0, g: 0, b: 0 },
        emissive_strength: 0,
    }
}

/// Channel `c` of `m`, in the order colour r, g, b, a, emissive r, g, b, strength.
pub open spec fn channel(m: Material, c: int) -> int {
    if c == 0 {
        m.color.r as int
    } else if c == 1 {
        m.color.g as int
    } else if c == 2 {
        m.color.b as int
    } else if c == 3 {
        m.color.a as int
    } else if c == 4 {
        m.emissive_color.r as int
    } else if c == 5 {
        m.emissive_color.g as int
    } else if c == 6 {
        m.emissive_color.b as int
    } else {
        m.emissive_strength as int
    }
}

/// Sum of the weights.
pub open spec fn weight_total(s: Seq<MaterialWeight>) -> int
    decreases s.len(),
{
    if s.len() == 0 {
        0
    } else {
        weight_total(s.drop_last()) + s.last().weight
    }
}

/// Sum over the entries of weight times channel `c`.
pub open spec fn channel_total(s: Seq<MaterialWeight>, c: int) -> int
    decreases s.len(),
{
    if s.len() == 0 {
        0
    } else {
        channel_total(s.drop_last(), c) + s.last().weight * channel(s.last().material, c)
    }
}

/// Volume-weighted mean of channel `c` (rounded down).
pub open spec fn weighted_mean(s: Seq<MaterialWeight>, c: int) -> int {
    channel_total(s, c) / weight_total(s)
}

/// The material whose every channel is the weighted mean of the entries.
pub open spec fn is_blend_of(m: Material, s: Seq<MaterialWeight>) -> bool {
    forall|c: int| 0 <= c < 8 ==> #[trigger] channel(m, c) == weighted_mean(s, c)
}

pub proof fn lemma_channel_total_bounds(s: Seq<MaterialWeight>, c: int, lo: int, hi: int)
    requires
        forall|k: int| 0 <= k < s.len() ==> lo <= #[trigger] channel(s[k].material, c) <= hi,
    ensures
        lo * weight_total(s) <= channel_total(s, c) <= hi * weight_total(s),
        weight_total(s) >= 0,
    decreases s.len(),
{
    if s.len() > 0 {
        let t = s.drop_last();
        assert forall|k: int| 0 <= k < t.len() implies lo <= #[trigger] channel(t[k].material, c) <= hi by {
            assert(t[k] == s[k]);
        }
        lemma_channel_total_bounds(t, c, lo, hi);
        let w = s.last().weight as int;
        let v = channel(s.last().material, c);
        assert(lo <= v <= hi);
        assert(lo * w <= w * v <= hi * w) by (nonlinear_arith)
            requires
                lo <= v <= hi,
                w >= 0,
        ;
        assert(lo * weight_total(s) == lo * weight_total(t) + lo * w) by (nonlinear_arith)
            requires
                weight_total(s) == weight_total(t) + w,
        ;
        assert(hi * weight_total(s) == hi * weight_total(t) + hi * w) by (nonlinear_arith)
            requires
                weight_total(s) == weight_total(t) + w,
        ;
    }
}

/// Every channel of a weighted mean lies between the smallest and the largest
/// value of that channel among the blended materials.
pub proof fn lemma_weighted_mean_in_hull(s: Seq<MaterialWeight>, c: int, lo: int, hi: int)
    requires
        weight_total(s) > 0,
        forall|k: int| 0 <= k < s.len() ==> lo <= #[trigger] channel(s[k].material, c) <= hi,
    ensures
        lo <= weighted_mean(s, c) <= hi,
{
    lemma_channel_total_bounds(s, c, lo, hi);
    let t = channel_total(s, c);
    let w = weight_total(s);
    assert(lo <= t / w <= hi) by (nonlinear_arith)
        requires
            w > 0,
            lo * w <= t <= hi * w,
    ;
}

/// Entries that all weigh `w` weigh `len * w` together.
pub proof fn lemma_weight_total_uniform(s: Seq<MaterialWeight>, w: int)
    requires
        forall|k: int| 0 <= k < s.len() ==> #[trigger] s[k].weight == w,
    ensures
        weight_total(s) == s.len() * w,
    decreases s.len(),
{
    if s.len() > 0 {
        let t = s.drop_last();
        assert forall|k: int| 0 <= k < t.len() implies #[trigger] t[k].weight == w by {
            assert(t[k] == s[k]);
        }
        lemma_weight_total_uniform(t, w);
        assert(s.len() * w == t.len() * w + w) by (nonlinear_arith)
            requires
                s.len() == t.len() + 1,
        ;
    }
}

impl Material {
    /// A material from its colour, emissive colour and emissive strength.
    pub fn new(color: Rgba, emissive_color: Rgb, emissive_strength: u32) -> (r: Material)
        ensures
            r.color == color,
            r.emissive_color == emissive_color,
            r.emissive_strength == emissive_strength,
    {
        Material { color, emissive_color, emissive_strength }
    }

    /// Opaque black without emission.
    pub fn new_default() -> (r: Material)
        ensures
            r == default_material(),
    {
        Material {
            color: Rgba { r: 0, g: 0, b: 0, a: CHANNEL_ONE },
            emissive_color: Rgb { r: 0, g: 0, b: 0 },
            emissive_strength: 0,
        }
    }

    /// Channel `c`, in the order of `channel`.
    pub fn get_channel(&self, c: usize) -> (r: u32)
        requires
            c < CHANNELS,
        ensures
            r == channel(*self, c as int),
    {
        if c == 0 {
            self.color.r
        } else if c == 1 {
            self.color.g
        } else if c == 2 {
            self.color.b
        } else if c == 3 {
            self.color.a
        } else if c == 4 {
            self.emissive_color.r
        } else if c == 5 {
            self.emissive_color.g
        } else if c == 6 {
            self.emissive_color.b
        } else {
            self.emissive_strength
        }
    }
}

/// Weighted mean of one channel over `s`.
fn blend_channel(s: &Vec<MaterialWeight>, c: usize) -> (r: u32)
    requires
        c < CHANNELS,
        s@.len() <= 8,
        forall|k: int| 0 <= k < s@.len() ==> #[trigger] s@[k].weight <= 0x1_0000_0000_0000,
        weight_total(s@) > 0,
    ensures
        r == weighted_mean(s@, c as int),
{
    let mut total: u128 = 0;
    let mut weighted: u128 = 0;
    let mut i: usize = 0;
    while i < s.len()
        invariant
            i <= s@.len() <= 8,
            c < CHANNELS,
            forall|k: int| 0 <= k < s@.len() ==> #[trigger] s@[k].weight <= 0x1_0000_0000_0000,
            total == weight_total(s@.subrange(0, i as int)),
            weighted == channel_total(s@.subrange(0, i as int), c as int),
            total <= i * 0x1_0000_0000_0000,
            weighted <= i * 0x1_0000_0000_0000 * 0xffff_ffff,
        decreases s@.len() - i,
    {
        let mw = s[i];
        let v = mw.material.get_channel(c);
        let ghost prefix = s@.subrange(0, i as int);
        let ghost next = s@.subrange(0, i + 1);
        assert(next.drop_last() =~= prefix);
        assert(next.last() == mw);
        assert(mw.weight as int * v as int <= 0x1_0000_0000_0000 * 0xffff_ffff) by (nonlinear_arith)
            requires
                mw.weight <= 0x1_0000_0000_0000,
                v <= 0xffff_ffff,
        ;
        total = total + mw.weight as u128;
        weighted = weighted + (mw.weight as u128) * (v as u128);
        i = i + 1;
    }
    assert(s@.subrange(0, s@.len() as int) =~= s@);
    proof {
        lemma_channel_total_bounds(s@, c as int, 0, 0xffff_ffff);
        let t = channel_total(s@, c as int);
        let w = weight_total(s@);
        assert(0 <= t / w <= 0xffff_ffff) by (nonlinear_arith)
            requires
                w > 0,
                0 <= t <= 0xffff_ffff * w,
        ;
    }
    (weighted / total) as u32
}

/// The volume-weighted blend of `s`, channel by channel.
pub fn blend(s: &Vec<MaterialWeight>) -> (r: Material)
    requires
        s@.len() <= 8,
        forall|k: int| 0 <= k < s@.len() ==> #[trigger] s@[k].weight <= 0x1_0000_0000_0000,
        weight_total(s@) > 0,
    ensures
        is_blend_of(r, s@),
{
    let r = Material {
        color: Rgba {
            r: blend_channel(s, 0),
            g: blend_channel(s, 1),
            b: blend_channel(s, 2),
            a: blend_channel(s, 3),
        },
        emissive_color: Rgb {
            r: blend_channel(s, 4),
            g: blend_channel(s, 5),
            b: blend_channel(s, 6),
        },
        emissive_strength: blend_channel(s, 7),
    };
    assert forall|c: int| 0 <= c < 8 implies #[trigger] channel(r, c) == weighted_mean(s@, c) by {
        if c == 0 {
        } else if c == 1 {
        } else if c == 2 {
        } else if c == 3 {
        } else if c == 4 {
        } else if c == 5 {
        } else if c == 6 {
        } else {
        }
    }
    r
}

} // verus!
