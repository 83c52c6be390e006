//! Matter kinds and the packed per-cell encoding: a cell is one `u32` whose
//! high three bytes are an RGB color and whose low byte is the matter kind's
//! ordinal. Decoding is total: an unknown low byte reads as `Empty`.

use vstd::prelude::*;

verus! {

/// The kind of matter a cell holds. `Empty` means no matter is present.
#[derive(Copy, Clone, Debug, PartialEq, Eq, Structural)]
pub enum MatterId {
    Empty,
    Sand,
    Wood,
}

/// The ordinal stored in a cell's low byte for each matter kind.
pub open spec fn spec_ordinal(kind: MatterId) -> u8 {
    match kind {
        MatterId::Empty => 0,
        MatterId::Sand => 1,
        MatterId::Wood => 2,
    }
}

/// Total decoding of a cell's low byte: unrecognized ordinals map to `Empty`.
pub open spec fn spec_decode(byte: u8) -> MatterId {
    if byte == 1 {
        MatterId::Sand
    } else if byte == 2 {
        MatterId::Wood
    } else {
        MatterId::Empty
    }
}

/// The matter kind encoded in a packed cell value (its low byte, decoded).
pub open spec fn cell_kind(value: u32) -> MatterId {
    spec_decode((value % 256) as u8)
}

/// Packs a color and a matter ordinal into one cell value.
pub open spec fn spec_pack(r: u8, g: u8, b: u8, id: u8) -> u32 {
    ((r as int) * 0x1000000 + (g as int) * 0x10000 + (b as int) * 0x100 + (id as int)) as u32
}

pub proof fn lemma_pack_kind(r: u8, g: u8, b: u8, id: u8)
    ensures
        cell_kind(spec_pack(r, g, b, id)) == spec_decode(id),
        spec_pack(r, g, b, id) % 256 == id,
{
    let hi = (r as int) * 0x10000 + (g as int) * 0x100 + (b as int);
    let v = hi * 0x100 + (id as int);
    assert(0 <= v < 0x100000000);
    assert(spec_pack(r, g, b, id) == v);
    assert(v % 256 == id) by (nonlinear_arith)
        requires
            v == hi * 0x100 + (id as int),
            0 <= hi,
            id < 256,
    ;
}

impl MatterId {
    /// Decodes an ordinal byte into a matter kind; unknown bytes give `Empty`.
    pub fn decode(byte: u8) -> (kind: MatterId)
        ensures
            kind == spec_decode(byte),
    {
        if byte == 1 {
            MatterId::Sand
        } else if byte == 2 {
            MatterId::Wood
        } else {
            MatterId::Empty
        }
    }

    /// The ordinal stored in a cell's low byte for this kind.
    pub fn ordinal(self) -> (byte: u8)
        ensures
            byte == spec_ordinal(self),
    {
        match self {
            MatterId::Empty => 0,
            MatterId::Sand => 1,
            MatterId::Wood => 2,
        }
    }
}

impl Default for MatterId {
    /// The default matter kind is `Empty`.
    fn default() -> (kind: MatterId)
        ensures
            kind == MatterId::Empty,
    {
        MatterId::Empty
    }
}

impl From<u8> for MatterId {
    /// Total decoding of an ordinal byte; unknown ordinals give `Empty`
    /// rather than relying on the byte always being valid.
    fn from(byte: u8) -> (kind: MatterId) {
        MatterId::decode(byte)
    }
}

impl vstd::std_specs::convert::FromSpecImpl<u8> for MatterId {
    open spec fn obeys_from_spec() -> bool {
        true
    }

    open spec fn from_spec(byte: u8) -> MatterId {
        spec_decode(byte)
    }
}

/// The canonical color of each matter kind, as (red, green, blue, alpha).
/// `Empty` keeps the fixed all-zero background color.
pub open spec fn spec_color(kind: MatterId) -> (u8, u8, u8, u8) {
    match kind {
        MatterId::Empty => (0, 0, 0, 0),
        MatterId::Sand => (0xc2, 0xb2, 0x80, 0xff),
        MatterId::Wood => (0xba, 0x8c, 0x63, 0xff),
    }
}

/// One color channel perturbed by a jitter drawn from a random byte: the byte
/// maps to an offset in -25..=26 (about a tenth of the full scale either way),
/// and the sum is clamped to the valid channel range.
pub open spec fn spec_variate(channel: u8, jitter: u8) -> u8 {
    let offset = (jitter as int) / 5 - 25;
    let sum = channel as int + offset;
    if sum < 0 {
        0u8
    } else if sum > 255 {
        255u8
    } else {
        sum as u8
    }
}

/// The packed cell value built from a matter kind and one random jitter byte:
/// the kind's canonical color, each channel jittered for non-`Empty` kinds,
/// with the kind's ordinal in the low byte. Alpha is not stored.
pub open spec fn spec_make_cell(kind: MatterId, jitter: u8) -> u32 {
    let (r, g, b, _a) = spec_color(kind);
    if kind == MatterId::Empty {
        spec_pack(r, g, b, spec_ordinal(kind))
    } else {
        spec_pack(
            spec_variate(r, jitter),
            spec_variate(g, jitter),
            spec_variate(b, jitter),
            spec_ordinal(kind),
        )
    }
}

/// Every cell built by `spec_make_cell` decodes back to the kind it was built
/// from, whatever the jitter byte was.
pub proof fn lemma_make_cell_kind(kind: MatterId, jitter: u8)
    ensures
        cell_kind(spec_make_cell(kind, jitter)) == kind,
{
    let (r, g, b, _a) = spec_color(kind);
    if kind == MatterId::Empty {
        lemma_pack_kind(r, g, b, spec_ordinal(kind));
    } else {
        lemma_pack_kind(
            spec_variate(r, jitter),
            spec_variate(g, jitter),
            spec_variate(b, jitter),
            spec_ordinal(kind),
        );
    }
}

impl MatterId {
    /// The canonical color of this kind as RGBA bytes.
    pub fn color_rgba_u8(&self) -> (rgba: [u8; 4])
        ensures
            (rgba[0], rgba[1], rgba[2], rgba[3]) == spec_color(*self),
    {
        match *self {
            MatterId::Empty => [0, 0, 0, 0],
            MatterId::Sand => [0xc2, 0xb2, 0x80, 0xff],
            MatterId::Wood => [0xba, 0x8c, 0x63, 0xff],
        }
    }

    /// The canonical color with every channel jittered by the given random
    /// byte, leaving alpha opaque.
    pub fn variated_color_rgba_u8(&self, jitter: u8) -> (rgba: [u8; 4])
        ensures
            rgba[0] == spec_variate(spec_color(*self).0, jitter),
            rgba[1] == spec_variate(spec_color(*self).1, jitter),
            rgba[2] == spec_variate(spec_color(*self).2, jitter),
            rgba[3] == 255u8,
    {
        let base = self.color_rgba_u8();
        [
            variate_channel(base[0], jitter),
            variate_channel(base[1], jitter),
            variate_channel(base[2], jitter),
            255,
        ]
    }
}

/// One color channel jittered and clamped, exactly as `spec_variate` states.
pub fn variate_channel(channel: u8, jitter: u8) -> (out: u8)
    ensures
        out == spec_variate(channel, jitter),
{
    let offset: i32 = (jitter as i32) / 5 - 25;
    let sum: i32 = channel as i32 + offset;
    if sum < 0 {
        0
    } else if sum > 255 {
        255
    } else {
        sum as u8
    }
}

/// One grid cell's packed value: the high three bytes hold an RGB color and
/// the low byte holds the matter kind's ordinal.
#[derive(Copy, Clone, Debug, Default, PartialEq, Eq, Structural)]
pub struct MatterWithColor {
    pub value: u32,
}

impl MatterWithColor {
    /// Creates a cell for the given matter kind with a slightly randomized
    /// color, so that visually identical matter still shows texture. `Empty`
    /// keeps the fixed background color. The kind always decodes back; the
    /// jitter byte is drawn from the random source, so only its existence is
    /// promised.
    pub fn new(matter_id: MatterId) -> (cell: MatterWithColor)
        ensures
            cell_kind(cell.value) == matter_id,
            exists|jitter: u8| cell.value == spec_make_cell(matter_id, jitter),
    {
        let jitter: u8 = if matter_id != MatterId::Empty {
            rand::random::<u8>()
        } else {
            0
        };
        let rgba = if matter_id != MatterId::Empty {
            matter_id.variated_color_rgba_u8(jitter)
        } else {
            matter_id.color_rgba_u8()
        };
        let cell = MatterWithColor { value: pack_cell(rgba[0], rgba[1], rgba[2], matter_id.ordinal()) };
        proof {
            assert(cell.value == spec_make_cell(matter_id, jitter));
            lemma_make_cell_kind(matter_id, jitter);
        }
        cell
    }

    /// The matter kind this cell holds, decoded totally from its low byte.
    pub fn matter_id(&self) -> (kind: MatterId)
        ensures
            kind == cell_kind(self.value),
    {
        MatterId::decode((self.value % 256) as u8)
    }
}

impl From<u32> for MatterWithColor {
    /// Wraps a raw packed value, for instance one read back from the image.
    fn from(value: u32) -> (cell: MatterWithColor) {
        MatterWithColor { value }
    }
}

impl vstd::std_specs::convert::FromSpecImpl<u32> for MatterWithColor {
    open spec fn obeys_from_spec() -> bool {
        true
    }

    open spec fn from_spec(value: u32) -> MatterWithColor {
        MatterWithColor { value }
    }
}

/// Packs RGB channels and a matter ordinal into one cell value, exactly as
/// `spec_pack` states.
pub fn pack_cell(r: u8, g: u8, b: u8, id: u8) -> (value: u32)
    ensures
        value == spec_pack(r, g, b, id),
{
    (r as u32) * 0x1000000 + (g as u32) * 0x10000 + (b as u32) * 0x100 + (id as u32)
}

} // verus!
