//! Splitting a quantized RGBA palette into the PNG `PLTE` and `tRNS` chunks.
use vstd::prelude::*;

verus! {

/// The red, green and blue bytes of every palette colour, in order.
pub open spec fn rgb_bytes(p: Seq<(u8, u8, u8, u8)>) -> Seq<u8>
    decreases p.len(),
{
    if p.len() == 0 {
        seq![]
    } else {
        let c = p.last();
        rgb_bytes(p.drop_last()) + seq![c.0, c.1, c.2]
    }
}

/// The palette as PNG chunks.
#[derive(Debug)]
pub struct PaletteChunks {
    /// `PLTE`: three bytes per colour.
    pub rgb: Vec<u8>,
    /// `tRNS`: the alpha of each colour.
    pub alpha: Vec<u8>,
    /// Whether some colour is not fully opaque (only then is `tRNS` written).
    pub has_transparency: bool,
}

/// Splits RGBA palette entries into colour bytes and alpha bytes.
pub fn split_palette(palette: &Vec<(u8, u8, u8, u8)>) -> (r: PaletteChunks)
    ensures
        r.rgb@ == rgb_bytes(palette@),
        r.alpha@ == palette@.map_values(|c: (u8, u8, u8, u8)| c.3),
        r.has_transparency == exists|i: int| 0 <= i < palette.len() && #[trigger] palette@[i].3 < 255,
{
    let mut rgb: Vec<u8> = Vec::new();
    let mut alpha: Vec<u8> = Vec::new();
    let mut has_transparency = false;
    let mut i: usize = 0;
    assert(palette@.take(0) =~= Seq::<(u8, u8, u8, u8)>::empty());
    while i < palette.len()
        invariant
            i <= palette.len(),
            rgb@ == rgb_bytes(palette@.take(i as int)),
            alpha@ == palette@.take(i as int).map_values(|c: (u8, u8, u8, u8)| c.3),
            has_transparency == exists|j: int| 0 <= j < i && #[trigger] palette@[j].3 < 255,
        decreases palette.len() - i,
    {
        let (r, g, b, a) = palette[i];
        assert(palette@.take(i + 1).drop_last() =~= palette@.take(i as int));
        rgb.push(r);
        rgb.push(g);
        rgb.push(b);
        alpha.push(a);
        if a < 255 {
            has_transparency = true;
        }
        i = i + 1;
        assert(rgb@ =~= rgb_bytes(palette@.take(i as int)));
        assert(alpha@ =~= palette@.take(i as int).map_values(|c: (u8, u8, u8, u8)| c.3));
    }
    assert(palette@.take(palette.len() as int) =~= palette@);
    PaletteChunks { rgb, alpha, has_transparency }
}

} // verus!
