# lcd_subpixel

LCD sub-pixel pixel formats for RGBA32 rendering buffers, verified with Verus.

A rasterizer working at three times the horizontal resolution sees each pixel
as three stripes (red, green, blue). The formats here blend coverage into those
stripes:

- `PixfmtRgba32Lcd` blends in sRGB code space with the byte blend
  `((src - dst) * alpha + (dst << 16)) >> 16`;
- `PixfmtRgba32LcdLinear` composites each pixel in linear light through the
  sRGB transfer tables, with a coverage tone curve, contrast boost and an
  optional chroma limit.

Both spread a span of covers over five neighbouring stripes with
`LcdDistributionLut` (tertiary, secondary, primary, secondary, tertiary).

Layout:

- `src/` — the verified library: `color`, `rendering_buffer` (an owned RGBA32
  buffer seen as rows), `distribution`, `srgb` (the transfer tables as exact
  data, with the round trip proved), `stripes` (the sub-pixel model shared by
  both formats), `lcd`, `lcd_linear`, `tone_cache` (the keyed, bounded cache
  of coverage tone tables) and `agreement` (where the two formats leave the
  same rows). Every public operation states the rows it leaves as a function
  of the rows it found.
- `app/` — what needs floating point or process-wide state: the coverage tone
  curve and the static that holds its cache, the transfer curve and the
  distribution table computed with `f64`, the shared sRGB tables, and a
  constructor of the linear format that supplies both.
- `tests/` — scenario tests, including a check that the table data matches
  the transfer curve computed in floating point.
