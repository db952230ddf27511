# heic_rs

The verified core of a HEIC/HEIF still-image decoder, written in Verus.
Every function in `src/` carries a `requires`/`ensures` contract that Verus
proves; `tests/` exercises the same functions on concrete inputs.

## Layout

- `src/boxes.rs`, `src/ftyp.rs`, `src/grid.rs`, `src/reader.rs`: the
  ISO-BMFF container — box headers, the file type box and grid items.
- `src/hevc/nal.rs`, `src/hevc/bits.rs`, `src/hevc/bitmath.rs`: Annex-B
  splitting, NAL unit headers, emulation prevention and Exp-Golomb reading.
- `src/hevc/cabac/`: the arithmetic decoder, its context tables, an
  encoder whose every step is specified, used to build test streams, and
  the proof that the decoder reads back every bin the encoder wrote.
- `src/hevc/decode/`: tile and scan geometry, and the syntax elements read
  inside slice data: SAO parameters, intra prediction modes, QP deltas and
  offsets, residual coding with its context selection and levels, PCM
  samples, reference sample gathering; the inferred split flags; picking
  a picture's slices from its NAL units, substream starts and wavefront
  context reuse; and the conformance window crop. The slice loop itself,
  the coding tree and coding unit driver, the transform tree and
  reconstruction are not part of this crate: they rest on parameter-set
  and slice header parsing, scaling lists, the inverse transforms and
  chroma upsampling, none of which this crate provides. The same holds of
  the container's metadata and item properties (EXIF, ICC, rotation and
  mirroring), of probing a file, and of the full colour conversion.
- `src/hevc/scan.rs`: the diagonal, horizontal and vertical scan orders.
- `src/hevc/intra/`: reference smoothing and intra prediction.
- `src/hevc/filter/`: deblocking and sample adaptive offset.
- `src/color/`: the fixed-point colour steps, the per-row YUV to RGB
  kernels and the alpha pass, the choice of chroma cache slot, and the
  frame/mosaic source.
- `app/`: the floating-point derivations of the colour and alpha
  coefficients, which stay outside verification.
