# jp2lam

JPEG 2000 Part 1 encoding of 8-bit grayscale and sRGB images (JP2 files or raw J2K
codestreams) and a focused JP2 decoder, written in Verus.

- `src/` is the verified library. Its functions carry `requires`/`ensures` contracts over
  mathematical models (`Seq`, `int`, views), proved by Verus; the timing and counter hooks
  (`profile`, `counters`) do nothing in this build and state nothing:
  - reading: JP2 boxes (`jp2_parse`), the codestream framing (`codestream`), the main
    header markers (`decode_markers`, `header`), packet headers and tag trees (`t2_read`,
    `t2_decode`), the MQ decoder (`mq`), Tier-1 decoding (`t1_decode`), the inverse 5/3
    wavelet (`dwt53`), the inverse colour transform and sample output (`rct`,
    `reconstruct`), and the entry points (`decode`);
  - writing: the encoding plan (`plan`), the marker segments (`markers`), the MQ coder and
    Tier-1 coding (`mq`, `t1_encode`; one segment per code-block, or with every pass
    terminated), packet headers and bodies (`t2_encode`), the
    codestream and the JP2 wrapper (`codestream_write`, `jp2_write`), the lossless encoder
    (`encoder`, `context`), and the lossy lane's coding of quantized coefficients (`lossy`);
  - batches of pages (`batch`) and the command line's argument grammar (`cli`).
- Proof functions state what holds across functions: the wavelet and colour transforms
  undo each other, the sample stage of the decoder undoes that of the encoder, the header
  segments and the JP2 wrapper read back as written, the packet-header bit reader gives
  back the bits, pass counts and comma codes that the writer wrote, the packets of a parsed
  payload take it up whole, and the JP2 encodings are exactly the wrapped J2K encodings.
- `tests/` runs the library on concrete inputs.
- `app/` is the command-line program and the parts that need I/O, image files, zip archives
  or floating point: the content classification that picks a default quality; the lossy lane's
  irreversible colour transform, forward 9/7 wavelet and quantization, whose indices the library
  then codes (`encode_any`); the PSNR/SSIM measure of an encoding (`encode_with_psnr`); and the
  9/7 reconstruction (dequantization, inverse 9/7 wavelet, inverse irreversible colour
  transform) that decodes files coded with the irreversible wavelet from the coefficients the
  library decodes (`decode_any`).
- The lossy lane keeps every coding pass: the rate control that would truncate code-blocks to a
  byte budget is not implemented, so lossy files are larger than a rate-controlled encoder's at
  the same quantization.
