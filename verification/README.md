# edgepack

A verified library for repackaging streaming media at the edge. It reads HLS playlists, DASH
MPDs, fragmented MP4 and MPEG transport streams, changes how the samples in them are encrypted,
and writes fragmented MP4, HLS playlists and DASH MPDs. What each function does is stated in its
contract and proved with Verus.

## Layout

- `src/media/`: boxes, initialization and media segments, transport streams, codecs, SCTE-35.
- `src/manifest/`: source manifests and the manifests that are written.
- `src/drm/`: encryption schemes and sample encryption.
- `src/bytes.rs`, `chars.rs`, `decimal.rs`, `url.rs`, `error.rs`: plain values and their models.
- `src/b64.rs`, `crypto.rs`, `text.rs`, `xml.rs`: the calls into `base64`, `aes` and `cbc`, the
  standard library and `quick-xml`. What is believed of these calls is written above each of them.
- `tests/`: tests of the compiled library.
- `app/`: the types with `serde`, `Display` and `Error` around them.

Seconds and frame rates are decimals counted in billionths in 128 bits; what is past that range is
infinity. `app/` turns them into floats.

## Properties across functions

Besides the contracts, public proof functions state what holds between them. Among these:

- a segment that was encrypted, or encrypted anew, decrypts to the clear segment
  (`media::segment`, `drm::sample_cryptor`);
- protection that was added to an initialization segment, or pointed at another scheme, is found
  in it (`media::found`), added protection comes off again (`media::protection`), and pointing it
  at another scheme changes nothing else (`media::kept`);
- what was written as a box, an `emsg`, a `senc`, a `pssh` or a `tenc` is read back
  (`media::round_trip`, `media::protection`);
- samples taken from a transport stream are read back from the segment made of them
  (`media::synthesis`), and the tracks from the initialization segment (`media::described`);
- a sliding window shows the latest segments that fit, and of parts, I-frames and ad breaks those
  that belong to them (`manifest::types`).
