# koharu

The decision-making core of a manga text-detection pipeline, written in Verus
and proved against its contracts.

Four detectors propose boxes on a page: a layout model with instance masks,
RT-DETR (balloons and text), AnimeText YOLO and comic-text-detector (text, plus
the pixel text mask). The library turns their raw outputs into page boxes and
fuses them: boxes of one class are clustered, a balloon is accepted on two
detectors' agreement or a strong layout mask, and every text region gets a role
(dialogue, outside text, sound effect) and is accepted only on enough evidence.
A sound effect's own decoded instance mask counts as evidence only where it
lit enough of its box.
Coordinates are integer sub-pixels (1/256 px) and scores parts per million, so
every ratio test is decided exactly.

Layout:

- `src/` — the verified library. `geometry`, `fusion`, `fusion_laws`, `mask`
  and `blocks` hold box geometry, the fusion rules and what they guarantee;
  `yolo26s`, `rtdetr`, `comic_bubble`, `anime_text`, `ctd`, `layout`,
  `mask_decode`, `detections` and `engine` the per-detector decoding around
  each forward pass and the assembled detections with their page masks; `font`,
  `annotate`, `downloads`, `config`, `protocol` and `text` the colour
  clean-up of font predictions, overlay layout, download planning and token
  handling, provider configuration, front-end messages and string helpers.
- `tests/` — scenario tests on concrete pages and values.
- `app/` — a command-line front end: reads JSON and images, converts floats to
  the library's units, and prints results. Overlap suppression of decoded
  detections (candle's non-maximum suppression, on float boxes) runs there.
