# matroska

Reads the metadata of Matroska files: the file's information, its tracks, attachments and
chapters. The library is written and proved with Verus.

- `src/ebml.rs`: the EBML encoding — variable-size integers, element headers, values, and
  the elements inside a master element — each reader proved against a mathematical
  description of the bytes.
- `src/ids.rs`: element IDs and the kind of value each carries.
- `src/fields.rs`: what a master element's children say about one field.
- `src/info.rs`, `src/tracks.rs`, `src/attachments.rs`, `src/chapters.rs`, `src/seek.rs`:
  the parts of a file, each built from its elements.
- `src/reader.rs`: reading a file one request at a time (`MatroskaReader`), or from memory
  (`Matroska::parse`).
- `src/leading.rs`: whole elements before the Segment, such as the EBML header, change
  nothing that is read.
- `src/segment.rs`: the file and its tracks by type.
- `app/`: opening a file on disk, and times and rates as `chrono` values and floats.
