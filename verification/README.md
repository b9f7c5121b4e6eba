# pdf_text_extract

Extracts text with bounding boxes from PDF documents (through PDFium),
groups it into paragraphs or lines, prints or saves it as JSON, and can
draw the boxes onto rendered pages for debugging.

- `src/` is the verified library (Verus):
  - `image_utils`: drawing red rectangles on images (`draw_rect`,
    `draw_rects`, `draw_boxes`), the names of saved page images, and the
    laws these obey;
  - `raster`: the `image` crate's calls that the drawing makes, with their
    contracts;
  - `decimal`: decimal notation of integers, as used in file names and
    messages;
  - `models`: the chunking strategy; `pdf`: the error type.
- `app/` is the command-line program: argument parsing, PDFium, file
  output, and the parts that compute with `f32` coordinates (paragraph
  grouping, box union, scaling).
- `tests/` runs the library against the real `image` crate.
