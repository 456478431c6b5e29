# koemoji

The logic of a local transcription tool for audio and video files, written
in Verus: screen-text (OCR) cleaning and de-duplication, the frame-by-frame
slide timeline and its cumulative text export, merging speech and screen
segments into one timeline, language-window grouping for mixed-language
files, transcription history records, and the model catalogue.

- `src/` — the verified library (`text`, `similarity`, `ocr`, `clock`,
  `transcript`, `gpu`, `history`, `model`).
- `app/` — a command-line shell around it: file, process and network work,
  audio decoding (floating point), whisper.cpp calls and JSON files.
- `tests/` — tests of the library on concrete values.
