//! Transcript and screen-text logic of a local transcription tool: OCR
//! line cleaning and de-duplication, timeline merging, history records,
//! model catalogue and the rendering of cumulative slide text.
pub mod clock;
pub mod gpu;
pub mod history;
pub mod model;
pub mod ocr;
pub mod similarity;
pub mod text;
pub mod transcript;
