//! Verified core of a Silero VAD 16 kHz inference engine: segmentation of
//! speech decisions into timestamps, the streaming iterator's decisions, the
//! weight file's framing and checks, and the index arithmetic of the model's
//! tensor operators.
pub mod audio;
pub mod error;
pub mod layout;
pub mod postprocess;
pub mod safetensors;
pub mod stream;
pub mod text;
pub mod timestamps;
pub mod weights;
