//! A timeline-synchronized audio mixing engine.
//!
//! The library tracks recorded sound clips ("snippets") positioned on a shared
//! timeline and produces output sample streams that mix every clip audible at
//! the current position, at an arbitrary signed, fractional playback speed,
//! using linear interpolation for resampling. It also models the lock-guarded
//! state records that sit between a realtime audio callback and the control
//! threads of an application.

pub mod cursor;
pub mod laws;
pub mod state;
pub mod snippet;
pub mod speed;
pub mod time;

pub use cursor::Buf;
pub use cursor::Cursor;
pub use cursor::CursorBuffer;
pub use state::AudioInput;
pub use state::AudioOutput;
pub use snippet::AudioSnippetData;
pub use snippet::AudioSnippetId;
pub use snippet::AudioSnippetsData;
pub use speed::Speed;
pub use time::Time;
pub use time::TimeDiff;
pub use time::SAMPLE_RATE;
