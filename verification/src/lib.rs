//! Whisper Relay: meetings are recorded on one machine and transcribed by a
//! backend that another one talks to.
//!
//! The client records audio streams, uploads the recording in frames and writes
//! down the transcript. The server authorizes the client, collects the upload,
//! divides it into chunks of speech, has them transcribed and puts the
//! transcripts together again. This library holds what both of them decide and
//! compute; what reads, writes, waits and shows things is in the programs around
//! it.
//!
//! - On both sides: [`protocol`], [`text`], [`time`], [`wav`].
//! - On the server: [`settings`], [`auth`], [`session`], [`request`], [`vad`],
//!   [`chunking`], [`transcript`].
//! - On the client: [`config`], [`paths`], [`token`], [`client`], [`exchange`],
//!   [`sources`], [`audio_state`], [`capture`], [`meeting`], [`live`], [`log`],
//!   [`tui`].
//!
//! Types that hold strings or lists have a view of the same shape over
//! sequences, and the contracts speak of the views. What holds of several
//! functions together is stated in proof functions whose names begin with `law`.

pub mod audio_state;
pub mod auth;
pub mod capture;
pub mod chunking;
pub mod client;
pub mod config;
pub mod exchange;
pub mod live;
pub mod log;
pub mod meeting;
pub mod paths;
pub mod protocol;
pub mod request;
pub mod session;
pub mod settings;
pub mod sources;
pub mod text;
pub mod time;
pub mod token;
pub mod transcript;
pub mod tui;
pub mod vad;
pub mod wav;
