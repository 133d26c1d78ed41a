//! Client-side core of a real-time group chat: the wire codec for envelopes, a table
//! of expiry deadlines, and the session state machine that applies inbound envelopes
//! and builds outbound ones.
pub mod codec;
pub mod text;
pub mod session;
pub mod timing;
