//! A declarative contract-testing engine: JSON "frames" describe single
//! request/response exchanges, sequences of frames ("reels") share a mutable
//! variable store (the cut register), and a template/validation engine
//! substitutes variables, matches live responses against expectations and
//! extracts values back into the register.

pub mod codec;
pub mod cut;
pub mod error;
pub mod frame;
pub mod json;
pub mod laws;
pub mod params;
pub mod record;
pub mod reel;
pub mod response;
pub mod selector;
pub mod take;
pub mod text;
pub mod vreel;

pub use cut::Register;
pub use error::FrError;
pub use frame::{Frame, InstructionSet, Protocol, Request};
pub use params::{Attempts, BaseParams, Params};
pub use reel::{FrameType, MetaFrame, Reel};
pub use response::Response;
pub use vreel::{VirtualCut, VirtualFrames, VirtualReel};
