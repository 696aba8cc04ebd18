//! The data model of a Misskey/Fediverse timeline client: notes, users,
//! instances, reactions and MFM text, independent of the GUI toolkit that
//! draws them. Media is held through a type parameter `M`, a handle to a
//! loadable image that the embedding application chooses.

pub mod text;
pub mod number;
pub mod time;
pub mod emoji;
pub mod url;
pub mod mfm;
pub mod reactions;
pub mod instance;
pub mod visibility;
pub mod texture;
pub mod loading;
pub mod model;
