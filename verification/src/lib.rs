//! Skeletal animation editor: the verified model behind the editor panels.

pub mod skeleton;
pub mod animation;
pub mod editor;
pub mod glyphs;
pub mod keyframe_laws;
pub mod viewport_controls;
pub mod order_laws;
pub mod behaviour_laws;
