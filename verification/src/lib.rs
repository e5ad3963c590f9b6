//! Widget logic for a retained-mode UI: the glyph cache, text preprocessing,
//! the text box's key and value decisions, box-shadow blurring, font
//! bookkeeping, image fitting and the small value types the widgets share.
//! Contracts state what each function computes from its own inputs; the
//! shared cells of `live` and `text_box` state only what a store reports,
//! since their contents are shared with every other holder.

pub mod animation;
pub mod button;
pub mod easing;
pub mod font;
pub mod glyph_cache;
pub mod interaction;
pub mod imaging;
pub mod layout;
pub mod live;
pub mod rich_text;
pub mod scroll_view;
pub mod shape;
pub mod sizing;
pub mod text;
pub mod text_box;

pub use animation::ExitFade;
pub use button::ButtonLabel;
pub use easing::Easing;
pub use font::FontRegistry;
pub use glyph_cache::GlyphCache;
pub use imaging::{ImageFit, ObjectFit};
pub use layout::{AlignItems, JustifyContent, LayoutKind};
pub use live::LiveBool;
pub use rich_text::{TextTransform, WhiteSpace};
pub use scroll_view::{Axis, Overflow, ScrollAxes, ScrollbarSlot};
pub use shape::CoverageKey;
pub use text::TextContent;
pub use text_box::{DeclaredValue, TextBoxLive};
