//! Verified core of the reMarkable pen apps: page geometry, the RGB565
//! framebuffer model and its drawing primitives, the PNG/base64 codecs,
//! text wrapping, the reply-markdown splitter, and the hit-testing and
//! layout logic of the toolbar, lasso selection, home grid, keyboard and
//! dialogs.

pub mod geom;
pub mod strs;
pub mod num;
pub mod order;
pub mod store;
pub mod home;
pub mod hints;
pub mod dialog;
pub mod conv;
pub mod history;
pub mod svg;
pub mod mdview;
pub mod fold;
pub mod project;
pub mod inputbar;
pub mod thumbs;
pub mod phrase;
pub mod status;
pub mod calendar;
pub mod settings;
pub mod png;
pub mod fb;
pub mod wrap;
pub mod text;
pub mod md;
pub mod kb;
pub mod ink;
pub mod highlight;
pub mod toolbar;
pub mod select;
pub mod undo;
pub mod qtfb;
pub mod rpc;
pub mod raster;
pub mod canvas;
pub mod touch;
pub mod rm2fb;
pub mod sidebar;
pub mod wake;
pub mod snapshot;
pub mod book;
pub mod ipc;
pub mod pause;
pub mod inline;
pub mod mdblocks;
