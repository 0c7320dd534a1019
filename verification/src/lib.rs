//! Keyboard layer extraction and grid rendering for firmware keymap sources.
//!
//! The text of a keymap source goes through [`keymap_parser::parse_keymap`],
//! which finds the block of the layer array and gives the key tokens of each
//! layer. [`ascii::render_all_layers`] lays the layers out on a
//! [`layout::LayoutGeometry`] and draws each as a bordered grid of cells, in
//! which a [`dictionary::KeymapDictionary`] gives each token its display name.

pub mod ascii;
pub mod dictionary;
pub mod keycode_util;
pub mod keymap_parser;
pub mod layout;
pub mod scan;
pub mod text;
pub mod trusted;
