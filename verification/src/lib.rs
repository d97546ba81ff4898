//! Spell-typing logic: typing the spell of a registered animal brings up its
//! image. The library keeps the spell book, tracks how far each spell has been
//! typed, decodes key names, and books the image windows that are on screen.

pub mod assoc;
pub mod keys;
pub mod spell_book;
pub mod key_counts;
pub mod key_laws;
pub mod key_events;
pub mod images;
pub mod app_paths;
