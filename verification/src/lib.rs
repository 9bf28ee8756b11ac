//! Cursor-on-Target (CoT) message handling and its mapping onto Ditto
//! documents: the detail section of a CoT event read into key/value form
//! (plain and CRDT-friendly), the flattening of that form into `r_*` fields,
//! the typed Ditto documents and the textual shape of CoT events.
pub mod text;
pub mod json;
pub mod r_field;
pub mod stable_keys;
pub mod xml;
pub mod elements;
pub mod detail;
pub mod crdt;
pub mod writeback;
pub mod document;
pub mod transforms;
pub mod cot_xml;
pub mod cot_parse;
pub mod plugins;
pub mod xml_compare;
pub mod minimize;
pub mod from_ditto;
