//! Parsing and serialization of structured field values: typed data
//! (integers, decimals, strings, tokens, byte sequences, booleans, and
//! compositions of these into lists, dictionaries and parameterized inner
//! lists) carried in a single line of text.
//!
//! The parser accepts exactly the textual grammar of structured fields and
//! builds the value model ([`Item`], [`List`], [`Dictionary`]); the
//! serializer emits the one canonical encoding of a model value, or fails
//! when a programmatically built value violates a grammar constraint.

pub mod grammar;
pub mod laws;
pub mod parser;
pub mod serializer;
pub mod utils;
pub mod values;

pub use parser::{
    parse_dictionary, parse_item, parse_list, parse_more_dictionary, parse_more_list,
};
pub use serializer::serialize_list;
pub use utils::decoded;
pub use values::{
    BareItem, BareItemV, Decimal, DecimalV, Dictionary, InnerList, InnerListV, Item, ItemV, List,
    ListEntry, ListEntryV, Num, Parameters,
};
