//! Encoding and decoding of tag-delimited `tag=value` messages in the FIX
//! wire format, with verified framing: body length, checksum and field order.

pub mod errors;
pub mod fix_message_body_builder;
pub mod fix_message_builder;
pub mod fix_message_item;
pub mod fix_message_iterator;
pub mod fix_message_reader;
pub mod fix_message_writer;
pub mod laws;
mod scan;
pub mod text;
pub mod utils;
pub mod wire;

pub use errors::FixSerializeError;
pub use fix_message_body_builder::FixMessageBodyBuilder;
pub use fix_message_builder::FixMessageBuilder;
pub use fix_message_item::FixMessageItem;
pub use fix_message_iterator::FixMessageIterator;
pub use fix_message_reader::FixMessageReader;
pub use fix_message_writer::FixMessageWriter;
