//! A codec for DNS messages: a bounds-checked byte cursor, domain names with
//! backward compression pointers, headers, questions and resource records.
pub mod deserialization;
pub mod domain_name;
pub mod packet;
pub mod record;
pub mod serialization;
