//! D-Bus wire format: values, type signatures, marshalling, unmarshalling
//! and message framing.

pub mod error;
pub mod value;
pub mod signature;
pub mod unmarshal;
pub mod marshal;
pub mod roundtrip;
pub mod msg_roundtrip;
pub mod message;
pub mod conn;
pub mod dispatch;
