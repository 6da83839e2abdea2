//! Telemetry from a vehicle's devices: the serial-link frame codec with its
//! varints and Fletcher-32 checksum, the CAN payload decoder, the schema tree
//! of each device, and the publish/subscribe layer that fans values out.
pub mod can;
pub mod device_value;
pub mod devices;
pub mod errors;
pub mod fletcher32;
pub mod nodes;
pub mod perdos;
pub mod schema;
pub mod subscription;
pub mod types;
pub mod value;
pub mod varint;
pub mod wire;
