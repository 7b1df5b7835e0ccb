//! Flight-software logic of the Inclita avionics board: telemetry types,
//! NMEA GGA sentence handling and the SD-card logging policy.
pub mod telemetry;
pub mod fixed_buffers;
pub mod storage;
pub mod sensors;
