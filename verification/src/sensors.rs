pub mod gps;
pub mod nmea;
