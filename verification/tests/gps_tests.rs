use r_d_inclita_sofware::sensors::gps::{
    gga_sentences, gps_burst_sentences, is_negative_hemisphere, parse_gga, parse_utc_time,
};
use r_d_inclita_sofware::sensors::nmea::{field_or_default, nmea_field, parse_decimal_u8};
use r_d_inclita_sofware::telemetry::data::GpsFix;

fn lines_of(burst: &[u8]) -> Vec<&[u8]> {
    gga_sentences(burst).into_iter().map(|(a, b)| &burst[a..b]).collect()
}

#[test]
fn decimal_u8_parsing() {
    assert_eq!(parse_decimal_u8(b"0"), Some(0));
    assert_eq!(parse_decimal_u8(b"7"), Some(7));
    assert_eq!(parse_decimal_u8(b"+5"), Some(5));
    assert_eq!(parse_decimal_u8(b"007"), Some(7));
    assert_eq!(parse_decimal_u8(b"255"), Some(255));
    assert_eq!(parse_decimal_u8(b"256"), None);
    assert_eq!(parse_decimal_u8(b"99999"), None);
    assert_eq!(parse_decimal_u8(b""), None);
    assert_eq!(parse_decimal_u8(b"+"), None);
    assert_eq!(parse_decimal_u8(b"-1"), None);
    assert_eq!(parse_decimal_u8(b"1a"), None);
    assert_eq!(parse_decimal_u8(b" 1"), None);
    for v in 0..=255u32 {
        let s = v.to_string();
        assert_eq!(parse_decimal_u8(s.as_bytes()), s.parse::<u8>().ok());
    }
}

#[test]
fn fields_are_split_at_commas() {
    let line = b"$GPGGA,a,bc,,d";
    assert_eq!(nmea_field(line, 0), Some((0, 6)));
    assert_eq!(nmea_field(line, 1), Some((7, 8)));
    assert_eq!(nmea_field(line, 2), Some((9, 11)));
    assert_eq!(nmea_field(line, 3), Some((12, 12)));
    assert_eq!(nmea_field(line, 4), Some((13, 14)));
    assert_eq!(nmea_field(line, 5), None);
    assert_eq!(field_or_default(line, 2, b"x".to_vec()), b"bc".to_vec());
    assert_eq!(field_or_default(line, 9, b"x".to_vec()), b"x".to_vec());
    assert_eq!(nmea_field(b"", 0), Some((0, 0)));
}

#[test]
fn burst_lines_keep_only_gga() {
    let burst = b"$GNRMC,1,2\r\n$GNGGA,a,b\r\n$GPGGA,c\n$GPGSV,x\n$GNGGA,last";
    assert_eq!(lines_of(burst), vec![&b"$GNGGA,a,b"[..], &b"$GPGGA,c"[..], &b"$GNGGA,last"[..]]);
}

#[test]
fn burst_edge_cases() {
    assert!(gga_sentences(b"").is_empty());
    assert!(gga_sentences(b"\n\n\r\n").is_empty());
    assert_eq!(lines_of(b"$GNGGA\n"), vec![&b"$GNGGA"[..]]);
    assert_eq!(lines_of(b"$GPGGA,1\r"), vec![&b"$GPGGA,1\r"[..]]);
    assert!(gga_sentences(b"$GNGG\n$GXGGA,1\n").is_empty());
}

#[test]
fn burst_matches_str_lines() {
    let text = "junk\r\n$GNGGA,1,2,3\r\n\r\n$GPGGA,,\n$GNGSA\n$GPGGA,end\r";
    let expected: Vec<&[u8]> = text
        .lines()
        .filter(|l| l.starts_with("$GNGGA") || l.starts_with("$GPGGA"))
        .map(|l| l.as_bytes())
        .collect();
    assert_eq!(lines_of(text.as_bytes()), expected);
}

#[test]
fn invalid_utf8_burst_is_ignored() {
    let burst = b"$GNGGA,1,2\n\xff\xfe\n$GPGGA,3\n";
    assert!(gps_burst_sentences(burst).is_empty());
    let ok = b"$GNGGA,1,2\n$GPGGA,3\n";
    assert_eq!(gps_burst_sentences(ok), vec![(0, 10), (11, 19)]);
}

#[test]
fn gga_with_fix_is_read() {
    let line = b"$GNGGA,123519.00,4807.038,N,01131.000,W,1,08,0.9,545.4,M,46.9,M,,*47";
    let g = parse_gga(line).expect("standard fix");
    assert_eq!(g.fix, GpsFix::Standard);
    assert_eq!(g.time.hours, 12);
    assert_eq!(g.time.minutes, 35);
    assert_eq!(g.time.seconds, b"19.00".to_vec());
    assert_eq!(g.latitude, b"4807.038".to_vec());
    assert_eq!(g.lat_dir, b"N".to_vec());
    assert_eq!(g.longitude, b"01131.000".to_vec());
    assert_eq!(g.lon_dir, b"W".to_vec());
    assert_eq!(g.altitude, b"545.4".to_vec());
}

#[test]
fn gga_without_usable_fix_is_dropped() {
    assert!(parse_gga(b"$GNGGA,123519.00,4807.038,N,01131.000,E,0,08,0.9,545.4,M").is_none());
    assert!(parse_gga(b"$GNGGA,123519.00,4807.038,N,01131.000,E,9,08").is_none());
    assert!(parse_gga(b"$GNGGA,123519.00,4807.038,N,01131.000,E,x,08").is_none());
    assert!(parse_gga(b"$GNGGA,123519.00,4807.038,N").is_none());
}

#[test]
fn short_gga_uses_defaults() {
    let g = parse_gga(b"$GPGGA,1,2,S,4,W,3").expect("pps fix");
    assert_eq!(g.fix, GpsFix::Pps);
    assert_eq!(g.time.hours, 0);
    assert_eq!(g.time.minutes, 0);
    assert!(g.time.seconds.is_empty());
    assert_eq!(g.latitude, b"2".to_vec());
    assert_eq!(g.lat_dir, b"S".to_vec());
    assert_eq!(g.longitude, b"4".to_vec());
    assert_eq!(g.lon_dir, b"W".to_vec());
    assert_eq!(g.altitude, b"0.0".to_vec());
    let g = parse_gga(b"$GPGGA,,,,,,+8").expect("simulation");
    assert_eq!(g.fix, GpsFix::Simulation);
    assert!(g.latitude.is_empty());
}

#[test]
fn utc_time_parts() {
    let t = parse_utc_time(b"235959.99");
    assert_eq!((t.hours, t.minutes), (23, 59));
    assert_eq!(t.seconds, b"59.99".to_vec());
    let t = parse_utc_time(b"12345");
    assert_eq!((t.hours, t.minutes), (0, 0));
    assert!(t.seconds.is_empty());
    let t = parse_utc_time(b"ab12cd");
    assert_eq!((t.hours, t.minutes), (0, 12));
    assert_eq!(t.seconds, b"cd".to_vec());
    let t = parse_utc_time(b"000000.00");
    assert_eq!((t.hours, t.minutes), (0, 0));
    assert_eq!(t.seconds, b"00.00".to_vec());
}

#[test]
fn hemispheres() {
    assert!(is_negative_hemisphere(b"S"));
    assert!(is_negative_hemisphere(b"W"));
    assert!(!is_negative_hemisphere(b"N"));
    assert!(!is_negative_hemisphere(b"E"));
    assert!(!is_negative_hemisphere(b""));
    assert!(!is_negative_hemisphere(b"SW"));
}
