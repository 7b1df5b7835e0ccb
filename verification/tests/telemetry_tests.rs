use r_d_inclita_sofware::telemetry::data::GpsFix;

#[test]
fn gps_fix_from_known_codes() {
    assert_eq!(GpsFix::from_u8(0), GpsFix::NoFix);
    assert_eq!(GpsFix::from_u8(1), GpsFix::Standard);
    assert_eq!(GpsFix::from_u8(2), GpsFix::Dgps);
    assert_eq!(GpsFix::from_u8(3), GpsFix::Pps);
    assert_eq!(GpsFix::from_u8(4), GpsFix::RtkInteger);
    assert_eq!(GpsFix::from_u8(5), GpsFix::RtkFloat);
    assert_eq!(GpsFix::from_u8(6), GpsFix::Estimated);
    assert_eq!(GpsFix::from_u8(7), GpsFix::Manual);
    assert_eq!(GpsFix::from_u8(8), GpsFix::Simulation);
}

#[test]
fn gps_fix_from_other_codes_is_unknown() {
    assert_eq!(GpsFix::from_u8(9), GpsFix::Unknown);
    assert_eq!(GpsFix::from_u8(42), GpsFix::Unknown);
    assert_eq!(GpsFix::from_u8(255), GpsFix::Unknown);
}

#[test]
fn gps_fix_reexported_from_telemetry() {
    let f: r_d_inclita_sofware::telemetry::GpsFix = GpsFix::from_u8(2);
    assert_eq!(f, GpsFix::Dgps);
}
