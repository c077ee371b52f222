use han::obis::{parse_datetime, parse_decimal, parse_deci, parse_kilo, parse_u8, pow_dir};
use han::{Direction, Error, Line, Obis, Object, Power, Timestamp};

fn utc_seconds(year: i32, month: time::Month, day: u8, h: u8, m: u8, s: u8) -> i64 {
    time::Date::from_calendar_date(year, month, day)
        .unwrap()
        .with_hms(h, m, s)
        .unwrap()
        .assume_utc()
        .unix_timestamp()
}

fn timestamp_of(obj: Object) -> Timestamp {
    match obj {
        Object::DateTime(t) => t,
        other => panic!("not a timestamp: {:?}", other),
    }
}

#[test]
fn datetime_obj() {
    let t = timestamp_of("0-0:1.0.0(221022162844W)".parse::<Object>().unwrap());
    assert_eq!(
        t.unix_timestamp(),
        utc_seconds(2022, time::Month::October, 22, 15, 28, 44)
    );
}

#[test]
fn datetime_parsing() {
    assert!(parse_datetime(b"9999999999W").is_err());
    assert!(parse_datetime(b"aaaaaa").is_err());
    assert!(parse_datetime(b"220717231648").is_err()); // missing dst indicator

    assert_eq!(
        parse_datetime(b"220717231648S").unwrap().unix_timestamp(),
        utc_seconds(2022, time::Month::July, 17, 21, 16, 48)
    );
}

#[test]
fn parse() {
    assert_eq!(
        "1-0:1.8.0(00006136.930*kWh)".parse::<Object>().unwrap(),
        Object::Energy(Power::Active, Direction::FromGrid, 6136930)
    );

    assert_eq!(
        "1-0:72.7.0(235.5*V)".parse::<Object>().unwrap(),
        Object::Voltage(Line::L3, 2355)
    );
}

#[test]
fn timestamp_fields_and_offset() {
    let t = parse_datetime(b"221022162844W)").unwrap();
    assert_eq!(
        (t.year, t.month, t.day, t.hour, t.minute, t.second, t.summer),
        (2022, 10, 22, 16, 28, 44, false)
    );
    assert_eq!(t.utc_offset_hours(), 1);
    let s = parse_datetime(b"220717231648S").unwrap();
    assert!(s.summer);
    assert_eq!(s.utc_offset_hours(), 2);
    // the same wall clock reading is one hour earlier in summer time
    let w = parse_datetime(b"220717231648W").unwrap();
    assert_eq!(w.unix_timestamp() - s.unix_timestamp(), 3600);
}

#[test]
fn timestamp_validity() {
    let t = parse_datetime(b"240229235959S").unwrap();
    assert!(t.is_valid());
    assert_eq!(t.unix_timestamp(), utc_seconds(2024, time::Month::February, 29, 21, 59, 59));
    assert!(!Timestamp { day: 30, ..t }.is_valid());
    assert!(!Timestamp { year: 2100, ..t }.is_valid());
    assert!(!Timestamp { month: 13, ..t }.is_valid());
    assert!(!Timestamp { hour: 24, ..t }.is_valid());
    assert!(!Timestamp { second: 60, ..t }.is_valid());
}

#[test]
fn datetime_rejects_invalid_calendar_values() {
    assert_eq!(parse_datetime(b"230229120000W"), Err(Error::InvalidFormat)); // not a leap year
    assert!(parse_datetime(b"240229120000W").is_ok());
    assert_eq!(parse_datetime(b"221301000000W"), Err(Error::InvalidFormat));
    assert_eq!(parse_datetime(b"221000000000W"), Err(Error::InvalidFormat));
    assert_eq!(parse_datetime(b"220431000000W"), Err(Error::InvalidFormat));
    assert_eq!(parse_datetime(b"221022240000W"), Err(Error::InvalidFormat));
    assert_eq!(parse_datetime(b"221022236000W"), Err(Error::InvalidFormat));
    assert_eq!(parse_datetime(b"221022235960W"), Err(Error::InvalidFormat));
    assert_eq!(parse_datetime(b"221022162844X"), Err(Error::InvalidFormat));
    assert_eq!(parse_datetime(b"2210221628+4W"), Err(Error::InvalidFormat));
}

#[test]
fn obis_round_trip() {
    for &(a, b, c, d, e) in &[
        (0u8, 0u8, 1u8, 0u8, 0u8),
        (1, 0, 72, 7, 0),
        (255, 254, 100, 99, 10),
        (9, 10, 99, 100, 255),
    ] {
        let o = Obis(a, b, c, d, e);
        let text = o.to_text();
        assert_eq!(Obis::from_bytes(&text), Some(o));
    }
    assert_eq!(Obis(1, 0, 1, 8, 0).to_text(), b"1-0:1.8.0".to_vec());
    assert_eq!(Obis(1, 0, 72, 7, 0).to_string(), "1-0:72.7.0");
    assert_eq!(
        Obis(0, 10, 200, 3, 45).to_string().parse::<Obis>(),
        Ok(Obis(0, 10, 200, 3, 45))
    );
    assert_eq!(Obis(255, 0, 10, 100, 7).to_text(), b"255-0:10.100.7".to_vec());
}

#[test]
fn obis_parsing() {
    assert_eq!(Obis::from_str_opt("1-0:21.7.0"), Some(Obis(1, 0, 21, 7, 0)));
    assert_eq!(Obis::from_str_opt("+1-007:21.7.0"), Some(Obis(1, 7, 21, 7, 0)));
    assert_eq!(Obis::from_str_opt("1-0:256.7.0"), None);
    assert_eq!(Obis::from_str_opt("1-0:21.7"), None);
    assert_eq!(Obis::from_str_opt("1-0-21.7.0"), None);
    assert_eq!(Obis::from_str_opt("1-0:21..0"), None);
    assert_eq!(Obis::from_str_opt("1-0:21.7.0.1"), None);
    assert_eq!("x-0:1.8.0".parse::<Obis>(), Err(Error::InvalidFormat));
    assert_eq!(parse_u8(b"255"), Some(255));
    assert_eq!(parse_u8(b"256"), None);
    assert_eq!(parse_u8(b"+"), None);
    assert_eq!(parse_u8(b""), None);
}

#[test]
fn decimal_layouts() {
    assert_eq!(parse_decimal(b"00006136.930*kWh)", 8, 3), Some(6136930));
    assert_eq!(parse_decimal(b"0006136.930*kWh)", 8, 3), None);
    assert_eq!(parse_decimal(b"000006136.930*kWh)", 8, 3), None);
    assert_eq!(parse_decimal(b"00006136.93*kWh)", 8, 3), None);
    assert_eq!(parse_decimal(b"00006136.9300*kWh)", 8, 3), None);
    assert_eq!(parse_decimal(b"00006136.930*kWh", 8, 3), None);
    assert_eq!(parse_decimal(b"00006136,930*kWh)", 8, 3), None);
    assert_eq!(parse_decimal(b"0000613a.930*kWh)", 8, 3), None);
    assert_eq!(parse_decimal(b"00006136.930)", 8, 3), None);
    // largest value that fits, then overflow
    assert_eq!(parse_decimal(b"04294967.295*kWh)", 8, 3), Some(u32::MAX));
    assert_eq!(parse_decimal(b"04294967.296*kWh)", 8, 3), None);
    assert_eq!(parse_decimal(b"99999999.999*kWh)", 8, 3), None);
    assert_eq!(parse_kilo(b"0000.806*kW)", 4), Ok(806));
    assert_eq!(parse_kilo(b"000.806*kW)", 4), Err(Error::InvalidFormat));
    assert_eq!(parse_deci(b"235.5*V)"), Ok(2355));
    assert_eq!(parse_deci(b"999.9*V)"), Ok(9999));
    assert_eq!(parse_deci(b"35.5*V)"), Err(Error::InvalidFormat));
}

#[test]
fn power_direction_codes() {
    assert_eq!(pow_dir(1), Ok((Power::Active, Direction::FromGrid)));
    assert_eq!(pow_dir(2), Ok((Power::Active, Direction::ToGrid)));
    assert_eq!(pow_dir(3), Ok((Power::Reactive, Direction::FromGrid)));
    assert_eq!(pow_dir(4), Ok((Power::Reactive, Direction::ToGrid)));
    assert_eq!(pow_dir(5), Err(Error::InvalidFormat));
}

#[test]
fn decode_each_kind() {
    let p = |s: &str| s.parse::<Object>();
    assert_eq!(
        p("1-0:3.8.0(00000008.909*kvarh)"),
        Ok(Object::Energy(Power::Reactive, Direction::FromGrid, 8909))
    );
    assert_eq!(
        p("1-0:2.7.0(0001.250*kW)"),
        Ok(Object::TotalPower(Power::Active, Direction::ToGrid, 1250))
    );
    assert_eq!(
        p("1-0:44.7.0(0000.012*kvar)"),
        Ok(Object::Power(Line::L2, Power::Reactive, Direction::ToGrid, 12))
    );
    assert_eq!(
        p("1-0:61.7.0(0000.300*kW)"),
        Ok(Object::Power(Line::L3, Power::Active, Direction::FromGrid, 300))
    );
    assert_eq!(p("1-0:31.7.0(001.2*A)"), Ok(Object::Current(Line::L1, 12)));
    assert_eq!(p("1-0:52.7.0(230.1*V)"), Ok(Object::Voltage(Line::L2, 2301)));
    assert_eq!(p("1-0:71.7.0(003.4*A)"), Ok(Object::Current(Line::L3, 34)));
}

#[test]
fn unrecognized_reference() {
    assert_eq!(
        "1-0:99.7.0(0000.000*kW)".parse::<Object>(),
        Err(Error::UnrecognizedReference)
    );
    assert_eq!(
        "1-0:99.7.0(garbage".parse::<Object>(),
        Err(Error::UnrecognizedReference)
    );
    assert_eq!(
        "1-1:1.8.0(00006136.930*kWh)".parse::<Object>(),
        Err(Error::UnrecognizedReference)
    );
    // known reference, malformed value
    assert_eq!(
        "1-0:1.8.0(6136.930*kWh)".parse::<Object>(),
        Err(Error::InvalidFormat)
    );
    // malformed reference
    assert_eq!("1-0:1.8(0*kWh)".parse::<Object>(), Err(Error::InvalidFormat));
    assert_eq!("1-0:1.8.0".parse::<Object>(), Err(Error::InvalidFormat));
}

#[test]
fn error_messages() {
    assert_eq!(Error::InvalidFormat.message(), "invalid format");
    assert_eq!(Error::Checksum.message(), "checksum mismatch");
    assert_eq!(
        Error::UnrecognizedReference.message(),
        "unrecognized obis reference"
    );
}
