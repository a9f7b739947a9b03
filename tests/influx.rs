use kp_index::influx::{Measurement, TimestampFormat, Value};
use kp_index::kp_data::Entry;
use kp_index::num::Decimal;
use kp_index::text::escape;
use kp_index::time::DateTime;

#[test]
fn test_value_display() {
    let v: Value = Value::Float(Decimal { mantissa: 605, scale: 1 });
    assert_eq!("60.5", v.to_string());

    let v: Value = (8i8).into();
    assert_eq!("8i", v.to_string());

    let v: Value = (8u8).into();
    assert_eq!("8u", v.to_string());

    let v: Value = (10048i64).into();
    assert_eq!("10048i", v.to_string());

    let v: Value = (10048u64).into();
    assert_eq!("10048u", v.to_string());

    let v: Value = true.into();
    assert_eq!("true", v.to_string());

    let v: Value = Value::text("FooBar");
    assert_eq!(r#""FooBar""#, v.to_string());

    let v: Value = Value::text("");
    assert_eq!(r#""""#, v.to_string());
}

#[test]
fn test_measurement_creation() {
    let mut m = Measurement::new("Size");
    m.add_value("First Value", 42.into(), false);
    m.add_value("Second Value", Value::text("Foobar"), false);
    m.add_tag("location", "West Center", false);
    m.add_tag("machine", "Cluster", false);
    m.set_time(DateTime::new(2015, 9, 5, 23, 56, 4).unwrap());

    assert_eq!("Size", m.name());
}

#[test]
fn measurement_line_with_timestamps() {
    let mut m = Measurement::new("Size");
    m.add_value("First Value", 42.into(), false);
    m.add_value("Second Value", Value::text("Foobar"), false);
    m.add_tag("machine", "Cluster", false);
    m.add_tag("location", "West Center", false);
    m.set_time(DateTime::new(2015, 9, 5, 23, 56, 4).unwrap());
    let base = r#"Size,location=West\ Center,machine=Cluster First\ Value=42i,Second\ Value="Foobar""#;
    assert_eq!(m.to_line_protocol(TimestampFormat::Omitted).unwrap(), base);
    assert_eq!(
        m.to_line_protocol(TimestampFormat::S).unwrap(),
        format!("{} 1441497364", base)
    );
    assert_eq!(
        m.to_line_protocol(TimestampFormat::Ms).unwrap(),
        format!("{} 1441497364000", base)
    );
    assert_eq!(
        m.to_line_protocol(TimestampFormat::Us).unwrap(),
        format!("{} 1441497364000000", base)
    );
    assert_eq!(
        m.to_line_protocol(TimestampFormat::Ns).unwrap(),
        format!("{} 1441497364000000000", base)
    );
    assert_eq!(m.to_string(), format!("{} 1441497364000", base));
}

#[test]
fn measurement_without_time_has_no_timestamp() {
    let mut m = Measurement::new("m");
    m.add_value("v", 1u8.into(), false);
    assert_eq!(m.to_line_protocol(TimestampFormat::Ns).unwrap(), "m v=1u");
}

#[test]
fn tags_come_out_sorted() {
    let mut m = Measurement::new("m");
    m.add_tag("zeta", "1", false);
    m.add_tag("alpha", "2", false);
    m.add_tag("mid", "3", false);
    m.add_tag("Beta", "4", false);
    m.add_value("v", true.into(), false);
    assert_eq!(
        m.to_line_protocol(TimestampFormat::Omitted).unwrap(),
        "m,Beta=4,alpha=2,mid=3,zeta=1 v=true"
    );
}

#[test]
fn fields_keep_insertion_order() {
    let mut m = Measurement::new("m");
    m.add_value("z", 1i32.into(), false);
    m.add_value("a", 2i32.into(), false);
    m.add_value("m", false.into(), false);
    assert_eq!(
        m.to_line_protocol(TimestampFormat::Omitted).unwrap(),
        "m z=1i,a=2i,m=false"
    );
}

#[test]
fn add_without_replace_keeps_first() {
    let mut m = Measurement::new("m");
    m.add_value("k", 1i32.into(), false);
    m.add_value("k", 2i32.into(), false);
    m.add_tag("t", "a", false);
    m.add_tag("t", "b", false);
    assert_eq!(m.to_line_protocol(TimestampFormat::Omitted).unwrap(), "m,t=a k=1i");
}

#[test]
fn add_with_replace_overwrites() {
    let mut m = Measurement::new("m");
    m.add_value("k", 1i32.into(), false);
    m.add_value("j", 3i32.into(), false);
    m.add_value("k", 2i32.into(), true);
    m.add_tag("t", "a", false);
    m.add_tag("t", "b", true);
    assert_eq!(
        m.to_line_protocol(TimestampFormat::Omitted).unwrap(),
        "m,t=b k=2i,j=3i"
    );
}

#[test]
fn keys_are_trimmed() {
    let mut m = Measurement::new("m");
    m.add_value("  k \t", 1i32.into(), false);
    m.add_value("k", 2i32.into(), false);
    m.add_tag(" t ", "x y", false);
    assert_eq!(
        m.to_line_protocol(TimestampFormat::Omitted).unwrap(),
        r"m,t=x\ y k=1i"
    );
}

#[test]
fn escape_controls_regardless_of_flags() {
    let s = "a\nb\rc\td";
    let expected = r"a\nb\rc\td";
    assert_eq!(escape(s, false, false, false, false, false).unwrap(), expected);
    assert_eq!(escape(s, true, true, true, true, false).unwrap(), expected);
    assert_eq!(
        escape(s, false, false, false, false, true).unwrap(),
        format!("\"{}\"", expected)
    );
}

#[test]
fn escape_flags_select_characters() {
    let s = r#"a=b,c d"e"#;
    assert_eq!(escape(s, false, false, false, false, false).unwrap(), s);
    assert_eq!(escape(s, true, false, false, false, false).unwrap(), r#"a\=b,c d"e"#);
    assert_eq!(escape(s, false, true, false, false, false).unwrap(), r#"a=b\,c d"e"#);
    assert_eq!(escape(s, false, false, true, false, false).unwrap(), r#"a=b,c\ d"e"#);
    assert_eq!(escape(s, false, false, false, true, false).unwrap(), r#"a=b,c d\"e"#);
    assert_eq!(escape("", false, false, false, false, true).unwrap(), r#""""#);
}

#[test]
fn backslash_is_not_escaped() {
    assert_eq!(escape(r"a\b", true, true, true, true, false).unwrap(), r"a\b");
}

#[test]
fn string_value_escapes_quotes() {
    let v = Value::text(r#"say "hi", a=b"#);
    assert_eq!(v.to_string(), r#""say \"hi\", a=b""#);
}

#[test]
fn name_escaping_profile() {
    let mut m = Measurement::new(r#"my name,x="y""#);
    m.add_tag("a=b", "c,d", false);
    m.add_value("f=1", 1u32.into(), false);
    assert_eq!(
        m.to_line_protocol(TimestampFormat::Omitted).unwrap(),
        r#"my\ name\,x=\"y\",a\=b=c\,d f\=1=1u"#
    );
}

#[test]
fn signed_and_unsigned_extremes() {
    let v: Value = i128::MIN.into();
    assert_eq!(v.to_string(), "-170141183460469231731687303715884105728i");
    let v: Value = u128::MAX.into();
    assert_eq!(v.to_string(), "340282366920938463463374607431768211455u");
    let v: Value = (-5i16).into();
    assert_eq!(v.to_string(), "-5i");
    let v: Value = 0u16.into();
    assert_eq!(v.to_string(), "0u");
    let v: Value = false.into();
    assert_eq!(v.to_string(), "false");
}

#[test]
fn decimal_rendering_is_shortest() {
    let cases = [
        (2000, 3, "2"),
        (2667, 3, "2.667"),
        (5, 2, "0.05"),
        (-15, 1, "-1.5"),
        (0, 3, "0"),
        (1200, 0, "1200"),
        (-3, 0, "-3"),
    ];
    for (m, s, text) in cases {
        let v = Value::Double(Decimal { mantissa: m, scale: s });
        assert_eq!(v.to_string(), text);
        let v: Value = Decimal { mantissa: m, scale: s }.into();
        assert_eq!(v.to_string(), text);
    }
}

#[test]
fn entry_measurement_example() {
    let entry = Entry::parse("2022 07 31 18.0 19.50 33084.75000 33084.81250  2.000    7 1").unwrap();
    let m = Measurement::from_entry(&entry);
    assert_eq!(m.name(), "iono_activity");
    assert_eq!(
        m.to_line_protocol(TimestampFormat::Omitted).unwrap(),
        "iono_activity,def=1 kp=2,ap=7i"
    );
    assert_eq!(
        m.to_line_protocol(TimestampFormat::S).unwrap(),
        "iono_activity,def=1 kp=2,ap=7i 1659295800"
    );
}

#[test]
fn built_measurement_example() {
    let mut m = Measurement::new("iono_activity");
    m.add_tag("def", "1", false);
    m.add_value("kp", Value::Float(Decimal { mantissa: 20, scale: 1 }), false);
    m.add_value("ap", 7i8.into(), false);
    assert_eq!(
        m.to_line_protocol(TimestampFormat::Omitted).unwrap(),
        "iono_activity,def=1 kp=2,ap=7i"
    );
}

#[test]
fn keys_lose_unicode_whitespace_too() {
    let mut m = Measurement::new("m");
    m.add_value("\u{3000}kp\u{a0}", 1i32.into(), false);
    m.add_tag("\u{2003}def\u{85}", "1", false);
    assert_eq!(m.to_line_protocol(TimestampFormat::Omitted).unwrap(), "m,def=1 kp=1i");
}

#[test]
fn tag_order_does_not_matter() {
    let mut a = Measurement::new("m");
    a.add_tag("x", "1", false);
    a.add_tag("b", "2", true);
    a.add_value("v", 1i32.into(), false);
    let mut b = Measurement::new("m");
    b.add_tag("b", "2", false);
    b.add_tag("x", "1", true);
    b.add_value("v", 1i32.into(), false);
    assert_eq!(
        a.to_line_protocol(TimestampFormat::Omitted).unwrap(),
        b.to_line_protocol(TimestampFormat::Omitted).unwrap()
    );
}
