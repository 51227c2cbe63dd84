use influent::measurement::{Measurement, Value};

#[test]
fn measurement_is_buildable() {
    const KEY: &str = "test-key";
    const TIMESTAMP: i64 = 20;

    let measurement = Measurement::new(KEY).timestamp(TIMESTAMP);

    assert_eq!(KEY, measurement.key);
    assert_eq!(TIMESTAMP, measurement.timestamp.unwrap());
}

#[test]
fn measurement_is_time() {
    let earlier = std::time::SystemTime::now()
        .duration_since(std::time::UNIX_EPOCH)
        .expect("Time went backwards")
        .as_nanos() as i64;

    let measurement = Measurement::new("").now();

    assert!(earlier <= measurement.timestamp.unwrap())
}

#[test]
fn measurement_is_written_as_a_point() {
    let measurement = Measurement::new("sut")
        .field("string", Value::String("string"))
        .field("integer", Value::Integer(10))
        .field("boolean", Value::Boolean(false))
        .field("with, comma", Value::String("comma, with"))
        .tag("tag", "value")
        .tag("tag, with comma", "three, four")
        .timestamp(1_434_055_562_000_000_000);
    assert_eq!(
        "sut,tag=value,tag\\,\\ with\\ comma=three\\,\\ four boolean=f,integer=10i,string=\"string\",with\\,\\ comma=\"comma, with\" 1434055562000000000",
        measurement.to_string()
    );
}
