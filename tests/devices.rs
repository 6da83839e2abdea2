use telegraph::device_value::{PerDosValue, Reading, Type};
use telegraph::devices::{CanConfig, DeviceIds, PinBaud, UartConfig};

fn pb(baud: u32) -> PinBaud {
    PinBaud { baud, rx_pin: "PA9".to_string(), tx_pin: "PB2".to_string() }
}

#[test]
fn uart_config_accessors() {
    let u = UartConfig::new(vec![pb(115200), pb(9600)]);
    assert!(!u.is_empty());
    assert_eq!(u.num_devices(), 2);
    assert_eq!(u.configs()[1].baud, 9600);
    assert!(UartConfig::new(vec![]).is_empty());
}

#[test]
fn can_config_rejects_duplicate_names() {
    let c = CanConfig::new(vec![("Default".to_string(), pb(500000)), ("Moc".to_string(), pb(1000000))]).unwrap();
    assert_eq!(c.num_devices(), 2);
    assert!(!c.is_empty());
    assert_eq!(c.configs()[0].0, "Default");
    assert!(CanConfig::new(vec![("A".to_string(), pb(1)), ("A".to_string(), pb(2))]).is_none());
}

#[test]
fn device_ids_contains() {
    let d = DeviceIds::new(vec![3, 5, 8]);
    assert!(d.contains(5));
    assert!(!d.contains(4));
}

#[test]
fn type_sizes() {
    assert_eq!(Type::Bool.size(), 1);
    assert_eq!(Type::Int16.size(), 2);
    assert_eq!(Type::Float.size(), 4);
    assert_eq!(Type::Double.size(), 8);
}

#[test]
fn perdos_value_set() {
    let mut v = PerDosValue::new(Type::UInt16, "a.b".to_string());
    v.set(vec![0x34, 0x12]);
    assert_eq!(v.value, Some(Reading::UInt16(0x1234)));
    let mut b = PerDosValue::new(Type::Bool, "c".to_string());
    b.set(vec![3]);
    assert_eq!(b.value, Some(Reading::Bool(true)));
    b.set(vec![2]);
    assert_eq!(b.value, Some(Reading::Bool(false)));
    let mut i = PerDosValue::new(Type::Int32, "d".to_string());
    i.set((-7i32).to_le_bytes().to_vec());
    assert_eq!(i.value, Some(Reading::Int32(-7)));
    let mut f = PerDosValue::new(Type::Double, "e".to_string());
    f.set(3.5f64.to_le_bytes().to_vec());
    assert_eq!(f.value, Some(Reading::Double(3.5f64.to_bits())));
}

#[test]
fn perdos_value_try_set_checks_length() {
    let mut v = PerDosValue::new(Type::UInt16, "a".to_string());
    assert!(!v.try_set(vec![1, 2, 3]));
    assert_eq!(v.value, None);
    assert!(v.try_set(vec![0x34, 0x12]));
    assert_eq!(v.value, Some(Reading::UInt16(0x1234)));
    assert!(!v.try_set(vec![1]));
    assert_eq!(v.value, Some(Reading::UInt16(0x1234)));
}
