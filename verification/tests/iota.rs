use hexmod_yog::iota::{
    register_builtin_types, BoolIotaType, DoubleIotaType, Iota, IotaType, IotaTypeId,
    IotaTypeRegistry, PatternIotaType,
};
use hexmod_yog::math::{HexDir, HexPattern};

#[test]
fn iota_types() {
    assert_eq!(Iota::Boolean(true).get_type(), IotaTypeId::BOOLEAN);
    assert_eq!(Iota::Double(0).get_type(), IotaTypeId::DOUBLE);
    assert_eq!(Iota::Int(1).get_type(), IotaTypeId::INT);
    assert_eq!(Iota::String("s".to_string()).get_type(), IotaTypeId::STRING);
    assert_eq!(Iota::Entity(1).get_type(), IotaTypeId::ENTITY);
    assert_eq!(Iota::Vec3(0, 0, 0).get_type(), IotaTypeId::VEC3);
    assert_eq!(Iota::Pattern(HexPattern::new(HexDir::East, vec![])).get_type(), IotaTypeId::PATTERN);
    assert_eq!(Iota::List(vec![]).get_type(), IotaTypeId::LIST);
    assert_eq!(Iota::Null.get_type(), IotaTypeId::NULL);
}

#[test]
fn iota_truthiness() {
    assert!(Iota::Boolean(true).is_truthy());
    assert!(!Iota::Boolean(false).is_truthy());
    assert!(!Iota::Null.is_truthy());
    assert!(!Iota::Double(0.0f64.to_bits()).is_truthy());
    assert!(!Iota::Double((-0.0f64).to_bits()).is_truthy());
    assert!(Iota::Double(1.5f64.to_bits()).is_truthy());
    assert!(Iota::Double(f64::NAN.to_bits()).is_truthy());
    assert!(Iota::Double(f64::MIN_POSITIVE.to_bits()).is_truthy());
    assert!(!Iota::Int(0).is_truthy());
    assert!(Iota::Int(-3).is_truthy());
    assert!(!Iota::List(vec![]).is_truthy());
    assert!(Iota::List(vec![Iota::Null]).is_truthy());
    assert!(!Iota::String(String::new()).is_truthy());
    assert!(Iota::String("é".to_string()).is_truthy());
    assert!(Iota::Entity(0).is_truthy());
    assert!(Iota::Vec3(0, 0, 0).is_truthy());
    assert!(Iota::Pattern(HexPattern::new(HexDir::East, vec![])).is_truthy());
}

#[test]
fn iota_clone_is_deep() {
    let i = Iota::List(vec![
        Iota::String("a".to_string()),
        Iota::List(vec![Iota::Pattern(HexPattern::new(HexDir::West, vec![HexDir::East]))]),
    ]);
    assert_eq!(i.clone(), i);
}

#[test]
fn registry_finds_first_type_with_id() {
    let mut reg = IotaTypeRegistry::new();
    assert!(reg.get(IotaTypeId::BOOLEAN).is_none());
    register_builtin_types(&mut reg);
    let b = reg.get(IotaTypeId::BOOLEAN).unwrap();
    assert_eq!(b.name(), "boolean");
    assert_eq!(b.color(), 0xff_ffff55);
    assert_eq!(b.id(), IotaTypeId::BOOLEAN);
    let d = reg.get(IotaTypeId::DOUBLE).unwrap();
    assert_eq!(d.name(), "double");
    assert_eq!(d.color(), 0xff_55_55_ff);
    let p = reg.get(IotaTypeId::PATTERN).unwrap();
    assert_eq!(p.name(), "pattern");
    assert_eq!(p.color(), 0xff_ff_55_ff);
    assert!(reg.get(IotaTypeId::INT).is_none());
    reg.register(&BoolIotaType);
    assert_eq!(reg.get(IotaTypeId::BOOLEAN).unwrap().name(), "boolean");
    assert_eq!(DoubleIotaType.id(), IotaTypeId::DOUBLE);
    assert_eq!(PatternIotaType.name(), "pattern");
}

#[test]
fn iota_equality_follows_f64() {

    assert_eq!(Iota::Double(0.0f64.to_bits()), Iota::Double((-0.0f64).to_bits()));
    assert_ne!(Iota::Double(f64::NAN.to_bits()), Iota::Double(f64::NAN.to_bits()));
    assert_ne!(Iota::Double(1.0f64.to_bits()), Iota::Double(2.0f64.to_bits()));
    assert_eq!(
        Iota::Vec3(0.0f64.to_bits(), 1.0f64.to_bits(), (-0.0f64).to_bits()),
        Iota::Vec3((-0.0f64).to_bits(), 1.0f64.to_bits(), 0.0f64.to_bits())
    );
    assert_eq!(
        Iota::List(vec![Iota::Double(0.0f64.to_bits()), Iota::Null]),
        Iota::List(vec![Iota::Double((-0.0f64).to_bits()), Iota::Null])
    );
    assert_ne!(Iota::List(vec![Iota::Null]), Iota::List(vec![]));
    assert_ne!(Iota::Int(1), Iota::Double(1.0f64.to_bits()));
    assert_eq!(Iota::String("a".into()), Iota::String("a".into()));
}
