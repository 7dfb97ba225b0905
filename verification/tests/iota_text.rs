use hexmod_yog::casting::vm::{display_iota, entity_text, stack_packet, Outcome};
use hexmod_yog::iota::{Iota, TextPart};
use hexmod_yog::math::{HexDir, HexPattern};

/// Render text parts the way the mod does: doubles with Rust's formatting.
fn render(parts: &[TextPart]) -> String {
    let mut s = String::new();
    for p in parts {
        match p {
            TextPart::Text(t) => s.push_str(t),
            TextPart::Double(d) => s.push_str(&format!("{}", f64::from_bits(*d))),
            TextPart::Fixed(d, n) => s.push_str(&format!("{:.*}", *n as usize, f64::from_bits(*d))),
        }
    }
    s
}

fn parse_double(t: &str) -> Option<u64> {
    t.parse::<f64>().ok().map(f64::to_bits)
}

fn close(a: u64, b: u64) -> bool {
    (f64::from_bits(a) - f64::from_bits(b)).abs() < 1e-9
}

fn d(x: f64) -> u64 {
    x.to_bits()
}

const UUID_TEXT: &str = "67e55044-10b1-426f-9247-bb680e5fe0c8";
const UUID_U128: u128 = 0x67e55044_10b1_426f_9247_bb680e5fe0c8;

#[test]
fn serialize_forms() {
    assert_eq!(render(&Iota::Boolean(true).serialize()), "bool:true");
    assert_eq!(render(&Iota::Double(d(2.5)).serialize()), "double:2.5");
    assert_eq!(render(&Iota::Int(-42).serialize()), "int:-42");
    assert_eq!(render(&Iota::Int(i64::MIN).serialize()), "int:-9223372036854775808");
    assert_eq!(render(&Iota::Int(0).serialize()), "int:0");
    assert_eq!(render(&Iota::String("hi there".to_string()).serialize()), "str:hi there");
    assert_eq!(render(&Iota::Entity(UUID_U128).serialize()), format!("entity:{}", UUID_TEXT));
    assert_eq!(render(&Iota::Vec3(d(1.0), d(-2.5), d(0.0)).serialize()), "vec3:1 -2.5 0");
    let p = HexPattern::new(HexDir::East, vec![HexDir::NorthEast, HexDir::West]);
    assert_eq!(render(&Iota::Pattern(p.clone()).serialize()), "pattern:BAE");
    assert_eq!(render(&Iota::Null.serialize()), "null");
    let list = Iota::List(vec![Iota::Int(1), Iota::Null, Iota::Boolean(false)]);
    assert_eq!(render(&list.serialize()), "list:[int:1,null,bool:false]");
    assert_eq!(render(&Iota::List(vec![]).serialize()), "list:[]");
}

#[test]
fn display_names() {
    assert_eq!(render(&Iota::Boolean(false).display_name()), "false");
    assert_eq!(render(&Iota::Double(d(0.5)).display_name()), "0.5");
    assert_eq!(render(&Iota::Int(7).display_name()), "7");
    assert_eq!(render(&Iota::String("x".to_string()).display_name()), "\"x\"");
    assert_eq!(render(&Iota::Entity(1).display_name()), "Entity");
    assert_eq!(render(&Iota::Vec3(d(1.0), d(2.0), d(3.5)).display_name()), "(1, 2, 3.5)");
    let p = HexPattern::new(HexDir::West, vec![]);
    assert_eq!(render(&Iota::Pattern(p).display_name()), "Pattern(E)");
    assert_eq!(render(&Iota::List(vec![Iota::Null]).display_name()), "List");
    assert_eq!(render(&Iota::Null.display_name()), "Null");
}

#[test]
fn stack_lines() {
    assert_eq!(render(&display_iota(&Iota::Double(d(3.14159)))), "3.14");
    assert_eq!(render(&display_iota(&Iota::Vec3(d(1.0), d(2.25), d(-3.0)))), "(1.0, 2.2, -3.0)");
    assert_eq!(render(&display_iota(&Iota::Entity(UUID_U128))), "entity 67e55044");
    let qaq = HexPattern::from_serialized("BAED").unwrap();
    assert_eq!(render(&display_iota(&Iota::Pattern(qaq))), "pattern qaq");
    assert_eq!(render(&display_iota(&Iota::List(vec![Iota::Null, Iota::Null]))), "[2 iotas]");
    assert_eq!(render(&display_iota(&Iota::String("s".to_string()))), "\"s\"");
    assert_eq!(render(&display_iota(&Iota::Int(-3))), "-3");
    assert_eq!(render(&display_iota(&Iota::Boolean(true))), "true");
    assert_eq!(render(&display_iota(&Iota::Null)), "null");
    let stack = vec![Iota::Int(1), Iota::Boolean(false), Iota::Null];
    assert_eq!(
        render(&stack_packet(&Outcome::Success("Reveal"), &stack)),
        "#ok\tReveal\nnull\nfalse\n1"
    );
    assert_eq!(
        render(&stack_packet(&Outcome::Mishap("oops".to_string()), &vec![])),
        "#mishap\toops"
    );
}

#[test]
fn deserialize_forms() {
    let de = |s: &str| Iota::deserialize(s, &parse_double);
    assert_eq!(de("bool:true"), Some(Iota::Boolean(true)));
    assert_eq!(de("bool:yes"), None);
    assert_eq!(de("double:2.5"), Some(Iota::Double(d(2.5))));
    assert_eq!(de("double:abc"), None);
    assert_eq!(de("int:-17"), Some(Iota::Int(-17)));
    assert_eq!(de("int:+8"), Some(Iota::Int(8)));
    assert_eq!(de("int:9223372036854775807"), Some(Iota::Int(i64::MAX)));
    assert_eq!(de("int:-9223372036854775808"), Some(Iota::Int(i64::MIN)));
    assert_eq!(de("int:9223372036854775808"), None);
    assert_eq!(de("int:"), None);
    assert_eq!(de("int:-"), None);
    assert_eq!(de("int:1x"), None);
    assert_eq!(de("str:a,b"), Some(Iota::String("a,b".to_string())));
    assert_eq!(de(&format!("entity:{}", UUID_TEXT)), Some(Iota::Entity(UUID_U128)));
    assert_eq!(de("entity:nope"), None);
    assert_eq!(de("vec3:1 2.5  -3"), Some(Iota::Vec3(d(1.0), d(2.5), d(-3.0))));
    assert_eq!(de("vec3:1 2"), None);
    assert_eq!(de("vec3:1 2 x"), None);
    assert_eq!(
        de("pattern:BAE"),
        Some(Iota::Pattern(HexPattern::new(HexDir::East, vec![HexDir::NorthEast, HexDir::West])))
    );
    assert_eq!(de("pattern:"), None);
    assert_eq!(de("list:[int:1,junk,null]"), Some(Iota::List(vec![Iota::Int(1), Iota::Null])));
    assert_eq!(de("list:[]"), Some(Iota::List(vec![])));
    assert_eq!(de("list:[int:1"), None);
    assert_eq!(de("null"), Some(Iota::Null));
    assert_eq!(de("nul"), None);
    assert_eq!(de(""), None);
}

#[test]
fn serialize_then_deserialize() {
    let items = vec![
        Iota::Boolean(false),
        Iota::Double(d(-0.125)),
        Iota::Int(123456789),
        Iota::String("plain".to_string()),
        Iota::Entity(UUID_U128),
        Iota::Vec3(d(1.5), d(2.0), d(-7.25)),
        Iota::Pattern(HexPattern::new(HexDir::SouthWest, vec![HexDir::East])),
        Iota::Null,
    ];
    for i in &items {
        let text = render(&i.serialize());
        assert_eq!(Iota::deserialize(&text, &parse_double).as_ref(), Some(i));
    }
    let flat = Iota::List(vec![Iota::Int(1), Iota::Null, Iota::Boolean(true)]);
    let text = render(&flat.serialize());
    assert_eq!(Iota::deserialize(&text, &parse_double), Some(flat));
}

#[test]
fn tolerance() {
    let tol = |a: &Iota, b: &Iota| a.tolerates(b, &close);
    assert!(tol(&Iota::Double(d(1.0)), &Iota::Double(d(1.0 + 1e-12))));
    assert!(!tol(&Iota::Double(d(1.0)), &Iota::Double(d(1.001))));
    assert!(!tol(&Iota::Double(d(1.0)), &Iota::Int(1)));
    assert!(tol(&Iota::Int(3), &Iota::Int(3)));
    assert!(!tol(&Iota::Int(3), &Iota::Int(4)));
    assert!(tol(&Iota::String("a".into()), &Iota::String("a".into())));
    assert!(!tol(&Iota::String("a".into()), &Iota::String("b".into())));
    assert!(tol(&Iota::Vec3(d(1.0), d(2.0), d(3.0)), &Iota::Vec3(d(1.0), d(2.0), d(3.0 + 1e-10))));
    assert!(!tol(&Iota::Vec3(d(1.0), d(2.0), d(3.0)), &Iota::Vec3(d(1.0), d(2.1), d(3.0))));
    let p = HexPattern::new(HexDir::East, vec![HexDir::West]);
    let q = HexPattern::new(HexDir::East, vec![HexDir::East]);
    assert!(tol(&Iota::Pattern(p.clone()), &Iota::Pattern(p.clone())));
    assert!(!tol(&Iota::Pattern(p.clone()), &Iota::Pattern(q)));
    assert!(tol(
        &Iota::List(vec![Iota::Double(d(0.5)), Iota::Null]),
        &Iota::List(vec![Iota::Double(d(0.5 + 1e-12)), Iota::Null])
    ));
    assert!(!tol(&Iota::List(vec![Iota::Null]), &Iota::List(vec![Iota::Null, Iota::Null])));
    assert!(!tol(&Iota::List(vec![Iota::Null]), &Iota::List(vec![Iota::Boolean(false)])));
    assert!(tol(&Iota::Null, &Iota::Null));
    assert!(tol(&Iota::Entity(5), &Iota::Entity(5)));
    assert!(!tol(&Iota::Boolean(true), &Iota::Boolean(false)));
}

#[test]
fn list_storage_roundtrip() {
    let list = Iota::List(vec![
        Iota::String("hex".to_string()),
        Iota::Entity(UUID_U128),
        Iota::Pattern(HexPattern::new(HexDir::NorthEast, vec![HexDir::West, HexDir::West])),
        Iota::Int(-42),
        Iota::Boolean(true),
        Iota::Null,
    ]);
    let text = render(&list.serialize());
    assert_eq!(
        text,
        format!("list:[str:hex,entity:{},pattern:AEE,int:-42,bool:true,null]", UUID_TEXT)
    );
    assert_eq!(Iota::deserialize(&text, &parse_double), Some(list));
    let empty = Iota::List(vec![]);
    assert_eq!(Iota::deserialize(&render(&empty.serialize()), &parse_double), Some(empty));
    // A string holding a comma is split when read back: the law needs
    // comma-free strings.
    let split = Iota::List(vec![Iota::String("a,b".to_string())]);
    assert_ne!(Iota::deserialize(&render(&split.serialize()), &parse_double), Some(split));
}

#[test]
fn entity_text_is_hyphenated() {
    assert_eq!(entity_text(UUID_U128), UUID_TEXT);
    assert_eq!(entity_text(0), "00000000-0000-0000-0000-000000000000");
}

#[test]
fn tolerance_is_symmetric() {
    let tol = |a: &Iota, b: &Iota| a.tolerates(b, &close);
    let pairs = vec![
        (Iota::Double(d(1.0)), Iota::Double(d(1.0 + 1e-12))),
        (Iota::Double(d(1.0)), Iota::Double(d(2.0))),
        (Iota::Int(1), Iota::Double(d(1.0))),
        (Iota::List(vec![Iota::Null]), Iota::List(vec![Iota::Null, Iota::Null])),
        (Iota::String("x".into()), Iota::String("x".into())),
    ];
    for (a, b) in &pairs {
        assert_eq!(tol(a, b), tol(b, a));
    }
}
