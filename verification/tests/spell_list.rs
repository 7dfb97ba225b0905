use hexmod_yog::casting::spell_list::SpellList;
use hexmod_yog::iota::Iota;

#[test]
fn test_spell_list_basic() {
    let list = SpellList::from_vec(vec![
        Iota::Boolean(true),
        Iota::Double(3.14f64.to_bits()),
        Iota::Null,
    ]);
    assert_eq!(list.len(), 3);
    assert_eq!(list.car(), Some(&Iota::Boolean(true)));
}

#[test]
fn test_modify_at() {
    let list = SpellList::from_vec(vec![
        Iota::Int(1),
        Iota::Int(2),
        Iota::Int(3),
    ]);
    let modified = list.modify_at(1, |_sub| {
        SpellList::from_vec(vec![Iota::Int(42)])
    });
    let vec = modified.to_vec();
    assert_eq!(vec, vec![Iota::Int(1), Iota::Int(42)]);
}

fn pair_list() -> SpellList {
    SpellList::Pair(
        Box::new(Iota::Int(7)),
        Box::new(SpellList::Array { idx: 1, data: vec![Iota::Null, Iota::Int(8), Iota::Int(9)] }),
    )
}

#[test]
fn spell_list_pair_and_array_flatten() {
    let list = pair_list();
    assert_eq!(list.len(), 3);
    assert_eq!(list.to_vec(), vec![Iota::Int(7), Iota::Int(8), Iota::Int(9)]);
    assert_eq!(list.get_at(0), Some(Iota::Int(7)));
    assert_eq!(list.get_at(2), Some(Iota::Int(9)));
    assert_eq!(list.get_at(3), None);
}

#[test]
fn spell_list_cdr_steps() {
    let list = pair_list();
    let rest = list.cdr().unwrap();
    assert_eq!(rest.to_vec(), vec![Iota::Int(8), Iota::Int(9)]);
    let rest2 = rest.cdr().unwrap();
    assert_eq!(rest2, SpellList::Array { idx: 2, data: vec![Iota::Null, Iota::Int(8), Iota::Int(9)] });
    let rest3 = rest2.cdr().unwrap();
    assert_eq!(rest3, SpellList::Nil);
    assert_eq!(rest3.cdr(), None);
    assert!(rest3.is_empty());
    assert_eq!(rest3.car(), None);
}

#[test]
fn spell_list_empty_array_is_not_nil() {
    let list = SpellList::from_vec(vec![]);
    assert!(!list.is_empty());
    assert_eq!(list.len(), 0);
    assert_eq!(list.car(), None);
    assert_eq!(list.cdr(), Some(SpellList::Nil));
    let past = SpellList::Array { idx: 5, data: vec![Iota::Null] };
    assert_eq!(past.len(), 0);
    assert_eq!(past.car(), None);
}

#[test]
fn spell_list_modify_out_of_range_keeps_items() {
    let list = SpellList::from_vec(vec![Iota::Int(1), Iota::Int(2)]);
    let modified = list.modify_at(2, |_sub| SpellList::Nil);
    assert_eq!(modified.to_vec(), vec![Iota::Int(1), Iota::Int(2)]);
    let modified = list.modify_at(0, |sub| sub.cdr().unwrap());
    assert_eq!(modified.to_vec(), vec![Iota::Int(2)]);
}

#[test]
fn spell_list_iterators() {
    let list = pair_list();
    let mut it = list.iter();
    assert_eq!(it.next(), Some(Iota::Int(7)));
    assert_eq!(it.next(), Some(Iota::Int(8)));
    assert_eq!(it.next(), Some(Iota::Int(9)));
    assert_eq!(it.next(), None);
    assert_eq!(it.next(), None);
    let mut it = SpellList::from_vec(vec![Iota::Boolean(false)]).into_iter();
    assert_eq!(it.next(), Some(Iota::Boolean(false)));
    assert_eq!(it.next(), None);
}

#[test]
fn spell_list_clone_and_default() {
    let list = pair_list();
    let copy = list.clone();
    assert_eq!(copy, list);
    assert_eq!(SpellList::default(), SpellList::Nil);
}

#[test]
fn spell_list_cdr_of_last_is_nil() {
    let list = SpellList::from_vec(vec![Iota::Int(5)]);
    let rest = list.cdr().unwrap();
    assert!(rest.is_empty());
    assert_eq!(rest, SpellList::Nil);
}
