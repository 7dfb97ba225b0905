use hexmod_yog::casting::actions::{
    Action, ActionId, ActionRegistry, CastResult, ResolvedPatternType,
};
use hexmod_yog::casting::mishaps::{Mishap, MishapContext};
use hexmod_yog::casting::spell_list::SpellList;
use hexmod_yog::math::{HexDir, HexPattern};

#[derive(Debug, PartialEq)]
struct Fixed {
    id: &'static str,
    pattern: HexPattern,
}

impl Action for Fixed {
    fn execute(&self, args: &SpellList) -> CastResult {
        CastResult {
            side_effects: vec![],
            new_image: Some(args.clone()),
            pattern_type: ResolvedPatternType::Execute,
        }
    }

    fn get_pattern(&self) -> &HexPattern {
        &self.pattern
    }

    fn get_id(&self) -> ActionId {
        ActionId(self.id)
    }
}

fn fixed(id: &'static str, d: HexDir) -> Fixed {
    Fixed { id, pattern: HexPattern::new(d, vec![]) }
}

#[test]
fn actions_register_by_id() {
    let mut reg = ActionRegistry::new();
    assert!(reg.get(ActionId("hexcasting:reveal")).is_none());
    reg.register(fixed("hexcasting:reveal", HexDir::East));
    reg.register(fixed("hexcasting:swap", HexDir::West));
    assert_eq!(reg.get(ActionId("hexcasting:reveal")).unwrap().get_pattern().start, HexDir::East);
    reg.register(fixed("hexcasting:reveal", HexDir::NorthEast));
    assert_eq!(reg.get(ActionId("hexcasting:reveal")).unwrap().get_pattern().start, HexDir::NorthEast);
    let mut ids: Vec<&str> = reg.all().iter().map(|a| a.get_id().0).collect();
    ids.sort();
    assert_eq!(ids, vec!["hexcasting:reveal", "hexcasting:swap"]);
    let r = reg.get(ActionId("hexcasting:swap")).unwrap().execute(&SpellList::Nil);
    assert_eq!(r.new_image, Some(SpellList::Nil));
    assert_eq!(r.pattern_type, ResolvedPatternType::Execute);
    assert!(r.side_effects.is_empty());
}

#[test]
fn mishaps_start_with_an_empty_stack() {
    let ctx = MishapContext { pattern: HexPattern::new(HexDir::East, vec![]), position: Some(2) };
    let m = Mishap::new("bad_iota", ctx);
    assert_eq!(m.name, "bad_iota");
    assert_eq!(m.context.position, Some(2));
    assert!(m.stack.is_empty());
}

#[test]
fn registries_default_to_empty() {
    let reg: ActionRegistry<Fixed> = ActionRegistry::default();
    assert!(reg.all().is_empty());
    let types = hexmod_yog::iota::IotaTypeRegistry::default();
    assert!(types.get(hexmod_yog::iota::IotaTypeId::BOOLEAN).is_none());
}
