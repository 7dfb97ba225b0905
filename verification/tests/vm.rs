use hexmod_yog::casting::vm::{
    actionbar_text, angle_signature, execute, finish_query, remember_player, reset, result_marker,
    resume, start_cast, use_staff, uuid_of, CastingState, Outcome, Query, Step,
};
use hexmod_yog::iota::Iota;
use hexmod_yog::math::HexPattern;

const CASTER: &str = "67e55044-10b1-426f-9247-bb680e5fe0c8";
const CASTER_U128: u128 = 0x67e55044_10b1_426f_9247_bb680e5fe0c8;

fn sig(serialized: &str) -> String {
    angle_signature(&HexPattern::from_serialized(serialized).unwrap())
}

fn done_ok(step: Step) -> &'static str {
    match step {
        Step::Done(Outcome::Success(name)) => name,
        other => panic!("unexpected step {:?}", other),
    }
}

fn done_mishap(step: Step) -> String {
    match step {
        Step::Done(Outcome::Mishap(msg)) => msg,
        other => panic!("unexpected step {:?}", other),
    }
}

#[test]
fn signatures_of_known_patterns() {
    assert_eq!(sig("BAED"), "qaq");
    assert_eq!(sig("BFD"), "aa");
    assert_eq!(sig("BBF"), "wa");
    assert_eq!(sig("BDE"), "de");
    assert_eq!(sig("BFDDFB"), "aawdd");
    assert_eq!(sig("BDAA"), "dsw");
    assert_eq!(sig("C"), "");
    // The same shape drawn rotated has the same signature.
    assert_eq!(sig("CBFE"), "qaq");
    assert_eq!(sig("ABCDEF"), "eeeee");
}

#[test]
fn minds_reflection_pushes_caster() {
    let mut stack = vec![Iota::Int(1)];
    assert_eq!(done_ok(execute("qaq", Some(5), &mut stack)), "Mind's Reflection");
    assert_eq!(stack, vec![Iota::Int(1), Iota::Entity(5)]);
    let mut stack = vec![];
    assert_eq!(done_mishap(execute("qaq", None, &mut stack)), "the caster's mind is out of reach");
    assert!(stack.is_empty());
}

#[test]
fn purifications_ask_about_entities() {
    let mut stack = vec![Iota::Null, Iota::Entity(9)];
    match execute("aa", None, &mut stack) {
        Step::Ask { entity, query } => {
            assert_eq!(entity, 9);
            assert_eq!(query, Query::Position);
        }
        other => panic!("unexpected step {:?}", other),
    }
    assert_eq!(stack, vec![Iota::Null]);
    let o = resume(Query::Position, Some((1, 2, 3)), &mut stack);
    assert!(matches!(o, Outcome::Success("Compass' Purification")));
    assert_eq!(stack, vec![Iota::Null, Iota::Vec3(1, 2, 3)]);

    let mut stack = vec![Iota::Entity(4)];
    match execute("wa", None, &mut stack) {
        Step::Ask { entity, query } => {
            assert_eq!(entity, 4);
            assert_eq!(query, Query::LookVector);
        }
        other => panic!("unexpected step {:?}", other),
    }
    let o = resume(Query::LookVector, None, &mut stack);
    match o {
        Outcome::Mishap(msg) => assert_eq!(msg, "that entity is nowhere to be found"),
        _ => panic!("expected a mishap"),
    }
    assert!(stack.is_empty());
    let o = resume(Query::LookVector, Some((7, 8, 9)), &mut stack);
    assert!(matches!(o, Outcome::Success("Alidade's Purification")));

    let mut stack = vec![Iota::Int(3)];
    assert_eq!(done_mishap(execute("aa", None, &mut stack)), "expected an entity on the stack");
    assert_eq!(stack, vec![Iota::Int(3)]);
    let mut stack = vec![];
    assert_eq!(done_mishap(execute("wa", None, &mut stack)), "the stack is empty");
}

#[test]
fn reveal_swap_clear_and_fizzle() {
    let mut stack = vec![Iota::Int(1), Iota::Int(2)];
    assert!(matches!(execute("de", None, &mut stack), Step::Reveal(Outcome::Success("Reveal"))));
    assert_eq!(stack, vec![Iota::Int(1), Iota::Int(2)]);
    assert_eq!(done_ok(execute("aawdd", None, &mut stack)), "Jester's Gambit");
    assert_eq!(stack, vec![Iota::Int(2), Iota::Int(1)]);
    assert_eq!(done_ok(execute("aawdd", None, &mut stack)), "Jester's Gambit");
    assert_eq!(stack, vec![Iota::Int(1), Iota::Int(2)]);
    assert_eq!(done_ok(execute("dsw", None, &mut stack)), "stack cleared");
    assert!(stack.is_empty());
    assert_eq!(done_mishap(execute("de", None, &mut stack)), "nothing to reveal");
    stack.push(Iota::Null);
    assert_eq!(done_mishap(execute("aawdd", None, &mut stack)), "need two iotas to swap");
    assert_eq!(done_mishap(execute("eee", None, &mut stack)), "the pattern `eee` fizzles");
    assert_eq!(done_mishap(execute("", None, &mut stack)), "the pattern `` fizzles");
    assert_eq!(stack, vec![Iota::Null]);
}

#[test]
fn players_are_remembered() {
    let mut st = CastingState::new();
    assert_eq!(uuid_of(&st, "alex"), None);
    remember_player(&mut st, "alex", CASTER);
    remember_player(&mut st, "steve", "not-a-uuid");
    assert_eq!(uuid_of(&st, "alex").as_deref(), Some(CASTER));
    remember_player(&mut st, "alex", "other");
    assert_eq!(uuid_of(&st, "alex").as_deref(), Some("other"));
    assert_eq!(uuid_of(&st, "steve").as_deref(), Some("not-a-uuid"));
}

#[test]
fn casts_run_against_each_players_stack() {
    let mut st = CastingState::new();
    remember_player(&mut st, "alex", CASTER);
    remember_player(&mut st, "steve", "not-a-uuid");

    // Mind's Reflection, drawn as its compact form.
    let step = start_cast(&mut st, "alex", b"BAED").unwrap();
    assert_eq!(done_ok(step), "Mind's Reflection");
    assert_eq!(st.stack("alex"), Some(&vec![Iota::Entity(CASTER_U128)]));

    // A caster whose UUID text does not parse has no reachable mind.
    let step = start_cast(&mut st, "steve", b"BAED").unwrap();
    assert_eq!(done_mishap(step), "the caster's mind is out of reach");
    assert_eq!(st.stack("steve"), Some(&vec![]));

    // Compass' Purification asks where the entity is.
    match start_cast(&mut st, "alex", b"BFD").unwrap() {
        Step::Ask { entity, query } => {
            assert_eq!(entity, CASTER_U128);
            assert_eq!(query, Query::Position);
        }
        other => panic!("unexpected step {:?}", other),
    }
    let o = finish_query(&mut st, "alex", Query::Position, Some((10, 20, 30)));
    assert_eq!(result_marker(&o), "#ok\tCompass' Purification");
    assert_eq!(actionbar_text(&o), "Compass' Purification");
    assert_eq!(st.stack("alex"), Some(&vec![Iota::Vec3(10, 20, 30)]));

    // Bytes that hold no pattern leave the stack alone.
    assert!(start_cast(&mut st, "alex", b"xyz").is_none());
    assert!(start_cast(&mut st, "alex", b"").is_none());
    assert_eq!(st.stack("alex"), Some(&vec![Iota::Vec3(10, 20, 30)]));

    // An unknown pattern fizzles.
    let step = start_cast(&mut st, "alex", b"ABC").unwrap();
    let msg = done_mishap(step);
    assert_eq!(msg, "the pattern `ee` fizzles");
    let o = Outcome::Mishap(msg);
    assert_eq!(result_marker(&o), "#mishap\tthe pattern `ee` fizzles");
    assert_eq!(actionbar_text(&o), "mishap: the pattern `ee` fizzles");

    reset(&mut st, "alex");
    assert_eq!(st.stack("alex"), None);
    assert_eq!(st.stack("steve"), Some(&vec![]));
}

#[test]
fn uuid_texts_in_other_forms_parse() {
    let mut st = CastingState::new();
    remember_player(&mut st, "alex", "67e5504410b1426f9247bb680e5fe0c8");
    let step = start_cast(&mut st, "alex", b"BAED").unwrap();
    assert_eq!(done_ok(step), "Mind's Reflection");
    assert_eq!(st.stack("alex"), Some(&vec![Iota::Entity(CASTER_U128)]));
}

#[test]
fn staff_use_resets_only_when_sneaking() {
    let mut st = CastingState::new();
    remember_player(&mut st, "alex", CASTER);
    // Mind's Reflection pushes the caster.
    assert!(start_cast(&mut st, "alex", b"BAED").is_some());
    assert_eq!(st.stack("alex").map(|s| s.len()), Some(1));
    assert_eq!(use_staff(&mut st, "alex", false), "");
    assert_eq!(st.stack("alex").map(|s| s.len()), Some(1));
    assert_eq!(use_staff(&mut st, "alex", true), "reset");
    assert!(st.stack("alex").is_none());
    assert_eq!(uuid_of(&st, "alex").as_deref(), Some(CASTER));
}
