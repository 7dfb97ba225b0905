//! Action registry and action definitions.

use vstd::prelude::*;
use crate::casting::spell_list::SpellList;
use crate::casting::vm::NameMap;
use crate::math::HexPattern;

verus! {

/// The identifier of an action.
#[derive(Debug, Clone, Copy, PartialEq, Eq, Hash)]
pub struct ActionId(pub &'static str);

/// What running an action produced.
#[derive(Debug, Clone, PartialEq)]
pub struct CastResult {
    pub side_effects: Vec<SideEffect>,
    pub new_image: Option<SpellList>,
    pub pattern_type: ResolvedPatternType,
}

#[derive(Debug, Clone, Copy, PartialEq, Eq, Structural)]
pub enum ResolvedPatternType {
    Execute,
    Escape,
    Invalid,
}

/// Side effects of an action. No real side effect is defined yet; the one
/// variant stands for "none".
#[derive(Debug, Clone, Copy, PartialEq, Eq, Structural)]
pub enum SideEffect {
    Nothing,
}

/// An action that a pattern can invoke. Actions are written by the users
/// of the library; of what their methods return, only that `get_id` reports
/// the action's identifier `spec_id` is relied on.
pub trait Action {
    /// The identifier text of the action. An implementation whose `get_id`
    /// is verified defines it; by default nothing is known of it.
    open spec fn spec_id(&self) -> Seq<char> {
        vstd::pervasive::arbitrary()
    }

    fn execute(&self, args: &SpellList) -> CastResult;

    fn get_pattern(&self) -> &HexPattern;

    fn get_id(&self) -> (r: ActionId)
        ensures
            r.0@ == self.spec_id(),
    ;
}

/// Actions by identifier: registering an action replaces any with the same
/// identifier.
pub struct ActionRegistry<A: Action> {
    actions: NameMap<A>,
}

impl<A: Action> ActionRegistry<A> {
    /// The registered actions, by identifier text.
    pub closed spec fn view(&self) -> Map<Seq<char>, A> {
        self.actions@
    }

    pub fn new() -> (r: Self)
        ensures
            r@ == Map::<Seq<char>, A>::empty(),
    {
        ActionRegistry { actions: NameMap::new() }
    }

    /// Register an action under its identifier (what its `get_id` reports),
    /// replacing any action registered under it.
    pub fn register(&mut self, action: A)
        ensures
            final(self)@ == old(self)@.insert(action.spec_id(), action),
    {
        let id = action.get_id();
        self.actions.insert(id.0, action);
    }

    /// The registered action with identifier `id`, if any.
    pub fn get(&self, id: ActionId) -> (r: Option<&A>)
        ensures
            r is None <==> !self@.contains_key(id.0@),
            r matches Some(a) ==> *a == self@[id.0@],
    {
        self.actions.get(id.0)
    }

    /// The identifier texts of the registered actions, in the order `all`
    /// lists them.
    pub closed spec fn order(&self) -> Seq<Seq<char>> {
        self.actions.order()
    }

    /// Every registered action, each once: one per identifier, in the order
    /// `order`.
    pub fn all(&self) -> (r: Vec<&A>)
        ensures
            r@.len() == self.order().len(),
            self.order().no_duplicates(),
            forall|n: Seq<char>| self@.contains_key(n) <==> self.order().contains(n),
            forall|k: int| 0 <= k < r@.len() ==> *r@[k] == self@[#[trigger] self.order()[k]],
    {
        self.actions.values()
    }
}

impl<A: Action> Default for ActionRegistry<A> {
    /// An empty registry.
    fn default() -> (r: Self)
        ensures
            r@ == Map::<Seq<char>, A>::empty(),
    {
        ActionRegistry::new()
    }
}

} // verus!
