//! The kind of cognitive event that a memory tile records.
use vstd::prelude::*;

verus! {

/// The type of a memory tile: what kind of cognitive event it records.
#[derive(Debug, Clone)]
pub enum TileType {
    /// What happened: a perception or event.
    Observation,
    /// What was done: an action taken.
    Action,
    /// Internal reasoning: a thought.
    Thought,
    /// A choice made, with provenance.
    Decision,
    /// Consolidation produced during an idle or dream phase.
    Dream,
    /// Something went wrong.
    Error,
    /// Data from a sensor or port.
    Signal,
    /// Output sent to a user or agent.
    Response,
    /// Custom tile type with a free-form label.
    Custom(String),
}

/// Two tile types are equal when they are the same variant and, for custom
/// types, carry the same label.
pub open spec fn tile_type_eq(a: TileType, b: TileType) -> bool {
    match (a, b) {
        (TileType::Observation, TileType::Observation) => true,
        (TileType::Action, TileType::Action) => true,
        (TileType::Thought, TileType::Thought) => true,
        (TileType::Decision, TileType::Decision) => true,
        (TileType::Dream, TileType::Dream) => true,
        (TileType::Error, TileType::Error) => true,
        (TileType::Signal, TileType::Signal) => true,
        (TileType::Response, TileType::Response) => true,
        (TileType::Custom(x), TileType::Custom(y)) => x@ == y@,
        _ => false,
    }
}

/// Two tile types are the same kind when they are the same variant, whatever
/// the label of a custom type.
pub open spec fn same_kind(a: TileType, b: TileType) -> bool {
    match (a, b) {
        (TileType::Observation, TileType::Observation) => true,
        (TileType::Action, TileType::Action) => true,
        (TileType::Thought, TileType::Thought) => true,
        (TileType::Decision, TileType::Decision) => true,
        (TileType::Dream, TileType::Dream) => true,
        (TileType::Error, TileType::Error) => true,
        (TileType::Signal, TileType::Signal) => true,
        (TileType::Response, TileType::Response) => true,
        (TileType::Custom(_), TileType::Custom(_)) => true,
        _ => false,
    }
}

/// The lower-case name under which a tile type is shown.
pub open spec fn display_of(t: TileType) -> Seq<char> {
    match t {
        TileType::Observation => "observation"@,
        TileType::Action => "action"@,
        TileType::Thought => "thought"@,
        TileType::Decision => "decision"@,
        TileType::Dream => "dream"@,
        TileType::Error => "error"@,
        TileType::Signal => "signal"@,
        TileType::Response => "response"@,
        TileType::Custom(s) => "custom:"@ + s@,
    }
}

impl PartialEq for TileType {
    fn eq(&self, other: &Self) -> (r: bool) {
        match (self, other) {
            (TileType::Observation, TileType::Observation) => true,
            (TileType::Action, TileType::Action) => true,
            (TileType::Thought, TileType::Thought) => true,
            (TileType::Decision, TileType::Decision) => true,
            (TileType::Dream, TileType::Dream) => true,
            (TileType::Error, TileType::Error) => true,
            (TileType::Signal, TileType::Signal) => true,
            (TileType::Response, TileType::Response) => true,
            (TileType::Custom(x), TileType::Custom(y)) => *x == *y,
            _ => false,
        }
    }
}

impl vstd::std_specs::cmp::PartialEqSpecImpl for TileType {
    open spec fn obeys_eq_spec() -> bool {
        true
    }

    open spec fn eq_spec(&self, other: &TileType) -> bool {
        tile_type_eq(*self, *other)
    }
}

impl TileType {
    /// True for externally observable events: observations, actions,
    /// signals and responses.
    pub fn is_observable(&self) -> (r: bool)
        ensures
            r == (self is Observation || self is Action || self is Signal || self is Response),
    {
        match self {
            TileType::Observation | TileType::Action | TileType::Signal | TileType::Response => true,
            _ => false,
        }
    }

    /// True for internal cognitive events: thoughts, decisions and dreams.
    pub fn is_internal(&self) -> (r: bool)
        ensures
            r == (self is Thought || self is Decision || self is Dream),
    {
        match self {
            TileType::Thought | TileType::Decision | TileType::Dream => true,
            _ => false,
        }
    }

    /// True when both are the same variant (a custom type matches any custom
    /// type, whatever its label).
    pub fn same_kind_as(&self, other: &TileType) -> (r: bool)
        ensures
            r == same_kind(*self, *other),
    {
        match (self, other) {
            (TileType::Observation, TileType::Observation) => true,
            (TileType::Action, TileType::Action) => true,
            (TileType::Thought, TileType::Thought) => true,
            (TileType::Decision, TileType::Decision) => true,
            (TileType::Dream, TileType::Dream) => true,
            (TileType::Error, TileType::Error) => true,
            (TileType::Signal, TileType::Signal) => true,
            (TileType::Response, TileType::Response) => true,
            (TileType::Custom(_), TileType::Custom(_)) => true,
            _ => false,
        }
    }

    /// The lower-case name of the tile type; a custom type shows as
    /// `custom:` followed by its label.
    pub fn to_string(&self) -> (r: String)
        ensures
            r@ == display_of(*self),
    {
        match self {
            TileType::Observation => "observation".to_string(),
            TileType::Action => "action".to_string(),
            TileType::Thought => "thought".to_string(),
            TileType::Decision => "decision".to_string(),
            TileType::Dream => "dream".to_string(),
            TileType::Error => "error".to_string(),
            TileType::Signal => "signal".to_string(),
            TileType::Response => "response".to_string(),
            TileType::Custom(s) => "custom:".to_string().concat(s.as_str()),
        }
    }
}

} // verus!
