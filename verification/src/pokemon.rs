use vstd::prelude::*;

verus! {

/// A named reference into the upstream API.
#[derive(Debug, Clone)]
pub struct NamedAPIResource {
    pub name: String,
}

/// An ability slot of a Pokemon.
#[derive(Debug, Clone)]
pub struct PokemonAbility {
    pub is_hidden: bool,
    pub slot: i32,
    pub ability: Option<NamedAPIResource>,
}

/// An item a Pokemon may hold.
#[derive(Debug, Clone)]
pub struct PokemonHeldItem {
    pub item: Option<NamedAPIResource>,
}

/// A move a Pokemon can learn.
#[derive(Debug, Clone)]
pub struct PokemonMove {
    pub learned: Option<NamedAPIResource>,
}

/// A base stat of a Pokemon.
#[derive(Debug, Clone)]
pub struct PokemonStat {
    pub base_stat: i32,
    pub effort: i32,
    pub stat: Option<NamedAPIResource>,
}

/// A type slot of a Pokemon.
#[derive(Debug, Clone)]
pub struct PokemonType {
    pub slot: i32,
    pub kind: Option<NamedAPIResource>,
}

/// The payload cached and served by the proxy layer. The cache treats it as
/// an opaque value; nothing here carries an invariant.
#[derive(Debug, Clone)]
pub struct Pokemon {
    pub id: i32,
    pub name: String,
    pub base_experience: i32,
    pub height: i32,
    pub is_default: bool,
    pub order: i32,
    pub weight: i32,
    pub forms: Vec<Option<NamedAPIResource>>,
    pub held_items: Vec<Option<PokemonHeldItem>>,
    pub moves: Vec<Option<PokemonMove>>,
    pub species: Option<NamedAPIResource>,
    pub stats: Vec<Option<PokemonStat>>,
    pub types: Vec<Option<PokemonType>>,
}

impl Default for Pokemon {
    /// The placeholder payload served when an upstream request fails: all
    /// numbers zero, all lists empty, and a species reference with an empty
    /// name.
    fn default() -> (r: Self)
        ensures
            r.id == 0,
            r.name@ == Seq::<char>::empty(),
            r.base_experience == 0,
            r.height == 0,
            !r.is_default,
            r.order == 0,
            r.weight == 0,
            r.forms@ == Seq::<Option<NamedAPIResource>>::empty(),
            r.held_items@ == Seq::<Option<PokemonHeldItem>>::empty(),
            r.moves@ == Seq::<Option<PokemonMove>>::empty(),
            r.species matches Some(s) && s.name@ == Seq::<char>::empty(),
            r.stats@ == Seq::<Option<PokemonStat>>::empty(),
            r.types@ == Seq::<Option<PokemonType>>::empty(),
    {
        Pokemon {
            id: 0,
            name: String::new(),
            base_experience: 0,
            height: 0,
            is_default: false,
            order: 0,
            weight: 0,
            forms: Vec::new(),
            held_items: Vec::new(),
            moves: Vec::new(),
            species: Some(NamedAPIResource { name: String::new() }),
            stats: Vec::new(),
            types: Vec::new(),
        }
    }
}

} // verus!
