use vstd::prelude::*;

verus! {

/// Configuration for the in-memory cache.
///
/// `kind` is an advisory feature flag: the cache counts as enabled when it
/// equals `"memory"`. `max_size` bounds the number of entries, and
/// `expiration` is the time-to-live in seconds applied to every entry.
#[derive(Debug, Clone)]
pub struct CacheConfig {
    pub kind: String,
    pub max_size: u32,
    pub expiration: u32,
}

/// Settings for the upstream API client. The cache itself never reads these;
/// they travel with [`Config`] for the callers that do.
#[derive(Debug, Clone)]
pub struct PokemonConfig {
    pub api_url: String,
    pub timeout: u32,
    pub cache_enabled: bool,
}

/// Top-level configuration: upstream client settings plus cache settings.
#[derive(Debug, Clone)]
pub struct Config {
    pub pokemon: PokemonConfig,
    pub cache: CacheConfig,
}

} // verus!
