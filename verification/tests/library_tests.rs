use pokecache::cache::InmemoryCache;
use pokecache::error::AppError;
use pokecache::pokemon::Pokemon;

#[test]
fn test_pokemon_default_is_placeholder() {
    let p = Pokemon::default();
    assert_eq!(p.id, 0);
    assert_eq!(p.name, "");
    assert_eq!(p.base_experience, 0);
    assert_eq!(p.height, 0);
    assert!(!p.is_default);
    assert_eq!(p.order, 0);
    assert_eq!(p.weight, 0);
    assert!(p.forms.is_empty());
    assert!(p.held_items.is_empty());
    assert!(p.moves.is_empty());
    assert_eq!(p.species.unwrap().name, "");
    assert!(p.stats.is_empty());
    assert!(p.types.is_empty());
}

#[test]
fn test_pokemon_values_round_trip_through_cache() {
    let mut cache: InmemoryCache<Pokemon> = InmemoryCache::with_defaults();
    let mut p = Pokemon::default();
    p.id = 25;
    p.name = "pikachu".to_string();
    assert!(cache.insert_at("25".to_string(), p, 1).is_ok());
    let back = cache.get_at("25", 1).unwrap();
    assert_eq!(back.id, 25);
    assert_eq!(back.name, "pikachu");
}

#[test]
fn test_app_error_messages() {
    assert_eq!(
        AppError::ConfigError("bad toml".to_string()).message(),
        "Configuration error: bad toml"
    );
    assert_eq!(
        AppError::NetworkError("timeout".to_string()).message(),
        "Network error: timeout"
    );
    assert_eq!(
        AppError::CacheError("poisoned".to_string()).message(),
        "Cache error: poisoned"
    );
    assert_eq!(
        AppError::ParseError("bad json".to_string()).message(),
        "Parse error: bad json"
    );
}
