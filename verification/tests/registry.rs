use chain_events::error::RegistrationError;
use chain_events::registry::{builtin, SizeRule, TypeSizeRegistry};

#[test]
fn integers_and_bool_are_built_in() {
    assert_eq!(builtin("bool"), Some(SizeRule::Fixed(1)));
    assert_eq!(builtin("u8"), Some(SizeRule::Fixed(1)));
    assert_eq!(builtin("i8"), Some(SizeRule::Fixed(1)));
    assert_eq!(builtin("u16"), Some(SizeRule::Fixed(2)));
    assert_eq!(builtin("i16"), Some(SizeRule::Fixed(2)));
    assert_eq!(builtin("u32"), Some(SizeRule::Fixed(4)));
    assert_eq!(builtin("i32"), Some(SizeRule::Fixed(4)));
    assert_eq!(builtin("u64"), Some(SizeRule::Fixed(8)));
    assert_eq!(builtin("i64"), Some(SizeRule::Fixed(8)));
    assert_eq!(builtin("u128"), Some(SizeRule::Fixed(16)));
    assert_eq!(builtin("i128"), Some(SizeRule::Fixed(16)));
}

#[test]
fn accounts_hashes_and_byte_strings_are_built_in() {
    assert_eq!(builtin("AccountId"), Some(SizeRule::Fixed(32)));
    assert_eq!(builtin("Hash"), Some(SizeRule::Fixed(32)));
    assert_eq!(builtin("Vec<u8>"), Some(SizeRule::Sequence(1)));
}

#[test]
fn other_names_are_not_built_in() {
    assert_eq!(builtin("OracleId"), None);
    assert_eq!(builtin(""), None);
    assert_eq!(builtin("U32"), None);
    assert_eq!(builtin("u32 "), None);
    assert_eq!(builtin("accountid"), None);
}

#[test]
fn new_registry_resolves_built_in_names_only() {
    let registry = TypeSizeRegistry::new();
    assert_eq!(registry.resolve("u32"), Some(SizeRule::Fixed(4)));
    assert_eq!(registry.resolve("OracleId"), None);
}

#[test]
fn registered_name_resolves_to_its_rule() {
    let mut registry = TypeSizeRegistry::new();
    assert_eq!(registry.register("OracleId", SizeRule::Fixed(4)), Ok(()));
    assert_eq!(registry.register("Moment", SizeRule::Fixed(8)), Ok(()));
    assert_eq!(registry.register("Vec<OracleId>", SizeRule::Sequence(4)), Ok(()));
    assert_eq!(registry.resolve("OracleId"), Some(SizeRule::Fixed(4)));
    assert_eq!(registry.resolve("Moment"), Some(SizeRule::Fixed(8)));
    assert_eq!(registry.resolve("Vec<OracleId>"), Some(SizeRule::Sequence(4)));
    assert_eq!(registry.resolve("oracleid"), None);
}

#[test]
fn registering_twice_with_the_same_size_changes_nothing() {
    let mut registry = TypeSizeRegistry::new();
    assert_eq!(registry.register("OracleId", SizeRule::Fixed(4)), Ok(()));
    assert_eq!(registry.register("OracleId", SizeRule::Fixed(4)), Ok(()));
    assert_eq!(registry.resolve("OracleId"), Some(SizeRule::Fixed(4)));
}

#[test]
fn registering_twice_with_another_size_is_a_conflict() {
    let mut registry = TypeSizeRegistry::new();
    assert_eq!(registry.register("OracleId", SizeRule::Fixed(4)), Ok(()));
    assert_eq!(
        registry.register("OracleId", SizeRule::Fixed(8)),
        Err(RegistrationError::Conflict)
    );
    assert_eq!(
        registry.register("OracleId", SizeRule::Sequence(4)),
        Err(RegistrationError::Conflict)
    );
    assert_eq!(registry.resolve("OracleId"), Some(SizeRule::Fixed(4)));
}

#[test]
fn width_of_zero_is_turned_down() {
    let mut registry = TypeSizeRegistry::new();
    assert_eq!(
        registry.register("Nothing", SizeRule::Fixed(0)),
        Err(RegistrationError::InvalidSize)
    );
    assert_eq!(
        registry.register("Nothings", SizeRule::Sequence(0)),
        Err(RegistrationError::InvalidSize)
    );
    assert_eq!(registry.resolve("Nothing"), None);
    assert_eq!(registry.resolve("Nothings"), None);
}

#[test]
fn width_of_zero_is_turned_down_before_the_name_is_looked_at() {
    let mut registry = TypeSizeRegistry::new();
    assert_eq!(registry.register("OracleId", SizeRule::Fixed(4)), Ok(()));
    assert_eq!(
        registry.register("OracleId", SizeRule::Fixed(0)),
        Err(RegistrationError::InvalidSize)
    );
    assert_eq!(registry.register("u32", SizeRule::Fixed(0)), Err(RegistrationError::InvalidSize));
}

#[test]
fn built_in_name_takes_its_own_rule_only() {
    let mut registry = TypeSizeRegistry::new();
    assert_eq!(registry.register("u32", SizeRule::Fixed(4)), Ok(()));
    assert_eq!(registry.register("u32", SizeRule::Fixed(8)), Err(RegistrationError::Conflict));
    assert_eq!(
        registry.register("AccountId", SizeRule::Fixed(20)),
        Err(RegistrationError::Conflict)
    );
    assert_eq!(registry.resolve("u32"), Some(SizeRule::Fixed(4)));
    assert_eq!(registry.resolve("AccountId"), Some(SizeRule::Fixed(32)));
}

#[test]
fn rule_validity() {
    assert!(SizeRule::Fixed(1).valid());
    assert!(SizeRule::Sequence(1).valid());
    assert!(!SizeRule::Fixed(0).valid());
    assert!(!SizeRule::Sequence(0).valid());
}
