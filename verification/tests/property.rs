use hexcore::property::{
    PropertyAccess, PropertyRegistry, PropertyState, PropertyUpdateEvent, PropertyValue,
};

#[test]
fn pending_then_resolved() {
    let mut reg = PropertyRegistry::new();
    // a miss is "not yet available" and registers the name as pending
    assert_eq!(reg.get("foo"), None);
    assert_eq!(reg.state_of("foo"), PropertyState::Pending);
    // one maintenance pass materializes it with an absent value
    reg.create_pending();
    let ent = reg.get("foo").expect("resolved after the maintenance pass");
    assert_eq!(reg.state_of("foo"), PropertyState::Resolved(ent));
    assert_eq!(reg.prop_value(ent), Some(PropertyValue::Absent));
    // the root grouping entity was created lazily, before the property
    assert_eq!(reg.root_entity(), Some(0));
    assert_eq!(ent, 1);
}

#[test]
fn get_registers_only_once() {
    let mut reg = PropertyRegistry::new();
    assert_eq!(reg.get("foo"), None);
    // a second miss on a pending name does not re-register it
    assert_eq!(reg.get("foo"), None);
    reg.create_pending();
    assert_eq!(reg.prop_count(), 1);
}

#[test]
fn unknown_names_stay_unknown_without_get() {
    let mut reg = PropertyRegistry::new();
    assert_eq!(reg.state_of("foo"), PropertyState::Unknown);
    reg.create_pending();
    assert_eq!(reg.state_of("foo"), PropertyState::Unknown);
    assert_eq!(reg.prop_count(), 0);
    assert_eq!(reg.root_entity(), None);
}

#[test]
fn last_write_wins_in_one_tick() {
    let mut reg = PropertyRegistry::new();
    reg.get("speed");
    reg.create_pending();
    let ent = reg.get("speed").unwrap();
    // two events for the same name queued in one tick: only the later one
    // survives
    let events = vec![
        PropertyUpdateEvent::new("speed".to_string(), PropertyValue::Bool(false)),
        PropertyUpdateEvent::new("speed".to_string(), PropertyValue::Bool(true)),
    ];
    reg.update_event_listener(&events);
    assert_eq!(reg.prop_value(ent), Some(PropertyValue::Bool(true)));
}

#[test]
fn updates_reach_canonical_value_and_caches_together() {
    let mut reg = PropertyRegistry::new();
    reg.get("label");
    reg.create_pending();
    let ent = reg.get("label").unwrap();
    let acc = reg.bind_accessor("label".to_string());
    reg.detect_change();
    let events = vec![PropertyUpdateEvent::new(
        "label".to_string(),
        PropertyValue::Text("on".to_string()),
    )];
    reg.update_event_listener(&events);
    assert_eq!(
        reg.prop_value(ent),
        Some(PropertyValue::Text("on".to_string()))
    );
    assert_eq!(
        reg.accessor(acc).cache,
        PropertyValue::Text("on".to_string())
    );
}

#[test]
fn accessor_syncs_to_resolved_value() {
    let mut reg = PropertyRegistry::new();
    // a property that already exists with value text("x")
    reg.spawn_property("name".to_string(), PropertyValue::Text("x".to_string()));
    reg.detect_change();
    assert!(matches!(reg.state_of("name"), PropertyState::Resolved(_)));
    // binding an accessor and running the very next maintenance pass pulls
    // the current value, with no update event involved
    let acc = reg.bind_accessor("name".to_string());
    reg.detect_change();
    assert_eq!(
        reg.accessor(acc).cache,
        PropertyValue::Text("x".to_string())
    );
    assert_eq!(reg.accessor(acc).name, "name".to_string());
}

#[test]
fn spawned_property_is_linked_and_parented() {
    let mut reg = PropertyRegistry::new();
    let ent = reg.spawn_property("hud".to_string(), PropertyValue::Bool(true));
    assert_eq!(reg.state_of("hud"), PropertyState::Unknown);
    reg.detect_change();
    assert_eq!(reg.state_of("hud"), PropertyState::Resolved(ent));
    assert_eq!(reg.prop_value(ent), Some(PropertyValue::Bool(true)));
    assert!(reg.root_entity().is_some());
}

#[test]
fn update_for_unknown_name_changes_nothing() {
    let mut reg = PropertyRegistry::new();
    reg.get("known");
    reg.create_pending();
    let ent = reg.get("known").unwrap();
    let events = vec![PropertyUpdateEvent::new(
        "unknown".to_string(),
        PropertyValue::Bool(true),
    )];
    reg.update_event_listener(&events);
    assert_eq!(reg.prop_value(ent), Some(PropertyValue::Absent));
    assert_eq!(reg.prop_value(99), None);
}

#[test]
fn full_tick_pipeline() {
    let mut reg = PropertyRegistry::new();
    // consumers act between ticks: a lookup miss and a direct spawn
    reg.get("a");
    reg.spawn_property("b".to_string(), PropertyValue::Color(1, 2, 3));
    // one tick: materialize, detect, apply
    reg.create_pending();
    reg.detect_change();
    let events = vec![PropertyUpdateEvent::new(
        "a".to_string(),
        PropertyValue::Bool(true),
    )];
    reg.update_event_listener(&events);
    let a = reg.get("a").expect("materialized by the tick");
    assert_eq!(reg.prop_value(a), Some(PropertyValue::Bool(true)));
    let b = reg.get("b").expect("linked by the tick");
    assert_eq!(reg.prop_value(b), Some(PropertyValue::Color(1, 2, 3)));
}

#[test]
fn value_and_access_defaults() {
    assert_eq!(PropertyValue::default(), PropertyValue::Absent);
    let acc = PropertyAccess::default();
    assert_eq!(acc.name, String::new());
    assert_eq!(acc.cache, PropertyValue::Absent);
    let v = PropertyValue::Text("t".to_string());
    assert_eq!(v.dup(), v);
    assert_eq!(
        PropertyValue::Color(7, 8, 9).dup(),
        PropertyValue::Color(7, 8, 9)
    );
}

#[test]
fn accessor_counts_and_freshness() {
    let mut reg = PropertyRegistry::new();
    reg.get("p");
    reg.create_pending();
    assert_eq!(reg.accessor_count(), 0);
    let first = reg.bind_accessor("p".to_string());
    let second = reg.bind_accessor("p".to_string());
    assert_eq!((first, second), (0, 1));
    assert_eq!(reg.accessor_count(), 2);
    reg.detect_change();
    // both fresh accessors were synchronized to the absent value
    assert_eq!(reg.accessor(0).cache, PropertyValue::Absent);
    assert_eq!(reg.accessor(1).cache, PropertyValue::Absent);
}
