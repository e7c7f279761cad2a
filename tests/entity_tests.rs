use custom_ecs::{Entity, Parent};

#[test]
fn entity_new_keeps_identifier() {
    let e = Entity::new(42);
    assert_eq!(e.id(), 42);
    assert_eq!(e, Entity(42));
}

#[test]
fn parent_records_entity() {
    let p = Parent::new(Entity::new(7));
    assert_eq!(p.parent, Entity(7));
}
