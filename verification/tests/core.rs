use arch_core::archetype::ArchetypeIdx;
use arch_core::archetype::ArchetypeRow;
use arch_core::component::ComponentDescriptor;
use arch_core::component::ComponentId;
use arch_core::component::ComponentLayout;
use arch_core::component::Components;
use arch_core::entity::Entities;
use arch_core::entity::EntityLocation;
use arch_core::graph::Archetypes;
use arch_core::system::HasExpr;
use arch_core::system::Notification;
use arch_core::system::RefreshArchetypeReason;
use arch_core::system::SystemInfo;

fn desc(name: &str, key: u64, size: usize, align: usize) -> ComponentDescriptor {
    ComponentDescriptor {
        name: name.to_string(),
        type_id: Some(key),
        layout: ComponentLayout { size, align },
        drop: false,
    }
}

/// Registers A (4 bytes), B (8 bytes), C (1 byte) and returns the registry.
fn abc_registry() -> Components {
    let mut comps = Components::new();
    let (a, fresh_a) = comps.add(desc("A", 100, 4, 4));
    let (b, fresh_b) = comps.add(desc("B", 200, 8, 8));
    let (c, fresh_c) = comps.add(desc("C", 300, 1, 1));
    assert!(fresh_a && fresh_b && fresh_c);
    assert_eq!(a, ComponentId(0));
    assert_eq!(b, ComponentId(1));
    assert_eq!(c, ComponentId(2));
    comps
}

#[test]
fn register_components_stable_indices() {
    let mut comps = abc_registry();
    assert_eq!(comps.len(), 3);
    // re-registering a known type identity returns the existing id
    let (again, fresh) = comps.add(desc("A", 100, 4, 4));
    assert!(!fresh);
    assert_eq!(again, ComponentId(0));
    assert_eq!(comps.len(), 3);
    let info = comps.get(ComponentId(1)).unwrap();
    assert_eq!(info.name(), "B");
    assert_eq!(info.layout().size, 8);
    let by_key = comps.get_by_type_id(300).unwrap();
    assert_eq!(by_key.id(), ComponentId(2));
    assert_eq!(by_key.id().index().0, 2);
    assert!(comps.get(ComponentId(9)).is_none());
    assert!(comps.get_by_type_id(777).is_none());
}

#[test]
fn spawn_and_first_move() {
    let comps = abc_registry();
    let mut world = Archetypes::new();
    let mut entities = Entities::new();
    let no_systems: Vec<SystemInfo> = Vec::new();

    let (e0, row0) = world.spawn_entity(&mut entities);
    assert_eq!(e0, 0);
    assert_eq!(row0, ArchetypeRow(0));
    assert_eq!(entities.get(e0).unwrap(), EntityLocation {
        archetype: ArchetypeIdx(0),
        row: ArchetypeRow(0),
    });

    // EMPTY --A--> X = {A}, created with index 1
    let (x, notifs) = world.traverse_insert(ArchetypeIdx(0), ComponentId(0).index(), &comps, &no_systems);
    assert_eq!(x, ArchetypeIdx(1));
    assert!(notifs.is_empty());

    // a system reading A over archetypes with A hears about X's storage
    let sys = SystemInfo {
        id: 42,
        priority: 0,
        access: vec![0],
        expr: HasExpr::Has(0),
        entity_event: None,
        entity_event_expr: None,
    };
    let new_notifs = world.register_system(&sys);
    assert_eq!(new_notifs, vec![Notification {
        reason: RefreshArchetypeReason::New,
        archetype: ArchetypeIdx(1),
        system: 42,
    }]);

    // move e0 into X carrying the value of A
    let value: Vec<u8> = vec![0xEF, 0xBE, 0xAD, 0xDE];
    let news = vec![(0u32, value.clone())];
    let (dst_row, notifs) = world.move_entity(
        EntityLocation { archetype: ArchetypeIdx(0), row: ArchetypeRow(0) },
        ArchetypeIdx(1),
        &news,
        &mut entities,
    );
    assert_eq!(dst_row, ArchetypeRow(0));
    // the empty archetype has no listeners, so no Empty record; X's listener
    // hears RefreshPointers then Nonempty, in that order
    assert_eq!(notifs, vec![
        Notification {
            reason: RefreshArchetypeReason::RefreshPointers,
            archetype: ArchetypeIdx(1),
            system: 42,
        },
        Notification {
            reason: RefreshArchetypeReason::Nonempty,
            archetype: ArchetypeIdx(1),
            system: 42,
        },
    ]);
    assert_eq!(entities.get(e0).unwrap(), EntityLocation {
        archetype: ArchetypeIdx(1),
        row: ArchetypeRow(0),
    });
    let xa = world.get(ArchetypeIdx(1)).unwrap();
    assert_eq!(xa.entity_count(), 1);
    let col = xa.column_of(ComponentId(0).index()).unwrap();
    assert_eq!(col.len(), 1);
    assert_eq!(col.data().as_slice(), &[0xEF, 0xBE, 0xAD, 0xDE]);
    assert_eq!(world.empty().entity_count(), 0);
}

#[test]
fn add_component_and_edge_cache() {
    let comps = abc_registry();
    let mut world = Archetypes::new();
    let mut entities = Entities::new();
    let no_systems: Vec<SystemInfo> = Vec::new();

    let (e0, _) = world.spawn_entity(&mut entities);
    let (x, _) = world.traverse_insert(ArchetypeIdx(0), ComponentId(0).index(), &comps, &no_systems);
    let news = vec![(0u32, vec![0xEF, 0xBE, 0xAD, 0xDE])];
    world.move_entity(
        EntityLocation { archetype: ArchetypeIdx(0), row: ArchetypeRow(0) },
        x,
        &news,
        &mut entities,
    );

    // X --C--> Y = {A, C}, created with index 2 and a seeded reverse edge
    let (y, _) = world.traverse_insert(x, ComponentId(2).index(), &comps, &no_systems);
    assert_eq!(y, ArchetypeIdx(2));
    assert_eq!(world.get(y).unwrap().remove_edge(2), Some(x.0));
    assert_eq!(world.get(x).unwrap().insert_edge(2), Some(y.0));

    // the move merges the transferred A with the supplied C
    let news = vec![(2u32, vec![7u8])];
    let (row, _) = world.move_entity(
        EntityLocation { archetype: x, row: ArchetypeRow(0) },
        y,
        &news,
        &mut entities,
    );
    assert_eq!(row, ArchetypeRow(0));
    assert_eq!(world.get(x).unwrap().entity_count(), 0);
    assert_eq!(
        world.get(x).unwrap().column_of(ComponentId(0).index()).unwrap().len(),
        0
    );
    let ya = world.get(y).unwrap();
    assert_eq!(ya.component_indices(), vec![0, 2]);
    assert_eq!(
        ya.column_of(ComponentId(0).index()).unwrap().data().as_slice(),
        &[0xEF, 0xBE, 0xAD, 0xDE]
    );
    assert_eq!(ya.column_of(ComponentId(2).index()).unwrap().data().as_slice(), &[7u8]);
    assert_eq!(entities.get(e0).unwrap(), EntityLocation { archetype: y, row: ArchetypeRow(0) });

    // re-traversing the cached edge creates nothing new
    let count_before = world.iter().len();
    let (y_again, notifs) = world.traverse_insert(x, ComponentId(2).index(), &comps, &no_systems);
    assert_eq!(y_again, y);
    assert!(notifs.is_empty());
    assert_eq!(world.iter().len(), count_before);
    assert!(world.get_by_components(&vec![0, 2]).is_some());
    assert_eq!(world.get_by_components(&vec![0, 2]).unwrap().index(), y);
    assert!(world.get_by_components(&vec![1, 2]).is_none());
}

#[test]
fn swap_remove_patches_swapped_row() {
    let comps = abc_registry();
    let mut world = Archetypes::new();
    let mut entities = Entities::new();
    let no_systems: Vec<SystemInfo> = Vec::new();

    // e0 ends in Y = {A, C}; e1 follows it into Y at row 1
    let (e0, _) = world.spawn_entity(&mut entities);
    let (x, _) = world.traverse_insert(ArchetypeIdx(0), ComponentId(0).index(), &comps, &no_systems);
    world.move_entity(
        EntityLocation { archetype: ArchetypeIdx(0), row: ArchetypeRow(0) },
        x,
        &vec![(0u32, vec![1, 0, 0, 0])],
        &mut entities,
    );
    let (y, _) = world.traverse_insert(x, ComponentId(2).index(), &comps, &no_systems);
    world.move_entity(
        EntityLocation { archetype: x, row: ArchetypeRow(0) },
        y,
        &vec![(2u32, vec![10])],
        &mut entities,
    );
    let (e1, _) = world.spawn_entity(&mut entities);
    world.move_entity(
        EntityLocation { archetype: ArchetypeIdx(0), row: ArchetypeRow(0) },
        x,
        &vec![(0u32, vec![2, 0, 0, 0])],
        &mut entities,
    );
    world.move_entity(
        EntityLocation { archetype: x, row: ArchetypeRow(0) },
        y,
        &vec![(2u32, vec![20])],
        &mut entities,
    );
    assert_eq!(entities.get(e0).unwrap(), EntityLocation { archetype: y, row: ArchetypeRow(0) });
    assert_eq!(entities.get(e1).unwrap(), EntityLocation { archetype: y, row: ArchetypeRow(1) });

    // removing A from e0 goes to Z = {C}; e1 is swapped into row 0 of Y
    let (z, _) = world.traverse_remove(y, ComponentId(0).index(), &comps, &no_systems);
    assert_eq!(z, ArchetypeIdx(3));
    assert_eq!(world.get(z).unwrap().component_indices(), vec![2]);
    assert_eq!(world.get(z).unwrap().insert_edge(0), Some(y.0));
    let empty_news: Vec<(u32, Vec<u8>)> = Vec::new();
    let (row, _) = world.move_entity(
        EntityLocation { archetype: y, row: ArchetypeRow(0) },
        z,
        &empty_news,
        &mut entities,
    );
    assert_eq!(row, ArchetypeRow(0));
    assert_eq!(entities.get(e0).unwrap(), EntityLocation { archetype: z, row: ArchetypeRow(0) });
    assert_eq!(entities.get(e1).unwrap(), EntityLocation { archetype: y, row: ArchetypeRow(0) });
    // e1's component values followed it to row 0
    let ya = world.get(y).unwrap();
    assert_eq!(
        ya.column_of(ComponentId(0).index()).unwrap().data().as_slice(),
        &[2, 0, 0, 0]
    );
    assert_eq!(ya.column_of(ComponentId(2).index()).unwrap().data().as_slice(), &[20u8]);
    // e0 kept C's byte through the transfer into Z
    assert_eq!(
        world.get(z).unwrap().column_of(ComponentId(2).index()).unwrap().data().as_slice(),
        &[10u8]
    );
}

#[test]
fn no_op_move_returns_row_and_nothing_changes() {
    let comps = abc_registry();
    let mut world = Archetypes::new();
    let mut entities = Entities::new();
    let no_systems: Vec<SystemInfo> = Vec::new();
    let (e0, _) = world.spawn_entity(&mut entities);
    let (x, _) = world.traverse_insert(ArchetypeIdx(0), ComponentId(0).index(), &comps, &no_systems);
    world.move_entity(
        EntityLocation { archetype: ArchetypeIdx(0), row: ArchetypeRow(0) },
        x,
        &vec![(0u32, vec![5, 0, 0, 0])],
        &mut entities,
    );
    let empty_news: Vec<(u32, Vec<u8>)> = Vec::new();
    let (row, notifs) = world.move_entity(
        EntityLocation { archetype: x, row: ArchetypeRow(0) },
        x,
        &empty_news,
        &mut entities,
    );
    assert_eq!(row, ArchetypeRow(0));
    assert!(notifs.is_empty());
    assert_eq!(world.get(x).unwrap().entity_count(), 1);
    assert_eq!(entities.get(e0).unwrap(), EntityLocation { archetype: x, row: ArchetypeRow(0) });
}

#[test]
fn register_system_matches_exactly_y() {
    let comps = abc_registry();
    let mut world = Archetypes::new();
    let mut entities = Entities::new();
    let no_systems: Vec<SystemInfo> = Vec::new();
    // build EMPTY, X = {A}, Y = {A, C}
    let (_e0, _) = world.spawn_entity(&mut entities);
    let (x, _) = world.traverse_insert(ArchetypeIdx(0), ComponentId(0).index(), &comps, &no_systems);
    let (y, _) = world.traverse_insert(x, ComponentId(2).index(), &comps, &no_systems);

    // predicate has(A) && has(C), access over A
    let sys = SystemInfo {
        id: 7,
        priority: 0,
        access: vec![0],
        expr: HasExpr::And(Box::new(HasExpr::Has(0)), Box::new(HasExpr::Has(2))),
        entity_event: None,
        entity_event_expr: None,
    };
    let notifs = world.register_system(&sys);
    assert_eq!(notifs, vec![Notification {
        reason: RefreshArchetypeReason::New,
        archetype: y,
        system: 7,
    }]);
    assert_eq!(world.get(y).unwrap().refresh_listener_ids().as_slice(), &[7u32]);
    assert!(world.get(x).unwrap().refresh_listener_ids().is_empty());
    assert!(world.empty().refresh_listener_ids().is_empty());
}

#[test]
fn event_listeners_are_priority_ordered_and_stable() {
    let comps = abc_registry();
    let mut world = Archetypes::new();
    let mut entities = Entities::new();
    let no_systems: Vec<SystemInfo> = Vec::new();
    let (_e0, _) = world.spawn_entity(&mut entities);
    let (x, _) = world.traverse_insert(ArchetypeIdx(0), ComponentId(0).index(), &comps, &no_systems);

    let make = |id: u32, priority: u32| SystemInfo {
        id,
        priority,
        access: vec![0],
        expr: HasExpr::Has(0),
        entity_event: Some(5),
        entity_event_expr: Some(HasExpr::Has(0)),
    };
    world.register_system(&make(1, 10));
    world.register_system(&make(2, 5));
    world.register_system(&make(3, 10));
    let xa = world.get(x).unwrap();
    let list = xa.system_list_for(5).unwrap();
    // ascending priority; equal priorities keep insertion order
    assert_eq!(list.entries().as_slice(), &[(2u32, 5u32), (1, 10), (3, 10)]);
    assert!(xa.system_list_for(6).is_none());
}

#[test]
fn zero_sized_components_move() {
    let mut comps = Components::new();
    let (a, _) = comps.add(desc("Marker", 1, 0, 1));
    assert_eq!(a, ComponentId(0));
    let mut world = Archetypes::new();
    let mut entities = Entities::new();
    let no_systems: Vec<SystemInfo> = Vec::new();
    let (e0, _) = world.spawn_entity(&mut entities);
    let (x, _) = world.traverse_insert(ArchetypeIdx(0), a.index(), &comps, &no_systems);
    let news = vec![(0u32, Vec::new())];
    let (row, _) = world.move_entity(
        EntityLocation { archetype: ArchetypeIdx(0), row: ArchetypeRow(0) },
        x,
        &news,
        &mut entities,
    );
    assert_eq!(row, ArchetypeRow(0));
    let col = world.get(x).unwrap().column_of(a.index()).unwrap();
    assert_eq!(col.len(), 1);
    assert!(col.data().is_empty());
    assert_eq!(entities.get(e0).unwrap(), EntityLocation { archetype: x, row: ArchetypeRow(0) });
}

#[test]
fn traverse_remove_of_missing_component_is_self_edge() {
    let comps = abc_registry();
    let mut world = Archetypes::new();
    let mut entities = Entities::new();
    let no_systems: Vec<SystemInfo> = Vec::new();
    let (_e0, _) = world.spawn_entity(&mut entities);
    let (dst, notifs) = world.traverse_remove(
        ArchetypeIdx(0),
        ComponentId(1).index(),
        &comps,
        &no_systems,
    );
    assert_eq!(dst, ArchetypeIdx(0));
    assert!(notifs.is_empty());
    assert_eq!(world.empty().remove_edge(1), Some(0));
    // the insert direction caches a self-edge for a component already held
    let (x, _) = world.traverse_insert(ArchetypeIdx(0), ComponentId(0).index(), &comps, &no_systems);
    let (same, _) = world.traverse_insert(x, ComponentId(0).index(), &comps, &no_systems);
    assert_eq!(same, x);
    assert_eq!(world.get(x).unwrap().insert_edge(0), Some(x.0));
}

#[test]
fn columns_stay_in_lockstep_and_sorted() {
    let comps = abc_registry();
    let mut world = Archetypes::new();
    let mut entities = Entities::new();
    let no_systems: Vec<SystemInfo> = Vec::new();
    // run several entities through several archetypes
    for round in 0..4u8 {
        let (_e, _) = world.spawn_entity(&mut entities);
        let (x, _) =
            world.traverse_insert(ArchetypeIdx(0), ComponentId(0).index(), &comps, &no_systems);
        world.move_entity(
            EntityLocation { archetype: ArchetypeIdx(0), row: ArchetypeRow(0) },
            x,
            &vec![(0u32, vec![round, 0, 0, 0])],
            &mut entities,
        );
        if round % 2 == 0 {
            let (y, _) = world.traverse_insert(x, ComponentId(2).index(), &comps, &no_systems);
            let last_row = world.get(x).unwrap().entity_count() - 1;
            world.move_entity(
                EntityLocation { archetype: x, row: ArchetypeRow(last_row) },
                y,
                &vec![(2u32, vec![round])],
                &mut entities,
            );
        }
    }
    for arch in world.iter() {
        let rows = arch.entity_count() as usize;
        assert_eq!(arch.entity_ids().len(), rows);
        let cols = arch.columns();
        for col in cols.iter() {
            assert_eq!(col.len(), rows);
        }
        for pair in cols.windows(2) {
            assert!(pair[0].component_index().0 < pair[1].component_index().0);
        }
    }
}

#[test]
fn anonymous_registrations_always_get_fresh_slots() {
    let mut comps = Components::new();
    let anon = ComponentDescriptor {
        name: "Anon".to_string(),
        type_id: None,
        layout: ComponentLayout { size: 2, align: 2 },
        drop: true,
    };
    let (first, fresh_first) = comps.add(anon.clone());
    let (second, fresh_second) = comps.add(anon);
    assert!(fresh_first && fresh_second);
    assert_eq!(first, ComponentId(0));
    assert_eq!(second, ComponentId(1));
    assert_eq!(comps.len(), 2);
    let info = comps.get_by_index(first.index()).unwrap();
    assert!(info.type_id().is_none());
    assert!(info.drop());
}

#[test]
fn expression_evaluation() {
    let comps = vec![0u32, 2];
    let e = HasExpr::And(
        Box::new(HasExpr::Has(0)),
        Box::new(HasExpr::Not(Box::new(HasExpr::Has(1)))),
    );
    assert!(e.eval(&comps));
    let f = HasExpr::Or(Box::new(HasExpr::Has(1)), Box::new(HasExpr::Lit(false)));
    assert!(!f.eval(&comps));
}
