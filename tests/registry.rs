use muzzman_daemon::ids::{ElementId, LocationId, ModuleId};
use muzzman_daemon::registry::{HandleRegistry, InternTable, SessionEvent};

fn loc(path: &[u64]) -> LocationId {
    LocationId::new(path.to_vec())
}

fn elem(path: &[u64], uid: u64) -> ElementId {
    ElementId::new(loc(path), uid)
}

#[test]
fn interning_twice_gives_same_handle() {
    let mut t: InternTable<LocationId> = InternTable::new();
    let a = t.get_or_intern(loc(&[0, 1]));
    let b = t.get_or_intern(loc(&[0, 1]));
    assert_eq!(a, b);
    assert_eq!(t.len(), 1);
    let c = t.get_or_intern(loc(&[0, 2]));
    assert_ne!(a, c);
    assert_eq!(t.len(), 2);
    assert_eq!(t.handles(), vec![a, c]);
}

#[test]
fn element_keys_tell_path_and_index_apart() {
    let mut t: InternTable<ElementId> = InternTable::new();
    let a = t.get_or_intern(elem(&[0], 1));
    let b = t.get_or_intern(elem(&[0, 1], 0));
    let c = t.get_or_intern(elem(&[0], 1));
    assert_ne!(a, b);
    assert_eq!(a, c);
}

#[test]
fn id_of_unknown_handle_is_none() {
    let mut t: InternTable<ModuleId> = InternTable::new();
    let h = t.get_or_intern(ModuleId { uid: 7 });
    assert_eq!(t.id_of(h).map(|m| m.uid), Some(7));
    assert!(t.id_of(h + 1).is_none());
}

#[test]
fn element_id_change_moves_handle() {
    let mut reg = HandleRegistry::new();
    let h = reg.elements.get_or_intern(elem(&[0], 3));
    reg.apply_event(&SessionEvent::ElementIdChanged(elem(&[0], 3), elem(&[0, 2], 0)));
    let now = reg.elements.id_of(h).unwrap();
    assert_eq!(now.location_id.path, vec![0, 2]);
    assert_eq!(now.uid, 0);
    // the new id interns to the same handle
    assert_eq!(reg.elements.get_or_intern(elem(&[0, 2], 0)), h);
    assert_eq!(reg.elements.len(), 1);
}

#[test]
fn location_id_change_rewrites_handle() {
    let mut reg = HandleRegistry::new();
    let h = reg.locations.get_or_intern(loc(&[0, 4]));
    reg.apply_event(&SessionEvent::LocationIdChanged(loc(&[0, 4]), loc(&[0, 1])));
    assert_eq!(reg.locations.id_of(h).unwrap().path, vec![0, 1]);
}

#[test]
fn id_change_drops_stale_handle_of_new_id() {
    let mut reg = HandleRegistry::new();
    let a = reg.locations.get_or_intern(loc(&[1]));
    let b = reg.locations.get_or_intern(loc(&[2]));
    reg.apply_event(&SessionEvent::LocationIdChanged(loc(&[1]), loc(&[2])));
    assert_eq!(reg.locations.len(), 1);
    assert_eq!(reg.locations.id_of(a).unwrap().path, vec![2]);
    assert!(reg.locations.id_of(b).is_none());
}

#[test]
fn id_change_of_unknown_id_changes_nothing() {
    let mut reg = HandleRegistry::new();
    let a = reg.modules.get_or_intern(ModuleId { uid: 1 });
    reg.apply_event(&SessionEvent::ModuleIdChanged(ModuleId { uid: 5 }, ModuleId { uid: 1 }));
    assert_eq!(reg.modules.len(), 1);
    assert_eq!(reg.modules.id_of(a).unwrap().uid, 1);
}

#[test]
fn destroyed_location_leaves_table() {
    let mut reg = HandleRegistry::new();
    let a = reg.locations.get_or_intern(loc(&[0, 1]));
    let b = reg.locations.get_or_intern(loc(&[0, 2]));
    reg.apply_event(&SessionEvent::DestroyedLocation(loc(&[0, 1])));
    assert!(reg.locations.id_of(a).is_none());
    assert_eq!(reg.locations.id_of(b).unwrap().path, vec![0, 2]);
    assert_eq!(reg.locations.len(), 1);
}

#[test]
fn destroyed_element_seen_by_other_client() {
    // client A holds a handle; client B destroyed the element; the event
    // reaches A
    let mut a = HandleRegistry::new();
    let h = a.elements.get_or_intern(elem(&[0], 0));
    a.apply_event(&SessionEvent::DestroyedElement(elem(&[0], 0)));
    assert_eq!(a.elements.len(), 0);
    assert!(a.elements.id_of(h).is_none());
    // interning the id again gives a new handle
    let h2 = a.elements.get_or_intern(elem(&[0], 0));
    assert_ne!(h, h2);
}

#[test]
fn destroyed_module_and_new_events() {
    let mut reg = HandleRegistry::new();
    reg.modules.get_or_intern(ModuleId { uid: 9 });
    reg.apply_event(&SessionEvent::NewModule(ModuleId { uid: 10 }));
    assert_eq!(reg.modules.len(), 1);
    reg.apply_event(&SessionEvent::DestroyedModule(ModuleId { uid: 9 }));
    assert_eq!(reg.modules.len(), 0);
}

#[test]
fn gc_keeps_referenced_handles() {
    let mut t: InternTable<LocationId> = InternTable::new();
    let a = t.get_or_intern(loc(&[0]));
    let b = t.get_or_intern(loc(&[1]));
    let c = t.get_or_intern(loc(&[2]));
    t.gc_refs(&vec![2, 1, 3]);
    assert_eq!(t.handles(), vec![a, c]);
    assert!(t.id_of(b).is_none());
}
