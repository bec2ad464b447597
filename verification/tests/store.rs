use kiln::catalog::Catalog;
use kiln::library::Library;
use kiln::record::{Record, RecordId, Value};
use kiln::undo::UndoRedo;

fn person3(age: i64, name: &str, fav_food: &str) -> Record {
    Record::new(vec![
        Value::Int(age),
        Value::Text(String::from(name)),
        Value::Text(String::from(fav_food)),
    ])
}

fn person2(age: i64, name: &str) -> Record {
    Record::new(vec![Value::Int(age), Value::Text(String::from(name))])
}

fn dog(breed: &str) -> Record {
    Record::new(vec![Value::Text(String::from(breed))])
}

fn int_field(record: &Record, i: usize) -> i64 {
    match &record.fields[i] {
        Value::Int(v) => *v,
        _ => panic!("expected an integer field"),
    }
}

fn text_field(record: &Record, i: usize) -> String {
    match &record.fields[i] {
        Value::Text(s) => s.clone(),
        _ => panic!("expected a text field"),
    }
}

fn commit_field(catalog: &Catalog, library: &mut Library, id: RecordId, i: usize, value: Value) {
    let locked = catalog.lock(library, id);
    let mut write = locked.value.clone();
    write.fields[i] = value;
    catalog.commit(library, &locked, write);
    catalog.unlock(library, id);
}

#[test]
fn test_change_detection() {
    let mut library = Library::default();
    library.register("Person");
    let catalog = library.checkout("Person");
    let start_watermark = catalog.watermark(&library);

    let id = catalog.create(&mut library, person3(0, "Name0", ""));
    commit_field(&catalog, &mut library, id, 1, Value::Text(String::from("Name1")));
    commit_field(&catalog, &mut library, id, 1, Value::Text(String::from("Name2")));

    let end_watermark = catalog.watermark(&library);

    let mut changes = Vec::new();
    let mut iter = catalog.changes(start_watermark, end_watermark);
    while let Some(change) = iter.next(&library) {
        changes.push(change);
    }

    assert_eq!(3, changes.len());
    assert_eq!(true, changes[0].old_record().is_none());
    assert_eq!(String::from("Name0"), text_field(changes[0].new_record(), 1));
    assert_eq!(
        String::from("Name0"),
        text_field(changes[1].old_record().unwrap(), 1)
    );
    assert_eq!(String::from("Name1"), text_field(changes[1].new_record(), 1));
    assert_eq!(
        String::from("Name1"),
        text_field(changes[2].old_record().unwrap(), 1)
    );
    assert_eq!(String::from("Name2"), text_field(changes[2].new_record(), 1));
}

#[test]
fn library_test_prototypes() {
    let mut library = Library::default();
    library.register("Person");
    let catalog = library.checkout("Person");
    let proto_id = catalog.create(&mut library, person3(20, "Atom", "Apples"));
    let instance_id = catalog.create_from_prototype(&mut library, proto_id);

    assert_eq!(String::from("Atom"), text_field(catalog.get(&library, proto_id), 1));
    assert_eq!(String::from("Atom"), text_field(catalog.get(&library, instance_id), 1));

    commit_field(
        &catalog,
        &mut library,
        instance_id,
        1,
        Value::Text(String::from("Eva")),
    );

    assert_eq!(String::from("Atom"), text_field(catalog.get(&library, proto_id), 1));
    assert_eq!(String::from("Eva"), text_field(catalog.get(&library, instance_id), 1));
    assert_eq!(String::from("Apples"), text_field(catalog.get(&library, instance_id), 2));
}

#[test]
fn prototype_override_survives_prototype_edit() {
    let mut library = Library::default();
    library.register("Person");
    let catalog = library.checkout("Person");
    let proto_id = catalog.create(&mut library, person3(20, "Atom", "Apples"));
    let instance_id = catalog.create_from_prototype(&mut library, proto_id);

    commit_field(
        &catalog,
        &mut library,
        instance_id,
        1,
        Value::Text(String::from("Eva")),
    );
    commit_field(&catalog, &mut library, proto_id, 1, Value::Text(String::from("Zed")));

    assert_eq!(String::from("Zed"), text_field(catalog.get(&library, proto_id), 1));
    assert_eq!(String::from("Eva"), text_field(catalog.get(&library, instance_id), 1));
    assert_eq!(String::from("Apples"), text_field(catalog.get(&library, instance_id), 2));
}

#[test]
fn three_level_inheritance() {
    let mut library = Library::default();
    library.register("Person");
    let catalog = library.checkout("Person");
    let grandmother_id = catalog.create(&mut library, person3(0, "", ""));
    let mother_id = catalog.create_from_prototype(&mut library, grandmother_id);
    let daughter_id = catalog.create_from_prototype(&mut library, mother_id);

    commit_field(
        &catalog,
        &mut library,
        grandmother_id,
        1,
        Value::Text(String::from("Grandma")),
    );
    commit_field(
        &catalog,
        &mut library,
        grandmother_id,
        2,
        Value::Text(String::from("Old Timey Pasta")),
    );
    commit_field(
        &catalog,
        &mut library,
        mother_id,
        2,
        Value::Text(String::from("Pasta")),
    );

    // An age change on the grandmother reaches every descendant.
    commit_field(&catalog, &mut library, grandmother_id, 0, Value::Int(42));
    assert_eq!(42, int_field(catalog.get(&library, grandmother_id), 0));
    assert_eq!(42, int_field(catalog.get(&library, mother_id), 0));
    assert_eq!(42, int_field(catalog.get(&library, daughter_id), 0));

    // A name change on the mother reaches the daughter but not upwards.
    commit_field(
        &catalog,
        &mut library,
        mother_id,
        1,
        Value::Text(String::from("Mum")),
    );
    assert_eq!(String::from("Grandma"), text_field(catalog.get(&library, grandmother_id), 1));
    assert_eq!(String::from("Mum"), text_field(catalog.get(&library, mother_id), 1));
    assert_eq!(String::from("Mum"), text_field(catalog.get(&library, daughter_id), 1));

    // A food change on the daughter stays local.
    commit_field(
        &catalog,
        &mut library,
        daughter_id,
        2,
        Value::Text(String::from("Pizza")),
    );
    assert_eq!(
        String::from("Old Timey Pasta"),
        text_field(catalog.get(&library, grandmother_id), 2)
    );
    assert_eq!(String::from("Pasta"), text_field(catalog.get(&library, mother_id), 2));
    assert_eq!(String::from("Pizza"), text_field(catalog.get(&library, daughter_id), 2));
}

#[test]
fn counter_increments_accumulate() {
    let mut library = Library::default();
    library.register("Person");
    let catalog = library.checkout("Person");
    let person_id = catalog.create(&mut library, person2(0, "Counter"));

    library.register("Dog");
    let dog_catalog = library.checkout("Dog");
    let dog_id = dog_catalog.create(&mut library, Record::new(vec![Value::Int(0)]));

    for _ in 0..10 {
        let age = int_field(catalog.get(&library, person_id), 0);
        commit_field(&catalog, &mut library, person_id, 0, Value::Int(age + 1));

        let years = int_field(dog_catalog.get(&library, dog_id), 0);
        commit_field(&dog_catalog, &mut library, dog_id, 0, Value::Int(years + 7));
    }

    assert_eq!(10, int_field(catalog.get(&library, person_id), 0));
    assert_eq!(70, int_field(dog_catalog.get(&library, dog_id), 0));
}

#[test]
fn lsns_unique_and_increasing() {
    let mut library = Library::default();
    library.register("Person");
    library.register("Dog");
    let person_catalog = library.checkout("Person");
    let dog_catalog = library.checkout("Dog");
    let person_id = person_catalog.create(&mut library, person2(0, "A"));
    let dog_id = dog_catalog.create(&mut library, dog("Kelpie"));

    for i in 0..5 {
        commit_field(&person_catalog, &mut library, person_id, 0, Value::Int(i));
        commit_field(&dog_catalog, &mut library, dog_id, 0, Value::Text(format!("B{}", i)));
    }

    let mut seen = Vec::new();
    for catalog in [person_catalog, dog_catalog] {
        let end = catalog.watermark(&library);
        let mut iter = catalog.changes(kiln::change_log::Watermark(0), end);
        let mut previous: Option<u64> = None;
        while let Some(change) = iter.next(&library) {
            let lsn = change.lsn();
            if let Some(p) = previous {
                assert!(p < lsn);
            }
            previous = Some(lsn);
            assert!(!seen.contains(&lsn));
            seen.push(lsn);
        }
    }
    assert_eq!(12, seen.len());
}

#[test]
fn changes_iteration_is_restartable() {
    let mut library = Library::default();
    library.register("Person");
    let catalog = library.checkout("Person");
    let id = catalog.create(&mut library, person2(1, "x"));
    commit_field(&catalog, &mut library, id, 0, Value::Int(2));
    let end = catalog.watermark(&library);

    let mut first = Vec::new();
    let mut iter = catalog.changes(kiln::change_log::Watermark(0), end);
    while let Some(change) = iter.next(&library) {
        first.push(change.lsn());
    }
    let mut second = Vec::new();
    let mut iter = catalog.changes(kiln::change_log::Watermark(0), end);
    while let Some(change) = iter.next(&library) {
        second.push(change.lsn());
    }
    assert_eq!(first, second);
    assert_eq!(2, first.len());
}

#[test]
fn merge_field_rule_exact() {
    // Local override wins: the instance differs from the old prototype.
    let instance = Value::Int(1);
    let old_proto = Value::Int(2);
    let new_proto = Value::Int(3);
    assert_eq!(&Value::Int(1), kiln::record::merge_field(&instance, &old_proto, &new_proto));

    // No override: the instance still matches the old prototype and adopts
    // the new value.
    let instance = Value::Text(String::from("same"));
    let old_proto = Value::Text(String::from("same"));
    let new_proto = Value::Text(String::from("new"));
    assert_eq!(
        &Value::Text(String::from("new")),
        kiln::record::merge_field(&instance, &old_proto, &new_proto)
    );
}

#[test]
fn undo_test_undo_redo() {
    let mut library = Library::default();
    library.register("Person");
    let mut undo_redo = UndoRedo::new(library);
    undo_redo.watch("Person");
    let catalog = undo_redo.library.checkout("Person");

    let id = catalog.create(&mut undo_redo.library, person2(29, "0"));
    commit_field(&catalog, &mut undo_redo.library, id, 1, Value::Text(String::from("1")));

    assert_eq!(String::from("1"), text_field(catalog.get(&undo_redo.library, id), 1));

    undo_redo.undo();
    assert_eq!(String::from("0"), text_field(catalog.get(&undo_redo.library, id), 1));

    undo_redo.redo();
    assert_eq!(String::from("1"), text_field(catalog.get(&undo_redo.library, id), 1));

    commit_field(&catalog, &mut undo_redo.library, id, 1, Value::Text(String::from("2")));

    undo_redo.undo();
    assert_eq!(String::from("1"), text_field(catalog.get(&undo_redo.library, id), 1));
    undo_redo.undo();
    assert_eq!(String::from("0"), text_field(catalog.get(&undo_redo.library, id), 1));
}

#[test]
fn undo_test_clear_redo_stack() {
    let mut library = Library::default();
    library.register("Person");
    let mut undo_redo = UndoRedo::new(library);
    undo_redo.watch("Person");
    let catalog = undo_redo.library.checkout("Person");

    let id = catalog.create(&mut undo_redo.library, person2(29, "0"));
    commit_field(&catalog, &mut undo_redo.library, id, 1, Value::Text(String::from("1")));

    assert_eq!(String::from("1"), text_field(catalog.get(&undo_redo.library, id), 1));

    undo_redo.undo();
    assert_eq!(String::from("0"), text_field(catalog.get(&undo_redo.library, id), 1));

    commit_field(&catalog, &mut undo_redo.library, id, 1, Value::Text(String::from("2")));

    undo_redo.redo();
    assert_eq!(String::from("2"), text_field(catalog.get(&undo_redo.library, id), 1));
}

#[test]
fn undo_test_pause_scope() {
    let mut library = Library::default();
    library.register("Person");
    let mut undo_redo = UndoRedo::new(library);
    undo_redo.watch("Person");
    let catalog = undo_redo.library.checkout("Person");

    let id = catalog.create(&mut undo_redo.library, person2(29, "0"));
    commit_field(&catalog, &mut undo_redo.library, id, 1, Value::Text(String::from("1")));

    assert_eq!(String::from("1"), text_field(catalog.get(&undo_redo.library, id), 1));

    {
        let pause_scope = undo_redo.pause_scope();
        commit_field(&catalog, &mut undo_redo.library, id, 1, Value::Text(String::from("2")));
        undo_redo.drop_pause_scope(pause_scope);
    }

    undo_redo.undo();
    assert_eq!(String::from("0"), text_field(catalog.get(&undo_redo.library, id), 1));
    undo_redo.redo();
    assert_eq!(String::from("1"), text_field(catalog.get(&undo_redo.library, id), 1));
}

#[test]
fn test_combine_scope() {
    let mut library = Library::default();
    library.register("Person");
    let mut undo_redo = UndoRedo::new(library);
    undo_redo.watch("Person");
    let catalog = undo_redo.library.checkout("Person");

    let id = catalog.create(&mut undo_redo.library, person2(29, "0"));
    commit_field(&catalog, &mut undo_redo.library, id, 1, Value::Text(String::from("1")));

    assert_eq!(String::from("1"), text_field(catalog.get(&undo_redo.library, id), 1));

    {
        let combine_scope = undo_redo.combine_scope();
        commit_field(&catalog, &mut undo_redo.library, id, 1, Value::Text(String::from("2")));
        commit_field(&catalog, &mut undo_redo.library, id, 1, Value::Text(String::from("3")));
        commit_field(&catalog, &mut undo_redo.library, id, 1, Value::Text(String::from("4")));
        undo_redo.drop_combine_scope(combine_scope);
    }

    undo_redo.undo();
    assert_eq!(String::from("1"), text_field(catalog.get(&undo_redo.library, id), 1));

    undo_redo.redo();
    assert_eq!(String::from("4"), text_field(catalog.get(&undo_redo.library, id), 1));
}

#[test]
fn test_multiple_record_type_order() {
    let mut library = Library::default();
    library.register("Person");
    library.register("Dog");
    let mut undo_redo = UndoRedo::new(library);
    undo_redo.watch("Person");
    undo_redo.watch("Dog");
    let person_catalog = undo_redo.library.checkout("Person");
    let dog_catalog = undo_redo.library.checkout("Dog");

    let person_id = person_catalog.create(&mut undo_redo.library, person2(29, "Tucker"));
    let dog_id = dog_catalog.create(&mut undo_redo.library, dog("Red Heeler"));

    commit_field(
        &dog_catalog,
        &mut undo_redo.library,
        dog_id,
        0,
        Value::Text(String::from("Blue Heeler")),
    );
    commit_field(
        &person_catalog,
        &mut undo_redo.library,
        person_id,
        1,
        Value::Text(String::from("Jim")),
    );

    undo_redo.undo();

    assert_eq!(
        String::from("Tucker"),
        text_field(person_catalog.get(&undo_redo.library, person_id), 1)
    );
    assert_eq!(
        String::from("Blue Heeler"),
        text_field(dog_catalog.get(&undo_redo.library, dog_id), 0)
    );

    undo_redo.undo();

    assert_eq!(
        String::from("Tucker"),
        text_field(person_catalog.get(&undo_redo.library, person_id), 1)
    );
    assert_eq!(
        String::from("Red Heeler"),
        text_field(dog_catalog.get(&undo_redo.library, dog_id), 0)
    );
}

#[test]
fn undo_and_redo_on_empty_history_are_noops() {
    let mut library = Library::default();
    library.register("Person");
    let mut undo_redo = UndoRedo::new(library);
    undo_redo.watch("Person");
    let catalog = undo_redo.library.checkout("Person");
    let id = catalog.create(&mut undo_redo.library, person2(1, "still"));

    // The creation is the only history entry; a second undo and any redo
    // beyond recorded history change nothing.
    undo_redo.undo();
    undo_redo.undo();
    undo_redo.redo();
    undo_redo.redo();
    assert_eq!(String::from("still"), text_field(catalog.get(&undo_redo.library, id), 1));
}

#[test]
fn empty_scopes_leave_history_alone() {
    let mut library = Library::default();
    library.register("Person");
    let mut undo_redo = UndoRedo::new(library);
    undo_redo.watch("Person");
    let catalog = undo_redo.library.checkout("Person");

    let id = catalog.create(&mut undo_redo.library, person2(29, "0"));
    commit_field(&catalog, &mut undo_redo.library, id, 1, Value::Text(String::from("1")));

    let pause_scope = undo_redo.pause_scope();
    undo_redo.drop_pause_scope(pause_scope);
    let combine_scope = undo_redo.combine_scope();
    undo_redo.drop_combine_scope(combine_scope);

    undo_redo.undo();
    assert_eq!(String::from("0"), text_field(catalog.get(&undo_redo.library, id), 1));
}

#[test]
fn undo_of_prototype_edit_repropagates() {
    let mut library = Library::default();
    library.register("Person");
    let mut undo_redo = UndoRedo::new(library);
    undo_redo.watch("Person");
    let catalog = undo_redo.library.checkout("Person");

    let proto_id = catalog.create(&mut undo_redo.library, person3(20, "Atom", "Apples"));
    let child_id = catalog.create_from_prototype(&mut undo_redo.library, proto_id);
    commit_field(
        &catalog,
        &mut undo_redo.library,
        proto_id,
        1,
        Value::Text(String::from("Zed")),
    );

    // The edit reached the child, which had not overridden the name.
    assert_eq!(String::from("Zed"), text_field(catalog.get(&undo_redo.library, child_id), 1));

    // The propagation to the child was logged after the prototype commit,
    // so it is undone first.
    undo_redo.undo();
    assert_eq!(String::from("Zed"), text_field(catalog.get(&undo_redo.library, proto_id), 1));
    assert_eq!(String::from("Atom"), text_field(catalog.get(&undo_redo.library, child_id), 1));

    // Undoing the prototype edit itself restores the prototype; the child
    // keeps the value it was already restored to.
    undo_redo.undo();
    assert_eq!(String::from("Atom"), text_field(catalog.get(&undo_redo.library, proto_id), 1));
    assert_eq!(String::from("Atom"), text_field(catalog.get(&undo_redo.library, child_id), 1));
}

#[test]
fn create_from_prototype_copies_fields() {
    let mut library = Library::default();
    library.register("Person");
    let catalog = library.checkout("Person");
    let proto_id = catalog.create(&mut library, person3(7, "Ada", "Soup"));
    let child_id = catalog.create_from_prototype(&mut library, proto_id);

    assert_eq!(7, int_field(catalog.get(&library, child_id), 0));
    assert_eq!(String::from("Ada"), text_field(catalog.get(&library, child_id), 1));
    assert_eq!(String::from("Soup"), text_field(catalog.get(&library, child_id), 2));
}
