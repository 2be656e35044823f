use dinos::record::{Record, ValidationError};
use dinos::store::{Store, StoreError};

fn rec(name: &str, weight: u16, diet: &str) -> Record {
    Record { name: name.to_string(), weight, diet: diet.to_string() }
}

#[test]
fn create_and_list_dinos() {
    let dino = rec("test", 50, "carnivorous");
    let mut store = Store::new();
    store.insert_or_replace(dino.clone());
    let listed = store.list();
    assert_eq!(listed.len(), 1);
    assert_eq!(listed[0], dino);
}

#[test]
fn insert_then_get_returns_equal() {
    let mut store = Store::new();
    let dino = rec("stego", 3500, "herbivorous");
    let stored = store.insert_or_replace(dino.clone());
    assert_eq!(stored, dino);
    assert_eq!(store.get(&"stego".to_string()), Ok(dino));
}

#[test]
fn get_absent_signals_not_found() {
    let store = Store::new();
    assert_eq!(store.get(&"raptor".to_string()), Err(StoreError::NotFound));
}

#[test]
fn delete_absent_signals_not_found() {
    let mut store = Store::new();
    store.insert_or_replace(rec("stego", 3500, "herbivorous"));
    assert_eq!(store.delete(&"raptor".to_string()), Err(StoreError::NotFound));
    assert_eq!(store.list().len(), 1);
}

#[test]
fn update_absent_signals_not_found() {
    let mut store = Store::new();
    let result = store.update(&"raptor".to_string(), rec("raptor", 15, "carnivorous"));
    assert_eq!(result, Err(StoreError::NotFound));
    assert_eq!(store.list().len(), 0);
}

#[test]
fn list_holds_all_inserted_whatever_the_order() {
    let mut store = Store::new();
    let dinos =
        vec![rec("trex", 7000, "carnivorous"), rec("stego", 3500, "herbivorous"), rec(
            "raptor",
            15,
            "carnivorous",
        )];
    for dino in &dinos {
        store.insert_or_replace(dino.clone());
    }
    let listed = store.list();
    assert_eq!(listed.len(), dinos.len());
    for dino in &dinos {
        assert!(listed.contains(dino));
    }
    for dino in &listed {
        assert!(dinos.contains(dino));
    }
}

#[test]
fn insert_twice_is_an_upsert() {
    let mut store = Store::new();
    store.insert_or_replace(rec("trex", 7000, "carnivorous"));
    store.insert_or_replace(rec("trex", 7500, "carnivorous"));
    assert_eq!(store.get(&"trex".to_string()), Ok(rec("trex", 7500, "carnivorous")));
    assert_eq!(store.list().len(), 1);
}

#[test]
fn delete_then_get_signals_not_found() {
    let mut store = Store::new();
    store.insert_or_replace(rec("trex", 7000, "carnivorous"));
    assert_eq!(store.delete(&"trex".to_string()), Ok(()));
    assert_eq!(store.get(&"trex".to_string()), Err(StoreError::NotFound));
}

#[test]
fn distinct_inserts_lose_no_update() {
    let mut store = Store::new();
    let names = ["a", "b", "c", "d", "e", "f", "g", "h", "i", "j"];
    for (i, name) in names.iter().enumerate() {
        store.insert_or_replace(rec(name, i as u16, "omnivorous"));
    }
    let listed = store.list();
    assert_eq!(listed.len(), names.len());
    for (i, name) in names.iter().enumerate() {
        assert_eq!(store.get(&name.to_string()), Ok(rec(name, i as u16, "omnivorous")));
    }
}

#[test]
fn update_keeps_the_key_even_when_the_name_differs() {
    let mut store = Store::new();
    store.insert_or_replace(rec("trex", 7000, "carnivorous"));
    let replacement = rec("rex", 7100, "carnivorous");
    assert_eq!(store.update(&"trex".to_string(), replacement.clone()), Ok(replacement.clone()));
    assert_eq!(store.get(&"trex".to_string()), Ok(replacement));
    assert_eq!(store.get(&"rex".to_string()), Err(StoreError::NotFound));
}

#[test]
fn list_of_empty_store_is_empty() {
    let store = Store::new();
    assert_eq!(store.list().len(), 0);
}

#[test]
fn weight_in_range_is_accepted() {
    let record = Record::from_parts("trex".to_string(), 7000, "carnivorous".to_string());
    assert_eq!(record, Ok(rec("trex", 7000, "carnivorous")));
    let lightest = Record::from_parts("mite".to_string(), 0, "herbivorous".to_string());
    assert_eq!(lightest, Ok(rec("mite", 0, "herbivorous")));
    let heaviest = Record::from_parts("titan".to_string(), 65535, "herbivorous".to_string());
    assert_eq!(heaviest, Ok(rec("titan", 65535, "herbivorous")));
}

#[test]
fn weight_out_of_range_is_rejected() {
    let record = Record::from_parts("titan".to_string(), 65536, "herbivorous".to_string());
    assert_eq!(record, Err(ValidationError::WeightOutOfRange));
}

#[test]
fn trex_lifecycle() {
    let mut store = Store::new();
    let trex = Record::from_parts("trex".to_string(), 7000, "carnivorous".to_string()).unwrap();
    let stored = store.insert_or_replace(trex.clone());
    assert_eq!(stored, trex);
    assert_eq!(store.get(&"trex".to_string()), Ok(trex));
    let heavier = Record::from_parts("trex".to_string(), 7500, "carnivorous".to_string()).unwrap();
    let updated = store.update(&"trex".to_string(), heavier.clone()).unwrap();
    assert_eq!(updated.weight, 7500);
    assert_eq!(store.get(&"trex".to_string()), Ok(heavier));
    assert_eq!(store.delete(&"trex".to_string()), Ok(()));
    assert_eq!(store.get(&"trex".to_string()), Err(StoreError::NotFound));
}
