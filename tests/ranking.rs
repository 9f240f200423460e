use demonlist::history::DemonMovement;
use demonlist::rank_store::{HistoricalPosition, ListError, NewDemon, RankStore};

fn new_demon(name: &str, requirement: u64) -> NewDemon {
    NewDemon {
        name: name.to_string(),
        requirement,
        video: None,
        publisher: 1,
        verifier: 2,
    }
}

fn ids_at(store: &RankStore, t: i64) -> Vec<u64> {
    store.reconstruct(t).unwrap().iter().map(|h| h.demon).collect()
}

fn store_of(n: u64) -> RankStore {
    let mut store = RankStore::new();
    for i in 0..n {
        let id = store.insert(new_demon(&format!("demon {}", i), 50), i + 1, 10).unwrap();
        assert_eq!(id, i);
    }
    store
}

#[test]
fn insert_shifts_later_demons_down() {
    let mut store = store_of(3);
    let id = store.insert(new_demon("new", 70), 2, 20).unwrap();
    assert_eq!(id, 3);
    assert_eq!(store.ranked_ids().clone(), vec![0, 3, 1, 2]);
    assert_eq!(store.position_of(1), Ok(3));
    assert_eq!(store.by_position(2).unwrap().name, "new");
    let log = store.movements();
    assert_eq!(log.len(), 3 + 3);
    assert_eq!(log[3], DemonMovement { demon: 3, from_position: 0, at: 20 });
    assert_eq!(log[4], DemonMovement { demon: 1, from_position: 2, at: 20 });
    assert_eq!(log[5], DemonMovement { demon: 2, from_position: 3, at: 20 });
}

#[test]
fn insert_rejects_positions_outside_the_list() {
    let mut store = store_of(2);
    assert_eq!(store.insert(new_demon("x", 50), 0, 20), Err(ListError::InvalidPosition));
    assert_eq!(store.insert(new_demon("x", 50), 4, 20), Err(ListError::InvalidPosition));
    assert_eq!(store.ranked_ids().clone(), vec![0, 1]);
    assert_eq!(store.movements().len(), 2);
    assert_eq!(store.insert(new_demon("x", 50), 3, 20), Ok(2));
}

#[test]
fn mutations_dated_before_the_log_are_rejected() {
    let mut store = store_of(2);
    assert_eq!(store.insert(new_demon("x", 50), 1, 5), Err(ListError::StaleTimestamp));
    assert_eq!(store.move_to(0, 2, 5), Err(ListError::StaleTimestamp));
    assert_eq!(store.remove(0, 5), Err(ListError::StaleTimestamp));
    assert_eq!(store.ranked_ids().clone(), vec![0, 1]);
    assert_eq!(store.move_to(0, 2, 10), Ok(1));
}

#[test]
fn move_down_and_up() {
    let mut store = store_of(5);
    assert_eq!(store.move_to(1, 4, 20), Ok(2));
    assert_eq!(store.ranked_ids().clone(), vec![0, 2, 3, 1, 4]);
    let log = store.movements();
    assert_eq!(log.len(), 5 + 3);
    assert_eq!(log[5], DemonMovement { demon: 1, from_position: 2, at: 20 });
    assert_eq!(log[6], DemonMovement { demon: 2, from_position: 3, at: 20 });
    assert_eq!(log[7], DemonMovement { demon: 3, from_position: 4, at: 20 });
    assert_eq!(store.move_to(4, 1, 30), Ok(5));
    assert_eq!(store.ranked_ids().clone(), vec![4, 0, 2, 3, 1]);
    assert_eq!(store.movements().len(), 8 + 5);
}

#[test]
fn move_to_the_same_position_changes_nothing() {
    let mut store = store_of(3);
    assert_eq!(store.move_to(1, 2, 20), Ok(2));
    assert_eq!(store.ranked_ids().clone(), vec![0, 1, 2]);
    assert_eq!(store.movements().len(), 3);
}

#[test]
fn move_errors() {
    let mut store = store_of(3);
    assert_eq!(store.move_to(7, 1, 20), Err(ListError::NotFound));
    assert_eq!(store.move_to(0, 0, 20), Err(ListError::InvalidPosition));
    assert_eq!(store.move_to(0, 4, 20), Err(ListError::InvalidPosition));
    assert_eq!(store.ranked_ids().clone(), vec![0, 1, 2]);
}

#[test]
fn remove_closes_the_gap_and_keeps_the_demon_known() {
    let mut store = store_of(4);
    assert_eq!(store.remove(1, 20), Ok(2));
    assert_eq!(store.ranked_ids().clone(), vec![0, 2, 3]);
    assert_eq!(store.position_of(1), Err(ListError::NotFound));
    assert_eq!(store.position_of(3), Ok(3));
    assert_eq!(store.by_id(1).unwrap().name, "demon 1");
    assert_eq!(store.remove(1, 20), Err(ListError::NotFound));
    let log = store.movements();
    assert_eq!(log[4], DemonMovement { demon: 1, from_position: 2, at: 20 });
    assert_eq!(log[5], DemonMovement { demon: 2, from_position: 3, at: 20 });
    assert_eq!(log[6], DemonMovement { demon: 3, from_position: 4, at: 20 });
}

#[test]
fn lookups_fail_outside_the_list() {
    let store = store_of(2);
    assert!(matches!(store.by_position(0), Err(ListError::NotFound)));
    assert!(matches!(store.by_position(3), Err(ListError::NotFound)));
    assert!(matches!(store.by_id(2), Err(ListError::NotFound)));
    assert_eq!(store.by_position(2).unwrap().id, 1);
}

#[test]
fn positions_stay_dense_after_mixed_mutations() {
    let mut store = store_of(6);
    store.move_to(5, 1, 11).unwrap();
    store.remove(2, 12).unwrap();
    store.insert(new_demon("late", 40), 3, 13).unwrap();
    store.move_to(0, 6, 14).unwrap();
    store.remove(4, 15).unwrap();
    let n = store.len() as u64;
    let mut seen: Vec<u64> = store
        .ranked_ids()
        .iter()
        .map(|id| store.position_of(*id).unwrap())
        .collect();
    seen.sort();
    assert_eq!(seen, (1..=n).collect::<Vec<u64>>());
}

#[test]
fn reconstruction_now_equals_live_order() {
    let mut store = store_of(5);
    store.move_to(3, 1, 20).unwrap();
    store.remove(0, 30).unwrap();
    store.insert(new_demon("late", 40), 2, 40).unwrap();
    assert_eq!(ids_at(&store, 40), store.ranked_ids().clone());
    assert_eq!(ids_at(&store, 1000), store.ranked_ids().clone());
    let now = store.reconstruct(40).unwrap();
    for (i, h) in now.iter().enumerate() {
        assert_eq!(h.position, i as u64 + 1);
    }
}

#[test]
fn reconstruction_at_past_times() {
    let mut store = store_of(4);
    store.move_to(3, 1, 20).unwrap();
    store.remove(1, 30).unwrap();
    store.insert(new_demon("late", 40), 2, 40).unwrap();
    assert_eq!(store.ranked_ids().clone(), vec![3, 4, 0, 2]);
    assert_eq!(ids_at(&store, 35), vec![3, 0, 2]);
    assert_eq!(ids_at(&store, 25), vec![3, 0, 1, 2]);
    assert_eq!(ids_at(&store, 15), vec![0, 1, 2, 3]);
    assert_eq!(ids_at(&store, 5), Vec::<u64>::new());
    assert_eq!(
        store.reconstruct(25).unwrap()[2],
        HistoricalPosition { demon: 1, position: 3 }
    );
}

#[test]
fn replaying_forward_after_rewinding_restores_the_present() {
    let mut store = store_of(4);
    store.move_to(0, 4, 20).unwrap();
    store.move_to(2, 1, 30).unwrap();
    let before_second = ids_at(&store, 25);
    assert_eq!(before_second, vec![1, 2, 3, 0]);
    let mut replayed = RankStore::new();
    for i in 0..4 {
        replayed.insert(new_demon(&format!("demon {}", i), 50), i + 1, 10).unwrap();
    }
    replayed.move_to(0, 4, 20).unwrap();
    assert_eq!(replayed.ranked_ids().clone(), before_second);
    replayed.move_to(2, 1, 30).unwrap();
    assert_eq!(replayed.ranked_ids().clone(), store.ranked_ids().clone());
    assert_eq!(ids_at(&store, 30), store.ranked_ids().clone());
}

#[test]
fn movements_of_one_demon() {
    let mut store = store_of(3);
    store.move_to(0, 3, 20).unwrap();
    store.move_to(1, 3, 30).unwrap();
    assert_eq!(store.ranked_ids().clone(), vec![2, 0, 1]);
    assert_eq!(
        store.movements_of(0),
        vec![
            DemonMovement { demon: 0, from_position: 0, at: 10 },
            DemonMovement { demon: 0, from_position: 1, at: 20 },
            DemonMovement { demon: 0, from_position: 3, at: 30 },
        ]
    );
    assert_eq!(store.movements_of(9), Vec::new());
}
