use runic::arena::Arena;
use std::cell::Cell;

struct DropCounter<'a> {
    drops: &'a Cell<usize>,
}

impl Drop for DropCounter<'_> {
    fn drop(&mut self) {
        self.drops.set(self.drops.get() + 1);
    }
}

fn occupy(arena: &mut Arena<u32>, value: u32) -> u32 {
    let index = arena.vacant().unwrap();
    assert!(arena.insert(index, value));
    index
}

fn values(arena: &Arena<u32>) -> Vec<u32> {
    arena
        .occupied()
        .into_iter()
        .map(|index| *arena.get(index).unwrap())
        .collect()
}

#[test]
fn arena_vacant_assigns_indices_from_zero() {
    let mut arena = Arena::<u32>::new();
    assert_eq!(occupy(&mut arena, 10), 0);
    assert_eq!(occupy(&mut arena, 20), 1);
    assert_eq!(arena.get(0).copied(), Some(10));
    assert_eq!(arena.get(1).copied(), Some(20));
}

#[test]
fn arena_vacant_without_insert_consumes_nothing() {
    let arena = Arena::<u32>::new();
    assert_eq!(arena.vacant(), Some(0));
    assert_eq!(arena.vacant(), Some(0));
}

#[test]
fn arena_insert_rejects_index_that_is_not_vacant() {
    let mut arena = Arena::<u32>::new();
    let index = arena.vacant().unwrap();
    assert!(!arena.insert(index + 1, 1));
    assert_eq!(arena.vacant(), Some(index));
}

#[test]
fn arena_remove_returns_index_to_vacant() {
    let mut arena = Arena::<u32>::new();
    let first = occupy(&mut arena, 10);
    assert_eq!(occupy(&mut arena, 20), 1);
    assert_eq!(arena.remove(first), Some(10));
    assert_eq!(arena.vacant(), Some(first));
    assert_eq!(occupy(&mut arena, 30), first);
}

#[test]
fn arena_insert_get_remove_round_trip() {
    let mut arena = Arena::<u32>::new();
    let index = occupy(&mut arena, 42);
    assert_eq!(arena.get(index).copied(), Some(42));
    assert_eq!(arena.remove(index), Some(42));
    assert_eq!(arena.get(index), None);
    assert_eq!(occupy(&mut arena, 7), index);
}

#[test]
fn arena_iterators_yield_occupied_only() {
    let mut arena = Arena::<u32>::new();
    for value in 1..=3 {
        occupy(&mut arena, value);
    }
    assert_eq!(arena.remove(1), Some(2));
    assert_eq!(values(&arena), vec![1, 3]);
    for index in arena.occupied() {
        *arena.get_mut(index).unwrap() *= 2;
    }
    assert_eq!(values(&arena), vec![2, 6]);
}

#[test]
fn arena_drop_drops_occupied_only() {
    let drops = Cell::new(0);
    {
        let mut arena = Arena::new();
        let first = arena.vacant().unwrap();
        assert!(arena.insert(first, DropCounter { drops: &drops }));
        let removed = arena.vacant().unwrap();
        assert!(arena.insert(removed, DropCounter { drops: &drops }));
        drop(arena.remove(removed));
        assert_eq!(arena.vacant(), Some(removed));
    }
    assert_eq!(drops.get(), 2);
}

struct Large([u8; 4096]);

fn numbered(index: u32) -> Large {
    let mut value = Large([0; 4096]);
    value.0[..4].copy_from_slice(&index.to_le_bytes());
    value
}

#[test]
fn arena_grows_past_thirty_two_chunks() {
    let mut arena = Arena::<Large>::new();
    let per = Arena::<Large>::slots_per_chunk();
    let entries = per * 32 + 1;
    for index in 0..entries {
        let slot = arena.vacant().unwrap();
        assert!(arena.insert(slot, numbered(index)));
    }

    assert_eq!(&arena.get(0).unwrap().0[..4], &0u32.to_le_bytes());
    assert_eq!(
        &arena.get(entries - 1).unwrap().0[..4],
        &(entries - 1).to_le_bytes()
    );
}

#[test]
fn arena_grows_across_chunks_without_moving_slots() {
    let mut arena = Arena::<Large>::new();
    let first_index = arena.vacant().unwrap();
    assert!(arena.insert(first_index, Large([0; 4096])));
    let per = Arena::<Large>::slots_per_chunk();
    let entries = per + 1;

    for index in 1..entries {
        let slot = arena.vacant().unwrap();
        assert!(arena.insert(slot, numbered(index)));
    }

    // The first value keeps its place.
    assert_eq!(Arena::<Large>::chunk_of(first_index), Some((0, 0)));
    assert!(arena.get(first_index).unwrap().0.iter().all(|&byte| byte == 0));
    assert_eq!(arena.occupied().len(), usize::try_from(entries).unwrap());
    assert_eq!(
        &arena.get(entries - 1).unwrap().0[..4],
        &(entries - 1).to_le_bytes()
    );
}

#[test]
fn get_sees_published_slots_across_chunks() {
    let mut arena = Arena::<u32>::new();
    let n = Arena::<u32>::slots_per_chunk() + 8;
    let mut seen = 0u32;
    for i in 0..n {
        let index = arena.push(|_| Some(i)).unwrap();
        assert_eq!(*arena.get(index).unwrap(), index);
        seen += 1;
    }
    assert_eq!(seen, n);
    assert_eq!(arena.published(), n);
    assert_eq!(arena.push(|_| None), None);
    assert_eq!(arena.published(), n);
}

#[test]
fn pushed_value_is_found_at_its_index() {
    let mut arena: Arena<u32> = Arena::new();

    assert_eq!(arena.push(|index| Some(index + 10)), Some(0));
    assert_eq!(arena.push(|_| None), None);
    assert_eq!(arena.get(1), None);
    assert_eq!(arena.push(|index| Some(index + 10)), Some(1));
    assert_eq!(arena.get(0), Some(&10));
    assert_eq!(arena.get(1), Some(&11));
}
