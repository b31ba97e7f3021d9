use flocking::observe::{
    observation_system, observation_system_update_cells, observation_system_update_hashmap,
    observation_system_update_observed, Observer, StuffsToObserve,
};

fn observers(count: usize) -> Vec<Observer> {
    let mut all = Vec::new();
    for _ in 0..count {
        all.push(Observer::new());
    }
    all
}

#[test]
fn new_observer_has_seen_nothing() {
    let observer = Observer::new();
    assert_eq!(observer.cell, 0);
    assert!(observer.observed.is_empty());
    let by_default = Observer::default();
    assert_eq!(by_default.cell, 0);
    assert!(by_default.observed.is_empty());
}

#[test]
fn rebuild_files_each_agent_under_its_cell() {
    let mut grid = StuffsToObserve::new(12, 12, 50);
    let entities = vec![7, 8, 9, 10];
    let coords = vec![(25, 25), (599, 599), (30, 40), (75, 25)];
    observation_system_update_hashmap(&mut grid, &entities, &coords);
    assert_eq!(grid.get(0), Some(&vec![7, 9]));
    assert_eq!(grid.get(1), Some(&vec![10]));
    assert_eq!(grid.get(143), Some(&vec![8]));
    let mut filed = 0;
    for cell in 0..144 {
        filed += grid.get(cell).unwrap().len();
    }
    assert_eq!(filed, 4);
}

#[test]
fn rebuild_starts_from_scratch() {
    let mut grid = StuffsToObserve::new(4, 4, 10);
    observation_system_update_hashmap(&mut grid, &vec![1, 2, 3], &vec![(5, 5), (5, 5), (35, 35)]);
    assert_eq!(grid.get(0), Some(&vec![1, 2]));
    assert_eq!(grid.get(15), Some(&vec![3]));
    observation_system_update_hashmap(&mut grid, &vec![3, 1], &vec![(5, 5), (15, 5)]);
    assert_eq!(grid.get(0), Some(&vec![3]));
    assert_eq!(grid.get(1), Some(&vec![1]));
    assert_eq!(grid.get(15), Some(&vec![]));
    observation_system_update_hashmap(&mut grid, &vec![], &vec![]);
    for cell in 0..16 {
        assert_eq!(grid.get(cell), Some(&vec![]));
    }
}

#[test]
fn rebuild_keeps_agents_outside_the_ground_in_border_cells() {
    let mut grid = StuffsToObserve::new(3, 3, 10);
    let entities = vec![1, 2, 3];
    let coords = vec![(-40, 15), (15, 400), (1000, -1000)];
    observation_system_update_hashmap(&mut grid, &entities, &coords);
    assert_eq!(grid.get(3), Some(&vec![1]));
    assert_eq!(grid.get(7), Some(&vec![2]));
    assert_eq!(grid.get(2), Some(&vec![3]));
}

#[test]
fn rebuild_with_degenerate_cell_size_files_everyone_under_cell_zero() {
    let mut grid = StuffsToObserve::new(3, 3, 0);
    observation_system_update_hashmap(&mut grid, &vec![4, 5], &vec![(25, 25), (-3, 9)]);
    assert_eq!(grid.get(0), Some(&vec![4, 5]));
    assert_eq!(grid.get(8), Some(&vec![]));
}

#[test]
fn assign_sets_cells_and_keeps_what_was_observed() {
    let grid = StuffsToObserve::new(12, 12, 50);
    let mut flock = observers(3);
    flock[1].observed = vec![42, 43];
    let coords = vec![(25, 25), (599, 599), (175, 325)];
    observation_system_update_cells(&grid, &mut flock, &coords);
    assert_eq!(flock[0].cell, 0);
    assert_eq!(flock[1].cell, 143);
    assert_eq!(flock[2].cell, 3 + 6 * 12);
    assert!(flock[0].observed.is_empty());
    assert_eq!(flock[1].observed, vec![42, 43]);
}

#[test]
fn gather_concatenates_the_buckets_around_the_cell() {
    let mut grid = StuffsToObserve::new(3, 3, 10);
    let entities = vec![10, 11, 12, 13, 14];
    let coords = vec![(5, 5), (15, 5), (5, 15), (25, 25), (15, 15)];
    observation_system_update_hashmap(&mut grid, &entities, &coords);
    let mut flock = observers(2);
    flock[0].cell = 0;
    flock[0].observed = vec![99];
    flock[1].cell = 8;
    observation_system_update_observed(&grid, &mut flock);
    assert_eq!(flock[0].observed, vec![10, 12, 11, 14]);
    assert_eq!(flock[1].observed, vec![14, 13]);
    assert_eq!(flock[0].cell, 0);
    assert_eq!(flock[1].cell, 8);
}

#[test]
fn gather_from_an_empty_grid_clears_the_list() {
    let grid = StuffsToObserve::new(3, 3, 10);
    let mut flock = observers(1);
    flock[0].observed = vec![1, 2, 3];
    flock[0].cell = 4;
    observation_system_update_observed(&grid, &mut flock);
    assert!(flock[0].observed.is_empty());
}

#[test]
fn round_lets_neighbours_observe_each_other() {
    let mut grid = StuffsToObserve::new(12, 12, 50);
    let entities = vec![100, 200, 300];
    let coords = vec![(0, 0), (5, 0), (599, 599)];
    let mut flock = observers(3);
    observation_system(&mut grid, &mut flock, &entities, &coords);
    assert_eq!(flock[0].cell, 0);
    assert_eq!(flock[1].cell, 0);
    assert_eq!(flock[2].cell, 143);
    assert_eq!(flock[0].observed, vec![100, 200]);
    assert_eq!(flock[1].observed, vec![100, 200]);
    assert_eq!(flock[2].observed, vec![300]);
    assert_eq!(flock[0].others(100), vec![200]);
    assert_eq!(flock[1].others(200), vec![100]);
    assert_eq!(flock[2].others(300), Vec::<u64>::new());
}

#[test]
fn round_sees_across_cell_borders_but_not_further() {
    let mut grid = StuffsToObserve::new(12, 12, 50);
    let entities = vec![1, 2, 3, 4];
    let coords = vec![(49, 49), (50, 50), (100, 100), (149, 149)];
    let mut flock = observers(4);
    observation_system(&mut grid, &mut flock, &entities, &coords);
    assert_eq!(flock[0].others(1), vec![2]);
    assert_eq!(flock[1].others(2), vec![1, 3, 4]);
    assert_eq!(flock[2].others(3), vec![2, 4]);
    assert_eq!(flock[3].others(4), vec![2, 3]);
}

#[test]
fn round_observes_every_agent_itself_and_nobody_twice() {
    let mut grid = StuffsToObserve::new(6, 5, 10);
    let mut entities = Vec::new();
    let mut coords = Vec::new();
    let mut seed: u64 = 12345;
    for id in 0..200u64 {
        seed = seed.wrapping_mul(6364136223846793005).wrapping_add(1442695040888963407);
        let x = ((seed >> 33) % 80) as i64 - 10;
        seed = seed.wrapping_mul(6364136223846793005).wrapping_add(1442695040888963407);
        let z = ((seed >> 33) % 70) as i64 - 10;
        entities.push(id);
        coords.push((x, z));
    }
    let mut flock = observers(200);
    observation_system(&mut grid, &mut flock, &entities, &coords);
    let mut filed = 0;
    for cell in 0..30 {
        filed += grid.get(cell).unwrap().len();
    }
    assert_eq!(filed, 200);
    for i in 0..200 {
        let mut found = 0;
        for cell in 0..30 {
            found += grid.get(cell).unwrap().iter().filter(|id| **id == entities[i]).count();
        }
        assert_eq!(found, 1);
    }
    for i in 0..200 {
        let me = &flock[i];
        assert!(me.cell < 30);
        assert!(grid.get(me.cell).unwrap().contains(&entities[i]));
        assert!(me.observed.contains(&entities[i]));
        let mut seen = me.observed.clone();
        seen.sort();
        seen.dedup();
        assert_eq!(seen.len(), me.observed.len());
        for j in 0..200 {
            let other = &flock[j];
            let near = (me.cell % 6).abs_diff(other.cell % 6) <= 1
                && (me.cell / 6).abs_diff(other.cell / 6) <= 1;
            assert_eq!(me.observed.contains(&entities[j]), near);
            assert_eq!(other.observed.contains(&entities[i]), near);
        }
        assert_eq!(me.others(entities[i]).len(), me.observed.len() - 1);
    }
}

#[test]
fn round_is_the_three_passes_in_order() {
    let entities = vec![5, 6, 7];
    let coords = vec![(12, 3), (27, 14), (1, 29)];
    let mut grid_a = StuffsToObserve::new(3, 3, 10);
    let mut flock_a = observers(3);
    observation_system(&mut grid_a, &mut flock_a, &entities, &coords);
    let mut grid_b = StuffsToObserve::new(3, 3, 10);
    let mut flock_b = observers(3);
    observation_system_update_hashmap(&mut grid_b, &entities, &coords);
    observation_system_update_cells(&grid_b, &mut flock_b, &coords);
    observation_system_update_observed(&grid_b, &mut flock_b);
    for i in 0..3 {
        assert_eq!(flock_a[i].cell, flock_b[i].cell);
        assert_eq!(flock_a[i].observed, flock_b[i].observed);
    }
    for cell in 0..9 {
        assert_eq!(grid_a.get(cell), grid_b.get(cell));
    }
}

#[test]
fn others_leaves_out_every_occurrence_of_oneself() {
    let mut observer = Observer::new();
    observer.observed = vec![3, 1, 3, 2, 3];
    assert_eq!(observer.others(3), vec![1, 2]);
    assert_eq!(observer.others(1), vec![3, 3, 2, 3]);
    assert_eq!(observer.others(9), vec![3, 1, 3, 2, 3]);
    observer.observed = vec![];
    assert_eq!(observer.others(3), Vec::<u64>::new());
    observer.observed = vec![4];
    assert_eq!(observer.others(4), Vec::<u64>::new());
}

#[test]
fn rebuild_keeps_the_order_of_the_agents_within_a_cell() {
    let mut grid = StuffsToObserve::new(2, 2, 10);
    let entities = vec![9, 3, 7, 1, 5];
    let coords = vec![(1, 1), (11, 1), (2, 2), (3, 3), (12, 2)];
    observation_system_update_hashmap(&mut grid, &entities, &coords);
    assert_eq!(grid.get(0), Some(&vec![9, 7, 1]));
    assert_eq!(grid.get(1), Some(&vec![3, 5]));
    assert_eq!(grid.get(2), Some(&vec![]));
    assert_eq!(grid.get(3), Some(&vec![]));
}

#[test]
fn rebuild_files_a_repeated_identifier_once_for_each_agent() {
    let mut grid = StuffsToObserve::new(2, 2, 10);
    let entities = vec![4, 4, 4];
    let coords = vec![(1, 1), (1, 1), (15, 15)];
    observation_system_update_hashmap(&mut grid, &entities, &coords);
    assert_eq!(grid.get(0), Some(&vec![4, 4]));
    assert_eq!(grid.get(3), Some(&vec![4]));
}

#[test]
fn lone_agent_observes_only_itself() {
    let mut grid = StuffsToObserve::new(12, 12, 50);
    let entities = vec![1, 2];
    let coords = vec![(25, 25), (125, 25)];
    let mut flock = observers(2);
    observation_system(&mut grid, &mut flock, &entities, &coords);
    assert_eq!(flock[0].observed, vec![1]);
    assert_eq!(flock[1].observed, vec![2]);
    assert!(flock[0].others(1).is_empty());
    assert!(flock[1].others(2).is_empty());
}

#[test]
fn round_replaces_what_was_observed_before() {
    let mut grid = StuffsToObserve::new(3, 3, 10);
    let mut flock = observers(2);
    observation_system(&mut grid, &mut flock, &vec![1, 2], &vec![(5, 5), (6, 6)]);
    assert_eq!(flock[0].observed, vec![1, 2]);
    observation_system(&mut grid, &mut flock, &vec![1, 2], &vec![(5, 5), (25, 25)]);
    assert_eq!(flock[0].observed, vec![1]);
    assert_eq!(flock[1].observed, vec![2]);
    assert_eq!(flock[1].cell, 8);
}
