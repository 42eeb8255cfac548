use rust_land::error::EngineError;
use rust_land::partition::{
    owner_of, partition, plane_region_for, region_for, Region, LANES, PARTICLE_STRIDE,
};

fn assert_tiles(items: usize, workers: usize, stride: usize) {
    let regions: Vec<Region> = partition(items, workers, stride).unwrap();
    assert_eq!(regions.len(), workers);
    let total: usize = items * stride;
    let mut seen: Vec<u32> = vec![0; total];
    for region in regions.iter() {
        assert!(region.start <= region.end);
        assert!(region.end <= total);
        for i in region.start..region.end {
            seen[i] += 1;
        }
    }
    assert!(seen.iter().all(|&n| n == 1));
    assert_eq!(regions[0].start, 0);
    assert_eq!(regions[workers - 1].end, total);
    for t in 1..workers {
        assert_eq!(regions[t - 1].end, regions[t].start);
    }
}

#[test]
fn regions_follow_the_formula() {
    let regions: Vec<Region> = partition(10, 4, 2).unwrap();
    assert_eq!(
        regions,
        vec![
            Region { start: 0, end: 4 },
            Region { start: 4, end: 8 },
            Region { start: 8, end: 12 },
            Region { start: 12, end: 20 },
        ]
    );
}

#[test]
fn region_for_agrees_with_partition() {
    let regions: Vec<Region> = partition(103, 8, 2).unwrap();
    for t in 0..8 {
        assert_eq!(region_for(t, 8, 103, 2), regions[t]);
    }
    assert_eq!(region_for(2, 8, 103, 2), Region { start: 48, end: 72 });
    assert_eq!(region_for(7, 8, 103, 2), Region { start: 168, end: 206 });
}

#[test]
fn last_region_absorbs_the_remainder() {
    let regions: Vec<Region> = partition(11, 3, 2).unwrap();
    assert_eq!(regions[0], Region { start: 0, end: 6 });
    assert_eq!(regions[1], Region { start: 6, end: 12 });
    assert_eq!(regions[2], Region { start: 12, end: 22 });
}

#[test]
fn even_split_leaves_no_remainder() {
    let regions: Vec<Region> = partition(100_000_000, 8, PARTICLE_STRIDE).unwrap();
    for t in 0..8 {
        assert_eq!(regions[t].len(), 25_000_000);
        assert_eq!(regions[t].start, t * 25_000_000);
    }
}

#[test]
fn regions_cover_every_index_exactly_once() {
    for workers in 1..=9 {
        for items in workers..40 {
            assert_tiles(items, workers, 2);
        }
    }
    assert_tiles(17, 5, 1);
    assert_tiles(17, 5, 3);
    assert_tiles(8, 8, 2);
}

#[test]
fn more_workers_than_items_still_tiles() {
    let regions: Vec<Region> = partition(3, 5, 2).unwrap();
    for t in 0..4 {
        assert!(regions[t].is_empty());
        assert_eq!(regions[t].start, 0);
    }
    assert_eq!(regions[4], Region { start: 0, end: 6 });
    assert_tiles(3, 5, 2);
    assert_tiles(0, 4, 2);
}

#[test]
fn single_worker_owns_everything() {
    assert_eq!(partition(7, 1, 2).unwrap(), vec![Region { start: 0, end: 14 }]);
}

#[test]
fn partition_rejects_zero_workers() {
    assert_eq!(partition(10, 0, 2), Err(EngineError::InvalidConfiguration));
}

#[test]
fn partition_rejects_a_buffer_beyond_usize() {
    assert_eq!(partition(usize::MAX, 4, 2), Err(EngineError::InvalidConfiguration));
    assert!(partition(usize::MAX, 4, 1).is_ok());
}

#[test]
fn owner_of_names_the_region_that_holds_the_index() {
    for workers in 1..=6 {
        for items in 0..25 {
            let regions: Vec<Region> = partition(items, workers, 2).unwrap();
            for index in 0..items * 2 {
                let w: usize = owner_of(index, workers, items, 2);
                assert!(w < workers);
                assert!(regions[w].contains(index));
            }
        }
    }
    assert_eq!(owner_of(199, 8, 100, 2), 7);
    assert_eq!(owner_of(48, 8, 100, 2), 2);
    assert_eq!(owner_of(47, 8, 100, 2), 1);
}

#[test]
fn plane_regions_lie_back_to_back() {
    assert_eq!(plane_region_for(0, 8, 960_000), Region { start: 0, end: 960_000 });
    assert_eq!(plane_region_for(3, 8, 960_000), Region { start: 2_880_000, end: 3_840_000 });
    assert_eq!(plane_region_for(7, 8, 960_000), Region { start: 6_720_000, end: 7_680_000 });
    for t in 0..8 {
        assert_eq!(plane_region_for(t, 8, 960_000), region_for(t, 8, 8, 960_000));
    }
}

#[test]
fn region_len_and_contains() {
    let region = Region { start: 4, end: 9 };
    assert_eq!(region.len(), 5);
    assert!(!region.is_empty());
    assert!(region.contains(4));
    assert!(region.contains(8));
    assert!(!region.contains(9));
    assert!(!region.contains(3));
    assert!(Region { start: 6, end: 6 }.is_empty());
}

#[test]
fn lane_groups_are_whole_groups_of_eight() {
    assert_eq!(LANES, 8);
    let region = Region { start: 16, end: 16 + 35 };
    assert_eq!(region.lane_groups(), 4);
    assert_eq!(region.lane_group(0), Region { start: 16, end: 24 });
    assert_eq!(region.lane_group(3), Region { start: 40, end: 48 });
    assert_eq!(Region { start: 0, end: 7 }.lane_groups(), 0);
    assert_eq!(Region { start: 0, end: 8 }.lane_groups(), 1);
}

#[test]
fn lane_groups_do_not_overlap_and_stay_inside() {
    let region = Region { start: 5, end: 5 + 8 * 6 + 3 };
    let groups: usize = region.lane_groups();
    assert_eq!(groups, 6);
    let mut next: usize = region.start;
    for g in 0..groups {
        let group: Region = region.lane_group(g);
        assert_eq!(group.start, next);
        assert_eq!(group.len(), LANES);
        assert!(group.end <= region.end);
        next = group.end;
    }
    assert_eq!(region.end - next, 3);
}
