use terrain_chunks::cache::{desired_coords, ChunkedLoader, GridCoord, PollStatus};

fn gc(x: i32, z: i32) -> GridCoord {
    GridCoord { x, z }
}

fn offset_count(r: i64) -> usize {
    let mut n = 0;
    for dx in -r..r {
        for dz in -r..r {
            if dx * dx + dz * dz < r * r {
                n += 1;
            }
        }
    }
    n
}

#[test]
fn fresh_cache_has_defaults() {
    let cache = ChunkedLoader::new(7, 1000);
    assert_eq!(cache.render_dist, 10);
    assert_eq!(cache.update_tick_ms, 200);
    assert_eq!(cache.material, 7);
    assert!(cache.loading.is_empty());
    assert!(cache.failed.is_empty());
}

#[test]
fn desired_cells_match_offset_filter() {
    for r in [0usize, 1, 2, 3, 10] {
        let cells = desired_coords(gc(0, 0), r);
        assert_eq!(cells.len(), offset_count(r as i64), "radius {r}");
        for c in &cells {
            let d = (c.x as i64).pow(2) + (c.z as i64).pow(2);
            assert!(d < (r as i64) * (r as i64));
        }
    }
}

#[test]
fn desired_cells_translate_with_viewer() {
    let at_origin = desired_coords(gc(0, 0), 3);
    let moved = desired_coords(gc(100, -50), 3);
    assert_eq!(at_origin.len(), moved.len());
    for (a, b) in at_origin.iter().zip(moved.iter()) {
        assert_eq!(b.x - a.x, 100);
        assert_eq!(b.z - a.z, -50);
    }
}

#[test]
fn first_tick_requests_every_desired_cell() {
    let mut cache = ChunkedLoader::new(0, 1000);
    cache.set_render_dist(3);
    let r = cache.update(1000, gc(0, 0), &vec![], &vec![]);
    assert!(r.ran);
    assert_eq!(r.requested.len(), offset_count(3));
    assert_eq!(cache.loading.len(), offset_count(3));
    assert!(r.created.is_empty());
    assert!(r.evicted.is_empty());
}

#[test]
fn tick_is_rate_limited() {
    let mut cache = ChunkedLoader::new(0, 1000);
    let r1 = cache.update(1000, gc(0, 0), &vec![], &vec![]);
    assert!(r1.ran);
    let statuses = vec![PollStatus::Pending; cache.loading.len()];
    let r2 = cache.update(1100, gc(0, 0), &statuses, &vec![]);
    assert!(!r2.ran);
    assert!(r2.requested.is_empty());
    let r3 = cache.update(1200, gc(0, 0), &statuses, &vec![]);
    assert!(r3.ran);
}

#[test]
fn ready_requests_become_instances_once() {
    let mut cache = ChunkedLoader::new(0, 1000);
    cache.set_render_dist(1);
    let r1 = cache.update(1000, gc(0, 0), &vec![], &vec![]);
    assert_eq!(r1.requested, vec![gc(0, 0)]);
    // The request completes; the next tick creates the instance and, with
    // the cell now loaded, asks for nothing new.
    let r2 = cache.update(1300, gc(0, 0), &vec![PollStatus::Ready], &vec![]);
    assert_eq!(r2.created, vec![gc(0, 0)]);
    assert!(cache.loading.is_empty());
    assert!(r2.requested.is_empty());
    let loaded = vec![gc(0, 0)];
    let r3 = cache.update(1600, gc(0, 0), &vec![], &loaded);
    assert!(r3.ran);
    assert!(r3.requested.is_empty());
    assert!(r3.created.is_empty());
}

#[test]
fn eviction_boundary_honors_hysteresis() {
    // Radius 1: threshold is 1*1 + 3 = 4. Distance exactly 4 is kept,
    // distance 5 is evicted.
    let mut cache = ChunkedLoader::new(0, 1000);
    cache.set_render_dist(1);
    let at_four = gc(2, 0); // 4 == 2*2 + 0
    let at_five = gc(1, 2); // 5 == 1*1 + 2*2
    let loaded = vec![gc(0, 0), at_four, at_five];
    let r = cache.update(1000, gc(0, 0), &vec![], &loaded);
    assert!(r.ran);
    assert_eq!(r.evicted, vec![at_five]);
}

#[test]
fn failed_cell_is_never_requested_again() {
    let mut cache = ChunkedLoader::new(0, 1000);
    cache.set_render_dist(1);
    let r1 = cache.update(1000, gc(0, 0), &vec![], &vec![]);
    assert_eq!(r1.requested, vec![gc(0, 0)]);
    let r2 = cache.update(1300, gc(0, 0), &vec![PollStatus::Failed], &vec![]);
    assert!(r2.created.is_empty());
    assert_eq!(cache.failed, vec![gc(0, 0)]);
    // The viewer keeps revisiting the cell's vicinity; it is never
    // re-issued.
    for step in 0..5u64 {
        let r = cache.update(1600 + 300 * step, gc(0, 0), &vec![], &vec![]);
        assert!(r.ran);
        assert!(r.requested.is_empty(), "tick {step}");
        assert_eq!(cache.failed, vec![gc(0, 0)]);
    }
}

#[test]
fn pending_requests_stay_in_flight() {
    let mut cache = ChunkedLoader::new(0, 1000);
    cache.set_render_dist(1);
    cache.update(1000, gc(0, 0), &vec![], &vec![]);
    let r = cache.update(1300, gc(0, 0), &vec![PollStatus::Pending], &vec![]);
    assert!(r.ran);
    assert_eq!(cache.loading, vec![gc(0, 0)]);
    assert!(r.requested.is_empty());
    assert!(r.created.is_empty());
}

#[test]
fn moving_viewer_requests_new_cells_and_evicts_old_ones() {
    let mut cache = ChunkedLoader::new(0, 1000);
    cache.set_render_dist(1);
    cache.update(1000, gc(0, 0), &vec![], &vec![]);
    let r2 = cache.update(1300, gc(0, 0), &vec![PollStatus::Ready], &vec![]);
    assert_eq!(r2.created, vec![gc(0, 0)]);
    // Viewer jumps far away: the old instance is out of range and a new
    // cell is requested.
    let loaded = vec![gc(0, 0)];
    let r3 = cache.update(1600, gc(10, 10), &vec![], &loaded);
    assert_eq!(r3.requested, vec![gc(10, 10)]);
    assert_eq!(r3.evicted, vec![gc(0, 0)]);
}

#[test]
fn time_since_last_update_reports_elapsed() {
    let mut cache = ChunkedLoader::new(0, 1000);
    cache.update(1000, gc(0, 0), &vec![], &vec![]);
    assert_eq!(cache.time_since_last_update(1150), 150);
    assert_eq!(cache.time_since_last_update(900), 0);
}

#[test]
fn update_tick_is_configurable() {
    let mut cache = ChunkedLoader::new(0, 1000);
    cache.set_update_tick(50);
    let r1 = cache.update(1000, gc(0, 0), &vec![], &vec![]);
    assert!(r1.ran);
    let statuses = vec![PollStatus::Pending; cache.loading.len()];
    let r2 = cache.update(1050, gc(0, 0), &statuses, &vec![]);
    assert!(r2.ran);
}
