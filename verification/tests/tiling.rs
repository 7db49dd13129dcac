use psd_viewer::document::Document;
use psd_viewer::nearest::{distance_rank, nearest_first};
use psd_viewer::session::{cache_budget, missing_tiles, Session, Status, MIN_CACHE_BYTES};
use psd_viewer::tile_cache::TileCache;
use psd_viewer::tiles::{level_size, max_level, tiles_in, TileKey};
use psd_viewer::worker::{Next, Scheduler};

fn document(width: u32, height: u32) -> Document {
    Document {
        width,
        height,
        color_mode: 3,
        nodes: Vec::new(),
        root: Vec::new(),
        warnings: Vec::new(),
    }
}

fn key(level: u32, x: u32, y: u32) -> TileKey {
    TileKey { level, x, y }
}

#[test]
fn sizes_are_rounded_up() {
    let doc = document(1025, 3);
    assert_eq!(level_size(&doc, 0), (1025, 3));
    assert_eq!(level_size(&doc, 1), (513, 2));
    assert_eq!(level_size(&doc, 11), (1, 1));
    assert_eq!(level_size(&doc, 40), (1, 1));
    assert_eq!(level_size(&document(0, 7), 70), (0, 1));
}

#[test]
fn the_last_level_is_one_tile() {
    assert_eq!(max_level(&document(512, 512)), 0);
    assert_eq!(max_level(&document(513, 1)), 1);
    assert_eq!(max_level(&document(1, 1025)), 2);
    assert_eq!(max_level(&document(u32::MAX, 1)), 23);
}

#[test]
fn regions_have_a_border() {
    let doc = document(1000, 600);
    assert_eq!(key(0, 1, 0).content_size(&doc), (488, 512));
    let r = key(0, 1, 1).region(&doc);
    assert_eq!((r.level, r.x, r.y, r.width, r.height), (0, 511, 511, 490, 90));
    let outside = key(0, 5, 0).region(&doc);
    assert_eq!((outside.width, outside.height), (2, 514));
}

#[test]
fn tiles_of_a_view_are_listed_row_by_row() {
    let doc = document(1500, 1100);
    assert_eq!(
        tiles_in(&doc, 0, (1, 9), (-4, 2)),
        [key(0, 1, 0), key(0, 2, 0), key(0, 1, 1), key(0, 2, 1)]
    );
    assert!(tiles_in(&doc, 0, (2, 1), (0, 2)).is_empty());
    assert!(tiles_in(&doc, 0, (0, 2), (2, 2)).is_empty());
    assert_eq!(tiles_in(&doc, 2, (0, 9), (0, 9)), [key(2, 0, 0)]);
}

#[test]
fn near_tiles_come_first() {
    let sorted = nearest_first(&vec![
        (key(0, 0, 0), 5),
        (key(0, 1, 0), 2),
        (key(0, 2, 0), 5),
        (key(0, 3, 0), -1),
        (key(0, 4, 0), 2),
    ]);
    let x: Vec<u32> = sorted.iter().map(|e| e.0.x).collect();
    assert_eq!(x, [3, 1, 4, 0, 2]);
}

#[test]
fn ranks_order_as_floats_do() {
    assert_eq!(distance_rank(0), 0);
    assert_eq!(distance_rank(1.0f32.to_bits()), 0x3f80_0000);
    assert_eq!(distance_rank((-0.0f32).to_bits()), -1);
    assert_eq!(distance_rank(u32::MAX), i32::MIN);
    let all = [
        -f32::NAN,
        f32::NEG_INFINITY,
        -2.5,
        -1.0,
        -f32::MIN_POSITIVE,
        -0.0,
        0.0,
        f32::MIN_POSITIVE,
        1.0,
        262144.0,
        f32::INFINITY,
        f32::NAN,
    ];
    for a in all {
        for b in all {
            let ranks = distance_rank(a.to_bits()).cmp(&distance_rank(b.to_bits()));
            assert_eq!(ranks, a.total_cmp(&b), "{a} {b}");
        }
    }
}

#[test]
fn tiles_have_distinct_numbers() {
    assert_eq!(key(0, 0, 1).code(), 1);
    assert_eq!(key(0, 1, 0).code(), 1 << 32);
    assert_eq!(key(1, 0, 0).code(), 1 << 64);
}

#[test]
fn kept_tiles_are_ready() {
    let mut cache: TileCache<&str> = TileCache::new();
    cache.insert(key(0, 0, 0), 1, "old", 10, 1);
    assert!(cache.is_ready(&key(0, 0, 0), 1));
    assert!(!cache.is_ready(&key(0, 0, 0), 2));
    assert!(!cache.is_ready(&key(0, 1, 0), 1));
    cache.insert(key(0, 0, 0), 2, "new", 30, 1);
    assert!(cache.is_ready(&key(0, 0, 0), 2));
    assert_eq!(cache.use_tile(&key(0, 0, 0), 5), Some(&"new"));
    assert_eq!(cache.use_tile(&key(0, 1, 0), 5), None);
    cache.clear();
    assert!(!cache.is_ready(&key(0, 0, 0), 2));
}

#[test]
fn old_tiles_are_given_up_first() {
    let mut cache: TileCache<u8> = TileCache::default();
    cache.insert(key(0, 0, 0), 2, 0, 10, 3);
    cache.insert(key(0, 1, 0), 1, 1, 10, 5);
    cache.insert(key(0, 2, 0), 2, 2, 10, 1);
    cache.insert(key(0, 3, 0), 1, 3, 10, 7);
    // Within the budget nothing happens.
    cache.evict(40, 7, 2);
    assert!(cache.is_ready(&key(0, 1, 0), 1));
    // The tile of an older state goes first, though another was not used for longer.
    cache.evict(30, 7, 2);
    assert!(!cache.is_ready(&key(0, 1, 0), 1));
    assert!(cache.is_ready(&key(0, 2, 0), 2));
    cache.evict(29, 7, 2);
    assert!(!cache.is_ready(&key(0, 2, 0), 2));
    assert!(cache.is_ready(&key(0, 0, 0), 2));
    // What is used in this frame stays, whatever it takes.
    cache.evict(0, 7, 2);
    assert!(!cache.is_ready(&key(0, 0, 0), 2));
    assert!(cache.is_ready(&key(0, 3, 0), 1));
}

#[test]
fn no_more_tiles_are_given_up_than_needed() {
    let mut cache: TileCache<u8> = TileCache::new();
    for (x, last_used) in [(0, 4), (1, 2), (2, 3), (3, 9)] {
        cache.insert(key(0, x, 0), 1, 0, 10, last_used);
    }
    cache.evict(25, 9, 1);
    assert_eq!(cache.bytes(), 20);
    assert!(cache.is_ready(&key(0, 0, 0), 1));
    assert!(!cache.is_ready(&key(0, 1, 0), 1));
    assert!(!cache.is_ready(&key(0, 2, 0), 1));
    cache.evict(5, 9, 1);
    assert_eq!(cache.bytes(), 10);
    assert!(cache.is_ready(&key(0, 3, 0), 1));
    cache.clear();
    assert_eq!(cache.bytes(), 0);
}

#[test]
fn a_tile_that_is_replaced_is_not_counted() {
    let mut cache: TileCache<u8> = TileCache::new();
    cache.insert(key(0, 0, 0), 1, 0, 100, 1);
    cache.insert(key(0, 0, 0), 1, 0, 10, 1);
    cache.insert(key(0, 1, 0), 1, 0, 10, 1);
    cache.evict(20, 2, 1);
    assert!(cache.is_ready(&key(0, 0, 0), 1) && cache.is_ready(&key(0, 1, 0), 1));
}

#[test]
fn tiles_are_drawn_in_batches() {
    let doc = document(5000, 5000);
    let mut s = Scheduler::new();
    assert!(s.is_idle());
    assert!(matches!(s.next(&doc), Next::Wait));
    let keys: Vec<TileKey> = (0..10).map(|x| key(0, x % 9, x / 9)).collect();
    assert!(!s.request(1, &keys, 0));
    assert!(!s.is_idle());
    // Seven tiles of 514 by 514 pixels are less than two million pixels, eight are more.
    match s.next(&doc) {
        Next::Draw { generation: 1, keys: batch } => assert_eq!(batch, keys[..7]),
        _ => panic!("nothing to draw"),
    }
    assert_eq!(s.finish(), None);
    match s.next(&doc) {
        Next::Draw { generation: 1, keys: batch } => assert_eq!(batch, keys[7..]),
        _ => panic!("nothing to draw"),
    }
    assert_eq!(s.finish(), Some(1));
    assert!(matches!(s.next(&doc), Next::Wait));
}

#[test]
fn a_large_tile_is_drawn_alone() {
    let doc = document(5000, 5000);
    let mut s = Scheduler::new();
    s.request(1, &vec![key(2, 0, 0), key(2, 1, 0)], 0);
    match s.next(&doc) {
        Next::Draw { keys, .. } => assert_eq!(keys, [key(2, 0, 0)]),
        _ => panic!("nothing to draw"),
    }
}

#[test]
fn tiles_on_their_way_are_not_drawn_again() {
    let doc = document(2000, 2000);
    let mut s = Scheduler::new();
    s.request(1, &vec![key(0, 0, 0), key(0, 1, 0)], 0);
    s.next(&doc);
    s.tile_sent(&key(0, 0, 0));
    s.tile_sent(&key(0, 1, 0));
    assert_eq!(s.finish(), Some(1));
    // The first has been received, and is asked for again; the second is still on its way.
    s.request(1, &vec![key(0, 0, 0), key(0, 1, 0), key(0, 2, 0)], 1);
    match s.next(&doc) {
        Next::Draw { keys, .. } => assert_eq!(keys, [key(0, 0, 0), key(0, 2, 0)]),
        _ => panic!("nothing to draw"),
    }
    // Another state of the display is drawn in full.
    s.request(2, &vec![key(0, 0, 0), key(0, 1, 0)], 1);
    match s.next(&doc) {
        Next::Draw { generation: 2, keys } => assert_eq!(keys, [key(0, 0, 0), key(0, 1, 0)]),
        _ => panic!("nothing to draw"),
    }
}

#[test]
fn a_request_takes_the_place_of_another() {
    let doc = document(2000, 2000);
    let mut s = Scheduler::new();
    s.request(1, &vec![key(0, 0, 0)], 0);
    assert!(s.request(1, &vec![key(0, 1, 0)], 0));
    match s.next(&doc) {
        Next::Draw { keys, .. } => assert_eq!(keys, [key(0, 1, 0)]),
        _ => panic!("nothing to draw"),
    }
    s.request(1, &vec![], 0);
    assert!(matches!(s.next(&doc), Next::Idle { generation: 1 }));
    s.request(1, &vec![key(0, 0, 0)], 0);
    s.open();
    assert!(matches!(s.next(&doc), Next::Wait));
}

#[test]
fn missing_tiles_are_asked_for_once() {
    let mut cache: TileCache<u8> = TileCache::new();
    cache.insert(key(0, 0, 0), 1, 0, 1, 1);
    let wanted = vec![key(0, 0, 0), key(0, 1, 0), key(0, 2, 0)];
    let coarse = vec![key(0, 2, 0), key(3, 0, 0)];
    let missing = missing_tiles(&cache, 1, &wanted, &coarse);
    assert_eq!(missing, [key(0, 1, 0), key(0, 2, 0), key(3, 0, 0)]);

    let mut s = Session::new();
    s.next_generation();
    assert_eq!(s.status(), Status::Ready);
    assert!(s.request(&missing));
    assert_eq!(s.status(), Status::Drawing);
    assert!(!s.request(&missing));
    // One of them is not asked for again, a new one is.
    assert!(!s.request(&vec![key(0, 1, 0)]));
    assert!(s.request(&vec![key(0, 1, 0), key(0, 9, 0)]));
    assert!(s.request(&vec![key(0, 2, 0)]));
}

#[test]
fn tiles_of_an_older_state_are_not_kept() {
    let mut s = Session::new();
    s.next_generation();
    s.request(&vec![key(0, 1, 0)]);
    assert!(!s.tile_arrived(0, &key(0, 1, 0)));
    assert_eq!(s.status(), Status::Drawing);
    assert!(s.tile_arrived(1, &key(0, 1, 0)));
    assert_eq!(s.status(), Status::Ready);
    assert_eq!((s.generation(), s.received()), (1, 2));
    s.request(&vec![key(0, 1, 0)]);
    s.next_generation();
    assert_eq!(s.status(), Status::Ready);
    assert_eq!(s.generation(), 2);
    assert!(s.is_current(2));
    assert!(!s.is_current(1));
}

#[test]
fn the_budget_is_four_screens() {
    assert_eq!(cache_budget(0), MIN_CACHE_BYTES);
    assert_eq!(MIN_CACHE_BYTES, 128 << 20);
    assert_eq!(cache_budget(50_000_000), 200_000_000);
    assert_eq!(cache_budget(usize::MAX), usize::MAX);
}

#[test]
fn a_new_file_is_fitted_and_drawn_anew() {
    let mut s = Session::new();
    s.open();
    assert_eq!(s.status(), Status::Loading);
    s.opened(false);
    assert_eq!((s.status(), s.serial(), s.generation()), (Status::Ready, 0, 0));
    assert!(!s.take_fit());
    s.request(&vec![key(0, 0, 0)]);
    s.open();
    s.opened(true);
    assert_eq!((s.status(), s.serial(), s.generation()), (Status::Ready, 1, 1));
    assert!(s.take_fit());
    assert!(!s.take_fit());
    s.ask_to_fit();
    assert!(s.take_fit());
}

#[test]
fn every_pixel_is_in_one_tile() {
    let doc = document(1300, 1);
    for at in 0..1300 {
        let owners: Vec<u32> = (0..3)
            .filter(|x| {
                let from = *x as usize * 512;
                from <= at && at < from + key(0, *x, 0).content_size(&doc).0
            })
            .collect();
        assert_eq!(owners, [at as u32 / 512]);
    }
}
