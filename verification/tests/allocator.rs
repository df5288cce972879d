use texture_atlas::geometry::Rect;
use texture_atlas::{Allocator, Region};

fn place(region: &Region) -> (u32, u32, u32, u32) {
    let (x, y) = region.position();
    let (width, height) = region.size();
    (x, y, width, height)
}

fn overlap(a: (u32, u32, u32, u32), b: (u32, u32, u32, u32)) -> bool {
    a.0 < b.0 + b.2 && b.0 < a.0 + a.2 && a.1 < b.1 + b.3 && b.1 < a.1 + a.3
}

#[test]
fn fresh_allocator_is_empty() {
    let allocator = Allocator::new(100);
    assert!(allocator.is_empty());
}

#[test]
fn first_region_lands_at_the_origin() {
    let mut allocator = Allocator::new(100);
    let region = allocator.allocate(60, 40).expect("room in a fresh square");
    assert_eq!(region.position(), (0, 0));
    assert_eq!(region.size(), (60, 40));
    assert!(!allocator.is_empty());
}

#[test]
fn whole_square_fits_a_fresh_allocator() {
    let mut allocator = Allocator::new(2048);
    let region = allocator.allocate(2048, 2048).expect("the square itself fits");
    assert_eq!(place(&region), (0, 0, 2048, 2048));
    assert!(allocator.allocate(1, 1).is_none());
}

#[test]
fn request_larger_than_the_square_is_refused() {
    let mut allocator = Allocator::new(100);
    assert!(allocator.allocate(101, 1).is_none());
    assert!(allocator.allocate(1, 101).is_none());
    assert!(allocator.is_empty());
    let region = allocator.allocate(100, 100).expect("nothing was taken by the refusals");
    assert_eq!(place(&region), (0, 0, 100, 100));
}

#[test]
fn requests_are_cut_from_the_smallest_free_rectangle() {
    let mut allocator = Allocator::new(100);
    let a = allocator.allocate(60, 40).unwrap();
    assert_eq!(place(&a), (0, 0, 60, 40));
    // Free: 40 by 40 at (60, 0), and 100 by 60 at (0, 40).
    let b = allocator.allocate(30, 30).unwrap();
    assert_eq!(place(&b), (60, 0, 30, 30));
    // Free: 100 by 60 at (0, 40), 10 by 40 at (90, 0), 30 by 10 at (60, 30).
    let c = allocator.allocate(100, 60).unwrap();
    assert_eq!(place(&c), (0, 40, 100, 60));
    assert!(allocator.allocate(20, 20).is_none());
    let d = allocator.allocate(10, 40).unwrap();
    assert_eq!(place(&d), (90, 0, 10, 40));
    let e = allocator.allocate(30, 10).unwrap();
    assert_eq!(place(&e), (60, 30, 30, 10));
    assert!(allocator.allocate(1, 1).is_none());
}

#[test]
fn best_fit_is_not_first_fit() {
    let mut allocator = Allocator::new(100);
    allocator.allocate(60, 40).unwrap();
    allocator.allocate(30, 30).unwrap();
    // All three free rectangles have room; the last is the smallest.
    let region = allocator.allocate(10, 10).unwrap();
    assert_eq!(place(&region), (60, 30, 10, 10));
}

#[test]
fn equal_areas_go_to_the_earlier_rectangle() {
    let mut allocator = Allocator::new(100);
    let a = allocator.allocate(50, 50).unwrap();
    let b = allocator.allocate(50, 50).unwrap();
    let c = allocator.allocate(50, 50).unwrap();
    let d = allocator.allocate(50, 50).unwrap();
    assert_eq!(place(&a), (0, 0, 50, 50));
    assert_eq!(place(&b), (0, 50, 50, 50));
    assert_eq!(place(&c), (50, 0, 50, 50));
    assert_eq!(place(&d), (50, 50, 50, 50));
    allocator.deallocate(&c);
    allocator.deallocate(&b);
    // Free: 50 by 50 at (50, 0), then 50 by 50 at (0, 50); they only touch at a corner.
    let region = allocator.allocate(10, 10).unwrap();
    assert_eq!(place(&region), (50, 0, 10, 10));
}

#[test]
fn released_space_is_joined_with_its_neighbours() {
    let mut allocator = Allocator::new(100);
    let a = allocator.allocate(60, 40).unwrap();
    assert!(allocator.allocate(100, 100).is_none());
    allocator.deallocate(&a);
    assert!(allocator.is_empty());
    let whole = allocator.allocate(100, 100).expect("the free rectangles were joined");
    assert_eq!(place(&whole), (0, 0, 100, 100));
}

#[test]
fn refused_request_changes_nothing() {
    let mut allocator = Allocator::new(100);
    let a = allocator.allocate(100, 100).unwrap();
    assert!(allocator.allocate(1, 1).is_none());
    assert!(!allocator.is_empty());
    allocator.deallocate(&a);
    assert!(allocator.is_empty());
    assert!(allocator.allocate(1, 1).is_some());
}

#[test]
fn is_empty_only_after_the_last_release() {
    let mut allocator = Allocator::new(64);
    let a = allocator.allocate(10, 10).unwrap();
    let b = allocator.allocate(20, 5).unwrap();
    let c = allocator.allocate(3, 30).unwrap();
    allocator.deallocate(&b);
    assert!(!allocator.is_empty());
    allocator.deallocate(&a);
    assert!(!allocator.is_empty());
    allocator.deallocate(&c);
    assert!(allocator.is_empty());
}

#[test]
fn releasing_a_region_twice_changes_nothing() {
    let mut allocator = Allocator::new(64);
    let a = allocator.allocate(10, 10).unwrap();
    let b = allocator.allocate(20, 20).unwrap();
    allocator.deallocate(&a);
    allocator.deallocate(&a);
    assert!(!allocator.is_empty());
    allocator.deallocate(&b);
    assert!(allocator.is_empty());
    let whole = allocator.allocate(64, 64).expect("all of the square is free again");
    assert_eq!(place(&whole), (0, 0, 64, 64));
}

#[test]
fn live_regions_never_overlap() {
    let mut allocator = Allocator::new(256);
    let mut live: Vec<Region> = Vec::new();
    let mut seed: u32 = 12345;
    for round in 0..400u32 {
        seed = seed.wrapping_mul(1664525).wrapping_add(1013904223);
        let width = 1 + (seed >> 8) % 70;
        seed = seed.wrapping_mul(1664525).wrapping_add(1013904223);
        let height = 1 + (seed >> 8) % 70;
        if let Some(region) = allocator.allocate(width, height) {
            assert_eq!(region.size(), (width, height));
            let (x, y) = region.position();
            assert!(x + width <= 256 && y + height <= 256);
            for other in &live {
                assert!(!overlap(place(&region), place(other)));
            }
            live.push(region);
        }
        if round % 3 == 2 && !live.is_empty() {
            seed = seed.wrapping_mul(1664525).wrapping_add(1013904223);
            let victim = live.remove(((seed >> 8) as usize) % live.len());
            allocator.deallocate(&victim);
        }
    }
    while let Some(region) = live.pop() {
        allocator.deallocate(&region);
    }
    assert!(allocator.is_empty());
}

#[test]
fn rect_cells_is_width_times_height() {
    let rect = Rect { x: 3, y: 4, width: 60, height: 40 };
    assert_eq!(rect.cells(), 2400);
    let large = Rect { x: 0, y: 0, width: u32::MAX, height: u32::MAX };
    assert_eq!(large.cells(), 18446744065119617025);
}

#[test]
fn rects_touch_along_a_whole_edge_only() {
    let a = Rect { x: 0, y: 0, width: 60, height: 40 };
    let right = Rect { x: 60, y: 0, width: 40, height: 40 };
    let below = Rect { x: 0, y: 40, width: 60, height: 10 };
    let shorter = Rect { x: 60, y: 0, width: 40, height: 30 };
    let corner = Rect { x: 60, y: 40, width: 5, height: 5 };
    assert!(a.touches(&right));
    assert!(right.touches(&a));
    assert!(a.touches(&below));
    assert!(!a.touches(&shorter));
    assert!(!a.touches(&corner));
    assert!(!a.touches(&a));
}

#[test]
fn join_is_the_bounding_rectangle() {
    let a = Rect { x: 0, y: 0, width: 60, height: 40 };
    let right = Rect { x: 60, y: 0, width: 40, height: 40 };
    let below = Rect { x: 0, y: 40, width: 60, height: 10 };
    assert_eq!(a.join(&right), Rect { x: 0, y: 0, width: 100, height: 40 });
    assert_eq!(right.join(&a), Rect { x: 0, y: 0, width: 100, height: 40 });
    assert_eq!(a.join(&below), Rect { x: 0, y: 0, width: 60, height: 50 });
}
