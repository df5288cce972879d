use texture_atlas::{Allocation, Atlas, Backend, Entry, Layer, SIZE};

#[derive(Debug)]
struct NullBackend {
    texture: u32,
    grown: usize,
}

impl Backend for NullBackend {
    type Texture = u32;

    fn texture(&self) -> &u32 {
        &self.texture
    }
}

fn atlas() -> Atlas<NullBackend> {
    Atlas::new(NullBackend { texture: 7, grown: 0 })
}

fn kinds(layers: &[Layer]) -> Vec<char> {
    layers
        .iter()
        .map(|layer| match layer {
            Layer::Empty => 'E',
            Layer::Busy(_) => 'B',
            Layer::Full => 'F',
        })
        .collect()
}

/// Requests space and reports the entry, the layers as the callback saw
/// them and the growth it was told of.
fn request(atlas: &mut Atlas<NullBackend>, width: u32, height: u32) -> (Entry, Vec<char>, usize) {
    let mut seen: Option<(Vec<char>, usize)> = None;
    let entry = atlas
        .entry_for(width, height, |backend, layers, amount| {
            backend.grown += amount;
            seen = Some((kinds(layers), amount));
        })
        .expect("the atlas grows as needed");
    let (layers, amount) = seen.expect("the callback is always called");
    (entry, layers, amount)
}

fn single(entry: &Entry) -> &Allocation {
    match entry {
        Entry::Contiguous(allocation) => allocation,
        Entry::Fragmented { .. } => panic!("a contiguous entry was expected"),
    }
}

#[test]
fn new_atlas_has_one_layer() {
    let atlas = atlas();
    assert_eq!(atlas.layer_count(), 1);
    assert_eq!(*atlas.view(), 7);
    assert_eq!(atlas.backend().grown, 0);
}

#[test]
fn backend_can_be_changed_in_place() {
    let mut atlas = atlas();
    atlas.backend_mut().texture = 9;
    assert_eq!(*atlas.view(), 9);
    assert_eq!(atlas.backend().texture, 9);
    assert_eq!(atlas.layer_count(), 1);
}

#[test]
fn small_image_lands_in_the_first_layer() {
    let mut atlas = atlas();
    let (entry, layers, amount) = request(&mut atlas, 100, 50);
    assert_eq!(amount, 0);
    assert_eq!(layers, vec!['B']);
    assert_eq!(entry.size(), (100, 50));
    let allocation = single(&entry);
    assert!(matches!(allocation, Allocation::Partial { .. }));
    assert_eq!(allocation.layer(), 0);
    assert_eq!(allocation.position(), (0, 0));
    assert_eq!(allocation.size(), (100, 50));
    assert_eq!(atlas.layer_count(), 1);
}

#[test]
fn second_image_shares_the_layer() {
    let mut atlas = atlas();
    let (first, _, _) = request(&mut atlas, 100, 50);
    let (second, layers, amount) = request(&mut atlas, 200, 300);
    assert_eq!(amount, 0);
    assert_eq!(layers, vec!['B']);
    assert_eq!(single(&first).layer(), 0);
    assert_eq!(single(&second).layer(), 0);
    let (ax, ay) = single(&first).position();
    let (bx, by) = single(&second).position();
    let disjoint = ax + 100 <= bx || bx + 200 <= ax || ay + 50 <= by || by + 300 <= ay;
    assert!(disjoint);
}

#[test]
fn whole_layer_takes_the_first_empty_layer() {
    let mut atlas = atlas();
    let (entry, layers, amount) = request(&mut atlas, SIZE, SIZE);
    assert_eq!(amount, 0);
    assert_eq!(layers, vec!['F']);
    let allocation = single(&entry);
    assert!(matches!(allocation, Allocation::Full { layer: 0 }));
    assert_eq!(allocation.position(), (0, 0));
    assert_eq!(allocation.size(), (SIZE, SIZE));
    assert_eq!(entry.size(), (SIZE, SIZE));
}

#[test]
fn growth_is_reported_to_the_callback() {
    let mut atlas = atlas();
    let (_, _, amount) = request(&mut atlas, SIZE, SIZE);
    assert_eq!(amount, 0);
    let (second, layers, amount) = request(&mut atlas, SIZE, SIZE);
    assert_eq!(amount, 1);
    assert_eq!(layers, vec!['F', 'F']);
    assert!(matches!(single(&second), Allocation::Full { layer: 1 }));
    let (third, layers, amount) = request(&mut atlas, 10, 10);
    assert_eq!(amount, 1);
    assert_eq!(layers, vec!['F', 'F', 'B']);
    assert_eq!(single(&third).layer(), 2);
    let (fourth, layers, amount) = request(&mut atlas, 10, 10);
    assert_eq!(amount, 0);
    assert_eq!(layers, vec!['F', 'F', 'B']);
    assert_eq!(single(&fourth).layer(), 2);
    assert_eq!(atlas.layer_count(), 3);
    assert_eq!(atlas.backend().grown, 2);
}

#[test]
fn whole_layer_does_not_go_into_a_busy_layer() {
    let mut atlas = atlas();
    request(&mut atlas, 1, 1);
    let (entry, layers, amount) = request(&mut atlas, SIZE, SIZE);
    assert_eq!(amount, 1);
    assert_eq!(layers, vec!['B', 'F']);
    assert!(matches!(single(&entry), Allocation::Full { layer: 1 }));
}

#[test]
fn freed_full_layer_is_used_again() {
    let mut atlas = atlas();
    request(&mut atlas, 10, 10);
    let (full, _, _) = request(&mut atlas, SIZE, SIZE);
    assert!(matches!(single(&full), Allocation::Full { layer: 1 }));
    atlas.remove(&full);
    assert_eq!(atlas.layer_count(), 2);
    let (again, layers, amount) = request(&mut atlas, SIZE, SIZE);
    assert_eq!(amount, 0);
    assert_eq!(layers, vec!['B', 'F']);
    assert!(matches!(single(&again), Allocation::Full { layer: 1 }));
    assert_eq!(atlas.layer_count(), 2);
}

#[test]
fn whole_layer_prefers_an_earlier_empty_layer() {
    let mut atlas = atlas();
    let (first, _, _) = request(&mut atlas, SIZE, SIZE);
    let (second, _, _) = request(&mut atlas, SIZE, SIZE);
    atlas.remove(&first);
    atlas.remove(&second);
    let (again, layers, amount) = request(&mut atlas, SIZE, SIZE);
    assert_eq!(amount, 0);
    assert_eq!(layers, vec!['F', 'E']);
    assert!(matches!(single(&again), Allocation::Full { layer: 0 }));
}

#[test]
fn large_image_is_cut_into_tiles() {
    let mut atlas = atlas();
    let (entry, layers, amount) = request(&mut atlas, 3000, 1000);
    assert_eq!(amount, 0);
    assert_eq!(layers, vec!['B']);
    assert_eq!(entry.size(), (3000, 1000));
    match &entry {
        Entry::Fragmented { size, fragments } => {
            assert_eq!(*size, (3000, 1000));
            assert_eq!(fragments.len(), 2);
            assert_eq!(fragments[0].position, (0, 0));
            assert_eq!(fragments[0].allocation.size(), (2048, 1000));
            assert_eq!(fragments[0].allocation.layer(), 0);
            assert_eq!(fragments[0].allocation.position(), (0, 0));
            assert_eq!(fragments[1].position, (2048, 0));
            assert_eq!(fragments[1].allocation.size(), (952, 1000));
            assert_eq!(fragments[1].allocation.layer(), 0);
            assert_eq!(fragments[1].allocation.position(), (0, 1000));
            let mut covered: u64 = 0;
            for fragment in fragments {
                let (width, height) = fragment.allocation.size();
                let (x, y) = fragment.position;
                assert!(x + width <= 3000 && y + height <= 1000);
                covered += width as u64 * height as u64;
            }
            assert_eq!(covered, 3000 * 1000);
        }
        Entry::Contiguous(_) => panic!("a fragmented entry was expected"),
    }
}

#[test]
fn tiles_run_row_by_row() {
    let mut atlas = atlas();
    let (entry, layers, amount) = request(&mut atlas, 2049, 2049);
    assert_eq!(amount, 2);
    assert_eq!(layers, vec!['F', 'B', 'B']);
    match &entry {
        Entry::Fragmented { size, fragments } => {
            assert_eq!(*size, (2049, 2049));
            let seen: Vec<((u32, u32), (u32, u32), usize, (u32, u32))> = fragments
                .iter()
                .map(|f| (f.position, f.allocation.size(), f.allocation.layer(), f.allocation.position()))
                .collect();
            assert_eq!(
                seen,
                vec![
                    ((0, 0), (2048, 2048), 0, (0, 0)),
                    ((2048, 0), (1, 2048), 1, (0, 0)),
                    ((0, 2048), (2048, 1), 2, (0, 0)),
                    ((2048, 2048), (1, 1), 1, (1, 0)),
                ]
            );
            assert!(matches!(fragments[0].allocation, Allocation::Full { layer: 0 }));
        }
        Entry::Contiguous(_) => panic!("a fragmented entry was expected"),
    }
    assert_eq!(atlas.layer_count(), 3);
}

#[test]
fn image_of_two_exact_layers_is_two_full_layers() {
    let mut atlas = atlas();
    let (entry, layers, amount) = request(&mut atlas, 2 * SIZE, SIZE);
    assert_eq!(amount, 1);
    assert_eq!(layers, vec!['F', 'F']);
    match &entry {
        Entry::Fragmented { fragments, .. } => {
            assert_eq!(fragments.len(), 2);
            assert_eq!(fragments[0].position, (0, 0));
            assert_eq!(fragments[1].position, (SIZE, 0));
            assert!(matches!(fragments[0].allocation, Allocation::Full { layer: 0 }));
            assert!(matches!(fragments[1].allocation, Allocation::Full { layer: 1 }));
        }
        Entry::Contiguous(_) => panic!("a fragmented entry was expected"),
    }
}

#[test]
fn image_as_wide_as_a_layer_is_contiguous() {
    let mut atlas = atlas();
    let (entry, _, amount) = request(&mut atlas, SIZE, 10);
    assert_eq!(amount, 0);
    let allocation = single(&entry);
    assert!(matches!(allocation, Allocation::Partial { .. }));
    assert_eq!(allocation.position(), (0, 0));
    assert_eq!(allocation.size(), (SIZE, 10));
    let (next, _, amount) = request(&mut atlas, 10, SIZE);
    assert_eq!(amount, 1);
    assert_eq!(single(&next).layer(), 1);
}

#[test]
fn request_then_release_restores_an_empty_layer() {
    let mut atlas = atlas();
    let (entry, layers, _) = request(&mut atlas, 50, 50);
    assert_eq!(layers, vec!['B']);
    atlas.remove(&entry);
    assert_eq!(atlas.layer_count(), 1);
    // A whole layer only goes into an empty one.
    let (probe, layers, amount) = request(&mut atlas, SIZE, SIZE);
    assert_eq!(amount, 0);
    assert_eq!(layers, vec!['F']);
    assert!(matches!(single(&probe), Allocation::Full { layer: 0 }));
}

#[test]
fn request_then_release_restores_every_layer() {
    let mut atlas = atlas();
    let (kept, _, _) = request(&mut atlas, 10, 10);
    request(&mut atlas, SIZE, SIZE);
    let (third, layers, _) = request(&mut atlas, SIZE, SIZE);
    assert_eq!(layers, vec!['B', 'F', 'F']);
    atlas.remove(&third);
    // The layers are now busy, full, empty.
    let (entry, layers, amount) = request(&mut atlas, 50, 50);
    assert_eq!(amount, 0);
    assert_eq!(layers, vec!['B', 'F', 'E']);
    assert_eq!(single(&entry).layer(), 0);
    atlas.remove(&entry);
    assert_eq!(atlas.layer_count(), 3);
    let (probe, layers, amount) = request(&mut atlas, SIZE, SIZE);
    assert_eq!(amount, 0);
    assert_eq!(layers, vec!['B', 'F', 'F']);
    assert!(matches!(single(&probe), Allocation::Full { layer: 2 }));
    // The region that was live before is still where it was.
    assert_eq!(single(&kept).position(), (0, 0));
    let (next, _, _) = request(&mut atlas, 10, 10);
    assert_eq!(single(&next).layer(), 0);
    assert_ne!(single(&next).position(), (0, 0));
}

#[test]
fn layer_is_empty_again_after_its_last_release() {
    let mut atlas = atlas();
    let (a, _, _) = request(&mut atlas, 10, 10);
    let (b, _, _) = request(&mut atlas, 20, 20);
    atlas.remove(&a);
    let (probe, layers, amount) = request(&mut atlas, SIZE, SIZE);
    assert_eq!(amount, 1);
    assert_eq!(layers, vec!['B', 'F']);
    atlas.remove(&probe);
    atlas.remove(&b);
    let (probe, layers, amount) = request(&mut atlas, SIZE, SIZE);
    assert_eq!(amount, 0);
    assert_eq!(layers, vec!['F', 'E']);
    assert!(matches!(single(&probe), Allocation::Full { layer: 0 }));
}

#[test]
fn emptied_layer_takes_a_fresh_request() {
    let mut atlas = atlas();
    let (a, _, _) = request(&mut atlas, 2000, 2000);
    atlas.remove(&a);
    let (b, layers, amount) = request(&mut atlas, SIZE, 2000);
    assert_eq!(amount, 0);
    assert_eq!(layers, vec!['B']);
    assert_eq!(single(&b).position(), (0, 0));
}

#[test]
fn removing_a_fragmented_entry_frees_every_part() {
    let mut atlas = atlas();
    let (entry, layers, _) = request(&mut atlas, 2049, 2049);
    assert_eq!(layers, vec!['F', 'B', 'B']);
    atlas.remove(&entry);
    assert_eq!(atlas.layer_count(), 3);
    let (_, layers, amount) = request(&mut atlas, SIZE, SIZE);
    assert_eq!(amount, 0);
    assert_eq!(layers, vec!['F', 'E', 'E']);
}

#[test]
fn releasing_twice_is_without_effect() {
    let mut atlas = atlas();
    let (a, _, _) = request(&mut atlas, 10, 10);
    let (b, _, _) = request(&mut atlas, 20, 20);
    atlas.remove(&a);
    atlas.remove(&a);
    let (_, layers, _) = request(&mut atlas, SIZE, SIZE);
    assert_eq!(layers, vec!['B', 'F']);
    atlas.remove(&b);
    atlas.remove(&b);
    let (_, layers, amount) = request(&mut atlas, SIZE, SIZE);
    assert_eq!(amount, 0);
    assert_eq!(layers, vec!['F', 'F']);
}

#[test]
fn full_release_empties_a_busy_layer() {
    let mut atlas = atlas();
    request(&mut atlas, 10, 10);
    atlas.deallocate(&Allocation::Full { layer: 0 });
    let (probe, layers, amount) = request(&mut atlas, SIZE, SIZE);
    assert_eq!(amount, 0);
    assert_eq!(layers, vec!['F']);
    assert!(matches!(single(&probe), Allocation::Full { layer: 0 }));
}

#[test]
fn allocate_and_deallocate_work_without_a_callback() {
    let mut atlas = atlas();
    let entry = atlas.allocate(30, 40).expect("the atlas grows as needed");
    assert_eq!(entry.size(), (30, 40));
    let whole = atlas.allocate(SIZE, SIZE).expect("the atlas grows as needed");
    assert!(matches!(single(&whole), Allocation::Full { layer: 1 }));
    assert_eq!(atlas.layer_count(), 2);
    atlas.deallocate(single(&entry));
    let again = atlas.allocate(SIZE, SIZE).expect("the atlas grows as needed");
    assert!(matches!(single(&again), Allocation::Full { layer: 0 }));
    assert_eq!(atlas.layer_count(), 2);
}

#[test]
fn place_serves_one_block() {
    let mut atlas = atlas();
    let first = atlas.place(SIZE, SIZE);
    assert!(matches!(first, Allocation::Full { layer: 0 }));
    let second = atlas.place(5, 6);
    assert_eq!(second.layer(), 1);
    assert_eq!(second.position(), (0, 0));
    assert_eq!(second.size(), (5, 6));
    let third = atlas.place(7, 8);
    assert_eq!(third.layer(), 1);
    assert_eq!(third.size(), (7, 8));
}

#[test]
fn regions_of_one_layer_never_overlap() {
    let mut atlas = atlas();
    let mut live: Vec<Entry> = Vec::new();
    let mut seed: u32 = 99;
    for round in 0..300u32 {
        seed = seed.wrapping_mul(1664525).wrapping_add(1013904223);
        let width = 1 + (seed >> 8) % 900;
        seed = seed.wrapping_mul(1664525).wrapping_add(1013904223);
        let height = 1 + (seed >> 8) % 900;
        let (entry, _, _) = request(&mut atlas, width, height);
        let new = single(&entry);
        let (nx, ny) = new.position();
        assert!(nx + width <= SIZE && ny + height <= SIZE);
        assert!(new.layer() < atlas.layer_count());
        for other in &live {
            let old = single(other);
            if old.layer() == new.layer() {
                let (ox, oy) = old.position();
                let (ow, oh) = old.size();
                let disjoint = nx + width <= ox || ox + ow <= nx || ny + height <= oy || oy + oh <= ny;
                assert!(disjoint);
            }
        }
        live.push(entry);
        if round % 4 == 3 {
            seed = seed.wrapping_mul(1664525).wrapping_add(1013904223);
            let victim = live.remove(((seed >> 8) as usize) % live.len());
            atlas.remove(&victim);
        }
    }
}

#[test]
fn layer_is_empty_names_the_empty_layer_only() {
    assert!(Layer::Empty.is_empty());
    assert!(!Layer::Full.is_empty());
    let mut allocator = texture_atlas::Allocator::new(SIZE);
    allocator.allocate(1, 1).unwrap();
    assert!(!Layer::Busy(allocator).is_empty());
}

#[test]
fn full_allocation_spans_its_layer() {
    let allocation = Allocation::Full { layer: 3 };
    assert_eq!(allocation.position(), (0, 0));
    assert_eq!(allocation.size(), (SIZE, SIZE));
    assert_eq!(allocation.layer(), 3);
    assert_eq!(Entry::Contiguous(allocation).size(), (SIZE, SIZE));
}

#[test]
fn fragmented_entry_reports_the_image_size() {
    let entry = Entry::Fragmented { size: (5000, 10), fragments: Vec::new() };
    assert_eq!(entry.size(), (5000, 10));
}
