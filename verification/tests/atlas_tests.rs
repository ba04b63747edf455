use photonical::atlas::{pack_atlas, AtlasError};

fn overlaps(a: (u32, u32, u32, u32), b: (u32, u32, u32, u32)) -> bool {
    a.0 < b.0 + b.2 && b.0 < a.0 + a.2 && a.1 < b.1 + b.3 && b.1 < a.1 + a.3
}

#[test]
fn small_textures_fit_the_first_atlas() {
    let sizes = vec![(32, 32), (64, 16), (16, 64)];
    let a = pack_atlas(&sizes).unwrap();
    assert_eq!((a.width, a.height), (1024, 1024));
    assert_eq!(a.rects.len(), 3);
    for (i, r) in a.rects.iter().enumerate() {
        assert_eq!((r.2, r.3), sizes[i]);
        assert!(r.0 + r.2 <= 1024 && r.1 + r.3 <= 1024);
    }
    for i in 0..3 {
        for j in 0..i {
            assert!(!overlaps(a.rects[i], a.rects[j]));
        }
    }
}

#[test]
fn atlas_doubles_until_textures_fit() {
    let a = pack_atlas(&vec![(2000, 1500)]).unwrap();
    assert_eq!((a.width, a.height), (2048, 2048));
    let a = pack_atlas(&vec![(1024, 1024), (1024, 1024)]).unwrap();
    assert_eq!(a.width, 2048);
    let a = pack_atlas(&vec![(8192, 8192)]).unwrap();
    assert_eq!(a.width, 8192);
}

#[test]
fn oversized_or_empty_textures_fail() {
    assert_eq!(pack_atlas(&vec![(8193, 10)]).err(), Some(AtlasError::AtlasFull));
    assert_eq!(pack_atlas(&vec![(10, 0)]).err(), Some(AtlasError::AtlasFull));
    assert_eq!(pack_atlas(&vec![(8192, 8192), (1, 1)]).err(), Some(AtlasError::AtlasFull));
}

#[test]
fn no_textures_give_the_smallest_atlas() {
    let a = pack_atlas(&vec![]).unwrap();
    assert_eq!(a.width, 1024);
    assert!(a.rects.is_empty());
}

#[test]
fn textures_that_stack_into_a_side_fit_that_side() {
    let a = pack_atlas(&vec![(1024, 512), (1024, 512)]).unwrap();
    assert_eq!(a.width, 1024);
    let a = pack_atlas(&vec![(2048, 1024), (100, 1024)]).unwrap();
    assert!(a.width <= 2048);
}
