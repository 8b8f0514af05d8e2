use n_body::sectors::{make_sectors, sort_on_axis, sorts_meet_nan, StarKey};

fn star(id: usize, x: u32, y: u32, z: u32) -> StarKey {
    StarKey { id, x, y, z }
}

fn ids(v: &[StarKey]) -> Vec<usize> {
    v.iter().map(|s| s.id).collect()
}

fn key(s: &StarKey, axis: u32) -> u32 {
    match axis {
        0 => s.x,
        1 => s.y,
        _ => s.z,
    }
}

/// The partition written with std's stable sort.
fn reference(mut list: Vec<StarKey>, r: u32) -> Vec<Vec<StarKey>> {
    if r > 0 {
        let axis = r % 3;
        list.sort_by_key(|s| key(s, axis));
        let (a, b) = list.split_at(list.len() / 2);
        let mut first = reference(a.to_vec(), r - 1);
        first.extend(reference(b.to_vec(), r - 1));
        first
    } else {
        vec![list]
    }
}

fn pseudo_random_stars(n: usize, seed: u64) -> Vec<StarKey> {
    let mut state = seed;
    let mut next = || {
        state = state.wrapping_mul(6364136223846793005).wrapping_add(1442695040888963407);
        ((state >> 33) % 50) as u32
    };
    (0..n).map(|i| star(i, next(), next(), next())).collect()
}

#[test]
fn sort_on_axis_is_stable() {
    let stars = vec![star(0, 5, 0, 0), star(1, 3, 0, 0), star(2, 5, 0, 0), star(3, 1, 0, 0), star(4, 3, 0, 0)];
    let sorted = sort_on_axis(&stars, 0);
    assert_eq!(ids(&sorted), vec![3, 1, 4, 0, 2]);
}

#[test]
fn sort_on_axis_each_axis() {
    let stars = vec![star(0, 2, 9, 4), star(1, 1, 8, 6), star(2, 3, 7, 5)];
    assert_eq!(ids(&sort_on_axis(&stars, 0)), vec![1, 0, 2]);
    assert_eq!(ids(&sort_on_axis(&stars, 1)), vec![2, 1, 0]);
    assert_eq!(ids(&sort_on_axis(&stars, 2)), vec![0, 2, 1]);
}

#[test]
fn sort_on_axis_empty() {
    assert!(sort_on_axis(&Vec::new(), 1).is_empty());
}

#[test]
fn make_sectors_no_recursion_is_one_sector() {
    let stars = vec![star(0, 3, 2, 1), star(1, 1, 2, 3)];
    let sectors = make_sectors(stars, 0);
    assert_eq!(sectors.len(), 1);
    assert_eq!(ids(&sectors[0]), vec![0, 1]);
}

#[test]
fn make_sectors_one_split_uses_y() {
    let stars = vec![star(0, 0, 4, 0), star(1, 0, 1, 0), star(2, 0, 3, 0), star(3, 0, 2, 0), star(4, 0, 0, 0)];
    let sectors = make_sectors(stars, 1);
    assert_eq!(sectors.len(), 2);
    assert_eq!(ids(&sectors[0]), vec![4, 1]);
    assert_eq!(ids(&sectors[1]), vec![3, 2, 0]);
}

#[test]
fn make_sectors_three_splits_x_then_z_then_y() {
    let stars: Vec<StarKey> = (0..8)
        .map(|i| star(i, (i % 2) as u32 * 10 + i as u32, ((i / 4) as u32) * 5, ((i / 2) % 2) as u32))
        .collect();
    let sectors = make_sectors(stars.clone(), 3);
    assert_eq!(sectors.len(), 8);
    let got: Vec<Vec<usize>> = sectors.iter().map(|s| ids(s)).collect();
    let want: Vec<Vec<usize>> = reference(stars, 3).iter().map(|s| ids(s)).collect();
    assert_eq!(got, want);
}

#[test]
fn make_sectors_matches_stable_sort_partition() {
    for (n, r) in [(64usize, 6u32), (100, 6), (17, 4), (9, 3), (1, 0), (2, 1), (65, 6)] {
        let stars = pseudo_random_stars(n, n as u64 * 31 + r as u64);
        let got: Vec<Vec<usize>> = make_sectors(stars.clone(), r).iter().map(|s| ids(s)).collect();
        let want: Vec<Vec<usize>> = reference(stars, r).iter().map(|s| ids(s)).collect();
        assert_eq!(got, want, "n {} r {}", n, r);
    }
}

#[test]
fn make_sectors_count_keep_and_balance() {
    let n = 1000usize;
    let r = 6u32;
    let stars = pseudo_random_stars(n, 7);
    let sectors = make_sectors(stars, r);
    assert_eq!(sectors.len(), 64);
    let mut all: Vec<usize> = sectors.iter().flat_map(|s| ids(s)).collect();
    all.sort();
    assert_eq!(all, (0..n).collect::<Vec<_>>());
    for s in &sectors {
        assert!(s.len() == n / 64 || s.len() == (n + 63) / 64);
    }
}

#[test]
fn make_sectors_halves_are_separated() {
    let stars = pseudo_random_stars(200, 3);
    let sectors = make_sectors(stars, 6);
    let lower_max = sectors[..32].iter().flat_map(|s| s.iter().map(|k| k.x)).max().unwrap();
    let upper_min = sectors[32..].iter().flat_map(|s| s.iter().map(|k| k.x)).min().unwrap();
    assert!(lower_max <= upper_min);
}

#[test]
fn make_sectors_equal_keys_keep_order() {
    let stars: Vec<StarKey> = (0..8).map(|i| star(i, 7, 7, 7)).collect();
    let sectors = make_sectors(stars, 3);
    let got: Vec<Vec<usize>> = sectors.iter().map(|s| ids(s)).collect();
    assert_eq!(got, (0..8).map(|i| vec![i]).collect::<Vec<_>>());
}

#[test]
fn make_sectors_empty_list_no_split() {
    let sectors = make_sectors(Vec::new(), 0);
    assert_eq!(sectors.len(), 1);
    assert!(sectors[0].is_empty());
}

#[test]
fn sorts_meet_nan_by_axis_and_depth() {
    let nan = f32::NAN.to_bits();
    let one = 1.0f32.to_bits();
    let on_x = vec![(one, one, one), (nan, one, one)];
    let on_y = vec![(one, nan, one)];
    let on_z = vec![(one, one, nan)];
    assert!(!sorts_meet_nan(&on_x, 0));
    assert!(!sorts_meet_nan(&on_y, 0));
    assert!(sorts_meet_nan(&on_y, 1));
    assert!(!sorts_meet_nan(&on_z, 1));
    assert!(sorts_meet_nan(&on_z, 2));
    assert!(!sorts_meet_nan(&on_x, 2));
    assert!(sorts_meet_nan(&on_x, 3));
    assert!(sorts_meet_nan(&on_x, 6));
    assert!(!sorts_meet_nan(&vec![(one, one, one)], 6));
    assert!(!sorts_meet_nan(&Vec::new(), 6));
}
