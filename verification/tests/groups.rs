use n_body::groups::{chunk_ranges, thread_groups};

#[test]
fn thread_groups_sixty_four_sectors_eight_threads() {
    let groups = thread_groups(64, 8);
    let expected: Vec<(usize, usize)> = (0..8).map(|i| (i * 8, i * 8 + 8)).collect();
    assert_eq!(groups, expected);
}

#[test]
fn thread_groups_leftover_group() {
    let groups = thread_groups(70, 8);
    assert_eq!(groups.len(), 9);
    assert_eq!(groups[7], (56, 64));
    assert_eq!(groups[8], (64, 70));
}

#[test]
fn thread_groups_as_many_sectors_as_threads() {
    assert_eq!(thread_groups(8, 8), (0..8).map(|i| (i, i + 1)).collect::<Vec<_>>());
}

#[test]
fn chunk_ranges_match_chunks_mut() {
    for len in 0..40usize {
        for size in 1..12usize {
            let mut data: Vec<usize> = (0..len).collect();
            let expected: Vec<(usize, usize)> = data
                .chunks_mut(size)
                .map(|c| (c[0], c[c.len() - 1] + 1))
                .collect();
            assert_eq!(chunk_ranges(len, size), expected, "len {} size {}", len, size);
        }
    }
}

#[test]
fn chunk_ranges_empty() {
    assert!(chunk_ranges(0, 3).is_empty());
}

#[test]
fn groups_cover_each_sector_once() {
    let groups = thread_groups(70, 8);
    for k in 0..70usize {
        let holders = groups.iter().filter(|(a, b)| *a <= k && k < *b).count();
        assert_eq!(holders, 1);
    }
}
