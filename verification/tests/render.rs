use rt::render::{chunk_rows, row_chunks, RowChunk};

fn plan(height: usize, threads: usize) -> Vec<(usize, usize)> {
    row_chunks(height, threads)
        .iter()
        .map(|c: &RowChunk| (c.start, c.rows))
        .collect()
}

#[test]
fn rows_split_evenly() {
    assert_eq!(chunk_rows(600, 8), 75);
    let p = plan(600, 8);
    assert_eq!(p.len(), 8);
    assert_eq!(p[0], (0, 75));
    assert_eq!(p[7], (525, 75));
}

#[test]
fn last_band_is_shorter() {
    assert_eq!(chunk_rows(10, 4), 3);
    assert_eq!(plan(10, 4), vec![(0, 3), (3, 3), (6, 3), (9, 1)]);
}

#[test]
fn fewer_rows_than_workers() {
    assert_eq!(chunk_rows(5, 8), 1);
    assert_eq!(plan(5, 8), vec![(0, 1), (1, 1), (2, 1), (3, 1), (4, 1)]);
}

#[test]
fn empty_image_has_no_bands() {
    assert_eq!(chunk_rows(0, 4), 1);
    assert!(plan(0, 4).is_empty());
}

#[test]
fn single_worker_takes_every_row() {
    assert_eq!(plan(7, 1), vec![(0, 7)]);
}

#[test]
fn bands_cover_each_row_once() {
    for height in 0..40usize {
        for threads in 1..12usize {
            let p = plan(height, threads);
            assert!(p.len() <= threads);
            let mut next = 0;
            for (start, rows) in &p {
                assert_eq!(*start, next);
                assert!(*rows >= 1);
                next += rows;
            }
            assert_eq!(next, height);
        }
    }
}
