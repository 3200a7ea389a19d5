use std::collections::BTreeSet;

use pathtracer::framebuffer::{framebuffer, PixelBatch, FLUSH_THRESHOLD};
use pathtracer::schedule::{pixel_coords, worker_pixels, worker_schedule, RTParams};

#[test]
fn worker_takes_every_nth_pixel() {
    assert_eq!(worker_pixels(3, 16, 50), vec![3, 19, 35]);
    assert_eq!(worker_pixels(0, 4, 9), vec![0, 4, 8]);
    assert_eq!(worker_pixels(5, 8, 5), Vec::<u32>::new());
    assert_eq!(worker_pixels(0, 1, 0), Vec::<u32>::new());
}

#[test]
fn workers_share_pixels_without_overlap() {
    let total = 1000u32;
    let workers = 16u32;
    let mut seen = BTreeSet::new();
    let mut count = 0usize;
    for w in 0..workers {
        for i in worker_pixels(w, workers, total) {
            assert_eq!(i % workers, w);
            seen.insert(i);
            count += 1;
        }
    }
    assert_eq!(count, total as usize);
    assert_eq!(seen, (0..total).collect::<BTreeSet<_>>());
}

#[test]
fn stride_near_the_top_of_the_range_stops() {
    let r = worker_pixels(2, u32::MAX / 2, u32::MAX);
    assert_eq!(r, vec![2, 2 + u32::MAX / 2]);
}

#[test]
fn schedule_is_a_reordering_of_the_stride() {
    let mut s = worker_schedule(1, 4, 400);
    s.sort();
    assert_eq!(s, worker_pixels(1, 4, 400));
}

#[test]
fn coordinates_of_pixel_index() {
    assert_eq!(pixel_coords(0, 10), (0, 0));
    assert_eq!(pixel_coords(37, 10), (7, 3));
    assert_eq!(pixel_coords(1279, 1280), (1279, 0));
    assert_eq!(pixel_coords(1280, 1280), (0, 1));
}

#[test]
fn each_pass_doubles_the_samples() {
    let mut p = RTParams::new(1280, 720, 10, 10);
    assert!(p.next_pass());
    assert_eq!(p.samples_per_pixel, 20);
    assert!(p.next_pass());
    assert_eq!(p.samples_per_pixel, 40);
    assert_eq!((p.width, p.height, p.max_depth), (1280, 720, 10));
}

#[test]
fn doubling_stops_before_overflow() {
    let mut p = RTParams::new(4, 4, u32::MAX / 2 + 1, 3);
    assert!(!p.next_pass());
    assert_eq!(p.samples_per_pixel, u32::MAX / 2 + 1);
    let mut q = RTParams::new(4, 4, u32::MAX / 2, 3);
    assert!(q.next_pass());
    assert_eq!(q.samples_per_pixel, u32::MAX - 1);
}

#[test]
fn pixel_count_of_params() {
    assert_eq!(RTParams::new(1280, 720, 1, 1).pixel_count(), Some(921_600));
    assert_eq!(RTParams::new(u32::MAX, 2, 1, 1).pixel_count(), None);
}

#[test]
fn new_framebuffer_is_black_and_sized() {
    let fb = framebuffer(8, 5).unwrap();
    assert_eq!(fb.image.dimensions(), (8, 5));
    assert!(fb.image.pixels().all(|p| p.0 == [0, 0, 0, 0]));
}

#[test]
fn batch_is_due_past_the_threshold() {
    let mut b = PixelBatch::new(100, 100);
    for i in 0..FLUSH_THRESHOLD {
        assert!(!b.push((i % 100) as u32, (i / 100) as u32, [1, 2, 3, 255]));
    }
    assert!(b.push(0, 99, [1, 2, 3, 255]));
    assert_eq!(b.pending.len(), FLUSH_THRESHOLD + 1);
}

#[test]
fn flush_writes_pending_pixels_and_empties_batch() {
    let mut fb = framebuffer(4, 3).unwrap();
    let mut b = PixelBatch::new(4, 3);
    b.push(1, 2, [10, 20, 30, 255]);
    b.push(3, 0, [40, 50, 60, 255]);
    b.push(1, 2, [70, 80, 90, 255]);
    b.flush_into(&mut fb);
    assert!(b.pending.is_empty());
    assert_eq!(fb.image.get_pixel(1, 2).0, [70, 80, 90, 255]);
    assert_eq!(fb.image.get_pixel(3, 0).0, [40, 50, 60, 255]);
    assert_eq!(fb.image.get_pixel(0, 0).0, [0, 0, 0, 0]);
}

#[test]
fn schedule_is_shuffled() {
    let s = worker_schedule(0, 1, 200);
    assert_eq!(s.len(), 200);
    assert_ne!(s, (0..200).collect::<Vec<u32>>());
}

#[test]
fn oversized_framebuffer_is_refused() {
    assert!(framebuffer(u32::MAX, u32::MAX).is_none());
    let empty = framebuffer(0, 7).unwrap();
    assert_eq!(empty.image.dimensions(), (0, 7));
}
