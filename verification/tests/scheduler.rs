use pathtracer::scheduler::{Claim, Scheduler};

#[test]
fn a_new_scheduler_is_idle() {
    let mut scheduler = Scheduler::new();
    assert_eq!(scheduler.generation(), 0);
    assert_eq!(scheduler.remaining(), 0);
    assert_eq!(scheduler.claim(0), Claim::Complete);
    assert_eq!(scheduler.claim(1), Claim::Superseded);
}

#[test]
fn begin_counts_the_generations() {
    let mut scheduler = Scheduler::new();
    assert_eq!(scheduler.begin(4, 3), 1);
    assert_eq!(scheduler.generation(), 1);
    assert_eq!(scheduler.remaining(), 3);
    assert_eq!(scheduler.begin(8, 5), 2);
    assert_eq!(scheduler.generation(), 2);
    assert_eq!(scheduler.remaining(), 5);
    assert!(scheduler.is_current(2));
    assert!(!scheduler.is_current(1));
    assert!(!scheduler.is_current(3));
}

#[test]
fn rows_go_out_from_the_last_to_the_first() {
    let mut scheduler = Scheduler::new();
    let token = scheduler.begin(400, 3);
    assert_eq!(scheduler.claim(token), Claim::Row { row: 2, from: 800 });
    assert_eq!(scheduler.claim(token), Claim::Row { row: 1, from: 400 });
    assert_eq!(scheduler.remaining(), 1);
    assert_eq!(scheduler.claim(token), Claim::Row { row: 0, from: 0 });
    assert_eq!(scheduler.claim(token), Claim::Complete);
    assert_eq!(scheduler.claim(token), Claim::Complete);
    assert_eq!(scheduler.remaining(), 0);
}

#[test]
fn every_row_is_claimed_exactly_once() {
    for workers in [1usize, 2, 3, 8] {
        let width = 400u32;
        let height = 225u32;
        let mut scheduler = Scheduler::new();
        let token = scheduler.begin(width, height);
        let mut starts = Vec::new();
        let mut done = vec![false; workers];
        // the workers take turns in an uneven order
        let mut turn = 0usize;
        while done.iter().any(|d| !d) {
            let worker = (turn * 7 + turn / 3) % workers;
            turn += 1;
            if done[worker] {
                continue;
            }
            match scheduler.claim(token) {
                Claim::Row { row, from } => {
                    assert_eq!(from, row * width as usize);
                    starts.push(from);
                }
                Claim::Complete => done[worker] = true,
                Claim::Superseded => panic!("nothing superseded this render"),
            }
        }
        starts.sort();
        let expected: Vec<usize> = (0..height as usize).map(|row| row * width as usize).collect();
        assert_eq!(starts, expected);
    }
}

#[test]
fn a_second_render_stops_the_workers_of_the_first() {
    let mut scheduler = Scheduler::new();
    let first = scheduler.begin(10, 4);
    assert_eq!(scheduler.claim(first), Claim::Row { row: 3, from: 30 });
    let second = scheduler.begin(6, 2);
    assert_ne!(first, second);
    // the first render's workers get nothing more, and take nothing away
    assert_eq!(scheduler.claim(first), Claim::Superseded);
    assert_eq!(scheduler.claim(first), Claim::Superseded);
    assert_eq!(scheduler.remaining(), 2);
    assert_eq!(scheduler.claim(second), Claim::Row { row: 1, from: 6 });
    assert_eq!(scheduler.claim(first), Claim::Superseded);
    assert_eq!(scheduler.claim(second), Claim::Row { row: 0, from: 0 });
    assert_eq!(scheduler.claim(second), Claim::Complete);
    assert_eq!(scheduler.claim(first), Claim::Superseded);
}

#[test]
fn a_token_from_the_future_is_not_current() {
    let mut scheduler = Scheduler::new();
    let token = scheduler.begin(2, 2);
    assert_eq!(scheduler.claim(token + 1), Claim::Superseded);
    assert_eq!(scheduler.remaining(), 2);
}

#[test]
fn a_frame_without_rows_is_complete_at_once() {
    let mut scheduler = Scheduler::new();
    let token = scheduler.begin(640, 0);
    assert_eq!(scheduler.claim(token), Claim::Complete);
}

#[test]
fn rows_without_pixels_all_start_at_zero() {
    let mut scheduler = Scheduler::new();
    let token = scheduler.begin(0, 2);
    assert_eq!(scheduler.claim(token), Claim::Row { row: 1, from: 0 });
    assert_eq!(scheduler.claim(token), Claim::Row { row: 0, from: 0 });
    assert_eq!(scheduler.claim(token), Claim::Complete);
}
