use overlay_music::plan::{build_music_plan, build_music_plan_with, fills_file, MusicPiece};

const S: i64 = 1_000_000;

fn names(v: &[&str]) -> Vec<String> {
    v.iter().map(|s| s.to_string()).collect()
}

fn show(pieces: &[MusicPiece]) -> Vec<String> {
    pieces
        .iter()
        .map(|p| match p {
            MusicPiece::Segment { file, start, duration } => format!("{file} {start} {duration}"),
            MusicPiece::Silence { duration } => format!("silence {duration}"),
            MusicPiece::Crossfade { file1, start1, dur1, file2, start2, dur2, overlap } => {
                format!("{file1} {start1} {dur1} > {file2} {start2} {dur2} / {overlap}")
            }
        })
        .collect()
}

fn length(pieces: &[MusicPiece]) -> i64 {
    pieces
        .iter()
        .map(|p| match p {
            MusicPiece::Segment { duration, .. } => *duration,
            MusicPiece::Silence { duration } => *duration,
            MusicPiece::Crossfade { overlap, .. } => *overlap,
        })
        .sum()
}

#[test]
fn music_goes_on_where_it_left_off() {
    let plans = build_music_plan_with(
        &vec![6 * S, 6 * S, 6 * S],
        &names(&["a", "b"]),
        &vec![10 * S, 5 * S],
        0,
        0,
        &vec![vec![1, 0], vec![0, 1]],
    );
    assert_eq!(show(&plans[0]), ["b 0 5000000", "a 0 1000000"]);
    assert_eq!(show(&plans[1]), ["a 1000000 6000000"]);
    assert_eq!(show(&plans[2]), ["a 7000000 3000000", "a 0 3000000"]);
}

#[test]
fn pauses_stand_between_tracks() {
    let plans = build_music_plan_with(
        &vec![12 * S],
        &names(&["a", "b"]),
        &vec![4 * S, 5 * S],
        2 * S,
        0,
        &vec![vec![0, 1]],
    );
    assert_eq!(
        show(&plans[0]),
        ["a 0 4000000", "silence 2000000", "b 0 5000000", "silence 1000000"]
    );
}

#[test]
fn crossfades_overlap_tracks() {
    let plans = build_music_plan_with(
        &vec![12 * S],
        &names(&["a", "b"]),
        &vec![10 * S, 20 * S],
        0,
        3 * S,
        &vec![vec![0, 1]],
    );
    assert_eq!(
        show(&plans[0]),
        ["a 0 8000000", "a 8000000 2000000 > b 0 2000000 / 2000000", "b 2000000 2000000"]
    );
    assert_eq!(length(&plans[0]), 12 * S);
}

#[test]
fn a_crossfade_supersedes_the_pause() {
    for crossfade in [3 * S, 20_000, 1, 500] {
        let plans = build_music_plan_with(
            &vec![30 * S],
            &names(&["a", "b"]),
            &vec![10 * S, 5 * S],
            2 * S,
            crossfade,
            &vec![vec![0, 1], vec![1, 0], vec![0, 1], vec![0, 1]],
        );
        assert!(!plans[0].iter().any(|p| matches!(p, MusicPiece::Silence { .. })), "{crossfade}");
    }
}

#[test]
fn crossfades_are_no_longer_than_the_tracks() {
    let plans = build_music_plan_with(
        &vec![10 * S],
        &names(&["a", "b"]),
        &vec![4 * S, S],
        0,
        30 * S,
        &vec![vec![0, 1], vec![0, 1], vec![0, 1], vec![0, 1], vec![0, 1], vec![0, 1]],
    );
    for p in &plans[0] {
        if let MusicPiece::Crossfade { overlap, .. } = p {
            assert!(*overlap <= S);
        }
    }
}

#[test]
fn shuffled_plans_fill_every_file() {
    let durations = vec![30 * S, 0, 7 * S, 100 * S];
    let files = names(&["a", "b", "c"]);
    let lengths = vec![10 * S, 4 * S, 3 * S];
    for (pause, crossfade) in [(0, 0), (S, 0), (0, S), (S, 2 * S)] {
        let plans = build_music_plan(&durations, &files, &lengths, pause, crossfade);
        assert_eq!(plans.len(), durations.len());
        for (plan, d) in plans.iter().zip(&durations) {
            let total = length(plan);
            assert!(total <= *d && *d - total <= 1_000, "{total} {d}");
        }
    }
}

#[test]
fn shuffled_plans_play_every_track_of_a_playlist() {
    // One pass through the playlist plays each track once, in whatever order.
    let files = names(&["a", "b", "c", "d"]);
    let plans = build_music_plan(&vec![8 * S], &files, &vec![2 * S; 4], 0, 0);
    let mut played = show(&plans[0]);
    played.sort();
    assert_eq!(played, ["a 0 2000000", "b 0 2000000", "c 0 2000000", "d 0 2000000"]);
}

#[test]
fn useless_tracks_do_not_stop_the_plan() {
    let plans = build_music_plan(&vec![5 * S], &names(&["a", "b"]), &vec![0, 0], 0, 0);
    assert!(plans[0].is_empty());
    let plans = build_music_plan(&vec![1_000, -5], &names(&["a"]), &vec![S], 0, 0);
    assert!(plans[0].is_empty() && plans[1].is_empty());
}

#[test]
fn shuffles_differ() {
    let files: Vec<String> = (0..12).map(|i| format!("t{i}")).collect();
    let orders: Vec<Vec<String>> = (0..8)
        .map(|_| show(&build_music_plan(&vec![12 * S], &files, &vec![S; 12], 0, 0)[0]))
        .collect();
    assert!(orders.iter().any(|o| *o != orders[0]));
}

#[test]
fn files_take_over_from_each_other() {
    let inputs = vec![3 * S + 7, 4 * S, 500, 9 * S, 2 * S];
    let files = names(&["a", "b", "c"]);
    let lengths = vec![5 * S, 2 * S, 4 * S];
    let order = vec![vec![2, 0, 1], vec![1, 2, 0], vec![0, 1, 2]];
    let plans = build_music_plan_with(&inputs, &files, &lengths, 0, 0, &order);
    let mut at = 0;
    for plan in &plans {
        for piece in plan {
            if let MusicPiece::Segment { start, duration, file } = piece {
                if *start != 0 {
                    assert_eq!(*start, at, "{file}");
                }
                at = start + duration;
            }
        }
    }
}

fn over_one_track(inputs: Vec<i64>, crossfade: i64) -> Vec<Vec<String>> {
    let orders = vec![vec![0]; 8];
    let plans =
        build_music_plan_with(&inputs, &names(&["a"]), &vec![5 * S], 0, crossfade, &orders);
    for (plan, d) in plans.iter().zip(&inputs) {
        assert!(fills_file(plan, *d));
    }
    plans.iter().map(|p| show(p)).collect()
}

#[test]
fn a_last_millisecond_of_a_track_is_played() {
    let plans = over_one_track(vec![4_999_000, 3 * S], 0);
    assert_eq!(plans[0], ["a 0 4999000"]);
    assert_eq!(plans[1], ["a 4999000 1000", "a 0 2999000"]);
    let plans = over_one_track(vec![4_999_000, 500, 8 * S], S);
    assert!(plans[1].is_empty());
    assert_eq!(
        plans[2],
        [
            "a 4999000 1000",
            "a 0 4000000",
            "a 4000000 1000000 > a 0 1000000 / 1000000",
            "a 1000000 2999000",
        ]
    );
}

#[test]
fn less_than_a_millisecond_of_a_track_is_passed_over() {
    let plans = over_one_track(vec![4_999_001, 8 * S], 0);
    assert_eq!(plans[0], ["a 0 4999001"]);
    assert_eq!(plans[1], ["a 0 5000000", "a 0 3000000"]);
}

#[test]
fn music_is_played_to_the_end_across_files() {
    let inputs = vec![300, 4_999_000, 3 * S, 1_000, 2 * S - 1, 7 * S, 1_001, 999_999, 12 * S];
    let files = names(&["a", "b", "c"]);
    let lengths = vec![5 * S, 2 * S, 10_000];
    let all: Vec<MusicPiece> =
        build_music_plan(&inputs, &files, &lengths, 0, 0).into_iter().flatten().collect();
    let mut last: Option<(String, i64)> = None;
    for piece in &all {
        let MusicPiece::Segment { file, start, duration } = piece else { panic!("{piece:?}") };
        match last {
            None => assert_eq!(*start, 0),
            Some((before, end)) => {
                let length = lengths[files.iter().position(|f| *f == before).unwrap()];
                let goes_on = *file == before && *start == end;
                assert!(goes_on || *start == 0 && end > length - 1_000, "{before} {end} {file} {start}");
            }
        }
        last = Some((file.clone(), start + duration));
    }
}

#[test]
fn crossfades_follow_what_played_before() {
    let plans = build_music_plan_with(
        &vec![4_500_000, 8 * S],
        &names(&["a"]),
        &vec![5 * S],
        0,
        S,
        &vec![vec![0], vec![0], vec![0], vec![0]],
    );
    assert_eq!(show(&plans[0]), ["a 0 4500000"]);
    assert_eq!(
        show(&plans[1]),
        [
            "a 4500000 1001",
            "a 4501001 498999 > a 0 498999 / 498999",
            "a 498999 3501001",
            "a 4000000 1000000 > a 0 1000000 / 1000000",
            "a 1000000 2998999",
        ]
    );
    assert_eq!(length(&plans[1]), 8 * S);
}

#[test]
fn nothing_plays_twice_around_a_crossfade() {
    let files = names(&["a", "b", "c"]);
    for lengths in [vec![5 * S, 3 * S, 7 * S], vec![20_000, 15_000, 4 * S], vec![900_000, 11_000, 30_000]] {
        for crossfade in [20_000, S, 4 * S] {
            for first in [1, 1_001, 4_500_000, 4_999_000, 4_998_999, 19_500] {
                let inputs = vec![first, 8 * S, 2 * S, 9_999, 6 * S];
                let plans = build_music_plan(&inputs, &files, &lengths, 0, crossfade);
                for (plan, d) in plans.iter().zip(&inputs) {
                    assert!(fills_file(plan, *d), "{lengths:?} {crossfade} {first} {d}");
                    assert_eq!(plan.is_empty(), *d <= 1_000);
                    for k in 0..plan.len() {
                        if let MusicPiece::Crossfade { file1, start1, dur1, overlap, .. } = &plan[k] {
                            assert!(*dur1 == *overlap && *overlap > 10_000 && *overlap <= crossfade);
                            match &plan[k - 1] {
                                MusicPiece::Segment { file, start, duration } => {
                                    assert_eq!(file, file1);
                                    assert_eq!(start + duration, *start1);
                                }
                                _ => panic!("no segment before the crossfade"),
                            }
                        }
                    }
                }
            }
        }
    }
}

#[test]
fn plans_that_were_cut_short_are_told() {
    let piece = |duration| MusicPiece::Segment { file: "a".to_string(), start: 0, duration };
    assert!(fills_file(&vec![piece(S), MusicPiece::Silence { duration: S }], 2 * S));
    assert!(fills_file(&vec![piece(S)], S + 1_000));
    assert!(!fills_file(&vec![piece(S)], S + 1_001));
    assert!(!fills_file(&vec![], S));
    assert!(fills_file(&vec![], 1_000));
    let plans = build_music_plan(&vec![5 * S], &names(&["a", "b"]), &vec![0, 0], 0, 0);
    assert!(!fills_file(&plans[0], 5 * S));
}
