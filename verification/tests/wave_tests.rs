use std::collections::hash_map::DefaultHasher;
use std::hash::Hasher;
use wavefc::Flags;
use wavefc::Wave;
use wavefc::errors::WaveError;
use wavefc::helpers::BorderMode;
use wavefc::helpers::Vector2;
use wavefc::patterns::Pattern;
use wavefc::patterns::Rule;
use wavefc::patterns::count_patterns;
use wavefc::patterns::dedup_patterns;
use wavefc::transform::mirror_pattern_x;
use wavefc::transform::x_transform_rule;

type NoCallback = Option<fn(usize, usize, Vec<Vec<Vec<usize>>>)>;

#[test]
fn dedup_and_count_patterns_works() {
    let mut patterns = vec![
        Pattern {
            is_transform: false,
            id: 0,
            count: 1,
            contents: vec![vec![0]],
            rules: vec![Rule::new(0, vec![vec![1]])],
        },
        Pattern {
            is_transform: false,
            id: 1,
            count: 1,
            contents: vec![vec![1]],
            rules: vec![Rule::new(2, vec![vec![0]])],
        },
        Pattern {
            is_transform: false,
            id: 2,
            count: 1,
            contents: vec![vec![1]],
            rules: vec![Rule::new(2, vec![vec![0]]), Rule::new(2, vec![vec![0]])],
        },
    ];

    count_patterns(&mut patterns);
    dedup_patterns(&mut patterns);

    assert_eq!(patterns.len(), 2);
    assert!(patterns.iter().all(|p| p.rules.len() == 1));

    assert_eq!(
        patterns.iter().map(|p| p.count).filter(|c| *c == 2).count(),
        1,
        "{:#?}",
        patterns,
    );

    let mut hash_list: Vec<u64> = vec![];

    for pattern in patterns.iter() {
        let mut hasher = DefaultHasher::new();
        hasher.write_usize(pattern.count);

        for row in &pattern.contents {
            for n in row {
                hasher.write_usize(*n);
            }
        }

        for rule in &pattern.rules {
            hasher.write_u8(rule.direction);

            for row in &rule.content {
                for n in row {
                    hasher.write_usize(*n);
                }
            }
        }

        hash_list.push(hasher.finish());
    }

    let copy = hash_list.to_owned();
    hash_list.dedup();

    assert_eq!(copy, hash_list);

    let mut second_test = vec![
        Pattern {
            id: 3,
            is_transform: false,
            count: 1,
            contents: vec![vec![2]],
            rules: vec![Rule::new(1, vec![vec![1]]), Rule::new(3, vec![vec![1]])],
        },
        Pattern {
            id: 0,
            is_transform: false,
            count: 1,
            contents: vec![vec![0]],
            rules: vec![
                Rule::new(0, vec![vec![1]]),
                Rule::new(1, vec![vec![1]]),
                Rule::new(2, vec![vec![1]]),
                Rule::new(3, vec![vec![1]]),
            ],
        },
        Pattern {
            id: 10,
            is_transform: true,
            count: 1,
            contents: vec![vec![2]],
            rules: vec![Rule::new(0, vec![vec![1]])],
        },
    ];

    count_patterns(&mut second_test);
    dedup_patterns(&mut second_test);

    assert_eq!(second_test.len(), 2, "{:#?}", second_test);
    assert_eq!(
        second_test[1],
        Pattern {
            id: 3,
            is_transform: false,
            count: 1,
            contents: vec![vec![2]],
            rules: vec![
                Rule::new(0, vec![vec![1]]),
                Rule::new(1, vec![vec![1]]),
                Rule::new(3, vec![vec![1]]),
            ],
        }
    );
}

#[test]
fn wave_analyzer_works() {
    let mut wave = Wave::new();
    let input = vec![vec![0, 1, 2], vec![0, 1, 2], vec![0, 1, 2]];

    wave.flags.push(Flags::NoTransforms);
    wave.analyze(input, Vector2::new(2, 2), BorderMode::Clamp);

    assert_eq!(wave.patterns().len(), 2);
}

#[test]
fn collapse_once_makes_progress() {
    let mut wave = Wave::new();
    let test_sample = vec![vec![0, 1, 2]];
    wave.flags.push(Flags::NoTransforms);
    wave.analyze(test_sample, Vector2::new(1, 1), BorderMode::Clamp);
    wave.fill(Vector2::new(3, 1)).expect("Fill failed.");
    wave.collapse_once();

    assert!(wave.collapsed_count() >= 1 || wave.has_contradiction_occurred());
}

#[test]
fn collapse_all_terminates_on_a_small_grid() {
    // a uniform sample gives one pattern with rules in all 4 directions
    let mut wave = Wave::new();
    let sample = vec![vec![0, 0, 0], vec![0, 0, 0], vec![0, 0, 0]];
    wave.analyze(sample, Vector2::new(1, 1), BorderMode::Clamp);
    wave.fill(Vector2::new(3, 1)).expect("Fill failed.");
    let cb: NoCallback = None;
    wave.collapse_all(1000, cb).expect("Collapse failed.");
    let rep = wave.perfect_rep().expect("No representation.");
    assert_eq!(rep, vec![vec![0], vec![0], vec![0]]);
}

#[test]
fn collapse_scenario_respects_adjacency_rules() {
    // sample: 3 columns of distinct symbols, scanned at 1x1 chunks
    let sample = wavefc::sampling::deconstruct_string("LCS", false);
    let mut wave = Wave::new();
    wave.flags.push(Flags::NoTransforms);
    wave.analyze(sample.grid, Vector2::new(1, 1), BorderMode::Clamp);

    // 3 patterns, each with at most 2 rules: only left/right neighbours
    // exist in a single-row sample
    assert_eq!(wave.patterns().len(), 3);
    assert!(wave.patterns().iter().all(|p| p.rules.len() <= 2));

    wave.fill(Vector2::new(3, 1)).expect("Fill failed.");
    let cb: NoCallback = None;
    wave.collapse_all(1000, cb).expect("Collapse failed.");
    let rep = wave.perfect_rep().expect("No representation.");

    assert_eq!(rep.len(), 3);
    assert!(rep.iter().all(|col| col.len() == 1));

    // every horizontal adjacency of the result must be one observed in
    // the sample: L left of C, or C left of S
    for x in 0..2 {
        let pair = (rep[x][0], rep[x + 1][0]);
        assert!(pair == (0, 1) || pair == (1, 2), "illegal adjacency {:?}", pair);
    }
}

#[test]
fn contradiction_budget_is_reported() {
    // a single-row sample has no vertical rules at all, so a 2x2 output
    // contradicts immediately
    let mut wave = Wave::new();
    wave.flags.push(Flags::NoTransforms);
    wave.analyze(vec![vec![0], vec![1]], Vector2::new(1, 1), BorderMode::Clamp);
    wave.fill(Vector2::new(2, 2)).expect("Fill failed.");
    let cb: NoCallback = None;
    let result = wave.collapse_all(5, cb);
    match result {
        Ok(()) => {
            let rep = wave.perfect_rep().expect("No representation.");
            for x in 0..2 {
                let pair = (rep[x][0], rep[x][1]);
                assert!(pair == (0, 1) || pair == (1, 0), "illegal adjacency {:?}", pair);
            }
        }
        Err(m) => {
            assert_eq!(m, "The max number of contradictions has been reached");
            assert!(wave.perfect_rep().is_err());
        }
    }
}

#[test]
fn fill_rejects_sizes_that_do_not_tile() {
    let mut wave = Wave::new();
    wave.analyze(vec![vec![0, 1], vec![1, 0]], Vector2::new(2, 2), BorderMode::Clamp);
    let err = wave.fill(Vector2::new(3, 4)).unwrap_err();
    assert_eq!(err, "The output width must be a factor of the chunk size");
    let err = wave.fill(Vector2::new(4, 3)).unwrap_err();
    assert_eq!(err, "The output height must be a factor of the chunk size");
    assert!(wave.fill(Vector2::new(4, 4)).is_ok());
}

#[test]
fn collapse_all_rejects_an_unprepared_wave() {
    let mut wave = Wave::new();
    let cb: NoCallback = None;
    let err = wave.collapse_all(5, cb).unwrap_err();
    assert_eq!(
        err,
        "The number of rules identified was zero. The input was flawed or the wave was configured incorrectly."
    );

    wave.analyze(vec![vec![0]], Vector2::new(1, 1), BorderMode::Clamp);
    let err = wave.collapse_all(5, cb).unwrap_err();
    assert_eq!(err, "The superpositions are empty or were not filled properly");
}

#[test]
fn perfect_rep_reports_the_grid_state() {
    let mut wave = Wave::new();
    let err = wave.perfect_rep().unwrap_err();
    assert_eq!(err, "There are no superpositions to create a representation from");

    wave.analyze(vec![vec![0, 1]], Vector2::new(1, 1), BorderMode::Clamp);
    wave.fill(Vector2::new(2, 1)).expect("Fill failed.");
    let err = wave.perfect_rep().unwrap_err();
    assert_eq!(err, "The superpositions aren't completely collapsed yet");
}

#[test]
fn current_rep_lists_all_candidates_before_collapsing() {
    let mut wave = Wave::new();
    wave.flags.push(Flags::NoTransforms);
    wave.analyze(vec![vec![0, 1]], Vector2::new(1, 1), BorderMode::Clamp);
    wave.fill(Vector2::new(2, 1)).expect("Fill failed.");
    let rep = wave.current_rep();
    assert_eq!(rep, vec![vec![vec![0, 1]], vec![vec![0, 1]]]);
    assert_eq!(wave.current_state(), rep);
    assert_eq!(wave.finalize(), Vec::<Vec<usize>>::new());
}

#[test]
fn transform_round_trip_restores_contents_and_directions() {
    let pattern = Pattern {
        id: 0,
        is_transform: false,
        count: 1,
        contents: vec![vec![1, 2], vec![3, 4]],
        rules: vec![Rule::new(1, vec![vec![5, 6], vec![7, 8]])],
    };
    let once = mirror_pattern_x(&pattern, 10);
    assert_eq!(once.contents, vec![vec![3, 4], vec![1, 2]]);
    assert_eq!(once.rules[0].direction, 3);
    let twice = mirror_pattern_x(&once, 11);
    assert_eq!(twice.contents, pattern.contents);

    let rule = Rule::new(1, vec![vec![5, 6], vec![7, 8]]);
    let rule_twice = x_transform_rule(&x_transform_rule(&rule));
    assert_eq!(rule_twice.direction, rule.direction);
    assert_eq!(rule_twice.content, rule.content);
}

#[test]
fn undo_and_redo_step_the_history() {
    let mut wave = Wave::new();
    wave.flags.push(Flags::NoTransforms);
    wave.analyze(vec![vec![0, 1, 2]], Vector2::new(1, 1), BorderMode::Clamp);
    wave.fill(Vector2::new(3, 1)).expect("Fill failed.");

    let err = wave.undo_collapse(false).unwrap_err();
    assert_eq!(err, "There is no recorded collapse to undo");
    let err = wave.redo_collapse().unwrap_err();
    assert_eq!(err, "There is no recorded collapse to redo");

    wave.collapse_once();
    assert_eq!(wave.history.len(), 1);

    wave.undo_collapse(false).expect("Undo failed.");
    assert!(wave.history[0].undone);

    wave.redo_collapse().expect("Redo failed.");
    assert!(!wave.history[0].undone);
}

#[test]
fn undo_rejects_a_desynchronized_history() {
    let mut wave = Wave::new();
    wave.flags.push(Flags::NoTransforms);
    wave.analyze(vec![vec![0, 1, 2]], Vector2::new(1, 1), BorderMode::Clamp);
    wave.fill(Vector2::new(3, 1)).expect("Fill failed.");
    wave.collapse_once();
    wave.iterations = 5;
    let err = wave.undo_collapse(false).unwrap_err();
    assert_eq!(err, "The recorded iteration does not match the current iteration");
}

#[test]
fn no_history_flag_disables_the_log() {
    let mut wave = Wave::new();
    wave.flags.push(Flags::NoTransforms);
    wave.flags.push(Flags::NoHistory);
    wave.analyze(vec![vec![0, 1, 2]], Vector2::new(1, 1), BorderMode::Clamp);
    wave.fill(Vector2::new(3, 1)).expect("Fill failed.");
    wave.collapse_once();
    assert!(wave.history.is_empty());
}

#[test]
fn analyze_with_a_degenerate_chunk_finds_nothing() {
    let mut wave = Wave::new();
    wave.analyze(Vec::new(), Vector2::new(0, 0), BorderMode::Clamp);
    assert_eq!(wave.patterns().len(), 0);
    assert_eq!(wave.patterns_total(), 0);
}

#[test]
fn analyze_counts_pattern_frequencies() {
    let mut wave = Wave::new();
    wave.flags.push(Flags::NoTransforms);
    // the symbol 0 appears twice, so its pattern's count is 2
    wave.analyze(vec![vec![0], vec![1], vec![0]], Vector2::new(1, 1), BorderMode::Clamp);
    assert_eq!(wave.patterns().len(), 2);
    let counts: Vec<usize> = wave.patterns().iter().map(|p| p.count).collect();
    assert!(counts.contains(&2) && counts.contains(&1));
}

#[test]
fn prune_deadweight_drops_sparse_patterns() {
    let mut wave = Wave::new();
    wave.flags.push(Flags::NoTransforms);
    wave.flags.push(Flags::PruneDeadweight);
    // a single-row sample never has vertical rules, so every pattern is
    // deadweight
    wave.analyze(vec![vec![0], vec![1], vec![0]], Vector2::new(1, 1), BorderMode::Clamp);
    assert_eq!(wave.patterns().len(), 0);
}

#[test]
fn wave_error_messages_name_the_failure() {
    assert_eq!(
        WaveError::Contradiction.message(),
        "There was a contradiction during a collapse."
    );
    assert_eq!(
        WaveError::InvalidSample.message(),
        "The sample provided was invalid. The item_size might not have been a factor or the sample could have been empty."
    );
    assert_eq!(WaveError::Contradiction, WaveError::Contradiction.clone());
}
