use blockfish_engine::{
    reconstruct_inputs, Analysis, AnalysisDone, AnalysisSink, Driver, DriverAction, Input, Move,
    MoveId, Msg, PlacementInputs, SearchStep, Stats, Suggestion,
};
use std::cmp::Ordering;

fn spam_hd_traces(trace: &[usize]) -> Vec<Input> {
    trace.iter().map(|_| Input::HD).collect()
}

#[test]
fn test_analysis_poll() {
    let (sink, mut handle) = Analysis::new(spam_hd_traces);
    assert_eq!(handle.poll(), Ok(None));
    let mov = Move {
        iteration: 1,
        rating: 1234,
        trace: vec![6, 7, 8],
    };
    assert!(sink.send(Msg {
        move_id: MoveId::n(6),
        mov
    }));
    assert_eq!(handle.poll(), Ok(Some(MoveId::n(6))));
    assert_eq!(handle.suggestion(MoveId::n(6), 0).rating, 1234);
    assert_eq!(handle.poll(), Ok(None));
    sink.finish(Stats::default());
    assert_eq!(handle.poll(), Err(AnalysisDone));
}

fn example_analysis(sink: AnalysisSink) {
    assert!(sink.send(Msg {
        move_id: MoveId::n(6),
        mov: Move {
            iteration: 1,
            rating: 1234,
            trace: vec![6, 7, 8],
        }
    }));
    assert!(sink.send(Msg {
        move_id: MoveId::n(7),
        mov: Move {
            iteration: 2,
            rating: 1233,
            trace: vec![7, 8, 9, 10],
        }
    }));
    assert!(sink.send(Msg {
        move_id: MoveId::n(6),
        mov: Move {
            iteration: 3,
            rating: 1233,
            trace: vec![6, 7, 9],
        }
    }));
}

#[test]
fn test_analysis_wait() {
    let (sink, mut handle) = Analysis::new(spam_hd_traces);
    assert_eq!(handle.poll(), Ok(None));
    example_analysis(sink);
    handle.wait();
    assert_eq!(handle.poll(), Err(AnalysisDone));
}

#[test]
fn test_analysis_suggestion() {
    let (sink, mut handle) = Analysis::new(spam_hd_traces);
    example_analysis(sink);
    handle.wait();
    assert_eq!(
        handle.suggestion(MoveId::n(6), std::usize::MAX),
        Suggestion {
            rating: 1233,
            inputs: vec![Input::HD; 3],
        }
    );
    assert_eq!(
        handle.suggestion(MoveId::n(7), std::usize::MAX),
        Suggestion {
            rating: 1233,
            inputs: vec![Input::HD; 4],
        }
    );
    assert_eq!(
        handle.suggestion(MoveId::n(7), 1).inputs,
        vec![Input::HD; 1]
    );
    assert_eq!(
        handle.suggestion(MoveId::n(7), 2).inputs,
        vec![Input::HD; 2]
    );
}

#[test]
fn test_analysis_cmp() {
    let (sink, mut handle) = Analysis::new(spam_hd_traces);
    example_analysis(sink);
    handle.wait();
    assert_eq!(handle.cmp(MoveId::n(6), MoveId::n(6)), Ordering::Equal);
    assert_eq!(handle.cmp(MoveId::n(6), MoveId::n(7)), Ordering::Greater);
    assert_eq!(handle.cmp(MoveId::n(7), MoveId::n(6)), Ordering::Less);
}

#[test]
fn test_analysis_statistics() {
    let (sink, handle) = Analysis::new(spam_hd_traces);
    assert_eq!(handle.stats(), None);
    let s = Stats {
        iterations: 1,
        nodes: 2,
        time_taken: std::time::Duration::from_millis(300),
    };
    sink.finish(s.clone());
    assert_eq!(handle.stats(), Some(s));
}

#[test]
fn applied_messages_keep_the_last_record_per_move() {
    let (_sink, mut handle) = Analysis::new(spam_hd_traces);
    let msgs = vec![
        Msg { move_id: MoveId::n(6), mov: Move { iteration: 1, rating: 1234, trace: vec![6, 7, 8] } },
        Msg { move_id: MoveId::n(7), mov: Move { iteration: 2, rating: 1233, trace: vec![7, 8, 9, 10] } },
        Msg { move_id: MoveId::n(6), mov: Move { iteration: 3, rating: 1233, trace: vec![6, 7, 9] } },
    ];
    handle.apply_msgs(msgs);
    let mut ids = handle.all_moves();
    ids.sort_by_key(|m| m.0);
    assert_eq!(ids, vec![MoveId::n(6), MoveId::n(7)]);
    assert_eq!(handle.suggestion(MoveId::n(6), usize::MAX).rating, 1233);
    assert_eq!(handle.suggestion(MoveId::n(6), usize::MAX).inputs.len(), 3);
    assert_eq!(handle.cmp(MoveId::n(6), MoveId::n(7)), Ordering::Greater);
}

#[test]
fn empty_channel_then_closed() {
    let (sink, mut handle) = Analysis::<fn(&[usize]) -> Vec<Input>>::new(spam_hd_traces);
    assert_eq!(handle.poll(), Ok(None));
    drop(sink);
    assert_eq!(handle.poll(), Err(AnalysisDone));
    assert_eq!(handle.poll(), Err(AnalysisDone));
    assert_eq!(handle.stats(), None);
}

#[test]
fn ratings_only_go_down_across_polls() {
    let (sink, mut handle) = Analysis::new(spam_hd_traces);
    example_analysis(sink);
    let mut last = i64::MAX;
    while let Ok(Some(m)) = handle.poll() {
        if m == MoveId::n(6) {
            let r = handle.suggestion(m, 0).rating;
            assert!(r <= last);
            last = r;
        }
    }
    assert_eq!(last, 1233);
}

#[test]
fn all_moves_lists_each_move_once() {
    let (sink, mut handle) = Analysis::new(spam_hd_traces);
    example_analysis(sink);
    handle.wait();
    let mut ids = handle.all_moves();
    ids.sort_by_key(|m| m.0);
    assert_eq!(ids, vec![MoveId::n(6), MoveId::n(7)]);
    let best = ids
        .iter()
        .copied()
        .min_by(|a, b| handle.cmp(*a, *b))
        .unwrap();
    assert_eq!(best, MoveId::n(7));
}

#[test]
fn suggestion_prefixes() {
    let (sink, mut handle) = Analysis::new(spam_hd_traces);
    example_analysis(sink);
    handle.wait();
    let full = handle.suggestion(MoveId::n(7), usize::MAX).inputs;
    for k in 0..=4 {
        let part = handle.suggestion(MoveId::n(7), k).inputs;
        assert_eq!(part.len(), k);
        assert_eq!(&full[..k], &part[..]);
    }
    assert!(handle.suggestion(MoveId::n(7), 0).inputs.is_empty());
}

#[test]
fn driver_stamps_improvements_with_iteration() {
    let mut d = Driver::new();
    assert!(d.should_step(3, 4));
    assert!(!d.should_step(4, 4));
    assert!(matches!(d.on_step(SearchStep::NoImprovement), DriverAction::Continue));
    assert!(matches!(d.on_step(SearchStep::NoImprovement), DriverAction::Continue));
    match d.on_step(SearchStep::RatingChanged {
        move_id: MoveId::n(3),
        rating: -5,
        trace: vec![1, 2],
    }) {
        DriverAction::Send(msg) => {
            assert_eq!(msg.move_id, MoveId::n(3));
            assert_eq!(msg.mov.iteration, 2);
            assert_eq!(msg.mov.rating, -5);
            assert_eq!(msg.mov.trace, vec![1, 2]);
        }
        _ => panic!("expected a message"),
    }
    assert!(matches!(d.on_send(true), DriverAction::Continue));
    assert!(matches!(d.on_send(false), DriverAction::Abort));
    assert!(matches!(d.on_step(SearchStep::Exhausted), DriverAction::Finish));
    let s = d.final_stats(17, std::time::Duration::from_millis(5));
    assert_eq!(s.iterations, 2);
    assert_eq!(s.nodes, 17);
}

#[test]
fn reconstructed_inputs_join_placements() {
    let steps = vec![
        PlacementInputs {
            did_hold: true,
            finesse: vec![Input::Left, Input::CW],
        },
        PlacementInputs {
            did_hold: false,
            finesse: vec![],
        },
        PlacementInputs {
            did_hold: false,
            finesse: vec![Input::Right],
        },
    ];
    let all = reconstruct_inputs(&steps);
    assert_eq!(
        all,
        vec![
            Input::Hold,
            Input::Left,
            Input::CW,
            Input::HD,
            Input::HD,
            Input::Right,
            Input::HD
        ]
    );
    assert!(reconstruct_inputs(&steps[..0]).is_empty());
    let two = reconstruct_inputs(&steps[..2]);
    assert_eq!(&all[..two.len()], &two[..]);
}
