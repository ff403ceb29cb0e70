use sort_visualizer::app_logic::{
    App, AppMessage, CanvasOp, DisplayState, Highlight, IdleStep, Tone,
};
use sort_visualizer::sorts::SortType;
use sort_visualizer::tools::checked_list::ListAction;

fn run_to_end(app: &mut App) -> usize {
    let mut steps = 0;
    loop {
        let step = app.idle();
        app.take_canvas_ops();
        app.take_tones();
        if step == (IdleStep { wait: false, delay: false }) {
            return steps;
        }
        assert_eq!(step, IdleStep { wait: false, delay: true });
        steps += 1;
        assert!(steps < 100_000);
    }
}

#[test]
fn new_app_draws_one_to_ten() {
    let mut app = App::new(DisplayState::default());
    assert_eq!(app.get_list(), &(1..=10).collect::<Vec<u32>>());
    let ops = app.take_canvas_ops();
    assert_eq!(ops.len(), 11);
    assert_eq!(ops[0], CanvasOp::Clear);
    assert_eq!(
        ops[3],
        CanvasOp::Entry { idx: 2, highlight: Highlight::Neutral, start_height: 7, height: 3 }
    );
    assert!(app.take_canvas_ops().is_empty());
    assert_eq!(app.display_state(), DisplayState::default());
}

#[test]
fn display_state_default_values() {
    let d = DisplayState::default();
    assert!(!d.is_running);
    assert_eq!(d.sort, None);
    assert_eq!(d.length, 10);
    assert_eq!(d.height, 10);
    assert_eq!(d.delay, 100);
    assert!(!d.sound_on);
    assert_eq!(Highlight::default(), Highlight::Neutral);
}

#[test]
fn idle_without_sort_waits() {
    let mut app = App::new(DisplayState::default());
    assert_eq!(app.idle(), IdleStep { wait: true, delay: false });
}

#[test]
fn every_sort_replays_to_sorted_list() {
    for n in 0..10isize {
        let t = SortType::try_from(n).unwrap();
        let mut app = App::new(DisplayState::default());
        app.update(AppMessage::ChangeLen(12));
        app.update(AppMessage::Shuffle);
        let before = app.get_list().clone();
        app.update(AppMessage::NewSort(t));
        assert_eq!(app.display_state().sort, Some(t));
        // stopped: nothing changes
        assert_eq!(app.idle(), IdleStep { wait: false, delay: true });
        assert_eq!(app.get_list(), &before);
        app.update(AppMessage::StartOrStop);
        assert!(app.display_state().is_running);
        run_to_end(&mut app);
        assert!(!app.display_state().is_running);
        let mut expected = before.clone();
        expected.sort();
        if t == SortType::RotateMerge {
            let mut got = app.get_list().clone();
            got.sort();
            assert_eq!(got, expected);
        } else {
            assert_eq!(app.get_list(), &expected, "sort {:?}", t);
        }
    }
}

#[test]
fn change_len_resets_list() {
    let mut app = App::new(DisplayState::default());
    app.update(AppMessage::StartOrStop);
    app.update(AppMessage::ChangeLen(4));
    assert_eq!(app.get_list(), &vec![1, 2, 3, 4]);
    let d = app.display_state();
    assert_eq!(d.length, 4);
    assert_eq!(d.height, 4);
    assert!(!d.is_running);
    assert_eq!(app.idle(), IdleStep { wait: true, delay: false });
}

#[test]
fn change_delay_and_sound() {
    let mut app = App::new(DisplayState::default());
    app.update(AppMessage::ChangeDelay(250));
    assert_eq!(app.display_state().delay, 250);
    app.update(AppMessage::SwitchSound);
    assert!(app.display_state().sound_on);
    app.update(AppMessage::SwitchSound);
    assert!(!app.display_state().sound_on);
}

#[test]
fn proceed_swap_highlights_and_sounds() {
    let mut app = App::new(DisplayState::default());
    app.update(AppMessage::SwitchSound);
    app.take_canvas_ops();
    app.proceed(ListAction::Swap(0, 9));
    assert_eq!(app.get_list()[0], 10);
    assert_eq!(app.get_list()[9], 1);
    assert_eq!(
        app.take_canvas_ops(),
        vec![
            CanvasOp::Entry { idx: 0, highlight: Highlight::Write, start_height: 0, height: 10 },
            CanvasOp::Entry { idx: 9, highlight: Highlight::Write, start_height: 9, height: 1 },
        ]
    );
    assert_eq!(app.take_tones(), vec![Tone { value: 10, max: 10 }, Tone { value: 1, max: 10 }]);
    // the next step first draws the swapped entries plain again
    // (the cleared entries come in the order of the set that holds them)
    app.proceed(ListAction::Compare(Some(3), None));
    let ops = app.take_canvas_ops();
    assert_eq!(ops.len(), 3);
    let plain0 = CanvasOp::Entry { idx: 0, highlight: Highlight::Neutral, start_height: 0, height: 10 };
    let plain9 = CanvasOp::Entry { idx: 9, highlight: Highlight::Neutral, start_height: 9, height: 1 };
    assert!(
        (ops[0] == plain0 && ops[1] == plain9) || (ops[0] == plain9 && ops[1] == plain0)
    );
    assert_eq!(
        ops[2],
        CanvasOp::Entry { idx: 3, highlight: Highlight::Read, start_height: 6, height: 4 }
    );
}

#[test]
fn proceed_write_sets_value() {
    let mut app = App::new(DisplayState::default());
    app.take_canvas_ops();
    app.proceed(ListAction::Write(2, 7));
    assert_eq!(app.get_list()[2], 7);
    assert_eq!(
        app.take_canvas_ops(),
        vec![CanvasOp::Entry { idx: 2, highlight: Highlight::Write, start_height: 3, height: 7 }]
    );
    assert!(app.take_tones().is_empty());
}

#[test]
fn update_all_takes_new_max() {
    let mut app = App::new(DisplayState::default());
    app.update(AppMessage::ChangeLen(3));
    app.take_canvas_ops();
    app.update(AppMessage::UpdateAll);
    assert_eq!(
        app.take_canvas_ops(),
        vec![
            CanvasOp::Clear,
            CanvasOp::Entry { idx: 0, highlight: Highlight::Neutral, start_height: 2, height: 1 },
            CanvasOp::Entry { idx: 1, highlight: Highlight::Neutral, start_height: 1, height: 2 },
            CanvasOp::Entry { idx: 2, highlight: Highlight::Neutral, start_height: 0, height: 3 },
        ]
    );
    app.update(AppMessage::ChangeLen(0));
    app.update(AppMessage::UpdateAll);
    assert_eq!(app.take_canvas_ops(), vec![CanvasOp::Clear]);
}

#[test]
fn shuffle_keeps_values_and_restarts_sort() {
    let mut app = App::new(DisplayState::default());
    app.update(AppMessage::NewSort(SortType::Bubble));
    app.update(AppMessage::Shuffle);
    let mut got = app.get_list().clone();
    got.sort();
    assert_eq!(got, (1..=10).collect::<Vec<u32>>());
    app.update(AppMessage::StartOrStop);
    run_to_end(&mut app);
    assert_eq!(app.get_list(), &(1..=10).collect::<Vec<u32>>());
}

#[test]
fn shuffle_moves_entries() {
    let mut app = App::new(DisplayState::default());
    app.update(AppMessage::ChangeLen(200));
    app.update(AppMessage::Shuffle);
    let sorted: Vec<u32> = (1..=200).collect();
    // the chance that 200 entries come back in order is nil
    assert_ne!(app.get_list(), &sorted);
    let mut got = app.get_list().clone();
    got.sort();
    assert_eq!(got, sorted);
}

#[test]
fn shrinking_the_list_stops_the_replay_at_once() {
    let mut app = App::new(DisplayState::default());
    app.update(AppMessage::Shuffle);
    app.update(AppMessage::NewSort(SortType::Bubble));
    app.update(AppMessage::StartOrStop);
    for _ in 0..5 {
        app.idle();
    }
    app.take_canvas_ops();
    app.update(AppMessage::ChangeLen(2));
    assert!(!app.will_step());
    assert_eq!(app.idle(), IdleStep { wait: true, delay: false });
    assert_eq!(app.get_list(), &vec![1, 2]);
    assert!(app.take_canvas_ops().is_empty());
}

#[test]
fn display_mirrors_the_app() {
    let mut app = App::new(DisplayState::default());
    app.update(AppMessage::StartOrStop);
    app.update(AppMessage::StartOrStop);
    app.update(AppMessage::SwitchSound);
    let d = app.display_state();
    assert!(!d.is_running);
    assert!(d.sound_on);
}

#[test]
fn can_start_sort_checks_repeated_values() {
    let mut app = App::new(DisplayState::default());
    assert!(app.can_start_sort(SortType::Quick));
    app.update(AppMessage::ChangeLen(0));
    assert!(app.can_start_sort(SortType::RotateMerge));
    let _ = ListAction::<u32>::Compare(None, None);
}

#[test]
fn a_sort_that_never_ends_keeps_stepping() {
    let mut app = App::new(DisplayState::default());
    app.update(AppMessage::ChangeLen(2));
    app.proceed(ListAction::Write(1, 1));
    assert_eq!(app.get_list(), &vec![1, 1]);
    app.update(AppMessage::NewSort(SortType::Quick));
    app.update(AppMessage::StartOrStop);
    for _ in 0..500 {
        assert_eq!(app.idle(), IdleStep { wait: false, delay: true });
        app.take_canvas_ops();
        app.take_tones();
    }
    assert!(app.display_state().is_running);
    assert_eq!(app.get_list(), &vec![1, 1]);
}
