use mdp_solver::bases::mdp::{Action, Enviorment, State};
use mdp_solver::exercises::ex5_10::{
    get_race_track, graph_track, intersects_boundary, intersects_finish_line, is_in_finish_line,
    make_track, CarAction, CarState, RaceTrack,
};
use rand::rngs::StdRng;
use rand::SeedableRng;

#[test]
fn make_track_marks_the_stretch_of_each_row() {
    let track = make_track(&[2, 3], &[1, 0], 4);
    assert_eq!(
        track,
        vec![vec![false, true, true, false], vec![true, true, true, false]]
    );
}

#[test]
fn make_track_stops_at_the_shorter_list() {
    let track = make_track(&[2, 3, 4], &[1, 0], 3);
    assert_eq!(track.len(), 2);
    assert_eq!(make_track(&[2], &[0], 0), vec![Vec::<bool>::new()]);
    assert_eq!(make_track(&[2], &[0], -3), vec![Vec::<bool>::new()]);
}

#[test]
fn course_has_the_documented_shape() {
    let racetrack = get_race_track();
    assert_eq!(racetrack.track.len(), 32);
    assert!(racetrack.track.iter().all(|row| row.len() == 17));
    assert_eq!(
        racetrack.track[0],
        vec![
            false, false, false, true, true, true, true, true, true, false, false, false, false,
            false, false, false, false
        ]
    );
    assert_eq!(racetrack.track[26], vec![true; 17]);
    assert_eq!(
        racetrack.finish_line,
        vec![(16, 26), (16, 27), (16, 28), (16, 29), (16, 30), (16, 31)]
    );
    assert_eq!(racetrack.starting_line, vec![(4, 0), (5, 0), (6, 0), (7, 0)]);
}

#[test]
fn finish_line_membership() {
    let line = [(16, 26), (16, 27)];
    assert!(is_in_finish_line(&line, (16, 27)));
    assert!(!is_in_finish_line(&line, (27, 16)));
    assert!(!is_in_finish_line(&[], (0, 0)));
}

#[test]
fn car_crosses_finish_line_when_its_next_cell_is_on_it() {
    let line = [(16, 26), (16, 27)];
    let on = CarState { velocity: (2, 1), position: (14, 26) };
    let off = CarState { velocity: (1, 1), position: (14, 26) };
    let beyond = CarState { velocity: (5, 0), position: (14, 26) };
    assert!(intersects_finish_line(&line, &on));
    assert!(!intersects_finish_line(&line, &off));
    assert!(!intersects_finish_line(&line, &beyond));
}

#[test]
fn car_beyond_a_single_cell_finish_line_crosses_it() {
    let line = [(16, 26)];
    let beyond = CarState { velocity: (5, 0), position: (14, 26) };
    let other_row = CarState { velocity: (5, 1), position: (14, 26) };
    assert!(intersects_finish_line(&line, &beyond));
    assert!(!intersects_finish_line(&line, &other_row));
}

#[test]
fn finish_line_check_does_not_overflow() {
    let line = [(16, 26)];
    let far = CarState { velocity: (u32::MAX, u32::MAX), position: (u32::MAX, u32::MAX) };
    assert!(!intersects_finish_line(&line, &far));
}

#[test]
fn boundary_of_the_course() {
    let racetrack = get_race_track();
    // the starting line and the finish line are never boundary
    assert!(!intersects_boundary((4, 0), &racetrack));
    assert!(!intersects_boundary((16, 31), &racetrack));
    // the bottom row beside the starting line is
    assert!(intersects_boundary((3, 0), &racetrack));
    // a cell in the middle of the track
    assert!(!intersects_boundary((5, 5), &racetrack));
    // a track cell with a neighbour off the track
    assert!(intersects_boundary((3, 1), &racetrack));
    // off the track, and off the grid
    assert!(intersects_boundary((0, 1), &racetrack));
    assert!(intersects_boundary((17, 5), &racetrack));
    assert!(intersects_boundary((5, 32), &racetrack));
    assert!(intersects_boundary((usize::MAX, usize::MAX), &racetrack));
}

#[test]
fn boundary_of_an_empty_grid() {
    let racetrack = RaceTrack { track: vec![], finish_line: vec![(1, 1)], starting_line: vec![] };
    assert!(intersects_boundary((0, 0), &racetrack));
    assert!(!intersects_boundary((1, 1), &racetrack));
}

#[test]
fn picture_of_a_small_track() {
    let squares = [3, 3, 3];
    let starts = [0, 0, 1];
    let track = RaceTrack {
        track: make_track(&squares, &starts, 4),
        finish_line: vec![(3, 2)],
        starting_line: vec![(0, 0), (1, 0), (2, 0)],
    };
    let picture = graph_track(&squares, &starts, &track.finish_line, &track, 4);
    let lines: Vec<String> = picture.iter().map(|row| row.iter().collect()).collect();
    assert_eq!(lines, vec![".BBF", "B#B.", "SSS."]);
}

#[test]
fn picture_of_the_course_has_one_line_for_each_row() {
    let racetrack = get_race_track();
    let squares = [
        6, 6, 6, 7, 7, 7, 7, 7, 7, 7, 8, 8, 8, 8, 8, 8, 8, 8, 9, 9, 9, 9, 9, 9, 9, 10, 17, 17, 16,
        15, 15, 14,
    ];
    let starts = [
        3, 3, 3, 2, 2, 2, 2, 2, 2, 2, 1, 1, 1, 1, 1, 1, 1, 1, 0, 0, 0, 0, 0, 0, 0, 0, 0, 0, 1, 2,
        2, 3,
    ];
    let picture = graph_track(&squares, &starts, &racetrack.finish_line, &racetrack, 17);
    assert_eq!(picture.len(), 32);
    let bottom: String = picture[31].iter().collect();
    assert_eq!(bottom, "...SSSSSS........");
    let top: String = picture[0].iter().collect();
    assert_eq!(top, "...BBBBBBBBBBBBBF");
    let middle: String = picture[26].iter().collect();
    assert_eq!(middle, "..B#####B........");
}

#[test]
fn car_keys_tell_states_and_actions_apart() {
    let a = CarState { velocity: (1, 2), position: (3, 4) };
    let b = CarState { velocity: (2, 1), position: (3, 4) };
    let c = CarState { velocity: (1, 2), position: (4, 3) };
    assert_eq!(a.key(), (3 << 48) | (4 << 32) | (1 << 16) | 2);
    assert_ne!(a.key(), b.key());
    assert_ne!(a.key(), c.key());
    let up = CarAction { velocity_increment: (0, 1) };
    let down = CarAction { velocity_increment: (0, -1) };
    let min = CarAction { velocity_increment: (i32::MIN, i32::MIN) };
    let max = CarAction { velocity_increment: (i32::MAX, i32::MAX) };
    assert_ne!(up.key(), down.key());
    assert_eq!(min.key(), 0);
    assert_eq!(max.key(), u64::MAX);
}

#[test]
fn racetrack_offers_nine_actions() {
    let racetrack = get_race_track();
    let state = CarState { velocity: (0, 0), position: (4, 0) };
    let actions = racetrack.posible_actions(&state);
    let increments: Vec<(i32, i32)> = actions.iter().map(|a| a.velocity_increment).collect();
    assert_eq!(
        increments,
        vec![(-1, -1), (-1, 0), (-1, 1), (0, -1), (0, 0), (0, 1), (1, -1), (1, 0), (1, 1)]
    );
}

#[test]
fn racetrack_states_cover_every_track_cell_and_velocity() {
    let racetrack = get_race_track();
    let states = racetrack.get_states();
    let cells: usize = racetrack.track.iter().map(|row| row.iter().filter(|c| **c).count()).sum();
    assert_eq!(states.len(), cells * 36);
    assert_eq!(states[0], CarState { velocity: (0, 0), position: (3, 0) });
    assert_eq!(states[1], CarState { velocity: (0, 1), position: (3, 0) });
    assert_eq!(states[6], CarState { velocity: (1, 0), position: (3, 0) });
    assert_eq!(states[36], CarState { velocity: (0, 0), position: (4, 0) });
}

#[test]
fn racetrack_step_moves_the_car_and_clips_the_velocity() {
    let racetrack = get_race_track();
    let mut rng = StdRng::seed_from_u64(7);
    let state = CarState { velocity: (0, 1), position: (5, 3) };
    let action = CarAction { velocity_increment: (1, 1) };
    let (next, reward) = racetrack.response(&state, &action, &mut rng);
    assert_eq!(next, CarState { velocity: (1, 2), position: (5, 4) });
    assert_eq!(reward, -1);
    let fast = CarState { velocity: (0, 5), position: (5, 3) };
    let (next, _) = racetrack.response(&fast, &action, &mut rng);
    assert_eq!(next, CarState { velocity: (1, 5), position: (5, 8) });
    let slow = CarAction { velocity_increment: (-1, -1) };
    let (next, _) = racetrack.response(&state, &slow, &mut rng);
    assert_eq!(next, CarState { velocity: (0, 0), position: (5, 4) });
}

#[test]
fn racetrack_step_off_the_track_restarts_on_the_starting_line() {
    let racetrack = get_race_track();
    let mut rng = StdRng::seed_from_u64(11);
    let state = CarState { velocity: (5, 0), position: (5, 3) };
    let action = CarAction { velocity_increment: (0, 0) };
    for _ in 0..20 {
        let (next, reward) = racetrack.response(&state, &action, &mut rng);
        assert_eq!(reward, -1);
        assert_eq!(next.velocity, (0, 1));
        assert!(racetrack.starting_line.contains(&next.position));
    }
}

#[test]
fn racetrack_terminal_state_stays_for_no_reward() {
    let racetrack = get_race_track();
    let mut rng = StdRng::seed_from_u64(3);
    let state = CarState { velocity: (2, 0), position: (14, 27) };
    assert!(racetrack.is_terminal(&state));
    let action = CarAction { velocity_increment: (1, 1) };
    let step = racetrack.response(&state, &action, &mut rng);
    assert_eq!(step, (state, 0));
}

#[test]
fn racetrack_is_checked() {
    assert!(get_race_track().check());
    let mut ragged = get_race_track();
    ragged.track[3].pop();
    assert!(!ragged.check());
    let mut endless = get_race_track();
    endless.finish_line.clear();
    assert!(!endless.check());
    let mut nowhere = get_race_track();
    nowhere.starting_line.clear();
    assert!(!nowhere.check());
    let empty = RaceTrack { track: vec![], finish_line: vec![(0, 0)], starting_line: vec![(0, 0)] };
    assert!(empty.check());
}

#[test]
fn boundary_of_a_ragged_grid_where_the_cells_looked_at_exist() {
    let racetrack = RaceTrack {
        track: vec![
            vec![true, true, true, true],
            vec![true, true, true],
            vec![true, true, true, true, true],
        ],
        finish_line: vec![(9, 9)],
        starting_line: vec![(0, 0)],
    };
    assert!(!racetrack.check());
    assert!(!intersects_boundary((1, 1), &racetrack));
    assert!(intersects_boundary((0, 1), &racetrack));
    assert!(intersects_boundary((1, 2), &racetrack));
    assert!(!intersects_boundary((0, 0), &racetrack));
}
