use configparser::ini::Ini;
use fastrand::Rng;
use maze_walk::{Config, Grid, GridPosition, Maze, MazeError, MazeState};

fn pos(x: i32, y: i32) -> GridPosition {
    GridPosition::new(x, y)
}

fn seeded(width: usize, height: usize, seed: u64) -> Maze {
    match Maze::with_rng(width, height, Rng::with_seed(seed)) {
        Ok(m) => m,
        Err(e) => panic!("no maze: {:?}", e),
    }
}

fn cells_accounted(m: &Maze) -> usize {
    m.walker.path.len() + m.backtrack.len() + m.tracks.iter().map(|t| t.len()).sum::<usize>()
}

#[test]
fn neighbours_are_left_right_up_down() {
    let p = pos(3, 4);
    assert_eq!(p.get_neighbours(), [pos(2, 4), pos(4, 4), pos(3, 3), pos(3, 5)]);
}

#[test]
fn neighbours_are_distinct_and_adjacent() {
    for p in [pos(0, 0), pos(-7, 12), pos(100, -3)] {
        let ns = p.get_neighbours();
        for (i, n) in ns.iter().enumerate() {
            assert_eq!((n.x - p.x).abs() + (n.y - p.y).abs(), 1);
            for m in ns.iter().skip(i + 1) {
                assert_ne!(n, m);
            }
        }
    }
}

#[test]
fn in_bounds_rejects_any_single_violation() {
    assert!(!pos(-1, 5).in_bounds(10, 10));
    assert!(!pos(10, 5).in_bounds(10, 10));
    assert!(!pos(5, -1).in_bounds(10, 10));
    assert!(!pos(5, 10).in_bounds(10, 10));
    assert!(pos(0, 0).in_bounds(10, 10));
    assert!(pos(9, 9).in_bounds(10, 10));
    assert!(pos(5, 5).in_bounds(10, 10));
}

#[test]
fn empty_grid_is_refused() {
    assert!(matches!(Maze::new(0, 5), Err(MazeError::EmptyGrid)));
    assert!(matches!(Maze::new(5, 0), Err(MazeError::EmptyGrid)));
    let mut rng = Rng::with_seed(3);
    assert!(matches!(Grid::new(0, 0, &mut rng), Err(MazeError::EmptyGrid)));
}

#[test]
fn new_maze_starts_at_one_cell() {
    for seed in 0..20 {
        let m = seeded(4, 3, seed);
        assert_eq!(m.state, MazeState::Generating);
        assert_eq!(m.walker.path, vec![m.start]);
        assert_eq!(m.visited_cells, vec![m.start]);
        assert!(m.backtrack.is_empty());
        assert!(m.tracks.is_empty());
        assert!(m.start.in_bounds(4, 3));
        assert!(m.finish.in_bounds(4, 3));
        assert_ne!(m.start, m.finish);
    }
}

#[test]
fn markers_cover_the_grid() {
    let mut seen = Vec::new();
    for seed in 0..200 {
        let m = seeded(3, 2, seed);
        if !seen.contains(&m.start) {
            seen.push(m.start);
        }
    }
    assert_eq!(seen.len(), 6);
}

#[test]
fn grid_markers_and_bounds() {
    let mut rng = Rng::with_seed(11);
    let g = match Grid::new(2, 1, &mut rng) {
        Ok(g) => g,
        Err(e) => panic!("no grid: {:?}", e),
    };
    assert_ne!(g.start, g.finish);
    assert!(!g.is_outside(g.start));
    assert!(g.is_outside(pos(-1, 0)));
    assert!(g.is_outside(pos(2, 0)));
    assert!(g.is_outside(pos(0, 1)));
    assert!(g.is_outside(pos(1, -1)));
}

#[test]
fn one_by_one_grid_finishes_at_once() {
    let mut m = seeded(1, 1, 5);
    assert_eq!(m.start, pos(0, 0));
    m.step();
    assert_eq!(m.state, MazeState::Finished);
    assert!(m.walker.path.is_empty());
    assert!(m.backtrack.is_empty());
    assert_eq!(m.tracks, vec![vec![pos(0, 0)]]);
}

#[test]
fn two_by_one_grid_finishes_in_three_steps() {
    for seed in 0..10 {
        let mut m = seeded(2, 1, seed);
        let start = m.start;
        let other = if start == pos(0, 0) { pos(1, 0) } else { pos(0, 0) };
        m.step();
        assert_eq!(m.walker.path, vec![start, other]);
        m.step();
        assert_eq!(m.state, MazeState::Generating);
        assert_eq!(m.backtrack, vec![other]);
        m.step();
        assert_eq!(m.state, MazeState::Finished);
        assert_eq!(m.tracks, vec![vec![other, start]]);
        let total: usize = m.tracks.iter().map(|t| t.len()).sum();
        assert_eq!(total, 2);
    }
}

#[test]
fn step_with_takes_first_eligible_candidate() {
    let mut m = seeded(3, 3, 1);
    m.walker.path = vec![pos(0, 0)];
    m.visited_cells = vec![pos(0, 0)];
    let order = [pos(0, -1), pos(1, 0), pos(-1, 0), pos(0, 1)];
    m.step_with(order);
    assert_eq!(m.walker.path, vec![pos(0, 0), pos(1, 0)]);
    assert_eq!(m.visited_cells, vec![pos(0, 0), pos(1, 0)]);
    let order = [pos(0, 0), pos(1, -1), pos(1, 1), pos(2, 0)];
    m.step_with(order);
    assert_eq!(m.walker.path, vec![pos(0, 0), pos(1, 0), pos(1, 1)]);
}

#[test]
fn step_with_retreats_and_archives_on_advance() {
    let mut m = seeded(2, 2, 1);
    m.walker.path = vec![pos(0, 0), pos(1, 0), pos(1, 1)];
    m.visited_cells = vec![pos(0, 0), pos(1, 0), pos(1, 1)];
    m.step_with(pos(1, 1).get_neighbours());
    assert_eq!(m.walker.path, vec![pos(0, 0), pos(1, 0), pos(1, 1), pos(0, 1)]);
    m.step_with(pos(0, 1).get_neighbours());
    assert_eq!(m.walker.path, vec![pos(0, 0), pos(1, 0), pos(1, 1)]);
    assert_eq!(m.backtrack, vec![pos(0, 1)]);
    m.step_with(pos(1, 1).get_neighbours());
    m.step_with(pos(1, 0).get_neighbours());
    assert_eq!(m.backtrack, vec![pos(0, 1), pos(1, 1), pos(1, 0)]);
    assert!(m.tracks.is_empty());
    m.step_with(pos(0, 0).get_neighbours());
    assert_eq!(m.state, MazeState::Finished);
    assert_eq!(m.tracks, vec![vec![pos(0, 1), pos(1, 1), pos(1, 0), pos(0, 0)]]);
}

#[test]
fn advancing_archives_the_pending_dead_end() {
    let mut m = seeded(3, 2, 1);
    m.walker.path = vec![pos(1, 0), pos(0, 0)];
    m.visited_cells = vec![pos(1, 0), pos(0, 0), pos(0, 1)];
    m.step_with(pos(0, 0).get_neighbours());
    assert_eq!(m.backtrack, vec![pos(0, 0)]);
    m.step_with(pos(1, 0).get_neighbours());
    assert_eq!(m.walker.path, vec![pos(1, 0), pos(2, 0)]);
    assert!(m.backtrack.is_empty());
    assert_eq!(m.tracks, vec![vec![pos(0, 0)]]);
}

#[test]
fn walk_keeps_its_invariants_until_it_ends() {
    for (w, h, seed) in [(5usize, 4usize, 1u64), (7, 7, 2), (1, 6, 3), (10, 3, 4)] {
        let mut m = seeded(w, h, seed);
        let area = w * h;
        let mut steps = 0usize;
        let mut advances = 0usize;
        while m.state == MazeState::Generating {
            let before = m.visited_cells.len();
            m.step();
            steps += 1;
            if m.visited_cells.len() == before + 1 {
                advances += 1;
            }
            for p in m.walker.path.iter() {
                assert!(m.visited_cells.contains(p));
                assert!(p.in_bounds(w, h));
            }
            for pair in m.walker.path.windows(2) {
                assert_eq!((pair[1].x - pair[0].x).abs() + (pair[1].y - pair[0].y).abs(), 1);
            }
            assert_eq!(cells_accounted(&m), m.visited_cells.len());
            assert_eq!(cells_accounted(&m), advances + 1);
            assert!(steps <= 2 * area - 1);
        }
        assert_eq!(steps, 2 * area - 1);
        assert_eq!(m.visited_cells.len(), area);
        for x in 0..w as i32 {
            for y in 0..h as i32 {
                assert!(m.visited_cells.contains(&pos(x, y)));
            }
        }
        let tracks = m.tracks.clone();
        let visited = m.visited_cells.clone();
        m.step();
        m.step();
        assert_eq!(m.state, MazeState::Finished);
        assert_eq!(m.tracks, tracks);
        assert_eq!(m.visited_cells, visited);
        assert!(m.walker.path.is_empty());
        assert!(m.backtrack.is_empty());
    }
}

#[test]
fn forward_only_walk_counts_steps_plus_one() {
    let mut m = seeded(6, 1, 9);
    m.walker.path = vec![pos(0, 0)];
    m.visited_cells = vec![pos(0, 0)];
    for k in 1..6 {
        m.step();
        assert_eq!(cells_accounted(&m), k + 1);
    }
}

#[test]
fn filtering_keeps_tracks_longer_than_ten() {
    let mut m = seeded(3, 3, 2);
    let track = |n: usize| vec![pos(0, 0); n];
    m.tracks = vec![track(3), track(15), track(8), track(22)];
    m.p();
    assert_eq!(m.tracks, vec![track(15), track(22)]);
}

#[test]
fn filtering_at_threshold_drops_equal_length() {
    let mut m = seeded(3, 3, 2);
    let track = |n: usize| vec![pos(1, 1); n];
    m.tracks = vec![track(4), track(5), track(6), track(0)];
    m.filter_short_tracks(5);
    assert_eq!(m.tracks, vec![track(6)]);
    m.filter_short_tracks(0);
    assert_eq!(m.tracks, vec![track(6)]);
}

#[test]
fn histogram_counts_lengths_in_ascending_order() {
    let mut m = seeded(3, 3, 2);
    let track = |n: usize| vec![pos(0, 0); n];
    m.tracks = vec![track(15), track(3), track(22), track(3), track(1)];
    assert_eq!(m.paths_lengths(), vec![(1, 1), (3, 2), (15, 1), (22, 1)]);
    m.tracks = Vec::new();
    assert!(m.paths_lengths().is_empty());
}

#[test]
fn default_config() {
    let c = Config::default();
    assert_eq!(c.sleep_ms_per_frame, 60);
    assert_eq!(c.steps_per_draw, 1);
    assert_eq!(c.window_width, 480);
    assert_eq!(c.window_height, 360);
    assert!(c.decorations);
    assert_eq!(Config::from_settings(None, None, None, None, None), c);
}

#[test]
fn settings_fall_back_when_too_large() {
    let c = Config::from_settings(Some(u64::MAX), Some(4), Some(800), Some(600), Some(false));
    assert_eq!(c.sleep_ms_per_frame, 60);
    assert_eq!(c.steps_per_draw, 4);
    assert_eq!(c.window_width, 800);
    assert_eq!(c.window_height, 600);
    assert!(!c.decorations);
}

#[test]
fn reload_reads_the_default_section() {
    let mut ini = Ini::new();
    ini.read(String::from("[default]\nsleep_ms_per_frame = 10\nsteps_per_draw = 3\ndecorations = false\n"))
        .unwrap();
    let mut c = Config::default();
    assert_eq!(c.reload(&ini), Ok(()));
    assert_eq!(c.sleep_ms_per_frame, 10);
    assert_eq!(c.steps_per_draw, 3);
    assert_eq!(c.window_width, 480);
    assert_eq!(c.window_height, 360);
    assert!(!c.decorations);
}

#[test]
fn reload_keeps_what_was_read_before_a_bad_entry() {
    let mut ini = Ini::new();
    ini.read(String::from("[default]\nsleep_ms_per_frame = 10\nwindow_width = wide\n")).unwrap();
    let mut c = Config::from_settings(Some(1), Some(2), Some(3), Some(4), Some(false));
    assert!(c.reload(&ini).is_err());
    assert_eq!(c.sleep_ms_per_frame, 10);
    assert_eq!(c.steps_per_draw, 1);
    assert_eq!(c.window_width, 3);
    assert_eq!(c.window_height, 4);
    assert!(!c.decorations);
}

#[test]
fn apply_read_stops_at_the_first_error() {
    let mut c = Config::default();
    let r = c.apply_read(
        Ok(Some(5)),
        Ok(None),
        Ok(Some(640)),
        Err(String::from("bad height")),
        Ok(Some(false)),
    );
    assert_eq!(r, Err(String::from("bad height")));
    assert_eq!(c.sleep_ms_per_frame, 5);
    assert_eq!(c.steps_per_draw, 1);
    assert_eq!(c.window_width, 640);
    assert_eq!(c.window_height, 360);
    assert!(c.decorations);

    let mut c = Config::default();
    let r = c.apply_read(Err(String::from("bad sleep")), Ok(Some(9)), Ok(None), Ok(None), Ok(None));
    assert_eq!(r, Err(String::from("bad sleep")));
    assert_eq!(c, Config::default());
}

#[test]
fn apply_read_stores_everything_when_all_parse() {
    let mut c = Config::from_settings(Some(1), Some(2), Some(3), Some(4), Some(false));
    let r = c.apply_read(Ok(Some(u64::MAX)), Ok(Some(7)), Ok(None), Ok(Some(200)), Ok(None));
    assert_eq!(r, Ok(()));
    assert_eq!(c, Config::from_settings(None, Some(7), None, Some(200), None));
    assert_eq!(c.sleep_ms_per_frame, 60);
    assert_eq!(c.window_width, 480);
    assert!(c.decorations);
}

#[test]
fn random_steps_go_in_several_directions() {
    let mut seen = Vec::new();
    for seed in 0..40 {
        let mut m = seeded(3, 3, seed);
        m.walker.path = vec![pos(1, 1)];
        m.visited_cells = vec![pos(1, 1)];
        m.step();
        let next = m.walker.path[1];
        assert_eq!((next.x - 1).abs() + (next.y - 1).abs(), 1);
        if !seen.contains(&next) {
            seen.push(next);
        }
    }
    assert_eq!(seen.len(), 4);
}
