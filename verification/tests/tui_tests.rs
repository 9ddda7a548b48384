use ratatui::style::{Color as TermColor, Style};
use tcov::cli::Color;
use tcov::tui::{
    coverage_style, generate_and_format_dynamic_label, generate_and_format_label, style_or_error,
    App, ColorError, CovView, Flow, KeyPress,
};

fn view(len: usize, width: u16, label_start: u32) -> CovView {
    CovView::new((0..len as u64).collect(), "legend".to_string(), width, label_start)
}

fn window(v: &CovView) -> (u32, u32, u32) {
    (v.view_start, v.view_end, v.label_start)
}

#[test]
fn new_view_starts_at_the_left() {
    assert_eq!(window(&view(782, 80, 2078887)), (0, 80, 2078887));
    assert_eq!(window(&view(50, 80, 7)), (0, 50, 7));
    assert_eq!(window(&view(80, 80, 7)), (0, 80, 7));
    assert_eq!(window(&view(0, 80, 7)), (0, 0, 7));
}

#[test]
fn moving_right_inside_the_data() {
    let mut v = view(782, 80, 2078887);
    v.move_view(10, 80);
    assert_eq!(window(&v), (10, 90, 2078897));
    v.move_view(25, 80);
    assert_eq!(window(&v), (35, 115, 2078922));
}

#[test]
fn moving_right_with_a_narrower_screen() {
    let mut v = view(782, 80, 1000);
    v.move_view(10, 60);
    assert_eq!(window(&v), (30, 90, 1030));
}

#[test]
fn moving_right_past_the_end_stops_at_the_end() {
    let mut v = view(100, 15, 1000);
    v.view_start = 80;
    v.view_end = 95;
    v.label_start = 1080;
    v.move_view(10, 15);
    assert_eq!(window(&v), (75, 100, 1075));
    v.move_view(10, 15);
    assert_eq!(window(&v), (75, 100, 1075));
}

#[test]
fn moving_left() {
    let mut v = view(782, 80, 2078887);
    v.move_view(-10, 80);
    assert_eq!(window(&v), (0, 80, 2078887));
    v.move_view(30, 80);
    assert_eq!(window(&v), (30, 110, 2078917));
    v.move_view(-10, 80);
    assert_eq!(window(&v), (20, 100, 2078907));
    v.move_view(-25, 80);
    assert_eq!(window(&v), (0, 80, 2078887));
}

#[test]
fn moving_left_near_the_end_shows_what_is_left() {
    let mut v = view(100, 80, 0);
    v.view_start = 60;
    v.view_end = 100;
    v.label_start = 60;
    v.move_view(-10, 80);
    assert_eq!(window(&v), (50, 100, 50));
}

#[test]
fn moving_by_zero_changes_nothing() {
    let mut v = view(782, 80, 5);
    v.move_view(0, 80);
    assert_eq!(window(&v), (0, 80, 5));
}

#[test]
fn moving_by_the_largest_steps() {
    let mut v = view(782, 80, 5);
    v.move_view(i32::MAX, 80);
    assert_eq!(window(&v), (0, 782, 5));
    v.view_start = 700;
    v.label_start = 705;
    v.move_view(i32::MIN, 80);
    assert_eq!(window(&v), (0, 80, 5));
}

#[test]
fn keys() {
    let mut v = view(782, 80, 100);
    assert_eq!(v.on_key(KeyPress::Right, 10, 80), Flow::Continue);
    assert_eq!(window(&v), (10, 90, 110));
    assert_eq!(v.on_key(KeyPress::Right, 255, 80), Flow::Continue);
    assert_eq!(window(&v), (265, 345, 365));
    assert_eq!(v.on_key(KeyPress::Left, 5, 80), Flow::Continue);
    assert_eq!(window(&v), (260, 340, 360));
    assert_eq!(v.on_key(KeyPress::Other, 5, 80), Flow::Continue);
    assert_eq!(v.on_key(KeyPress::Char('x'), 5, 80), Flow::Continue);
    assert_eq!(v.on_key(KeyPress::Char('Q'), 5, 80), Flow::Continue);
    assert_eq!(window(&v), (260, 340, 360));
    assert_eq!(v.on_key(KeyPress::Char('q'), 5, 80), Flow::Quit);
    assert_eq!(window(&v), (260, 340, 360));
}

#[test]
fn largest_depth_on_screen() {
    let mut v = CovView::new(vec![3, 9, 2, 7, 7, 1], "l".to_string(), 3, 0);
    assert_eq!(v.current_max(), 9);
    v.view_start = 2;
    v.view_end = 6;
    assert_eq!(v.current_max(), 7);
    v.view_start = 5;
    assert_eq!(v.current_max(), 1);
    v.view_start = 6;
    assert_eq!(v.current_max(), 0);
    let empty = CovView::new(vec![], "l".to_string(), 3, 0);
    assert_eq!(empty.current_max(), 0);
}

#[test]
fn legend_names_the_largest_depth() {
    let v = CovView::new(vec![3, 19, 2], "test.bam 2:1-4".to_string(), 80, 0);
    assert_eq!(v.legend_with_max(), "test.bam 2:1-4 (current max: 19)");
    let empty = CovView::new(vec![], String::new(), 80, 0);
    assert_eq!(empty.legend_with_max(), " (current max: 0)");
}

#[test]
fn dynamic_label() {
    assert_eq!(
        generate_and_format_dynamic_label(2078887, 2078967, 24),
        "002078887      002078967"
    );
    assert_eq!(generate_and_format_dynamic_label(0, 80, 18), "000000000000000080");
    assert_eq!(
        generate_and_format_dynamic_label(999999999, 4294967295, 20),
        "999999999  4294967295"
    );
}

#[test]
fn axis_label_of_a_view() {
    let mut v = view(782, 80, 2078887);
    v.move_view(10, 80);
    assert_eq!(v.axis_label(80, 20), "002078897  002078977");
}

fn app(len: usize, width: u16, label_start: usize) -> App {
    App::new((0..len as u64).collect(), "aaaaa".to_string(), width, label_start)
}

fn app_window(a: &App) -> (usize, usize, usize, usize) {
    (a.view_start, a.view_end, a.label_start, a.label_end)
}

#[test]
fn new_app() {
    assert_eq!(app_window(&app(782, 80, 2078887)), (0, 80, 2078887, 2078967));
    assert_eq!(app_window(&app(50, 80, 100)), (0, 50, 100, 180));
    assert_eq!(app(50, 80, 100).max_width, 80);
}

#[test]
fn app_moves_by_ten() {
    let mut a = app(782, 80, 2078887);
    a.move_view(10);
    assert_eq!(app_window(&a), (10, 90, 2078897, 2078977));
    a.move_view(1);
    assert_eq!(app_window(&a), (20, 100, 2078907, 2078987));
    a.move_view(-10);
    assert_eq!(app_window(&a), (10, 90, 2078897, 2078977));
    a.move_view(-7);
    assert_eq!(app_window(&a), (0, 80, 2078887, 2078967));
    a.move_view(-7);
    assert_eq!(app_window(&a), (0, 80, 2078887, 2078967));
    a.move_view(0);
    assert_eq!(app_window(&a), (0, 80, 2078887, 2078967));
}

#[test]
fn app_at_the_right_end() {
    let mut a = app(100, 15, 1000);
    a.view_start = 80;
    a.view_end = 95;
    a.label_start = 1080;
    a.label_end = 1095;
    a.move_view(10);
    assert_eq!(app_window(&a), (75, 100, 1075, 1100));
}

#[test]
fn app_with_less_data_than_width_sets_the_right_label_on_a_key() {
    let mut a = app(50, 80, 100);
    a.move_view(10);
    assert_eq!(app_window(&a), (0, 50, 100, 150));
}

#[test]
fn movable_tells_when_a_move_would_start_left_of_the_data() {
    let v = view(782, 80, 100);
    assert!(v.is_movable(10, 80));
    assert!(v.is_movable(10, 90));
    assert!(!v.is_movable(10, 91));
    assert!(v.is_movable(-10, 200));
    assert!(v.is_movable(0, 200));
    assert!(v.is_movable(i32::MAX, 200));
    let mut broken = view(782, 80, 100);
    broken.view_end = 783;
    assert!(!broken.is_movable(0, 80));
    let far = view(782, 80, u32::MAX - 781);
    assert!(!far.is_movable(0, 80));
    let near = view(782, 80, u32::MAX - 782);
    assert!(near.is_movable(0, 80));
}

#[test]
fn app_movable() {
    let a = app(782, 80, 100);
    assert!(a.is_movable(1));
    assert!(a.is_movable(-1));
    let mut wide = app(782, 80, 100);
    wide.max_width = 91;
    assert!(!wide.is_movable(1));
    assert!(wide.is_movable(-1));
    wide.max_width = 90;
    assert!(wide.is_movable(1));
}

#[test]
fn app_axis_label() {
    let a = app(782, 80, 2078887);
    assert!(a.label_fits(18));
    assert!(!a.label_fits(17));
    assert_eq!(a.axis_label(18), "002078887002078967");
    assert_eq!(a.axis_label(24), "002078887      002078967");
    let big = app(10, 80, 9_999_999_990);
    assert!(!big.label_fits(20));
    assert!(big.label_fits(21));
    assert_eq!(big.axis_label(23), "9999999990  10000000070");
}

#[test]
fn vertical_label() {
    // ticks 2078687, 2078818, ..., 2079866 at step 131
    let text = generate_and_format_label(2078687, 2079869, 48);
    let lines: Vec<String> = text.split('\n').map(|s| s.to_string()).collect();
    assert_eq!(lines.len(), 3);
    assert_eq!(lines[0], "002  002  002  002  002  002  002  002  002  002");
    assert_eq!(lines[1], "078  078  078  079  079  079  079  079  079  079");
    assert_eq!(lines[2], "687  818  949  080  211  342  473  604  735  866");
}

#[test]
fn vertical_label_without_gaps_and_with_negative_ticks() {
    let text = generate_and_format_label(-20, 75, 38);
    assert_eq!(
        text,
        "-00-00000000000000000000000000\n000000000000000000000000000000\n020010000010020030040050060070"
    );
    let down = generate_and_format_label(100, 0, 30);
    let lines: Vec<String> = down.split('\n').map(|s| s.to_string()).collect();
    assert_eq!(lines[2], "100089078067056045034023012001");
}

#[test]
fn app_keys() {
    let mut a = app(782, 80, 100);
    assert_eq!(a.on_key(KeyPress::Right), Flow::Continue);
    assert_eq!(app_window(&a), (10, 90, 110, 190));
    assert_eq!(a.on_key(KeyPress::Left), Flow::Continue);
    assert_eq!(app_window(&a), (0, 80, 100, 180));
    assert_eq!(a.on_key(KeyPress::Other), Flow::Continue);
    assert_eq!(a.on_key(KeyPress::Char('a')), Flow::Continue);
    assert_eq!(app_window(&a), (0, 80, 100, 180));
    assert_eq!(a.on_key(KeyPress::Char('q')), Flow::Quit);
    assert_eq!(app_window(&a), (0, 80, 100, 180));
}

#[test]
fn coverage_style_draws_in_the_named_color() {
    let all = [
        (Color::black, TermColor::Black),
        (Color::red, TermColor::Red),
        (Color::green, TermColor::Green),
        (Color::yellow, TermColor::Yellow),
        (Color::blue, TermColor::Blue),
        (Color::magenta, TermColor::Magenta),
        (Color::cyan, TermColor::Cyan),
        (Color::gray, TermColor::Gray),
        (Color::darkgray, TermColor::DarkGray),
        (Color::lightred, TermColor::LightRed),
        (Color::lightgreen, TermColor::LightGreen),
        (Color::lightyellow, TermColor::LightYellow),
        (Color::lightblue, TermColor::LightBlue),
        (Color::lightmagenta, TermColor::LightMagenta),
        (Color::lightcyan, TermColor::LightCyan),
        (Color::white, TermColor::White),
    ];
    for (color, terminal) in all {
        assert_eq!(coverage_style(color), Ok(Style::default().fg(terminal)));
    }
}

#[test]
fn style_or_error_keeps_the_style_and_names_the_fault() {
    let style = Style::default().fg(TermColor::Rgb(1, 2, 3));
    assert_eq!(style_or_error(Ok(style)), Ok(style));
    assert_eq!(
        style_or_error("no such color".parse::<TermColor>().map(|c| Style::default().fg(c))),
        Err(ColorError::UnknownName)
    );
}
