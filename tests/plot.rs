use pixel_plot::canvas::{Image, Color};
use pixel_plot::decimal::Decimal;
use pixel_plot::plot::{color_of_series, make_plot, render};
use pixel_plot::refresh::{filename_from_args, PlotState};
use pixel_plot::table::{LoadError, LoadedTable};

fn ints(v: &[i64]) -> Vec<Decimal> {
    v.iter().map(|x| Decimal::new(*x, 0)).collect()
}

#[test]
fn series_colors_wrap_modulo_256() {
    assert_eq!(color_of_series(0), Color::rgb(0, 255, 50));
    assert_eq!(color_of_series(1), Color::rgb(30, 235, 60));
    assert_eq!(color_of_series(13), Color::rgb(134, 251, 180));
    assert_eq!(color_of_series(256), Color::rgb(0, 255, 50));
}

#[test]
fn two_series_end_to_end() {
    let table = LoadedTable { columns: vec![ints(&[0, 1, 2, 3, 4]), ints(&[4, 3, 2, 1, 0])], skipped: 0 };
    let mut c = Image::new(1000, 600, Color::black());
    render(&mut c, &table, Decimal::new(10, 0), Decimal::new(50, 0));
    let gray = Color::gray();
    for j in 0..5usize {
        let x0 = 60 + 10 * j;
        let x1 = 560 + 10 * j;
        assert_eq!(c.get_pixel(x0, 480), Some(gray));
        assert_eq!(c.get_pixel(x1, 480), Some(gray));
        if j > 0 {
            assert_eq!(c.get_pixel(x0, 480 - 50 * j), Some(Color::rgb(0, 255, 50)));
        }
        if j < 4 {
            assert_eq!(c.get_pixel(x1, 480 - 50 * (4 - j)), Some(Color::rgb(30, 235, 60)));
        }
    }
    let lit = c.pixels.iter().filter(|p| **p != Color::black()).count();
    assert_eq!(lit, 18);
}

#[test]
fn render_fades_previous_frame() {
    let table = LoadedTable { columns: vec![], skipped: 0 };
    let mut c = Image::new(3, 3, Color::rgb(255, 100, 20));
    render(&mut c, &table, Decimal::new(1, 0), Decimal::new(1, 0));
    assert!(c.pixels.iter().all(|p| *p == Color::rgb(242, 95, 19)));
}

#[test]
fn render_drops_points_off_canvas() {
    let table = LoadedTable { columns: vec![ints(&[-200, 1000])], skipped: 0 };
    let mut c = Image::new(100, 200, Color::black());
    render(&mut c, &table, Decimal::new(1, 0), Decimal::new(1, 0));
    assert_eq!(c.get_pixel(60, 80), Some(Color::gray()));
    assert_eq!(c.get_pixel(61, 80), Some(Color::gray()));
    let lit = c.pixels.iter().filter(|p| **p != Color::black()).count();
    assert_eq!(lit, 2);
}

#[test]
fn render_truncates_fractional_coordinates() {
    let table = LoadedTable { columns: vec![vec![Decimal::new(15, 1)]], skipped: 0 };
    let mut c = Image::new(100, 200, Color::black());
    render(&mut c, &table, Decimal::new(5, 1), Decimal::new(5, 1));
    // y = 200 - (1.5 * 0.5 + 120) = 79.25
    assert_eq!(c.get_pixel(60, 79), Some(Color::rgb(0, 255, 50)));
}

#[test]
fn make_plot_draws_loaded_text() {
    let mut c = Image::new(1000, 600, Color::black());
    make_plot(&mut c, b"a\n0\n2\n", Decimal::new(10, 0), Decimal::new(50, 0)).unwrap();
    assert_eq!(c.get_pixel(60, 480), Some(Color::gray()));
    assert_eq!(c.get_pixel(70, 380), Some(Color::rgb(0, 255, 50)));
}

#[test]
fn make_plot_failure_leaves_canvas() {
    let mut c = Image::new(10, 10, Color::rgb(200, 200, 200));
    let r = make_plot(&mut c, b"a\nnope\n", Decimal::new(1, 0), Decimal::new(1, 0));
    assert_eq!(r, Err(LoadError::NotANumber));
    assert!(c.pixels.iter().all(|p| *p == Color::rgb(200, 200, 200)));
}

#[test]
fn refresh_due_after_interval() {
    let s = PlotState::new(10, 10, 5);
    assert!(!s.due(5));
    assert!(!s.due(1_000_005));
    assert!(s.due(1_000_006));
    assert!(!s.due(0));
}

#[test]
fn refresh_records_time_only_on_success() {
    let mut s = PlotState::new(1000, 600, 0);
    assert!(s.refresh(b"a\n1\n", Decimal::new(10, 0), Decimal::new(50, 0), 2_000_000).is_ok());
    assert_eq!(s.last_refresh_us, 2_000_000);
    assert_eq!(s.canvas.get_pixel(60, 430), Some(Color::rgb(0, 255, 50)));
    assert!(s.refresh(b"a\nx\n", Decimal::new(10, 0), Decimal::new(50, 0), 4_000_000).is_err());
    assert_eq!(s.last_refresh_us, 2_000_000);
}

#[test]
fn filename_defaults_without_argument() {
    assert_eq!(filename_from_args(&vec!["prog".to_string()]), "data.csv");
    assert_eq!(filename_from_args(&vec![]), "data.csv");
    assert_eq!(filename_from_args(&vec!["prog".to_string(), "live.csv".to_string()]), "live.csv");
}
