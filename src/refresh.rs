use vstd::prelude::*;
use crate::canvas::{Image, Color};
use crate::decimal::Decimal;
use crate::plot::{make_plot, rendered};
use crate::table::{LoadError, csv_records, table_of, all_numeric, width_of};

verus! {

/// Time between two reloads of the source, in microseconds.
pub const REFRESH_INTERVAL_US: u64 = 1_000_000;

/// Whether a reload is due at `now_us` after one at `last_us`: more than the
/// refresh interval has passed.
pub open spec fn refresh_due(last_us: u64, now_us: u64) -> bool {
    now_us > last_us + REFRESH_INTERVAL_US
}

/// The state that persists between frames: the canvas and when it was last
/// redrawn from the source.
pub struct PlotState {
    pub canvas: Image,
    pub last_refresh_us: u64,
}

impl PlotState {
    pub open spec fn wf(&self) -> bool {
        self.canvas.wf()
    }

    /// A black `width` by `height` canvas, last refreshed at `now_us`.
    pub fn new(width: usize, height: usize, now_us: u64) -> (s: PlotState)
        requires
            width * height <= usize::MAX,
        ensures
            s.wf(),
            s.canvas.width == width,
            s.canvas.height == height,
            s.canvas@ == Seq::new((width * height) as nat, |i: int| Color { r: 0, g: 0, b: 0 }),
            s.last_refresh_us == now_us,
    {
        PlotState { canvas: Image::new(width, height, Color::black()), last_refresh_us: now_us }
    }

    /// Whether the source should be reloaded at `now_us`.
    pub fn due(&self, now_us: u64) -> (r: bool)
        ensures
            r == refresh_due(self.last_refresh_us, now_us),
    {
        now_us > self.last_refresh_us && now_us - self.last_refresh_us > REFRESH_INTERVAL_US
    }

    /// Redraws the canvas from a freshly read source text and records
    /// `now_us` as the time of the refresh; on failure nothing changes.
    pub fn refresh(&mut self, text: &[u8], x_scale: Decimal, y_scale: Decimal, now_us: u64) -> (r:
        Result<(), LoadError>)
        requires
            old(self).wf(),
            x_scale.wf(),
            y_scale.wf(),
        ensures
            final(self).wf(),
            final(self).canvas.width == old(self).canvas.width,
            final(self).canvas.height == old(self).canvas.height,
            csv_records(text@) is None ==> r == Err::<(), LoadError>(LoadError::Malformed),
            csv_records(text@) matches Some(rows) ==> (r is Ok <==> all_numeric(
                rows,
                width_of(rows),
            )),
            csv_records(text@) matches Some(rows) ==> r is Ok ==> final(self).canvas@ == rendered(
                old(self).canvas@,
                old(self).canvas.width as int,
                old(self).canvas.height as int,
                table_of(rows),
                x_scale,
                y_scale,
            ),
            r is Ok ==> final(self).last_refresh_us == now_us,
            r is Err ==> final(self).canvas@ == old(self).canvas@ && final(self).last_refresh_us
                == old(self).last_refresh_us,
    {
        let r = make_plot(&mut self.canvas, text, x_scale, y_scale);
        if r.is_ok() {
            self.last_refresh_us = now_us;
        }
        r
    }
}

/// The path of the source text: the first argument after the program
/// name, or `data.csv` where there is none.
pub fn filename_from_args(args: &Vec<String>) -> (r: String)
    ensures
        args@.len() > 1 ==> r@ == args@[1]@,
        args@.len() <= 1 ==> r@ == "data.csv"@,
{
    if args.len() > 1 {
        args[1].clone()
    } else {
        "data.csv".to_owned()
    }
}

} // verus!
