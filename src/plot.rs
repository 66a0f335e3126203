use vstd::prelude::*;
use vstd::utf8::encode_utf8;
use crate::response::push_all;

verus! {

/// The gnuplot settings that open every plot script; the output file follows.
pub const PLOT_SETTINGS: &'static str = "set timefmt \"%s\";
set format x \"%Y/%m/%d %H:%M:%S\";
set xdata time;
set xtics rotate;
set terminal svg;
set xlabel 'Time';
set key off;
set datafile separator \",\";
set autoscale;
set offsets 0.0, 0.0, 0.01, 0.01;
set grid;
set output '";

pub const AFTER_OUTPUT: &'static str = "';
set title '";

pub const AFTER_TITLE: &'static str = " over time';
set ylabel '";

pub const AFTER_YLABEL: &'static str = "';
plot '";

pub const AFTER_DATA: &'static str = "' using 1:2 with lines notitle;";

/// The gnuplot script that draws the series `series_name` from its log
/// `data_file` into the SVG file `image_file`, in UTF-8.
pub open spec fn plot_script(image_file: Seq<char>, series_name: Seq<char>, data_file: Seq<char>) -> Seq<u8> {
    encode_utf8(PLOT_SETTINGS@) + encode_utf8(image_file) + encode_utf8(AFTER_OUTPUT@) + encode_utf8(
        series_name,
    ) + encode_utf8(AFTER_TITLE@) + encode_utf8(series_name) + encode_utf8(AFTER_YLABEL@)
        + encode_utf8(data_file) + encode_utf8(AFTER_DATA@)
}

/// Builds the script handed to gnuplot after a point is persisted.
pub fn plot_command(image_file: &String, series_name: &String, data_file: &String) -> (r: Vec<u8>)
    ensures
        r@ == plot_script(image_file@, series_name@, data_file@),
{
    let mut out: Vec<u8> = Vec::new();
    push_all(&mut out, PLOT_SETTINGS.as_bytes());
    push_all(&mut out, image_file.as_str().as_bytes());
    push_all(&mut out, AFTER_OUTPUT.as_bytes());
    push_all(&mut out, series_name.as_str().as_bytes());
    push_all(&mut out, AFTER_TITLE.as_bytes());
    push_all(&mut out, series_name.as_str().as_bytes());
    push_all(&mut out, AFTER_YLABEL.as_bytes());
    push_all(&mut out, data_file.as_str().as_bytes());
    push_all(&mut out, AFTER_DATA.as_bytes());
    assert(out@ =~= plot_script(image_file@, series_name@, data_file@));
    out
}

} // verus!
