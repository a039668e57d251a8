//! Options of the SVG template rasterizer and the recoloring of icon markup.
use vstd::prelude::*;

use crate::templates::{chars_eq_ignore_case, chars_of, eq_ignore_ascii_case};
use crate::text::{replace_all, replace_all_str, string_views};
use crate::types::{max_int, min_int};

verus! {

/// The ink color of rasterized icon templates.
#[derive(Debug, Clone, Copy, PartialEq, Eq, Structural)]
pub enum IconRasterColor {
    Black,
    White,
}

/// Where SVG templates are read and PNGs written, the PNG side, the ink color, the
/// number of workers, and whether existing PNGs are kept.
#[derive(Debug, Clone)]
pub struct RasterizeSvgOptions {
    pub svg_dir: String,
    pub out_dir: String,
    pub size: u32,
    pub color: IconRasterColor,
    pub jobs: Option<usize>,
    pub skip_existing: bool,
}

pub const PATH_OPEN: &'static str = "<path ";

pub const WHITE_PATH_OPEN: &'static str = "<path fill=\"#FFFFFF\" ";

/// The markup to render: unchanged for black ink; for white ink every `<path `
/// gets a white fill.
pub open spec fn spec_tint_svg(svg: Seq<char>, color: IconRasterColor) -> Seq<char> {
    match color {
        IconRasterColor::Black => svg,
        IconRasterColor::White => replace_all(svg, PATH_OPEN@, WHITE_PATH_OPEN@),
    }
}

/// Recolors SVG markup for the chosen ink.
pub fn tint_svg(svg: &str, color: IconRasterColor) -> (r: String)
    ensures
        r@ == spec_tint_svg(svg@, color),
{
    match color {
        IconRasterColor::Black => String::from_str(svg),
        IconRasterColor::White => {
            proof {
                reveal_strlit("<path ");
            }
            replace_all_str(svg, PATH_OPEN, WHITE_PATH_OPEN)
        },
    }
}

/// A file of the SVG directory: its path, its stem and extension when they are
/// UTF-8, and whether its PNG already exists in the output directory.
#[derive(Debug, Clone)]
pub struct SvgEntry {
    pub path: String,
    pub stem: Option<String>,
    pub extension: Option<String>,
    pub png_exists: bool,
}

/// An entry is rasterized when its extension is `svg` in any ASCII letter case
/// and, when existing PNGs are kept, it has a stem and no PNG yet.
pub open spec fn svg_selected(e: SvgEntry, skip_existing: bool) -> bool {
    &&& e.extension matches Some(x) && eq_ignore_ascii_case(x@, "svg"@)
    &&& skip_existing ==> e.stem is Some && !e.png_exists
}

/// The paths of the selected entries, in the order given.
pub open spec fn selected_paths(entries: Seq<SvgEntry>, skip_existing: bool, n: int) -> Seq<Seq<char>>
    decreases n,
{
    if n <= 0 {
        Seq::empty()
    } else {
        let rest = selected_paths(entries, skip_existing, n - 1);
        if svg_selected(entries[n - 1], skip_existing) {
            rest.push(entries[n - 1].path@)
        } else {
            rest
        }
    }
}

fn is_svg_extension(ext: &str) -> (r: bool)
    ensures
        r == eq_ignore_ascii_case(ext@, "svg"@),
{
    let svg = "svg";
    proof {
        reveal_strlit("svg");
    }
    chars_eq_ignore_case(&chars_of(ext), &chars_of(svg))
}

/// The SVG files to rasterize (see `svg_selected`), in the order given.
pub fn select_svg_files(entries: &Vec<SvgEntry>, skip_existing: bool) -> (r: Vec<String>)
    ensures
        string_views(r@) == selected_paths(entries@, skip_existing, entries@.len() as int),
{
    let mut r: Vec<String> = Vec::new();
    let mut i: usize = 0;
    while i < entries.len()
        invariant
            i <= entries@.len(),
            string_views(r@) == selected_paths(entries@, skip_existing, i as int),
        decreases entries@.len() - i,
    {
        let e = &entries[i];
        let svg = match &e.extension {
            Some(x) => is_svg_extension(x.as_str()),
            None => false,
        };
        let keep = svg && (!skip_existing || (e.stem.is_some() && !e.png_exists));
        if keep {
            let ghost before = r@;
            r.push(e.path.clone());
            assert(string_views(r@) =~= string_views(before).push(e.path@));
        }
        i = i + 1;
    }
    r
}

/// Worker threads for rasterizing `files` files: the requested count, else the
/// machine's default, at least one, and no more than there are files.
pub fn raster_workers(jobs: Option<usize>, default_jobs: usize, files: usize) -> (n: usize)
    ensures
        n == min_int(
            max_int(
                match jobs {
                    Some(j) => j as int,
                    None => default_jobs as int,
                },
                1,
            ),
            files as int,
        ),
{
    let wanted = match jobs {
        Some(j) => j,
        None => default_jobs,
    };
    let at_least_one = if wanted >= 1 { wanted } else { 1 };
    if at_least_one <= files { at_least_one } else { files }
}

} // verus!
