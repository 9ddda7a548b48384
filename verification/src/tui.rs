//! The rules of the coverage viewer: which part of the data is on screen,
//! what a key does to it, and the texts drawn around it.

use crate::text::{
    decimal, lemma_decimal_len_u64, lemma_signed_padded_nine, push_decimal, push_spaces, signed_padded,
    signed_padded_string, spaces, zero_padded, zero_padded_string,
};
use vstd::prelude::*;
use vstd::string::{StrSliceExecFns, StringExecFns};

verus! {

/// A struct to hold the data and view of the coverage data
pub struct CovView {
    /// Depth at each position of the region.
    pub data: Vec<u64>,
    /// Title of the plot.
    pub legend: String,
    /// Offset of the first position on screen.
    pub view_start: u32,
    /// Offset one past the last position on screen.
    pub view_end: u32,
    /// Reference coordinate of the first position on screen.
    pub label_start: u32,
}

/// Where a move takes the window `[view_start, view_end)` over `data_len`
/// positions. A move to the left takes the start back by the step, to no
/// less than 0, and shows `size` positions from there, or all that are
/// left. A move to the right that stays inside the data takes the end
/// forward by the step and shows the `size` positions before it; one that
/// would leave the data puts the end on the last position and takes the
/// start back by the distance that the end has moved. A move by 0, to the
/// left at the left edge or to the right at the right edge changes nothing.
pub open spec fn moved_window(
    view_start: int,
    view_end: int,
    data_len: int,
    direction: int,
    size: int,
) -> (int, int) {
    let step = if direction < 0 {
        -direction
    } else {
        direction
    };
    if direction < 0 && view_start > 0 {
        let start = if view_start >= step {
            view_start - step
        } else {
            0
        };
        (
            start,
            if start + size <= data_len {
                start + size
            } else {
                data_len
            },
        )
    } else if direction > 0 && view_end < data_len {
        if view_end + step > data_len {
            let rest = data_len - view_end;
            (
                if view_start >= rest {
                    view_start - rest
                } else {
                    0
                },
                data_len,
            )
        } else {
            (view_end + step - size, view_end + step)
        }
    } else {
        (view_start, view_end)
    }
}

/// A key as the terminal reports it.
#[derive(Clone, Copy, Debug, PartialEq, Eq, Structural)]
pub enum KeyPress {
    /// A character key.
    Char(char),
    /// The left arrow.
    Left,
    /// The right arrow.
    Right,
    /// Any other key.
    Other,
}

/// What the viewer does after a key.
#[derive(Clone, Copy, Debug, PartialEq, Eq, Structural)]
pub enum Flow {
    /// Draw again and wait for the next key.
    Continue,
    /// Leave the viewer.
    Quit,
}

/// The largest of `data[from..to]`, or 0 if the range is empty.
pub open spec fn window_max(data: Seq<u64>, from: int, to: int) -> u64
    decreases to - from,
{
    if from >= to {
        0
    } else {
        let rest = window_max(data, from, to - 1);
        if data[to - 1] >= rest {
            data[to - 1]
        } else {
            rest
        }
    }
}

/// `window_max` is an upper bound of the range and, unless the range is
/// empty, one of its values.
pub proof fn lemma_window_max(data: Seq<u64>, from: int, to: int)
    requires
        0 <= from <= to <= data.len(),
    ensures
        forall|i: int| from <= i < to ==> data[i] <= window_max(data, from, to),
        from < to ==> exists|i: int| from <= i < to && data[i] == window_max(data, from, to),
    decreases to - from,
{
    if from < to {
        lemma_window_max(data, from, to - 1);
        if from < to - 1 {
            let k = choose|i: int| from <= i < to - 1 && data[i] == window_max(data, from, to - 1);
            assert(data[k] == window_max(data, from, to - 1));
        }
        assert(data[to - 1] <= window_max(data, from, to));
    }
}

/// `ratatui::style::Style`, carried through as an opaque value.
#[verifier::external_type_specification]
#[verifier::external_body]
pub struct ExStyle(ratatui::style::Style);

/// `ratatui::style::ParseColorError`, carried through as an opaque value.
#[verifier::external_type_specification]
#[verifier::external_body]
pub struct ExParseColorError(ratatui::style::ParseColorError);

/// The style that draws in the color of a given name, as the terminal
/// library reads color names; its error where it knows no such color.
/// Nothing is said of which name gives which color.
pub uninterp spec fn named_style(name: Seq<char>) -> Result<
    ratatui::style::Style,
    ratatui::style::ParseColorError,
>;

/// Reads the name with `ratatui::style::Color::from_str` and sets the color
/// as the foreground of `ratatui::style::Style::default()`. Trusted: what
/// comes back depends on the characters of the name and on nothing else.
#[verifier::external_body]
fn style_of_name(name: &str) -> (out: Result<ratatui::style::Style, ratatui::style::ParseColorError>)
    ensures
        out == named_style(name@),
{
    let color = name.parse::<ratatui::style::Color>()?;
    Ok(ratatui::style::Style::default().fg(color))
}

/// Why a color cannot be drawn.
#[derive(Clone, Copy, Debug, PartialEq, Eq, Structural)]
pub enum ColorError {
    /// The terminal library knows no color of that name.
    UnknownName,
}

/// Keeps the style that the terminal library has made of a name, and puts
/// the library's own error in the place of its error.
pub fn style_or_error(
    parsed: Result<ratatui::style::Style, ratatui::style::ParseColorError>,
) -> (out: Result<ratatui::style::Style, ColorError>)
    ensures
        match parsed {
            Ok(style) => out == Ok::<ratatui::style::Style, ColorError>(style),
            Err(_) => out == Err::<ratatui::style::Style, ColorError>(ColorError::UnknownName),
        },
{
    match parsed {
        Ok(style) => Ok(style),
        Err(_) => Err(ColorError::UnknownName),
    }
}

/// The style of the coverage plot: the terminal's color that goes by the
/// name of `color`.
pub fn coverage_style(color: crate::cli::Color) -> (out: Result<ratatui::style::Style, ColorError>)
    ensures
        match named_style(color.name()) {
            Ok(style) => out == Ok::<ratatui::style::Style, ColorError>(style),
            Err(_) => out == Err::<ratatui::style::Style, ColorError>(ColorError::UnknownName),
        },
{
    let name = color.to_string();
    style_or_error(style_of_name(name.as_str()))
}

/// The axis label: both coordinates with nine digits, the first at the left
/// end of the axis and the second at its right end.
pub open spec fn dynamic_label(label_start: nat, label_end: nat, axis_width: nat) -> Seq<char> {
    zero_padded(label_start, 9) + spaces((axis_width - 18) as nat) + zero_padded(label_end, 9)
}

/// The title of the plot: the legend and the largest depth on screen.
pub open spec fn legend_text(legend: Seq<char>, max: nat) -> Seq<char> {
    legend + " (current max: "@ + decimal(max) + ")"@
}

impl CovView {
    /// The window lies inside the data, and the label is not left of it.
    pub open spec fn wf(&self) -> bool {
        &&& self.view_start <= self.view_end <= self.data.len()
        &&& self.view_start <= self.label_start
    }

    /// Distance between an offset in the data and its reference coordinate.
    pub open spec fn label_offset(&self) -> int {
        self.label_start - self.view_start
    }

    /// Whether the window can take the move: every position of the data has
    /// a coordinate of 32 bits, and the window does not start left of the data.
    pub open spec fn can_move(&self, direction: int, size: int) -> bool {
        &&& self.wf()
        &&& self.data.len() + self.label_offset() <= u32::MAX
        &&& moved_window(
            self.view_start as int,
            self.view_end as int,
            self.data.len() as int,
            direction,
            size,
        ).0 >= 0
    }

    /// Whether `after` is `self` moved: the window is where the move takes
    /// it, the label has gone with it, and the rest is as it was.
    pub open spec fn moved_to(&self, after: &CovView, direction: int, size: int) -> bool {
        &&& after.data == self.data
        &&& after.legend == self.legend
        &&& (after.view_start as int, after.view_end as int) == moved_window(
            self.view_start as int,
            self.view_end as int,
            self.data.len() as int,
            direction,
            size,
        )
        &&& after.label_offset() == self.label_offset()
        &&& after.wf()
    }

    /// Tells whether the window can take the move.
    pub fn is_movable(&self, direction: i32, size: u16) -> (ok: bool)
        ensures
            ok == self.can_move(direction as int, size as int),
    {
        if !(self.view_start <= self.view_end && self.view_end as usize <= self.data.len()
            && self.view_start <= self.label_start) {
            return false;
        }
        let offset = (self.label_start - self.view_start) as u64;
        let data_len = self.data.len();
        if data_len > u32::MAX as usize || data_len as u64 + offset > u32::MAX as u64 {
            return false;
        }
        if direction > 0 && (self.view_end as usize) < data_len {
            let reached = self.view_end as u64 + direction as u64;
            reached > data_len as u64 || reached >= size as u64
        } else {
            true
        }
    }

    /// create new instance
    pub fn new(data: Vec<u64>, legend: String, init_width: u16, label_start: u32) -> (out: Self)
        ensures
            out.wf(),
            out.data == data,
            out.legend == legend,
            out.view_start == 0,
            out.view_end == if data.len() > init_width {
                init_width as int
            } else {
                data.len() as int
            },
            out.label_start == label_start,
    {
        let view_end = if data.len() > init_width as usize {
            init_width as u32
        } else {
            data.len() as u32
        };
        Self { data, legend, view_start: 0, view_end, label_start }
    }

    /// update `view_start`  `view_end` `label_start`
    pub fn move_view(&mut self, direction: i32, curr_view_size: u16)
        requires
            old(self).can_move(direction as int, curr_view_size as int),
        ensures
            old(self).moved_to(final(self), direction as int, curr_view_size as int),
    {
        // diff between label_start and view_start
        let label_view_diff: u32 = self.label_start - self.view_start;
        let curr_view_size = curr_view_size as u64;
        let data_len = self.data.len() as u64;
        // get step size == abs(direction)
        let step_size: u64 = if direction < 0 {
            (-(direction as i64)) as u64
        } else {
            direction as u64
        };
        let view_start = self.view_start as u64;
        let view_end = self.view_end as u64;
        if direction < 0 && view_start > 0 {
            // sub
            let start = if view_start >= step_size {
                view_start - step_size
            } else {
                0
            };
            self.view_start = start as u32;
            // compare with data_len
            self.view_end = if start + curr_view_size <= data_len {
                (start + curr_view_size) as u32
            } else {
                data_len as u32
            };
        } else if direction > 0 && view_end < data_len {
            if view_end + step_size > data_len {
                // check boundary
                // compute the sub
                let sub = data_len - view_end;
                // touch the bottom
                self.view_end = data_len as u32;
                // update view_start
                self.view_start = self.view_start.saturating_sub(sub as u32);
            } else {
                self.view_end = (view_end + step_size) as u32;
                self.view_start = (view_end + step_size - curr_view_size) as u32;
            }
        }
        // update label_start
        self.label_start = self.view_start + label_view_diff;
    }

    /// What a key does: `q` leaves the viewer, the arrows move the window
    /// by `size` positions to their side, any other key does nothing.
    pub fn on_key(&mut self, key: KeyPress, size: u8, curr_width: u16) -> (flow: Flow)
        requires
            key == KeyPress::Left ==> old(self).can_move(-(size as int), curr_width as int),
            key == KeyPress::Right ==> old(self).can_move(size as int, curr_width as int),
        ensures
            flow == if key == KeyPress::Char('q') {
                Flow::Quit
            } else {
                Flow::Continue
            },
            match key {
                KeyPress::Left => old(self).moved_to(
                    final(self),
                    -(size as int),
                    curr_width as int,
                ),
                KeyPress::Right => old(self).moved_to(final(self), size as int, curr_width as int),
                _ => *final(self) == *old(self),
            },
    {
        match key {
            KeyPress::Char('q') => {
                return Flow::Quit;
            },
            KeyPress::Left => {
                // move view to left
                let dir_step = -(size as i32);
                self.move_view(dir_step, curr_width)
            },
            KeyPress::Right => {
                // move view to right
                let dir_step = size as i32;
                self.move_view(dir_step, curr_width)
            },
            _ => {},
        }
        Flow::Continue
    }

    /// The largest depth on screen, or 0 if nothing is.
    pub fn current_max(&self) -> (max: u64)
        requires
            self.wf(),
        ensures
            max == window_max(self.data@, self.view_start as int, self.view_end as int),
    {
        let mut max: u64 = 0;
        let mut i: usize = self.view_start as usize;
        let end: usize = self.view_end as usize;
        while i < end
            invariant
                self.view_start <= i <= end,
                end == self.view_end,
                end <= self.data.len(),
                max == window_max(self.data@, self.view_start as int, i as int),
            decreases end - i,
        {
            if self.data[i] >= max {
                max = self.data[i];
            }
            i = i + 1;
        }
        max
    }

    /// The title of the plot, with the largest depth on screen.
    pub fn legend_with_max(&self) -> (text: String)
        requires
            self.wf(),
        ensures
            text@ == legend_text(
                self.legend@,
                window_max(self.data@, self.view_start as int, self.view_end as int) as nat,
            ),
    {
        let curr_max = self.current_max();
        let mut text = self.legend.clone();
        text.append(" (current max: ");
        push_decimal(&mut text, curr_max);
        text.append(")");
        assert(text@ =~= legend_text(self.legend@, curr_max as nat));
        text
    }

    /// The axis label under a plot that is `width` columns wide, on an axis
    /// of `axis_width` columns.
    pub fn axis_label(&self, width: u16, axis_width: u16) -> (text: String)
        requires
            self.label_start + width <= u32::MAX,
            axis_width >= 18,
        ensures
            text@ == dynamic_label(
                self.label_start as nat,
                (self.label_start + width) as nat,
                axis_width as nat,
            ),
    {
        let label_end = self.label_start + width as u32;
        generate_and_format_dynamic_label(self.label_start, label_end, axis_width)
    }
}

/// generate dynamic label
pub fn generate_and_format_dynamic_label(label_start: u32, label_end: u32, axis_width: u16) -> (text:
    String)
    requires
        axis_width >= 18,
    ensures
        text@ == dynamic_label(label_start as nat, label_end as nat, axis_width as nat),
{
    let mut text = zero_padded_string(label_start as u64, 9);
    // compute the space between start and end
    push_spaces(&mut text, (axis_width - 18) as usize);
    let end_label = zero_padded_string(label_end as u64, 9);
    text.append(end_label.as_str());
    assert(text@ =~= dynamic_label(label_start as nat, label_end as nat, axis_width as nat));
    text
}

/// The viewer with a step of ten positions and a width fixed at the start.
pub struct App {
    /// Depth at each position of the region.
    pub data: Vec<u64>,
    /// Title of the plot.
    pub legend: String,
    /// Offset of the first position on screen.
    pub view_start: usize,
    /// Offset one past the last position on screen.
    pub view_end: usize,
    /// Reference coordinate of the first position on screen.
    pub label_start: usize,
    /// Reference coordinate one past the last position on screen.
    pub label_end: usize,
    /// Most positions that fit the screen.
    pub max_width: u16,
}

/// The move that a direction asks of `App`: ten positions to its side.
pub open spec fn fixed_step(direction: int) -> int {
    if direction < 0 {
        -10
    } else if direction > 0 {
        10
    } else {
        0
    }
}

impl App {
    /// The window lies inside the data, and the label is not left of it.
    pub open spec fn wf(&self) -> bool {
        &&& self.view_start <= self.view_end <= self.data.len()
        &&& self.view_start <= self.label_start
    }

    /// Distance between an offset in the data and its reference coordinate.
    pub open spec fn label_offset(&self) -> int {
        self.label_start - self.view_start
    }

    /// Whether the window can take the move: every position of the data has
    /// a coordinate that the machine can hold, and the window does not start
    /// left of the data.
    pub open spec fn can_move(&self, direction: int) -> bool {
        &&& self.wf()
        &&& self.data.len() + self.label_offset() <= usize::MAX
        &&& moved_window(
            self.view_start as int,
            self.view_end as int,
            self.data.len() as int,
            fixed_step(direction),
            self.max_width as int,
        ).0 >= 0
    }

    /// Tells whether the window can take the move.
    pub fn is_movable(&self, direction: i32) -> (ok: bool)
        ensures
            ok == self.can_move(direction as int),
    {
        if !(self.view_start <= self.view_end && self.view_end <= self.data.len()
            && self.view_start <= self.label_start) {
            return false;
        }
        let offset = self.label_start - self.view_start;
        let data_len = self.data.len();
        if offset > usize::MAX - data_len {
            return false;
        }
        if direction > 0 && self.view_end < data_len {
            10 > data_len - self.view_end || self.view_end + 10 >= self.max_width as usize
        } else {
            true
        }
    }

    /// Starts at the left end of the data, with as many positions on screen
    /// as the width allows.
    pub fn new(data: Vec<u64>, legend: String, width: u16, label_start: usize) -> (out: Self)
        requires
            label_start + width <= usize::MAX,
        ensures
            out.data == data,
            out.legend == legend,
            out.view_start == 0,
            out.view_end == if data.len() > width {
                width as int
            } else {
                data.len() as int
            },
            out.label_start == label_start,
            out.label_end == label_start + width,
            out.max_width == width,
            out.wf(),
    {
        let view_end = if data.len() > width as usize {
            width as usize
        } else {
            data.len()
        };
        let label_end = label_start + width as usize;
        Self { data, legend, view_start: 0, view_end, label_start, label_end, max_width: width }
    }

    /// Moves the window by ten positions to the side of `direction`, and
    /// sets the labels to its ends.
    pub fn move_view(&mut self, direction: i32)
        requires
            old(self).can_move(direction as int),
        ensures
            final(self).data == old(self).data,
            final(self).legend == old(self).legend,
            final(self).max_width == old(self).max_width,
            (final(self).view_start as int, final(self).view_end as int) == moved_window(
                old(self).view_start as int,
                old(self).view_end as int,
                old(self).data.len() as int,
                fixed_step(direction as int),
                old(self).max_width as int,
            ),
            final(self).label_offset() == old(self).label_offset(),
            final(self).label_end == final(self).view_end + old(self).label_offset(),
            final(self).wf(),
    {
        let label_view_diff: usize = self.label_start - self.view_start;
        let max_view_size = self.max_width as usize;
        let data_len = self.data.len();
        if direction < 0 && self.view_start > 0 {
            self.view_start = self.view_start.saturating_sub(10);
            self.view_end = if max_view_size <= data_len - self.view_start {
                self.view_start + max_view_size
            } else {
                data_len
            };
        } else if direction > 0 && self.view_end < data_len {
            if 10 > data_len - self.view_end {
                let sub = data_len - self.view_end;
                self.view_end = data_len;
                self.view_start = self.view_start.saturating_sub(sub);
            } else {
                self.view_end += 10;
                self.view_start = self.view_end - max_view_size;
            }
        }
        self.label_start = self.view_start + label_view_diff;
        self.label_end = self.view_end + label_view_diff;
    }
}

/// The axis label with each coordinate in nine digits or as many as it
/// has, and spaces between them up to the width of the axis.
pub open spec fn spaced_label(label_start: nat, label_end: nat, axis_width: nat) -> Seq<char> {
    zero_padded(label_start, 9) + spaces(
        (axis_width - zero_padded(label_start, 9).len() - zero_padded(label_end, 9).len()) as nat,
    ) + zero_padded(label_end, 9)
}

impl App {
    /// What a key does: `q` leaves the viewer, the arrows move the window
    /// by ten positions to their side, any other key does nothing.
    pub fn on_key(&mut self, key: KeyPress) -> (flow: Flow)
        requires
            key == KeyPress::Left ==> old(self).can_move(-10),
            key == KeyPress::Right ==> old(self).can_move(10),
        ensures
            flow == if key == KeyPress::Char('q') {
                Flow::Quit
            } else {
                Flow::Continue
            },
            final(self).data == old(self).data,
            final(self).legend == old(self).legend,
            final(self).max_width == old(self).max_width,
            key != KeyPress::Left && key != KeyPress::Right ==> *final(self) == *old(self),
            key == KeyPress::Left || key == KeyPress::Right ==> {
                &&& (final(self).view_start as int, final(self).view_end as int) == moved_window(
                    old(self).view_start as int,
                    old(self).view_end as int,
                    old(self).data.len() as int,
                    if key == KeyPress::Left {
                        -10
                    } else {
                        10
                    },
                    old(self).max_width as int,
                )
                &&& final(self).label_offset() == old(self).label_offset()
                &&& final(self).label_end == final(self).view_end + old(self).label_offset()
                &&& final(self).wf()
            },
    {
        match key {
            KeyPress::Char('q') => {
                return Flow::Quit;
            },
            KeyPress::Left => self.move_view(-10),
            KeyPress::Right => self.move_view(10),
            _ => {},
        }
        Flow::Continue
    }

    /// The axis label under the plot, on an axis of `axis_width` columns.
    pub fn axis_label(&self, axis_width: usize) -> (text: String)
        requires
            axis_width >= zero_padded(self.label_start as nat, 9).len() + zero_padded(
                self.label_end as nat,
                9,
            ).len(),
        ensures
            text@ == spaced_label(
                self.label_start as nat,
                self.label_end as nat,
                axis_width as nat,
            ),
    {
        let mut text = zero_padded_string(self.label_start as u64, 9);
        let end_label = zero_padded_string(self.label_end as u64, 9);
        // compute the space between start and end
        let used = text.as_str().unicode_len() + end_label.as_str().unicode_len();
        push_spaces(&mut text, axis_width - used);
        text.append(end_label.as_str());
        assert(text@ =~= spaced_label(
            self.label_start as nat,
            self.label_end as nat,
            axis_width as nat,
        ));
        text
    }

    /// Whether an axis of `axis_width` columns has room for the label.
    pub fn label_fits(&self, axis_width: usize) -> (fits: bool)
        ensures
            fits == (axis_width >= zero_padded(self.label_start as nat, 9).len() + zero_padded(
                self.label_end as nat,
                9,
            ).len()),
    {
        let first = zero_padded_string(self.label_start as u64, 9);
        let second = zero_padded_string(self.label_end as u64, 9);
        proof {
            lemma_decimal_len_u64(self.label_start as u64);
            lemma_decimal_len_u64(self.label_end as u64);
        }
        axis_width >= first.as_str().unicode_len() + second.as_str().unicode_len()
    }
}

/// A ninth of `d`, rounded towards 0.
pub open spec fn ninth(d: int) -> int {
    if d >= 0 {
        d / 9
    } else {
        -((-d) / 9)
    }
}

/// The coordinate of tick `i` of ten that are spread from `start` towards
/// `end` at equal distance.
pub open spec fn tick_value(start: int, end: int, i: int) -> int {
    start + ninth(end - start) * i
}

/// Row `k` of the labels of the first `n` ticks: of each label the three
/// characters from `3 * k` on, with `gap` spaces between one tick and the
/// next.
pub open spec fn label_row(start: int, end: int, gap: nat, k: int, n: nat) -> Seq<char>
    decreases n,
{
    if n == 0 {
        Seq::empty()
    } else {
        label_row(start, end, gap, k, (n - 1) as nat) + (if n > 1 {
            spaces(gap)
        } else {
            Seq::empty()
        }) + signed_padded(tick_value(start, end, n - 1), 9).subrange(3 * k, 3 * k + 3)
    }
}

/// Ten tick labels of nine characters, written from top to bottom in three
/// rows of three characters each, the rows set off by line feeds.
pub open spec fn vertical_label(start: int, end: int, axis_width: int) -> Seq<char> {
    let gap = ((axis_width - 30) / 9) as nat;
    label_row(start, end, gap, 0, 10) + seq!['\n'] + label_row(start, end, gap, 1, 10) + seq![
        '\n',
    ] + label_row(start, end, gap, 2, 10)
}

/// Whether every one of the ten tick labels has nine characters.
pub open spec fn ticks_fit(start: int, end: int) -> bool {
    forall|i: int| 0 <= i < 10 ==> -99_999_999 <= #[trigger] tick_value(start, end, i) <= 999_999_999
}

/// The labels of ten ticks between `start` and `end`, for an axis of
/// `axis_width` columns.
pub fn generate_and_format_label(start: i64, end: i64, axis_width: usize) -> (text: String)
    requires
        axis_width >= 30,
        ticks_fit(start as int, end as int),
    ensures
        text@ == vertical_label(start as int, end as int, axis_width as int),
{
    // gap number = 10 -1 = 9
    proof {
        assert(-99_999_999 <= tick_value(start as int, end as int, 0) <= 999_999_999);
        assert(-99_999_999 <= tick_value(start as int, end as int, 9) <= 999_999_999);
    }
    let diff: i128 = end as i128 - start as i128;
    let step: i64 = if diff >= 0 {
        (diff / 9) as i64
    } else {
        (-((-diff) / 9)) as i64
    };
    // 30 + 9w = axis_width
    // w = (axis_width - 30) / 9
    let space_width = (axis_width - 30) / 9;
    // horizontal axis labels, three lines
    let mut top = String::new();
    let mut middle = String::new();
    let mut bottom = String::new();
    let mut value: i64 = start;
    let mut i: usize = 0;
    let ghost gap = space_width as nat;
    while i < 10
        invariant
            0 <= i <= 10,
            gap == space_width,
            step == ninth(end - start),
            ticks_fit(start as int, end as int),
            i < 10 ==> value == tick_value(start as int, end as int, i as int),
            top@ == label_row(start as int, end as int, gap, 0, i as nat),
            middle@ == label_row(start as int, end as int, gap, 1, i as nat),
            bottom@ == label_row(start as int, end as int, gap, 2, i as nat),
        decreases 10 - i,
    {
        let label = signed_padded_string(value, 9);
        proof {
            assert(-99_999_999 <= tick_value(start as int, end as int, i as int) <= 999_999_999);
            lemma_signed_padded_nine(value as int);
        }
        if i > 0 {
            push_spaces(&mut top, space_width);
            push_spaces(&mut middle, space_width);
            push_spaces(&mut bottom, space_width);
        }
        top.append(label.as_str().substring_char(0, 3));
        middle.append(label.as_str().substring_char(3, 6));
        bottom.append(label.as_str().substring_char(6, 9));
        proof {
            assert(top@ =~= label_row(start as int, end as int, gap, 0, (i + 1) as nat));
            assert(middle@ =~= label_row(start as int, end as int, gap, 1, (i + 1) as nat));
            assert(bottom@ =~= label_row(start as int, end as int, gap, 2, (i + 1) as nat));
        }
        i = i + 1;
        if i < 10 {
            proof {
                let s = ninth(end - start);
                assert(s * (i as int) == s * (i as int - 1) + s) by (nonlinear_arith);
                assert(-99_999_999 <= tick_value(start as int, end as int, i as int)
                    <= 999_999_999);
            }
            value = value + step;
        }
    }
    // join three lines
    let mut text = top;
    text.append("\n");
    text.append(middle.as_str());
    text.append("\n");
    text.append(bottom.as_str());
    proof {
        reveal_strlit("\n");
        assert(text@ =~= vertical_label(start as int, end as int, axis_width as int));
    }
    text
}

} // verus!
