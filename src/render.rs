//! Text of a month: a header line, one line per weekday row, and a closing blank line.
use crate::date::{
    days_in_month, get_days_from_month, get_offset_of_month, month_in_reach, weekday_from_monday,
    CivilDate,
};
use crate::date::is_leap;
use crate::grid::{generate_matrix, grid_view, layout, lemma_cell_bounds, lemma_day_position, occurs_at};
use colored::Colorize;
use vstd::prelude::*;
use vstd::string::{StrSliceExecFns, StringExecFns};

verus! {

pub open spec fn spaces(n: nat) -> Seq<char> {
    Seq::new(n, |i: int| ' ')
}

pub open spec fn digit_char(d: int) -> char {
    if d == 0 {
        '0'
    } else if d == 1 {
        '1'
    } else if d == 2 {
        '2'
    } else if d == 3 {
        '3'
    } else if d == 4 {
        '4'
    } else if d == 5 {
        '5'
    } else if d == 6 {
        '6'
    } else if d == 7 {
        '7'
    } else if d == 8 {
        '8'
    } else {
        '9'
    }
}

/// Decimal digits of `n`, most significant first, without leading zeros.
pub open spec fn decimal_spec(n: nat) -> Seq<char>
    decreases n,
{
    if n < 10 {
        seq![digit_char(n as int)]
    } else {
        decimal_spec(n / 10) + seq![digit_char((n % 10) as int)]
    }
}

/// A year in decimal, with a minus sign before a negative one.
pub open spec fn year_spec(year: int) -> Seq<char> {
    if year < 0 {
        seq!['-'] + decimal_spec((-year) as nat)
    } else {
        decimal_spec(year as nat)
    }
}

/// English name of the month with zero-based index `m`.
pub open spec fn month_name(m: int) -> Seq<char> {
    if m == 0 {
        "January"@
    } else if m == 1 {
        "February"@
    } else if m == 2 {
        "March"@
    } else if m == 3 {
        "April"@
    } else if m == 4 {
        "May"@
    } else if m == 5 {
        "June"@
    } else if m == 6 {
        "July"@
    } else if m == 7 {
        "August"@
    } else if m == 8 {
        "September"@
    } else if m == 9 {
        "October"@
    } else if m == 10 {
        "November"@
    } else {
        "December"@
    }
}

/// Two-letter name of weekday row `r`, Monday first.
pub open spec fn weekday_abbrev(r: int) -> Seq<char> {
    if r == 0 {
        "Mo"@
    } else if r == 1 {
        "Tu"@
    } else if r == 2 {
        "We"@
    } else if r == 3 {
        "Th"@
    } else if r == 4 {
        "Fr"@
    } else if r == 5 {
        "Sa"@
    } else {
        "Su"@
    }
}

/// `s` right-justified with spaces to `width` characters.
pub open spec fn pad_spec(s: Seq<char>, width: nat) -> Seq<char> {
    spaces((width - s.len()) as nat) + s
}

/// The two characters of a cell: blanks, or the day right-justified.
pub open spec fn payload(cell: Option<usize>) -> Seq<char> {
    match cell {
        None => spaces(2),
        Some(d) => pad_spec(decimal_spec(d as nat), 2),
    }
}

/// `s` between the escapes that set black on bright white and the reset.
pub open spec fn highlighted(s: Seq<char>) -> Seq<char> {
    seq!['\x1b', '[', '1', '0', '7', ';', '3', '0', 'm'] + s + seq!['\x1b', '[', '0', 'm']
}

/// Whether a cell is the marked day.
pub open spec fn is_marked(cell: Option<usize>, marked: Option<usize>) -> bool {
    cell is Some && cell == marked
}

/// A cell field: a space, then the payload, or `painted` in place of the marked day's payload.
pub open spec fn cell_field(cell: Option<usize>, marked: Option<usize>, painted: Seq<char>) -> Seq<
    char,
> {
    seq![' '] + if is_marked(cell, marked) {
        painted
    } else {
        payload(cell)
    }
}

pub open spec fn cells_text(cells: Seq<Option<usize>>, marked: Option<usize>, painted: Seq<char>) -> Seq<
    char,
>
    decreases cells.len(),
{
    if cells.len() == 0 {
        Seq::empty()
    } else {
        cells_text(cells.drop_last(), marked, painted) + cell_field(cells.last(), marked, painted)
    }
}

/// The lines of the first `k` rows of grid `g`.
pub open spec fn rows_text(
    g: Seq<Seq<Option<usize>>>,
    k: int,
    marked: Option<usize>,
    painted: Seq<char>,
) -> Seq<char>
    decreases k,
{
    if k <= 0 {
        Seq::empty()
    } else {
        rows_text(g, k - 1, marked, painted) + weekday_abbrev(k - 1) + cells_text(
            g[k - 1],
            marked,
            painted,
        ) + seq!['\n']
    }
}

pub open spec fn header_text(year: int, month: int) -> Seq<char> {
    spaces(5) + month_name(month - 1) + seq![' '] + year_spec(year) + seq!['\n']
}

/// The whole text of a month of `days` days whose first day follows `offset` empty cells.
pub open spec fn month_text(
    year: int,
    month: int,
    days: int,
    offset: int,
    marked: Option<usize>,
    painted: Seq<char>,
) -> Seq<char> {
    header_text(year, month) + rows_text(layout(days, offset, 7), 7, marked, painted) + seq!['\n']
}

/// The day of `today` when it falls in month `(year, month)` of `days` days.
pub open spec fn marked_day(year: int, month: int, days: int, today: CivilDate) -> Option<usize> {
    if today.year == year && today.month == month && 1 <= today.day <= days {
        Some(today.day as usize)
    } else {
        None
    }
}

/// The plain payload of the marked day, empty when there is none.
pub open spec fn marked_payload(marked: Option<usize>) -> Seq<char> {
    match marked {
        Some(d) => payload(Some(d)),
        None => Seq::empty(),
    }
}

/// Relies on colored's `Colorize::black`, `Colorize::on_bright_white` and its `Display`:
/// with colouring on, the text comes between `ESC[107;30m` and `ESC[0m`; with it off
/// (by the environment or the terminal), unchanged. Text holding an escape of its own would
/// have its inner resets rewritten, so none is admitted.
#[verifier::external_body]
fn paint(s: &String) -> (r: String)
    requires
        forall|i: int| 0 <= i < s@.len() ==> s@[i] != '\x1b',
    ensures
        r@ == s@ || r@ == highlighted(s@),
{
    s.as_str().black().on_bright_white().to_string()
}

fn digit_text(d: u64) -> (r: &'static str)
    requires
        d < 10,
    ensures
        r@ == seq![digit_char(d as int)],
{
    if d == 0 {
        proof {
            reveal_strlit("0");
        }
        "0"
    } else if d == 1 {
        proof {
            reveal_strlit("1");
        }
        "1"
    } else if d == 2 {
        proof {
            reveal_strlit("2");
        }
        "2"
    } else if d == 3 {
        proof {
            reveal_strlit("3");
        }
        "3"
    } else if d == 4 {
        proof {
            reveal_strlit("4");
        }
        "4"
    } else if d == 5 {
        proof {
            reveal_strlit("5");
        }
        "5"
    } else if d == 6 {
        proof {
            reveal_strlit("6");
        }
        "6"
    } else if d == 7 {
        proof {
            reveal_strlit("7");
        }
        "7"
    } else if d == 8 {
        proof {
            reveal_strlit("8");
        }
        "8"
    } else {
        proof {
            reveal_strlit("9");
        }
        "9"
    }
}

/// `n` in decimal.
pub fn decimal(n: u64) -> (r: String)
    ensures
        r@ == decimal_spec(n as nat),
    decreases n,
{
    if n < 10 {
        String::from_str(digit_text(n))
    } else {
        let mut s = decimal(n / 10);
        s.append(digit_text(n % 10));
        s
    }
}

/// Right-justifies `string` with spaces to `padding` characters.
pub fn pad(string: String, padding: usize) -> (r: String)
    requires
        string@.len() <= padding,
    ensures
        r@ == pad_spec(string@, padding as nat),
{
    let count = string.as_str().unicode_len();
    let mut r = String::new();
    let mut i: usize = count;
    while i < padding
        invariant
            count <= i <= padding,
            r@ == spaces((i - count) as nat),
        decreases padding - i,
    {
        proof {
            reveal_strlit(" ");
        }
        r.append(" ");
        assert(r@ =~= spaces((i + 1 - count) as nat));
        i = i + 1;
    }
    r.append(string.as_str());
    r
}

/// At most two digits for a number below 100.
proof fn lemma_decimal_short(n: nat)
    requires
        n < 100,
    ensures
        decimal_spec(n).len() == if n < 10 {
            1int
        } else {
            2int
        },
{
    reveal_with_fuel(decimal_spec, 2);
}

/// The payload of a day below 100 holds spaces and digits only.
proof fn lemma_payload_plain(d: usize)
    requires
        d < 100,
    ensures
        forall|i: int| 0 <= i < payload(Some(d)).len() ==> payload(Some(d))[i] != '\x1b',
{
    reveal_with_fuel(decimal_spec, 2);
    lemma_decimal_short(d as nat);
}

/// English name of the month with zero-based index `month`.
pub fn month_to_string(month: u32) -> (r: String)
    requires
        month < 12,
    ensures
        r@ == month_name(month as int),
{
    if month == 0 {
        String::from_str("January")
    } else if month == 1 {
        String::from_str("February")
    } else if month == 2 {
        String::from_str("March")
    } else if month == 3 {
        String::from_str("April")
    } else if month == 4 {
        String::from_str("May")
    } else if month == 5 {
        String::from_str("June")
    } else if month == 6 {
        String::from_str("July")
    } else if month == 7 {
        String::from_str("August")
    } else if month == 8 {
        String::from_str("September")
    } else if month == 9 {
        String::from_str("October")
    } else if month == 10 {
        String::from_str("November")
    } else {
        String::from_str("December")
    }
}

/// Two-letter name of weekday row `r`, Monday first.
pub fn weekday_to_string(r: usize) -> (s: String)
    requires
        r < 7,
    ensures
        s@ == weekday_abbrev(r as int),
{
    if r == 0 {
        String::from_str("Mo")
    } else if r == 1 {
        String::from_str("Tu")
    } else if r == 2 {
        String::from_str("We")
    } else if r == 3 {
        String::from_str("Th")
    } else if r == 4 {
        String::from_str("Fr")
    } else if r == 5 {
        String::from_str("Sa")
    } else {
        String::from_str("Su")
    }
}

/// A year in decimal, with a minus sign before a negative one.
pub fn year_to_string(year: i32) -> (r: String)
    ensures
        r@ == year_spec(year as int),
{
    if year < 0 {
        let mut s = String::from_str("-");
        proof {
            reveal_strlit("-");
        }
        let digits = decimal((-(year as i64)) as u64);
        s.append(digits.as_str());
        s
    } else {
        decimal(year as u64)
    }
}

/// The two characters of a cell: blanks, or the day right-justified.
pub fn cell_payload(cell: Option<usize>) -> (r: String)
    requires
        match cell {
            Some(d) => d < 100,
            None => true,
        },
    ensures
        r@ == payload(cell),
{
    match cell {
        None => {
            proof {
                reveal_strlit(" ");
            }
            let r = pad(String::from_str(" "), 2);
            assert(r@ =~= spaces(2));
            r
        },
        Some(d) => {
            proof {
                lemma_decimal_short(d as nat);
            }
            pad(decimal(d as u64), 2)
        },
    }
}

/// The line of weekday row `r`: its name, then a space and the payload of each cell,
/// with `painted` standing for the payload of the marked day.
pub fn format_row(r: usize, cells: &Vec<Option<usize>>, marked: Option<usize>, painted: &String) -> (s: String)
    requires
        r < 7,
        forall|k: int|
            0 <= k < cells@.len() ==> match #[trigger] cells@[k] {
                Some(d) => d < 100,
                None => true,
            },
    ensures
        s@ == weekday_abbrev(r as int) + cells_text(cells@, marked, painted@) + seq!['\n'],
{
    let mut s = weekday_to_string(r);
    let mut j: usize = 0;
    proof {
        reveal_strlit(" ");
        reveal_strlit("\n");
        assert(cells@.take(0) =~= Seq::<Option<usize>>::empty());
        assert(s@ =~= weekday_abbrev(r as int) + cells_text(cells@.take(0), marked, painted@));
    }
    while j < cells.len()
        invariant
            j <= cells@.len(),
            forall|k: int|
                0 <= k < cells@.len() ==> match #[trigger] cells@[k] {
                    Some(d) => d < 100,
                    None => true,
                },
            s@ == weekday_abbrev(r as int) + cells_text(cells@.take(j as int), marked, painted@),
        decreases cells@.len() - j,
    {
        let cell = cells[j];
        let ghost s0 = s@;
        proof {
            reveal_strlit(" ");
        }
        s.append(" ");
        let marked_here = match (cell, marked) {
            (Some(d), Some(m)) => d == m,
            _ => false,
        };
        if marked_here {
            s.append(painted.as_str());
            assert(s@ =~= s0 + (seq![' '] + painted@));
        } else {
            let p = cell_payload(cell);
            s.append(p.as_str());
            assert(s@ =~= s0 + (seq![' '] + payload(cell)));
        }
        proof {
            let t = cells@.take(j + 1);
            assert(t.drop_last() =~= cells@.take(j as int));
            assert(t.last() == cell);
            assert(cells_text(t, marked, painted@) == cells_text(t.drop_last(), marked, painted@)
                + cell_field(cell, marked, painted@));
            assert(marked_here == is_marked(cell, marked));
            assert(s@ =~= weekday_abbrev(r as int) + cells_text(cells@.take(j + 1), marked, painted@));
        }
        j = j + 1;
    }
    assert(cells@.take(j as int) =~= cells@);
    s.append("\n");
    s
}

/// The whole text of a month of `days` days whose first day follows `offset` empty cells:
/// the header with the month's name and the year, the seven weekday rows, and a blank line.
pub fn format_month(
    year: i32,
    month: u32,
    days: usize,
    offset: usize,
    marked: Option<usize>,
    painted: &String,
) -> (s: String)
    requires
        1 <= month <= 12,
        1 <= days <= 31,
        offset < 7,
    ensures
        s@ == month_text(year as int, month as int, days as int, offset as int, marked, painted@),
{
    proof {
        reveal_strlit("     ");
        reveal_strlit(" ");
        reveal_strlit("\n");
    }
    let mut s = String::from_str("     ");
    let name = month_to_string(month - 1);
    s.append(name.as_str());
    s.append(" ");
    let y = year_to_string(year);
    s.append(y.as_str());
    s.append("\n");
    assert(s@ =~= header_text(year as int, month as int));
    let grid = generate_matrix(days, offset, 7);
    let ghost g = layout(days as int, offset as int, 7);
    assert(grid@.len() == grid_view(grid).len());
    let mut r: usize = 0;
    while r < 7
        invariant
            r <= 7,
            grid@.len() == 7,
            1 <= days <= 31,
            offset < 7,
            grid_view(grid) == g,
            g == layout(days as int, offset as int, 7),
            s@ == header_text(year as int, month as int) + rows_text(g, r as int, marked, painted@),
        decreases 7 - r,
    {
        let row = &grid[r];
        assert(row@ == grid_view(grid)[r as int]);
        assert forall|k: int| 0 <= k < row@.len() implies match #[trigger] row@[k] {
            Some(d) => d < 100,
            None => true,
        } by {
            crate::grid::lemma_cell_bounds(days as int, offset as int, 7, r as int, k);
        }
        let line = format_row(r, row, marked, painted);
        s.append(line.as_str());
        assert(s@ =~= header_text(year as int, month as int) + rows_text(g, r + 1, marked, painted@));
        r = r + 1;
    }
    s.append("\n");
    s
}

/// The text of the month of `date`, with the day of `today` painted when `today` falls in
/// that month; `None` when chrono cannot represent the month or the one after it.
/// Whether the paint shows depends on the terminal and the environment, so the text is one
/// of two: with the marked day plain, or with it highlighted.
pub fn render_month(date: &CivilDate, today: &CivilDate) -> (r: Option<String>)
    ensures
        r is None <==> !month_in_reach(date.year as int, date.month as int),
        r matches Some(s) ==> ({
            let days = days_in_month(date.year as int, date.month as int);
            let offset = weekday_from_monday(date.year as int, date.month as int, 1) - 1;
            let marked = marked_day(date.year as int, date.month as int, days, *today);
            s@ == month_text(
                date.year as int,
                date.month as int,
                days,
                offset,
                marked,
                marked_payload(marked),
            ) || s@ == month_text(
                date.year as int,
                date.month as int,
                days,
                offset,
                marked,
                highlighted(marked_payload(marked)),
            )
        }),
{
    let days = match get_days_from_month(date) {
        Some(d) => d,
        None => return None,
    };
    let offset = match get_offset_of_month(date) {
        Some(o) => o,
        None => return None,
    };
    let marked = if date.same_month(today) && 1 <= today.day && today.day as usize <= days {
        Some(today.day as usize)
    } else {
        None
    };
    let painted = match marked {
        Some(d) => {
            let plain = cell_payload(Some(d));
            proof {
                lemma_payload_plain(d);
            }
            paint(&plain)
        },
        None => String::new(),
    };
    Some(format_month(date.year, date.month, days, offset, marked, &painted))
}

/// The grid of month `(year, month)`: its days, Monday-first, over seven rows.
pub open spec fn month_grid(year: int, month: int) -> Seq<Seq<Option<usize>>> {
    layout(days_in_month(year, month), weekday_from_monday(year, month, 1) - 1, 7)
}

/// Day `d` stands in exactly one cell of `g`.
pub open spec fn occurs_once(g: Seq<Seq<Option<usize>>>, d: usize) -> bool {
    exists|r: int, j: int|
        #[trigger] occurs_at(g, d, r, j) && forall|r2: int, j2: int|
            #[trigger] occurs_at(g, d, r2, j2) ==> r2 == r && j2 == j
}

/// For every month of the years 1 to 9999 the grid has seven rows, holds no number
/// outside `1..=days_in_month`, and holds each day of the month exactly once.
pub proof fn lemma_month_days_once(year: int, month: int)
    requires
        1 <= year <= 9999,
        1 <= month <= 12,
    ensures
        month_grid(year, month).len() == 7,
        forall|r: int, j: int|
            0 <= r < 7 && 0 <= j < month_grid(year, month)[r].len() ==> match #[trigger] month_grid(
                year,
                month,
            )[r][j] {
                Some(d) => 1 <= d <= days_in_month(year, month),
                None => true,
            },
        forall|d: usize|
            1 <= d <= days_in_month(year, month) ==> #[trigger] occurs_once(month_grid(year, month), d),
{
    let days = days_in_month(year, month);
    let offset = weekday_from_monday(year, month, 1) - 1;
    let g = month_grid(year, month);
    assert forall|r: int, j: int| 0 <= r < 7 && 0 <= j < g[r].len() implies match #[trigger] g[r][j] {
        Some(d) => 1 <= d <= days,
        None => true,
    } by {
        lemma_cell_bounds(days, offset, 7, r, j);
    }
    assert forall|d: usize| 1 <= d <= days implies #[trigger] occurs_once(g, d) by {
        lemma_day_position(days, offset, 7, d);
        let r = (offset + d - 1) % 7;
        let j = (offset + d - 1) / 7;
        assert(occurs_at(g, d, r, j));
    }
}

/// The today mark fires on exactly one cell of the grid when `today` lies in the month
/// shown, and on none otherwise.
pub proof fn lemma_single_highlight(year: int, month: int, today: CivilDate)
    requires
        1 <= month <= 12,
        today.wf(),
    ensures
        ({
            let g = month_grid(year, month);
            let marked = marked_day(year, month, days_in_month(year, month), today);
            if today.year == year && today.month == month {
                exists|r: int, j: int|
                    0 <= r < 7 && 0 <= j < g[r].len() && #[trigger] is_marked(g[r][j], marked)
                        && forall|r2: int, j2: int|
                        0 <= r2 < 7 && 0 <= j2 < g[r2].len() && #[trigger] is_marked(g[r2][j2], marked)
                            ==> r2 == r && j2 == j
            } else {
                forall|r: int, j: int|
                    0 <= r < 7 && 0 <= j < g[r].len() ==> !#[trigger] is_marked(g[r][j], marked)
            }
        }),
{
    let days = days_in_month(year, month);
    let offset = weekday_from_monday(year, month, 1) - 1;
    let g = month_grid(year, month);
    let marked = marked_day(year, month, days, today);
    if today.year == year && today.month == month {
        let d = today.day as usize;
        lemma_day_position(days, offset, 7, d);
        let r = (offset + d - 1) % 7;
        let j = (offset + d - 1) / 7;
        assert(is_marked(g[r][j], marked));
        assert forall|r2: int, j2: int|
            0 <= r2 < 7 && 0 <= j2 < g[r2].len() && #[trigger] is_marked(g[r2][j2], marked) implies r2
            == r && j2 == j by {
            assert(occurs_at(g, d, r2, j2));
        }
    }
}

/// February has 29 days in a leap year and 28 otherwise: its grid holds day 29 exactly in a
/// leap year, and never day 30.
pub proof fn lemma_february(year: int)
    ensures
        days_in_month(year, 2) == if is_leap(year) {
            29int
        } else {
            28int
        },
        (exists|r: int, j: int| #[trigger] occurs_at(month_grid(year, 2), 29usize, r, j)) <==> is_leap(
            year,
        ),
        !exists|r: int, j: int| #[trigger] occurs_at(month_grid(year, 2), 30usize, r, j),
{
    let days = days_in_month(year, 2);
    let offset = weekday_from_monday(year, 2, 1) - 1;
    let g = month_grid(year, 2);
    if is_leap(year) {
        lemma_day_position(days, offset, 7, 29);
        assert(occurs_at(g, 29, (offset + 28) % 7, (offset + 28) / 7));
    }
    assert forall|r: int, j: int| occurs_at(g, 29usize, r, j) || occurs_at(g, 30usize, r, j) implies days
        >= 29 && (occurs_at(g, 29usize, r, j) ==> is_leap(year)) && !occurs_at(g, 30usize, r, j) by {
        lemma_cell_bounds(days, offset, 7, r, j);
    }
}

} // verus!
