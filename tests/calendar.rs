use month_calendar::date::{
    get_days_from_month, get_offset_of_month, next_month, normalize_month, CivilDate,
};
use month_calendar::grid::generate_matrix;
use month_calendar::render::{
    cell_payload, decimal, format_month, format_row, month_to_string, pad, render_month,
    weekday_to_string, year_to_string,
};

fn date(year: i32, month: u32, day: u32) -> CivilDate {
    CivilDate { year, month, day }
}

const FEB_2024: &str = "     February 2024\nMo     5 12 19 26\nTu     6 13 20 27\nWe     7 14 21 28\nTh  1  8 15 22 29\nFr  2  9 16 23\nSa  3 10 17 24\nSu  4 11 18 25\n\n";
const FEB_2024_MARKED: &str = "     February 2024\nMo     5 12 19 26\nTu     6 13 20 27\nWe     7 14 21 28\nTh  1  8 \x1b[107;30m15\x1b[0m 22 29\nFr  2  9 16 23\nSa  3 10 17 24\nSu  4 11 18 25\n\n";
const MAR_2024: &str = "     March 2024\nMo     4 11 18 25\nTu     5 12 19 26\nWe     6 13 20 27\nTh     7 14 21 28\nFr  1  8 15 22 29\nSa  2  9 16 23 30\nSu  3 10 17 24 31\n\n";
const JAN_2026: &str = "     January 2026\nMo     5 12 19 26\nTu     6 13 20 27\nWe     7 14 21 28\nTh  1  8 15 22 29\nFr  2  9 16 23 30\nSa  3 10 17 24 31\nSu  4 11 18 25\n\n";
const FEB_2023: &str = "     February 2023\nMo     6 13 20 27\nTu     7 14 21 28\nWe  1  8 15 22\nTh  2  9 16 23\nFr  3 10 17 24\nSa  4 11 18 25\nSu  5 12 19 26\n\n";

/// Reads the day numbers of a rendered month back, column by column across the rows.
fn days_read_back(text: &str) -> Vec<usize> {
    let rows: Vec<Vec<String>> = text
        .lines()
        .skip(1)
        .take(7)
        .map(|line| {
            let chars: Vec<char> = line.chars().skip(2).collect();
            chars.chunks(3).map(|c| c[1..].iter().collect::<String>()).collect()
        })
        .collect();
    let mut days = Vec::new();
    for j in 0..6 {
        for row in &rows {
            if let Some(cell) = row.get(j) {
                let t = cell.trim();
                if !t.is_empty() {
                    days.push(t.parse::<usize>().unwrap());
                }
            }
        }
    }
    days
}

#[test]
fn matrix_february_2024() {
    let g = generate_matrix(29, 3, 7);
    assert_eq!(g.len(), 7);
    assert_eq!(g[0], vec![None, Some(5), Some(12), Some(19), Some(26)]);
    assert_eq!(g[3], vec![Some(1), Some(8), Some(15), Some(22), Some(29)]);
    assert_eq!(g[4], vec![Some(2), Some(9), Some(16), Some(23)]);
    assert_eq!(g[6], vec![Some(4), Some(11), Some(18), Some(25)]);
}

#[test]
fn matrix_monday_start_has_no_empty_cell() {
    let g = generate_matrix(30, 0, 7);
    assert_eq!(g[0][0], Some(1));
    assert!(g.iter().all(|row| row.iter().all(|c| c.is_some())));
    let lens: Vec<usize> = g.iter().map(|r| r.len()).collect();
    assert_eq!(lens, vec![5, 5, 4, 4, 4, 4, 4]);
    assert_eq!(g[1][4], Some(30));
}

#[test]
fn matrix_sunday_start() {
    let g = generate_matrix(31, 6, 7);
    for r in 0..6 {
        assert_eq!(g[r][0], None);
    }
    assert_eq!(g[6][0], Some(1));
    assert_eq!(g[0].len(), (6 + 31 + 6) / 7);
    assert_eq!(g[0].len(), 6);
    assert_eq!(g[1].len(), 6);
    assert_eq!(g[2].len(), 5);
}

#[test]
fn matrix_twenty_eight_cells_are_four_per_row() {
    let g = generate_matrix(28, 0, 7);
    assert!(g.iter().all(|r| r.len() == 4));
}

#[test]
fn matrix_row_of_each_day() {
    for offset in 0..7 {
        for length in 28..=31 {
            let g = generate_matrix(length, offset, 7);
            let total: usize = g.iter().map(|r| r.len()).sum();
            assert_eq!(total, offset + length);
            let max = g.iter().map(|r| r.len()).max().unwrap();
            let min = g.iter().map(|r| r.len()).min().unwrap();
            assert!(max - min <= 1);
            for d in 1..=length {
                let i = offset + d - 1;
                assert_eq!(g[i % 7][i / 7], Some(d));
                let count: usize =
                    g.iter().map(|r| r.iter().filter(|c| **c == Some(d)).count()).sum();
                assert_eq!(count, 1);
            }
            for (r, row) in g.iter().enumerate() {
                for (j, c) in row.iter().enumerate() {
                    assert_eq!(c.is_none(), j == 0 && r < offset);
                }
            }
        }
    }
}

#[test]
fn matrix_other_column_count() {
    let g = generate_matrix(5, 1, 4);
    assert_eq!(g, vec![
        vec![None, Some(4)],
        vec![Some(1), Some(5)],
        vec![Some(2)],
        vec![Some(3)],
    ]);
}

#[test]
fn month_lengths() {
    assert_eq!(get_days_from_month(&date(2024, 2, 15)), Some(29));
    assert_eq!(get_days_from_month(&date(2023, 2, 1)), Some(28));
    assert_eq!(get_days_from_month(&date(1900, 2, 1)), Some(28));
    assert_eq!(get_days_from_month(&date(2000, 2, 1)), Some(29));
    assert_eq!(get_days_from_month(&date(2025, 9, 30)), Some(30));
    assert_eq!(get_days_from_month(&date(2025, 12, 15)), Some(31));
    assert_eq!(get_days_from_month(&date(-4, 2, 1)), Some(29));
}

#[test]
fn month_lengths_out_of_reach() {
    assert_eq!(get_days_from_month(&date(262142, 12, 1)), None);
    assert_eq!(get_days_from_month(&date(262142, 11, 1)), Some(30));
    assert_eq!(get_days_from_month(&date(262143, 1, 1)), None);
    assert_eq!(get_days_from_month(&date(2024, 13, 1)), None);
    assert_eq!(get_days_from_month(&date(2024, 0, 1)), None);
}

#[test]
fn month_offsets() {
    assert_eq!(get_offset_of_month(&date(2024, 2, 15)), Some(3));
    assert_eq!(get_offset_of_month(&date(2024, 3, 1)), Some(4));
    assert_eq!(get_offset_of_month(&date(2024, 1, 1)), Some(0));
    assert_eq!(get_offset_of_month(&date(2025, 9, 30)), Some(0));
    assert_eq!(get_offset_of_month(&date(2023, 2, 1)), Some(2));
    assert_eq!(get_offset_of_month(&date(2026, 2, 1)), Some(6));
    assert_eq!(get_offset_of_month(&date(1, 1, 1)), Some(0));
    assert_eq!(get_offset_of_month(&date(2024, 13, 1)), None);
    assert_eq!(get_offset_of_month(&date(-262144, 1, 1)), None);
}

#[test]
fn first_of_month() {
    assert_eq!(normalize_month(&date(2024, 2, 15)), Some(date(2024, 2, 1)));
    assert_eq!(normalize_month(&date(2024, 2, 31)), Some(date(2024, 2, 1)));
    assert_eq!(normalize_month(&date(2024, 0, 1)), None);
    assert_eq!(normalize_month(&date(300000, 1, 1)), None);
}

#[test]
fn following_month() {
    assert_eq!(next_month(&date(2025, 12, 15)), Some(date(2026, 1, 15)));
    assert_eq!(next_month(&date(2024, 1, 31)), Some(date(2024, 2, 29)));
    assert_eq!(next_month(&date(2023, 1, 31)), Some(date(2023, 2, 28)));
    assert_eq!(next_month(&date(2024, 2, 15)), Some(date(2024, 3, 15)));
    assert_eq!(next_month(&date(262142, 12, 1)), None);
    assert_eq!(next_month(&date(2024, 2, 30)), None);
}

#[test]
fn padding() {
    assert_eq!(pad("5".to_string(), 2), " 5");
    assert_eq!(pad("12".to_string(), 2), "12");
    assert_eq!(pad(" ".to_string(), 2), "  ");
    assert_eq!(pad(String::new(), 3), "   ");
    assert_eq!(pad("é".to_string(), 2), " é");
}

#[test]
fn numbers_and_names() {
    assert_eq!(decimal(0), "0");
    assert_eq!(decimal(7), "7");
    assert_eq!(decimal(1234), "1234");
    assert_eq!(decimal(u64::MAX), u64::MAX.to_string());
    assert_eq!(year_to_string(2024), "2024");
    assert_eq!(year_to_string(-44), "-44");
    assert_eq!(year_to_string(i32::MIN), i32::MIN.to_string());
    assert_eq!(month_to_string(0), "January");
    assert_eq!(month_to_string(1), "February");
    assert_eq!(month_to_string(11), "December");
    assert_eq!(weekday_to_string(0), "Mo");
    assert_eq!(weekday_to_string(6), "Su");
}

#[test]
fn cells_and_rows() {
    assert_eq!(cell_payload(None), "  ");
    assert_eq!(cell_payload(Some(7)), " 7");
    assert_eq!(cell_payload(Some(31)), "31");
    let row = vec![None, Some(5), Some(12)];
    assert_eq!(format_row(0, &row, None, &String::new()), "Mo     5 12\n");
    assert_eq!(format_row(1, &row, Some(5), &"<5>".to_string()), "Tu    <5> 12\n");
    assert_eq!(format_row(2, &row, Some(9), &"<9>".to_string()), "We     5 12\n");
}

#[test]
fn formatted_month_with_painted_day() {
    let s = format_month(2024, 2, 29, 3, Some(15), &"[]".to_string());
    assert_eq!(s, FEB_2024.replace(" 15 22 29", " [] 22 29"));
    assert_eq!(format_month(2024, 2, 29, 3, None, &String::new()), FEB_2024);
}

#[test]
fn render_february_2024_marks_today() {
    let s = render_month(&date(2024, 2, 15), &date(2024, 2, 15)).unwrap();
    assert!(s == FEB_2024 || s == FEB_2024_MARKED);
}

#[test]
fn render_other_month_marks_nothing() {
    let s = render_month(&date(2024, 3, 1), &date(2024, 2, 15)).unwrap();
    assert_eq!(s, MAR_2024);
}

#[test]
fn render_january_2024_first_day() {
    let s = render_month(&date(2024, 1, 1), &date(2024, 1, 1)).unwrap();
    let mo = s.lines().nth(1).unwrap();
    assert!(mo == "Mo  1  8 15 22 29" || mo == "Mo \x1b[107;30m 1\x1b[0m  8 15 22 29");
}

#[test]
fn render_september_2025_last_day() {
    let s = render_month(&date(2025, 9, 30), &date(2025, 9, 30)).unwrap();
    let lines: Vec<&str> = s.lines().collect();
    assert_eq!(lines[0], "     September 2025");
    assert!(lines[2] == "Tu  2  9 16 23 30" || lines[2] == "Tu  2  9 16 23 \x1b[107;30m30\x1b[0m");
    assert_eq!(lines[1], "Mo  1  8 15 22 29");
    assert_eq!(lines[3], "We  3 10 17 24");
}

#[test]
fn render_rollover_to_january() {
    let today = date(2025, 12, 15);
    let first = render_month(&today, &today).unwrap();
    assert!(first.starts_with("     December 2025\n"));
    let next = next_month(&today).unwrap();
    assert_eq!(render_month(&next, &today).unwrap(), JAN_2026);
}

#[test]
fn render_february_2023() {
    let s = render_month(&date(2023, 2, 1), &date(2024, 2, 1)).unwrap();
    assert_eq!(s, FEB_2023);
    assert_eq!(days_read_back(&s).len(), 28);
}

#[test]
fn render_is_deterministic() {
    let today = date(2024, 2, 15);
    let a = render_month(&date(2024, 2, 1), &today);
    let b = render_month(&date(2024, 2, 1), &today);
    assert_eq!(a, b);
}

#[test]
fn render_out_of_reach() {
    assert_eq!(render_month(&date(262142, 12, 1), &date(2024, 1, 1)), None);
    assert_eq!(render_month(&date(2024, 13, 1), &date(2024, 1, 1)), None);
}

#[test]
fn read_back_gives_days_in_order() {
    for (y, m) in [(2024, 1), (2024, 2), (2023, 2), (2024, 3), (2025, 9), (2026, 2), (2024, 4)] {
        let s = render_month(&date(y, m, 1), &date(1999, 1, 1)).unwrap();
        let days = get_days_from_month(&date(y, m, 1)).unwrap();
        assert_eq!(days_read_back(&s), (1..=days).collect::<Vec<usize>>());
    }
}

#[test]
fn february_leap_and_common() {
    let leap = render_month(&date(2024, 2, 1), &date(1999, 1, 1)).unwrap();
    let common = render_month(&date(2023, 2, 1), &date(1999, 1, 1)).unwrap();
    assert_eq!(days_read_back(&leap).len(), 29);
    assert_eq!(days_read_back(&common).len(), 28);
}

#[test]
fn highlight_fires_once_in_month_and_never_elsewhere() {
    let today = date(2024, 2, 15);
    let same = render_month(&date(2024, 2, 1), &today).unwrap();
    assert!(same.matches("\x1b[0m").count() <= 1);
    let other = render_month(&date(2024, 3, 1), &today).unwrap();
    assert_eq!(other.matches('\x1b').count(), 0);
    let other_year = render_month(&date(2023, 2, 1), &today).unwrap();
    assert_eq!(other_year.matches('\x1b').count(), 0);
}
