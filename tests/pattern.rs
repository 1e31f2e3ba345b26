use game_of_life::pattern::{is_header_line, lines};
use game_of_life::{CellState, Coord, Grid, PatternError, PatternFormat};
use std::collections::BTreeSet;

fn alive(grid: &Grid) -> BTreeSet<(isize, isize)> {
    grid.cells()
        .into_iter()
        .filter(|(_, s)| *s == CellState::Alive)
        .map(|(c, _)| (c.x, c.y))
        .collect()
}

fn set(cells: &[(isize, isize)]) -> BTreeSet<(isize, isize)> {
    cells.iter().copied().collect()
}

fn chars(s: &str) -> Vec<char> {
    s.chars().collect()
}

#[test]
fn lines_split_at_line_breaks() {
    assert_eq!(lines("a\nbc\n"), vec![chars("a"), chars("bc")]);
    assert_eq!(lines("a\nbc"), vec![chars("a"), chars("bc")]);
    assert_eq!(lines("a\n\n"), vec![chars("a"), chars("")]);
    assert!(lines("").is_empty());
    assert_eq!(lines("\n"), vec![chars("")]);
}

#[test]
fn plain_text_two_cells() {
    let grid = Grid::from_txt("O.\n.O\n");
    assert_eq!(alive(&grid), set(&[(0, 0), (1, 1)]));
    assert_eq!(grid.get(Coord::new(1, 0)), Some(CellState::Dead));
}

#[test]
fn plain_text_ignores_other_characters() {
    let grid = Grid::from_txt("!comment o\r\n..O.\r\nxO0\n\n   O");
    assert_eq!(alive(&grid), set(&[(2, 1), (1, 2), (3, 4)]));
    assert!(Grid::from_txt("").cells().is_empty());
}

#[test]
fn rle_three_cells() {
    let grid = Grid::from_rle("x = 3, y = 1\n3o!").unwrap();
    assert_eq!(alive(&grid), set(&[(0, 0), (1, 0), (2, 0)]));
}

#[test]
fn rle_glider_with_comments() {
    let text = "#N Glider\n#C a comment\nx = 3, y = 3, rule = B3/S23\nbob$2b\no$3o!\n";
    let grid = Grid::from_rle(text).unwrap();
    assert_eq!(alive(&grid), set(&[(1, 0), (2, 1), (0, 2), (1, 2), (2, 2)]));
}

#[test]
fn rle_header_spacing() {
    assert!(Grid::from_rle("x=2,y=1\n2o!").is_ok());
    assert!(Grid::from_rle("size: x  =\t10 ,  y= 20 trailing\no!").is_ok());
}

#[test]
fn rle_missing_header() {
    assert_eq!(Grid::from_rle("#C only comments\n#N\n").err(), Some(PatternError::MissingHeader));
    assert_eq!(Grid::from_rle("").err(), Some(PatternError::MissingHeader));
}

#[test]
fn rle_invalid_header() {
    assert_eq!(Grid::from_rle("y = 1, x = 3\n3o!").err(), Some(PatternError::InvalidHeader));
    assert_eq!(Grid::from_rle("x = , y = 1\n3o!").err(), Some(PatternError::InvalidHeader));
    assert_eq!(Grid::from_rle("#C\n\n3o!").err(), Some(PatternError::InvalidHeader));
}

#[test]
fn rle_unknown_tag() {
    assert_eq!(Grid::from_rle("x = 3, y = 1\n2q!").err(), Some(PatternError::UnknownTag('q')));
    assert_eq!(Grid::from_rle("x = 3, y = 1\no|o!").err(), Some(PatternError::UnknownTag('|')));
}

#[test]
fn rle_off_plane() {
    let text = "x = 1, y = 1\n99999999999999999999999999o!";
    assert_eq!(Grid::from_rle(text).err(), Some(PatternError::OffPlane));
    let text = format!("x = 1, y = 1\n{}b{}o!", isize::MAX - 1, 2);
    assert_eq!(Grid::from_rle(&text).err(), Some(PatternError::OffPlane));
}

#[test]
fn rle_run_reaching_the_edge() {
    let text = format!("x = 1, y = 1\n{}b1o!", isize::MAX - 1);
    let grid = Grid::from_rle(&text).unwrap();
    assert_eq!(alive(&grid), set(&[(isize::MAX - 1, 0)]));
}

#[test]
fn rle_dead_runs_and_rows() {
    let grid = Grid::from_rle("x = 5, y = 3\n2b2o$$o 3b o!").unwrap();
    assert_eq!(alive(&grid), set(&[(2, 0), (3, 0), (0, 2), (4, 2)]));
}

#[test]
fn rle_count_before_row_break_is_dropped() {
    let grid = Grid::from_rle("x = 2, y = 3\no2$o!").unwrap();
    assert_eq!(alive(&grid), set(&[(0, 0), (0, 1)]));
}

#[test]
fn rle_ignores_text_after_end() {
    let grid = Grid::from_rle("x = 2, y = 1\n2o!zz$3o\nmore").unwrap();
    assert_eq!(alive(&grid), set(&[(0, 0), (1, 0)]));
    let grid = Grid::from_rle("x = 2, y = 1\n0o").unwrap();
    assert!(grid.cells().is_empty());
}

#[test]
fn header_lines() {
    assert!(is_header_line(&chars("x = 3, y = 1")));
    assert!(is_header_line(&chars("xx=1,y=2")));
    assert!(!is_header_line(&chars("x = 3 y = 1")));
    assert!(!is_header_line(&chars("x = 3, y =")));
    assert!(!is_header_line(&chars("")));
}

#[test]
fn formats_by_extension() {
    assert_eq!(PatternFormat::from_file_name("glider.txt"), Some(PatternFormat::PlainText));
    assert_eq!(PatternFormat::from_file_name("dir/gun.rle"), Some(PatternFormat::RunLength));
    assert_eq!(PatternFormat::from_file_name("gun.lif"), None);
    assert_eq!(PatternFormat::from_file_name(".txt"), None);
    assert_eq!(PatternFormat::from_file_name("dir/.rle"), None);
    assert_eq!(PatternFormat::from_file_name("txt"), None);
}

#[test]
fn from_file_picks_the_decoder() {
    let txt = Grid::from_file("a.txt", "OO\n").unwrap();
    assert_eq!(alive(&txt), set(&[(0, 0), (1, 0)]));
    let rle = Grid::from_file("a.rle", "x = 2, y = 1\n2o!").unwrap();
    assert_eq!(alive(&rle), set(&[(0, 0), (1, 0)]));
    assert_eq!(Grid::from_file("a.rle", "2o!").err(), Some(PatternError::InvalidHeader));
    assert_eq!(Grid::from_file("a.png", "OO").err(), Some(PatternError::UnknownFormat));
}

#[test]
fn rle_count_separated_from_its_tag_is_dropped() {
    let grid = Grid::from_rle("x = 3, y = 1\n3 o!").unwrap();
    assert_eq!(alive(&grid), set(&[(0, 0)]));
}

#[test]
fn rle_crlf_lines_join_a_count_to_its_tag() {
    let grid = Grid::from_rle("x = 3, y = 1\r\n3\r\no!").unwrap();
    assert_eq!(alive(&grid), set(&[(0, 0), (1, 0), (2, 0)]));
}

#[test]
fn lines_strip_crlf() {
    assert_eq!(lines("ab\r\ncd\r\n"), vec![chars("ab"), chars("cd")]);
    assert_eq!(lines("a\r\r\nb\r"), vec![chars("a\r"), chars("b\r")]);
}

#[test]
fn rle_header_with_unicode_space() {
    let grid = Grid::from_rle("x =\u{A0}2,\u{3000}y = 1\n2o!").unwrap();
    assert_eq!(alive(&grid), set(&[(0, 0), (1, 0)]));
}
