use instrument_coverage::region::{check_code_region, make_code_region, make_code_region_in_file, CodeRegion};
use instrument_coverage::source_map::{ceil_boundary, floor_boundary, SourceFile, SourceMap};
use instrument_coverage::span::Span;

fn span(lo: u32, hi: u32) -> Span {
    Span { lo, hi, ctxt: 0 }
}

fn file(name: &str, src: &str, start_pos: u32, lines: Vec<u32>) -> SourceFile {
    SourceFile {
        name: name.to_string(),
        doctest_offset: None,
        src: Some(src.to_string()),
        start_pos,
        end_pos: start_pos + src.len() as u32,
        lines,
    }
}

fn region(sl: u32, sc: u32, el: u32, ec: u32) -> CodeRegion {
    CodeRegion { file_name: "lib.rs".to_string(), start_line: sl, start_col: sc, end_line: el, end_col: ec }
}

fn long_line() -> SourceFile {
    let text: String = "a".repeat(120);
    file("lib.rs", &text, 0, vec![0])
}

#[test]
fn check_keeps_a_well_formed_region() {
    assert_eq!(check_code_region(region(1, 1, 1, 1)), Some(region(1, 1, 1, 1)));
    assert_eq!(check_code_region(region(3, 7, 4, 2)), Some(region(3, 7, 4, 2)));
    assert_eq!(check_code_region(region(1, 1, 1, 0x7fff_ffff)), Some(region(1, 1, 1, 0x7fff_ffff)));
}

#[test]
fn check_drops_a_zero_coordinate() {
    assert_eq!(check_code_region(region(0, 1, 1, 1)), None);
    assert_eq!(check_code_region(region(1, 0, 1, 1)), None);
    assert_eq!(check_code_region(region(1, 1, 0, 1)), None);
    assert_eq!(check_code_region(region(1, 1, 1, 0)), None);
}

#[test]
fn check_drops_an_end_column_with_the_high_bit() {
    assert_eq!(check_code_region(region(1, 1, 2, 0x8000_0000)), None);
    assert_eq!(check_code_region(region(1, 1, 2, 0xffff_ffff)), None);
}

#[test]
fn check_drops_a_start_after_the_end() {
    assert_eq!(check_code_region(region(2, 1, 1, 9)), None);
    assert_eq!(check_code_region(region(2, 5, 2, 4)), None);
}

#[test]
fn region_of_a_span_on_two_lines() {
    let src = "fn main() {\n    work();\n}\n";
    let f = file("lib.rs", src, 0, vec![0, 12, 24, 26]);
    let r = make_code_region_in_file(&f, "lib.rs".to_string(), span(16, 25), span(0, 26));
    assert_eq!(r, Some(region(2, 5, 3, 2)));
}

#[test]
fn region_counts_columns_from_the_start_of_the_file() {
    let src = "let a = 1;\nlet b = 2;\n";
    let f = file("lib.rs", src, 100, vec![0, 11]);
    let map = SourceMap { files: vec![file("other.rs", "xx", 0, vec![0]), f] };
    let r = make_code_region(&map, "lib.rs".to_string(), span(115, 120), span(100, 122));
    assert_eq!(r, Some(region(2, 5, 2, 10)));
}

#[test]
fn empty_span_inside_the_body_grows_forward_by_one_character() {
    let f = long_line();
    let r = make_code_region_in_file(&f, "lib.rs".to_string(), span(50, 50), span(0, 100)).unwrap();
    assert_eq!(r.start_col, 51);
    assert_eq!(r.end_col, r.start_col + 1);
    assert_eq!(r, region(1, 51, 1, 52));
}

#[test]
fn empty_span_at_the_end_of_the_body_grows_backward() {
    let f = long_line();
    let r = make_code_region_in_file(&f, "lib.rs".to_string(), span(100, 100), span(0, 100));
    assert_eq!(r, Some(region(1, 100, 1, 101)));
}

#[test]
fn backward_nudge_stops_at_column_one() {
    let f = file("lib.rs", "ab\ncd", 0, vec![0, 3]);
    let r = make_code_region_in_file(&f, "lib.rs".to_string(), span(3, 3), span(0, 3));
    assert_eq!(r, Some(region(2, 1, 2, 1)));
}

#[test]
fn empty_body_leaves_an_empty_span_as_it_is() {
    let f = long_line();
    let r = make_code_region_in_file(&f, "lib.rs".to_string(), span(7, 7), span(7, 7));
    assert_eq!(r, Some(region(1, 8, 1, 8)));
}

#[test]
fn empty_span_outside_the_body_is_not_widened() {
    let f = long_line();
    let r = make_code_region_in_file(&f, "lib.rs".to_string(), span(110, 110), span(0, 100));
    assert_eq!(r, Some(region(1, 111, 1, 111)));
}

#[test]
fn nudge_covers_a_whole_character() {
    // 'a', then a character of two bytes.
    let f = file("lib.rs", "a\u{e9}", 0, vec![0]);
    let forward = make_code_region_in_file(&f, "lib.rs".to_string(), span(1, 1), span(0, 3));
    assert_eq!(forward, Some(region(1, 2, 1, 4)));
    let backward = make_code_region_in_file(&f, "lib.rs".to_string(), span(3, 3), span(0, 3));
    assert_eq!(backward, Some(region(1, 2, 1, 4)));
}

#[test]
fn file_without_text_gets_no_nudge() {
    let mut f = long_line();
    f.src = None;
    let r = make_code_region_in_file(&f, "lib.rs".to_string(), span(50, 50), span(0, 100));
    assert_eq!(r, Some(region(1, 51, 1, 51)));
}

#[test]
fn span_across_two_files_has_no_region() {
    let map = SourceMap {
        files: vec![file("a.rs", "0123456789", 0, vec![0]), file("b.rs", "0123456789", 11, vec![0])],
    };
    assert_eq!(make_code_region(&map, "a.rs".to_string(), span(5, 15), span(0, 21)), None);
    assert!(make_code_region(&map, "a.rs".to_string(), span(5, 10), span(0, 21)).is_some());
}

#[test]
fn span_in_no_file_has_no_region() {
    let empty = SourceMap { files: vec![] };
    assert_eq!(make_code_region(&empty, "a.rs".to_string(), span(0, 1), span(0, 1)), None);
    let late = SourceMap { files: vec![file("a.rs", "0123456789", 20, vec![0])] };
    assert_eq!(make_code_region(&late, "a.rs".to_string(), span(5, 6), span(0, 30)), None);
}

#[test]
fn position_before_the_first_line_has_no_region() {
    let f = file("lib.rs", "0123456789", 0, vec![4]);
    assert_eq!(make_code_region_in_file(&f, "lib.rs".to_string(), span(2, 6), span(0, 10)), None);
    assert_eq!(
        make_code_region_in_file(&f, "lib.rs".to_string(), span(5, 6), span(0, 10)),
        Some(region(1, 2, 1, 3))
    );
}

#[test]
fn snippet_lines_are_shifted_by_the_offset() {
    let mut f = file("lib.rs", "one\ntwo\n", 0, vec![0, 4]);
    f.doctest_offset = Some(10);
    let r = make_code_region_in_file(&f, "lib.rs".to_string(), span(1, 6), span(0, 8));
    assert_eq!(r, Some(region(11, 2, 12, 3)));
    f.doctest_offset = Some(-1);
    assert_eq!(make_code_region_in_file(&f, "lib.rs".to_string(), span(1, 6), span(0, 8)), None);
    assert_eq!(
        make_code_region_in_file(&f, "lib.rs".to_string(), span(5, 6), span(0, 8)),
        Some(region(1, 2, 1, 3))
    );
}

#[test]
fn coordinates_beyond_32_bits_have_no_region() {
    let mut f = file("lib.rs", "one\ntwo\n", 0, vec![0, 4]);
    f.doctest_offset = Some(0xffff_ffff);
    assert_eq!(make_code_region_in_file(&f, "lib.rs".to_string(), span(1, 6), span(0, 8)), None);
}

#[test]
fn file_lookup_takes_the_last_file_that_starts_before() {
    let map = SourceMap {
        files: vec![file("a.rs", "0123456789", 0, vec![0]), file("b.rs", "0123456789", 11, vec![0])],
    };
    assert_eq!(map.lookup_source_file_idx(0), Some(0));
    assert_eq!(map.lookup_source_file_idx(10), Some(0));
    assert_eq!(map.lookup_source_file_idx(11), Some(1));
    assert_eq!(map.lookup_source_file_idx(500), Some(1));
    assert_eq!(SourceMap { files: vec![] }.lookup_source_file_idx(3), None);
}

#[test]
fn line_lookup_takes_the_last_line_that_starts_before() {
    let f = file("lib.rs", "ab\ncd\nef", 0, vec![0, 3, 6]);
    assert_eq!(f.lookup_line(0), Some(0));
    assert_eq!(f.lookup_line(2), Some(0));
    assert_eq!(f.lookup_line(3), Some(1));
    assert_eq!(f.lookup_line(7), Some(2));
    assert_eq!(f.lookup_line(1000), Some(2));
    assert!(f.contains(8));
    assert!(!f.contains(9));
}

#[test]
fn character_boundaries() {
    let text = "a\u{20ac}b"; // one byte, three bytes, one byte
    assert_eq!(ceil_boundary(text, 0), 0);
    assert_eq!(ceil_boundary(text, 1), 1);
    assert_eq!(ceil_boundary(text, 2), 4);
    assert_eq!(ceil_boundary(text, 3), 4);
    assert_eq!(ceil_boundary(text, 5), 5);
    assert_eq!(ceil_boundary(text, 9), 5);
    assert_eq!(floor_boundary(text, 0), 0);
    assert_eq!(floor_boundary(text, 2), 1);
    assert_eq!(floor_boundary(text, 3), 1);
    assert_eq!(floor_boundary(text, 4), 4);
    assert_eq!(floor_boundary(text, 9), 5);
}

#[test]
fn span_operations() {
    let s = Span { lo: 3, hi: 9, ctxt: 2 };
    assert!(!s.is_empty());
    assert!(s.shrink_to_lo().is_empty());
    assert_eq!(s.shrink_to_lo(), Span { lo: 3, hi: 3, ctxt: 2 });
    assert_eq!(s.shrink_to_hi(), Span { lo: 9, hi: 9, ctxt: 2 });
    assert_eq!(s.with_hi(5), Span { lo: 3, hi: 5, ctxt: 2 });
    assert!(s.contains(Span { lo: 3, hi: 9, ctxt: 0 }));
    assert!(s.contains(Span { lo: 4, hi: 4, ctxt: 0 }));
    assert!(!s.contains(Span { lo: 2, hi: 4, ctxt: 2 }));
    assert!(s.eq_ctxt(Span { lo: 0, hi: 0, ctxt: 2 }));
    assert!(!s.eq_ctxt(Span { lo: 3, hi: 9, ctxt: 0 }));
}
