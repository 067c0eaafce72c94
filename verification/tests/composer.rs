use yarls::compose::enumerated_lyrics;
use yarls::models::{LyricSection, Lyrics, RangeOrNumber};
use yarls::parse::parse_sections;

fn lines(raw: &[&str]) -> Vec<(usize, String)> {
    let owned: Vec<String> = raw.iter().map(|s| s.to_string()).collect();
    enumerated_lyrics(&owned)
}

#[test]
fn enumeration_assigns_positions_and_trims() {
    let raw = vec!["  Amazing  ".to_string(), "grace\t".to_string(), "how".to_string()];
    let out = enumerated_lyrics(&raw);
    assert_eq!(
        out,
        vec![(0, "Amazing".to_string()), (1, "grace".to_string()), (2, "how".to_string())]
    );
}

#[test]
fn compose_groups_and_labels_lines() {
    let list = lines(&["Amazing", "grace", "how", "sweet", "the sound"]);
    let sections = parse_sections(b"[Verse](0..2) [Tag](3)").unwrap();
    let song = Lyrics::new(None, None, sections);
    let out = song.compose(&list);
    assert_eq!(out, vec!["[Verse]", "Amazing", "grace", "how", "[Tag]", "sweet", "~~~"]);
}

#[test]
fn title_and_author_precede_sections() {
    let list = lines(&["x"]);
    let sections = vec![LyricSection::new("A".to_string(), RangeOrNumber::Number(0))];
    let song = Lyrics::new(Some("Song".to_string()), Some("Artist".to_string()), sections);
    let out = song.compose(&list);
    assert_eq!(out, vec!["Song", "(Artist)", "", "[A]", "x", "~~~"]);
}

#[test]
fn absent_title_and_author_emit_nothing() {
    let song = Lyrics::new(None, None, Vec::new());
    assert_eq!(song.compose(&lines(&["x"])), vec!["~~~"]);
}

#[test]
fn author_alone_still_gets_its_blank_line() {
    let song = Lyrics::new(None, Some("Artist".to_string()), Vec::new());
    assert_eq!(song.compose(&lines(&[])), vec!["(Artist)", "", "~~~"]);
}

#[test]
fn single_selector_picks_exactly_its_index() {
    let list = lines(&["a", "b", "c"]);
    let sections = vec![LyricSection::new("S".to_string(), RangeOrNumber::Number(1))];
    let out = Lyrics::new(None, None, sections).compose(&list);
    assert_eq!(out, vec!["[S]", "b", "~~~"]);
}

#[test]
fn range_selector_is_inclusive_on_both_ends() {
    let list = lines(&["a", "b", "c", "d"]);
    let sections = vec![LyricSection::new("R".to_string(), RangeOrNumber::Range(1, 2))];
    let out = Lyrics::new(None, None, sections).compose(&list);
    assert_eq!(out, vec!["[R]", "b", "c", "~~~"]);
}

#[test]
fn a_line_may_appear_under_several_sections() {
    let list = lines(&["a", "b"]);
    let sections = parse_sections(b"[One](0..1) [Two](1)").unwrap();
    let out = Lyrics::new(None, None, sections).compose(&list);
    assert_eq!(out, vec!["[One]", "a", "b", "[Two]", "b", "~~~"]);
}

#[test]
fn lines_come_out_in_original_order_within_a_section() {
    let list = lines(&["first", "second", "third"]);
    let sections = parse_sections(b"[All](0..2)").unwrap();
    let out = Lyrics::new(None, None, sections).compose(&list);
    assert_eq!(out, vec!["[All]", "first", "second", "third", "~~~"]);
}

#[test]
fn section_order_follows_declaration_not_indices() {
    let list = lines(&["a", "b"]);
    let sections = parse_sections(b"[Late](1) [Early](0)").unwrap();
    let out = Lyrics::new(None, None, sections).compose(&list);
    assert_eq!(out, vec!["[Late]", "b", "[Early]", "a", "~~~"]);
}

#[test]
fn empty_match_keeps_the_header() {
    let list = lines(&["a", "b"]);
    let sections = vec![LyricSection::new("Ghostly".to_string(), RangeOrNumber::Range(10, 20))];
    let out = Lyrics::new(None, None, sections).compose(&list);
    assert_eq!(out, vec!["[Ghostly]", "~~~"]);
}

#[test]
fn inverted_range_matches_no_line() {
    let list = lines(&["a", "b", "c", "d", "e", "f"]);
    let sections = parse_sections(b"[Chorus](5..2)").unwrap();
    let out = Lyrics::new(None, None, sections).compose(&list);
    assert_eq!(out, vec!["[Chorus]", "~~~"]);
}

#[test]
fn out_of_bounds_single_matches_no_line() {
    let list = lines(&["a"]);
    let sections = vec![LyricSection::new("S".to_string(), RangeOrNumber::Number(7))];
    let out = Lyrics::new(None, None, sections).compose(&list);
    assert_eq!(out, vec!["[S]", "~~~"]);
}
