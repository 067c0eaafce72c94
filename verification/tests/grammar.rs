use yarls::models::{RangeOrNumber, SupportedDomain};
use yarls::parse::{create_section, match_domain, parse_sections, valid_target_domain};

#[test]
fn single_token_parses() {
    let (sec, used) = create_section(b"[Verse](0)").unwrap();
    assert_eq!(sec.header, "Verse");
    assert_eq!(sec.words, RangeOrNumber::Number(0));
    assert_eq!(used, 10);
}

#[test]
fn range_token_parses() {
    let (sec, used) = create_section(b"[Chorus](2..4)").unwrap();
    assert_eq!(sec.header, "Chorus");
    assert_eq!(sec.words, RangeOrNumber::Range(2, 4));
    assert_eq!(used, 14);
}

#[test]
fn inverted_range_is_syntactically_valid() {
    let (sec, _) = create_section(b"[Chorus](5..2)").unwrap();
    assert_eq!(sec.words, RangeOrNumber::Range(5, 2));
}

#[test]
fn leading_zeros_parse_to_same_value() {
    let (sec, _) = create_section(b"[A](007)").unwrap();
    assert_eq!(sec.words, RangeOrNumber::Number(7));
}

#[test]
fn serialized_form_parses_back() {
    let (sec, _) = create_section(b"[A](007..010)").unwrap();
    assert_eq!(sec.words, RangeOrNumber::Range(7, 10));
    // The canonical re-serialization of that section parses back to
    // an equivalent one.
    let (again, used) = create_section(b"[A](7..10)").unwrap();
    assert_eq!(used, 10);
    assert_eq!(again.header, sec.header);
    assert_eq!(again.words, sec.words);
}

#[test]
fn missing_open_bracket_fails() {
    assert!(create_section(b"Verse](1)").is_err());
}

#[test]
fn empty_header_fails() {
    assert!(create_section(b"[](1)").is_err());
}

#[test]
fn non_alnum_header_fails() {
    assert!(create_section(b"[Ve-rse](1)").is_err());
}

#[test]
fn missing_number_fails() {
    assert!(create_section(b"[A]()").is_err());
}

#[test]
fn number_too_large_fails() {
    assert!(create_section(b"[A](4294967296)").is_err());
    let (sec, _) = create_section(b"[A](4294967295)").unwrap();
    assert_eq!(sec.words, RangeOrNumber::Number(u32::MAX));
}

#[test]
fn dots_without_second_number_fail() {
    assert!(create_section(b"[A](1..)").is_err());
}

#[test]
fn trailing_input_is_left_to_the_caller() {
    let (sec, used) = create_section(b"[A](1) [B](2)").unwrap();
    assert_eq!(sec.header, "A");
    assert_eq!(used, 6);
}

#[test]
fn section_list_preserves_order() {
    let sections = parse_sections(b"[Verse](0..2) [Tag](3)").unwrap();
    assert_eq!(sections.len(), 2);
    assert_eq!(sections[0].header, "Verse");
    assert_eq!(sections[0].words, RangeOrNumber::Range(0, 2));
    assert_eq!(sections[1].header, "Tag");
    assert_eq!(sections[1].words, RangeOrNumber::Number(3));
}

#[test]
fn duplicate_headers_are_legal() {
    let sections = parse_sections(b"[Chorus](0) [Chorus](0)").unwrap();
    assert_eq!(sections.len(), 2);
    assert_eq!(sections[0].header, sections[1].header);
}

#[test]
fn list_input_is_trimmed() {
    let sections = parse_sections(b"  [A](1) [B](2)  \n").unwrap();
    assert_eq!(sections.len(), 2);
}

#[test]
fn empty_input_yields_empty_list() {
    assert_eq!(parse_sections(b"").unwrap().len(), 0);
    assert_eq!(parse_sections(b"   \n").unwrap().len(), 0);
}

#[test]
fn space_inside_header_fails_with_offending_token() {
    let err = parse_sections(b"[Ch orus](1)").unwrap_err();
    assert_eq!(err.fragment, b"[Ch".to_vec());
}

#[test]
fn first_failing_token_is_reported() {
    let err = parse_sections(b"[A](1) [B](x) [C](2)").unwrap_err();
    assert_eq!(err.fragment, b"[B](x)".to_vec());
}

#[test]
fn token_with_trailing_junk_fails_the_list() {
    let err = parse_sections(b"[A](1)x").unwrap_err();
    assert_eq!(err.fragment, b"[A](1)x".to_vec());
}

#[test]
fn double_space_makes_an_empty_token_fail() {
    let err = parse_sections(b"[A](1)  [B](2)").unwrap_err();
    assert_eq!(err.fragment, b"".to_vec());
}

#[test]
fn which_builds_single_or_range() {
    assert_eq!(RangeOrNumber::which((4, None)), RangeOrNumber::Number(4));
    assert_eq!(RangeOrNumber::which((4, Some(9))), RangeOrNumber::Range(4, 9));
}

#[test]
fn known_domain_with_www_is_recognized() {
    let d = match_domain(b"https://www.genius.com/some-song").unwrap();
    assert_eq!(d, Some(SupportedDomain::Genius));
}

#[test]
fn known_domain_without_www_is_recognized() {
    let d = match_domain(b"http://hillsong.com/x").unwrap();
    assert_eq!(d, Some(SupportedDomain::Hillsong));
}

#[test]
fn wrong_suffix_is_a_grammar_error() {
    assert!(match_domain(b"https://example.org/page").is_err());
}

#[test]
fn missing_scheme_is_a_grammar_error() {
    assert!(match_domain(b"www.genius.com").is_err());
}

#[test]
fn www_alone_is_a_grammar_error() {
    // "www." is consumed as the optional prefix, so no name remains
    // before ".com" and the shape does not match.
    assert!(match_domain(b"http://www.com").is_err());
}

#[test]
fn unknown_name_is_not_a_grammar_error() {
    let d = match_domain(b"https://example.com").unwrap();
    assert_eq!(d, None);
}

#[test]
fn validator_accepts_known_source() {
    assert!(valid_target_domain("https://www.azlyrics.com/lyrics/x.html").is_ok());
}

#[test]
fn validator_lists_every_source_for_unknown_name() {
    let msg = valid_target_domain("https://example.com").unwrap_err();
    assert_eq!(msg, SupportedDomain::print_variants());
    for name in [
        "metrolyrics",
        "genius",
        "worshiptogether",
        "azlyrics",
        "bethelmusic",
        "hillsong",
    ] {
        assert!(msg.contains(name));
    }
}

#[test]
fn validator_reports_shape_errors() {
    let msg = valid_target_domain("https://example.org/page").unwrap_err();
    assert!(msg.contains("http(s)://"));
}

#[test]
fn registry_lookup_is_exact_and_case_sensitive() {
    assert_eq!(SupportedDomain::new("genius"), Some(SupportedDomain::Genius));
    assert_eq!(SupportedDomain::new("metrolyrics"), Some(SupportedDomain::Metrolyrics));
    assert_eq!(SupportedDomain::new("worshiptogether"), Some(SupportedDomain::Worshiptogether));
    assert_eq!(SupportedDomain::new("azlyrics"), Some(SupportedDomain::Azlyrics));
    assert_eq!(SupportedDomain::new("bethelmusic"), Some(SupportedDomain::BethelMusic));
    assert_eq!(SupportedDomain::new("hillsong"), Some(SupportedDomain::Hillsong));
    assert_eq!(SupportedDomain::new("Genius"), None);
    assert_eq!(SupportedDomain::new("metrolyric"), None);
    assert_eq!(SupportedDomain::new(""), None);
}

#[test]
fn variants_message_is_exact() {
    assert_eq!(
        SupportedDomain::print_variants(),
        "Use a supported domain: [metrolyrics.com] [genius.com] [worshiptogether.com] \
         [azlyrics.com] [bethelmusic.com] [hillsong.com] "
    );
}

#[test]
fn domain_names_round_trip_through_the_registry() {
    for d in [
        SupportedDomain::Metrolyrics,
        SupportedDomain::Genius,
        SupportedDomain::Worshiptogether,
        SupportedDomain::Azlyrics,
        SupportedDomain::BethelMusic,
        SupportedDomain::Hillsong,
    ] {
        assert_eq!(SupportedDomain::new(&d.name()), Some(d));
    }
}
