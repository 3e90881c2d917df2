use turbo_persistence::format_parts::{
    extract_captured_variables, is_captured_ident, is_captured_ident_given, FormatIter, FormatPart,
};

#[test]
fn format_iter_all_parts() {
    let parts: Vec<_> = FormatIter::new("{{}} hello {name}, {age:>3} {} {0}").collect();
    assert_eq!(
        parts,
        vec![
            FormatPart::EscapedBrace("{{"),
            FormatPart::EscapedBrace("}}"),
            FormatPart::RawString(" hello "),
            FormatPart::VarRef("name"),
            FormatPart::RawString(", "),
            FormatPart::VarRefFormat("age", ":>3"),
            FormatPart::RawString(" "),
            FormatPart::VarRef(""),
            FormatPart::RawString(" "),
            FormatPart::VarRef("0"),
        ]
    );
}

#[test]
fn extract_captures() {
    // Only plain idents (not positional, not format-specced, not escaped), deduplicated
    let vars = extract_captured_variables("{{x}} {name} {age:?} {_x} {0} {name}");
    assert_eq!(vars, vec!["name", "_x"]);
}

#[test]
fn format_iter_empty_input_has_no_parts() {
    let parts = FormatIter::new("").collect();
    assert!(parts.is_empty());
}

#[test]
fn format_iter_next_steps_one_part_at_a_time() {
    let mut iter = FormatIter::new("a{b}");
    assert_eq!(iter.next(), Some(FormatPart::RawString("a")));
    assert_eq!(iter.next(), Some(FormatPart::VarRef("b")));
    assert_eq!(iter.next(), None);
    assert_eq!(iter.next(), None);
}

#[test]
fn format_iter_lone_closing_brace_is_raw_text() {
    let parts = FormatIter::new("a}b").collect();
    assert_eq!(
        parts,
        vec![
            FormatPart::RawString("a"),
            FormatPart::RawString("}"),
            FormatPart::RawString("b"),
        ]
    );
}

#[test]
fn format_iter_unterminated_reference_runs_to_the_end() {
    let parts = FormatIter::new("x{name:spec").collect();
    assert_eq!(
        parts,
        vec![
            FormatPart::RawString("x"),
            FormatPart::VarRefFormat("name", ":spec"),
        ]
    );
}

#[test]
fn format_iter_first_colon_splits_the_spec() {
    let parts = FormatIter::new("{a:b:c}").collect();
    assert_eq!(parts, vec![FormatPart::VarRefFormat("a", ":b:c")]);
}

#[test]
fn format_iter_keeps_multibyte_text_whole() {
    let parts = FormatIter::new("héllo {wörld} ✓").collect();
    assert_eq!(
        parts,
        vec![
            FormatPart::RawString("héllo "),
            FormatPart::VarRef("wörld"),
            FormatPart::RawString(" ✓"),
        ]
    );
}

#[test]
fn format_iter_parts_reconstruct_a_well_formed_input() {
    let input = "a {{b}} {c} {d:?} e";
    let mut rebuilt = String::new();
    for part in FormatIter::new(input).collect() {
        match part {
            FormatPart::RawString(s) | FormatPart::EscapedBrace(s) => rebuilt.push_str(s),
            FormatPart::VarRef(n) => {
                rebuilt.push('{');
                rebuilt.push_str(n);
                rebuilt.push('}');
            }
            FormatPart::VarRefFormat(n, f) => {
                rebuilt.push('{');
                rebuilt.push_str(n);
                rebuilt.push_str(f);
                rebuilt.push('}');
            }
        }
    }
    assert_eq!(rebuilt, input);
}

#[test]
fn captured_ident_rules() {
    assert!(is_captured_ident("name"));
    assert!(is_captured_ident("_x"));
    assert!(is_captured_ident("a1_b2"));
    assert!(is_captured_ident("größe"));
    assert!(!is_captured_ident(""));
    assert!(!is_captured_ident("0"));
    assert!(!is_captured_ident("1abc"));
    assert!(!is_captured_ident("a-b"));
    assert!(!is_captured_ident("a b"));
}

#[test]
fn extract_captures_skips_format_specs_and_keeps_first_occurrence_order() {
    let vars = extract_captured_variables("{b} {a} {b:?} {a} {c}");
    assert_eq!(vars, vec!["b", "a", "c"]);
}

#[test]
fn extract_captures_of_text_without_references_is_empty() {
    assert!(extract_captured_variables("plain {{text}}").is_empty());
}

#[test]
fn captured_ident_follows_the_given_character_classes() {
    // The classes are taken as given, whatever the characters are.
    assert!(!is_captured_ident_given("ab", &vec![false, true], &vec![true, true]));
    assert!(is_captured_ident_given("ab", &vec![true, false], &vec![false, true]));
    assert!(!is_captured_ident_given("ab", &vec![true, true], &vec![true, false]));
    // `_` is accepted in any position whatever its classes.
    assert!(is_captured_ident_given("_1", &vec![false, false], &vec![false, true]));
    assert!(is_captured_ident_given("a_", &vec![true, false], &vec![false, false]));
    assert!(!is_captured_ident_given("", &vec![], &vec![]));
}
