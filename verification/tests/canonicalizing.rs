use fuzzywuzzy::full_process;
use fuzzywuzzy::validate_string;

#[test]
fn full_process_lowercases() {
    assert_eq!(full_process("Lorem Ipsum", false), "lorem ipsum");
    assert_eq!(full_process("ABC", false), "abc");
}

#[test]
fn full_process_replaces_non_alphanumerics() {
    assert_eq!(full_process("C'est la vie", false), "c est la vie");
    assert_eq!(full_process("a?b", false), "a b");
}

#[test]
fn full_process_trims_whitespace() {
    assert_eq!(full_process("  a  ", false), "a");
    assert_eq!(full_process("¬Camarões assados", false), "camarões assados");
}

#[test]
fn full_process_filters_ascii_before_substitution() {
    assert_eq!(full_process("Ça va?", false), "ça va");
    assert_eq!(full_process("Ça va?", true), "a va");
    assert_eq!(full_process("a¬4ሴ2€耀", true), "a42");
    assert_eq!(full_process("a¬4ሴ2€耀", false), "a 4ሴ2 耀");
    assert_eq!(full_process("Á", true), "");
}

#[test]
fn full_process_handles_accented_letters() {
    assert_eq!(full_process("Á", false), "á");
    assert_eq!(full_process("Cães danados", true), "ces danados");
}

#[test]
fn full_process_handles_expanding_lowercase() {
    // the dotted capital I lowercases to two scalar values
    assert_eq!(full_process("\u{130}", false), "i\u{307}");
}

#[test]
fn full_process_of_empty_is_empty() {
    assert_eq!(full_process("", false), "");
    assert_eq!(full_process("", true), "");
}

#[test]
fn full_process_is_idempotent_on_samples() {
    let samples = ["Ça va?", "a¬4ሴ2€耀", "  Lorem   Ipsum  ", "C'est la vie", "", "y̆es"];
    for s in samples {
        for force_ascii in [false, true] {
            let once = full_process(s, force_ascii);
            let twice = full_process(&once, force_ascii);
            assert_eq!(twice, once);
        }
    }
}

#[test]
fn validate_string_rejects_only_empty() {
    assert_eq!(validate_string(""), false);
    assert_eq!(validate_string("anything else"), true);
    assert_eq!(validate_string(" "), true);
}
