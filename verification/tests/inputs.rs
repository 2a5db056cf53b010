use flp_extract_fxp::inputs::{component_match, glob_match, has_flp_ext, is_glob, sorted_unique};

fn v(parts: &[&str]) -> Vec<String> {
    parts.iter().map(|s| s.to_string()).collect()
}

#[test]
fn components_match_with_wildcards_ignoring_case() {
    assert!(component_match("*.flp", "alpha.flp"));
    assert!(component_match("*.flp", "beta.FLP"));
    assert!(component_match("?.flp", "c.flp"));
    assert!(!component_match("?.flp", "alpha.flp"));
    assert!(!component_match("*.flp", "notes.txt"));
    assert!(component_match("a*a", "aa"));
    assert!(!component_match("a*a", "a"));
    assert!(component_match("", ""));
}

#[test]
fn double_star_spans_any_number_of_levels() {
    let pat = v(&["**", "*.flp"]);
    assert!(glob_match(&pat, &v(&["alpha.flp"])));
    assert!(glob_match(&pat, &v(&["sub", "gamma.flp"])));
    assert!(glob_match(&pat, &v(&["sub", "deep", "delta.flp"])));
    assert!(!glob_match(&pat, &v(&["sub", "notes.txt"])));
    let top = v(&["*.flp"]);
    assert!(glob_match(&top, &v(&["alpha.flp"])));
    assert!(!glob_match(&top, &v(&["sub", "gamma.flp"])));
}

#[test]
fn glob_components_and_extensions() {
    assert!(is_glob("*.flp"));
    assert!(is_glob("a?"));
    assert!(!is_glob("projects"));
    assert!(has_flp_ext("x.FLP"));
    assert!(has_flp_ext(".flp"));
    assert!(!has_flp_ext("x.flpx"));
}

#[test]
fn results_are_sorted_and_unique() {
    let r = sorted_unique(v(&["b.flp", "a.flp", "b.flp", "A.flp", "a.flp"]));
    assert_eq!(r, v(&["A.flp", "a.flp", "b.flp"]));
    assert!(sorted_unique(Vec::new()).is_empty());
}
