use flp_extract_fxp::naming::{
    naming_fallback, next_output_file_name, render_name_template, sanitize_template_value,
    template_base, UsedNames, DEFAULT_NAME_TEMPLATE,
};
use flp_extract_fxp::report::{
    extract_error, extract_status, validate_error, CommandReport, ConvertReport, ExtractStatus,
    ListReport, PatchReport, ValidateInputReport, ValidateReport,
};

#[test]
fn default_template_reproduces_current_naming() {
    assert_eq!(render_name_template("{index}_{preset}", 3, "Lead", "Ch", "A", "C"), "03_Lead");
    assert_eq!(render_name_template("{index}_{preset}", 2, "", "Chan", "", ""), "02_Chan");
    assert_eq!(render_name_template("{index}_{preset}", 4, "", "", "", ""), "04_Serum 4");
}

#[test]
fn template_placeholders_and_unknowns() {
    assert_eq!(render_name_template("{preset}_{author}", 1, "Lead", "Ch", "X", "C"), "Lead_X");
    assert_eq!(render_name_template("{channel}_{category}", 1, "P", "Bass", "A", "Cat"), "Bass_Cat");
    assert_eq!(render_name_template("{bogus}", 1, "P", "Ch", "A", "C"), "P");
    assert_eq!(render_name_template("x{nope}y", 1, "P", "Ch", "A", "C"), "xy");
    assert_eq!(render_name_template("weird{x", 1, "P", "", "", ""), "weird{x");
}

#[test]
fn template_values_are_sanitized_individually() {
    assert_eq!(render_name_template("{preset}", 1, "../../etc/passwd", "Ch", "", ""), "_.._etc_passwd");
    assert_eq!(render_name_template("{author}", 1, "P", "Ch", "a/b\\c:d", ""), "a_b_c_d");
    assert_eq!(render_name_template("a/b_{preset}", 1, "P", "", "", ""), "a/b_P");
}

#[test]
fn default_template_duplicates_match_legacy_names() {
    let mut used_names = UsedNames::new();
    let mut names = Vec::new();
    for i in 0..3 {
        let index = i + 1;
        let preset = if i == 2 { "Bass" } else { "Lead" };
        let base = template_base(DEFAULT_NAME_TEMPLATE, index, preset, "Ch", "", "");
        names.push(next_output_file_name(&mut used_names, &base, index, true));
    }
    assert_eq!(names, ["01_Lead.fxp", "02_Lead_2.fxp", "03_Bass.fxp"]);
}

#[test]
fn custom_template_duplicates_get_suffix() {
    let mut used_names = UsedNames::new();
    let mut names = Vec::new();
    for i in 0..2 {
        let index = i + 1;
        let base = template_base("{preset}", index, "Lead", "", "A", "C");
        names.push(next_output_file_name(&mut used_names, &base, index, false));
    }
    assert_eq!(names, ["Lead.fxp", "Lead_2.fxp"]);
    assert_eq!(template_base("{preset}_{index}", 1, "Lead", "", "", ""), "Lead_01");
    assert_eq!(template_base("{preset}_{index}", 2, "Lead", "", "", ""), "Lead_02");
    assert_eq!(template_base(DEFAULT_NAME_TEMPLATE, 7, "Lead", "Ch", "", ""), "Lead");
}

#[test]
fn empty_template_render_falls_back() {
    assert_eq!(render_name_template("{author}", 1, "P", "Ch", "", ""), "P");
    assert_eq!(render_name_template("{unknown}", 5, "", "", "", ""), "Serum 5");
    assert_eq!(render_name_template("", 7, "", "Chan", "", ""), "Chan");
}

#[test]
fn fallback_chain_and_value_sanitizing() {
    assert_eq!(naming_fallback(3, "P", "C"), "P");
    assert_eq!(naming_fallback(3, "", "C"), "C");
    assert_eq!(naming_fallback(12, "", ""), "Serum 12");
    assert_eq!(sanitize_template_value(""), "");
    assert_eq!(sanitize_template_value("..."), "Untitled");
    assert_eq!(sanitize_template_value("a:b"), "a_b");
}

#[test]
fn index_pads_to_two_digits_only() {
    assert_eq!(render_name_template("{index}", 7, "P", "", "", ""), "07");
    assert_eq!(render_name_template("{index}", 123, "P", "", "", ""), "123");
}

#[test]
fn dedup_counters_are_per_base() {
    let mut used = UsedNames::new();
    assert_eq!(next_output_file_name(&mut used, "A", 1, false), "A.fxp");
    assert_eq!(next_output_file_name(&mut used, "B", 2, false), "B.fxp");
    assert_eq!(next_output_file_name(&mut used, "A", 3, false), "A_2.fxp");
    assert_eq!(next_output_file_name(&mut used, "A", 4, true), "04_A_3.fxp");
    assert_eq!(next_output_file_name(&mut used, "B", 5, true), "05_B_2.fxp");
}

// ---------------------------------------------------------------------------
// reports

#[test]
fn terminal_error_is_present_only_when_set() {
    let mut report = ConvertReport { inputs: vec![], converted_count: 0, error: None };
    assert_eq!(report.error(), None);
    report.error = Some("no instances converted".into());
    assert_eq!(report.error(), Some("no instances converted"));
}

#[test]
fn list_report_never_carries_an_error() {
    let report = ListReport { inputs: vec![], preset_count: 0 };
    assert_eq!(report.error(), None);
    let patch = PatchReport {
        input: "a.fxp".into(),
        output: "<dry-run>".into(),
        dry_run: true,
        patched: 1,
        warnings: vec![],
    };
    assert_eq!(patch.error(), None);
}

#[test]
fn validate_report_error_follows_results() {
    let report = ValidateReport {
        inputs: vec![ValidateInputReport {
            input: "a.fxp".into(),
            valid: true,
            errors: vec![],
            warnings: vec!["w".into()],
            preset_name: Some("P".into()),
        }],
        error: validate_error(true),
    };
    assert_eq!(report.error(), None);
    assert_eq!(validate_error(false).as_deref(), Some("validation failed"));
}

#[test]
fn extract_status_decision_order() {
    assert_eq!(extract_status(true, true, false, false, false), ExtractStatus::Duplicate);
    assert_eq!(extract_status(false, true, false, false, false), ExtractStatus::Exists);
    assert_eq!(extract_status(false, true, true, false, false), ExtractStatus::Invalid);
    assert_eq!(extract_status(false, false, false, false, true), ExtractStatus::Written);
    assert_eq!(extract_status(false, false, false, true, false), ExtractStatus::Written);
}

#[test]
fn extract_error_messages() {
    assert_eq!(
        extract_error(2, 5).as_deref(),
        Some("2 preset(s) failed Serum2 validation (see above)")
    );
    assert_eq!(extract_error(0, 0).as_deref(), Some("no presets extracted"));
    assert_eq!(extract_error(0, 3), None);
}
