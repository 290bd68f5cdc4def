use soroban_forge::orphan_modules::{analyze, declared_modules, Orphan};

const DECLARATIONS: &str = "// Test modules for the escrow contract.
//
// Every file in this directory must be declared here, or it is never compiled.

mod admin;
mod funding;
// mod funding_events;
mod coverage;
mod integration;
";

#[test]
fn files_missing_from_the_declaration_file_are_reported() {
    let files = [
        "admin.rs",
        "funding.rs",
        "coverage.rs",
        "integration.rs",
        "funding_events.rs",
        "pauser_version_view.rs",
        "settlement_upgrade_auth.rs",
    ];

    let orphans = analyze(DECLARATIONS, &files);
    let modules: Vec<&str> = orphans.iter().map(|o| o.module.as_str()).collect();

    let expected = vec![
        "funding_events",
        "pauser_version_view",
        "settlement_upgrade_auth",
    ];
    assert_eq!(modules, expected);
}

#[test]
fn a_fully_declared_directory_reports_nothing() {
    let files = ["admin.rs", "funding.rs", "coverage.rs", "integration.rs"];

    assert_eq!(analyze(DECLARATIONS, &files), Vec::new());
}

#[test]
fn the_orphan_carries_both_the_file_and_the_module_name() {
    let orphans = analyze("mod admin;\n", &["funding_events.rs"]);

    assert_eq!(orphans.len(), 1);
    assert_eq!(orphans[0].file, "funding_events.rs");
    assert_eq!(orphans[0].module, "funding_events");
}

#[test]
fn module_roots_and_non_rust_files_are_ignored() {
    let files = ["mod.rs", "lib.rs", "main.rs", "notes.txt", "README.md"];

    assert_eq!(analyze("", &files), Vec::new());
}

#[test]
fn a_commented_out_declaration_does_not_count() {
    let orphans = analyze("// mod admin;\n", &["admin.rs"]);

    assert_eq!(orphans.len(), 1);
    assert_eq!(orphans[0].module, "admin");
}

#[test]
fn a_declaration_in_a_block_comment_does_not_count() {
    let orphans = analyze("/* mod admin; */\n", &["admin.rs"]);

    assert_eq!(orphans.len(), 1);
}

#[test]
fn an_inline_module_counts_as_declared() {
    assert_eq!(analyze("mod admin { }\n", &["admin.rs"]), Vec::new());
}

#[test]
fn a_public_declaration_counts() {
    assert_eq!(analyze("pub mod admin;\n", &["admin.rs"]), Vec::new());
}

#[test]
fn an_attribute_before_the_declaration_does_not_hide_it() {
    let source = "#[rustfmt::skip]\nmod coverage;\n";

    assert_eq!(analyze(source, &["coverage.rs"]), Vec::new());
}

#[test]
fn a_declaration_inside_a_string_does_not_count() {
    let orphans = analyze("let s = \"mod admin;\";\n", &["admin.rs"]);

    assert_eq!(orphans.len(), 1);
}

#[test]
fn an_identifier_containing_mod_is_not_a_declaration() {
    let orphans = analyze("fn module_admin() {}\n", &["admin.rs"]);

    assert_eq!(orphans.len(), 1);
}

#[test]
fn declared_modules_returns_names_in_order() {
    let declared = declared_modules(DECLARATIONS);
    let expected = vec!["admin", "funding", "coverage", "integration"];

    assert_eq!(declared, expected);
}

#[test]
fn a_bare_rs_suffix_names_no_module() {
    assert_eq!(analyze("", &[".rs", "rs", "a.rs.bak"]), Vec::new());
}

#[test]
fn orphans_keep_the_order_of_the_file_list() {
    let orphans = analyze("mod b;\n", &["c.rs", "b.rs", "a.rs"]);
    let expected = vec![
        Orphan { file: "c.rs".to_string(), module: "c".to_string() },
        Orphan { file: "a.rs".to_string(), module: "a".to_string() },
    ];

    assert_eq!(orphans, expected);
}

#[test]
fn a_declaration_inside_a_raw_string_or_char_does_not_count() {
    let declared = declared_modules("let s = r#\"mod a;\"#;\nlet c = 'm';\nmod b;\n");

    assert_eq!(declared, vec!["b"]);
}

#[test]
fn a_declaration_split_across_lines_counts() {
    assert_eq!(declared_modules("mod\n    spread;\n"), vec!["spread"]);
}

#[test]
fn joined_sources_declare_the_first_part_then_the_second() {
    let first = "// head\nmod alpha;\nlet s = \"mod fake;\";\n";
    let second = "/* mod hidden; */ mod beta;\nmod gamma { }\n";
    let joined = format!("{first}{second}");
    let mut expected = declared_modules(first);
    expected.extend(declared_modules(second));
    assert_eq!(expected, vec!["alpha", "beta", "gamma"]);
    assert_eq!(declared_modules(&joined), expected);
}

#[test]
fn a_first_part_that_ends_inside_a_comment_swallows_the_second() {
    let first = "mod alpha; /* open ;\n";
    let second = "*/ mod beta;\n";
    let joined = format!("{first}{second}");
    assert_eq!(declared_modules(first), vec!["alpha"]);
    assert_eq!(declared_modules(&joined), vec!["alpha", "beta"]);
    let third = "mod gamma;\n";
    assert_eq!(declared_modules(&format!("{first}{third}")), vec!["alpha"]);
}
