use elysium_lsp::compile_commands::{default_clang_args, CompileCommandEntry, CompileCommands};
use elysium_lsp::hooks::{build_hook_definition, build_hook_usage, HookInvocationKind, HookPlugin};
use elysium_lsp::init::{build_target, InitDependencyPlugin};
use elysium_lsp::position::{location_to_position, range_contains, Position, Range};
use elysium_lsp::protocol::{CompletionKind, FileDiagnostics, Severity};
use elysium_lsp::state::{Plugin, State};
use elysium_lsp::text::{is_c_source_path, strip_quotes};
use elysium_lsp::tokens::{
    macro_argument_region, split_macro_args, tokens_range, tokens_to_string, MacroExpansion,
    Token, TokenKind,
};

fn pos(line: u32, character: u32) -> Position {
    Position::new(line, character)
}

/// Lays the tokens out on one line, a space apart, starting at column 0.
fn lay_out(line: u32, parts: &[&str]) -> Vec<Token> {
    let mut col: u32 = 0;
    let mut out = Vec::new();
    for p in parts {
        let kind = if p.starts_with('"') {
            TokenKind::Literal
        } else if p.chars().all(|c| c.is_alphanumeric() || c == '_') {
            TokenKind::Identifier
        } else {
            TokenKind::Punctuation
        };
        let len = p.chars().count() as u32;
        let range = Range::new(pos(line, col), pos(line, col + len));
        out.push(Token::new(p.to_string(), kind, Some(range)));
        col += len + 1;
    }
    out
}

fn expansion(line: u32, parts: &[&str]) -> MacroExpansion {
    let tokens = lay_out(line, parts);
    let extent = Range::new(tokens[0].range.unwrap().start, tokens[tokens.len() - 1].range.unwrap().end);
    MacroExpansion::new(parts[0].to_string(), Some(extent), tokens)
}

fn texts_of(groups: &Vec<Vec<Token>>) -> Vec<String> {
    groups.iter().map(|g| tokens_to_string(g)).collect()
}

fn messages(report: &Vec<FileDiagnostics>) -> Vec<String> {
    report.iter().flat_map(|f| f.diagnostics.iter().map(|d| d.message.clone())).collect()
}

#[test]
fn split_keeps_nested_parentheses() {
    let toks = lay_out(0, &["FOO", "(", "a", ",", "(", "b", ",", "c", ")", ",", "d", ")"]);
    let groups = split_macro_args(&toks);
    assert_eq!(texts_of(&groups), vec!["a".to_string(), "(b,c)".to_string(), "d".to_string()]);
}

#[test]
fn split_ignores_tokens_before_the_first_parenthesis() {
    let toks = lay_out(0, &["X", ",", "Y", "(", "a", ")", "b"]);
    let groups = split_macro_args(&toks);
    assert_eq!(texts_of(&groups), vec!["a".to_string()]);
}

#[test]
fn split_without_closing_parenthesis_drops_the_open_group() {
    let toks = lay_out(0, &["F", "(", "a", ",", "b"]);
    let groups = split_macro_args(&toks);
    assert_eq!(texts_of(&groups), vec!["a".to_string()]);
}

#[test]
fn split_of_empty_call_has_one_empty_group() {
    let toks = lay_out(0, &["F", "(", ")"]);
    let groups = split_macro_args(&toks);
    assert_eq!(groups.len(), 1);
    assert!(groups[0].is_empty());
}

#[test]
fn argument_region_spans_the_outer_parentheses() {
    // F ( a ( b ) )  at columns 0 2 4 6 8 10 12
    let toks = lay_out(3, &["F", "(", "a", "(", "b", ")", ")"]);
    let region = macro_argument_region(&toks).unwrap();
    assert_eq!(region, Range::new(pos(3, 3), pos(3, 12)));
}

#[test]
fn argument_region_needs_a_closing_parenthesis() {
    let toks = lay_out(0, &["F", "(", "a"]);
    assert_eq!(macro_argument_region(&toks), None);
}

#[test]
fn tokens_range_merges_first_and_last() {
    let toks = lay_out(2, &["a", "+", "bc"]);
    assert_eq!(tokens_range(&toks), Some(Range::new(pos(2, 0), pos(2, 6))));
    assert_eq!(tokens_range(&Vec::new()), None);
}

#[test]
fn containment_includes_both_ends() {
    let r = Range::new(pos(1, 4), pos(3, 2));
    assert!(range_contains(&r, &pos(1, 4)));
    assert!(range_contains(&r, &pos(3, 2)));
    assert!(range_contains(&r, &pos(2, 100)));
    assert!(!range_contains(&r, &pos(1, 3)));
    assert!(!range_contains(&r, &pos(3, 3)));
    assert!(!range_contains(&r, &pos(0, 9)));
    assert!(!range_contains(&r, &pos(4, 0)));
    let one = Range::new(pos(5, 2), pos(5, 4));
    assert!(range_contains(&one, &pos(5, 3)));
    assert!(!range_contains(&one, &pos(5, 1)));
    assert!(!range_contains(&one, &pos(5, 5)));
}

#[test]
fn locations_become_zero_based() {
    assert_eq!(location_to_position(1, 1), pos(0, 0));
    assert_eq!(location_to_position(12, 7), pos(11, 6));
    assert_eq!(location_to_position(0, 0), pos(0, 0));
}

#[test]
fn hook_definition_trims_its_name() {
    let mut e = expansion(0, &["HOOK", "(", "build", ")"]);
    e.tokens[2].spelling = "  build ".to_string();
    let d = build_hook_definition(&e).unwrap();
    assert_eq!(d.name, "build");
}

#[test]
fn hook_definition_needs_one_argument() {
    let e = expansion(0, &["HOOK", "(", "a", ",", "b", ")"]);
    assert!(build_hook_definition(&e).is_none());
    assert!(build_hook_usage(&e, HookInvocationKind::Definition).is_none());
    let blank = expansion(0, &["HOOK", "(", ")"]);
    assert!(build_hook_definition(&blank).is_none());
}

#[test]
fn empty_hook_run_is_recorded_with_its_region() {
    let e = expansion(4, &["HOOK_RUN", "(", ")"]);
    let v = build_hook_usage(&e, HookInvocationKind::Run).unwrap();
    assert_eq!(v.name, "");
    assert_eq!(v.argument_region, Range::new(pos(4, 10), pos(4, 11)));
    assert_eq!(v.name_range, v.argument_region);
}

#[test]
fn hook_usage_falls_back_to_the_extent() {
    let mut e = expansion(0, &["HOOK_RUN", "(", "x", ")"]);
    e.tokens[3].range = None;
    let v = build_hook_usage(&e, HookInvocationKind::Run).unwrap();
    assert_eq!(v.argument_region, e.extent.unwrap());
    assert_eq!(v.name_range, Range::new(pos(0, 11), pos(0, 12)));
}

fn hooks_with(files: &[(&str, Vec<MacroExpansion>)]) -> HookPlugin {
    let mut p = HookPlugin::new();
    for (path, es) in files {
        p.on_file_updated(path.to_string(), es);
    }
    p
}

#[test]
fn defined_hook_has_no_diagnostic() {
    let p = hooks_with(&[
        ("/p/a.c", vec![expansion(0, &["HOOK", "(", "build", ")"])]),
        ("/p/b.c", vec![expansion(0, &["HOOK_RUN", "(", "build", ")"])]),
    ]);
    assert!(p.diagnostics().is_empty());
}

#[test]
fn unknown_hook_has_one_error() {
    let p = hooks_with(&[
        ("/p/a.c", vec![expansion(0, &["HOOK", "(", "build", ")"])]),
        ("/p/b.c", vec![expansion(2, &["HOOK_RUN", "(", "missing", ")"])]),
    ]);
    let report = p.diagnostics();
    assert_eq!(report.len(), 1);
    assert_eq!(report[0].path, "/p/b.c");
    assert_eq!(report[0].diagnostics.len(), 1);
    let d = &report[0].diagnostics[0];
    assert_eq!(d.message, "Unknown hook 'missing'");
    assert_eq!(d.severity, Severity::Error);
    assert_eq!(d.source, "cronus-hooks");
    assert_eq!(d.range, Range::new(pos(2, 11), pos(2, 18)));
}

#[test]
fn empty_hook_run_is_not_diagnosed() {
    let p = hooks_with(&[("/p/a.c", vec![expansion(0, &["HOOK_RUN", "(", ")"])])]);
    assert!(p.diagnostics().is_empty());
}

#[test]
fn non_source_files_are_ignored() {
    let p = hooks_with(&[("/p/a.h", vec![expansion(0, &["HOOK_RUN", "(", "x", ")"])])]);
    assert!(p.diagnostics().is_empty());
    assert!(p.completions(&"/p/a.h".to_string(), &pos(0, 10)).is_none());
    assert!(is_c_source_path(&"/p/x.c".to_string()));
    assert!(!is_c_source_path(&"/p/.c".to_string()));
    assert!(!is_c_source_path(&"/p/x.cc".to_string()));
}

#[test]
fn hook_completions_are_sorted_and_unique() {
    let p = hooks_with(&[
        ("/p/a.c", vec![
            expansion(0, &["HOOK", "(", "zeta", ")"]),
            expansion(1, &["HOOK", "(", "alpha", ")"]),
        ]),
        ("/p/b.c", vec![
            expansion(0, &["HOOK", "(", "alpha", ")"]),
            expansion(1, &["HOOK_RUN", "(", "mid", ")"]),
        ]),
    ]);
    let items = p.completions(&"/p/b.c".to_string(), &pos(1, 11)).unwrap();
    let labels: Vec<String> = items.iter().map(|i| i.label.clone()).collect();
    assert_eq!(labels, vec!["alpha".to_string(), "zeta".to_string()]);
    assert!(items.iter().all(|i| i.kind == CompletionKind::Function && i.detail == "hook"));
}

#[test]
fn completions_inside_and_outside_regions() {
    let p = hooks_with(&[("/p/a.c", vec![expansion(3, &["HOOK", "(", "build", ")"])])]);
    let file = "/p/a.c".to_string();
    // the region runs from column 6 to column 13 on line 3
    assert!(!p.completions(&file, &pos(3, 8)).unwrap().is_empty());
    assert!(p.completions(&file, &pos(3, 6)).is_some());
    assert!(p.completions(&file, &pos(3, 13)).is_some());
    assert!(p.completions(&file, &pos(3, 14)).is_none());
    assert!(p.completions(&file, &pos(3, 5)).is_none());
    assert!(p.completions(&file, &pos(2, 8)).is_none());
    assert!(p.completions(&"/p/other.c".to_string(), &pos(3, 8)).is_none());
}

#[test]
fn reindexing_the_same_content_changes_nothing() {
    let es = vec![
        expansion(0, &["HOOK", "(", "a", ")"]),
        expansion(1, &["HOOK_RUN", "(", "b", ")"]),
    ];
    let mut p = HookPlugin::new();
    p.on_file_updated("/p/a.c".to_string(), &es);
    let first = messages(&p.diagnostics());
    p.on_file_updated("/p/a.c".to_string(), &es);
    assert_eq!(messages(&p.diagnostics()), first);
    assert_eq!(first, vec!["Unknown hook 'b'".to_string()]);
}

#[test]
fn removed_file_no_longer_counts() {
    let mut p = hooks_with(&[
        ("/p/a.c", vec![expansion(0, &["HOOK", "(", "build", ")"])]),
        ("/p/b.c", vec![expansion(0, &["HOOK_RUN", "(", "build", ")"])]),
    ]);
    assert!(p.diagnostics().is_empty());
    p.on_file_removed(&"/p/a.c".to_string());
    assert!(p.completions(&"/p/a.c".to_string(), &pos(0, 7)).is_none());
    assert!(!p.is_known(&"build".to_string()));
    let report = p.diagnostics();
    assert_eq!(report.len(), 1);
    assert_eq!(report[0].path, "/p/b.c");
    p.on_file_removed(&"/p/never.c".to_string());
    assert_eq!(p.diagnostics().len(), 1);
}

fn target(line: u32, name: &str, deps: &[&str]) -> MacroExpansion {
    let mut parts = vec!["INIT_TARGET", "(", name, ",", "STAGE", ",", "SCOPE", ",", "DEPS", "("];
    for (k, d) in deps.iter().enumerate() {
        if k > 0 {
            parts.push(",");
        }
        parts.push(d);
    }
    parts.push(")");
    parts.push(")");
    expansion(line, &parts)
}

#[test]
fn duplicate_unknown_dependency_gives_four_diagnostics() {
    let mut p = InitDependencyPlugin::new();
    p.on_file_updated("/p/a.c".to_string(), &vec![target(0, "t", &["\"a\"", "\"a\""])]);
    let report = p.diagnostics();
    assert_eq!(report.len(), 1);
    let d = &report[0].diagnostics;
    assert_eq!(d.len(), 4);
    let errors = d.iter().filter(|x| x.severity == Severity::Error).count();
    let warnings = d.iter().filter(|x| x.severity == Severity::Warning).count();
    assert_eq!((errors, warnings), (2, 2));
    assert!(d.iter().any(|x| x.message == "Unknown init dependency 'a'"));
    assert!(d.iter().any(|x| x.message == "Duplicate dependency 'a' in t"));
    assert!(d.iter().all(|x| x.source == "cronus-init"));
}

#[test]
fn known_dependency_has_no_diagnostic() {
    let mut p = InitDependencyPlugin::new();
    p.on_file_updated("/p/a.c".to_string(), &vec![target(0, "a", &[]), target(1, "b", &["\"a\""])]);
    assert!(p.diagnostics().is_empty());
}

#[test]
fn known_duplicate_dependency_is_a_warning() {
    let mut p = InitDependencyPlugin::new();
    p.on_file_updated("/p/a.c".to_string(), &vec![target(0, "a", &[]), target(1, "b", &["\"a\"", "\"a\""])]);
    let report = p.diagnostics();
    let d = &report[0].diagnostics;
    assert_eq!(d.len(), 2);
    assert!(d.iter().all(|x| x.severity == Severity::Warning));
}

#[test]
fn target_fields_and_dependency_region() {
    let e = target(2, "t", &["\"x\"", "\"y\""]);
    let t = build_target(&e, &"/p/a.c".to_string()).unwrap();
    assert_eq!(t.name, "t");
    assert_eq!(t.stage_expr, "STAGE");
    assert_eq!(t.scope_expr, "SCOPE");
    assert_eq!(t.file, "/p/a.c");
    assert_eq!(t.dependency_slots.len(), 2);
    assert_eq!(t.dependency_slots[0].name, "x");
    assert_eq!(t.dependency_slots[1].name, "y");
    // the list starts at DEPS and ends at the last literal's end
    let deps_start = e.tokens[8].range.unwrap().start;
    let last_literal_end = e.tokens[12].range.unwrap().end;
    assert_eq!(t.dependency_region, Range::new(deps_start, last_literal_end));
}

#[test]
fn target_needs_four_arguments() {
    let e = expansion(0, &["INIT_TARGET", "(", "a", ",", "b", ")"]);
    assert!(build_target(&e, &"/p/a.c".to_string()).is_none());
}

#[test]
fn init_completions_sort_without_case() {
    let mut p = InitDependencyPlugin::new();
    p.on_file_updated("/p/a.c".to_string(), &vec![target(0, "b", &[]), target(1, "C", &["\"b\""]), target(2, "a", &[])]);
    let line1 = p.completions(&"/p/a.c".to_string(), &pos(1, 36)).unwrap();
    let labels: Vec<String> = line1.iter().map(|i| i.label.clone()).collect();
    assert_eq!(labels, vec!["a".to_string(), "b".to_string(), "C".to_string()]);
    assert!(line1.iter().all(|i| i.kind == CompletionKind::Constant && i.detail == "STAGE/SCOPE"));
    assert!(p.completions(&"/p/a.c".to_string(), &pos(5, 0)).is_none());
}

#[test]
fn init_completions_keep_order_of_equal_keys() {
    let mut p = InitDependencyPlugin::new();
    p.on_file_updated("/p/a.c".to_string(), &vec![target(0, "X", &[]), target(1, "x", &[])]);
    let items = p.completions(&"/p/a.c".to_string(), &pos(0, 36)).unwrap();
    let labels: Vec<String> = items.iter().map(|i| i.label.clone()).collect();
    assert_eq!(labels, vec!["X".to_string(), "x".to_string()]);
}

#[test]
fn quotes_are_stripped_from_both_ends() {
    assert_eq!(strip_quotes(&"\"abc\"".to_string()), "abc");
    assert_eq!(strip_quotes(&"\"\"a\"b\"\"".to_string()), "a\"b");
    assert_eq!(strip_quotes(&"\"\"".to_string()), "");
    assert_eq!(strip_quotes(&"plain".to_string()), "plain");
}

#[test]
fn coordinator_merges_and_retracts() {
    let mut state = State::new(vec![Plugin::init_deps(), Plugin::hooks()]);
    let a = "/p/a.c".to_string();
    state.file_updated(&a, &vec![
        target(0, "t", &["\"nope\""]),
        expansion(1, &["HOOK_RUN", "(", "gone", ")"]),
    ]);
    let round1 = state.diagnostics();
    assert_eq!(round1.len(), 1);
    assert_eq!(messages(&round1), vec![
        "Unknown init dependency 'nope'".to_string(),
        "Unknown hook 'gone'".to_string(),
    ]);
    assert!(state.update_published(&round1).is_empty());
    state.file_updated(&a, &vec![expansion(0, &["HOOK", "(", "x", ")"])]);
    let round2 = state.diagnostics();
    assert!(round2.is_empty());
    let stale = state.update_published(&round2);
    assert_eq!(stale, vec![a.clone()]);
    assert!(state.update_published(&state.diagnostics()).is_empty());
}

#[test]
fn coordinator_completions_come_from_the_first_plugin_that_offers() {
    let mut state = State::new(vec![Plugin::init_deps(), Plugin::hooks()]);
    let a = "/p/a.c".to_string();
    state.file_updated(&a, &vec![expansion(0, &["HOOK", "(", "h", ")"]), target(1, "t", &[])]);
    let hooks = state.completions(&a, &pos(0, 6)).unwrap();
    assert_eq!(hooks[0].label, "h");
    let targets = state.completions(&a, &pos(1, 36)).unwrap();
    assert_eq!(targets[0].label, "t");
    state.file_removed(&a);
    assert!(state.completions(&a, &pos(0, 6)).is_none());
    assert!(state.diagnostics().is_empty());
}

#[test]
fn compile_entry_arguments_drop_the_compiler() {
    let listed = CompileCommandEntry {
        file: "/p/a.c".to_string(),
        arguments: Some(vec!["cc".to_string(), "-DX".to_string(), "-Iinc".to_string()]),
        command: None,
    };
    let (file, args) = listed.into_arguments();
    assert_eq!(file, "/p/a.c");
    assert_eq!(args, vec!["-DX".to_string(), "-Iinc".to_string()]);
    let command = CompileCommandEntry {
        file: "/p/b.c".to_string(),
        arguments: None,
        command: Some("cc -D'A B' \"-Iinc dir\" -c b.c".to_string()),
    };
    let (_, args) = command.into_arguments();
    assert_eq!(args, vec!["-DA B".to_string(), "-Iinc dir".to_string(), "-c".to_string(), "b.c".to_string()]);
    let broken = CompileCommandEntry {
        file: "/p/c.c".to_string(),
        arguments: None,
        command: Some("cc 'open".to_string()),
    };
    assert!(broken.into_arguments().1.is_empty());
    let bare = CompileCommandEntry { file: "/p/d.c".to_string(), arguments: None, command: None };
    assert!(bare.into_arguments().1.is_empty());
}

#[test]
fn compile_commands_fall_back_to_defaults() {
    let records = vec![
        CompileCommandEntry {
            file: "/p/a.c".to_string(),
            arguments: Some(vec!["cc".to_string(), "-O1".to_string()]),
            command: None,
        },
        CompileCommandEntry {
            file: "/p/a.c".to_string(),
            arguments: Some(vec!["cc".to_string(), "-O2".to_string()]),
            command: None,
        },
    ];
    let db = CompileCommands::from_entries("/p".to_string(), records, default_clang_args());
    assert_eq!(db.args_for(&"/p/a.c".to_string()), vec!["-O2".to_string()]);
    assert_eq!(
        db.args_for(&"/p/z.c".to_string()),
        vec!["-Iinclude".to_string(), "-std=gnu23".to_string()]
    );
}
