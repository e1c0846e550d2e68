use sudachi::checker::Checker;
use sudachi::default_input_text::{DefaultInputTextPlugin, PluginSettings};
use sudachi::error::{ConfigError, SudachiError};
use sudachi::input_text::{InputEditor, ReplaceTgt};
use sudachi::rewrite_lists::{split_columns, RewriteLists};
use sudachi::text::len_utf8;
use sudachi::trivial_chars::TrivialChars;
use sudachi::unicode::IsNormalized;

fn lines(text: &str) -> Vec<String> {
    text.lines().map(|l| l.to_string()).collect()
}

fn plugin(def: &str) -> DefaultInputTextPlugin {
    let mut plugin = DefaultInputTextPlugin::default();
    plugin.read_rewrite_lists(&lines(def)).unwrap();
    plugin
}

fn edits(editor: &InputEditor) -> Vec<(usize, usize, String)> {
    let mut found = Vec::new();
    for op in &editor.replaces {
        let with: String = match &op.with {
            ReplaceTgt::Ref(text) => text.to_string(),
            ReplaceTgt::Chars(chars) => chars.iter().collect(),
        };
        found.push((op.what.start, op.what.end, with));
    }
    found
}

fn rewrite(plugin: &DefaultInputTextPlugin, text: &str) -> Vec<(usize, usize, String)> {
    let trivial = TrivialChars::compute();
    let editor = plugin.rewrite_impl(&trivial, text, InputEditor::new()).unwrap();
    edits(&editor)
}

/// The text with the edits made.
fn rewritten(plugin: &DefaultInputTextPlugin, text: &str) -> String {
    let mut result = String::new();
    let mut at = 0;
    for (start, end, with) in rewrite(plugin, text) {
        assert!(at <= start && start < end && end <= text.len());
        result.push_str(&text[at..start]);
        result.push_str(&with);
        at = end;
    }
    result.push_str(&text[at..]);
    result
}

fn edit(start: usize, end: usize, with: &str) -> (usize, usize, String) {
    (start, end, with.to_string())
}

fn read_error(def: &str) -> (usize, String) {
    let mut plugin = DefaultInputTextPlugin::default();
    match plugin.read_rewrite_lists(&lines(def)) {
        Err(SudachiError::InvalidDataFormat(line, text)) => {
            assert!(!plugin.is_set_up());
            (line, text)
        }
        _ => panic!("no error"),
    }
}

#[test]
fn columns_are_split_at_white_space() {
    assert_eq!(split_columns("  a\tbc\u{3000}d \r"), vec!["a", "bc", "d"]);
    assert_eq!(split_columns("東京"), vec!["東京"]);
    assert_eq!(split_columns(" \t "), Vec::<String>::new());
    assert_eq!(split_columns(""), Vec::<String>::new());
}

#[test]
fn definition_is_read() {
    let lists = RewriteLists::read(&lines("# comment\n\n  # too\nⅠ\nガ カ\nガギ キ\nａ a\n")).unwrap();
    assert!(lists.is_ignored('Ⅰ'));
    assert!(!lists.is_ignored('ガ'));
    assert_eq!(lists.key_length('ガ'), Some(2));
    assert_eq!(lists.key_length('ａ'), Some(1));
    assert_eq!(lists.key_length('Ⅰ'), None);
    assert_eq!(lists.keys(), &vec!["ガ", "ガギ", "ａ"]);
    assert_eq!(lists.replacements(), vec!["カ", "キ", "a"]);
}

#[test]
fn longest_key_is_remembered() {
    let lists = RewriteLists::read(&lines("abc x\nab y\na z")).unwrap();
    assert_eq!(lists.key_length('a'), Some(3));
}

#[test]
fn wrong_lines_are_refused() {
    assert_eq!(read_error("a b\n\nab"), (2, "ab is not character".to_string()));
    assert_eq!(read_error("a b\na c"), (1, "a is already defined".to_string()));
    assert_eq!(read_error("# x\na b c"), (1, "".to_string()));
}

#[test]
fn first_wrong_line_is_reported() {
    assert_eq!(read_error("a b\nxy\na c").0, 1);
}

#[test]
fn wrong_definition_changes_nothing() {
    let mut plugin = plugin("a b");
    assert!(plugin.read_rewrite_lists(&lines("c d\nc e")).is_err());
    assert_eq!(rewrite(&plugin, "ac"), vec![edit(0, 1, "b")]);
}

#[test]
fn columns_are_added_one_line_at_a_time() {
    let mut lists = RewriteLists::new();
    assert!(lists.add_columns(0, &vec![]).is_ok());
    assert!(lists.add_columns(1, &vec!["#a".to_string()]).is_ok());
    assert!(lists.add_columns(2, &vec!["a".to_string()]).is_ok());
    assert!(lists.is_ignored('a'));
    assert!(!lists.is_ignored('#'));
    assert!(lists.add_columns(3, &vec!["k".to_string(), "v".to_string()]).is_ok());
    assert!(matches!(
        lists.add_columns(4, &vec!["k".to_string(), "w".to_string()]),
        Err(SudachiError::InvalidDataFormat(4, _))
    ));
    assert_eq!(lists.replacements(), vec!["v"]);
}

#[test]
fn failed_build_keeps_the_rules() {
    let mut plugin = plugin("a b");
    let lists = RewriteLists::read(&lines("x")).unwrap();
    match plugin.set_lists(lists, Err("too large".to_string())) {
        Err(SudachiError::ConfigError(ConfigError::InvalidFormat(text))) => {
            assert_eq!(text, "failed to parse rewrite.def: too large")
        }
        _ => panic!("no error"),
    }
    assert!(plugin.should_ignore('x'));
    assert_eq!(rewrite(&plugin, "a"), vec![edit(0, 1, "b")]);
}

#[test]
fn checker_finds_leftmost_longest() {
    let keys = vec!["append".to_string(), "appendage".to_string(), "app".to_string()];
    let values = vec!["1".to_string(), "2".to_string(), "3".to_string()];
    let checker = Checker::build(&keys, values).unwrap();
    let mut found = Vec::new();
    for m in checker.find("append the app to the appendage") {
        found.push((m.pattern, m.start, m.end));
    }
    assert_eq!(found, vec![(0, 0, 6), (2, 11, 14), (1, 22, 31)]);
    assert_eq!(checker.replacement(1), "2");
}

#[test]
fn longest_key_is_replaced() {
    let plugin = plugin("か x\nかき yz\nく あ");
    assert_eq!(
        rewrite(&plugin, "かかきく"),
        vec![edit(0, 3, "x"), edit(3, 9, "yz"), edit(9, 12, "あ")]
    );
    assert_eq!(rewrite(&plugin, ""), vec![]);
    assert_eq!(rewrite(&plugin, "東京"), vec![]);
}

#[test]
fn order_of_the_rules_makes_no_difference() {
    let one = plugin("ab 1\nabc 2\nb 3");
    let two = plugin("b 3\nabc 2\nab 1");
    for text in ["abcb", "ababc", "Abb", "ＡＢab"] {
        assert_eq!(rewrite(&one, text), rewrite(&two, text));
    }
}

#[test]
fn uppercase_is_lowered() {
    let plugin = plugin("");
    assert_eq!(rewrite(&plugin, "aBc"), vec![edit(1, 2, "b")]);
    assert_eq!(rewritten(&plugin, "ΓД"), "γд");
}

#[test]
fn text_is_brought_into_nfkc() {
    let plugin = plugin("");
    assert_eq!(rewrite(&plugin, "㈱"), vec![edit(0, 3, "(株)")]);
    assert_eq!(rewrite(&plugin, "ＡＢ"), vec![edit(0, 3, "a"), edit(3, 6, "b")]);
}

#[test]
fn replacements_and_normalization_together() {
    let plugin = plugin("Ⅲ\n⼼\nｶﾞ ガ\nウ゛ ヴ\n");
    assert_eq!(rewritten(&plugin, "ÂＢΓД㈱ｶﾞウ゛⼼Ⅲ"), "âbγд(株)ガヴ⼼ⅲ");
}

#[test]
fn ignored_characters_keep_their_form() {
    assert_eq!(rewrite(&plugin("㈱"), "㈱"), vec![]);
    assert_eq!(rewrite(&plugin("ａ"), "ａｂ"), vec![edit(3, 6, "b")]);
}

#[test]
fn replacements_have_priority() {
    let plugin = plugin("Ａ x\n㈱ y\n㈱");
    assert_eq!(
        rewrite(&plugin, "Ａ㈱Ｂ"),
        vec![edit(0, 3, "x"), edit(3, 6, "y"), edit(6, 9, "b")]
    );
}

#[test]
fn both_ways_agree_on_normalized_text() {
    let plugin = plugin("か゛ が\nab c");
    let trivial = TrivialChars::compute();
    for text in ["かか゛ab", "é東京", "", "x\u{20BB7}ab"] {
        let fast = plugin.replace_fast(text, InputEditor::new()).unwrap();
        let slow = plugin.replace_slow(&trivial, text, InputEditor::new()).unwrap();
        assert_eq!(edits(&fast), edits(&slow));
        assert_eq!(edits(&fast), rewrite(&plugin, text));
    }
}

#[test]
fn fast_way_leaves_other_characters_alone() {
    let plugin = plugin("ab c");
    let fast = plugin.replace_fast("AＡab", InputEditor::new()).unwrap();
    assert_eq!(edits(&fast), vec![edit(4, 6, "c")]);
}

#[test]
fn part_of_the_text_is_normalized() {
    let plugin = plugin("");
    let trivial = TrivialChars::compute();
    let mut editor = InputEditor::new();
    plugin.normalize_slow(&trivial, "あAＢC", 3..7, &mut editor);
    assert_eq!(edits(&editor), vec![edit(3, 4, "a"), edit(4, 7, "b")]);
}

#[test]
fn normal_form_that_starts_with_the_character_is_dropped() {
    let plugin = plugin("");
    let mut editor = InputEditor::new();
    plugin.handle_normalization_slow(vec![], &mut editor, 0, 1, 'a');
    plugin.handle_normalization_slow(vec!['a', 'b'], &mut editor, 0, 1, 'a');
    assert_eq!(edits(&editor), vec![]);
    plugin.handle_normalization_slow(vec!['b', 'a'], &mut editor, 4, 2, 'a');
    assert_eq!(edits(&editor), vec![edit(4, 6, "ba")]);
}

#[test]
fn edits_are_appended() {
    let plugin = plugin("a b");
    let trivial = TrivialChars::compute();
    let mut editor = InputEditor::new();
    editor.replace_ref(5..6, "x");
    let editor = plugin.rewrite_impl(&trivial, "a", editor).unwrap();
    assert_eq!(edits(&editor), vec![edit(5, 6, "x"), edit(0, 1, "b")]);
}

#[test]
fn slow_way_is_needed_unless_normalized() {
    assert!(!DefaultInputTextPlugin::is_slow(IsNormalized::Yes, false));
    assert!(DefaultInputTextPlugin::is_slow(IsNormalized::Yes, true));
    assert!(DefaultInputTextPlugin::is_slow(IsNormalized::No, false));
    assert!(DefaultInputTextPlugin::is_slow(IsNormalized::Maybe, false));
}

#[test]
fn trivial_characters() {
    let trivial = TrivialChars::compute();
    for ch in ['a', '0', 'あ', '東', 'ア', '\u{0}', 'é'] {
        assert!(trivial.is_trivial(ch));
    }
    for ch in ['A', 'Ａ', 'ａ', '㈱', '\u{301}', '\u{3099}', '\u{20BB7}', 'É'] {
        assert!(!trivial.is_trivial(ch));
    }
    assert!(trivial.all_trivial("東京a"));
    assert!(trivial.all_trivial(""));
    assert!(!trivial.all_trivial("東A"));
}

#[test]
fn titlecase_letters_are_not_trivial() {
    let trivial = TrivialChars::compute();
    // not uppercase, but with a lowercase mapping
    let titlecase = ['\u{1F88}', '\u{1F8F}', '\u{1F98}', '\u{1FAF}', '\u{1FBC}', '\u{1FFC}'];
    for ch in titlecase {
        assert!(!ch.is_uppercase());
        assert!(!trivial.is_trivial(ch));
    }
    assert!(!trivial.all_trivial("a\u{1F88}"));
    assert!(trivial.is_trivial('\u{1F80}'));
    assert_eq!(rewrite(&plugin("か x"), "\u{1F88}か"), vec![edit(3, 6, "x")]);
}

#[test]
fn trivial_needs_all_properties() {
    let yes = IsNormalized::Yes;
    assert!(TrivialChars::is_trivial_with('a', 0, false, &['a'], yes));
    assert!(!TrivialChars::is_trivial_with('a', 1, false, &['a'], yes));
    assert!(!TrivialChars::is_trivial_with('a', 0, true, &['a'], yes));
    assert!(!TrivialChars::is_trivial_with('\u{1F88}', 0, false, &['\u{1F80}'], yes));
    assert!(!TrivialChars::is_trivial_with('a', 0, false, &['a', 'b'], yes));
    assert!(!TrivialChars::is_trivial_with('a', 0, false, &[], yes));
    assert!(!TrivialChars::is_trivial_with('a', 0, false, &['a'], IsNormalized::Maybe));
    assert!(!TrivialChars::is_trivial_with('a', 0, false, &['a'], IsNormalized::No));
}

#[test]
fn white_space_of_all_characters() {
    for code in 0..=0x10FFFFu32 {
        let ch = match char::from_u32(code) {
            Some(ch) => ch,
            None => continue,
        };
        let expected = matches!(
            code,
            0x9..=0xD
                | 0x20
                | 0x85
                | 0xA0
                | 0x1680
                | 0x2000..=0x200A
                | 0x2028
                | 0x2029
                | 0x202F
                | 0x205F
                | 0x3000
        );
        let columns = split_columns(&format!("a{ch}b"));
        assert_eq!(columns.len(), if expected { 2 } else { 1 });
    }
}

#[test]
fn new_plugin_has_no_rules() {
    let plugin = DefaultInputTextPlugin::default();
    assert!(!plugin.is_set_up());
    assert!(!plugin.should_ignore('a'));
}

#[test]
fn settings_name_the_definition() {
    let named = PluginSettings { rewrite_def: Some("my.def".to_string()) };
    assert_eq!(named.rewrite_def_file(), "my.def");
    let unnamed = PluginSettings { rewrite_def: None };
    assert_eq!(unnamed.rewrite_def_file(), "rewrite.def");
}

#[test]
fn width_of_characters() {
    for ch in ['\u{0}', '\u{7F}', '\u{80}', '\u{7FF}', '\u{800}', '\u{FFFF}', '\u{10000}'] {
        assert_eq!(len_utf8(ch), ch.len_utf8());
    }
}
