use world::terminal::{
    command_error, command_list, describe, input_text, integer_arg, optional_integer_arg, parse_command,
    reply_lines, require_arg, split_args, unknown_command, usage, ArgSpec,
};

fn arg(name: &str, required: bool) -> ArgSpec {
    ArgSpec { name: name.to_string(), required }
}

#[test]
fn usage_lines_bracket_the_optional_arguments() {
    assert_eq!(usage("commands", &vec![]), "/commands");
    assert_eq!(usage("tp", &vec![arg("x", true), arg("y", true), arg("who", false)]), "/tp x,y[,who]");
    assert_eq!(usage("heal", &vec![arg("who", false)]), "/heal [who]");
}

#[test]
fn arguments_split_on_commas_and_are_trimmed() {
    assert_eq!(split_args("3, 4 ,,bob"), vec!["3", "4", "", "bob"]);
    assert_eq!(split_args(""), vec![""]);
}

#[test]
fn a_missing_or_blank_argument_is_named() {
    assert_eq!(require_arg("x", Some("  12 ")), Ok("12".to_string()));
    assert_eq!(require_arg("x", Some("   ")), Err("missing argument `x`".to_string()));
    assert_eq!(require_arg("who", None), Err("missing argument `who`".to_string()));
}

#[test]
fn a_command_line_splits_at_the_first_space() {
    assert_eq!(parse_command("/tp 3,4"), Some(("tp".to_string(), "3,4".to_string())));
    assert_eq!(parse_command("/commands"), Some(("commands".to_string(), String::new())));
    assert_eq!(parse_command("/say  hi there"), Some(("say".to_string(), " hi there".to_string())));
    assert_eq!(parse_command("hello"), None);
    assert_eq!(parse_command(""), None);
}

#[test]
fn unknown_and_forbidden_commands_answer_alike() {
    assert_eq!(unknown_command("nuke"), "Unknown command /nuke — try /commands");
}

#[test]
fn typed_lines_are_trimmed_and_cut() {
    assert_eq!(input_text("  /tp 3,4 \n"), Some("/tp 3,4".to_string()));
    assert_eq!(input_text(" \t "), None);
    assert_eq!(input_text(""), None);
    let long = "x".repeat(300);
    assert_eq!(input_text(&long), Some("x".repeat(256)));
    let wide = "é".repeat(300);
    assert_eq!(input_text(&wide).map(|s| s.chars().count()), Some(256));
}

#[test]
fn replies_go_out_line_by_line() {
    let cases = ["", "one", "one\ntwo", "a\r\nb\n", "\n", "a\n\nb", "x\r"];
    for case in cases {
        let expected: Vec<String> = case.lines().map(str::to_owned).collect();
        assert_eq!(reply_lines(case), expected, "{case:?}");
    }
}

#[test]
fn integer_arguments_read_as_std_reads_them() {
    for case in ["12", " 7 ", "+5", "-1", "0", "4294967295", "4294967296", "1.5", "x1", "+"] {
        assert_eq!(integer_arg("n", Some(case)).ok(), case.trim().parse::<u32>().ok(), "{case:?}");
    }
    assert_eq!(integer_arg("n", Some("-1")), Err("`-1` is not a valid integer for `n`".to_string()));
    assert_eq!(integer_arg("n", Some("  ")), Err("missing argument `n`".to_string()));
    assert_eq!(integer_arg("n", None), Err("missing argument `n`".to_string()));
}

#[test]
fn an_optional_argument_may_be_skipped() {
    assert_eq!(optional_integer_arg("n", None), Ok(None));
    assert_eq!(optional_integer_arg("n", Some(" ")), Ok(None));
    assert_eq!(optional_integer_arg("n", Some(" 9")), Ok(Some(9)));
    assert_eq!(optional_integer_arg("n", Some("bob")), Err("`bob` is not a valid integer for `n`".to_string()));
}

#[test]
fn a_failed_command_answers_with_its_usage() {
    assert_eq!(command_error("missing argument `x`", "/tp x,y"), "missing argument `x`\nusage: /tp x,y");
}

#[test]
fn doc_lines_join_into_a_description() {
    let docs = vec![" List the commands".to_string(), "available to you. ".to_string()];
    assert_eq!(describe(&docs), "List the commands available to you.");
    assert_eq!(describe(&vec![]), "");
    assert_eq!(describe(&vec!["  one  ".to_string()]), "one");
}

#[test]
fn the_command_list_is_sorted_one_per_line() {
    let entries = vec![
        ("/tp x,y[,who]".to_string(), "Teleport someone.".to_string()),
        ("/commands".to_string(), "List the commands available to you.".to_string()),
        ("/heal [who]".to_string(), "Restore health.".to_string()),
        ("/Zap".to_string(), "Upper case first.".to_string()),
    ];
    let mut expected: Vec<String> = entries.iter().map(|(u, d)| format!("{u} — {d}")).collect();
    expected.sort();
    assert_eq!(command_list(&entries), expected.join("\n"));
    assert_eq!(
        command_list(&entries),
        "/Zap — Upper case first.\n/commands — List the commands available to you.\n/heal [who] — Restore health.\n/tp x,y[,who] — Teleport someone."
    );
    assert_eq!(command_list(&vec![]), "");
}
