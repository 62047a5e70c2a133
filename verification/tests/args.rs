use entrepixels::args::Args;

fn words(line: &[&str]) -> Vec<String> {
    line.iter().map(|word| word.to_string()).collect()
}

#[test]
fn flags_take_the_next_word() {
    let args = Args::from_env_args(&words(&[
        "entrepixels", "hide", "-m", "secret", "--input", "in.bmp", "-o", "out.bmp",
    ]));
    assert_eq!(args.command.as_deref(), Some("hide"));
    assert_eq!(args.message, "secret");
    assert_eq!(args.input.as_deref(), Some("in.bmp"));
    assert_eq!(args.output.as_deref(), Some("out.bmp"));
}

#[test]
fn long_and_short_flags_are_the_same() {
    let args = Args::from_env_args(&words(&["--message", "a", "-i", "b", "--output", "c", "show"]));
    assert_eq!(args.command.as_deref(), Some("show"));
    assert_eq!(args.message, "a");
    assert_eq!(args.input.as_deref(), Some("b"));
    assert_eq!(args.output.as_deref(), Some("c"));
}

#[test]
fn nothing_given_leaves_everything_unset() {
    let args = Args::from_env_args(&words(&["entrepixels", "--help", "other"]));
    assert_eq!(args.command, None);
    assert_eq!(args.input, None);
    assert_eq!(args.output, None);
    assert_eq!(args.message, "");
}

#[test]
fn the_value_of_a_flag_is_no_flag_and_no_command() {
    let args = Args::from_env_args(&words(&["-m", "-i", "show", "-o", "hide", "-i"]));
    assert_eq!(args.message, "-i");
    assert_eq!(args.command.as_deref(), Some("show"));
    assert_eq!(args.output.as_deref(), Some("hide"));
    assert_eq!(args.input, None);
}

#[test]
fn the_last_of_several_counts() {
    let args = Args::from_env_args(&words(&["show", "-m", "one", "hide", "-m", "two", "-i", "a", "-i", "b"]));
    assert_eq!(args.command.as_deref(), Some("hide"));
    assert_eq!(args.message, "two");
    assert_eq!(args.input.as_deref(), Some("b"));
}

#[test]
fn parse_message_sets_the_message() {
    let mut args = Args::from_env_args(&words(&["hide", "-o", "out.bmp"]));
    args.parse_message(&String::from("late"));
    assert_eq!(args.message, "late");
    assert_eq!(args.command.as_deref(), Some("hide"));
    assert_eq!(args.output.as_deref(), Some("out.bmp"));
}
