use clip_player::args::Args;

fn strings(raw: &[&str]) -> Vec<String> {
    raw.iter().map(|s| s.to_string()).collect()
}

#[test]
fn no_arguments_means_no_path() {
    let args = Args::get_args(&strings(&[]));
    assert_eq!(args.config_path, None);
}

#[test]
fn short_flag_takes_next_argument() {
    let args = Args::get_args(&strings(&["-c", "sounds.yaml"]));
    assert_eq!(args.config_path, Some("sounds.yaml".to_string()));
}

#[test]
fn long_flag_takes_next_argument() {
    let args = Args::get_args(&strings(&["--config-path", "sounds.yaml"]));
    assert_eq!(args.config_path, Some("sounds.yaml".to_string()));
}

#[test]
fn last_occurrence_wins() {
    let args = Args::get_args(&strings(&["-c", "first.yaml", "--config-path", "second.yaml"]));
    assert_eq!(args.config_path, Some("second.yaml".to_string()));
}

#[test]
fn flag_without_value_is_ignored() {
    let args = Args::get_args(&strings(&["-c"]));
    assert_eq!(args.config_path, None);
}

#[test]
fn unrelated_arguments_are_ignored() {
    let args = Args::get_args(&strings(&["play", "loudly"]));
    assert_eq!(args.config_path, None);
}

#[test]
fn value_may_look_like_a_flag() {
    let args = Args::get_args(&strings(&["-c", "--config-path"]));
    assert_eq!(args.config_path, Some("--config-path".to_string()));
}
