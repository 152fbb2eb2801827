use seahorse::utils::{normalize, normalized_args};
use seahorse::App;

fn strings(v: &[&str]) -> Vec<String> {
    v.iter().map(|s| s.to_string()).collect()
}

#[test]
fn only_the_first_equals_sign_splits() {
    assert_eq!(
        normalize(strings(&["--name=a=b"]), false),
        strings(&["--name", "a=b"])
    );
    assert_eq!(
        normalize(strings(&["--name=a=b"]), true),
        strings(&["--name", "a=b"])
    );
    assert_eq!(
        App::normalized_args(strings(&["--name=a=b"])),
        strings(&["--name", "a=b"])
    );
}

#[test]
fn tokens_without_dash_or_equals_pass_through() {
    let raw = strings(&["cli", "a=b", "--flag", "value", "-f", "", "=", "x-y=z"]);
    assert_eq!(normalize(raw.clone(), false), raw);
}

#[test]
fn a_short_flag_with_a_value_is_split() {
    assert_eq!(
        normalize(strings(&["-f=1.23", "--int=100", "-x="]), false),
        strings(&["-f", "1.23", "--int", "100", "-x", ""])
    );
}

#[test]
fn an_alias_of_several_characters_stays_whole_without_clustering() {
    assert_eq!(
        normalize(strings(&["-str", "-str=x"]), false),
        strings(&["-str", "-str", "x"])
    );
}

#[test]
fn clustered_short_flags_are_taken_apart() {
    assert_eq!(
        normalized_args(strings(&["-abe"])),
        strings(&["-a", "-b", "-e"])
    );
    assert_eq!(
        normalized_args(strings(&["-abef=32"])),
        strings(&["-a", "-b", "-e", "-f", "32"])
    );
    assert_eq!(
        normalized_args(strings(&["--flag=value", "--flag", "value", "arg"])),
        strings(&["--flag", "value", "--flag", "value", "arg"])
    );
    assert_eq!(normalized_args(strings(&["--", "-a"])), strings(&["--", "-a"]));
}

#[test]
fn a_lone_dash_and_a_single_short_flag_are_no_clusters() {
    assert_eq!(normalized_args(strings(&["-"])), strings(&["-"]));
    assert_eq!(normalized_args(strings(&["-a"])), strings(&["-a"]));
    assert_eq!(normalized_args(strings(&["-="])), strings(&["-", ""]));
    assert_eq!(normalized_args(strings(&["-=x"])), strings(&["-", "x"]));
    assert_eq!(normalized_args(strings(&["-a=x"])), strings(&["-a", "x"]));
    assert_eq!(normalized_args(strings(&["-a="])), strings(&["-a", ""]));
    assert_eq!(
        normalized_args(strings(&["x", "-", "y"])),
        strings(&["x", "-", "y"])
    );
}

#[test]
fn a_cluster_has_two_or_more_characters_after_the_dash() {
    assert_eq!(normalized_args(strings(&["-ab"])), strings(&["-a", "-b"]));
    assert_eq!(
        normalized_args(strings(&["-ab=x"])),
        strings(&["-a", "-b", "x"])
    );
    assert_eq!(
        normalized_args(strings(&["-ab="])),
        strings(&["-a", "-b", ""])
    );
    assert_eq!(
        normalized_args(strings(&["-a-b"])),
        strings(&["-a", "--", "-b"])
    );
}

#[test]
fn clustering_loses_no_token() {
    for raw in [
        strings(&["-"]),
        strings(&["-="]),
        strings(&["-", "-", "--"]),
        strings(&["-a", "-", "-b=1"]),
    ] {
        assert!(normalized_args(raw.clone()).len() >= raw.len());
        assert_eq!(normalize(raw.clone(), true), normalized_args(raw));
    }
}

#[test]
fn clustering_counts_characters_not_bytes() {
    assert_eq!(
        normalized_args(strings(&["-äb=ö"])),
        strings(&["-ä", "-b", "ö"])
    );
}

#[test]
fn normalizing_twice_changes_nothing_more() {
    let raw = strings(&[
        "cli", "--a=b=c", "-f=1", "x=y", "--plain", "-s", "--k=", "tail",
    ]);
    let once = normalize(raw, false);
    assert_eq!(normalize(once.clone(), false), once);

    let raw = strings(&[
        "cli", "-abc", "-de=5", "--long=v", "--", "-", "-x", "-=", "rest",
    ]);
    let once = normalize(raw, true);
    assert_eq!(normalize(once.clone(), true), once);
}

#[test]
fn a_value_that_is_itself_a_dashed_assignment_is_cut_on_a_second_pass() {
    let once = normalize(strings(&["--a=-b=c"]), false);
    assert_eq!(once, strings(&["--a", "-b=c"]));
    assert_eq!(normalize(once, false), strings(&["--a", "-b", "c"]));
}

#[test]
fn a_value_that_is_itself_a_cluster_is_taken_apart_on_a_second_pass() {
    let once = normalize(strings(&["--a=-xy"]), true);
    assert_eq!(once, strings(&["--a", "-xy"]));
    assert_eq!(normalize(once, true), strings(&["--a", "-x", "-y"]));
}

#[test]
fn nothing_in_gives_nothing_out() {
    assert_eq!(normalize(Vec::new(), false), Vec::<String>::new());
    assert_eq!(normalize(Vec::new(), true), Vec::<String>::new());
}
