use runfast::template::{find_placeholders, substitute, trim_str};

fn strings(v: Vec<&str>) -> Vec<String> {
    v.iter().map(|s| s.to_string()).collect()
}

#[test]
fn no_placeholder_unchanged() {
    let cmd = "echo hi";
    let names = find_placeholders(cmd);
    assert_eq!(names.len(), 0);
    let out = substitute(cmd, &names, &strings(vec![]));
    assert_eq!(out, "echo hi");
}

#[test]
fn single_placeholder_substituted() {
    let cmd = "echo {name}";
    let names = find_placeholders(cmd);
    assert_eq!(names, strings(vec!["name"]));
    let out = substitute(cmd, &names, &strings(vec!["world"]));
    assert_eq!(out, "echo world");
}

#[test]
fn repeated_placeholder_one_prompt_both_substituted() {
    let cmd = "echo {name} {name}";
    let names = find_placeholders(cmd);
    assert_eq!(names.len(), 1);
    assert_eq!(names[0], "name");
    let out = substitute(cmd, &names, &strings(vec!["world"]));
    assert_eq!(out, "echo world world");
}

#[test]
fn spacing_variants_share_one_name() {
    let cmd = "echo { name } and {name} and {  name\t}";
    let names = find_placeholders(cmd);
    assert_eq!(names, strings(vec!["name"]));
    let out = substitute(cmd, &names, &strings(vec!["x"]));
    assert_eq!(out, "echo x and x and x");
}

#[test]
fn several_placeholders_in_first_occurrence_order() {
    let cmd = "cp {src} {dst} && ls {dst}";
    let names = find_placeholders(cmd);
    assert_eq!(names, strings(vec!["src", "dst"]));
    let out = substitute(cmd, &names, &strings(vec!["a.txt", "b.txt"]));
    assert_eq!(out, "cp a.txt b.txt && ls b.txt");
}

#[test]
fn unclosed_brace_ends_scan() {
    let cmd = "echo {oops";
    let names = find_placeholders(cmd);
    assert_eq!(names.len(), 0);
    let out = substitute(cmd, &names, &strings(vec![]));
    assert_eq!(out, "echo {oops");
}

#[test]
fn token_without_value_stays() {
    let out = substitute("{a} {b}", &strings(vec!["a"]), &strings(vec!["1"]));
    assert_eq!(out, "1 {b}");
}

#[test]
fn empty_token_is_a_name() {
    let cmd = "run {} now";
    let names = find_placeholders(cmd);
    assert_eq!(names, strings(vec![""]));
    let out = substitute(cmd, &names, &strings(vec!["fast"]));
    assert_eq!(out, "run fast now");
}

#[test]
fn brace_inside_token_belongs_to_it() {
    let cmd = "a{b{c}d";
    let names = find_placeholders(cmd);
    assert_eq!(names, strings(vec!["b{c"]));
    let out = substitute(cmd, &names, &strings(vec!["X"]));
    assert_eq!(out, "aXd");
}

#[test]
fn trim_removes_surrounding_whitespace() {
    assert_eq!(trim_str("  a b\t"), "a b");
    assert_eq!(trim_str("\r\n"), "");
    assert_eq!(trim_str("plain"), "plain");
}
