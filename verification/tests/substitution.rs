use clown::config::Binding;
use clown::config::VarTable;
use clown::subst::substitute;

fn table(pairs: &[(&str, &str)]) -> VarTable {
    let mut bindings = Vec::new();
    for (n, v) in pairs {
        bindings.push(Binding { name: n.to_string(), value: v.to_string() });
    }
    VarTable { bindings }
}

#[test]
fn substitute_replaces_bound_placeholder() {
    let vars = table(&[("profile", "release")]);
    let out = substitute(&"echo build-${profile}".to_string(), &vars);
    assert_eq!(out, "echo build-release".to_string());
}

#[test]
fn substitute_unknown_placeholder_unchanged() {
    let vars = table(&[]);
    let out = substitute(&"${missing}".to_string(), &vars);
    assert_eq!(out, "${missing}".to_string());
}

#[test]
fn substitute_without_placeholders_is_identity() {
    let vars = table(&[("profile", "release")]);
    let out = substitute(&"cargo build --all".to_string(), &vars);
    assert_eq!(out, "cargo build --all".to_string());
}

#[test]
fn substitute_multiple_placeholders() {
    let vars = table(&[("x", "one"), ("y", "two")]);
    let out = substitute(&"a ${x} b ${y} c".to_string(), &vars);
    assert_eq!(out, "a one b two c".to_string());
}

#[test]
fn substitute_does_not_rescan_values() {
    let vars = table(&[("a", "${b}"), ("b", "x")]);
    let out = substitute(&"${a}".to_string(), &vars);
    assert_eq!(out, "${b}".to_string());
}

#[test]
fn substitute_unclosed_placeholder_kept() {
    let vars = table(&[("oops", "no")]);
    let out = substitute(&"echo ${oops".to_string(), &vars);
    assert_eq!(out, "echo ${oops".to_string());
}

#[test]
fn substitute_empty_string() {
    let vars = table(&[("x", "y")]);
    let out = substitute(&"".to_string(), &vars);
    assert_eq!(out, "".to_string());
}

#[test]
fn substitute_empty_value_removes_placeholder() {
    let vars = table(&[("e", "")]);
    let out = substitute(&"x${e}y".to_string(), &vars);
    assert_eq!(out, "xy".to_string());
}

#[test]
fn substitute_replaces_placeholder_inside_unknown_candidate() {
    let vars = table(&[("y", "1")]);
    let out = substitute(&"${x${y}}".to_string(), &vars);
    assert_eq!(out, "${x1}".to_string());
}

#[test]
fn substitute_same_placeholder_twice() {
    let vars = table(&[("p", "v")]);
    let out = substitute(&"${p} and ${p}".to_string(), &vars);
    assert_eq!(out, "v and v".to_string());
}
