use packer::paths::{join_path, parse_path, path_relative_from, to_slash, FsPath, PathPart};

fn normal(s: &str) -> PathPart {
    PathPart::Normal(s.to_string())
}

fn rel(parts: Vec<PathPart>) -> FsPath {
    FsPath { absolute: false, parts }
}

fn abs(parts: Vec<PathPart>) -> FsPath {
    FsPath { absolute: true, parts }
}

#[test]
fn relative_of_descendant_has_no_parent_components() {
    let path = rel(vec![normal("assets"), normal("img"), normal("icon.png")]);
    let base = rel(vec![normal("assets")]);
    let r = path_relative_from(&path, &base).expect("descendant must resolve");
    assert!(!r.absolute);
    assert_eq!(to_slash(&r), "img/icon.png");
    for p in &r.parts {
        assert!(matches!(p, PathPart::Normal(_)));
    }
}

#[test]
fn relative_of_equal_paths_is_empty() {
    let path = rel(vec![normal("a"), normal("b")]);
    let base = rel(vec![normal("a"), normal("b")]);
    let r = path_relative_from(&path, &base).expect("equal paths must resolve");
    assert_eq!(r.parts.len(), 0);
    assert_eq!(to_slash(&r), "");
}

#[test]
fn relative_of_diverging_paths_climbs_out_of_base() {
    let path = rel(vec![normal("a"), normal("x"), normal("f.txt")]);
    let base = rel(vec![normal("a"), normal("b"), normal("c")]);
    let r = path_relative_from(&path, &base).expect("divergence must resolve");
    assert_eq!(to_slash(&r), "../../x/f.txt");
}

#[test]
fn absolute_path_against_relative_base_stays_absolute() {
    let path = abs(vec![normal("etc"), normal("hosts")]);
    let base = rel(vec![normal("a")]);
    let r = path_relative_from(&path, &base).expect("absolute path is kept");
    assert!(r.absolute);
    assert_eq!(to_slash(&r), "/etc/hosts");
}

#[test]
fn relative_path_against_absolute_base_fails() {
    let path = rel(vec![normal("a")]);
    let base = abs(vec![normal("etc")]);
    assert!(path_relative_from(&path, &base).is_none());
}

#[test]
fn parent_in_base_cannot_be_expressed() {
    let path = rel(vec![normal("a"), normal("b")]);
    let base = rel(vec![normal("a"), PathPart::Parent]);
    assert!(path_relative_from(&path, &base).is_none());
}

#[test]
fn parse_path_splits_on_slashes() {
    let p = parse_path("img/icon.svg");
    assert!(!p.absolute);
    assert_eq!(p.parts.len(), 2);
    assert!(matches!(&p.parts[0], PathPart::Normal(s) if s == "img"));
    assert!(matches!(&p.parts[1], PathPart::Normal(s) if s == "icon.svg"));
}

#[test]
fn parse_path_handles_dots_and_empty_segments() {
    let p = parse_path("/a//b/./..");
    assert!(p.absolute);
    assert_eq!(p.parts.len(), 4);
    assert!(matches!(&p.parts[0], PathPart::Normal(s) if s == "a"));
    assert!(matches!(&p.parts[1], PathPart::Normal(s) if s == "b"));
    assert!(matches!(&p.parts[2], PathPart::Cur));
    assert!(matches!(&p.parts[3], PathPart::Parent));
}

#[test]
fn join_appends_relative_and_keeps_absolute() {
    let base = rel(vec![normal("assets")]);
    let tail = parse_path("img/icon.svg");
    let joined = join_path(&base, &tail);
    assert_eq!(to_slash(&joined), "assets/img/icon.svg");

    let absolute_tail = abs(vec![normal("tmp")]);
    let replaced = join_path(&base, &absolute_tail);
    assert!(replaced.absolute);
    assert_eq!(to_slash(&replaced), "/tmp");
}

#[test]
fn to_slash_renders_special_components() {
    let p = rel(vec![PathPart::Parent, PathPart::Cur, normal("x")]);
    assert_eq!(to_slash(&p), ".././x");
}
