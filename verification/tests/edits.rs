use nix_editor::attrmap::AttrMap;
use nix_editor::parse::{
    collectattrs, findattr, get_collection, getcfgbase, getkey, try_collectattrs, try_findattr,
    try_get_collection,
};
use nix_editor::read::{
    getarrvals, getwithvalue, readvalue, try_getarrvals, try_getwithvalue, try_readvalue, ReadError,
};
use nix_editor::syntax::{parse_tree, SyntaxNode};
use nix_editor::tree::{
    NODE_ATTR_SET, NODE_IDENT, NODE_KEY, NODE_KEY_VALUE, NODE_LIST, NODE_ROOT, NODE_WITH,
};
use nix_editor::write::{
    addtoarr, deref, rmarr, try_addtoarr, try_deref, try_rmarr, try_write, WriteError,
};
use nix_editor::{command_writeerr, nofileerr, printread, readerr, try_printread, writeerr, Piece};

const SMALL: &str = r#"{ config, pkgs, ... }:

{
  networking.hostName = "nixos"; # Define your hostname.
  time.timeZone = "Europe/Amsterdam";
  environment.systemPackages = with pkgs; [
    vim
    wget
    firefox
  ];
  services = {
    openssh.enable = true;
  };
}
"#;

fn parts(m: &[Piece]) -> Vec<(String, bool)> {
    m.iter().map(|p| (p.text.clone(), p.highlight)).collect()
}

#[test]
fn kinds_are_those_of_the_nix_grammar() {
    assert_eq!(rnix::SyntaxKind::NODE_WITH as u16, NODE_WITH);
    assert_eq!(rnix::SyntaxKind::NODE_KEY as u16, NODE_KEY);
    assert_eq!(rnix::SyntaxKind::NODE_IDENT as u16, NODE_IDENT);
    assert_eq!(rnix::SyntaxKind::NODE_LIST as u16, NODE_LIST);
    assert_eq!(rnix::SyntaxKind::NODE_ROOT as u16, NODE_ROOT);
    assert_eq!(rnix::SyntaxKind::NODE_ATTR_SET as u16, NODE_ATTR_SET);
    assert_eq!(rnix::SyntaxKind::NODE_KEY_VALUE as u16, NODE_KEY_VALUE);
}

#[test]
fn parsing_keeps_the_text() {
    let g = parse_tree(SMALL);
    assert_eq!(g.to_text(), SMALL);
    assert_eq!(g.kind(), NODE_ROOT);
}

#[test]
fn text_without_attribute_set_is_refused_everywhere() {
    let f = "1 + 2";
    assert_eq!(readvalue(f, "a").unwrap_err(), ReadError::ParseError);
    assert_eq!(getarrvals(f, "a").unwrap_err(), ReadError::ParseError);
    assert_eq!(getwithvalue(f, "a").unwrap_err(), ReadError::ParseError);
    assert!(matches!(get_collection(f.to_string()), Err(ReadError::ParseError)));
    assert_eq!(nix_editor::write::write(f, "a", "1").unwrap_err(), WriteError::ParseError);
    assert_eq!(deref(f, "a").unwrap_err(), WriteError::ParseError);
    assert_eq!(addtoarr(f, "a", vec!["x".to_string()]).unwrap_err(), WriteError::ParseError);
    assert_eq!(rmarr(f, "a", vec!["x".to_string()]).unwrap_err(), WriteError::ParseError);
}

#[test]
fn write_replaces_only_the_value() {
    let out = nix_editor::write::write(SMALL, "time.timeZone", "\"UTC\"").unwrap();
    assert_eq!(out, SMALL.replace("\"Europe/Amsterdam\"", "\"UTC\""));
}

#[test]
fn write_puts_in_the_first_node_of_the_value_text() {
    let out = nix_editor::write::write(SMALL, "time.timeZone", "  \"UTC\"  ").unwrap();
    assert_eq!(out, SMALL.replace("\"Europe/Amsterdam\"", "\"UTC\""));
}

#[test]
fn writing_the_value_read_changes_nothing() {
    let v = readvalue(SMALL, "time.timeZone").unwrap();
    assert_eq!(v, "\"Europe/Amsterdam\"");
    assert_eq!(nix_editor::write::write(SMALL, "time.timeZone", &v).unwrap(), SMALL);
}

#[test]
fn write_of_a_missing_attribute_inserts_one_binding() {
    let out = nix_editor::write::write(SMALL, "boot.loader.timeout", "5").unwrap();
    let expected = SMALL.replace("  };\n}\n", "  };\n  boot.loader.timeout = 5;\n}\n");
    assert_eq!(out, expected);
    assert_eq!(readvalue(&out, "boot.loader.timeout").unwrap(), "5");
}

#[test]
fn write_of_a_missing_attribute_goes_after_its_neighbour() {
    let out = nix_editor::write::write(SMALL, "time.hardwareClockInLocalTime", "true").unwrap();
    let expected = SMALL.replace(
        "  time.timeZone = \"Europe/Amsterdam\";\n",
        "  time.timeZone = \"Europe/Amsterdam\";\n  time.hardwareClockInLocalTime = true;\n",
    );
    assert_eq!(out, expected);
}

#[test]
fn write_of_a_missing_attribute_goes_into_its_set() {
    let out = nix_editor::write::write(SMALL, "services.nginx", "{ }").unwrap();
    let expected = SMALL.replace(
        "    openssh.enable = true;\n",
        "    openssh.enable = true;\n    nginx = { };\n",
    );
    assert_eq!(out, expected);
}

#[test]
fn deref_removes_only_the_binding() {
    let out = deref(SMALL, "networking.hostName").unwrap();
    assert_eq!(out, SMALL.replace("networking.hostName = \"nixos\";", ""));
    assert_eq!(readvalue(&out, "networking.hostName").unwrap_err(), ReadError::NoAttr);
}

#[test]
fn deref_of_a_missing_attribute() {
    assert_eq!(deref(SMALL, "no.such.thing").unwrap_err(), WriteError::NoAttr);
}

#[test]
fn addtoarr_inserts_the_element_text() {
    let out = addtoarr(SMALL, "environment.systemPackages", vec!["git".to_string()]).unwrap();
    assert_eq!(out, SMALL.replace("    firefox\n", "    firefox\n    git\n"));
}

#[test]
fn addtoarr_of_nothing_changes_nothing() {
    let out = addtoarr(SMALL, "environment.systemPackages", vec![]).unwrap();
    assert_eq!(out, SMALL);
}

#[test]
fn addtoarr_on_a_value_that_is_no_list() {
    let r = addtoarr(SMALL, "time.timeZone", vec!["x".to_string()]);
    assert_eq!(r.unwrap_err(), WriteError::ArrayError);
}

#[test]
fn addtoarr_creates_a_missing_list() {
    let out = addtoarr(SMALL, "fonts.fonts", vec!["noto-fonts".to_string()]).unwrap();
    assert_eq!(out, SMALL.replace("  };\n}\n", "  };\n  fonts.fonts = [\n    noto-fonts\n  ];\n}\n"));
    assert_eq!(getarrvals(&out, "fonts.fonts").unwrap(), vec!["noto-fonts"]);
}

#[test]
fn rmarr_removes_the_element_and_its_line() {
    let out = rmarr(SMALL, "environment.systemPackages", vec!["wget".to_string()]).unwrap();
    assert_eq!(out, SMALL.replace("    wget\n", ""));
    assert_eq!(getarrvals(&out, "environment.systemPackages").unwrap(), vec!["vim", "firefox"]);
}

#[test]
fn rmarr_errors() {
    let r = rmarr(SMALL, "no.such.list", vec!["x".to_string()]);
    assert_eq!(r.unwrap_err(), WriteError::NoAttr);
    let r = rmarr(SMALL, "time.timeZone", vec!["x".to_string()]);
    assert_eq!(r.unwrap_err(), WriteError::ArrayError);
}

#[test]
fn read_errors() {
    assert_eq!(getarrvals(SMALL, "time.timeZone").unwrap_err(), ReadError::ArrayError);
    assert_eq!(getarrvals(SMALL, "no.such.list").unwrap_err(), ReadError::NoAttr);
    assert_eq!(getwithvalue(SMALL, "time.timeZone").unwrap_err(), ReadError::NoAttr);
}

#[test]
fn read_through_a_nested_set() {
    assert_eq!(readvalue(SMALL, "services.openssh.enable").unwrap(), "true");
    assert_eq!(readvalue(SMALL, "services").unwrap(), "{ openssh.enable = true; }");
}

#[test]
fn the_checked_forms_agree() {
    assert_eq!(try_readvalue(SMALL, "time.timeZone"), Some(Ok("\"Europe/Amsterdam\"".to_string())));
    assert_eq!(try_printread(SMALL, "time.timeZone"), Some(Ok("\"Europe/Amsterdam\"".to_string())));
    assert_eq!(printread(SMALL, "time.timeZone").unwrap(), "\"Europe/Amsterdam\"");
    assert_eq!(
        try_getarrvals(SMALL, "environment.systemPackages"),
        Some(Ok(vec!["vim".to_string(), "wget".to_string(), "firefox".to_string()]))
    );
    assert_eq!(try_getwithvalue(SMALL, "environment.systemPackages"), Some(Ok(vec!["pkgs".to_string()])));
    assert_eq!(try_write(SMALL, "time.timeZone", "\"UTC\""), Some(nix_editor::write::write(SMALL, "time.timeZone", "\"UTC\"")));
    assert_eq!(try_deref(SMALL, "time.timeZone"), Some(deref(SMALL, "time.timeZone")));
    assert_eq!(
        try_addtoarr(SMALL, "environment.systemPackages", vec!["git".to_string()]),
        Some(addtoarr(SMALL, "environment.systemPackages", vec!["git".to_string()]))
    );
    assert_eq!(
        try_rmarr(SMALL, "environment.systemPackages", vec!["vim".to_string()]),
        Some(rmarr(SMALL, "environment.systemPackages", vec!["vim".to_string()]))
    );
    assert!(matches!(try_get_collection(SMALL.to_string()), Some(Ok(_))));
}

#[test]
fn collection_flattens_nested_sets() {
    let m = get_collection(SMALL.to_string()).unwrap();
    assert_eq!(m.len(), 4);
    assert_eq!(m.get("services.openssh.enable"), Some(&"true".to_string()));
    assert_eq!(m.get("networking.hostName"), Some(&"\"nixos\"".to_string()));
    assert_eq!(m.get("services"), None);
}

#[test]
fn findattr_and_getkey() {
    let root = SyntaxNode::new_root(parse_tree(SMALL));
    let base = getcfgbase(&root).unwrap();
    assert_eq!(base.kind(), NODE_ATTR_SET);
    let b = findattr(&base, "time.timeZone").unwrap();
    assert_eq!(b.kind(), NODE_KEY_VALUE);
    assert_eq!(b.to_text(), "time.timeZone = \"Europe/Amsterdam\";");
    assert!(findattr(&base, "no.such").is_none());
    assert!(matches!(try_findattr(&base, "no.such"), Some(None)));
    assert_eq!(try_findattr(&base, "time.timeZone").unwrap().unwrap().to_text(), b.to_text());
    let kv = findattr(&base, "networking.hostName").unwrap();
    let k = kv.child_node(0);
    assert_eq!(k.kind(), NODE_KEY);
    assert_eq!(getkey(&k), vec!["networking".to_string(), "hostName".to_string()]);
}

#[test]
fn attr_map_keeps_one_value_per_key() {
    let mut m = AttrMap::new();
    assert_eq!(m.len(), 0);
    m.insert("a".to_string(), "1".to_string());
    m.insert("b".to_string(), "2".to_string());
    m.insert("a".to_string(), "3".to_string());
    assert_eq!(m.len(), 2);
    assert_eq!(m.get("a"), Some(&"3".to_string()));
    assert_eq!(m.get("b"), Some(&"2".to_string()));
    assert_eq!(m.get("c"), None);
}

#[test]
fn error_messages() {
    assert_eq!(
        parts(&writeerr(WriteError::NoAttr, "c.nix", "a.b")),
        vec![
            ("cannot dereference '".to_string(), false),
            ("a.b".to_string(), true),
            ("' : ".to_string(), false),
            ("No such attribute".to_string(), true),
        ]
    );
    assert_eq!(
        parts(&writeerr(WriteError::ParseError, "c.nix", "a.b")),
        vec![
            ("failed to parse '".to_string(), false),
            ("c.nix".to_string(), true),
            ("' as a nix configuration file".to_string(), false),
        ]
    );
    assert_eq!(
        parts(&writeerr(WriteError::ArrayError, "c.nix", "a.b")),
        vec![
            ("cannot add an element to '".to_string(), false),
            ("a.b".to_string(), true),
            ("' : ".to_string(), false),
            ("Is this value an array?".to_string(), true),
        ]
    );
    assert_eq!(
        parts(&readerr(ReadError::NoAttr, "c.nix", "a.b")),
        vec![
            ("cannot read attribute '".to_string(), false),
            ("a.b".to_string(), true),
            ("' in '".to_string(), false),
            ("c.nix".to_string(), true),
            ("' : ".to_string(), false),
            ("No attribute found".to_string(), true),
        ]
    );
    assert_eq!(
        parts(&readerr(ReadError::ArrayError, "c.nix", "a.b")),
        vec![
            ("cannot read array '".to_string(), false),
            ("a.b".to_string(), true),
            ("' : ".to_string(), false),
            ("Is this value an array?".to_string(), true),
        ]
    );
    assert_eq!(parts(&readerr(ReadError::ParseError, "c.nix", "a.b")), parts(&writeerr(WriteError::ParseError, "c.nix", "x")));
    assert_eq!(
        parts(&nofileerr("c.nix")),
        vec![
            ("reading '".to_string(), false),
            ("c.nix".to_string(), true),
            ("': ".to_string(), false),
            ("No such file".to_string(), true),
        ]
    );
    assert_eq!(ReadError::NoAttr.message(), "Read Error: No attributes.");
    assert_eq!(ReadError::ParseError.message(), "Read Error: Error while parsing.");
    assert_eq!(ReadError::ArrayError.message(), "Read Error: Error with array.");
}

#[test]
fn write_to_a_binding_whose_value_is_a_set_keeps_the_file() {
    let f = "{ a = { b = 1; }; c = 2; }";
    let out = nix_editor::write::write(f, "a", "3").unwrap();
    assert_eq!(out, "{ a = 3; c = 2; }");
    assert_eq!(readvalue(&out, "a").unwrap(), "3");
    assert_eq!(readvalue(&out, "c").unwrap(), "2");
}

#[test]
fn write_into_a_nested_set_keeps_the_file() {
    let f = "{ x = { a = { b = 1; }; }; y = 1; }";
    let out = nix_editor::write::write(f, "x.a", "true").unwrap();
    assert_eq!(out, "{ x = { a = true; }; y = 1; }");
}

#[test]
fn write_over_gathered_bindings_edits_the_gathered_binding() {
    let f = "{\n  boot.loader.a = 1;\n  boot.loader.b = 2;\n}\n";
    let out = nix_editor::write::write(f, "boot.loader", "true").unwrap();
    assert_eq!(out, "{ boot.loader = true; }");
    assert_eq!(nix_editor::write::write("{ a.b = 1; a.c = 2; }", "a", "3").unwrap(), "{ a = 3; }");
    assert_eq!(try_deref(f, "boot.loader"), None);
}

#[test]
fn deref_of_a_nested_binding() {
    let out = deref(SMALL, "services.openssh.enable").unwrap();
    assert_eq!(out, SMALL.replace("openssh.enable = true;", ""));
    let f = "{ a = { b = 1; }; c = 2; }";
    assert_eq!(deref(f, "a").unwrap(), "{  c = 2; }");
}

#[test]
fn collecting_with_the_check() {
    let root = SyntaxNode::new_root(parse_tree(SMALL));
    let base = getcfgbase(&root).unwrap();
    let mut m = AttrMap::new();
    assert!(try_collectattrs(&base, &mut m));
    assert_eq!(m.len(), 4);
    let mut m2 = AttrMap::new();
    collectattrs(&base, &mut m2);
    assert_eq!(m2.get("time.timeZone"), Some(&"\"Europe/Amsterdam\"".to_string()));
    let bad = SyntaxNode::new_root(parse_tree("{ a = ; }"));
    let bad_base = getcfgbase(&bad).unwrap();
    let mut m3 = AttrMap::new();
    m3.insert("k".to_string(), "v".to_string());
    let ok = try_collectattrs(&bad_base, &mut m3);
    if !ok {
        assert_eq!(m3.len(), 1);
    }
}

#[test]
fn rmarr_takes_out_only_listed_elements() {
    let f = "{\n  l = [\n    a\n    b\n    c\n  ];\n}\n";
    let out = rmarr(f, "l", vec!["a".to_string(), "c".to_string()]).unwrap();
    assert_eq!(out, "{\n  l = [\n    b\n  ];\n}\n");
}

#[test]
fn command_error_messages() {
    assert_eq!(
        parts(&command_writeerr(WriteError::NoAttr, "c.nix", "a.b")),
        vec![
            ("cannot modify '".to_string(), false),
            ("a.b".to_string(), true),
            ("' : ".to_string(), false),
            ("No such attribute".to_string(), true),
        ]
    );
    assert_eq!(
        parts(&command_writeerr(WriteError::ArrayError, "c.nix", "a.b")),
        parts(&writeerr(WriteError::ArrayError, "c.nix", "a.b"))
    );
    assert_eq!(
        parts(&command_writeerr(WriteError::ParseError, "c.nix", "a.b")),
        parts(&writeerr(WriteError::ParseError, "c.nix", "a.b"))
    );
}

#[test]
fn no_matching_binding_is_reported_everywhere() {
    assert_eq!(readvalue(SMALL, "no.such").unwrap_err(), ReadError::NoAttr);
    assert_eq!(getarrvals(SMALL, "no.such").unwrap_err(), ReadError::NoAttr);
    assert_eq!(getwithvalue(SMALL, "no.such").unwrap_err(), ReadError::NoAttr);
    assert_eq!(deref(SMALL, "no.such").unwrap_err(), WriteError::NoAttr);
    assert_eq!(rmarr(SMALL, "no.such", vec!["x".to_string()]).unwrap_err(), WriteError::NoAttr);
}
