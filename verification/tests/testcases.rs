use nix_editor::attrmap::AttrMap;
use nix_editor::parse::{collectattrs, get_collection, getcfgbase};
use nix_editor::read::{getarrvals, getwithvalue, readvalue, ReadError};
use nix_editor::syntax::{parse_tree, SyntaxNode};
use nix_editor::write::{addtoarr, deref, rmarr};

const CONFIGURATION: &str = r#"# Edit this configuration file to define what should be installed on
# your system.  Help is available in the configuration.nix(5) man page
# and in the NixOS manual (accessible by running `nixos-help`).

{ config, pkgs, ... }:

{
  imports =
    [ # Include the results of the hardware scan.
      ./hardware-configuration.nix
    ];

  # Use the systemd-boot EFI boot loader.
  boot.loader.systemd-boot.enable = true;
  boot.loader.efi.canTouchEfiVariables = true;

  networking.hostName = "nixos"; # Define your hostname.

  # Set your time zone.
  time.timeZone = "Europe/Amsterdam";

  # Select internationalisation properties.
  i18n.defaultLocale = "en_US.UTF-8";

  # Enable the X11 windowing system.
  services.xserver.enable = true;

  # List packages installed in system profile. To search, run:
  # $ nix search wget
  environment.systemPackages = with pkgs; [
    vim # Do not forget to add an editor to edit configuration.nix! The Nano editor is also installed by default.
    wget
    firefox
  ];

  # Some programs need SUID wrappers, can be configured further or are
  # started in user sessions.
  programs.gnupg.agent.enable = true;
  programs.gnupg.agent.enableSSHSupport = true;

  # This value determines the NixOS release from which the default
  # settings for stateful data, like file locations and database versions
  # on your system were taken. It's perfectly fine and recommended to leave
  # this value at the release version of the first install of this system.
  system.stateVersion = "22.05"; # Did you read the comment?

}
"#;

const FORMAT: &str = r#"{
  a = {
    b = true;
    d = {
      e = false;
      f = "hello";
    };
  };
}"#;

fn config() -> String {
    CONFIGURATION.to_string()
}

#[test]
fn read_val1() {
    let config = config();

    // Write value to file that does not yet exist
    let out = match readvalue(&config, "system.stateVersion") {
        Ok(s) => s,
        Err(_) => panic!("Failed to read value"),
    };

    // Check if read value is correct
    assert!(out == "\"22.05\"")
}

#[test]
fn read_val2() {
    let config = config();

    let out = match readvalue(&config, "programs.gnupg.agent.enable") {
        Ok(s) => s,
        Err(_) => panic!("Failed to read value"),
    };

    assert!(out == "true")
}

#[test]
fn read_val3() {
    let config = config();

    let out = match readvalue(&config, "this.does.not.exist") {
        Ok(_) => panic!("Read value that does not exist"),
        Err(e) => e,
    };

    match out {
        ReadError::NoAttr => (),
        _ => panic!("Incorrect error type"),
    }
}

#[test]
fn read_val4() {
    let config = config();

    let out = match readvalue(&config, "boot.loader") {
        Ok(s) => s,
        Err(_) => panic!("Failed to read value"),
    };

    assert!(out == "{\n  systemd-boot.enable = true;\n  efi.canTouchEfiVariables = true;\n}")
}

#[test]
fn read_val5() {
    let config = config();

    let out = match readvalue(&config, "system") {
        Ok(s) => s,
        Err(_) => panic!("Failed to read value"),
    };

    assert!(out == "{ stateVersion = \"22.05\"; }")
}

#[test]
fn readarr_val1() {
    let config = config();

    let out = match getarrvals(&config, "imports") {
        Ok(s) => s,
        Err(_) => panic!("Failed to read value"),
    };

    assert!(out == vec!["./hardware-configuration.nix"])
}

#[test]
fn readarr_val2() {
    let config = config();

    let out = match getarrvals(&config, "environment.systemPackages") {
        Ok(s) => s,
        Err(_) => panic!("Failed to read value"),
    };

    assert!(out == vec!["vim", "wget", "firefox"])
}

#[test]
fn write_val1() {
    let config = config();

    let out = match nix_editor::write::write(&config, "boot.loader.systemd-boot.enable", "false") {
        Ok(s) => s,
        Err(_) => panic!("Failed to write to file"),
    };

    let r = match readvalue(&out, "boot.loader.systemd-boot.enable") {
        Ok(s) => s,
        Err(_) => panic!("Failed to read value"),
    };

    assert!(r == "false")
}

#[test]
fn write_val2() {
    let config = config();

    let out = match nix_editor::write::write(&config, "this.doesnot.exist", "\"test\"") {
        Ok(s) => s,
        Err(_) => panic!("Failed to write to file"),
    };

    let r = match readvalue(&out, "this.doesnot.exist") {
        Ok(s) => s,
        Err(_) => panic!("Failed to read value"),
    };

    assert!(r == "\"test\"")
}

#[test]
fn write_val3() {
    let config = config();

    let out = match nix_editor::write::write(&config, "programs.gnupg.agent.enableExtraSocket", "true") {
        Ok(s) => s,
        Err(_) => panic!("Failed to write to file"),
    };

    let r = match readvalue(&out, "programs.gnupg.agent.enableExtraSocket") {
        Ok(s) => s,
        Err(_) => panic!("Failed to read value"),
    };

    assert!(r == "true")
}

#[test]
fn write_val4() {
    let config = config();

    let out = match nix_editor::write::write(&config, "boot.loader.systemd-boot.editor", "false") {
        Ok(s) => s,
        Err(_) => panic!("Failed to write to file"),
    };

    let r = match readvalue(&out, "boot.loader.systemd-boot.editor") {
        Ok(s) => s,
        Err(_) => panic!("Failed to read value"),
    };

    assert!(r == "false")
}

#[test]
fn write_format1() {
    let config = FORMAT.to_string();

    let out = match nix_editor::write::write(&config, "a.c", "false") {
        Ok(s) => s,
        Err(_) => panic!("Failed to write to file"),
    };

    let r = match readvalue(&out, "a.c") {
        Ok(s) => s,
        Err(_) => panic!("Failed to read value"),
    };

    assert!(r == "false");
    let expectedout = r#"{
  a = {
    b = true;
    d = {
      e = false;
      f = "hello";
    };
    c = false;
  };
}"#;
    assert!(out.eq(expectedout))
}

#[test]
fn write_format2() {
    let config = FORMAT.to_string();

    let out = match nix_editor::write::write(&config, "a.d.g", "\"test\"") {
        Ok(s) => s,
        Err(_) => panic!("Failed to write to file"),
    };

    println!("{out}");
    let r = match readvalue(&out, "a.d.g") {
        Ok(s) => s,
        Err(_) => panic!("Failed to read value"),
    };

    assert!(r == "\"test\"");
    let expectedout = r#"{
  a = {
    b = true;
    d = {
      e = false;
      f = "hello";
      g = "test";
    };
  };
}"#;
    assert!(out.eq(expectedout))
}

#[test]
fn write_arr1() {
    let config = config();

    let out = match addtoarr(
        &config,
        "environment.systemPackages",
        vec!["nano".to_string(), "unzip".to_string()],
    ) {
        Ok(s) => s,
        Err(_) => panic!("Failed to write to file"),
    };

    let r = match getarrvals(&out, "environment.systemPackages") {
        Ok(s) => s,
        Err(_) => panic!("Failed to read value"),
    };

    assert!(r == vec!["vim", "wget", "firefox", "nano", "unzip"])
}

#[test]
fn write_arr2() {
    let config = config();

    let out = match addtoarr(&config, "test.arr", vec!["one".to_string(), "two".to_string()]) {
        Ok(s) => s,
        Err(_) => panic!("Failed to write to file"),
    };

    let out2 = match addtoarr(&out, "test.arr", vec!["three".to_string(), "four".to_string()]) {
        Ok(s) => s,
        Err(_) => panic!("Failed to write to file"),
    };

    let out3 = match rmarr(&out2, "test.arr", vec!["four".to_string(), "two".to_string()]) {
        Ok(s) => s,
        Err(_) => panic!("Failed to write to file"),
    };

    let r = match getarrvals(&out3, "test.arr") {
        Ok(s) => s,
        Err(_) => panic!("Failed to read value"),
    };

    assert!(r == vec!["one", "three"])
}

#[test]
fn deref_val1() {
    let config = config();

    let out = match deref(&config, "programs.gnupg.agent.enableSSHSupport") {
        Ok(s) => s,
        Err(_) => panic!("Failed to write to file"),
    };

    let r = match readvalue(&out, "programs.gnupg.agent.enableSSHSupport") {
        Ok(_) => panic!("Read value that does not exist"),
        Err(e) => e,
    };

    match r {
        ReadError::NoAttr => (),
        _ => panic!("Incorrect error for no attribute"),
    }
}

#[test]
fn get_with1() {
    let config = config();

    let out = match getwithvalue(&config, "environment.systemPackages") {
        Ok(s) => s,
        Err(_) => panic!("Failed to write to file"),
    };

    assert!(out == vec!["pkgs"])
}

#[test]
fn get_with2() {
    let config = config();

    let out1 = match nix_editor::write::write(&config, "test2.test", "with x; with y; test") {
        Ok(s) => s,
        Err(_) => panic!("Failed to write to file"),
    };

    let out2 = match getwithvalue(&out1, "test2.test") {
        Ok(s) => s,
        Err(_) => panic!("Failed to write to file"),
    };

    assert!(out2 == vec!["x", "y"])
}

fn collected() -> AttrMap {
    let config = config();
    let mut map = AttrMap::new();
    let configbase = getcfgbase(&SyntaxNode::new_root(parse_tree(&config))).unwrap();
    collectattrs(&configbase, &mut map);
    map
}

#[test]
fn read_collect() {
    let map = collected();

    assert!(map.len() == 11);
    println!("{:?}", map.get("imports").unwrap());
    assert!(map.get("imports").unwrap() == "[ # Include the results of the hardware scan.\n      ./hardware-configuration.nix\n    ]");
    assert!(map.get("boot.loader.systemd-boot.enable").unwrap() == "true");
    assert!(map.get("boot.loader.efi.canTouchEfiVariables").unwrap() == "true");
    assert!(map.get("programs.gnupg.agent.enable").unwrap() == "true");
    assert!(map.get("programs.gnupg.agent.enableSSHSupport").unwrap() == "true");
    assert!(map.get("system.stateVersion").unwrap() == "\"22.05\"");
}

#[test]
fn main_test() {
    let map = collected();

    assert!(map.len() == 11);
    println!("{:?}", map.get("imports").unwrap());
    assert!(map.get("imports").unwrap() == "[ # Include the results of the hardware scan.\n      ./hardware-configuration.nix\n    ]");
    assert!(map.get("boot.loader.systemd-boot.enable").unwrap() == "true");
    assert!(map.get("boot.loader.efi.canTouchEfiVariables").unwrap() == "true");
    assert!(map.get("programs.gnupg.agent.enable").unwrap() == "true");
    assert!(map.get("programs.gnupg.agent.enableSSHSupport").unwrap() == "true");
    assert!(map.get("system.stateVersion").unwrap() == "\"22.05\"");
}

#[test]
fn collect1() {
    let config = FORMAT.to_string();

    let out = match get_collection(config) {
        Ok(s) => s,
        Err(_) => panic!("Failed to write to file"),
    };

    assert!(out.get("a.b") == Some(&String::from("true")));
}

#[test]
fn collect2() {
    let config = config();

    let out = match get_collection(config) {
        Ok(s) => s,
        Err(_) => panic!("Failed to write to file"),
    };

    assert!(out.get("boot.loader.efi.canTouchEfiVariables") == Some(&String::from("true")));
    assert!(out.get("programs.gnupg.agent.enableSSHSupport") == Some(&String::from("true")));
    assert!(out.get("system.stateVersion") == Some(&String::from("\"22.05\"")));
}
