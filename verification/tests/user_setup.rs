use contextmink::digest::sha256;
use contextmink::paths::Host;
use contextmink::project_files::SkillTarget;
use contextmink::user_setup::{
    answers_with_version, binary_path, check_installation, check_prior, installed_binding,
    next_receipt, owned_paths, parse_receipt, personal_home, plan_install, plan_remove,
    receipt_bytes, runtime_paths, text_paths, user_files, user_report, UserActionKind, UserFault,
    UserPayloads,
};
use contextmink::versions::VERSION;

fn harness() -> String {
    format!("{:?}", SkillTarget::Claude).to_lowercase()
}

fn payloads() -> UserPayloads {
    UserPayloads {
        binary: b"binary".to_vec(),
        bridge: b"bridge".to_vec(),
        reference: b"reference\n".to_vec(),
        skill: "Run it.\r\n<!-- installed-command -->See ../../../tools/contextmink/agent_integration.md.\r\n"
            .to_owned(),
        bridge_skill: "<!-- installed-command -->\n".to_owned(),
    }
}

#[test]
fn installing_writes_what_it_owns() {
    for windows in [false, true] {
        let files = user_files(&payloads(), "/home/u", windows, &harness()).unwrap();
        let paths: Vec<String> = files.iter().map(|file| file.path.clone()).collect();
        assert_eq!(paths, owned_paths(windows, &harness()));
        let nothing: Vec<Option<Vec<u8>>> = files.iter().map(|_| None).collect();
        let first = plan_install(&files, &nothing);
        assert!(first.iter().all(|action| action.action == UserActionKind::Create));
        let there: Vec<Option<Vec<u8>>> =
            files.iter().map(|file| Some(file.content.clone())).collect();
        let second = plan_install(&files, &there);
        assert!(second.iter().all(|action| action.action == UserActionKind::Unchanged));
        let changed: Vec<Option<Vec<u8>>> = files.iter().map(|_| Some(b"x".to_vec())).collect();
        assert!(plan_install(&files, &changed)
            .iter()
            .all(|action| action.action == UserActionKind::Replace));
        assert!(plan_remove(&paths, &changed)
            .iter()
            .all(|action| action.action == UserActionKind::Remove));
        assert!(plan_remove(&paths, &nothing)
            .iter()
            .all(|action| action.action == UserActionKind::Absent));
    }
}

#[test]
fn skills_name_the_installed_command() {
    let files = user_files(&payloads(), r"C:\Users\u", true, &harness()).unwrap();
    let skill = files
        .iter()
        .find(|file| file.path == ".agents/skills/contextmink/SKILL.md")
        .unwrap();
    let text = String::from_utf8(skill.content.clone()).unwrap();
    assert_eq!(
        text,
        "Run it.\nPersonal executable: `C:/Users/u/.local/share/contextmink/bin/contextmink.exe`. Prefer a project-pinned runtime when one exists.\nSee C:/Users/u/.local/share/contextmink/agent_integration.md.\n"
    );
    assert!(installed_binding("/home/u", false).contains(&format!("/home/u/{}", binary_path(false))));
    let mut unbound = payloads();
    unbound.skill = "no place".to_owned();
    assert!(matches!(
        user_files(&unbound, "/home/u", false, &harness()),
        Err(UserFault::NoBinding { bridge: false })
    ));
    let mut unbound = payloads();
    unbound.bridge_skill = "no place".to_owned();
    assert!(user_files(&unbound, "/home/u", false, &harness()).is_ok());
    assert!(matches!(
        user_files(&unbound, "/home/u", true, &harness()),
        Err(UserFault::NoBinding { bridge: true })
    ));
}

#[test]
fn personal_receipts_are_read_as_they_were_written() {
    for remove in [false, true] {
        let written = next_receipt("/home/u", true, &harness(), remove);
        let read = parse_receipt(receipt_bytes(&written).as_bytes(), true).unwrap();
        assert_eq!(read.version, VERSION);
        assert_eq!(read.home, "/home/u");
        assert_eq!(read.installed, !remove);
        assert_eq!(read.owned_files(), written.owned_files());
        assert!(check_prior(&Some(read), "/home/u", "r.json", true, &harness(), false).is_ok());
    }
    let installed = next_receipt("/home/u", false, &harness(), false);
    assert!(check_installation(&installed, true, false, &harness()).is_ok());
    assert!(check_installation(&installed, false, false, &harness()).is_err());
    let removed = next_receipt("/home/u", false, &harness(), true);
    assert!(matches!(
        check_installation(&removed, true, false, &harness()),
        Err(UserFault::ForeignInstallation)
    ));
}

#[test]
fn the_receipt_of_the_release_before_is_read() {
    let files: Vec<String> = owned_paths(false, &harness())
        .iter()
        .map(|path| format!("\"{path}\": \"{}\"", "0".repeat(64)))
        .collect();
    let text = format!(
        "{{\"schema\": \"contextmink.user_install.v1\", \"version\": \"0.15.0\", \"home\": \"/home/u\", \"installed\": true, \"files\": {{{}}}}}",
        files.join(",")
    );
    let receipt = parse_receipt(text.as_bytes(), false).unwrap();
    assert_eq!(receipt.runtime_files, runtime_paths(false));
    assert_eq!(receipt.text_files.len(), text_paths(false, &harness()).len());
    assert!(receipt.owns_current_paths(false, &harness()));
    assert!(check_prior(&Some(receipt), "/home/u", "r.json", false, &harness(), true).is_ok());
}

#[test]
fn foreign_receipts_are_refused() {
    let ask = |text: &str| parse_receipt(text.as_bytes(), false).unwrap_err();
    assert!(matches!(ask("{"), UserFault::InvalidReceipt));
    assert!(matches!(ask("{}"), UserFault::UnknownSchema { .. }));
    assert!(matches!(
        ask("{\"schema\": \"contextmink.user_install.v2\"}"),
        UserFault::InvalidReceipt
    ));
    assert!(ask("{\"schema\": \"x\"}").message().contains("\"x\""));

    let check = |home: &str, version: &str, remove: bool| {
        let mut receipt = next_receipt("/home/u", false, &harness(), false);
        receipt.version = version.to_owned();
        check_prior(&Some(receipt), home, "r.json", false, &harness(), remove)
    };
    assert!(check("/home/u", VERSION, true).is_ok());
    assert!(check("/home/u", "0.1.0", false).is_ok());
    assert!(matches!(check("/home/v", VERSION, false), Err(UserFault::ForeignReceipt)));
    assert!(matches!(check("/home/u", "x", false), Err(UserFault::InvalidVersion { .. })));
    assert!(matches!(
        check("/home/u", "999.0.0", false),
        Err(UserFault::NewerInstallation { .. })
    ));
    assert!(matches!(
        check_prior(&None, "/home/u", "r.json", false, &harness(), true),
        Err(UserFault::NothingOwned { .. })
    ));
    assert!(check_prior(&None, "/home/u", "r.json", false, &harness(), false).is_ok());
    let mut partial = next_receipt("/home/u", false, &harness(), false);
    partial.text_files.pop();
    assert!(check_prior(&Some(partial), "/home/u", "r.json", false, &harness(), false).is_err());
}

#[test]
fn an_executable_knows_the_home_it_is_installed_in() {
    let home = personal_home("/home/u/.local/share/contextmink/bin/contextmink", Host::Posix);
    assert_eq!(home.unwrap(), vec!["/".to_owned(), "home".to_owned(), "u".to_owned()]);
    assert!(personal_home("/usr/bin/contextmink", Host::Posix).is_none());
    assert!(answers_with_version(&format!("contextmink {VERSION}\n"), "contextmink"));
    assert!(!answers_with_version("contextmink 0.0.1\n", "contextmink"));
}

#[test]
fn a_personal_report_lists_every_path() {
    let files = user_files(&payloads(), "/home/u", false, &harness()).unwrap();
    let nothing: Vec<Option<Vec<u8>>> = files.iter().map(|_| None).collect();
    let actions = plan_install(&files, &nothing);
    let text = user_report("/home/u", true, false, &actions).to_compact();
    assert!(text.contains("\"operation\":\"install\""), "{text}");
    for file in &files {
        assert!(text.contains(&format!("/home/u/{}", file.path)), "{text}");
    }
}

#[test]
fn digests_are_written_in_hexadecimal() {
    assert_eq!(
        sha256(b"abc"),
        "ba7816bf8f01cfea414140de5dae2223b00361a396177a9cb410ff61f20015ad"
    );
}
