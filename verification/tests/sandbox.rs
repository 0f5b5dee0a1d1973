//! What a session is given: paths, store objects, supplied files, filters and
//! configurations.
use goblins::binds::{
    destination, expand, landing, placeholder, validate, Declarations, Plan, Wanted,
};
use goblins::catalog::{
    attribute, estimate_args, parse_summary, select, selected, stored, summary_numbers, Preview,
    Selection,
};
use goblins::config::{
    check_size, default_args, docker_enabled, put_var, Configuration, Docker,
    Manifest,
};
use goblins::json::Json;
use goblins::replies::configurations_value;
use goblins::paths::{
    components, equal, file_name, insert, join, listed, overlaps, parent, place, precedes,
    under,
};
use goblins::sandbox_etc::{etc_name, mounts, EtcFile, Kind};
use goblins::seccomp::{docker_filter, filter};
use goblins::snapshot::{copied_mode, treat, Found, Treatment};
use goblins::store::{package, store_object, store_path, store_root, valid_name};

const HASH: &str = "00000000000000000000000000000000";

fn s(t: &str) -> String {
    t.to_string()
}

fn strings(v: &[&str]) -> Vec<String> {
    v.iter().map(|t| t.to_string()).collect()
}

fn variables(v: &[(&str, &str)]) -> Vec<(String, String)> {
    v.iter().map(|(a, b)| (a.to_string(), b.to_string())).collect()
}

fn object(fields: Vec<(&str, Json)>) -> Json {
    Json::Object(fields.into_iter().map(|(k, v)| (k.to_string(), v)).collect())
}

fn text(t: &str) -> Json {
    Json::Text(t.to_string())
}

#[test]
fn path_expansion_is_not_shell_evaluation() {
    let env = variables(&[("HOME", "/home/test")]);
    for input in ["~/.config/fish", "$HOME/.config/fish", "${HOME}/.config/fish"] {
        assert_eq!(expand(input, &env).unwrap(), "/home/test/.config/fish");
    }
    for input in [
        "~someone/file",
        "$MISSING/file",
        "$(id)",
        "${HOME:-/tmp}",
        "relative",
        "$HOME/../secret",
    ] {
        assert!(expand(input, &env).is_err(), "{input}");
    }
}

#[test]
fn expansion_says_what_is_wrong() {
    let env = variables(&[("HOME", "/home/test"), ("A", "$HOME")]);
    let error = |t: &str| expand(t, &env).err().unwrap();
    assert_eq!(error("~x"), "host bind paths do not support ~user; use $HOME");
    assert_eq!(error("/${HOME"), "unclosed variable in host bind path");
    assert_eq!(
        error("/$1"),
        "host bind paths accept $VAR or ${VAR}, not shell expressions"
    );
    assert_eq!(error("/$NO/x"), "unset host bind variable: NO");
    assert_eq!(error("x"), "host bind path must be absolute without '..': x");
    assert_eq!(error("/a/../b"), "host bind path must be absolute without '..': /a/../b");
    assert_eq!(error("/a\0b"), "host bind path must be absolute without '..': /a\0b");
    assert_eq!(expand("~", &Vec::new()).err().unwrap(), "HOME is unset");
    // A value is taken as it is, and a path is written in one way.
    assert_eq!(expand("/$A/x", &env).unwrap(), "/$HOME/x");
    assert_eq!(expand("~//.config/./fish/", &env).unwrap(), "/home/test/.config/fish");
    assert_eq!(expand("~", &env).unwrap(), "/home/test");
    assert_eq!(expand("//", &env).unwrap(), "/");
}

#[test]
fn reserved_trees_cannot_be_covered_or_exposed() {
    for input in [
        "/",
        "/nix",
        "/nix/var/nix/daemon-socket",
        "/run/goblins",
        "/proc/self/root",
        "/workspace/subdir",
    ] {
        assert!(validate(input, &Vec::new()).is_err());
    }
    assert!(validate("/tmp", &strings(&["/tmp/session-private"])).is_err());
    assert!(validate("/home/test/.config/fish", &Vec::new()).is_ok());
    assert_eq!(
        validate("/run/x", &Vec::new()).err().unwrap(),
        "host bind /run/x overlaps protected path /run"
    );
}

fn want(path: &str, directory: bool, readonly: bool) -> Wanted {
    Wanted { path: s(path), directory, readonly }
}

#[test]
fn mounts_are_checked_by_what_was_opened() {
    let env = variables(&[("HOME", "/home/test")]);
    let private = strings(&["/var/private"]);
    let object = format!("/nix/store/{HASH}-fish-3.7/etc");
    let mut plan = Plan::new(&env).unwrap();
    assert_eq!(plan.home, "/home/test");
    assert!(Plan::new(&variables(&[("HOME", "/run/x")])).is_err());
    let d = destination("~/a", &env, &private).unwrap();
    assert_eq!(d, "/home/test/a");
    assert!(destination("/var/private/x", &env, &private).is_err());
    assert!(plan.mount(&want("~/a", true, false), &d, "/data/a", 7, true, false, &private).is_ok());
    // The object itself is outside of what is private, whatever its name was.
    assert!(plan
        .mount(&want("/b", true, false), "/b", "/var/private/b", 8, true, false, &private)
        .is_err());
    assert_eq!(
        plan.mount(&want("/b", true, false), "/b", &object, 8, true, false, &private)
            .err()
            .unwrap(),
        "Nix store bind sources must be read-only"
    );
    assert_eq!(
        plan.mount(&want("/b", false, true), "/b", &object, 8, true, false, &private)
            .err()
            .unwrap(),
        "host bind /b must be a regular file"
    );
    assert_eq!(
        plan.mount(&want("/b", true, true), "/b", "/data/b", 8, false, true, &private)
            .err()
            .unwrap(),
        "host bind /b must be a directory"
    );
    assert_eq!(
        plan.mount(&want("x", true, true), "/home/test/a/b", "/data/b", 8, true, false, &private)
            .err()
            .unwrap(),
        "overlapping host bind destinations are not supported: /home/test/a/b"
    );
    assert_eq!(
        plan.mount(&want("/b", true, true), "/b", "/nix/store", 8, true, false, &private)
            .err()
            .unwrap(),
        "cannot expose the entire Nix store"
    );
    assert!(plan.mount(&want("/b", true, true), "/b", &object, 8, true, false, &private).is_ok());
    assert_eq!(plan.source_fds(), vec![7, 8]);
    assert_eq!(plan.store_roots().unwrap(), vec![format!("/nix/store/{HASH}-fish-3.7")]);
    assert!(plan.add_working_directory("/work", "/data/work", 9, false, &private).is_err());
    assert!(plan.add_working_directory("/work", "/data/work", 9, true, &private).is_ok());
    assert_eq!(plan.source_fds(), vec![9, 7, 8]);
    let mut args = strings(&["first"]);
    plan.append_args(&mut args, &Vec::new());
    assert_eq!(
        args,
        strings(&[
            "first",
            "--bind-fd",
            "9",
            "/work",
            "--bind-fd",
            "7",
            "/home/test/a",
            "--ro-bind-fd",
            "8",
            "/b",
        ])
    );
}

#[test]
fn links_into_the_store_show_their_targets_alone() {
    let mut plan = Plan::new(&variables(&[("HOME", "/home/test")])).unwrap();
    let a = format!("/nix/store/{HASH}-a/x");
    let b = format!("/nix/store/{HASH}-b");
    assert_eq!(landing("/home/test", &a), Some(a.clone()));
    assert_eq!(landing("/home/test", "b"), None);
    assert_eq!(landing("/nix/store", "../x"), None);
    assert_eq!(plan.linked(&b, "/etc/passwd"), Ok(false));
    assert_eq!(plan.linked(&b, &b), Ok(true));
    assert_eq!(plan.linked(&a, &b), Ok(true));
    assert!(plan.linked("/nix/store/short", &b).is_err());
    assert_eq!(
        plan.store_roots().unwrap(),
        vec![format!("/nix/store/{HASH}-a"), format!("/nix/store/{HASH}-b")]
    );
    let mut args = Vec::new();
    plan.append_args(&mut args, &Vec::new());
    assert_eq!(args, vec![s("--ro-bind"), b.clone(), a.clone(), s("--ro-bind"), b.clone(), b.clone()]);
    let mut args = Vec::new();
    plan.append_args(&mut args, &vec![b.clone()]);
    assert_eq!(args, vec![s("--ro-bind"), b.clone(), a.clone()]);
    assert_eq!(placeholder("/s", &a).unwrap(), format!("/s/{HASH}-a/x"));
    assert!(placeholder("/s", "/etc/x").is_err());
}

#[test]
fn declarations_are_mounted_in_order() {
    let mut d = Declarations::default();
    assert!(d.wanted().is_empty());
    d.ro_files = strings(&["f"]);
    d.rw_dirs = strings(&["a", "b"]);
    d.rw_files = strings(&["e"]);
    d.ro_dirs = strings(&["c"]);
    let w: Vec<_> =
        d.wanted().into_iter().map(|w| (w.path, w.directory, w.readonly)).collect();
    assert_eq!(
        w,
        vec![
            (s("a"), true, false),
            (s("b"), true, false),
            (s("c"), true, true),
            (s("e"), false, false),
            (s("f"), false, true),
        ]
    );
}

#[test]
fn paths_are_compared_by_their_steps() {
    assert_eq!(components("/a//./b/"), strings(&["/", "a", "b"]));
    assert_eq!(components("./a/."), strings(&[".", "a"]));
    assert!(under("/a/b", "/a"));
    assert!(!under("/ab", "/a"));
    assert!(!under("a", "/a"));
    assert!(overlaps("/a", "/a/b") && overlaps("/a/b", "/a") && !overlaps("/a", "/b"));
    assert!(equal("/a/", "/a") && !equal("/a", "/b"));
    assert_eq!(parent("/a//b"), Some(s("/a")));
    assert_eq!(parent("/a/./b/"), Some(s("/a")));
    assert_eq!(parent("a"), Some(s("")));
    assert_eq!(parent("/"), None);
    assert_eq!(file_name("/a/b/."), Some(s("b")));
    assert_eq!(file_name("/a/.."), None);
    assert_eq!(join("/a", "b"), "/a/b");
    assert_eq!(join("/a/", "b"), "/a/b");
    assert_eq!(join("/a", "/b"), "/b");
    assert!(precedes("/a", "/a/b") && precedes("/a/z", "/ab") && !precedes("/b", "/a"));
    let mut v = Vec::new();
    for p in ["/b", "/a/x", "/a", "/b/"] {
        insert(&mut v, p);
    }
    assert_eq!(v, strings(&["/a", "/a/x", "/b"]));
    assert_eq!(place(&v, "/a/x/"), (1, true));
    assert_eq!(place(&v, "/a/y"), (2, false));
    assert!(listed(&v, "/b//") && !listed(&v, "/c"));
    // The same list as the standard library keeps.
    let all = ["/a-b", "/a/b", "/a", "/a.b", "/\u{e9}", "/z"];
    let mut mine = Vec::new();
    let mut theirs = std::collections::BTreeSet::new();
    for p in all {
        insert(&mut mine, p);
        theirs.insert(std::path::PathBuf::from(p));
    }
    let theirs: Vec<String> = theirs.iter().map(|p| p.display().to_string()).collect();
    assert_eq!(mine, theirs);
}

#[test]
fn names_are_single_store_objects() {
    assert!(valid_name("00000000000000000000000000000000-jq-1.8.2"));
    for name in [
        "/nix/store/x",
        "../x",
        "00000000000000000000000000000000-x/y",
        "00000000000000000000000000000000-x\nSTOP",
    ] {
        assert!(!valid_name(name));
    }
}

#[test]
fn store_paths_are_written_in_one_way() {
    let path = format!("/nix/store/{HASH}-jq-1.8.2");
    assert_eq!(store_path(&path).unwrap(), path);
    assert_eq!(store_path("/").err().unwrap(), "invalid store path");
    for p in [
        format!("/nix//store/{HASH}-jq"),
        format!("/nix/store/{HASH}-jq/"),
        format!("/nix/store/{HASH}-jq/bin"),
        format!("/nix/store/{}-jq", "e".repeat(32)),
        format!("/nix/store/{HASH}jq"),
    ] {
        assert_eq!(store_path(&p).err().unwrap(), "not a canonical store output");
    }
    assert_eq!(store_root(&format!("{path}/bin/jq")).unwrap(), path);
    assert_eq!(store_root("/etc").err().unwrap(), "prefix not found");
    assert!(store_root("/nix/store/..").is_err());
    assert!(store_object(true, false).is_ok() && store_object(false, true).is_ok());
    assert!(store_object(false, false).is_err());
    assert_eq!(package(&format!("{path}/bin/jq")).unwrap(), path);
    assert_eq!(package("/jq").err().unwrap(), "invalid executable path");
}

fn etc(name: &str, source: &str, kind: Kind) -> EtcFile {
    EtcFile { name: s(name), source: s(source), kind }
}

#[test]
fn rejects_escaping_paths_and_non_store_sources() {
    for name in ["", "/tmp/x", "../x", "codex/../../x", "codex//x", "codex/./x"] {
        assert!(mounts(&vec![etc(name, "/tmp/source", Kind::File)]).is_err());
    }
    assert!(mounts(&vec![etc("codex/config.toml", "/tmp/source", Kind::File)]).is_err());
}

#[test]
fn supplied_files_stand_at_places_of_their_own() {
    let source = format!("/nix/store/{HASH}-config");
    let file = |name: &str| etc(name, &source, Kind::File);
    assert!(etc_name("a/b.conf") && !etc_name("a/.b"));
    assert_eq!(
        mounts(&vec![file("a/b.conf"), file("c")]).unwrap(),
        vec![(source.clone(), s("/etc/a/b.conf")), (source.clone(), s("/etc/c"))]
    );
    assert_eq!(
        mounts(&vec![file("a"), file("a/b")]).err().unwrap(),
        "sandboxEtc file destinations overlap"
    );
    let error = |kind: Kind| mounts(&vec![etc("a", &source, kind)]).err().unwrap();
    assert_eq!(error(Kind::Unknown(s("no such file"))), "no such file");
    assert_eq!(error(Kind::Other), "store output must be a regular file or directory");
    assert_eq!(error(Kind::Directory), "sandboxEtc sources must be regular Nix store files");
    let many: Vec<EtcFile> = (0..129).map(|i| file(&format!("f{i}"))).collect();
    assert_eq!(mounts(&many).err().unwrap(), "at most 128 sandboxEtc files are supported");
}

/// What a filter decides, by the few instructions that it is made of.
fn action(bytes: &[u8], arch: u32, nr: u32, flags: u32) -> u32 {
    let code: Vec<_> = bytes.chunks_exact(8).collect();
    let mut pc = 0;
    let mut accumulator = 0;
    for _ in 0..code.len() {
        let instruction = code[pc];
        let op = u16::from_ne_bytes(instruction[..2].try_into().unwrap());
        let k = u32::from_ne_bytes(instruction[4..].try_into().unwrap());
        let condition = match op {
            0x20 => {
                accumulator = match k {
                    0 => nr,
                    4 => arch,
                    16 => flags,
                    _ => panic!("unexpected BPF load"),
                };
                None
            }
            0x15 => Some(accumulator == k),
            0x35 => Some(accumulator >= k),
            0x45 => Some(accumulator & k != 0),
            0x06 => return k,
            _ => panic!("unexpected BPF instruction"),
        };
        pc += 1 + condition.map_or(0, |yes| instruction[if yes { 2 } else { 3 }] as usize);
    }
    panic!("filter did not return")
}

#[test]
fn docker_cannot_create_cgroup_namespaces_or_bypass_with_clone3() {
    let bytes = docker_filter("x86_64").unwrap();
    let run = |nr, flags| action(&bytes, 0xC000003E, nr, flags);
    for nr in [libc::SYS_clone, libc::SYS_unshare] {
        assert_eq!(run(nr as u32, 0), 0x7FFF0000);
        assert_eq!(run(nr as u32, libc::CLONE_NEWUSER as u32), 0x7FFF0000);
        assert_eq!(run(nr as u32, libc::CLONE_NEWCGROUP as u32), 0x50001);
        assert_eq!(
            run(nr as u32, (libc::CLONE_NEWCGROUP | libc::CLONE_NEWUSER) as u32),
            0x50001
        );
    }
    assert_eq!(run(libc::SYS_clone3 as u32, 0), 0x50026);
    assert_eq!(run(libc::SYS_mount as u32, 0), 0x7FFF0000);
    assert_eq!(run(0x40000000 | libc::SYS_clone as u32, 0), 0x50001);
    assert_eq!(action(&bytes, 0x40000003, 120, 0), 0x80000000);
}

#[test]
fn ordinary_payload_keeps_its_stricter_filter() {
    let bytes = filter("x86_64").unwrap();
    for nr in [libc::SYS_mount, libc::SYS_unshare, libc::SYS_setns] {
        assert_eq!(action(&bytes, 0xC000003E, nr as u32, 0), 0x50001);
    }
    assert_eq!(
        action(&bytes, 0xC000003E, libc::SYS_socket as u32, libc::AF_UNIX as u32),
        0x7FFF0000
    );
    assert_eq!(
        action(&bytes, 0xC000003E, libc::SYS_clone as u32, libc::CLONE_NEWNET as u32),
        0x50001
    );
    assert_eq!(action(&bytes, 0xC000003E, libc::SYS_clone as u32, 0), 0x7FFF0000);
    assert_eq!(action(&bytes, 0xC000003E, libc::SYS_clone3 as u32, 0), 0x50026);
    assert_eq!(action(&bytes, 0x40000003, 1, 0), 0x80000000);
    assert_eq!(
        filter("aarch64").err().unwrap(),
        "the syscall filter currently supports x86_64 only"
    );
    assert!(docker_filter("aarch64").is_err());
}

#[test]
fn transfer_size_is_not_unpacked_size() {
    let parse = |t: &str| {
        let accepted: Vec<String> =
            summary_numbers(t).into_iter().filter(|n| n.parse::<f64>().is_ok()).collect();
        parse_summary(t, &accepted)
    };
    let p = parse(
        "this path will be fetched (1.5 MiB download, 5.9 MiB unpacked):\n /nix/store/example",
    );
    assert_eq!(p.download.as_deref(), Some("1.5 MiB"));
    assert!(!p.build_required);
    let p = parse(
        "these 2 derivations will be built:\nthese 3 paths will be fetched (20.1 KiB download, 3 MiB unpacked):",
    );
    assert!(p.build_required);
    assert_eq!(p.download.as_deref(), Some("20.1 KiB"));
    assert!(parse("unexpected output").download.is_none());
    let sizes = "will be fetched (2 KiB download, a)\nnothing\nwill be fetched (x GiB download,";
    assert_eq!(summary_numbers(sizes), vec!["2".to_string(), "x".to_string()]);
    assert_eq!(summary_numbers("will be fetched (2 kB download,"), Vec::<String>::new());
    let nothing: Preview = stored();
    assert!(nothing.in_store && !nothing.build_required);
}

#[test]
fn packages_are_selected_by_attribute() {
    assert_eq!(attribute("f", "jq"), "f#legacyPackages.x86_64-linux.jq");
    let args = select("f", "jq", true).unwrap();
    assert_eq!(args[4], "true");
    assert_eq!(select("f", "jq", false).unwrap()[4], "false");
    assert_eq!(select("f", "../jq", true).err().unwrap(), "invalid package attribute");
    assert!(estimate_args("f", "jq", "bin").iter().any(|a| a.ends_with("jq^bin")));
    let pick = |output: &str| selected(Selection { output: s(output), path: s("p") });
    assert!(pick("bin").is_ok());
    assert!(pick("1bin").is_err());
}

fn docker(default: Option<&str>, allowed: &[&str]) -> Docker {
    Docker {
        daemon: s("/nix/store/d/bin/dockerd"),
        client: None,
        enabled: docker_enabled(),
        default_scope: default.map(s),
        allowed_scopes: strings(allowed),
    }
}

fn configuration(docker: Option<Docker>) -> Configuration {
    Configuration {
        description: s("a shell"),
        network: true,
        build_spec: s("/spec"),
        args: default_args(),
        env: variables(&[("EDITOR", "vi"), ("SSL_CERT_DIR", "/own")]),
        client_package: s("/client"),
        helper: s("/helper"),
        flake: s("nixpkgs"),
        sandbox_etc: Vec::new(),
        integration: None,
        docker,
    }
}

fn manifest(api: u32, scopes: &[&str], docker: Option<Docker>) -> Manifest {
    Manifest {
        api,
        helper_api: 4,
        goblins: vec![(s("other"), configuration(None)), (s("shell"), configuration(docker))],
        docker_scopes: strings(scopes),
    }
}

#[test]
fn a_manifest_offers_what_it_declares() {
    assert!(manifest(1, &["team"], Some(docker(Some("team"), &["team"]))).select("shell").is_ok());
    let error = |m: Manifest, name: &str| m.select(name).err().unwrap();
    assert_eq!(error(manifest(2, &[], None), "shell"), "incompatible manifest/helper API");
    assert_eq!(error(manifest(1, &["a", "a"], None), "shell"), "invalid Docker scope catalog");
    assert_eq!(error(manifest(1, &["../a"], None), "shell"), "invalid Docker scope catalog");
    assert_eq!(
        error(manifest(1, &["a"], Some(docker(None, &["b"]))), "other"),
        "configuration references an undeclared Docker scope"
    );
    assert_eq!(
        error(manifest(1, &["a"], Some(docker(Some("b"), &[]))), "shell"),
        "configuration references an undeclared Docker scope"
    );
    assert_eq!(
        error(manifest(1, &[], None), "none"),
        "unknown goblin; available: other, shell"
    );
    assert!(check_size(1_048_576, 1_048_576).is_ok());
    assert_eq!(
        check_size(8_388_609, 8_388_608).err().unwrap(),
        "configuration exceeds 8 MiB"
    );
    assert_eq!(default_args(), strings(&["--noprofile", "--norc"]));
}

fn build_spec(change: &str, value: Option<Json>) -> Json {
    let mut fields = vec![
        ("platform", text("linux")),
        ("allow_nix", Json::Bool(false)),
        ("allow_unix_sockets", Json::Bool(true)),
        ("allowed_host_ports", Json::Array(Vec::new())),
        ("published_ports", Json::Array(Vec::new())),
        ("pkg_config_path", text("/pkg")),
        ("cacert_dir", text("/certs")),
        ("cacert_bundle", text("/bundle")),
        (
            "dependencies",
            object(vec![("pasta", text("/bin/pasta")), ("bwrap", text("/bin/bwrap"))]),
        ),
        ("sandboxed_binary", text("/bin/fish")),
        ("shell", text("/bin/sh")),
        ("sandbox_path", text("/a/bin::/b/bin")),
        ("closure_paths_file", text("/closure")),
        ("rw_dirs", Json::Array(vec![text("~/x")])),
        ("rw_files", Json::Array(Vec::new())),
        ("ro_dirs", Json::Array(Vec::new())),
        ("ro_files", Json::Array(vec![text("/y")])),
    ];
    fields.retain(|(k, _)| *k != change);
    if let Some(v) = value {
        fields.push((change, v));
    }
    object(fields)
}

#[test]
fn a_launch_follows_its_build_specification() {
    let c = configuration(None);
    let spec = build_spec("none", None);
    assert!(c.path_fits(&spec));
    assert!(!c.path_fits(&build_spec("sandbox_path", Some(text("/a/bin:/")))));
    // What is wrong before the path is looked at is told first.
    let Json::Object(mut fields) = build_spec("sandbox_path", Some(text("/"))) else { panic!() };
    fields.retain(|(name, _)| name != "platform");
    let unsupported = Json::Object(fields);
    assert!(c.path_fits(&unsupported));
    assert_eq!(
        c.launch(&unsupported, &Ok(Vec::new()), "").err().unwrap(),
        "unsupported Goblin sandbox policy"
    );
    assert_eq!(Configuration::closure_file(&spec), Some(s("/closure")));
    let l = c.launch(&spec, &Ok(b"/nix/store/a\n/nix/store/b\n".to_vec()), "").unwrap();
    assert_eq!(l.pasta, Some(s("/bin/pasta")));
    assert_eq!(l.shell, "/bin/fish");
    assert_eq!(l.posix_shell, "/bin/sh");
    assert_eq!(l.bwrap, "/bin/bwrap");
    assert_eq!(l.initial_packages, strings(&["/a", "/b"]));
    assert_eq!(l.initial_closure, strings(&["/nix/store/a", "/nix/store/b"]));
    assert_eq!(
        l.env,
        variables(&[
            ("EDITOR", "vi"),
            ("PKG_CONFIG_PATH", "/pkg"),
            ("SSL_CERT_DIR", "/own"),
            ("SSL_CERT_FILE", "/bundle"),
        ])
    );
    assert_eq!(l.binds.rw_dirs, strings(&["~/x"]));
    assert_eq!(l.binds.ro_files, strings(&["/y"]));
    let error = |key: &str, v: Option<Json>| {
        c.launch(&build_spec(key, v), &Ok(Vec::new()), "no list").err().unwrap()
    };
    assert_eq!(error("platform", Some(text("darwin"))), "unsupported Goblin sandbox policy");
    assert_eq!(error("allow_nix", Some(Json::Bool(true))), "unsupported Goblin sandbox policy");
    assert_eq!(
        error("published_ports", None),
        "live launcher does not support network grants"
    );
    assert_eq!(error("cacert_dir", None), "missing build spec string: cacert_dir");
    assert_eq!(error("dependencies", None), "missing pasta");
    assert_eq!(
        error("dependencies", Some(object(vec![("pasta", text("p"))]))),
        "missing bwrap"
    );
    assert_eq!(error("rw_files", Some(text("x"))), "no list");
    assert_eq!(c.launch(&spec, &Err(s("gone")), "").err().unwrap(), "gone");
    assert!(c.launch(&spec, &Ok(vec![0xff]), "").err().unwrap().contains("utf-8"));
    let mut env = Vec::new();
    put_var(&mut env, "B", "1");
    put_var(&mut env, "A", "2");
    put_var(&mut env, "B", "3");
    assert_eq!(env, variables(&[("A", "2"), ("B", "3")]));
}

#[test]
fn snapshots_leave_out_history_and_special_files() {
    assert_eq!(treat(".git", Found::Directory), Treatment::Skip);
    assert_eq!(treat("a", Found::Directory), Treatment::Descend);
    assert_eq!(treat("a", Found::Link), Treatment::Link);
    assert_eq!(treat("a", Found::File), Treatment::Copy);
    assert_eq!(treat("a", Found::Special), Treatment::Skip);
    assert_eq!(copied_mode(true, 0o104755), Ok(0o755));
    assert_eq!(
        copied_mode(false, 0).err().unwrap(),
        "workspace file changed type during snapshot"
    );
}

#[test]
fn what_a_session_begins_with_is_not_prepared() {
    let mut plan = Plan::new(&variables(&[("HOME", "/home/test")])).unwrap();
    let [a, b, c] = ["a", "b", "c"].map(|name| format!("/nix/store/{HASH}-{name}"));
    let (x, y) = (format!("{a}/x"), format!("{c}/y"));
    assert_eq!(plan.linked(&x, &b), Ok(true));
    assert_eq!(plan.linked(&y, &b), Ok(true));
    let open = |initial: &[&str]| plan.unprepared(&strings(initial)).len();
    assert_eq!(open(&[]), plan.landings.len());
    assert_eq!(open(&[&a, &c]), 0);
    let left = plan.unprepared(&strings(&[&a]));
    assert_eq!(left.len(), 1);
    assert_eq!(plan.landings[left[0]], y);
}

#[test]
fn configurations_are_listed_with_their_descriptions() {
    let v = configurations_value("/run/manifest", &manifest(2, &[], None));
    assert_eq!(v.get("configuration").and_then(|c| c.as_str()), Some("/run/manifest"));
    match v.get("names") {
        Some(Json::Array(names)) => assert_eq!(names[1].as_str(), Some("shell")),
        _ => panic!("no names"),
    }
    let described = v.get("descriptions").and_then(|d| d.get("other"));
    assert_eq!(described.and_then(|d| d.as_str()), Some("a shell"));
}
