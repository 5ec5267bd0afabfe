use spfs::cli::{external_command_argv, parse_stage, strip_spfs_prefix, CliAction, CmdReset, Command, Opt, TestStage};
use spfs::encoding::Digest;
use spfs::graph::{Blob, Layer, Object};
use spfs::runtime::{commit_layer, Edit, Runtime};
use spfs::storage::Repository;
use spfs::tracking::{EntryKind, EnvSpec, EnvSpecItem, glob_match};

fn digest(seed: u64) -> Digest {
    Digest {
        q0: seed,
        q1: seed,
        q2: seed,
        q3: seed,
    }
}

fn edit(path: &str) -> Edit {
    Edit {
        path: path.to_string(),
        kind: EntryKind::Blob,
        mode: 0o644,
        object: digest(1),
        size: 1,
    }
}

#[test]
fn glob_matching() {
    assert!(glob_match("*.txt", "notes.txt"));
    assert!(!glob_match("*.txt", "notes.rs"));
    assert!(glob_match("a?c", "abc"));
    assert!(!glob_match("a?c", "abbc"));
    assert!(glob_match("*", ""));
    assert!(glob_match("", ""));
}

#[test]
fn reset_with_no_paths_discards_all_edits_and_keeps_stack() {
    let mut rt = Runtime::new("rt".to_string());
    rt.push_digest(&digest(1));
    rt.edits.push(edit("etc/conf"));
    rt.edits.push(edit("bin/tool"));
    rt.reset(&Vec::new());
    assert!(rt.edits.is_empty());
    assert_eq!(rt.get_stack(), vec![digest(1)]);

    let mut rt2 = Runtime::new("rt".to_string());
    rt2.edits.push(edit("x"));
    rt2.reset_all();
    assert!(rt2.edits.is_empty());
}

#[test]
fn reset_with_glob_discards_only_matching_edits() {
    let mut rt = Runtime::new("rt".to_string());
    rt.push_digest(&digest(1));
    rt.edits.push(edit("etc/conf"));
    rt.edits.push(edit("bin/tool"));
    rt.reset(&vec!["etc/*".to_string()]);
    assert_eq!(rt.edits.len(), 1);
    assert_eq!(rt.edits[0].path, "bin/tool");
    assert_eq!(rt.get_stack(), vec![digest(1)]);
}

#[test]
fn tag_resolution_latest_and_previous() {
    let mut repo = Repository::new();
    let d1 = digest(1);
    let d2 = digest(2);
    let d3 = digest(3);
    repo.tags.push_tag("n", &d1, 100);
    repo.tags.push_tag("n", &d2, 200);
    repo.tags.push_tag("n", &d3, 300);
    assert_eq!(repo.tags.resolve_tag("n").unwrap(), d3);
    assert_eq!(repo.tags.resolve_tag_at("n", 1).unwrap(), d2);
    assert_eq!(repo.tags.resolve_tag_at("n", 2).unwrap(), d1);
    assert!(matches!(
        repo.tags.resolve_tag_at("n", 3),
        Err(spfs::Error::EmptyHistory(_))
    ));
    assert!(matches!(
        repo.tags.resolve_tag("missing"),
        Err(spfs::Error::UnknownTag(_))
    ));
    let history = repo.tags.iter_tag_history("n").unwrap();
    assert_eq!(history.len(), 3);
    assert_eq!(history[0].target, d3);
    assert_eq!(history[2].target, d1);
    assert_eq!(history[0].sequence, 2);
}

#[test]
fn env_spec_parse_and_resolve() {
    let mut repo = Repository::new();
    let d = digest(7);
    repo.tags.push_tag("env/base", &d, 1);
    let hex = digest(9).to_hex();
    let joined = format!("env/base+{hex}");
    let spec = EnvSpec::parse(&joined).unwrap();
    assert_eq!(spec.items.len(), 2);
    assert!(matches!(spec.items[0], EnvSpecItem::TagReference(_)));
    assert!(matches!(spec.items[1], EnvSpecItem::DigestReference(_)));
    let stack = spec.resolve(&repo).unwrap();
    assert_eq!(stack, vec![d, digest(9)]);
    assert!(EnvSpec::parse("a++b").is_err());
    assert!(EnvSpec::parse("").is_err());
}

#[test]
fn runtime_state_round_trip() {
    let mut rt = Runtime::new("rt".to_string());
    rt.push_digest(&digest(4));
    rt.push_digest(&digest(5));
    rt.set_editable(true);
    let bytes = rt.save_state();
    let (editable, stack) = Runtime::load_state(&bytes).unwrap();
    assert!(editable);
    assert_eq!(stack, vec![digest(4), digest(5)]);
    assert!(Runtime::load_state(&bytes[..bytes.len() - 1].to_vec()).is_err());
}

#[test]
fn reconfigure_rebuilds_stack_and_flag() {
    let mut rt = Runtime::new("rt".to_string());
    rt.push_digest(&digest(1));
    rt.edits.push(edit("x"));
    rt.reconfigure(Some(false), None, Some(&vec![digest(8)]));
    assert!(rt.edits.is_empty());
    assert_eq!(rt.get_stack(), vec![digest(8)]);
    assert!(!rt.editable);
    assert!(rt.pending_remount);
    rt.mark_remounted();
    assert!(!rt.pending_remount);
}

#[test]
fn commit_layer_captures_edits() {
    let mut rt = Runtime::new("rt".to_string());
    let mut repo = Repository::new();
    let payload = repo.payloads.write_payload(vec![1, 2, 3]);
    let bd = repo
        .db
        .write_object(&Object::Blob(Blob {
            payload,
            size: 3,
        }))
        .unwrap();
    rt.edits.push(Edit {
        path: "newfile".to_string(),
        kind: EntryKind::Blob,
        mode: 0o644,
        object: bd,
        size: 3,
    });
    let layer_digest = commit_layer(&mut rt, &mut repo).unwrap();
    assert!(rt.edits.is_empty());
    assert_eq!(*rt.get_stack().last().unwrap(), layer_digest);
    assert!(rt.pending_remount);
    match repo.db.read_object(&layer_digest).unwrap() {
        Object::Layer(l) => {
            match repo.db.read_object(&l.manifest).unwrap() {
                Object::Manifest(m) => {
                    assert_eq!(m.entries.len(), 1);
                    assert_eq!(m.entries[0].name, "newfile");
                }
                _ => panic!("layer must wrap a manifest"),
            }
        }
        _ => panic!("commit must write a layer"),
    }
}

#[test]
fn render_capture_is_a_content_fixed_point() {
    let mut m = spfs::graph::Manifest::new();
    m.insert(spfs::graph::Entry {
        name: "b".to_string(),
        kind: EntryKind::Blob,
        mode: 0o644,
        object: digest(1),
        size: 4,
    });
    m.insert(spfs::graph::Entry {
        name: "a".to_string(),
        kind: EntryKind::Tree,
        mode: 0o755,
        object: digest(2),
        size: 0,
    });
    let before = Object::Manifest(m).digest();
    let m = match Object::decode(&{
        let mut m2 = spfs::graph::Manifest::new();
        m2.insert(spfs::graph::Entry {
            name: "b".to_string(),
            kind: EntryKind::Blob,
            mode: 0o644,
            object: digest(1),
            size: 4,
        });
        m2.insert(spfs::graph::Entry {
            name: "a".to_string(),
            kind: EntryKind::Tree,
            mode: 0o755,
            object: digest(2),
            size: 0,
        });
        Object::Manifest(m2).to_bytes()
    })
    .unwrap()
    {
        Object::Manifest(m) => m,
        _ => panic!("wrong variant"),
    };
    // Render into a directory listing and capture it back.
    let listing = spfs::render::render_manifest(&m);
    let recaptured = spfs::render::capture_dir(listing);
    let after = Object::Manifest(recaptured).digest();
    assert_eq!(before, after);
}

#[test]
fn flatten_stack_upper_layer_wins() {
    let mut lower = spfs::graph::Manifest::new();
    lower.insert(spfs::graph::Entry {
        name: "f".to_string(),
        kind: EntryKind::Blob,
        mode: 0,
        object: digest(1),
        size: 0,
    });
    let mut upper = spfs::graph::Manifest::new();
    upper.insert(spfs::graph::Entry {
        name: "f".to_string(),
        kind: EntryKind::Blob,
        mode: 0,
        object: digest(2),
        size: 0,
    });
    let flat = spfs::render::flatten_stack(&vec![lower, upper]);
    assert_eq!(flat.entries.len(), 1);
    assert_eq!(flat.entries[0].object, digest(2));
}

#[test]
fn strip_prefix_and_external_argv() {
    let stripped = strip_spfs_prefix(&vec![
        "/spfs/etc/conf".to_string(),
        "plain".to_string(),
    ]);
    assert_eq!(stripped, vec!["/etc/conf".to_string(), "plain".to_string()]);

    let argv = external_command_argv(&vec!["run".to_string(), "--x".to_string()]).unwrap();
    assert_eq!(argv, vec!["spfs-run".to_string(), "--x".to_string()]);
    assert!(external_command_argv(&Vec::new()).is_err());
}

#[test]
fn parse_stage_names() {
    assert!(matches!(parse_stage("sources"), Ok(TestStage::Sources)));
    assert!(matches!(parse_stage("build"), Ok(TestStage::Build)));
    assert!(matches!(parse_stage("install"), Ok(TestStage::Install)));
    assert!(parse_stage("other").is_err());
}

#[test]
fn cmd_reset_without_reference_filters_edits() {
    let mut cmd = CmdReset {
        edit: false,
        reference: None,
        paths: vec!["/spfs/etc/*".to_string()],
    };
    let mut rt = Runtime::new("rt".to_string());
    rt.edits.push(edit("/etc/conf"));
    rt.edits.push(edit("/bin/tool"));
    let origin = Repository::new();
    let mut local = Repository::new();
    let code = cmd.run(&mut rt, &origin, &mut local).unwrap();
    assert_eq!(code, 0);
    assert_eq!(rt.edits.len(), 1);
    assert_eq!(rt.edits[0].path, "/bin/tool");
}

#[test]
fn cmd_reset_with_reference_rebuilds_from_origin() {
    let mut origin = Repository::new();
    let bd = origin
        .db
        .write_object(&Object::Blob(Blob {
            payload: digest(1),
            size: 0,
        }))
        .unwrap();
    let ld = origin
        .db
        .write_object(&Object::Layer(Layer { manifest: bd }))
        .unwrap();
    origin.tags.push_tag("env", &ld, 1);
    let mut cmd = CmdReset {
        edit: false,
        reference: Some("env".to_string()),
        paths: Vec::new(),
    };
    let mut rt = Runtime::new("rt".to_string());
    let mut local = Repository::new();
    let code = cmd.run(&mut rt, &origin, &mut local).unwrap();
    assert_eq!(code, 0);
    assert_eq!(rt.get_stack(), vec![ld]);
    assert!(local.db.has_object(&bd));
    assert!(local.db.has_object(&ld));
    assert!(rt.pending_remount);
}

#[test]
fn cmd_reset_with_no_reference_and_no_paths_discards_everything() {
    let mut cmd = CmdReset {
        edit: false,
        reference: None,
        paths: Vec::new(),
    };
    let mut rt = Runtime::new("rt".to_string());
    rt.push_digest(&digest(3));
    rt.edits.push(edit("/etc/conf"));
    rt.edits.push(edit("/bin/tool"));
    let origin = Repository::new();
    let mut local = Repository::new();
    let code = cmd.run(&mut rt, &origin, &mut local).unwrap();
    assert_eq!(code, 0);
    assert!(rt.edits.is_empty());
    assert_eq!(rt.get_stack(), vec![digest(3)]);
}

#[test]
fn cmd_reset_repeated_run_leaves_local_untouched() {
    let mut origin = Repository::new();
    let bd = origin
        .db
        .write_object(&Object::Blob(Blob {
            payload: digest(1),
            size: 0,
        }))
        .unwrap();
    let ld = origin
        .db
        .write_object(&Object::Layer(Layer { manifest: bd }))
        .unwrap();
    origin.tags.push_tag("env", &ld, 1);
    let mut rt = Runtime::new("rt".to_string());
    let mut local = Repository::new();
    let mut cmd = CmdReset {
        edit: false,
        reference: Some("env".to_string()),
        paths: Vec::new(),
    };
    cmd.run(&mut rt, &origin, &mut local).unwrap();
    let count = local.db.len();
    let mut cmd2 = CmdReset {
        edit: false,
        reference: Some("env".to_string()),
        paths: Vec::new(),
    };
    cmd2.run(&mut rt, &origin, &mut local).unwrap();
    assert_eq!(local.db.len(), count);
}

#[test]
fn cmd_reset_empty_reference_gives_empty_editable_env() {
    let mut cmd = CmdReset {
        edit: false,
        reference: Some("-".to_string()),
        paths: Vec::new(),
    };
    let mut rt = Runtime::new("rt".to_string());
    rt.push_digest(&digest(4));
    rt.edits.push(edit("/x"));
    let origin = Repository::new();
    let mut local = Repository::new();
    let code = cmd.run(&mut rt, &origin, &mut local).unwrap();
    assert_eq!(code, 0);
    assert!(rt.edits.is_empty());
    assert!(rt.get_stack().is_empty());
    assert!(rt.editable);
}

#[test]
fn runtime_command_argv_falls_back_to_shell() {
    let shell = vec!["sh".to_string(), "-i".to_string()];
    let argv = spfs::cli::runtime_command_argv(Vec::new(), shell.clone());
    assert_eq!(argv, shell);
    let argv = spfs::cli::runtime_command_argv(vec!["".to_string()], shell.clone());
    assert_eq!(argv, shell);
    let cmd = vec!["make".to_string(), "all".to_string()];
    let argv = spfs::cli::runtime_command_argv(cmd.clone(), shell);
    assert_eq!(argv, cmd);
}

#[test]
fn opt_run_dispatches() {
    let origin = Repository::new();
    let mut local = Repository::new();
    let mut rt = Runtime::new("rt".to_string());
    let mut opt = Opt {
        verbose: 0,
        help: false,
        cmd: Command::Version,
    };
    let (code, action) = opt.run(&mut rt, &origin, &mut local).unwrap();
    assert_eq!(code, 0);
    assert!(matches!(action, CliAction::Nothing));

    let mut opt = Opt {
        verbose: 0,
        help: false,
        cmd: Command::External(vec!["shell".to_string()]),
    };
    let (code, action) = opt.run(&mut rt, &origin, &mut local).unwrap();
    assert_eq!(code, 0);
    match action {
        CliAction::Exec(argv) => assert_eq!(argv[0], "spfs-shell"),
        _ => panic!("external command must ask for an exec"),
    }
}
