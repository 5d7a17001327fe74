use renify::{Cli, Error, FsModel, Method, RawEntry, RunInput, RunOutcome, SourceInfo, Target, Task};

fn base_cli() -> Cli {
    Cli {
        input: String::from("src"),
        target: None,
        task: None,
        method: None,
        recursive: None,
        depth: None,
        nbits: None,
        start: None,
        with: None,
        delimiter: None,
        indiscriminate: false,
        yes: true,
    }
}

fn file_entry(parent: &str, name: &str, depth: usize) -> RawEntry {
    RawEntry {
        parent: parent.as_bytes().to_vec(),
        name: name.as_bytes().to_vec(),
        depth,
        is_dir: false,
        is_file: true,
        is_symlink: false,
    }
}

fn dir_source() -> SourceInfo {
    SourceInfo {
        exists: true,
        is_symlink: false,
        is_file: false,
        parent: Vec::new(),
        name: Vec::new(),
    }
}

#[test]
fn scenario_numbered_flat_batch() {
    // two files at depth one, numbered from five, consistency off
    let mut cli = base_cli();
    cli.target = Some(Target::File);
    cli.method = Some(Method::Num);
    cli.recursive = Some(false);
    cli.start = Some(5);
    cli.indiscriminate = true;
    let entries = vec![file_entry("/src", "x.txt", 1), file_entry("/src", "y.txt", 1)];
    let fs = FsModel::from_paths(vec![b"/src/x.txt".to_vec(), b"/src/y.txt".to_vec()]);
    let plan = cli.rename(dir_source(), entries, fs).unwrap();
    assert_eq!(plan.records.len(), 2);
    assert_eq!(plan.records[0].src, b"/src/x.txt".to_vec());
    assert_eq!(plan.records[0].dst, b"/src/5.txt".to_vec());
    assert_eq!(plan.records[1].src, b"/src/y.txt".to_vec());
    assert_eq!(plan.records[1].dst, b"/src/6.txt".to_vec());
    assert_eq!(
        plan.journal,
        b"/src/x.txt /src/5.txt\n/src/y.txt /src/6.txt\n".to_vec()
    );
    // undoing that journal restores both names
    let undo = cli.undo(&vec![plan.journal.clone()], 0).unwrap();
    assert_eq!(undo.steps.len(), 2);
    assert_eq!(undo.steps[0].src, b"/src/6.txt".to_vec());
    assert_eq!(undo.steps[0].dst, b"/src/y.txt".to_vec());
    assert_eq!(undo.steps[1].src, b"/src/5.txt".to_vec());
    assert_eq!(undo.steps[1].dst, b"/src/x.txt".to_vec());
    assert!(undo.remove_store);
}

#[test]
fn journal_replay_restores_model() {
    let mut cli = base_cli();
    cli.target = Some(Target::File);
    cli.method = Some(Method::Num);
    cli.recursive = Some(false);
    cli.start = Some(1);
    cli.indiscriminate = true;
    let entries = vec![file_entry("/d", "b.txt", 1), file_entry("/d", "a.txt", 1)];
    let fs = FsModel::from_paths(vec![b"/d/b.txt".to_vec(), b"/d/a.txt".to_vec()]);
    let plan = cli.rename(dir_source(), entries, fs).unwrap();
    assert_eq!(plan.records.len(), 2);
    // replay the plan on a fresh model, then the undo steps, and compare
    let mut model = FsModel::from_paths(vec![b"/d/b.txt".to_vec(), b"/d/a.txt".to_vec()]);
    for r in plan.records.iter() {
        assert!(model.contains(&r.src));
        model.rename(&r.src, &r.dst);
    }
    assert!(!model.contains(&b"/d/a.txt".to_vec()));
    assert!(model.contains(&b"/d/1.txt".to_vec()));
    assert!(model.contains(&b"/d/2.txt".to_vec()));
    let undo = cli.undo(&vec![plan.journal.clone()], 0).unwrap();
    for s in undo.steps.iter() {
        model.rename(&s.src, &s.dst);
    }
    assert!(model.contains(&b"/d/a.txt".to_vec()));
    assert!(model.contains(&b"/d/b.txt".to_vec()));
    assert!(!model.contains(&b"/d/1.txt".to_vec()));
    assert!(!model.contains(&b"/d/2.txt".to_vec()));
}

#[test]
fn per_directory_numbering_is_independent() {
    // three files in one directory and two in another: each directory
    // numbers from the start on its own
    let mut cli = base_cli();
    cli.target = Some(Target::File);
    cli.method = Some(Method::Num);
    cli.recursive = Some(false);
    cli.start = Some(1);
    cli.indiscriminate = true;
    let entries = vec![
        file_entry("/d1", "a.txt", 1),
        file_entry("/d2", "p.txt", 1),
        file_entry("/d1", "b.txt", 1),
        file_entry("/d2", "q.txt", 1),
        file_entry("/d1", "c.txt", 1),
    ];
    let fs = FsModel::from_paths(vec![
        b"/d1/a.txt".to_vec(),
        b"/d1/b.txt".to_vec(),
        b"/d1/c.txt".to_vec(),
        b"/d2/p.txt".to_vec(),
        b"/d2/q.txt".to_vec(),
    ]);
    let plan = cli.rename(dir_source(), entries, fs).unwrap();
    assert_eq!(plan.records.len(), 5);
    assert_eq!(plan.records[0].dst, b"/d1/1.txt".to_vec());
    assert_eq!(plan.records[1].dst, b"/d1/2.txt".to_vec());
    assert_eq!(plan.records[2].dst, b"/d1/3.txt".to_vec());
    assert_eq!(plan.records[3].dst, b"/d2/1.txt".to_vec());
    assert_eq!(plan.records[4].dst, b"/d2/2.txt".to_vec());
}

#[test]
fn zero_padded_numbering_pads_up_only() {
    let mut cli = base_cli();
    cli.target = Some(Target::File);
    cli.method = Some(Method::Znum);
    cli.recursive = Some(false);
    cli.start = Some(7);
    cli.nbits = Some(3);
    cli.indiscriminate = true;
    let entries = vec![file_entry("/d", "a.txt", 1)];
    let fs = FsModel::from_paths(vec![b"/d/a.txt".to_vec()]);
    let plan = cli.rename(dir_source(), entries, fs).unwrap();
    assert_eq!(plan.records[0].dst, b"/d/007.txt".to_vec());
}

#[test]
fn zero_padding_never_truncates() {
    // a count wider than the configured width keeps all its digits
    assert_eq!(renify::zpad(&renify::dec_bytes(7), 3), b"007".to_vec());
    assert_eq!(renify::zpad(&renify::dec_bytes(1000), 3), b"1000".to_vec());
}

#[test]
fn numbered_collision_keeps_original_path() {
    // the offered name exists, so the candidate keeps its path and the
    // sequence number is still consumed
    let mut cli = base_cli();
    cli.target = Some(Target::File);
    cli.method = Some(Method::Num);
    cli.recursive = Some(false);
    cli.start = Some(5);
    cli.indiscriminate = true;
    let entries = vec![file_entry("/d", "a.txt", 1), file_entry("/d", "b.txt", 1)];
    let fs = FsModel::from_paths(vec![
        b"/d/a.txt".to_vec(),
        b"/d/b.txt".to_vec(),
        b"/d/5.txt".to_vec(),
    ]);
    let plan = cli.rename(dir_source(), entries, fs).unwrap();
    assert_eq!(plan.records[0].src, b"/d/a.txt".to_vec());
    assert_eq!(plan.records[0].dst, b"/d/a.txt".to_vec());
    assert_eq!(plan.records[1].dst, b"/d/6.txt".to_vec());
}

#[test]
fn prefix_collision_keeps_original_path() {
    // the prefixed name is deterministic: when it is taken, regenerating
    // cannot free it, and the candidate keeps its own path
    let mut cli = base_cli();
    cli.target = Some(Target::File);
    cli.method = Some(Method::Prefix);
    cli.recursive = Some(false);
    cli.delimiter = Some(String::from("-"));
    cli.with = Some(String::from("new"));
    cli.indiscriminate = true;
    let entries = vec![file_entry("/d", "a.txt", 1)];
    let fs = FsModel::from_paths(vec![b"/d/a.txt".to_vec(), b"/d/new-a.txt".to_vec()]);
    let plan = cli.rename(dir_source(), entries, fs).unwrap();
    assert_eq!(plan.records[0].dst, b"/d/a.txt".to_vec());
}

#[test]
fn prefix_and_append_compose_stems() {
    let mut cli = base_cli();
    cli.target = Some(Target::File);
    cli.method = Some(Method::Prefix);
    cli.recursive = Some(false);
    cli.delimiter = Some(String::from("_"));
    cli.with = Some(String::from("old"));
    cli.indiscriminate = true;
    let entries = vec![file_entry("/d", "a.txt", 1)];
    let fs = FsModel::from_paths(vec![b"/d/a.txt".to_vec()]);
    let plan = cli.rename(dir_source(), entries, fs).unwrap();
    assert_eq!(plan.records[0].dst, b"/d/old_a.txt".to_vec());

    let mut cli2 = base_cli();
    cli2.target = Some(Target::File);
    cli2.method = Some(Method::Append);
    cli2.recursive = Some(false);
    cli2.delimiter = Some(String::from("_"));
    cli2.with = Some(String::from("v2"));
    cli2.indiscriminate = true;
    let entries2 = vec![file_entry("/d", "a.txt", 1)];
    let fs2 = FsModel::from_paths(vec![b"/d/a.txt".to_vec()]);
    let plan2 = cli2.rename(dir_source(), entries2, fs2).unwrap();
    assert_eq!(plan2.records[0].dst, b"/d/a_v2.txt".to_vec());
}

#[test]
fn case_folds_rename_the_stem_only() {
    let mut cli = base_cli();
    cli.target = Some(Target::File);
    cli.method = Some(Method::Uppercase);
    cli.recursive = Some(false);
    cli.indiscriminate = true;
    let entries = vec![file_entry("/d", "report v1.bak", 1)];
    let fs = FsModel::from_paths(vec![b"/d/report v1.bak".to_vec()]);
    let plan = cli.rename(dir_source(), entries, fs).unwrap();
    assert_eq!(plan.records[0].dst, b"/d/REPORT V1.bak".to_vec());

    let mut cli2 = base_cli();
    cli2.target = Some(Target::File);
    cli2.method = Some(Method::Lowercase);
    cli2.recursive = Some(false);
    cli2.indiscriminate = true;
    let entries2 = vec![file_entry("/d", "MiXeD.TXT", 1)];
    let fs2 = FsModel::from_paths(vec![b"/d/MiXeD.TXT".to_vec()]);
    let plan2 = cli2.rename(dir_source(), entries2, fs2).unwrap();
    assert_eq!(plan2.records[0].dst, b"/d/mixed.TXT".to_vec());
}

#[test]
fn case_fold_returns_its_name_even_when_taken() {
    // the fold is deterministic and skips the existence check: landing on
    // an existing sibling is the documented no-op or overwrite edge
    let mut cli = base_cli();
    cli.target = Some(Target::File);
    cli.method = Some(Method::Lowercase);
    cli.recursive = Some(false);
    cli.indiscriminate = true;
    let entries = vec![file_entry("/d", "A.txt", 1)];
    let fs = FsModel::from_paths(vec![b"/d/A.txt".to_vec(), b"/d/a.txt".to_vec()]);
    let plan = cli.rename(dir_source(), entries, fs).unwrap();
    assert_eq!(plan.records[0].dst, b"/d/a.txt".to_vec());
}

#[test]
fn stem_consistency_applies_to_every_method() {
    // files sharing an extension-stripped path receive the same stem
    for method in [
        Method::Random,
        Method::Uuid,
        Method::Time,
        Method::Num,
        Method::Znum,
        Method::Prefix,
        Method::Append,
        Method::Uppercase,
        Method::Lowercase,
    ] {
        let mut cli = base_cli();
        cli.target = Some(Target::File);
        cli.method = Some(method);
        cli.recursive = Some(false);
        cli.start = Some(1);
        cli.nbits = Some(6);
        cli.delimiter = Some(String::from("-"));
        cli.with = Some(String::from("w"));
        cli.indiscriminate = false;
        let entries = vec![file_entry("/d", "a.txt", 1), file_entry("/d", "a.log", 1)];
        let fs = FsModel::from_paths(vec![b"/d/a.txt".to_vec(), b"/d/a.log".to_vec()]);
        let plan = cli.rename(dir_source(), entries, fs).unwrap();
        assert_eq!(plan.records.len(), 2);
        let stem_of = |p: &Vec<u8>| {
            let name: Vec<u8> = p[p.iter().rposition(|&b| b == b'/').unwrap() + 1..].to_vec();
            let cut = name.iter().rposition(|&b| b == b'.').unwrap();
            name[..cut].to_vec()
        };
        assert_eq!(
            stem_of(&plan.records[0].dst),
            stem_of(&plan.records[1].dst),
            "stems diverge under {:?}",
            method
        );
        assert!(plan.records[0].dst.ends_with(b".txt"));
        assert!(plan.records[1].dst.ends_with(b".log"));
    }
}

#[test]
fn random_names_have_the_configured_width() {
    let mut cli = base_cli();
    cli.target = Some(Target::File);
    cli.method = Some(Method::Random);
    cli.recursive = Some(false);
    cli.nbits = Some(5);
    cli.indiscriminate = true;
    let entries = vec![file_entry("/d", "a.txt", 1)];
    let fs = FsModel::from_paths(vec![b"/d/a.txt".to_vec()]);
    let plan = cli.rename(dir_source(), entries, fs).unwrap();
    let dst = &plan.records[0].dst;
    // "/d/" plus five alphanumeric bytes plus ".txt"
    assert_eq!(dst.len(), 3 + 5 + 4);
    assert!(dst[3..8].iter().all(|b| b.is_ascii_alphanumeric()));
    assert_ne!(dst, &b"/d/a.txt".to_vec());
}

#[test]
fn uuid_names_are_hyphenated() {
    let mut cli = base_cli();
    cli.target = Some(Target::File);
    cli.method = Some(Method::Uuid);
    cli.recursive = Some(false);
    cli.indiscriminate = true;
    let entries = vec![file_entry("/d", "a.txt", 1)];
    let fs = FsModel::from_paths(vec![b"/d/a.txt".to_vec()]);
    let plan = cli.rename(dir_source(), entries, fs).unwrap();
    let dst = &plan.records[0].dst;
    assert_eq!(dst.len(), 3 + 36 + 4);
    assert_eq!(dst[3 + 8], b'-');
    assert_eq!(dst[3 + 13], b'-');
    assert_eq!(dst[3 + 18], b'-');
    assert_eq!(dst[3 + 23], b'-');
}

#[test]
fn time_names_carry_the_delimiter() {
    let mut cli = base_cli();
    cli.target = Some(Target::File);
    cli.method = Some(Method::Time);
    cli.recursive = Some(false);
    cli.delimiter = Some(String::from("-"));
    cli.indiscriminate = true;
    let entries = vec![file_entry("/d", "a.txt", 1)];
    let fs = FsModel::from_paths(vec![b"/d/a.txt".to_vec()]);
    let plan = cli.rename(dir_source(), entries, fs).unwrap();
    let dst = &plan.records[0].dst;
    // year, five two-digit fields, nine nanosecond digits, six delimiters
    assert!(dst.len() >= 3 + 29 + 4);
    assert_eq!(dst.iter().filter(|&&b| b == b'-').count(), 6);
}

#[test]
fn undo_of_empty_store_fails_with_no_journal_found() {
    let cli = base_cli();
    let r = cli.undo(&Vec::new(), 0);
    assert_eq!(r.unwrap_err(), Error::NoJournalFound);
}

#[test]
fn run_dispatches_and_requires_a_task() {
    let mut cli = base_cli();
    cli.task = None;
    let r = cli.run(RunInput::Undo { journals: Vec::new(), selected: 0 });
    assert_eq!(r.unwrap_err(), Error::MissingParameter);

    let mut cli = base_cli();
    cli.task = Some(Task::Undo);
    let r = cli.run(RunInput::Undo { journals: Vec::new(), selected: 0 });
    assert_eq!(r.unwrap_err(), Error::NoJournalFound);

    let mut cli = base_cli();
    cli.task = Some(Task::Rename);
    cli.target = Some(Target::File);
    cli.method = Some(Method::Num);
    cli.recursive = Some(false);
    cli.start = Some(1);
    cli.indiscriminate = true;
    let entries = vec![file_entry("/d", "a.txt", 1)];
    let fs = FsModel::from_paths(vec![b"/d/a.txt".to_vec()]);
    let out = cli
        .run(RunInput::Rename { source: dir_source(), entries, fs })
        .unwrap();
    match out {
        RunOutcome::Renamed(plan) => {
            assert_eq!(plan.records[0].dst, b"/d/1.txt".to_vec());
        }
        RunOutcome::Undone(_) => panic!("expected a rename plan"),
    }
}

#[test]
fn file_mode_shortcut_renames_the_single_file() {
    let mut cli = base_cli();
    cli.method = Some(Method::Num);
    cli.start = Some(3);
    cli.indiscriminate = true;
    let source = SourceInfo {
        exists: true,
        is_symlink: false,
        is_file: true,
        parent: b"/home".to_vec(),
        name: b"doc.pdf".to_vec(),
    };
    let fs = FsModel::from_paths(vec![b"/home/doc.pdf".to_vec()]);
    let plan = cli.rename(source, Vec::new(), fs).unwrap();
    assert_eq!(plan.records.len(), 1);
    assert_eq!(plan.records[0].src, b"/home/doc.pdf".to_vec());
    assert_eq!(plan.records[0].dst, b"/home/3.pdf".to_vec());
}

#[test]
fn empty_discovery_plans_nothing() {
    let mut cli = base_cli();
    cli.target = Some(Target::File);
    cli.recursive = Some(false);
    // no method needed: nothing was found, so nothing is asked of it
    let plan = cli.rename(dir_source(), Vec::new(), FsModel::new()).unwrap();
    assert_eq!(plan.records.len(), 0);
    assert_eq!(plan.journal, Vec::<u8>::new());
}
