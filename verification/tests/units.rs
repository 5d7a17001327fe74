use renify::{Cli, Error, FsModel, Method, RawEntry, SourceInfo, Target};

fn file_entry(parent: &str, name: &str, depth: usize) -> RawEntry {
    RawEntry {
        parent: parent.as_bytes().to_vec(),
        name: name.as_bytes().to_vec(),
        depth,
        is_dir: false,
        is_file: true,
        is_symlink: false,
    }
}

fn entry(parent: &str, name: &str, depth: usize, dir: bool, link: bool) -> RawEntry {
    RawEntry {
        parent: parent.as_bytes().to_vec(),
        name: name.as_bytes().to_vec(),
        depth,
        is_dir: dir,
        is_file: !dir,
        is_symlink: link,
    }
}

fn base_cli() -> Cli {
    Cli {
        input: String::from("src"),
        target: None,
        task: None,
        method: None,
        recursive: None,
        depth: None,
        nbits: None,
        start: None,
        with: None,
        delimiter: None,
        indiscriminate: true,
        yes: true,
    }
}

fn dir_source() -> SourceInfo {
    SourceInfo {
        exists: true,
        is_symlink: false,
        is_file: false,
        parent: Vec::new(),
        name: Vec::new(),
    }
}

#[test]
fn decimal_digits_are_exact() {
    assert_eq!(renify::dec_bytes(0), b"0".to_vec());
    assert_eq!(renify::dec_bytes(9), b"9".to_vec());
    assert_eq!(renify::dec_bytes(10), b"10".to_vec());
    assert_eq!(renify::dec_bytes(907), b"907".to_vec());
}

#[test]
fn base62_digits_are_exact() {
    assert_eq!(Cli::decimal_to_62(0), "0");
    assert_eq!(Cli::decimal_to_62(9), "9");
    assert_eq!(Cli::decimal_to_62(10), "A");
    assert_eq!(Cli::decimal_to_62(35), "Z");
    assert_eq!(Cli::decimal_to_62(36), "a");
    assert_eq!(Cli::decimal_to_62(61), "z");
    assert_eq!(Cli::decimal_to_62(62), "10");
    assert_eq!(Cli::decimal_to_62(124), "20");
}

#[test]
fn sort_keys_follow_usize_parsing() {
    assert_eq!(renify::sort_key(&b"12".to_vec()), 12);
    assert_eq!(renify::sort_key(&b"0".to_vec()), 0);
    assert_eq!(renify::sort_key(&b"+7".to_vec()), 7);
    assert_eq!(renify::sort_key(&b"".to_vec()), usize::MAX);
    assert_eq!(renify::sort_key(&b"+".to_vec()), usize::MAX);
    assert_eq!(renify::sort_key(&b"x1".to_vec()), usize::MAX);
    assert_eq!(renify::sort_key(&b"1x".to_vec()), usize::MAX);
    assert_eq!(
        renify::sort_key(&b"999999999999999999999999999".to_vec()),
        usize::MAX
    );
}

#[test]
fn byte_order_is_lexicographic() {
    assert!(renify::bytes_lt(&b"a".to_vec(), &b"b".to_vec()));
    assert!(renify::bytes_lt(&b"a".to_vec(), &b"ab".to_vec()));
    assert!(!renify::bytes_lt(&b"b".to_vec(), &b"ab".to_vec()));
    assert!(!renify::bytes_lt(&b"a".to_vec(), &b"a".to_vec()));
    assert!(renify::bytes_eq(&b"ab".to_vec(), &b"ab".to_vec()));
    assert!(!renify::bytes_eq(&b"ab".to_vec(), &b"ba".to_vec()));
}

#[test]
fn discovery_orders_numeric_stems_first() {
    // numeric stems in value order, then the rest in walk order
    let mut cli = base_cli();
    cli.target = Some(Target::File);
    cli.method = Some(Method::Num);
    cli.recursive = Some(false);
    cli.start = Some(1);
    let entries = vec![
        file_entry("/d", "b.txt", 1),
        file_entry("/d", "10.txt", 1),
        file_entry("/d", "2.txt", 1),
        file_entry("/d", "a.txt", 1),
    ];
    let fs = FsModel::from_paths(vec![
        b"/d/b.txt".to_vec(),
        b"/d/10.txt".to_vec(),
        b"/d/2.txt".to_vec(),
        b"/d/a.txt".to_vec(),
    ]);
    let plan = cli.rename(dir_source(), entries, fs).unwrap();
    let srcs: Vec<Vec<u8>> = plan.records.iter().map(|r| r.src.clone()).collect();
    assert_eq!(
        srcs,
        vec![
            b"/d/2.txt".to_vec(),
            b"/d/10.txt".to_vec(),
            b"/d/b.txt".to_vec(),
            b"/d/a.txt".to_vec(),
        ]
    );
}

#[test]
fn discovery_processes_deeper_entries_first() {
    let mut cli = base_cli();
    cli.target = Some(Target::Dir);
    cli.method = Some(Method::Num);
    cli.recursive = Some(true);
    cli.start = Some(1);
    let entries = vec![
        entry("/r", "outer", 1, true, false),
        entry("/r/outer", "inner", 2, true, false),
    ];
    let fs = FsModel::from_paths(vec![b"/r/outer".to_vec(), b"/r/outer/inner".to_vec()]);
    let plan = cli.rename(dir_source(), entries, fs).unwrap();
    assert_eq!(plan.records[0].src, b"/r/outer/inner".to_vec());
    assert_eq!(plan.records[1].src, b"/r/outer".to_vec());
}

#[test]
fn discovery_skips_hidden_links_and_deep_entries() {
    let mut cli = base_cli();
    cli.target = Some(Target::File);
    cli.method = Some(Method::Num);
    cli.recursive = Some(true);
    cli.depth = Some(2);
    cli.start = Some(1);
    let entries = vec![
        file_entry("/r", ".hidden.txt", 1),
        entry("/r", "link.txt", 1, false, true),
        entry("/r", "sub", 1, true, false),
        file_entry("/r/sub", "keep.txt", 2),
        file_entry("/r/sub/deep", "far.txt", 3),
    ];
    let fs = FsModel::from_paths(vec![b"/r/sub/keep.txt".to_vec()]);
    let plan = cli.rename(dir_source(), entries, fs).unwrap();
    assert_eq!(plan.records.len(), 1);
    assert_eq!(plan.records[0].src, b"/r/sub/keep.txt".to_vec());
}

#[test]
fn non_recursive_discovery_stays_at_depth_one() {
    let mut cli = base_cli();
    cli.target = Some(Target::File);
    cli.method = Some(Method::Num);
    cli.recursive = Some(false);
    cli.start = Some(1);
    let entries = vec![
        file_entry("/r", "top.txt", 1),
        file_entry("/r/sub", "below.txt", 2),
    ];
    let fs = FsModel::from_paths(vec![b"/r/top.txt".to_vec(), b"/r/sub/below.txt".to_vec()]);
    let plan = cli.rename(dir_source(), entries, fs).unwrap();
    assert_eq!(plan.records.len(), 1);
    assert_eq!(plan.records[0].src, b"/r/top.txt".to_vec());
}

#[test]
fn missing_source_fails() {
    let cli = base_cli();
    let source = SourceInfo {
        exists: false,
        is_symlink: false,
        is_file: false,
        parent: Vec::new(),
        name: Vec::new(),
    };
    let r = cli.rename(source, Vec::new(), FsModel::new());
    assert_eq!(r.unwrap_err(), Error::SourceNotFound);
}

#[test]
fn symlink_source_is_unsupported() {
    let cli = base_cli();
    let source = SourceInfo {
        exists: true,
        is_symlink: true,
        is_file: false,
        parent: Vec::new(),
        name: Vec::new(),
    };
    let r = cli.rename(source, Vec::new(), FsModel::new());
    assert_eq!(r.unwrap_err(), Error::UnsupportedTarget);
}

#[test]
fn symlink_target_kind_is_unsupported() {
    let mut cli = base_cli();
    cli.target = Some(Target::Symlink);
    let r = cli.rename(dir_source(), Vec::new(), FsModel::new());
    assert_eq!(r.unwrap_err(), Error::UnsupportedTarget);
}

#[test]
fn missing_method_fails_once_targets_exist() {
    let mut cli = base_cli();
    cli.target = Some(Target::File);
    cli.recursive = Some(false);
    let entries = vec![file_entry("/d", "a.txt", 1)];
    let fs = FsModel::from_paths(vec![b"/d/a.txt".to_vec()]);
    let r = cli.rename(dir_source(), entries, fs);
    assert_eq!(r.unwrap_err(), Error::MissingParameter);
}

#[test]
fn prefix_without_text_fails() {
    let mut cli = base_cli();
    cli.target = Some(Target::File);
    cli.recursive = Some(false);
    cli.method = Some(Method::Prefix);
    cli.delimiter = Some(String::from("-"));
    let entries = vec![file_entry("/d", "a.txt", 1)];
    let fs = FsModel::from_paths(vec![b"/d/a.txt".to_vec()]);
    let r = cli.rename(dir_source(), entries, fs);
    assert_eq!(r.unwrap_err(), Error::MissingParameter);
}

#[test]
fn zero_start_is_invalid() {
    let mut cli = base_cli();
    cli.target = Some(Target::File);
    cli.recursive = Some(false);
    cli.method = Some(Method::Num);
    cli.start = Some(0);
    let entries = vec![file_entry("/d", "a.txt", 1)];
    let fs = FsModel::from_paths(vec![b"/d/a.txt".to_vec()]);
    let r = cli.rename(dir_source(), entries, fs);
    assert_eq!(r.unwrap_err(), Error::InvalidParameter);
}

#[test]
fn narrow_random_width_is_invalid() {
    // one hundred candidates need two base-62 digits; a width of one is
    // rejected
    let mut cli = base_cli();
    cli.target = Some(Target::File);
    cli.recursive = Some(false);
    cli.method = Some(Method::Random);
    cli.nbits = Some(1);
    let mut entries = Vec::new();
    let mut paths = Vec::new();
    for i in 0..100 {
        let name = format!("f{}.txt", i);
        entries.push(file_entry("/d", &name, 1));
        paths.push(format!("/d/{}", name).into_bytes());
    }
    let fs = FsModel::from_paths(paths);
    let r = cli.rename(dir_source(), entries, fs);
    assert_eq!(r.unwrap_err(), Error::InvalidParameter);
}

#[test]
fn disallowed_delimiter_byte_is_invalid() {
    let mut cli = base_cli();
    cli.target = Some(Target::File);
    cli.recursive = Some(false);
    cli.method = Some(Method::Time);
    cli.delimiter = Some(String::from(":"));
    let entries = vec![file_entry("/d", "a.txt", 1)];
    let fs = FsModel::from_paths(vec![b"/d/a.txt".to_vec()]);
    let r = cli.rename(dir_source(), entries, fs);
    assert_eq!(r.unwrap_err(), Error::InvalidParameter);
}

#[test]
fn journal_round_trips_through_text() {
    let recs = vec![
        renify::Record { src: b"/d/a.txt".to_vec(), dst: b"/d/1.txt".to_vec() },
        renify::Record { src: b"/d/b.txt".to_vec(), dst: b"/d/2.txt".to_vec() },
    ];
    let text = renify::format_records(&recs);
    assert_eq!(text, b"/d/a.txt /d/1.txt\n/d/b.txt /d/2.txt\n".to_vec());
    let back = renify::parse_journal(&text).unwrap();
    assert_eq!(back.len(), 2);
    assert_eq!(back[0].src, b"/d/a.txt".to_vec());
    assert_eq!(back[0].dst, b"/d/1.txt".to_vec());
    assert_eq!(back[1].src, b"/d/b.txt".to_vec());
    assert_eq!(back[1].dst, b"/d/2.txt".to_vec());
}

#[test]
fn journal_line_without_space_is_corrupt() {
    let text = b"/d/a.txt /d/1.txt\nbroken\n".to_vec();
    let r = renify::parse_journal(&text);
    assert_eq!(r.unwrap_err(), Error::JournalCorrupt { line: 1 });
}

#[test]
fn journal_line_with_two_spaces_is_corrupt() {
    let text = b"/d/a b.txt /d/1.txt\n".to_vec();
    let r = renify::parse_journal(&text);
    assert_eq!(r.unwrap_err(), Error::JournalCorrupt { line: 0 });
}

#[test]
fn corrupt_journal_aborts_undo() {
    let cli = base_cli();
    let r = cli.undo(&vec![b"no-space-here\n".to_vec()], 0);
    assert_eq!(r.unwrap_err(), Error::JournalCorrupt { line: 0 });
}

#[test]
fn undo_keeps_store_while_other_journals_remain() {
    let cli = base_cli();
    let newest = b"/d/a.txt /d/1.txt\n".to_vec();
    let older = b"/d/b.txt /d/2.txt\n".to_vec();
    let plan = cli.undo(&vec![newest, older], 0).unwrap();
    assert_eq!(plan.steps.len(), 1);
    assert_eq!(plan.steps[0].src, b"/d/1.txt".to_vec());
    assert_eq!(plan.steps[0].dst, b"/d/a.txt".to_vec());
    assert!(!plan.remove_store);
}

#[test]
fn check_source_classifies_the_source() {
    let cli = base_cli();
    assert_eq!(
        cli.check_source(false, false, false).unwrap_err(),
        Error::SourceNotFound
    );
    assert_eq!(cli.check_source(true, true, false).unwrap(), Target::Symlink);
    assert_eq!(cli.check_source(true, false, true).unwrap(), Target::File);
    assert_eq!(cli.check_source(true, false, false).unwrap(), Target::Dir);
}

#[test]
fn error_kinds_have_stable_names() {
    assert_eq!(Error::SourceNotFound.kind_name(), "source not found");
    assert_eq!(
        Error::RenameFailed { src: Vec::new(), dst: Vec::new() }.kind_name(),
        "rename failed"
    );
    assert_eq!(Error::JournalCorrupt { line: 3 }.kind_name(), "journal corrupt");
}

#[test]
fn extension_splitting_follows_the_last_dot() {
    assert_eq!(renify::stem_bytes(&b"a.txt".to_vec()), b"a".to_vec());
    assert_eq!(renify::ext_bytes(&b"a.txt".to_vec()), Some(b"txt".to_vec()));
    assert_eq!(renify::stem_bytes(&b"archive.tar.gz".to_vec()), b"archive.tar".to_vec());
    assert_eq!(renify::ext_bytes(&b"archive.tar.gz".to_vec()), Some(b"gz".to_vec()));
    assert_eq!(renify::stem_bytes(&b"plain".to_vec()), b"plain".to_vec());
    assert_eq!(renify::ext_bytes(&b"plain".to_vec()), None);
    // a leading dot marks a hidden name, not an empty stem
    assert_eq!(renify::stem_bytes(&b".gitconfig".to_vec()), b".gitconfig".to_vec());
    assert_eq!(renify::ext_bytes(&b".gitconfig".to_vec()), None);
}

#[test]
fn gen_uniq_reuses_a_recorded_stem() {
    let mut cli = base_cli();
    cli.target = Some(Target::File);
    cli.method = Some(Method::Num);
    cli.start = Some(1);
    cli.indiscriminate = false;
    let mut counters = renify::CounterMap::new();
    let mut stems = renify::StemMap::new();
    let fs = FsModel::from_paths(vec![b"/d/a.txt".to_vec(), b"/d/a.log".to_vec()]);
    let first = cli
        .gen_uniq(
            &b"/d/a.txt".to_vec(),
            &b"/d".to_vec(),
            &mut counters,
            &mut stems,
            &fs,
        )
        .unwrap();
    assert_eq!(first, b"/d/1.txt".to_vec());
    let second = cli
        .gen_uniq(
            &b"/d/a.log".to_vec(),
            &b"/d".to_vec(),
            &mut counters,
            &mut stems,
            &fs,
        )
        .unwrap();
    assert_eq!(second, b"/d/1.log".to_vec());
}

#[test]
fn max_depth_counts_only_the_target_kind() {
    let mut cli = base_cli();
    cli.target = Some(Target::File);
    let entries = vec![
        entry("/r", "sub", 1, true, false),
        file_entry("/r/sub", "a.txt", 2),
        entry("/r/sub/deep", "deeper", 3, true, false),
    ];
    assert_eq!(cli.max_depth(&entries), 2);
    cli.target = Some(Target::Dir);
    assert_eq!(cli.max_depth(&entries), 3);
    assert_eq!(cli.max_depth(&Vec::new()), 0);
}
