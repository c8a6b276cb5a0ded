use serv::banner::{count, frame, plural, present, row, text, tilde, Item, Paint, Survey};
use serv::cli::Args;
use serv::config::Config;
use serv::startup::{configure, join, place, refuse_directory_flags};

fn plain() -> Paint {
    Paint { on: false }
}

#[test]
fn one_of_a_thing_is_singular() {
    assert_eq!(plural(1, "folder"), "folder");
    assert_eq!(plural(0, "folder"), "folders");
    assert_eq!(plural(2, "file"), "files");
}

#[test]
fn counts_the_top_level_of_the_served_folder() {
    let items = vec![
        Item { is_dir: true, len: 4096 },
        Item { is_dir: true, len: 4096 },
        Item { is_dir: false, len: 100 },
        Item { is_dir: false, len: 24 },
    ];
    assert_eq!(count(&items), (2, 2, 124));
}

#[test]
fn an_empty_folder_counts_to_nothing() {
    assert_eq!(count(&vec![]), (0, 0, 0));
}

#[test]
fn a_file_that_exists_is_named_in_green() {
    assert_eq!(present(&plain(), "/tmp/x/404.html", true, "missing"), "404.html");
    assert_eq!(
        present(&Paint { on: true }, "/tmp/x/404.html", true, "missing"),
        "\x1b[32m404.html\x1b[0m"
    );
}

#[test]
fn a_file_that_does_not_exist_says_so() {
    assert_eq!(present(&plain(), "/tmp/x/404.html", false, "missing"), "404.html · missing");
}

#[test]
fn shortens_a_path_under_home() {
    let home = Some("/home/alex");
    assert_eq!(tilde("/home/alex", home), "~");
    assert_eq!(tilde("/home/alex/site", home), "~/site");
    assert_eq!(tilde("/home/alex/work/serv", home), "~/work/serv");
}

#[test]
fn leaves_a_path_outside_home_alone() {
    let home = Some("/home/alex");
    assert_eq!(tilde("/etc", home), "/etc");
    assert_eq!(tilde("/", home), "/");
    assert_eq!(tilde("/etc", None), "/etc");
    assert_eq!(tilde("/home/alex", Some("")), "/home/alex");
}

#[test]
fn does_not_shorten_a_sibling_of_home() {
    assert_eq!(tilde("/home/alex-backup", Some("/home/alex")), "/home/alex-backup");
}

#[test]
fn the_address_is_boxed_to_the_width_of_the_url() {
    let mut out = String::new();
    frame(&mut out, &plain(), "http://127.0.0.1:8010/");

    let lines: Vec<&str> = out.lines().filter(|l| !l.trim().is_empty()).collect();
    assert_eq!(lines.len(), 3);
    assert!(lines[1].contains("http://127.0.0.1:8010/"));
    let widths: Vec<usize> = lines.iter().map(|l| l.chars().count()).collect();
    assert_eq!(widths[0], widths[1]);
    assert_eq!(widths[1], widths[2]);
}

#[test]
fn the_box_is_measured_in_characters_not_bytes() {
    let mut out = String::new();
    frame(&mut out, &plain(), "http://привет:8010/");

    let lines: Vec<usize> =
        out.lines().filter(|l| !l.trim().is_empty()).map(|l| l.chars().count()).collect();
    assert_eq!(lines[0], lines[1]);
    assert_eq!(lines[1], lines[2]);
}

#[test]
fn a_row_pads_its_label_to_a_fixed_column() {
    let mut out = String::new();
    row(&mut out, &plain(), "root", "~/site");
    row(&mut out, &plain(), "not found", "built-in page");

    let lines: Vec<&str> = out.lines().collect();
    assert_eq!(lines[0], "  root         ~/site");
    assert_eq!(lines[1], "  not found    built-in page");
    assert_eq!(lines[0].find("~/site"), lines[1].find("built-in page"));
}

fn config(spa: Option<&str>, not_found: Option<&str>, ext: bool) -> Config {
    Config {
        root: "/home/alex/site".to_string(),
        only: None,
        spa: spa.map(|s| s.to_string()),
        ext,
        not_found: not_found.map(|s| s.to_string()),
        markdown: false,
    }
}

fn survey() -> Survey {
    Survey {
        folders: 3,
        files: 8,
        bytes: 421_888,
        home: Some("/home/alex".to_string()),
        index_is_file: true,
        spa_is_file: false,
        not_found_is_file: false,
    }
}

#[test]
fn the_whole_block_reads_as_documented() {
    let block = text(&config(None, None, false), "127.0.0.1:8010", false, &plain(), &survey());
    let bar = "\u{2500}".repeat(26);
    let expected = format!(
        "\n  serv\u{258c} 0.4.0\n\n  \u{256d}{bar}\u{256e}\n  \u{2502}  http://127.0.0.1:8010/  \u{2502}\n  \u{2570}{bar}\u{256f}\n\n  root         ~/site\n  contents     3 folders \u{b7} 8 files \u{b7} 412.0 kB\n  index        index.html\n  not found    built-in page\n  urls         clean \u{b7} /about serves about.html\n  encoding     gzip \u{b7} text between 1 KiB and 8 MiB\n  logs         on\n\n  ctrl-c to stop\n"
    );
    assert_eq!(block, expected);
}

#[test]
fn the_block_names_the_shell_and_the_not_found_page() {
    let block = text(
        &config(Some("/home/alex/site/app.html"), Some("/home/alex/site/404.html"), true),
        "0.0.0.0:3000",
        true,
        &plain(),
        &survey(),
    );
    assert!(block.contains("  spa          app.html \u{b7} missing\n"), "{block}");
    assert!(
        block.contains("  not found    404.html \u{b7} missing, falling back to the built-in page\n"),
        "{block}"
    );
    assert!(block.contains("  urls         literal \u{b7} /about.html only\n"), "{block}");
    assert!(block.contains("  logs         off (--quiet)\n"), "{block}");
    assert!(block.contains("http://0.0.0.0:3000/"), "{block}");
}

#[test]
fn a_folder_without_an_index_says_it_will_be_listed() {
    let mut seen = survey();
    seen.index_is_file = false;
    let block = text(&config(None, None, false), "127.0.0.1:8010", false, &plain(), &seen);
    assert!(block.contains("  index        no index.html \u{b7} folders get a generated listing\n"));
}

fn args(dir: &str, spa: Option<&str>, not_found: Option<&str>) -> Args {
    Args {
        dir: dir.to_string(),
        host: "127.0.0.1".to_string(),
        port: 8010,
        spa: spa.map(|s| s.to_string()),
        quiet: false,
        ext: false,
        markdown: false,
        not_found: not_found.map(|s| s.to_string()),
    }
}

#[test]
fn a_directory_is_the_root_and_nothing_is_singled_out() {
    assert_eq!(place("/tmp/site", true, false), Ok(("/tmp/site".to_string(), None)));
}

#[test]
fn a_file_is_singled_out_with_its_folder_as_the_root() {
    assert_eq!(
        place("/tmp/site/index.html", false, true),
        Ok(("/tmp/site".to_string(), Some("/tmp/site/index.html".to_string())))
    );
    assert_eq!(
        place("/notes.md", false, true),
        Ok(("/".to_string(), Some("/notes.md".to_string())))
    );
}

#[test]
fn something_neither_a_file_nor_a_folder_is_refused() {
    assert_eq!(
        place("/dev/null", false, false),
        Err("`/dev/null` is neither a file nor a directory".to_string())
    );
}

#[test]
fn the_directory_flags_are_refused_for_a_single_file() {
    let err = refuse_directory_flags(&args("/tmp/x/index.html", Some("index.html"), None))
        .unwrap_err();
    assert!(err.contains("`--spa`"), "{err}");
    assert!(err.contains("index.html"), "{err}");

    let err =
        refuse_directory_flags(&args("/tmp/x/index.html", None, Some("404.html"))).unwrap_err();
    assert!(err.contains("`--not-found`"), "{err}");
}

#[test]
fn the_flags_a_single_file_can_live_with_are_left_alone() {
    let mut a = args("/tmp/x/notes.md", None, None);
    a.markdown = true;
    a.quiet = true;
    a.ext = true;
    assert!(refuse_directory_flags(&a).is_ok());
    assert!(refuse_directory_flags(&args("/tmp/x/notes.md", None, None)).is_ok());
}

#[test]
fn the_shell_and_the_not_found_page_are_found_under_the_root() {
    let c = configure(&args(".", Some("index.html"), Some("/abs/404.html")), "/srv".to_string(), None);
    assert_eq!(c.spa.as_deref(), Some("/srv/index.html"));
    assert_eq!(c.not_found.as_deref(), Some("/abs/404.html"));
    assert_eq!(c.root, "/srv");
    assert_eq!(join("/srv/", "a"), "/srv/a");
    assert_eq!(join("", "a"), "a");
}

#[test]
fn with_markdown_on_the_block_says_code_is_plain() {
    let mut c = config(None, None, false);
    c.markdown = true;
    let block = text(&c, "127.0.0.1:8010", false, &plain(), &survey());
    assert!(block.contains("  markdown     rendered \u{b7} code plain\n"), "{block}");
    let plain_block = text(&config(None, None, false), "127.0.0.1:8010", false, &plain(), &survey());
    assert!(!plain_block.contains("markdown"), "{plain_block}");
}

#[test]
fn printing_the_banner_does_not_panic() {
    for (spa, not_found, ext, markdown, quiet, on) in [
        (None, None, false, false, false, false),
        (Some("/tmp/site/index.html"), Some("/tmp/site/404.html"), true, false, true, true),
        (Some("/tmp/site/gone.html"), Some("/tmp/site/gone.html"), false, true, true, false),
        (None, None, false, true, false, true),
    ] {
        let mut c = config(spa, not_found, ext);
        c.markdown = markdown;
        let block = text(&c, "127.0.0.1:8010", quiet, &Paint { on }, &survey());
        assert!(block.contains("http://127.0.0.1:8010/"));
        assert!(block.ends_with("\n"));
    }
}
