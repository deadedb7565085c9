use aside::clock::{LocalTime, Timestamp};
use aside::publish::{
    config_warning, date_formats, expand_tilde, format_duration, obsidian_uri, render_template, replace_all, to_publish, try_render_template,
    urlencod, vault_note, with_dates, AsideConfig, VaultConfig,
};

/// 2025-01-01T09:05:07 in UTC, read at an offset of an hour to the west.
fn start() -> LocalTime {
    LocalTime { at: Timestamp { secs: 1735722307, nanos: 0 }, offset_secs: -3600 }
}

fn config() -> VaultConfig {
    VaultConfig {
        path: "~/obsidian".to_string(),
        folder: "inbox".to_string(),
        filename: None,
        template: None,
        open_in_obsidian: None,
    }
}

#[test]
fn replacing() {
    assert_eq!(replace_all("a{{x}}b{{x}}", "{{x}}", "1"), "a1b1");
    assert_eq!(replace_all("aaaa", "aa", "b"), "bb");
    assert_eq!(replace_all("aaa", "aa", "b"), "ba");
    assert_eq!(replace_all("{{{x}}", "{{x}}", ""), "{");
    assert_eq!(replace_all("", "x", "y"), "");
}

#[test]
fn variables() {
    assert_eq!(
        render_template("{{name}}: {{memo}} ({{duration}})", "standup", "[00:01] x\n", start(), 3725),
        "standup: [00:01] x\n (01:02:05)"
    );
    // The name may bring in a variable of its own; an unknown variable stays.
    assert_eq!(render_template("{{name}} {{other}}", "{{duration}}", "", start(), 0), "00:00:00 {{other}}");
    assert_eq!(render_template("no variables { } }}", "n", "m", start(), 9), "no variables { } }}");
}

#[test]
fn dates() {
    assert_eq!(render_template("{{date:%Y-%m-%d-%-H-%M-%S}}", "n", "", start(), 0), "2025-01-01-8-05-07");
    assert_eq!(render_template("<{{date:%H}}{{date:%M}}>", "n", "", start(), 0), "<0805>");
    assert_eq!(render_template("{{date:}}", "n", "", start(), 0), "{{date:}}");
    assert_eq!(render_template("{{date:%H}", "n", "", start(), 0), "{{date:%H}");
    assert_eq!(render_template("{{{date:%H}}}", "n", "", start(), 0), "{08}");
}

#[test]
fn dates_that_cannot_be_written() {
    assert!(try_render_template("{{date:%Q}}", "n", "", start(), 0).is_none());
    assert_eq!(try_render_template("{{date:%Y}}", "n", "", start(), 0).unwrap(), "2025");
    assert!(try_render_template("{{memo}}", "n", "{{date:%Q}}", start(), 0).is_none());
}

#[test]
fn dates_taken_apart_and_put_in() {
    assert_eq!(date_formats("a{{date:%Y}}b{{date:}}{{date:x\ny}}"), vec!["%Y", "x\ny"]);
    assert_eq!(
        with_dates("a{{date:%Y}}b{{date:}}{{date:%d}}", &vec!["1".to_string(), "2".to_string()]),
        "a1b{{date:}}2"
    );
    // What is put in is not read again.
    assert_eq!(with_dates("{{date:%Y}}", &vec!["{{date:%m}}".to_string()]), "{{date:%m}}");
    assert!(date_formats("{{date:%Y}").is_empty());
}

#[test]
fn durations() {
    assert_eq!(format_duration(0), "00:00:00");
    assert_eq!(format_duration(3725), "01:02:05");
    assert_eq!(format_duration(360_000), "100:00:00");
    assert_eq!(format_duration(u64::MAX), "5124095576030431:00:15");
}

#[test]
fn home_directory() {
    assert_eq!(expand_tilde("~/obsidian", Some("/home/me")), "/home/me/obsidian");
    assert_eq!(expand_tilde("~/obsidian", None), "~/obsidian");
    assert_eq!(expand_tilde("~other/x", Some("/home/me")), "~other/x");
    assert_eq!(expand_tilde("/abs", Some("/home/me")), "/abs");
    assert_eq!(expand_tilde("~/", Some("/home/me")), "/home/me/");
    assert_eq!(expand_tilde("~", Some("/home/me")), "~");
}

#[test]
fn links() {
    assert_eq!(urlencod("a b#c&d?e%f/é"), "a%20b%23c%26d%3Fe%25f/é");
    assert_eq!(
        obsidian_uri(Some("my vault"), "inbox", "a&b.md"),
        "obsidian://open?vault=my%20vault&file=inbox/a%26b.md"
    );
    assert_eq!(obsidian_uri(None, "", "x.md"), "obsidian://open?vault=vault&file=/x.md");
}

#[test]
fn default_note() {
    let note = vault_note(&config(), None, "standup", "[00:05] hello\n", start(), 60).unwrap();
    assert_eq!(note.file_name, "2025-01-01-8-05-07.md");
    assert_eq!(
        note.content,
        "---\ncreated: '[[2025-01-01]]'\naside_session: standup\n---\n\n[00:05] hello\n"
    );
}

#[test]
fn what_is_published() {
    let wrapped = || Some(AsideConfig { vault: config() });
    assert_eq!(to_publish("[00:01] x", wrapped()).unwrap().folder, "inbox");
    assert!(to_publish(" \n", wrapped()).is_none());
    assert!(to_publish("[00:01] x", None).is_none());
    assert_eq!(config_warning("x", "bad").unwrap(), "Warning: failed to load aside config: bad");
    assert!(config_warning(" ", "bad").is_none());
    let mut c = config();
    assert!(!c.opens_note());
    c.open_in_obsidian = Some(true);
    assert!(c.opens_note());
    assert!(c.reads_template(true) && !c.reads_template(false));
    c.template = Some("t.md".to_string());
    assert!(c.reads_template(false));
}

#[test]
fn template_files() {
    let mut c = config();
    assert_eq!(c.template_file(), "template.md");
    c.template = Some("other.md".to_string());
    assert_eq!(c.template_file(), "other.md");
}

#[test]
fn configured_note() {
    let mut c = config();
    c.filename = Some("{{name}} {{memo}}{{duration}}".to_string());
    let note = vault_note(&c, Some("{{memo}}!"), "standup", "text", start(), 60).unwrap();
    assert_eq!(note.file_name, "standup 00:01:00.md");
    assert_eq!(note.content, "text!");
    c.filename = Some("{{date:%Q}}".to_string());
    assert!(vault_note(&c, Some("{{memo}}"), "standup", "text", start(), 60).is_none());
    c.filename = None;
    assert!(vault_note(&c, Some("{{date:%Q}}"), "standup", "text", start(), 60).is_none());
}
