//! Publishing a memo as a note of a vault: templates, file names and links.

use vstd::prelude::*;

use crate::clock::{format_at, long_clock_text, push_long_clock, strftime, LocalTime};
use crate::text::{blank, chars_of, find_char, find_from, is_blank, push_range, strings_view};

verus! {

pub struct AsideConfig {
    pub vault: VaultConfig,
}

pub struct VaultConfig {
    pub path: String,
    pub folder: String,
    pub filename: Option<String>,
    pub template: Option<String>,
    pub open_in_obsidian: Option<bool>,
}

pub const DEFAULT_TEMPLATE: &'static str =
    "---\ncreated: '[[{{date:%Y-%m-%d}}]]'\naside_session: {{name}}\n---\n\n{{memo}}";

pub const DEFAULT_FILENAME: &'static str = "{{date:%Y-%m-%d-%-H-%M-%S}}";

/// The file beside the configuration that a template is read from where none is
/// named.
pub const TEMPLATE_FILE: &'static str = "template.md";

// --- Variables ---

/// `s` with each occurrence of `pat` replaced by `with`, from the left on.
pub open spec fn replaced(s: Seq<char>, pat: Seq<char>, with: Seq<char>) -> Seq<char>
    decreases s.len(),
{
    if pat.len() == 0 || s.len() < pat.len() {
        s
    } else if s.take(pat.len() as int) == pat {
        with + replaced(s.skip(pat.len() as int), pat, with)
    } else {
        seq![s[0]] + replaced(s.skip(1), pat, with)
    }
}

/// Whether `pat` stands at position `i` of `v`.
fn stands_at(v: &Vec<char>, i: usize, pat: &Vec<char>) -> (r: bool)
    requires
        i <= v@.len(),
    ensures
        r == (pat@.len() <= v@.len() - i && v@.skip(i as int).take(pat@.len() as int) == pat@),
{
    if pat.len() > v.len() - i {
        return false;
    }
    let mut k: usize = 0;
    while k < pat.len()
        invariant
            k <= pat@.len() <= v@.len() - i,
            forall|j: int| 0 <= j < k ==> v@[i + j] == pat@[j],
        decreases pat@.len() - k,
    {
        assert(i + k < v.len());
        if v[i + k] != pat[k] {
            assert(v@.skip(i as int).take(pat@.len() as int)[k as int] != pat@[k as int]);
            return false;
        }
        k += 1;
    }
    assert(v@.skip(i as int).take(pat@.len() as int) =~= pat@);
    true
}

/// Replaces each occurrence of `pat`.
pub fn replace_all(s: &str, pat: &str, with: &str) -> (r: String)
    requires
        pat@.len() > 0,
    ensures
        r@ == replaced(s@, pat@, with@),
{
    let v = chars_of(s);
    let p = chars_of(pat);
    let mut out = String::new();
    let mut i: usize = 0;
    assert(v@.skip(0) =~= v@);
    assert(out@ + replaced(v@, pat@, with@) =~= replaced(v@, pat@, with@));
    while i < v.len()
        invariant
            i <= v@.len(),
            p@ == pat@,
            pat@.len() > 0,
            out@ + replaced(v@.skip(i as int), pat@, with@) == replaced(v@, pat@, with@),
        decreases v@.len() - i,
    {
        let ghost rest = v@.skip(i as int);
        let ghost done = out@;
        if stands_at(&v, i, &p) {
            out.append(with);
            assert(rest.skip(p@.len() as int) =~= v@.skip(i + p@.len()));
            i = i + p.len();
            assert(out@ + replaced(v@.skip(i as int), pat@, with@) =~= done + replaced(
                rest,
                pat@,
                with@,
            ));
        } else {
            out.push(v[i]);
            assert(rest.skip(1) =~= v@.skip(i + 1));
            i += 1;
            assert(out@ + replaced(v@.skip(i as int), pat@, with@) =~= done + replaced(
                rest,
                pat@,
                with@,
            ));
        }
    }
    assert(v@.skip(i as int) =~= Seq::<char>::empty());
    assert(out@ =~= out@ + replaced(v@.skip(i as int), pat@, with@));
    out
}

/// The template with its name, memo and duration filled in, in that order.
pub open spec fn filled(
    template: Seq<char>,
    name: Seq<char>,
    memo: Seq<char>,
    duration_secs: int,
) -> Seq<char> {
    replaced(
        replaced(replaced(template, "{{name}}"@, name), "{{memo}}"@, memo),
        "{{duration}}"@,
        long_clock_text(duration_secs),
    )
}

fn fill(template: &str, name: &str, memo: &str, duration_secs: u64) -> (r: String)
    ensures
        r@ == filled(template@, name@, memo@, duration_secs as int),
{
    proof {
        reveal_strlit("{{name}}");
        reveal_strlit("{{memo}}");
        reveal_strlit("{{duration}}");
    }
    let result = replace_all(template, "{{name}}", name);
    let result = replace_all(result.as_str(), "{{memo}}", memo);
    replace_all(result.as_str(), "{{duration}}", format_duration(duration_secs).as_str())
}

/// Hours, minutes and seconds.
pub fn format_duration(secs: u64) -> (r: String)
    ensures
        r@ == long_clock_text(secs as int),
{
    let mut out = String::new();
    push_long_clock(&mut out, secs);
    assert(out@ =~= long_clock_text(secs as int));
    out
}

// --- Dates ---

/// How a date in a template starts.
pub open spec fn date_open() -> Seq<char> {
    seq!['{', '{', 'd', 'a', 't', 'e', ':']
}

/// Where the format ends in a date `{{date:FORMAT}}` at the head of `s`; `None` where
/// no date stands there. The format is not empty and holds no closing brace.
pub open spec fn date_end(s: Seq<char>) -> Option<int> {
    let e = find_from(s, 7, '}');
    if s.len() >= 7 && s.take(7) == date_open() && 7 < e && e + 1 < s.len() && s[e + 1] == '}' {
        Some(e)
    } else {
        None
    }
}

/// The formats of the dates in `s`, from the left on.
pub open spec fn formats(s: Seq<char>) -> Seq<Seq<char>>
    decreases s.len(),
{
    if s.len() == 0 {
        seq![]
    } else {
        match date_end(s) {
            Some(e) => seq![s.subrange(7, e)] + formats(s.skip(e + 2)),
            None => formats(s.skip(1)),
        }
    }
}

/// `s` with `dates` in place of its dates, from the left on.
pub open spec fn spliced(s: Seq<char>, dates: Seq<Seq<char>>) -> Seq<char>
    decreases s.len(),
{
    if s.len() == 0 {
        seq![]
    } else {
        match date_end(s) {
            Some(e) => dates[0] + spliced(s.skip(e + 2), dates.skip(1)),
            None => seq![s[0]] + spliced(s.skip(1), dates),
        }
    }
}

fn date_opening() -> (r: Vec<char>)
    ensures
        r@ == date_open(),
{
    let v = vec!['{', '{', 'd', 'a', 't', 'e', ':'];
    assert(v@ =~= date_open());
    v
}

/// Where the format ends in a date at position `i` of `v`.
fn date_end_at(v: &Vec<char>, i: usize) -> (r: Option<usize>)
    requires
        i <= v@.len(),
    ensures
        match r {
            Some(e) => i + 7 < e < v@.len() - 1 && date_end(v@.skip(i as int)) == Some(e - i),
            None => date_end(v@.skip(i as int)) is None,
        },
{
    let opening = date_opening();
    if !stands_at(v, i, &opening) {
        return None;
    }
    let ghost rest = v@.skip(i as int);
    assert(i + 7 <= v.len());
    let e = find_char(v, i + 7, '}');
    proof {
        lemma_find_in_skip(v@, i as int, 7, '}');
    }
    if e > i + 7 && e < v.len() - 1 && v[e + 1] == '}' {
        Some(e)
    } else {
        None
    }
}

proof fn lemma_find_in_skip(s: Seq<char>, i: int, k: int, c: char)
    requires
        0 <= i,
        0 <= k,
        i + k <= s.len(),
    ensures
        find_from(s.skip(i), k, c) + i == find_from(s, i + k, c),
    decreases s.len() - i - k,
{
    if i + k < s.len() && s[i + k] != c {
        lemma_find_in_skip(s, i, k + 1, c);
    }
}

/// The formats of the dates in a text.
pub fn date_formats(text: &str) -> (r: Vec<String>)
    ensures
        strings_view(r@) == formats(text@),
{
    let v = chars_of(text);
    let mut out: Vec<String> = Vec::new();
    let mut i: usize = 0;
    assert(v@.skip(0) =~= v@);
    assert(strings_view(out@) + formats(v@) =~= formats(v@));
    while i < v.len()
        invariant
            i <= v@.len(),
            strings_view(out@) + formats(v@.skip(i as int)) == formats(v@),
        decreases v@.len() - i,
    {
        let ghost rest = v@.skip(i as int);
        let ghost done = strings_view(out@);
        match date_end_at(&v, i) {
            Some(e) => {
                let mut format = String::new();
                push_range(&mut format, &v, i + 7, e);
                assert(format@ =~= rest.subrange(7, e - i));
                out.push(format);
                assert(strings_view(out@) =~= done.push(format@));
                assert(rest.skip(e - i + 2) =~= v@.skip(e + 2));
                i = e + 2;
            },
            None => {
                assert(rest.skip(1) =~= v@.skip(i + 1));
                i += 1;
            },
        }
        assert(strings_view(out@) + formats(v@.skip(i as int)) =~= done + formats(rest));
    }
    assert(v@.skip(i as int) =~= Seq::<char>::empty());
    assert(strings_view(out@) =~= strings_view(out@) + formats(v@.skip(i as int)));
    out
}

/// A text with the given dates in place of its dates.
pub fn with_dates(text: &str, dates: &Vec<String>) -> (r: String)
    requires
        dates@.len() == formats(text@).len(),
    ensures
        r@ == spliced(text@, strings_view(dates@)),
{
    let v = chars_of(text);
    let ghost all = strings_view(dates@);
    let mut out = String::new();
    let mut i: usize = 0;
    let mut k: usize = 0;
    assert(v@.skip(0) =~= v@);
    assert(all.skip(0) =~= all);
    assert(out@ + spliced(v@, all) =~= spliced(v@, all));
    while i < v.len()
        invariant
            i <= v@.len(),
            k <= dates@.len(),
            all == strings_view(dates@),
            dates@.len() - k == formats(v@.skip(i as int)).len(),
            out@ + spliced(v@.skip(i as int), all.skip(k as int)) == spliced(v@, all),
        decreases v@.len() - i,
    {
        let ghost rest = v@.skip(i as int);
        let ghost done = out@;
        let ghost left = all.skip(k as int);
        match date_end_at(&v, i) {
            Some(e) => {
                assert(k < dates.len());
                assert(left[0] == dates@[k as int]@);
                assert(left.skip(1) =~= all.skip(k + 1));
                assert(rest.skip(e - i + 2) =~= v@.skip(e + 2));
                out.append(dates[k].as_str());
                i = e + 2;
                k += 1;
            },
            None => {
                assert(rest.skip(1) =~= v@.skip(i + 1));
                out.push(v[i]);
                i += 1;
            },
        }
        assert(out@ + spliced(v@.skip(i as int), all.skip(k as int)) =~= done + spliced(rest, left));
    }
    assert(v@.skip(i as int) =~= Seq::<char>::empty());
    assert(out@ =~= out@ + spliced(v@.skip(i as int), all.skip(k as int)));
    out
}

/// The start time under a format.
pub open spec fn date_text(t: LocalTime, format: Seq<char>) -> Option<Seq<char>> {
    strftime(t.at.secs as int, t.at.nanos as int, t.offset_secs as int, format)
}

/// All dates of a text can be written.
pub open spec fn writable(text: Seq<char>, t: LocalTime) -> bool {
    forall|i: int| 0 <= i < formats(text).len() ==> date_text(t, #[trigger] formats(text)[i]) is Some
}

/// A text with its dates written.
pub open spec fn dated(text: Seq<char>, t: LocalTime) -> Seq<char> {
    spliced(text, Seq::new(formats(text).len(), |i: int| date_text(t, formats(text)[i])->0))
}

/// The dates of a text, `None` where one of them cannot be written.
fn write_dates(text: &str, t: LocalTime) -> (r: Option<Vec<String>>)
    requires
        t.valid(),
    ensures
        match r {
            Some(dates) => {
                &&& writable(text@, t)
                &&& dates@.len() == formats(text@).len()
                &&& forall|i: int|
                    0 <= i < dates@.len() ==> date_text(t, #[trigger] formats(text@)[i]) == Some(
                        dates@[i]@,
                    )
            },
            None => !writable(text@, t),
        },
{
    let found = date_formats(text);
    let mut dates: Vec<String> = Vec::new();
    let mut i: usize = 0;
    while i < found.len()
        invariant
            t.valid(),
            i <= found@.len(),
            strings_view(found@) == formats(text@),
            dates@.len() == i,
            forall|k: int|
                0 <= k < i ==> date_text(t, #[trigger] formats(text@)[k]) == Some(dates@[k]@),
        decreases found@.len() - i,
    {
        assert(formats(text@)[i as int] == found@[i as int]@);
        match format_at(t, found[i].as_str()) {
            Some(date) => {
                dates.push(date);
            },
            None => {
                assert(date_text(t, formats(text@)[i as int]) is None);
                return None;
            },
        }
        i += 1;
    }
    assert(found@.len() == formats(text@).len());
    Some(dates)
}

/// The template with its variables `{{name}}`, `{{memo}}`, `{{duration}}` and
/// `{{date:FORMAT}}` filled in.
pub fn render_template(
    template: &str,
    name: &str,
    memo: &str,
    start_time: LocalTime,
    duration_secs: u64,
) -> (r: String)
    requires
        start_time.valid(),
        writable(filled(template@, name@, memo@, duration_secs as int), start_time),
    ensures
        r@ == dated(filled(template@, name@, memo@, duration_secs as int), start_time),
{
    let text = fill(template, name, memo, duration_secs);
    let dates = write_dates(text.as_str(), start_time).unwrap();
    assert(strings_view(dates@) =~= Seq::new(
        formats(text@).len(),
        |i: int| date_text(start_time, formats(text@)[i])->0,
    ));
    with_dates(text.as_str(), &dates)
}

/// As `render_template`, for any template: `None` where a date of it cannot be
/// written.
pub fn try_render_template(
    template: &str,
    name: &str,
    memo: &str,
    start_time: LocalTime,
    duration_secs: u64,
) -> (r: Option<String>)
    requires
        start_time.valid(),
    ensures
        ({
            let text = filled(template@, name@, memo@, duration_secs as int);
            match r {
                Some(s) => writable(text, start_time) && s@ == dated(text, start_time),
                None => !writable(text, start_time),
            }
        }),
{
    let text = fill(template, name, memo, duration_secs);
    if write_dates(text.as_str(), start_time).is_some() {
        Some(render_template(template, name, memo, start_time, duration_secs))
    } else {
        None
    }
}

// --- Paths and links ---

/// `path` with `~/` at its head replaced by the home directory, where that is known.
pub open spec fn expanded(path: Seq<char>, home: Option<Seq<char>>) -> Seq<char> {
    if path.len() >= 2 && path[0] == '~' && path[1] == '/' {
        match home {
            Some(h) => h + seq!['/'] + path.skip(2),
            None => path,
        }
    } else {
        path
    }
}

pub fn expand_tilde(path: &str, home: Option<&str>) -> (r: String)
    ensures
        r@ == expanded(
            path@,
            match home {
                Some(h) => Some(h@),
                None => None,
            },
        ),
{
    let v = chars_of(path);
    if v.len() >= 2 && v[0] == '~' && v[1] == '/' {
        if let Some(h) = home {
            let mut out = h.to_owned();
            out.push('/');
            push_range(&mut out, &v, 2, v.len());
            assert(out@ =~= h@ + seq!['/'] + path@.skip(2));
            return out;
        }
    }
    path.to_owned()
}

/// A character of a link, escaped where it has a meaning of its own there.
pub open spec fn escaped(c: char) -> Seq<char> {
    if c == ' ' {
        seq!['%', '2', '0']
    } else if c == '#' {
        seq!['%', '2', '3']
    } else if c == '&' {
        seq!['%', '2', '6']
    } else if c == '?' {
        seq!['%', '3', 'F']
    } else if c == '%' {
        seq!['%', '2', '5']
    } else {
        seq![c]
    }
}

pub open spec fn url_text(s: Seq<char>) -> Seq<char>
    decreases s.len(),
{
    if s.len() == 0 {
        seq![]
    } else {
        url_text(s.drop_last()) + escaped(s.last())
    }
}

/// Minimal percent-encoding for Obsidian URI components.
pub fn urlencod(s: &str) -> (r: String)
    ensures
        r@ == url_text(s@),
{
    let v = chars_of(s);
    let mut out = String::new();
    let mut i: usize = 0;
    assert(out@ =~= url_text(v@.take(0)));
    while i < v.len()
        invariant
            i <= v@.len(),
            out@ == url_text(v@.take(i as int)),
        decreases v@.len() - i,
    {
        assert(v@.take(i + 1).drop_last() =~= v@.take(i as int));
        let c = v[i];
        if c == ' ' {
            out.push('%');
            out.push('2');
            out.push('0');
        } else if c == '#' {
            out.push('%');
            out.push('2');
            out.push('3');
        } else if c == '&' {
            out.push('%');
            out.push('2');
            out.push('6');
        } else if c == '?' {
            out.push('%');
            out.push('3');
            out.push('F');
        } else if c == '%' {
            out.push('%');
            out.push('2');
            out.push('5');
        } else {
            out.push(c);
        }
        i += 1;
        assert(out@ =~= url_text(v@.take(i as int)));
    }
    assert(v@.take(i as int) =~= v@);
    out
}

/// The link that opens a note of a vault.
pub open spec fn link_text(vault: Seq<char>, folder: Seq<char>, file_name: Seq<char>) -> Seq<char> {
    "obsidian://open?vault="@ + url_text(vault) + "&file="@ + url_text(
        folder + seq!['/'] + file_name,
    )
}

/// The link that opens a note; a vault whose name is not known is called `vault`.
pub fn obsidian_uri(vault_name: Option<&str>, folder: &str, file_name: &str) -> (r: String)
    ensures
        r@ == link_text(
            match vault_name {
                Some(v) => v@,
                None => "vault"@,
            },
            folder@,
            file_name@,
        ),
{
    let vault = match vault_name {
        Some(v) => v,
        None => "vault",
    };
    let mut relative = folder.to_owned();
    relative.push('/');
    relative.append(file_name);
    assert(relative@ =~= folder@ + seq!['/'] + file_name@);
    let mut out = "obsidian://open?vault=".to_owned();
    out.append(urlencod(vault).as_str());
    out.append("&file=");
    out.append(urlencod(relative.as_str()).as_str());
    out
}

// --- The note ---

/// A note to be written to a vault.
pub struct VaultNote {
    pub file_name: String,
    pub content: String,
}

impl VaultConfig {
    /// The pattern of the names of notes.
    pub open spec fn name_pattern(&self) -> Seq<char> {
        match self.filename {
            Some(p) => p@,
            None => DEFAULT_FILENAME@,
        }
    }

    /// Whether a template is read: always where one is named, else if its file exists.
    pub fn reads_template(&self, file_exists: bool) -> (r: bool)
        ensures
            r == (self.template is Some || file_exists),
    {
        self.template.is_some() || file_exists
    }

    /// Whether the note is opened once it is written.
    pub fn opens_note(&self) -> (r: bool)
        ensures
            r == (self.open_in_obsidian == Some(true)),
    {
        match self.open_in_obsidian {
            Some(open) => open,
            None => false,
        }
    }

    /// The file that the template is read from.
    pub fn template_file(&self) -> (r: &str)
        ensures
            r@ == (match self.template {
                Some(t) => t@,
                None => TEMPLATE_FILE@,
            }),
    {
        match &self.template {
            Some(t) => t.as_str(),
            None => TEMPLATE_FILE,
        }
    }
}

/// The name of the note, and its content from the template, which is the default
/// one where `template` is `None`. `None` where a date of either cannot be written.
pub fn vault_note(
    config: &VaultConfig,
    template: Option<&str>,
    name: &str,
    memo: &str,
    start_time: LocalTime,
    duration_secs: u64,
) -> (r: Option<VaultNote>)
    requires
        start_time.valid(),
    ensures
        ({
            let pattern = filled(config.name_pattern(), name@, seq![], duration_secs as int);
            let body = filled(
                match template {
                    Some(t) => t@,
                    None => DEFAULT_TEMPLATE@,
                },
                name@,
                memo@,
                duration_secs as int,
            );
            match r {
                Some(note) => {
                    &&& writable(pattern, start_time)
                    &&& writable(body, start_time)
                    &&& note.file_name@ == dated(pattern, start_time) + ".md"@
                    &&& note.content@ == dated(body, start_time)
                },
                None => !writable(pattern, start_time) || !writable(body, start_time),
            }
        }),
{
    let pattern: &str = match &config.filename {
        Some(p) => p.as_str(),
        None => DEFAULT_FILENAME,
    };
    let template: &str = match template {
        Some(t) => t,
        None => DEFAULT_TEMPLATE,
    };
    proof {
        reveal_strlit("");
        assert(""@ =~= Seq::<char>::empty());
    }
    let mut file_name = match try_render_template(pattern, name, "", start_time, duration_secs) {
        Some(f) => f,
        None => {
            return None;
        },
    };
    file_name.append(".md");
    match try_render_template(template, name, memo, start_time, duration_secs) {
        Some(content) => Some(VaultNote { file_name, content }),
        None => None,
    }
}

// --- Whether to publish ---

/// The vault to publish a memo to: none for a blank memo, or without a configuration.
pub fn to_publish(memo: &str, config: Option<AsideConfig>) -> (r: Option<VaultConfig>)
    ensures
        r == (match config {
            Some(c) => if blank(memo@) {
                None
            } else {
                Some(c.vault)
            },
            None => None,
        }),
{
    match config {
        Some(c) => if is_blank(memo) {
            None
        } else {
            Some(c.vault)
        },
        None => None,
    }
}

/// What is said where the configuration cannot be loaded: nothing, if there is nothing
/// to publish.
pub fn config_warning(memo: &str, error: &str) -> (r: Option<String>)
    ensures
        match r {
            Some(s) => !blank(memo@) && s@ == "Warning: failed to load aside config: "@ + error@,
            None => blank(memo@),
        },
{
    if is_blank(memo) {
        None
    } else {
        let mut out = "Warning: failed to load aside config: ".to_owned();
        out.append(error);
        Some(out)
    }
}

// --- Laws ---

/// No two opening braces stand side by side.
pub open spec fn plain(s: Seq<char>) -> bool {
    forall|i: int| 0 <= i < s.len() - 1 ==> !(#[trigger] s[i] == '{' && s[i + 1] == '{')
}

proof fn lemma_plain_skip(s: Seq<char>)
    requires
        plain(s),
        s.len() > 0,
    ensures
        plain(s.skip(1)),
{
    let t = s.skip(1);
    assert forall|i: int| 0 <= i < t.len() - 1 implies !(#[trigger] t[i] == '{' && t[i + 1]
        == '{') by {
        assert(t[i] == s[i + 1]);
    }
}

pub proof fn lemma_plain_replaced(s: Seq<char>, pat: Seq<char>, with: Seq<char>)
    requires
        plain(s),
        pat.len() >= 2,
        pat[0] == '{',
        pat[1] == '{',
    ensures
        replaced(s, pat, with) == s,
    decreases s.len(),
{
    if s.len() >= pat.len() {
        if s.take(pat.len() as int) == pat {
            assert(s[0] == pat[0] && s[1] == pat[1]);
        }
        lemma_plain_skip(s);
        lemma_plain_replaced(s.skip(1), pat, with);
        assert(seq![s[0]] + s.skip(1) =~= s);
    }
}

pub proof fn lemma_plain_spliced(s: Seq<char>, dates: Seq<Seq<char>>)
    requires
        plain(s),
    ensures
        formats(s).len() == 0,
        spliced(s, dates) == s,
    decreases s.len(),
{
    if s.len() > 0 {
        if s.len() >= 7 && s.take(7) == date_open() {
            assert(s[0] == date_open()[0] && s[1] == date_open()[1]);
        }
        lemma_plain_skip(s);
        lemma_plain_spliced(s.skip(1), dates);
        assert(seq![s[0]] + s.skip(1) =~= s);
    }
}

/// A template without variables is written as it is.
pub proof fn lemma_plain_template(
    template: Seq<char>,
    name: Seq<char>,
    memo: Seq<char>,
    t: LocalTime,
    duration_secs: int,
)
    requires
        plain(template),
    ensures
        writable(filled(template, name, memo, duration_secs), t),
        dated(filled(template, name, memo, duration_secs), t) == template,
{
    reveal_strlit("{{name}}");
    reveal_strlit("{{memo}}");
    reveal_strlit("{{duration}}");
    lemma_plain_replaced(template, "{{name}}"@, name);
    lemma_plain_replaced(template, "{{memo}}"@, memo);
    lemma_plain_replaced(template, "{{duration}}"@, long_clock_text(duration_secs));
    lemma_plain_spliced(template, seq![]);
    assert(Seq::new(0, |i: int| date_text(t, formats(template)[i])->0) =~= seq![]);
}

/// `pat` stands at position `i` of `s`.
pub open spec fn occurs_at(s: Seq<char>, pat: Seq<char>, i: int) -> bool {
    i + pat.len() <= s.len() && s.skip(i).take(pat.len() as int) == pat
}

/// The first occurrence of a variable is replaced and what stands before it is kept;
/// what comes after it is treated in the same way.
pub proof fn lemma_first_replaced(a: Seq<char>, pat: Seq<char>, b: Seq<char>, with: Seq<char>)
    requires
        pat.len() > 0,
        forall|i: int| 0 <= i < a.len() ==> !#[trigger] occurs_at(a + pat + b, pat, i),
    ensures
        replaced(a + pat + b, pat, with) == a + with + replaced(b, pat, with),
    decreases a.len(),
{
    let s = a + pat + b;
    if a.len() == 0 {
        assert(s.take(pat.len() as int) =~= pat);
        assert(s.skip(pat.len() as int) =~= b);
        assert(a + with + replaced(b, pat, with) =~= with + replaced(b, pat, with));
    } else {
        let shorter = a.skip(1);
        assert(s.skip(1) =~= shorter + pat + b);
        assert(s.skip(0) =~= s);
        assert(!occurs_at(s, pat, 0));
        assert forall|i: int| 0 <= i < shorter.len() implies !#[trigger] occurs_at(
            shorter + pat + b,
            pat,
            i,
        ) by {
            assert(s.skip(i + 1) =~= s.skip(1).skip(i));
            assert(!occurs_at(s, pat, i + 1));
        }
        lemma_first_replaced(shorter, pat, b, with);
        assert(seq![s[0]] + (shorter + with + replaced(b, pat, with)) =~= a + with + replaced(
            b,
            pat,
            with,
        ));
    }
}

/// A character that an escaped text does not hold.
pub open spec fn reserved(c: char) -> bool {
    c == ' ' || c == '#' || c == '&' || c == '?'
}

/// An escaped text holds no reserved character.
pub proof fn lemma_url_text_safe(s: Seq<char>, i: int)
    requires
        0 <= i < url_text(s).len(),
    ensures
        !reserved(url_text(s)[i]),
    decreases s.len(),
{
    if s.len() > 0 && i < url_text(s.drop_last()).len() {
        lemma_url_text_safe(s.drop_last(), i);
    }
}

pub open spec fn hex_value(c: char) -> int {
    if '0' <= c <= '9' {
        c as int - 48
    } else if 'A' <= c <= 'F' {
        c as int - 55
    } else {
        0
    }
}

/// A text with its escapes, each a percent sign and two digits to the base sixteen,
/// read as the characters that they stand for.
pub open spec fn unescaped(s: Seq<char>) -> Seq<char>
    decreases s.len(),
{
    if s.len() == 0 {
        seq![]
    } else if s[0] == '%' && s.len() >= 3 {
        seq![(hex_value(s[1]) * 16 + hex_value(s[2])) as char] + unescaped(s.skip(3))
    } else {
        seq![s[0]] + unescaped(s.skip(1))
    }
}

proof fn lemma_url_text_front(s: Seq<char>)
    requires
        s.len() > 0,
    ensures
        url_text(s) == escaped(s[0]) + url_text(s.skip(1)),
    decreases s.len(),
{
    if s.len() == 1 {
        assert(s.drop_last() =~= Seq::<char>::empty());
        assert(s.skip(1) =~= Seq::<char>::empty());
        assert(url_text(Seq::<char>::empty()) =~= Seq::<char>::empty());
        assert(url_text(s) =~= escaped(s[0]) + url_text(s.skip(1)));
    } else {
        lemma_url_text_front(s.drop_last());
        assert(s.skip(1).drop_last() =~= s.drop_last().skip(1));
        assert(url_text(s) =~= escaped(s[0]) + url_text(s.skip(1)));
    }
}

/// Reading the escapes of an escaped text gives the text back, so that two texts
/// never share a link.
pub proof fn lemma_url_text_reversible(s: Seq<char>)
    ensures
        unescaped(url_text(s)) == s,
    decreases s.len(),
{
    if s.len() > 0 {
        let rest = s.skip(1);
        let tail = url_text(rest);
        lemma_url_text_front(s);
        lemma_url_text_reversible(rest);
        let head = escaped(s[0]);
        let whole = head + tail;
        if head.len() == 3 {
            assert(whole.skip(3) =~= tail);
        } else {
            assert(whole.skip(1) =~= tail);
        }
        assert(seq![s[0]] + rest =~= s);
    }
}

} // verus!
