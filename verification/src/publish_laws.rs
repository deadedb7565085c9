//! What becomes of the variables of a template, and of paths and links.

use vstd::prelude::*;

use crate::clock::{long_clock_text, strftime, LocalTime};
use crate::publish::{
    date_end, date_open, date_text, dated, escaped, expanded, filled, formats, lemma_first_replaced,
    lemma_plain_replaced, lemma_plain_spliced, lemma_url_text_reversible, lemma_url_text_safe,
    link_text, occurs_at, plain, replaced, reserved, spliced, unescaped, url_text, writable,
    VaultConfig,
};
use crate::text::{find_from, lemma_find_from, lemma_found};

verus! {

// --- Replacing ---

/// A text in which the pattern does not stand is kept as it is.
pub proof fn lemma_none_replaced(s: Seq<char>, pat: Seq<char>, with: Seq<char>)
    requires
        pat.len() > 0,
        forall|i: int| 0 <= i < s.len() ==> !#[trigger] occurs_at(s, pat, i),
    ensures
        replaced(s, pat, with) == s,
    decreases s.len(),
{
    if s.len() > 0 {
        assert(s.skip(0) =~= s);
        assert(!occurs_at(s, pat, 0));
        let t = s.skip(1);
        assert forall|i: int| 0 <= i < t.len() implies !#[trigger] occurs_at(t, pat, i) by {
            assert(t.skip(i) =~= s.skip(i + 1));
            assert(!occurs_at(s, pat, i + 1));
        }
        lemma_none_replaced(t, pat, with);
        assert(seq![s[0]] + t =~= s);
    }
}

/// What stands before the first place where the pattern can stand is kept.
proof fn lemma_kept_before(a: Seq<char>, t: Seq<char>, pat: Seq<char>, with: Seq<char>)
    requires
        pat.len() > 0,
        forall|i: int| 0 <= i < a.len() ==> !#[trigger] occurs_at(a + t, pat, i),
    ensures
        replaced(a + t, pat, with) == a + replaced(t, pat, with),
    decreases a.len(),
{
    let s = a + t;
    if a.len() == 0 {
        assert(s =~= t);
        assert(a + replaced(t, pat, with) =~= replaced(t, pat, with));
    } else {
        let b = a.skip(1);
        assert(s.skip(1) =~= b + t);
        assert(s.skip(0) =~= s);
        assert(!occurs_at(s, pat, 0));
        assert forall|i: int| 0 <= i < b.len() implies !#[trigger] occurs_at(b + t, pat, i) by {
            assert((b + t).skip(i) =~= s.skip(i + 1));
            assert(!occurs_at(s, pat, i + 1));
        }
        lemma_kept_before(b, t, pat, with);
        if s.len() >= pat.len() {
            assert(replaced(s, pat, with) == seq![s[0]] + replaced(s.skip(1), pat, with));
            assert(replaced(s, pat, with) =~= a + replaced(t, pat, with));
        } else {
            assert(replaced(t, pat, with) == t);
        }
    }
}

// --- Templates ---

/// A part of a template.
pub enum Piece {
    Text(Seq<char>),
    Name,
    Memo,
    Duration,
    Date(Seq<char>),
}

/// The parts one behind the other.
pub open spec fn whole(parts: Seq<Seq<char>>) -> Seq<char>
    decreases parts.len(),
{
    if parts.len() == 0 {
        seq![]
    } else {
        parts[0] + whole(parts.skip(1))
    }
}

/// What is filled in, but for dates.
pub struct Values {
    pub name: Seq<char>,
    pub memo: Seq<char>,
    pub duration: Seq<char>,
}

impl Piece {
    /// The piece as it stands in a template.
    pub open spec fn source(self) -> Seq<char> {
        match self {
            Piece::Text(s) => s,
            Piece::Name => "{{name}}"@,
            Piece::Memo => "{{memo}}"@,
            Piece::Duration => "{{duration}}"@,
            Piece::Date(format) => "{{date:"@ + format + "}}"@,
        }
    }

    /// The piece as it stands in the note: `date` is what stands for the date of a format.
    pub open spec fn shown(self, v: Values, date: spec_fn(Seq<char>) -> Seq<char>) -> Seq<char> {
        match self {
            Piece::Text(s) => s,
            Piece::Name => v.name,
            Piece::Memo => v.memo,
            Piece::Duration => v.duration,
            Piece::Date(format) => date(format),
        }
    }

    /// A date has a format without braces side by side or closing ones, and one that can
    /// be written.
    pub open spec fn sound(self, t: LocalTime) -> bool {
        self matches Piece::Date(format) ==> {
            &&& format.len() > 0
            &&& plain(format)
            &&& forall|i: int| 0 <= i < format.len() ==> format[i] != '}'
            &&& date_text(t, format) is Some
        }
    }

    /// The piece with the name filled in, and from the second and the third step on the memo
    /// and the duration.
    spec fn stage(self, v: Values, step: int) -> Seq<char> {
        match self {
            Piece::Name => if step > 0 {
                v.name
            } else {
                self.source()
            },
            Piece::Memo => if step > 1 {
                v.memo
            } else {
                self.source()
            },
            Piece::Duration => if step > 2 {
                v.duration
            } else {
                self.source()
            },
            _ => self.source(),
        }
    }

    /// Whether the piece is a variable that is not filled in yet.
    spec fn open_at(self, step: int) -> bool {
        match self {
            Piece::Text(_) => false,
            Piece::Name => step <= 0,
            Piece::Memo => step <= 1,
            Piece::Duration => step <= 2,
            Piece::Date(_) => true,
        }
    }
}

/// The template that the pieces make.
pub open spec fn template_of(pieces: Seq<Piece>) -> Seq<char> {
    whole(Seq::new(pieces.len(), |i: int| pieces[i].source()))
}

/// The note that they make.
pub open spec fn note_of(
    pieces: Seq<Piece>,
    v: Values,
    date: spec_fn(Seq<char>) -> Seq<char>,
) -> Seq<char> {
    whole(Seq::new(pieces.len(), |i: int| pieces[i].shown(v, date)))
}

spec fn stage_of(pieces: Seq<Piece>, v: Values, step: int) -> Seq<char> {
    whole(Seq::new(pieces.len(), |i: int| pieces[i].stage(v, step)))
}

/// A space in place of each date.
pub open spec fn spaced() -> spec_fn(Seq<char>) -> Seq<char> {
    |format: Seq<char>| seq![' ']
}

spec fn pattern(step: int) -> Seq<char> {
    if step == 0 {
        "{{name}}"@
    } else if step == 1 {
        "{{memo}}"@
    } else {
        "{{duration}}"@
    }
}

spec fn value(v: Values, step: int) -> Seq<char> {
    if step == 0 {
        v.name
    } else if step == 1 {
        v.memo
    } else {
        v.duration
    }
}

proof fn lemma_stage_front(pieces: Seq<Piece>, v: Values, step: int)
    requires
        pieces.len() > 0,
    ensures
        stage_of(pieces, v, step) == pieces[0].stage(v, step) + stage_of(pieces.skip(1), v, step),
        note_of(pieces, v, spaced()) == pieces[0].shown(v, spaced()) + note_of(
            pieces.skip(1),
            v,
            spaced(),
        ),
{
    assert(Seq::new(pieces.len(), |i: int| pieces[i].stage(v, step)).skip(1) =~= Seq::new(
        pieces.skip(1).len(),
        |i: int| pieces.skip(1)[i].stage(v, step),
    ));
    assert(Seq::new(pieces.len(), |i: int| pieces[i].shown(v, spaced())).skip(1) =~= Seq::new(
        pieces.skip(1).len(),
        |i: int| pieces.skip(1)[i].shown(v, spaced()),
    ));
}

/// A variable starts with two braces that no other two side by side follow, and ends with
/// another character.
proof fn lemma_variable(piece: Piece, v: Values, t: LocalTime, step: int)
    requires
        0 <= step <= 3,
        piece.open_at(step),
        piece.sound(t),
    ensures
        ({
            let s = piece.stage(v, step);
            &&& s.len() > 4
            &&& s[0] == '{'
            &&& s[1] == '{'
            &&& s[2] != '{'
            &&& s[s.len() - 1] == '}'
            &&& forall|i: int| 1 <= i < s.len() - 1 ==> !(#[trigger] s[i] == '{' && s[i + 1] == '{')
            &&& step < 3 && s != pattern(step) ==> s[2] != pattern(step)[2] || s[3] != pattern(
                step,
            )[3]
            &&& step == 3 ==> piece is Date
        }),
{
    reveal_strlit("{{name}}");
    reveal_strlit("{{memo}}");
    reveal_strlit("{{duration}}");
    reveal_strlit("{{date:");
    reveal_strlit("}}");
    if let Piece::Date(format) = piece {
        let s = piece.stage(v, step);
        assert forall|i: int| 1 <= i < s.len() - 1 implies !(#[trigger] s[i] == '{' && s[i + 1]
            == '{') by {
            if 7 <= i < 7 + format.len() {
                assert(s[i] == format[i - 7]);
            }
        }
    }
}

/// Where the text at one step begins with a brace that no other follows, that brace is in
/// the note too.
proof fn lemma_starts_alike(pieces: Seq<Piece>, v: Values, t: LocalTime, step: int)
    requires
        0 <= step <= 3,
        forall|i: int| 0 <= i < pieces.len() ==> (#[trigger] pieces[i]).sound(t),
        stage_of(pieces, v, step).len() >= 2,
        stage_of(pieces, v, step)[0] == '{',
        stage_of(pieces, v, step)[1] != '{',
    ensures
        note_of(pieces, v, spaced()).len() > 0,
        note_of(pieces, v, spaced())[0] == '{',
    decreases pieces.len(),
{
    if pieces.len() > 0 {
        let rest = pieces.skip(1);
        let s = pieces[0].stage(v, step);
        lemma_stage_front(pieces, v, step);
        assert forall|i: int| 0 <= i < rest.len() implies (#[trigger] rest[i]).sound(t) by {
            assert(pieces[i + 1].sound(t));
        }
        if pieces[0].open_at(step) {
            lemma_variable(pieces[0], v, t, step);
        } else if s.len() == 0 {
            assert(s + stage_of(rest, v, step) =~= stage_of(rest, v, step));
            lemma_starts_alike(rest, v, t, step);
            assert(pieces[0].shown(v, spaced()) + note_of(rest, v, spaced()) =~= note_of(
                rest,
                v,
                spaced(),
            ));
        } else {
            assert(s == pieces[0].shown(v, spaced()));
        }
    } else {
        assert(stage_of(pieces, v, step).len() == 0);
    }
}

proof fn lemma_plain_parts(a: Seq<char>, b: Seq<char>)
    requires
        plain(a + b),
    ensures
        plain(a),
        plain(b),
        a.len() > 0 && b.len() > 0 && a.last() == '{' ==> b[0] != '{',
{
    let s = a + b;
    assert forall|i: int| 0 <= i < a.len() - 1 implies !(#[trigger] a[i] == '{' && a[i + 1]
        == '{') by {
        assert(s[i] == a[i] && s[i + 1] == a[i + 1]);
    }
    assert forall|i: int| 0 <= i < b.len() - 1 implies !(#[trigger] b[i] == '{' && b[i + 1]
        == '{') by {
        assert(s[a.len() + i] == b[i] && s[a.len() + i + 1] == b[i + 1]);
    }
    if a.len() > 0 && b.len() > 0 {
        assert(s[a.len() - 1] == a.last() && s[a.len() as int] == b[0]);
    }
}

/// Two braces side by side, with no third, stand in a text before the rest only if a
/// variable begins the text.
proof fn lemma_no_braces_in_piece(
    pieces: Seq<Piece>,
    v: Values,
    t: LocalTime,
    step: int,
    i: int,
)
    requires
        0 <= step <= 3,
        pieces.len() > 0,
        forall|k: int| 0 <= k < pieces.len() ==> (#[trigger] pieces[k]).sound(t),
        plain(note_of(pieces, v, spaced())),
        0 <= i < pieces[0].stage(v, step).len(),
        pieces[0].open_at(step) ==> i > 0,
    ensures
        ({
            let s = stage_of(pieces, v, step);
            !(i + 2 < s.len() && s[i] == '{' && s[i + 1] == '{' && s[i + 2] != '{')
        }),
{
    let a = pieces[0].stage(v, step);
    let rest = pieces.skip(1);
    let tail = stage_of(rest, v, step);
    let s = stage_of(pieces, v, step);
    lemma_stage_front(pieces, v, step);
    assert forall|k: int| 0 <= k < rest.len() implies (#[trigger] rest[k]).sound(t) by {
        assert(pieces[k + 1].sound(t));
    }
    lemma_plain_parts(pieces[0].shown(v, spaced()), note_of(rest, v, spaced()));
    if pieces[0].open_at(step) {
        lemma_variable(pieces[0], v, t, step);
        assert(s[i] == a[i]);
        if i + 1 < a.len() {
            assert(s[i + 1] == a[i + 1]);
        }
    } else {
        assert(a == pieces[0].shown(v, spaced()));
        assert(s[i] == a[i]);
        if i + 1 < a.len() {
            assert(s[i + 1] == a[i + 1]);
        } else if i + 2 < s.len() && s[i] == '{' && s[i + 1] == '{' && s[i + 2] != '{' {
            assert(tail[0] == s[i + 1] && tail[1] == s[i + 2]);
            lemma_starts_alike(rest, v, t, step);
        }
    }
}

/// One step: each occurrence of one variable gives way to its value.
proof fn lemma_step(pieces: Seq<Piece>, v: Values, t: LocalTime, step: int)
    requires
        0 <= step < 3,
        forall|i: int| 0 <= i < pieces.len() ==> (#[trigger] pieces[i]).sound(t),
        plain(note_of(pieces, v, spaced())),
    ensures
        replaced(stage_of(pieces, v, step), pattern(step), value(v, step)) == stage_of(
            pieces,
            v,
            step + 1,
        ),
    decreases pieces.len(),
{
    let pat = pattern(step);
    let with = value(v, step);
    reveal_strlit("{{name}}");
    reveal_strlit("{{memo}}");
    reveal_strlit("{{duration}}");
    if pieces.len() > 0 {
        let a = pieces[0].stage(v, step);
        let rest = pieces.skip(1);
        let tail = stage_of(rest, v, step);
        let s = stage_of(pieces, v, step);
        lemma_stage_front(pieces, v, step);
        lemma_stage_front(pieces, v, step + 1);
        assert forall|k: int| 0 <= k < rest.len() implies (#[trigger] rest[k]).sound(t) by {
            assert(pieces[k + 1].sound(t));
        }
        lemma_plain_parts(pieces[0].shown(v, spaced()), note_of(rest, v, spaced()));
        lemma_step(rest, v, t, step);
        if pieces[0].open_at(step) {
            lemma_variable(pieces[0], v, t, step);
        }
        if pieces[0].open_at(step) && a == pat {
            reveal_strlit("{{date:");
            assert(a[2] == pat[2] && a[3] == pat[3]);
            if let Piece::Date(format) = pieces[0] {
                assert(a[2] == "{{date:"@[2] && a[3] == "{{date:"@[3]);
            }
            assert(pieces[0].stage(v, step + 1) == with);
            assert(s.take(pat.len() as int) =~= pat);
            assert(s.skip(pat.len() as int) =~= tail);
        } else {
            assert(pieces[0].stage(v, step + 1) == a);
            assert forall|i: int| 0 <= i < a.len() implies !#[trigger] occurs_at(s, pat, i) by {
                if occurs_at(s, pat, i) {
                    let there = s.skip(i).take(pat.len() as int);
                    assert(there[0] == s[i] && there[1] == s[i + 1] && there[2] == s[i + 2]
                        && there[3] == s[i + 3]);
                    if i > 0 || !pieces[0].open_at(step) {
                        lemma_no_braces_in_piece(pieces, v, t, step, i);
                    } else {
                        assert(s[2] == a[2] && s[3] == a[3]);
                    }
                }
            }
            lemma_kept_before(a, tail, pat, with);
        }
    } else {
        assert(stage_of(pieces, v, step) =~= seq![]);
        assert(stage_of(pieces, v, step + 1) =~= seq![]);
    }
}

// --- Dates ---

/// A date stands at the head of a text exactly if that begins with `{{date:`, goes on with
/// one or more characters that are no closing brace, and two closing braces follow them.
pub proof fn lemma_date_recognized(s: Seq<char>, e: int)
    ensures
        date_end(s) == Some(e) <==> {
            &&& 7 < e < s.len() - 1
            &&& s.take(7) == "{{date:"@
            &&& forall|i: int| 7 <= i < e ==> s[i] != '}'
            &&& s[e] == '}'
            &&& s[e + 1] == '}'
        },
{
    reveal_strlit("{{date:");
    assert("{{date:"@ =~= date_open());
    if s.len() >= 7 {
        lemma_find_from(s, 7, '}');
        if 7 < e < s.len() - 1 && s[e] == '}' && (forall|i: int| 7 <= i < e ==> s[i] != '}') {
            lemma_found(s, 7, '}', e);
        }
    }
}

/// Where no date stands in a text, no format is found and the text is kept.
pub proof fn lemma_no_dates(s: Seq<char>, dates: Seq<Seq<char>>)
    requires
        forall|i: int| 0 <= i < s.len() ==> date_end(#[trigger] s.skip(i)) is None,
    ensures
        formats(s).len() == 0,
        spliced(s, dates) == s,
    decreases s.len(),
{
    if s.len() > 0 {
        assert(s.skip(0) =~= s);
        let u = s.skip(1);
        assert forall|i: int| 0 <= i < u.len() implies date_end(#[trigger] u.skip(i)) is None by {
            assert(u.skip(i) =~= s.skip(i + 1));
        }
        lemma_no_dates(u, dates);
        assert(seq![s[0]] + u =~= s);
    }
}

/// The first date of a text gives way to the first of the dates given; what stands before
/// it is kept, and what comes after it is treated in the same way.
pub proof fn lemma_first_date(
    a: Seq<char>,
    format: Seq<char>,
    b: Seq<char>,
    dates: Seq<Seq<char>>,
)
    requires
        format.len() > 0,
        forall|i: int| 0 <= i < format.len() ==> format[i] != '}',
        forall|i: int|
            0 <= i < a.len() ==> date_end(
                #[trigger] (a + ("{{date:"@ + format + "}}"@) + b).skip(i),
            ) is None,
        dates.len() > 0,
    ensures
        ({
            let s = a + ("{{date:"@ + format + "}}"@) + b;
            &&& formats(s) == seq![format] + formats(b)
            &&& spliced(s, dates) == a + dates[0] + spliced(b, dates.skip(1))
        }),
    decreases a.len(),
{
    reveal_strlit("{{date:");
    reveal_strlit("}}");
    let d = "{{date:"@ + format + "}}"@;
    let s = a + d + b;
    let n = format.len() as int;
    if a.len() == 0 {
        assert(s.take(7) =~= "{{date:"@);
        assert forall|i: int| 7 <= i < 7 + n implies s[i] != '}' by {
            assert(s[i] == format[i - 7]);
        }
        lemma_date_recognized(s, 7 + n);
        assert(s.skip(9 + n) =~= b);
        assert(s.subrange(7, 7 + n) =~= format);
        assert(a + dates[0] + spliced(b, dates.skip(1)) =~= dates[0] + spliced(b, dates.skip(1)));
    } else {
        let c = a.skip(1);
        assert(s.skip(0) =~= s);
        assert(s.skip(1) =~= c + d + b);
        assert forall|i: int| 0 <= i < c.len() implies date_end(
            #[trigger] (c + d + b).skip(i),
        ) is None by {
            assert((c + d + b).skip(i) =~= s.skip(i + 1));
        }
        lemma_first_date(c, format, b, dates);
        assert(seq![s[0]] + (c + dates[0] + spliced(b, dates.skip(1))) =~= a + dates[0] + spliced(
            b,
            dates.skip(1),
        ));
    }
}

/// What stands before the first place where a date can stand is kept.
proof fn lemma_kept_before_dates(a: Seq<char>, t: Seq<char>, dates: Seq<Seq<char>>)
    requires
        forall|i: int| 0 <= i < a.len() ==> date_end(#[trigger] (a + t).skip(i)) is None,
    ensures
        formats(a + t) == formats(t),
        spliced(a + t, dates) == a + spliced(t, dates),
    decreases a.len(),
{
    let s = a + t;
    if a.len() == 0 {
        assert(s =~= t);
        assert(a + spliced(t, dates) =~= spliced(t, dates));
    } else {
        let b = a.skip(1);
        assert(s.skip(1) =~= b + t);
        assert(s.skip(0) =~= s);
        assert forall|i: int| 0 <= i < b.len() implies date_end(#[trigger] (b + t).skip(i)) is None by {
            assert((b + t).skip(i) =~= s.skip(i + 1));
        }
        lemma_kept_before_dates(b, t, dates);
        assert(spliced(s, dates) =~= a + spliced(t, dates));
    }
}

/// The dates of a time under the formats.
spec fn dates_of(fs: Seq<Seq<char>>, t: LocalTime) -> Seq<Seq<char>> {
    Seq::new(fs.len(), |i: int| date_text(t, fs[i])->0)
}

/// What a date is shown as.
pub open spec fn date_at(t: LocalTime) -> spec_fn(Seq<char>) -> Seq<char> {
    |format: Seq<char>| date_text(t, format)->0
}

/// The last step: each date is written.
proof fn lemma_last_step(pieces: Seq<Piece>, v: Values, t: LocalTime)
    requires
        forall|i: int| 0 <= i < pieces.len() ==> (#[trigger] pieces[i]).sound(t),
        plain(note_of(pieces, v, spaced())),
    ensures
        writable(stage_of(pieces, v, 3), t),
        spliced(stage_of(pieces, v, 3), dates_of(formats(stage_of(pieces, v, 3)), t)) == note_of(
            pieces,
            v,
            date_at(t),
        ),
    decreases pieces.len(),
{
    let s = stage_of(pieces, v, 3);
    if pieces.len() > 0 {
        let a = pieces[0].stage(v, 3);
        let rest = pieces.skip(1);
        let tail = stage_of(rest, v, 3);
        lemma_stage_front(pieces, v, 3);
        assert(Seq::new(pieces.len(), |i: int| pieces[i].shown(v, date_at(t))).skip(1) =~= Seq::new(
            rest.len(),
            |i: int| rest[i].shown(v, date_at(t)),
        ));
        assert forall|k: int| 0 <= k < rest.len() implies (#[trigger] rest[k]).sound(t) by {
            assert(pieces[k + 1].sound(t));
        }
        lemma_plain_parts(pieces[0].shown(v, spaced()), note_of(rest, v, spaced()));
        lemma_last_step(rest, v, t);
        let fs = formats(tail);
        match pieces[0] {
            Piece::Date(format) => {
                assert(pieces[0].sound(t));
                let none = Seq::<char>::empty();
                assert(none + ("{{date:"@ + format + "}}"@) + tail =~= s);
                let dates = dates_of(seq![format] + fs, t);
                assert(dates.skip(1) =~= dates_of(fs, t));
                lemma_first_date(none, format, tail, dates);
                assert(none + dates[0] =~= dates[0]);
                assert(formats(s) == seq![format] + fs);
                assert forall|i: int| 0 <= i < formats(s).len() implies date_text(
                    t,
                    #[trigger] formats(s)[i],
                ) is Some by {
                    if i > 0 {
                        assert(formats(s)[i] == fs[i - 1]);
                    }
                }
            },
            _ => {
                assert(!pieces[0].open_at(3));
                assert(a == pieces[0].shown(v, spaced()) && a == pieces[0].shown(v, date_at(t)));
                assert forall|i: int| 0 <= i < a.len() implies date_end(
                    #[trigger] (a + tail).skip(i),
                ) is None by {
                    let u = (a + tail).skip(i);
                    if date_end(u) is Some {
                        lemma_no_braces_in_piece(pieces, v, t, 3, i);
                        assert(u.take(7)[0] == s[i] && u.take(7)[1] == s[i + 1] && u.take(7)[2]
                            == s[i + 2]);
                    }
                }
                lemma_kept_before_dates(a, tail, dates_of(fs, t));
            },
        }
    } else {
        assert(s =~= seq![]);
        assert(note_of(pieces, v, date_at(t)) =~= seq![]);
    }
}

/// A template of texts and variables, in any order and number, is rendered piece by piece:
/// the texts stay, and each name, memo, duration and date stands where its variable stood,
/// whole. What is put together must hold no two opening braces side by side (those inside
/// a date's own text do not matter).
pub proof fn lemma_template_rendered(
    pieces: Seq<Piece>,
    name: Seq<char>,
    memo: Seq<char>,
    duration_secs: int,
    t: LocalTime,
)
    requires
        forall|i: int| 0 <= i < pieces.len() ==> (#[trigger] pieces[i]).sound(t),
        plain(
            note_of(
                pieces,
                (Values { name, memo, duration: long_clock_text(duration_secs) }),
                spaced(),
            ),
        ),
    ensures
        writable(filled(template_of(pieces), name, memo, duration_secs), t),
        dated(filled(template_of(pieces), name, memo, duration_secs), t) == note_of(
            pieces,
            (Values { name, memo, duration: long_clock_text(duration_secs) }),
            date_at(t),
        ),
{
    let v = Values { name, memo, duration: long_clock_text(duration_secs) };
    assert(Seq::new(pieces.len(), |i: int| pieces[i].source()) =~= Seq::new(
        pieces.len(),
        |i: int| pieces[i].stage(v, 0),
    ));
    lemma_step(pieces, v, t, 0);
    lemma_step(pieces, v, t, 1);
    lemma_step(pieces, v, t, 2);
    lemma_last_step(pieces, v, t);
}

proof fn lemma_three_parts(a: Seq<char>, b: Seq<char>, c: Seq<char>)
    ensures
        whole(seq![a, b, c]) == a + b + c,
{
    assert(seq![a, b, c].skip(1) =~= seq![b, c]);
    assert(seq![b, c].skip(1) =~= seq![c]);
    assert(seq![c].skip(1) =~= Seq::<Seq<char>>::empty());
    assert(whole(Seq::<Seq<char>>::empty()) =~= seq![]);
    assert(whole(seq![c]) =~= c);
    assert(whole(seq![b, c]) =~= b + c);
    assert(whole(seq![a, b, c]) =~= a + b + c);
}

proof fn lemma_one_variable(
    a: Seq<char>,
    piece: Piece,
    b: Seq<char>,
    name: Seq<char>,
    memo: Seq<char>,
    duration_secs: int,
    t: LocalTime,
)
    requires
        !(piece is Date),
        ({
            let v = Values { name, memo, duration: long_clock_text(duration_secs) };
            plain(a + piece.shown(v, spaced()) + b)
        }),
    ensures
        ({
            let v = Values { name, memo, duration: long_clock_text(duration_secs) };
            let text = filled(a + piece.source() + b, name, memo, duration_secs);
            &&& writable(text, t)
            &&& dated(text, t) == a + piece.shown(v, spaced()) + b
        }),
{
    let v = Values { name, memo, duration: long_clock_text(duration_secs) };
    let pieces = seq![Piece::Text(a), piece, Piece::Text(b)];
    let shown = piece.shown(v, spaced());
    lemma_three_parts(a, piece.source(), b);
    lemma_three_parts(a, shown, b);
    assert(Seq::new(pieces.len(), |i: int| pieces[i].source()) =~= seq![a, piece.source(), b]);
    assert(Seq::new(pieces.len(), |i: int| pieces[i].shown(v, spaced())) =~= seq![a, shown, b]);
    assert(Seq::new(pieces.len(), |i: int| pieces[i].shown(v, date_at(t))) =~= seq![a, shown, b]);
    lemma_template_rendered(pieces, name, memo, duration_secs, t);
}

/// The memo stands whole, with all its lines, where its variable stood, and what is around
/// it stays.
pub proof fn lemma_memo_stands_whole(
    a: Seq<char>,
    b: Seq<char>,
    name: Seq<char>,
    memo: Seq<char>,
    duration_secs: int,
    t: LocalTime,
)
    requires
        plain(a + memo + b),
    ensures
        writable(filled(a + "{{memo}}"@ + b, name, memo, duration_secs), t),
        dated(filled(a + "{{memo}}"@ + b, name, memo, duration_secs), t) == a + memo + b,
{
    lemma_one_variable(a, Piece::Memo, b, name, memo, duration_secs, t);
}

/// The name stands whole where its variable stood, and what is around it stays.
pub proof fn lemma_name_stands_whole(
    a: Seq<char>,
    b: Seq<char>,
    name: Seq<char>,
    memo: Seq<char>,
    duration_secs: int,
    t: LocalTime,
)
    requires
        plain(a + name + b),
    ensures
        writable(filled(a + "{{name}}"@ + b, name, memo, duration_secs), t),
        dated(filled(a + "{{name}}"@ + b, name, memo, duration_secs), t) == a + name + b,
{
    lemma_one_variable(a, Piece::Name, b, name, memo, duration_secs, t);
}

/// The duration, in hours, minutes and seconds, stands where its variable stood, and what
/// is around it stays.
pub proof fn lemma_duration_stands_whole(
    a: Seq<char>,
    b: Seq<char>,
    name: Seq<char>,
    memo: Seq<char>,
    duration_secs: int,
    t: LocalTime,
)
    requires
        plain(a + long_clock_text(duration_secs) + b),
    ensures
        writable(filled(a + "{{duration}}"@ + b, name, memo, duration_secs), t),
        dated(filled(a + "{{duration}}"@ + b, name, memo, duration_secs), t) == a
            + long_clock_text(duration_secs) + b,
{
    lemma_one_variable(a, Piece::Duration, b, name, memo, duration_secs, t);
}

/// A template that holds none of the three variables is kept, whatever else stands in
/// braces there.
pub proof fn lemma_no_variables(
    template: Seq<char>,
    name: Seq<char>,
    memo: Seq<char>,
    duration_secs: int,
)
    requires
        forall|i: int|
            0 <= i < template.len() ==> !#[trigger] occurs_at(template, "{{name}}"@, i),
        forall|i: int|
            0 <= i < template.len() ==> !#[trigger] occurs_at(template, "{{memo}}"@, i),
        forall|i: int|
            0 <= i < template.len() ==> !#[trigger] occurs_at(template, "{{duration}}"@, i),
    ensures
        filled(template, name, memo, duration_secs) == template,
{
    reveal_strlit("{{name}}");
    reveal_strlit("{{memo}}");
    reveal_strlit("{{duration}}");
    lemma_none_replaced(template, "{{name}}"@, name);
    lemma_none_replaced(template, "{{memo}}"@, memo);
    lemma_none_replaced(template, "{{duration}}"@, long_clock_text(duration_secs));
}

/// The dates of a text are written one by one: the first one as the start time under its
/// format, which must be one that can be written, then those of the rest. A text without
/// dates is kept.
pub proof fn lemma_dates_written(a: Seq<char>, format: Seq<char>, b: Seq<char>, t: LocalTime)
    requires
        format.len() > 0,
        forall|i: int| 0 <= i < format.len() ==> format[i] != '}',
        forall|i: int|
            0 <= i < a.len() ==> date_end(
                #[trigger] (a + ("{{date:"@ + format + "}}"@) + b).skip(i),
            ) is None,
    ensures
        ({
            let s = a + ("{{date:"@ + format + "}}"@) + b;
            let date = strftime(
                t.at.secs as int,
                t.at.nanos as int,
                t.offset_secs as int,
                format,
            );
            &&& writable(s, t) <==> date is Some && writable(b, t)
            &&& writable(s, t) ==> dated(s, t) == a + date->0 + dated(b, t)
        }),
        (forall|i: int| 0 <= i < b.len() ==> date_end(#[trigger] b.skip(i)) is None) ==> {
            &&& writable(b, t)
            &&& dated(b, t) == b
        },
{
    let s = a + ("{{date:"@ + format + "}}"@) + b;
    let fs = formats(b);
    let dates = dates_of(seq![format] + fs, t);
    lemma_first_date(a, format, b, dates);
    assert(dates.skip(1) =~= dates_of(fs, t));
    assert(formats(s)[0] == format);
    if writable(s, t) {
        assert(date_text(t, formats(s)[0]) is Some);
        assert forall|i: int| 0 <= i < fs.len() implies date_text(t, #[trigger] fs[i]) is Some by {
            assert(formats(s)[i + 1] == fs[i]);
        }
    }
    if writable(b, t) && date_text(t, format) is Some {
        assert forall|i: int| 0 <= i < formats(s).len() implies date_text(
            t,
            #[trigger] formats(s)[i],
        ) is Some by {
            if i > 0 {
                assert(formats(s)[i] == fs[i - 1]);
            }
        }
    }
    if forall|i: int| 0 <= i < b.len() ==> date_end(#[trigger] b.skip(i)) is None {
        lemma_no_dates(b, dates_of(fs, t));
    }
}

/// The names of notes go by the pattern in the configuration, and without one by the date
/// and the time.
pub proof fn lemma_name_pattern(config: VaultConfig)
    ensures
        config.filename matches Some(p) ==> config.name_pattern() == p@,
        config.filename is None ==> config.name_pattern() == "{{date:%Y-%m-%d-%-H-%M-%S}}"@,
{
}

/// A variable: two opening braces, something that starts with another character and holds
/// no opening brace, and closing ones.
spec fn variable(s: Seq<char>) -> bool {
    &&& s.len() > 3
    &&& s[0] == '{'
    &&& s[1] == '{'
    &&& forall|i: int| 2 <= i < s.len() ==> s[i] != '{'
}

/// Where a variable can stand in a text with one between two plain ones.
proof fn lemma_only_place(a: Seq<char>, var: Seq<char>, b: Seq<char>, i: int)
    requires
        plain(a),
        plain(b),
        variable(var),
        0 <= i,
        i + 2 < (a + var + b).len(),
        (a + var + b)[i] == '{',
        (a + var + b)[i + 1] == '{',
        (a + var + b)[i + 2] != '{',
    ensures
        i == a.len(),
{
    let s = a + var + b;
    let n = a.len() as int;
    let m = n + var.len();
    if i < n - 1 {
        assert(s[i] == a[i] && s[i + 1] == a[i + 1]);
    } else if i == n - 1 {
        assert(s[i + 2] == var[1]);
    } else if n < i < m {
        assert(s[i] == var[i - n]);
        if i + 1 < m {
            assert(s[i + 1] == var[i + 1 - n]);
        }
    } else if m <= i {
        assert(s[i] == b[i - m] && s[i + 1] == b[i + 1 - m]);
    }
}

/// The variable between two plain texts is replaced, and another one is not.
proof fn lemma_between_plain(
    a: Seq<char>,
    var: Seq<char>,
    b: Seq<char>,
    pat: Seq<char>,
    with: Seq<char>,
)
    requires
        plain(a),
        plain(b),
        variable(var),
        variable(pat),
        var == pat || var[2] != pat[2] || var[3] != pat[3],
    ensures
        var == pat ==> replaced(a + var + b, pat, with) == a + with + b,
        var != pat ==> replaced(a + var + b, pat, with) == a + var + b,
{
    let s = a + var + b;
    let n = a.len() as int;
    assert forall|i: int| 0 <= i < s.len() && i != n implies !#[trigger] occurs_at(s, pat, i) by {
        if occurs_at(s, pat, i) {
            let there = s.skip(i).take(pat.len() as int);
            assert(there[0] == s[i] && there[1] == s[i + 1] && there[2] == s[i + 2]);
            lemma_only_place(a, var, b, i);
        }
    }
    if var == pat {
        lemma_first_replaced(a, pat, b, with);
        lemma_plain_replaced(b, pat, with);
    } else {
        if occurs_at(s, pat, n) {
            let there = s.skip(n).take(pat.len() as int);
            assert(there[2] == var[2] && there[3] == var[3]);
        }
        lemma_none_replaced(s, pat, with);
    }
}

/// The variables are filled in one kind after the other: the name first, then the memo,
/// the duration and the dates. So a name that is itself a variable is filled in as that
/// one, a memo only as a duration or a date, and one that reads like a name stays.
pub proof fn lemma_filled_in_turn(
    a: Seq<char>,
    b: Seq<char>,
    name: Seq<char>,
    memo: Seq<char>,
    duration_secs: int,
    format: Seq<char>,
    t: LocalTime,
)
    requires
        plain(a),
        plain(b),
        Piece::Date(format).sound(t),
        forall|i: int| 0 <= i < format.len() ==> format[i] != '{',
    ensures
        plain(a + memo + b) ==> dated(
            filled(a + "{{name}}"@ + b, "{{memo}}"@, memo, duration_secs),
            t,
        ) == a + memo + b,
        dated(filled(a + "{{memo}}"@ + b, name, "{{name}}"@, duration_secs), t) == a + "{{name}}"@
            + b,
        plain(a + long_clock_text(duration_secs) + b) ==> dated(
            filled(a + "{{memo}}"@ + b, name, "{{duration}}"@, duration_secs),
            t,
        ) == a + long_clock_text(duration_secs) + b,
        dated(
            filled(a + "{{memo}}"@ + b, name, "{{date:"@ + format + "}}"@, duration_secs),
            t,
        ) == a + date_text(t, format)->0 + b,
{
    reveal_strlit("{{name}}");
    reveal_strlit("{{memo}}");
    reveal_strlit("{{duration}}");
    reveal_strlit("{{date:");
    reveal_strlit("}}");
    let (n, m, d) = ("{{name}}"@, "{{memo}}"@, "{{duration}}"@);
    let date = "{{date:"@ + format + "}}"@;
    let long = long_clock_text(duration_secs);
    assert(date[2] == "{{date:"@[2] && date[3] == "{{date:"@[3]);
    assert(n[2] == 'n' && m[2] == 'm' && d[2] == 'd' && d[3] == 'u' && date[3] == 'a');
    assert forall|i: int| 2 <= i < date.len() implies date[i] != '{' by {
        if 7 <= i < 7 + format.len() {
            assert(date[i] == format[i - 7]);
        }
    }
    lemma_between_plain(a, n, b, n, m);
    lemma_between_plain(a, m, b, m, memo);
    lemma_between_plain(a, m, b, n, name);
    lemma_between_plain(a, m, b, m, n);
    lemma_between_plain(a, n, b, d, long);
    lemma_between_plain(a, m, b, m, d);
    lemma_between_plain(a, d, b, d, long);
    lemma_between_plain(a, m, b, m, date);
    lemma_between_plain(a, date, b, d, long);
    if plain(a + memo + b) {
        lemma_plain_replaced(a + memo + b, d, long);
        lemma_plain_spliced(a + memo + b, seq![]);
        assert(dates_of(formats(a + memo + b), t) =~= seq![]);
    }
    if plain(a + long + b) {
        lemma_plain_spliced(a + long + b, seq![]);
        assert(dates_of(formats(a + long + b), t) =~= seq![]);
    }
    let s = a + n + b;
    assert forall|i: int| 0 <= i < s.len() implies date_end(#[trigger] s.skip(i)) is None by {
        let u = s.skip(i);
        if date_end(u) is Some {
            assert(u.take(7)[0] == s[i] && u.take(7)[1] == s[i + 1] && u.take(7)[2] == s[i + 2]);
            lemma_only_place(a, n, b, i);
        }
    }
    lemma_no_dates(s, seq![]);
    assert(dates_of(formats(s), t) =~= seq![]);
    let w = a + date + b;
    assert forall|i: int| 0 <= i < a.len() implies date_end(#[trigger] w.skip(i)) is None by {
        let u = w.skip(i);
        if date_end(u) is Some {
            assert(u.take(7)[0] == w[i] && u.take(7)[1] == w[i + 1] && u.take(7)[2] == w[i + 2]);
            lemma_only_place(a, date, b, i);
        }
    }
    lemma_plain_spliced(b, seq![]);
    let dates = seq![date_text(t, format)->0];
    lemma_first_date(a, format, b, dates);
    assert(formats(b) =~= seq![]);
    assert(seq![format] + formats(b) =~= seq![format]);
    assert(dates_of(formats(w), t) =~= dates);
    assert(dates.skip(1) =~= seq![]);
}

// --- Paths and links ---

/// A path below the home directory is put behind it; any other path, and any path where
/// the home directory is not known, stays.
pub proof fn lemma_home_put_in(rest: Seq<char>, home: Seq<char>, path: Seq<char>)
    ensures
        expanded("~/"@ + rest, Some(home)) == home + "/"@ + rest,
        expanded(path, None) == path,
        (forall|r: Seq<char>| path != #[trigger] ("~/"@ + r)) ==> expanded(path, Some(home)) == path,
{
    reveal_strlit("~/");
    reveal_strlit("/");
    assert(("~/"@ + rest).skip(2) =~= rest);
    assert("/"@ =~= seq!['/']);
    if path.len() >= 2 && path[0] == '~' && path[1] == '/' {
        assert(path =~= "~/"@ + path.skip(2));
    }
}

/// Texts one behind the other are escaped one behind the other, and a character that has no
/// meaning of its own in a link stays as it is.
pub proof fn lemma_escaped_one_by_one(a: Seq<char>, b: Seq<char>, c: char)
    ensures
        url_text(a + b) == url_text(a) + url_text(b),
        !reserved(c) && c != '%' ==> url_text(seq![c]) == seq![c],
        reserved(c) || c == '%' ==> url_text(seq![c]).len() == 3 && url_text(seq![c])[0] == '%',
    decreases b.len(),
{
    assert(seq![c].drop_last() =~= Seq::<char>::empty());
    assert(url_text(Seq::<char>::empty()) =~= Seq::<char>::empty());
    assert(url_text(seq![c]) =~= escaped(c));
    if b.len() == 0 {
        assert(a + b =~= a);
        assert(url_text(a) + url_text(b) =~= url_text(a));
    } else {
        lemma_escaped_one_by_one(a, b.drop_last(), c);
        assert((a + b).drop_last() =~= a + b.drop_last());
        assert(url_text(a + b) =~= url_text(a) + url_text(b));
    }
}

/// From a link the vault and the note can be read back: the vault stands between the first
/// equals sign and the only ampersand, and the note, with its folder, after the second.
pub proof fn lemma_link_read_back(vault: Seq<char>, folder: Seq<char>, file_name: Seq<char>)
    ensures
        ({
            let link = link_text(vault, folder, file_name);
            let head = "obsidian://open?vault="@;
            let n = head.len() as int;
            let m = find_from(link, n, '&');
            &&& link.take(n) == head
            &&& unescaped(link.subrange(n, m)) == vault
            &&& link.subrange(m, m + 6) == "&file="@
            &&& unescaped(link.skip(m + 6)) == folder + "/"@ + file_name
        }),
{
    let link = link_text(vault, folder, file_name);
    let head = "obsidian://open?vault="@;
    let middle = "&file="@;
    reveal_strlit("&file=");
    reveal_strlit("/");
    assert("/"@ =~= seq!['/']);
    let n = head.len() as int;
    let v = url_text(vault);
    let path = folder + seq!['/'] + file_name;
    let m = n + v.len();
    assert forall|k: int| n <= k < m implies link[k] != '&' by {
        lemma_url_text_safe(vault, k - n);
        assert(link[k] == v[k - n]);
    }
    assert(link[m] == middle[0]);
    lemma_found(link, n, '&', m);
    assert(link.take(n) =~= head);
    assert(link.subrange(n, m) =~= v);
    assert(link.subrange(m, m + 6) =~= middle);
    assert(link.skip(m + 6) =~= url_text(path));
    lemma_url_text_reversible(vault);
    lemma_url_text_reversible(path);
}

} // verus!
