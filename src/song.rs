//! Songs: the header fields, the note stream and the whole document.
use crate::note::{Note, NoteType, NoteView, opt_view, note_of_line};
use crate::text::{
    all_digits, append_chars, chars_of, lines, split_lines, string_of, trim_start,
    trim_start_chars, u32_of, views, parse_u32, push_decimal, decimal,
};
use vstd::prelude::*;

verus! {

/// A header field whose absence or bad value rejects a document.
#[derive(Debug, Clone, Copy, PartialEq, Eq, Structural)]
pub enum TagField {
    Title,
    Bpm,
    Gap,
    VideoGap,
}

/// Why a document was rejected.
#[derive(Debug, Clone, Copy, PartialEq, Eq, Structural)]
pub enum SongError {
    /// A required header field is absent.
    MissingField(TagField),
    /// The `#BPM` value is no decimal number.
    BpmParse,
    /// The value of an integer header field does not read as one.
    IntegerParse(TagField),
    /// The `#RELATIVE` value is none of `yes`, `true`, `no`, `false`.
    InvalidRelative,
    /// A beat number, once made absolute, does not fit in 32 bits.
    BeatOverflow,
}

/// Beats per minute, as written: an optional sign, the decimal digits before
/// and after the separator, and an optional exponent.
#[derive(Debug, Clone)]
pub struct Bpm {
    /// `+` or `-`, if written.
    pub sign: Option<char>,
    /// Digits before the separator.
    pub whole: Vec<char>,
    /// Digits after the separator.
    pub fraction: Vec<char>,
    /// `e` or `E`, an optional sign and digits; empty where there is none.
    pub exponent: Vec<char>,
}

/// What a tempo holds, as characters.
pub struct BpmView {
    pub sign: Option<char>,
    pub whole: Seq<char>,
    pub fraction: Seq<char>,
    pub exponent: Seq<char>,
}

impl View for Bpm {
    type V = BpmView;

    open spec fn view(&self) -> BpmView {
        BpmView {
            sign: self.sign,
            whole: self.whole@,
            fraction: self.fraction@,
            exponent: self.exponent@,
        }
    }
}

/// Index of the first `a` or `b` in `v`, or its length.
pub open spec fn first_of(v: Seq<char>, a: char, b: char) -> nat
    decreases v.len(),
{
    if v.len() == 0 {
        0
    } else {
        let p = first_of(v.drop_last(), a, b);
        if p < v.len() - 1 {
            p
        } else if v.last() == a || v.last() == b {
            (v.len() - 1) as nat
        } else {
            v.len()
        }
    }
}

proof fn lemma_first_of_bound(v: Seq<char>, a: char, b: char)
    ensures
        first_of(v, a, b) <= v.len(),
    decreases v.len(),
{
    if v.len() > 0 {
        lemma_first_of_bound(v.drop_last(), a, b);
    }
}

pub(crate) proof fn lemma_first_of_is(v: Seq<char>, a: char, b: char, k: int)
    requires
        0 <= k <= v.len(),
        forall|j: int| 0 <= j < k ==> #[trigger] v[j] != a && v[j] != b,
        k == v.len() || v[k] == a || v[k] == b,
    ensures
        first_of(v, a, b) == k,
    decreases v.len(),
{
    if v.len() > 0 {
        lemma_first_of_bound(v.drop_last(), a, b);
        let k2 = if k < v.len() {
            k
        } else {
            k - 1
        };
        lemma_first_of_is(v.drop_last(), a, b, k2);
    }
}

/// A decimal number without sign or exponent, `.` or `,` separating its
/// fraction: digits before and digits after one separator, at least one digit
/// in all.
pub open spec fn mantissa_of(v: Seq<char>) -> Option<(Seq<char>, Seq<char>)> {
    let k = first_of(v, '.', ',') as int;
    let whole = v.take(k);
    let fraction = if k < v.len() {
        v.skip(k + 1)
    } else {
        seq![]
    };
    if all_digits(whole) && all_digits(fraction) && whole.len() + fraction.len() > 0 {
        Some((whole, fraction))
    } else {
        None
    }
}

/// An exponent: nothing, or `e`/`E`, an optional sign and at least one digit.
pub open spec fn exponent_ok(x: Seq<char>) -> bool {
    x.len() == 0 || ((x[0] == 'e' || x[0] == 'E') && {
        let y = x.drop_first();
        let d = if y.len() > 0 && (y[0] == '+' || y[0] == '-') {
            y.drop_first()
        } else {
            y
        };
        d.len() > 0 && all_digits(d)
    })
}

/// A `#BPM` value read as a decimal number: an optional sign, the digits
/// (see `mantissa_of`), then an optional exponent.
pub open spec fn bpm_of(v: Seq<char>) -> Option<BpmView> {
    let signed = v.len() > 0 && (v[0] == '+' || v[0] == '-');
    let rest = if signed {
        v.drop_first()
    } else {
        v
    };
    let k = first_of(rest, 'e', 'E') as int;
    match mantissa_of(rest.take(k)) {
        Some(m) => if exponent_ok(rest.skip(k)) {
            Some(
                BpmView {
                    sign: if signed {
                        Some(v[0])
                    } else {
                        None
                    },
                    whole: m.0,
                    fraction: m.1,
                    exponent: rest.skip(k),
                },
            )
        } else {
            None
        },
        None => None,
    }
}

/// The sign as written.
pub open spec fn sign_text(s: Option<char>) -> Seq<char> {
    match s {
        Some(c) => seq![c],
        None => seq![],
    }
}

/// The tempo as written in a document: `,` before the fraction, if any.
pub open spec fn bpm_text(b: BpmView) -> Seq<char> {
    sign_text(b.sign) + (if b.fraction.len() == 0 {
        b.whole
    } else {
        b.whole + seq![','] + b.fraction
    }) + b.exponent
}

/// Copies `v[from..to]`.
fn copy_range(v: &Vec<char>, from: usize, to: usize) -> (r: Vec<char>)
    requires
        from <= to <= v@.len(),
    ensures
        r@ == v@.subrange(from as int, to as int),
{
    let mut r: Vec<char> = Vec::new();
    let mut i: usize = from;
    while i < to
        invariant
            from <= i <= to <= v@.len(),
            r@ == v@.subrange(from as int, i as int),
        decreases to - i,
    {
        r.push(v[i]);
        i = i + 1;
        assert(r@ =~= v@.subrange(from as int, i as int));
    }
    r
}

/// Whether all of `v[from..]` are digits, and there is one at least.
fn digits_after(v: &Vec<char>, from: usize) -> (r: bool)
    requires
        from <= v@.len(),
    ensures
        r == (v@.skip(from as int).len() > 0 && all_digits(v@.skip(from as int))),
{
    if from >= v.len() {
        return false;
    }
    let mut i: usize = from;
    while i < v.len()
        invariant
            from <= i <= v@.len(),
            forall|j: int| from <= j < i ==> crate::text::is_digit(#[trigger] v@[j]),
        decreases v@.len() - i,
    {
        if !('0' <= v[i] && v[i] <= '9') {
            assert(v@.skip(from as int)[i - from] == v@[i as int]);
            return false;
        }
        i = i + 1;
    }
    assert forall|j: int| 0 <= j < v@.skip(from as int).len() implies crate::text::is_digit(
        #[trigger] v@.skip(from as int)[j],
    ) by {
        assert(v@.skip(from as int)[j] == v@[from + j]);
    }
    true
}

/// Checks an exponent.
fn check_exponent(x: &Vec<char>) -> (r: bool)
    ensures
        r == exponent_ok(x@),
{
    if x.len() == 0 {
        return true;
    }
    if !(x[0] == 'e' || x[0] == 'E') {
        return false;
    }
    let from: usize = if x.len() > 1 && (x[1] == '+' || x[1] == '-') {
        2
    } else {
        1
    };
    assert(x@.drop_first() =~= x@.skip(1));
    if x.len() > 1 {
        assert(x@.drop_first().drop_first() =~= x@.skip(2));
    }
    digits_after(x, from)
}

/// Reads digits with one optional separator.
fn parse_mantissa(v: &Vec<char>) -> (r: Option<(Vec<char>, Vec<char>)>)
    ensures
        r matches Some(m) ==> mantissa_of(v@) == Some((m.0@, m.1@)),
        r is None ==> mantissa_of(v@) is None,
{
    let mut k: usize = 0;
    while k < v.len() && !(v[k] == '.' || v[k] == ',')
        invariant
            k <= v@.len(),
            forall|j: int| 0 <= j < k ==> #[trigger] v@[j] != '.' && v@[j] != ',',
        decreases v@.len() - k,
    {
        k = k + 1;
    }
    proof {
        lemma_first_of_is(v@, '.', ',', k as int);
    }
    let mut whole: Vec<char> = Vec::new();
    let mut fraction: Vec<char> = Vec::new();
    let mut ok = true;
    let mut i: usize = 0;
    while i < v.len()
        invariant
            k <= v@.len(),
            i <= v@.len(),
            whole@ == v@.take(if i < k { i as int } else { k as int }),
            fraction@ == (if i <= k + 1 { seq![] } else { v@.subrange(k + 1, i as int) }),
            ok == (all_digits(whole@) && all_digits(fraction@)),
        decreases v@.len() - i,
    {
        let c = v[i];
        let d = '0' <= c && c <= '9';
        let ghost w0 = whole@;
        let ghost f0 = fraction@;
        if i < k {
            whole.push(c);
            assert(whole@ =~= v@.take(i + 1));
            proof {
                lemma_all_digits_push(w0, c);
            }
        } else if i > k {
            fraction.push(c);
            assert(fraction@ =~= v@.subrange(k + 1, i + 1));
            proof {
                lemma_all_digits_push(f0, c);
            }
        }
        if i != k && !d {
            ok = false;
        }
        i = i + 1;
    }
    if k < v.len() {
        assert(fraction@ =~= v@.skip(k + 1));
    }
    if ok && whole.len() + fraction.len() > 0 {
        Some((whole, fraction))
    } else {
        None
    }
}

impl Bpm {
    /// Reads a `#BPM` value.
    pub fn parse(v: &Vec<char>) -> (r: Option<Bpm>)
        ensures
            r matches Some(b) ==> bpm_of(v@) == Some(b@),
            r is None ==> bpm_of(v@) is None,
    {
        let signed = v.len() > 0 && (v[0] == '+' || v[0] == '-');
        let start: usize = if signed {
            1
        } else {
            0
        };
        let ghost rest = if signed {
            v@.drop_first()
        } else {
            v@
        };
        assert(rest =~= v@.skip(start as int));
        let mut k: usize = start;
        while k < v.len() && !(v[k] == 'e' || v[k] == 'E')
            invariant
                start <= k <= v@.len(),
                rest == v@.skip(start as int),
                forall|j: int| start <= j < k ==> #[trigger] v@[j] != 'e' && v@[j] != 'E',
            decreases v@.len() - k,
        {
            k = k + 1;
        }
        proof {
            assert forall|j: int| 0 <= j < k - start implies #[trigger] rest[j] != 'e' && rest[j]
                != 'E' by {
                assert(rest[j] == v@[start + j]);
            }
            if k < v.len() {
                assert(rest[k - start] == v@[k as int]);
            }
            lemma_first_of_is(rest, 'e', 'E', k - start);
        }
        let m = copy_range(v, start, k);
        let x = copy_range(v, k, v.len());
        assert(rest.take(k - start) =~= m@);
        assert(rest.skip(k - start) =~= x@);
        match parse_mantissa(&m) {
            Some(wf) => if check_exponent(&x) {
                let sign = if signed {
                    Some(v[0])
                } else {
                    None
                };
                let (whole, fraction) = wf;
                Some(Bpm { sign, whole, fraction, exponent: x })
            } else {
                None
            },
            None => None,
        }
    }

    /// The number as written, with `.` as its decimal separator.
    pub fn to_text(&self) -> (r: String)
        ensures
            r@ == sign_text(self.sign) + (if self@.fraction.len() == 0 {
                self@.whole
            } else {
                self@.whole + seq!['.'] + self@.fraction
            }) + self@.exponent,
    {
        let mut out: Vec<char> = Vec::new();
        if let Some(c) = self.sign {
            out.push(c);
        }
        append_chars(&mut out, &self.whole);
        if self.fraction.len() > 0 {
            out.push('.');
            append_chars(&mut out, &self.fraction);
        }
        append_chars(&mut out, &self.exponent);
        assert(out@ =~= sign_text(self.sign) + (if self@.fraction.len() == 0 {
            self@.whole
        } else {
            self@.whole + seq!['.'] + self@.fraction
        }) + self@.exponent);
        string_of(&out)
    }

    /// Appends the tempo as a document writes it.
    fn write_to(&self, out: &mut Vec<char>)
        ensures
            final(out)@ == old(out)@ + bpm_text(self@),
    {
        if let Some(c) = self.sign {
            out.push(c);
        }
        append_chars(out, &self.whole);
        if self.fraction.len() > 0 {
            out.push(',');
            append_chars(out, &self.fraction);
        }
        append_chars(out, &self.exponent);
        assert(final(out)@ =~= old(out)@ + bpm_text(self@));
    }
}

proof fn lemma_all_digits_push(s: Seq<char>, c: char)
    ensures
        all_digits(s.push(c)) == (all_digits(s) && crate::text::is_digit(c)),
{
    if all_digits(s) && crate::text::is_digit(c) {
        assert forall|j: int| 0 <= j < s.len() + 1 implies crate::text::is_digit(
            #[trigger] s.push(c)[j],
        ) by {
            if j < s.len() {
                assert(s.push(c)[j] == s[j]);
            }
        }
    }
    if all_digits(s.push(c)) {
        assert(s.push(c)[s.len() as int] == c);
        assert forall|j: int| 0 <= j < s.len() implies crate::text::is_digit(#[trigger] s[j]) by {
            assert(s.push(c)[j] == s[j]);
        }
    }
}

/// Whether `l` begins with `p`.
pub open spec fn starts_with(l: Seq<char>, p: Seq<char>) -> bool {
    p.len() <= l.len() && l.take(p.len() as int) == p
}

/// The value of the first line that begins with `tag`: the rest of that line.
pub open spec fn header_value(ls: Seq<Seq<char>>, tag: Seq<char>) -> Option<Seq<char>>
    decreases ls.len(),
{
    if ls.len() == 0 {
        None
    } else {
        let p = header_value(ls.drop_last(), tag);
        if p is Some {
            p
        } else if starts_with(ls.last(), tag) {
            Some(ls.last().skip(tag.len() as int))
        } else {
            None
        }
    }
}

/// The lines of a document, each without its leading whitespace.
pub open spec fn doc_lines(s: Seq<char>) -> Seq<Seq<char>> {
    lines(s).map_values(|l: Seq<char>| trim_start(l))
}

/// A line that holds a note: not empty, not a header and not the terminator.
pub open spec fn is_note_line(l: Seq<char>) -> bool {
    l.len() > 0 && l[0] != '#' && l[0] != 'E'
}

/// The terminator line: it begins with `E`.
pub open spec fn is_end_line(l: Seq<char>) -> bool {
    l.len() > 0 && l[0] == 'E'
}

/// Index of the first terminator line of `ls`, or its length.
pub open spec fn end_index(ls: Seq<Seq<char>>) -> nat
    decreases ls.len(),
{
    if ls.len() == 0 {
        0
    } else {
        let p = end_index(ls.drop_last());
        if p < ls.len() - 1 {
            p
        } else if is_end_line(ls.last()) {
            (ls.len() - 1) as nat
        } else {
            ls.len()
        }
    }
}

/// The lines before the terminator: what follows it is no part of the song.
pub open spec fn body_lines(ls: Seq<Seq<char>>) -> Seq<Seq<char>> {
    ls.take(end_index(ls) as int)
}

proof fn lemma_end_index_bound(ls: Seq<Seq<char>>)
    ensures
        end_index(ls) <= ls.len(),
    decreases ls.len(),
{
    if ls.len() > 0 {
        lemma_end_index_bound(ls.drop_last());
    }
}

pub(crate) proof fn lemma_end_index_is(ls: Seq<Seq<char>>, k: int)
    requires
        0 <= k <= ls.len(),
        forall|j: int| 0 <= j < k ==> !is_end_line(#[trigger] ls[j]),
        k == ls.len() || is_end_line(ls[k]),
    ensures
        end_index(ls) == k,
    decreases ls.len(),
{
    if ls.len() > 0 {
        lemma_end_index_bound(ls.drop_last());
        let k2 = if k < ls.len() {
            k
        } else {
            k - 1
        };
        lemma_end_index_is(ls.drop_last(), k2);
    }
}

/// Where the terminator line stands.
fn end_of_notes(ls: &Vec<Vec<char>>) -> (r: usize)
    ensures
        r == end_index(views(ls@)),
{
    let mut k: usize = 0;
    while k < ls.len() && !(ls[k].len() > 0 && ls[k][0] == 'E')
        invariant
            k <= ls@.len(),
            forall|j: int| 0 <= j < k ==> !is_end_line(#[trigger] views(ls@)[j]),
        decreases ls@.len() - k,
    {
        assert(views(ls@)[k as int] == ls@[k as int]@);
        k = k + 1;
    }
    if k < ls.len() {
        assert(views(ls@)[k as int] == ls@[k as int]@);
    }
    proof {
        lemma_end_index_is(views(ls@), k as int);
    }
    k
}

/// The notes of the note lines that read, in order; the others are left out.
pub open spec fn notes_of(ls: Seq<Seq<char>>) -> Seq<NoteView>
    decreases ls.len(),
{
    if ls.len() == 0 {
        seq![]
    } else {
        let p = notes_of(ls.drop_last());
        if is_note_line(ls.last()) && note_of_line(ls.last()) is Some {
            p.push(note_of_line(ls.last())->0)
        } else {
            p
        }
    }
}

/// The sum of the beats of the line breaks in `ns`.
pub open spec fn offset_after(ns: Seq<NoteView>) -> int
    decreases ns.len(),
{
    if ns.len() == 0 {
        0
    } else if ns.last().note_type == NoteType::LineBreak {
        offset_after(ns.drop_last()) + ns.last().beat_number
    } else {
        offset_after(ns.drop_last())
    }
}

/// A note placed at `offset`, the sum of the beats of the line breaks before
/// it: a sung note moves by `offset`, a line break stands at `offset`.
pub open spec fn placed(n: NoteView, offset: int) -> NoteView {
    if n.note_type == NoteType::LineBreak {
        NoteView { beat_number: offset, ..n }
    } else {
        n.shifted(offset)
    }
}

/// Relative beats made absolute, each note placed by the line breaks before it.
pub open spec fn resolve(ns: Seq<NoteView>) -> Seq<NoteView>
    decreases ns.len(),
{
    if ns.len() == 0 {
        seq![]
    } else {
        resolve(ns.drop_last()).push(placed(ns.last(), offset_after(ns.drop_last())))
    }
}

/// Each note's beat, added to the sum of the beats of the line breaks before
/// it, fits in 32 bits: so does every beat of `resolve(ns)` and every such sum.
pub open spec fn resolves_in_range(ns: Seq<NoteView>) -> bool
    decreases ns.len(),
{
    ns.len() == 0 || (resolves_in_range(ns.drop_last()) && offset_after(ns.drop_last())
        + ns.last().beat_number <= u32::MAX)
}

/// `#RELATIVE` read: absent is `no`; `yes`/`true` and `no`/`false`; anything else none.
pub open spec fn relative_of(v: Option<Seq<char>>) -> Option<bool> {
    match v {
        None => Some(false),
        Some(t) => if t == "yes"@ || t == "true"@ {
            Some(true)
        } else if t == "no"@ || t == "false"@ {
            Some(false)
        } else {
            None
        },
    }
}

/// The notes of a document, with absolute beats.
pub open spec fn doc_notes(ls: Seq<Seq<char>>) -> Seq<NoteView> {
    if relative_of(header_value(ls, "#RELATIVE:"@)) == Some(true) {
        resolve(notes_of(body_lines(ls)))
    } else {
        notes_of(body_lines(ls))
    }
}

/// Why the document `s` is rejected, if it is: checked in this order.
pub open spec fn doc_error(s: Seq<char>) -> Option<SongError> {
    let ls = doc_lines(s);
    let relative = relative_of(header_value(ls, "#RELATIVE:"@));
    let bpm = header_value(ls, "#BPM:"@);
    let gap = header_value(ls, "#GAP:"@);
    let video_gap = header_value(ls, "#VIDEOGAP:"@);
    if relative is None {
        Some(SongError::InvalidRelative)
    } else if relative == Some(true) && !resolves_in_range(notes_of(body_lines(ls))) {
        Some(SongError::BeatOverflow)
    } else if header_value(ls, "#TITLE:"@) is None {
        Some(SongError::MissingField(TagField::Title))
    } else if bpm is None {
        Some(SongError::MissingField(TagField::Bpm))
    } else if bpm_of(bpm->0) is None {
        Some(SongError::BpmParse)
    } else if gap is None {
        Some(SongError::MissingField(TagField::Gap))
    } else if u32_of(gap->0) is None {
        Some(SongError::IntegerParse(TagField::Gap))
    } else if video_gap is Some && u32_of(video_gap->0) is None {
        Some(SongError::IntegerParse(TagField::VideoGap))
    } else {
        None
    }
}

pub open spec fn note_views(ns: Seq<Note>) -> Seq<NoteView> {
    ns.map_values(|n: Note| n@)
}

/// `song` holds what the document `s` says.
pub open spec fn song_of_doc(s: Seq<char>, song: Song) -> bool {
    let ls = doc_lines(s);
    &&& opt_view(song.artist) == header_value(ls, "#ARTIST:"@)
    &&& Some(song.title@) == header_value(ls, "#TITLE:"@)
    &&& opt_view(song.mp3) == header_value(ls, "#MP3:"@)
    &&& opt_view(song.video) == header_value(ls, "#VIDEO:"@)
    &&& opt_view(song.edition) == header_value(ls, "#EDITION:"@)
    &&& opt_view(song.genre) == header_value(ls, "#GENRE:"@)
    &&& opt_view(song.year) == header_value(ls, "#YEAR:"@)
    &&& opt_view(song.language) == header_value(ls, "#LANGUAGE:"@)
    &&& bpm_of(header_value(ls, "#BPM:"@)->0) == Some(song.bpm@)
    &&& u32_of(header_value(ls, "#GAP:"@)->0) == Some(song.gap)
    &&& song.video_gap == (match header_value(ls, "#VIDEOGAP:"@) {
        Some(v) => u32_of(v),
        None => None,
    })
    &&& note_views(song.notes@) == doc_notes(ls)
}

/// Song information
#[derive(Debug, Clone)]
pub struct Song {
    pub artist: Option<String>,
    pub title: String,
    /// Path to the audio file
    pub mp3: Option<String>,
    pub video: Option<String>,
    pub edition: Option<String>,
    pub genre: Option<String>,
    pub year: Option<String>,
    pub language: Option<String>,
    /// Beats per minute
    pub bpm: Bpm,
    /// Delay in ms before the lyrics start after song
    pub gap: u32,
    pub video_gap: Option<u32>,
    /// All notes with lyrics
    pub notes: Vec<Note>,
}

pub open spec fn opt_chars(o: Option<Vec<char>>) -> Option<Seq<char>> {
    match o {
        Some(v) => Some(v@),
        None => None,
    }
}

/// The rest of the first line that begins with `tag`.
fn find_tag(ls: &Vec<Vec<char>>, tag: &str) -> (r: Option<Vec<char>>)
    ensures
        opt_chars(r) == header_value(views(ls@), tag@),
{
    let t = chars_of(tag);
    let mut found: Option<Vec<char>> = None;
    let mut i: usize = 0;
    while i < ls.len()
        invariant
            i <= ls@.len(),
            t@ == tag@,
            opt_chars(found) == header_value(views(ls@).take(i as int), tag@),
        decreases ls@.len() - i,
    {
        assert(views(ls@).take(i + 1).drop_last() =~= views(ls@).take(i as int));
        assert(views(ls@).take(i + 1).last() == ls@[i as int]@);
        if found.is_none() && t.len() <= ls[i].len() {
            let l = &ls[i];
            let mut j: usize = 0;
            while j < t.len() && l[j] == t[j]
                invariant
                    j <= t@.len() <= l@.len(),
                    forall|m: int| 0 <= m < j ==> l@[m] == t@[m],
                decreases t@.len() - j,
            {
                j = j + 1;
            }
            if j == t.len() {
                assert(l@.take(t@.len() as int) =~= t@);
                let mut rest: Vec<char> = Vec::new();
                let mut m: usize = j;
                while m < l.len()
                    invariant
                        j <= m <= l@.len(),
                        rest@ == l@.subrange(j as int, m as int),
                    decreases l@.len() - m,
                {
                    rest.push(l[m]);
                    m = m + 1;
                    assert(rest@ =~= l@.subrange(j as int, m as int));
                }
                assert(rest@ =~= l@.skip(j as int));
                found = Some(rest);
            } else {
                assert(l@.take(t@.len() as int)[j as int] != t@[j as int]);
            }
        }
        i = i + 1;
    }
    assert(views(ls@).take(i as int) =~= views(ls@));
    found
}

/// Whether two character sequences are equal.
fn same_chars(a: &Vec<char>, b: &str) -> (r: bool)
    ensures
        r == (a@ == b@),
{
    let bc = chars_of(b);
    if a.len() != bc.len() {
        return false;
    }
    let mut i: usize = 0;
    while i < a.len()
        invariant
            i <= a@.len() == bc@.len(),
            bc@ == b@,
            forall|m: int| 0 <= m < i ==> a@[m] == bc@[m],
        decreases a@.len() - i,
    {
        if a[i] != bc[i] {
            assert(a@[i as int] != bc@[i as int]);
            return false;
        }
        i = i + 1;
    }
    assert(a@ =~= bc@);
    true
}

/// Reads a `#RELATIVE` value; `None` where it is none of the four words.
pub fn parse_yes_no(v: &Option<Vec<char>>) -> (r: Option<bool>)
    ensures
        r == relative_of(opt_chars(*v)),
{
    match v {
        None => Some(false),
        Some(t) => if same_chars(t, "yes") || same_chars(t, "true") {
            Some(true)
        } else if same_chars(t, "no") || same_chars(t, "false") {
            Some(false)
        } else {
            None
        },
    }
}

/// The notes of the lines, made absolute where `relative` holds; `None` where
/// a beat made absolute would not fit in 32 bits.
fn collect_notes(ls: &Vec<Vec<char>>, relative: bool) -> (r: Option<Vec<Note>>)
    ensures
        r is None <==> (relative && !resolves_in_range(notes_of(body_lines(views(ls@))))),
        r matches Some(ns) ==> note_views(ns@) == (if relative {
            resolve(notes_of(body_lines(views(ls@))))
        } else {
            notes_of(body_lines(views(ls@)))
        }),
{
    let mut out: Vec<Note> = Vec::new();
    let mut counter: u32 = 0;
    let end = end_of_notes(ls);
    proof {
        lemma_end_index_bound(views(ls@));
    }
    let mut i: usize = 0;
    while i < end
        invariant
            i <= end == end_index(views(ls@)) <= ls@.len(),
            relative ==> resolves_in_range(notes_of(views(ls@).take(i as int))),
            relative ==> counter == offset_after(notes_of(views(ls@).take(i as int))),
            note_views(out@) == (if relative {
                resolve(notes_of(views(ls@).take(i as int)))
            } else {
                notes_of(views(ls@).take(i as int))
            }),
        decreases ls@.len() - i,
    {
        let ghost pre = views(ls@).take(i as int);
        let ghost now = views(ls@).take(i + 1);
        assert(now.drop_last() =~= pre);
        assert(now.last() == ls@[i as int]@);
        let l = &ls[i];
        if l.len() > 0 && l[0] != '#' && l[0] != 'E' {
            match Note::from_line(l) {
                Ok(mut n) => {
                    assert(notes_of(now).drop_last() =~= notes_of(pre));
                    if relative {
                        if n.beat_number as u64 + counter as u64 > 0xFFFF_FFFF {
                            proof {
                                let b = body_lines(views(ls@));
                                assert(b.take(i + 1) =~= now);
                                lemma_out_of_range_stays(b, i + 1);
                            }
                            return None;
                        }
                        match n.update_offset() {
                            Some(b) => {
                                n.beat_number = counter;
                                counter = counter + b;
                            },
                            None => n.offset(counter),
                        }
                    }
                    out.push(n);
                    assert(note_views(out@) =~= note_views(out@).drop_last().push(n@));
                },
                Err(_) => {},
            }
        }
        i = i + 1;
    }
    assert(views(ls@).take(i as int) =~= body_lines(views(ls@)));
    Some(out)
}

/// Once a prefix of the lines leaves the 32-bit range, so do all the lines.
proof fn lemma_out_of_range_stays(ls: Seq<Seq<char>>, k: int)
    requires
        0 <= k <= ls.len(),
        !resolves_in_range(notes_of(ls.take(k))),
    ensures
        !resolves_in_range(notes_of(ls)),
    decreases ls.len() - k,
{
    if k < ls.len() {
        assert(ls.take(k + 1).drop_last() =~= ls.take(k));
        let p = notes_of(ls.take(k));
        let l = ls.take(k + 1).last();
        if is_note_line(l) && note_of_line(l) is Some {
            assert(p.push(note_of_line(l)->0).drop_last() =~= p);
        }
        lemma_out_of_range_stays(ls, k + 1);
    } else {
        assert(ls.take(k) =~= ls);
    }
}


/// A header line: the tag, the value and a line end.
pub open spec fn tag_line(tag: Seq<char>, v: Seq<char>) -> Seq<char> {
    tag + v + seq!['\n']
}

/// A header line where the value is present, nothing where it is absent.
pub open spec fn opt_line(tag: Seq<char>, o: Option<Seq<char>>) -> Seq<char> {
    match o {
        Some(v) => tag_line(tag, v),
        None => seq![],
    }
}

/// Each note's line, followed by a line end.
pub open spec fn notes_text(ns: Seq<NoteView>) -> Seq<char>
    decreases ns.len(),
{
    if ns.len() == 0 {
        seq![]
    } else {
        notes_text(ns.drop_last()) + ns.last().text() + seq!['\n']
    }
}

/// The first header lines: artist, title, audio file, edition, genre, year
/// and language.
pub open spec fn song_text_meta(song: Song) -> Seq<char> {
    opt_line("#ARTIST:"@, opt_view(song.artist)) + tag_line("#TITLE:"@, song.title@) + opt_line(
        "#MP3:"@,
        opt_view(song.mp3),
    ) + opt_line("#EDITION:"@, opt_view(song.edition)) + opt_line(
        "#GENRE:"@,
        opt_view(song.genre),
    ) + opt_line("#YEAR:"@, opt_view(song.year)) + opt_line(
        "#LANGUAGE:"@,
        opt_view(song.language),
    )
}

/// The last header lines: tempo, gap, video file and video gap.
pub open spec fn song_text_timing(song: Song) -> Seq<char> {
    tag_line("#BPM:"@, bpm_text(song.bpm@)) + tag_line("#GAP:"@, decimal(song.gap as nat))
        + opt_line("#VIDEO:"@, opt_view(song.video)) + opt_line(
        "#VIDEOGAP:"@,
        match song.video_gap {
            Some(g) => Some(decimal(g as nat)),
            None => None,
        },
    )
}

/// The document that a song is written as: the header fields in a fixed
/// order, the notes, and the terminator line.
pub open spec fn song_text(song: Song) -> Seq<char> {
    song_text_meta(song) + song_text_timing(song) + notes_text(note_views(song.notes@)) + seq![
        'E',
        '\n',
    ]
}

fn push_str(out: &mut Vec<char>, s: &str)
    ensures
        final(out)@ == old(out)@ + s@,
{
    let c = chars_of(s);
    append_chars(out, &c);
}

fn push_opt_line(out: &mut Vec<char>, tag: &str, o: &Option<String>)
    ensures
        final(out)@ == old(out)@ + opt_line(tag@, opt_view(*o)),
{
    match o {
        Some(v) => {
            push_str(out, tag);
            push_str(out, v.as_str());
            out.push('\n');
            assert(final(out)@ =~= old(out)@ + opt_line(tag@, opt_view(*o)));
        },
        None => {
            assert(final(out)@ =~= old(out)@ + opt_line(tag@, opt_view(*o)));
        },
    }
}

impl Song {
    /// Every note carries what its type asks for.
    pub open spec fn wf(&self) -> bool {
        forall|i: int| 0 <= i < self.notes@.len() ==> (#[trigger] self.notes@[i])@.wf()
    }

    /// Reads a song document. Header fields are looked up by tag, the first
    /// line with a tag giving its value; notes are read up to the first line
    /// that begins with `E`, and note lines that do not read are left out;
    /// under `#RELATIVE:yes` beats are made absolute.
    pub fn from_str(text: &str) -> (r: Result<Song, SongError>)
        ensures
            r is Err <==> doc_error(text@) is Some,
            r matches Err(e) ==> doc_error(text@) == Some(e),
            r matches Ok(song) ==> song_of_doc(text@, song) && song.wf(),
    {
        let chars = chars_of(text);
        let raw = split_lines(&chars);
        let mut ls: Vec<Vec<char>> = Vec::new();
        let mut i: usize = 0;
        while i < raw.len()
            invariant
                i <= raw@.len(),
                views(raw@) == lines(text@),
                views(ls@) == doc_lines(text@).take(i as int),
            decreases raw@.len() - i,
        {
            assert(views(raw@)[i as int] == raw@[i as int]@);
            assert(doc_lines(text@)[i as int] == trim_start(lines(text@)[i as int]));
            let ghost before = views(ls@);
            let t = trim_start_chars(&raw[i]);
            ls.push(t);
            assert(views(ls@) =~= before.push(t@));
            i = i + 1;
            assert(views(ls@) =~= doc_lines(text@).take(i as int));
        }
        assert(views(ls@) =~= doc_lines(text@));
        let relative = match parse_yes_no(&find_tag(&ls, "#RELATIVE:")) {
            Some(b) => b,
            None => return Err(SongError::InvalidRelative),
        };
        let notes = match collect_notes(&ls, relative) {
            Some(ns) => ns,
            None => return Err(SongError::BeatOverflow),
        };
        proof {
            lemma_notes_wf(body_lines(views(ls@)));
            if relative {
                lemma_resolve_wf(notes_of(body_lines(views(ls@))));
            }
            assert forall|i: int| 0 <= i < notes@.len() implies (#[trigger] notes@[i])@.wf() by {
                assert(note_views(notes@)[i] == notes@[i]@);
            }
        }
        let artist = find_tag(&ls, "#ARTIST:");
        let title = match find_tag(&ls, "#TITLE:") {
            Some(t) => t,
            None => return Err(SongError::MissingField(TagField::Title)),
        };
        let mp3 = find_tag(&ls, "#MP3:");
        let video = find_tag(&ls, "#VIDEO:");
        let edition = find_tag(&ls, "#EDITION:");
        let genre = find_tag(&ls, "#GENRE:");
        let year = find_tag(&ls, "#YEAR:");
        let language = find_tag(&ls, "#LANGUAGE:");
        let bpm = match find_tag(&ls, "#BPM:") {
            Some(v) => match Bpm::parse(&v) {
                Some(b) => b,
                None => return Err(SongError::BpmParse),
            },
            None => return Err(SongError::MissingField(TagField::Bpm)),
        };
        let gap = match find_tag(&ls, "#GAP:") {
            Some(v) => match parse_u32(&v) {
                Some(g) => g,
                None => return Err(SongError::IntegerParse(TagField::Gap)),
            },
            None => return Err(SongError::MissingField(TagField::Gap)),
        };
        let video_gap = match find_tag(&ls, "#VIDEOGAP:") {
            Some(v) => match parse_u32(&v) {
                Some(g) => Some(g),
                None => return Err(SongError::IntegerParse(TagField::VideoGap)),
            },
            None => None,
        };
        Ok(
            Song {
                artist: to_string_opt(artist),
                title: string_of(&title),
                mp3: to_string_opt(mp3),
                video: to_string_opt(video),
                edition: to_string_opt(edition),
                genre: to_string_opt(genre),
                year: to_string_opt(year),
                language: to_string_opt(language),
                bpm,
                gap,
                video_gap,
                notes,
            },
        )
    }

    /// Writes the song as a document.
    pub fn to_string(&self) -> (r: String)
        requires
            self.wf(),
        ensures
            r@ == song_text(*self),
    {
        let mut out: Vec<char> = Vec::new();
        self.write_meta(&mut out);
        self.write_timing(&mut out);
        let ghost head = out@;
        let mut i: usize = 0;
        while i < self.notes.len()
            invariant
                i <= self.notes@.len(),
                self.wf(),
                out@ == head + notes_text(note_views(self.notes@).take(i as int)),
            decreases self.notes@.len() - i,
        {
            assert(note_views(self.notes@).take(i + 1).drop_last() =~= note_views(
                self.notes@,
            ).take(i as int));
            assert(self.notes@[i as int]@.wf());
            self.notes[i].write_to(&mut out);
            out.push('\n');
            i = i + 1;
            assert(out@ =~= head + notes_text(note_views(self.notes@).take(i as int)));
        }
        assert(note_views(self.notes@).take(i as int) =~= note_views(self.notes@));
        out.push('E');
        out.push('\n');
        assert(out@ =~= song_text(*self));
        string_of(&out)
    }

    fn write_meta(&self, out: &mut Vec<char>)
        ensures
            final(out)@ == old(out)@ + song_text_meta(*self),
    {
        let ghost o = out@;
        push_opt_line(out, "#ARTIST:", &self.artist);
        push_str(out, "#TITLE:");
        push_str(out, self.title.as_str());
        out.push('\n');
        let ghost o2 = out@;
        assert(o2 =~= o + opt_line("#ARTIST:"@, opt_view(self.artist)) + tag_line("#TITLE:"@, self.title@));
        push_opt_line(out, "#MP3:", &self.mp3);
        push_opt_line(out, "#EDITION:", &self.edition);
        push_opt_line(out, "#GENRE:", &self.genre);
        push_opt_line(out, "#YEAR:", &self.year);
        push_opt_line(out, "#LANGUAGE:", &self.language);
        assert(out@ =~= o + song_text_meta(*self));
    }

    fn write_timing(&self, out: &mut Vec<char>)
        ensures
            final(out)@ == old(out)@ + song_text_timing(*self),
    {
        let ghost o = out@;
        push_str(out, "#BPM:");
        self.bpm.write_to(out);
        out.push('\n');
        assert(out@ =~= o + tag_line("#BPM:"@, bpm_text(self.bpm@)));
        let ghost o1 = out@;
        push_str(out, "#GAP:");
        push_decimal(out, self.gap as u64);
        out.push('\n');
        assert(out@ =~= o1 + tag_line("#GAP:"@, decimal(self.gap as nat)));
        let ghost o2 = out@;
        push_opt_line(out, "#VIDEO:", &self.video);
        let ghost o3 = out@;
        match self.video_gap {
            Some(g) => {
                push_str(out, "#VIDEOGAP:");
                push_decimal(out, g as u64);
                out.push('\n');
                assert(out@ =~= o3 + tag_line("#VIDEOGAP:"@, decimal(g as nat)));
            },
            None => {
                assert(out@ =~= o3 + seq![]);
            },
        }
        assert(out@ =~= o + song_text_timing(*self));
    }
}

fn to_string_opt(o: Option<Vec<char>>) -> (r: Option<String>)
    ensures
        opt_view(r) == opt_chars(o),
{
    match o {
        Some(v) => Some(string_of(&v)),
        None => None,
    }
}

proof fn lemma_notes_wf(ls: Seq<Seq<char>>)
    ensures
        forall|i: int| 0 <= i < notes_of(ls).len() ==> (#[trigger] notes_of(ls)[i]).wf(),
    decreases ls.len(),
{
    if ls.len() > 0 {
        lemma_notes_wf(ls.drop_last());
        let p = notes_of(ls.drop_last());
        let l = ls.last();
        if is_note_line(l) && note_of_line(l) is Some {
            let n = note_of_line(l)->0;
            assert(n.wf());
            assert forall|i: int| 0 <= i < p.len() + 1 implies (#[trigger] p.push(n)[i]).wf() by {
                if i < p.len() {
                    assert(p.push(n)[i] == p[i]);
                }
            }
        }
    }
}

proof fn lemma_resolve_wf(ns: Seq<NoteView>)
    requires
        forall|i: int| 0 <= i < ns.len() ==> (#[trigger] ns[i]).wf(),
    ensures
        resolve(ns).len() == ns.len(),
        forall|i: int| 0 <= i < ns.len() ==> (#[trigger] resolve(ns)[i]).wf(),
    decreases ns.len(),
{
    if ns.len() > 0 {
        lemma_resolve_wf(ns.drop_last());
        assert(ns.last() == ns[ns.len() - 1]);
    }
}

/// Each resolved note is its relative note placed by the sum of the beats of
/// the line breaks before it in the document.
pub proof fn lemma_resolved_note(ns: Seq<NoteView>, i: int)
    requires
        0 <= i < ns.len(),
    ensures
        resolve(ns).len() == ns.len(),
        resolve(ns)[i] == placed(ns[i], offset_after(ns.take(i))),
    decreases ns.len(),
{
    lemma_resolve_len(ns);
    if i < ns.len() - 1 {
        lemma_resolved_note(ns.drop_last(), i);
        assert(ns.drop_last().take(i) =~= ns.take(i));
        assert(resolve(ns)[i] == resolve(ns.drop_last())[i]);
    } else {
        assert(ns.drop_last() =~= ns.take(i));
    }
}

proof fn lemma_resolve_len(ns: Seq<NoteView>)
    ensures
        resolve(ns).len() == ns.len(),
    decreases ns.len(),
{
    if ns.len() > 0 {
        lemma_resolve_len(ns.drop_last());
    }
}

/// The sum of line-break beats only grows along the notes.
proof fn lemma_offset_grows(ns: Seq<NoteView>, i: int, j: int)
    requires
        0 <= i <= j <= ns.len(),
        forall|k: int| 0 <= k < ns.len() ==> (#[trigger] ns[k]).beat_number >= 0,
    ensures
        offset_after(ns.take(i)) <= offset_after(ns.take(j)),
    decreases j - i,
{
    if i < j {
        lemma_offset_grows(ns, i, j - 1);
        assert(ns.take(j).drop_last() =~= ns.take(j - 1));
        assert(ns.take(j).last() == ns[j - 1]);
    }
}

/// Once relative beats are resolved, no note stands before a line break that
/// precedes it in the document: line breaks mark out a timeline that only
/// moves forward.
pub proof fn lemma_line_breaks_ascend(ns: Seq<NoteView>, i: int, j: int)
    requires
        0 <= i < j < ns.len(),
        ns[i].note_type == NoteType::LineBreak,
        forall|k: int| 0 <= k < ns.len() ==> (#[trigger] ns[k]).beat_number >= 0,
    ensures
        resolve(ns)[i].beat_number <= resolve(ns)[j].beat_number,
{
    lemma_resolved_note(ns, i);
    lemma_resolved_note(ns, j);
    lemma_offset_grows(ns, i, j);
}

} // verus!
