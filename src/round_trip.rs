//! Reading back what was written: each printed part reads as what it was
//! printed from.
use crate::note::{NoteType, NoteView, marker, note_of_line, note_type_of, opt_view};
use crate::song::{
    Song, body_lines, is_end_line, bpm_of, bpm_text, doc_error, doc_lines, header_value, is_note_line, notes_of, BpmView, mantissa_of, exponent_ok, sign_text, first_of,
    note_views, notes_text, opt_line, song_of_doc, song_text, song_text_meta, song_text_timing,
    starts_with, tag_line,
};
use crate::text::{
    all_digits, decimal, digit_char, digits_value, i32_of, is_digit, is_ws, join_spaces, lead_ws,
    lines, lines_acc, pieces, pieces_acc, signed_decimal, strip_cr, trim_start, u32_of,
};
use vstd::prelude::*;

verus! {

/// No space in `s`.
pub open spec fn no_space(s: Seq<char>) -> bool {
    forall|i: int| 0 <= i < s.len() ==> s[i] != ' '
}

proof fn lemma_digit_char(n: nat)
    ensures
        digit_char(n) as nat == (n % 10) + '0' as nat,
        is_digit(digit_char(n)),
{
}

proof fn lemma_decimal(n: nat)
    ensures
        decimal(n).len() > 0,
        all_digits(decimal(n)),
        no_space(decimal(n)),
        digits_value(decimal(n)) == n,
    decreases n,
{
    lemma_digit_char(n);
    if n >= 10 {
        lemma_decimal(n / 10);
        let d = decimal(n / 10);
        assert(decimal(n).drop_last() =~= d);
        assert(decimal(n).last() == digit_char(n));
        assert((n / 10) * 10 + n % 10 == n);
        assert(digits_value(decimal(n)) == digits_value(d) * 10 + (digit_char(n) as nat
            - '0' as nat) as nat);
        assert('0' as nat == 48);
        assert forall|i: int| 0 <= i < decimal(n).len() implies is_digit(
            #[trigger] decimal(n)[i],
        ) by {
            if i < d.len() {
                assert(decimal(n)[i] == d[i]);
            }
        }
        assert forall|i: int| 0 <= i < decimal(n).len() implies decimal(n)[i] != ' ' by {
            if i < d.len() {
                assert(decimal(n)[i] == d[i]);
                assert(is_digit(d[i]));
            }
        }
    } else {
        assert(decimal(n).drop_last() =~= Seq::<char>::empty());
        assert(n % 10 == n);
        assert(digits_value(decimal(n)) == digits_value(Seq::<char>::empty()) * 10 + (
        digit_char(n) as nat - '0' as nat) as nat);
        assert('0' as nat == 48);
    }
}

/// A number printed in decimal reads back as itself.
pub proof fn lemma_u32_round_trip(n: u32)
    ensures
        u32_of(decimal(n as nat)) == Some(n),
{
    lemma_decimal(n as nat);
    assert(is_digit(decimal(n as nat)[0]));
}

/// A signed number printed in decimal reads back as itself.
pub proof fn lemma_i32_round_trip(n: i32)
    ensures
        i32_of(signed_decimal(n as int)) == Some(n),
        no_space(signed_decimal(n as int)),
{
    if n < 0 {
        let d = decimal((0 - n) as nat);
        lemma_decimal((0 - n) as nat);
        assert((seq!['-'] + d).drop_first() =~= d);
        assert forall|i: int| 0 <= i < (seq!['-'] + d).len() implies (seq!['-'] + d)[i]
            != ' ' by {
            if i > 0 {
                assert((seq!['-'] + d)[i] == d[i - 1]);
            }
        }
    } else {
        lemma_decimal(n as nat);
        assert(is_digit(decimal(n as nat)[0]));
    }
}

proof fn lemma_pieces_no_space(s: Seq<char>)
    requires
        no_space(s),
    ensures
        pieces_acc(s) == (Seq::<Seq<char>>::empty(), s),
    decreases s.len(),
{
    if s.len() > 0 {
        lemma_pieces_no_space(s.drop_last());
        assert(s.drop_last().push(s.last()) =~= s);
    } else {
        assert(s =~= seq![]);
    }
}

proof fn lemma_pieces_concat(x: Seq<char>, y: Seq<char>)
    ensures
        pieces_acc(x + seq![' '] + y) == (pieces(x) + pieces_acc(y).0, pieces_acc(y).1),
    decreases y.len(),
{
    if y.len() == 0 {
        assert((x + seq![' '] + y).drop_last() =~= x);
        assert(pieces(x) + pieces_acc(y).0 =~= pieces(x));
    } else {
        lemma_pieces_concat(x, y.drop_last());
        assert((x + seq![' '] + y).drop_last() =~= x + seq![' '] + y.drop_last());
        let (d, c) = pieces_acc(y.drop_last());
        assert((pieces(x) + d).push(c) =~= pieces(x) + d.push(c));
    }
}

/// The pieces of a text, joined again, give the text.
proof fn lemma_join_pieces(y: Seq<char>)
    ensures
        join_spaces(pieces(y)) == y,
        pieces(y).len() >= 1,
    decreases y.len(),
{
    if y.len() == 0 {
        assert(pieces(y) =~= seq![seq![]]);
        assert(y =~= seq![]);
    } else {
        let y1 = y.drop_last();
        lemma_join_pieces(y1);
        let (d, c) = pieces_acc(y1);
        if y.last() == ' ' {
            assert(d.push(c).push(seq![]).drop_last() =~= d.push(c));
            assert(y1 + seq![' '] + seq![] =~= y);
        } else if d.len() == 0 {
            assert(d.push(c.push(y.last())) =~= seq![c.push(y.last())]);
            assert(d.push(c) =~= seq![c]);
            assert(c.push(y.last()) =~= y);
        } else {
            assert(d.push(c.push(y.last())).drop_last() =~= d);
            assert(d.push(c).drop_last() =~= d);
            assert(join_spaces(d) + seq![' '] + c.push(y.last()) =~= (join_spaces(d) + seq![' ']
                + c).push(y.last()));
            assert(y1.push(y.last()) =~= y);
        }
    }
}

/// A note that carries what its type asks for, and whose lyric holds no line
/// end, reads back from its line as itself.
pub proof fn lemma_note_round_trip(n: NoteView)
    requires
        n.wf(),
        0 <= n.beat_number <= u32::MAX,
    ensures
        note_of_line(n.text()) == Some(n),
{
    let b = n.beat_number as u32;
    lemma_decimal(b as nat);
    lemma_u32_round_trip(b);
    let m = seq![marker(n.note_type)];
    assert(seq![':'][0] == ':' && seq!['*'][0] == '*' && seq!['F'][0] == 'F' && seq!['-'][0]
        == '-');
    assert(m[0] == marker(n.note_type));
    assert(note_type_of(m) == Some(n.note_type));
    let head = seq![marker(n.note_type), ' '] + decimal(b as nat);
    assert(head =~= m + seq![' '] + decimal(b as nat));
    lemma_pieces_no_space(m);
    lemma_pieces_no_space(decimal(b as nat));
    lemma_pieces_concat(m, decimal(b as nat));
    if n.note_type == NoteType::LineBreak {
        assert(pieces(n.text()) =~= seq![m, decimal(b as nat)]);
    } else {
        let len = n.note_length->0;
        let tone = n.note_tone->0;
        let lyric = n.lyric->0;
        lemma_decimal(len as nat);
        lemma_u32_round_trip(len);
        lemma_i32_round_trip(tone);
        lemma_pieces_no_space(decimal(len as nat));
        let a = head + seq![' '] + decimal(len as nat);
        let c = a + seq![' '] + signed_decimal(tone as int);
        assert(n.text() =~= c + seq![' '] + lyric);
        lemma_pieces_no_space(signed_decimal(tone as int));
        lemma_pieces_concat(head, decimal(len as nat));
        assert(pieces(head) =~= seq![m, decimal(b as nat)]);
        assert(pieces(a) =~= seq![m, decimal(b as nat), decimal(len as nat)]);
        lemma_pieces_concat(a, signed_decimal(tone as int));
        assert(pieces(c) =~= seq![m, decimal(b as nat), decimal(len as nat), signed_decimal(tone as int)]);
        lemma_pieces_concat(c, lyric);
        let ps = pieces(n.text());
        assert(ps =~= pieces(c) + pieces(lyric));
        assert(ps.skip(4) =~= pieces(lyric));
        lemma_join_pieces(lyric);
        assert(ps[0] == m);
        assert(ps[1] == decimal(b as nat));
        assert(ps[2] == decimal(len as nat));
        assert(ps[3] == signed_decimal(tone as int));
    }
}

/// A tempo that a document can hold: `+`, `-` or no sign, digits, and an
/// exponent that reads.
pub open spec fn bpm_valid(b: BpmView) -> bool {
    &&& (b.sign is None || b.sign == Some('+') || b.sign == Some('-'))
    &&& all_digits(b.whole)
    &&& all_digits(b.fraction)
    &&& b.whole.len() + b.fraction.len() > 0
    &&& exponent_ok(b.exponent)
}

/// The digits of a tempo with the separator as written.
pub open spec fn mantissa_text(b: BpmView) -> Seq<char> {
    if b.fraction.len() == 0 {
        b.whole
    } else {
        b.whole + seq![','] + b.fraction
    }
}

proof fn lemma_mantissa_text(b: BpmView)
    requires
        bpm_valid(b),
    ensures
        mantissa_of(mantissa_text(b)) == Some((b.whole, b.fraction)),
        mantissa_text(b).len() > 0,
        forall|j: int| 0 <= j < mantissa_text(b).len() ==> is_digit(#[trigger] mantissa_text(b)[j])
            || mantissa_text(b)[j] == ',',
{
    let t = mantissa_text(b);
    assert forall|j: int| 0 <= j < t.len() implies is_digit(#[trigger] t[j]) || t[j] == ',' by {
        if j < b.whole.len() {
            assert(t[j] == b.whole[j]);
        } else if j > b.whole.len() {
            assert(t[j] == b.fraction[j - b.whole.len() - 1]);
        }
    }
    assert forall|j: int| 0 <= j < b.whole.len() implies #[trigger] t[j] != '.' && t[j] != ',' by {
        assert(t[j] == b.whole[j]);
        assert(is_digit(b.whole[j]));
    }
    crate::song::lemma_first_of_is(t, '.', ',', b.whole.len() as int);
    assert(t.take(b.whole.len() as int) =~= b.whole);
    if b.fraction.len() > 0 {
        assert(t.skip(b.whole.len() as int + 1) =~= b.fraction);
    }
}

proof fn lemma_exponent_chars(x: Seq<char>)
    requires
        exponent_ok(x),
    ensures
        forall|j: int| 0 <= j < x.len() ==> #[trigger] x[j] != '\n' && x[j] != '\r',
        x.len() > 0 ==> is_digit(x.last()),
{
    if x.len() > 0 {
        let y = x.drop_first();
        let from: int = if y.len() > 0 && (y[0] == '+' || y[0] == '-') {
            2
        } else {
            1
        };
        let d = if y.len() > 0 && (y[0] == '+' || y[0] == '-') {
            y.drop_first()
        } else {
            y
        };
        assert(d =~= x.skip(from));
        assert forall|j: int| 0 <= j < x.len() implies #[trigger] x[j] != '\n' && x[j] != '\r' by {
            if j >= from {
                assert(x[j] == d[j - from]);
                assert(is_digit(d[j - from]));
            } else if j == 1 {
                assert(x[1] == y[0]);
            }
        }
        assert(x.last() == d[d.len() - 1]);
    }
}

/// A tempo printed as a document writes it reads back as itself.
pub proof fn lemma_bpm_round_trip(b: BpmView)
    requires
        bpm_valid(b),
    ensures
        bpm_of(bpm_text(b)) == Some(b),
{
    let mt = mantissa_text(b);
    let x = b.exponent;
    let t = bpm_text(b);
    let rest = mt + x;
    lemma_mantissa_text(b);
    assert(t =~= sign_text(b.sign) + rest);
    let signed = t.len() > 0 && (t[0] == '+' || t[0] == '-');
    if b.sign is Some {
        assert(t[0] == b.sign->0);
        assert(t.drop_first() =~= rest);
    } else {
        assert(t =~= rest);
        assert(t[0] == mt[0]);
        assert(is_digit(mt[0]) || mt[0] == ',');
    }
    assert forall|j: int| 0 <= j < mt.len() implies #[trigger] rest[j] != 'e' && rest[j] != 'E' by {
        assert(rest[j] == mt[j]);
        assert(is_digit(mt[j]) || mt[j] == ',');
    }
    if x.len() > 0 {
        assert(rest[mt.len() as int] == x[0]);
    }
    crate::song::lemma_first_of_is(rest, 'e', 'E', mt.len() as int);
    assert(rest.take(mt.len() as int) =~= mt);
    assert(rest.skip(mt.len() as int) =~= x);
}

/// No line end in `v`, and no `'\r'` at its end: a value that fits on one line.
pub open spec fn one_line(v: Seq<char>) -> bool {
    (forall|i: int| 0 <= i < v.len() ==> v[i] != '\n') && !(v.len() > 0 && v.last() == '\r')
}

pub open spec fn opt_one_line(o: Option<String>) -> bool {
    match o {
        Some(v) => one_line(v@),
        None => true,
    }
}

/// A song that its document can hold: every note carries what its type asks
/// for, every text fits on one line, and the tempo is digits.
pub open spec fn writable(song: Song) -> bool {
    &&& song.wf()
    &&& forall|i: int| 0 <= i < song.notes@.len() ==> match (#[trigger] song.notes@[i]).lyric {
        Some(l) => one_line(l@),
        None => true,
    }
    &&& one_line(song.title@)
    &&& opt_one_line(song.artist)
    &&& opt_one_line(song.mp3)
    &&& opt_one_line(song.video)
    &&& opt_one_line(song.edition)
    &&& opt_one_line(song.genre)
    &&& opt_one_line(song.year)
    &&& opt_one_line(song.language)
    &&& bpm_valid(song.bpm@)
}

/// A header tag: `#`, then a name without `:` or line end, then `:`.
pub open spec fn is_tag(t: Seq<char>) -> bool {
    &&& t.len() > 1
    &&& t[0] == '#'
    &&& t.last() == ':'
    &&& forall|i: int| 0 <= i < t.len() - 1 ==> t[i] != ':' && t[i] != '\n'
}

proof fn lemma_tag_prefix(a: Seq<char>, v: Seq<char>, b: Seq<char>)
    requires
        is_tag(a),
        is_tag(b),
    ensures
        starts_with(a + v, b) <==> a == b,
        (a + v).skip(a.len() as int) == v,
{
    assert((a + v).skip(a.len() as int) =~= v);
    if a == b {
        assert((a + v).take(b.len() as int) =~= b);
    }
    if starts_with(a + v, b) {
        let n = b.len() as int;
        assert((a + v).take(n)[n - 1] == b[n - 1]);
        if n < a.len() {
            assert((a + v)[n - 1] == a[n - 1]);
        } else if n > a.len() {
            assert((a + v).take(n)[a.len() - 1] == b[a.len() - 1]);
            assert((a + v)[a.len() - 1] == a[a.len() - 1]);
        } else {
            assert forall|i: int| 0 <= i < n implies a[i] == b[i] by {
                assert((a + v).take(n)[i] == b[i]);
                assert((a + v)[i] == a[i]);
            }
            assert(a =~= b);
        }
    }
}

proof fn lemma_tags()
    ensures
        is_tag("#ARTIST:"@), is_tag("#TITLE:"@), is_tag("#MP3:"@), is_tag("#VIDEO:"@),
        is_tag("#EDITION:"@), is_tag("#GENRE:"@), is_tag("#YEAR:"@), is_tag("#LANGUAGE:"@),
        is_tag("#BPM:"@), is_tag("#GAP:"@), is_tag("#VIDEOGAP:"@), is_tag("#RELATIVE:"@),
        "#ARTIST:"@[1] == 'A', "#TITLE:"@[1] == 'T', "#MP3:"@[1] == 'M',
        "#VIDEO:"@[1] == 'V', "#EDITION:"@[1] == 'E', "#GENRE:"@[1] == 'G',
        "#YEAR:"@[1] == 'Y', "#LANGUAGE:"@[1] == 'L', "#BPM:"@[1] == 'B',
        "#GAP:"@[1] == 'G', "#VIDEOGAP:"@[1] == 'V', "#RELATIVE:"@[1] == 'R',
        "#GENRE:"@[2] == 'E', "#GAP:"@[2] == 'A', "#VIDEO:"@.len() == 7,
        "#VIDEOGAP:"@.len() == 10,
{
    reveal_strlit("#ARTIST:");
    reveal_strlit("#TITLE:");
    reveal_strlit("#MP3:");
    reveal_strlit("#VIDEO:");
    reveal_strlit("#EDITION:");
    reveal_strlit("#GENRE:");
    reveal_strlit("#YEAR:");
    reveal_strlit("#LANGUAGE:");
    reveal_strlit("#BPM:");
    reveal_strlit("#GAP:");
    reveal_strlit("#VIDEOGAP:");
    reveal_strlit("#RELATIVE:");
    assert("#ARTIST:"@ =~= seq!['#', 'A', 'R', 'T', 'I', 'S', 'T', ':']);
    assert("#TITLE:"@ =~= seq!['#', 'T', 'I', 'T', 'L', 'E', ':']);
    assert("#MP3:"@ =~= seq!['#', 'M', 'P', '3', ':']);
    assert("#VIDEO:"@ =~= seq!['#', 'V', 'I', 'D', 'E', 'O', ':']);
    assert("#EDITION:"@ =~= seq!['#', 'E', 'D', 'I', 'T', 'I', 'O', 'N', ':']);
    assert("#GENRE:"@ =~= seq!['#', 'G', 'E', 'N', 'R', 'E', ':']);
    assert("#YEAR:"@ =~= seq!['#', 'Y', 'E', 'A', 'R', ':']);
    assert("#LANGUAGE:"@ =~= seq!['#', 'L', 'A', 'N', 'G', 'U', 'A', 'G', 'E', ':']);
    assert("#BPM:"@ =~= seq!['#', 'B', 'P', 'M', ':']);
    assert("#GAP:"@ =~= seq!['#', 'G', 'A', 'P', ':']);
    assert("#VIDEOGAP:"@ =~= seq!['#', 'V', 'I', 'D', 'E', 'O', 'G', 'A', 'P', ':']);
    assert("#RELATIVE:"@ =~= seq!['#', 'R', 'E', 'L', 'A', 'T', 'I', 'V', 'E', ':']);
}

/// The lines of a song's document, without their line ends.
pub open spec fn push_opt(ls: Seq<Seq<char>>, tag: Seq<char>, o: Option<Seq<char>>) -> Seq<
    Seq<char>,
> {
    match o {
        Some(v) => ls.push(tag + v),
        None => ls,
    }
}

pub open spec fn header_lines(song: Song) -> Seq<Seq<char>> {
    let l0 = push_opt(seq![], "#ARTIST:"@, opt_view(song.artist));
    let l1 = l0.push("#TITLE:"@ + song.title@);
    let l2 = push_opt(l1, "#MP3:"@, opt_view(song.mp3));
    let l3 = push_opt(l2, "#EDITION:"@, opt_view(song.edition));
    let l4 = push_opt(l3, "#GENRE:"@, opt_view(song.genre));
    let l5 = push_opt(l4, "#YEAR:"@, opt_view(song.year));
    let l6 = push_opt(l5, "#LANGUAGE:"@, opt_view(song.language));
    let l7 = l6.push("#BPM:"@ + bpm_text(song.bpm@));
    let l8 = l7.push("#GAP:"@ + decimal(song.gap as nat));
    let l9 = push_opt(l8, "#VIDEO:"@, opt_view(song.video));
    push_opt(
        l9,
        "#VIDEOGAP:"@,
        match song.video_gap {
            Some(g) => Some(decimal(g as nat)),
            None => None,
        },
    )
}

pub open spec fn note_lines(ns: Seq<NoteView>) -> Seq<Seq<char>> {
    ns.map_values(|n: NoteView| n.text())
}

pub open spec fn join_lines(ls: Seq<Seq<char>>) -> Seq<char>
    decreases ls.len(),
{
    if ls.len() == 0 {
        seq![]
    } else {
        join_lines(ls.drop_last()) + ls.last() + seq!['\n']
    }
}

proof fn lemma_join_push(ls: Seq<Seq<char>>, l: Seq<char>)
    ensures
        join_lines(ls.push(l)) == join_lines(ls) + l + seq!['\n'],
{
    assert(ls.push(l).drop_last() =~= ls);
}

proof fn lemma_join_opt(ls: Seq<Seq<char>>, tag: Seq<char>, o: Option<Seq<char>>)
    ensures
        join_lines(push_opt(ls, tag, o)) == join_lines(ls) + opt_line(tag, o),
{
    match o {
        Some(v) => {
            lemma_join_push(ls, tag + v);
            assert(join_lines(ls) + (tag + v) + seq!['\n'] =~= join_lines(ls) + opt_line(tag, o));
        },
        None => {
            assert(join_lines(ls) =~= join_lines(ls) + opt_line(tag, o));
        },
    }
}

proof fn lemma_join_notes(ls: Seq<Seq<char>>, ns: Seq<NoteView>)
    ensures
        join_lines(ls + note_lines(ns)) == join_lines(ls) + notes_text(ns),
    decreases ns.len(),
{
    if ns.len() == 0 {
        assert(ls + note_lines(ns) =~= ls);
        assert(join_lines(ls) + notes_text(ns) =~= join_lines(ls));
    } else {
        lemma_join_notes(ls, ns.drop_last());
        assert(ls + note_lines(ns) =~= (ls + note_lines(ns.drop_last())).push(ns.last().text()));
        lemma_join_push(ls + note_lines(ns.drop_last()), ns.last().text());
        assert(join_lines(ls) + notes_text(ns.drop_last()) + ns.last().text() + seq!['\n']
            =~= join_lines(ls) + notes_text(ns));
    }
}

pub open spec fn song_lines(song: Song) -> Seq<Seq<char>> {
    (header_lines(song) + note_lines(note_views(song.notes@))).push(seq!['E'])
}

proof fn lemma_song_text_lines(song: Song)
    ensures
        song_text(song) == join_lines(song_lines(song)),
{
    let l0 = push_opt(seq![], "#ARTIST:"@, opt_view(song.artist));
    let l1 = l0.push("#TITLE:"@ + song.title@);
    let l2 = push_opt(l1, "#MP3:"@, opt_view(song.mp3));
    let l3 = push_opt(l2, "#EDITION:"@, opt_view(song.edition));
    let l4 = push_opt(l3, "#GENRE:"@, opt_view(song.genre));
    let l5 = push_opt(l4, "#YEAR:"@, opt_view(song.year));
    let l6 = push_opt(l5, "#LANGUAGE:"@, opt_view(song.language));
    let l7 = l6.push("#BPM:"@ + bpm_text(song.bpm@));
    let l8 = l7.push("#GAP:"@ + decimal(song.gap as nat));
    let l9 = push_opt(l8, "#VIDEO:"@, opt_view(song.video));
    let vg = match song.video_gap {
        Some(g) => Some(decimal(g as nat)),
        None => None,
    };
    lemma_join_opt(seq![], "#ARTIST:"@, opt_view(song.artist));
    lemma_join_push(l0, "#TITLE:"@ + song.title@);
    lemma_join_opt(l1, "#MP3:"@, opt_view(song.mp3));
    lemma_join_opt(l2, "#EDITION:"@, opt_view(song.edition));
    lemma_join_opt(l3, "#GENRE:"@, opt_view(song.genre));
    lemma_join_opt(l4, "#YEAR:"@, opt_view(song.year));
    lemma_join_opt(l5, "#LANGUAGE:"@, opt_view(song.language));
    lemma_join_push(l6, "#BPM:"@ + bpm_text(song.bpm@));
    lemma_join_push(l7, "#GAP:"@ + decimal(song.gap as nat));
    lemma_join_opt(l8, "#VIDEO:"@, opt_view(song.video));
    lemma_join_opt(l9, "#VIDEOGAP:"@, vg);
    assert(join_lines(Seq::<Seq<char>>::empty()) =~= Seq::<char>::empty());
    assert(join_lines(l6) =~= song_text_meta(song));
    assert(join_lines(header_lines(song)) =~= song_text_meta(song) + song_text_timing(song));
    lemma_join_notes(header_lines(song), note_views(song.notes@));
    lemma_join_push(header_lines(song) + note_lines(note_views(song.notes@)), seq!['E']);
    assert(join_lines(song_lines(song)) =~= song_text(song));
}

proof fn lemma_acc_append(a: Seq<char>, l: Seq<char>)
    requires
        lines_acc(a).1.len() == 0,
        forall|i: int| 0 <= i < l.len() ==> l[i] != '\n',
    ensures
        lines_acc(a + l) == (lines_acc(a).0, l),
    decreases l.len(),
{
    if l.len() == 0 {
        assert(a + l =~= a);
        assert(lines_acc(a).1 =~= l);
    } else {
        lemma_acc_append(a, l.drop_last());
        assert((a + l).drop_last() =~= a + l.drop_last());
        assert(l.drop_last().push(l.last()) =~= l);
    }
}

proof fn lemma_lines_join(ls: Seq<Seq<char>>)
    requires
        forall|i: int| 0 <= i < ls.len() ==> one_line(#[trigger] ls[i]),
    ensures
        lines_acc(join_lines(ls)) == (ls, Seq::<char>::empty()),
        lines(join_lines(ls)) == ls,
    decreases ls.len(),
{
    if ls.len() == 0 {
        assert(lines_acc(join_lines(ls)).0 =~= ls);
    } else {
        let p = ls.drop_last();
        let l = ls.last();
        assert forall|i: int| 0 <= i < p.len() implies one_line(#[trigger] p[i]) by {
            assert(p[i] == ls[i]);
        }
        lemma_lines_join(p);
        assert(one_line(ls[ls.len() - 1]));
        lemma_acc_append(join_lines(p), l);
        assert((join_lines(p) + l + seq!['\n']).drop_last() =~= join_lines(p) + l);
        assert(strip_cr(l) == l);
        assert(p.push(l) =~= ls);
    }
}

proof fn lemma_trim_keeps(l: Seq<char>)
    requires
        l.len() > 0,
        !is_ws(l[0]),
    ensures
        lead_ws(l) == 0,
        trim_start(l) == l,
    decreases l.len(),
{
    if l.len() > 1 {
        assert(l.drop_last()[0] == l[0]);
        lemma_trim_keeps(l.drop_last());
        assert(lead_ws(l.drop_last()) == 0);
        assert(lead_ws(l) == 0);
    } else {
        assert(l.last() == l[0]);
        assert(!is_ws(l.last()));
        assert(l.drop_last() =~= Seq::<char>::empty());
        assert(lead_ws(l.drop_last()) == 0);
        assert(lead_ws(l) == 0);
    }
    assert(l.skip(0) =~= l);
}

/// Every line that holds a note, in the order of `ns`, read back.
proof fn lemma_notes_back(hs: Seq<Seq<char>>, ns: Seq<NoteView>)
    requires
        forall|i: int| 0 <= i < hs.len() ==> (#[trigger] hs[i]).len() > 0 && hs[i][0] == '#',
        forall|i: int| 0 <= i < ns.len() ==> (#[trigger] ns[i]).wf() && 0 <= ns[i].beat_number
            <= u32::MAX,
    ensures
        notes_of(hs + note_lines(ns)) == ns,
    decreases hs.len() + ns.len(),
{
    if ns.len() == 0 {
        assert(hs + note_lines(ns) =~= hs);
        if hs.len() > 0 {
            assert forall|i: int| 0 <= i < hs.drop_last().len() implies (#[trigger] hs.drop_last()[i]).len() > 0
                && hs.drop_last()[i][0] == '#' by {
                assert(hs.drop_last()[i] == hs[i]);
            }
            lemma_notes_back(hs.drop_last(), ns);
            assert(hs.drop_last() + note_lines(ns) =~= hs.drop_last());
            assert(hs[hs.len() - 1] == hs.last());
        }
        assert(notes_of(hs) =~= ns);
    } else {
        let p = ns.drop_last();
        assert forall|i: int| 0 <= i < p.len() implies (#[trigger] p[i]).wf() && 0
            <= p[i].beat_number <= u32::MAX by {
            assert(p[i] == ns[i]);
        }
        lemma_notes_back(hs, p);
        let all = hs + note_lines(ns);
        assert(all.drop_last() =~= hs + note_lines(p));
        assert(all.last() == ns.last().text());
        assert(ns[ns.len() - 1] == ns.last());
        lemma_note_round_trip(ns.last());
        assert(ns.last().text()[0] == marker(ns.last().note_type));
        assert(p.push(ns.last()) =~= ns);
    }
}

/// No header tag begins a line of `ms`: the lines before decide.
proof fn lemma_header_skip(hs: Seq<Seq<char>>, ms: Seq<Seq<char>>, tag: Seq<char>)
    requires
        is_tag(tag),
        forall|i: int| 0 <= i < ms.len() ==> (#[trigger] ms[i]).len() > 0 && ms[i][0] != '#',
    ensures
        header_value(hs + ms, tag) == header_value(hs, tag),
    decreases ms.len(),
{
    if ms.len() == 0 {
        assert(hs + ms =~= hs);
    } else {
        let p = ms.drop_last();
        assert forall|i: int| 0 <= i < p.len() implies (#[trigger] p[i]).len() > 0 && p[i][0]
            != '#' by {
            assert(p[i] == ms[i]);
        }
        lemma_header_skip(hs, p, tag);
        assert((hs + ms).drop_last() =~= hs + p);
        assert((hs + ms).last() == ms[ms.len() - 1]);
        assert(ms.last()[0] != '#');
        if starts_with(ms.last(), tag) {
            assert(ms.last().take(tag.len() as int)[0] == tag[0]);
        }
    }
}

proof fn lemma_header_push(ls: Seq<Seq<char>>, l: Seq<char>, tag: Seq<char>)
    ensures
        header_value(ls.push(l), tag) == (if header_value(ls, tag) is Some {
            header_value(ls, tag)
        } else if starts_with(l, tag) {
            Some(l.skip(tag.len() as int))
        } else {
            None
        }),
{
    assert(ls.push(l).drop_last() =~= ls);
}

proof fn lemma_header_opt(ls: Seq<Seq<char>>, a: Seq<char>, o: Option<Seq<char>>, tag: Seq<char>)
    requires
        is_tag(a),
        is_tag(tag),
    ensures
        header_value(push_opt(ls, a, o), tag) == (if header_value(ls, tag) is Some {
            header_value(ls, tag)
        } else if a == tag {
            o
        } else {
            None
        }),
{
    match o {
        Some(v) => {
            lemma_header_push(ls, a + v, tag);
            lemma_tag_prefix(a, v, tag);
        },
        None => {
            if header_value(ls, tag) is None && a == tag {
            }
        },
    }
}

pub open spec fn header_line_ok(l: Seq<char>) -> bool {
    l.len() > 0 && l[0] == '#' && one_line(l)
}

proof fn lemma_digits_one_line(d: Seq<char>)
    requires
        all_digits(d),
    ensures
        one_line(d),
        forall|i: int| 0 <= i < d.len() ==> d[i] != '\n' && d[i] != '\r',
{
    assert forall|i: int| 0 <= i < d.len() implies d[i] != '\n' && d[i] != '\r' by {
        assert(is_digit(d[i]));
    }
    if d.len() > 0 {
        assert(is_digit(d[d.len() - 1]));
    }
}

proof fn lemma_tag_line_ok(tag: Seq<char>, v: Seq<char>)
    requires
        is_tag(tag),
        one_line(v),
    ensures
        header_line_ok(tag + v),
{
    let l = tag + v;
    assert forall|i: int| 0 <= i < l.len() implies l[i] != '\n' by {
        if i < tag.len() - 1 {
            assert(l[i] == tag[i]);
        } else if i == tag.len() - 1 {
            assert(l[i] == tag.last());
        } else {
            assert(l[i] == v[i - tag.len()]);
        }
    }
    if v.len() > 0 {
        assert(l.last() == v.last());
    } else {
        assert(l.last() == tag.last());
    }
}

proof fn lemma_opt_ok(ls: Seq<Seq<char>>, tag: Seq<char>, o: Option<Seq<char>>)
    requires
        forall|i: int| 0 <= i < ls.len() ==> header_line_ok(#[trigger] ls[i]),
        is_tag(tag),
        o matches Some(v) ==> one_line(v),
    ensures
        forall|i: int|
            0 <= i < push_opt(ls, tag, o).len() ==> header_line_ok(#[trigger] push_opt(ls, tag, o)[i]),
{
    match o {
        Some(v) => {
            lemma_tag_line_ok(tag, v);
            assert forall|i: int| 0 <= i < ls.push(tag + v).len() implies header_line_ok(
                #[trigger] ls.push(tag + v)[i],
            ) by {
                if i < ls.len() {
                    assert(ls.push(tag + v)[i] == ls[i]);
                }
            }
        },
        None => {},
    }
}

proof fn lemma_push_ok(ls: Seq<Seq<char>>, tag: Seq<char>, v: Seq<char>)
    requires
        forall|i: int| 0 <= i < ls.len() ==> header_line_ok(#[trigger] ls[i]),
        is_tag(tag),
        one_line(v),
    ensures
        forall|i: int| 0 <= i < ls.push(tag + v).len() ==> header_line_ok(#[trigger] ls.push(tag + v)[i]),
{
    lemma_opt_ok(ls, tag, Some(v));
}

proof fn lemma_bpm_one_line(b: BpmView)
    requires
        bpm_valid(b),
    ensures
        one_line(bpm_text(b)),
{
    let mt = mantissa_text(b);
    let x = b.exponent;
    let t = bpm_text(b);
    lemma_mantissa_text(b);
    lemma_exponent_chars(x);
    let st = sign_text(b.sign);
    assert(t =~= st + mt + x);
    assert forall|i: int| 0 <= i < t.len() implies t[i] != '\n' by {
        if i < st.len() {
            assert(t[i] == st[i]);
        } else if i < st.len() + mt.len() {
            assert(t[i] == mt[i - st.len()]);
            assert(is_digit(mt[i - st.len()]) || mt[i - st.len()] == ',');
        } else {
            assert(t[i] == x[i - st.len() - mt.len()]);
        }
    }
    if x.len() > 0 {
        assert(t.last() == x.last());
    } else {
        assert(t.last() == mt[mt.len() - 1]);
        assert(is_digit(mt[mt.len() - 1]) || mt[mt.len() - 1] == ',');
    }
}

/// The header lines that a song is written with, as the lookup sees them.
pub open spec fn header_of(song: Song, tag: Seq<char>) -> Option<Seq<char>> {
    if tag == "#ARTIST:"@ {
        opt_view(song.artist)
    } else if tag == "#TITLE:"@ {
        Some(song.title@)
    } else if tag == "#MP3:"@ {
        opt_view(song.mp3)
    } else if tag == "#EDITION:"@ {
        opt_view(song.edition)
    } else if tag == "#GENRE:"@ {
        opt_view(song.genre)
    } else if tag == "#YEAR:"@ {
        opt_view(song.year)
    } else if tag == "#LANGUAGE:"@ {
        opt_view(song.language)
    } else if tag == "#BPM:"@ {
        Some(bpm_text(song.bpm@))
    } else if tag == "#GAP:"@ {
        Some(decimal(song.gap as nat))
    } else if tag == "#VIDEO:"@ {
        opt_view(song.video)
    } else if tag == "#VIDEOGAP:"@ {
        match song.video_gap {
            Some(g) => Some(decimal(g as nat)),
            None => None,
        }
    } else {
        None
    }
}

proof fn lemma_header_lines_ok(song: Song)
    requires
        writable(song),
    ensures
        forall|i: int|
            0 <= i < header_lines(song).len() ==> header_line_ok(#[trigger] header_lines(song)[i]),
{
    lemma_tags();
    let vg = match song.video_gap {
        Some(g) => Some(decimal(g as nat)),
        None => None,
    };
    let l0 = push_opt(seq![], "#ARTIST:"@, opt_view(song.artist));
    let l1 = l0.push("#TITLE:"@ + song.title@);
    let l2 = push_opt(l1, "#MP3:"@, opt_view(song.mp3));
    let l3 = push_opt(l2, "#EDITION:"@, opt_view(song.edition));
    let l4 = push_opt(l3, "#GENRE:"@, opt_view(song.genre));
    let l5 = push_opt(l4, "#YEAR:"@, opt_view(song.year));
    let l6 = push_opt(l5, "#LANGUAGE:"@, opt_view(song.language));
    let l7 = l6.push("#BPM:"@ + bpm_text(song.bpm@));
    let l8 = l7.push("#GAP:"@ + decimal(song.gap as nat));
    let l9 = push_opt(l8, "#VIDEO:"@, opt_view(song.video));
    lemma_decimal(song.gap as nat);
    lemma_digits_one_line(decimal(song.gap as nat));
    lemma_bpm_one_line(song.bpm@);
    if let Some(g) = song.video_gap {
        lemma_decimal(g as nat);
        lemma_digits_one_line(decimal(g as nat));
    }
    lemma_opt_ok(seq![], "#ARTIST:"@, opt_view(song.artist));
    lemma_push_ok(l0, "#TITLE:"@, song.title@);
    lemma_opt_ok(l1, "#MP3:"@, opt_view(song.mp3));
    lemma_opt_ok(l2, "#EDITION:"@, opt_view(song.edition));
    lemma_opt_ok(l3, "#GENRE:"@, opt_view(song.genre));
    lemma_opt_ok(l4, "#YEAR:"@, opt_view(song.year));
    lemma_opt_ok(l5, "#LANGUAGE:"@, opt_view(song.language));
    lemma_push_ok(l6, "#BPM:"@, bpm_text(song.bpm@));
    lemma_push_ok(l7, "#GAP:"@, decimal(song.gap as nat));
    lemma_opt_ok(l8, "#VIDEO:"@, opt_view(song.video));
    lemma_opt_ok(l9, "#VIDEOGAP:"@, vg);
}

#[verifier::rlimit(60)]
proof fn lemma_header_values(song: Song, tag: Seq<char>)
    requires
        is_tag(tag),
    ensures
        header_value(header_lines(song), tag) == header_of(song, tag),
{
    lemma_tags();
    let vg = match song.video_gap {
        Some(g) => Some(decimal(g as nat)),
        None => None,
    };
    let l0 = push_opt(seq![], "#ARTIST:"@, opt_view(song.artist));
    let l1 = l0.push("#TITLE:"@ + song.title@);
    let l2 = push_opt(l1, "#MP3:"@, opt_view(song.mp3));
    let l3 = push_opt(l2, "#EDITION:"@, opt_view(song.edition));
    let l4 = push_opt(l3, "#GENRE:"@, opt_view(song.genre));
    let l5 = push_opt(l4, "#YEAR:"@, opt_view(song.year));
    let l6 = push_opt(l5, "#LANGUAGE:"@, opt_view(song.language));
    let l7 = l6.push("#BPM:"@ + bpm_text(song.bpm@));
    let l8 = l7.push("#GAP:"@ + decimal(song.gap as nat));
    let l9 = push_opt(l8, "#VIDEO:"@, opt_view(song.video));
    lemma_header_opt(seq![], "#ARTIST:"@, opt_view(song.artist), tag);
    lemma_header_push(l0, "#TITLE:"@ + song.title@, tag);
    lemma_tag_prefix("#TITLE:"@, song.title@, tag);
    lemma_header_opt(l1, "#MP3:"@, opt_view(song.mp3), tag);
    lemma_header_opt(l2, "#EDITION:"@, opt_view(song.edition), tag);
    lemma_header_opt(l3, "#GENRE:"@, opt_view(song.genre), tag);
    lemma_header_opt(l4, "#YEAR:"@, opt_view(song.year), tag);
    lemma_header_opt(l5, "#LANGUAGE:"@, opt_view(song.language), tag);
    lemma_header_push(l6, "#BPM:"@ + bpm_text(song.bpm@), tag);
    lemma_tag_prefix("#BPM:"@, bpm_text(song.bpm@), tag);
    lemma_header_push(l7, "#GAP:"@ + decimal(song.gap as nat), tag);
    lemma_tag_prefix("#GAP:"@, decimal(song.gap as nat), tag);
    lemma_header_opt(l8, "#VIDEO:"@, opt_view(song.video), tag);
    lemma_header_opt(l9, "#VIDEOGAP:"@, vg, tag);
    assert(header_value(Seq::<Seq<char>>::empty(), tag) is None);
}

proof fn lemma_no_line_end_concat(a: Seq<char>, b: Seq<char>)
    requires
        forall|i: int| 0 <= i < a.len() ==> a[i] != '\n',
        forall|i: int| 0 <= i < b.len() ==> b[i] != '\n',
    ensures
        forall|i: int| 0 <= i < (a + b).len() ==> (a + b)[i] != '\n',
{
    assert forall|i: int| 0 <= i < (a + b).len() implies (a + b)[i] != '\n' by {
        if i < a.len() {
            assert((a + b)[i] == a[i]);
        } else {
            assert((a + b)[i] == b[i - a.len()]);
        }
    }
}

proof fn lemma_note_line_ok(n: NoteView)
    requires
        n.wf(),
        0 <= n.beat_number,
        n.lyric matches Some(l) ==> no_line_end(l),
    ensures
        no_line_end(n.text()),
        n.text().len() >= 3,
        (n.lyric matches Some(l) ==> one_line(l)) ==> one_line(n.text()),
        n.text().len() > 0,
        n.text()[0] != '#',
        n.text()[0] == marker(n.note_type),
        !is_ws(n.text()[0]),
{
    let m = seq![marker(n.note_type), ' '];
    let d = decimal(n.beat_number as nat);
    lemma_decimal(n.beat_number as nat);
    lemma_digits_one_line(d);
    lemma_no_line_end_concat(m, d);
    let head = m + d;
    assert(head[0] == marker(n.note_type));
    if n.note_type == NoteType::LineBreak {
        assert(head.last() == d.last());
    } else {
        let len = n.note_length->0;
        let tone = n.note_tone->0;
        let lyric = n.lyric->0;
        let dl = decimal(len as nat);
        lemma_decimal(len as nat);
        lemma_digits_one_line(dl);
        let st = signed_decimal(tone as int);
        if tone < 0 {
            lemma_decimal((0 - tone) as nat);
            lemma_digits_one_line(decimal((0 - tone) as nat));
            lemma_no_line_end_concat(seq!['-'], decimal((0 - tone) as nat));
        } else {
            lemma_decimal(tone as nat);
            lemma_digits_one_line(decimal(tone as nat));
        }
        let sp = seq![' '];
        lemma_no_line_end_concat(head, sp);
        lemma_no_line_end_concat(head + sp, dl);
        lemma_no_line_end_concat(head + sp + dl, sp);
        lemma_no_line_end_concat(head + sp + dl + sp, st);
        lemma_no_line_end_concat(head + sp + dl + sp + st, sp);
        lemma_no_line_end_concat(head + sp + dl + sp + st + sp, lyric);
        let t = head + sp + dl + sp + st + sp + lyric;
        assert(t =~= n.text());
        assert(t[0] == head[0]);
        if lyric.len() > 0 {
            assert(t.last() == lyric.last());
        } else {
            assert(t.last() == ' ');
        }
    }
}

/// No line end in `v`.
pub open spec fn no_line_end(v: Seq<char>) -> bool {
    forall|i: int| 0 <= i < v.len() ==> v[i] != '\n'
}

pub open spec fn opt_no_line_end(o: Option<String>) -> bool {
    match o {
        Some(v) => no_line_end(v@),
        None => true,
    }
}

/// A song that `to_string` can write, whose texts hold no line end.
pub open spec fn printable(song: Song) -> bool {
    &&& song.wf()
    &&& forall|i: int| 0 <= i < song.notes@.len() ==> match (#[trigger] song.notes@[i]).lyric {
        Some(l) => no_line_end(l@),
        None => true,
    }
    &&& no_line_end(song.title@)
    &&& opt_no_line_end(song.artist)
    &&& opt_no_line_end(song.mp3)
    &&& opt_no_line_end(song.video)
    &&& opt_no_line_end(song.edition)
    &&& opt_no_line_end(song.genre)
    &&& opt_no_line_end(song.year)
    &&& opt_no_line_end(song.language)
    &&& no_line_end(bpm_text(song.bpm@))
}

/// A line that, once read, begins with no `#R`.
pub open spec fn unmarked_line(l: Seq<char>) -> bool {
    &&& no_line_end(l)
    &&& l.len() > 0
    &&& !is_ws(l[0])
    &&& (l.len() >= 3 || l.last() != '\r')
    &&& (l[0] == '#' ==> l.len() >= 2 && l[1] != 'R')
}

proof fn lemma_unmarked_push(ls: Seq<Seq<char>>, tag: Seq<char>, o: Option<Seq<char>>)
    requires
        forall|i: int| 0 <= i < ls.len() ==> unmarked_line(#[trigger] ls[i]),
        is_tag(tag),
        tag[1] != 'R',
        o matches Some(v) ==> no_line_end(v),
    ensures
        forall|i: int|
            0 <= i < push_opt(ls, tag, o).len() ==> unmarked_line(#[trigger] push_opt(ls, tag, o)[i]),
{
    if let Some(v) = o {
        let l = tag + v;
        lemma_no_line_end_concat(tag, v);
        assert forall|i: int| 0 <= i < tag.len() implies tag[i] != '\n' by {
            if i == tag.len() - 1 {
                assert(tag[i] == tag.last());
            }
        }
        assert(l[0] == tag[0] && l[1] == tag[1]);
        if v.len() == 0 {
            assert(l.last() == tag.last());
        }
        assert forall|i: int| 0 <= i < ls.push(l).len() implies unmarked_line(
            #[trigger] ls.push(l)[i],
        ) by {
            if i < ls.len() {
                assert(ls.push(l)[i] == ls[i]);
            }
        }
    }
}

proof fn lemma_header_lines_unmarked(song: Song)
    requires
        printable(song),
    ensures
        forall|i: int|
            0 <= i < header_lines(song).len() ==> unmarked_line(#[trigger] header_lines(song)[i]),
{
    lemma_tags();
    let vg = match song.video_gap {
        Some(g) => Some(decimal(g as nat)),
        None => None,
    };
    let l0 = push_opt(seq![], "#ARTIST:"@, opt_view(song.artist));
    let l1 = l0.push("#TITLE:"@ + song.title@);
    let l2 = push_opt(l1, "#MP3:"@, opt_view(song.mp3));
    let l3 = push_opt(l2, "#EDITION:"@, opt_view(song.edition));
    let l4 = push_opt(l3, "#GENRE:"@, opt_view(song.genre));
    let l5 = push_opt(l4, "#YEAR:"@, opt_view(song.year));
    let l6 = push_opt(l5, "#LANGUAGE:"@, opt_view(song.language));
    let l7 = l6.push("#BPM:"@ + bpm_text(song.bpm@));
    let l8 = l7.push("#GAP:"@ + decimal(song.gap as nat));
    let l9 = push_opt(l8, "#VIDEO:"@, opt_view(song.video));
    lemma_decimal(song.gap as nat);
    lemma_digits_one_line(decimal(song.gap as nat));
    if let Some(g) = song.video_gap {
        lemma_decimal(g as nat);
        lemma_digits_one_line(decimal(g as nat));
    }
    lemma_unmarked_push(seq![], "#ARTIST:"@, opt_view(song.artist));
    lemma_unmarked_push(l0, "#TITLE:"@, Some(song.title@));
    lemma_unmarked_push(l1, "#MP3:"@, opt_view(song.mp3));
    lemma_unmarked_push(l2, "#EDITION:"@, opt_view(song.edition));
    lemma_unmarked_push(l3, "#GENRE:"@, opt_view(song.genre));
    lemma_unmarked_push(l4, "#YEAR:"@, opt_view(song.year));
    lemma_unmarked_push(l5, "#LANGUAGE:"@, opt_view(song.language));
    lemma_unmarked_push(l6, "#BPM:"@, Some(bpm_text(song.bpm@)));
    lemma_unmarked_push(l7, "#GAP:"@, Some(decimal(song.gap as nat)));
    lemma_unmarked_push(l8, "#VIDEO:"@, opt_view(song.video));
    lemma_unmarked_push(l9, "#VIDEOGAP:"@, vg);
}

proof fn lemma_lines_join_cr(ls: Seq<Seq<char>>)
    requires
        forall|i: int| 0 <= i < ls.len() ==> no_line_end(#[trigger] ls[i]),
    ensures
        lines_acc(join_lines(ls)) == (ls.map_values(|l: Seq<char>| strip_cr(l)), Seq::<char>::empty()),
        lines(join_lines(ls)) == ls.map_values(|l: Seq<char>| strip_cr(l)),
    decreases ls.len(),
{
    if ls.len() == 0 {
        assert(lines_acc(join_lines(ls)).0 =~= ls.map_values(|l: Seq<char>| strip_cr(l)));
    } else {
        let p = ls.drop_last();
        let l = ls.last();
        assert forall|i: int| 0 <= i < p.len() implies no_line_end(#[trigger] p[i]) by {
            assert(p[i] == ls[i]);
        }
        lemma_lines_join_cr(p);
        assert(no_line_end(ls[ls.len() - 1]));
        lemma_acc_append(join_lines(p), l);
        assert((join_lines(p) + l + seq!['\n']).drop_last() =~= join_lines(p) + l);
        assert(p.map_values(|l: Seq<char>| strip_cr(l)).push(strip_cr(l)) =~= ls.map_values(
            |l: Seq<char>| strip_cr(l),
        ));
    }
}

/// What `to_string` writes never marks its beats as relative: no line of the
/// document, as it is read, begins with `#RELATIVE`, so it reads back with
/// absolute beats.
pub proof fn lemma_printed_not_relative(song: Song)
    requires
        printable(song),
    ensures
        forall|i: int|
            0 <= i < doc_lines(song_text(song)).len() ==> !starts_with(
                #[trigger] doc_lines(song_text(song))[i],
                "#RELATIVE"@,
            ),
{
    let text = song_text(song);
    let hs = header_lines(song);
    let ns = note_views(song.notes@);
    let body = hs + note_lines(ns);
    let ls = song_lines(song);
    lemma_song_text_lines(song);
    lemma_header_lines_unmarked(song);
    assert forall|i: int| 0 <= i < ns.len() implies (#[trigger] ns[i]).wf() && 0
        <= ns[i].beat_number && (ns[i].lyric matches Some(l) ==> no_line_end(l)) by {
        assert(ns[i] == song.notes@[i]@);
    }
    assert forall|i: int| 0 <= i < ls.len() implies unmarked_line(#[trigger] ls[i]) by {
        if i < hs.len() {
            assert(ls[i] == hs[i]);
        } else if i < body.len() {
            assert(ls[i] == ns[i - hs.len()].text());
            lemma_note_line_ok(ns[i - hs.len()]);
        } else {
            assert(ls[i] == seq!['E']);
        }
    }
    lemma_lines_join_cr(ls);
    reveal_strlit("#RELATIVE");
    assert forall|i: int| 0 <= i < doc_lines(text).len() implies !starts_with(
        #[trigger] doc_lines(text)[i],
        "#RELATIVE"@,
    ) by {
        let l = ls[i];
        let c = strip_cr(l);
        assert(lines(text)[i] == c);
        assert(c[0] == l[0]);
        lemma_trim_keeps(c);
        assert(doc_lines(text)[i] == c);
        if starts_with(c, "#RELATIVE"@) {
            assert(c.take(9)[0] == '#');
            assert(c.take(9)[1] == 'R');
            assert(c[1] == l[1]);
        }
    }
}

proof fn lemma_song_lines_read(song: Song)
    requires
        writable(song),
    ensures
        doc_lines(song_text(song)) == song_lines(song),
        notes_of(body_lines(song_lines(song))) == note_views(song.notes@),
{
    let text = song_text(song);
    let hs = header_lines(song);
    let ns = note_views(song.notes@);
    let body = hs + note_lines(ns);
    let ls = song_lines(song);
    lemma_song_text_lines(song);
    lemma_header_lines_ok(song);
    assert forall|i: int| 0 <= i < ns.len() implies (#[trigger] ns[i]).wf() && 0
        <= ns[i].beat_number <= u32::MAX && (ns[i].lyric matches Some(l) ==> one_line(l)) by {
        assert(ns[i] == song.notes@[i]@);
    }
    assert forall|i: int| 0 <= i < ls.len() implies one_line(#[trigger] ls[i]) && ls[i].len()
        > 0 && !is_ws(ls[i][0]) by {
        if i < hs.len() {
            assert(ls[i] == hs[i]);
            assert(header_line_ok(hs[i]));
        } else if i < body.len() {
            assert(ls[i] == ns[i - hs.len()].text());
            lemma_note_line_ok(ns[i - hs.len()]);
        } else {
            assert(ls[i] == seq!['E']);
        }
    }
    lemma_lines_join(ls);
    assert forall|i: int| 0 <= i < ls.len() implies trim_start(#[trigger] ls[i]) == ls[i] by {
        lemma_trim_keeps(ls[i]);
    }
    assert(doc_lines(text) =~= ls);
    assert forall|i: int| 0 <= i < hs.len() implies (#[trigger] hs[i]).len() > 0 && hs[i][0]
        == '#' by {
        assert(header_line_ok(hs[i]));
    }
    lemma_notes_back(hs, ns);
    assert forall|j: int| 0 <= j < body.len() implies !is_end_line(#[trigger] ls[j]) by {
        if j < hs.len() {
            assert(ls[j] == hs[j]);
        } else {
            assert(ls[j] == ns[j - hs.len()].text());
            lemma_note_line_ok(ns[j - hs.len()]);
        }
    }
    crate::song::lemma_end_index_is(ls, body.len() as int);
    assert(body_lines(ls) =~= body);
}

proof fn lemma_song_headers_read(song: Song, tag: Seq<char>)
    requires
        writable(song),
        is_tag(tag),
    ensures
        header_value(song_lines(song), tag) == header_of(song, tag),
{
    let hs = header_lines(song);
    let ns = note_views(song.notes@);
    assert forall|i: int| 0 <= i < ns.len() implies (#[trigger] ns[i]).wf() && 0
        <= ns[i].beat_number && (ns[i].lyric matches Some(l) ==> one_line(l)) by {
        assert(ns[i] == song.notes@[i]@);
    }
    let ms = note_lines(ns).push(seq!['E']);
    assert forall|i: int| 0 <= i < ms.len() implies (#[trigger] ms[i]).len() > 0 && ms[i][0]
        != '#' by {
        if i < ns.len() {
            lemma_note_line_ok(ns[i]);
        }
    }
    assert(song_lines(song) =~= hs + ms);
    lemma_header_skip(hs, ms, tag);
    lemma_header_values(song, tag);
}

/// Writing a song and reading the document back gives a song that is
/// written as the same document: the reading succeeds, and whatever it
/// returns prints as the text it was read from.
pub proof fn lemma_document_round_trip(song: Song)
    requires
        writable(song),
    ensures
        doc_error(song_text(song)) is None,
        forall|t: Song| #[trigger] song_of_doc(song_text(song), t) ==> song_text(t) == song_text(song),
{
    lemma_tags();
    let text = song_text(song);
    let ls = song_lines(song);
    lemma_song_lines_read(song);
    lemma_song_headers_read(song, "#RELATIVE:"@);
    lemma_song_headers_read(song, "#TITLE:"@);
    lemma_song_headers_read(song, "#BPM:"@);
    lemma_song_headers_read(song, "#GAP:"@);
    lemma_song_headers_read(song, "#VIDEOGAP:"@);
    lemma_song_headers_read(song, "#ARTIST:"@);
    lemma_song_headers_read(song, "#MP3:"@);
    lemma_song_headers_read(song, "#VIDEO:"@);
    lemma_song_headers_read(song, "#EDITION:"@);
    lemma_song_headers_read(song, "#GENRE:"@);
    lemma_song_headers_read(song, "#YEAR:"@);
    lemma_song_headers_read(song, "#LANGUAGE:"@);
    lemma_bpm_round_trip(song.bpm@);
    lemma_u32_round_trip(song.gap);
    if let Some(g) = song.video_gap {
        lemma_u32_round_trip(g);
    }
    assert(doc_error(text) is None);
    assert forall|t: Song| #[trigger] song_of_doc(text, t) implies song_text(t) == text by {
        assert(t.bpm@ == song.bpm@);
        assert(t.gap == song.gap);
        assert(t.video_gap == song.video_gap);
        assert(song_text_meta(t) == song_text_meta(song));
        assert(song_text_timing(t) == song_text_timing(song));
    }
}

/// Every `'\r'` of `t` stands right before a `'\n'`.
pub open spec fn cr_before_lf(t: Seq<char>) -> bool {
    forall|j: int| 0 <= j < t.len() && #[trigger] t[j] == '\r' ==> j + 1 < t.len() && t[j + 1] == '\n'
}

/// `t` with each `"\r\n"` written as `"\n"`.
pub open spec fn unix_text(t: Seq<char>) -> Seq<char>
    decreases t.len(),
{
    if t.len() >= 2 && t.last() == '\n' && t[t.len() - 2] == '\r' {
        unix_text(t.take(t.len() - 2)).push('\n')
    } else if t.len() > 0 {
        unix_text(t.drop_last()).push(t.last())
    } else {
        t
    }
}

proof fn lemma_unix_lines_acc(t: Seq<char>)
    requires
        cr_before_lf(t),
    ensures
        lines_acc(unix_text(t)) == lines_acc(t),
        !(lines_acc(t).1.len() > 0 && lines_acc(t).1.last() == '\r'),
    decreases t.len(),
{
    let n = t.len() as int;
    if n >= 2 && t.last() == '\n' && t[n - 2] == '\r' {
        let p = t.take(n - 2);
        assert forall|j: int| 0 <= j < p.len() && #[trigger] p[j] == '\r' implies j + 1 < p.len()
            && p[j + 1] == '\n' by {
            assert(t[j] == '\r');
            assert(t[j + 1] == '\n');
            if j + 1 == p.len() {
                assert(t[n - 2] == '\r');
            }
        }
        lemma_unix_lines_acc(p);
        assert(unix_text(t).drop_last() =~= unix_text(p));
        assert(t.drop_last().drop_last() =~= p);
        assert(t.drop_last().last() == '\r');
        let (d, c) = lines_acc(p);
        assert(c.push('\r').drop_last() =~= c);
        assert(strip_cr(c.push('\r')) == c);
        assert(lines_acc(t.drop_last()) == (d, c.push('\r')));
        assert(lines_acc(t) == (d.push(c), Seq::<char>::empty()));
        assert(strip_cr(c) == c);
        assert(unix_text(t).last() == '\n');
        assert(lines_acc(unix_text(t)) == (d.push(strip_cr(c)), Seq::<char>::empty()));
    } else if n > 0 {
        let p = t.drop_last();
        if n >= 2 {
            assert(t[n - 2] != '\r' || t[n - 1] != '\n');
            if t[n - 2] == '\r' {
                assert(t[n - 1] == '\n');
            }
        }
        assert forall|j: int| 0 <= j < p.len() && #[trigger] p[j] == '\r' implies j + 1 < p.len()
            && p[j + 1] == '\n' by {
            assert(t[j] == '\r');
            assert(t[j + 1] == '\n');
        }
        lemma_unix_lines_acc(p);
        assert(unix_text(t).drop_last() =~= unix_text(p));
        assert(unix_text(t).last() == t.last());
        if t.last() == '\r' {
            assert(t[n - 1] == '\r');
        }
        if t.last() != '\n' {
            assert(lines_acc(t).1 == lines_acc(p).1.push(t.last()));
        }
    }
}

/// Writing `"\r\n"` line ends as `"\n"` changes none of the lines read.
pub proof fn lemma_unix_same_lines(t: Seq<char>)
    requires
        cr_before_lf(t),
    ensures
        doc_lines(unix_text(t)) == doc_lines(t),
{
    lemma_unix_lines_acc(t);
}

/// The round trip for documents with `"\r\n"` line ends: a text that, with
/// `"\r\n"` written as `"\n"`, is what a song is written as, reads as a song
/// that is written as that `"\n"` text.
pub proof fn lemma_document_round_trip_crlf(song: Song, t: Seq<char>)
    requires
        writable(song),
        cr_before_lf(t),
        unix_text(t) == song_text(song),
    ensures
        doc_error(t) is None,
        forall|x: Song| #[trigger] song_of_doc(t, x) ==> song_text(x) == unix_text(t),
{
    lemma_unix_same_lines(t);
    lemma_document_round_trip(song);
    assert forall|x: Song| #[trigger] song_of_doc(t, x) implies song_text(x) == unix_text(t) by {
        assert(song_of_doc(song_text(song), x));
    }
}

} // verus!
