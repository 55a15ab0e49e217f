//! Notes of the lyric stream: one line each, parsed and printed.
use crate::text::{
    append_chars, i32_of, join_spaces, pieces, push_decimal, push_signed, signed_decimal,
    split_spaces, u32_of, views, decimal, parse_i32, parse_u32,
};
use vstd::prelude::*;

verus! {

/// Type of the note present.
#[derive(Debug, Clone, Copy, PartialEq, Eq, Structural)]
pub enum NoteType {
    Normal,
    Golden,
    Freestyle,
    LineBreak,
}

/// The note type that a marker token names: `:`, `*`, `F` or `-`.
pub open spec fn note_type_of(t: Seq<char>) -> Option<NoteType> {
    if t == seq![':'] {
        Some(NoteType::Normal)
    } else if t == seq!['*'] {
        Some(NoteType::Golden)
    } else if t == seq!['F'] {
        Some(NoteType::Freestyle)
    } else if t == seq!['-'] {
        Some(NoteType::LineBreak)
    } else {
        None
    }
}

/// The marker that stands for a note type.
pub open spec fn marker(t: NoteType) -> char {
    match t {
        NoteType::Normal => ':',
        NoteType::Golden => '*',
        NoteType::Freestyle => 'F',
        NoteType::LineBreak => '-',
    }
}

impl NoteType {
    /// Reads a marker token: `:`, `*`, `F` or `-`.
    pub fn parse(t: &str) -> (r: Option<NoteType>)
        ensures
            r == note_type_of(t@),
    {
        let c = crate::text::chars_of(t);
        NoteType::from_marker(&c)
    }

    /// Reads a marker token, given as characters.
    pub fn from_marker(t: &Vec<char>) -> (r: Option<NoteType>)
        ensures
            r == note_type_of(t@),
    {
        if t.len() != 1 {
            return None;
        }
        let c = t[0];
        if c == ':' {
            assert(t@ =~= seq![':']);
            Some(NoteType::Normal)
        } else if c == '*' {
            assert(t@ =~= seq!['*']);
            Some(NoteType::Golden)
        } else if c == 'F' {
            assert(t@ =~= seq!['F']);
            Some(NoteType::Freestyle)
        } else if c == '-' {
            assert(t@ =~= seq!['-']);
            Some(NoteType::LineBreak)
        } else {
            None
        }
    }

    /// The marker of this note type.
    pub fn marker(&self) -> (r: char)
        ensures
            r == marker(*self),
    {
        match self {
            NoteType::Normal => ':',
            NoteType::Golden => '*',
            NoteType::Freestyle => 'F',
            NoteType::LineBreak => '-',
        }
    }

    /// The marker as a string.
    pub fn to_string(&self) -> (r: String)
        ensures
            r@ == seq![marker(*self)],
    {
        let mut out: Vec<char> = Vec::new();
        out.push(self.marker());
        crate::text::string_of(&out)
    }
}

/// A token of a note line.
#[derive(Debug, Clone, Copy, PartialEq, Eq, Structural)]
pub enum NoteField {
    Beat,
    Length,
    Tone,
}

/// Why a note line does not read.
#[derive(Debug, Clone, PartialEq, Eq)]
pub enum NoteError {
    /// The first token is no note marker; it is given.
    UnknownNoteType(String),
    /// The line ends before this token.
    Malformed(NoteField),
    /// This token is no integer of its range.
    IntegerParse(NoteField),
}

/// What a note error holds, with the marker as characters.
pub enum NoteErrorView {
    UnknownNoteType(Seq<char>),
    Malformed(NoteField),
    IntegerParse(NoteField),
}

impl View for NoteError {
    type V = NoteErrorView;

    open spec fn view(&self) -> NoteErrorView {
        match self {
            NoteError::UnknownNoteType(m) => NoteErrorView::UnknownNoteType(m@),
            NoteError::Malformed(f) => NoteErrorView::Malformed(*f),
            NoteError::IntegerParse(f) => NoteErrorView::IntegerParse(*f),
        }
    }
}

/// Why the line `l` does not read as a note, if it does not: the tokens are
/// looked at in order.
pub open spec fn note_error_of(l: Seq<char>) -> Option<NoteErrorView> {
    let ps = pieces(l);
    match note_type_of(ps[0]) {
        None => Some(NoteErrorView::UnknownNoteType(ps[0])),
        Some(t) => if ps.len() < 2 {
            Some(NoteErrorView::Malformed(NoteField::Beat))
        } else if u32_of(ps[1]) is None {
            Some(NoteErrorView::IntegerParse(NoteField::Beat))
        } else if t == NoteType::LineBreak {
            None
        } else if ps.len() < 3 {
            Some(NoteErrorView::Malformed(NoteField::Length))
        } else if u32_of(ps[2]) is None {
            Some(NoteErrorView::IntegerParse(NoteField::Length))
        } else if ps.len() < 4 {
            Some(NoteErrorView::Malformed(NoteField::Tone))
        } else if i32_of(ps[3]) is None {
            Some(NoteErrorView::IntegerParse(NoteField::Tone))
        } else {
            None
        },
    }
}

/// Note information
#[derive(Debug, Clone)]
pub struct Note {
    pub note_type: NoteType,
    /// Number of beats after start of the song when this note happens
    pub beat_number: u32,
    /// Number of beats this note lasts
    pub note_length: Option<u32>,
    pub note_tone: Option<i32>,
    /// String content for this note
    pub lyric: Option<String>,
}

/// What a note holds, with its lyric as characters.
pub struct NoteView {
    pub note_type: NoteType,
    pub beat_number: int,
    pub note_length: Option<u32>,
    pub note_tone: Option<i32>,
    pub lyric: Option<Seq<char>>,
}

pub open spec fn opt_view(o: Option<String>) -> Option<Seq<char>> {
    match o {
        Some(s) => Some(s@),
        None => None,
    }
}

impl View for Note {
    type V = NoteView;

    open spec fn view(&self) -> NoteView {
        NoteView {
            note_type: self.note_type,
            beat_number: self.beat_number as int,
            note_length: self.note_length,
            note_tone: self.note_tone,
            lyric: opt_view(self.lyric),
        }
    }
}

impl NoteView {
    /// A line break carries a beat alone; a sung note carries length, tone and lyric.
    pub open spec fn wf(self) -> bool {
        if self.note_type == NoteType::LineBreak {
            self.note_length is None && self.note_tone is None && self.lyric is None
        } else {
            self.note_length is Some && self.note_tone is Some && self.lyric is Some
        }
    }

    /// The same note, `n` beats later.
    pub open spec fn shifted(self, n: int) -> NoteView {
        NoteView { beat_number: self.beat_number + n, ..self }
    }

    /// The note's line: marker and beat, and for a sung note length, tone and lyric.
    pub open spec fn text(self) -> Seq<char> {
        let head = seq![marker(self.note_type), ' '] + decimal(self.beat_number as nat);
        if self.note_type == NoteType::LineBreak {
            head
        } else {
            head + seq![' '] + decimal(self.note_length->0 as nat) + seq![' '] + signed_decimal(
                self.note_tone->0 as int,
            ) + seq![' '] + self.lyric->0
        }
    }
}

/// The note that a line describes: tokens between single spaces give the
/// marker, the beat and, unless it is a line break, the length, the tone and
/// the lyric (the rest, joined by spaces). `None` where a token is missing or
/// does not read.
pub open spec fn note_of_line(l: Seq<char>) -> Option<NoteView> {
    let ps = pieces(l);
    match note_type_of(ps[0]) {
        None => None,
        Some(t) => if ps.len() < 2 || u32_of(ps[1]) is None {
            None
        } else if t == NoteType::LineBreak {
            Some(
                NoteView {
                    note_type: t,
                    beat_number: u32_of(ps[1])->0 as int,
                    note_length: None,
                    note_tone: None,
                    lyric: None,
                },
            )
        } else if ps.len() < 4 || u32_of(ps[2]) is None || i32_of(ps[3]) is None {
            None
        } else {
            Some(
                NoteView {
                    note_type: t,
                    beat_number: u32_of(ps[1])->0 as int,
                    note_length: u32_of(ps[2]),
                    note_tone: i32_of(ps[3]),
                    lyric: Some(join_spaces(ps.skip(4))),
                },
            )
        },
    }
}

impl Note {
    /// Updates the offset if the note is LineBreak
    pub fn update_offset(&self) -> (r: Option<u32>)
        ensures
            r == (if self.note_type == NoteType::LineBreak {
                Some(self.beat_number)
            } else {
                None
            }),
    {
        if self.note_type == NoteType::LineBreak {
            Some(self.beat_number)
        } else {
            None
        }
    }

    /// Offsets the note by `n` beats.
    /// Used for relative lyrics
    pub fn offset(&mut self, n: u32)
        requires
            old(self).beat_number + n <= u32::MAX,
        ensures
            final(self)@ == old(self)@.shifted(n as int),
    {
        self.beat_number = self.beat_number + n;
    }

    /// Reads one note line.
    pub fn parse(line: &str) -> (r: Result<Note, NoteError>)
        ensures
            r matches Ok(n) ==> note_of_line(line@) == Some(n@),
            r is Err <==> note_of_line(line@) is None,
            r matches Err(e) ==> note_error_of(line@) == Some(e@),
    {
        let l = crate::text::chars_of(line);
        Note::from_line(&l)
    }

    /// Reads one note line, given as characters.
    pub fn from_line(l: &Vec<char>) -> (r: Result<Note, NoteError>)
        ensures
            r matches Ok(n) ==> note_of_line(l@) == Some(n@),
            r is Err <==> note_of_line(l@) is None,
            r matches Err(e) ==> note_error_of(l@) == Some(e@),
    {
        let ps = split_spaces(l);
        assert(views(ps@)[0] == ps@[0]@);
        let note_type = match NoteType::from_marker(&ps[0]) {
            Some(t) => t,
            None => return Err(NoteError::UnknownNoteType(crate::text::string_of(&ps[0]))),
        };
        if ps.len() < 2 {
            return Err(NoteError::Malformed(NoteField::Beat));
        }
        assert(views(ps@)[1] == ps@[1]@);
        let beat_number = match parse_u32(&ps[1]) {
            Some(b) => b,
            None => return Err(NoteError::IntegerParse(NoteField::Beat)),
        };
        if note_type == NoteType::LineBreak {
            return Ok(
                Note { note_type, beat_number, note_length: None, note_tone: None, lyric: None },
            );
        }
        if ps.len() < 3 {
            return Err(NoteError::Malformed(NoteField::Length));
        }
        assert(views(ps@)[2] == ps@[2]@);
        let note_length = match parse_u32(&ps[2]) {
            Some(v) => v,
            None => return Err(NoteError::IntegerParse(NoteField::Length)),
        };
        if ps.len() < 4 {
            return Err(NoteError::Malformed(NoteField::Tone));
        }
        assert(views(ps@)[3] == ps@[3]@);
        let note_tone = match parse_i32(&ps[3]) {
            Some(v) => v,
            None => return Err(NoteError::IntegerParse(NoteField::Tone)),
        };
        let mut lyric: Vec<char> = Vec::new();
        let mut i: usize = 4;
        while i < ps.len()
            invariant
                4 <= i <= ps@.len(),
                lyric@ == join_spaces(views(ps@).subrange(4, i as int)),
            decreases ps@.len() - i,
        {
            let ghost before = views(ps@).subrange(4, i as int);
            let ghost after = views(ps@).subrange(4, i + 1);
            assert(after.drop_last() =~= before);
            if i > 4 {
                lyric.push(' ');
            } else {
                assert(lyric@ =~= seq![]);
            }
            append_chars(&mut lyric, &ps[i]);
            i = i + 1;
            assert(lyric@ =~= join_spaces(after));
        }
        assert(views(ps@).subrange(4, i as int) =~= views(ps@).skip(4));
        let lyric = crate::text::string_of(&lyric);
        Ok(
            Note {
                note_type,
                beat_number,
                note_length: Some(note_length),
                note_tone: Some(note_tone),
                lyric: Some(lyric),
            },
        )
    }

    /// The note's line.
    pub fn to_string(&self) -> (r: String)
        requires
            self@.wf(),
        ensures
            r@ == self@.text(),
    {
        let mut out: Vec<char> = Vec::new();
        self.write_to(&mut out);
        crate::text::string_of(&out)
    }

    /// Appends the note's line.
    pub fn write_to(&self, out: &mut Vec<char>)
        requires
            self@.wf(),
        ensures
            final(out)@ == old(out)@ + self@.text(),
    {
        out.push(self.note_type.marker());
        out.push(' ');
        push_decimal(out, self.beat_number as u64);
        if self.note_type != NoteType::LineBreak {
            out.push(' ');
            push_decimal(out, *self.note_length.as_ref().unwrap() as u64);
            out.push(' ');
            push_signed(out, *self.note_tone.as_ref().unwrap());
            out.push(' ');
            let lyric = crate::text::chars_of(self.lyric.as_ref().unwrap().as_str());
            append_chars(out, &lyric);
        }
        assert(final(out)@ =~= old(out)@ + self@.text());
    }
}

} // verus!
