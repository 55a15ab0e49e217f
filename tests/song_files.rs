use usdx_parser::song::parse_yes_no;
use usdx_parser::{Note, NoteError, NoteField, NoteType, Song, SongError, TagField};

const BOHEMIAN: &str = "#ARTIST:Queen\r\n#TITLE:Bohemian Rhapsody\r\n#MP3:Queen - Bohemian Rhapsody.mp3\r\n#EDITION:SingStar\r\n#GENRE:Rock\r\n#YEAR:1975\r\n#LANGUAGE:English\r\n#BPM:143,5\r\n#GAP:980\r\n#VIDEO:Queen - Bohemian Rhapsody.mp4\r\n#VIDEOGAP:2\r\n: 0 3 61 Is\r\n: 4 2 63 this the\r\n* 8 4 64 real\r\nF 12 2 -3 life\r\n- 16\r\n: 20 3 61 \r\nE\r\n";

const ROSIE: &str = "#TITLE:Please Tell Rosie\n#ARTIST:Alex Day\n#RELATIVE:yes\n#BPM:200\n#GAP:500\n: 0 2 5 Please\n: 3 2 5 tell\n- 6\n: 0 4 7 Rosie\n: 5 1 7 I\n- 8 \n- 7\n: 2 2 2 said\nE\n";

fn doc(header: &str, notes: &str) -> String {
    format!("{}{}E\n", header, notes)
}

#[test]
fn test_manual_serde() {
    let text = BOHEMIAN.to_string();
    let song = Song::from_str(&text);
    assert!(song.is_ok());
    let song = song.unwrap();
    assert_eq!(text.replace("\r\n", "\n"), song.to_string());
}

#[test]
fn test_manual_serde_relative() {
    let text = ROSIE.to_string();
    let song = Song::from_str(&text);
    assert!(song.is_ok());
    let song = song.unwrap();
    println!("{}", song.to_string());
}

#[test]
fn relative_beats_are_made_absolute() {
    let song = Song::from_str(ROSIE).unwrap();
    let beats: Vec<u32> = song.notes.iter().map(|n| n.beat_number).collect();
    // A line break stands at the sum of the line breaks before it; "- 8 " is a
    // line break of 8 beats, its trailing empty token unread.
    assert_eq!(beats, vec![0, 3, 0, 6, 11, 6, 14, 23]);
    let text = song.to_string();
    assert!(!text.contains("#RELATIVE"));
}

#[test]
fn relative_line_break_then_note() {
    let text = doc("#TITLE:t\n#BPM:1\n#GAP:0\n#RELATIVE:yes\n", "- 4\n: 0 4 5 hello\n");
    let song = Song::from_str(&text).unwrap();
    assert_eq!(song.notes.len(), 2);
    assert_eq!(song.notes[0].note_type, NoteType::LineBreak);
    assert_eq!(song.notes[0].beat_number, 0);
    assert_eq!(song.notes[1].beat_number, 4);
    assert_eq!(song.notes[1].lyric.as_deref(), Some("hello"));
}

#[test]
fn relative_true_and_no_false() {
    let t = doc("#TITLE:t\n#BPM:1\n#GAP:0\n#RELATIVE:true\n", "- 4\n: 1 1 1 a\n");
    assert_eq!(Song::from_str(&t).unwrap().notes[1].beat_number, 5);
    let f = doc("#TITLE:t\n#BPM:1\n#GAP:0\n#RELATIVE:false\n", "- 4\n: 1 1 1 a\n");
    assert_eq!(Song::from_str(&f).unwrap().notes[1].beat_number, 1);
    let n = doc("#TITLE:t\n#BPM:1\n#GAP:0\n#RELATIVE:no\n", "- 4\n: 1 1 1 a\n");
    assert_eq!(Song::from_str(&n).unwrap().notes[1].beat_number, 1);
}

#[test]
fn bpm_with_comma() {
    let text = doc("#TITLE:t\n#BPM:100,5\n#GAP:0\n", "");
    let song = Song::from_str(&text).unwrap();
    assert_eq!(song.bpm.to_text(), "100.5");
    assert!(song.to_string().contains("#BPM:100,5\n"));
}

#[test]
fn bpm_with_point() {
    let song = Song::from_str(&doc("#TITLE:t\n#BPM:99.25\n#GAP:0\n", "")).unwrap();
    assert_eq!(song.bpm.to_text(), "99.25");
    assert!(song.to_string().contains("#BPM:99,25\n"));
}

#[test]
fn missing_title() {
    let r = Song::from_str(&doc("#BPM:1\n#GAP:0\n", ": 0 1 1 a\n"));
    assert_eq!(r.unwrap_err(), SongError::MissingField(TagField::Title));
}

#[test]
fn missing_bpm_and_gap() {
    let r = Song::from_str(&doc("#TITLE:t\n#GAP:0\n", ""));
    assert_eq!(r.unwrap_err(), SongError::MissingField(TagField::Bpm));
    let r = Song::from_str(&doc("#TITLE:t\n#BPM:3\n", ""));
    assert_eq!(r.unwrap_err(), SongError::MissingField(TagField::Gap));
}

#[test]
fn bad_header_values() {
    let r = Song::from_str(&doc("#TITLE:t\n#BPM:1,2,3\n#GAP:0\n", ""));
    assert_eq!(r.unwrap_err(), SongError::BpmParse);
    let r = Song::from_str(&doc("#TITLE:t\n#BPM:1\n#GAP:-5\n", ""));
    assert_eq!(r.unwrap_err(), SongError::IntegerParse(TagField::Gap));
    let r = Song::from_str(&doc("#TITLE:t\n#BPM:1\n#GAP:5\n#VIDEOGAP:x\n", ""));
    assert_eq!(r.unwrap_err(), SongError::IntegerParse(TagField::VideoGap));
    let r = Song::from_str(&doc("#TITLE:t\n#BPM:1\n#GAP:4294967296\n", ""));
    assert_eq!(r.unwrap_err(), SongError::IntegerParse(TagField::Gap));
}

#[test]
fn invalid_relative_is_an_error() {
    let r = Song::from_str(&doc("#TITLE:t\n#BPM:1\n#GAP:0\n#RELATIVE:maybe\n", ""));
    assert_eq!(r.unwrap_err(), SongError::InvalidRelative);
}

#[test]
fn relative_overflow_is_an_error() {
    let r = Song::from_str(&doc(
        "#TITLE:t\n#BPM:1\n#GAP:0\n#RELATIVE:yes\n",
        "- 4294967295\n: 1 1 1 a\n",
    ));
    assert_eq!(r.unwrap_err(), SongError::BeatOverflow);
}

#[test]
fn malformed_note_line_is_dropped() {
    let song = Song::from_str(&doc("#TITLE:t\n#BPM:1\n#GAP:0\n", ": 0 1 1 a\n- \nX 3\n: 5 1\n* 8 1 2 b\n")).unwrap();
    assert_eq!(song.notes.len(), 2);
    assert_eq!(song.notes[0].beat_number, 0);
    assert_eq!(song.notes[1].beat_number, 8);
    assert_eq!(song.notes[1].note_type, NoteType::Golden);
}

#[test]
fn note_without_lyric_has_empty_lyric() {
    let song = Song::from_str(&doc("#TITLE:t\n#BPM:1\n#GAP:0\n", ": 0 4 5\n")).unwrap();
    assert_eq!(song.notes.len(), 1);
    assert_eq!(song.notes[0].lyric.as_deref(), Some(""));
    assert_eq!(song.notes[0].note_length, Some(4));
    assert_eq!(song.notes[0].note_tone, Some(5));
}

#[test]
fn lyric_keeps_inner_spaces() {
    let song = Song::from_str(&doc("#TITLE:t\n#BPM:1\n#GAP:0\n", ": 0 4 -12 a  b c\n")).unwrap();
    assert_eq!(song.notes[0].lyric.as_deref(), Some("a  b c"));
    assert_eq!(song.notes[0].note_tone, Some(-12));
}

#[test]
fn first_tag_wins_and_leading_space_is_ignored() {
    let song = Song::from_str(&doc("  #TITLE:first\n#TITLE:second\n#GAP:+7\n\t#BPM:2\n", "")).unwrap();
    assert_eq!(song.title, "first");
    assert_eq!(song.gap, 7);
    assert_eq!(song.artist, None);
    assert_eq!(song.video_gap, None);
}

#[test]
fn serializes_in_fixed_order() {
    let text = "#VIDEOGAP:3\n#VIDEO:v.mp4\n#GAP:10\n#BPM:120\n#LANGUAGE:en\n#YEAR:2000\n#GENRE:pop\n#EDITION:e\n#MP3:a.mp3\n#TITLE:t\n#ARTIST:a\n- 7\nE\n";
    let song = Song::from_str(text).unwrap();
    assert_eq!(
        song.to_string(),
        "#ARTIST:a\n#TITLE:t\n#MP3:a.mp3\n#EDITION:e\n#GENRE:pop\n#YEAR:2000\n#LANGUAGE:en\n#BPM:120\n#GAP:10\n#VIDEO:v.mp4\n#VIDEOGAP:3\n- 7\nE\n"
    );
}

#[test]
fn note_offsets() {
    let mut n = Note {
        note_type: NoteType::LineBreak,
        beat_number: 4,
        note_length: None,
        note_tone: None,
        lyric: None,
    };
    assert_eq!(n.update_offset(), Some(4));
    n.offset(10);
    assert_eq!(n.beat_number, 14);
    let s = Note {
        note_type: NoteType::Normal,
        beat_number: 1,
        note_length: Some(2),
        note_tone: Some(3),
        lyric: Some("x".to_string()),
    };
    assert_eq!(s.update_offset(), None);
}

#[test]
fn note_markers() {
    assert_eq!(NoteType::from_marker(&vec![':']), Some(NoteType::Normal));
    assert_eq!(NoteType::from_marker(&vec!['*']), Some(NoteType::Golden));
    assert_eq!(NoteType::from_marker(&vec!['F']), Some(NoteType::Freestyle));
    assert_eq!(NoteType::from_marker(&vec!['-']), Some(NoteType::LineBreak));
    assert_eq!(NoteType::from_marker(&vec!['x']), None);
    assert_eq!(NoteType::Golden.marker(), '*');
}

#[test]
fn written_song_reads_back() {
    let song = Song {
        artist: None,
        title: "A  title".to_string(),
        mp3: Some("x.ogg".to_string()),
        video: None,
        edition: None,
        genre: Some(String::new()),
        year: None,
        language: Some("English".to_string()),
        bpm: usdx_parser::Bpm { sign: None, whole: vec!['0', '7'], fraction: vec!['2', '0'], exponent: vec![] },
        gap: 4294967295,
        video_gap: Some(0),
        notes: vec![
            Note {
                note_type: NoteType::Freestyle,
                beat_number: 3,
                note_length: Some(0),
                note_tone: Some(-2147483648),
                lyric: Some(" spaced  out ".to_string()),
            },
            Note {
                note_type: NoteType::LineBreak,
                beat_number: 9,
                note_length: None,
                note_tone: None,
                lyric: None,
            },
        ],
    };
    let text = song.to_string();
    assert_eq!(
        text,
        "#TITLE:A  title\n#MP3:x.ogg\n#GENRE:\n#LANGUAGE:English\n#BPM:07,20\n#GAP:4294967295\n#VIDEOGAP:0\nF 3 0 -2147483648  spaced  out \n- 9\nE\n"
    );
    let back = Song::from_str(&text).unwrap();
    assert_eq!(back.to_string(), text);
    assert_eq!(back.notes[0].lyric.as_deref(), Some(" spaced  out "));
    assert_eq!(back.notes[0].note_tone, Some(-2147483648));
}

#[test]
fn notes_print_as_lines() {
    let sung = Note {
        note_type: NoteType::Golden,
        beat_number: 12,
        note_length: Some(3),
        note_tone: Some(-4),
        lyric: Some("la la".to_string()),
    };
    assert_eq!(sung.to_string(), "* 12 3 -4 la la");
    let brk = Note {
        note_type: NoteType::LineBreak,
        beat_number: 40,
        note_length: None,
        note_tone: None,
        lyric: None,
    };
    assert_eq!(brk.to_string(), "- 40");
    assert_eq!(NoteType::Freestyle.to_string(), "F");
}

#[test]
fn yes_no_words() {
    assert_eq!(parse_yes_no(&None), Some(false));
    assert_eq!(parse_yes_no(&Some(vec!['y', 'e', 's'])), Some(true));
    assert_eq!(parse_yes_no(&Some(vec!['t', 'r', 'u', 'e'])), Some(true));
    assert_eq!(parse_yes_no(&Some(vec!['n', 'o'])), Some(false));
    assert_eq!(parse_yes_no(&Some(vec!['f', 'a', 'l', 's', 'e'])), Some(false));
    assert_eq!(parse_yes_no(&Some(vec!['Y', 'e', 's'])), None);
}

#[test]
fn notes_after_terminator_are_ignored() {
    let text = "#TITLE:t\n#BPM:1\n#GAP:0\n: 0 1 1 a\nE\n- 4\n: 9 9 9 b\n";
    let song = Song::from_str(text).unwrap();
    assert_eq!(song.notes.len(), 1);
    assert_eq!(song.notes[0].lyric.as_deref(), Some("a"));
    assert_eq!(song.to_string(), "#TITLE:t\n#BPM:1\n#GAP:0\n: 0 1 1 a\nE\n");
}

#[test]
fn bpm_with_sign_and_exponent() {
    let song = Song::from_str(&doc("#TITLE:t\n#BPM:+5\n#GAP:0\n", "")).unwrap();
    assert_eq!(song.bpm.sign, Some('+'));
    assert_eq!(song.bpm.to_text(), "+5");
    let song = Song::from_str(&doc("#TITLE:t\n#BPM:-5\n#GAP:0\n", "")).unwrap();
    assert_eq!(song.bpm.to_text(), "-5");
    let song = Song::from_str(&doc("#TITLE:t\n#BPM:1e2\n#GAP:0\n", "")).unwrap();
    assert_eq!(song.bpm.exponent, vec!['e', '2']);
    assert!(song.to_string().contains("#BPM:1e2\n"));
    let song = Song::from_str(&doc("#TITLE:t\n#BPM:2,5E-3\n#GAP:0\n", "")).unwrap();
    assert_eq!(song.bpm.to_text(), "2.5E-3");
    assert!(song.to_string().contains("#BPM:2,5E-3\n"));
    let r = Song::from_str(&doc("#TITLE:t\n#BPM:1e\n#GAP:0\n", ""));
    assert_eq!(r.unwrap_err(), SongError::BpmParse);
    let r = Song::from_str(&doc("#TITLE:t\n#BPM:+\n#GAP:0\n", ""));
    assert_eq!(r.unwrap_err(), SongError::BpmParse);
}

#[test]
fn note_line_errors() {
    assert_eq!(Note::parse("X 3").unwrap_err(), NoteError::UnknownNoteType("X".to_string()));
    assert_eq!(Note::parse("-").unwrap_err(), NoteError::Malformed(NoteField::Beat));
    assert_eq!(Note::parse("- ").unwrap_err(), NoteError::IntegerParse(NoteField::Beat));
    assert_eq!(Note::parse(": 5").unwrap_err(), NoteError::Malformed(NoteField::Length));
    assert_eq!(Note::parse(": 5 x 1").unwrap_err(), NoteError::IntegerParse(NoteField::Length));
    assert_eq!(Note::parse(": 5 1").unwrap_err(), NoteError::Malformed(NoteField::Tone));
    assert_eq!(Note::parse(": 5 1 y").unwrap_err(), NoteError::IntegerParse(NoteField::Tone));
    let n = Note::parse("F 7 2 -1 la").unwrap();
    assert_eq!(n.note_type, NoteType::Freestyle);
    assert_eq!(n.lyric.as_deref(), Some("la"));
    assert_eq!(NoteType::parse("*"), Some(NoteType::Golden));
    assert_eq!(NoteType::parse("**"), None);
}
