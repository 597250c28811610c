use wormod::engine::{pipe_mode, run, stock_mode, pipe_step, PipeState};
use wormod::error::Error;
use wormod::params::Params;
use wormod::reader::{input_admission, read_from_file, read_from_stdin};
use wormod::writer::{render_entry, render_output};

const PLENTY: usize = 1 << 30;

fn chars(s: &str) -> Vec<char> {
    s.chars().collect()
}

fn text(entries: &[Vec<char>]) -> String {
    let mut out = String::new();
    for e in entries {
        if !e.is_empty() {
            out.extend(e.iter());
            out.push('\n');
        }
    }
    out
}

fn params() -> Params {
    Params {
        input: None,
        output: None,
        append_output: false,
        no_follow_symlinks: false,
        pipe: false,
        sort: false,
        unique: false,
        reverse: false,
        min_len: None,
        max_len: None,
    }
}

#[test]
fn unique_keeps_first_occurrences() {
    let mut p = params();
    p.unique = true;
    let out = run(&p, &chars("bob\nalice\nbob\ncarol\n"), PLENTY).unwrap();
    assert_eq!(text(&out), "bob\nalice\ncarol\n");
}

#[test]
fn sort_unique_orders_and_dedups() {
    let mut p = params();
    p.sort = true;
    p.unique = true;
    let out = run(&p, &chars("bob\nalice\nbob\ncarol\n"), PLENTY).unwrap();
    assert_eq!(text(&out), "alice\nbob\ncarol\n");
}

#[test]
fn min_len_filters_by_bytes() {
    let mut p = params();
    p.min_len = Some(3);
    let out = run(&p, &chars("abc\nde\nfghi\n"), PLENTY).unwrap();
    assert_eq!(text(&out), "abc\nfghi\n");
}

#[test]
fn reverse_flips_each_entry() {
    let mut p = params();
    p.reverse = true;
    let out = run(&p, &chars("abc\nde\n"), PLENTY).unwrap();
    assert_eq!(text(&out), "cba\ned\n");
}

#[test]
fn reverse_keeps_grapheme_clusters_whole() {
    let mut p = params();
    p.reverse = true;
    let out = run(&p, &chars("caf\u{e9}\n"), PLENTY).unwrap();
    assert_eq!(text(&out), "\u{e9}fac\n");
}

#[test]
fn reverse_keeps_combining_sequences_whole() {
    let mut p = params();
    p.reverse = true;
    // "e" followed by a combining acute accent is one cluster
    let out = run(&p, &chars("xe\u{301}\n"), PLENTY).unwrap();
    assert_eq!(text(&out), "e\u{301}x\n");
}

#[test]
fn unique_handles_interleaved_duplicates() {
    let mut p = params();
    p.unique = true;
    let out = run(&p, &chars("a\na\nb\na\nc\nb\n"), PLENTY).unwrap();
    assert_eq!(text(&out), "a\nb\nc\n");
}

#[test]
fn unique_on_unique_input_is_identity() {
    let mut p = params();
    p.unique = true;
    let out = run(&p, &chars("q\nw\ne\n"), PLENTY).unwrap();
    assert_eq!(text(&out), "q\nw\ne\n");
}

#[test]
fn sort_is_bytewise() {
    let mut p = params();
    p.sort = true;
    // 'A' (0x41) < 'a' (0x61) < 'b' (0x62) < 'à' (0xC3 0xA0)
    let out = run(&p, &chars("b\nA\n\u{e0}b\na\n"), PLENTY).unwrap();
    assert_eq!(text(&out), "A\na\nb\n\u{e0}b\n");
}

#[test]
fn byte_length_counts_encoding_not_characters() {
    let mut p = params();
    p.min_len = Some(2);
    // 'é' is two bytes in UTF-8, 'a' is one
    let out = run(&p, &chars("\u{e9}\na\n"), PLENTY).unwrap();
    assert_eq!(text(&out), "\u{e9}\n");
}

#[test]
fn max_len_drops_long_entries() {
    let mut p = params();
    p.min_len = Some(2);
    p.max_len = Some(3);
    let out = run(&p, &chars("a\nab\nabc\nabcd\n"), PLENTY).unwrap();
    assert_eq!(text(&out), "ab\nabc\n");
}

#[test]
fn batch_trims_the_whole_input_once() {
    let mut p = params();
    p.unique = true;
    // inner lines keep their surrounding spaces; only the whole text is trimmed
    let out = run(&p, &chars("  a  \n b\n"), PLENTY).unwrap();
    assert_eq!(text(&out), "a  \n b\n");
}

#[test]
fn empty_lines_are_dropped() {
    let mut p = params();
    p.unique = true;
    let out = run(&p, &chars("\n\na\n\nb\n\n"), PLENTY).unwrap();
    assert_eq!(text(&out), "a\nb\n");
}

#[test]
fn batch_refuses_when_memory_is_low() {
    let mut p = params();
    p.sort = true;
    let r = stock_mode(&p, &chars("a\nb\n"), 0);
    assert_eq!(r.unwrap_err(), Error::LowMemory);
}

#[test]
fn streaming_unique_emits_in_order() {
    let mut p = params();
    p.pipe = true;
    p.unique = true;
    let out = pipe_mode(&p, &chars("x\ny\nx\n"), PLENTY).unwrap();
    assert_eq!(text(&out), "x\ny\n");
}

#[test]
fn streaming_emits_each_entry_before_the_next_is_read() {
    let mut p = params();
    p.pipe = true;
    p.unique = true;
    let mut state = PipeState::new();
    // the first entry is handed out for writing before any later line is seen
    let first = pipe_step(&p, &mut state, &chars("x"), PLENTY).unwrap();
    assert_eq!(first, Some(chars("x")));
    let second = pipe_step(&p, &mut state, &chars("y"), PLENTY).unwrap();
    assert_eq!(second, Some(chars("y")));
    let third = pipe_step(&p, &mut state, &chars("x"), PLENTY).unwrap();
    assert_eq!(third, None);
}

#[test]
fn streaming_trims_each_line() {
    let mut p = params();
    p.pipe = true;
    p.reverse = true;
    let out = pipe_mode(&p, &chars(" ab \ncd\n"), PLENTY).unwrap();
    assert_eq!(text(&out), "ba\ndc\n");
}

#[test]
fn streaming_discards_blank_lines_and_goes_on() {
    let mut p = params();
    p.pipe = true;
    p.unique = true;
    let out = pipe_mode(&p, &chars("a\n\n  \nb\n"), PLENTY).unwrap();
    assert_eq!(text(&out), "a\nb\n");
}

#[test]
fn streaming_matches_batch_without_sort() {
    let mut p = params();
    p.unique = true;
    p.reverse = true;
    p.min_len = Some(2);
    let input = chars("ab\ncd\nab\nx\nefg\n");
    let batch = stock_mode(&p, &input, PLENTY).unwrap();
    let mut q = p;
    q.pipe = true;
    let streamed = pipe_mode(&q, &input, PLENTY).unwrap();
    assert_eq!(text(&batch), text(&streamed));
}

#[test]
fn streaming_unique_refuses_when_memory_is_low() {
    let mut p = params();
    p.pipe = true;
    p.unique = true;
    let r = pipe_mode(&p, &chars("abc\n"), 0);
    assert_eq!(r.unwrap_err(), Error::LowMemory);
}

#[test]
fn stdin_chunks_decode_across_boundaries() {
    // "café\n" split in the middle of the two-byte encoding of 'é'
    let chunks: Vec<Vec<u8>> = vec![vec![0x63, 0x61, 0x66, 0xC3], vec![0xA9, 0x0A]];
    let out = read_from_stdin(&chunks).unwrap();
    let s: String = out.iter().collect();
    assert_eq!(s, "caf\u{e9}\n");
}

#[test]
fn stdin_rejects_invalid_bytes() {
    let chunks: Vec<Vec<u8>> = vec![vec![0x61], vec![0xFF, 0x62]];
    assert_eq!(read_from_stdin(&chunks).unwrap_err(), Error::InvalidUtf8);
}

#[test]
fn stdin_rejects_truncated_final_character() {
    let chunks: Vec<Vec<u8>> = vec![vec![0x61, 0xC3]];
    assert_eq!(read_from_stdin(&chunks).unwrap_err(), Error::InvalidUtf8);
}

#[test]
fn stdin_rejects_overlong_encoding() {
    // 0xC0 0x80 is an overlong encoding of NUL
    let chunks: Vec<Vec<u8>> = vec![vec![0xC0, 0x80]];
    assert_eq!(read_from_stdin(&chunks).unwrap_err(), Error::InvalidUtf8);
}

#[test]
fn stdin_accepts_four_byte_characters_split_anywhere() {
    // U+1F600 split one byte per chunk
    let chunks: Vec<Vec<u8>> = vec![vec![0xF0], vec![0x9F], vec![0x98], vec![0x80]];
    let out = read_from_stdin(&chunks).unwrap();
    let s: String = out.iter().collect();
    assert_eq!(s, "\u{1F600}");
}

#[test]
fn stdin_with_no_chunks_is_empty() {
    let chunks: Vec<Vec<u8>> = Vec::new();
    let out = read_from_stdin(&chunks).unwrap();
    assert!(out.is_empty());
}

#[test]
fn file_read_admission_passes_the_size_through() {
    assert_eq!(read_from_file(1024, PLENTY).unwrap(), 1024);
    assert_eq!(read_from_file(PLENTY, 1024).unwrap_err(), Error::LowMemory);
}

#[test]
fn empty_file_input_is_refused() {
    let p = params();
    assert_eq!(input_admission(&p, 0, PLENTY).unwrap_err(), Error::EmptyInput);
}

#[test]
fn oversized_input_is_refused_before_reading_when_sorting() {
    let mut p = params();
    p.sort = true;
    // available memory leaves no room beyond the five I/O buffers
    let r = input_admission(&p, 30 << 20, 100 << 20);
    assert_eq!(r.unwrap_err(), Error::LowMemory);
    assert!(input_admission(&p, 10 << 20, 200 << 20).is_ok());
}

#[test]
fn rendering_terminates_every_entry_with_a_line_feed() {
    let wl = vec![chars("one"), chars(""), chars("two")];
    let out = render_output(&wl);
    let s: String = out.iter().collect();
    assert_eq!(s, "one\ntwo\n");
    let e = render_entry(&chars("ab"));
    let s: String = e.iter().collect();
    assert_eq!(s, "ab\n");
}
