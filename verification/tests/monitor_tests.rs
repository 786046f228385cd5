use compiler_monitor::cache::CacheWriter;
use compiler_monitor::cmdline::{extract_all_source_files, parse_arguments};
use compiler_monitor::collect::{collect_database, parse_records, sort_records};
use compiler_monitor::expand::{decode_response_bytes, expand_response_files, resolve_response_paths};
use compiler_monitor::glob::Pattern;
use compiler_monitor::records::{build_invocations, CapturedInvocation};
use compiler_monitor::resolver::{directory_length_valid, finish_directory};
use compiler_monitor::scanner::Scanner;
use compiler_monitor::text::chars_of;

fn chars(s: &str) -> Vec<char> {
    chars_of(s)
}

fn text(v: &[char]) -> String {
    v.iter().collect()
}

fn strings(v: &[Vec<char>]) -> Vec<String> {
    v.iter().map(|c| text(c)).collect()
}

// ---------------------------------------------------------------------------
// Pattern matching
// ---------------------------------------------------------------------------
#[test]
fn pattern_matches_case_insensitively() {
    let p = Pattern::new(&chars("cl.exe"));
    assert!(p.matches(&chars("CL.EXE")));
    assert!(p.matches(&chars("cl.exe")));
    assert!(!p.matches(&chars("clang.exe")));
}

#[test]
fn pattern_star_matches_any_run() {
    let p = Pattern::new(&chars("cl*.exe"));
    assert!(p.matches(&chars("cl1.exe")));
    assert!(p.matches(&chars("cl.exe")));
    assert!(!p.matches(&chars("gcc.exe")));
}

#[test]
fn pattern_is_anchored() {
    let p = Pattern::new(&chars("cl.exe"));
    assert!(!p.matches(&chars("xcl.exe")));
    assert!(!p.matches(&chars("cl.exe.bak")));
}

#[test]
fn pattern_question_matches_exactly_one() {
    let p = Pattern::new(&chars("cl?.exe"));
    assert!(p.matches(&chars("clx.exe")));
    assert!(!p.matches(&chars("cl.exe")));
    assert!(!p.matches(&chars("clxy.exe")));
}

// ---------------------------------------------------------------------------
// Tokenizer and source extraction
// ---------------------------------------------------------------------------
#[test]
fn tokenizer_respects_quotes() {
    let args = parse_arguments(&chars("cl.exe \"C:\\My Project\\a.cpp\" /O2"));
    let args = strings(&args);
    assert_eq!(args, vec!["cl.exe", "C:\\My Project\\a.cpp", "/O2"]);
}

#[test]
fn tokenizer_drops_repeated_spaces() {
    let args = parse_arguments(&chars("a  b   c"));
    let args = strings(&args);
    assert_eq!(args, vec!["a", "b", "c"]);
}

#[test]
fn extraction_resolves_against_working_dir() {
    let files = extract_all_source_files(
        &chars("cl.exe /c main.cpp utils.CPP /Fo:out/"),
        &chars("C:\\proj"),
    );
    let files = strings(&files);
    assert_eq!(files, vec!["C:\\proj\\main.cpp", "C:\\proj\\utils.CPP"]);
}

#[test]
fn extraction_keeps_absolute_paths() {
    let files = extract_all_source_files(
        &chars("cl.exe D:\\src\\a.c b.cxx \"C:\\My Dir\\c.c++\""),
        &chars("C:\\proj"),
    );
    let files = strings(&files);
    assert_eq!(
        files,
        vec!["D:\\src\\a.c", "C:\\proj\\b.cxx", "C:\\My Dir\\c.c++"]
    );
}

#[test]
fn extraction_ignores_non_source_tokens() {
    let files = extract_all_source_files(&chars("cl.exe /O2 /Fo:out.obj lib.lib"), &chars("C:\\p"));
    assert!(files.is_empty());
}

// ---------------------------------------------------------------------------
// Response files
// ---------------------------------------------------------------------------
#[test]
fn response_paths_resolve_against_working_dir() {
    let paths = resolve_response_paths(
        &chars("cl.exe @resp.rsp @C:\\abs\\x.rsp /O2"),
        &chars("C:\\proj"),
    );
    let paths = strings(&paths);
    assert_eq!(paths, vec!["C:\\proj\\resp.rsp", "C:\\abs\\x.rsp"]);
}

#[test]
fn expansion_inlines_and_archives() {
    let cmd = chars("cl.exe @resp.rsp /Fo out.obj");
    let contents = vec![Some(b"/I \"C:\\inc\"\n/DX=1".to_vec())];
    let (expanded, archives) = expand_response_files(&cmd, &contents);
    assert_eq!(text(&expanded), "cl.exe /I \"C:\\inc\" /DX=1 /Fo out.obj");
    assert_eq!(archives, vec!["/I \"C:\\inc\"\n/DX=1".to_string()]);
}

#[test]
fn expansion_trims_and_drops_blank_lines() {
    let cmd = chars("cc @r");
    let contents = vec![Some(b"  one  \r\n\r\n\t two \n".to_vec())];
    let (expanded, _) = expand_response_files(&cmd, &contents);
    assert_eq!(text(&expanded), "cc one two");
}

#[test]
fn expansion_leaves_unreadable_reference_alone() {
    let cmd = chars("cl.exe @gone.rsp /c a.cpp");
    let contents = vec![None];
    let (expanded, archives) = expand_response_files(&cmd, &contents);
    assert_eq!(text(&expanded), "cl.exe @gone.rsp /c a.cpp");
    assert!(archives.is_empty());
}

#[test]
fn expansion_replaces_every_occurrence_of_a_token() {
    let cmd = chars("run @a.rsp then @a.rsp");
    let contents = vec![Some(b"X".to_vec()), Some(b"X".to_vec())];
    let (expanded, _) = expand_response_files(&cmd, &contents);
    assert_eq!(text(&expanded), "run X then X");
}

#[test]
fn decoding_takes_strict_utf8_first() {
    assert_eq!(decode_response_bytes(&b"hello /O2".to_vec()), "hello /O2");
}

#[test]
fn decoding_honours_utf16_byte_order_mark() {
    let bytes = vec![0xFF, 0xFE, b'h', 0, b'i', 0];
    assert_eq!(decode_response_bytes(&bytes), "hi");
}

#[test]
fn decoding_tries_utf16_on_even_non_utf8() {
    // 0xE9 0x00 is not valid UTF-8, but is "é" in UTF-16LE
    let bytes = vec![0xE9, 0x00];
    assert_eq!(decode_response_bytes(&bytes), "\u{e9}");
}

#[test]
fn decoding_falls_back_to_lossy_utf8() {
    let bytes = vec![0xFF, b'a', b'b'];
    assert_eq!(decode_response_bytes(&bytes), "\u{fffd}ab");
}

// ---------------------------------------------------------------------------
// Cache writer
// ---------------------------------------------------------------------------
#[test]
fn counters_resume_from_existing_names() {
    let names = vec!["command_000003.json".to_string()];
    let mut w = CacheWriter::new(&names);
    assert_eq!(w.next_command_name(), "command_000004.json");
}

#[test]
fn counters_start_at_one_in_an_empty_cache() {
    let names: Vec<String> = Vec::new();
    let mut w = CacheWriter::new(&names);
    assert_eq!(w.next_command_name(), "command_000001.json");
    assert_eq!(w.next_response_name(), "response_000001.rsp");
}

#[test]
fn counters_are_independent_and_ignore_foreign_names() {
    let names = vec![
        "command_000002.json".to_string(),
        "command_000010.json".to_string(),
        "response_000007.rsp".to_string(),
        "notes.txt".to_string(),
        "command_abc.json".to_string(),
    ];
    let mut w = CacheWriter::new(&names);
    assert_eq!(w.next_command_name(), "command_000011.json");
    assert_eq!(w.next_response_name(), "response_000008.rsp");
}

#[test]
fn numbers_wider_than_the_padding_still_grow() {
    let names = vec!["command_9999999.json".to_string()];
    let mut w = CacheWriter::new(&names);
    assert_eq!(w.next_command_name(), "command_10000000.json");
}

#[test]
fn numbers_too_large_for_a_counter_are_ignored() {
    let names = vec!["command_99999999999999999999.json".to_string()];
    let mut w = CacheWriter::new(&names);
    assert_eq!(w.next_command_name(), "command_000001.json");
}

// ---------------------------------------------------------------------------
// Records and their JSON form
// ---------------------------------------------------------------------------
#[test]
fn record_round_trips_through_json() {
    let rec = CapturedInvocation {
        directory: "C:\\proj".to_string(),
        command: "cl.exe /c a.cpp".to_string(),
        file: "C:\\proj\\a.cpp".to_string(),
    };
    let text = rec.to_json();
    let back = CapturedInvocation::from_json(&text).expect("canonical text must parse");
    assert_eq!(back.directory, rec.directory);
    assert_eq!(back.command, rec.command);
    assert_eq!(back.file, rec.file);
}

#[test]
fn record_round_trips_with_awkward_characters() {
    let rec = CapturedInvocation {
        directory: "C:\\dir \"quoted\"\\".to_string(),
        command: "cl.exe\t/DX=\"1\"\nnext".to_string(),
        file: "C:\\a\\b.cpp".to_string(),
    };
    let text = rec.to_json();
    let back = CapturedInvocation::from_json(&text).expect("canonical text must parse");
    assert_eq!(back.directory, rec.directory);
    assert_eq!(back.command, rec.command);
    assert_eq!(back.file, rec.file);
}

#[test]
fn record_json_shape_is_the_compilation_database_object() {
    let rec = CapturedInvocation {
        directory: "d".to_string(),
        command: "c".to_string(),
        file: "f".to_string(),
    };
    assert_eq!(
        rec.to_json(),
        "{\"directory\":\"d\",\"command\":\"c\",\"file\":\"f\"}"
    );
}

#[test]
fn malformed_record_text_is_rejected() {
    assert!(CapturedInvocation::from_json("{}").is_none());
    assert!(CapturedInvocation::from_json("").is_none());
    assert!(CapturedInvocation::from_json("{\"directory\":\"d\",\"command\":\"c\"}").is_none());
    assert!(CapturedInvocation::from_json(
        "{\"directory\":\"d\",\"command\":\"c\",\"file\":\"f\"} "
    )
    .is_none());
}

#[test]
fn fan_out_makes_one_record_per_source_file() {
    let rs = build_invocations(&chars("cl.exe /c a.cpp b.cpp"), &chars("C:\\p"));
    assert_eq!(rs.len(), 2);
    assert_eq!(rs[0].directory, "C:\\p");
    assert_eq!(rs[0].command, "cl.exe /c a.cpp b.cpp");
    assert_eq!(rs[0].file, "C:\\p\\a.cpp");
    assert_eq!(rs[1].file, "C:\\p\\b.cpp");
}

// ---------------------------------------------------------------------------
// Collector
// ---------------------------------------------------------------------------
fn record_text(file: &str) -> String {
    CapturedInvocation {
        directory: "C:\\p".to_string(),
        command: format!("cl.exe /c {}", file),
        file: file.to_string(),
    }
    .to_json()
}

#[test]
fn collection_is_deterministic_across_enumeration_orders() {
    let one = vec![record_text("b.cpp"), record_text("a.cpp"), record_text("c.cpp")];
    let two = vec![record_text("c.cpp"), record_text("b.cpp"), record_text("a.cpp")];
    let out_one = collect_database(&one).expect("well-formed records collect");
    let out_two = collect_database(&two).expect("well-formed records collect");
    assert_eq!(out_one, out_two);
    let a = out_one.find("a.cpp").unwrap();
    let b = out_one.find("b.cpp").unwrap();
    let c = out_one.find("c.cpp").unwrap();
    assert!(a < b && b < c);
}

#[test]
fn sorting_orders_by_file_path() {
    let rs = vec![
        CapturedInvocation {
            directory: "d".to_string(),
            command: "c2".to_string(),
            file: "z.cpp".to_string(),
        },
        CapturedInvocation {
            directory: "d".to_string(),
            command: "c1".to_string(),
            file: "a.cpp".to_string(),
        },
    ];
    let sorted = sort_records(rs);
    assert_eq!(sorted[0].file, "a.cpp");
    assert_eq!(sorted[1].file, "z.cpp");
}

#[test]
fn one_malformed_record_fails_the_whole_collection() {
    let texts = vec![record_text("a.cpp"), "not json".to_string(), record_text("b.cpp")];
    let err = parse_records(&texts).err().expect("collection must fail");
    assert_eq!(err.index, 1);
    assert!(collect_database(&texts).is_err());
}

#[test]
fn empty_cache_collects_to_an_empty_database() {
    let texts: Vec<String> = Vec::new();
    assert_eq!(collect_database(&texts).expect("empty collects"), "[]");
}

// ---------------------------------------------------------------------------
// Scanner deduplication
// ---------------------------------------------------------------------------
#[test]
fn repeated_sightings_capture_at_most_once() {
    let mut s = Scanner::new(&chars("cl.exe"));
    let name = chars("cl.exe");
    let mut captures = 0;
    for _ in 0..10 {
        if s.should_capture(4242, &name) {
            captures += 1;
        }
    }
    assert_eq!(captures, 1);
}

#[test]
fn distinct_pids_are_captured_separately() {
    let mut s = Scanner::new(&chars("cl.exe"));
    let name = chars("cl.exe");
    assert!(s.should_capture(1, &name));
    assert!(s.should_capture(2, &name));
    assert!(!s.should_capture(1, &name));
}

#[test]
fn non_matching_names_are_not_captured_nor_remembered() {
    let mut s = Scanner::new(&chars("cl.exe"));
    assert!(!s.should_capture(1, &chars("notepad.exe")));
    assert_eq!(s.known_len(), 0);
}

#[test]
fn housekeeping_clears_only_an_overgrown_window() {
    let mut s = Scanner::new(&chars("*"));
    for pid in 0..3u32 {
        assert!(s.should_capture(pid, &chars("cl.exe")));
    }
    s.housekeep();
    assert_eq!(s.known_len(), 3);
}

// ---------------------------------------------------------------------------
// Working-directory resolution
// ---------------------------------------------------------------------------
#[test]
fn directory_length_bounds_are_enforced() {
    assert!(!directory_length_valid(0));
    assert!(directory_length_valid(1));
    assert!(directory_length_valid(32768));
    assert!(!directory_length_valid(32769));
}

#[test]
fn finishing_strips_one_trailing_backslash() {
    let units: Vec<u16> = "C:\\proj\\".encode_utf16().collect();
    assert_eq!(finish_directory(&units), "C:\\proj");
    let bare: Vec<u16> = "C:\\proj".encode_utf16().collect();
    assert_eq!(finish_directory(&bare), "C:\\proj");
}
