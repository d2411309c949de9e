use std::io::BufRead;

use hlgrep::{
    decode_line, lines_of_bytes, lines_of_text, match_chunk, match_lines, select_source,
    ConfigError, Pattern, Source, CARRIAGE_RETURN, LINE_FEED,
};

fn std_lines(text: &str) -> Vec<String> {
    text.lines().map(|line| line.to_string()).collect()
}

#[test]
fn inline_text_alone_is_selected() {
    assert_eq!(
        select_source(Some("some text".to_string()), None),
        Ok(Source::Inline("some text".to_string()))
    );
}

#[test]
fn file_alone_is_selected() {
    assert_eq!(
        select_source(None, Some("notes.txt".to_string())),
        Ok(Source::File("notes.txt".to_string()))
    );
}

#[test]
fn standard_input_is_the_default() {
    assert_eq!(select_source(None, None), Ok(Source::Stdin));
}

#[test]
fn inline_text_and_file_together_are_rejected() {
    assert_eq!(
        select_source(Some("text".to_string()), Some("/no/such/file".to_string())),
        Err(ConfigError::ConflictingSources)
    );
    assert_eq!(
        select_source(Some(String::new()), Some(String::new())),
        Err(ConfigError::ConflictingSources)
    );
}

#[test]
fn conflict_has_its_diagnostic() {
    assert_eq!(ConfigError::ConflictingSources.message(), "Cannot use both input and file");
}

#[test]
fn text_is_cut_at_line_feeds() {
    assert_eq!(lines_of_text("one\ntwo\nthree"), vec!["one", "two", "three"]);
}

#[test]
fn final_line_ending_is_optional() {
    assert_eq!(lines_of_text("one\ntwo\n"), vec!["one", "two"]);
    assert_eq!(lines_of_text("one\ntwo"), vec!["one", "two"]);
}

#[test]
fn empty_text_has_no_lines() {
    assert_eq!(lines_of_text(""), Vec::<String>::new());
    assert_eq!(lines_of_bytes(b""), Vec::<String>::new());
}

#[test]
fn empty_lines_are_kept() {
    assert_eq!(lines_of_text("\n"), vec![""]);
    assert_eq!(lines_of_text("\n\n"), vec!["", ""]);
    assert_eq!(lines_of_text("a\n\nb"), vec!["a", "", "b"]);
}

#[test]
fn carriage_return_before_line_feed_is_part_of_the_ending() {
    assert_eq!(lines_of_text("foo\r\nbar\n\nbaz\r"), vec!["foo", "bar", "", "baz\r"]);
    assert_eq!(lines_of_text("a\r\r\nb"), vec!["a\r", "b"]);
    assert_eq!(lines_of_text("a\rb\n"), vec!["a\rb"]);
    assert_eq!(lines_of_text("\r\n"), vec![""]);
    assert_eq!(lines_of_text("\r"), vec!["\r"]);
}

#[test]
fn text_lines_are_those_of_the_standard_library() {
    let texts = [
        "",
        "\n",
        "\r",
        "\r\n",
        "\n\r",
        "a",
        "a\n",
        "a\r\n",
        "a\n\r\nb\r",
        "a\r\n\r\n\nb\n\n",
        "żółć\r\n日本語\n\u{1f600}\r",
        "no newline at all",
        "\u{85}next\u{2028}line\n\u{0a0d}\n",
    ];
    for text in texts {
        assert_eq!(lines_of_text(text), std_lines(text), "{:?}", text);
    }
}

#[test]
fn bytes_and_text_give_the_same_lines() {
    let texts = ["", "a\nb", "a\r\nb\r\n", "żółć\r\n日本語\n\u{1f600}\r", "\n\n\r\n", "x\r"];
    for text in texts {
        assert_eq!(lines_of_bytes(text.as_bytes()), lines_of_text(text), "{:?}", text);
    }
}

#[test]
fn sources_give_the_same_output() {
    let pattern = Pattern::new("a+").unwrap();
    let text = "banana\r\nkiwi\n\nmango\napple";
    let from_text = match_lines(&pattern, &lines_of_text(text));
    let from_bytes = match_lines(&pattern, &lines_of_bytes(text.as_bytes()));
    let mut from_chunks = Vec::new();
    for chunk in text.as_bytes().split_inclusive(|byte| *byte == LINE_FEED) {
        if let Some(shown) = match_chunk(&pattern, chunk) {
            from_chunks.push(shown);
        }
    }
    let expected = vec![
        "b\x1b[31ma\x1b[0mn\x1b[31ma\x1b[0mn\x1b[31ma\x1b[0m".to_string(),
        "m\x1b[31ma\x1b[0mngo".to_string(),
        "\x1b[31ma\x1b[0mpple".to_string(),
    ];
    assert_eq!(from_text, expected);
    assert_eq!(from_bytes, expected);
    assert_eq!(from_chunks, expected);
}

#[test]
fn undecodable_line_is_left_out() {
    let data = b"good\n\xff\xfe bad\nalso good\n";
    assert_eq!(lines_of_bytes(data), vec!["good", "also good"]);
}

#[test]
fn undecodable_last_line_is_left_out() {
    assert_eq!(lines_of_bytes(b"good\r\n\xc3"), vec!["good"]);
    assert_eq!(lines_of_bytes(b"\xc3\n\xa9\n"), Vec::<String>::new());
}

#[test]
fn character_is_not_joined_across_a_line_feed() {
    // The two bytes of "é" on either side of a line feed are two bad lines.
    assert_eq!(lines_of_bytes(b"a\n\xc3\n\xa9\nb"), vec!["a", "b"]);
}

#[test]
fn overlong_and_surrogate_encodings_are_undecodable() {
    assert_eq!(decode_line(b"\xc0\x8a\n"), None);
    assert_eq!(decode_line(b"\xed\xa0\x80\n"), None);
    assert_eq!(decode_line(b"\xf4\x90\x80\x80\n"), None);
}

#[test]
fn decode_line_removes_the_line_ending() {
    assert_eq!(decode_line(b"line\n"), Some("line".to_string()));
    assert_eq!(decode_line(b"line\r\n"), Some("line".to_string()));
    assert_eq!(decode_line(b"line"), Some("line".to_string()));
    assert_eq!(decode_line(b"line\r"), Some("line\r".to_string()));
    assert_eq!(decode_line(b"line\r\r\n"), Some("line\r".to_string()));
    assert_eq!(decode_line(b"line\n\r"), Some("line\n\r".to_string()));
    assert_eq!(decode_line(b"\n"), Some(String::new()));
    assert_eq!(decode_line(b"\r\n"), Some(String::new()));
    assert_eq!(decode_line(b""), Some(String::new()));
}

#[test]
fn decode_line_decodes_wide_characters() {
    assert_eq!(
        decode_line("żółć 日本語 \u{1f600}\r\n".as_bytes()),
        Some("żółć 日本語 \u{1f600}".to_string())
    );
}

#[test]
fn decode_line_rejects_bad_bytes() {
    assert_eq!(decode_line(b"ab\xffcd\n"), None);
    assert_eq!(decode_line(b"\x80"), None);
    assert_eq!(decode_line(b"caf\xc3"), None);
}

#[test]
fn byte_lines_are_those_of_a_buffered_reader() {
    let inputs: [&[u8]; 8] = [
        b"",
        b"a\nb\n",
        b"a\r\nb",
        b"\n\r\n\r",
        b"x\xffy\nfine\n",
        b"\xe6\x97\xa5\xe6\x9c\xac\n\xe6\x97\nend",
        b"trailing cr\r",
        b"\r\r\n\n\r",
    ];
    for data in inputs {
        let expected: Vec<String> = std::io::Cursor::new(data).lines().flatten().collect();
        assert_eq!(lines_of_bytes(data), expected, "{:?}", data);
    }
}

#[test]
fn line_ending_bytes() {
    assert_eq!(LINE_FEED, b'\n');
    assert_eq!(CARRIAGE_RETURN, b'\r');
}

#[test]
fn match_chunk_shows_the_line_without_its_ending() {
    let pattern = Pattern::new("b+").unwrap();
    assert_eq!(match_chunk(&pattern, b"abba\r\n"), Some("a\x1b[31mbb\x1b[0ma".to_string()));
    assert_eq!(match_chunk(&pattern, b"abba"), Some("a\x1b[31mbb\x1b[0ma".to_string()));
}

#[test]
fn match_chunk_shows_nothing_without_a_match() {
    let pattern = Pattern::new("b+").unwrap();
    assert_eq!(match_chunk(&pattern, b"aaaa\n"), None);
    assert_eq!(match_chunk(&pattern, b""), None);
}

#[test]
fn match_chunk_shows_nothing_for_bad_bytes() {
    let pattern = Pattern::new("b+").unwrap();
    assert_eq!(match_chunk(&pattern, b"abba\xff\n"), None);
}

#[test]
fn line_ending_is_not_part_of_what_is_matched() {
    let pattern = Pattern::new(r"\s$").unwrap();
    assert_eq!(match_chunk(&pattern, b"word\r\n"), None);
    assert_eq!(match_chunk(&pattern, b"word \n"), Some("word\x1b[31m \x1b[0m".to_string()));
}

#[test]
fn chunk_by_chunk_is_all_at_once() {
    let pattern = Pattern::new("[0-9]").unwrap();
    let data: &[u8] = b"a1\r\nbad \xff 2\n\nb\n3";
    let mut one_by_one = Vec::new();
    for chunk in data.split_inclusive(|byte| *byte == LINE_FEED) {
        if let Some(shown) = match_chunk(&pattern, chunk) {
            one_by_one.push(shown);
        }
    }
    assert_eq!(one_by_one, match_lines(&pattern, &lines_of_bytes(data)));
    assert_eq!(one_by_one, vec!["a\x1b[31m1\x1b[0m", "\x1b[31m3\x1b[0m"]);
}

#[test]
fn no_line_holds_a_line_feed() {
    for line in lines_of_text("a\n\nb\r\n\n\rc\nd") {
        assert!(!line.contains('\n'));
    }
}

#[test]
fn lines_put_together_are_the_text() {
    let text = "alpha\nbeta\ngamma";
    assert_eq!(lines_of_text(text).join("\n"), text);
}
