use altc_gui::ask::Ask;
use altc_gui::conversion::{convert_all, error_line, finish_conversion, DeErrorWrapper, ParseFailure};
use altc_gui::version::LiveVersion;
use quick_xml::DeError;

fn to_convert(name: &str, contents: &str) -> Ask {
    Ask::uploaded(name.to_string(), contents.to_string(), Some(LiveVersion::Live10), LiveVersion::Live12)
}

#[test]
fn error_line_counts_newlines_before_the_offset() {
    let text = "a\nb\nc";
    assert_eq!(error_line(text, 0), 0);
    assert_eq!(error_line(text, 1), 0);
    assert_eq!(error_line(text, 2), 1);
    assert_eq!(error_line(text, 4), 2);
    assert_eq!(error_line(text, 5), 2);
    assert_eq!(error_line("", 0), 0);
    assert_eq!(error_line("\n\n\n", 3), 3);
}

#[test]
fn error_line_counts_bytes_of_multibyte_text() {
    let text = "é\nü\n";
    assert_eq!(text.len(), 6);
    assert_eq!(error_line(text, 3), 1);
    assert_eq!(error_line(text, 6), 2);
    assert_eq!(error_line(text, 6) as usize, text[..6].chars().filter(|c| *c == '\n').count());
}

#[test]
fn error_line_is_monotone() {
    let text = "<a>\n<b>\n\n</b>\n</a>";
    let mut last = 0;
    for p in 0..=text.len() {
        let l = error_line(text, p as u64);
        assert!(l >= last);
        assert!(l as usize <= p);
        last = l;
    }
}

#[test]
fn successful_conversion_becomes_a_result() {
    let ask = to_convert("theme.ask", "<Ableton/>");
    let entry = finish_conversion(&ask, Ok("<Converted/>".to_string()));
    let result = entry.ok().unwrap();
    assert_eq!(
        result,
        Ask {
            name: "theme.ask".into(),
            contents: "<Converted/>".into(),
            version: LiveVersion::Live12,
            to_version: None,
        }
    );
    assert!(result.is_converted());
}

#[test]
fn failed_conversion_reports_the_line() {
    let ask = to_convert("broken.ask", "<Ableton>\n<Theme>\n<oops");
    let failure = ParseFailure { cause: DeError::Custom("bad".to_string()), position: 17 };
    let entry = finish_conversion(&ask, Err(failure));
    let err: DeErrorWrapper = match entry {
        Ok(_) => panic!("expected an error"),
        Err(e) => e,
    };
    assert_eq!(err.name, "broken.ask");
    assert_eq!(err.line_number, 1);
    assert_eq!(err.cause.to_string(), "bad");
    assert_eq!(err.error_label(), "Error on line 1");
}

#[test]
fn error_label_text() {
    let err = DeErrorWrapper { name: "x".into(), cause: DeError::UnexpectedEof, line_number: 1234 };
    assert_eq!(err.error_label(), "Error on line 1234");
}

#[test]
fn convert_all_keeps_order() {
    let asks = vec![
        to_convert("a", "<a/>"),
        to_convert("b", "x\ny\nz"),
        to_convert("c", "<c/>"),
    ];
    let outcomes = vec![
        Ok("A".to_string()),
        Err(ParseFailure { cause: DeError::KeyNotRead, position: 4 }),
        Ok("C".to_string()),
    ];
    let entries = convert_all(&asks, outcomes);
    assert_eq!(entries.len(), 3);
    match &entries[0] {
        Ok(a) => {
            assert_eq!(a.name, "a");
            assert_eq!(a.contents, "A");
        }
        Err(_) => panic!("first should convert"),
    }
    match &entries[1] {
        Ok(_) => panic!("second should fail"),
        Err(e) => {
            assert_eq!(e.name, "b");
            assert_eq!(e.line_number, 2);
        }
    }
    match &entries[2] {
        Ok(a) => assert_eq!(a.contents, "C"),
        Err(_) => panic!("third should convert"),
    }
}

#[test]
fn convert_all_of_nothing() {
    let entries = convert_all(&Vec::new(), Vec::new());
    assert!(entries.is_empty());
}

#[test]
fn error_line_matches_newline_characters_at_char_boundaries() {
    let text = "ä\n日本\n🎹 x\n\nz";
    for (offset, _) in text.char_indices().chain(std::iter::once((text.len(), ' '))) {
        let expected = text[..offset].chars().filter(|c| *c == '\n').count();
        assert_eq!(error_line(text, offset as u64) as usize, expected);
    }
}
