use plottypus::decoder::{accepts_numeric_line, decode, trim_line};

fn lines(out: &[Vec<u8>]) -> Vec<String> {
    out.iter().map(|l| String::from_utf8(l.clone()).unwrap()).collect()
}

#[test]
fn decode_mixed_chunk() {
    let out = decode(b"abc\n12.5\n \n-3.0e2\n");
    assert_eq!(lines(&out), vec!["12.5".to_string(), "-3.0e2".to_string()]);
    let values: Vec<f64> = out
        .iter()
        .map(|l| std::str::from_utf8(l).unwrap().parse::<f64>().unwrap())
        .collect();
    assert_eq!(values, vec![12.5, -300.0]);
}

#[test]
fn decode_is_deterministic() {
    let chunk = b"1.0\nx\n2.5e-1\n";
    assert_eq!(decode(chunk), decode(chunk));
}

#[test]
fn decode_final_partial_line_is_attempted() {
    let out = decode(b"3.14");
    assert_eq!(lines(&out), vec!["3.14".to_string()]);
}

#[test]
fn decode_skips_whole_non_utf8_chunk() {
    let out = decode(b"12.5\n\xff\xfe\n7.0\n");
    assert!(out.is_empty());
}

#[test]
fn decode_crlf_lines() {
    let out = decode(b"1.0\r\n2.0\r\n");
    assert_eq!(lines(&out), vec!["1.0".to_string(), "2.0".to_string()]);
}

#[test]
fn decode_garbage_only_yields_nothing() {
    assert!(decode(b"\n \nhello\n--\n0x10\n1_000\n").is_empty());
    assert!(decode(b"").is_empty());
}

#[test]
fn decode_trims_surrounding_whitespace() {
    let out = decode(b"\t 42.0 \r\n");
    assert_eq!(lines(&out), vec!["42.0".to_string()]);
}

#[test]
fn acceptance_agrees_with_std_parse() {
    let cases: [&str; 30] = [
        "12.5", "-3.0e2", "+inf", "INFINITY", "-infinity", "nan", "NaN", "1.", ".5", "1e5",
        "1E+5", "1.e5", "0.", "+0", "007", "2.5E10", "1e-3", "-.25", "1e", "e5", ".", "+", "-",
        "", "1.2.3", "12abc", "0x10", "1_000", "1e+", "infinit",
    ];
    for case in cases {
        assert_eq!(
            accepts_numeric_line(case.as_bytes()),
            case.parse::<f64>().is_ok(),
            "disagreement on {:?}",
            case
        );
    }
}

#[test]
fn trim_matches_std_trim_on_ascii() {
    let cases: [&str; 6] = [" 12.5 ", "\t-3\r", "", "   ", "a b", "\r\n7\r\n"];
    for case in cases {
        assert_eq!(
            trim_line(case.as_bytes()),
            case.trim().as_bytes().to_vec(),
            "disagreement on {:?}",
            case
        );
    }
}

#[test]
fn trim_matches_std_trim_on_unicode_whitespace() {
    let cases: [&str; 9] = [
        "\u{00A0}12.5\u{2000}",
        " \u{3000}7\u{202F} ",
        "\u{1680}nan\u{0085}",
        "\u{2028}x\u{2029}",
        "\u{205F}\u{2009}",
        "\u{00A0}",
        "\u{200A}1\u{2001}\u{2002}\u{2003}",
        "a\u{00A0}b",
        "\u{00AB}quoted\u{00BB}",
    ];
    for case in cases {
        assert_eq!(
            trim_line(case.as_bytes()),
            case.trim().as_bytes().to_vec(),
            "disagreement on {:?}",
            case
        );
    }
}

#[test]
fn decode_accepts_lines_padded_with_unicode_whitespace() {
    let chunk = "\u{00A0}12.5\u{2000}\n\u{3000}-3.0e2 \n".as_bytes();
    let out = decode(chunk);
    assert_eq!(lines(&out), vec!["12.5".to_string(), "-3.0e2".to_string()]);
}
