use oxidized_relay::analysis::FrameReport;
use oxidized_relay::decode::{DecodedField, DecodedValue};
use oxidized_relay::proto::CsHead;
use oxidized_relay::render::{
    frame_lines, invalid_frame_lines, report_lines, stream_header_lines, stream_lines, summary_lines, FrameInfo, Piece,
    Style,
};
use oxidized_relay::tcp::{IpAddress, StreamKey};

fn text(lines: &[Vec<Piece>]) -> Vec<String> {
    lines.iter().map(|l| l.iter().map(|p| p.text.as_str()).collect::<String>()).collect()
}

fn styles(line: &[Piece]) -> Vec<Style> {
    line.iter().map(|p| p.style).collect()
}

fn v4(a: u8, b: u8, c: u8, d: u8) -> IpAddress {
    IpAddress::V4(u32::from_be_bytes([a, b, c, d]))
}

#[test]
fn summary_lines_text() {
    let lines = summary_lines(247, 241, 3, 3);
    let bar = "═".repeat(70);
    assert_eq!(
        text(&lines),
        vec![
            String::new(),
            bar.clone(),
            " Summary  total=247  valid=241  crc_fail=3  skipped=3".to_string(),
            bar,
        ]
    );
    assert_eq!(styles(&lines[1]), vec![Style::Cyan]);
    assert_eq!(lines[2][4].style, Style::BoldGreen);
    assert_eq!(lines[2][8].style, Style::BoldRed);
}

#[test]
fn invalid_frame_lines_text() {
    let lines = invalid_frame_lines(3, &[0x0b, 0xff], &[]);
    assert_eq!(
        text(&lines),
        vec![
            String::new(),
            "▶ Frame #3 [invalid / skipped]".to_string(),
            "─".repeat(70),
            "    head (2 B): 0bff".to_string(),
            "    body (0 B): ".to_string(),
        ]
    );
    assert_eq!(styles(&lines[3]), vec![Style::Plain, Style::Dimmed]);
}

#[test]
fn stream_header_fits_the_box() {
    let key = StreamKey::new(v4(192, 168, 1, 50), 54321, v4(192, 168, 1, 100), 8080);
    let lines = stream_header_lines(&key, 42);
    let bar = "═".repeat(72);
    assert_eq!(
        text(&lines),
        vec![
            String::new(),
            format!("╔{}╗", bar),
            "║    TCP Stream  192.168.1.50:54321 → 192.168.1.100:8080  (42 frames)  ║".to_string(),
            format!("╚{}╝", bar),
        ]
    );
}

#[test]
fn stream_header_short_label_is_padded() {
    let key = StreamKey::new(v4(1, 2, 3, 4), 5, v4(6, 7, 8, 9), 10);
    let lines = stream_header_lines(&key, 1);
    let label = "  TCP Stream  1.2.3.4:5 → 6.7.8.9:10  (1 frames)  ";
    let pad = 70 - label.len();
    assert_eq!(lines[2][2].text, label);
    assert_eq!(lines[2][3].text, " ".repeat(pad));
    assert_eq!(lines[1][1].text, "═".repeat(72));
}

#[test]
fn stream_header_long_label_widens_the_box() {
    let a = IpAddress::V6(u128::MAX);
    let key = StreamKey::new(a, 65535, a, 65535);
    let lines = stream_header_lines(&key, 123456);
    let label = lines[2][2].text.clone();
    assert!(label.len() > 70);
    assert_eq!(lines[2][3].text, "");
    assert_eq!(lines[1][1].text, "═".repeat(label.len() + 2));
}

fn sample_head() -> CsHead {
    CsHead {
        msgid: 1001,
        up_seqid: 1,
        down_seqid: 0,
        total_pack_count: 1,
        current_pack_index: 0,
        is_compress: false,
        checksum: 0xA1B2C3D4,
    }
}

#[test]
fn frame_lines_with_schema() {
    let head = sample_head();
    let fields = vec![
        DecodedField { number: 1, name: Some("account_id".to_string()), value: DecodedValue::Uint(123456789) },
        DecodedField { number: 2, name: Some("token".to_string()), value: DecodedValue::Text("ab\"c".to_string()) },
        DecodedField {
            number: 3,
            name: None,
            value: DecodedValue::Nested(vec![DecodedField { number: 1, name: None, value: DecodedValue::Bool(false) }]),
        },
        DecodedField { number: 4, name: None, value: DecodedValue::Bytes(vec![0xde, 0xad]) },
        DecodedField { number: 5, name: None, value: DecodedValue::Int(-7) },
    ];
    let info = FrameInfo {
        frame_index: 1,
        is_plaintext: false,
        head: &head,
        body_fields: Some(&fields),
        msg_type: Some("LoginReq"),
        crc_ok: true,
        raw_head: &[1, 2],
        raw_body: &[3],
        show_raw: false,
    };
    let lines = frame_lines(&info);
    assert_eq!(
        text(&lines),
        vec![
            "".to_string(),
            "▶ Frame #1   encrypted  │  msgid: 1001  (LoginReq)".to_string(),
            "─".repeat(70),
            "  [CSHead]".to_string(),
            format!("    {:25} {}", "msgid:", 1001),
            format!("    {:25} {}", "up_seqid:", 1),
            format!("    {:25} {}", "down_seqid:", 0),
            format!("    {:25} {}", "total_pack_count:", 1),
            format!("    {:25} {}", "current_pack_index:", 0),
            format!("    {:25} {}", "is_compress:", false),
            format!("    {:25} {}  ✓", "checksum:", "0xA1B2C3D4"),
            "".to_string(),
            "  [Body: LoginReq]".to_string(),
            format!("    {:30}  123456789", "account_id (1):"),
            format!("    {:30}  ab\"c", "token (2):"),
            "    field_3:".to_string(),
            format!("      {:30}  false", "field_1:"),
            format!("    {:30}  <bytes 2 B> dead", "field_4:"),
            format!("    {:30}  -7", "field_5:"),
        ]
    );
    assert_eq!(lines[1][2].style, Style::Green);
    assert_eq!(lines[14][3].style, Style::Quoted);
    assert_eq!(lines[16][3].style, Style::Red);
}

#[test]
fn frame_lines_plaintext_unparsed_body_and_raw() {
    let head = CsHead { msgid: -2, checksum: 0x1F, ..CsHead::default() };
    let info = FrameInfo {
        frame_index: 0,
        is_plaintext: true,
        head: &head,
        body_fields: None,
        msg_type: None,
        crc_ok: false,
        raw_head: &[0x08, 0x7e],
        raw_body: b"AB",
        show_raw: true,
    };
    let t = text(&frame_lines(&info));
    assert_eq!(t[1], "▶ Frame #0   plaintext  │  msgid: -2");
    assert_eq!(t[4], format!("    {:25} {}", "msgid:", -2));
    assert_eq!(t[10], format!("    {:25} 0x{:08X}  ✗ mismatch", "checksum:", 0x1F));
    assert_eq!(
        t[11..].to_vec(),
        vec![
            "".to_string(),
            "  [Body]".to_string(),
            "    (could not parse body as protobuf, showing hex)".to_string(),
            "        41 42  AB".to_string(),
            "".to_string(),
            "  [Raw Bytes]".to_string(),
            "    head (2 B): 087e".to_string(),
            "    body (2 B): 4142".to_string(),
        ]
    );
}

#[test]
fn frame_lines_empty_body() {
    let head = sample_head();
    let fields: Vec<DecodedField> = vec![];
    let info = FrameInfo {
        frame_index: 9,
        is_plaintext: false,
        head: &head,
        body_fields: Some(&fields),
        msg_type: Some("Ping"),
        crc_ok: true,
        raw_head: &[],
        raw_body: &[],
        show_raw: false,
    };
    let t = text(&frame_lines(&info));
    assert_eq!(t.len(), 13);
    assert_eq!(t[12], "  [Body] (empty)");
}

fn report(cshead: Option<CsHead>, crc_ok: bool) -> FrameReport {
    FrameReport {
        index: 4,
        is_plaintext: false,
        head: vec![0x08, 0x01],
        body: vec![0x08, 0x02],
        cshead,
        crc_ok,
        msg_type: Some("Move".to_string()),
        body_fields: Some(vec![DecodedField { number: 1, name: Some("x".to_string()), value: DecodedValue::Uint(2) }]),
    }
}

#[test]
fn report_lines_hides_invalid_frames_unless_asked() {
    let bad_head = FrameReport { msg_type: None, body_fields: None, ..report(None, false) };
    assert!(report_lines(&bad_head, false, false).is_empty());
    assert_eq!(
        text(&report_lines(&bad_head, true, false)),
        text(&invalid_frame_lines(4, &[0x08, 0x01], &[0x08, 0x02]))
    );

    let head = CsHead { msgid: 1, ..CsHead::default() };
    let crc_fail = report(Some(head), false);
    assert!(report_lines(&crc_fail, false, true).is_empty());
    let shown = text(&report_lines(&crc_fail, true, false));
    assert!(shown[10].ends_with("✗ mismatch"));
    assert_eq!(shown[12], "  [Body: Move]");
    assert_eq!(shown[13], format!("    {:30}  2", "x (1):"));
}

#[test]
fn report_lines_shows_good_frames() {
    let head = CsHead { msgid: 1, ..CsHead::default() };
    let good = report(Some(head), true);
    let lines = text(&report_lines(&good, false, true));
    assert_eq!(lines[1], "▶ Frame #4   encrypted  │  msgid: 1  (Move)");
    assert!(lines[10].ends_with("✓"));
    assert_eq!(lines[lines.len() - 1], "    body (2 B): 0802");
}

#[test]
fn stream_lines_header_then_frames() {
    let key = StreamKey::new(v4(1, 2, 3, 4), 5, v4(6, 7, 8, 9), 10);
    assert!(stream_lines(&key, &[], true, true).is_empty());
    let head = CsHead { msgid: 1, ..CsHead::default() };
    let reports = vec![report(Some(head), true), report(None, false), report(Some(head), false)];
    let lines = text(&stream_lines(&key, &reports, false, false));
    let header = text(&stream_header_lines(&key, 3));
    let first = text(&report_lines(&reports[0], false, false));
    assert_eq!(lines.len(), header.len() + first.len());
    assert_eq!(lines[..4].to_vec(), header);
    assert_eq!(lines[4..].to_vec(), first);
    assert!(lines[2].contains("(3 frames)"));
}
