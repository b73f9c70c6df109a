use icy_meta::frame::{FrameMachine, State};
use icy_meta::meta::{decode_meta, decode_meta_block, DecodeError, Record};

/// Pads `text` with NUL bytes to a multiple of 16 and returns the padded
/// block together with its length marker byte.
fn make_block(text: &str) -> (u8, Vec<u8>) {
    let mut block = text.as_bytes().to_vec();
    while block.len() % 16 != 0 || block.is_empty() {
        block.push(0);
    }
    assert!(block.len() <= 4080);
    ((block.len() / 16) as u8, block)
}

/// One full cycle: `metaint` audio bytes, the length marker, the block.
fn make_cycle(metaint: usize, text: &str) -> Vec<u8> {
    let mut bytes = vec![0xAAu8; metaint];
    let (marker, block) = make_block(text);
    bytes.push(marker);
    bytes.extend(block);
    bytes
}

fn titles_of(records: &[Record]) -> Vec<Option<String>> {
    records.iter().map(|r| r.get("StreamTitle")).collect()
}

#[test]
fn whole_cycle_single_chunk() {
    let mut m = FrameMachine::new(8);
    let bytes = make_cycle(8, "StreamTitle='Artist - Song';");
    let (records, err) = m.push_chunk(&bytes);
    assert!(err.is_none());
    assert_eq!(records.len(), 1);
    assert_eq!(records[0].get("StreamTitle"), Some("Artist - Song".to_string()));
}

#[test]
fn chunk_boundary_invariance_byte_at_a_time() {
    let bytes = make_cycle(7, "StreamTitle='Some Song';StreamUrl='http://x';");

    let mut whole = FrameMachine::new(7);
    let (whole_records, whole_err) = whole.push_chunk(&bytes);
    assert!(whole_err.is_none());

    let mut split = FrameMachine::new(7);
    let mut split_records = Vec::new();
    for b in &bytes {
        let (records, err) = split.push_chunk(&vec![*b]);
        assert!(err.is_none());
        split_records.extend(records);
    }

    assert_eq!(whole_records.len(), 1);
    assert_eq!(split_records.len(), 1);
    assert_eq!(titles_of(&whole_records), titles_of(&split_records));
    assert_eq!(
        whole_records[0].get("StreamUrl"),
        split_records[0].get("StreamUrl")
    );
}

#[test]
fn chunk_boundary_invariance_odd_pieces() {
    let mut bytes = make_cycle(16, "StreamTitle='A';");
    bytes.extend(make_cycle(16, "StreamTitle='B';"));

    let mut whole = FrameMachine::new(16);
    let (whole_records, whole_err) = whole.push_chunk(&bytes);
    assert!(whole_err.is_none());

    let mut split = FrameMachine::new(16);
    let mut split_records = Vec::new();
    for piece in bytes.chunks(5) {
        let (records, err) = split.push_chunk(&piece.to_vec());
        assert!(err.is_none());
        split_records.extend(records);
    }

    assert_eq!(titles_of(&whole_records), titles_of(&split_records));
    assert_eq!(whole_records.len(), 2);
}

#[test]
fn zero_length_marker_emits_nothing_and_resumes() {
    let mut m = FrameMachine::new(4);
    // a cycle with marker 0: no block follows
    let mut bytes = vec![0u8; 4];
    bytes.push(0);
    let (records, err) = m.push_chunk(&bytes);
    assert!(err.is_none());
    assert_eq!(records.len(), 0);
    // the machine resumed skipping 4 audio bytes: the next cycle works
    let next = make_cycle(4, "StreamTitle='After';");
    let (records, err) = m.push_chunk(&next);
    assert!(err.is_none());
    assert_eq!(records.len(), 1);
    assert_eq!(records[0].get("StreamTitle"), Some("After".to_string()));
}

#[test]
fn max_length_marker_waits_for_4080_bytes() {
    let mut m = FrameMachine::new(1);
    let mut text = String::from("StreamTitle='Max';");
    while text.len() < 4080 {
        text.push('\0');
    }
    let block = text.as_bytes().to_vec();
    assert_eq!(block.len(), 4080);

    let mut bytes = vec![0u8];
    bytes.push(255);
    bytes.extend(&block[..4079]);
    let (records, err) = m.push_chunk(&bytes);
    assert!(err.is_none());
    assert_eq!(records.len(), 0, "machine must wait, not emit");

    let (records, err) = m.push_chunk(&vec![block[4079]]);
    assert!(err.is_none());
    assert_eq!(records.len(), 1);
    assert_eq!(records[0].get("StreamTitle"), Some("Max".to_string()));
}

#[test]
fn decode_two_fields() {
    let rec = decode_meta("StreamTitle='Artist - Song';StreamUrl='http://x';");
    assert_eq!(rec.get("StreamTitle"), Some("Artist - Song".to_string()));
    assert_eq!(rec.get("StreamUrl"), Some("http://x".to_string()));
    assert_eq!(rec.get("Missing"), None);
}

#[test]
fn decode_unterminated_final_field_drops_quote() {
    // the final field lacks the closing `';`: its terminating quote is
    // dropped, as the split drops it for every earlier field
    let rec = decode_meta("StreamTitle='Artist - Song';StreamUrl='http://x'");
    assert_eq!(rec.get("StreamTitle"), Some("Artist - Song".to_string()));
    assert_eq!(rec.get("StreamUrl"), Some("http://x".to_string()));
}

#[test]
fn decode_truncated_final_field_kept_as_is() {
    // a final field cut off before its closing quote: nothing to drop
    let rec = decode_meta("StreamTitle='Artist - Song';StreamUrl='http://x");
    assert_eq!(rec.get("StreamUrl"), Some("http://x".to_string()));
}

#[test]
fn decode_final_field_keeps_embedded_quote() {
    // only the single terminating quote goes; an embedded one stays
    let rec = decode_meta("K='a''");
    assert_eq!(rec.get("K"), Some("a'".to_string()));
}

#[test]
fn decode_nul_padding_only() {
    let rec = decode_meta("\0\0\0\0\0\0\0\0");
    assert_eq!(rec.get("StreamTitle"), None);
    assert_eq!(rec.pairs.len(), 0);

    let r = decode_meta_block(vec![0u8; 16]);
    assert!(r.is_ok());
    assert_eq!(r.unwrap().pairs.len(), 0);
}

#[test]
fn decode_drops_malformed_segment() {
    let rec = decode_meta("garbage';StreamTitle='Song';");
    assert_eq!(rec.get("StreamTitle"), Some("Song".to_string()));
    assert_eq!(rec.get("garbage"), None);
    assert_eq!(rec.pairs.len(), 1);
}

#[test]
fn decode_trims_whitespace_then_nul() {
    let rec = decode_meta("  StreamTitle='Song'; \0\0");
    assert_eq!(rec.get("StreamTitle"), Some("Song".to_string()));
}

#[test]
fn decode_invalid_utf8_is_an_error() {
    let mut block = vec![0xFFu8, 0xFE];
    block.extend(vec![0u8; 14]);
    let r = decode_meta_block(block);
    assert_eq!(r.err(), Some(DecodeError::InvalidEncoding));
}

#[test]
fn invalid_utf8_block_aborts_the_stream() {
    let mut m = FrameMachine::new(2);
    let mut bytes = vec![0u8; 2];
    bytes.push(1);
    bytes.push(0xFF);
    bytes.extend(vec![0xFEu8; 15]);
    let (records, err) = m.push_chunk(&bytes);
    assert_eq!(err, Some(DecodeError::InvalidEncoding));
    assert_eq!(records.len(), 0);
}

#[test]
fn records_before_a_decode_error_are_returned() {
    // one valid cycle, then one whose block is invalid UTF-8, in one chunk:
    // the valid record comes back beside the error
    let mut m = FrameMachine::new(2);
    let mut bytes = make_cycle(2, "StreamTitle='Good';");
    bytes.extend(vec![0xAAu8; 2]);
    bytes.push(1);
    bytes.push(0xFF);
    bytes.extend(vec![0xFEu8; 15]);
    let (records, err) = m.push_chunk(&bytes);
    assert_eq!(err, Some(DecodeError::InvalidEncoding));
    assert_eq!(records.len(), 1);
    assert_eq!(records[0].get("StreamTitle"), Some("Good".to_string()));
}

#[test]
fn multibyte_titles_decode_to_characters() {
    // a non-ASCII title: the block's bytes are longer than its characters,
    // so the decoder must really decode UTF-8, not pass bytes through
    let mut m = FrameMachine::new(3);
    let bytes = make_cycle(3, "StreamTitle='Dvo\u{159}\u{e1}k';");
    let (records, err) = m.push_chunk(&bytes);
    assert!(err.is_none());
    assert_eq!(records.len(), 1);
    assert_eq!(
        records[0].get("StreamTitle"),
        Some("Dvo\u{159}\u{e1}k".to_string())
    );
}

#[test]
fn two_cycles_emit_two_records_in_order() {
    let mut m = FrameMachine::new(6);
    let mut bytes = make_cycle(6, "StreamTitle='First Song';");
    bytes.extend(make_cycle(6, "StreamTitle='Second Song';"));
    let (records, err) = m.push_chunk(&bytes);
    assert!(err.is_none());
    assert_eq!(records.len(), 2);
    assert_eq!(records[0].get("StreamTitle"), Some("First Song".to_string()));
    assert_eq!(records[1].get("StreamTitle"), Some("Second Song".to_string()));
}

#[test]
fn last_occurrence_of_a_key_wins() {
    let rec = decode_meta("StreamTitle='A';StreamTitle='B';");
    assert_eq!(rec.get("StreamTitle"), Some("B".to_string()));
    assert_eq!(rec.pairs.len(), 1);
}

#[test]
fn record_insert_overwrites() {
    let mut rec = Record::new();
    rec.insert("k".to_string(), "v1".to_string());
    rec.insert("k".to_string(), "v2".to_string());
    rec.insert("other".to_string(), "w".to_string());
    assert_eq!(rec.get("k"), Some("v2".to_string()));
    assert_eq!(rec.get("other"), Some("w".to_string()));
    assert_eq!(rec.pairs.len(), 2);
}

#[test]
fn bytes_to_consume_per_state() {
    assert_eq!(State::SkipAudio(8192).bytes_to_consume(), 8192);
    assert_eq!(State::MetaHeader.bytes_to_consume(), 1);
    assert_eq!(State::CaptureMeta(4080).bytes_to_consume(), 4080);
    assert_eq!(State::CaptureMeta(0).bytes_to_consume(), 0);
}

#[test]
fn audio_bytes_are_discarded_without_interpretation() {
    // arbitrary (even invalid-UTF-8) audio bytes never reach the decoder
    let mut m = FrameMachine::new(5);
    let mut bytes = vec![0xFFu8, 0x00, 0xFE, 0x80, 0xC0];
    bytes.push(1);
    bytes.extend("StreamTitle='X';".as_bytes());
    let (records, err) = m.push_chunk(&bytes);
    assert!(err.is_none());
    assert_eq!(records.len(), 1);
    assert_eq!(records[0].get("StreamTitle"), Some("X".to_string()));
}

#[test]
fn partial_cycle_leaves_machine_waiting() {
    let mut m = FrameMachine::new(100);
    let (records, err) = m.push_chunk(&vec![0u8; 99]);
    assert!(err.is_none());
    assert_eq!(records.len(), 0);
    let (records, err) = m.push_chunk(&vec![0u8]);
    assert!(err.is_none());
    assert_eq!(records.len(), 0);
    // next byte is the marker
    let mut rest = vec![1u8];
    rest.extend("StreamTitle='Y';".as_bytes());
    let (records, err) = m.push_chunk(&rest);
    assert!(err.is_none());
    assert_eq!(records.len(), 1);
    assert_eq!(records[0].get("StreamTitle"), Some("Y".to_string()));
}
