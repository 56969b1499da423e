use git_ast::pktline::{frame_head, FrameHead};
use git_ast::pktline::{
    read_packet, read_until_flush, write_content, write_flush, write_packet, write_text_packet, Packet,
    MAX_PAYLOAD,
};

#[test]
fn roundtrips_a_text_packet() {
    let mut buf = Vec::new();
    write_text_packet(&mut buf, "version=2").unwrap();
    assert_eq!(buf, b"000eversion=2\n");
    let pkt = read_packet(&mut &buf[..]).unwrap().unwrap();
    assert_eq!(pkt, Packet::Data(b"version=2\n".to_vec()));
}

#[test]
fn flush_roundtrips() {
    let mut buf = Vec::new();
    write_flush(&mut buf).unwrap();
    assert_eq!(buf, b"0000");
    assert_eq!(read_packet(&mut &buf[..]).unwrap().unwrap(), Packet::Flush);
}

#[test]
fn reads_a_section_until_flush() {
    let mut wire = Vec::new();
    write_packet(&mut wire, b"hello ").unwrap();
    write_packet(&mut wire, b"world").unwrap();
    write_flush(&mut wire).unwrap();
    let got = read_until_flush(&mut &wire[..]).unwrap().unwrap();
    assert_eq!(got, b"hello world");
}

#[test]
fn chunks_large_content() {
    let big = vec![b'x'; MAX_PAYLOAD * 2 + 7];
    let mut wire = Vec::new();
    write_content(&mut wire, &big).unwrap();
    let got = read_until_flush(&mut &wire[..]).unwrap().unwrap();
    assert_eq!(got, big);
}

#[test]
fn eof_before_any_packet_is_none() {
    let empty: &[u8] = b"";
    assert!(read_packet(&mut &empty[..]).unwrap().is_none());
}

#[test]
fn write_packet_prefixes_lowercase_hex_length() {
    let mut buf = Vec::new();
    write_packet(&mut buf, &[7u8; 0x2b]).unwrap();
    assert_eq!(&buf[..4], b"002f");
    assert_eq!(buf.len(), 4 + 0x2b);
}

#[test]
fn malformed_lengths_are_errors() {
    let short: &[u8] = b"00";
    assert!(read_packet(&mut &short[..]).is_err());
    let bad: &[u8] = b"zz12";
    assert!(read_packet(&mut &bad[..]).is_err());
    let tiny: &[u8] = b"0003";
    assert!(read_packet(&mut &tiny[..]).is_err());
    let truncated: &[u8] = b"0010abc";
    assert!(read_packet(&mut &truncated[..]).is_err());
}

#[test]
fn section_cut_off_before_flush_is_an_error() {
    let mut wire = Vec::new();
    write_packet(&mut wire, b"partial").unwrap();
    assert!(read_until_flush(&mut &wire[..]).is_err());
    let empty: &[u8] = b"";
    assert!(read_until_flush(&mut &empty[..]).unwrap().is_none());
}

#[test]
fn content_roundtrip_leaves_what_follows() {
    let content = vec![b'y'; MAX_PAYLOAD + 1];
    let mut wire = Vec::new();
    write_content(&mut wire, &content).unwrap();
    wire.extend_from_slice(b"0000");
    let mut r = &wire[..];
    assert_eq!(read_until_flush(&mut r).unwrap().unwrap(), content);
    assert_eq!(r, b"0000");
    let mut empty_wire = Vec::new();
    write_content(&mut empty_wire, b"").unwrap();
    assert_eq!(empty_wire, b"0000");
}

#[test]
fn length_prefix_must_be_lowercase_hex() {
    assert!(read_packet(&mut &b"000Ehello\n"[..]).is_err());
    assert!(read_packet(&mut &b"+00ehello\n"[..]).is_err());
    assert!(read_packet(&mut &b"000ehello\n"[..]).is_err());
    assert_eq!(read_packet(&mut &b"000ahello\n"[..]).unwrap().unwrap(), Packet::Data(b"hello\n".to_vec()));
}

#[test]
fn frame_head_reads_flush_data_and_invalid_prefixes() {
    assert_eq!(frame_head(b"0000"), FrameHead::Flush);
    assert_eq!(frame_head(b"000a"), FrameHead::Data(6));
    assert_eq!(frame_head(b"0003"), FrameHead::Invalid);
    assert_eq!(frame_head(b"00A0"), FrameHead::Invalid);
}

fn io_kind(r: Result<Option<Packet>, git_ast::Error>) -> std::io::ErrorKind {
    match r {
        Err(git_ast::Error::Io(e)) => e.kind(),
        _ => panic!("expected an I/O error"),
    }
}

#[test]
fn malformed_frames_report_invalid_data_and_cut_payloads_unexpected_eof() {
    assert_eq!(io_kind(read_packet(&mut &b"00"[..])), std::io::ErrorKind::InvalidData);
    assert_eq!(io_kind(read_packet(&mut &b"zz12"[..])), std::io::ErrorKind::InvalidData);
    assert_eq!(io_kind(read_packet(&mut &b"0002"[..])), std::io::ErrorKind::InvalidData);
    assert_eq!(io_kind(read_packet(&mut &b"0010abc"[..])), std::io::ErrorKind::UnexpectedEof);
    let mut wire = Vec::new();
    write_packet(&mut wire, b"partial").unwrap();
    match read_until_flush(&mut &wire[..]) {
        Err(git_ast::Error::Io(e)) => assert_eq!(e.kind(), std::io::ErrorKind::InvalidData),
        _ => panic!("expected an I/O error"),
    }
}
