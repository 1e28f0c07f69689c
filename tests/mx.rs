use mx_rdata::binary::{BinDecoder, BinEncoder};
use mx_rdata::error::{DecodeError, EncodeError, Field, NameTextError, ParseError};
use mx_rdata::mx::{emit, parse, read, MX};
use mx_rdata::name::Name;
use mx_rdata::txt::{parse_u16, Token};

fn mail_example_com() -> Name {
    Name::new().label("mail").label("example").label("com")
}

fn encode(rdata: &MX, canonical: bool) -> Vec<u8> {
    let mut encoder = BinEncoder::with_canonical_names(canonical);
    assert!(emit(&mut encoder, rdata).is_ok());
    encoder.into_bytes()
}

fn chars(s: &str) -> Token {
    Token::CharData(s.to_string())
}

const MAIL_WIRE: [u8; 20] = [
    0, 16, 4, b'm', b'a', b'i', b'l', 7, b'e', b'x', b'a', b'm', b'p', b'l', b'e', 3, b'c', b'o',
    b'm', 0,
];

#[test]
pub fn test() {
    let rdata = MX::new(16, Name::new().label("mail").label("example").label("com"));

    let mut encoder: BinEncoder = BinEncoder::new();
    assert!(emit(&mut encoder, &rdata).is_ok());
    let bytes = encoder.as_bytes();

    println!("bytes: {:?}", bytes);

    let mut decoder: BinDecoder = BinDecoder::new(bytes.clone());
    let read_rdata = read(&mut decoder);
    assert!(read_rdata.is_ok(), "{}", format!("error decoding: {:?}", read_rdata.as_ref().unwrap_err()));
    assert_eq!(rdata, read_rdata.unwrap());
}

#[test]
fn wire_bytes_exact() {
    let rdata = MX::new(16, mail_example_com());
    assert_eq!(encode(&rdata, false), MAIL_WIRE.to_vec());
    assert_eq!(encode(&rdata, true), MAIL_WIRE.to_vec());
}

#[test]
fn preference_in_network_order() {
    let rdata = MX::new(0x1234, Name::new().label("a"));
    let bytes = encode(&rdata, false);
    assert_eq!(bytes, vec![0x12, 0x34, 1, b'a', 0]);
    assert_eq!(bytes.len(), 2 + 3);
}

#[test]
fn canonical_mode_lowers_exchange() {
    let upper = MX::new(16, Name::new().label("Mail").label("example").label("com"));
    let lower = MX::new(16, mail_example_com());
    assert_eq!(encode(&upper, true), encode(&lower, false));
    assert_eq!(encode(&upper, true), MAIL_WIRE.to_vec());
    let kept = encode(&upper, false);
    assert_eq!(kept[3], b'M');
    assert_ne!(kept, MAIL_WIRE.to_vec());
    // the stored value keeps its case
    assert_eq!(upper.exchange().to_string(), "Mail.example.com.");
}

#[test]
fn round_trip_canonical_and_plain() {
    let upper = MX::new(65535, Name::new().label("MX1").label("Example").label("org"));
    let mut d = BinDecoder::new(encode(&upper, false));
    assert_eq!(read(&mut d).unwrap(), upper);
    assert_eq!(d.index(), d.len());
    let mut d = BinDecoder::new(encode(&upper, true));
    let lowered = read(&mut d).unwrap();
    assert_eq!(lowered, MX::new(65535, Name::new().label("mx1").label("example").label("org")));
    assert_eq!(lowered.preference(), 65535);
}

#[test]
fn root_exchange() {
    let rdata = MX::new(0, Name::new());
    let bytes = encode(&rdata, false);
    assert_eq!(bytes, vec![0, 0, 0]);
    let mut d = BinDecoder::new(bytes);
    assert_eq!(read(&mut d).unwrap(), rdata);
    assert_eq!(rdata.to_string(), "0 .");
}

#[test]
fn truncated_input() {
    assert_eq!(read(&mut BinDecoder::new(vec![])), Err(DecodeError::InsufficientData));
    assert_eq!(read(&mut BinDecoder::new(vec![0])), Err(DecodeError::InsufficientData));
    assert_eq!(read(&mut BinDecoder::new(vec![0, 16])), Err(DecodeError::InsufficientData));
    assert_eq!(read(&mut BinDecoder::new(MAIL_WIRE[..6].to_vec())), Err(DecodeError::InsufficientData));
    assert_eq!(read(&mut BinDecoder::new(MAIL_WIRE[..19].to_vec())), Err(DecodeError::InsufficientData));
}

#[test]
fn reserved_label_code() {
    assert_eq!(read(&mut BinDecoder::new(vec![0, 1, 0x40])), Err(DecodeError::UnrecognizedLabelCode(0x40)));
    assert_eq!(read(&mut BinDecoder::new(vec![0, 1, 0x80])), Err(DecodeError::UnrecognizedLabelCode(0x80)));
}

#[test]
fn compression_pointer_backwards() {
    // "example.com" at offset 0, then the record data at offset 13
    let mut buf: Vec<u8> = vec![7, b'e', b'x', b'a', b'm', b'p', b'l', b'e', 3, b'c', b'o', b'm', 0];
    buf.extend_from_slice(&[0, 10, 4, b'm', b'a', b'i', b'l', 0xC0, 0x00, 0xAA]);
    let mut d = BinDecoder::new(buf);
    // move the cursor past the first name
    assert_eq!(Name::read(&mut d).unwrap(), Name::new().label("example").label("com"));
    assert_eq!(d.index(), 13);
    let rdata = read(&mut d).unwrap();
    assert_eq!(rdata, MX::new(10, mail_example_com()));
    assert_eq!(d.index(), 22);
}

#[test]
fn compression_pointer_forward_rejected() {
    let mut d = BinDecoder::new(vec![0, 1, 0xC0, 0x02, 0]);
    assert_eq!(read(&mut d), Err(DecodeError::BadPointer(2)));
    let mut d = BinDecoder::new(vec![0, 1, 0xC0]);
    assert_eq!(read(&mut d), Err(DecodeError::InsufficientData));
}

#[test]
fn decoded_name_too_long() {
    let mut buf: Vec<u8> = vec![0, 1];
    for _ in 0..5 {
        buf.push(63);
        buf.extend_from_slice(&[b'a'; 63]);
    }
    buf.push(0);
    assert_eq!(read(&mut BinDecoder::new(buf)), Err(DecodeError::DomainNameTooLong));
}

#[test]
fn encoder_limit() {
    let rdata = MX::new(16, mail_example_com());
    let mut encoder = BinEncoder::new();
    let mut count: usize = 0;
    loop {
        match emit(&mut encoder, &rdata) {
            Ok(()) => count += 1,
            Err(e) => {
                assert_eq!(e, EncodeError::MaxBufferSizeExceeded(65535));
                break;
            }
        }
    }
    assert_eq!(count, 65535 / 20);
    // the failed record wrote its preference before the exchange did not fit
    assert_eq!(encoder.as_bytes().len(), count * 20 + 2);
    assert_eq!(encoder.as_bytes()[count * 20..].to_vec(), vec![0, 16]);
}

#[test]
fn text_form() {
    let rdata = MX::new(16, mail_example_com());
    assert_eq!(rdata.to_string(), "16 mail.example.com.");
    assert_eq!(Name::new().to_string(), ".");
}

#[test]
fn text_escapes_special_bytes() {
    let mut d = BinDecoder::new(vec![0, 5, 3, b'a', b'.', b'b', 2, b'c', b' ', 0]);
    let rdata = read(&mut d).unwrap();
    assert_eq!(rdata.to_string(), "5 a\\046b.c\\032.");
    let tokens = vec![chars("5"), chars("a\\046b.c\\032.")];
    assert_eq!(parse(&tokens, None).unwrap(), rdata);
    let tokens = vec![chars("5"), chars("a\\.b.c\\ .")];
    assert_eq!(parse(&tokens, None).unwrap(), rdata);
}

#[test]
fn parse_absolute() {
    let tokens = vec![chars("16"), chars("mail.example.com."), Token::EOL];
    let rdata = parse(&tokens, None).unwrap();
    assert_eq!(rdata, MX::new(16, mail_example_com()));
    assert_eq!(rdata.preference(), 16);
    assert_eq!(rdata.exchange(), &mail_example_com());
}

#[test]
fn parse_format_inverse() {
    let rdata = MX::new(300, Name::new().label("Mx").label("example").label("net"));
    let text = rdata.to_string();
    let tokens: Vec<Token> = text.split(' ').map(chars).collect();
    let other = Name::new().label("elsewhere");
    let back = parse(&tokens, Some(&other)).unwrap();
    assert_eq!(back, rdata);
    assert_eq!(back.to_string(), text);
}

#[test]
fn parse_relative_uses_origin() {
    let origin = Name::new().label("example").label("com");
    let tokens = vec![chars("10"), chars("mail")];
    assert_eq!(parse(&tokens, Some(&origin)).unwrap(), MX::new(10, mail_example_com()));
    assert_eq!(parse(&tokens, None), Err(ParseError::BadName(NameTextError::RelativeWithoutOrigin)));
}

#[test]
fn parse_missing_tokens() {
    assert_eq!(parse(&vec![], None), Err(ParseError::MissingToken(Field::Preference)));
    assert_eq!(parse(&vec![chars("16")], None), Err(ParseError::MissingToken(Field::Exchange)));
}

#[test]
fn parse_unexpected_token() {
    assert_eq!(parse(&vec![Token::Blank], None), Err(ParseError::UnexpectedToken(Token::Blank)));
    assert_eq!(
        parse(&vec![chars("1"), Token::StartList], None),
        Err(ParseError::UnexpectedToken(Token::StartList))
    );
}

#[test]
fn parse_plus_preference() {
    let tokens = vec![chars("+16"), chars("a.")];
    assert_eq!(parse(&tokens, None).unwrap(), MX::new(16, Name::new().label("a")));
    assert_eq!(parse(&vec![chars("+"), chars("a.")], None), Err(ParseError::BadNumber));
}

#[test]
fn parse_bad_numbers() {
    assert_eq!(parse(&vec![chars("65536"), chars("a.")], None), Err(ParseError::BadNumber));
    assert_eq!(parse(&vec![chars("x1"), chars("a.")], None), Err(ParseError::BadNumber));
    assert_eq!(parse(&vec![chars(""), chars("a.")], None), Err(ParseError::BadNumber));
    assert_eq!(parse_u16("65535"), Some(65535));
    assert_eq!(parse_u16("0"), Some(0));
    assert_eq!(parse_u16("123456"), None);
    assert_eq!(parse_u16("+16"), Some(16));
    assert_eq!(parse_u16("+"), None);
    assert_eq!(parse_u16(""), None);
    assert_eq!(parse_u16("++1"), None);
    assert_eq!(parse_u16("-1"), None);
    assert_eq!(parse_u16("+65536"), None);
}

#[test]
fn parse_bad_names() {
    let bad = |s: &str| parse(&vec![chars("1"), chars(s)], None);
    assert_eq!(bad(""), Err(ParseError::BadName(NameTextError::Empty)));
    assert_eq!(bad("a..b."), Err(ParseError::BadName(NameTextError::EmptyLabel)));
    assert_eq!(bad(".a."), Err(ParseError::BadName(NameTextError::EmptyLabel)));
    assert_eq!(bad("a\\"), Err(ParseError::BadName(NameTextError::BadCharacter)));
    assert_eq!(bad("a\\300."), Err(ParseError::BadName(NameTextError::BadCharacter)));
    assert_eq!(bad("é."), Err(ParseError::BadName(NameTextError::BadCharacter)));
    let long_label = format!("{}.", "a".repeat(64));
    assert_eq!(bad(&long_label), Err(ParseError::BadName(NameTextError::LabelTooLong)));
    let long_name = format!("{}.", vec!["a".repeat(63); 4].join("."));
    assert_eq!(bad(&long_name), Err(ParseError::BadName(NameTextError::NameTooLong)));
    let fits = format!("{}.", vec!["a".repeat(62); 4].join("."));
    assert!(bad(&fits).is_ok());
    assert_eq!(parse(&vec![chars("1"), chars(".")], None).unwrap(), MX::new(1, Name::new()));
}
