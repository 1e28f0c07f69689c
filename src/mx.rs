//! The mail-exchange record data: a 16-bit preference, then a domain name.
use vstd::prelude::*;
use crate::binary::{be16, from_be16, BinDecoder, BinEncoder};
use crate::error::{DecodeError, EncodeError, Field, ParseError};
use crate::text_spec::{lemma_name_text_inverse, name_text, parse_name_spec};
use crate::txt::{
    copy_token, decimal_text, is_digit, lemma_decimal_inverse, parse_u16, parse_u16_spec,
    push_decimal, string_from_chars, unsigned_digits, Token,
};
use crate::name::{
    lemma_lower_valid, lemma_read_wire, lower_byte, lower_name, read_labels, valid_name, wire, Name,
};

verus! {

/// Mail-exchange record data. A lower preference is tried first.
#[derive(Debug, Clone, Hash)]
pub struct MX {
    preference: u16,
    exchange: Name,
}

impl View for MX {
    type V = (u16, Seq<Seq<u8>>);

    closed spec fn view(&self) -> (u16, Seq<Seq<u8>>) {
        (self.preference, self.exchange@)
    }
}

impl MX {
    pub open spec fn wf(&self) -> bool {
        valid_name(self@.1)
    }

    /// Record data for the mail server `exchange` at the given preference.
    pub fn new(preference: u16, exchange: Name) -> (r: MX)
        ensures
            r@ == (preference, exchange@),
    {
        MX { preference, exchange }
    }

    pub fn preference(&self) -> (r: u16)
        ensures
            r == self@.0,
    {
        self.preference
    }

    pub fn exchange(&self) -> (r: &Name)
        ensures
            r@ == self@.1,
    {
        &self.exchange
    }

    /// The zone-file text form: the preference, one space, the exchange's absolute name.
    pub fn to_string(&self) -> (r: String)
        ensures
            r@ == mx_text(self@),
    {
        let mut out: Vec<char> = Vec::new();
        push_decimal(self.preference as u32, &mut out);
        out.push(' ');
        self.exchange.push_text(&mut out);
        assert(out@ =~= mx_text(self@));
        string_from_chars(&out)
    }
}

impl PartialEq for MX {
    fn eq(&self, other: &MX) -> (r: bool) {
        self.preference == other.preference && self.exchange == other.exchange
    }
}

impl vstd::std_specs::cmp::PartialEqSpecImpl for MX {
    open spec fn obeys_eq_spec() -> bool {
        true
    }

    open spec fn eq_spec(&self, other: &MX) -> bool {
        self@ == other@
    }
}

impl Eq for MX {

}

/// The wire form of the record data; with `canonical` set the exchange's letters are lowered.
pub open spec fn mx_wire(v: (u16, Seq<Seq<u8>>), canonical: bool) -> Seq<u8> {
    be16(v.0) + wire(if canonical { lower_name(v.1) } else { v.1 })
}

/// The record data read from `buf` at `pos`, with the position after it.
pub open spec fn mx_read(buf: Seq<u8>, pos: int) -> Result<((u16, Seq<Seq<u8>>), int), DecodeError> {
    if pos < 0 || pos + 2 > buf.len() {
        Err(DecodeError::InsufficientData)
    } else {
        match read_labels(buf, pos + 2, pos + 2, Seq::empty(), None) {
            Ok((n, end)) => Ok(((from_be16(buf[pos], buf[pos + 1]), n), end)),
            Err(e) => Err(e),
        }
    }
}

/// Reads the record data at the decoder's cursor: the preference, then the exchange.
pub fn read(decoder: &mut BinDecoder) -> (r: Result<MX, DecodeError>)
    requires
        old(decoder).wf(),
    ensures
        final(decoder).wf(),
        final(decoder).buf() == old(decoder).buf(),
        match mx_read(old(decoder).buf(), old(decoder).pos()) {
            Ok((v, end)) => r is Ok && r->Ok_0@ == v && r->Ok_0.wf() && final(decoder).pos() == end,
            Err(e) => r == Err::<MX, DecodeError>(e),
        },
{
    proof {
        decoder.lemma_pos_in_buf();
    }
    let preference = match decoder.read_u16() {
        Ok(p) => p,
        Err(e) => return Err(e),
    };
    let exchange = match Name::read(decoder) {
        Ok(n) => n,
        Err(e) => return Err(e),
    };
    Ok(MX::new(preference, exchange))
}

/// Writes the record data: the preference, then the exchange, lowered when the
/// encoder is in canonical-names mode.
pub fn emit(encoder: &mut BinEncoder, mx: &MX) -> (r: Result<(), EncodeError>)
    requires
        mx.wf(),
    ensures
        final(encoder).limit() == old(encoder).limit(),
        final(encoder).canonical() == old(encoder).canonical(),
        old(encoder).bytes().len() + 2 + wire(mx@.1).len() <= old(encoder).limit() ==> r is Ok
            && final(encoder).bytes() == old(encoder).bytes() + mx_wire(mx@, old(encoder).canonical()),
        old(encoder).bytes().len() + 2 + wire(mx@.1).len() > old(encoder).limit() ==> r
            == Err::<(), EncodeError>(EncodeError::MaxBufferSizeExceeded(old(encoder).limit() as usize)),
        old(encoder).bytes().len() + 2 > old(encoder).limit() ==> final(encoder).bytes() == old(encoder).bytes(),
        old(encoder).bytes().len() + 2 <= old(encoder).limit() && r is Err ==> final(encoder).bytes()
            == old(encoder).bytes() + be16(mx@.0),
{
    let is_canonical_names = encoder.is_canonical_names();
    match encoder.emit_u16(mx.preference()) {
        Ok(()) => {},
        Err(e) => return Err(e),
    }
    let r = mx.exchange().emit_with_lowercase(encoder, is_canonical_names);
    assert(r is Ok ==> final(encoder).bytes() =~= old(encoder).bytes() + mx_wire(mx@, old(encoder).canonical()));
    r
}

proof fn lemma_be16_inverse(v: u16)
    ensures
        from_be16(be16(v)[0], be16(v)[1]) == v,
{
    let hi = (v / 256) as u8;
    let lo = (v % 256) as u8;
    assert(hi as int == v as int / 256);
    assert(lo as int == v as int % 256);
    assert(hi as int * 256 + lo as int == v as int);
}

/// The encoded record data is the preference in network byte order, then the
/// exchange's wire form, in either mode.
pub proof fn lemma_field_order(v: (u16, Seq<Seq<u8>>), canonical: bool)
    requires
        valid_name(v.1),
    ensures
        mx_wire(v, canonical).len() == 2 + wire(v.1).len(),
        mx_wire(v, canonical).subrange(0, 2) == be16(v.0),
{
    lemma_lower_valid(v.1);
    crate::name::lemma_lower_wire_len(v.1);
    assert(mx_wire(v, canonical).subrange(0, 2) =~= be16(v.0));
}

/// Decoding encoded record data, wherever it stands in a buffer, gives the value
/// back: as it was in ordinary mode, with the exchange lowered in canonical mode.
/// The cursor ends just past it.
pub proof fn lemma_round_trip(
    v: (u16, Seq<Seq<u8>>),
    canonical: bool,
    before: Seq<u8>,
    after: Seq<u8>,
)
    requires
        valid_name(v.1),
    ensures
        mx_read(before + mx_wire(v, canonical) + after, before.len() as int) == Ok::<
            ((u16, Seq<Seq<u8>>), int),
            DecodeError,
        >(
            (
                (v.0, if canonical { lower_name(v.1) } else { v.1 }),
                (before.len() + mx_wire(v, canonical).len()) as int,
            ),
        ),
{
    let n = if canonical { lower_name(v.1) } else { v.1 };
    lemma_lower_valid(v.1);
    assert(valid_name(n));
    let buf = before + mx_wire(v, canonical) + after;
    let p = before.len() as int;
    lemma_be16_inverse(v.0);
    assert(buf[p] == be16(v.0)[0]);
    assert(buf[p + 1] == be16(v.0)[1]);
    assert(buf.subrange(p + 2, p + 2 + wire(n).len()) =~= wire(n));
    lemma_read_wire(buf, p + 2, n, 0);
    assert(n.subrange(0, 0) =~= Seq::<Seq<u8>>::empty());
    assert(crate::name::labels_wire(Seq::<Seq<u8>>::empty()) == Seq::<u8>::empty());
}

/// A buffer of two bytes or fewer holds no record data: reading it fails for lack of data.
pub proof fn lemma_truncated(buf: Seq<u8>)
    requires
        buf.len() <= 2,
    ensures
        mx_read(buf, 0) == Err::<((u16, Seq<Seq<u8>>), int), DecodeError>(DecodeError::InsufficientData),
{
}

/// The zone-file text form of record data.
pub open spec fn mx_text(v: (u16, Seq<Seq<u8>>)) -> Seq<char> {
    decimal_text(v.0 as nat) + seq![' '] + name_text(v.1)
}

/// The record data that a line of tokens stands for: the preference from the
/// first token, the exchange from the second; later tokens are not read.
pub open spec fn mx_parse(tokens: Seq<Token>, origin: Option<Seq<Seq<u8>>>) -> Result<
    (u16, Seq<Seq<u8>>),
    ParseError,
> {
    if tokens.len() == 0 {
        Err(ParseError::MissingToken(Field::Preference))
    } else {
        match tokens[0] {
            Token::CharData(p) => match parse_u16_spec(p@) {
                None => Err(ParseError::BadNumber),
                Some(preference) => if tokens.len() < 2 {
                    Err(ParseError::MissingToken(Field::Exchange))
                } else {
                    match tokens[1] {
                        Token::CharData(e) => match parse_name_spec(e@, origin) {
                            Ok(exchange) => Ok((preference, exchange)),
                            Err(err) => Err(ParseError::BadName(err)),
                        },
                        t => Err(ParseError::UnexpectedToken(t)),
                    }
                },
            },
            t => Err(ParseError::UnexpectedToken(t)),
        }
    }
}

/// Reads record data from zone-file tokens; a relative exchange is completed with `origin`.
pub fn parse(tokens: &Vec<Token>, origin: Option<&Name>) -> (r: Result<MX, ParseError>)
    requires
        origin is Some ==> origin->0.wf(),
    ensures
        match mx_parse(tokens@, match origin { Some(o) => Some(o@), None => None }) {
            Ok(v) => r is Ok && r->Ok_0@ == v && r->Ok_0.wf(),
            Err(e) => r == Err::<MX, ParseError>(e),
        },
{
    if tokens.len() == 0 {
        return Err(ParseError::MissingToken(Field::Preference));
    }
    let preference: u16 = match &tokens[0] {
        Token::CharData(s) => match parse_u16(s.as_str()) {
            Some(p) => p,
            None => return Err(ParseError::BadNumber),
        },
        t => return Err(ParseError::UnexpectedToken(copy_token(t))),
    };
    if tokens.len() < 2 {
        return Err(ParseError::MissingToken(Field::Exchange));
    }
    let exchange: Name = match &tokens[1] {
        Token::CharData(s) => match Name::parse(s.as_str(), origin) {
            Ok(n) => n,
            Err(e) => return Err(ParseError::BadName(e)),
        },
        t => return Err(ParseError::UnexpectedToken(copy_token(t))),
    };
    Ok(MX::new(preference, exchange))
}

/// The text form splits at its one space into a preference token and an exchange
/// token, and parsing those two tokens gives the value back, whatever the origin.
pub proof fn lemma_text_round_trip(
    v: (u16, Seq<Seq<u8>>),
    origin: Option<Seq<Seq<u8>>>,
    preference: String,
    exchange: String,
)
    requires
        valid_name(v.1),
        preference@ == decimal_text(v.0 as nat),
        exchange@ == name_text(v.1),
    ensures
        mx_text(v) == preference@ + seq![' '] + exchange@,
        mx_parse(seq![Token::CharData(preference), Token::CharData(exchange)], origin) == Ok::<
            (u16, Seq<Seq<u8>>),
            ParseError,
        >(v),
{
    lemma_decimal_inverse(v.0 as nat);
    assert(is_digit(preference@[0]));
    assert(unsigned_digits(preference@) == preference@);
    lemma_name_text_inverse(v.1, origin);
}

/// With no tokens the preference is missing; with one token that holds a valid
/// preference the exchange is missing.
pub proof fn lemma_missing_tokens(only: String, origin: Option<Seq<Seq<u8>>>)
    requires
        parse_u16_spec(only@) is Some,
    ensures
        mx_parse(Seq::empty(), origin) == Err::<(u16, Seq<Seq<u8>>), ParseError>(
            ParseError::MissingToken(Field::Preference),
        ),
        mx_parse(seq![Token::CharData(only)], origin) == Err::<(u16, Seq<Seq<u8>>), ParseError>(
            ParseError::MissingToken(Field::Exchange),
        ),
{
}

/// In canonical mode, two values whose exchanges differ only in letter case are
/// written as the same bytes: those of the value with its exchange lowered.
pub proof fn lemma_canonical_ignores_case(p: u16, n: Seq<Seq<u8>>, m: Seq<Seq<u8>>)
    requires
        lower_name(n) == lower_name(m),
    ensures
        mx_wire((p, n), true) == mx_wire((p, m), true),
        mx_wire((p, n), true) == mx_wire((p, lower_name(n)), false),
        mx_wire((p, n), true) == mx_wire((p, lower_name(n)), true),
{
    assert(lower_name(lower_name(n)) =~= lower_name(n)) by {
        assert forall|i: int| 0 <= i < n.len() implies lower_name(lower_name(n))[i] =~= lower_name(n)[i] by {
            assert forall|j: int| 0 <= j < n[i].len() implies lower_name(lower_name(n))[i][j] == lower_name(n)[i][j] by {
                let b = n[i][j];
                assert(lower_byte(lower_byte(b)) == lower_byte(b));
            }
        }
    }
}

} // verus!
