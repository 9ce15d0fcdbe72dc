//! The TCPROS connection-header codec.
//!
//! Before a publisher and a subscriber (or a service client and server)
//! stream message bytes over TCP, they exchange a small self-describing
//! binary header: a 4-byte little-endian total length, then a run of fields,
//! each a 4-byte little-endian length followed by UTF-8 text of the form
//! `name=value`. The spec functions in this module state that wire format
//! exactly; [`ConnectionHeader::from_bytes`] and
//! [`ConnectionHeader::to_bytes`] are verified against them.

use vstd::bytes::{spec_u32_from_le_bytes, spec_u32_to_le_bytes, u32_from_le_bytes};
use vstd::prelude::*;
use vstd::slice::{slice_index_get, slice_subrange};
use vstd::string::{StrSliceExecFns, StringExecFns};
use vstd::utf8::*;

verus! {

/// Why a header buffer could not be decoded.
#[derive(Clone, Copy, Debug, PartialEq, Eq, Structural)]
pub enum FormatError {
    /// The buffer ends before a 4-byte length prefix or a field payload is
    /// complete.
    TruncatedInput,
    /// No `=` separator occurs in the bytes that remain.
    MissingSeparator,
    /// A field length leaves no room for the field's own name and the `=`
    /// separator.
    FieldLengthUnderflow,
    /// A field claims more bytes than the outer total length leaves.
    OuterLengthOverrun,
    /// A field name or value is not valid UTF-8.
    InvalidUtf8,
}

/// Mathematical model of a [`ConnectionHeader`]: each textual field as a
/// character sequence.
pub ghost struct HeaderView {
    pub caller_id: Seq<char>,
    pub latching: bool,
    pub msg_definition: Seq<char>,
    pub md5sum: Seq<char>,
    pub topic: Seq<char>,
    pub topic_type: Seq<char>,
    pub tcp_nodelay: bool,
}

/// The header every field of which holds its default: empty text, false
/// flags. Decoding starts from this record.
pub open spec fn empty_header() -> HeaderView {
    HeaderView {
        caller_id: Seq::empty(),
        latching: false,
        msg_definition: Seq::empty(),
        md5sum: Seq::empty(),
        topic: Seq::empty(),
        topic_type: Seq::empty(),
        tcp_nodelay: false,
    }
}

/// The in-memory connection header negotiated during the TCPROS handshake.
///
/// All fields are logically optional on the wire; a field absent from the
/// wire keeps its default (empty string, or false).
#[derive(Clone, Debug)]
pub struct ConnectionHeader {
    pub caller_id: String,
    pub latching: bool,
    pub msg_definition: String,
    pub md5sum: String,
    pub topic: String,
    pub topic_type: String,
    pub tcp_nodelay: bool,
}

impl View for ConnectionHeader {
    type V = HeaderView;

    open spec fn view(&self) -> HeaderView {
        HeaderView {
            caller_id: self.caller_id@,
            latching: self.latching,
            msg_definition: self.msg_definition@,
            md5sum: self.md5sum@,
            topic: self.topic@,
            topic_type: self.topic_type@,
            tcp_nodelay: self.tcp_nodelay,
        }
    }
}

impl PartialEq for ConnectionHeader {
    fn eq(&self, other: &Self) -> (r: bool) {
        self.caller_id == other.caller_id && self.latching == other.latching
            && self.msg_definition == other.msg_definition && self.md5sum == other.md5sum
            && self.topic == other.topic && self.topic_type == other.topic_type
            && self.tcp_nodelay == other.tcp_nodelay
    }
}

impl vstd::std_specs::cmp::PartialEqSpecImpl for ConnectionHeader {
    open spec fn obeys_eq_spec() -> bool {
        true
    }

    open spec fn eq_spec(&self, other: &Self) -> bool {
        self@ == other@
    }
}

impl Default for ConnectionHeader {
    /// A freshly constructed header: all text empty, all flags false.
    fn default() -> (r: Self)
        ensures
            r@ == empty_header(),
    {
        ConnectionHeader {
            caller_id: String::new(),
            latching: false,
            msg_definition: String::new(),
            md5sum: String::new(),
            topic: String::new(),
            topic_type: String::new(),
            tcp_nodelay: false,
        }
    }
}

/// Decoding of a boolean field: anything but the single character `0`
/// counts as true. This leniency matches the observed wire behaviour of
/// peer implementations and is deliberate.
pub open spec fn bool_of_text(value: Seq<char>) -> bool {
    value != "0"@
}

/// The record after dispatching one decoded `name=value` field.
/// An unrecognized name leaves the record unchanged: unknown fields are
/// tolerated for forward compatibility.
pub open spec fn apply_field(h: HeaderView, name: Seq<char>, value: Seq<char>) -> HeaderView {
    if name == "callerid"@ {
        HeaderView { caller_id: value, ..h }
    } else if name == "message_definition"@ {
        HeaderView { msg_definition: value, ..h }
    } else if name == "md5sum"@ {
        HeaderView { md5sum: value, ..h }
    } else if name == "topic"@ {
        HeaderView { topic: value, ..h }
    } else if name == "type"@ {
        HeaderView { topic_type: value, ..h }
    } else if name == "latching"@ {
        HeaderView { latching: bool_of_text(value), ..h }
    } else if name == "tcp_nodelay"@ {
        HeaderView { tcp_nodelay: bool_of_text(value), ..h }
    } else {
        h
    }
}

/// True when `i` is the index of the first `=` byte (0x3d) in `b`.
pub open spec fn is_first_eq_at(b: Seq<u8>, i: int) -> bool {
    &&& 0 <= i < b.len()
    &&& b[i] == 0x3du8
    &&& forall|k: int| 0 <= k < i ==> b[k] != 0x3du8
}

/// True when `b` holds an `=` byte at all.
pub open spec fn has_eq(b: Seq<u8>) -> bool {
    exists|i: int| is_first_eq_at(b, i)
}

/// The index of the first `=` byte in `b`.
pub open spec fn first_eq_at(b: Seq<u8>) -> int
    recommends
        has_eq(b),
{
    choose|i: int| is_first_eq_at(b, i)
}

/// One round of field decoding. `tail` holds the bytes not yet consumed,
/// `remaining` the outer length still to account for, and `h` the record
/// built so far. Mirrors the wire discipline exactly: a 4-byte little-endian
/// field length, the name up to the first `=`, the value filling the rest of
/// the declared length, both sides validated as UTF-8, and both length
/// subtractions guarded against underflow.
pub open spec fn decode_fields(tail: Seq<u8>, remaining: int, h: HeaderView) -> Result<
    HeaderView,
    FormatError,
>
    decreases remaining,
{
    if remaining <= 0 {
        Ok(h)
    } else if tail.len() < 4 {
        Err(FormatError::TruncatedInput)
    } else {
        let lf = spec_u32_from_le_bytes(tail.take(4)) as int;
        let rest = tail.skip(4);
        if !has_eq(rest) {
            Err(FormatError::MissingSeparator)
        } else {
            let name_len = first_eq_at(rest);
            if lf < name_len + 1 {
                Err(FormatError::FieldLengthUnderflow)
            } else {
                let value_len = lf - name_len - 1;
                if rest.len() - (name_len + 1) < value_len {
                    Err(FormatError::TruncatedInput)
                } else {
                    let name_b = rest.take(name_len);
                    let value_b = rest.subrange(name_len + 1, name_len + 1 + value_len);
                    if !valid_utf8(name_b) {
                        Err(FormatError::InvalidUtf8)
                    } else if !valid_utf8(value_b) {
                        Err(FormatError::InvalidUtf8)
                    } else {
                        let h2 = apply_field(h, decode_utf8(name_b), decode_utf8(value_b));
                        if remaining < 4 + lf {
                            Err(FormatError::OuterLengthOverrun)
                        } else {
                            decode_fields(tail.skip(4 + lf), remaining - (4 + lf), h2)
                        }
                    }
                }
            }
        }
    }
}

/// What decoding a whole buffer yields: the 4-byte little-endian total
/// length, then fields consumed until exactly that many bytes are read.
/// Trailing bytes beyond the advertised total are ignored.
pub open spec fn decode_spec(data: Seq<u8>) -> Result<HeaderView, FormatError> {
    if data.len() < 4 {
        Err(FormatError::TruncatedInput)
    } else {
        decode_fields(data.skip(4), spec_u32_from_le_bytes(data.take(4)) as int, empty_header())
    }
}

/// The model of an executable decode result.
pub open spec fn decoded_model(r: Result<ConnectionHeader, FormatError>) -> Result<
    HeaderView,
    FormatError,
> {
    match r {
        Ok(h) => Ok(h@),
        Err(e) => Err(e),
    }
}

/// The character a boolean field is rendered as on the wire: `1` or `0`.
pub open spec fn bool_text(b: bool) -> Seq<char> {
    if b {
        "1"@
    } else {
        "0"@
    }
}

/// One encoded field: the 4-byte little-endian length of the payload's UTF-8
/// bytes, then those bytes.
pub open spec fn encoded_field(payload: Seq<char>) -> Seq<u8> {
    spec_u32_to_le_bytes(encode_utf8(payload).len() as u32) + encode_utf8(payload)
}

/// The encoded field block of `h`, in the fixed emission order the wire
/// format asks for. `tcp_nodelay` is emitted only on headers addressed to a
/// publisher.
pub open spec fn encoded_body(h: HeaderView, to_publisher: bool) -> Seq<u8> {
    encoded_field("callerid="@ + h.caller_id) + encoded_field("latching="@ + bool_text(h.latching))
        + encoded_field("md5sum="@ + h.md5sum) + encoded_field(
        "message_definition="@ + h.msg_definition,
    ) + (if to_publisher {
        encoded_field("tcp_nodelay="@ + bool_text(h.tcp_nodelay))
    } else {
        Seq::empty()
    }) + encoded_field("topic="@ + h.topic) + encoded_field("type="@ + h.topic_type)
}

/// True when the encoded field block, and with it every single field, fits
/// the 4-byte length prefixes of the wire format.
pub open spec fn encodable(h: HeaderView, to_publisher: bool) -> bool {
    encoded_body(h, to_publisher).len() <= u32::MAX
}

/// The full wire image of `h`: the total length of the field block,
/// little-endian, then the block itself.
pub open spec fn encode_spec(h: HeaderView, to_publisher: bool) -> Seq<u8> {
    spec_u32_to_le_bytes(encoded_body(h, to_publisher).len() as u32) + encoded_body(
        h,
        to_publisher,
    )
}

/// Appends one encoded field to `out`: the payload's byte length, then the
/// payload bytes.
fn push_field(out: &mut Vec<u8>, payload: &String)
    requires
        encode_utf8(payload@).len() <= u32::MAX,
    ensures
        final(out)@ == old(out)@ + encoded_field(payload@),
{
    let bytes = payload.as_str().as_bytes_vec();
    let mut len_b = vstd::bytes::u32_to_le_bytes(bytes.len() as u32);
    out.append(&mut len_b);
    let mut payload_b = bytes;
    out.append(&mut payload_b);
}

/// Relies on `str::from_utf8`: it returns `Ok` exactly when the bytes are
/// valid UTF-8, and the string it returns holds exactly those bytes, so its
/// characters are their decoding.
#[verifier::external_body]
fn bytes_to_string(b: &[u8]) -> (r: Option<String>)
    ensures
        r matches Some(s) ==> valid_utf8(b@) && s@ == decode_utf8(b@),
        r is None ==> !valid_utf8(b@),
{
    match std::str::from_utf8(b) {
        Ok(s) => Some(s.to_string()),
        Err(_) => None,
    }
}

impl ConnectionHeader {
    /// Decodes a complete header buffer, tolerating unknown field names and
    /// rejecting every structurally invalid input with a [`FormatError`]
    /// instead of panicking or reading out of bounds.
    pub fn from_bytes(header_data: &[u8]) -> (r: Result<ConnectionHeader, FormatError>)
        ensures
            decoded_model(r) == decode_spec(header_data@),
    {
        if header_data.len() < 4 {
            return Err(FormatError::TruncatedInput);
        }
        let l0 = u32_from_le_bytes(slice_subrange(header_data, 0, 4));
        proof {
            assert(header_data@.take(4) =~= header_data@.subrange(0, 4));
        }
        let mut header = ConnectionHeader::default();
        let mut pos: usize = 4;
        let mut remaining: u64 = l0 as u64;
        while remaining > 0
            invariant
                4 <= pos <= header_data@.len(),
                remaining <= u32::MAX,
                decode_fields(header_data@.skip(pos as int), remaining as int, header@) == decode_spec(
                    header_data@,
                ),
            decreases remaining,
        {
            let ghost tail = header_data@.skip(pos as int);
            let ghost h0 = header@;
            if header_data.len() - pos < 4 {
                proof {
                    assert(tail.len() == header_data@.len() - pos);
                    assert(decode_fields(tail, remaining as int, h0) == Err::<
                        HeaderView,
                        FormatError,
                    >(FormatError::TruncatedInput));
                }
                return Err(FormatError::TruncatedInput);
            }
            let lf = u32_from_le_bytes(slice_subrange(header_data, pos, pos + 4));
            proof {
                assert(tail.take(4) =~= header_data@.subrange(pos as int, pos as int + 4));
            }
            let ghost rest = tail.skip(4);
            // Search the remaining input for the first `=` separator.
            let mut j: usize = pos + 4;
            while j < header_data.len() && *slice_index_get(header_data, j) != 0x3d
                invariant
                    pos + 4 <= j <= header_data@.len(),
                    forall|k: int| pos + 4 <= k < j ==> header_data@[k] != 0x3du8,
                decreases header_data@.len() - j,
            {
                j = j + 1;
            }
            if j == header_data.len() {
                proof {
                    assert forall|i: int| !is_first_eq_at(rest, i) by {
                        if 0 <= i < rest.len() {
                            assert(rest[i] == header_data@[pos + 4 + i]);
                        }
                    }
                    assert(!has_eq(rest));
                    assert(tail.len() >= 4);
                    assert(decode_fields(tail, remaining as int, h0) == Err::<
                        HeaderView,
                        FormatError,
                    >(FormatError::MissingSeparator));
                }
                return Err(FormatError::MissingSeparator);
            }
            let name_len = j - (pos + 4);
            proof {
                assert(rest[name_len as int] == header_data@[j as int]);
                assert forall|k: int| 0 <= k < name_len implies rest[k] != 0x3du8 by {
                    assert(rest[k] == header_data@[pos + 4 + k]);
                }
                assert(is_first_eq_at(rest, name_len as int));
                let i0 = first_eq_at(rest);
                assert(is_first_eq_at(rest, i0));
                if i0 < name_len {
                    assert(rest[i0] != 0x3du8);
                } else if i0 > name_len {
                    assert(rest[name_len as int] != 0x3du8);
                }
                assert(first_eq_at(rest) == name_len as int);
            }
            if (lf as usize) < name_len + 1 {
                return Err(FormatError::FieldLengthUnderflow);
            }
            let value_len = lf as usize - name_len - 1;
            if header_data.len() - (j + 1) < value_len {
                proof {
                    assert(rest.len() - (name_len + 1) == header_data@.len() - (j + 1));
                }
                return Err(FormatError::TruncatedInput);
            }
            let name_b = slice_subrange(header_data, pos + 4, j);
            let value_b = slice_subrange(header_data, j + 1, j + 1 + value_len);
            proof {
                assert(name_b@ =~= rest.take(name_len as int));
                assert(value_b@ =~= rest.subrange(
                    name_len as int + 1,
                    name_len as int + 1 + value_len as int,
                ));
            }
            let name_s = match bytes_to_string(name_b) {
                Some(s) => s,
                None => {
                    return Err(FormatError::InvalidUtf8);
                },
            };
            let value_s = match bytes_to_string(value_b) {
                Some(s) => s,
                None => {
                    return Err(FormatError::InvalidUtf8);
                },
            };
            if name_s == String::from_str("callerid") {
                header.caller_id = value_s;
            } else if name_s == String::from_str("message_definition") {
                header.msg_definition = value_s;
            } else if name_s == String::from_str("md5sum") {
                header.md5sum = value_s;
            } else if name_s == String::from_str("topic") {
                header.topic = value_s;
            } else if name_s == String::from_str("type") {
                header.topic_type = value_s;
            } else if name_s == String::from_str("latching") {
                header.latching = !(value_s == String::from_str("0"));
            } else if name_s == String::from_str("tcp_nodelay") {
                header.tcp_nodelay = !(value_s == String::from_str("0"));
            } else {
                // Unknown field: ignored, for forward compatibility.
            }
            proof {
                assert(header@ == apply_field(h0, decode_utf8(name_b@), decode_utf8(value_b@)));
            }
            let consumed: u64 = 4 + lf as u64;
            if remaining < consumed {
                return Err(FormatError::OuterLengthOverrun);
            }
            remaining = remaining - consumed;
            pos = j + 1 + value_len;
            proof {
                assert(header_data@.skip(pos as int) =~= tail.skip(4 + lf as int));
            }
        }
        Ok(header)
    }

    /// Encodes the header into its wire image: total length first, then each
    /// field in the fixed emission order. Boolean fields are rendered as `1`
    /// or `0`; `tcp_nodelay` is emitted only when the header is addressed to
    /// a publisher. Encoding cannot fail on any header whose fields fit the
    /// wire format's 4-byte length prefixes.
    pub fn to_bytes(&self, to_publisher: bool) -> (r: Vec<u8>)
        requires
            encodable(self@, to_publisher),
        ensures
            r@ == encode_spec(self@, to_publisher),
    {
        let mut body: Vec<u8> = Vec::new();

        let mut s = String::from_str("callerid=");
        s.append(self.caller_id.as_str());
        push_field(&mut body, &s);

        let mut s = String::from_str("latching=");
        s.append(if self.latching {
            "1"
        } else {
            "0"
        });
        push_field(&mut body, &s);

        let mut s = String::from_str("md5sum=");
        s.append(self.md5sum.as_str());
        push_field(&mut body, &s);

        let mut s = String::from_str("message_definition=");
        s.append(self.msg_definition.as_str());
        push_field(&mut body, &s);

        if to_publisher {
            let mut s = String::from_str("tcp_nodelay=");
            s.append(if self.tcp_nodelay {
                "1"
            } else {
                "0"
            });
            push_field(&mut body, &s);
        }

        let mut s = String::from_str("topic=");
        s.append(self.topic.as_str());
        push_field(&mut body, &s);

        let mut s = String::from_str("type=");
        s.append(self.topic_type.as_str());
        push_field(&mut body, &s);

        proof {
            assert(body@ =~= encoded_body(self@, to_publisher));
        }
        let mut r = vstd::bytes::u32_to_le_bytes(body.len() as u32);
        r.append(&mut body);
        r
    }
}

/// True of the field names the codec recognizes and dispatches on.
pub open spec fn known_name(name: Seq<char>) -> bool {
    ||| name == "callerid"@
    ||| name == "message_definition"@
    ||| name == "md5sum"@
    ||| name == "topic"@
    ||| name == "type"@
    ||| name == "latching"@
    ||| name == "tcp_nodelay"@
}

/// The UTF-8 encoding of a concatenation is the concatenation of the
/// encodings: UTF-8 encodes character by character.
proof fn lemma_encode_utf8_concat(a: Seq<char>, b: Seq<char>)
    ensures
        encode_utf8(a + b) == encode_utf8(a) + encode_utf8(b),
    decreases a.len(),
{
    if a.len() == 0 {
        assert(a + b =~= b);
        assert(encode_utf8(a) + encode_utf8(b) =~= encode_utf8(b));
    } else {
        lemma_encode_utf8_concat(a.drop_first(), b);
        assert((a + b).drop_first() =~= a.drop_first() + b);
        assert((a + b)[0] == a[0]);
        assert(encode_scalar(a[0] as u32) + (encode_utf8(a.drop_first()) + encode_utf8(b)) =~= (
        encode_scalar(a[0] as u32) + encode_utf8(a.drop_first())) + encode_utf8(b));
    }
}

/// The one-byte UTF-8 encoding of the `=` separator.
proof fn lemma_encode_eq_char()
    ensures
        encode_utf8(seq!['=']) =~= seq![0x3du8],
{
    assert('=' as u32 == 0x3d);
    assert(has_width_1_encoding(0x3d));
    assert(leading_byte_width_1(0x3d) == 0x3du8) by (bit_vector);
    assert(seq!['='].drop_first() =~= Seq::<char>::empty());
    assert(encode_utf8(seq!['=']) =~= encode_scalar(0x3d) + encode_utf8(Seq::<char>::empty()));
}

/// Peels one well-formed field off the front of the byte stream: decoding
/// `encoded_field(name + '=' + value) + rest` dispatches `name` and `value`
/// into the record and goes on with `rest` — unless the field claims more
/// bytes than the outer length still allows, which is the overrun error.
pub proof fn lemma_decode_field_step(
    name: Seq<char>,
    value: Seq<char>,
    rest: Seq<u8>,
    remaining: int,
    h: HeaderView,
)
    requires
        remaining > 0,
        is_ascii_chars(name),
        forall|k: int| 0 <= k < name.len() ==> name[k] != '=',
        name.len() + 1 + encode_utf8(value).len() <= u32::MAX,
    ensures
        ({
            let field = encoded_field(name + seq!['='] + value);
            decode_fields(field + rest, remaining, h) == (if remaining < field.len() {
                Err::<HeaderView, FormatError>(FormatError::OuterLengthOverrun)
            } else {
                decode_fields(rest, remaining - field.len(), apply_field(h, name, value))
            })
        }),
{
    vstd::bytes::lemma_auto_spec_u32_to_from_le_bytes();
    let payload = name + seq!['='] + value;
    let enc_name = encode_utf8(name);
    let enc_value = encode_utf8(value);
    let enc_payload = encode_utf8(payload);
    lemma_encode_utf8_concat(name + seq!['='], value);
    lemma_encode_utf8_concat(name, seq!['=']);
    lemma_encode_eq_char();
    assert(enc_payload =~= enc_name + seq![0x3du8] + enc_value);
    is_ascii_chars_encode_utf8(name);
    let nl = name.len() as int;
    let lf = enc_payload.len() as int;
    assert(lf == nl + 1 + enc_value.len());
    let field = encoded_field(payload);
    let t = field + rest;
    assert(t.take(4) =~= spec_u32_to_le_bytes(lf as u32));
    assert(spec_u32_from_le_bytes(t.take(4)) == lf);
    let tr = t.skip(4);
    assert(tr =~= enc_payload + rest);
    // The first `=` byte sits right behind the name.
    assert(tr[nl] == 0x3du8);
    assert forall|k: int| 0 <= k < nl implies tr[k] != 0x3du8 by {
        assert(tr[k] == enc_name[k]);
        assert(enc_name[k] == name[k] as u8);
        if enc_name[k] == 0x3du8 {
            assert(name[k] as u32 <= 0x7f);
            assert(name[k] as u32 == 0x3d) by {
                assert(name[k] as u8 == ((name[k] as u32) as u8));
            }
            char_u32_cast(name[k], name[k] as u32);
            char_u32_cast('=', '=' as u32);
            assert(name[k] == '=');
        }
    }
    assert(is_first_eq_at(tr, nl));
    let i0 = first_eq_at(tr);
    assert(is_first_eq_at(tr, i0));
    if i0 < nl {
        assert(tr[i0] != 0x3du8);
    } else if i0 > nl {
        assert(tr[nl] != 0x3du8);
    }
    assert(i0 == nl);
    // The declared length leaves exactly the value behind the separator.
    assert(lf >= nl + 1);
    let vl = lf - nl - 1;
    assert(vl == enc_value.len());
    assert(tr.len() - (nl + 1) == enc_value.len() + rest.len());
    assert(tr.take(nl) =~= enc_name);
    assert(tr.subrange(nl + 1, nl + 1 + vl) =~= enc_value);
    encode_utf8_valid_utf8(name);
    encode_utf8_valid_utf8(value);
    encode_utf8_decode_utf8(name);
    encode_utf8_decode_utf8(value);
    assert(field.len() == 4 + lf);
    if remaining >= field.len() {
        assert(t.skip(4 + lf) =~= rest);
    }
}

/// Decoding an encoded header yields the header back, except that
/// `tcp_nodelay` decodes as false when the header was not addressed to a
/// publisher, because the field is never emitted in that direction.
#[verifier::rlimit(100)]
#[verifier::spinoff_prover]
pub proof fn lemma_round_trip(h: HeaderView, to_publisher: bool)
    requires
        encodable(h, to_publisher),
    ensures
        decode_spec(encode_spec(h, to_publisher)) == Ok::<HeaderView, FormatError>(
            (HeaderView { tcp_nodelay: h.tcp_nodelay && to_publisher, ..h }),
        ),
{
    vstd::bytes::lemma_auto_spec_u32_to_from_le_bytes();
    reveal_strlit("callerid=");
    reveal_strlit("callerid");
    reveal_strlit("latching=");
    reveal_strlit("latching");
    reveal_strlit("md5sum=");
    reveal_strlit("md5sum");
    reveal_strlit("message_definition=");
    reveal_strlit("message_definition");
    reveal_strlit("tcp_nodelay=");
    reveal_strlit("tcp_nodelay");
    reveal_strlit("topic=");
    reveal_strlit("topic");
    reveal_strlit("type=");
    reveal_strlit("type");
    reveal_strlit("0");
    reveal_strlit("1");

    let n1: Seq<char> = "callerid"@;
    let n2: Seq<char> = "latching"@;
    let n3: Seq<char> = "md5sum"@;
    let n4: Seq<char> = "message_definition"@;
    let n5: Seq<char> = "tcp_nodelay"@;
    let n6: Seq<char> = "topic"@;
    let n7: Seq<char> = "type"@;
    let v1 = h.caller_id;
    let v2 = bool_text(h.latching);
    let v3 = h.md5sum;
    let v4 = h.msg_definition;
    let v5 = bool_text(h.tcp_nodelay);
    let v6 = h.topic;
    let v7 = h.topic_type;
    assert("callerid="@ + v1 =~= n1 + seq!['='] + v1);
    assert("latching="@ + v2 =~= n2 + seq!['='] + v2);
    assert("md5sum="@ + v3 =~= n3 + seq!['='] + v3);
    assert("message_definition="@ + v4 =~= n4 + seq!['='] + v4);
    assert("tcp_nodelay="@ + v5 =~= n5 + seq!['='] + v5);
    assert("topic="@ + v6 =~= n6 + seq!['='] + v6);
    assert("type="@ + v7 =~= n7 + seq!['='] + v7);
    lemma_encode_eq_char();
    lemma_encode_utf8_concat(n1 + seq!['='], v1);
    lemma_encode_utf8_concat(n1, seq!['=']);
    is_ascii_chars_encode_utf8(n1);
    lemma_encode_utf8_concat(n2 + seq!['='], v2);
    lemma_encode_utf8_concat(n2, seq!['=']);
    is_ascii_chars_encode_utf8(n2);
    lemma_encode_utf8_concat(n3 + seq!['='], v3);
    lemma_encode_utf8_concat(n3, seq!['=']);
    is_ascii_chars_encode_utf8(n3);
    lemma_encode_utf8_concat(n4 + seq!['='], v4);
    lemma_encode_utf8_concat(n4, seq!['=']);
    is_ascii_chars_encode_utf8(n4);
    lemma_encode_utf8_concat(n5 + seq!['='], v5);
    lemma_encode_utf8_concat(n5, seq!['=']);
    is_ascii_chars_encode_utf8(n5);
    lemma_encode_utf8_concat(n6 + seq!['='], v6);
    lemma_encode_utf8_concat(n6, seq!['=']);
    is_ascii_chars_encode_utf8(n6);
    lemma_encode_utf8_concat(n7 + seq!['='], v7);
    lemma_encode_utf8_concat(n7, seq!['=']);
    is_ascii_chars_encode_utf8(n7);
    let f1 = encoded_field(n1 + seq!['='] + v1);
    let f2 = encoded_field(n2 + seq!['='] + v2);
    let f3 = encoded_field(n3 + seq!['='] + v3);
    let f4 = encoded_field(n4 + seq!['='] + v4);
    let f5 = encoded_field(n5 + seq!['='] + v5);
    let f6 = encoded_field(n6 + seq!['='] + v6);
    let f7 = encoded_field(n7 + seq!['='] + v7);
    let body = encoded_body(h, to_publisher);
    let rest6 = f6 + f7;
    let rest5 = if to_publisher {
        f5 + rest6
    } else {
        rest6
    };
    let rest4 = f4 + rest5;
    let rest3 = f3 + rest4;
    let rest2 = f2 + rest3;
    assert(body =~= f1 + rest2);

    let data = encode_spec(h, to_publisher);
    assert(data.take(4) =~= spec_u32_to_le_bytes(body.len() as u32));
    assert(data.skip(4) =~= body);
    assert(spec_u32_from_le_bytes(data.take(4)) == body.len());

    let r0 = body.len() as int;
    let r1 = r0 - f1.len();
    let r2 = r1 - f2.len();
    let r3 = r2 - f3.len();
    let r4 = r3 - f4.len();
    let r5 = if to_publisher {
        r4 - f5.len()
    } else {
        r4
    };
    let r6 = r5 - f6.len();

    let h0 = empty_header();
    let h1 = apply_field(h0, n1, v1);
    let h2 = apply_field(h1, n2, v2);
    let h3 = apply_field(h2, n3, v3);
    let h4 = apply_field(h3, n4, v4);
    let h5 = if to_publisher {
        apply_field(h4, n5, v5)
    } else {
        h4
    };
    let h6 = apply_field(h5, n6, v6);
    let h7 = apply_field(h6, n7, v7);

    lemma_decode_field_step(n1, v1, rest2, r0, h0);
    lemma_decode_field_step(n2, v2, rest3, r1, h1);
    lemma_decode_field_step(n3, v3, rest4, r2, h2);
    lemma_decode_field_step(n4, v4, rest5, r3, h3);
    if to_publisher {
        lemma_decode_field_step(n5, v5, rest6, r4, h4);
    }
    lemma_decode_field_step(n6, v6, f7, r5, h5);
    lemma_decode_field_step(n7, v7, Seq::<u8>::empty(), r6, h6);
    assert(f7 + Seq::<u8>::empty() =~= f7);
    assert(decode_fields(Seq::<u8>::empty(), 0, h7) == Ok::<HeaderView, FormatError>(h7));

    // The dispatch of each emitted field lands in its own slot.
    assert(n2 != n1) by {
        assert(n2[0] == 'l');
        assert(n1[0] == 'c');
    }
    assert(bool_of_text(bool_text(h.latching)) == h.latching) by {
        assert("1"@[0] == '1');
        assert("0"@[0] == '0');
    }
    assert(bool_of_text(bool_text(h.tcp_nodelay)) == h.tcp_nodelay) by {
        assert("1"@[0] == '1');
        assert("0"@[0] == '0');
    }
    assert(h7 == (HeaderView { tcp_nodelay: h.tcp_nodelay && to_publisher, ..h }));
}

/// A whole buffer opens as its advertised total length followed by the
/// field block: the parse starts on the block with that many bytes owed.
/// Composing this with the lemmas below turns each statement about a parse
/// state into one about a full buffer.
pub proof fn lemma_decode_spec_opens(block: Seq<u8>, l0: u32)
    ensures
        decode_spec(spec_u32_to_le_bytes(l0) + block) == decode_fields(
            block,
            l0 as int,
            empty_header(),
        ),
{
    vstd::bytes::lemma_auto_spec_u32_to_from_le_bytes();
    let data = spec_u32_to_le_bytes(l0) + block;
    assert(data.take(4) =~= spec_u32_to_le_bytes(l0));
    assert(data.skip(4) =~= block);
}

/// At any point of the parse, a field whose declared length is shorter
/// than its own name plus the `=` separator is rejected with a format
/// error — never read with a negative length.
pub proof fn lemma_underflow_rejected(tail: Seq<u8>, remaining: int, h: HeaderView)
    requires
        remaining > 0,
        tail.len() >= 4,
        has_eq(tail.skip(4)),
        spec_u32_from_le_bytes(tail.take(4)) < first_eq_at(tail.skip(4)) + 1,
    ensures
        decode_fields(tail, remaining, h) == Err::<HeaderView, FormatError>(
            FormatError::FieldLengthUnderflow,
        ),
{
}

/// At any point of the parse, a field that consumes more bytes than the
/// outer remaining length still allows is rejected with a format error —
/// never read beyond the advertised total.
pub proof fn lemma_overrun_rejected(
    name: Seq<char>,
    value: Seq<char>,
    rest: Seq<u8>,
    remaining: int,
    h: HeaderView,
)
    requires
        is_ascii_chars(name),
        forall|k: int| 0 <= k < name.len() ==> name[k] != '=',
        name.len() + 1 + encode_utf8(value).len() <= u32::MAX,
        0 < remaining < encoded_field(name + seq!['='] + value).len(),
    ensures
        decode_fields(encoded_field(name + seq!['='] + value) + rest, remaining, h) == Err::<
            HeaderView,
            FormatError,
        >(FormatError::OuterLengthOverrun),
{
    lemma_decode_field_step(name, value, rest, remaining, h);
}

/// At any point of the parse, a field whose name bytes or value bytes are
/// not valid UTF-8 is rejected with a format error.
pub proof fn lemma_invalid_utf8_rejected(
    name_b: Seq<u8>,
    value_b: Seq<u8>,
    rest: Seq<u8>,
    remaining: int,
    h: HeaderView,
)
    requires
        remaining > 0,
        forall|k: int| 0 <= k < name_b.len() ==> name_b[k] != 0x3du8,
        name_b.len() + 1 + value_b.len() <= u32::MAX,
        !valid_utf8(name_b) || !valid_utf8(value_b),
    ensures
        decode_fields(
            spec_u32_to_le_bytes((name_b.len() + 1 + value_b.len()) as u32) + name_b + seq![0x3du8]
                + value_b + rest,
            remaining,
            h,
        ) == Err::<HeaderView, FormatError>(FormatError::InvalidUtf8),
{
    vstd::bytes::lemma_auto_spec_u32_to_from_le_bytes();
    let nl = name_b.len() as int;
    let vl = value_b.len() as int;
    let lf = nl + 1 + vl;
    let t = spec_u32_to_le_bytes(lf as u32) + name_b + seq![0x3du8] + value_b + rest;
    assert(t.take(4) =~= spec_u32_to_le_bytes(lf as u32));
    assert(spec_u32_from_le_bytes(t.take(4)) == lf);
    let tr = t.skip(4);
    assert(tr =~= name_b + seq![0x3du8] + value_b + rest);
    assert(tr[nl] == 0x3du8);
    assert forall|k: int| 0 <= k < nl implies tr[k] != 0x3du8 by {
        assert(tr[k] == name_b[k]);
    }
    assert(is_first_eq_at(tr, nl));
    let i0 = first_eq_at(tr);
    assert(is_first_eq_at(tr, i0));
    if i0 < nl {
        assert(tr[i0] != 0x3du8);
    } else if i0 > nl {
        assert(tr[nl] != 0x3du8);
    }
    assert(i0 == nl);
    assert(tr.take(nl) =~= name_b);
    assert(tr.subrange(nl + 1, nl + 1 + vl) =~= value_b);
}

/// A well-formed field with an unrecognized name does not abort decoding:
/// the record is unchanged and the parse continues behind it, so every
/// recognized field elsewhere is populated normally.
pub proof fn lemma_unknown_field_ignored(
    name: Seq<char>,
    value: Seq<char>,
    rest: Seq<u8>,
    remaining: int,
    h: HeaderView,
)
    requires
        is_ascii_chars(name),
        forall|k: int| 0 <= k < name.len() ==> name[k] != '=',
        name.len() + 1 + encode_utf8(value).len() <= u32::MAX,
        remaining >= encoded_field(name + seq!['='] + value).len(),
        !known_name(name),
    ensures
        decode_fields(encoded_field(name + seq!['='] + value) + rest, remaining, h)
            == decode_fields(rest, remaining - encoded_field(name + seq!['='] + value).len(), h),
{
    lemma_decode_field_step(name, value, rest, remaining, h);
    assert(apply_field(h, name, value) == h);
}

} // verus!

