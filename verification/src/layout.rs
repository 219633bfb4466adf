//! Messages field by field: what stands on the wire, read off the bytes themselves. Every message
//! of the exchange is held against the fields that its protocol gives it, with the numbers and the
//! names that the protocol fixes.

use vstd::prelude::*;
use vstd::utf8::encode_utf8;

use crate::channel::{
    bare_message, confirmation_message, data_message, goodbye, open_message, subsystem_message,
    CHANNEL_SUCCESS,
};
use crate::cipher::packet;
use crate::directory::{
    data_given, entries_bytes, handle_given, names_given, status_given, Desk, Query,
};
use crate::kex::{init_message, offer, reply_message, Transcript, SERVICE_ACCEPT, SERVICE_REQUEST};
use crate::keys::blob;
use crate::subsystem::{
    framed, named_body, open_body, read_body, write_body, CLOSE, F_PUT, F_READ, INIT, OPEN,
    OPENDIR, PROTOCOL, READ, READDIR, REMOVE, WRITE,
};
use crate::text::law_encoding_is_short;
use crate::userauth::{
    failure_message, password_message, public_key_message, service_message, signed_bytes,
    USERAUTH_SUCCESS,
};
use crate::wire::{
    be32, be64, boolean, from_be32, from_be64, law_mpint_is_the_number_in_its_shortest_form, mpint,
    mpint_bytes, string, take_bool, take_byte, take_string, take_u32, take_u64, unsigned,
};

verus! {

/// One field of a message, and what it holds.
pub ghost enum Field {
    /// One byte.
    Byte(u8),
    /// A `boolean`.
    Flag(bool),
    /// A `uint32`.
    Number(u32),
    /// A `uint64`.
    Long(u64),
    /// A `string`.
    Text(Seq<u8>),
    /// Bytes as they are, with nothing before them to tell how many.
    Raw(Seq<u8>),
}

/// The number that the four bytes from `at` on stand for, the most significant first.
pub open spec fn number_at(s: Seq<u8>, at: int) -> int {
    s[at] * 16_777_216 + s[at + 1] * 65_536 + s[at + 2] * 256 + s[at + 3]
}

/// Whether these bytes are this field, no more and no less.
#[verifier::opaque]
pub open spec fn shows(s: Seq<u8>, field: Field) -> bool {
    match field {
        Field::Byte(byte) => s.len() == 1 && s[0] == byte,
        Field::Flag(flag) => s.len() == 1 && s[0] == if flag {
            1
        } else {
            0int
        },
        Field::Number(n) => s.len() == 4 && number_at(s, 0) == n,
        Field::Long(n) => s.len() == 8 && number_at(s, 0) * 4_294_967_296 + number_at(s, 4) == n,
        Field::Text(text) => s.len() == 4 + text.len() && number_at(s, 0) == text.len() && s.skip(4)
            == text,
        Field::Raw(bytes) => s == bytes,
    }
}

/// How many bytes a field takes.
pub open spec fn size(field: Field) -> nat {
    match field {
        Field::Byte(_) => 1,
        Field::Flag(_) => 1,
        Field::Number(_) => 4,
        Field::Long(_) => 8,
        Field::Text(text) => 4 + text.len(),
        Field::Raw(bytes) => bytes.len(),
    }
}

/// Whether a message is made of these fields, one behind the other, and of nothing else.
#[verifier::opaque]
pub open spec fn reads(message: Seq<u8>, fields: Seq<Field>) -> bool
    decreases fields.len(),
{
    if fields.len() == 0 {
        message.len() == 0
    } else {
        let from = message.len() - size(fields.last());
        &&& from >= 0
        &&& shows(message.skip(from), fields.last())
        &&& reads(message.take(from), fields.drop_last())
    }
}

/// The fields of a message, from the first on.
pub open spec fn fields(first: Field) -> Seq<Field> {
    Seq::empty().push(first)
}

/// A message with one more field behind it.
pub broadcast proof fn lemma_reads_on(
    front: Seq<u8>,
    piece: Seq<u8>,
    fields: Seq<Field>,
    field: Field,
)
    requires
        reads(front, fields),
        shows(piece, field),
    ensures
        #[trigger] reads(front + piece, fields.push(field)),
{
    reveal(reads);
    reveal(shows);
    let message = front + piece;
    let all = fields.push(field);
    assert(all.drop_last() =~= fields);
    assert(message.take(front.len() as int) =~= front);
    assert(message.skip(front.len() as int) =~= piece);
}

/// A message of one field.
pub broadcast proof fn lemma_reads_one(piece: Seq<u8>, field: Field)
    requires
        shows(piece, field),
    ensures
        #[trigger] reads(piece, fields(field)),
{
    reveal(reads);
    assert(Seq::<u8>::empty() + piece =~= piece);
    lemma_reads_on(Seq::empty(), piece, Seq::empty(), field);
}

/// A byte shows itself.
pub broadcast proof fn law_a_byte_shows_itself(byte: u8)
    ensures
        #[trigger] shows(seq![byte], Field::Byte(byte)),
{
    reveal(shows);
}

/// A `boolean` is one byte: one for true, zero for false.
pub broadcast proof fn law_a_boolean_is_one_or_zero(flag: bool)
    ensures
        #[trigger] shows(boolean(flag), Field::Flag(flag)),
{
    reveal(shows);
}

/// A `uint32` is four bytes, the most significant first.
pub broadcast proof fn law_a_uint32_is_big_endian(n: u32)
    ensures
        #[trigger] shows(be32(n), Field::Number(n)),
{
    reveal(shows);
}

/// A `uint64` is eight bytes, the most significant first.
pub broadcast proof fn law_a_uint64_is_big_endian(n: u64)
    ensures
        #[trigger] shows(be64(n), Field::Long(n)),
{
    reveal(shows);
    let high = (n / 0x1_0000_0000) as u32;
    let low = (n % 0x1_0000_0000) as u32;
    law_a_uint32_is_big_endian(high);
    law_a_uint32_is_big_endian(low);
    assert(number_at(be64(n), 0) == number_at(be32(high), 0));
    assert(number_at(be64(n), 4) == number_at(be32(low), 0));
}

/// A `string` is the number of its bytes, then the bytes.
pub broadcast proof fn law_a_string_is_counted(text: Seq<u8>)
    requires
        text.len() <= u32::MAX,
    ensures
        #[trigger] shows(string(text), Field::Text(text)),
{
    reveal(shows);
    assert(string(text).skip(4) =~= text);
}

/// Bytes as they are.
pub broadcast proof fn law_raw_bytes_are_themselves(bytes: Seq<u8>)
    ensures
        #[trigger] shows(bytes, Field::Raw(bytes)),
{
    reveal(shows);
}

pub broadcast group group_fields {
    lemma_reads_on,
    lemma_reads_one,
    law_a_byte_shows_itself,
    law_a_boolean_is_one_or_zero,
    law_a_uint32_is_big_endian,
    law_a_uint64_is_big_endian,
    law_a_string_is_counted,
    law_raw_bytes_are_themselves,
}

proof fn lemma_digits_agree(a: (u8, u8, u8, u8), b: (u8, u8, u8, u8))
    requires
        a.0 * 16_777_216 + a.1 * 65_536 + a.2 * 256 + a.3 == b.0 * 16_777_216 + b.1 * 65_536 + b.2
            * 256 + b.3,
    ensures
        a == b,
{
}

/// Four bytes that stand for one number are the same bytes.
proof fn lemma_number_tells_its_bytes(a: Seq<u8>, b: Seq<u8>, at: int)
    requires
        number_at(a, at) == number_at(b, at),
    ensures
        a[at] == b[at],
        a[at + 1] == b[at + 1],
        a[at + 2] == b[at + 2],
        a[at + 3] == b[at + 3],
{
    lemma_digits_agree(
        (a[at], a[at + 1], a[at + 2], a[at + 3]),
        (b[at], b[at + 1], b[at + 2], b[at + 3]),
    );
}

/// Two runs of bytes that show one field are the same.
proof fn lemma_shows_one(a: Seq<u8>, b: Seq<u8>, field: Field)
    requires
        shows(a, field),
        shows(b, field),
    ensures
        a == b,
{
    reveal(shows);
    match field {
        Field::Number(_) => {
            lemma_number_tells_its_bytes(a, b, 0);
            assert(a =~= b);
        },
        Field::Long(_) => {
            assert(number_at(a, 0) == number_at(b, 0) && number_at(a, 4) == number_at(b, 4)) by {
                lemma_number_is_small(a, 4);
                lemma_number_is_small(b, 4);
            }
            lemma_number_tells_its_bytes(a, b, 0);
            lemma_number_tells_its_bytes(a, b, 4);
            assert(a =~= b);
        },
        Field::Text(text) => {
            lemma_number_tells_its_bytes(a, b, 0);
            assert forall|i: int| 0 <= i < a.len() implies a[i] == b[i] by {
                if i >= 4 {
                    assert(a[i] == a.skip(4)[i - 4]);
                    assert(b[i] == b.skip(4)[i - 4]);
                }
            }
            assert(a =~= b);
        },
        _ => {
            assert(a =~= b);
        },
    }
}

proof fn lemma_number_is_small(s: Seq<u8>, at: int)
    ensures
        0 <= number_at(s, at) < 4_294_967_296,
{
}

/// The fields of a message tell the message: two with the same fields are one.
pub proof fn law_the_fields_tell_the_message(a: Seq<u8>, b: Seq<u8>, fields: Seq<Field>)
    requires
        reads(a, fields),
        reads(b, fields),
    ensures
        a == b,
    decreases fields.len(),
{
    reveal(reads);
    if fields.len() == 0 {
        assert(a =~= b);
    } else {
        let n = size(fields.last()) as int;
        let (x, y) = (a.len() - n, b.len() - n);
        lemma_shows_one(a.skip(x), b.skip(y), fields.last());
        law_the_fields_tell_the_message(a.take(x), b.take(y), fields.drop_last());
        assert(a =~= a.take(x) + a.skip(x));
        assert(b =~= b.take(y) + b.skip(y));
    }
}

/// The key-exchange offer: message 20, a cookie of sixteen bytes, then one name on every axis and
/// no guess behind them.
pub proof fn law_the_offer_field_by_field(cookie: Seq<u8>)
    ensures
        reads(
            offer(cookie),
            fields(Field::Byte(20))
                .push(Field::Raw(cookie))
                .push(Field::Text(encode_utf8("curve25519-sha256"@)))
                .push(Field::Text(encode_utf8("ssh-ed25519"@)))
                .push(Field::Text(encode_utf8("aes256-ctr"@)))
                .push(Field::Text(encode_utf8("aes256-ctr"@)))
                .push(Field::Text(encode_utf8("hmac-sha2-256"@)))
                .push(Field::Text(encode_utf8("hmac-sha2-256"@)))
                .push(Field::Text(encode_utf8("none"@)))
                .push(Field::Text(encode_utf8("none"@)))
                .push(Field::Text(encode_utf8(""@)))
                .push(Field::Text(encode_utf8(""@)))
                .push(Field::Flag(false))
                .push(Field::Number(0)),
        ),
{
    broadcast use group_fields;

    lemma_names_are_short();
}

/// The names of the protocol fit in a `string`.
proof fn lemma_names_are_short()
    ensures
        encode_utf8("curve25519-sha256"@).len() <= 100,
        encode_utf8("ssh-ed25519"@).len() <= 100,
        encode_utf8("aes256-ctr"@).len() <= 100,
        encode_utf8("hmac-sha2-256"@).len() <= 100,
        encode_utf8("none"@).len() <= 100,
        encode_utf8(""@).len() <= 100,
        encode_utf8("ssh-connection"@).len() <= 100,
        encode_utf8("ssh-userauth"@).len() <= 100,
        encode_utf8("password"@).len() <= 100,
        encode_utf8("publickey"@).len() <= 100,
        encode_utf8("publickey,password"@).len() <= 100,
        encode_utf8("session"@).len() <= 100,
        encode_utf8("subsystem"@).len() <= 100,
        encode_utf8("sftp"@).len() <= 100,
{
    reveal_strlit("curve25519-sha256");
    reveal_strlit("ssh-ed25519");
    reveal_strlit("aes256-ctr");
    reveal_strlit("hmac-sha2-256");
    reveal_strlit("none");
    reveal_strlit("");
    reveal_strlit("ssh-connection");
    reveal_strlit("ssh-userauth");
    reveal_strlit("password");
    reveal_strlit("publickey");
    reveal_strlit("publickey,password");
    reveal_strlit("session");
    reveal_strlit("subsystem");
    reveal_strlit("sftp");
    law_encoding_is_short("curve25519-sha256"@);
    law_encoding_is_short("ssh-ed25519"@);
    law_encoding_is_short("aes256-ctr"@);
    law_encoding_is_short("hmac-sha2-256"@);
    law_encoding_is_short("none"@);
    law_encoding_is_short(""@);
    law_encoding_is_short("ssh-connection"@);
    law_encoding_is_short("ssh-userauth"@);
    law_encoding_is_short("password"@);
    law_encoding_is_short("publickey"@);
    law_encoding_is_short("publickey,password"@);
    law_encoding_is_short("session"@);
    law_encoding_is_short("subsystem"@);
    law_encoding_is_short("sftp"@);
}

/// The two messages of the Diffie-Hellman exchange: 30 with the client's public key; 31 with the
/// host key, the server's public key and the signature, in that order.
pub proof fn law_the_exchange_field_by_field(
    q_c: Seq<u8>,
    k_s: Seq<u8>,
    q_s: Seq<u8>,
    signature: Seq<u8>,
)
    requires
        q_c.len() <= u32::MAX,
        k_s.len() <= u32::MAX,
        q_s.len() <= u32::MAX,
        signature.len() <= u32::MAX,
    ensures
        reads(init_message(q_c), fields(Field::Byte(30))
            .push(Field::Text(q_c))),
        reads(
            reply_message(k_s, q_s, signature),
            fields(Field::Byte(31))
                .push(Field::Text(k_s))
                .push(Field::Text(q_s))
                .push(Field::Text(signature)),
        ),
{
    broadcast use group_fields;

}

/// What the exchange hash is over: both identifications, both offers, the host key, both public
/// keys, the client's always before the server's, and the shared secret.
pub proof fn law_the_transcript_field_by_field(parts: Transcript)
    requires
        parts.countable(),
    ensures
        reads(
            parts.bytes(),
            fields(Field::Text(encode_utf8(parts.v_c)))
                .push(Field::Text(encode_utf8(parts.v_s)))
                .push(Field::Text(parts.i_c))
                .push(Field::Text(parts.i_s))
                .push(Field::Text(parts.k_s))
                .push(Field::Text(parts.q_c))
                .push(Field::Text(parts.q_s))
                .push(Field::Raw(parts.k_mpint)),
        ),
{
    broadcast use group_fields;

}

/// A key or a signature in its blob: the name of the algorithm, then the bytes.
pub proof fn law_a_blob_field_by_field(bytes: Seq<u8>)
    requires
        bytes.len() <= u32::MAX,
    ensures
        reads(blob(bytes), fields(Field::Text(encode_utf8("ssh-ed25519"@)))
            .push(Field::Text(bytes))),
{
    broadcast use group_fields;

    lemma_names_are_short();
}

/// The service that authenticates is asked for with message 5 and granted with message 6.
pub proof fn law_the_service_field_by_field()
    ensures
        reads(
            service_message(SERVICE_REQUEST),
            fields(Field::Byte(5))
                .push(Field::Text(encode_utf8("ssh-userauth"@))),
        ),
        reads(
            service_message(SERVICE_ACCEPT),
            fields(Field::Byte(6))
                .push(Field::Text(encode_utf8("ssh-userauth"@))),
        ),
{
    broadcast use group_fields;

    lemma_names_are_short();
}

/// A login by password: message 50 with the user, the service, the method, false, and the
/// password.
pub proof fn law_a_password_field_by_field(user: Seq<char>, secret: Seq<char>)
    requires
        encode_utf8(user).len() <= u32::MAX,
        encode_utf8(secret).len() <= u32::MAX,
    ensures
        reads(
            password_message(user, secret),
            fields(Field::Byte(50))
                .push(Field::Text(encode_utf8(user)))
                .push(Field::Text(encode_utf8("ssh-connection"@)))
                .push(Field::Text(encode_utf8("password"@)))
                .push(Field::Flag(false))
                .push(Field::Text(encode_utf8(secret))),
        ),
{
    broadcast use group_fields;

    lemma_names_are_short();
}

/// A login by public key: message 50 with the user, the service, the method, true, the algorithm,
/// the key and the signature; and what is signed: the session, then the request up to the key.
pub proof fn law_a_public_key_field_by_field(
    session_id: Seq<u8>,
    user: Seq<char>,
    key: Seq<u8>,
    signature: Seq<u8>,
)
    requires
        session_id.len() <= u32::MAX,
        encode_utf8(user).len() <= u32::MAX,
        key.len() <= u32::MAX,
        signature.len() <= u32::MAX,
    ensures
        reads(
            public_key_message(user, key, signature),
            fields(Field::Byte(50))
                .push(Field::Text(encode_utf8(user)))
                .push(Field::Text(encode_utf8("ssh-connection"@)))
                .push(Field::Text(encode_utf8("publickey"@)))
                .push(Field::Flag(true))
                .push(Field::Text(encode_utf8("ssh-ed25519"@)))
                .push(Field::Text(key))
                .push(Field::Text(signature)),
        ),
        reads(
            signed_bytes(session_id, user, key),
            fields(Field::Text(session_id))
                .push(Field::Byte(50))
                .push(Field::Text(encode_utf8(user)))
                .push(Field::Text(encode_utf8("ssh-connection"@)))
                .push(Field::Text(encode_utf8("publickey"@)))
                .push(Field::Flag(true))
                .push(Field::Text(encode_utf8("ssh-ed25519"@)))
                .push(Field::Text(key)),
        ),
{
    broadcast use group_fields;

    lemma_names_are_short();
    let head = seq![50u8] + string(encode_utf8(user)) + string(encode_utf8("ssh-connection"@))
        + string(encode_utf8("publickey"@));
    let spread = string(session_id) + seq![50u8] + string(encode_utf8(user)) + string(
        encode_utf8("ssh-connection"@),
    ) + string(encode_utf8("publickey"@));
    assert(string(session_id) + head =~= spread);
    assert(signed_bytes(session_id, user, key) == spread + boolean(true) + string(
        encode_utf8("ssh-ed25519"@),
    ) + string(key));
}

/// A credential is turned down with message 51, the methods that may be tried, and false; it is
/// admitted with message 52 alone.
pub proof fn law_the_answer_field_by_field()
    ensures
        reads(
            failure_message(),
            fields(Field::Byte(51))
                .push(Field::Text(encode_utf8("publickey,password"@)))
                .push(Field::Flag(false)),
        ),
        USERAUTH_SUCCESS == 52,
{
    broadcast use group_fields;

    lemma_names_are_short();
}

/// The messages that open a channel: 90 asks for a session, 91 confirms it with the peer's number
/// before our own, 98 asks for the subsystem and for an answer, 99 grants it. Each end gives itself
/// the number 0, and offers a window of 64 mebibytes in packets of 32 kibibytes.
pub proof fn law_the_opening_field_by_field(remote_id: u32)
    ensures
        reads(
            open_message(),
            fields(Field::Byte(90))
                .push(Field::Text(encode_utf8("session"@)))
                .push(Field::Number(0))
                .push(Field::Number(67_108_864))
                .push(Field::Number(32_768)),
        ),
        reads(
            confirmation_message(remote_id),
            fields(Field::Byte(91))
                .push(Field::Number(remote_id))
                .push(Field::Number(0))
                .push(Field::Number(67_108_864))
                .push(Field::Number(32_768)),
        ),
        reads(
            subsystem_message(remote_id),
            fields(Field::Byte(98))
                .push(Field::Number(remote_id))
                .push(Field::Text(encode_utf8("subsystem"@)))
                .push(Field::Flag(true))
                .push(Field::Text(encode_utf8("sftp"@))),
        ),
        reads(
            bare_message(CHANNEL_SUCCESS, remote_id),
            fields(Field::Byte(99)).push(Field::Number(remote_id)),
        ),
{
    broadcast use group_fields;

    lemma_names_are_short();
}

/// The messages of an open channel: 94 carries bytes, and a goodbye is 96, the end of data, and
/// then 97, the close.
pub proof fn law_the_channel_field_by_field(remote_id: u32, chunk: Seq<u8>)
    requires
        chunk.len() <= u32::MAX,
    ensures
        reads(
            data_message(remote_id, chunk),
            fields(Field::Byte(94)).push(Field::Number(remote_id)).push(Field::Text(chunk)),
        ),
        goodbye(remote_id).len() == 2,
        reads(
            goodbye(remote_id)[0],
            fields(Field::Byte(96)).push(Field::Number(remote_id)),
        ),
        reads(
            goodbye(remote_id)[1],
            fields(Field::Byte(97)).push(Field::Number(remote_id)),
        ),
{
    broadcast use group_fields;

}

/// A packet of the subsystem: its length, its type, its body, the type counted in the length.
pub proof fn law_a_frame_field_by_field(kind: u8, body: Seq<u8>)
    requires
        body.len() < u32::MAX,
    ensures
        reads(
            framed(kind, body),
            fields(Field::Number((body.len() + 1) as u32))
                .push(Field::Byte(kind))
                .push(Field::Raw(body)),
        ),
{
    broadcast use group_fields;

}

/// The requests of the subsystem that name a file or a handle: 3 opens a file, 0x1a to put it
/// (written to, created, emptied) and 1 to get it, without attributes; 4 closes a handle, 11 opens
/// a directory, 12 lists it and 13 removes a file.
pub proof fn law_the_requests_field_by_field(id: u32, name: Seq<char>)
    requires
        encode_utf8(name).len() <= u32::MAX,
    ensures
        OPEN == 3 && CLOSE == 4 && READ == 5 && WRITE == 6,
        OPENDIR == 11 && READDIR == 12 && REMOVE == 13,
        reads(
            open_body(id, name, F_PUT),
            fields(Field::Number(id))
                .push(Field::Text(encode_utf8(name)))
                .push(Field::Number(0x1a))
                .push(Field::Number(0)),
        ),
        reads(
            open_body(id, name, F_READ),
            fields(Field::Number(id))
                .push(Field::Text(encode_utf8(name)))
                .push(Field::Number(1))
                .push(Field::Number(0)),
        ),
        reads(
            named_body(id, name),
            fields(Field::Number(id)).push(Field::Text(encode_utf8(name))),
        ),
{
    broadcast use group_fields;

    assert(0x2u32 | 0x8u32 | 0x10u32 == 0x1a) by (bit_vector);
}

/// The requests of the subsystem that move bytes: a write, with where they go; a read, with where
/// they are and how many are wanted, which is 32 kibibytes.
pub proof fn law_the_transfers_field_by_field(
    id: u32,
    handle: Seq<char>,
    offset: u64,
    data: Seq<u8>,
)
    requires
        encode_utf8(handle).len() <= u32::MAX,
        data.len() <= u32::MAX,
    ensures
        reads(
            write_body(id, handle, offset, data),
            fields(Field::Number(id))
                .push(Field::Text(encode_utf8(handle)))
                .push(Field::Long(offset))
                .push(Field::Text(data)),
        ),
        reads(
            read_body(id, handle, offset),
            fields(Field::Number(id))
                .push(Field::Text(encode_utf8(handle)))
                .push(Field::Long(offset))
                .push(Field::Number(32_768)),
        ),
{
    broadcast use group_fields;

}

/// The subsystem is opened with 1 and answered with 2, both with the version, which is 3.
pub proof fn law_the_version_field_by_field(desk: Desk)
    ensures
        INIT == 1,
        reads(be32(PROTOCOL), fields(Field::Number(3))),
        desk.serve(Query::Init).1.kind == 2,
        reads(desk.serve(Query::Init).1.body, fields(Field::Number(3))),
        desk.serve(Query::Init).0 == desk,
{
    broadcast use group_fields;

}

/// The replies of the subsystem: 101 is a status, with its code, its words and no language; 102 a
/// handle; 103 data; 104 names, with how many there are before them.
pub proof fn law_the_replies_field_by_field(
    id: u32,
    code: u32,
    text: Seq<char>,
    data: Seq<u8>,
    names: Seq<Seq<char>>,
)
    requires
        encode_utf8(text).len() <= u32::MAX,
        data.len() <= u32::MAX,
        names.len() <= u32::MAX,
    ensures
        status_given(id, code, text).kind == 101,
        reads(
            status_given(id, code, text).body,
            fields(Field::Number(id))
                .push(Field::Number(code))
                .push(Field::Text(encode_utf8(text)))
                .push(Field::Text(Seq::empty())),
        ),
        handle_given(id, text).kind == 102,
        reads(
            handle_given(id, text).body,
            fields(Field::Number(id)).push(Field::Text(encode_utf8(text))),
        ),
        data_given(id, data).kind == 103,
        reads(data_given(id, data).body, fields(Field::Number(id)).push(Field::Text(data))),
        names_given(id, names).kind == 104,
        reads(
            names_given(id, names).body,
            fields(Field::Number(id))
                .push(Field::Number(names.len() as u32))
                .push(Field::Raw(entries_bytes(names))),
        ),
{
    broadcast use group_fields;

}

/// The entries of a listing: each of the names twice, short and long, and no attributes, in the
/// order of the names.
pub proof fn law_an_entry_field_by_field(names: Seq<Seq<char>>, name: Seq<char>)
    requires
        encode_utf8(name).len() <= u32::MAX,
    ensures
        entries_bytes(Seq::empty()) == Seq::<u8>::empty(),
        reads(
            entries_bytes(names.push(name)),
            fields(Field::Raw(entries_bytes(names)))
                .push(Field::Text(encode_utf8(name)))
                .push(Field::Text(encode_utf8(name)))
                .push(Field::Number(0)),
        ),
{
    broadcast use group_fields;

    let text = string(encode_utf8(name));
    assert(names.push(name).drop_last() =~= names);
    assert(entries_bytes(names.push(name)) =~= entries_bytes(names) + text + text + be32(0));
}

/// A binary packet: the length of what follows, the length of the padding, the payload, the
/// padding.
pub proof fn law_a_packet_field_by_field(payload: Seq<u8>, padding: Seq<u8>)
    requires
        1 + payload.len() + padding.len() <= u32::MAX,
        padding.len() <= u8::MAX,
    ensures
        reads(
            packet(payload, padding),
            fields(Field::Number((1 + payload.len() + padding.len()) as u32))
                .push(Field::Byte(padding.len() as u8))
                .push(Field::Raw(payload))
                .push(Field::Raw(padding)),
        ),
{
    broadcast use group_fields;

}

/// A shared secret is hashed as the `string` of its bytes as a number: the most significant
/// first, with none to spare, and a zero before a number that would else read as a negative one.
pub proof fn law_a_secret_field_by_field(secret: Seq<u8>)
    requires
        secret.len() < u32::MAX,
    ensures
        exists|number: Seq<u8>|
            #![trigger unsigned(number)]
            {
                &&& reads(mpint(secret), fields(Field::Text(number)))
                &&& unsigned(number) == unsigned(secret)
                &&& number.len() > 0 ==> number[0] < 0x80
                &&& number.len() > 0 && number[0] == 0 ==> number.len() > 1 && number[1] >= 0x80
            },
{
    broadcast use group_fields;

    law_mpint_is_the_number_in_its_shortest_form(secret);
    let number = mpint_bytes(secret);
    assert(reads(mpint(secret), fields(Field::Text(number))));
}

/// How a `uint32`, a `uint64` and a `string` are read: from bytes that begin with one, whatever
/// follows, and from no others.
pub proof fn law_fields_are_read_as_they_stand(s: Seq<u8>)
    ensures
        match take_u32(s) {
            Some((n, rest)) => s.len() >= 4 && shows(s.take(4), Field::Number(n)) && rest
                == s.skip(4),
            None => s.len() < 4,
        },
        match take_u64(s) {
            Some((n, rest)) => s.len() >= 8 && shows(s.take(8), Field::Long(n)) && rest
                == s.skip(8),
            None => s.len() < 8,
        },
        match take_bool(s) {
            Some((flag, rest)) => s.len() >= 1 && flag == (s[0] != 0) && rest == s.skip(1),
            None => s.len() == 0,
        },
        match take_byte(s) {
            Some((byte, rest)) => s.len() >= 1 && byte == s[0] && rest == s.skip(1),
            None => s.len() == 0,
        },
        match take_string(s) {
            Some((text, rest)) => {
                &&& s.len() >= 4 + text.len()
                &&& shows(s.take(4 + text.len() as int), Field::Text(text))
                &&& rest == s.skip(4 + text.len() as int)
            },
            None => s.len() < 4 || s.len() < 4 + number_at(s, 0),
        },
{
    reveal(shows);
    if s.len() >= 4 {
        let n = number_at(s, 0);
        assert(number_at(s.take(4), 0) == n);
        lemma_number_is_small(s, 0);
        assert(from_be32(s.take(4)) == n);
        if s.len() >= 4 + n {
            let text = s.skip(4).take(n);
            assert(s.take(4 + n).skip(4) =~= text);
            assert(number_at(s.take(4 + n), 0) == n);
            assert(s.skip(4).skip(n) =~= s.skip(4 + n));
        }
    }
    if s.len() >= 8 {
        lemma_long_is_read(s);
    }
}

proof fn lemma_long_is_read(s: Seq<u8>)
    requires
        s.len() >= 8,
    ensures
        from_be64(s.take(8)) == number_at(s.take(8), 0) * 4_294_967_296 + number_at(s.take(8), 4),
{
    let t = s.take(8);
    lemma_number_is_small(t, 0);
    lemma_number_is_small(t, 4);
    assert(from_be32(t.take(4)) == number_at(t, 0));
    assert(from_be32(t.skip(4)) == number_at(t, 4));
}

} // verus!
