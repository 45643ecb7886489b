use vstd::prelude::*;
use vstd::utf8::{encode_utf8_decode_utf8, encode_utf8_valid_utf8};
use crate::codec::{
    be16, bool_byte, enc_binary, enc_body, enc_opt_binary, enc_opt_string, enc_packet_id,
    enc_remaining_length, enc_string, enc_sub_topics, enc_unsub_topics, encodable, fields_fit,
    header_flags, opt_binary_fits, opt_string_fits, packet_type_of, sub_topics_fit,
    unsub_topics_fit, MAX_FIELD_LENGTH, MAX_REMAINING_LENGTH, utf8,
};
use crate::decode::{
    dec_fixed_header, decode_spec, flags_valid, DecodedModel,
    dec_body, dec_connect, dec_publish, dec_remaining_length, dec_sub_topics, dec_unsub_topics,
    low7, password_flag, publish_qos, sp_binary, sp_opt_binary, sp_opt_string, sp_string, sp_u16,
    username_flag, will_flag, RemainingLength,
};
use crate::packet::{ConnectModel, ConnectReturnCode, FixedHeader, PacketModel, PacketType, PublishModel};
use crate::codec::{encode, first_byte};

verus! {

proof fn lemma_u16(v: u16, rest: Seq<u8>)
    ensures
        sp_u16(be16(v) + rest) == Some((v, rest)),
{
    let b = be16(v) + rest;
    assert(b[0] == (v / 256) as u8);
    assert(b[1] == (v % 256) as u8);
    assert(b.skip(2) =~= rest);
}

proof fn lemma_binary(x: Seq<u8>, rest: Seq<u8>)
    requires
        x.len() <= MAX_FIELD_LENGTH,
    ensures
        sp_binary(enc_binary(x) + rest) == Some((x, rest)),
{
    let l = x.len() as u16;
    assert(enc_binary(x) + rest =~= be16(l) + (x + rest));
    lemma_u16(l, x + rest);
    assert((x + rest).take(l as int) =~= x);
    assert((x + rest).skip(l as int) =~= rest);
}

proof fn lemma_string(s: Seq<char>, rest: Seq<u8>)
    requires
        utf8(s).len() <= MAX_FIELD_LENGTH,
    ensures
        sp_string(enc_string(s) + rest) == Some((s, rest)),
{
    lemma_binary(utf8(s), rest);
    encode_utf8_valid_utf8(s);
    encode_utf8_decode_utf8(s);
}

proof fn lemma_remaining_length(n: nat, rest: Seq<u8>)
    requires
        n <= MAX_REMAINING_LENGTH,
    ensures
        1 <= enc_remaining_length(n).len() <= 4,
        dec_remaining_length(enc_remaining_length(n) + rest) == RemainingLength::Value(
            n as usize,
            enc_remaining_length(n).len() as usize,
        ),
{
    let e0 = enc_remaining_length(n);
    let b = e0 + rest;
    if n < 128 {
        assert(b[0] == n as u8);
    } else {
        let n1 = n / 128;
        let e1 = enc_remaining_length(n1);
        assert(e0 == seq![(n % 128 + 128) as u8] + e1);
        assert(b[0] == (n % 128 + 128) as u8);
        assert(low7(b[0]) == n % 128);
        if n1 < 128 {
            assert(e1 == seq![n1 as u8]);
            assert(b[1] == n1 as u8);
            assert(n == n % 128 + 128 * n1);
        } else {
            let n2 = n1 / 128;
            let e2 = enc_remaining_length(n2);
            assert(e1 == seq![(n1 % 128 + 128) as u8] + e2);
            assert(b[1] == (n1 % 128 + 128) as u8);
            assert(low7(b[1]) == n1 % 128);
            if n2 < 128 {
                assert(e2 == seq![n2 as u8]);
                assert(b[2] == n2 as u8);
                assert(n == n % 128 + 128 * (n1 % 128) + 16384 * n2) by (nonlinear_arith)
                    requires
                        n1 == n / 128,
                        n2 == n1 / 128,
                ;
            } else {
                let n3 = n2 / 128;
                let e3 = enc_remaining_length(n3);
                assert(e2 == seq![(n2 % 128 + 128) as u8] + e3);
                assert(b[2] == (n2 % 128 + 128) as u8);
                assert(low7(b[2]) == n2 % 128);
                assert(n3 < 128) by (nonlinear_arith)
                    requires
                        n1 == n / 128,
                        n2 == n1 / 128,
                        n3 == n2 / 128,
                        n <= 268435455,
                ;
                assert(e3 == seq![n3 as u8]);
                assert(b[3] == n3 as u8);
                assert(n == n % 128 + 128 * (n1 % 128) + 16384 * (n2 % 128) + 2097152 * n3)
                    by (nonlinear_arith)
                    requires
                        n1 == n / 128,
                        n2 == n1 / 128,
                        n3 == n2 / 128,
                ;
            }
        }
    }
}

pub open spec fn enc_sub_topic(x: (Seq<char>, u8)) -> Seq<u8> {
    enc_string(x.0) + seq![x.1]
}

proof fn lemma_sub_topics_cons(x: (Seq<char>, u8), ts: Seq<(Seq<char>, u8)>)
    ensures
        enc_sub_topics(seq![x] + ts) == enc_sub_topic(x) + enc_sub_topics(ts),
    decreases ts.len(),
{
    let s = seq![x] + ts;
    if ts.len() == 0 {
        assert(s.drop_last() =~= Seq::<(Seq<char>, u8)>::empty());
        assert(s.last() == x);
        assert(enc_sub_topics(s) == enc_sub_topics(s.drop_last()) + enc_string(s.last().0) + seq![s.last().1]);
        assert(enc_sub_topics(s) =~= enc_sub_topic(x) + enc_sub_topics(ts));
    } else {
        assert(s.drop_last() =~= seq![x] + ts.drop_last());
        assert(s.last() == ts.last());
        lemma_sub_topics_cons(x, ts.drop_last());
        let a = enc_sub_topics(ts.drop_last());
        let l = enc_string(ts.last().0) + seq![ts.last().1];
        assert(enc_sub_topics(s) == enc_sub_topics(s.drop_last()) + enc_string(s.last().0) + seq![s.last().1]);
        assert(enc_sub_topics(s) =~= (enc_sub_topic(x) + a) + l);
        assert(enc_sub_topics(ts) =~= a + l);
        assert((enc_sub_topic(x) + a) + l =~= enc_sub_topic(x) + (a + l));
    }
}

proof fn lemma_unsub_topics_cons(x: Seq<char>, ts: Seq<Seq<char>>)
    ensures
        enc_unsub_topics(seq![x] + ts) == enc_string(x) + enc_unsub_topics(ts),
    decreases ts.len(),
{
    let s = seq![x] + ts;
    if ts.len() == 0 {
        assert(s.drop_last() =~= Seq::<Seq<char>>::empty());
        assert(s.last() == x);
        assert(enc_unsub_topics(s) == enc_unsub_topics(s.drop_last()) + enc_string(s.last()));
        assert(enc_unsub_topics(s) =~= enc_string(x) + enc_unsub_topics(ts));
    } else {
        assert(s.drop_last() =~= seq![x] + ts.drop_last());
        assert(s.last() == ts.last());
        lemma_unsub_topics_cons(x, ts.drop_last());
        let a = enc_unsub_topics(ts.drop_last());
        let l = enc_string(ts.last());
        assert(enc_unsub_topics(s) == enc_unsub_topics(s.drop_last()) + enc_string(s.last()));
        assert(enc_unsub_topics(s) =~= (enc_string(x) + a) + l);
        assert(enc_unsub_topics(ts) =~= a + l);
    }
}

proof fn lemma_dec_sub_topics(ts: Seq<(Seq<char>, u8)>)
    requires
        sub_topics_fit(ts),
    ensures
        dec_sub_topics(enc_sub_topics(ts)) == Some(ts),
    decreases ts.len(),
{
    if ts.len() == 0 {
    } else {
        let x = ts[0];
        let tail = ts.drop_first();
        assert(ts =~= seq![x] + tail);
        lemma_sub_topics_cons(x, tail);
        let b = enc_sub_topics(ts);
        let r = seq![x.1] + enc_sub_topics(tail);
        assert(b =~= enc_string(x.0) + r);
        assert(utf8(ts[0].0).len() <= MAX_FIELD_LENGTH);
        lemma_string(x.0, r);
        assert(r.skip(1) =~= enc_sub_topics(tail));
        assert(sub_topics_fit(tail)) by {
            assert forall|i: int| 0 <= i < tail.len() implies utf8(#[trigger] tail[i].0).len()
                <= MAX_FIELD_LENGTH by {
                assert(tail[i] == ts[i + 1]);
            }
        }
        lemma_dec_sub_topics(tail);
        assert(seq![(x.0, r[0])] + tail =~= ts);
    }
}

proof fn lemma_dec_unsub_topics(ts: Seq<Seq<char>>)
    requires
        unsub_topics_fit(ts),
    ensures
        dec_unsub_topics(enc_unsub_topics(ts)) == Some(ts),
    decreases ts.len(),
{
    if ts.len() == 0 {
    } else {
        let x = ts[0];
        let tail = ts.drop_first();
        assert(ts =~= seq![x] + tail);
        lemma_unsub_topics_cons(x, tail);
        let r = enc_unsub_topics(tail);
        assert(utf8(ts[0]).len() <= MAX_FIELD_LENGTH);
        lemma_string(x, r);
        assert(unsub_topics_fit(tail)) by {
            assert forall|i: int| 0 <= i < tail.len() implies utf8(#[trigger] tail[i]).len()
                <= MAX_FIELD_LENGTH by {
                assert(tail[i] == ts[i + 1]);
            }
        }
        lemma_dec_unsub_topics(tail);
        assert(seq![x] + tail =~= ts);
    }
}

proof fn lemma_opt_string(o: Option<Seq<char>>, rest: Seq<u8>)
    requires
        opt_string_fits(o),
    ensures
        sp_opt_string(enc_opt_string(o) + rest, o is Some) == Some((o, rest)),
{
    match o {
        Some(x) => lemma_string(x, rest),
        None => {
            assert(enc_opt_string(o) + rest =~= rest);
        },
    }
}

proof fn lemma_opt_binary(o: Option<Seq<u8>>, rest: Seq<u8>)
    requires
        opt_binary_fits(o),
    ensures
        sp_opt_binary(enc_opt_binary(o) + rest, o is Some) == Some((o, rest)),
{
    match o {
        Some(x) => lemma_binary(x, rest),
        None => {
            assert(enc_opt_binary(o) + rest =~= rest);
        },
    }
}

/// A packet that decoding can produce: it has a wire form, a CONNECT's
/// optional fields are present exactly when their flags say so (and a
/// password only with a user name, a will qos below 3), and a PUBLISH has qos at most 2, a
/// packet id exactly when qos > 0, and dup only with qos > 0.
pub open spec fn well_formed(p: PacketModel) -> bool {
    &&& encodable(p)
    &&& match p {
        PacketModel::Connect(c) => {
            &&& will_flag(c.connect_flags) == c.will_topic is Some
            &&& will_flag(c.connect_flags) == c.will_message is Some
            &&& username_flag(c.connect_flags) == c.username is Some
            &&& password_flag(c.connect_flags) == c.password is Some
            &&& password_flag(c.connect_flags) ==> username_flag(c.connect_flags)
            &&& (c.connect_flags / 8) % 4 != 3
        },
        PacketModel::Publish(m) => {
            &&& m.qos <= 2
            &&& (m.packet_id is Some <==> m.qos > 0)
            &&& (m.dup ==> m.qos > 0)
        },
        _ => true,
    }
}

#[verifier::rlimit(80)]
#[verifier::spinoff_prover]
proof fn lemma_connect_body(c: ConnectModel)
    requires
        well_formed(PacketModel::Connect(c)),
    ensures
        dec_connect(enc_body(PacketModel::Connect(c))) == Some(c),
{
    let p = PacketModel::Connect(c);
    assert(fields_fit(p));
    let t6 = enc_opt_binary(c.password);
    let t5 = enc_opt_string(c.username) + t6;
    let t4 = enc_opt_binary(c.will_message) + t5;
    let t3 = enc_opt_string(c.will_topic) + t4;
    let t2 = enc_string(c.client_id) + t3;
    let t1 = seq![c.protocol_level, c.connect_flags] + be16(c.keep_alive) + t2;
    let b = enc_body(p);
    assert(b =~= enc_string(c.protocol_name) + t1);
    lemma_string(c.protocol_name, t1);
    assert(t1.skip(4) =~= t2);
    lemma_string(c.client_id, t3);
    lemma_opt_string(c.will_topic, t4);
    lemma_opt_binary(c.will_message, t5);
    lemma_opt_string(c.username, t6);
    lemma_opt_binary(c.password, Seq::empty());
    assert(t6 + Seq::<u8>::empty() =~= t6);
    assert(t1[0] == c.protocol_level);
    assert(t1[1] == c.connect_flags);
    assert(t1[2] == (c.keep_alive / 256) as u8);
    assert(t1[3] == (c.keep_alive % 256) as u8);
}

proof fn lemma_publish_body(m: PublishModel)
    requires
        well_formed(PacketModel::Publish(m)),
    ensures
        dec_publish(header_flags(PacketModel::Publish(m)), enc_body(PacketModel::Publish(m)))
            == Some(m),
{
    let p = PacketModel::Publish(m);
    let flags = header_flags(p);
    assert(publish_qos(flags) == m.qos);
    assert((flags >= 8) == m.dup);
    assert((flags % 2 == 1) == m.retain);
    let r = enc_packet_id(m.packet_id) + m.payload;
    assert(enc_body(p) =~= enc_string(m.topic) + r);
    lemma_string(m.topic, r);
    match m.packet_id {
        Some(id) => {
            lemma_u16(id, m.payload);
        },
        None => {
            assert(r =~= m.payload);
        },
    }
}

proof fn lemma_body(p: PacketModel)
    requires
        well_formed(p),
    ensures
        dec_body(packet_type_of(p), header_flags(p), enc_body(p)) == Some(p),
{
    match p {
        PacketModel::Connect(c) => lemma_connect_body(c),
        PacketModel::Publish(m) => lemma_publish_body(m),
        PacketModel::ConnAck { session_present, return_code } => {
            let b = enc_body(p);
            assert(b[0] == bool_byte(session_present));
            assert(ConnectReturnCode::spec_from_code(return_code.spec_code()) == Some(return_code));
        },
        PacketModel::Subscribe { packet_id, topics } => {
            lemma_u16(packet_id, enc_sub_topics(topics));
            lemma_dec_sub_topics(topics);
        },
        PacketModel::SubAck { packet_id, return_codes } => {
            lemma_u16(packet_id, return_codes);
        },
        PacketModel::Unsubscribe { packet_id, topics } => {
            lemma_u16(packet_id, enc_unsub_topics(topics));
            lemma_dec_unsub_topics(topics);
        },
        _ => {},
    }
}

proof fn lemma_header_byte(p: PacketModel)
    requires
        well_formed(p),
    ensures
        header_flags(p) < 16,
        first_byte(packet_type_of(p), header_flags(p)) / 16 == packet_type_of(p).spec_code(),
        first_byte(packet_type_of(p), header_flags(p)) % 16 == header_flags(p),
        PacketType::spec_from_code(packet_type_of(p).spec_code()) == Some(packet_type_of(p)),
        flags_valid(packet_type_of(p), header_flags(p)),
{
}

/// Decoding the wire form of a well-formed packet gives back that packet
/// and consumes exactly the bytes of its wire form, whatever follows it.
pub proof fn lemma_decode_encode(p: PacketModel, rest: Seq<u8>)
    requires
        well_formed(p),
    ensures
        decode_spec(encode(p) + rest) == DecodedModel::Packet(p, encode(p).len()),
{
    let body = enc_body(p);
    let n = body.len();
    let t = packet_type_of(p);
    let flags = header_flags(p);
    let b = encode(p) + rest;
    lemma_header_byte(p);
    lemma_remaining_length(n, body + rest);
    let k = enc_remaining_length(n).len();
    assert(b.skip(1) =~= enc_remaining_length(n) + (body + rest));
    assert(b[0] == first_byte(t, flags));
    assert(dec_fixed_header(b) == Ok::<(FixedHeader, nat), crate::decode::DecodeError>(
        (FixedHeader { packet_type: t, flags, remaining_length: n as usize }, (1 + k) as nat),
    ));
    assert(b.subrange((1 + k) as int, (1 + k + n) as int) =~= body);
    lemma_body(p);
}

/// The wire forms of `ps`, one after another.
pub open spec fn encode_all(ps: Seq<PacketModel>) -> Seq<u8>
    decreases ps.len(),
{
    if ps.len() == 0 {
        Seq::empty()
    } else {
        encode(ps[0]) + encode_all(ps.drop_first())
    }
}

#[verifier::rlimit(60)]
#[verifier::spinoff_prover]
proof fn lemma_frames_cons(p: PacketModel, rest: Seq<u8>)
    requires
        well_formed(p),
    ensures
        crate::connection::frames(encode(p) + rest) == (
            seq![p] + crate::connection::frames(rest).0,
            crate::connection::frames(rest).1,
            crate::connection::frames(rest).2,
        ),
{
    let b = encode(p) + rest;
    lemma_decode_encode(p, rest);
    assert(encode(p).len() > 0);
    assert(b.skip(encode(p).len() as int) =~= rest);
}

/// A byte stream made of the wire forms of well-formed packets holds
/// exactly those packets, in order, with no bytes left and no error.
#[verifier::spinoff_prover]
#[verifier::rlimit(80)]
pub proof fn lemma_frames_encode_all(ps: Seq<PacketModel>)
    requires
        forall|i: int| 0 <= i < ps.len() ==> well_formed(#[trigger] ps[i]),
    ensures
        crate::connection::frames(encode_all(ps)) == (ps, Seq::<u8>::empty(), None::<crate::decode::DecodeError>),
    decreases ps.len(),
{
    if ps.len() == 0 {
        assert(decode_spec(Seq::<u8>::empty()) == DecodedModel::Need(1));
    } else {
        let tail = ps.drop_first();
        assert(well_formed(ps[0]));
        assert forall|i: int| 0 <= i < tail.len() implies well_formed(#[trigger] tail[i]) by {
            assert(tail[i] == ps[i + 1]);
        }
        lemma_frames_encode_all(tail);
        lemma_frames_cons(ps[0], encode_all(tail));
        assert(encode_all(ps) == encode(ps[0]) + encode_all(tail));
        assert(seq![ps[0]] + tail =~= ps);
    }
}

proof fn lemma_remaining_length_prefix(n: nat, m: nat)
    requires
        n <= MAX_REMAINING_LENGTH,
        m < enc_remaining_length(n).len(),
    ensures
        dec_remaining_length(enc_remaining_length(n).take(m as int)) == RemainingLength::Incomplete,
{
    let e0 = enc_remaining_length(n);
    let b = e0.take(m as int);
    if n < 128 {
        assert(e0 == seq![n as u8]);
    } else {
        let n1 = n / 128;
        let e1 = enc_remaining_length(n1);
        assert(e0 == seq![(n % 128 + 128) as u8] + e1);
        if n1 < 128 {
            assert(e1 == seq![n1 as u8]);
            if m == 1 {
                assert(b[0] == e0[0]);
            }
        } else {
            let n2 = n1 / 128;
            let e2 = enc_remaining_length(n2);
            assert(e1 == seq![(n1 % 128 + 128) as u8] + e2);
            if n2 < 128 {
                assert(e2 == seq![n2 as u8]);
                if m >= 1 {
                    assert(b[0] == e0[0]);
                }
                if m == 2 {
                    assert(b[1] == e0[1]);
                }
            } else {
                let n3 = n2 / 128;
                let e3 = enc_remaining_length(n3);
                assert(e2 == seq![(n2 % 128 + 128) as u8] + e3);
                assert(n3 < 128) by (nonlinear_arith)
                    requires
                        n1 == n / 128,
                        n2 == n1 / 128,
                        n3 == n2 / 128,
                        n <= 268435455,
                ;
                assert(e3 == seq![n3 as u8]);
                if m >= 1 {
                    assert(b[0] == e0[0]);
                }
                if m >= 2 {
                    assert(b[1] == e0[1]);
                }
                if m == 3 {
                    assert(b[2] == e0[2]);
                }
            }
        }
    }
}

/// A strict prefix of the wire form of a well-formed packet asks for more
/// bytes.
#[verifier::rlimit(60)]
#[verifier::spinoff_prover]
proof fn lemma_prefix_needs_more(p: PacketModel, j: nat)
    requires
        well_formed(p),
        j < encode(p).len(),
    ensures
        decode_spec(encode(p).take(j as int)) is Need,
{
    let e = encode(p);
    let b = e.take(j as int);
    if j == 0 {
        assert(b.len() == 0);
        assert(dec_fixed_header(b) == Err::<(FixedHeader, nat), crate::decode::DecodeError>(
            crate::decode::DecodeError::Incomplete,
        ));
    } else {
        let body = enc_body(p);
        let n = body.len();
        let r = enc_remaining_length(n);
        let k = r.len();
        let t = packet_type_of(p);
        let flags = header_flags(p);
        lemma_header_byte(p);
        lemma_remaining_length(n, body);
        assert(b[0] == e[0]);
        assert(e[0] == first_byte(t, flags));
        assert(e.skip(1) =~= r + body);
        if j - 1 < k {
            assert(b.skip(1) =~= r.take(j - 1));
            lemma_remaining_length_prefix(n, (j - 1) as nat);
            assert(dec_fixed_header(b) == Err::<(FixedHeader, nat), crate::decode::DecodeError>(
                crate::decode::DecodeError::Incomplete,
            ));
        } else {
            let extra = body.take(j - 1 - k);
            assert(b.skip(1) =~= r + extra);
            lemma_remaining_length(n, extra);
            assert(dec_fixed_header(b) == Ok::<(FixedHeader, nat), crate::decode::DecodeError>(
                (FixedHeader { packet_type: t, flags, remaining_length: n as usize }, (1 + k) as nat),
            ));
            assert(b.len() < 1 + k + n);
        }
    }
}

/// What feeding `input` one byte at a time to a connection buffer that
/// holds `buf` yields: after each byte, the complete packets are taken out
/// of the buffer.
pub open spec fn feed(buf: Seq<u8>, input: Seq<u8>) -> Seq<PacketModel>
    decreases input.len(),
{
    if input.len() == 0 {
        Seq::empty()
    } else {
        let f = crate::connection::frames(buf.push(input[0]));
        f.0 + feed(f.1, input.drop_first())
    }
}

proof fn lemma_frames_strict_prefix(p: PacketModel, j: nat)
    requires
        well_formed(p),
        j < encode(p).len(),
    ensures
        crate::connection::frames(encode(p).take(j as int)) == (
            Seq::<PacketModel>::empty(),
            encode(p).take(j as int),
            None::<crate::decode::DecodeError>,
        ),
{
    lemma_prefix_needs_more(p, j);
}

#[verifier::rlimit(50)]
#[verifier::spinoff_prover]
proof fn lemma_frames_whole(p: PacketModel)
    requires
        well_formed(p),
    ensures
        crate::connection::frames(encode(p)) == (
            seq![p],
            Seq::<u8>::empty(),
            None::<crate::decode::DecodeError>,
        ),
{
    let e = encode(p);
    assert(decode_spec(e) == DecodedModel::Packet(p, e.len())) by {
        lemma_decode_encode(p, Seq::empty());
        assert(e + Seq::<u8>::empty() =~= e);
    }
    assert(crate::connection::frames(Seq::<u8>::empty()) == (
        Seq::<PacketModel>::empty(),
        Seq::<u8>::empty(),
        None::<crate::decode::DecodeError>,
    )) by {
        assert(decode_spec(Seq::<u8>::empty()) == DecodedModel::Need(1));
    }
    assert(e.skip(e.len() as int) =~= Seq::<u8>::empty());
    assert(seq![p] + Seq::<PacketModel>::empty() =~= seq![p]);
}

#[verifier::rlimit(50)]
#[verifier::spinoff_prover]
proof fn lemma_feed_packet(p: PacketModel, j: nat, tail: Seq<u8>)
    requires
        well_formed(p),
        j < encode(p).len(),
    ensures
        feed(encode(p).take(j as int), encode(p).skip(j as int) + tail) == seq![p] + feed(
            Seq::empty(),
            tail,
        ),
    decreases encode(p).len() - j,
{
    let e = encode(p);
    let input = e.skip(j as int) + tail;
    let next = e.take(j as int).push(input[0]);
    assert(next =~= e.take((j + 1) as int));
    assert(input.drop_first() =~= e.skip((j + 1) as int) + tail);
    assert(feed(e.take(j as int), input) == crate::connection::frames(next).0 + feed(
        crate::connection::frames(next).1,
        input.drop_first(),
    ));
    if j + 1 < e.len() {
        lemma_frames_strict_prefix(p, (j + 1) as nat);
        lemma_feed_packet(p, (j + 1) as nat, tail);
        assert(Seq::<PacketModel>::empty() + (seq![p] + feed(Seq::empty(), tail)) =~= seq![p]
            + feed(Seq::empty(), tail));
    } else {
        assert(e.take((j + 1) as int) =~= e);
        lemma_frames_whole(p);
        assert(e.skip((j + 1) as int) =~= Seq::<u8>::empty());
        assert(input.drop_first() =~= tail);
    }
}

/// Feeding the wire forms of well-formed packets to an empty connection
/// buffer one byte at a time yields exactly those packets, in order.
pub proof fn lemma_feed_bytewise(ps: Seq<PacketModel>)
    requires
        forall|i: int| 0 <= i < ps.len() ==> well_formed(#[trigger] ps[i]),
    ensures
        feed(Seq::empty(), encode_all(ps)) == ps,
    decreases ps.len(),
{
    if ps.len() > 0 {
        let tail = ps.drop_first();
        let e = encode(ps[0]);
        assert(well_formed(ps[0]));
        assert(e.len() > 0);
        assert(e.take(0) =~= Seq::<u8>::empty());
        assert(e.skip(0) =~= e);
        lemma_feed_packet(ps[0], 0, encode_all(tail));
        assert forall|i: int| 0 <= i < tail.len() implies well_formed(#[trigger] tail[i]) by {
            assert(tail[i] == ps[i + 1]);
        }
        lemma_feed_bytewise(tail);
        assert(seq![ps[0]] + tail =~= ps);
    }
}

} // verus!
