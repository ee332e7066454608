//! The textual form of a protocol message: one JSON object,
//! `{"type":"<kind>","txid":<int>,"senderid":"<text>","opid":<int>,"uid":<int>}`,
//! as UTF-8 bytes. In the sender id, `"` and `\` are escaped with a backslash
//! and control bytes are written as `\u00xx`.
use crate::message::{MessageType, MessageView, ProtocolMessage};
use vstd::prelude::*;
use vstd::utf8::*;

verus! {

broadcast use {encode_utf8_valid_utf8, encode_utf8_decode_utf8};

/// The bytes of an ASCII character sequence.
pub open spec fn ascii(s: Seq<char>) -> Seq<u8> {
    Seq::new(s.len(), |i: int| s[i] as u8)
}

pub open spec fn kind_name(t: MessageType) -> Seq<char> {
    match t {
        MessageType::ClientRequest => "ClientRequest"@,
        MessageType::CoordinatorPropose => "CoordinatorPropose"@,
        MessageType::ParticipantVoteCommit => "ParticipantVoteCommit"@,
        MessageType::ParticipantVoteAbort => "ParticipantVoteAbort"@,
        MessageType::CoordinatorCommit => "CoordinatorCommit"@,
        MessageType::CoordinatorAbort => "CoordinatorAbort"@,
        MessageType::ClientResultCommit => "ClientResultCommit"@,
        MessageType::ClientResultAbort => "ClientResultAbort"@,
        MessageType::CoordinatorExit => "CoordinatorExit"@,
    }
}

pub open spec fn is_digit(b: u8) -> bool {
    48 <= b <= 57
}

/// Decimal digits of a natural number, most significant first.
pub open spec fn nat_text(n: nat) -> Seq<u8>
    decreases n,
{
    if n < 10 {
        seq![(48 + n) as u8]
    } else {
        nat_text(n / 10).push((48 + n % 10) as u8)
    }
}

pub open spec fn int_text(n: int) -> Seq<u8> {
    if n < 0 {
        seq![45u8] + nat_text((-n) as nat)
    } else {
        nat_text(n as nat)
    }
}

pub open spec fn hex_digit(d: int) -> u8 {
    if d < 10 {
        (48 + d) as u8
    } else {
        (87 + d) as u8
    }
}

pub open spec fn escape_byte(b: u8) -> Seq<u8> {
    if b == 34 {
        seq![92u8, 34u8]
    } else if b == 92 {
        seq![92u8, 92u8]
    } else if b < 32 {
        seq![92u8, 117u8, 48u8, 48u8, hex_digit(b as int / 16), hex_digit(b as int % 16)]
    } else {
        seq![b]
    }
}

pub open spec fn escape(s: Seq<u8>) -> Seq<u8>
    decreases s.len(),
{
    if s.len() == 0 {
        seq![]
    } else {
        escape_byte(s[0]) + escape(s.drop_first())
    }
}

pub open spec fn encoding(m: MessageView) -> Seq<u8> {
    ascii("{\"type\":\""@) + ascii(kind_name(m.mtype)) + ascii("\",\"txid\":"@) + int_text(
        m.txid as int,
    ) + ascii(",\"senderid\":\""@) + escape(encode_utf8(m.senderid)) + ascii("\",\"opid\":"@)
        + int_text(m.opid as int) + ascii(",\"uid\":"@) + nat_text(m.uid as nat) + ascii("}"@)
}

/// Whether the bytes are the textual form of some message.
pub open spec fn is_encoded(b: Seq<u8>) -> bool {
    exists|m: MessageView| encoding(m) == b
}

/// The message whose textual form the bytes are.
pub open spec fn decoded(b: Seq<u8>) -> MessageView {
    choose|m: MessageView| encoding(m) == b
}

// ---- the parser, over what is left of the input ----

spec fn starts_with(s: Seq<u8>, p: Seq<u8>) -> bool {
    p.len() <= s.len() && s.subrange(0, p.len() as int) == p
}

spec fn after(s: Seq<u8>, p: Seq<u8>) -> Seq<u8> {
    s.subrange(p.len() as int, s.len() as int)
}

spec fn digit_run(s: Seq<u8>) -> nat
    decreases s.len(),
{
    if s.len() > 0 && is_digit(s[0]) {
        1 + digit_run(s.drop_first())
    } else {
        0
    }
}

spec fn digits_value(s: Seq<u8>) -> int
    decreases s.len(),
{
    if s.len() == 0 {
        0
    } else {
        digits_value(s.drop_last()) * 10 + (s.last() - 48)
    }
}

spec fn parse_nat(s: Seq<u8>) -> Option<(int, Seq<u8>)> {
    let k = digit_run(s);
    if k == 0 {
        None
    } else {
        Some((digits_value(s.subrange(0, k as int)), s.subrange(k as int, s.len() as int)))
    }
}

spec fn parse_int(s: Seq<u8>) -> Option<(int, Seq<u8>)> {
    if s.len() > 0 && s[0] == 45 {
        match parse_nat(s.drop_first()) {
            Some((v, r)) => Some((-v, r)),
            None => None,
        }
    } else {
        parse_nat(s)
    }
}

spec fn quote_pos(s: Seq<u8>) -> nat
    decreases s.len(),
{
    if s.len() == 0 || s[0] == 34 {
        0
    } else {
        1 + quote_pos(s.drop_first())
    }
}

spec fn hex_value(b: u8) -> int {
    if 48 <= b <= 57 {
        b - 48
    } else if 97 <= b <= 102 {
        b - 87
    } else {
        -1
    }
}

/// Reads an escaped string up to its closing quote: the bytes it stands for,
/// and the rest of the input, starting at that quote.
spec fn unescape(s: Seq<u8>) -> Option<(Seq<u8>, Seq<u8>)>
    decreases s.len(),
{
    if s.len() == 0 {
        None
    } else if s[0] == 34 {
        Some((seq![], s))
    } else if s[0] == 92 {
        if s.len() >= 2 && (s[1] == 34 || s[1] == 92) {
            match unescape(s.subrange(2, s.len() as int)) {
                Some((o, r)) => Some((seq![s[1]] + o, r)),
                None => None,
            }
        } else if s.len() >= 6 && s[1] == 117 && s[2] == 48 && s[3] == 48 && 0 <= hex_value(s[4])
            < 2 && 0 <= hex_value(s[5]) {
            match unescape(s.subrange(6, s.len() as int)) {
                Some((o, r)) => Some(
                    (seq![(hex_value(s[4]) * 16 + hex_value(s[5])) as u8] + o, r),
                ),
                None => None,
            }
        } else {
            None
        }
    } else {
        match unescape(s.drop_first()) {
            Some((o, r)) => Some((seq![s[0]] + o, r)),
            None => None,
        }
    }
}

spec fn type_of_name(s: Seq<u8>) -> Option<MessageType> {
    if s == ascii(kind_name(MessageType::ClientRequest)) {
        Some(MessageType::ClientRequest)
    } else if s == ascii(kind_name(MessageType::CoordinatorPropose)) {
        Some(MessageType::CoordinatorPropose)
    } else if s == ascii(kind_name(MessageType::ParticipantVoteCommit)) {
        Some(MessageType::ParticipantVoteCommit)
    } else if s == ascii(kind_name(MessageType::ParticipantVoteAbort)) {
        Some(MessageType::ParticipantVoteAbort)
    } else if s == ascii(kind_name(MessageType::CoordinatorCommit)) {
        Some(MessageType::CoordinatorCommit)
    } else if s == ascii(kind_name(MessageType::CoordinatorAbort)) {
        Some(MessageType::CoordinatorAbort)
    } else if s == ascii(kind_name(MessageType::ClientResultCommit)) {
        Some(MessageType::ClientResultCommit)
    } else if s == ascii(kind_name(MessageType::ClientResultAbort)) {
        Some(MessageType::ClientResultAbort)
    } else if s == ascii(kind_name(MessageType::CoordinatorExit)) {
        Some(MessageType::CoordinatorExit)
    } else {
        None
    }
}

spec fn is_i32(v: int) -> bool {
    i32::MIN <= v <= i32::MAX
}

/// Reads `,"uid":<int>}` to the end of the input.
spec fn parse_uid(s: Seq<u8>) -> Option<u64> {
    let l5 = ascii(",\"uid\":"@);
    if !starts_with(s, l5) {
        None
    } else {
        match parse_nat(after(s, l5)) {
            Some((uid, r)) => if uid <= u64::MAX && r == ascii("}"@) {
                Some(uid as u64)
            } else {
                None
            },
            None => None,
        }
    }
}

/// Reads `","opid":<int>` and what follows it.
spec fn parse_opid(s: Seq<u8>) -> Option<(i32, u64)> {
    let l4 = ascii("\",\"opid\":"@);
    if !starts_with(s, l4) {
        None
    } else {
        match parse_int(after(s, l4)) {
            Some((opid, r)) => if is_i32(opid) {
                match parse_uid(r) {
                    Some(uid) => Some((opid as i32, uid)),
                    None => None,
                }
            } else {
                None
            },
            None => None,
        }
    }
}

/// Reads `,"senderid":"<text>` and what follows it.
spec fn parse_sender(s: Seq<u8>) -> Option<(Seq<char>, i32, u64)> {
    let l3 = ascii(",\"senderid\":\""@);
    if !starts_with(s, l3) {
        None
    } else {
        match unescape(after(s, l3)) {
            Some((sb, r)) => if valid_utf8(sb) {
                match parse_opid(r) {
                    Some((opid, uid)) => Some((decode_utf8(sb), opid, uid)),
                    None => None,
                }
            } else {
                None
            },
            None => None,
        }
    }
}

/// Reads `","txid":<int>` and what follows it.
spec fn parse_fields(mtype: MessageType, s: Seq<u8>) -> Option<MessageView> {
    let l2 = ascii("\",\"txid\":"@);
    if !starts_with(s, l2) {
        None
    } else {
        match parse_int(after(s, l2)) {
            Some((txid, r)) => if is_i32(txid) {
                match parse_sender(r) {
                    Some((senderid, opid, uid)) => Some(
                        MessageView { mtype, txid: txid as i32, senderid, opid, uid },
                    ),
                    None => None,
                }
            } else {
                None
            },
            None => None,
        }
    }
}

spec fn parse_message(b: Seq<u8>) -> Option<MessageView> {
    let l1 = ascii("{\"type\":\""@);
    if !starts_with(b, l1) {
        None
    } else {
        let s1 = after(b, l1);
        let q = quote_pos(s1);
        match type_of_name(s1.subrange(0, q as int)) {
            None => None,
            Some(t) => parse_fields(t, s1.subrange(q as int, s1.len() as int)),
        }
    }
}


// ---- the parser reads back what the encoder writes ----

/// Facts about the literal pieces of the encoding.
proof fn lemma_literals()
    ensures
        ascii("{\"type\":\""@).len() == 9,
        ascii("\",\"txid\":"@).len() == 9 && ascii("\",\"txid\":"@)[0] == 34,
        ascii(",\"senderid\":\""@).len() == 13 && ascii(",\"senderid\":\""@)[0] == 44,
        ascii("\",\"opid\":"@).len() == 9 && ascii("\",\"opid\":"@)[0] == 34,
        ascii(",\"uid\":"@).len() == 7 && ascii(",\"uid\":"@)[0] == 44,
        ascii("}"@).len() == 1 && ascii("}"@)[0] == 125,
{
    reveal_strlit("{\"type\":\"");
    reveal_strlit("\",\"txid\":");
    reveal_strlit(",\"senderid\":\"");
    reveal_strlit("\",\"opid\":");
    reveal_strlit(",\"uid\":");
    reveal_strlit("}");
}

/// Each kind name is read back as its kind, and holds no quote.
proof fn lemma_kind_name(t: MessageType)
    ensures
        type_of_name(ascii(kind_name(t))) == Some(t),
        forall|i: int| 0 <= i < ascii(kind_name(t)).len() ==> ascii(kind_name(t))[i] != 34,
{
    reveal_strlit("ClientRequest");
    reveal_strlit("CoordinatorPropose");
    reveal_strlit("ParticipantVoteCommit");
    reveal_strlit("ParticipantVoteAbort");
    reveal_strlit("CoordinatorCommit");
    reveal_strlit("CoordinatorAbort");
    reveal_strlit("ClientResultCommit");
    reveal_strlit("ClientResultAbort");
    reveal_strlit("CoordinatorExit");
    let n = ascii(kind_name(t));
    let pr = ascii("CoordinatorPropose"@);
    let rc = ascii("ClientResultCommit"@);
    let cc = ascii("CoordinatorCommit"@);
    let ra = ascii("ClientResultAbort"@);
    assert(pr[1] != rc[1]);
    assert(cc[1] != ra[1]);
    assert(n.len() == kind_name(t).len());
    assert(pr != rc);
    assert(cc != ra);
}

proof fn lemma_nat_text(n: nat)
    ensures
        nat_text(n).len() >= 1,
        forall|i: int| 0 <= i < nat_text(n).len() ==> is_digit(#[trigger] nat_text(n)[i]),
        digits_value(nat_text(n)) == n,
    decreases n,
{
    if n >= 10 {
        lemma_nat_text(n / 10);
        let t = nat_text(n);
        assert(t.drop_last() =~= nat_text(n / 10));
        assert(t.last() == 48 + n % 10);
        assert(digits_value(t) == digits_value(t.drop_last()) * 10 + (t.last() - 48));
        vstd::arithmetic::div_mod::lemma_fundamental_div_mod(n as int, 10);
        assert forall|i: int| 0 <= i < t.len() implies is_digit(#[trigger] t[i]) by {
            if i < t.len() - 1 {
                assert(t[i] == nat_text(n / 10)[i]);
            }
        }
    } else {
        let t = nat_text(n);
        assert(t.drop_last() =~= Seq::<u8>::empty());
        assert(digits_value(t.drop_last()) == 0);
        assert(t.last() == 48 + n);
        assert(digits_value(t) == digits_value(t.drop_last()) * 10 + (t.last() - 48));
    }
}

proof fn lemma_digit_run(x: Seq<u8>, r: Seq<u8>)
    requires
        forall|i: int| 0 <= i < x.len() ==> is_digit(#[trigger] x[i]),
        r.len() == 0 || !is_digit(r[0]),
    ensures
        digit_run(x + r) == x.len(),
    decreases x.len(),
{
    if x.len() == 0 {
        assert(x + r =~= r);
    } else {
        assert((x + r).drop_first() =~= x.drop_first() + r);
        lemma_digit_run(x.drop_first(), r);
    }
}

proof fn lemma_parse_nat(n: nat, r: Seq<u8>)
    requires
        r.len() == 0 || !is_digit(r[0]),
    ensures
        parse_nat(nat_text(n) + r) == Some((n as int, r)),
{
    lemma_nat_text(n);
    lemma_digit_run(nat_text(n), r);
    let s = nat_text(n) + r;
    let k = nat_text(n).len() as int;
    assert(s.subrange(0, k) =~= nat_text(n));
    assert(s.subrange(k, s.len() as int) =~= r);
}

proof fn lemma_parse_int(n: int, r: Seq<u8>)
    requires
        r.len() == 0 || !is_digit(r[0]),
    ensures
        parse_int(int_text(n) + r) == Some((n, r)),
{
    if n < 0 {
        let s = int_text(n) + r;
        assert(s.drop_first() =~= nat_text((-n) as nat) + r);
        lemma_parse_nat((-n) as nat, r);
    } else {
        lemma_nat_text(n as nat);
        lemma_parse_nat(n as nat, r);
    }
}

proof fn lemma_quote_pos(x: Seq<u8>, r: Seq<u8>)
    requires
        forall|i: int| 0 <= i < x.len() ==> #[trigger] x[i] != 34,
        r.len() > 0 && r[0] == 34,
    ensures
        quote_pos(x + r) == x.len(),
    decreases x.len(),
{
    if x.len() == 0 {
        assert(x + r =~= r);
    } else {
        assert((x + r).drop_first() =~= x.drop_first() + r);
        lemma_quote_pos(x.drop_first(), r);
    }
}

proof fn lemma_unescape(x: Seq<u8>, r: Seq<u8>)
    requires
        r.len() > 0 && r[0] == 34,
    ensures
        unescape(escape(x) + r) == Some((x, r)),
    decreases x.len(),
{
    if x.len() == 0 {
        assert(escape(x) + r =~= r);
    } else {
        let b = x[0];
        let t = escape(x.drop_first()) + r;
        let s = escape(x) + r;
        assert(s =~= escape_byte(b) + t);
        lemma_unescape(x.drop_first(), r);
        if b == 34 || b == 92 {
            assert(s.subrange(2, s.len() as int) =~= t);
            assert(seq![b] + x.drop_first() =~= x);
        } else if b < 32 {
            assert(s.subrange(6, s.len() as int) =~= t);
            assert(hex_value(hex_digit(b as int / 16)) == b as int / 16);
            assert(hex_value(hex_digit(b as int % 16)) == b as int % 16);
            assert(seq![b] + x.drop_first() =~= x);
        } else {
            assert(s.drop_first() =~= t);
            assert(seq![b] + x.drop_first() =~= x);
        }
    }
}

proof fn lemma_parse_uid(uid: u64)
    ensures
        parse_uid(ascii(",\"uid\":"@) + nat_text(uid as nat) + ascii("}"@)) == Some(uid),
{
    lemma_literals();
    let l5 = ascii(",\"uid\":"@);
    let l6 = ascii("}"@);
    let t = nat_text(uid as nat) + l6;
    let s = l5 + nat_text(uid as nat) + l6;
    assert(s =~= l5 + t);
    assert(s.subrange(0, 7) =~= l5);
    assert(after(s, l5) =~= t);
    lemma_parse_nat(uid as nat, l6);
}

proof fn lemma_parse_opid(opid: i32, uid: u64)
    ensures
        parse_opid(
            ascii("\",\"opid\":"@) + int_text(opid as int) + ascii(",\"uid\":"@) + nat_text(
                uid as nat,
            ) + ascii("}"@),
        ) == Some((opid, uid)),
{
    lemma_literals();
    let l4 = ascii("\",\"opid\":"@);
    let l5 = ascii(",\"uid\":"@);
    let r = l5 + nat_text(uid as nat) + ascii("}"@);
    let t = int_text(opid as int) + r;
    let s = l4 + int_text(opid as int) + ascii(",\"uid\":"@) + nat_text(uid as nat) + ascii(
        "}"@,
    );
    assert(s =~= l4 + t);
    assert(s.subrange(0, 9) =~= l4);
    assert(after(s, l4) =~= t);
    assert(r[0] == l5[0]);
    lemma_parse_int(opid as int, r);
    lemma_parse_uid(uid);
}

proof fn lemma_parse_sender(sid: Seq<char>, opid: i32, uid: u64)
    ensures
        parse_sender(
            ascii(",\"senderid\":\""@) + escape(encode_utf8(sid)) + ascii("\",\"opid\":"@)
                + int_text(opid as int) + ascii(",\"uid\":"@) + nat_text(uid as nat) + ascii(
                "}"@,
            ),
        ) == Some((sid, opid, uid)),
{
    lemma_literals();
    let l3 = ascii(",\"senderid\":\""@);
    let l4 = ascii("\",\"opid\":"@);
    let r = l4 + int_text(opid as int) + ascii(",\"uid\":"@) + nat_text(uid as nat) + ascii(
        "}"@,
    );
    let t = escape(encode_utf8(sid)) + r;
    let s = l3 + escape(encode_utf8(sid)) + ascii("\",\"opid\":"@) + int_text(opid as int)
        + ascii(",\"uid\":"@) + nat_text(uid as nat) + ascii("}"@);
    assert(s =~= l3 + t);
    assert(s.subrange(0, 13) =~= l3);
    assert(after(s, l3) =~= t);
    assert(r[0] == l4[0]);
    lemma_unescape(encode_utf8(sid), r);
    lemma_parse_opid(opid, uid);
}

proof fn lemma_parse_fields(m: MessageView)
    ensures
        parse_fields(
            m.mtype,
            ascii("\",\"txid\":"@) + int_text(m.txid as int) + ascii(",\"senderid\":\""@)
                + escape(encode_utf8(m.senderid)) + ascii("\",\"opid\":"@) + int_text(
                m.opid as int,
            ) + ascii(",\"uid\":"@) + nat_text(m.uid as nat) + ascii("}"@),
        ) == Some(m),
{
    lemma_literals();
    let l2 = ascii("\",\"txid\":"@);
    let l3 = ascii(",\"senderid\":\""@);
    let r = l3 + escape(encode_utf8(m.senderid)) + ascii("\",\"opid\":"@) + int_text(
        m.opid as int,
    ) + ascii(",\"uid\":"@) + nat_text(m.uid as nat) + ascii("}"@);
    let t = int_text(m.txid as int) + r;
    let s = l2 + int_text(m.txid as int) + ascii(",\"senderid\":\""@) + escape(
        encode_utf8(m.senderid),
    ) + ascii("\",\"opid\":"@) + int_text(m.opid as int) + ascii(",\"uid\":"@) + nat_text(
        m.uid as nat,
    ) + ascii("}"@);
    assert(s =~= l2 + t);
    assert(s.subrange(0, 9) =~= l2);
    assert(after(s, l2) =~= t);
    assert(r[0] == l3[0]);
    lemma_parse_int(m.txid as int, r);
    lemma_parse_sender(m.senderid, m.opid, m.uid);
}

/// The parser reads back every message from its encoding.
proof fn lemma_parse_encoding(m: MessageView)
    ensures
        parse_message(encoding(m)) == Some(m),
{
    lemma_literals();
    lemma_kind_name(m.mtype);
    let l1 = ascii("{\"type\":\""@);
    let name = ascii(kind_name(m.mtype));
    let t3 = ascii("\",\"txid\":"@) + int_text(m.txid as int) + ascii(",\"senderid\":\""@)
        + escape(encode_utf8(m.senderid)) + ascii("\",\"opid\":"@) + int_text(m.opid as int)
        + ascii(",\"uid\":"@) + nat_text(m.uid as nat) + ascii("}"@);
    let b = encoding(m);
    assert(b =~= l1 + (name + t3));
    assert(b.subrange(0, 9) =~= l1);
    let s1 = after(b, l1);
    assert(s1 =~= name + t3);
    lemma_quote_pos(name, t3);
    assert(s1.subrange(0, name.len() as int) =~= name);
    assert(s1.subrange(name.len() as int, s1.len() as int) =~= t3);
    lemma_parse_fields(m);
}


proof fn lemma_escape_push(x: Seq<u8>, c: u8)
    ensures
        escape(x.push(c)) == escape(x) + escape_byte(c),
    decreases x.len(),
{
    if x.len() == 0 {
        assert(x.push(c).drop_first() =~= Seq::<u8>::empty());
        assert(escape(x.push(c).drop_first()) =~= Seq::<u8>::empty());
        assert(x.push(c)[0] == c);
        assert(escape(x) =~= Seq::<u8>::empty());
        assert(escape(x.push(c)) =~= escape(x) + escape_byte(c));
    } else {
        assert(x.push(c).drop_first() =~= x.drop_first().push(c));
        lemma_escape_push(x.drop_first(), c);
        assert(escape(x.push(c)) =~= escape(x) + escape_byte(c));
    }
}

// ---- writing ----

/// Relies on `String::from_utf8`: it succeeds exactly on valid UTF-8, and the
/// string then holds the characters that the bytes encode.
#[verifier::external_body]
fn utf8_text(bytes: Vec<u8>) -> (r: Option<String>)
    ensures
        r is Some <==> valid_utf8(bytes@),
        r matches Some(s) ==> s@ == decode_utf8(bytes@),
{
    String::from_utf8(bytes).ok()
}

fn push_ascii(out: &mut Vec<u8>, s: &str)
    requires
        is_ascii_chars(s@),
    ensures
        final(out)@ == old(out)@ + ascii(s@),
{
    let b = s.as_bytes();
    proof {
        is_ascii_chars_encode_utf8(s@);
    }
    let ghost start = out@;
    let mut i: usize = 0;
    while i < b.len()
        invariant
            i <= b@.len(),
            b@.len() == s@.len(),
            forall|j: int| 0 <= j < s@.len() ==> b@[j] == s@[j] as u8,
            out@ == start + ascii(s@).subrange(0, i as int),
        decreases b@.len() - i,
    {
        out.push(b[i]);
        i = i + 1;
        assert(out@ =~= start + ascii(s@).subrange(0, i as int));
    }
    assert(ascii(s@).subrange(0, i as int) =~= ascii(s@));
}

fn kind_str(t: MessageType) -> (r: &'static str)
    ensures
        r@ == kind_name(t),
        is_ascii_chars(r@),
{
    proof {
        reveal_strlit("ClientRequest");
        reveal_strlit("CoordinatorPropose");
        reveal_strlit("ParticipantVoteCommit");
        reveal_strlit("ParticipantVoteAbort");
        reveal_strlit("CoordinatorCommit");
        reveal_strlit("CoordinatorAbort");
        reveal_strlit("ClientResultCommit");
        reveal_strlit("ClientResultAbort");
        reveal_strlit("CoordinatorExit");
    }
    match t {
        MessageType::ClientRequest => "ClientRequest",
        MessageType::CoordinatorPropose => "CoordinatorPropose",
        MessageType::ParticipantVoteCommit => "ParticipantVoteCommit",
        MessageType::ParticipantVoteAbort => "ParticipantVoteAbort",
        MessageType::CoordinatorCommit => "CoordinatorCommit",
        MessageType::CoordinatorAbort => "CoordinatorAbort",
        MessageType::ClientResultCommit => "ClientResultCommit",
        MessageType::ClientResultAbort => "ClientResultAbort",
        MessageType::CoordinatorExit => "CoordinatorExit",
    }
}

fn push_nat(out: &mut Vec<u8>, n: u64)
    ensures
        final(out)@ == old(out)@ + nat_text(n as nat),
    decreases n,
{
    let ghost start = out@;
    if n >= 10 {
        push_nat(out, n / 10);
    }
    out.push((48 + n % 10) as u8);
    if n >= 10 {
        assert(out@ =~= start + nat_text(n as nat));
    } else {
        assert(out@ =~= start + nat_text(n as nat));
    }
}

fn push_int(out: &mut Vec<u8>, n: i32)
    ensures
        final(out)@ == old(out)@ + int_text(n as int),
{
    let ghost start = out@;
    if n < 0 {
        out.push(45);
        let m: i64 = -(n as i64);
        push_nat(out, m as u64);
        assert(out@ =~= start + int_text(n as int));
    } else {
        push_nat(out, n as u64);
    }
}

fn push_escaped(out: &mut Vec<u8>, b: &[u8])
    ensures
        final(out)@ == old(out)@ + escape(b@),
{
    let ghost start = out@;
    let mut i: usize = 0;
    assert(escape(b@.subrange(0, 0)) =~= Seq::<u8>::empty());
    while i < b.len()
        invariant
            i <= b@.len(),
            out@ == start + escape(b@.subrange(0, i as int)),
        decreases b@.len() - i,
    {
        let c = b[i];
        proof {
            assert(b@.subrange(0, i + 1) =~= b@.subrange(0, i as int).push(c));
            lemma_escape_push(b@.subrange(0, i as int), c);
        }
        if c == 34 || c == 92 {
            out.push(92);
            out.push(c);
        } else if c < 32 {
            out.push(92);
            out.push(117);
            out.push(48);
            out.push(48);
            out.push(48 + c / 16);
            let low = c % 16;
            if low < 10 {
                out.push(48 + low);
            } else {
                out.push(87 + low);
            }
        } else {
            out.push(c);
        }
        i = i + 1;
        assert(out@ =~= start + escape(b@.subrange(0, i as int)));
    }
    assert(b@.subrange(0, i as int) =~= b@);
}

impl ProtocolMessage {
    /// The message's textual form, as UTF-8 bytes.
    pub fn to_bytes(&self) -> (r: Vec<u8>)
        ensures
            r@ == encoding(self@),
    {
        proof {
            reveal_strlit("{\"type\":\"");
            reveal_strlit("\",\"txid\":");
            reveal_strlit(",\"senderid\":\"");
            reveal_strlit("\",\"opid\":");
            reveal_strlit(",\"uid\":");
            reveal_strlit("}");
        }
        let mut out: Vec<u8> = Vec::new();
        push_ascii(&mut out, "{\"type\":\"");
        push_ascii(&mut out, kind_str(self.mtype));
        push_ascii(&mut out, "\",\"txid\":");
        push_int(&mut out, self.txid);
        push_ascii(&mut out, ",\"senderid\":\"");
        push_escaped(&mut out, self.senderid.as_str().as_bytes());
        push_ascii(&mut out, "\",\"opid\":");
        push_int(&mut out, self.opid);
        push_ascii(&mut out, ",\"uid\":");
        push_nat(&mut out, self.uid);
        push_ascii(&mut out, "}");
        assert(out@ =~= encoding(self@));
        out
    }
}

// ---- reading ----

/// What is left of `b` from position `p`.
spec fn from(b: Seq<u8>, p: int) -> Seq<u8> {
    b.subrange(p, b.len() as int)
}

fn lit_at(b: &[u8], pos: usize, s: &str) -> (r: bool)
    requires
        pos <= b@.len(),
        is_ascii_chars(s@),
    ensures
        r == starts_with(from(b@, pos as int), ascii(s@)),
        r ==> after(from(b@, pos as int), ascii(s@)) == from(b@, pos + s@.len()),
        r ==> pos + s@.len() <= b@.len() <= usize::MAX,
{
    let l = s.as_bytes();
    proof {
        is_ascii_chars_encode_utf8(s@);
        assert(l@ =~= ascii(s@));
    }
    if l.len() > b.len() - pos {
        return false;
    }
    let n = b.len();
    let mut i: usize = 0;
    while i < l.len()
        invariant
            i <= l@.len(),
            n == b@.len(),
            pos + l@.len() <= n,
            l@ == ascii(s@),
            forall|j: int| 0 <= j < i ==> b@[pos + j] == l@[j],
        decreases l@.len() - i,
    {
        if b[pos + i] != l[i] {
            assert(from(b@, pos as int).subrange(0, l@.len() as int)[i as int] != l@[i as int]);
            return false;
        }
        i = i + 1;
    }
    assert(from(b@, pos as int).subrange(0, l@.len() as int) =~= l@);
    assert(after(from(b@, pos as int), ascii(s@)) =~= from(b@, pos + s@.len()));
    true
}

fn quote_from(b: &[u8], pos: usize) -> (r: usize)
    requires
        pos <= b@.len(),
    ensures
        r == pos + quote_pos(from(b@, pos as int)),
        r <= b@.len(),
{
    let mut i = pos;
    while i < b.len() && b[i] != 34
        invariant
            pos <= i <= b@.len(),
            quote_pos(from(b@, pos as int)) == (i - pos) + quote_pos(from(b@, i as int)),
        decreases b@.len() - i,
    {
        assert(from(b@, i as int).drop_first() =~= from(b@, i + 1));
        i = i + 1;
    }
    i
}

/// Whether `b[start..end]` is the given ASCII text.
fn range_is(b: &[u8], start: usize, end: usize, s: &str) -> (r: bool)
    requires
        start <= end <= b@.len(),
        is_ascii_chars(s@),
    ensures
        r == (b@.subrange(start as int, end as int) == ascii(s@)),
{
    let l = s.as_bytes();
    proof {
        is_ascii_chars_encode_utf8(s@);
    }
    if end - start != l.len() {
        assert(b@.subrange(start as int, end as int).len() != ascii(s@).len());
        return false;
    }
    let r = lit_at(b, start, s);
    proof {
        is_ascii_chars_encode_utf8(s@);
        assert(from(b@, start as int).subrange(0, s@.len() as int) =~= b@.subrange(
            start as int,
            end as int,
        ));
    }
    r
}

fn kind_at(b: &[u8], start: usize, end: usize) -> (r: Option<MessageType>)
    requires
        start <= end <= b@.len(),
    ensures
        r == type_of_name(b@.subrange(start as int, end as int)),
{
    proof {
        reveal_strlit("ClientRequest");
        reveal_strlit("CoordinatorPropose");
        reveal_strlit("ParticipantVoteCommit");
        reveal_strlit("ParticipantVoteAbort");
        reveal_strlit("CoordinatorCommit");
        reveal_strlit("CoordinatorAbort");
        reveal_strlit("ClientResultCommit");
        reveal_strlit("ClientResultAbort");
        reveal_strlit("CoordinatorExit");
    }
    if range_is(b, start, end, "ClientRequest") {
        Some(MessageType::ClientRequest)
    } else if range_is(b, start, end, "CoordinatorPropose") {
        Some(MessageType::CoordinatorPropose)
    } else if range_is(b, start, end, "ParticipantVoteCommit") {
        Some(MessageType::ParticipantVoteCommit)
    } else if range_is(b, start, end, "ParticipantVoteAbort") {
        Some(MessageType::ParticipantVoteAbort)
    } else if range_is(b, start, end, "CoordinatorCommit") {
        Some(MessageType::CoordinatorCommit)
    } else if range_is(b, start, end, "CoordinatorAbort") {
        Some(MessageType::CoordinatorAbort)
    } else if range_is(b, start, end, "ClientResultCommit") {
        Some(MessageType::ClientResultCommit)
    } else if range_is(b, start, end, "ClientResultAbort") {
        Some(MessageType::ClientResultAbort)
    } else if range_is(b, start, end, "CoordinatorExit") {
        Some(MessageType::CoordinatorExit)
    } else {
        None
    }
}

proof fn lemma_digits_value_grows(s: Seq<u8>, j: int, k: int)
    requires
        0 <= j <= k <= s.len(),
        forall|i: int| 0 <= i < k ==> is_digit(#[trigger] s[i]),
    ensures
        0 <= digits_value(s.subrange(0, j)) <= digits_value(s.subrange(0, k)),
    decreases k,
{
    if k > 0 {
        assert(s.subrange(0, k).drop_last() =~= s.subrange(0, k - 1));
        assert(s.subrange(0, k).last() == s[k - 1]);
        if j < k {
            lemma_digits_value_grows(s, j, k - 1);
        } else {
            lemma_digits_value_grows(s, k - 1, k - 1);
        }
    }
}

proof fn lemma_run_digits(s: Seq<u8>)
    ensures
        digit_run(s) <= s.len(),
        forall|j: int| 0 <= j < digit_run(s) ==> is_digit(#[trigger] s[j]),
    decreases s.len(),
{
    if s.len() > 0 && is_digit(s[0]) {
        lemma_run_digits(s.drop_first());
        assert forall|j: int| 0 <= j < digit_run(s) implies is_digit(#[trigger] s[j]) by {
            if j > 0 {
                assert(s[j] == s.drop_first()[j - 1]);
            }
        }
    }
}

/// Reads a decimal number no larger than `max`.
fn nat_at(b: &[u8], pos: usize, max: u64) -> (r: Option<(u64, usize)>)
    requires
        pos <= b@.len(),
    ensures
        r matches Some((v, p)) ==> pos < p <= b@.len() && v <= max && parse_nat(from(b@, pos as int))
            == Some((v as int, from(b@, p as int))),
        r is None ==> (parse_nat(from(b@, pos as int)) matches Some((v, _)) ==> v > max),
{
    let ghost s = from(b@, pos as int);
    let mut i = pos;
    let mut acc: u64 = 0;
    while i < b.len() && 48 <= b[i] && b[i] <= 57
        invariant
            pos <= i <= b@.len(),
            s == from(b@, pos as int),
            digit_run(s) == (i - pos) + digit_run(from(b@, i as int)),
            forall|j: int| 0 <= j < i - pos ==> is_digit(#[trigger] s[j]),
            acc == digits_value(s.subrange(0, i - pos)),
            acc <= max,
        decreases b@.len() - i,
    {
        assert(from(b@, i as int).drop_first() =~= from(b@, i + 1));
        let d = (b[i] - 48) as u64;
        assert(s.subrange(0, i + 1 - pos).drop_last() =~= s.subrange(0, i - pos));
        assert(s[i - pos] == b@[i as int]);
        if acc > max / 10 || (acc == max / 10 && d > max % 10) {
            proof {
                assert(s.subrange(0, i + 1 - pos).last() == b@[i as int]);
                assert(digits_value(s.subrange(0, i + 1 - pos)) == acc * 10 + d);
                vstd::arithmetic::div_mod::lemma_fundamental_div_mod(max as int, 10);
                assert(acc * 10 + d > max) by (nonlinear_arith)
                    requires
                        acc > max / 10 || (acc == max / 10 && d > max % 10),
                        max == (max / 10) * 10 + max % 10,
                ;
                lemma_run_digits(s);
                let k = digit_run(s);
                assert(digit_run(from(b@, i as int)) >= 1);
                lemma_digits_value_grows(s, i + 1 - pos, k as int);
            }
            return None;
        }
        acc = acc * 10 + d;
        i = i + 1;
    }
    if i == pos {
        return None;
    }
    assert(s.subrange(i - pos, s.len() as int) =~= from(b@, i as int));
    Some((acc, i))
}

fn int_at(b: &[u8], pos: usize) -> (r: Option<(i32, usize)>)
    requires
        pos <= b@.len(),
    ensures
        r matches Some((v, p)) ==> p <= b@.len() && parse_int(from(b@, pos as int)) == Some(
            (v as int, from(b@, p as int)),
        ),
        r is None ==> (parse_int(from(b@, pos as int)) matches Some((v, _)) ==> !is_i32(v)),
{
    if pos < b.len() && b[pos] == 45 {
        assert(from(b@, pos as int).drop_first() =~= from(b@, pos + 1));
        match nat_at(b, pos + 1, 2147483648) {
            Some((v, p)) => {
                let n: i64 = -(v as i64);
                Some((n as i32, p))
            },
            None => None,
        }
    } else {
        match nat_at(b, pos, 2147483647) {
            Some((v, p)) => Some((v as i32, p)),
            None => None,
        }
    }
}

spec fn prepend(o: Seq<u8>, x: Option<(Seq<u8>, Seq<u8>)>) -> Option<(Seq<u8>, Seq<u8>)> {
    match x {
        Some((a, r)) => Some((o + a, r)),
        None => None,
    }
}

proof fn lemma_prepend(o: Seq<u8>, c: u8, y: Option<(Seq<u8>, Seq<u8>)>)
    ensures
        prepend(o, prepend(seq![c], y)) == prepend(o.push(c), y),
{
    if let Some((a, r)) = y {
        assert(o + (seq![c] + a) =~= o.push(c) + a);
    }
}

fn hex_val(c: u8) -> (r: i32)
    ensures
        r == hex_value(c),
{
    if 48 <= c && c <= 57 {
        (c - 48) as i32
    } else if 97 <= c && c <= 102 {
        (c - 87) as i32
    } else {
        -1
    }
}

fn unescape_at(b: &[u8], pos: usize) -> (r: Option<(Vec<u8>, usize)>)
    requires
        pos <= b@.len(),
    ensures
        r matches Some((o, p)) ==> p <= b@.len() && unescape(from(b@, pos as int)) == Some(
            (o@, from(b@, p as int)),
        ),
        r is None ==> unescape(from(b@, pos as int)) is None,
{
    let n = b.len();
    let mut out: Vec<u8> = Vec::new();
    let mut i = pos;
    assert(prepend(out@, unescape(from(b@, i as int))) =~= unescape(from(b@, pos as int))) by {
        if let Some((a, r)) = unescape(from(b@, pos as int)) {
            assert(out@ + a =~= a);
        }
    }
    while i < n
        invariant
            pos <= i <= n,
            n == b@.len(),
            unescape(from(b@, pos as int)) == prepend(out@, unescape(from(b@, i as int))),
        decreases n - i,
    {
        let ghost f = from(b@, i as int);
        let c = b[i];
        assert(f[0] == c);
        if c == 34 {
            assert(out@ + seq![] =~= out@);
            return Some((out, i));
        } else if c == 92 {
            if n - i > 1 && (b[i + 1] == 34 || b[i + 1] == 92) {
                let e = b[i + 1];
                assert(f[1] == e);
                assert(f.subrange(2, f.len() as int) =~= from(b@, i + 2));
                proof {
                    lemma_prepend(out@, e, unescape(from(b@, i + 2)));
                }
                out.push(e);
                i = i + 2;
            } else if n - i > 5 && b[i + 1] == 117 && b[i + 2] == 48 && b[i + 3] == 48 && 0
                <= hex_val(b[i + 4]) && hex_val(b[i + 4]) < 2 && 0 <= hex_val(b[i + 5]) {
                let high = hex_val(b[i + 4]);
                let low = hex_val(b[i + 5]);
                assert(low <= 15);
                let v = (high * 16 + low) as u8;
                assert(f[1] == b@[i + 1] && f[2] == b@[i + 2] && f[3] == b@[i + 3]);
                assert(f[4] == b@[i + 4] && f[5] == b@[i + 5]);
                assert(f.subrange(6, f.len() as int) =~= from(b@, i + 6));
                proof {
                    lemma_prepend(out@, v, unescape(from(b@, i + 6)));
                }
                out.push(v);
                i = i + 6;
            } else {
                proof {
                    if f.len() >= 2 {
                        assert(f[1] == b@[i + 1]);
                    }
                    if f.len() >= 6 {
                        assert(f[1] == b@[i + 1] && f[2] == b@[i + 2] && f[3] == b@[i + 3]);
                        assert(f[4] == b@[i + 4] && f[5] == b@[i + 5]);
                    }
                }
                return None;
            }
        } else {
            assert(f.drop_first() =~= from(b@, i + 1));
            proof {
                lemma_prepend(out@, c, unescape(from(b@, i + 1)));
            }
            out.push(c);
            i = i + 1;
        }
    }
    assert(from(b@, i as int).len() == 0);
    None
}

fn uid_at(b: &[u8], p: usize) -> (r: Option<u64>)
    requires
        p <= b@.len(),
    ensures
        r == parse_uid(from(b@, p as int)),
{
    proof {
        reveal_strlit(",\"uid\":");
        reveal_strlit("}");
    }
    if !lit_at(b, p, ",\"uid\":") {
        return None;
    }
    match nat_at(b, p + 7, u64::MAX) {
        Some((v, q)) => {
            if range_is(b, q, b.len(), "}") {
                Some(v)
            } else {
                None
            }
        },
        None => None,
    }
}

fn opid_at(b: &[u8], p: usize) -> (r: Option<(i32, u64)>)
    requires
        p <= b@.len(),
    ensures
        r == parse_opid(from(b@, p as int)),
{
    proof {
        reveal_strlit("\",\"opid\":");
    }
    if !lit_at(b, p, "\",\"opid\":") {
        return None;
    }
    match int_at(b, p + 9) {
        Some((v, q)) => match uid_at(b, q) {
            Some(u) => Some((v, u)),
            None => None,
        },
        None => None,
    }
}

fn sender_at(b: &[u8], p: usize) -> (r: Option<(String, i32, u64)>)
    requires
        p <= b@.len(),
    ensures
        r matches Some((sid, opid, uid)) ==> parse_sender(from(b@, p as int)) == Some(
            (sid@, opid, uid),
        ),
        r is None ==> parse_sender(from(b@, p as int)) is None,
{
    proof {
        reveal_strlit(",\"senderid\":\"");
    }
    if !lit_at(b, p, ",\"senderid\":\"") {
        return None;
    }
    match unescape_at(b, p + 13) {
        Some((sb, q)) => {
            let ghost sbv = sb@;
            match utf8_text(sb) {
                Some(sid) => match opid_at(b, q) {
                    Some((opid, uid)) => Some((sid, opid, uid)),
                    None => None,
                },
                None => None,
            }
        },
        None => None,
    }
}

fn fields_at(mtype: MessageType, b: &[u8], p: usize) -> (r: Option<ProtocolMessage>)
    requires
        p <= b@.len(),
    ensures
        r matches Some(m) ==> parse_fields(mtype, from(b@, p as int)) == Some(m@),
        r is None ==> parse_fields(mtype, from(b@, p as int)) is None,
{
    proof {
        reveal_strlit("\",\"txid\":");
    }
    if !lit_at(b, p, "\",\"txid\":") {
        return None;
    }
    match int_at(b, p + 9) {
        Some((txid, q)) => match sender_at(b, q) {
            Some((senderid, opid, uid)) => Some(ProtocolMessage { mtype, txid, senderid, opid, uid }),
            None => None,
        },
        None => None,
    }
}

fn parse_bytes(b: &[u8]) -> (r: Option<ProtocolMessage>)
    ensures
        r matches Some(m) ==> parse_message(b@) == Some(m@),
        r is None ==> parse_message(b@) is None,
{
    proof {
        reveal_strlit("{\"type\":\"");
    }
    assert(from(b@, 0) =~= b@);
    if !lit_at(b, 0, "{\"type\":\"") {
        return None;
    }
    let q = quote_from(b, 9);
    assert(from(b@, 9).subrange(0, q - 9) =~= b@.subrange(9, q as int));
    assert(from(b@, 9).subrange(q - 9, from(b@, 9).len() as int) =~= from(b@, q as int));
    match kind_at(b, 9, q) {
        Some(t) => fields_at(t, b, q),
        None => None,
    }
}

fn bytes_equal(a: &[u8], b: &[u8]) -> (r: bool)
    ensures
        r == (a@ == b@),
{
    if a.len() != b.len() {
        return false;
    }
    let mut i: usize = 0;
    while i < a.len()
        invariant
            i <= a@.len(),
            a@.len() == b@.len(),
            forall|j: int| 0 <= j < i ==> a@[j] == b@[j],
        decreases a@.len() - i,
    {
        if a[i] != b[i] {
            return false;
        }
        i = i + 1;
    }
    assert(a@ =~= b@);
    true
}

impl ProtocolMessage {
    /// Reads a message from its textual form. It succeeds exactly on the bytes
    /// that `to_bytes` writes for some message.
    pub fn from_bytes(b: &[u8]) -> (r: Option<ProtocolMessage>)
        ensures
            r matches Some(m) ==> encoding(m@) == b@,
            r is None ==> forall|m: MessageView| encoding(m) != b@,
    {
        match parse_bytes(b) {
            Some(m) => {
                let e = m.to_bytes();
                if bytes_equal(e.as_slice(), b) {
                    Some(m)
                } else {
                    assert forall|m2: MessageView| encoding(m2) != b@ by {
                        if encoding(m2) == b@ {
                            lemma_parse_encoding(m2);
                        }
                    }
                    None
                }
            },
            None => {
                assert forall|m2: MessageView| encoding(m2) != b@ by {
                    if encoding(m2) == b@ {
                        lemma_parse_encoding(m2);
                    }
                }
                None
            },
        }
    }
}

/// What `from_bytes` returns is the message that the bytes encode.
pub proof fn lemma_decoded(m: MessageView)
    ensures
        is_encoded(encoding(m)),
        decoded(encoding(m)) == m,
{
    let d = decoded(encoding(m));
    lemma_parse_encoding(m);
    lemma_parse_encoding(d);
}

/// Round trip: the encoding determines the message, so `from_bytes` applied
/// to what `to_bytes` wrote gives back a message equal in every field.
pub proof fn lemma_round_trip(m: MessageView, decoded: MessageView)
    requires
        encoding(decoded) == encoding(m),
    ensures
        decoded == m,
{
    lemma_parse_encoding(m);
    lemma_parse_encoding(decoded);
}

} // verus!
