//! The messages that nodes, miners and wallets exchange: CBOR, each framed by an
//! 8-byte big-endian length.
use crate::cbor::{
    array_head, ascii, be_bytes, be_value, enc_bool, enc_int, enc_text, enc_uint, flatten, map_head,
    push_array_head, push_be, push_bool, push_field_name, push_i64, push_map_head, push_text,
    push_uint, starts_with_at, Encodable,
};
use crate::decode::{
    bytes_equal, copy_out, expect, lemma_be_value_of_bytes, lemma_flatten_len_at_least,
    lemma_head_parts, lemma_list_extend, lemma_list_item, lemma_pow256_monotone_8,
    lemma_starts_concat, parse_bool, parse_head, parse_int, parse_text, parse_uint, read_be,
};
use vstd::utf8::{
    decode_utf8, decode_utf8_encode_utf8, encode_utf8, encode_utf8_decode_utf8,
    encode_utf8_valid_utf8, valid_utf8,
};
use crate::crypto::{parse_public_key, public_key_valid, PublicKey};
use crate::types::block::{block_valid, enc_block, parse_block, Block, BlockView};
use crate::types::transaction::{
    field_token,
    enc_output, enc_transaction, lemma_flatten_map_take, output_valid, parse_output,
    parse_transaction, transaction_valid, Transaction, TransactionOutput, TransactionView,
};
use vstd::prelude::*;

verus! {

#[derive(Debug)]
pub enum Message {
    FetchUTXOs(PublicKey),
    UTXOs(Vec<(TransactionOutput, bool)>),
    SubmitTransaction(Transaction),
    NewTransaction(Transaction),
    FetchTemplate(PublicKey),
    Template(Block),
    ValidateTemplate(Block),
    SubmitTemplate(Block),
    DiscoverNodes,
    NodeList(Vec<String>),
    AskDifference(u32),
    Difference(i32),
    FetchBlock(usize),
    NewBlock(Block),
    TemplateValidity(bool),
}

pub enum MessageView {
    FetchUTXOs(PublicKey),
    UTXOs(Seq<(TransactionOutput, bool)>),
    SubmitTransaction(TransactionView),
    NewTransaction(TransactionView),
    FetchTemplate(PublicKey),
    Template(BlockView),
    ValidateTemplate(BlockView),
    SubmitTemplate(BlockView),
    DiscoverNodes,
    NodeList(Seq<Seq<char>>),
    AskDifference(u32),
    Difference(i32),
    FetchBlock(usize),
    NewBlock(BlockView),
    TemplateValidity(bool),
}

impl View for Message {
    type V = MessageView;

    open spec fn view(&self) -> MessageView {
        match self {
            Message::FetchUTXOs(k) => MessageView::FetchUTXOs(*k),
            Message::UTXOs(v) => MessageView::UTXOs(v@),
            Message::SubmitTransaction(t) => MessageView::SubmitTransaction(t@),
            Message::NewTransaction(t) => MessageView::NewTransaction(t@),
            Message::FetchTemplate(k) => MessageView::FetchTemplate(*k),
            Message::Template(b) => MessageView::Template(b@),
            Message::ValidateTemplate(b) => MessageView::ValidateTemplate(b@),
            Message::SubmitTemplate(b) => MessageView::SubmitTemplate(b@),
            Message::DiscoverNodes => MessageView::DiscoverNodes,
            Message::NodeList(v) => MessageView::NodeList(v@.map_values(|s: String| s@)),
            Message::AskDifference(h) => MessageView::AskDifference(*h),
            Message::Difference(d) => MessageView::Difference(*d),
            Message::FetchBlock(h) => MessageView::FetchBlock(*h),
            Message::NewBlock(b) => MessageView::NewBlock(b@),
            Message::TemplateValidity(v) => MessageView::TemplateValidity(*v),
        }
    }
}

/// An output with its mark: an array of two.
pub open spec fn enc_marked(e: (TransactionOutput, bool)) -> Seq<u8> {
    array_head(2) + enc_output(e.0) + enc_bool(e.1)
}

pub open spec fn enc_marked_list(s: Seq<(TransactionOutput, bool)>) -> Seq<u8> {
    array_head(s.len()) + flatten(s.map_values(|e: (TransactionOutput, bool)| enc_marked(e)))
}

pub open spec fn enc_string(s: Seq<char>) -> Seq<u8> {
    enc_text(encode_utf8(s))
}

pub open spec fn enc_string_list(s: Seq<Seq<char>>) -> Seq<u8> {
    array_head(s.len()) + flatten(s.map_values(|t: Seq<char>| enc_string(t)))
}

/// A variant that carries a value: a map from the variant's name to the value.
pub open spec fn enc_variant(name: Seq<u8>, value: Seq<u8>) -> Seq<u8> {
    map_head(1) + enc_text(name) + value
}

pub open spec fn enc_message(m: MessageView) -> Seq<u8> {
    match m {
        MessageView::FetchUTXOs(k) => enc_variant(ascii("FetchUTXOs"), crate::cbor::enc_bytes(k.bytes()@)),
        MessageView::UTXOs(v) => enc_variant(ascii("UTXOs"), enc_marked_list(v)),
        MessageView::SubmitTransaction(t) => enc_variant(ascii("SubmitTransaction"), enc_transaction(t)),
        MessageView::NewTransaction(t) => enc_variant(ascii("NewTransaction"), enc_transaction(t)),
        MessageView::FetchTemplate(k) => enc_variant(ascii("FetchTemplate"), crate::cbor::enc_bytes(k.bytes()@)),
        MessageView::Template(b) => enc_variant(ascii("Template"), enc_block(b)),
        MessageView::ValidateTemplate(b) => enc_variant(ascii("ValidateTemplate"), enc_block(b)),
        MessageView::SubmitTemplate(b) => enc_variant(ascii("SubmitTemplate"), enc_block(b)),
        MessageView::DiscoverNodes => enc_text(ascii("DiscoverNodes")),
        MessageView::NodeList(v) => enc_variant(ascii("NodeList"), enc_string_list(v)),
        MessageView::AskDifference(h) => enc_variant(ascii("AskDifference"), enc_uint(h as u64)),
        MessageView::Difference(d) => enc_variant(ascii("Difference"), enc_int(d as int)),
        MessageView::FetchBlock(h) => enc_variant(ascii("FetchBlock"), enc_uint(h as u64)),
        MessageView::NewBlock(b) => enc_variant(ascii("NewBlock"), enc_block(b)),
        MessageView::TemplateValidity(v) => enc_variant(ascii("TemplateValidity"), enc_bool(v)),
    }
}

/// A frame: the payload's length as 8 big-endian bytes, then the payload.
pub open spec fn frame(payload: Seq<u8>) -> Seq<u8> {
    be_bytes(payload.len(), 8) + payload
}

fn encode_marked_list(s: &Vec<(TransactionOutput, bool)>, out: &mut Vec<u8>)
    ensures
        final(out)@ == old(out)@ + enc_marked_list(s@),
{
    push_array_head(out, s.len());
    let ghost start = out@;
    let ghost f = |e: (TransactionOutput, bool)| enc_marked(e);
    let mut i: usize = 0;
    while i < s.len()
        invariant
            i <= s.len(),
            f == (|e: (TransactionOutput, bool)| enc_marked(e)),
            out@ == start + flatten(s@.take(i as int).map_values(f)),
        decreases s.len() - i,
    {
        proof {
            lemma_flatten_map_take(s@, f, i as int);
        }
        let ghost before = out@;
        push_array_head(out, 2);
        s[i].0.encode(out);
        push_bool(out, s[i].1);
        proof {
            assert(out@ =~= before + f(s@[i as int]));
            assert(out@ =~= start + flatten(s@.take(i + 1).map_values(f)));
        }
        i = i + 1;
    }
    assert(s@.take(s.len() as int) =~= s@);
    assert(final(out)@ =~= old(out)@ + enc_marked_list(s@));
}

fn encode_string_list(s: &Vec<String>, out: &mut Vec<u8>)
    ensures
        final(out)@ == old(out)@ + enc_string_list(s@.map_values(|t: String| t@)),
{
    push_array_head(out, s.len());
    let ghost start = out@;
    let ghost f = |t: Seq<char>| enc_string(t);
    let ghost views = s@.map_values(|t: String| t@);
    let mut i: usize = 0;
    while i < s.len()
        invariant
            i <= s.len(),
            f == (|t: Seq<char>| enc_string(t)),
            views == s@.map_values(|t: String| t@),
            out@ == start + flatten(views.take(i as int).map_values(f)),
        decreases s.len() - i,
    {
        proof {
            lemma_flatten_map_take(views, f, i as int);
        }
        let ghost before = out@;
        push_text(out, s[i].as_str().as_bytes());
        proof {
            assert(out@ =~= before + f(views[i as int]));
            assert(out@ =~= start + flatten(views.take(i + 1).map_values(f)));
        }
        i = i + 1;
    }
    assert(views.take(s.len() as int) =~= views);
    assert(final(out)@ =~= old(out)@ + enc_string_list(views));
}

fn push_variant(out: &mut Vec<u8>, name: &str, value: &Vec<u8>)
    ensures
        final(out)@ == old(out)@ + enc_variant(ascii(name), value@),
{
    push_map_head(out, 1);
    push_field_name(out, name);
    crate::cbor::push_all(out, value.as_slice());
    assert(final(out)@ =~= old(out)@ + enc_variant(ascii(name), value@));
}

/// The encoding of the value that a variant carries.
fn variant_value(m: &Message) -> (r: Vec<u8>)
    ensures
        match m@ {
            MessageView::FetchUTXOs(k) => r@ == crate::cbor::enc_bytes(k.bytes()@),
            MessageView::UTXOs(v) => r@ == enc_marked_list(v),
            MessageView::SubmitTransaction(t) => r@ == enc_transaction(t),
            MessageView::NewTransaction(t) => r@ == enc_transaction(t),
            MessageView::FetchTemplate(k) => r@ == crate::cbor::enc_bytes(k.bytes()@),
            MessageView::Template(b) => r@ == enc_block(b),
            MessageView::ValidateTemplate(b) => r@ == enc_block(b),
            MessageView::SubmitTemplate(b) => r@ == enc_block(b),
            MessageView::DiscoverNodes => true,
            MessageView::NodeList(v) => r@ == enc_string_list(v),
            MessageView::AskDifference(h) => r@ == enc_uint(h as u64),
            MessageView::Difference(d) => r@ == enc_int(d as int),
            MessageView::FetchBlock(h) => r@ == enc_uint(h as u64),
            MessageView::NewBlock(b) => r@ == enc_block(b),
            MessageView::TemplateValidity(v) => r@ == enc_bool(v),
        },
{
    let mut out: Vec<u8> = Vec::new();
    match m {
        Message::FetchUTXOs(k) => crate::cbor::push_bytes(&mut out, k.as_array()),
        Message::UTXOs(v) => encode_marked_list(v, &mut out),
        Message::SubmitTransaction(t) => t.encode(&mut out),
        Message::NewTransaction(t) => t.encode(&mut out),
        Message::FetchTemplate(k) => crate::cbor::push_bytes(&mut out, k.as_array()),
        Message::Template(b) => b.encode(&mut out),
        Message::ValidateTemplate(b) => b.encode(&mut out),
        Message::SubmitTemplate(b) => b.encode(&mut out),
        Message::DiscoverNodes => {},
        Message::NodeList(v) => encode_string_list(v, &mut out),
        Message::AskDifference(h) => push_uint(&mut out, *h as u64),
        Message::Difference(d) => push_i64(&mut out, *d as i64),
        Message::FetchBlock(h) => push_uint(&mut out, *h as u64),
        Message::NewBlock(b) => b.encode(&mut out),
        Message::TemplateValidity(v) => push_bool(&mut out, *v),
    }
    proof {
        assert(Seq::<u8>::empty() + out@ =~= out@);
    }
    out
}

impl Encodable for Message {
    open spec fn spec_cbor(&self) -> Seq<u8> {
        enc_message(self@)
    }

    fn encode(&self, out: &mut Vec<u8>) {
        let value = variant_value(self);
        match self {
            Message::FetchUTXOs(_) => push_variant(out, "FetchUTXOs", &value),
            Message::UTXOs(_) => push_variant(out, "UTXOs", &value),
            Message::SubmitTransaction(_) => push_variant(out, "SubmitTransaction", &value),
            Message::NewTransaction(_) => push_variant(out, "NewTransaction", &value),
            Message::FetchTemplate(_) => push_variant(out, "FetchTemplate", &value),
            Message::Template(_) => push_variant(out, "Template", &value),
            Message::ValidateTemplate(_) => push_variant(out, "ValidateTemplate", &value),
            Message::SubmitTemplate(_) => push_variant(out, "SubmitTemplate", &value),
            Message::DiscoverNodes => push_field_name(out, "DiscoverNodes"),
            Message::NodeList(_) => push_variant(out, "NodeList", &value),
            Message::AskDifference(_) => push_variant(out, "AskDifference", &value),
            Message::Difference(_) => push_variant(out, "Difference", &value),
            Message::FetchBlock(_) => push_variant(out, "FetchBlock", &value),
            Message::NewBlock(_) => push_variant(out, "NewBlock", &value),
            Message::TemplateValidity(_) => push_variant(out, "TemplateValidity", &value),
        }
    }
}

impl Message {
    /// Writes the message as one frame.
    pub fn send(&self, writer: &mut Vec<u8>) -> (r: Result<(), crate::error::BtcError>)
        ensures
            r is Ok,
            final(writer)@ == old(writer)@ + frame(enc_message(self@)),
    {
        let mut payload: Vec<u8> = Vec::new();
        self.encode(&mut payload);
        assert(payload@ =~= enc_message(self@));
        push_be(writer, payload.len() as u64, 8);
        crate::cbor::push_all(writer, payload.as_slice());
        assert(final(writer)@ =~= old(writer)@ + frame(enc_message(self@)));
        Ok(())
    }
}

// ---- reading back ----

/// Calls `String::from_utf8`, which accepts exactly the valid UTF-8 byte strings.
#[verifier::external_body]
fn string_from_utf8(bytes: &[u8]) -> (r: Option<String>)
    ensures
        r is Some <==> valid_utf8(bytes@),
        r matches Some(s) ==> s@ == decode_utf8(bytes@),
{
    String::from_utf8(bytes.to_vec()).ok()
}

/// A text string that is valid UTF-8.
fn parse_string(data: &[u8], pos: usize) -> (r: Option<(String, usize)>)
    ensures
        r matches Some((s, end)) ==> starts_with_at(data@, pos as int, enc_string(s@)) && end == pos
            + enc_string(s@).len(),
        forall|c: Seq<char>| #[trigger]
            starts_with_at(data@, pos as int, enc_string(c)) ==> (r matches Some((s, end)) && s@ == c
                && end == pos + enc_string(c).len()),
{
    proof {
        assert forall|c: Seq<char>| #[trigger] starts_with_at(data@, pos as int, enc_string(c)) implies valid_utf8(encode_utf8(c)) && decode_utf8(encode_utf8(c)) == c by {
            encode_utf8_valid_utf8(c);
            encode_utf8_decode_utf8(c);
        }
    }
    let (text, end) = match parse_text(data, pos) {
        Some(x) => x,
        None => {
            return None;
        },
    };
    match string_from_utf8(text.as_slice()) {
        Some(s) => {
            proof {
                decode_utf8_encode_utf8(text@);
            }
            Some((s, end))
        },
        None => None,
    }
}

pub open spec fn string_views(v: Seq<String>) -> Seq<Seq<char>> {
    v.map_values(|t: String| t@)
}

pub open spec fn string_encs(s: Seq<Seq<char>>) -> Seq<Seq<u8>> {
    s.map_values(|t: Seq<char>| enc_string(t))
}

/// A list of UTF-8 strings.
fn parse_string_list(data: &[u8], pos: usize) -> (r: Option<(Vec<String>, usize)>)
    ensures
        r matches Some((v, end)) ==> starts_with_at(data@, pos as int, enc_string_list(string_views(v@)))
            && end == pos + enc_string_list(string_views(v@)).len(),
        forall|s: Seq<Seq<char>>| #[trigger]
            starts_with_at(data@, pos as int, enc_string_list(s)) ==> (r matches Some((v, end))
                && string_views(v@) == s && end == pos + enc_string_list(s).len()),
{
    let hd = parse_head(data, pos);
    proof {
        assert forall|s: Seq<Seq<char>>| #[trigger] starts_with_at(data@, pos as int, enc_string_list(s)) implies hd
            == Some((4u8, s.len() as u64, (pos + array_head(s.len()).len()) as usize)) && s.len() == s.len() as u64 by {
            assert(data@.len() == data.len());
            lemma_starts_concat(data@, pos as int, array_head(s.len()), flatten(string_encs(s)));
            assert(s.len() <= flatten(string_encs(s)).len()) by {
                lemma_flatten_len_at_least(string_encs(s));
            }
        }
    }
    let (n, mut p) = match hd {
        Some((major, n, end)) => {
            if major != 4 {
                return None;
            }
            (n, end)
        },
        None => {
            return None;
        },
    };
    let mut v: Vec<String> = Vec::new();
    let mut i: u64 = 0;
    proof {
        assert(string_encs(string_views(v@)) =~= Seq::<Seq<u8>>::empty());
        assert(array_head(n as nat) + flatten(string_encs(string_views(v@))) =~= array_head(n as nat));
    }
    while i < n
        invariant
            i <= n,
            v@.len() == i,
            starts_with_at(data@, pos as int, array_head(n as nat) + flatten(string_encs(string_views(v@)))),
            p == pos + (array_head(n as nat) + flatten(string_encs(string_views(v@)))).len(),
            forall|s: Seq<Seq<char>>| #[trigger]
                starts_with_at(data@, pos as int, enc_string_list(s)) ==> s.len() == n && string_views(v@)
                    == s.take(i as int),
        decreases n - i,
    {
        let got = parse_string(data, p);
        proof {
            assert forall|s: Seq<Seq<char>>| #[trigger]
                starts_with_at(data@, pos as int, enc_string_list(s)) implies (got matches Some((t, e))
                && t@ == s[i as int] && e == p + enc_string(s[i as int]).len()) by {
                lemma_list_item(data@, pos as int, array_head(n as nat), string_encs(s), i as int);
                assert(string_encs(s).take(i as int) =~= string_encs(string_views(v@)));
            }
        }
        match got {
            Some((t, e)) => {
                proof {
                    lemma_list_extend(
                        data@,
                        pos as int,
                        array_head(n as nat),
                        string_encs(string_views(v@)),
                        enc_string(t@),
                    );
                }
                let ghost before = string_views(v@);
                v.push(t);
                proof {
                    assert(string_views(v@) =~= before.push(t@));
                    assert(string_encs(string_views(v@)) =~= string_encs(before).push(enc_string(t@)));
                }
                p = e;
                proof {
                    assert forall|s: Seq<Seq<char>>| #[trigger]
                        starts_with_at(data@, pos as int, enc_string_list(s)) implies string_views(v@)
                        == s.take(i + 1) by {
                        assert(before == s.take(i as int));
                        assert(string_views(v@) =~= s.take(i + 1));
                    }
                }
            },
            None => {
                return None;
            },
        }
        i = i + 1;
    }
    proof {
        assert forall|s: Seq<Seq<char>>| #[trigger]
            starts_with_at(data@, pos as int, enc_string_list(s)) implies string_views(v@) == s by {
            assert(s.take(n as int) =~= s);
        }
        assert(enc_string_list(string_views(v@)) =~= array_head(n as nat) + flatten(
            string_encs(string_views(v@)),
        ));
    }
    Some((v, p))
}

/// An output with its mark, where the key is a point.
fn parse_marked(data: &[u8], pos: usize) -> (r: Option<((TransactionOutput, bool), usize)>)
    ensures
        r matches Some((e, end)) ==> output_valid(e.0) && starts_with_at(data@, pos as int, enc_marked(e))
            && end == pos + enc_marked(e).len(),
        forall|e: (TransactionOutput, bool)|
            output_valid(e.0) && #[trigger] starts_with_at(data@, pos as int, enc_marked(e)) ==> r == Some(
                (e, (pos + enc_marked(e).len()) as usize),
            ),
{
    let mut t1: Vec<u8> = Vec::new();
    push_array_head(&mut t1, 2);
    proof {
        assert forall|e: (TransactionOutput, bool)| #[trigger] starts_with_at(data@, pos as int, enc_marked(e)) implies starts_with_at(data@, pos as int, t1@) && starts_with_at(data@, pos + t1@.len(), enc_output(e.0)) && starts_with_at(data@, pos + t1@.len() + enc_output(e.0).len(), enc_bool(e.1)) by {
            lemma_starts_concat(data@, pos as int, t1@ + enc_output(e.0), enc_bool(e.1));
            lemma_starts_concat(data@, pos as int, t1@, enc_output(e.0));
        }
    }
    if !expect(data, pos, t1.as_slice()) {
        return None;
    }
    let p1 = pos + t1.len();
    let (o, p2) = match parse_output(data, p1) {
        Some(x) => x,
        None => {
            return None;
        },
    };
    let (b, p3) = match parse_bool(data, p2) {
        Some(x) => x,
        None => {
            return None;
        },
    };
    proof {
        lemma_starts_concat(data@, pos as int, t1@ + enc_output(o), enc_bool(b));
        lemma_starts_concat(data@, pos as int, t1@, enc_output(o));
    }
    Some(((o, b), p3))
}

pub open spec fn marked_encs(s: Seq<(TransactionOutput, bool)>) -> Seq<Seq<u8>> {
    s.map_values(|e: (TransactionOutput, bool)| enc_marked(e))
}

/// A list of outputs with their marks, where each key is a point.
fn parse_marked_list(data: &[u8], pos: usize) -> (r: Option<(Vec<(TransactionOutput, bool)>, usize)>)
    ensures
        r matches Some((v, end)) ==> (forall|j: int| 0 <= j < v@.len() ==> output_valid(#[trigger] v@[j].0))
            && starts_with_at(data@, pos as int, enc_marked_list(v@)) && end == pos + enc_marked_list(v@).len(),
        forall|s: Seq<(TransactionOutput, bool)>|
            (forall|j: int| 0 <= j < s.len() ==> output_valid(#[trigger] s[j].0)) && #[trigger] starts_with_at(
                data@,
                pos as int,
                enc_marked_list(s),
            ) ==> (r matches Some((v, end)) && v@ == s && end == pos + enc_marked_list(s).len()),
{
    let hd = parse_head(data, pos);
    proof {
        assert forall|s: Seq<(TransactionOutput, bool)>| #[trigger] starts_with_at(data@, pos as int, enc_marked_list(s)) implies hd
            == Some((4u8, s.len() as u64, (pos + array_head(s.len()).len()) as usize)) && s.len() == s.len() as u64 by {
            assert(data@.len() == data.len());
            lemma_starts_concat(data@, pos as int, array_head(s.len()), flatten(marked_encs(s)));
            assert(s.len() <= flatten(marked_encs(s)).len()) by {
                lemma_flatten_len_at_least(marked_encs(s));
            }
        }
    }
    let (n, mut p) = match hd {
        Some((major, n, end)) => {
            if major != 4 {
                return None;
            }
            (n, end)
        },
        None => {
            return None;
        },
    };
    let mut v: Vec<(TransactionOutput, bool)> = Vec::new();
    let mut i: u64 = 0;
    proof {
        assert(marked_encs(v@) =~= Seq::<Seq<u8>>::empty());
        assert(array_head(n as nat) + flatten(marked_encs(v@)) =~= array_head(n as nat));
    }
    while i < n
        invariant
            i <= n,
            v@.len() == i,
            forall|j: int| 0 <= j < v@.len() ==> output_valid(#[trigger] v@[j].0),
            starts_with_at(data@, pos as int, array_head(n as nat) + flatten(marked_encs(v@))),
            p == pos + (array_head(n as nat) + flatten(marked_encs(v@))).len(),
            forall|s: Seq<(TransactionOutput, bool)>|
                (forall|j: int| 0 <= j < s.len() ==> output_valid(#[trigger] s[j].0)) && #[trigger] starts_with_at(
                    data@,
                    pos as int,
                    enc_marked_list(s),
                ) ==> s.len() == n && v@ == s.take(i as int),
        decreases n - i,
    {
        let got = parse_marked(data, p);
        proof {
            assert forall|s: Seq<(TransactionOutput, bool)>|
                (forall|j: int| 0 <= j < s.len() ==> output_valid(#[trigger] s[j].0)) && #[trigger] starts_with_at(
                    data@,
                    pos as int,
                    enc_marked_list(s),
                ) implies got == Some((s[i as int], (p + enc_marked(s[i as int]).len()) as usize)) by {
                lemma_list_item(data@, pos as int, array_head(n as nat), marked_encs(s), i as int);
                assert(marked_encs(s).take(i as int) =~= marked_encs(v@));
                assert(output_valid(s[i as int].0));
            }
        }
        match got {
            Some((e, end)) => {
                proof {
                    lemma_list_extend(data@, pos as int, array_head(n as nat), marked_encs(v@), enc_marked(e));
                    assert(marked_encs(v@.push(e)) =~= marked_encs(v@).push(enc_marked(e)));
                }
                let ghost before = v@;
                v.push(e);
                p = end;
                proof {
                    assert forall|s: Seq<(TransactionOutput, bool)>|
                        (forall|j: int| 0 <= j < s.len() ==> output_valid(#[trigger] s[j].0)) && #[trigger] starts_with_at(
                            data@,
                            pos as int,
                            enc_marked_list(s),
                        ) implies v@ == s.take(i + 1) by {
                        assert(before == s.take(i as int));
                        assert(v@ =~= s.take(i + 1));
                    }
                }
            },
            None => {
                return None;
            },
        }
        i = i + 1;
    }
    proof {
        assert forall|s: Seq<(TransactionOutput, bool)>|
            (forall|j: int| 0 <= j < s.len() ==> output_valid(#[trigger] s[j].0)) && #[trigger] starts_with_at(
                data@,
                pos as int,
                enc_marked_list(s),
            ) implies v@ == s by {
            assert(s.take(n as int) =~= s);
        }
        assert(enc_marked_list(v@) =~= array_head(n as nat) + flatten(marked_encs(v@)));
    }
    Some((v, p))
}

/// The name of a message's variant.
pub open spec fn message_name(m: MessageView) -> Seq<u8> {
    match m {
        MessageView::FetchUTXOs(_) => ascii("FetchUTXOs"),
        MessageView::UTXOs(_) => ascii("UTXOs"),
        MessageView::SubmitTransaction(_) => ascii("SubmitTransaction"),
        MessageView::NewTransaction(_) => ascii("NewTransaction"),
        MessageView::FetchTemplate(_) => ascii("FetchTemplate"),
        MessageView::Template(_) => ascii("Template"),
        MessageView::ValidateTemplate(_) => ascii("ValidateTemplate"),
        MessageView::SubmitTemplate(_) => ascii("SubmitTemplate"),
        MessageView::DiscoverNodes => ascii("DiscoverNodes"),
        MessageView::NodeList(_) => ascii("NodeList"),
        MessageView::AskDifference(_) => ascii("AskDifference"),
        MessageView::Difference(_) => ascii("Difference"),
        MessageView::FetchBlock(_) => ascii("FetchBlock"),
        MessageView::NewBlock(_) => ascii("NewBlock"),
        MessageView::TemplateValidity(_) => ascii("TemplateValidity"),
    }
}

/// The encoding of the value a message's variant carries (none for `DiscoverNodes`).
pub open spec fn message_payload(m: MessageView) -> Seq<u8> {
    match m {
        MessageView::FetchUTXOs(k) => crate::cbor::enc_bytes(k.bytes()@),
        MessageView::UTXOs(v) => enc_marked_list(v),
        MessageView::SubmitTransaction(t) => enc_transaction(t),
        MessageView::NewTransaction(t) => enc_transaction(t),
        MessageView::FetchTemplate(k) => crate::cbor::enc_bytes(k.bytes()@),
        MessageView::Template(b) => enc_block(b),
        MessageView::ValidateTemplate(b) => enc_block(b),
        MessageView::SubmitTemplate(b) => enc_block(b),
        MessageView::DiscoverNodes => seq![],
        MessageView::NodeList(v) => enc_string_list(v),
        MessageView::AskDifference(h) => enc_uint(h as u64),
        MessageView::Difference(d) => enc_int(d as int),
        MessageView::FetchBlock(h) => enc_uint(h as u64),
        MessageView::NewBlock(b) => enc_block(b),
        MessageView::TemplateValidity(v) => enc_bool(v),
    }
}

/// A message that reads back as itself: its keys are points, its signatures parse,
/// its times are ones chrono represents.
pub open spec fn message_valid(m: MessageView) -> bool {
    match m {
        MessageView::FetchUTXOs(k) => public_key_valid(k),
        MessageView::UTXOs(v) => forall|j: int| 0 <= j < v.len() ==> output_valid(#[trigger] v[j].0),
        MessageView::SubmitTransaction(t) => transaction_valid(t),
        MessageView::NewTransaction(t) => transaction_valid(t),
        MessageView::FetchTemplate(k) => public_key_valid(k),
        MessageView::Template(b) => block_valid(b),
        MessageView::ValidateTemplate(b) => block_valid(b),
        MessageView::SubmitTemplate(b) => block_valid(b),
        MessageView::NewBlock(b) => block_valid(b),
        _ => true,
    }
}

/// A variant is told by its name.
proof fn lemma_message_names(m: MessageView)
    ensures
        message_name(m) == ascii("FetchUTXOs") ==> m is FetchUTXOs,
        message_name(m) == ascii("UTXOs") ==> m is UTXOs,
        message_name(m) == ascii("SubmitTransaction") ==> m is SubmitTransaction,
        message_name(m) == ascii("NewTransaction") ==> m is NewTransaction,
        message_name(m) == ascii("FetchTemplate") ==> m is FetchTemplate,
        message_name(m) == ascii("Template") ==> m is Template,
        message_name(m) == ascii("ValidateTemplate") ==> m is ValidateTemplate,
        message_name(m) == ascii("SubmitTemplate") ==> m is SubmitTemplate,
        message_name(m) == ascii("DiscoverNodes") ==> m is DiscoverNodes,
        message_name(m) == ascii("NodeList") ==> m is NodeList,
        message_name(m) == ascii("AskDifference") ==> m is AskDifference,
        message_name(m) == ascii("Difference") ==> m is Difference,
        message_name(m) == ascii("FetchBlock") ==> m is FetchBlock,
        message_name(m) == ascii("NewBlock") ==> m is NewBlock,
        message_name(m) == ascii("TemplateValidity") ==> m is TemplateValidity,
{
    reveal_strlit("FetchUTXOs");
    reveal_strlit("UTXOs");
    reveal_strlit("SubmitTransaction");
    reveal_strlit("NewTransaction");
    reveal_strlit("FetchTemplate");
    reveal_strlit("Template");
    reveal_strlit("ValidateTemplate");
    reveal_strlit("SubmitTemplate");
    reveal_strlit("DiscoverNodes");
    reveal_strlit("NodeList");
    reveal_strlit("AskDifference");
    reveal_strlit("Difference");
    reveal_strlit("FetchBlock");
    reveal_strlit("NewBlock");
    reveal_strlit("TemplateValidity");
    let names = seq![
        "FetchUTXOs"@,
        "UTXOs"@,
        "SubmitTransaction"@,
        "NewTransaction"@,
        "FetchTemplate"@,
        "Template"@,
        "ValidateTemplate"@,
        "SubmitTemplate"@,
        "DiscoverNodes"@,
        "NodeList"@,
        "AskDifference"@,
        "Difference"@,
        "FetchBlock"@,
        "NewBlock"@,
        "TemplateValidity"@,
    ];
    assert forall|i: int| 0 <= i < 15 implies decode_utf8(encode_utf8(#[trigger] names[i])) == names[i] by {
        encode_utf8_decode_utf8(names[i]);
    }
    assert(decode_utf8(ascii("FetchUTXOs")) == "FetchUTXOs"@) by { assert(names[0] == "FetchUTXOs"@); }
    assert(decode_utf8(ascii("UTXOs")) == "UTXOs"@) by { assert(names[1] == "UTXOs"@); }
    assert(decode_utf8(ascii("SubmitTransaction")) == "SubmitTransaction"@) by { assert(names[2] == "SubmitTransaction"@); }
    assert(decode_utf8(ascii("NewTransaction")) == "NewTransaction"@) by { assert(names[3] == "NewTransaction"@); }
    assert(decode_utf8(ascii("FetchTemplate")) == "FetchTemplate"@) by { assert(names[4] == "FetchTemplate"@); }
    assert(decode_utf8(ascii("Template")) == "Template"@) by { assert(names[5] == "Template"@); }
    assert(decode_utf8(ascii("ValidateTemplate")) == "ValidateTemplate"@) by { assert(names[6] == "ValidateTemplate"@); }
    assert(decode_utf8(ascii("SubmitTemplate")) == "SubmitTemplate"@) by { assert(names[7] == "SubmitTemplate"@); }
    assert(decode_utf8(ascii("DiscoverNodes")) == "DiscoverNodes"@) by { assert(names[8] == "DiscoverNodes"@); }
    assert(decode_utf8(ascii("NodeList")) == "NodeList"@) by { assert(names[9] == "NodeList"@); }
    assert(decode_utf8(ascii("AskDifference")) == "AskDifference"@) by { assert(names[10] == "AskDifference"@); }
    assert(decode_utf8(ascii("Difference")) == "Difference"@) by { assert(names[11] == "Difference"@); }
    assert(decode_utf8(ascii("FetchBlock")) == "FetchBlock"@) by { assert(names[12] == "FetchBlock"@); }
    assert(decode_utf8(ascii("NewBlock")) == "NewBlock"@) by { assert(names[13] == "NewBlock"@); }
    assert(decode_utf8(ascii("TemplateValidity")) == "TemplateValidity"@) by { assert(names[14] == "TemplateValidity"@); }
    assert("FetchUTXOs"@[5] != "FetchBlock"@[5]);
    assert("NodeList"@[1] != "NewBlock"@[1]);
}

/// The value of the variant named `name`, read at `pos`.
#[verifier::rlimit(60)]
fn parse_payload(name: &[u8], data: &[u8], pos: usize) -> (r: Option<(Message, usize)>)
    ensures
        r matches Some((x, end)) ==> message_valid(x@) && x@ !is DiscoverNodes && message_name(x@)
            == name@ && starts_with_at(data@, pos as int, message_payload(x@)) && end == pos
            + message_payload(x@).len(),
        forall|m: MessageView|
            message_valid(m) && m !is DiscoverNodes && message_name(m) == name@ && #[trigger] starts_with_at(
                data@,
                pos as int,
                message_payload(m),
            ) ==> (r matches Some((x, end)) && x@ == m && end == pos + message_payload(m).len()),
{
    if bytes_equal(name, "FetchUTXOs".as_bytes()) {
        proof {
            assert forall|m: MessageView| message_name(m) == name@ implies m is FetchUTXOs by {
                lemma_message_names(m);
            }
        }
        return match parse_public_key(data, pos) {
            Some((k, e)) => Some((Message::FetchUTXOs(k), e)),
            None => None,
        };
    }
    if bytes_equal(name, "UTXOs".as_bytes()) {
        proof {
            assert forall|m: MessageView| message_name(m) == name@ implies m is UTXOs by {
                lemma_message_names(m);
            }
        }
        return match parse_marked_list(data, pos) {
            Some((v, e)) => Some((Message::UTXOs(v), e)),
            None => None,
        };
    }
    if bytes_equal(name, "SubmitTransaction".as_bytes()) {
        proof {
            assert forall|m: MessageView| message_name(m) == name@ implies m is SubmitTransaction by {
                lemma_message_names(m);
            }
        }
        return match parse_transaction(data, pos) {
            Some((t, e)) => Some((Message::SubmitTransaction(t), e)),
            None => None,
        };
    }
    if bytes_equal(name, "NewTransaction".as_bytes()) {
        proof {
            assert forall|m: MessageView| message_name(m) == name@ implies m is NewTransaction by {
                lemma_message_names(m);
            }
        }
        return match parse_transaction(data, pos) {
            Some((t, e)) => Some((Message::NewTransaction(t), e)),
            None => None,
        };
    }
    if bytes_equal(name, "FetchTemplate".as_bytes()) {
        proof {
            assert forall|m: MessageView| message_name(m) == name@ implies m is FetchTemplate by {
                lemma_message_names(m);
            }
        }
        return match parse_public_key(data, pos) {
            Some((k, e)) => Some((Message::FetchTemplate(k), e)),
            None => None,
        };
    }
    if bytes_equal(name, "Template".as_bytes()) {
        proof {
            assert forall|m: MessageView| message_name(m) == name@ implies m is Template by {
                lemma_message_names(m);
            }
        }
        return match parse_block(data, pos) {
            Some((b, e)) => Some((Message::Template(b), e)),
            None => None,
        };
    }
    if bytes_equal(name, "ValidateTemplate".as_bytes()) {
        proof {
            assert forall|m: MessageView| message_name(m) == name@ implies m is ValidateTemplate by {
                lemma_message_names(m);
            }
        }
        return match parse_block(data, pos) {
            Some((b, e)) => Some((Message::ValidateTemplate(b), e)),
            None => None,
        };
    }
    if bytes_equal(name, "SubmitTemplate".as_bytes()) {
        proof {
            assert forall|m: MessageView| message_name(m) == name@ implies m is SubmitTemplate by {
                lemma_message_names(m);
            }
        }
        return match parse_block(data, pos) {
            Some((b, e)) => Some((Message::SubmitTemplate(b), e)),
            None => None,
        };
    }
    if bytes_equal(name, "NodeList".as_bytes()) {
        proof {
            assert forall|m: MessageView| message_name(m) == name@ implies m is NodeList by {
                lemma_message_names(m);
            }
        }
        return match parse_string_list(data, pos) {
            Some((v, e)) => Some((Message::NodeList(v), e)),
            None => None,
        };
    }
    if bytes_equal(name, "AskDifference".as_bytes()) {
        proof {
            assert forall|m: MessageView| message_name(m) == name@ implies m is AskDifference by {
                lemma_message_names(m);
            }
        }
        return match parse_uint(data, pos) {
            Some((n, e)) => {
                if n <= 0xffff_ffff {
                    Some((Message::AskDifference(n as u32), e))
                } else {
                    None
                }
            },
            None => None,
        };
    }
    if bytes_equal(name, "Difference".as_bytes()) {
        proof {
            assert forall|m: MessageView| message_name(m) == name@ implies m is Difference by {
                lemma_message_names(m);
            }
        }
        return {
            proof {
                assert forall|m: MessageView| message_name(m) == name@ && #[trigger] starts_with_at(data@, pos as int, message_payload(m)) implies starts_with_at(data@, pos as int, enc_int(((m->Difference_0) as i64) as int)) by {
                    lemma_message_names(m);
                }
            }
            match parse_int(data, pos) {
                Some((v, e)) => {
                    if -0x8000_0000 <= v && v <= 0x7fff_ffff {
                        Some((Message::Difference(v as i32), e))
                    } else {
                        None
                    }
                },
                None => None,
            }
        };
    }
    if bytes_equal(name, "FetchBlock".as_bytes()) {
        proof {
            assert forall|m: MessageView| message_name(m) == name@ implies m is FetchBlock by {
                lemma_message_names(m);
            }
        }
        return match parse_uint(data, pos) {
            Some((n, e)) => {
                if n <= usize::MAX as u64 {
                    Some((Message::FetchBlock(n as usize), e))
                } else {
                    None
                }
            },
            None => None,
        };
    }
    if bytes_equal(name, "NewBlock".as_bytes()) {
        proof {
            assert forall|m: MessageView| message_name(m) == name@ implies m is NewBlock by {
                lemma_message_names(m);
            }
        }
        return match parse_block(data, pos) {
            Some((b, e)) => Some((Message::NewBlock(b), e)),
            None => None,
        };
    }
    if bytes_equal(name, "TemplateValidity".as_bytes()) {
        proof {
            assert forall|m: MessageView| message_name(m) == name@ implies m is TemplateValidity by {
                lemma_message_names(m);
            }
        }
        return match parse_bool(data, pos) {
            Some((v, e)) => Some((Message::TemplateValidity(v), e)),
            None => None,
        };
    }
    proof {
        assert forall|m: MessageView| m !is DiscoverNodes implies message_name(m) != name@ by {
            lemma_message_names(m);
        }
    }
    None
}

proof fn lemma_message_enc(m: MessageView)
    ensures
        m is DiscoverNodes ==> enc_message(m) == enc_text(ascii("DiscoverNodes")),
        m !is DiscoverNodes ==> enc_message(m) == map_head(1) + enc_text(message_name(m))
            + message_payload(m),
{
}

/// A message: a variant's name as text where it carries nothing, else a map from the
/// name to the value.
pub fn parse_message(data: &[u8], pos: usize) -> (r: Option<(Message, usize)>)
    ensures
        r matches Some((x, end)) ==> message_valid(x@) && starts_with_at(data@, pos as int, enc_message(x@))
            && end == pos + enc_message(x@).len(),
        forall|m: MessageView|
            message_valid(m) && #[trigger] starts_with_at(data@, pos as int, enc_message(m)) ==> (r matches Some((x, end)) && x@ == m && end == pos + enc_message(m).len()),
{
    let unit = field_token("DiscoverNodes");
    let mut t1: Vec<u8> = Vec::new();
    push_map_head(&mut t1, 1);
    proof {
        assert forall|m: MessageView| #[trigger] starts_with_at(data@, pos as int, enc_message(m)) implies (m is DiscoverNodes <==> starts_with_at(data@, pos as int, unit@)) && (m !is DiscoverNodes ==> starts_with_at(data@, pos as int, t1@) && starts_with_at(data@, pos + t1@.len(), enc_text(message_name(m))) && starts_with_at(data@, pos + t1@.len() + enc_text(message_name(m)).len(), message_payload(m))) by {
            lemma_message_enc(m);
            if m !is DiscoverNodes {
                lemma_starts_concat(data@, pos as int, t1@ + enc_text(message_name(m)), message_payload(m));
                lemma_starts_concat(data@, pos as int, t1@, enc_text(message_name(m)));
                lemma_head_parts(5, 1);
                lemma_head_parts(3, ascii("DiscoverNodes").len() as u64);
                if starts_with_at(data@, pos as int, unit@) {
                    assert(unit@[0] == data@[pos as int]);
                    assert(t1@[0] == data@[pos as int]);
                }
            }
        }
    }
    if expect(data, pos, unit.as_slice()) {
        let x = Message::DiscoverNodes;
        return Some((x, pos + unit.len()));
    }
    if !expect(data, pos, t1.as_slice()) {
        return None;
    }
    let p1 = pos + t1.len();
    let (name, p2) = match parse_text(data, p1) {
        Some(x) => x,
        None => {
            return None;
        },
    };
    let (x, end) = match parse_payload(name.as_slice(), data, p2) {
        Some(x) => x,
        None => {
            return None;
        },
    };
    proof {
        lemma_message_enc(x@);
        lemma_starts_concat(data@, pos as int, t1@ + enc_text(name@), message_payload(x@));
        lemma_starts_concat(data@, pos as int, t1@, enc_text(name@));
    }
    Some((x, end))
}

/// The length a frame's first 8 bytes give.
pub open spec fn frame_len(data: Seq<u8>) -> nat {
    be_value(data.subrange(0, 8))
}

impl Message {
    /// Reads one message from a frame: 8 big-endian bytes of length, then that many bytes
    /// that start with the message's encoding.
    pub fn receive(data: &[u8]) -> (r: Result<Message, crate::error::BtcError>)
        ensures
            r matches Ok(x) ==> message_valid(x@) && data@.len() >= 8 && 8 + frame_len(data@) <= data@.len()
                && starts_with_at(data@.subrange(8, 8 + frame_len(data@) as int), 0, enc_message(x@)),
            r matches Err(e) ==> e is Serialization,
            forall|m: MessageView|
                message_valid(m) && #[trigger] starts_with_at(data@, 0, frame(enc_message(m))) ==> (r matches Ok(x) && x@ == m),
    {
        proof {
            assert forall|m: MessageView| message_valid(m) && #[trigger] starts_with_at(data@, 0, frame(enc_message(m))) implies data@.len() >= 8 && frame_len(data@) == enc_message(m).len() && 8 + enc_message(m).len() <= data@.len() && starts_with_at(data@.subrange(8, 8 + frame_len(data@) as int), 0, enc_message(m)) by {
                let e = enc_message(m);
                assert(data@.len() == data.len());
                lemma_pow256_monotone_8(e.len());
                lemma_be_value_of_bytes(e.len(), 8);
                lemma_starts_concat(data@, 0, be_bytes(e.len(), 8), e);
                assert(data@.subrange(0, 8) == be_bytes(e.len(), 8));
                assert(data@.subrange(8, 8 + e.len() as int).subrange(0, e.len() as int) =~= data@.subrange(8, 8 + e.len() as int));
            }
        }
        if data.len() < 8 {
            return Err(crate::error::BtcError::Serialization);
        }
        let len = read_be(data, 0, 8);
        if len > (data.len() - 8) as u64 {
            return Err(crate::error::BtcError::Serialization);
        }
        let payload = copy_out(data, 8, len as usize);
        match parse_message(payload.as_slice(), 0) {
            Some((x, _)) => Ok(x),
            None => Err(crate::error::BtcError::Serialization),
        }
    }
}

} // verus!

