use crate::cbor::{
    array_head, ascii, enc_bytes, enc_field, enc_text, enc_uint, flatten, map_head, push_array_head,
    push_bytes, push_field_name, push_map_head, push_uint, starts_with_at, Encodable,
};
use crate::crypto::{
    ecdsa_signature, ecdsa_verifies, parse_public_key, parse_signature, public_key_valid,
    secret_to_public, signature_well_formed, PrivateKey, PublicKey, Signature,
};
use crate::decode::{
    expect, lemma_flatten_len_at_least, lemma_list_extend, lemma_list_item, lemma_starts4,
    lemma_starts6, lemma_starts_concat, parse_byte_array, parse_head, parse_uint,
};
use crate::sha256::parse_hash;
use crate::error::BtcError;
use crate::sha256::{digest_of, enc_hash};
use vstd::prelude::*;

verus! {

/// Calls `Uuid::new_v4()` and returns its 16 bytes; trusted only to carry the
/// version-4 and variant bits, which uuid documents.
#[verifier::external_body]
pub(crate) fn new_unique_id() -> (r: [u8; 16])
    ensures
        r[6] / 16 == 4,
        r[8] / 64 == 2,
{
    *uuid::Uuid::new_v4().as_bytes()
}

/// Spends an earlier output by signing that output's hash.
#[derive(Clone, Copy, Debug)]
pub struct TransactionInput {
    pub prev_transaction_output_hash: crate::sha256::Hash,
    pub signature: Signature,
}

/// An amount of satoshis paid to a key; `unique_id` makes equal payments hash apart.
#[derive(Clone, Copy, Debug)]
pub struct TransactionOutput {
    pub value: u64,
    pub unique_id: [u8; 16],
    pub pubkey: PublicKey,
}

#[derive(Debug)]
pub struct Transaction {
    pub inputs: Vec<TransactionInput>,
    pub outputs: Vec<TransactionOutput>,
}

pub struct TransactionView {
    pub inputs: Seq<TransactionInput>,
    pub outputs: Seq<TransactionOutput>,
}

impl View for Transaction {
    type V = TransactionView;

    open spec fn view(&self) -> TransactionView {
        TransactionView { inputs: self.inputs@, outputs: self.outputs@ }
    }
}

/// The views of a sequence of transactions.
pub open spec fn tx_views(txs: Seq<Transaction>) -> Seq<TransactionView> {
    txs.map_values(|t: Transaction| t@)
}

impl Clone for Transaction {
    fn clone(&self) -> (r: Transaction)
        ensures
            r@ == self@,
    {
        let inputs = self.inputs.clone();
        let outputs = self.outputs.clone();
        assert(inputs@ =~= self.inputs@);
        assert(outputs@ =~= self.outputs@);
        Transaction { inputs, outputs }
    }
}

/// The sum of the outputs' values.
pub open spec fn outputs_total(outputs: Seq<TransactionOutput>) -> int
    decreases outputs.len(),
{
    if outputs.len() == 0 {
        0
    } else {
        outputs_total(outputs.drop_last()) + outputs.last().value
    }
}

pub proof fn lemma_outputs_total_take(outputs: Seq<TransactionOutput>, i: int)
    requires
        0 <= i < outputs.len(),
    ensures
        outputs_total(outputs.take(i + 1)) == outputs_total(outputs.take(i)) + outputs[i].value,
{
    assert(outputs.take(i + 1).drop_last() =~= outputs.take(i));
}

pub proof fn lemma_outputs_total_monotone(outputs: Seq<TransactionOutput>, i: int)
    requires
        0 <= i <= outputs.len(),
    ensures
        0 <= outputs_total(outputs.take(i)) <= outputs_total(outputs),
    decreases outputs.len(),
{
    if outputs.len() > 0 {
        if i == outputs.len() {
            assert(outputs.take(i) =~= outputs);
            lemma_outputs_total_monotone(outputs.drop_last(), i - 1);
            assert(outputs.drop_last().take(i - 1) =~= outputs.take(i - 1));
        } else {
            lemma_outputs_total_monotone(outputs.drop_last(), i);
            assert(outputs.drop_last().take(i) =~= outputs.take(i));
        }
    } else {
        assert(outputs.take(i) =~= outputs);
    }
}

pub open spec fn enc_output(o: TransactionOutput) -> Seq<u8> {
    map_head(3) + enc_field(ascii("value"), enc_uint(o.value)) + enc_field(
        ascii("unique_id"),
        enc_bytes(o.unique_id@),
    ) + enc_field(ascii("pubkey"), enc_bytes(o.pubkey.bytes()@))
}

pub open spec fn enc_input(i: TransactionInput) -> Seq<u8> {
    map_head(2) + enc_field(
        ascii("prev_transaction_output_hash"),
        enc_hash(i.prev_transaction_output_hash),
    ) + enc_field(ascii("signature"), enc_bytes(i.signature.0@))
}

pub open spec fn enc_inputs(s: Seq<TransactionInput>) -> Seq<u8> {
    array_head(s.len()) + flatten(s.map_values(|i: TransactionInput| enc_input(i)))
}

pub open spec fn enc_outputs(s: Seq<TransactionOutput>) -> Seq<u8> {
    array_head(s.len()) + flatten(s.map_values(|o: TransactionOutput| enc_output(o)))
}

pub open spec fn enc_transaction(t: TransactionView) -> Seq<u8> {
    map_head(2) + enc_field(ascii("inputs"), enc_inputs(t.inputs)) + enc_field(
        ascii("outputs"),
        enc_outputs(t.outputs),
    )
}

/// The hash of an output: the key under which it is spent.
pub open spec fn output_hash(o: TransactionOutput) -> crate::sha256::Hash {
    digest_of(enc_output(o))
}

pub open spec fn transaction_hash(t: TransactionView) -> crate::sha256::Hash {
    digest_of(enc_transaction(t))
}

pub proof fn lemma_flatten_map_take<A>(s: Seq<A>, f: spec_fn(A) -> Seq<u8>, i: int)
    requires
        0 <= i < s.len(),
    ensures
        flatten(s.take(i + 1).map_values(f)) == flatten(s.take(i).map_values(f)) + f(s[i]),
{
    assert(s.take(i + 1).map_values(f).drop_last() =~= s.take(i).map_values(f));
}

impl Encodable for TransactionOutput {
    open spec fn spec_cbor(&self) -> Seq<u8> {
        enc_output(*self)
    }

    fn encode(&self, out: &mut Vec<u8>) {
        push_map_head(out, 3);
        push_field_name(out, "value");
        push_uint(out, self.value);
        push_field_name(out, "unique_id");
        push_bytes(out, &self.unique_id);
        push_field_name(out, "pubkey");
        push_bytes(out, self.pubkey.as_array());
        assert(final(out)@ =~= old(out)@ + enc_output(*self));
    }
}

impl Encodable for TransactionInput {
    open spec fn spec_cbor(&self) -> Seq<u8> {
        enc_input(*self)
    }

    fn encode(&self, out: &mut Vec<u8>) {
        push_map_head(out, 2);
        push_field_name(out, "prev_transaction_output_hash");
        self.prev_transaction_output_hash.encode(out);
        push_field_name(out, "signature");
        push_bytes(out, &self.signature.0);
        assert(final(out)@ =~= old(out)@ + enc_input(*self));
    }
}

pub fn encode_inputs(s: &Vec<TransactionInput>, out: &mut Vec<u8>)
    ensures
        final(out)@ == old(out)@ + enc_inputs(s@),
{
    push_array_head(out, s.len());
    let ghost start = out@;
    let ghost f = |i: TransactionInput| enc_input(i);
    let mut i: usize = 0;
    while i < s.len()
        invariant
            i <= s.len(),
            f == (|i: TransactionInput| enc_input(i)),
            out@ == start + flatten(s@.take(i as int).map_values(f)),
        decreases s.len() - i,
    {
        proof {
            lemma_flatten_map_take(s@, f, i as int);
        }
        let ghost before = out@;
        s[i].encode(out);
        proof {
            assert(f(s@[i as int]) == s@[i as int].spec_cbor());
            assert(out@ =~= start + flatten(s@.take(i + 1).map_values(f)));
        }
        i = i + 1;
    }
    assert(s@.take(s.len() as int) =~= s@);
    assert(final(out)@ =~= old(out)@ + enc_inputs(s@));
}

pub fn encode_outputs(s: &Vec<TransactionOutput>, out: &mut Vec<u8>)
    ensures
        final(out)@ == old(out)@ + enc_outputs(s@),
{
    push_array_head(out, s.len());
    let ghost start = out@;
    let ghost f = |o: TransactionOutput| enc_output(o);
    let mut i: usize = 0;
    while i < s.len()
        invariant
            i <= s.len(),
            f == (|o: TransactionOutput| enc_output(o)),
            out@ == start + flatten(s@.take(i as int).map_values(f)),
        decreases s.len() - i,
    {
        proof {
            lemma_flatten_map_take(s@, f, i as int);
        }
        let ghost before = out@;
        s[i].encode(out);
        proof {
            assert(f(s@[i as int]) == s@[i as int].spec_cbor());
            assert(out@ =~= start + flatten(s@.take(i + 1).map_values(f)));
        }
        i = i + 1;
    }
    assert(s@.take(s.len() as int) =~= s@);
    assert(final(out)@ =~= old(out)@ + enc_outputs(s@));
}

impl Encodable for Transaction {
    open spec fn spec_cbor(&self) -> Seq<u8> {
        enc_transaction(self@)
    }

    fn encode(&self, out: &mut Vec<u8>) {
        push_map_head(out, 2);
        push_field_name(out, "inputs");
        encode_inputs(&self.inputs, out);
        push_field_name(out, "outputs");
        encode_outputs(&self.outputs, out);
        assert(final(out)@ =~= old(out)@ + enc_transaction(self@));
    }
}

impl TransactionOutput {
    /// An output of `value` to `pubkey` with a fresh random (version 4) id.
    pub fn new(value: u64, pubkey: PublicKey) -> (r: TransactionOutput)
        ensures
            r.value == value,
            r.pubkey == pubkey,
            r.unique_id[6] / 16 == 4,
            r.unique_id[8] / 64 == 2,
    {
        TransactionOutput { value, unique_id: new_unique_id(), pubkey }
    }

    pub fn hash(&self) -> (r: crate::sha256::Hash)
        ensures
            r == output_hash(*self),
    {
        crate::sha256::Hash::hash(self)
    }
}

impl TransactionInput {
    /// An input spending `prev_output`, signed with `private_key`.
    pub fn signed(prev_output: &TransactionOutput, private_key: &PrivateKey) -> (r: TransactionInput)
        ensures
            r.prev_transaction_output_hash == output_hash(*prev_output),
            r.signature.0 == ecdsa_signature(
                private_key.secret()@,
                r.prev_transaction_output_hash.0@,
            ),
            ecdsa_verifies(
                secret_to_public(private_key.secret()@)@,
                r.prev_transaction_output_hash.0@,
                r.signature.0@,
            ),
    {
        let prev_hash = prev_output.hash();
        TransactionInput {
            prev_transaction_output_hash: prev_hash,
            signature: private_key.sign_hash(prev_hash),
        }
    }
}

impl Transaction {
    pub fn new(inputs: Vec<TransactionInput>, outputs: Vec<TransactionOutput>) -> (r: Transaction)
        ensures
            r.inputs == inputs,
            r.outputs == outputs,
    {
        Transaction { inputs, outputs }
    }

    /// A transaction with no inputs and the single output `output`.
    pub fn coinbase(output: TransactionOutput) -> (r: Transaction)
        ensures
            r@.inputs == Seq::<TransactionInput>::empty(),
            r@.outputs == seq![output],
    {
        let mut outputs: Vec<TransactionOutput> = Vec::new();
        outputs.push(output);
        Transaction { inputs: Vec::new(), outputs }
    }

    pub fn hash(&self) -> (r: crate::sha256::Hash)
        ensures
            r == transaction_hash(self@),
    {
        crate::sha256::Hash::hash(self)
    }

    /// A transaction must pay at least one output.
    pub fn validate_basic(&self) -> (r: Result<(), BtcError>)
        ensures
            r is Ok <==> self.outputs.len() > 0,
            r matches Err(e) ==> e is EmptyTransaction,
    {
        if self.outputs.len() == 0 {
            return Err(BtcError::EmptyTransaction);
        }
        Ok(())
    }

    /// The sum of the outputs' values, which callers keep within `u64::MAX`.
    pub fn total_output_value(&self) -> (r: u64)
        requires
            outputs_total(self.outputs@) <= u64::MAX,
        ensures
            r == outputs_total(self.outputs@),
    {
        let mut sum: u64 = 0;
        let mut i: usize = 0;
        while i < self.outputs.len()
            invariant
                i <= self.outputs.len(),
                outputs_total(self.outputs@) <= u64::MAX,
                sum == outputs_total(self.outputs@.take(i as int)),
            decreases self.outputs.len() - i,
        {
            proof {
                lemma_outputs_total_take(self.outputs@, i as int);
                lemma_outputs_total_monotone(self.outputs@, i + 1);
            }
            sum = sum + self.outputs[i].value;
            i = i + 1;
        }
        assert(self.outputs@.take(self.outputs.len() as int) =~= self.outputs@);
        sum
    }
}

// ---- reading back ----

/// An output that reads back as itself.
pub open spec fn output_valid(o: TransactionOutput) -> bool {
    public_key_valid(o.pubkey)
}

/// An input that reads back as itself.
pub open spec fn input_valid(i: TransactionInput) -> bool {
    signature_well_formed(i.signature.0@)
}

/// A transaction that reads back as itself: its keys are points, its signatures parse.
pub open spec fn transaction_valid(t: TransactionView) -> bool {
    &&& forall|j: int| 0 <= j < t.inputs.len() ==> input_valid(#[trigger] t.inputs[j])
    &&& forall|j: int| 0 <= j < t.outputs.len() ==> output_valid(#[trigger] t.outputs[j])
}

pub open spec fn output_encs(s: Seq<TransactionOutput>) -> Seq<Seq<u8>> {
    s.map_values(|o: TransactionOutput| enc_output(o))
}

pub open spec fn input_encs(s: Seq<TransactionInput>) -> Seq<Seq<u8>> {
    s.map_values(|i: TransactionInput| enc_input(i))
}

/// The bytes before an output's value.
fn output_token() -> (r: Vec<u8>)
    ensures
        r@ == map_head(3) + enc_text(ascii("value")),
{
    let mut t: Vec<u8> = Vec::new();
    push_map_head(&mut t, 3);
    push_field_name(&mut t, "value");
    t
}

pub(crate) fn field_token(name: &str) -> (r: Vec<u8>)
    ensures
        r@ == enc_text(ascii(name)),
{
    let mut t: Vec<u8> = Vec::new();
    push_field_name(&mut t, name);
    assert(t@ =~= enc_text(ascii(name)));
    t
}

proof fn lemma_output_layout(data: Seq<u8>, pos: int, o: TransactionOutput)
    ensures
        starts_with_at(data, pos, enc_output(o)) <==> {
            let a = map_head(3) + enc_text(ascii("value"));
            let b = enc_uint(o.value);
            let c = enc_text(ascii("unique_id"));
            let d = enc_bytes(o.unique_id@);
            let e = enc_text(ascii("pubkey"));
            let f = enc_bytes(o.pubkey.bytes()@);
            &&& starts_with_at(data, pos, a)
            &&& starts_with_at(data, pos + a.len(), b)
            &&& starts_with_at(data, pos + a.len() + b.len(), c)
            &&& starts_with_at(data, pos + a.len() + b.len() + c.len(), d)
            &&& starts_with_at(data, pos + a.len() + b.len() + c.len() + d.len(), e)
            &&& starts_with_at(data, pos + a.len() + b.len() + c.len() + d.len() + e.len(), f)
        },
        enc_output(o).len() == (map_head(3) + enc_text(ascii("value"))).len() + enc_uint(o.value).len()
            + enc_text(ascii("unique_id")).len() + enc_bytes(o.unique_id@).len() + enc_text(
            ascii("pubkey"),
        ).len() + enc_bytes(o.pubkey.bytes()@).len(),
{
    let a = map_head(3) + enc_text(ascii("value"));
    let b = enc_uint(o.value);
    let c = enc_text(ascii("unique_id"));
    let d = enc_bytes(o.unique_id@);
    let e = enc_text(ascii("pubkey"));
    let f = enc_bytes(o.pubkey.bytes()@);
    assert(enc_output(o) =~= a + b + c + d + e + f);
    lemma_starts6(data, pos, a, b, c, d, e, f);
}

/// An output, where its key is a point.
pub fn parse_output(data: &[u8], pos: usize) -> (r: Option<(TransactionOutput, usize)>)
    ensures
        r matches Some((o, end)) ==> output_valid(o) && starts_with_at(data@, pos as int, enc_output(o))
            && end == pos + enc_output(o).len(),
        forall|o: TransactionOutput|
            output_valid(o) && #[trigger] starts_with_at(data@, pos as int, enc_output(o)) ==> r
                == Some((o, (pos + enc_output(o).len()) as usize)),
{
    let t1 = output_token();
    let t2 = field_token("unique_id");
    let t3 = field_token("pubkey");
    proof {
        assert forall|o: TransactionOutput| #[trigger]
            starts_with_at(data@, pos as int, enc_output(o)) implies starts_with_at(
            data@,
            pos as int,
            t1@,
        ) by {
            lemma_output_layout(data@, pos as int, o);
        }
    }
    if !expect(data, pos, t1.as_slice()) {
        return None;
    }
    let p1 = pos + t1.len();
    let (value, p2) = match parse_uint(data, p1) {
        Some(x) => x,
        None => {
            proof {
                assert forall|o: TransactionOutput| !#[trigger] starts_with_at(data@, pos as int, enc_output(o)) by {
                    lemma_output_layout(data@, pos as int, o);
                }
            }
            return None;
        },
    };
    proof {
        assert forall|o: TransactionOutput| #[trigger] starts_with_at(data@, pos as int, enc_output(o)) implies o.value == value && starts_with_at(data@, p2 as int, t2@) by {
            lemma_output_layout(data@, pos as int, o);
        }
    }
    if !expect(data, p2, t2.as_slice()) {
        return None;
    }
    let p3 = p2 + t2.len();
    let (unique_id, p4) = match parse_byte_array::<16>(data, p3) {
        Some(x) => x,
        None => {
            proof {
                assert forall|o: TransactionOutput| !#[trigger] starts_with_at(data@, pos as int, enc_output(o)) by {
                    lemma_output_layout(data@, pos as int, o);
                }
            }
            return None;
        },
    };
    proof {
        assert forall|o: TransactionOutput| #[trigger] starts_with_at(data@, pos as int, enc_output(o)) implies o.unique_id == unique_id && starts_with_at(data@, p4 as int, t3@) by {
            lemma_output_layout(data@, pos as int, o);
        }
    }
    if !expect(data, p4, t3.as_slice()) {
        return None;
    }
    let p5 = p4 + t3.len();
    let (pubkey, p6) = match parse_public_key(data, p5) {
        Some(x) => x,
        None => {
            proof {
                assert forall|o: TransactionOutput| output_valid(o) implies !#[trigger] starts_with_at(data@, pos as int, enc_output(o)) by {
                    if starts_with_at(data@, pos as int, enc_output(o)) {
                        lemma_output_layout(data@, pos as int, o);
                    }
                }
            }
            return None;
        },
    };
    let o = TransactionOutput { value, unique_id, pubkey };
    proof {
        lemma_output_layout(data@, pos as int, o);
        assert forall|x: TransactionOutput| output_valid(x) && #[trigger] starts_with_at(data@, pos as int, enc_output(x)) implies x == o by {
            lemma_output_layout(data@, pos as int, x);
        }
    }
    Some((o, p6))
}

proof fn lemma_input_layout(data: Seq<u8>, pos: int, i: TransactionInput)
    ensures
        starts_with_at(data, pos, enc_input(i)) <==> {
            let a = map_head(2) + enc_text(ascii("prev_transaction_output_hash"));
            let b = enc_hash(i.prev_transaction_output_hash);
            let c = enc_text(ascii("signature"));
            let d = enc_bytes(i.signature.0@);
            &&& starts_with_at(data, pos, a)
            &&& starts_with_at(data, pos + a.len(), b)
            &&& starts_with_at(data, pos + a.len() + b.len(), c)
            &&& starts_with_at(data, pos + a.len() + b.len() + c.len(), d)
        },
        enc_input(i).len() == (map_head(2) + enc_text(ascii("prev_transaction_output_hash"))).len()
            + enc_hash(i.prev_transaction_output_hash).len() + enc_text(ascii("signature")).len()
            + enc_bytes(i.signature.0@).len(),
{
    let a = map_head(2) + enc_text(ascii("prev_transaction_output_hash"));
    let b = enc_hash(i.prev_transaction_output_hash);
    let c = enc_text(ascii("signature"));
    let d = enc_bytes(i.signature.0@);
    assert(enc_input(i) =~= a + b + c + d);
    lemma_starts4(data, pos, a, b, c, d);
}

/// An input, where its signature parses.
pub fn parse_input(data: &[u8], pos: usize) -> (r: Option<(TransactionInput, usize)>)
    ensures
        r matches Some((i, end)) ==> input_valid(i) && starts_with_at(data@, pos as int, enc_input(i))
            && end == pos + enc_input(i).len(),
        forall|i: TransactionInput|
            input_valid(i) && #[trigger] starts_with_at(data@, pos as int, enc_input(i)) ==> r
                == Some((i, (pos + enc_input(i).len()) as usize)),
{
    let mut t1: Vec<u8> = Vec::new();
    push_map_head(&mut t1, 2);
    push_field_name(&mut t1, "prev_transaction_output_hash");
    let t2 = field_token("signature");
    proof {
        assert forall|i: TransactionInput| #[trigger]
            starts_with_at(data@, pos as int, enc_input(i)) implies starts_with_at(
            data@,
            pos as int,
            t1@,
        ) by {
            lemma_input_layout(data@, pos as int, i);
        }
    }
    if !expect(data, pos, t1.as_slice()) {
        return None;
    }
    let p1 = pos + t1.len();
    let (prev, p2) = match parse_hash(data, p1) {
        Some(x) => x,
        None => {
            proof {
                assert forall|i: TransactionInput| !#[trigger] starts_with_at(data@, pos as int, enc_input(i)) by {
                    lemma_input_layout(data@, pos as int, i);
                }
            }
            return None;
        },
    };
    proof {
        assert forall|i: TransactionInput| #[trigger] starts_with_at(data@, pos as int, enc_input(i)) implies i.prev_transaction_output_hash == prev && starts_with_at(data@, p2 as int, t2@) by {
            lemma_input_layout(data@, pos as int, i);
        }
    }
    if !expect(data, p2, t2.as_slice()) {
        return None;
    }
    let p3 = p2 + t2.len();
    let (signature, p4) = match parse_signature(data, p3) {
        Some(x) => x,
        None => {
            proof {
                assert forall|i: TransactionInput| input_valid(i) implies !#[trigger] starts_with_at(data@, pos as int, enc_input(i)) by {
                    if starts_with_at(data@, pos as int, enc_input(i)) {
                        lemma_input_layout(data@, pos as int, i);
                    }
                }
            }
            return None;
        },
    };
    let i = TransactionInput { prev_transaction_output_hash: prev, signature };
    proof {
        lemma_input_layout(data@, pos as int, i);
        assert forall|x: TransactionInput| input_valid(x) && #[trigger] starts_with_at(data@, pos as int, enc_input(x)) implies x == i by {
            lemma_input_layout(data@, pos as int, x);
        }
    }
    Some((i, p4))
}

/// A list of outputs, where each key is a point.
pub fn parse_outputs(data: &[u8], pos: usize) -> (r: Option<(Vec<TransactionOutput>, usize)>)
    ensures
        r matches Some((v, end)) ==> (forall|j: int| 0 <= j < v@.len() ==> output_valid(#[trigger] v@[j]))
            && starts_with_at(data@, pos as int, enc_outputs(v@)) && end == pos + enc_outputs(v@).len(),
        forall|s: Seq<TransactionOutput>|
            (forall|j: int| 0 <= j < s.len() ==> output_valid(#[trigger] s[j])) && #[trigger] starts_with_at(
                data@,
                pos as int,
                enc_outputs(s),
            ) ==> (r matches Some((v, end)) && v@ == s && end == pos + enc_outputs(s).len()),
{
    let hd = parse_head(data, pos);
    proof {
        assert forall|s: Seq<TransactionOutput>| #[trigger] starts_with_at(data@, pos as int, enc_outputs(s)) implies hd
            == Some((4u8, s.len() as u64, (pos + array_head(s.len()).len()) as usize)) && s.len() == s.len() as u64 by {
            assert(data@.len() == data.len());
            lemma_starts_concat(data@, pos as int, array_head(s.len()), flatten(output_encs(s)));
            assert(s.len() <= flatten(output_encs(s)).len()) by {
                lemma_flatten_len_at_least(output_encs(s));
            }
        }
    }
    let (n, mut p) = match hd {
        Some((major, n, end)) => {
            if major != 4 {
                return None;
            }
            (n, end)
        },
        None => {
            return None;
        },
    };
    let mut v: Vec<TransactionOutput> = Vec::new();
    let mut i: u64 = 0;
    proof {
        assert(output_encs(v@) =~= Seq::<Seq<u8>>::empty());
        assert(array_head(n as nat) + flatten(output_encs(v@)) =~= array_head(n as nat));
    }
    while i < n
        invariant
            i <= n,
            v@.len() == i,
            forall|j: int| 0 <= j < v@.len() ==> output_valid(#[trigger] v@[j]),
            starts_with_at(data@, pos as int, array_head(n as nat) + flatten(output_encs(v@))),
            p == pos + (array_head(n as nat) + flatten(output_encs(v@))).len(),
            forall|s: Seq<TransactionOutput>|
                (forall|j: int| 0 <= j < s.len() ==> output_valid(#[trigger] s[j])) && #[trigger] starts_with_at(
                    data@,
                    pos as int,
                    enc_outputs(s),
                ) ==> s.len() == n && v@ == s.take(i as int),
        decreases n - i,
    {
        let got = parse_output(data, p);
        proof {
            assert forall|s: Seq<TransactionOutput>|
                (forall|j: int| 0 <= j < s.len() ==> output_valid(#[trigger] s[j])) && #[trigger] starts_with_at(
                    data@,
                    pos as int,
                    enc_outputs(s),
                ) implies got == Some((s[i as int], (p + enc_output(s[i as int]).len()) as usize)) by {
                lemma_list_item(data@, pos as int, array_head(n as nat), output_encs(s), i as int);
                assert(output_encs(s).take(i as int) =~= output_encs(v@));
                assert(output_valid(s[i as int]));
            }
        }
        match got {
            Some((o, e)) => {
                proof {
                    lemma_list_extend(data@, pos as int, array_head(n as nat), output_encs(v@), enc_output(o));
                    assert(output_encs(v@.push(o)) =~= output_encs(v@).push(enc_output(o)));
                }
                let ghost before = v@;
                v.push(o);
                p = e;
                proof {
                    assert forall|s: Seq<TransactionOutput>|
                        (forall|j: int| 0 <= j < s.len() ==> output_valid(#[trigger] s[j])) && #[trigger] starts_with_at(
                            data@,
                            pos as int,
                            enc_outputs(s),
                        ) implies v@ == s.take(i + 1) by {
                        assert(before == s.take(i as int));
                        assert(v@ =~= s.take(i + 1));
                    }
                }
            },
            None => {
                return None;
            },
        }
        i = i + 1;
    }
    proof {
        assert forall|s: Seq<TransactionOutput>|
            (forall|j: int| 0 <= j < s.len() ==> output_valid(#[trigger] s[j])) && #[trigger] starts_with_at(
                data@,
                pos as int,
                enc_outputs(s),
            ) implies v@ == s by {
            assert(s.take(n as int) =~= s);
        }
        assert(enc_outputs(v@) =~= array_head(n as nat) + flatten(output_encs(v@)));
    }
    Some((v, p))
}

/// A list of inputs, where each signature parses.
pub fn parse_inputs(data: &[u8], pos: usize) -> (r: Option<(Vec<TransactionInput>, usize)>)
    ensures
        r matches Some((v, end)) ==> (forall|j: int| 0 <= j < v@.len() ==> input_valid(#[trigger] v@[j]))
            && starts_with_at(data@, pos as int, enc_inputs(v@)) && end == pos + enc_inputs(v@).len(),
        forall|s: Seq<TransactionInput>|
            (forall|j: int| 0 <= j < s.len() ==> input_valid(#[trigger] s[j])) && #[trigger] starts_with_at(
                data@,
                pos as int,
                enc_inputs(s),
            ) ==> (r matches Some((v, end)) && v@ == s && end == pos + enc_inputs(s).len()),
{
    let hd = parse_head(data, pos);
    proof {
        assert forall|s: Seq<TransactionInput>| #[trigger] starts_with_at(data@, pos as int, enc_inputs(s)) implies hd
            == Some((4u8, s.len() as u64, (pos + array_head(s.len()).len()) as usize)) && s.len() == s.len() as u64 by {
            assert(data@.len() == data.len());
            lemma_starts_concat(data@, pos as int, array_head(s.len()), flatten(input_encs(s)));
            assert(s.len() <= flatten(input_encs(s)).len()) by {
                lemma_flatten_len_at_least(input_encs(s));
            }
        }
    }
    let (n, mut p) = match hd {
        Some((major, n, end)) => {
            if major != 4 {
                return None;
            }
            (n, end)
        },
        None => {
            return None;
        },
    };
    let mut v: Vec<TransactionInput> = Vec::new();
    let mut i: u64 = 0;
    proof {
        assert(input_encs(v@) =~= Seq::<Seq<u8>>::empty());
        assert(array_head(n as nat) + flatten(input_encs(v@)) =~= array_head(n as nat));
    }
    while i < n
        invariant
            i <= n,
            v@.len() == i,
            forall|j: int| 0 <= j < v@.len() ==> input_valid(#[trigger] v@[j]),
            starts_with_at(data@, pos as int, array_head(n as nat) + flatten(input_encs(v@))),
            p == pos + (array_head(n as nat) + flatten(input_encs(v@))).len(),
            forall|s: Seq<TransactionInput>|
                (forall|j: int| 0 <= j < s.len() ==> input_valid(#[trigger] s[j])) && #[trigger] starts_with_at(
                    data@,
                    pos as int,
                    enc_inputs(s),
                ) ==> s.len() == n && v@ == s.take(i as int),
        decreases n - i,
    {
        let got = parse_input(data, p);
        proof {
            assert forall|s: Seq<TransactionInput>|
                (forall|j: int| 0 <= j < s.len() ==> input_valid(#[trigger] s[j])) && #[trigger] starts_with_at(
                    data@,
                    pos as int,
                    enc_inputs(s),
                ) implies got == Some((s[i as int], (p + enc_input(s[i as int]).len()) as usize)) by {
                lemma_list_item(data@, pos as int, array_head(n as nat), input_encs(s), i as int);
                assert(input_encs(s).take(i as int) =~= input_encs(v@));
                assert(input_valid(s[i as int]));
            }
        }
        match got {
            Some((o, e)) => {
                proof {
                    lemma_list_extend(data@, pos as int, array_head(n as nat), input_encs(v@), enc_input(o));
                    assert(input_encs(v@.push(o)) =~= input_encs(v@).push(enc_input(o)));
                }
                let ghost before = v@;
                v.push(o);
                p = e;
                proof {
                    assert forall|s: Seq<TransactionInput>|
                        (forall|j: int| 0 <= j < s.len() ==> input_valid(#[trigger] s[j])) && #[trigger] starts_with_at(
                            data@,
                            pos as int,
                            enc_inputs(s),
                        ) implies v@ == s.take(i + 1) by {
                        assert(before == s.take(i as int));
                        assert(v@ =~= s.take(i + 1));
                    }
                }
            },
            None => {
                return None;
            },
        }
        i = i + 1;
    }
    proof {
        assert forall|s: Seq<TransactionInput>|
            (forall|j: int| 0 <= j < s.len() ==> input_valid(#[trigger] s[j])) && #[trigger] starts_with_at(
                data@,
                pos as int,
                enc_inputs(s),
            ) implies v@ == s by {
            assert(s.take(n as int) =~= s);
        }
        assert(enc_inputs(v@) =~= array_head(n as nat) + flatten(input_encs(v@)));
    }
    Some((v, p))
}

proof fn lemma_transaction_layout(data: Seq<u8>, pos: int, t: TransactionView)
    ensures
        starts_with_at(data, pos, enc_transaction(t)) <==> {
            let a = map_head(2) + enc_text(ascii("inputs"));
            let b = enc_inputs(t.inputs);
            let c = enc_text(ascii("outputs"));
            let d = enc_outputs(t.outputs);
            &&& starts_with_at(data, pos, a)
            &&& starts_with_at(data, pos + a.len(), b)
            &&& starts_with_at(data, pos + a.len() + b.len(), c)
            &&& starts_with_at(data, pos + a.len() + b.len() + c.len(), d)
        },
        enc_transaction(t).len() == (map_head(2) + enc_text(ascii("inputs"))).len() + enc_inputs(
            t.inputs,
        ).len() + enc_text(ascii("outputs")).len() + enc_outputs(t.outputs).len(),
{
    let a = map_head(2) + enc_text(ascii("inputs"));
    let b = enc_inputs(t.inputs);
    let c = enc_text(ascii("outputs"));
    let d = enc_outputs(t.outputs);
    assert(enc_transaction(t) =~= a + b + c + d);
    lemma_starts4(data, pos, a, b, c, d);
}

/// A transaction, where its keys are points and its signatures parse.
pub fn parse_transaction(data: &[u8], pos: usize) -> (r: Option<(Transaction, usize)>)
    ensures
        r matches Some((t, end)) ==> transaction_valid(t@) && starts_with_at(
            data@,
            pos as int,
            enc_transaction(t@),
        ) && end == pos + enc_transaction(t@).len(),
        forall|t: TransactionView|
            transaction_valid(t) && #[trigger] starts_with_at(data@, pos as int, enc_transaction(t)) ==> (r matches Some((u, end)) && u@ == t && end == pos + enc_transaction(t).len()),
{
    let mut t1: Vec<u8> = Vec::new();
    push_map_head(&mut t1, 2);
    push_field_name(&mut t1, "inputs");
    let t2 = field_token("outputs");
    proof {
        assert forall|t: TransactionView| #[trigger]
            starts_with_at(data@, pos as int, enc_transaction(t)) implies starts_with_at(
            data@,
            pos as int,
            t1@,
        ) by {
            lemma_transaction_layout(data@, pos as int, t);
        }
    }
    if !expect(data, pos, t1.as_slice()) {
        return None;
    }
    let p1 = pos + t1.len();
    let (inputs, p2) = match parse_inputs(data, p1) {
        Some(x) => x,
        None => {
            proof {
                assert forall|t: TransactionView| transaction_valid(t) implies !#[trigger] starts_with_at(data@, pos as int, enc_transaction(t)) by {
                    if starts_with_at(data@, pos as int, enc_transaction(t)) {
                        lemma_transaction_layout(data@, pos as int, t);
                    }
                }
            }
            return None;
        },
    };
    proof {
        assert forall|t: TransactionView| transaction_valid(t) && #[trigger] starts_with_at(data@, pos as int, enc_transaction(t)) implies t.inputs == inputs@ && starts_with_at(data@, p2 as int, t2@) by {
            lemma_transaction_layout(data@, pos as int, t);
        }
    }
    if !expect(data, p2, t2.as_slice()) {
        return None;
    }
    let p3 = p2 + t2.len();
    let (outputs, p4) = match parse_outputs(data, p3) {
        Some(x) => x,
        None => {
            proof {
                assert forall|t: TransactionView| transaction_valid(t) implies !#[trigger] starts_with_at(data@, pos as int, enc_transaction(t)) by {
                    if starts_with_at(data@, pos as int, enc_transaction(t)) {
                        lemma_transaction_layout(data@, pos as int, t);
                    }
                }
            }
            return None;
        },
    };
    let tx = Transaction { inputs, outputs };
    proof {
        lemma_transaction_layout(data@, pos as int, tx@);
        assert forall|t: TransactionView| transaction_valid(t) && #[trigger] starts_with_at(data@, pos as int, enc_transaction(t)) implies tx@ == t by {
            lemma_transaction_layout(data@, pos as int, t);
        }
    }
    Some((tx, p4))
}

} // verus!
