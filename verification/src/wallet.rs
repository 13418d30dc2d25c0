//! A wallet's logic: the outputs it can spend, its balance, and the transactions it builds.
use crate::crypto::{ecdsa_signature, ecdsa_verifies, secret_to_public, PrivateKey, PublicKey};
use crate::types::index::{insert_entry, HashIndex};
use crate::types::transaction::{
    output_hash, outputs_total, Transaction, TransactionInput, TransactionOutput,
};
use crate::decode::bytes_equal;
use vstd::prelude::*;
use vstd::utf8::{encode_utf8, encode_utf8_decode_utf8};

verus! {

/// A key pair the wallet spends with.
#[derive(Clone, Copy)]
pub struct LoadedKey {
    pub public: PublicKey,
    pub private: PrivateKey,
}

/// How the wallet's fee is given: a fixed number of satoshis, or a percentage of the amount.
#[derive(Clone, Copy, Debug, PartialEq, Eq, Structural)]
pub enum FeeType {
    Fixed,
    Percent,
}

/// Why the wallet cannot build a transaction.
#[derive(Debug, PartialEq, Eq, Structural)]
pub enum WalletError {
    /// The spendable outputs do not cover the amount and the fee.
    InsufficientBalance,
    /// A selected output is paid to a key the wallet has no private key for.
    MissingPrivateKey,
}

pub type WalletUtxos = Seq<(crate::sha256::Hash, TransactionOutput)>;

/// The sum of the values of the outputs.
pub open spec fn values_total(s: WalletUtxos) -> int
    decreases s.len(),
{
    if s.len() == 0 {
        0
    } else {
        values_total(s.drop_last()) + s.last().1.value
    }
}

/// How many outputs, in order from the `k`-th, the wallet takes before their values
/// (from the first) reach `required`; all of them if they never do.
pub open spec fn selection_len(s: WalletUtxos, required: int, k: nat) -> nat
    decreases s.len() - k,
{
    if k >= s.len() {
        s.len()
    } else if values_total(s.take(k + 1int)) >= required {
        k + 1
    } else {
        selection_len(s, required, k + 1)
    }
}

/// The outputs selected to pay `required`.
pub open spec fn selected_outputs(s: WalletUtxos, required: int) -> Seq<TransactionOutput> {
    s.take(selection_len(s, required, 0) as int).map_values(|e: (crate::sha256::Hash, TransactionOutput)| e.1)
}

/// The first key whose public half is `pk`, or -1.
#[verifier::opaque]
pub open spec fn key_for(keys: Seq<LoadedKey>, pk: PublicKey) -> int {
    if exists|i: int| 0 <= i < keys.len() && #[trigger] keys[i].public == pk {
        choose|i: int|
            0 <= i < keys.len() && #[trigger] keys[i].public == pk && forall|j: int|
                0 <= j < i ==> keys[j].public != pk
    } else {
        -1
    }
}

/// The outputs inserted by hash, in order.
pub open spec fn index_outputs(index: WalletUtxos, outputs: Seq<TransactionOutput>) -> WalletUtxos
    decreases outputs.len(),
{
    if outputs.len() == 0 {
        index
    } else {
        let o = outputs.last();
        insert_entry(index_outputs(index, outputs.drop_last()), output_hash(o), o)
    }
}

/// The unmarked outputs of a node's answer inserted by hash, in order.
pub open spec fn index_unmarked(index: WalletUtxos, answer: Seq<(TransactionOutput, bool)>) -> WalletUtxos
    decreases answer.len(),
{
    if answer.len() == 0 {
        index
    } else {
        let rest = index_unmarked(index, answer.drop_last());
        let (o, marked) = answer.last();
        if marked {
            rest
        } else {
            insert_entry(rest, output_hash(o), o)
        }
    }
}

proof fn lemma_values_total_take(s: WalletUtxos, i: int)
    requires
        0 <= i < s.len(),
    ensures
        values_total(s.take(i + 1)) == values_total(s.take(i)) + s[i].1.value,
{
    assert(s.take(i + 1).drop_last() =~= s.take(i));
}

proof fn lemma_values_total_monotone(s: WalletUtxos, i: int, j: int)
    requires
        0 <= i <= j <= s.len(),
    ensures
        0 <= values_total(s.take(i)) <= values_total(s.take(j)),
    decreases j - i,
{
    if i < j {
        lemma_values_total_monotone(s, i, j - 1);
        lemma_values_total_take(s, j - 1);
    } else {
        lemma_values_total_nonneg(s.take(i));
    }
}

proof fn lemma_values_total_nonneg(s: WalletUtxos)
    ensures
        values_total(s) >= 0,
    decreases s.len(),
{
    if s.len() > 0 {
        lemma_values_total_nonneg(s.drop_last());
    }
}

proof fn lemma_selection_le(s: WalletUtxos, required: int, k: nat)
    requires
        k <= s.len(),
    ensures
        k <= selection_len(s, required, k) <= s.len(),
    decreases s.len() - k,
{
    if k < s.len() {
        if values_total(s.take(k + 1int)) < required {
            lemma_selection_le(s, required, k + 1);
        }
    }
}

proof fn lemma_outputs_total_map(s: WalletUtxos)
    ensures
        outputs_total(s.map_values(|e: (crate::sha256::Hash, TransactionOutput)| e.1)) == values_total(s),
    decreases s.len(),
{
    if s.len() > 0 {
        lemma_outputs_total_map(s.drop_last());
        assert(s.map_values(|e: (crate::sha256::Hash, TransactionOutput)| e.1).drop_last() =~= s.drop_last().map_values(
            |e: (crate::sha256::Hash, TransactionOutput)| e.1,
        ));
    }
}

/// An index of `outputs` by their hashes.
pub fn outputs_index(outputs: Vec<TransactionOutput>) -> (r: HashIndex<TransactionOutput>)
    ensures
        r@ == index_outputs(Seq::empty(), outputs@),
{
    let mut index: HashIndex<TransactionOutput> = HashIndex::new();
    let mut i: usize = 0;
    assert(outputs@.take(0) =~= Seq::<TransactionOutput>::empty());
    while i < outputs.len()
        invariant
            i <= outputs.len(),
            index@ == index_outputs(Seq::empty(), outputs@.take(i as int)),
        decreases outputs.len() - i,
    {
        proof {
            assert(outputs@.take(i + 1).drop_last() =~= outputs@.take(i as int));
        }
        let o = outputs[i];
        index.insert(o.hash(), o);
        i = i + 1;
    }
    assert(outputs@.take(outputs.len() as int) =~= outputs@);
    index
}

/// Adds the outputs of a node's answer that are not marked, by their hashes.
pub fn add_unmarked(index: &mut HashIndex<TransactionOutput>, answer: &Vec<(TransactionOutput, bool)>)
    ensures
        final(index)@ == index_unmarked(old(index)@, answer@),
{
    let ghost start = index@;
    let mut i: usize = 0;
    assert(answer@.take(0) =~= Seq::<(TransactionOutput, bool)>::empty());
    while i < answer.len()
        invariant
            i <= answer.len(),
            start == old(index)@,
            index@ == index_unmarked(start, answer@.take(i as int)),
        decreases answer.len() - i,
    {
        proof {
            assert(answer@.take(i + 1).drop_last() =~= answer@.take(i as int));
        }
        let (o, marked) = answer[i];
        if !marked {
            index.insert(o.hash(), o);
        }
        i = i + 1;
    }
    assert(answer@.take(answer.len() as int) =~= answer@);
}

/// The sum of the values the wallet can spend, which callers keep within `u64::MAX`.
pub fn get_balance(utxos: &HashIndex<TransactionOutput>) -> (r: u64)
    requires
        values_total(utxos@) <= u64::MAX,
    ensures
        r == values_total(utxos@),
{
    let n = utxos.len();
    let mut sum: u64 = 0;
    let mut i: usize = 0;
    while i < n
        invariant
            n == utxos@.len(),
            i <= n,
            values_total(utxos@) <= u64::MAX,
            sum == values_total(utxos@.take(i as int)),
        decreases n - i,
    {
        proof {
            lemma_values_total_take(utxos@, i as int);
            lemma_values_total_monotone(utxos@, i + 1, n as int);
            assert(utxos@.take(n as int) =~= utxos@);
        }
        sum = sum + utxos.entry(i).1.value;
        i = i + 1;
    }
    assert(utxos@.take(n as int) =~= utxos@);
    sum
}

/// The first key whose public half is `pk`.
fn find_key(keys: &Vec<LoadedKey>, pk: &PublicKey) -> (r: Option<usize>)
    ensures
        match r {
            Some(i) => i == key_for(keys@, *pk) && 0 <= i < keys.len(),
            None => key_for(keys@, *pk) == -1,
        },
{
    proof {
        reveal(key_for);
    }
    let mut i: usize = 0;
    while i < keys.len()
        invariant
            i <= keys.len(),
            forall|j: int| 0 <= j < i ==> keys@[j].public != *pk,
        decreases keys.len() - i,
    {
        if keys[i].public == *pk {
            proof {
                reveal(key_for);
                assert(keys@[i as int].public == *pk);
                let c = choose|c: int|
                    0 <= c < keys.len() && #[trigger] keys@[c].public == *pk && forall|j: int|
                        0 <= j < c ==> keys@[j].public != *pk;
                assert(c == i) by {
                    if c < i {
                    } else if c > i {
                        assert(keys@[i as int].public == *pk);
                    }
                }
            }
            return Some(i);
        }
        i = i + 1;
    }
    None
}

/// What signing the selected outputs gives: an input per output, in order, each
/// spending it and signed by the first key that owns it.
pub open spec fn signed_inputs(
    keys: Seq<LoadedKey>,
    selected: Seq<TransactionOutput>,
    inputs: Seq<TransactionInput>,
) -> bool {
    &&& inputs.len() == selected.len()
    &&& forall|j: int| #![trigger inputs[j]] #![trigger selected[j]]
        0 <= j < selected.len() ==> {
            let k = key_for(keys, selected[j].pubkey);
            &&& 0 <= k < keys.len()
            &&& inputs[j].prev_transaction_output_hash == output_hash(selected[j])
            &&& inputs[j].signature.0 == ecdsa_signature(
                keys[k].private.secret()@,
                output_hash(selected[j]).0@,
            )
            &&& ecdsa_verifies(
                secret_to_public(keys[k].private.secret()@)@,
                output_hash(selected[j]).0@,
                inputs[j].signature.0@,
            )
        }
}

/// Whether some selected output is paid to a key the wallet does not hold.
pub open spec fn some_key_missing(keys: Seq<LoadedKey>, selected: Seq<TransactionOutput>) -> bool {
    exists|j: int| 0 <= j < selected.len() && key_for(keys, #[trigger] selected[j].pubkey) == -1
}

/// The spendable outputs taken in order until their values reach `required`, and their total.
fn select_outputs(utxos: &HashIndex<TransactionOutput>, required: u64) -> (r: (
    Vec<TransactionOutput>,
    u64,
))
    requires
        outputs_total(selected_outputs(utxos@, required as int)) <= u64::MAX,
    ensures
        r.0@ == selected_outputs(utxos@, required as int),
        r.1 == outputs_total(r.0@),
{
    let ghost s = utxos@;
    let ghost required_int = required as int;
    let n = utxos.len();
    let mut selected: Vec<TransactionOutput> = Vec::new();
    let mut selected_total: u64 = 0;
    let mut i: usize = 0;
    let mut done = false;
    proof {
        lemma_selection_le(s, required_int, 0);
        lemma_outputs_total_map(s.take(selection_len(s, required_int, 0) as int));
        assert(s.take(0) =~= WalletUtxos::empty());
    }
    while i < n && !done
        invariant
            n == s.len(),
            s == utxos@,
            i <= n,
            required == required_int,
            values_total(s.take(selection_len(s, required_int, 0) as int)) <= u64::MAX,
            selection_len(s, required_int, 0) <= n,
            selected@ =~= s.take(i as int).map_values(|e: (crate::sha256::Hash, TransactionOutput)| e.1),
            selected_total == values_total(s.take(i as int)),
            done ==> selection_len(s, required_int, 0) == i,
            !done ==> selection_len(s, required_int, 0) == selection_len(s, required_int, i as nat),
            !done ==> i <= selection_len(s, required_int, 0),
        decreases n - i,
    {
        proof {
            lemma_values_total_take(s, i as int);
            lemma_selection_le(s, required_int, (i + 1) as nat);
            lemma_values_total_monotone(s, i + 1, selection_len(s, required_int, 0) as int);
        }
        let entry = utxos.entry(i);
        selected_total = selected_total + entry.1.value;
        selected.push(entry.1);
        i = i + 1;
        if selected_total >= required {
            done = true;
        }
    }
    proof {
        lemma_outputs_total_map(s.take(i as int));
        assert(selected_outputs(utxos@, required_int) =~= selected@);
    }
    (selected, selected_total)
}

/// Signs an input for each selected output with the first key that owns it.
fn sign_inputs(keys: &Vec<LoadedKey>, selected: &Vec<TransactionOutput>) -> (r: Option<
    Vec<TransactionInput>,
>)
    ensures
        r is None <==> some_key_missing(keys@, selected@),
        r matches Some(inputs) ==> signed_inputs(keys@, selected@, inputs@),
{
    let mut inputs: Vec<TransactionInput> = Vec::new();
    let mut j: usize = 0;
    while j < selected.len()
        invariant
            j <= selected.len(),
            signed_inputs(keys@, selected@.take(j as int), inputs@),
        decreases selected.len() - j,
    {
        let k = match find_key(keys, &selected[j].pubkey) {
            Some(k) => k,
            None => {
                proof {
                    assert(key_for(keys@, selected@[j as int].pubkey) == -1);
                }
                return None;
            },
        };
        let input = TransactionInput::signed(&selected[j], &keys[k].private);
        let ghost old_inputs = inputs@;
        inputs.push(input);
        proof {
            let prev = selected@.take(j as int);
            let next = selected@.take(j + 1);
            assert forall|m: int| #![trigger inputs@[m]] #![trigger next[m]] 0 <= m < next.len() implies {
                let kk = key_for(keys@, next[m].pubkey);
                &&& 0 <= kk < keys.len()
                &&& inputs@[m].prev_transaction_output_hash == output_hash(next[m])
                &&& inputs@[m].signature.0 == ecdsa_signature(
                    keys@[kk].private.secret()@,
                    output_hash(next[m]).0@,
                )
                &&& ecdsa_verifies(
                    secret_to_public(keys@[kk].private.secret()@)@,
                    output_hash(next[m]).0@,
                    inputs@[m].signature.0@,
                )
            } by {
                if m < j {
                    assert(next[m] == prev[m]);
                    assert(inputs@[m] == old_inputs[m]);
                    assert(0 <= m < prev.len());
                    assert(old_inputs[m].prev_transaction_output_hash == output_hash(prev[m]));
                } else {
                    assert(next[m] == selected@[j as int]);
                    assert(inputs@[m] == input);
                }
            }
            assert(inputs@.len() == next.len());
            assert(signed_inputs(keys@, next, inputs@));
        }
        j = j + 1;
    }
    proof {
        assert(selected@.take(selected@.len() as int) =~= selected@);
        assert forall|m: int| 0 <= m < selected@.len() implies key_for(
            keys@,
            #[trigger] selected@[m].pubkey,
        ) != -1 by {
            assert(inputs@[m].prev_transaction_output_hash == output_hash(selected@[m]));
        }
    }
    Some(inputs)
}

/// Pays `amount` to `recipient_key` plus `fee`, spending the spendable outputs in order
/// until they cover both; change above that goes back to the first key.
pub fn create_transaction(
    keys: &Vec<LoadedKey>,
    utxos: &HashIndex<TransactionOutput>,
    recipient_key: &PublicKey,
    amount: u64,
    fee: u64,
) -> (r: Result<Transaction, WalletError>)
    requires
        amount + fee <= u64::MAX,
        outputs_total(selected_outputs(utxos@, amount + fee)) <= u64::MAX,
    ensures
        ({
            let selected = selected_outputs(utxos@, amount + fee);
            let total = outputs_total(selected);
            let required = amount + fee;
            &&& (r == Err::<Transaction, WalletError>(WalletError::InsufficientBalance) <==> total < required)
            &&& (r == Err::<Transaction, WalletError>(WalletError::MissingPrivateKey) <==> (total >= required
                && some_key_missing(keys@, selected)))
            &&& r matches Ok(tx) ==> {
                &&& signed_inputs(keys@, selected, tx.inputs@)
                &&& outputs_total(tx.outputs@) + fee == total
                &&& tx.outputs@.len() >= 1
                &&& tx.outputs@[0].value == amount
                &&& tx.outputs@[0].pubkey == *recipient_key
                &&& if total > required {
                    &&& tx.outputs@.len() == 2
                    &&& tx.outputs@[1].value == total - required
                    &&& tx.outputs@[1].pubkey == keys@[0].public
                } else {
                    tx.outputs@.len() == 1
                }
            }
        }),
{
    let required = amount + fee;
    let (selected, selected_total) = select_outputs(utxos, required);
    if selected_total < required {
        return Err(WalletError::InsufficientBalance);
    }
    let inputs = match sign_inputs(keys, &selected) {
        Some(inputs) => inputs,
        None => {
            return Err(WalletError::MissingPrivateKey);
        },
    };
    let mut outputs: Vec<TransactionOutput> = Vec::new();
    outputs.push(TransactionOutput::new(amount, *recipient_key));
    let change = selected_total - required;
    if change > 0 {
        proof {
            assert(selected@.len() > 0) by {
                if selected@.len() == 0 {
                    assert(outputs_total(selected@) == 0);
                }
            }
            assert(inputs@[0].prev_transaction_output_hash == output_hash(selected@[0]));
        }
        outputs.push(TransactionOutput::new(change, keys[0].public));
    }
    proof {
        reveal_with_fuel(outputs_total, 3);
    }
    Ok(Transaction::new(inputs, outputs))
}

// ---- the command line ----

/// A contact the wallet pays by name.
#[derive(Debug)]
pub struct LoadedRecipient {
    pub name: String,
    pub key: PublicKey,
}

/// The key of the first contact named `name`.
pub open spec fn first_recipient(contacts: Seq<LoadedRecipient>, name: Seq<char>) -> Option<PublicKey>
    decreases contacts.len(),
{
    if contacts.len() == 0 {
        None
    } else if contacts[0].name@ == name {
        Some(contacts[0].key)
    } else {
        first_recipient(contacts.drop_first(), name)
    }
}

/// Whether two texts are the same, compared by their UTF-8 bytes.
fn same_text(a: &str, b: &str) -> (r: bool)
    ensures
        r == (a@ == b@),
{
    let r = bytes_equal(a.as_bytes(), b.as_bytes());
    proof {
        encode_utf8_decode_utf8(a@);
        encode_utf8_decode_utf8(b@);
    }
    r
}

/// The key of the first contact named `name`.
pub fn find_recipient(contacts: &Vec<LoadedRecipient>, name: &str) -> (r: Option<PublicKey>)
    ensures
        r == first_recipient(contacts@, name@),
{
    let mut i: usize = 0;
    assert(contacts@.skip(0) =~= contacts@);
    while i < contacts.len()
        invariant
            i <= contacts.len(),
            first_recipient(contacts@, name@) == first_recipient(contacts@.skip(i as int), name@),
        decreases contacts.len() - i,
    {
        let ghost rest = contacts@.skip(i as int);
        if same_text(contacts[i].name.as_str(), name) {
            return Some(contacts[i].key);
        }
        proof {
            assert(rest.drop_first() =~= contacts@.skip(i + 1));
        }
        i = i + 1;
    }
    None
}

/// The value of a string of decimal digits.
pub open spec fn decimal_value(s: Seq<u8>) -> int
    decreases s.len(),
{
    if s.len() == 0 {
        0
    } else {
        decimal_value(s.drop_last()) * 10 + (s.last() - 48)
    }
}

pub open spec fn all_decimal(s: Seq<u8>) -> bool {
    forall|i: int| 0 <= i < s.len() ==> 48 <= #[trigger] s[i] <= 57
}

/// The digits of an unsigned number: what follows a leading `+`, if any.
pub open spec fn unsigned_digits(s: Seq<u8>) -> Seq<u8> {
    if s.len() > 0 && s[0] == 43 {
        s.drop_first()
    } else {
        s
    }
}

/// What `u64::from_str` reads from the text: at least one decimal digit after an
/// optional `+`, and a value that fits.
pub open spec fn parsed_u64(s: Seq<u8>) -> Option<u64> {
    let d = unsigned_digits(s);
    if d.len() > 0 && all_decimal(d) && decimal_value(d) <= u64::MAX {
        Some(decimal_value(d) as u64)
    } else {
        None
    }
}

proof fn lemma_decimal_monotone(s: Seq<u8>, j: int)
    requires
        all_decimal(s),
        0 <= j <= s.len(),
    ensures
        0 <= decimal_value(s.take(j)) <= decimal_value(s),
    decreases s.len() - j,
{
    if j < s.len() {
        lemma_decimal_monotone(s, j + 1);
        assert(s.take(j + 1).drop_last() =~= s.take(j));
        assert(s.take(j + 1).last() == s[j]);
    } else {
        assert(s.take(j) =~= s);
        lemma_decimal_nonneg(s);
    }
}

proof fn lemma_decimal_nonneg(s: Seq<u8>)
    requires
        all_decimal(s),
    ensures
        decimal_value(s) >= 0,
    decreases s.len(),
{
    if s.len() > 0 {
        assert(all_decimal(s.drop_last())) by {
            assert forall|i: int| 0 <= i < s.drop_last().len() implies 48 <= #[trigger] s.drop_last()[i] <= 57 by {
                assert(s.drop_last()[i] == s[i]);
            }
        }
        lemma_decimal_nonneg(s.drop_last());
        assert(48 <= s[s.len() - 1] <= 57);
    }
}

/// Reads an unsigned number as `u64::from_str` does.
pub fn parse_u64(s: &[u8]) -> (r: Option<u64>)
    ensures
        r == parsed_u64(s@),
{
    let start: usize = if s.len() > 0 && s[0] == 43 {
        1
    } else {
        0
    };
    let ghost d = unsigned_digits(s@);
    assert(d =~= s@.skip(start as int));
    if start >= s.len() {
        return None;
    }
    let mut value: u64 = 0;
    let mut i: usize = start;
    while i < s.len()
        invariant
            start <= i <= s.len(),
            d == unsigned_digits(s@),
            d == s@.skip(start as int),
            d.len() > 0,
            all_decimal(d.take(i - start)),
            value == decimal_value(d.take(i - start)),
        decreases s.len() - i,
    {
        let c = s[i];
        let k = i - start;
        proof {
            assert(d[k as int] == c);
            assert(d.take(k + 1).drop_last() =~= d.take(k as int));
            assert(d.take(k + 1).last() == c);
        }
        if c < 48 || c > 57 {
            proof {
                assert(!all_decimal(d)) by {
                    assert(d[k as int] == c);
                }
            }
            return None;
        }
        proof {
            assert(all_decimal(d.take(k + 1))) by {
                assert forall|j: int| 0 <= j < d.take(k + 1).len() implies 48 <= #[trigger] d.take(k + 1)[j] <= 57 by {
                    if j < k {
                        assert(d.take(k + 1)[j] == d.take(k as int)[j]);
                    }
                }
            }
        }
        let next = match value.checked_mul(10) {
            Some(v) => v.checked_add((c - 48) as u64),
            None => None,
        };
        match next {
            Some(v) => {
                value = v;
            },
            None => {
                proof {
                    assert(decimal_value(d.take(k + 1)) == value * 10 + (c - 48));
                    if all_decimal(d) {
                        lemma_decimal_monotone(d, k + 1);
                    }
                }
                return None;
            },
        }
        i = i + 1;
    }
    proof {
        assert(d.take(s.len() - start) =~= d);
    }
    Some(value)
}

/// A line typed at the wallet's prompt, split at white space.
#[derive(Debug)]
pub enum WalletCommand {
    /// Nothing was typed.
    Empty,
    Balance,
    Contacts,
    Exit,
    /// `send` with other than two arguments.
    SendUsage,
    /// `send <recipient> <amount>`.
    Send(String, u64),
    /// `send` with an amount that is not a number of satoshis.
    BadAmount,
    Unknown,
}

/// What the words typed at the prompt ask for.
pub fn decide_command(words: &Vec<String>) -> (r: WalletCommand)
    ensures
        words@.len() == 0 ==> r is Empty,
        words@.len() > 0 ==> {
            let first = words@[0]@;
            if first == "balance"@ {
                r is Balance
            } else if first == "send"@ {
                if words@.len() != 3 {
                    r is SendUsage
                } else {
                    match parsed_u64(encode_utf8(words@[2]@)) {
                        Some(amount) => r matches WalletCommand::Send(name, a) && name@ == words@[1]@
                            && a == amount,
                        None => r is BadAmount,
                    }
                }
            } else if first == "contacts"@ {
                r is Contacts
            } else if first == "exit"@ {
                r is Exit
            } else {
                r is Unknown
            }
        },
{
    if words.len() == 0 {
        return WalletCommand::Empty;
    }
    let first = words[0].as_str();
    if same_text(first, "balance") {
        WalletCommand::Balance
    } else if same_text(first, "send") {
        if words.len() != 3 {
            WalletCommand::SendUsage
        } else {
            match parse_u64(words[2].as_str().as_bytes()) {
                Some(amount) => WalletCommand::Send(words[1].clone(), amount),
                None => WalletCommand::BadAmount,
            }
        }
    } else if same_text(first, "contacts") {
        WalletCommand::Contacts
    } else if same_text(first, "exit") {
        WalletCommand::Exit
    } else {
        WalletCommand::Unknown
    }
}

} // verus!
