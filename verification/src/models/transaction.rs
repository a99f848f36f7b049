//! UTXO transactions: inputs spend earlier outputs, outputs lock value to a
//! public-key hash. A transaction's id and signatures are SHA-256 digests of
//! its compact JSON text.

use vstd::prelude::*;
use vstd::utf8::*;
use crate::codec::{
    hex_decodable, hex_decoded, lemma_hex_roundtrip,
    comma_before, copy_bytes, decimal, hex_lower, json_array, json_join, json_key, json_str,
    json_u8_array, lemma_json_join_step, push_decimal, push_json_key, push_json_str,
    push_json_u8_array,
};
use crate::crypto::{
    ecdsa_accepts, ecdsa_verify, hex_decode, hex_encode, now_nanos, sha256, sha256_digest,
};
use crate::models::wallet::{Wallet, message_signature};

verus! {

broadcast use vstd::seq::group_seq_axioms;

#[derive(Debug)]
pub struct OutPoint {
    pub tx_id: String,
    pub out_index: u32,
}

#[derive(Debug)]
pub struct TXInput {
    pub previous_output: OutPoint,
    pub signature: Vec<u8>,
    pub pub_key: Vec<u8>,
}

#[derive(Debug)]
pub struct TXOutput {
    pub value: u64,
    pub pub_key_hash: Vec<u8>,
}

#[derive(Debug)]
pub struct Transaction {
    pub id: String,
    pub vin: Vec<TXInput>,
    pub vout: Vec<TXOutput>,
}

/// What an outpoint names: a transaction id and an output position.
pub struct OutPointView {
    pub tx_id: Seq<char>,
    pub out_index: u32,
}

pub struct InputView {
    pub previous_output: OutPointView,
    pub signature: Seq<u8>,
    pub pub_key: Seq<u8>,
}

pub struct OutputView {
    pub value: u64,
    pub pub_key_hash: Seq<u8>,
}

pub struct TxView {
    pub id: Seq<char>,
    pub vin: Seq<InputView>,
    pub vout: Seq<OutputView>,
}

impl View for OutPoint {
    type V = OutPointView;

    open spec fn view(&self) -> OutPointView {
        OutPointView { tx_id: self.tx_id@, out_index: self.out_index }
    }
}

impl View for TXInput {
    type V = InputView;

    open spec fn view(&self) -> InputView {
        InputView {
            previous_output: self.previous_output@,
            signature: self.signature@,
            pub_key: self.pub_key@,
        }
    }
}

impl View for TXOutput {
    type V = OutputView;

    open spec fn view(&self) -> OutputView {
        OutputView { value: self.value, pub_key_hash: self.pub_key_hash@ }
    }
}

impl View for Transaction {
    type V = TxView;

    open spec fn view(&self) -> TxView {
        TxView {
            id: self.id@,
            vin: self.vin@.map_values(|i: TXInput| i@),
            vout: self.vout@.map_values(|o: TXOutput| o@),
        }
    }
}

impl Clone for OutPoint {
    fn clone(&self) -> (r: Self)
        ensures
            r@ == self@,
    {
        OutPoint { tx_id: self.tx_id.clone(), out_index: self.out_index }
    }
}

impl Clone for TXInput {
    fn clone(&self) -> (r: Self)
        ensures
            r@ == self@,
    {
        TXInput {
            previous_output: self.previous_output.clone(),
            signature: copy_bytes(&self.signature),
            pub_key: copy_bytes(&self.pub_key),
        }
    }
}

impl Clone for TXOutput {
    fn clone(&self) -> (r: Self)
        ensures
            r@ == self@,
    {
        TXOutput { value: self.value, pub_key_hash: copy_bytes(&self.pub_key_hash) }
    }
}

impl Clone for Transaction {
    fn clone(&self) -> (r: Self)
        ensures
            r@ == self@,
    {
        let mut vin: Vec<TXInput> = Vec::new();
        let n = self.vin.len();
        for i in 0..n
            invariant
                n == self.vin@.len(),
                vin@.len() == i,
                forall|j: int| 0 <= j < i ==> (#[trigger] vin@[j])@ == self.vin@[j]@,
        {
            vin.push(self.vin[i].clone());
        }
        let mut vout: Vec<TXOutput> = Vec::new();
        let m = self.vout.len();
        for i in 0..m
            invariant
                m == self.vout@.len(),
                vout@.len() == i,
                forall|j: int| 0 <= j < i ==> (#[trigger] vout@[j])@ == self.vout@[j]@,
        {
            vout.push(self.vout[i].clone());
        }
        let r = Transaction { id: self.id.clone(), vin, vout };
        assert(r@.vin =~= self@.vin);
        assert(r@.vout =~= self@.vout);
        r
    }
}

// ── the JSON text that ids and signatures are computed over ───────────────

#[verifier::opaque]
pub open spec fn json_outpoint(op: OutPointView) -> Seq<u8> {
    seq![123u8] + json_key("tx_id"@) + json_str(op.tx_id) + seq![44u8] + json_key("out_index"@)
        + decimal(op.out_index as nat) + seq![125u8]
}

#[verifier::opaque]
pub open spec fn json_input(i: InputView) -> Seq<u8> {
    seq![123u8] + json_key("previous_output"@) + json_outpoint(i.previous_output) + seq![44u8]
        + json_key("signature"@) + json_u8_array(i.signature) + seq![44u8] + json_key("pub_key"@)
        + json_u8_array(i.pub_key) + seq![125u8]
}

#[verifier::opaque]
pub open spec fn json_output(o: OutputView) -> Seq<u8> {
    seq![123u8] + json_key("value"@) + decimal(o.value as nat) + seq![44u8] + json_key(
        "pub_key_hash"@,
    ) + json_u8_array(o.pub_key_hash) + seq![125u8]
}

/// A transaction as compact JSON, fields in declaration order.
#[verifier::opaque]
pub open spec fn json_tx(t: TxView) -> Seq<u8> {
    seq![123u8] + json_key("id"@) + json_str(t.id) + seq![44u8] + json_key("vin"@) + json_array(
        t.vin.map_values(|i: InputView| json_input(i)),
    ) + seq![44u8] + json_key("vout"@) + json_array(
        t.vout.map_values(|o: OutputView| json_output(o)),
    ) + seq![125u8]
}

/// The input with its signature taken out.
pub open spec fn unsigned_input(i: InputView) -> InputView {
    InputView { signature: Seq::empty(), ..i }
}

/// The input as hashed: with its signature, or with it taken out.
pub open spec fn kept_input(i: InputView, keep_signature: bool) -> InputView {
    if keep_signature {
        i
    } else {
        unsigned_input(i)
    }
}

/// The transaction with its id cleared: what its content hash covers.
pub open spec fn without_id(t: TxView) -> TxView {
    TxView { id: Seq::empty(), ..t }
}

/// The transaction with its id and all signatures cleared: what every input
/// signs.
pub open spec fn unsigned_form(t: TxView) -> TxView {
    TxView { id: Seq::empty(), vin: t.vin.map_values(|i: InputView| unsigned_input(i)), vout: t.vout }
}

/// Lowercase hex of the SHA-256 digest of `bytes`.
pub open spec fn hex_digest(bytes: Seq<u8>) -> Seq<char> {
    hex_lower(sha256_digest(bytes))
}

/// The hash that every input of `t` signs.
pub open spec fn signing_hash_of(t: TxView) -> Seq<char> {
    hex_digest(json_tx(unsigned_form(t)))
}

/// The content hash of `t`, signatures included.
pub open spec fn content_hash_of(t: TxView) -> Seq<char> {
    hex_digest(json_tx(without_id(t)))
}

fn push_json_outpoint(buf: &mut Vec<u8>, op: &OutPoint)
    ensures
        final(buf)@ == old(buf)@ + json_outpoint(op@),
{
    reveal(json_outpoint);
    let ghost start = buf@;
    buf.push(123u8);
    push_json_key(buf, "tx_id");
    push_json_str(buf, op.tx_id.as_str());
    buf.push(44u8);
    push_json_key(buf, "out_index");
    push_decimal(buf, op.out_index as u64);
    buf.push(125u8);
    assert(buf@ =~= start + json_outpoint(op@));
}

fn push_json_input(buf: &mut Vec<u8>, input: &TXInput, keep_signature: bool)
    ensures
        final(buf)@ == old(buf)@ + json_input(kept_input(input@, keep_signature)),
{
    reveal(json_input);
    let ghost start = buf@;
    let ghost v = kept_input(input@, keep_signature);
    buf.push(123u8);
    push_json_key(buf, "previous_output");
    push_json_outpoint(buf, &input.previous_output);
    buf.push(44u8);
    push_json_key(buf, "signature");
    if keep_signature {
        push_json_u8_array(buf, input.signature.as_slice());
    } else {
        let empty: Vec<u8> = Vec::new();
        push_json_u8_array(buf, empty.as_slice());
        assert(empty@ =~= v.signature);
    }
    buf.push(44u8);
    push_json_key(buf, "pub_key");
    push_json_u8_array(buf, input.pub_key.as_slice());
    buf.push(125u8);
    assert(buf@ =~= start + json_input(v));
}

fn push_json_output(buf: &mut Vec<u8>, output: &TXOutput)
    ensures
        final(buf)@ == old(buf)@ + json_output(output@),
{
    reveal(json_output);
    let ghost start = buf@;
    buf.push(123u8);
    push_json_key(buf, "value");
    push_decimal(buf, output.value);
    buf.push(44u8);
    push_json_key(buf, "pub_key_hash");
    push_json_u8_array(buf, output.pub_key_hash.as_slice());
    buf.push(125u8);
    assert(buf@ =~= start + json_output(output@));
}

/// The transaction view with the id cleared and, unless kept, the signatures.
pub open spec fn hashed_form(t: TxView, keep_signatures: bool) -> TxView {
    if keep_signatures {
        without_id(t)
    } else {
        unsigned_form(t)
    }
}

fn push_json_vin(buf: &mut Vec<u8>, vin: &Vec<TXInput>, keep_signatures: bool)
    ensures
        final(buf)@ == old(buf)@ + json_array(
            vin@.map_values(
                |i: TXInput|
                    json_input(kept_input(i@, keep_signatures)),
            ),
        ),
{
    let ghost start = buf@;
    let ghost items = vin@.map_values(
        |i: TXInput|
            json_input(kept_input(i@, keep_signatures)),
    );
    buf.push(91u8);
    let n = vin.len();
    for i in 0..n
        invariant
            n == vin@.len(),
            items == vin@.map_values(
                |i: TXInput|
                    json_input(kept_input(i@, keep_signatures)),
            ),
            buf@ == start + seq![91u8] + json_join(items.take(i as int)),
    {
        proof {
            lemma_json_join_step(items, i as int);
        }
        if i > 0 {
            buf.push(44u8);
        }
        push_json_input(buf, &vin[i], keep_signatures);
        assert(buf@ =~= start + seq![91u8] + json_join(items.take(i + 1)));
    }
    assert(items.take(n as int) =~= items);
    buf.push(93u8);
    assert(buf@ =~= start + json_array(items));
}

fn push_json_vout(buf: &mut Vec<u8>, vout: &Vec<TXOutput>)
    ensures
        final(buf)@ == old(buf)@ + json_array(vout@.map_values(|o: TXOutput| json_output(o@))),
{
    let ghost start = buf@;
    let ghost items = vout@.map_values(|o: TXOutput| json_output(o@));
    buf.push(91u8);
    let n = vout.len();
    for i in 0..n
        invariant
            n == vout@.len(),
            items == vout@.map_values(|o: TXOutput| json_output(o@)),
            buf@ == start + seq![91u8] + json_join(items.take(i as int)),
    {
        proof {
            lemma_json_join_step(items, i as int);
        }
        if i > 0 {
            buf.push(44u8);
        }
        push_json_output(buf, &vout[i]);
        assert(buf@ =~= start + seq![91u8] + json_join(items.take(i + 1)));
    }
    assert(items.take(n as int) =~= items);
    buf.push(93u8);
    assert(buf@ =~= start + json_array(items));
}

/// Appends the JSON text of `tx` as hashed: empty id, signatures kept or not.
#[verifier::rlimit(80)]
pub fn push_json_tx_hashed(buf: &mut Vec<u8>, tx: &Transaction, keep_signatures: bool)
    ensures
        final(buf)@ == old(buf)@ + json_tx(hashed_form(tx@, keep_signatures)),
{
    reveal(json_tx);
    let ghost start = buf@;
    let ghost v = hashed_form(tx@, keep_signatures);
    buf.push(123u8);
    push_json_key(buf, "id");
    push_json_str(buf, "");
    proof {
        reveal_strlit("");
        assert(""@ =~= v.id);
    }
    buf.push(44u8);
    push_json_key(buf, "vin");
    push_json_vin(buf, &tx.vin, keep_signatures);
    buf.push(44u8);
    push_json_key(buf, "vout");
    push_json_vout(buf, &tx.vout);
    buf.push(125u8);
    proof {
        assert(v.vin.map_values(|i: InputView| json_input(i)) =~= tx.vin@.map_values(
            |i: TXInput|
                json_input(kept_input(i@, keep_signatures)),
        ));
        assert(v.vout.map_values(|o: OutputView| json_output(o)) =~= tx.vout@.map_values(
            |o: TXOutput| json_output(o@),
        ));
    }
    assert(buf@ =~= start + json_tx(v));
}


/// Appends the JSON text of `tx` as it stands, id and signatures included.
#[verifier::rlimit(80)]
pub fn push_json_tx(buf: &mut Vec<u8>, tx: &Transaction)
    ensures
        final(buf)@ == old(buf)@ + json_tx(tx@),
{
    reveal(json_tx);
    let ghost start = buf@;
    buf.push(123u8);
    push_json_key(buf, "id");
    push_json_str(buf, tx.id.as_str());
    buf.push(44u8);
    push_json_key(buf, "vin");
    push_json_vin(buf, &tx.vin, true);
    buf.push(44u8);
    push_json_key(buf, "vout");
    push_json_vout(buf, &tx.vout);
    buf.push(125u8);
    proof {
        assert(tx@.vin.map_values(|i: InputView| json_input(i)) =~= tx.vin@.map_values(
            |i: TXInput|
                json_input(kept_input(i@, true)),
        ));
        assert(tx@.vout.map_values(|o: OutputView| json_output(o)) =~= tx.vout@.map_values(
            |o: TXOutput| json_output(o@),
        ));
    }
    assert(buf@ =~= start + json_tx(tx@));
}

// ── coinbase transactions ──────────────────────────────────────────────────

/// The lowest `k` bytes of `n`, least significant first.
pub open spec fn le_bytes(n: nat, k: nat) -> Seq<u8>
    decreases k,
{
    if k == 0 {
        Seq::empty()
    } else {
        seq![(n % 256) as u8] + le_bytes(n / 256, (k - 1) as nat)
    }
}

/// Appends the lowest `k` bytes of `v`, least significant first.
pub fn push_le_bytes(buf: &mut Vec<u8>, v: u128, k: usize)
    ensures
        final(buf)@ == old(buf)@ + le_bytes(v as nat, k as nat),
{
    let ghost start = buf@;
    let mut rest: u128 = v;
    let mut i: usize = 0;
    while i < k
        invariant
            i <= k,
            start + le_bytes(v as nat, k as nat) == buf@ + le_bytes(rest as nat, (k - i) as nat),
        decreases k - i,
    {
        let b: u8 = (rest % 256) as u8;
        let ghost prev = buf@;
        buf.push(b);
        assert(le_bytes(rest as nat, (k - i) as nat) == seq![b] + le_bytes(
            (rest / 256) as nat,
            (k - i - 1) as nat,
        ));
        assert(prev + le_bytes(rest as nat, (k - i) as nat) =~= buf@ + le_bytes(
            (rest / 256) as nat,
            (k - i - 1) as nat,
        ));
        rest = rest / 256;
        i = i + 1;
    }
}

/// The single input of a coinbase: it spends nothing.
pub open spec fn coinbase_input() -> InputView {
    InputView {
        previous_output: OutPointView { tx_id: Seq::empty(), out_index: u32::MAX },
        signature: Seq::empty(),
        pub_key: Seq::empty(),
    }
}

/// A coinbase paying `value` to `pub_key_hash` under the id `id`.
pub open spec fn coinbase_view(id: Seq<char>, pub_key_hash: Seq<u8>, value: u64) -> TxView {
    TxView {
        id,
        vin: seq![coinbase_input()],
        vout: seq![OutputView { value, pub_key_hash }],
    }
}

/// The id of the genesis coinbase: a digest of the key hash, the value and a
/// fixed tag, and nothing else.
pub open spec fn genesis_coinbase_id(pub_key_hash: Seq<u8>, value: u64) -> Seq<char> {
    hex_digest(pub_key_hash + le_bytes(value as nat, 8) + encode_utf8("austro-genesis-v1"@))
}

/// The id of an ordinary coinbase minted at `nanos` past the epoch.
pub open spec fn coinbase_id(pub_key_hash: Seq<u8>, value: u64, nanos: u128) -> Seq<char> {
    hex_digest(pub_key_hash + le_bytes(value as nat, 8) + le_bytes(nanos as nat, 16))
}

fn coinbase_with_id(pub_key_hash: &[u8], value: u64, id: String) -> (t: Transaction)
    ensures
        t@ == coinbase_view(id@, pub_key_hash@, value),
{
    let mut vin: Vec<TXInput> = Vec::new();
    vin.push(
        TXInput {
            previous_output: OutPoint { tx_id: String::new(), out_index: u32::MAX },
            pub_key: Vec::new(),
            signature: Vec::new(),
        },
    );
    let mut key_hash: Vec<u8> = Vec::new();
    key_hash.extend_from_slice(pub_key_hash);
    assert(key_hash@ =~= pub_key_hash@);
    let mut vout: Vec<TXOutput> = Vec::new();
    vout.push(TXOutput { value, pub_key_hash: key_hash });
    let t = Transaction { id, vin, vout };
    assert(t@.vin =~= seq![coinbase_input()]);
    assert(t@.vout =~= seq![OutputView { value, pub_key_hash: pub_key_hash@ }]);
    t
}

/// Whether a transaction view is a coinbase: one input that spends the
/// empty transaction id at index `u32::MAX`.
pub open spec fn is_coinbase_view(t: TxView) -> bool {
    &&& t.vin.len() == 1
    &&& t.vin[0].previous_output.tx_id.len() == 0
    &&& t.vin[0].previous_output.out_index == u32::MAX
}

/// At least one output, and every output carries value.
pub open spec fn basic_ok(t: TxView) -> bool {
    &&& t.vout.len() > 0
    &&& forall|i: int| 0 <= i < t.vout.len() ==> (#[trigger] t.vout[i]).value > 0
}

/// The digest that every input's signature is checked against.
pub open spec fn signature_digest(t: TxView) -> Seq<u8> {
    sha256_digest(hex_decoded(signing_hash_of(t)))
}

/// An input carries a signature and a key, and the signature checks out.
pub open spec fn input_signature_ok(i: InputView, digest: Seq<u8>) -> bool {
    &&& i.signature.len() > 0
    &&& i.pub_key.len() > 0
    &&& ecdsa_accepts(digest, i.signature, i.pub_key)
}

/// A coinbase, or every input validly signed.
pub open spec fn signatures_ok(t: TxView) -> bool {
    is_coinbase_view(t) || forall|i: int|
        0 <= i < t.vin.len() ==> input_signature_ok(#[trigger] t.vin[i], signature_digest(t))
}

/// The inputs that `new_unsigned` builds: the given outpoints and keys, no
/// signatures.
pub open spec fn unsigned_inputs(inputs: Seq<(OutPoint, Vec<u8>)>) -> Seq<InputView> {
    inputs.map_values(
        |p: (OutPoint, Vec<u8>)|
            InputView { previous_output: p.0@, signature: Seq::empty(), pub_key: p.1@ },
    )
}

/// The input with a signature and key put in.
pub open spec fn signed_input(i: InputView, signature: Seq<u8>, pub_key: Seq<u8>) -> InputView {
    InputView { previous_output: i.previous_output, signature, pub_key }
}

/// Every input of `t` carries the key `pub_key`.
pub open spec fn all_keys_are(t: TxView, pub_key: Seq<u8>) -> bool {
    forall|i: int| 0 <= i < t.vin.len() ==> (#[trigger] t.vin[i]).pub_key == pub_key
}

impl Transaction {
    /// The coinbase of the genesis block, whose id depends on nothing but its
    /// arguments, so that every node computes the same one.
    pub fn coinbase_genesis(pub_key_hash: &[u8], value: u64) -> (t: Transaction)
        ensures
            t@ == coinbase_view(genesis_coinbase_id(pub_key_hash@, value), pub_key_hash@, value),
    {
        let mut id_input: Vec<u8> = Vec::new();
        id_input.extend_from_slice(pub_key_hash);
        assert(id_input@ =~= pub_key_hash@);
        push_le_bytes(&mut id_input, value as u128, 8);
        let tag = "austro-genesis-v1".as_bytes();
        let ghost before = id_input@;
        id_input.extend_from_slice(tag);
        assert(id_input@ =~= before + tag@);
        let digest = sha256(id_input.as_slice());
        let id = hex_encode(digest.as_slice());
        coinbase_with_id(pub_key_hash, value, id)
    }

    /// A coinbase whose id also covers the given time in nanoseconds.
    pub fn coinbase_at(pub_key_hash: &[u8], value: u64, nanos: u128) -> (t: Transaction)
        ensures
            t@ == coinbase_view(coinbase_id(pub_key_hash@, value, nanos), pub_key_hash@, value),
    {
        let mut id_input: Vec<u8> = Vec::new();
        id_input.extend_from_slice(pub_key_hash);
        assert(id_input@ =~= pub_key_hash@);
        push_le_bytes(&mut id_input, value as u128, 8);
        push_le_bytes(&mut id_input, nanos, 16);
        let digest = sha256(id_input.as_slice());
        let id = hex_encode(digest.as_slice());
        coinbase_with_id(pub_key_hash, value, id)
    }

    /// A coinbase stamped with the current time, so that ids differ between
    /// blocks.
    pub fn coinbase(pub_key_hash: &[u8], value: u64) -> (t: Transaction)
        ensures
            exists|nanos: u128|
                t@ == coinbase_view(#[trigger] coinbase_id(pub_key_hash@, value, nanos), pub_key_hash@, value),
    {
        let nanos = now_nanos();
        Transaction::coinbase_at(pub_key_hash, value, nanos)
    }

    /// A transaction spending the given outpoints with the given keys, not yet
    /// signed; its id is its signing hash.
    pub fn new_unsigned(inputs: Vec<(OutPoint, Vec<u8>)>, outputs: Vec<TXOutput>) -> (t: Transaction)
        ensures
            t@.vin == unsigned_inputs(inputs@),
            t@.vout == outputs@.map_values(|o: TXOutput| o@),
            t@.id == signing_hash_of(t@),
    {
        let mut vin: Vec<TXInput> = Vec::new();
        let n = inputs.len();
        for i in 0..n
            invariant
                n == inputs@.len(),
                vin@.len() == i,
                forall|j: int| 0 <= j < i ==> (#[trigger] vin@[j])@ == unsigned_inputs(inputs@)[j],
        {
            let outpoint = inputs[i].0.clone();
            let pub_key = copy_bytes(&inputs[i].1);
            vin.push(TXInput { previous_output: outpoint, signature: Vec::new(), pub_key });
        }
        let mut tx = Transaction { id: String::new(), vin, vout: outputs };
        assert(tx@.vin =~= unsigned_inputs(inputs@));
        let id = tx.signing_hash();
        tx.id = id;
        assert(unsigned_form(tx@) =~= unsigned_form(
            TxView { id: Seq::empty(), vin: tx@.vin, vout: tx@.vout },
        ));
        tx
    }

    /// The hash that every input signs: the content with the id and all
    /// signatures cleared.
    pub fn signing_hash(&self) -> (r: String)
        ensures
            r@ == signing_hash_of(self@),
    {
        let mut buf: Vec<u8> = Vec::new();
        push_json_tx_hashed(&mut buf, self, false);
        assert(buf@ =~= json_tx(unsigned_form(self@)));
        let digest = sha256(buf.as_slice());
        hex_encode(digest.as_slice())
    }

    /// The final content hash, signatures included; the id after signing.
    pub fn hash(&self) -> (r: String)
        ensures
            r@ == content_hash_of(self@),
    {
        let mut buf: Vec<u8> = Vec::new();
        push_json_tx_hashed(&mut buf, self, true);
        assert(buf@ =~= json_tx(without_id(self@)));
        let digest = sha256(buf.as_slice());
        hex_encode(digest.as_slice())
    }

    /// Signs every input with the wallet over the transaction's current id
    /// and sets every input's key to the wallet's; the id becomes the content
    /// hash. If the id was the signing hash and every input already carried
    /// the wallet's key, the signatures verify.
    pub fn sign_inputs(&mut self, wallet: &Wallet)
        requires
            wallet.wf(),
            hex_decodable(old(self).id@),
        ensures
            final(self)@.vin.len() == old(self)@.vin.len(),
            forall|i: int|
                0 <= i < final(self)@.vin.len() ==> #[trigger] final(self)@.vin[i] == signed_input(
                    old(self)@.vin[i],
                    message_signature(wallet.private_key@, hex_decoded(old(self)@.id)),
                    wallet.public_key@,
                ),
            final(self)@.vout == old(self)@.vout,
            final(self)@.id == content_hash_of(final(self)@),
            (old(self)@.id == signing_hash_of(old(self)@) && all_keys_are(old(self)@, wallet.public_key@))
                ==> signatures_ok(final(self)@),
    {
        let msg = match hex_decode(self.id.as_str()) {
            Some(m) => m,
            None => {
                proof {
                    assert(false);
                }
                Vec::new()
            },
        };
        let sig = wallet.sign(msg.as_slice());
        let ghost old_vin = self@.vin;
        let n = self.vin.len();
        for i in 0..n
            invariant
                n == self.vin@.len(),
                n == old_vin.len(),
                self@.id == old(self)@.id,
                self@.vout == old(self)@.vout,
                old_vin == old(self)@.vin,
                sig@ == message_signature(wallet.private_key@, msg@),
                forall|j: int|
                    0 <= j < n ==> (#[trigger] self.vin@[j])@.previous_output
                        == old_vin[j].previous_output,
                forall|j: int|
                    0 <= j < i ==> (#[trigger] self.vin@[j])@.signature == sig@ && self.vin@[j]@.pub_key
                        == wallet.public_key@,
                forall|j: int|
                    i <= j < n ==> (#[trigger] self.vin@[j])@ == old_vin[j],
        {
            let s = copy_bytes(&sig);
            let k = copy_bytes(&wallet.public_key);
            self.vin[i].signature = s;
            self.vin[i].pub_key = k;
        }
        let h = self.hash();
        self.id = h;
        proof {
            if all_keys_are(old(self)@, wallet.public_key@) {
                assert(self@.vin.map_values(|i: InputView| unsigned_input(i))
                    =~= old(self)@.vin.map_values(|i: InputView| unsigned_input(i)));
                assert(unsigned_form(self@) =~= unsigned_form(old(self)@));
                if old(self)@.id == signing_hash_of(old(self)@) {
                    assert(signature_digest(self@) == sha256_digest(msg@));
                    assert forall|i: int| 0 <= i < self@.vin.len() implies input_signature_ok(
                        #[trigger] self@.vin[i],
                        signature_digest(self@),
                    ) by {
                        assert(self.vin@[i]@ == self@.vin[i]);
                    }
                }
            }
        }
    }

    /// Checks every input's signature against the signing hash; a coinbase
    /// needs none.
    pub fn verify_signatures(&self) -> (r: bool)
        ensures
            r == signatures_ok(self@),
    {
        if self.is_coinbase() {
            return true;
        }
        let signing_id_hex = self.signing_hash();
        proof {
            lemma_hex_roundtrip(sha256_digest(json_tx(unsigned_form(self@))));
        }
        let signing_bytes = match hex_decode(signing_id_hex.as_str()) {
            Some(b) => b,
            None => {
                proof {
                    assert(false);
                }
                Vec::new()
            },
        };
        let digest = sha256(signing_bytes.as_slice());
        let ghost tv = self@;
        let ghost d = digest@;
        assert(d == signature_digest(tv));
        let n = self.vin.len();
        for i in 0..n
            invariant
                n == self.vin@.len(),
                tv == self@,
                tv.vin.len() == n,
                digest@ == d,
                d.len() == 32,
                d == signature_digest(tv),
                !is_coinbase_view(tv),
                forall|j: int| 0 <= j < i ==> input_signature_ok(#[trigger] tv.vin[j], d),
        {
            let input = &self.vin[i];
            assert(tv.vin[i as int] == input@);
            if input.signature.len() == 0 || input.pub_key.len() == 0 {
                assert(!input_signature_ok(tv.vin[i as int], d));
                return false;
            }
            if !ecdsa_verify(digest.as_slice(), input.signature.as_slice(), input.pub_key.as_slice()) {
                assert(!input_signature_ok(tv.vin[i as int], d));
                return false;
            }
        }
        true
    }

    pub fn is_coinbase(&self) -> (r: bool)
        ensures
            r == is_coinbase_view(self@),
    {
        self.vin.len() == 1 && self.vin[0].previous_output.tx_id.as_str().is_empty()
            && self.vin[0].previous_output.out_index == u32::MAX
    }

    pub fn verify_basic(&self) -> (r: bool)
        ensures
            r == basic_ok(self@),
    {
        let n = self.vout.len();
        if n == 0 {
            return false;
        }
        let ghost tv = self@;
        for i in 0..n
            invariant
                n == self.vout@.len(),
                tv == self@,
                tv.vout.len() == n,
                forall|j: int| 0 <= j < i ==> (#[trigger] tv.vout[j]).value > 0,
        {
            assert(tv.vout[i as int] == self.vout@[i as int]@);
            if self.vout[i].value == 0 {
                return false;
            }
        }
        true
    }
}

} // verus!
