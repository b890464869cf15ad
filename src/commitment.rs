//! Commit/verify protocol: an order is committed to by the hex SHA-256 of its plaintext,
//! and checked against it once the round's payloads are revealed.
use vstd::prelude::*;
use vstd::string::StringSliceAdditionalSpecFns;
use vstd::utf8::valid_utf8;
use sha2::Digest;
use crate::types::Order;

verus! {

/// SHA-256 digest of a byte string.
pub uninterp spec fn sha256_of(data: Seq<u8>) -> Seq<u8>;

/// Relies on sha2's `Sha256` (`new`, `update`, `finalize`): the 32-byte SHA-256 digest of `data`.
#[verifier::external_body]
fn sha256_digest(data: &[u8]) -> (r: Vec<u8>)
    ensures
        r@ == sha256_of(data@),
        r@.len() == 32,
{
    let mut hasher = sha2::Sha256::new();
    hasher.update(data);
    hasher.finalize().to_vec()
}

pub open spec fn hex_digits() -> Seq<char> {
    seq!['0', '1', '2', '3', '4', '5', '6', '7', '8', '9', 'a', 'b', 'c', 'd', 'e', 'f']
}

/// Lower-case hex of a byte string: two digits per byte, the high half first.
pub open spec fn hex_lower(b: Seq<u8>) -> Seq<char> {
    Seq::new(
        2 * b.len(),
        |i: int|
            if i % 2 == 0 {
                hex_digits()[b[i / 2] as int / 16]
            } else {
                hex_digits()[b[i / 2] as int % 16]
            },
    )
}

/// Relies on `hex::encode`: two lower-case hex digits per byte, high nibble first.
#[verifier::external_body]
fn hex_encode(data: &[u8]) -> (r: String)
    ensures
        r@ == hex_lower(data@),
{
    hex::encode(data)
}

/// Relies on `std::str::from_utf8`: the bytes as text when they are valid UTF-8.
#[verifier::external_body]
fn utf8_text(bytes: &[u8]) -> (r: Option<&str>)
    ensures
        match r {
            Some(s) => valid_utf8(bytes@) && s.spec_bytes() == bytes@,
            None => !valid_utf8(bytes@),
        },
{
    std::str::from_utf8(bytes).ok()
}

/// The commitment to a plaintext: lower-case hex of its SHA-256 digest.
pub open spec fn commitment_of(data: Seq<u8>) -> Seq<char> {
    hex_lower(sha256_of(data))
}

/// Identity under which every order of a round is encrypted: `"ROUND:"` followed by the
/// round number in big-endian order.
pub open spec fn timelock_identity(round_id: u64) -> Seq<u8> {
    seq![82u8, 79u8, 85u8, 78u8, 68u8, 58u8] + Seq::new(
        8,
        |i: int| ((round_id >> (56 - 8 * i) as u64) & 0xff) as u8,
    )
}

pub fn generate_timelock_identity(round_id: u64) -> (r: Vec<u8>)
    ensures
        r@ == timelock_identity(round_id),
{
    let mut identity: Vec<u8> = Vec::new();
    identity.push(82u8);
    identity.push(79u8);
    identity.push(85u8);
    identity.push(78u8);
    identity.push(68u8);
    identity.push(58u8);
    let mut i: u64 = 0;
    while i < 8
        invariant
            i <= 8,
            identity@.len() == 6 + i,
            identity@ =~= timelock_identity(round_id).take(6 + i),
        decreases 8 - i,
    {
        let shift: u64 = 56 - 8 * i;
        identity.push(((round_id >> shift) & 0xff) as u8);
        i = i + 1;
        assert(identity@ =~= timelock_identity(round_id).take(6 + i));
    }
    identity
}

/// The commitment hash of a plaintext order.
pub fn generate_commitment_hash(order_data: &str) -> (r: String)
    ensures
        r@ == commitment_of(order_data.spec_bytes()),
        r@.len() == 64,
{
    let digest = sha256_digest(order_data.as_bytes());
    hex_encode(digest.as_slice())
}

/// Why a revealed payload was refused.
#[derive(Clone, Copy, Debug, PartialEq, Eq, Structural)]
pub enum CommitmentError {
    /// The revealed plaintext does not hash to the commitment.
    Mismatch,
    /// The payload of this order is not UTF-8 text.
    InvalidUtf8 { order_id: u64 },
    /// The payload of this order does not hash to its commitment.
    OrderMismatch { order_id: u64 },
}

/// Checks revealed plaintext against its commitment.
pub fn verify_commitment(decrypted_data: &str, commitment_hash: &str) -> (r: Result<bool, CommitmentError>)
    ensures
        r == if commitment_of(decrypted_data.spec_bytes()) == commitment_hash@ {
            Ok::<bool, CommitmentError>(true)
        } else {
            Err(CommitmentError::Mismatch)
        },
{
    let computed = generate_commitment_hash(decrypted_data);
    let expected = commitment_hash.to_owned();
    if computed == expected {
        Ok(true)
    } else {
        Err(CommitmentError::Mismatch)
    }
}

/// Outcome of checking one order's revealed payload.
pub open spec fn order_check(o: Order) -> Result<(), CommitmentError> {
    if !valid_utf8(o.encrypted_payload@) {
        Err(CommitmentError::InvalidUtf8 { order_id: o.id })
    } else if commitment_of(o.encrypted_payload@) != o.commitment_hash@ {
        Err(CommitmentError::OrderMismatch { order_id: o.id })
    } else {
        Ok(())
    }
}

/// Outcome of checking a batch: the first order that fails decides.
pub open spec fn batch_check(orders: Seq<Order>) -> Result<(), CommitmentError>
    decreases orders.len(),
{
    if orders.len() == 0 {
        Ok(())
    } else {
        match order_check(orders[0]) {
            Ok(()) => batch_check(orders.drop_first()),
            Err(e) => Err(e),
        }
    }
}

/// Reveals a round's orders: every payload must be UTF-8 plaintext that hashes to its
/// order's commitment. One failure rejects the whole batch.
pub fn decrypt_order_batch(orders: Vec<Order>) -> (r: Result<Vec<Order>, CommitmentError>)
    ensures
        match batch_check(orders@) {
            Ok(()) => r matches Ok(v) && v@ == orders@,
            Err(e) => r == Err::<Vec<Order>, CommitmentError>(e),
        },
{
    let mut i: usize = 0;
    assert(orders@.skip(0) =~= orders@);
    while i < orders.len()
        invariant
            i <= orders@.len(),
            batch_check(orders@) == batch_check(orders@.skip(i as int)),
        decreases orders.len() - i,
    {
        let o = &orders[i];
        assert(orders@.skip(i as int).drop_first() =~= orders@.skip(i + 1));
        assert(orders@.skip(i as int)[0] == *o);
        match utf8_text(o.encrypted_payload.as_slice()) {
            None => {
                return Err(CommitmentError::InvalidUtf8 { order_id: o.id });
            },
            Some(text) => {
                if verify_commitment(text, o.commitment_hash.as_str()).is_err() {
                    return Err(CommitmentError::OrderMismatch { order_id: o.id });
                }
            },
        }
        i = i + 1;
    }
    Ok(orders)
}

/// Orders whose payloads are UTF-8 plaintexts committed to with `commitment_of` pass the
/// reveal check.
pub proof fn lemma_commitment_round_trip(orders: Seq<Order>)
    requires
        forall|i: int|
            0 <= i < orders.len() ==> valid_utf8((#[trigger] orders[i]).encrypted_payload@)
                && orders[i].commitment_hash@ == commitment_of(orders[i].encrypted_payload@),
    ensures
        batch_check(orders) == Ok::<(), CommitmentError>(()),
    decreases orders.len(),
{
    if orders.len() > 0 {
        let t = orders.drop_first();
        assert forall|i: int| 0 <= i < t.len() implies valid_utf8((#[trigger] t[i]).encrypted_payload@)
            && t[i].commitment_hash@ == commitment_of(t[i].encrypted_payload@) by {
            assert(t[i] == orders[i + 1]);
        }
        assert(valid_utf8(orders[0].encrypted_payload@));
        lemma_commitment_round_trip(t);
    }
}

/// Copies of the same orders pass or fail the reveal check alike.
pub proof fn lemma_same_orders_check(a: Seq<Order>, b: Seq<Order>)
    requires
        crate::types::same_orders(a, b),
    ensures
        batch_check(a) == batch_check(b),
    decreases a.len(),
{
    if a.len() > 0 {
        assert(a[0].same_as(b[0]));
        assert forall|i: int| 0 <= i < a.drop_first().len() implies (#[trigger] a.drop_first()[i]).same_as(
            b.drop_first()[i],
        ) by {
            assert(a[i + 1].same_as(b[i + 1]));
        }
        lemma_same_orders_check(a.drop_first(), b.drop_first());
    }
}

} // verus!
