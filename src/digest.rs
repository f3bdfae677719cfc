use vstd::prelude::*;

use sha2::Digest;

use crate::text::push_char;

verus! {

/// The SHA-256 digest of `data`.
pub uninterp spec fn sha256_of(data: Seq<u8>) -> Seq<u8>;

/// Relies on `sha2::Sha256::digest` (through the `Digest` trait): the SHA-256
/// digest of the bytes, 32 bytes long.
#[verifier::external_body]
fn sha256(data: &[u8]) -> (r: Vec<u8>)
    ensures
        r@ == sha256_of(data@),
        r@.len() == 32,
{
    sha2::Sha256::digest(data).to_vec()
}

/// Lower-case hexadecimal digit of `v` (below 16).
pub open spec fn hex_digit(v: int) -> char {
    if v < 10 {
        (v + 48) as char
    } else {
        (v + 87) as char
    }
}

/// Lower-case hexadecimal text of the bytes, two digits each, high digit first.
pub open spec fn hex_of(b: Seq<u8>) -> Seq<char>
    decreases b.len(),
{
    if b.len() == 0 {
        seq![]
    } else {
        hex_of(b.drop_last()) + seq![hex_digit(b.last() as int / 16), hex_digit(b.last() as int % 16)]
    }
}

fn hex_char(v: u8) -> (r: char)
    requires
        v < 16,
    ensures
        r == hex_digit(v as int),
{
    if v < 10 {
        (v + 48) as char
    } else {
        (v + 87) as char
    }
}

/// Lower-case hexadecimal text of `b`.
pub fn to_hex(b: &[u8]) -> (r: String)
    ensures
        r@ == hex_of(b@),
{
    let mut out = String::new();
    let mut i: usize = 0;
    while i < b.len()
        invariant
            i <= b@.len(),
            out@ == hex_of(b@.take(i as int)),
        decreases b@.len() - i,
    {
        proof {
            assert(b@.take(i + 1).drop_last() =~= b@.take(i as int));
            assert(b@.take(i + 1).last() == b@[i as int]);
        }
        push_char(&mut out, hex_char(b[i] / 16));
        push_char(&mut out, hex_char(b[i] % 16));
        assert(out@ =~= hex_of(b@.take(i + 1)));
        i = i + 1;
    }
    assert(b@.take(b@.len() as int) =~= b@);
    out
}

proof fn lemma_hex_len(b: Seq<u8>)
    ensures
        hex_of(b).len() == 2 * b.len(),
    decreases b.len(),
{
    if b.len() > 0 {
        lemma_hex_len(b.drop_last());
    }
}

/// Different bytes have different hexadecimal texts.
pub proof fn lemma_hex_injective(a: Seq<u8>, b: Seq<u8>)
    requires
        hex_of(a) == hex_of(b),
    ensures
        a == b,
    decreases a.len(),
{
    lemma_hex_len(a);
    lemma_hex_len(b);
    if a.len() > 0 {
        let ha = hex_of(a);
        let n = ha.len() as int;
        assert(ha.take(n - 2) == hex_of(a.drop_last()));
        assert(hex_of(b).take(n - 2) == hex_of(b.drop_last()));
        lemma_hex_injective(a.drop_last(), b.drop_last());
        assert(ha[n - 2] == hex_digit(a.last() as int / 16) && ha[n - 1] == hex_digit(a.last() as int % 16));
        assert(hex_of(b)[n - 2] == hex_digit(b.last() as int / 16) && hex_of(b)[n - 1] == hex_digit(
            b.last() as int % 16,
        ));
        assert(a.last() == b.last());
        assert(a =~= a.drop_last().push(a.last()));
        assert(b =~= b.drop_last().push(b.last()));
    } else {
        assert(a =~= b);
    }
}

/// The stored form of the input's digest: SHA-256 of its bytes as 64
/// lower-case hexadecimal digits.
pub fn digest_hex(data: &[u8]) -> (r: String)
    ensures
        r@ == hex_of(sha256_of(data@)),
        r@.len() == 64,
{
    let d = sha256(data);
    proof {
        lemma_hex_len(d@);
    }
    to_hex(d.as_slice())
}

/// What to do with an input, given the digest stored by the last ingest.
#[derive(Clone, Copy, PartialEq, Eq, Structural, Debug)]
pub enum IngestPlan {
    /// The stored digest is the input's: the store already holds its rows.
    Skip,
    /// Replace the rows of `traj` by the input's, then store its digest.
    Ingest,
}

pub open spec fn plan_spec(stored: Option<Seq<char>>, digest: Seq<char>) -> IngestPlan {
    match stored {
        Some(h) => if h == digest {
            IngestPlan::Skip
        } else {
            IngestPlan::Ingest
        },
        None => IngestPlan::Ingest,
    }
}

pub open spec fn opt_view(s: Option<String>) -> Option<Seq<char>> {
    match s {
        Some(t) => Some(t@),
        None => None,
    }
}

/// Decides between skipping and ingesting from the stored digest, if any,
/// and the input's digest.
pub fn plan_ingest(stored: &Option<String>, digest: &String) -> (r: IngestPlan)
    ensures
        r == plan_spec(opt_view(*stored), digest@),
{
    match stored {
        Some(h) => if *h == *digest {
            IngestPlan::Skip
        } else {
            IngestPlan::Ingest
        },
        None => IngestPlan::Ingest,
    }
}

/// Digest idempotence: once an input's digest is stored, a run on the same
/// bytes skips.
pub proof fn lemma_unchanged_input_skips(data: Seq<u8>)
    ensures
        plan_spec(Some(hex_of(sha256_of(data))), hex_of(sha256_of(data))) == IngestPlan::Skip,
{
}

/// Digest sensitivity, as far as the digest goes: a run on bytes whose digest
/// differs from the stored input's ingests.
pub proof fn lemma_changed_digest_ingests(stored_data: Seq<u8>, data: Seq<u8>)
    requires
        sha256_of(stored_data) != sha256_of(data),
    ensures
        plan_spec(Some(hex_of(sha256_of(stored_data))), hex_of(sha256_of(data)))
            == IngestPlan::Ingest,
{
    if hex_of(sha256_of(stored_data)) == hex_of(sha256_of(data)) {
        lemma_hex_injective(sha256_of(stored_data), sha256_of(data));
    }
}

} // verus!
