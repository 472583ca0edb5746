use std::path::PathBuf;
use vstd::prelude::*;

use crate::error::StoreError;
use crate::ranker::is_top_k;

verus! {

/// Declares std::path::PathBuf, opaque here: a store carries the path of its
/// backing file and only hands it back to the caller that does the file work.
#[verifier::external_type_specification]
#[verifier::external_body]
pub struct ExPathBuf(PathBuf);

/// The dimension of the vectors that the service stores.
pub const DEFAULT_DIM: usize = 768;

/// The factor that maps a normalized component in `[-1, 1]` to a code.
pub const DEFAULT_SCALE: u8 = 127;

/// The byte that holds quantized code `c` on disk: its two's-complement form.
pub open spec fn code_byte(c: i8) -> u8 {
    if c >= 0 {
        c as u8
    } else {
        (c as int + 256) as u8
    }
}

/// The code that byte `b` holds.
pub open spec fn byte_code(b: u8) -> i8 {
    if b < 128 {
        b as i8
    } else {
        (b as int - 256) as i8
    }
}

/// The on-disk form of one record.
pub open spec fn record_bytes(codes: Seq<i8>) -> Seq<u8> {
    codes.map_values(|c: i8| code_byte(c))
}

/// A log's bytes read back as codes.
pub open spec fn log_codes(log: Seq<u8>) -> Seq<i8> {
    log.map_values(|b: u8| byte_code(b))
}

/// Record `i` of a log whose records are `dim` codes wide.
pub open spec fn record_at(log: Seq<u8>, dim: nat, i: int) -> Seq<i8> {
    log_codes(log).subrange(i * dim, (i + 1) * dim)
}

/// The log that results from appending `records` in order to an empty log.
pub open spec fn log_of(records: Seq<Seq<i8>>) -> Seq<u8>
    decreases records.len(),
{
    if records.len() == 0 {
        Seq::empty()
    } else {
        log_of(records.drop_last()) + record_bytes(records.last())
    }
}

/// Relies on bytemuck::cast_slice from `i8` to `u8`: one byte per code, with
/// the same bits.
#[verifier::external_body]
fn codes_to_bytes(codes: &[i8]) -> (r: Vec<u8>)
    ensures
        r@ == record_bytes(codes@),
{
    bytemuck::cast_slice::<i8, u8>(codes).to_vec()
}

/// Relies on bytemuck::cast_slice from `u8` to `i8`: one code per byte, with
/// the same bits.
#[verifier::external_body]
fn bytes_to_codes(bytes: &[u8]) -> (r: Vec<i8>)
    ensures
        r@ == log_codes(bytes@),
{
    bytemuck::cast_slice::<u8, i8>(bytes).to_vec()
}

/// An append-only log of fixed-dimension quantized vectors. Record `i` (the
/// `i`-th appended, counting from zero) occupies bytes `[i * dim, (i + 1) * dim)`
/// of the backing file, one signed code per byte, with no header.
#[derive(Debug)]
pub struct VectorStore {
    path: PathBuf,
    dim: usize,
    scale: u8,
}

impl VectorStore {
    #[verifier::type_invariant]
    spec fn inv(&self) -> bool {
        self.dim > 0 && self.scale > 0
    }

    /// The fixed number of components of every vector in the store.
    pub closed spec fn spec_dim(&self) -> nat {
        self.dim as nat
    }

    /// The fixed quantization scale of the store.
    pub closed spec fn spec_scale(&self) -> nat {
        self.scale as nat
    }

    /// A store over the file at `path`, for vectors of `dim` components
    /// quantized with `scale`.
    pub fn new(path: PathBuf, dim: usize, scale: u8) -> (r: VectorStore)
        requires
            dim > 0,
            scale > 0,
        ensures
            r.spec_dim() == dim,
            r.spec_scale() == scale,
    {
        VectorStore { path, dim, scale }
    }

    pub fn path(&self) -> &PathBuf {
        &self.path
    }

    pub fn dim(&self) -> (r: usize)
        ensures
            r == self.spec_dim(),
            r > 0,
    {
        proof {
            use_type_invariant(self);
        }
        self.dim
    }

    pub fn scale(&self) -> (r: u8)
        ensures
            r == self.spec_scale(),
            r > 0,
    {
        proof {
            use_type_invariant(self);
        }
        self.scale
    }

    /// Appends one quantized vector to `log`, the image of the file's tail.
    /// A vector of the wrong length is refused and `log` is left as it was.
    pub fn append_record(&self, log: &mut Vec<u8>, codes: &Vec<i8>) -> (r: Result<(), StoreError>)
        ensures
            r is Ok <==> codes@.len() == self.spec_dim(),
            r is Ok ==> final(log)@ == old(log)@ + record_bytes(codes@),
            r is Err ==> final(log)@ == old(log)@,
            r is Err ==> (r matches Err(StoreError::DimensionMismatch { expected, found })
                && expected == self.spec_dim() && found == codes@.len()),
    {
        proof {
            use_type_invariant(self);
        }
        if codes.len() != self.dim {
            return Err(StoreError::DimensionMismatch { expected: self.dim, found: codes.len() });
        }
        let bytes = codes_to_bytes(codes.as_slice());
        let ghost start = log@;
        let mut j: usize = 0;
        while j < bytes.len()
            invariant
                j <= bytes.len(),
                bytes@ == record_bytes(codes@),
                log@ == start + bytes@.take(j as int),
            decreases bytes.len() - j,
        {
            log.push(bytes[j]);
            j += 1;
            proof {
                assert(bytes@.take(j as int) =~= bytes@.take(j - 1).push(bytes@[j - 1]));
            }
        }
        proof {
            assert(bytes@.take(bytes.len() as int) =~= bytes@);
        }
        Ok(())
    }

    /// The number of whole records in a file of `byte_len` bytes.
    pub fn record_count(&self, byte_len: usize) -> (r: usize)
        ensures
            r == byte_len as nat / self.spec_dim(),
    {
        proof {
            use_type_invariant(self);
        }
        byte_len / self.dim
    }

    /// Splits a log into its records; a partial record at the end is ignored.
    pub fn read_all(&self, log: &Vec<u8>) -> (r: Vec<Vec<i8>>)
        ensures
            r@.len() == log@.len() / self.spec_dim(),
            forall|i: int| 0 <= i < r@.len() ==> (#[trigger] r@[i])@ == record_at(log@, self.spec_dim(), i),
    {
        proof {
            use_type_invariant(self);
        }
        let dim = self.dim;
        let codes = bytes_to_codes(log.as_slice());
        let n = log.len();
        let count = n / dim;
        let ghost d = dim as nat;
        let mut records: Vec<Vec<i8>> = Vec::new();
        let mut i: usize = 0;
        while i < count
            invariant
                dim == d,
                d > 0,
                n == log@.len(),
                count == log@.len() / d,
                codes@ == log_codes(log@),
                i <= count,
                records@.len() == i,
                forall|q: int| 0 <= q < i ==> (#[trigger] records@[q])@ == record_at(log@, d, q),
            decreases count - i,
        {
            proof {
                assert((i + 1) * d <= count * d) by (nonlinear_arith)
                    requires i + 1 <= count;
                assert(count * d <= log@.len()) by (nonlinear_arith)
                    requires count == log@.len() / d, d > 0;
                assert((i + 1) * d == i * d + d) by (nonlinear_arith);
            }
            let start = i * dim;
            let mut rec: Vec<i8> = Vec::new();
            let mut j: usize = 0;
            while j < dim
                invariant
                    dim == d,
                    start == i * d,
                    start + d <= codes@.len(),
                    codes@.len() == n,
                    j <= dim,
                    rec@ == codes@.subrange(start as int, start + j),
                decreases dim - j,
            {
                rec.push(codes[start + j]);
                j += 1;
                proof {
                    assert(rec@ =~= codes@.subrange(start as int, start + j));
                }
            }
            records.push(rec);
            i += 1;
        }
        records
    }

    /// Ranks the store's records for a query of `query_len` components.
    /// `keys[i]` is the order key of record `i`'s score against the query, or
    /// `None` where that score is not a number. A query of the wrong length is
    /// refused; otherwise the result is the exact top-`top_k`, best first.
    pub fn rank(&self, query_len: usize, keys: &Vec<Option<u32>>, top_k: usize) -> (r: Result<
        Vec<(usize, u32)>,
        StoreError,
    >)
        ensures
            r is Ok <==> query_len == self.spec_dim(),
            r matches Ok(best) ==> is_top_k(keys@, top_k as nat, best@),
            r is Err ==> (r matches Err(StoreError::DimensionMismatch { expected, found })
                && expected == self.spec_dim() && found == query_len),
    {
        if query_len != self.dim {
            return Err(StoreError::DimensionMismatch { expected: self.dim, found: query_len });
        }
        Ok(crate::ranker::top_k(keys, top_k))
    }
}

/// After `n` appends of well-sized records to an empty log, the log holds
/// exactly `n * dim` bytes, and so counts `n` records.
pub proof fn lemma_log_length(dim: nat, records: Seq<Seq<i8>>)
    requires
        dim > 0,
        forall|i: int| 0 <= i < records.len() ==> (#[trigger] records[i]).len() == dim,
    ensures
        log_of(records).len() == records.len() * dim,
        log_of(records).len() / dim == records.len(),
    decreases records.len(),
{
    if records.len() > 0 {
        let rest = records.drop_last();
        assert forall|i: int| 0 <= i < rest.len() implies (#[trigger] rest[i]).len() == dim by {
            assert(rest[i] == records[i]);
        }
        lemma_log_length(dim, rest);
        assert(records.len() * dim == rest.len() * dim + dim) by (nonlinear_arith)
            requires records.len() == rest.len() + 1;
    }
    let n = records.len();
    assert((n * dim) / dim == n) by (nonlinear_arith)
        requires dim > 0;
}

/// The log is read back exactly as written: record `i` of the log built by
/// appending `records` is `records[i]`.
pub proof fn lemma_read_back(dim: nat, records: Seq<Seq<i8>>)
    requires
        dim > 0,
        forall|i: int| 0 <= i < records.len() ==> (#[trigger] records[i]).len() == dim,
    ensures
        forall|i: int| 0 <= i < records.len() ==> record_at(log_of(records), dim, i) == records[i],
    decreases records.len(),
{
    if records.len() > 0 {
        let rest = records.drop_last();
        let last = records.last();
        assert forall|i: int| 0 <= i < rest.len() implies (#[trigger] rest[i]).len() == dim by {
            assert(rest[i] == records[i]);
        }
        lemma_read_back(dim, rest);
        lemma_log_length(dim, rest);
        let front = log_of(rest);
        let whole = log_of(records);
        assert(log_codes(whole) =~= log_codes(front) + log_codes(record_bytes(last)));
        assert(log_codes(record_bytes(last)) =~= last);
        assert forall|i: int| 0 <= i < records.len() implies record_at(whole, dim, i)
            == records[i] by {
            assert((i + 1) * dim == i * dim + dim) by (nonlinear_arith);
            if i < rest.len() {
                assert((i + 1) * dim <= rest.len() * dim) by (nonlinear_arith)
                    requires i + 1 <= rest.len();
                assert(record_at(whole, dim, i) =~= record_at(front, dim, i));
                assert(rest[i] == records[i]);
            } else {
                assert(i * dim == rest.len() * dim);
                assert(record_at(whole, dim, i) =~= last);
            }
        }
    }
}

} // verus!
