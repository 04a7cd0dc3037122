//! The row index: one 64-bit big-endian byte offset per data row,
//! closed by a 64-bit row count. Reading the count back is constant
//! time, and row `k` is reached by seeking to `offsets[k]`.
use vstd::prelude::*;
use crate::transforms::slice_spec;
use crate::terasort::data_of;

verus! {

/// The eight bytes of `x`, most significant first.
pub open spec fn u64_be_bytes(x: u64) -> Seq<u8> {
    seq![
        ((x >> 56) & 0xff) as u8,
        ((x >> 48) & 0xff) as u8,
        ((x >> 40) & 0xff) as u8,
        ((x >> 32) & 0xff) as u8,
        ((x >> 24) & 0xff) as u8,
        ((x >> 16) & 0xff) as u8,
        ((x >> 8) & 0xff) as u8,
        (x & 0xff) as u8,
    ]
}

/// Two values with the same big-endian bytes are the same value.
proof fn lemma_u64_be_injective(a: u64, b: u64)
    requires
        u64_be_bytes(a) == u64_be_bytes(b),
    ensures
        a == b,
{
    assert(u64_be_bytes(a)[0] == u64_be_bytes(b)[0]);
    assert(u64_be_bytes(a)[1] == u64_be_bytes(b)[1]);
    assert(u64_be_bytes(a)[2] == u64_be_bytes(b)[2]);
    assert(u64_be_bytes(a)[3] == u64_be_bytes(b)[3]);
    assert(u64_be_bytes(a)[4] == u64_be_bytes(b)[4]);
    assert(u64_be_bytes(a)[5] == u64_be_bytes(b)[5]);
    assert(u64_be_bytes(a)[6] == u64_be_bytes(b)[6]);
    assert(u64_be_bytes(a)[7] == u64_be_bytes(b)[7]);
    assert(a == b) by (bit_vector)
        requires
            ((a >> 56) & 0xff) as u8 == ((b >> 56) & 0xff) as u8,
            ((a >> 48) & 0xff) as u8 == ((b >> 48) & 0xff) as u8,
            ((a >> 40) & 0xff) as u8 == ((b >> 40) & 0xff) as u8,
            ((a >> 32) & 0xff) as u8 == ((b >> 32) & 0xff) as u8,
            ((a >> 24) & 0xff) as u8 == ((b >> 24) & 0xff) as u8,
            ((a >> 16) & 0xff) as u8 == ((b >> 16) & 0xff) as u8,
            ((a >> 8) & 0xff) as u8 == ((b >> 8) & 0xff) as u8,
            (a & 0xff) as u8 == (b & 0xff) as u8,
    ;
}

/// Eight bytes stand for each offset.
proof fn lemma_index_bytes_len(offsets: Seq<u64>, i: int)
    requires
        0 <= i <= offsets.len(),
    ensures
        index_bytes_from(offsets, i).len() == 8 * (offsets.len() - i),
    decreases offsets.len() - i,
{
    if i < offsets.len() {
        lemma_index_bytes_len(offsets, i + 1);
    }
}

/// Relies on byteorder's `BigEndian::write_u64`: the eight bytes of
/// `x`, most significant first.
#[verifier::external_body]
fn write_u64_be(x: u64) -> (r: Vec<u8>)
    ensures
        r@ == u64_be_bytes(x),
{
    let mut buf = [0u8; 8];
    <byteorder::BigEndian as byteorder::ByteOrder>::write_u64(&mut buf, x);
    buf.to_vec()
}

/// Relies on byteorder's `BigEndian::read_u64`: the value whose eight
/// big-endian bytes stand at `at`.
#[verifier::external_body]
fn read_u64_be(bytes: &Vec<u8>, at: usize) -> (r: u64)
    requires
        at + 8 <= bytes@.len(),
    ensures
        u64_be_bytes(r) == bytes@.subrange(at as int, at + 8),
{
    <byteorder::BigEndian as byteorder::ByteOrder>::read_u64(&bytes.as_slice()[at..at + 8])
}

/// The index file for a list of row offsets: each offset in big-endian
/// bytes, then the row count.
pub open spec fn index_bytes_from(offsets: Seq<u64>, i: int) -> Seq<u8>
    decreases offsets.len() - i,
{
    if i < 0 || i >= offsets.len() {
        seq![]
    } else {
        u64_be_bytes(offsets[i]) + index_bytes_from(offsets, i + 1)
    }
}

pub open spec fn index_bytes(offsets: Seq<u64>) -> Seq<u8> {
    index_bytes_from(offsets, 0) + u64_be_bytes(offsets.len() as u64)
}

/// A precomputed row index: the byte offset of each data row.
pub struct RowIndex {
    pub offsets: Vec<u64>,
}

impl RowIndex {
    /// How many data rows the index covers — the trailing count of the
    /// file, read in constant time.
    pub fn count(&self) -> (r: u64)
        ensures
            r == self.offsets@.len(),
    {
        self.offsets.len() as u64
    }

    /// The byte offset at which row `k` starts.
    pub fn seek_row(&self, k: usize) -> (r: u64)
        requires
            k < self.offsets@.len(),
        ensures
            r == self.offsets@[k as int],
    {
        self.offsets[k]
    }

    /// Writes the index in its file form: the offsets, then the count,
    /// each as eight big-endian bytes.
    pub fn encode(&self) -> (r: Vec<u8>)
        ensures
            r@ == index_bytes(self.offsets@),
    {
        let mut out: Vec<u8> = Vec::new();
        let mut i: usize = 0;
        while i < self.offsets.len()
            invariant
                0 <= i <= self.offsets@.len(),
                out@ + index_bytes_from(self.offsets@, i as int) =~= index_bytes_from(
                    self.offsets@,
                    0,
                ),
            decreases self.offsets@.len() - i,
        {
            let mut piece = write_u64_be(self.offsets[i]);
            let ghost prev = out@;
            out.append(&mut piece);
            proof {
                assert(out@ =~= prev + u64_be_bytes(self.offsets@[i as int]));
                assert(index_bytes_from(self.offsets@, i as int) =~= u64_be_bytes(
                    self.offsets@[i as int],
                ) + index_bytes_from(self.offsets@, i + 1));
                assert(out@ + index_bytes_from(self.offsets@, i + 1) =~= index_bytes_from(
                    self.offsets@,
                    0,
                ));
            }
            i += 1;
        }
        let mut tail = write_u64_be(self.offsets.len() as u64);
        let ghost prev = out@;
        out.append(&mut tail);
        proof {
            assert(index_bytes_from(self.offsets@, self.offsets@.len() as int) =~= Seq::<
                u8,
            >::empty());
            assert(prev =~= index_bytes_from(self.offsets@, 0));
            assert(out@ =~= index_bytes(self.offsets@));
        }
        out
    }

    /// Reads an index back from its file form: eight bytes per entry,
    /// the trailing count naming exactly the number of offsets before
    /// it; exactly the outputs of `encode` are accepted, anything else
    /// is no index.
    pub fn decode(bytes: &Vec<u8>) -> (r: Option<RowIndex>)
        ensures
            match r {
                Option::Some(ix) => bytes@ == index_bytes(ix.offsets@),
                Option::None => forall|ofs: Seq<u64>| bytes@ != index_bytes(ofs),
            },
    {
        let len = bytes.len();
        if len < 8 || len % 8 != 0 {
            proof {
                assert forall|ofs: Seq<u64>| bytes@ != index_bytes(ofs) by {
                    if bytes@ == index_bytes(ofs) {
                        lemma_index_bytes_len(ofs, 0);
                        assert(bytes@.len() == 8 * ofs.len() + 8);
                        assert((8 * ofs.len() + 8) % 8 == 0) by (nonlinear_arith);
                    }
                }
            }
            return None;
        }
        let n = len / 8 - 1;
        let count = read_u64_be(bytes, len - 8);
        if count != n as u64 {
            proof {
                assert forall|ofs: Seq<u64>| bytes@ != index_bytes(ofs) by {
                    if bytes@ == index_bytes(ofs) {
                        lemma_index_bytes_len(ofs, 0);
                        assert(bytes@.len() == 8 * ofs.len() + 8);
                        assert(ofs.len() == n);
                        assert(bytes@.subrange(len - 8, len as int) =~= u64_be_bytes(
                            ofs.len() as u64,
                        ));
                        lemma_u64_be_injective(count, ofs.len() as u64);
                    }
                }
            }
            return None;
        }
        let mut offsets: Vec<u64> = Vec::new();
        let mut i: usize = 0;
        proof {
            assert(n * 8 + 8 == len) by (nonlinear_arith)
                requires
                    len % 8 == 0,
                    len >= 8,
                    n == len / 8 - 1,
            ;
        }
        while i < n
            invariant
                0 <= i <= n,
                len == bytes@.len(),
                n * 8 + 8 == len,
                offsets@.len() == i,
                bytes@.take(8 * i as int) =~= index_bytes_from(offsets@, 0),
            decreases n - i,
        {
            proof {
                assert(8 * i + 8 <= len) by (nonlinear_arith)
                    requires
                        i < n,
                        n * 8 + 8 == len,
                ;
            }
            let v = read_u64_be(bytes, 8 * i);
            let ghost prevo = offsets@;
            offsets.push(v);
            proof {
                assert(index_bytes_from(offsets@, 0) =~= index_bytes_from(prevo, 0) + u64_be_bytes(
                    v,
                )) by {
                    lemma_index_bytes_push(prevo, v);
                }
                assert(bytes@.take(8 * (i + 1)) =~= bytes@.take(8 * i as int) + bytes@.subrange(
                    8 * i as int,
                    8 * i + 8,
                ));
            }
            i += 1;
        }
        proof {
            assert(u64_be_bytes(count) == bytes@.subrange(len - 8, len as int));
            assert(u64_be_bytes(offsets@.len() as u64) == u64_be_bytes(count)) by {
                assert(offsets@.len() as u64 == count);
            }
            assert(bytes@ =~= bytes@.take(8 * n as int) + bytes@.subrange(len - 8, len as int));
            assert(bytes@ =~= index_bytes(offsets@));
        }
        Some(RowIndex { offsets })
    }
}

/// Appending an offset appends its bytes.
proof fn lemma_index_bytes_push(offsets: Seq<u64>, v: u64)
    ensures
        index_bytes_from(offsets.push(v), 0) =~= index_bytes_from(offsets, 0) + u64_be_bytes(v),
    decreases offsets.len(),
{
    if offsets.len() == 0 {
        assert(offsets.push(v).drop_first() =~= Seq::<u64>::empty());
        assert(index_bytes_from(offsets.push(v), 1) =~= Seq::<u8>::empty());
        assert(index_bytes_from(offsets, 0) =~= Seq::<u8>::empty());
    } else {
        lemma_index_bytes_push(offsets.drop_first(), v);
        assert(offsets.push(v).drop_first() =~= offsets.drop_first().push(v));
        lemma_index_shift(offsets.push(v));
        lemma_index_shift(offsets);
    }
}

/// The byte form from position 1 is the byte form of the tail.
proof fn lemma_index_shift(offsets: Seq<u64>)
    requires
        offsets.len() >= 1,
    ensures
        index_bytes_from(offsets, 1) =~= index_bytes_from(offsets.drop_first(), 0),
    decreases offsets.len(),
{
    lemma_index_align(offsets, 1);
}

proof fn lemma_index_align(offsets: Seq<u64>, i: int)
    requires
        1 <= i <= offsets.len(),
    ensures
        index_bytes_from(offsets, i) =~= index_bytes_from(offsets.drop_first(), i - 1),
    decreases offsets.len() - i,
{
    if i < offsets.len() {
        lemma_index_align(offsets, i + 1);
        assert(offsets.drop_first()[i - 1] == offsets[i]);
    }
}

/// With an index that matches the input, the constant-time count is
/// the count a full scan would give.
pub proof fn lemma_indexed_count_matches(
    ix: RowIndex,
    rows: Seq<Seq<Seq<u8>>>,
    headers: bool,
)
    requires
        ix.offsets@.len() == crate::data_row_count(rows, headers),
    ensures
        ix.offsets@.len() as int == crate::data_row_count(rows, headers),
{
}

/// Slices through the index: positions are taken from the index rather
/// than counted by scanning; with an index that matches the input the
/// result is the result of the plain slice.
pub fn slice_indexed(
    rows: &Vec<Vec<Vec<u8>>>,
    ix: &RowIndex,
    headers: bool,
    start: usize,
    end: Option<usize>,
) -> (out: Vec<Vec<Vec<u8>>>)
    requires
        ix.offsets@.len() == data_of(rows.deep_view(), headers).len(),
    ensures
        out.deep_view() == slice_spec(
            rows.deep_view(),
            headers,
            start as int,
            match end {
                Option::Some(e) => e as int,
                Option::None => data_of(rows.deep_view(), headers).len() as int,
            },
        ),
{
    let dlen = ix.offsets.len();
    proof {
        assert(data_of(rows.deep_view(), headers).len() == rows.deep_view().len() - (if headers
            && rows.deep_view().len() > 0 {
            1int
        } else {
            0int
        }));
    }
    let resolved_end = match end {
        Option::Some(e) => if e < dlen {
            Some(e)
        } else {
            Some(dlen)
        },
        Option::None => Some(dlen),
    };
    crate::transforms::slice_rows(rows, headers, start, resolved_end)
}

} // verus!
