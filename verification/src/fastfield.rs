//! The GCD columnar codec.
//!
//! A column of `u64` values is stored as the quotients `(v - min) / gcd`
//! handed to an inner fixed-width codec, followed by a fixed 16-byte footer
//! holding `gcd` and then `min`, each as 8 little-endian bytes. Reading
//! undoes the transformation by a multiply and an add per value.

use crate::gcd::{divides, find_gcd, lemma_seq_gcd_divides_all, seq_gcd};
use vstd::arithmetic::div_mod::lemma_fundamental_div_mod;
use vstd::bytes::{
    lemma_auto_spec_u16_to_from_le_bytes, lemma_auto_spec_u32_to_from_le_bytes,
    lemma_auto_spec_u64_to_from_le_bytes, spec_u16_from_le_bytes, spec_u16_to_le_bytes,
    spec_u32_from_le_bytes, spec_u32_to_le_bytes, spec_u64_from_le_bytes, spec_u64_to_le_bytes,
    u16_from_le_bytes, u16_to_le_bytes, u32_from_le_bytes, u32_to_le_bytes, u64_from_le_bytes,
    u64_to_le_bytes,
};
use vstd::prelude::*;
use vstd::slice::slice_subrange;

verus! {

/// Why a column image could not be opened.
#[derive(Clone, Copy, PartialEq, Eq, Structural, Debug)]
pub enum DecodeError {
    /// The buffer is too short to hold the mandatory 16-byte footer.
    TooShort,
    /// The body is not a well-formed image of the inner codec.
    Corrupt,
}

/// The least value of a non-empty column.
pub open spec fn seq_min(s: Seq<u64>) -> u64
    recommends
        s.len() > 0,
    decreases s.len(),
{
    if s.len() <= 1 {
        s[0]
    } else if s.last() < seq_min(s.drop_last()) {
        s.last()
    } else {
        seq_min(s.drop_last())
    }
}

/// The greatest value of a non-empty column.
pub open spec fn seq_max(s: Seq<u64>) -> u64
    recommends
        s.len() > 0,
    decreases s.len(),
{
    if s.len() <= 1 {
        s[0]
    } else if s.last() > seq_max(s.drop_last()) {
        s.last()
    } else {
        seq_max(s.drop_last())
    }
}

/// The minimum is a lower bound and is attained.
pub proof fn lemma_seq_min_properties(s: Seq<u64>)
    requires
        s.len() > 0,
    ensures
        forall|i: int| 0 <= i < s.len() ==> seq_min(s) <= #[trigger] s[i],
        exists|i: int| 0 <= i < s.len() && seq_min(s) == #[trigger] s[i],
    decreases s.len(),
{
    if s.len() > 1 {
        lemma_seq_min_properties(s.drop_last());
        assert(forall|i: int| 0 <= i < s.len() - 1 ==> s.drop_last()[i] == s[i]);
        if seq_min(s) == s.last() {
            assert(seq_min(s) == s[s.len() - 1]);
        } else {
            let i = choose|i: int|
                0 <= i < s.drop_last().len() && seq_min(s.drop_last()) == #[trigger] s.drop_last()[i];
            assert(seq_min(s) == s[i]);
        }
    } else {
        assert(seq_min(s) == s[0]);
    }
}

/// The maximum is an upper bound and is attained.
pub proof fn lemma_seq_max_properties(s: Seq<u64>)
    requires
        s.len() > 0,
    ensures
        forall|i: int| 0 <= i < s.len() ==> #[trigger] s[i] <= seq_max(s),
        exists|i: int| 0 <= i < s.len() && seq_max(s) == #[trigger] s[i],
    decreases s.len(),
{
    if s.len() > 1 {
        lemma_seq_max_properties(s.drop_last());
        assert(forall|i: int| 0 <= i < s.len() - 1 ==> s.drop_last()[i] == s[i]);
        if seq_max(s) == s.last() {
            assert(seq_max(s) == s[s.len() - 1]);
        } else {
            let i = choose|i: int|
                0 <= i < s.drop_last().len() && seq_max(s.drop_last()) == #[trigger] s.drop_last()[i];
            assert(seq_max(s) == s[i]);
        }
    } else {
        assert(seq_max(s) == s[0]);
    }
}

proof fn lemma_seq_min_take_step(s: Seq<u64>, i: int)
    requires
        0 <= i < s.len(),
    ensures
        i == 0 ==> seq_min(s.take(1)) == s[0],
        i > 0 ==> seq_min(s.take(i + 1)) == (if s[i] < seq_min(s.take(i)) {
            s[i]
        } else {
            seq_min(s.take(i))
        }),
        i == 0 ==> seq_max(s.take(1)) == s[0],
        i > 0 ==> seq_max(s.take(i + 1)) == (if s[i] > seq_max(s.take(i)) {
            s[i]
        } else {
            seq_max(s.take(i))
        }),
{
    let t = s.take(i + 1);
    assert(t.last() == s[i]);
    assert(t.drop_last() =~= s.take(i));
}

/// The capability set of an inner columnar reader: open a byte image,
/// fetch the value of one document, and report the least and greatest
/// stored values. `decode_spec` fixes, per implementation, which byte
/// images are well formed and what values they hold; the methods are
/// exact with respect to it.
pub trait FastFieldCodecReader: Sized {
    /// The values a byte image decodes to, or `None` if it is not well
    /// formed for this codec.
    spec fn decode_spec(bytes: Seq<u8>) -> Option<Seq<u64>>;

    /// The values this reader was opened over.
    spec fn values(&self) -> Seq<u64>;

    /// Open a reader over a byte image.
    fn open_from_bytes(bytes: &[u8]) -> (r: Result<Self, DecodeError>)
        ensures
            match r {
                Ok(c) => Self::decode_spec(bytes@) == Some(c.values()),
                Err(e) => Self::decode_spec(bytes@) is None && e == DecodeError::Corrupt,
            },
    ;

    /// The stored value of document `doc`.
    fn get_u64(&self, doc: u64) -> (r: u64)
        requires
            doc < self.values().len(),
        ensures
            r == self.values()[doc as int],
    ;

    /// The least stored value.
    fn min_value(&self) -> (r: u64)
        requires
            self.values().len() > 0,
        ensures
            r == seq_min(self.values()),
    ;

    /// The greatest stored value.
    fn max_value(&self) -> (r: u64)
        requires
            self.values().len() > 0,
        ensures
            r == seq_max(self.values()),
    ;
}

/// Reference-counted immutable byte buffer of the `ownedbytes` crate,
/// the form in which column images arrive (possibly memory-mapped).
#[verifier::external_type_specification]
#[verifier::external_body]
pub struct ExOwnedBytes(ownedbytes::OwnedBytes);

/// The bytes an `OwnedBytes` buffer holds.
pub uninterp spec fn owned_bytes_content(b: ownedbytes::OwnedBytes) -> Seq<u8>;

/// Relies on `ownedbytes::OwnedBytes::new`, which wraps a stably
/// dereferenceable byte container without altering its contents.
#[verifier::external_body]
pub fn owned_bytes_from_vec(v: Vec<u8>) -> (b: ownedbytes::OwnedBytes)
    ensures
        owned_bytes_content(b) == v@,
{
    ownedbytes::OwnedBytes::new(v)
}

/// Relies on `ownedbytes::OwnedBytes::as_slice`, which returns the
/// underlying byte slice.
#[verifier::external_body]
pub fn owned_bytes_as_slice(b: &ownedbytes::OwnedBytes) -> (s: &[u8])
    ensures
        s@ == owned_bytes_content(*b),
{
    b.as_slice()
}

/// Append the 16-byte column footer: `gcd` then `min_value`, each as 8
/// little-endian bytes. The field order is part of the wire contract and
/// matches what `GCDFastFieldCodec::open_from_bytes` reads back.
pub fn write_gcd_header(field_write: &mut Vec<u8>, min_value: u64, gcd: u64)
    ensures
        final(field_write)@ == old(field_write)@ + spec_u64_to_le_bytes(gcd)
            + spec_u64_to_le_bytes(min_value),
{
    let mut gcd_bytes = u64_to_le_bytes(gcd);
    field_write.append(&mut gcd_bytes);
    let mut min_bytes = u64_to_le_bytes(min_value);
    field_write.append(&mut min_bytes);
}

/// Exclusive upper bound of the values a width-`w` group can store.
pub open spec fn bw_bound(w: int) -> int {
    if w == 1 {
        0x100
    } else if w == 2 {
        0x1_0000
    } else if w == 4 {
        0x1_0000_0000
    } else {
        0x1_0000_0000_0000_0000
    }
}

/// The value of the `i`-th group of a byte-width image with width `w`.
pub open spec fn bw_group_val(bytes: Seq<u8>, w: int, i: int) -> u64 {
    let off: int = 1 + i * w;
    if w == 1 {
        bytes[off] as u64
    } else if w == 2 {
        spec_u16_from_le_bytes(bytes.subrange(off, off + 2)) as u64
    } else if w == 4 {
        spec_u32_from_le_bytes(bytes.subrange(off, off + 4)) as u64
    } else {
        spec_u64_from_le_bytes(bytes.subrange(off, off + 8))
    }
}

/// In-memory reader of the byte-width codec. Its image is one width byte
/// `w` (1, 2, 4 or 8) followed by each stored value as `w` little-endian
/// bytes.
pub struct ByteWidthCodec {
    values: Vec<u64>,
}

impl FastFieldCodecReader for ByteWidthCodec {
    open spec fn decode_spec(bytes: Seq<u8>) -> Option<Seq<u64>> {
        if bytes.len() < 1 {
            None
        } else {
            let w = bytes[0] as int;
            if !(w == 1 || w == 2 || w == 4 || w == 8) {
                None
            } else if (bytes.len() - 1) % w != 0 {
                None
            } else {
                Some(
                    Seq::new(
                        ((bytes.len() - 1) / w) as nat,
                        |i: int| bw_group_val(bytes, w, i),
                    ),
                )
            }
        }
    }

    closed spec fn values(&self) -> Seq<u64> {
        self.values@
    }

    fn open_from_bytes(bytes: &[u8]) -> (r: Result<Self, DecodeError>) {
        if bytes.len() < 1 {
            return Err(DecodeError::Corrupt);
        }
        let w: usize = bytes[0] as usize;
        if !(w == 1 || w == 2 || w == 4 || w == 8) {
            return Err(DecodeError::Corrupt);
        }
        if (bytes.len() - 1) % w != 0 {
            return Err(DecodeError::Corrupt);
        }
        let n: usize = (bytes.len() - 1) / w;
        proof {
            lemma_fundamental_div_mod(bytes@.len() as int - 1, w as int);
            assert(n * w == bytes@.len() - 1) by (nonlinear_arith)
                requires
                    n == (bytes@.len() - 1) as int / w as int,
                    (bytes@.len() - 1) as int % (w as int) == 0,
                    w >= 1,
                    bytes@.len() >= 1,
                    (bytes@.len() - 1) as int == w as int * ((bytes@.len() - 1) as int / w as int)
                        + (bytes@.len() - 1) as int % (w as int);
        }
        let mut values: Vec<u64> = Vec::new();
        let mut i: usize = 0;
        while i < n
            invariant
                w == 1 || w == 2 || w == 4 || w == 8,
                bytes@.len() >= 1,
                bytes@[0] as int == w as int,
                n * w == bytes@.len() - 1,
                0 <= i <= n,
                values@.len() == i,
                forall|j: int| 0 <= j < i ==> values@[j] == bw_group_val(bytes@, w as int, j),
            decreases n - i,
        {
            proof {
                assert((i + 1) * w <= n * w && i * w <= n * w) by (nonlinear_arith)
                    requires
                        i < n,
                        w >= 1;
                assert((i + 1) * w == i * w + w) by (nonlinear_arith);
            }
            let off: usize = 1 + i * w;
            let v: u64;
            if w == 1 {
                v = bytes[off] as u64;
            } else if w == 2 {
                v = u16_from_le_bytes(slice_subrange(bytes, off, off + 2)) as u64;
            } else if w == 4 {
                v = u32_from_le_bytes(slice_subrange(bytes, off, off + 4)) as u64;
            } else {
                v = u64_from_le_bytes(slice_subrange(bytes, off, off + 8));
            }
            proof {
                assert(v == bw_group_val(bytes@, w as int, i as int));
            }
            values.push(v);
            i = i + 1;
        }
        proof {
            assert(Self::decode_spec(bytes@) == Some(
                Seq::new(n as nat, |j: int| bw_group_val(bytes@, w as int, j)),
            ));
            assert(values@ =~= Seq::new(n as nat, |j: int| bw_group_val(bytes@, w as int, j)));
        }
        Ok(ByteWidthCodec { values })
    }

    fn get_u64(&self, doc: u64) -> (r: u64) {
        let n: usize = self.values.len();
        proof {
            assert(doc < n as u64);
        }
        self.values[doc as usize]
    }

    fn min_value(&self) -> (r: u64) {
        let mut m: u64 = self.values[0];
        proof {
            lemma_seq_min_take_step(self.values@, 0);
        }
        let mut i: usize = 1;
        while i < self.values.len()
            invariant
                self.values@.len() > 0,
                1 <= i <= self.values@.len(),
                m == seq_min(self.values@.take(i as int)),
            decreases self.values@.len() - i,
        {
            proof {
                lemma_seq_min_take_step(self.values@, i as int);
            }
            let v = self.values[i];
            if v < m {
                m = v;
            }
            i = i + 1;
        }
        proof {
            assert(self.values@.take(self.values@.len() as int) =~= self.values@);
        }
        m
    }

    fn max_value(&self) -> (r: u64) {
        let mut m: u64 = self.values[0];
        proof {
            lemma_seq_min_take_step(self.values@, 0);
        }
        let mut i: usize = 1;
        while i < self.values.len()
            invariant
                self.values@.len() > 0,
                1 <= i <= self.values@.len(),
                m == seq_max(self.values@.take(i as int)),
            decreases self.values@.len() - i,
        {
            proof {
                lemma_seq_min_take_step(self.values@, i as int);
            }
            let v = self.values[i];
            if v > m {
                m = v;
            }
            i = i + 1;
        }
        proof {
            assert(self.values@.take(self.values@.len() as int) =~= self.values@);
        }
        m
    }
}

impl ByteWidthCodec {
    /// Serialize values as a byte-width image, choosing the smallest
    /// supported width that fits every value. Decoding the image yields
    /// the values back exactly.
    #[verifier::rlimit(100)]
    pub fn serialize(vals: &Vec<u64>) -> (r: Vec<u8>)
        ensures
            Self::decode_spec(r@) == Some(vals@),
    {
        let mut w: usize = 1;
        let mut i: usize = 0;
        while i < vals.len()
            invariant
                w == 1 || w == 2 || w == 4 || w == 8,
                0 <= i <= vals@.len(),
                forall|j: int| 0 <= j < i ==> (#[trigger] vals@[j]) < bw_bound(w as int),
            decreases vals@.len() - i,
        {
            let v = vals[i];
            let needed: usize = if v < 256 {
                1
            } else if v < 65536 {
                2
            } else if v < 4294967296 {
                4
            } else {
                8
            };
            if needed > w {
                w = needed;
            }
            proof {
                assert(v < bw_bound(w as int));
            }
            i = i + 1;
        }
        let ghost wi = w as int;
        let mut r: Vec<u8> = Vec::new();
        r.push(w as u8);
        let mut i: usize = 0;
        while i < vals.len()
            invariant
                w == 1 || w == 2 || w == 4 || w == 8,
                wi == w as int,
                forall|j: int| 0 <= j < vals@.len() ==> (#[trigger] vals@[j]) < bw_bound(wi),
                0 <= i <= vals@.len(),
                r@.len() == 1 + i * wi,
                r@[0] == w as u8,
                forall|j: int| 0 <= j < i ==> bw_group_val(r@, wi, j) == vals@[j],
            decreases vals@.len() - i,
        {
            let v = vals[i];
            let ghost r_old = r@;
            if w == 1 {
                r.push(v as u8);
            } else if w == 2 {
                let mut b = u16_to_le_bytes(v as u16);
                r.append(&mut b);
            } else if w == 4 {
                let mut b = u32_to_le_bytes(v as u32);
                r.append(&mut b);
            } else {
                let mut b = u64_to_le_bytes(v);
                r.append(&mut b);
            }
            proof {
                lemma_auto_spec_u16_to_from_le_bytes();
                lemma_auto_spec_u32_to_from_le_bytes();
                lemma_auto_spec_u64_to_from_le_bytes();
                assert((i + 1) * wi == i * wi + wi) by (nonlinear_arith);
                assert(r@.len() == 1 + (i + 1) * wi);
                assert(r@.subrange(0, r_old.len() as int) =~= r_old);
                assert forall|j: int| 0 <= j < i + 1 implies bw_group_val(r@, wi, j) == vals@[j] by {
                    assert((j + 1) * wi <= i * wi && j * wi <= i * wi || j == i) by (nonlinear_arith)
                        requires
                            0 <= j <= i,
                            wi >= 1;
                    assert(j * wi + wi == (j + 1) * wi) by (nonlinear_arith);
                    if j < i {
                        assert(1 + (j + 1) * wi <= r_old.len());
                        assert(r@.subrange(1 + j * wi, 1 + j * wi + wi) =~= r_old.subrange(
                            1 + j * wi,
                            1 + j * wi + wi,
                        ));
                        assert(bw_group_val(r@, wi, j) == bw_group_val(r_old, wi, j));
                    } else {
                        assert(r@.subrange(1 + i * wi, 1 + i * wi + wi) =~= r@.subrange(
                            r_old.len() as int,
                            r@.len() as int,
                        ));
                        if w == 1 {
                            assert(r@[1 + i * wi] == v as u8);
                            assert(v < 0x100);
                        } else if w == 2 {
                            assert(r@.subrange(r_old.len() as int, r@.len() as int)
                                =~= spec_u16_to_le_bytes(v as u16));
                            assert(spec_u16_from_le_bytes(spec_u16_to_le_bytes(v as u16)) == v
                                as u16);
                            assert(v < 0x1_0000);
                        } else if w == 4 {
                            assert(r@.subrange(r_old.len() as int, r@.len() as int)
                                =~= spec_u32_to_le_bytes(v as u32));
                            assert(spec_u32_from_le_bytes(spec_u32_to_le_bytes(v as u32)) == v
                                as u32);
                            assert(v < 0x1_0000_0000);
                        } else {
                            assert(r@.subrange(r_old.len() as int, r@.len() as int)
                                =~= spec_u64_to_le_bytes(v));
                            assert(spec_u64_from_le_bytes(spec_u64_to_le_bytes(v)) == v);
                        }
                    }
                }
            }
            i = i + 1;
        }
        proof {
            let n = vals@.len() as int;
            assert(r@.len() - 1 == n * wi);
            assert((n * wi) % wi == 0 && (n * wi) / wi == n) by (nonlinear_arith)
                requires
                    wi >= 1;
            assert(Self::decode_spec(r@) == Some(
                Seq::new(n as nat, |j: int| bw_group_val(r@, wi, j)),
            ));
            assert(Seq::new(n as nat, |j: int| bw_group_val(r@, wi, j)) =~= vals@);
        }
        r
    }
}

/// Monotone affine reconstruction: mapping `q` to `min + gcd * q` carries
/// the least and greatest quotient to the least and greatest value.
proof fn lemma_affine_min_max(g: u64, m: u64, qs: Seq<u64>)
    requires
        qs.len() > 0,
        forall|i: int| 0 <= i < qs.len() ==> m + g * (#[trigger] qs[i]) <= u64::MAX,
    ensures
        seq_min(Seq::new(qs.len(), |i: int| (m + g * qs[i]) as u64)) == (m + g * seq_min(qs)) as u64,
        seq_max(Seq::new(qs.len(), |i: int| (m + g * qs[i]) as u64)) == (m + g * seq_max(qs)) as u64,
    decreases qs.len(),
{
    let vs = Seq::new(qs.len(), |i: int| (m + g * qs[i]) as u64);
    if qs.len() == 1 {
        assert(vs[0] == (m + g * qs[0]) as u64);
    } else {
        let qd = qs.drop_last();
        assert(forall|i: int| 0 <= i < qd.len() ==> qd[i] == qs[i]);
        lemma_affine_min_max(g, m, qd);
        let vd = Seq::new(qd.len(), |i: int| (m + g * qd[i]) as u64);
        assert(vs.drop_last() =~= vd);
        assert(vs.last() == (m + g * qs.last()) as u64);
        let ql = qs.last() as int;
        let qmin = seq_min(qd) as int;
        let qmax = seq_max(qd) as int;
        lemma_seq_min_properties(qd);
        lemma_seq_max_properties(qd);
        assert(qs[qs.len() - 1] == qs.last());
        assert(m + g * ql <= u64::MAX);
        assert(m + g * qmin <= u64::MAX) by {
            let i = choose|i: int| 0 <= i < qd.len() && seq_min(qd) == #[trigger] qd[i];
            assert(qs[i] == qd[i]);
        }
        assert(m + g * qmax <= u64::MAX) by {
            let i = choose|i: int| 0 <= i < qd.len() && seq_max(qd) == #[trigger] qd[i];
            assert(qs[i] == qd[i]);
        }
        assert((ql < qmin ==> g * ql <= g * qmin) && (ql >= qmin ==> g * ql >= g * qmin) && (ql
            > qmax ==> g * ql >= g * qmax) && (ql <= qmax ==> g * ql <= g * qmax)) by (nonlinear_arith)
            requires
                g >= 0;
        if g == 0 {
            assert(g * ql == 0 && g * qmin == 0 && g * qmax == 0) by (nonlinear_arith)
                requires
                    g == 0;
        } else {
            assert((ql < qmin ==> g * ql < g * qmin) && (ql > qmax ==> g * ql > g * qmax))
                by (nonlinear_arith)
                requires
                    g >= 1;
        }
    }
}

/// Read-only wrapper for a GCD-compressed column. Holds the footer's
/// `gcd` and `min_value` and an inner reader over the quotients; each
/// stored value is reconstructed as `min_value + gcd * quotient`.
#[derive(Clone)]
pub struct GCDFastFieldCodec<C> {
    gcd: u64,
    min_value: u64,
    reader: C,
}

impl<C: FastFieldCodecReader> GCDFastFieldCodec<C> {
    /// The divisor stored in the footer.
    pub closed spec fn spec_gcd(&self) -> u64 {
        self.gcd
    }

    /// The base value stored in the footer.
    pub closed spec fn spec_min(&self) -> u64 {
        self.min_value
    }

    /// The quotients the inner reader stores.
    pub closed spec fn quotients(&self) -> Seq<u64> {
        self.reader.values()
    }

    /// Reconstruction stays within `u64` for every stored quotient.
    pub open spec fn fits(&self) -> bool {
        forall|i: int|
            0 <= i < self.quotients().len() ==> self.spec_min() + self.spec_gcd() * (
            #[trigger] self.quotients()[i]) <= u64::MAX
    }

    /// The reconstructed column values.
    pub open spec fn values(&self) -> Seq<u64> {
        Seq::new(
            self.quotients().len(),
            |i: int| (self.spec_min() + self.spec_gcd() * self.quotients()[i]) as u64,
        )
    }

    /// Specification-level decoding of a full column image: the last 16
    /// bytes are the footer (`gcd`, then `min_value`, each 8 bytes
    /// little-endian), the prefix is the inner codec's body.
    pub open spec fn spec_decode(bytes: Seq<u8>) -> Option<(u64, u64, Seq<u64>)> {
        if bytes.len() < 16 {
            None
        } else {
            let g = spec_u64_from_le_bytes(bytes.subrange(bytes.len() - 16, bytes.len() - 8));
            let m = spec_u64_from_le_bytes(bytes.subrange(bytes.len() - 8, bytes.len() as int));
            match C::decode_spec(bytes.subrange(0, bytes.len() - 16)) {
                Some(qs) => Some((g, m, qs)),
                None => None,
            }
        }
    }

    /// Open a column image: split the footer off the end, parse `gcd`
    /// then `min_value`, and open the inner reader over the remaining
    /// prefix. Fails with `TooShort` exactly when the buffer cannot hold
    /// the footer, and with `Corrupt` exactly when the inner codec
    /// rejects the body.
    pub fn open_from_bytes(bytes: ownedbytes::OwnedBytes) -> (r: Result<Self, DecodeError>)
        ensures
            match r {
                Ok(c) => Self::spec_decode(owned_bytes_content(bytes)) == Some(
                    (c.spec_gcd(), c.spec_min(), c.quotients()),
                ),
                Err(e) => Self::spec_decode(owned_bytes_content(bytes)) is None && ((e
                    == DecodeError::TooShort) <==> owned_bytes_content(bytes).len() < 16),
            },
    {
        let s = owned_bytes_as_slice(&bytes);
        if s.len() < 16 {
            return Err(DecodeError::TooShort);
        }
        let footer_offset = s.len() - 16;
        let gcd = u64_from_le_bytes(slice_subrange(s, footer_offset, footer_offset + 8));
        let min_value = u64_from_le_bytes(slice_subrange(s, footer_offset + 8, s.len()));
        let body = slice_subrange(s, 0, footer_offset);
        match C::open_from_bytes(body) {
            Ok(reader) => Ok(GCDFastFieldCodec { gcd, min_value, reader }),
            Err(_) => Err(DecodeError::Corrupt),
        }
    }

    /// The stored value of document `doc`: the inner quotient times the
    /// divisor, plus the base value. Document bounds are the inner
    /// reader's contract; the caller keeps reconstruction within `u64`,
    /// which every value written by an encoder satisfies.
    pub fn get_u64(&self, doc: u64) -> (r: u64)
        requires
            doc < self.quotients().len(),
            self.spec_min() + self.spec_gcd() * self.quotients()[doc as int] <= u64::MAX,
        ensures
            r == self.values()[doc as int],
    {
        let mut data = self.reader.get_u64(doc);
        proof {
            assert(self.quotients()[doc as int] * self.gcd == self.gcd * self.quotients()[
                doc as int
            ]) by (nonlinear_arith);
        }
        data = data * self.gcd;
        data = data + self.min_value;
        data
    }

    /// The least stored value of a non-empty column.
    pub fn min_value(&self) -> (r: u64)
        requires
            self.quotients().len() > 0,
            self.fits(),
        ensures
            r == seq_min(self.values()),
    {
        let q = self.reader.min_value();
        proof {
            lemma_seq_min_properties(self.quotients());
            lemma_affine_min_max(self.gcd, self.min_value, self.quotients());
            assert(q * self.gcd == self.gcd * q) by (nonlinear_arith);
        }
        self.min_value + q * self.gcd
    }

    /// The greatest stored value of a non-empty column.
    pub fn max_value(&self) -> (r: u64)
        requires
            self.quotients().len() > 0,
            self.fits(),
        ensures
            r == seq_max(self.values()),
    {
        let q = self.reader.max_value();
        proof {
            lemma_seq_max_properties(self.quotients());
            lemma_affine_min_max(self.gcd, self.min_value, self.quotients());
            assert(q * self.gcd == self.gcd * q) by (nonlinear_arith);
        }
        self.min_value + q * self.gcd
    }
}

/// Encode a non-empty column with the GCD codec over the byte-width inner
/// codec: subtract the least value, divide by the greatest common divisor
/// of the column (1 when the column is all zero), store the quotients, and
/// append the footer. Decoding the image reconstructs every original value
/// exactly.
pub fn encode_gcd_column(vals: &Vec<u64>) -> (r: Vec<u8>)
    requires
        vals@.len() >= 1,
    ensures
        ({
            let d = GCDFastFieldCodec::<ByteWidthCodec>::spec_decode(r@);
            d matches Some((g, m, qs)) && g >= 1 && qs.len() == vals@.len() && (forall|i: int|
                0 <= i < vals@.len() ==> m + g * qs[i] == vals@[i])
        }),
{
    let mut m: u64 = vals[0];
    let mut i: usize = 1;
    while i < vals.len()
        invariant
            1 <= i <= vals@.len(),
            forall|j: int| 0 <= j < i ==> m <= #[trigger] vals@[j],
        decreases vals@.len() - i,
    {
        let v = vals[i];
        if v < m {
            m = v;
        }
        i = i + 1;
    }
    // amplitudes relative to the least value; their gcd is the divisor
    let mut deltas: Vec<u64> = Vec::new();
    let mut i: usize = 0;
    while i < vals.len()
        invariant
            0 <= i <= vals@.len(),
            deltas@.len() == i,
            forall|j: int| 0 <= j < vals@.len() ==> m <= #[trigger] vals@[j],
            forall|j: int| 0 <= j < i ==> #[trigger] deltas@[j] == vals@[j] - m,
        decreases vals@.len() - i,
    {
        deltas.push(vals[i] - m);
        i = i + 1;
    }
    let g: u64 = match find_gcd(deltas.as_slice()) {
        Some(g0) => g0,
        None => 1,
    };
    proof {
        lemma_seq_gcd_divides_all(deltas@);
        assert forall|j: int| 0 <= j < deltas@.len() implies divides(
            g as nat,
            #[trigger] deltas@[j] as nat,
        ) by {
            if seq_gcd(deltas@) == 0 {
                assert(divides(0, deltas@[j] as nat));
                let k = choose|k: nat| deltas@[j] as nat == #[trigger] ((0 as nat) * k);
                assert(deltas@[j] == 0);
                assert(deltas@[j] as nat == (1 as nat) * 0);
            }
        }
    }
    let mut quotients: Vec<u64> = Vec::new();
    let mut i: usize = 0;
    while i < vals.len()
        invariant
            g >= 1,
            0 <= i <= vals@.len(),
            deltas@.len() == vals@.len(),
            quotients@.len() == i,
            forall|j: int| 0 <= j < vals@.len() ==> m <= #[trigger] vals@[j],
            forall|j: int| 0 <= j < vals@.len() ==> #[trigger] deltas@[j] == vals@[j] - m,
            forall|j: int| 0 <= j < vals@.len() ==> divides(g as nat, #[trigger] deltas@[j] as nat),
            forall|j: int| 0 <= j < i ==> m + g * (#[trigger] quotients@[j]) == vals@[j],
        decreases vals@.len() - i,
    {
        let v = vals[i];
        let q: u64 = (v - m) / g;
        proof {
            assert(deltas@[i as int] == v - m);
            let kd = choose|k: nat| (v - m) as nat == #[trigger] ((g as nat) * k);
            vstd::arithmetic::div_mod::lemma_fundamental_div_mod_converse(
                (v - m) as int,
                g as int,
                kd as int,
                0,
            );
            assert(q == kd);
            assert(m + g * q == m + (v - m)) by (nonlinear_arith)
                requires
                    (v - m) as int == g * (kd as int),
                    q == kd;
        }
        quotients.push(q);
        i = i + 1;
    }
    let mut body = ByteWidthCodec::serialize(&quotients);
    let ghost ser = body@;
    write_gcd_header(&mut body, m, g);
    proof {
        lemma_auto_spec_u64_to_from_le_bytes();
        let bytes = body@;
        assert(ser.len() >= 1);
        assert(bytes.len() == ser.len() + 16);
        assert(bytes.subrange(0, bytes.len() - 16) =~= ser);
        assert(bytes.subrange(bytes.len() - 16, bytes.len() - 8) =~= spec_u64_to_le_bytes(g));
        assert(bytes.subrange(bytes.len() - 8, bytes.len() as int) =~= spec_u64_to_le_bytes(m));
        assert(GCDFastFieldCodec::<ByteWidthCodec>::spec_decode(bytes) == Some(
            (g, m, quotients@),
        ));
    }
    body
}

impl GCDFastFieldCodec<ByteWidthCodec> {
    /// Law of the codec round trip: a reader whose footer and quotients
    /// reconstruct a column reproduces exactly that column, within `u64`
    /// for every document, and its reconstructed minimum and maximum are
    /// the column's true minimum and maximum. Together with the contracts
    /// of `encode_gcd_column` and `open_from_bytes`, encoding a column
    /// and opening the image yields a reader for the original values.
    pub proof fn lemma_round_trip(c: GCDFastFieldCodec<ByteWidthCodec>, vals: Seq<u64>)
        requires
            c.quotients().len() == vals.len(),
            forall|i: int|
                0 <= i < vals.len() ==> c.spec_min() + c.spec_gcd() * (#[trigger] c.quotients()[i])
                    == vals[i],
        ensures
            c.fits(),
            c.values() == vals,
            vals.len() > 0 ==> seq_min(c.values()) == seq_min(vals) && seq_max(c.values())
                == seq_max(vals),
    {
        assert(c.values() =~= vals);
    }
}

} // verus!
