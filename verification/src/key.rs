//! Key codec.
//!
//! A key is the identity of one category of records. Short keys (at most
//! [`KEY_CAP`] bytes) are stored inline in a fixed, zero-padded buffer so that
//! comparing them is a fixed-width word comparison; longer keys borrow the
//! original input span. Decoding recovers the logical byte sequence: for an
//! inline key the prefix before the first zero byte (the whole buffer when it
//! has none), for a borrowed key the span itself. Provided a key contains no
//! embedded zero byte — which holds for the input domain — decoding returns
//! exactly the bytes that were encoded.

use crate::scan::find_idx;
use vstd::prelude::*;

verus! {

/// Inline key capacity in bytes.
pub const KEY_CAP: usize = 16;

/// The identity of a key as the contracts see it: an inline key is its whole
/// zero-padded buffer, a borrowed key its byte sequence.
pub enum KeyModel {
    Short(Seq<u8>),
    Long(Seq<u8>),
}

/// A byte sequence zero-padded to the inline capacity.
pub open spec fn pad_key(b: Seq<u8>) -> Seq<u8> {
    Seq::new(KEY_CAP as nat, |i: int| if i < b.len() { b[i] } else { 0 })
}

/// The key that encoding a byte span produces.
pub open spec fn key_model(b: Seq<u8>) -> KeyModel {
    if b.len() <= KEY_CAP as int {
        KeyModel::Short(pad_key(b))
    } else {
        KeyModel::Long(b)
    }
}

/// The logical byte sequence a key stands for.
pub open spec fn decode_spec(k: KeyModel) -> Seq<u8> {
    match k {
        KeyModel::Short(buf) => {
            let z = find_idx(buf, 0);
            if z >= 0 {
                buf.take(z)
            } else {
                buf
            }
        },
        KeyModel::Long(b) => b,
    }
}

/// An inline key: the key bytes followed by zero padding, compared as one
/// fixed-width buffer.
#[derive(Clone, Copy, Debug)]
pub struct ShortStationId {
    pub inner: [u8; 16],
}

impl View for ShortStationId {
    type V = Seq<u8>;

    open spec fn view(&self) -> Seq<u8> {
        self.inner@
    }
}

impl ShortStationId {
    /// The inline capacity.
    pub fn max_size() -> (r: usize)
        ensures
            r == KEY_CAP,
    {
        16
    }

    /// Packs a short span into a zero-padded inline buffer.
    pub fn from_bytes(bytes: &[u8]) -> (r: Self)
        requires
            bytes@.len() <= KEY_CAP as int,
        ensures
            r@ == pad_key(bytes@),
    {
        let mut inner: [u8; 16] = [0; 16];
        let n = bytes.len();
        let mut i: usize = 0;
        while i < n
            invariant
                i <= n,
                n == bytes@.len() <= 16,
                inner@.len() == 16,
                forall|j: int| 0 <= j < i ==> inner@[j] == bytes@[j],
                forall|j: int| i <= j < 16 ==> inner@[j] == 0,
            decreases n - i,
        {
            inner[i] = *vstd::slice::slice_index_get(bytes, i);
            i += 1;
        }
        proof {
            assert(inner@ =~= pad_key(bytes@));
        }
        ShortStationId { inner }
    }

    /// Unpacks an inline buffer to the bytes before its first zero.
    pub fn as_bytes(&self) -> (r: Vec<u8>)
        ensures
            r@ == decode_spec(KeyModel::Short(self@)),
    {
        let mut out: Vec<u8> = Vec::new();
        let mut i: usize = 0;
        while i < 16
            invariant
                i <= 16,
                self.inner@.len() == 16,
                out@ == self.inner@.take(i as int),
                forall|j: int| 0 <= j < i ==> self.inner@[j] != 0,
            decreases 16 - i,
        {
            let b = *vstd::array::array_index_get(&self.inner, i);
            if b == 0 {
                proof {
                    crate::scan::lemma_find_idx_is_first(self.inner@, 0, i as int);
                }
                return out;
            }
            out.push(b);
            proof {
                assert(out@ =~= self.inner@.take(i + 1));
            }
            i += 1;
        }
        proof {
            crate::scan::lemma_find_idx(self.inner@, 0);
            assert(out@ =~= self.inner@);
        }
        out
    }
}

impl PartialEq for ShortStationId {
    /// Inline keys compare as their whole padded buffers.
    fn eq(&self, other: &Self) -> (r: bool) {
        let mut i: usize = 0;
        while i < 16
            invariant
                i <= 16,
                self.inner@.len() == 16,
                other.inner@.len() == 16,
                forall|j: int| 0 <= j < i ==> self.inner@[j] == other.inner@[j],
            decreases 16 - i,
        {
            if *vstd::array::array_index_get(&self.inner, i)
                != *vstd::array::array_index_get(&other.inner, i) {
                return false;
            }
            i += 1;
        }
        proof {
            assert(self.inner@ =~= other.inner@);
        }
        true
    }
}

impl vstd::std_specs::cmp::PartialEqSpecImpl for ShortStationId {
    open spec fn obeys_eq_spec() -> bool {
        true
    }

    open spec fn eq_spec(&self, other: &Self) -> bool {
        self@ == other@
    }
}

/// A key: inline when it fits the fixed buffer, otherwise a borrowed span of
/// the original input.
#[derive(Clone, Copy, Debug)]
pub enum StationId<'a> {
    Short(ShortStationId),
    Long(&'a [u8]),
}

impl<'a> View for StationId<'a> {
    type V = KeyModel;

    open spec fn view(&self) -> KeyModel {
        match self {
            StationId::Short(s) => KeyModel::Short(s@),
            StationId::Long(b) => KeyModel::Long(b@),
        }
    }
}

impl<'a> StationId<'a> {
    /// Encodes a key span: inline when it fits, borrowed otherwise.
    pub fn from_bytes(bytes: &'a [u8]) -> (r: Self)
        ensures
            r@ == key_model(bytes@),
    {
        if bytes.len() > ShortStationId::max_size() {
            StationId::Long(bytes)
        } else {
            StationId::Short(ShortStationId::from_bytes(bytes))
        }
    }

    /// The logical byte sequence of the key.
    pub fn as_bytes(&self) -> (r: Vec<u8>)
        ensures
            r@ == decode_spec(self@),
    {
        match self {
            StationId::Short(s) => s.as_bytes(),
            StationId::Long(b) => vstd::slice::slice_to_vec(b),
        }
    }

    /// The key rendered as text: its decoded bytes read as characters.
    pub fn to_str(&self) -> (r: String)
        ensures
            r@ == lossy_utf8(decode_spec(self@)),
            vstd::utf8::valid_utf8(decode_spec(self@)) ==> r@ == vstd::utf8::decode_utf8(
                decode_spec(self@),
            ),
    {
        let bytes = self.as_bytes();
        lossy_string(bytes.as_slice())
    }
}

/// The characters `String::from_utf8_lossy` reads out of a byte sequence.
pub uninterp spec fn lossy_utf8(bytes: Seq<u8>) -> Seq<char>;

/// Relies on `String::from_utf8_lossy`: the characters depend on the bytes
/// alone, and valid UTF-8 converts to exactly its decoded characters.
#[verifier::external_body]
fn lossy_string(b: &[u8]) -> (r: String)
    ensures
        r@ == lossy_utf8(b@),
        vstd::utf8::valid_utf8(b@) ==> r@ == vstd::utf8::decode_utf8(b@),
{
    String::from_utf8_lossy(b).into_owned()
}

impl<'a> PartialEq for StationId<'a> {
    /// Keys of the same variant compare by content; the variants never
    /// compare equal to each other.
    fn eq(&self, other: &Self) -> (r: bool) {
        match (self, other) {
            (StationId::Short(a), StationId::Long(_)) => false,
            (StationId::Long(_), StationId::Short(b)) => false,
            (StationId::Short(a), StationId::Short(b)) => a == b,
            (StationId::Long(a), StationId::Long(b)) => crate::scan::bytes_eq(a, b),
        }
    }
}

impl<'a> vstd::std_specs::cmp::PartialEqSpecImpl for StationId<'a> {
    open spec fn obeys_eq_spec() -> bool {
        true
    }

    open spec fn eq_spec(&self, other: &Self) -> bool {
        self@ == other@
    }
}

/// Key codec fidelity: a span that fits inline and has no embedded zero byte
/// decodes from its key unchanged, and so does every longer span.
pub proof fn lemma_decode_encode(b: Seq<u8>)
    requires
        b.len() > KEY_CAP as int || forall|i: int| 0 <= i < b.len() ==> b[i] != 0,
    ensures
        decode_spec(key_model(b)) == b,
{
    if b.len() <= KEY_CAP as int {
        let p = pad_key(b);
        if b.len() < KEY_CAP as int {
            crate::scan::lemma_find_idx_is_first(p, 0, b.len() as int);
            assert(p.take(b.len() as int) =~= b);
        } else {
            crate::scan::lemma_find_idx(p, 0);
            if find_idx(p, 0) >= 0 {
                assert(p[find_idx(p, 0)] == 0);
                assert(b[find_idx(p, 0)] != 0);
                assert(false);
            }
            assert(p =~= b);
        }
    }
}

} // verus!
