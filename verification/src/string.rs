//! The owned byte-string type exchanged with the host.
//!
//! A [`NvimString`] owns a heap allocation of exactly `len + 1` bytes: the
//! logical content followed by one zero terminator that is not counted in
//! the length. The empty string is the null sentinel and owns no allocation,
//! matching the host's own convention for "no string". The content may hold
//! embedded zero bytes and need not be valid UTF-8.

use vstd::prelude::*;
use vstd::slice::{slice_subrange, slice_to_vec};
use vstd::std_specs::cmp::{PartialEqSpec, PartialOrdSpec};
use vstd::string::StringSliceAdditionalSpecFns;
use vstd::utf8::{
    decode_utf8, decode_utf8_encode_utf8, encode_utf8, encode_utf8_decode_utf8,
    encode_utf8_valid_utf8,
};

use crate::error::InvalidEncodingError;
use crate::text::{
    bytes_as_str, fault_len, fault_width, is_valid_text, lemma_encode_utf8_concat, lemma_fffd,
    lemma_lossy_fault, lemma_lossy_valid, lemma_text_fault_prefix, lossy_chars, scan_text,
    text_fault,
};

verus! {

/// Owned, null-terminated, not-necessarily-UTF-8 byte string.
///
/// The view of a `NvimString` is the sequence of its content bytes,
/// excluding the terminator.
#[derive(Debug, Eq, Ord, Hash)]
pub struct NvimString {
    /// The full backing allocation: content plus terminator, or empty for
    /// the null sentinel.
    data: Vec<u8>,
    /// Logical byte length, excluding the terminator.
    size: usize,
}

/// Error returned by [`NvimString::into_string`]; it hands the original
/// bytes back so the caller can recover the raw data.
#[derive(Debug)]
pub struct IntoStringError {
    /// First offset at which strict text decoding stops.
    pub offset: usize,
    /// The bytes that failed to decode.
    pub bytes: Vec<u8>,
}

impl View for NvimString {
    type V = Seq<u8>;

    closed spec fn view(&self) -> Seq<u8> {
        self.data@.take(self.size as int)
    }
}

impl NvimString {
    /// The backing allocation is either absent (null sentinel, length zero)
    /// or holds exactly the content followed by one zero terminator.
    #[verifier::type_invariant]
    spec fn wf(self) -> bool {
        &&& (self.data@.len() == 0 <==> self.size == 0)
        &&& self.data@.len() != 0 ==> self.data@.len() == self.size + 1 && self.data@[
            self.size as int] == 0
    }

    /// True when the string is represented by the null sentinel rather
    /// than an allocation.
    pub closed spec fn null_sentinel(&self) -> bool {
        self.data@.len() == 0
    }

    /// Creates a new empty string; never allocates.
    pub fn new() -> (r: Self)
        ensures
            r@ == Seq::<u8>::empty(),
            r.null_sentinel(),
    {
        let r = NvimString { data: Vec::new(), size: 0 };
        proof {
            assert(r@ =~= Seq::<u8>::empty());
        }
        r
    }

    /// Creates a `NvimString` that copies the given bytes and appends one
    /// terminator. The empty input produces the null sentinel, not a
    /// non-null zero-length allocation.
    pub fn from_bytes(bytes: Vec<u8>) -> (r: Self)
        ensures
            r@ == bytes@,
            r.null_sentinel() <==> bytes@.len() == 0,
    {
        let ghost b = bytes@;
        if bytes.len() == 0 {
            let r = NvimString { data: bytes, size: 0 };
            proof {
                assert(r@ =~= b);
            }
            r
        } else {
            let size = bytes.len();
            let mut data = bytes;
            data.push(0);
            let r = NvimString { data, size };
            proof {
                assert(r@ =~= b);
            }
            r
        }
    }

    /// Returns `true` if the string has length zero.
    pub fn is_empty(&self) -> (r: bool)
        ensures
            r == (self@.len() == 0),
    {
        proof {
            use_type_invariant(self);
        }
        self.size == 0
    }

    /// Byte length of the string, not including the terminator.
    pub fn len(&self) -> (r: usize)
        ensures
            r == self@.len(),
    {
        proof {
            use_type_invariant(self);
        }
        self.size
    }

    /// True when the string is held as the null sentinel. This is the
    /// observable residue of the host-facing data pointer: the pointer is
    /// null exactly when the string is empty.
    pub fn data_is_null(&self) -> (r: bool)
        ensures
            r == self.null_sentinel(),
            r == (self@.len() == 0),
    {
        proof {
            use_type_invariant(self);
        }
        self.data.len() == 0
    }

    /// Borrows the content bytes, excluding the terminator. The null
    /// sentinel yields the empty slice. No allocation.
    pub fn as_bytes(&self) -> (r: &[u8])
        ensures
            r@ == self@,
    {
        proof {
            use_type_invariant(self);
        }
        slice_subrange(self.data.as_slice(), 0, self.size)
    }

    /// Converts the string into a byte vector, consuming it. The backing
    /// allocation is reused: only the terminator is dropped.
    pub fn into_bytes(self) -> (r: Vec<u8>)
        ensures
            r@ == self@,
    {
        proof {
            use_type_invariant(&self);
        }
        let ghost v = self@;
        let NvimString { mut data, size } = self;
        if size != 0 {
            let _ = data.pop();
        }
        proof {
            assert(data@ =~= v);
        }
        data
    }

    /// Strict text decoding of the content bytes. Fails exactly when the
    /// bytes are not strict text (valid UTF-8, no embedded zero byte), with
    /// the offset of the first offending position.
    pub fn as_str(&self) -> (r: Result<&str, InvalidEncodingError>)
        ensures
            r is Ok <==> is_valid_text(self@),
            r matches Ok(s) ==> encode_utf8(s@) == self@ && s@ == decode_utf8(self@),
            r matches Err(e) ==> e.offset as int == text_fault(self@),
    {
        let bytes = self.as_bytes();
        match scan_text(bytes) {
            Option::None => match bytes_as_str(bytes) {
                Option::Some(s) => {
                    proof {
                        encode_utf8_decode_utf8(s@);
                    }
                    Result::Ok(s)
                },
                Option::None => {
                    proof {
                        assert(false);
                    }
                    Result::Err(InvalidEncodingError { offset: 0 })
                },
            },
            Option::Some(off) => Result::Err(InvalidEncodingError { offset: off }),
        }
    }

    /// Strict text decoding of the content bytes, consuming the string. On
    /// failure the original bytes ride along in the error so the caller can
    /// recover them.
    pub fn into_string(self) -> (r: Result<std::string::String, IntoStringError>)
        ensures
            r is Ok <==> is_valid_text(self@),
            r matches Ok(t) ==> encode_utf8(t@) == self@ && t@ == decode_utf8(self@),
            r matches Err(e) ==> e.offset as int == text_fault(self@) && e.bytes@ == self@,
    {
        let ghost v = self@;
        let bytes = self.into_bytes();
        match scan_text(bytes.as_slice()) {
            Option::None => match bytes_as_str(bytes.as_slice()) {
                Option::Some(s) => {
                    proof {
                        encode_utf8_decode_utf8(s@);
                    }
                    Result::Ok(s.to_owned())
                },
                Option::None => {
                    proof {
                        assert(false);
                    }
                    Result::Err(IntoStringError { offset: 0, bytes })
                },
            },
            Option::Some(off) => Result::Err(IntoStringError { offset: off, bytes }),
        }
    }

    /// Lossy text conversion: never fails, and always produces strict
    /// text. Every well-formed, non-zero scalar decodes to its character;
    /// each maximal ill-formed subpart, and each embedded zero byte, is
    /// replaced by one U+FFFD.
    pub fn to_string_lossy(&self) -> (r: std::string::String)
        ensures
            r@ == lossy_chars(self@),
            is_valid_text(encode_utf8(r@)),
            is_valid_text(self@) ==> r@ == decode_utf8(self@),
    {
        let bytes = self.as_bytes();
        let ghost s = bytes@;
        let n = bytes.len();
        let mut out: Vec<u8> = Vec::new();
        let ghost mut acc: Seq<char> = Seq::<char>::empty();
        let mut start: usize = 0;
        proof {
            assert(s.skip(0) =~= s);
            assert(encode_utf8(Seq::<char>::empty()) =~= Seq::<u8>::empty());
            assert(out@ =~= encode_utf8(acc));
        }
        while start < n
            invariant
                start <= n,
                n == s.len(),
                s == bytes@,
                s == self@,
                lossy_chars(s) == acc + lossy_chars(s.skip(start as int)),
                out@ == encode_utf8(acc),
                forall|k: int| 0 <= k < out@.len() ==> out@[k] != 0,
            decreases n - start,
        {
            let tail = slice_subrange(bytes, start, n);
            proof {
                assert(tail@ =~= s.skip(start as int));
            }
            match scan_text(tail) {
                Option::None => {
                    let mut chunk = slice_to_vec(tail);
                    proof {
                        lemma_lossy_valid(tail@);
                        decode_utf8_encode_utf8(tail@);
                        lemma_encode_utf8_concat(acc, decode_utf8(tail@));
                    }
                    out.append(&mut chunk);
                    proof {
                        acc = acc + decode_utf8(tail@);
                        assert(out@ =~= encode_utf8(acc));
                        assert(s.skip(n as int) =~= Seq::<u8>::empty());
                        assert(lossy_chars(Seq::<u8>::empty()) =~= Seq::<char>::empty());
                        assert(lossy_chars(s) =~= acc + lossy_chars(s.skip(n as int)));
                    }
                    start = n;
                },
                Option::Some(off) => {
                    let good = slice_subrange(bytes, start, start + off);
                    let mut chunk = slice_to_vec(good);
                    let wide = fault_width(bytes, start + off);
                    proof {
                        assert(good@ =~= tail@.take(off as int));
                        assert(tail@.skip(off as int) =~= s.skip(start as int + off));
                        assert(fault_len(tail@.skip(off as int)) == wide as int);
                        lemma_text_fault_prefix(tail@);
                        lemma_lossy_fault(tail@);
                        decode_utf8_encode_utf8(good@);
                        lemma_encode_utf8_concat(acc, decode_utf8(good@));
                        lemma_fffd();
                        lemma_encode_utf8_concat(acc + decode_utf8(good@), seq!['\u{fffd}']);
                    }
                    out.append(&mut chunk);
                    out.push(0xef);
                    out.push(0xbf);
                    out.push(0xbd);
                    proof {
                        acc = acc + decode_utf8(good@) + seq!['\u{fffd}'];
                        assert(out@ =~= encode_utf8(acc));
                        assert(tail@.skip(off as int + wide as int) =~= s.skip(
                            start as int + off + wide,
                        ));
                        assert(lossy_chars(s) =~= acc + lossy_chars(
                            s.skip(start as int + off + wide),
                        ));
                    }
                    start = start + off + wide;
                },
            }
        }
        proof {
            assert(s.skip(n as int) =~= Seq::<u8>::empty());
            assert(lossy_chars(Seq::<u8>::empty()) =~= Seq::<char>::empty());
            assert(acc =~= lossy_chars(s));
            encode_utf8_valid_utf8(acc);
        }
        match bytes_as_str(out.as_slice()) {
            Option::Some(t) => {
                let r = t.to_owned();
                proof {
                    encode_utf8_decode_utf8(t@);
                    encode_utf8_decode_utf8(acc);
                    if is_valid_text(self@) {
                        lemma_lossy_valid(self@);
                    }
                }
                r
            },
            Option::None => {
                proof {
                    assert(false);
                }
                std::string::String::new()
            },
        }
    }

    /// Makes a non-owning view of this string.
    pub fn non_owning<'a>(&'a self) -> (r: NonOwning<'a, NvimString>)
        ensures
            r@ == self@,
    {
        NonOwning::new(self)
    }
}

/// Read-only alias of a value that carries no destruction responsibility.
///
/// The view is valid only as long as the aliased value is alive and
/// unmodified, and must never be handed to a consuming operation.
pub struct NonOwning<'a, T> {
    value: &'a T,
}

impl<'a, T: View> View for NonOwning<'a, T> {
    type V = T::V;

    closed spec fn view(&self) -> T::V {
        self.value.view()
    }
}

impl<'a, T: View> NonOwning<'a, T> {
    /// Construction is deliberately crate-internal: a view must only be
    /// made at sites that can account for the aliased value's lifetime.
    pub(crate) fn new(value: &'a T) -> (r: Self)
        ensures
            r@ == value@,
    {
        NonOwning { value }
    }

    /// Read-only access to the aliased value.
    pub fn get(&self) -> (r: &'a T)
        ensures
            r@ == self@,
    {
        self.value
    }
}

impl Clone for NvimString {
    /// Deep copy: an independent allocation holding the same bytes.
    fn clone(&self) -> (r: Self)
        ensures
            r@ == self@,
    {
        NvimString::from_bytes(slice_to_vec(self.as_bytes()))
    }
}

impl Default for NvimString {
    fn default() -> (r: Self)
        ensures
            r@ == Seq::<u8>::empty(),
            r.null_sentinel(),
    {
        NvimString::new()
    }
}

/// Byte-wise equality of two slices.
fn bytes_eq(a: &[u8], b: &[u8]) -> (r: bool)
    ensures
        r == (a@ == b@),
{
    if a.len() != b.len() {
        return false;
    }
    let n = a.len();
    let mut i: usize = 0;
    while i < n
        invariant
            i <= n,
            n == a@.len(),
            n == b@.len(),
            forall|j: int| 0 <= j < i ==> a@[j] == b@[j],
        decreases n - i,
    {
        if a[i] != b[i] {
            return false;
        }
        i = i + 1;
    }
    proof {
        assert(a@ =~= b@);
    }
    true
}

impl PartialEq for NvimString {
    /// Byte-wise equality of the contents, terminator excluded.
    fn eq(&self, other: &Self) -> (r: bool) {
        bytes_eq(self.as_bytes(), other.as_bytes())
    }
}

impl vstd::std_specs::cmp::PartialEqSpecImpl for NvimString {
    open spec fn obeys_eq_spec() -> bool {
        true
    }

    open spec fn eq_spec(&self, other: &NvimString) -> bool {
        self@ == other@
    }
}

impl PartialEq<str> for NvimString {
    /// Byte-wise comparison against the UTF-8 bytes of a string slice.
    fn eq(&self, other: &str) -> (r: bool) {
        bytes_eq(self.as_bytes(), other.as_bytes())
    }
}

impl vstd::std_specs::cmp::PartialEqSpecImpl<str> for NvimString {
    open spec fn obeys_eq_spec() -> bool {
        true
    }

    open spec fn eq_spec(&self, other: &str) -> bool {
        self@ == other.spec_bytes()
    }
}

impl PartialEq<&str> for NvimString {
    /// Byte-wise comparison against the UTF-8 bytes of a string slice.
    fn eq(&self, other: &&str) -> (r: bool) {
        bytes_eq(self.as_bytes(), (*other).as_bytes())
    }
}

impl vstd::std_specs::cmp::PartialEqSpecImpl<&str> for NvimString {
    open spec fn obeys_eq_spec() -> bool {
        true
    }

    open spec fn eq_spec(&self, other: &&str) -> bool {
        self@ == (*other).spec_bytes()
    }
}

impl PartialEq<std::string::String> for NvimString {
    /// Byte-wise comparison against the UTF-8 bytes of an owned string.
    fn eq(&self, other: &std::string::String) -> (r: bool) {
        bytes_eq(self.as_bytes(), other.as_str().as_bytes())
    }
}

impl vstd::std_specs::cmp::PartialEqSpecImpl<std::string::String> for NvimString {
    open spec fn obeys_eq_spec() -> bool {
        true
    }

    open spec fn eq_spec(&self, other: &std::string::String) -> bool {
        self@ == encode_utf8(other@)
    }
}

/// Byte-wise lexicographic comparison of two byte sequences.
pub open spec fn lex_cmp(a: Seq<u8>, b: Seq<u8>) -> core::cmp::Ordering
    decreases a.len(),
{
    if a.len() == 0 && b.len() == 0 {
        core::cmp::Ordering::Equal
    } else if a.len() == 0 {
        core::cmp::Ordering::Less
    } else if b.len() == 0 {
        core::cmp::Ordering::Greater
    } else if a[0] < b[0] {
        core::cmp::Ordering::Less
    } else if a[0] > b[0] {
        core::cmp::Ordering::Greater
    } else {
        lex_cmp(a.drop_first(), b.drop_first())
    }
}

/// A shared prefix does not influence the comparison of the remainders.
proof fn lemma_lex_from(a: Seq<u8>, b: Seq<u8>, i: int)
    requires
        0 <= i <= a.len(),
        i <= b.len(),
        forall|j: int| 0 <= j < i ==> a[j] == b[j],
    ensures
        lex_cmp(a, b) == lex_cmp(a.skip(i), b.skip(i)),
    decreases i,
{
    if i == 0 {
        assert(a.skip(0) =~= a);
        assert(b.skip(0) =~= b);
    } else {
        lemma_lex_from(a, b, i - 1);
        let x = a.skip(i - 1);
        let y = b.skip(i - 1);
        assert(x[0] == a[i - 1] && y[0] == b[i - 1]);
        assert(x.drop_first() =~= a.skip(i));
        assert(y.drop_first() =~= b.skip(i));
    }
}

impl PartialOrd for NvimString {
    /// Ordering is byte-wise lexicographic on the contents.
    fn partial_cmp(&self, other: &Self) -> (r: Option<core::cmp::Ordering>) {
        let a = self.as_bytes();
        let b = other.as_bytes();
        let na = a.len();
        let nb = b.len();
        let mut i: usize = 0;
        while i < na && i < nb
            invariant
                i <= na,
                i <= nb,
                na == a@.len(),
                nb == b@.len(),
                a@ == self@,
                b@ == other@,
                forall|j: int| 0 <= j < i ==> a@[j] == b@[j],
            decreases na - i,
        {
            if a[i] < b[i] {
                proof {
                    lemma_lex_from(a@, b@, i as int);
                }
                return Some(core::cmp::Ordering::Less);
            }
            if a[i] > b[i] {
                proof {
                    lemma_lex_from(a@, b@, i as int);
                }
                return Some(core::cmp::Ordering::Greater);
            }
            i = i + 1;
        }
        proof {
            lemma_lex_from(a@, b@, i as int);
        }
        if na == nb {
            proof {
                assert(a@.skip(i as int) =~= Seq::<u8>::empty());
                assert(b@.skip(i as int) =~= Seq::<u8>::empty());
            }
            Some(core::cmp::Ordering::Equal)
        } else if na < nb {
            proof {
                assert(a@.skip(i as int) =~= Seq::<u8>::empty());
            }
            Some(core::cmp::Ordering::Less)
        } else {
            proof {
                assert(b@.skip(i as int) =~= Seq::<u8>::empty());
            }
            Some(core::cmp::Ordering::Greater)
        }
    }
}

impl vstd::std_specs::cmp::PartialOrdSpecImpl for NvimString {
    open spec fn obeys_partial_cmp_spec() -> bool {
        true
    }

    open spec fn partial_cmp_spec(&self, other: &NvimString) -> Option<core::cmp::Ordering> {
        Some(lex_cmp(self@, other@))
    }
}

/// Verified UTF-8 encoder for a single character.
fn encode_char(c: char) -> (v: Vec<u8>)
    ensures
        v@ == encode_utf8(seq![c]),
{
    let s = c as u32;
    let mut v: Vec<u8> = Vec::new();
    proof {
        vstd::utf8::char_is_scalar(c);
    }
    if s < 0x80 {
        v.push((s & 0x7F) as u8);
    } else if s < 0x800 {
        v.push(0xC0 | ((s >> 6) & 0x1F) as u8);
        v.push(0x80 | (s & 0x3F) as u8);
    } else if s < 0x10000 {
        v.push(0xE0 | ((s >> 12) & 0x0F) as u8);
        v.push(0x80 | ((s >> 6) & 0x3F) as u8);
        v.push(0x80 | (s & 0x3F) as u8);
    } else {
        v.push(0xF0 | ((s >> 18) & 0x7) as u8);
        v.push(0x80 | ((s >> 12) & 0x3F) as u8);
        v.push(0x80 | ((s >> 6) & 0x3F) as u8);
        v.push(0x80 | (s & 0x3F) as u8);
    }
    proof {
        assert(seq![c].drop_first() =~= Seq::<char>::empty());
        assert(encode_utf8(Seq::<char>::empty()) =~= Seq::<u8>::empty());
        assert(encode_utf8(seq![c]) =~= vstd::utf8::encode_scalar(s));
        assert(v@ =~= vstd::utf8::encode_scalar(s));
    }
    v
}

// Each `From` conversion fixes the result's bytes directly; the
// `FromSpecImpl` counterparts are only the declarations Verus requires
// beside a hand-written `From`.
impl From<Vec<u8>> for NvimString {
    /// The result holds exactly the given bytes.
    fn from(v: Vec<u8>) -> (r: Self)
        ensures
            r@ == v@,
    {
        NvimString::from_bytes(v)
    }
}

impl vstd::std_specs::convert::FromSpecImpl<Vec<u8>> for NvimString {
    open spec fn obeys_from_spec() -> bool {
        false
    }

    open spec fn from_spec(v: Vec<u8>) -> NvimString {
        arbitrary()
    }
}

impl<'a> From<&'a str> for NvimString {
    /// The result holds exactly the UTF-8 bytes of the text.
    fn from(s: &'a str) -> (r: Self)
        ensures
            r@ == encode_utf8(s@),
    {
        NvimString::from_bytes(slice_to_vec(s.as_bytes()))
    }
}

impl<'a> vstd::std_specs::convert::FromSpecImpl<&'a str> for NvimString {
    open spec fn obeys_from_spec() -> bool {
        false
    }

    open spec fn from_spec(s: &'a str) -> NvimString {
        arbitrary()
    }
}

impl From<std::string::String> for NvimString {
    /// The result holds exactly the UTF-8 bytes of the text.
    fn from(s: std::string::String) -> (r: Self)
        ensures
            r@ == encode_utf8(s@),
    {
        NvimString::from_bytes(slice_to_vec(s.as_str().as_bytes()))
    }
}

impl vstd::std_specs::convert::FromSpecImpl<std::string::String> for NvimString {
    open spec fn obeys_from_spec() -> bool {
        false
    }

    open spec fn from_spec(s: std::string::String) -> NvimString {
        arbitrary()
    }
}

impl From<char> for NvimString {
    /// The result holds exactly the UTF-8 encoding of the character.
    fn from(c: char) -> (r: Self)
        ensures
            r@ == encode_utf8(seq![c]),
    {
        NvimString::from_bytes(encode_char(c))
    }
}

impl vstd::std_specs::convert::FromSpecImpl<char> for NvimString {
    open spec fn obeys_from_spec() -> bool {
        false
    }

    open spec fn from_spec(c: char) -> NvimString {
        arbitrary()
    }
}

impl TryFrom<NvimString> for std::string::String {
    type Error = IntoStringError;

    /// Strict text decoding, as [`NvimString::into_string`]: succeeds
    /// exactly on strict text, and the error recovers the bytes.
    fn try_from(s: NvimString) -> (r: Result<std::string::String, IntoStringError>)
        ensures
            r is Ok <==> is_valid_text(s@),
            r matches Ok(t) ==> encode_utf8(t@) == s@ && t@ == decode_utf8(s@),
            r matches Err(e) ==> e.offset as int == text_fault(s@) && e.bytes@ == s@,
    {
        s.into_string()
    }
}

impl vstd::std_specs::convert::TryFromSpecImpl<NvimString> for std::string::String {
    open spec fn obeys_try_from_spec() -> bool {
        false
    }

    open spec fn try_from_spec(v: NvimString) -> Result<std::string::String, IntoStringError> {
        arbitrary()
    }
}

/// Equality of two buffers is exactly equality of their byte sequences:
/// buffers built from equal byte sequences compare equal, buffers from
/// differing sequences compare unequal.
pub proof fn lemma_eq_bytewise(a: &NvimString, b: &NvimString)
    ensures
        a.eq_spec(b) <==> a@ == b@,
{
}

/// Lexicographic comparison reports `Equal` exactly on equal sequences,
/// and is antisymmetric in `Less`/`Greater`.
pub proof fn lemma_lex_cmp_properties(a: Seq<u8>, b: Seq<u8>)
    ensures
        (lex_cmp(a, b) == core::cmp::Ordering::Equal <==> a == b),
        (lex_cmp(a, b) == core::cmp::Ordering::Less <==> lex_cmp(b, a)
            == core::cmp::Ordering::Greater),
    decreases a.len(),
{
    if a.len() == 0 && b.len() == 0 {
        assert(a =~= b);
    } else if a.len() == 0 || b.len() == 0 {
    } else {
        lemma_lex_cmp_properties(a.drop_first(), b.drop_first());
        if a[0] == b[0] {
            if a.drop_first() == b.drop_first() {
                assert(a.len() == b.len());
                assert forall|i: int| 0 <= i < a.len() implies a[i] == b[i] by {
                    if i > 0 {
                        assert(a.drop_first()[i - 1] == b.drop_first()[i - 1]);
                    }
                }
                assert(a =~= b);
            }
            if a == b {
                assert(a.drop_first() =~= b.drop_first());
            }
        }
    }
}

/// The comparison of two buffers is byte-wise lexicographic on their
/// contents, and agrees with byte-wise equality.
pub proof fn lemma_cmp_lexicographic(a: &NvimString, b: &NvimString)
    ensures
        a.partial_cmp_spec(b) == Some(lex_cmp(a@, b@)),
        a.partial_cmp_spec(b) == Some(core::cmp::Ordering::Equal) <==> a@ == b@,
{
    lemma_lex_cmp_properties(a@, b@);
}

} // verus!
