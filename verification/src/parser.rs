//! Codec for the Redis RDB v6 snapshot format.
//!
//! Every parsed node owns the exact source bytes it was decoded from, so
//! re-serialization is a verbatim copy: the central invariant is that for a
//! node `v` parsed from a byte range, `v.spec_ser()` equals that range.
use vstd::prelude::*;
use crate::RdbError;

verus! {

// ---------------------------------------------------------------------------
// Spec-level grammar: where each production ends, and what it denotes.
// ---------------------------------------------------------------------------

/// Big-endian 32-bit integer held in `s[i..i+4]`.
pub open spec fn be32(s: Seq<u8>, i: int) -> u32
    recommends
        0 <= i,
        i + 4 <= s.len(),
{
    ((s[i] as int) * 0x1000000 + (s[i + 1] as int) * 0x10000 + (s[i + 2] as int) * 0x100 + (
    s[i + 3] as int)) as u32
}

/// What a length prefix denotes: a numeric length, or a special-form tag.
pub enum LenVal {
    Num(u32),
    Special(u8),
}

/// The numeric reading of a length prefix; special forms read as 0.
pub open spec fn len_num(v: LenVal) -> u32 {
    match v {
        LenVal::Num(n) => n,
        LenVal::Special(_) => 0,
    }
}

/// End position of the length prefix starting at `i`, if one parses there.
pub open spec fn length_end(s: Seq<u8>, i: int) -> Option<int> {
    if i < 0 || i >= s.len() {
        None
    } else {
        let t = s[i] >> 6;
        if t == 0 || t == 3 {
            Some(i + 1)
        } else if t == 1 {
            if i + 2 <= s.len() {
                Some(i + 2)
            } else {
                None
            }
        } else {
            if i + 5 <= s.len() {
                Some(i + 5)
            } else {
                None
            }
        }
    }
}

/// The value denoted by the length prefix starting at `i`.
pub open spec fn length_val(s: Seq<u8>, i: int) -> LenVal
    recommends
        length_end(s, i) is Some,
{
    let b = s[i];
    let t = b >> 6;
    if t == 0 {
        LenVal::Num((b & 0x3f) as u32)
    } else if t == 1 {
        LenVal::Num((((b & 0x3f) as int) * 256 + s[i + 1] as int) as u32)
    } else if t == 2 {
        LenVal::Num(be32(s, i + 1))
    } else {
        LenVal::Special(b & 0x3f)
    }
}

// ---------------------------------------------------------------------------
// Parse-tree types. Each node owns its source bytes.
// ---------------------------------------------------------------------------

/// An RDB length prefix: an integer length `I`, or a special form `S`.
#[derive(Debug, PartialEq, Eq, Clone)]
pub enum EncodedLength {
    I(u32, Vec<u8>),
    S(u8, Vec<u8>),
}

impl EncodedLength {
    /// The source bytes this prefix was decoded from.
    pub open spec fn src(self) -> Seq<u8> {
        match self {
            EncodedLength::I(_, b) => b@,
            EncodedLength::S(_, b) => b@,
        }
    }

    /// The denoted value.
    pub open spec fn val(self) -> LenVal {
        match self {
            EncodedLength::I(n, _) => LenVal::Num(n),
            EncodedLength::S(t, _) => LenVal::Special(t),
        }
    }

    /// The source bytes are one of the three integer forms, or the special
    /// form, and denote exactly the carried value.
    pub open spec fn wf(self) -> bool {
        match self {
            EncodedLength::I(n, b) => {
                ||| (b@.len() == 1 && b@[0] >> 6 == 0 && n == (b@[0] & 0x3f) as u32)
                ||| (b@.len() == 2 && b@[0] >> 6 == 1 && n == ((b@[0] & 0x3f) as int) * 256 + b@[1] as int)
                ||| (b@.len() == 5 && b@[0] >> 6 == 2 && n == be32(b@, 1))
            },
            EncodedLength::S(t, b) => b@.len() == 1 && b@[0] >> 6 == 3 && t == (b@[0] & 0x3f),
        }
    }
}

/// The numeric reading of a length node; special forms read as 0.
impl From<EncodedLength> for u32 {
    fn from(l: EncodedLength) -> (n: u32)
        ensures
            n == len_num(l.val()),
    {
        match l {
            EncodedLength::I(n, _) => n,
            EncodedLength::S(_, _) => 0,
        }
    }
}

impl vstd::std_specs::convert::FromSpecImpl<EncodedLength> for u32 {
    open spec fn obeys_from_spec() -> bool {
        true
    }

    open spec fn from_spec(l: EncodedLength) -> u32 {
        len_num(l.val())
    }
}

// ---------------------------------------------------------------------------
// Serialization: every node writes back exactly its source bytes.
// ---------------------------------------------------------------------------

/// Serialize into RDB format. `spec_ser` is the byte image of the node; `ser`
/// appends exactly that image to the output.
pub trait RDBSer {
    spec fn spec_ser(&self) -> Seq<u8>;

    fn ser(&self, w: &mut Vec<u8>) -> (n: usize)
        ensures
            final(w)@ == old(w)@ + self.spec_ser(),
            n == self.spec_ser().len(),
    ;

    /// The byte image of the node, read lossily as UTF-8 text.
    fn to_string(&self) -> (r: String)
        ensures
            r@ == crate::text::lossy_of(self.spec_ser()),
    {
        let mut v: Vec<u8> = Vec::new();
        self.ser(&mut v);
        crate::text::utf8_lossy(&v)
    }
}

/// Append a copy of `b` to `w`.
pub(crate) fn write_bytes(w: &mut Vec<u8>, b: &Vec<u8>)
    ensures
        final(w)@ == old(w)@ + b@,
{
    let mut k: usize = 0;
    while k < b.len()
        invariant
            k <= b.len(),
            w@ == old(w)@ + b@.subrange(0, k as int),
        decreases b.len() - k,
    {
        w.push(b[k]);
        assert(old(w)@ + b@.subrange(0, k + 1) =~= (old(w)@ + b@.subrange(0, k as int)).push(
            b@[k as int]));
        k = k + 1;
    }
    assert(b@.subrange(0, b@.len() as int) =~= b@);
}

/// A copy of `s[i..j]`.
pub(crate) fn copy_range(s: &Vec<u8>, i: usize, j: usize) -> (r: Vec<u8>)
    requires
        i <= j <= s.len(),
    ensures
        r@ == s@.subrange(i as int, j as int),
{
    let mut r: Vec<u8> = Vec::new();
    let mut k: usize = i;
    while k < j
        invariant
            i <= k <= j <= s.len(),
            r@ == s@.subrange(i as int, k as int),
        decreases j - k,
    {
        r.push(s[k]);
        assert(s@.subrange(i as int, k + 1) =~= s@.subrange(i as int, k as int).push(
            s@[k as int]));
        k = k + 1;
    }
    r
}

impl RDBSer for EncodedLength {
    open spec fn spec_ser(&self) -> Seq<u8> {
        self.src()
    }

    fn ser(&self, w: &mut Vec<u8>) -> (n: usize)
        ensures
            final(w)@ == old(w)@ + self.spec_ser(),
            n == self.spec_ser().len(),
    {
        match self {
            EncodedLength::I(_, b) => {
                write_bytes(w, b);
                b.len()
            },
            EncodedLength::S(_, b) => {
                write_bytes(w, b);
                b.len()
            },
        }
    }
}

// ---------------------------------------------------------------------------
// Exec parser for the length prefix.
// ---------------------------------------------------------------------------

/// Decode the length prefix at `s[i..]`.
pub fn encoded_length(s: &Vec<u8>, i: usize) -> (r: Result<(EncodedLength, usize), RdbError>)
    ensures
        r is Ok <==> length_end(s@, i as int) is Some,
        r matches Ok((v, j)) ==> {
            &&& length_end(s@, i as int) == Some(j as int)
            &&& i <= j <= s@.len()
            &&& v.wf()
            &&& v.src() == s@.subrange(i as int, j as int)
            &&& v.val() == length_val(s@, i as int)
        },
        r matches Err(e) ==> e == RdbError::ParseError,
{
    if i >= s.len() {
        return Err(RdbError::ParseError);
    }
    let b = s[i];
    let t = b >> 6;
    if t == 0 {
        let v = EncodedLength::I((b & 0x3f) as u32, copy_range(s, i, i + 1));
        Ok((v, i + 1))
    } else if t == 1 {
        if s.len() - i < 2 {
            return Err(RdbError::ParseError);
        }
        let n = ((b & 0x3f) as u32) * 256 + s[i + 1] as u32;
        let v = EncodedLength::I(n, copy_range(s, i, i + 2));
        Ok((v, i + 2))
    } else if t == 2 {
        if s.len() - i < 5 {
            return Err(RdbError::ParseError);
        }
        let n = (s[i + 1] as u32) * 0x1000000 + (s[i + 2] as u32) * 0x10000 + (s[i + 3] as u32)
            * 0x100 + (s[i + 4] as u32);
        let v = EncodedLength::I(n, copy_range(s, i, i + 5));
        Ok((v, i + 5))
    } else {
        assert(b >> 6 <= 3) by (bit_vector);
        let v = EncodedLength::S(b & 0x3f, copy_range(s, i, i + 1));
        Ok((v, i + 1))
    }
}

// ---------------------------------------------------------------------------
// The length-encoding laws: what each prefix form decodes to.
// ---------------------------------------------------------------------------

/// A one-byte prefix holding `n <= 63` decodes to the integer `n`, consuming
/// one byte.
pub proof fn lemma_length_1byte(s: Seq<u8>, i: int, n: u8)
    requires
        0 <= i < s.len(),
        s[i] == n,
        n <= 63,
    ensures
        length_end(s, i) == Some(i + 1),
        length_val(s, i) == LenVal::Num(n as u32),
{
    assert(n >> 6 == 0 && (n & 0x3f) == n) by (bit_vector)
        requires
            n <= 63,
    ;
}

/// The two-byte prefix `0x40 | (n >> 8), n & 0xff` decodes to the integer
/// `n`, for any `n <= 16383`, consuming two bytes.
pub proof fn lemma_length_2byte(s: Seq<u8>, i: int, n: u32)
    requires
        0 <= i,
        i + 2 <= s.len(),
        n <= 16383,
        s[i] == (0x40 | (n >> 8)) as u8,
        s[i + 1] == (n & 0xff) as u8,
    ensures
        length_end(s, i) == Some(i + 2),
        length_val(s, i) == LenVal::Num(n),
{
    let b0 = (0x40 | (n >> 8)) as u8;
    let b1 = (n & 0xff) as u8;
    assert(b0 >> 6 == 1 && ((b0 & 0x3f) as u32) * 256 + (b1 as u32) == n) by (bit_vector)
        requires
            n <= 16383,
            b0 == (0x40 | (n >> 8)) as u8,
            b1 == (n & 0xff) as u8,
    ;
}

/// The five-byte prefix `0x80` followed by `n` big-endian decodes to the
/// integer `n`, for any `n`, consuming five bytes.
pub proof fn lemma_length_5byte(s: Seq<u8>, i: int, n: u32)
    requires
        0 <= i,
        i + 5 <= s.len(),
        s[i] == 0x80,
        s[i + 1] == (n >> 24) as u8,
        s[i + 2] == ((n >> 16) & 0xff) as u8,
        s[i + 3] == ((n >> 8) & 0xff) as u8,
        s[i + 4] == (n & 0xff) as u8,
    ensures
        length_end(s, i) == Some(i + 5),
        length_val(s, i) == LenVal::Num(n),
{
    let b1 = (n >> 24) as u8;
    let b2 = ((n >> 16) & 0xff) as u8;
    let b3 = ((n >> 8) & 0xff) as u8;
    let b4 = (n & 0xff) as u8;
    assert((0x80u8) >> 6 == 2) by (bit_vector);
    assert((b1 as u32) * 0x1000000 + (b2 as u32) * 0x10000 + (b3 as u32) * 0x100 + (b4 as u32)
        == n) by (bit_vector)
        requires
            b1 == (n >> 24) as u8,
            b2 == ((n >> 16) & 0xff) as u8,
            b3 == ((n >> 8) & 0xff) as u8,
            b4 == (n & 0xff) as u8,
    ;
}

/// A one-byte prefix with both top bits set decodes to the special form
/// tagged with its low six bits, consuming one byte.
pub proof fn lemma_length_special(s: Seq<u8>, i: int)
    requires
        0 <= i < s.len(),
        s[i] >= 0xc0,
    ensures
        length_end(s, i) == Some(i + 1),
        length_val(s, i) == LenVal::Special((s[i] - 0xc0) as u8),
{
    let b = s[i];
    assert(b >> 6 == 3 && (b & 0x3f) == (b - 0xc0) as u8) by (bit_vector)
        requires
            b >= 0xc0,
    ;
}

// ---------------------------------------------------------------------------
// String encoding: raw, integer (1/2/4 bytes), or LZF-compressed.
// ---------------------------------------------------------------------------

/// End position of the string encoding starting at `i`, if one parses there.
pub open spec fn string_end(s: Seq<u8>, i: int) -> Option<int> {
    match length_end(s, i) {
        Option::None => None,
        Option::Some(j) => match length_val(s, i) {
            LenVal::Num(n) => if j + n <= s.len() {
                Some(j + n)
            } else {
                None
            },
            LenVal::Special(t) => if t == 0 {
                if j + 1 <= s.len() {
                    Some(j + 1)
                } else {
                    None
                }
            } else if t == 1 {
                if j + 2 <= s.len() {
                    Some(j + 2)
                } else {
                    None
                }
            } else if t == 2 {
                if j + 4 <= s.len() {
                    Some(j + 4)
                } else {
                    None
                }
            } else if t == 3 {
                match length_end(s, j) {
                    Option::None => None,
                    Option::Some(k) => match length_end(s, k) {
                        Option::None => None,
                        Option::Some(m) => {
                            let c = len_num(length_val(s, j));
                            if m + c <= s.len() {
                                Some(m + c)
                            } else {
                                None
                            }
                        },
                    },
                }
            } else {
                None
            },
        },
    }
}

/// An RDB string encoding. `Raw` carries its payload verbatim; `Int` carries a
/// 1-, 2- or 4-byte integer payload; `Lzf` carries a compressed length, an
/// uncompressed length, and the compressed payload.
#[derive(Debug, PartialEq, Eq, Clone)]
pub enum EncodedString {
    Raw(EncodedLength, Vec<u8>),
    Int(EncodedLength, Vec<u8>),
    Lzf(EncodedLength, EncodedLength, EncodedLength, Vec<u8>),
}

impl EncodedString {
    /// Each sub-node is well formed, the variant matches the length prefix,
    /// and the payload has exactly the announced size.
    pub open spec fn wf(self) -> bool {
        match self {
            EncodedString::Raw(l, p) => l.wf() && match l.val() {
                LenVal::Num(n) => p@.len() == n,
                LenVal::Special(_) => false,
            },
            EncodedString::Int(l, p) => l.wf() && match l.val() {
                LenVal::Num(_) => false,
                LenVal::Special(t) => (t == 0 && p@.len() == 1) || (t == 1 && p@.len() == 2) || (t
                    == 2 && p@.len() == 4),
            },
            EncodedString::Lzf(l, c, u, p) => l.wf() && c.wf() && u.wf() && l.val()
                == LenVal::Special(3) && p@.len() == len_num(c.val()),
        }
    }
}

impl RDBSer for EncodedString {
    open spec fn spec_ser(&self) -> Seq<u8> {
        match self {
            EncodedString::Raw(l, p) => l.src() + p@,
            EncodedString::Int(l, p) => l.src() + p@,
            EncodedString::Lzf(l, c, u, p) => l.src() + c.src() + u.src() + p@,
        }
    }

    fn ser(&self, w: &mut Vec<u8>) -> (n: usize)
        ensures
            final(w)@ == old(w)@ + self.spec_ser(),
            n == self.spec_ser().len(),
    {
        let before = w.len();
        match self {
            EncodedString::Raw(l, p) => {
                l.ser(w);
                write_bytes(w, p);
            },
            EncodedString::Int(l, p) => {
                l.ser(w);
                write_bytes(w, p);
            },
            EncodedString::Lzf(l, c, u, p) => {
                l.ser(w);
                c.ser(w);
                u.ser(w);
                write_bytes(w, p);
            },
        }
        w.len() - before
    }
}

/// Decode the string encoding at `s[i..]`.
#[verifier::rlimit(60)]
pub fn encoded_string(s: &Vec<u8>, i: usize) -> (r: Result<(EncodedString, usize), RdbError>)
    ensures
        r is Ok <==> string_end(s@, i as int) is Some,
        r matches Ok((v, j)) ==> {
            &&& string_end(s@, i as int) == Some(j as int)
            &&& i <= j <= s@.len()
            &&& v.wf()
            &&& v.spec_ser() == s@.subrange(i as int, j as int)
        },
        r matches Err(e) ==> e == RdbError::ParseError,
{
    let (l, j) = match encoded_length(s, i) {
        Ok(x) => x,
        Err(e) => {
            return Err(e);
        },
    };
    match &l {
        EncodedLength::I(n, _) => {
            let n = *n;
            if n as usize <= s.len() - j {
                let e = j + n as usize;
                let p = copy_range(s, j, e);
                assert(s@.subrange(i as int, j as int) + s@.subrange(j as int, e as int)
                    =~= s@.subrange(i as int, e as int));
                Ok((EncodedString::Raw(l, p), e))
            } else {
                Err(RdbError::ParseError)
            }
        },
        EncodedLength::S(t, _) => {
            let t = *t;
            if t <= 2 {
                let width: usize = if t == 0 {
                    1
                } else if t == 1 {
                    2
                } else {
                    4
                };
                if width <= s.len() - j {
                    let e = j + width;
                    let p = copy_range(s, j, e);
                    assert(s@.subrange(i as int, j as int) + s@.subrange(j as int, e as int)
                        =~= s@.subrange(i as int, e as int));
                    Ok((EncodedString::Int(l, p), e))
                } else {
                    Err(RdbError::ParseError)
                }
            } else if t == 3 {
                let (c, k) = match encoded_length(s, j) {
                    Ok(x) => x,
                    Err(e) => {
                        return Err(e);
                    },
                };
                let (u, m) = match encoded_length(s, k) {
                    Ok(x) => x,
                    Err(e) => {
                        return Err(e);
                    },
                };
                let clen: u32 = match &c {
                    EncodedLength::I(n, _) => *n,
                    EncodedLength::S(_, _) => 0,
                };
                if clen as usize <= s.len() - m {
                    let e = m + clen as usize;
                    let p = copy_range(s, m, e);
                    assert(s@.subrange(i as int, j as int) + s@.subrange(j as int, k as int)
                        + s@.subrange(k as int, m as int) + s@.subrange(m as int, e as int)
                        =~= s@.subrange(i as int, e as int));
                    Ok((EncodedString::Lzf(l, c, u, p), e))
                } else {
                    Err(RdbError::ParseError)
                }
            } else {
                Err(RdbError::ParseError)
            }
        },
    }
}

// ---------------------------------------------------------------------------
// Element sequences: a length prefix followed by that many elements.
// ---------------------------------------------------------------------------

/// Byte image of a sequence of nodes, in order.
pub open spec fn seq_ser<T: RDBSer>(v: Seq<T>) -> Seq<u8>
    decreases v.len(),
{
    if v.len() == 0 {
        Seq::empty()
    } else {
        v[0].spec_ser() + seq_ser(v.drop_first())
    }
}

pub proof fn lemma_seq_ser_push<T: RDBSer>(v: Seq<T>, x: T)
    ensures
        seq_ser(v.push(x)) == seq_ser(v) + x.spec_ser(),
    decreases v.len(),
{
    assert(seq_ser(v.push(x)) == v.push(x)[0].spec_ser() + seq_ser(v.push(x).drop_first()));
    if v.len() == 0 {
        assert(v.push(x).drop_first() =~= Seq::<T>::empty());
        assert(v.push(x)[0] == x);
        assert(seq_ser(Seq::<T>::empty()) == Seq::<u8>::empty());
        assert(seq_ser(v.push(x)) =~= seq_ser(v) + x.spec_ser());
    } else {
        assert(v.push(x).drop_first() =~= v.drop_first().push(x));
        assert(v.push(x)[0] == v[0]);
        lemma_seq_ser_push(v.drop_first(), x);
        assert(seq_ser(v.push(x)) =~= seq_ser(v) + x.spec_ser());
    }
}

/// Serialize all the nodes of `v`, in order.
pub(crate) fn ser_all<T: RDBSer>(v: &Vec<T>, w: &mut Vec<u8>)
    ensures
        final(w)@ == old(w)@ + seq_ser(v@),
{
    let mut k: usize = 0;
    while k < v.len()
        invariant
            k <= v.len(),
            w@ == old(w)@ + seq_ser(v@.take(k as int)),
        decreases v.len() - k,
    {
        v[k].ser(w);
        proof {
            assert(v@.take(k + 1) =~= v@.take(k as int).push(v@[k as int]));
            lemma_seq_ser_push(v@.take(k as int), v@[k as int]);
        }
        k = k + 1;
    }
    assert(v@.take(v@.len() as int) =~= v@);
}

/// End position of `count` consecutive string encodings starting at `i`.
pub open spec fn strings_end(s: Seq<u8>, i: int, count: nat) -> Option<int>
    decreases count,
{
    if count == 0 {
        Some(i)
    } else {
        match string_end(s, i) {
            Option::None => None,
            Option::Some(j) => strings_end(s, j, (count - 1) as nat),
        }
    }
}

pub open spec fn all_wf_strings(v: Seq<EncodedString>) -> bool {
    forall|k: int| 0 <= k < v.len() ==> (#[trigger] v[k]).wf()
}

/// Parse `count` consecutive string encodings starting at `i`.
fn parse_strings(s: &Vec<u8>, i: usize, count: u32) -> (r: Result<
    (Vec<EncodedString>, usize),
    RdbError,
>)
    requires
        i <= s@.len(),
    ensures
        r is Ok <==> strings_end(s@, i as int, count as nat) is Some,
        r matches Ok((v, j)) ==> {
            &&& strings_end(s@, i as int, count as nat) == Some(j as int)
            &&& i <= j <= s@.len()
            &&& v@.len() == count
            &&& all_wf_strings(v@)
            &&& seq_ser(v@) == s@.subrange(i as int, j as int)
        },
        r matches Err(e) ==> e == RdbError::ParseError,
{
    let mut v: Vec<EncodedString> = Vec::new();
    let mut pos: usize = i;
    let mut k: u32 = 0;
    while k < count
        invariant
            k <= count,
            i <= pos <= s@.len(),
            v@.len() == k,
            all_wf_strings(v@),
            seq_ser(v@) == s@.subrange(i as int, pos as int),
            strings_end(s@, pos as int, (count - k) as nat) == strings_end(
                s@,
                i as int,
                count as nat,
            ),
        decreases count - k,
    {
        match encoded_string(s, pos) {
            Ok((e, j)) => {
                proof {
                    lemma_seq_ser_push(v@, e);
                    assert(s@.subrange(i as int, pos as int) + s@.subrange(pos as int, j as int)
                        =~= s@.subrange(i as int, j as int));
                }
                v.push(e);
                pos = j;
            },
            Err(_) => {
                return Err(RdbError::ParseError);
            },
        }
        k = k + 1;
    }
    Ok((v, pos))
}

/// End position of a length-prefixed run of string encodings starting at `i`.
pub open spec fn sequence_end(s: Seq<u8>, i: int) -> Option<int> {
    match length_end(s, i) {
        Option::None => None,
        Option::Some(j) => strings_end(s, j, len_num(length_val(s, i)) as nat),
    }
}

/// Parse a length-prefixed run of string encodings starting at `i`.
fn encoded_sequence(s: &Vec<u8>, i: usize) -> (r: Result<
    ((EncodedLength, Vec<EncodedString>), usize),
    RdbError,
>)
    ensures
        r is Ok <==> sequence_end(s@, i as int) is Some,
        r matches Ok(((l, v), j)) ==> {
            &&& sequence_end(s@, i as int) == Some(j as int)
            &&& i <= j <= s@.len()
            &&& l.wf()
            &&& l.val() == length_val(s@, i as int)
            &&& v@.len() == len_num(l.val())
            &&& all_wf_strings(v@)
            &&& l.src() + seq_ser(v@) == s@.subrange(i as int, j as int)
        },
        r matches Err(e) ==> e == RdbError::ParseError,
{
    let (l, j) = match encoded_length(s, i) {
        Ok(x) => x,
        Err(e) => {
            return Err(e);
        },
    };
    let count: u32 = match &l {
        EncodedLength::I(n, _) => *n,
        EncodedLength::S(_, _) => 0,
    };
    match parse_strings(s, j, count) {
        Ok((v, e)) => {
            assert(s@.subrange(i as int, j as int) + s@.subrange(j as int, e as int)
                =~= s@.subrange(i as int, e as int));
            Ok(((l, v), e))
        },
        Err(e) => Err(e),
    }
}

/// A list value: a length prefix and that many elements.
#[derive(Debug, PartialEq, Eq, Clone)]
pub struct EncodedList(pub EncodedLength, pub Vec<EncodedString>);

/// A set value: a length prefix and that many members.
#[derive(Debug, PartialEq, Eq, Clone)]
pub struct EncodedSet(pub EncodedLength, pub Vec<EncodedString>);

impl EncodedList {
    pub open spec fn wf(self) -> bool {
        self.0.wf() && self.1@.len() == len_num(self.0.val()) && all_wf_strings(self.1@)
    }
}

impl EncodedSet {
    pub open spec fn wf(self) -> bool {
        self.0.wf() && self.1@.len() == len_num(self.0.val()) && all_wf_strings(self.1@)
    }
}

impl RDBSer for EncodedList {
    open spec fn spec_ser(&self) -> Seq<u8> {
        self.0.src() + seq_ser(self.1@)
    }

    fn ser(&self, w: &mut Vec<u8>) -> (n: usize)
        ensures
            final(w)@ == old(w)@ + self.spec_ser(),
            n == self.spec_ser().len(),
    {
        let before = w.len();
        self.0.ser(w);
        ser_all(&self.1, w);
        w.len() - before
    }
}

impl RDBSer for EncodedSet {
    open spec fn spec_ser(&self) -> Seq<u8> {
        self.0.src() + seq_ser(self.1@)
    }

    fn ser(&self, w: &mut Vec<u8>) -> (n: usize)
        ensures
            final(w)@ == old(w)@ + self.spec_ser(),
            n == self.spec_ser().len(),
    {
        let before = w.len();
        self.0.ser(w);
        ser_all(&self.1, w);
        w.len() - before
    }
}

// ---------------------------------------------------------------------------
// Sorted sets and hashmaps: runs of tuples.
// ---------------------------------------------------------------------------

/// A sorted-set entry: member, score length, score bytes.
impl RDBSer for (EncodedString, u8, Vec<u8>) {
    open spec fn spec_ser(&self) -> Seq<u8> {
        self.0.spec_ser() + seq![self.1] + self.2@
    }

    fn ser(&self, w: &mut Vec<u8>) -> (n: usize)
        ensures
            final(w)@ == old(w)@ + self.spec_ser(),
            n == self.spec_ser().len(),
    {
        let before = w.len();
        self.0.ser(w);
        w.push(self.1);
        write_bytes(w, &self.2);
        assert(final(w)@ =~= old(w)@ + self.spec_ser());
        w.len() - before
    }
}

/// A hashmap entry: key, value.
impl RDBSer for (EncodedString, EncodedString) {
    open spec fn spec_ser(&self) -> Seq<u8> {
        self.0.spec_ser() + self.1.spec_ser()
    }

    fn ser(&self, w: &mut Vec<u8>) -> (n: usize)
        ensures
            final(w)@ == old(w)@ + self.spec_ser(),
            n == self.spec_ser().len(),
    {
        let before = w.len();
        self.0.ser(w);
        self.1.ser(w);
        assert(final(w)@ =~= old(w)@ + self.spec_ser());
        w.len() - before
    }
}

pub open spec fn triple_wf(t: (EncodedString, u8, Vec<u8>)) -> bool {
    t.0.wf() && t.2@.len() == t.1
}

pub open spec fn all_wf_triples(v: Seq<(EncodedString, u8, Vec<u8>)>) -> bool {
    forall|k: int| 0 <= k < v.len() ==> triple_wf(#[trigger] v[k])
}

pub open spec fn pair_wf(t: (EncodedString, EncodedString)) -> bool {
    t.0.wf() && t.1.wf()
}

pub open spec fn all_wf_pairs(v: Seq<(EncodedString, EncodedString)>) -> bool {
    forall|k: int| 0 <= k < v.len() ==> pair_wf(#[trigger] v[k])
}

/// End position of one sorted-set entry starting at `i`.
pub open spec fn triple_end(s: Seq<u8>, i: int) -> Option<int> {
    match string_end(s, i) {
        Option::None => None,
        Option::Some(j) => if j < s.len() && j + 1 + s[j] <= s.len() {
            Some(j + 1 + s[j])
        } else {
            None
        },
    }
}

/// End position of `count` consecutive sorted-set entries starting at `i`.
pub open spec fn triples_end(s: Seq<u8>, i: int, count: nat) -> Option<int>
    decreases count,
{
    if count == 0 {
        Some(i)
    } else {
        match triple_end(s, i) {
            Option::None => None,
            Option::Some(j) => triples_end(s, j, (count - 1) as nat),
        }
    }
}

/// End position of one hashmap entry starting at `i`.
pub open spec fn pair_end(s: Seq<u8>, i: int) -> Option<int> {
    match string_end(s, i) {
        Option::None => None,
        Option::Some(j) => string_end(s, j),
    }
}

/// End position of `count` consecutive hashmap entries starting at `i`.
pub open spec fn pairs_end(s: Seq<u8>, i: int, count: nat) -> Option<int>
    decreases count,
{
    if count == 0 {
        Some(i)
    } else {
        match pair_end(s, i) {
            Option::None => None,
            Option::Some(j) => pairs_end(s, j, (count - 1) as nat),
        }
    }
}

/// Parse `count` consecutive sorted-set entries starting at `i`.
fn parse_triples(s: &Vec<u8>, i: usize, count: u32) -> (r: Result<
    (Vec<(EncodedString, u8, Vec<u8>)>, usize),
    RdbError,
>)
    requires
        i <= s@.len(),
    ensures
        r is Ok <==> triples_end(s@, i as int, count as nat) is Some,
        r matches Ok((v, j)) ==> {
            &&& triples_end(s@, i as int, count as nat) == Some(j as int)
            &&& i <= j <= s@.len()
            &&& v@.len() == count
            &&& all_wf_triples(v@)
            &&& seq_ser(v@) == s@.subrange(i as int, j as int)
        },
        r matches Err(e) ==> e == RdbError::ParseError,
{
    let mut v: Vec<(EncodedString, u8, Vec<u8>)> = Vec::new();
    let mut pos: usize = i;
    let mut k: u32 = 0;
    while k < count
        invariant
            k <= count,
            i <= pos <= s@.len(),
            v@.len() == k,
            all_wf_triples(v@),
            seq_ser(v@) == s@.subrange(i as int, pos as int),
            triples_end(s@, pos as int, (count - k) as nat) == triples_end(
                s@,
                i as int,
                count as nat,
            ),
        decreases count - k,
    {
        let (e, j) = match encoded_string(s, pos) {
            Ok(x) => x,
            Err(_) => {
                return Err(RdbError::ParseError);
            },
        };
        if j >= s.len() {
            return Err(RdbError::ParseError);
        }
        let u = s[j];
        if u as usize > s.len() - j - 1 {
            return Err(RdbError::ParseError);
        }
        let f = copy_range(s, j + 1, j + 1 + u as usize);
        let t = (e, u, f);
        let e2 = j + 1 + u as usize;
        proof {
            lemma_seq_ser_push(v@, t);
            assert(t.spec_ser() =~= s@.subrange(pos as int, e2 as int));
            assert(s@.subrange(i as int, pos as int) + s@.subrange(pos as int, e2 as int)
                =~= s@.subrange(i as int, e2 as int));
        }
        v.push(t);
        pos = e2;
        k = k + 1;
    }
    Ok((v, pos))
}

/// Parse `count` consecutive hashmap entries starting at `i`.
fn parse_pairs(s: &Vec<u8>, i: usize, count: u32) -> (r: Result<
    (Vec<(EncodedString, EncodedString)>, usize),
    RdbError,
>)
    requires
        i <= s@.len(),
    ensures
        r is Ok <==> pairs_end(s@, i as int, count as nat) is Some,
        r matches Ok((v, j)) ==> {
            &&& pairs_end(s@, i as int, count as nat) == Some(j as int)
            &&& i <= j <= s@.len()
            &&& v@.len() == count
            &&& all_wf_pairs(v@)
            &&& seq_ser(v@) == s@.subrange(i as int, j as int)
        },
        r matches Err(e) ==> e == RdbError::ParseError,
{
    let mut v: Vec<(EncodedString, EncodedString)> = Vec::new();
    let mut pos: usize = i;
    let mut k: u32 = 0;
    while k < count
        invariant
            k <= count,
            i <= pos <= s@.len(),
            v@.len() == k,
            all_wf_pairs(v@),
            seq_ser(v@) == s@.subrange(i as int, pos as int),
            pairs_end(s@, pos as int, (count - k) as nat) == pairs_end(s@, i as int, count as nat),
        decreases count - k,
    {
        let (ke, j) = match encoded_string(s, pos) {
            Ok(x) => x,
            Err(_) => {
                return Err(RdbError::ParseError);
            },
        };
        let (ve, e2) = match encoded_string(s, j) {
            Ok(x) => x,
            Err(_) => {
                return Err(RdbError::ParseError);
            },
        };
        let t = (ke, ve);
        proof {
            lemma_seq_ser_push(v@, t);
            assert(t.spec_ser() =~= s@.subrange(pos as int, e2 as int));
            assert(s@.subrange(i as int, pos as int) + s@.subrange(pos as int, e2 as int)
                =~= s@.subrange(i as int, e2 as int));
        }
        v.push(t);
        pos = e2;
        k = k + 1;
    }
    Ok((v, pos))
}

/// End position of a sorted-set body starting at `i`.
pub open spec fn sortedset_end(s: Seq<u8>, i: int) -> Option<int> {
    match length_end(s, i) {
        Option::None => None,
        Option::Some(j) => triples_end(s, j, len_num(length_val(s, i)) as nat),
    }
}

/// End position of a hashmap body starting at `i`.
pub open spec fn hashmap_end(s: Seq<u8>, i: int) -> Option<int> {
    match length_end(s, i) {
        Option::None => None,
        Option::Some(j) => pairs_end(s, j, len_num(length_val(s, i)) as nat),
    }
}

/// A sorted-set value: a length prefix and that many (member, score) entries.
#[derive(Debug, PartialEq, Eq, Clone)]
pub struct EncodedSortedset(pub EncodedLength, pub Vec<(EncodedString, u8, Vec<u8>)>);

/// A hashmap value: a length prefix and that many (key, value) entries.
#[derive(Debug, PartialEq, Eq, Clone)]
pub struct EncodedHashmap(pub EncodedLength, pub Vec<(EncodedString, EncodedString)>);

impl EncodedSortedset {
    pub open spec fn wf(self) -> bool {
        self.0.wf() && self.1@.len() == len_num(self.0.val()) && all_wf_triples(self.1@)
    }
}

impl EncodedHashmap {
    pub open spec fn wf(self) -> bool {
        self.0.wf() && self.1@.len() == len_num(self.0.val()) && all_wf_pairs(self.1@)
    }
}

impl RDBSer for EncodedSortedset {
    open spec fn spec_ser(&self) -> Seq<u8> {
        self.0.src() + seq_ser(self.1@)
    }

    fn ser(&self, w: &mut Vec<u8>) -> (n: usize)
        ensures
            final(w)@ == old(w)@ + self.spec_ser(),
            n == self.spec_ser().len(),
    {
        let before = w.len();
        self.0.ser(w);
        ser_all(&self.1, w);
        w.len() - before
    }
}

impl RDBSer for EncodedHashmap {
    open spec fn spec_ser(&self) -> Seq<u8> {
        self.0.src() + seq_ser(self.1@)
    }

    fn ser(&self, w: &mut Vec<u8>) -> (n: usize)
        ensures
            final(w)@ == old(w)@ + self.spec_ser(),
            n == self.spec_ser().len(),
    {
        let before = w.len();
        self.0.ser(w);
        ser_all(&self.1, w);
        w.len() - before
    }
}

// ---------------------------------------------------------------------------
// Packed encodings carried through as one opaque string payload.
// ---------------------------------------------------------------------------

/// A ziplist value, carried as its packed string payload.
#[derive(Debug, PartialEq, Eq, Clone)]
pub struct EncodedZiplist(pub EncodedString);

/// An intset value, carried as its packed string payload.
#[derive(Debug, PartialEq, Eq, Clone)]
pub struct EncodedIntset(pub EncodedString);

/// A sorted-set-in-ziplist value, carried as its packed string payload.
#[derive(Debug, PartialEq, Eq, Clone)]
pub struct EncodedSortedsetZiplist(pub EncodedString);

/// A hashmap-in-ziplist value, carried as its packed string payload.
#[derive(Debug, PartialEq, Eq, Clone)]
pub struct EncodedHashmapZiplist(pub EncodedString);

impl EncodedZiplist {
    pub open spec fn wf(self) -> bool {
        self.0.wf()
    }
}

impl EncodedIntset {
    pub open spec fn wf(self) -> bool {
        self.0.wf()
    }
}

impl EncodedSortedsetZiplist {
    pub open spec fn wf(self) -> bool {
        self.0.wf()
    }
}

impl EncodedHashmapZiplist {
    pub open spec fn wf(self) -> bool {
        self.0.wf()
    }
}

impl RDBSer for EncodedZiplist {
    open spec fn spec_ser(&self) -> Seq<u8> {
        self.0.spec_ser()
    }

    fn ser(&self, w: &mut Vec<u8>) -> (n: usize)
        ensures
            final(w)@ == old(w)@ + self.spec_ser(),
            n == self.spec_ser().len(),
    {
        self.0.ser(w)
    }
}

impl RDBSer for EncodedIntset {
    open spec fn spec_ser(&self) -> Seq<u8> {
        self.0.spec_ser()
    }

    fn ser(&self, w: &mut Vec<u8>) -> (n: usize)
        ensures
            final(w)@ == old(w)@ + self.spec_ser(),
            n == self.spec_ser().len(),
    {
        self.0.ser(w)
    }
}

impl RDBSer for EncodedSortedsetZiplist {
    open spec fn spec_ser(&self) -> Seq<u8> {
        self.0.spec_ser()
    }

    fn ser(&self, w: &mut Vec<u8>) -> (n: usize)
        ensures
            final(w)@ == old(w)@ + self.spec_ser(),
            n == self.spec_ser().len(),
    {
        self.0.ser(w)
    }
}

impl RDBSer for EncodedHashmapZiplist {
    open spec fn spec_ser(&self) -> Seq<u8> {
        self.0.spec_ser()
    }

    fn ser(&self, w: &mut Vec<u8>) -> (n: usize)
        ensures
            final(w)@ == old(w)@ + self.spec_ser(),
            n == self.spec_ser().len(),
    {
        self.0.ser(w)
    }
}

// ---------------------------------------------------------------------------
// Values, expiry times, and records.
// ---------------------------------------------------------------------------

pub const VT_STRING: u8 = 0x00;

pub const VT_LIST: u8 = 0x01;

pub const VT_SET: u8 = 0x02;

pub const VT_SORTEDSET: u8 = 0x03;

pub const VT_HASHMAP: u8 = 0x04;

pub const VT_ZIPLIST: u8 = 0x0a;

pub const VT_INTSET: u8 = 0x0b;

pub const VT_SORTEDSET_ZIPLIST: u8 = 0x0c;

pub const VT_HASHMAP_ZIPLIST: u8 = 0x0d;

/// The nine value encodings, tagged by their value-type byte.
#[derive(Debug, PartialEq, Eq, Clone)]
pub enum EncodedValue {
    V0(EncodedString),
    V1(EncodedList),
    V2(EncodedSet),
    V3(EncodedSortedset),
    V4(EncodedHashmap),
    VA(EncodedZiplist),
    VB(EncodedIntset),
    VC(EncodedSortedsetZiplist),
    VD(EncodedHashmapZiplist),
}

/// The value-type byte that announces this value variant.
pub open spec fn vt_byte(v: EncodedValue) -> u8 {
    match v {
        EncodedValue::V0(_) => VT_STRING,
        EncodedValue::V1(_) => VT_LIST,
        EncodedValue::V2(_) => VT_SET,
        EncodedValue::V3(_) => VT_SORTEDSET,
        EncodedValue::V4(_) => VT_HASHMAP,
        EncodedValue::VA(_) => VT_ZIPLIST,
        EncodedValue::VB(_) => VT_INTSET,
        EncodedValue::VC(_) => VT_SORTEDSET_ZIPLIST,
        EncodedValue::VD(_) => VT_HASHMAP_ZIPLIST,
    }
}

/// Whether `t` is one of the nine supported value-type bytes.
pub open spec fn is_value_type(t: u8) -> bool {
    t == VT_STRING || t == VT_LIST || t == VT_SET || t == VT_SORTEDSET || t == VT_HASHMAP || t
        == VT_ZIPLIST || t == VT_INTSET || t == VT_SORTEDSET_ZIPLIST || t == VT_HASHMAP_ZIPLIST
}

impl EncodedValue {
    pub open spec fn wf(self) -> bool {
        match self {
            EncodedValue::V0(v) => v.wf(),
            EncodedValue::V1(v) => v.wf(),
            EncodedValue::V2(v) => v.wf(),
            EncodedValue::V3(v) => v.wf(),
            EncodedValue::V4(v) => v.wf(),
            EncodedValue::VA(v) => v.wf(),
            EncodedValue::VB(v) => v.wf(),
            EncodedValue::VC(v) => v.wf(),
            EncodedValue::VD(v) => v.wf(),
        }
    }
}

impl RDBSer for EncodedValue {
    open spec fn spec_ser(&self) -> Seq<u8> {
        match self {
            EncodedValue::V0(v) => v.spec_ser(),
            EncodedValue::V1(v) => v.spec_ser(),
            EncodedValue::V2(v) => v.spec_ser(),
            EncodedValue::V3(v) => v.spec_ser(),
            EncodedValue::V4(v) => v.spec_ser(),
            EncodedValue::VA(v) => v.spec_ser(),
            EncodedValue::VB(v) => v.spec_ser(),
            EncodedValue::VC(v) => v.spec_ser(),
            EncodedValue::VD(v) => v.spec_ser(),
        }
    }

    fn ser(&self, w: &mut Vec<u8>) -> (n: usize)
        ensures
            final(w)@ == old(w)@ + self.spec_ser(),
            n == self.spec_ser().len(),
    {
        match self {
            EncodedValue::V0(v) => v.ser(w),
            EncodedValue::V1(v) => v.ser(w),
            EncodedValue::V2(v) => v.ser(w),
            EncodedValue::V3(v) => v.ser(w),
            EncodedValue::V4(v) => v.ser(w),
            EncodedValue::VA(v) => v.ser(w),
            EncodedValue::VB(v) => v.ser(w),
            EncodedValue::VC(v) => v.ser(w),
            EncodedValue::VD(v) => v.ser(w),
        }
    }
}

/// End position of the value body for value-type byte `t` starting at `i`.
pub open spec fn value_end(s: Seq<u8>, i: int, t: u8) -> Option<int> {
    if t == VT_STRING || t == VT_ZIPLIST || t == VT_INTSET || t == VT_SORTEDSET_ZIPLIST || t
        == VT_HASHMAP_ZIPLIST {
        string_end(s, i)
    } else if t == VT_LIST || t == VT_SET {
        sequence_end(s, i)
    } else if t == VT_SORTEDSET {
        sortedset_end(s, i)
    } else if t == VT_HASHMAP {
        hashmap_end(s, i)
    } else {
        None
    }
}

/// Parse the value body for value-type byte `t` starting at `i`.
fn encoded_value(s: &Vec<u8>, i: usize, t: u8) -> (r: Result<(EncodedValue, usize), RdbError>)
    requires
        is_value_type(t),
    ensures
        r is Ok <==> value_end(s@, i as int, t) is Some,
        r matches Ok((v, j)) ==> {
            &&& value_end(s@, i as int, t) == Some(j as int)
            &&& i <= j <= s@.len()
            &&& v.wf()
            &&& vt_byte(v) == t
            &&& v.spec_ser() == s@.subrange(i as int, j as int)
        },
        r matches Err(e) ==> e == RdbError::ParseError,
{
    if t == VT_STRING {
        match encoded_string(s, i) {
            Ok((v, j)) => Ok((EncodedValue::V0(v), j)),
            Err(e) => Err(e),
        }
    } else if t == VT_LIST {
        match encoded_sequence(s, i) {
            Ok(((l, v), j)) => Ok((EncodedValue::V1(EncodedList(l, v)), j)),
            Err(e) => Err(e),
        }
    } else if t == VT_SET {
        match encoded_sequence(s, i) {
            Ok(((l, v), j)) => Ok((EncodedValue::V2(EncodedSet(l, v)), j)),
            Err(e) => Err(e),
        }
    } else if t == VT_SORTEDSET {
        let (l, j) = match encoded_length(s, i) {
            Ok(x) => x,
            Err(e) => {
                return Err(e);
            },
        };
        let count: u32 = match &l {
            EncodedLength::I(n, _) => *n,
            EncodedLength::S(_, _) => 0,
        };
        match parse_triples(s, j, count) {
            Ok((v, e)) => {
                assert(s@.subrange(i as int, j as int) + s@.subrange(j as int, e as int)
                    =~= s@.subrange(i as int, e as int));
                Ok((EncodedValue::V3(EncodedSortedset(l, v)), e))
            },
            Err(e) => Err(e),
        }
    } else if t == VT_HASHMAP {
        let (l, j) = match encoded_length(s, i) {
            Ok(x) => x,
            Err(e) => {
                return Err(e);
            },
        };
        let count: u32 = match &l {
            EncodedLength::I(n, _) => *n,
            EncodedLength::S(_, _) => 0,
        };
        match parse_pairs(s, j, count) {
            Ok((v, e)) => {
                assert(s@.subrange(i as int, j as int) + s@.subrange(j as int, e as int)
                    =~= s@.subrange(i as int, e as int));
                Ok((EncodedValue::V4(EncodedHashmap(l, v)), e))
            },
            Err(e) => Err(e),
        }
    } else if t == VT_ZIPLIST {
        match encoded_string(s, i) {
            Ok((v, j)) => Ok((EncodedValue::VA(EncodedZiplist(v)), j)),
            Err(e) => Err(e),
        }
    } else if t == VT_INTSET {
        match encoded_string(s, i) {
            Ok((v, j)) => Ok((EncodedValue::VB(EncodedIntset(v)), j)),
            Err(e) => Err(e),
        }
    } else if t == VT_SORTEDSET_ZIPLIST {
        match encoded_string(s, i) {
            Ok((v, j)) => Ok((EncodedValue::VC(EncodedSortedsetZiplist(v)), j)),
            Err(e) => Err(e),
        }
    } else {
        match encoded_string(s, i) {
            Ok((v, j)) => Ok((EncodedValue::VD(EncodedHashmapZiplist(v)), j)),
            Err(e) => Err(e),
        }
    }
}

/// An expiry prefix: milliseconds (8 payload bytes) or seconds (4).
#[derive(Debug, PartialEq, Eq, Clone)]
pub enum ExpiryTime {
    MilliSec(Vec<u8>),
    Sec(Vec<u8>),
}

impl ExpiryTime {
    pub open spec fn wf(self) -> bool {
        match self {
            ExpiryTime::MilliSec(b) => b@.len() == 8,
            ExpiryTime::Sec(b) => b@.len() == 4,
        }
    }
}

impl RDBSer for ExpiryTime {
    open spec fn spec_ser(&self) -> Seq<u8> {
        match self {
            ExpiryTime::MilliSec(b) => seq![0xfcu8] + b@,
            ExpiryTime::Sec(b) => seq![0xfdu8] + b@,
        }
    }

    fn ser(&self, w: &mut Vec<u8>) -> (n: usize)
        ensures
            final(w)@ == old(w)@ + self.spec_ser(),
            n == self.spec_ser().len(),
    {
        let before = w.len();
        match self {
            ExpiryTime::MilliSec(b) => {
                w.push(0xfc);
                write_bytes(w, b);
                assert(final(w)@ =~= old(w)@ + self.spec_ser());
            },
            ExpiryTime::Sec(b) => {
                w.push(0xfd);
                write_bytes(w, b);
                assert(final(w)@ =~= old(w)@ + self.spec_ser());
            },
        }
        w.len() - before
    }
}

/// One record: key, value, and an optional expiry prefix.
#[derive(Debug, PartialEq, Eq, Clone)]
pub struct Record(pub EncodedString, pub EncodedValue, pub Option<ExpiryTime>);

impl Record {
    pub open spec fn wf(self) -> bool {
        &&& self.0.wf()
        &&& self.1.wf()
        &&& match self.2 {
            Option::Some(e) => e.wf(),
            Option::None => true,
        }
    }
}

impl RDBSer for Record {
    open spec fn spec_ser(&self) -> Seq<u8> {
        (match self.2 {
            Option::Some(e) => e.spec_ser(),
            Option::None => Seq::empty(),
        }) + seq![vt_byte(self.1)] + self.0.spec_ser() + self.1.spec_ser()
    }

    fn ser(&self, w: &mut Vec<u8>) -> (n: usize)
        ensures
            final(w)@ == old(w)@ + self.spec_ser(),
            n == self.spec_ser().len(),
    {
        let before = w.len();
        match &self.2 {
            Some(e) => {
                e.ser(w);
            },
            None => {},
        }
        let t: u8 = match &self.1 {
            EncodedValue::V0(_) => VT_STRING,
            EncodedValue::V1(_) => VT_LIST,
            EncodedValue::V2(_) => VT_SET,
            EncodedValue::V3(_) => VT_SORTEDSET,
            EncodedValue::V4(_) => VT_HASHMAP,
            EncodedValue::VA(_) => VT_ZIPLIST,
            EncodedValue::VB(_) => VT_INTSET,
            EncodedValue::VC(_) => VT_SORTEDSET_ZIPLIST,
            EncodedValue::VD(_) => VT_HASHMAP_ZIPLIST,
        };
        w.push(t);
        self.0.ser(w);
        self.1.ser(w);
        assert(final(w)@ =~= old(w)@ + self.spec_ser());
        w.len() - before
    }
}

/// Position of the value-type byte after the optional expiry prefix at `i`.
pub open spec fn expiry_end(s: Seq<u8>, i: int) -> int
    recommends
        0 <= i < s.len(),
{
    if s[i] == 0xfc {
        i + 9
    } else if s[i] == 0xfd {
        i + 5
    } else {
        i
    }
}

/// End position of the record starting at `i`, if one parses there.
pub open spec fn record_end(s: Seq<u8>, i: int) -> Option<int> {
    if i < 0 || i >= s.len() {
        None
    } else {
        let ei = expiry_end(s, i);
        if ei + 1 <= s.len() && is_value_type(s[ei]) {
            match string_end(s, ei + 1) {
                Option::None => None,
                Option::Some(k) => value_end(s, k, s[ei]),
            }
        } else {
            None
        }
    }
}

/// Whether `t` is one of the nine supported value-type bytes.
fn is_vt(t: u8) -> (r: bool)
    ensures
        r == is_value_type(t),
{
    t == VT_STRING || t == VT_LIST || t == VT_SET || t == VT_SORTEDSET || t == VT_HASHMAP || t
        == VT_ZIPLIST || t == VT_INTSET || t == VT_SORTEDSET_ZIPLIST || t == VT_HASHMAP_ZIPLIST
}

/// Parse the optional expiry prefix at `i`.
fn expiry_time(s: &Vec<u8>, i: usize) -> (r: Result<(Option<ExpiryTime>, usize), RdbError>)
    requires
        i < s@.len(),
    ensures
        r is Ok <==> expiry_end(s@, i as int) <= s@.len(),
        r matches Ok((e, ei)) ==> {
            &&& ei as int == expiry_end(s@, i as int)
            &&& i <= ei <= s@.len()
            &&& (e matches Some(x) ==> x.wf() && x.spec_ser() == s@.subrange(i as int, ei as int))
            &&& (e is None ==> ei == i)
        },
        r matches Err(e) ==> e == RdbError::ParseError,
{
    let b = s[i];
    if b == 0xfc {
        if s.len() - i < 9 {
            return Err(RdbError::ParseError);
        }
        let e = ExpiryTime::MilliSec(copy_range(s, i + 1, i + 9));
        assert(e.spec_ser() =~= s@.subrange(i as int, i + 9));
        Ok((Some(e), i + 9))
    } else if b == 0xfd {
        if s.len() - i < 5 {
            return Err(RdbError::ParseError);
        }
        let e = ExpiryTime::Sec(copy_range(s, i + 1, i + 5));
        assert(e.spec_ser() =~= s@.subrange(i as int, i + 5));
        Ok((Some(e), i + 5))
    } else {
        Ok((None, i))
    }
}

/// The byte image of a record is the concatenation of its parsed pieces.
proof fn lemma_record_compose(s: Seq<u8>, i: int, ei: int, k: int, j: int, rec: Record)
    requires
        0 <= i <= ei,
        ei + 1 <= k <= j <= s.len(),
        rec.2 matches Option::Some(e) ==> e.spec_ser() == s.subrange(i, ei),
        rec.2 is None ==> ei == i,
        vt_byte(rec.1) == s[ei],
        rec.0.spec_ser() == s.subrange(ei + 1, k),
        rec.1.spec_ser() == s.subrange(k, j),
    ensures
        rec.spec_ser() == s.subrange(i, j),
{
    assert(seq![s[ei]] =~= s.subrange(ei, ei + 1));
    assert(rec.spec_ser() =~= s.subrange(i, j));
}

/// Decode the record at `s[i..]`.
pub fn record(s: &Vec<u8>, i: usize) -> (r: Result<(Record, usize), RdbError>)
    ensures
        r is Ok <==> record_end(s@, i as int) is Some,
        r matches Ok((v, j)) ==> {
            &&& record_end(s@, i as int) == Some(j as int)
            &&& i < j <= s@.len()
            &&& v.wf()
            &&& v.spec_ser() == s@.subrange(i as int, j as int)
        },
        r matches Err(e) ==> e == RdbError::ParseError,
{
    if i >= s.len() {
        return Err(RdbError::ParseError);
    }
    let (exp, ei) = match expiry_time(s, i) {
        Ok(x) => x,
        Err(e) => {
            return Err(e);
        },
    };
    if ei >= s.len() {
        return Err(RdbError::ParseError);
    }
    let t = s[ei];
    if !is_vt(t) {
        return Err(RdbError::ParseError);
    }
    let (key, k) = match encoded_string(s, ei + 1) {
        Ok(x) => x,
        Err(e) => {
            return Err(e);
        },
    };
    let (val, j) = match encoded_value(s, k, t) {
        Ok(x) => x,
        Err(e) => {
            return Err(e);
        },
    };
    let rec = Record(key, val, exp);
    proof {
        lemma_record_compose(s@, i as int, ei as int, k as int, j as int, rec);
    }
    Ok((rec, j))
}

// ---------------------------------------------------------------------------
// Database and top-level snapshot framing.
// ---------------------------------------------------------------------------

/// End position of the run of records starting at `i`: records are consumed
/// as long as one parses, and the run stops at the first byte where none does.
pub open spec fn records_end(s: Seq<u8>, i: int) -> int
    decreases s.len() - i,
{
    match record_end(s, i) {
        Option::None => i,
        Option::Some(j) => if i < j <= s.len() {
            records_end(s, j)
        } else {
            i
        },
    }
}

/// End position of the database-number header starting at `i`.
pub open spec fn database_number_end(s: Seq<u8>, i: int) -> Option<int> {
    if 0 <= i < s.len() && s[i] == 0xfe {
        length_end(s, i + 1)
    } else {
        None
    }
}

/// End position of the database starting at `i`: its header, then as many
/// records as parse.
pub open spec fn database_end(s: Seq<u8>, i: int) -> Option<int> {
    match database_number_end(s, i) {
        Option::None => None,
        Option::Some(j) => Some(records_end(s, j)),
    }
}

/// A database-number header: the length node and its numeric reading.
#[derive(Debug, PartialEq, Eq, Clone)]
pub struct DatabaseNumber(pub EncodedLength, pub u32);

impl DatabaseNumber {
    pub open spec fn wf(self) -> bool {
        self.0.wf() && self.1 == len_num(self.0.val())
    }
}

impl RDBSer for DatabaseNumber {
    open spec fn spec_ser(&self) -> Seq<u8> {
        seq![0xfeu8] + self.0.src()
    }

    fn ser(&self, w: &mut Vec<u8>) -> (n: usize)
        ensures
            final(w)@ == old(w)@ + self.spec_ser(),
            n == self.spec_ser().len(),
    {
        let before = w.len();
        w.push(0xfe);
        self.0.ser(w);
        assert(final(w)@ =~= old(w)@ + self.spec_ser());
        w.len() - before
    }
}

/// Decode the database-number header at `s[i..]`.
pub fn database_number(s: &Vec<u8>, i: usize) -> (r: Result<(DatabaseNumber, usize), RdbError>)
    ensures
        r is Ok <==> database_number_end(s@, i as int) is Some,
        r matches Ok((v, j)) ==> {
            &&& database_number_end(s@, i as int) == Some(j as int)
            &&& i + 2 <= j <= s@.len()
            &&& v.wf()
            &&& v.spec_ser() == s@.subrange(i as int, j as int)
        },
        r matches Err(e) ==> e == RdbError::ParseError,
{
    if i >= s.len() {
        return Err(RdbError::ParseError);
    }
    if s[i] != 0xfe {
        return Err(RdbError::ParseError);
    }
    let (l, j) = match encoded_length(s, i + 1) {
        Ok(x) => x,
        Err(e) => {
            return Err(e);
        },
    };
    let num: u32 = match &l {
        EncodedLength::I(n, _) => *n,
        EncodedLength::S(_, _) => 0,
    };
    let v = DatabaseNumber(l, num);
    assert(v.spec_ser() =~= s@.subrange(i as int, j as int));
    Ok((v, j))
}

pub open spec fn all_wf_records(v: Seq<Record>) -> bool {
    forall|k: int| 0 <= k < v.len() ==> (#[trigger] v[k]).wf()
}

/// A database: its number header and its records, in input order.
#[derive(Debug, PartialEq, Eq, Clone)]
pub struct Database(pub DatabaseNumber, pub Vec<Record>);

impl Database {
    pub open spec fn wf(self) -> bool {
        self.0.wf() && all_wf_records(self.1@)
    }
}

impl RDBSer for Database {
    open spec fn spec_ser(&self) -> Seq<u8> {
        self.0.spec_ser() + seq_ser(self.1@)
    }

    fn ser(&self, w: &mut Vec<u8>) -> (n: usize)
        ensures
            final(w)@ == old(w)@ + self.spec_ser(),
            n == self.spec_ser().len(),
    {
        let before = w.len();
        self.0.ser(w);
        ser_all(&self.1, w);
        w.len() - before
    }
}

/// Decode the database at `s[i..]`: its header, then as many records as parse.
pub fn database(s: &Vec<u8>, i: usize) -> (r: Result<(Database, usize), RdbError>)
    ensures
        r is Ok <==> database_end(s@, i as int) is Some,
        r matches Ok((v, j)) ==> {
            &&& database_end(s@, i as int) == Some(j as int)
            &&& i < j <= s@.len()
            &&& v.wf()
            &&& v.spec_ser() == s@.subrange(i as int, j as int)
        },
        r matches Err(e) ==> e == RdbError::ParseError,
{
    let (dn, hj) = match database_number(s, i) {
        Ok(x) => x,
        Err(e) => {
            return Err(e);
        },
    };
    let mut recs: Vec<Record> = Vec::new();
    let mut pos: usize = hj;
    loop
        invariant
            i + 2 <= hj <= pos <= s@.len(),
            all_wf_records(recs@),
            seq_ser(recs@) == s@.subrange(hj as int, pos as int),
            records_end(s@, pos as int) == records_end(s@, hj as int),
            dn.wf(),
            dn.spec_ser() == s@.subrange(i as int, hj as int),
            database_end(s@, i as int) == Some(records_end(s@, hj as int)),
        ensures
            i + 2 <= hj <= pos <= s@.len(),
            all_wf_records(recs@),
            seq_ser(recs@) == s@.subrange(hj as int, pos as int),
            dn.wf(),
            dn.spec_ser() == s@.subrange(i as int, hj as int),
            database_end(s@, i as int) == Some(pos as int),
        decreases s@.len() - pos,
    {
        match record(s, pos) {
            Ok((rec, j)) => {
                proof {
                    lemma_seq_ser_push(recs@, rec);
                    assert(s@.subrange(hj as int, pos as int) + s@.subrange(pos as int, j as int)
                        =~= s@.subrange(hj as int, j as int));
                }
                recs.push(rec);
                pos = j;
            },
            Err(_) => {
                break ;
            },
        }
    }
    let v = Database(dn, recs);
    assert(v.spec_ser() =~= s@.subrange(i as int, pos as int));
    Ok((v, pos))
}

/// The five magic bytes that open a snapshot.
pub open spec fn magic() -> Seq<u8> {
    seq![0x52u8, 0x45u8, 0x44u8, 0x49u8, 0x53u8]
}

/// The snapshot version field: the four ASCII bytes after the magic.
#[derive(Debug, PartialEq, Eq, Clone)]
pub struct RDBVersion(pub Vec<u8>);

impl RDBVersion {
    pub open spec fn wf(self) -> bool {
        self.0@.len() == 4
    }
}

impl RDBSer for RDBVersion {
    open spec fn spec_ser(&self) -> Seq<u8> {
        magic() + self.0@
    }

    fn ser(&self, w: &mut Vec<u8>) -> (n: usize)
        ensures
            final(w)@ == old(w)@ + self.spec_ser(),
            n == self.spec_ser().len(),
    {
        let before = w.len();
        w.push(0x52);
        w.push(0x45);
        w.push(0x44);
        w.push(0x49);
        w.push(0x53);
        write_bytes(w, &self.0);
        assert(final(w)@ =~= old(w)@ + self.spec_ser());
        w.len() - before
    }
}

/// The trailing checksum field, carried opaquely.
#[derive(Debug, PartialEq, Eq, Clone)]
pub struct Checksum(pub Vec<u8>);

impl Checksum {
    pub open spec fn wf(self) -> bool {
        self.0@.len() == 8
    }
}

impl RDBSer for Checksum {
    open spec fn spec_ser(&self) -> Seq<u8> {
        self.0@
    }

    fn ser(&self, w: &mut Vec<u8>) -> (n: usize)
        ensures
            final(w)@ == old(w)@ + self.spec_ser(),
            n == self.spec_ser().len(),
    {
        let before = w.len();
        write_bytes(w, &self.0);
        w.len() - before
    }
}

pub open spec fn all_wf_databases(v: Seq<Database>) -> bool {
    forall|k: int| 0 <= k < v.len() ==> (#[trigger] v[k]).wf()
}

/// A whole snapshot: version, databases, optional checksum.
#[derive(Debug, PartialEq)]
pub struct RDB(pub RDBVersion, pub Vec<Database>, pub Option<Checksum>);

impl RDB {
    pub open spec fn wf(self) -> bool {
        &&& self.0.wf()
        &&& all_wf_databases(self.1@)
        &&& match self.2 {
            Option::Some(c) => c.wf(),
            Option::None => true,
        }
    }
}

impl RDBSer for RDB {
    open spec fn spec_ser(&self) -> Seq<u8> {
        self.0.spec_ser() + seq_ser(self.1@) + seq![0xffu8] + (match self.2 {
            Option::Some(c) => c.spec_ser(),
            Option::None => Seq::empty(),
        })
    }

    fn ser(&self, w: &mut Vec<u8>) -> (n: usize)
        ensures
            final(w)@ == old(w)@ + self.spec_ser(),
            n == self.spec_ser().len(),
    {
        let before = w.len();
        self.0.ser(w);
        ser_all(&self.1, w);
        w.push(0xff);
        match &self.2 {
            Some(c) => {
                c.ser(w);
            },
            None => {},
        }
        assert(final(w)@ =~= old(w)@ + self.spec_ser());
        w.len() - before
    }
}

/// End position of the run of databases starting at `i`: databases are
/// consumed as long as one parses.
pub open spec fn databases_end(s: Seq<u8>, i: int) -> int
    decreases s.len() - i,
{
    match database_end(s, i) {
        Option::None => i,
        Option::Some(j) => if i < j <= s.len() {
            databases_end(s, j)
        } else {
            i
        },
    }
}

/// Whether `s` is, in full, a well-formed snapshot: magic and version, a run
/// of databases, the terminator, and either no checksum or exactly one.
pub open spec fn rdb_valid(s: Seq<u8>) -> bool {
    &&& s.len() >= 9
    &&& s.subrange(0, 5) == magic()
    &&& {
        let d = databases_end(s, 9);
        &&& d < s.len()
        &&& s[d] == 0xff
        &&& (s.len() == d + 1 || s.len() == d + 9)
    }
}

/// A buffer whose first five bytes are not the magic does not open a
/// snapshot.
proof fn lemma_magic_mismatch(s: Seq<u8>)
    requires
        s.len() >= 5,
        !(s[0] == 0x52 && s[1] == 0x45 && s[2] == 0x44 && s[3] == 0x49 && s[4] == 0x53),
    ensures
        s.subrange(0, 5) != magic(),
{
    if s.subrange(0, 5) == magic() {
        assert(s.subrange(0, 5)[0] == s[0]);
        assert(s.subrange(0, 5)[1] == s[1]);
        assert(s.subrange(0, 5)[2] == s[2]);
        assert(s.subrange(0, 5)[3] == s[3]);
        assert(s.subrange(0, 5)[4] == s[4]);
    }
}

/// The byte image of a snapshot is the concatenation of its parsed pieces.
proof fn lemma_rdb_compose(s: Seq<u8>, pos: int, v: RDB)
    requires
        9 <= pos < s.len(),
        v.0.spec_ser() == s.subrange(0, 9),
        seq_ser(v.1@) == s.subrange(9, pos),
        s[pos] == 0xff,
        v.2 is None ==> s.len() == pos + 1,
        v.2 matches Option::Some(c) ==> s.len() == pos + 9 && c.spec_ser() == s.subrange(
            pos + 1,
            s.len() as int,
        ),
    ensures
        v.spec_ser() == s,
{
    assert(seq![0xffu8] =~= s.subrange(pos, pos + 1));
    assert(v.spec_ser() =~= s);
}

/// Decode the whole snapshot `s`. Succeeds exactly when all of `s` is a
/// well-formed snapshot, and then the parse tree re-serializes to `s` itself.
pub fn rdb(s: &Vec<u8>) -> (r: Result<RDB, RdbError>)
    ensures
        r is Ok <==> rdb_valid(s@),
        r matches Ok(v) ==> v.wf() && v.spec_ser() == s@,
        r matches Err(e) ==> e == RdbError::ParseError,
{
    if s.len() < 9 {
        return Err(RdbError::ParseError);
    }
    if !(s[0] == 0x52 && s[1] == 0x45 && s[2] == 0x44 && s[3] == 0x49 && s[4] == 0x53) {
        proof {
            lemma_magic_mismatch(s@);
        }
        return Err(RdbError::ParseError);
    }
    assert(s@.subrange(0, 5) =~= magic());
    let ver = RDBVersion(copy_range(s, 5, 9));
    let mut dbs: Vec<Database> = Vec::new();
    let mut pos: usize = 9;
    loop
        invariant
            9 <= pos <= s@.len(),
            all_wf_databases(dbs@),
            seq_ser(dbs@) == s@.subrange(9, pos as int),
            databases_end(s@, pos as int) == databases_end(s@, 9),
            s@.len() >= 9,
            s@.subrange(0, 5) == magic(),
            ver.wf(),
            ver.spec_ser() == s@.subrange(0, 9),
        ensures
            9 <= pos <= s@.len(),
            all_wf_databases(dbs@),
            seq_ser(dbs@) == s@.subrange(9, pos as int),
            databases_end(s@, 9) == pos,
            ver.wf(),
            ver.spec_ser() == s@.subrange(0, 9),
        decreases s@.len() - pos,
    {
        match database(s, pos) {
            Ok((db, j)) => {
                proof {
                    lemma_seq_ser_push(dbs@, db);
                    assert(s@.subrange(9, pos as int) + s@.subrange(pos as int, j as int)
                        =~= s@.subrange(9, j as int));
                }
                dbs.push(db);
                pos = j;
            },
            Err(_) => {
                break ;
            },
        }
    }
    if pos >= s.len() {
        return Err(RdbError::ParseError);
    }
    if s[pos] != 0xff {
        return Err(RdbError::ParseError);
    }
    let rem = s.len() - pos - 1;
    let cs: Option<Checksum> = if rem == 0 {
        None
    } else if rem == 8 {
        Some(Checksum(copy_range(s, pos + 1, s.len())))
    } else {
        return Err(RdbError::ParseError);
    };
    let v = RDB(ver, dbs, cs);
    proof {
        lemma_rdb_compose(s@, pos as int, v);
    }
    Ok(v)
}

// ---------------------------------------------------------------------------
// Completeness: a well-formed node parses back out of its own byte image,
// wherever that image stands in a larger buffer.
// ---------------------------------------------------------------------------

/// Matching a byte image carries to any segment of it.
pub proof fn lemma_sub_image(s: Seq<u8>, i: int, img: Seq<u8>, a: int, b: int)
    requires
        0 <= i,
        i + img.len() <= s.len(),
        s.subrange(i, i + img.len()) == img,
        0 <= a <= b <= img.len(),
    ensures
        s.subrange(i + a, i + b) == img.subrange(a, b),
{
    assert forall|m: int| 0 <= m < b - a implies s.subrange(i + a, i + b)[m] == img.subrange(
        a,
        b,
    )[m] by {
        assert(s.subrange(i, i + img.len() as int)[a + m] == img[a + m]);
        assert(s.subrange(i + a, i + b)[m] == s[i + a + m]);
    }
    assert(s.subrange(i + a, i + b) =~= img.subrange(a, b));
}

/// A well-formed length prefix parses out of its own image.
pub proof fn lemma_length_from_image(l: EncodedLength, s: Seq<u8>, i: int)
    requires
        l.wf(),
        0 <= i,
        i + l.src().len() <= s.len(),
        s.subrange(i, i + l.src().len()) == l.src(),
    ensures
        length_end(s, i) == Some(i + l.src().len()),
        length_val(s, i) == l.val(),
{
    let n = l.src().len() as int;
    assert forall|m: int| 0 <= m < n implies s[i + m] == l.src()[m] by {
        assert(s.subrange(i, i + n)[m] == s[i + m]);
    }
    match l {
        EncodedLength::I(_, _) => {
            if l.src().len() == 5 {
                assert(be32(s, i + 1) == be32(l.src(), 1));
            }
        },
        EncodedLength::S(_, _) => {},
    }
}

/// A well-formed string node parses out of its own image.
pub proof fn lemma_string_from_image(e: EncodedString, s: Seq<u8>, i: int)
    requires
        e.wf(),
        0 <= i,
        i + e.spec_ser().len() <= s.len(),
        s.subrange(i, i + e.spec_ser().len()) == e.spec_ser(),
    ensures
        string_end(s, i) == Some(i + e.spec_ser().len()),
{
    let n = e.spec_ser().len() as int;
    assert forall|m: int| 0 <= m < n implies s[i + m] == e.spec_ser()[m] by {
        assert(s.subrange(i, i + n)[m] == s[i + m]);
    }
    match e {
        EncodedString::Raw(l, p) => {
            let ll = l.src().len() as int;
            lemma_sub_image(s, i, e.spec_ser(), 0, ll);
            assert(e.spec_ser().subrange(0, ll) =~= l.src());
            lemma_length_from_image(l, s, i);
        },
        EncodedString::Int(l, p) => {
            let ll = l.src().len() as int;
            lemma_sub_image(s, i, e.spec_ser(), 0, ll);
            assert(e.spec_ser().subrange(0, ll) =~= l.src());
            lemma_length_from_image(l, s, i);
        },
        EncodedString::Lzf(l, c, u, p) => {
            let ll = l.src().len() as int;
            let cl = c.src().len() as int;
            let ul = u.src().len() as int;
            lemma_sub_image(s, i, e.spec_ser(), 0, ll);
            assert(e.spec_ser().subrange(0, ll) =~= l.src());
            lemma_length_from_image(l, s, i);
            lemma_sub_image(s, i, e.spec_ser(), ll, ll + cl);
            assert(e.spec_ser().subrange(ll, ll + cl) =~= c.src());
            lemma_length_from_image(c, s, i + ll);
            lemma_sub_image(s, i, e.spec_ser(), ll + cl, ll + cl + ul);
            assert(e.spec_ser().subrange(ll + cl, ll + cl + ul) =~= u.src());
            lemma_length_from_image(u, s, i + ll + cl);
        },
    }
}

/// A run of well-formed string nodes parses out of its own image.
pub proof fn lemma_strings_from_image(v: Seq<EncodedString>, s: Seq<u8>, i: int)
    requires
        all_wf_strings(v),
        0 <= i,
        i + seq_ser(v).len() <= s.len(),
        s.subrange(i, i + seq_ser(v).len() as int) == seq_ser(v),
    ensures
        strings_end(s, i, v.len()) == Some(i + seq_ser(v).len()),
    decreases v.len(),
{
    if v.len() > 0 {
        let h = v[0].spec_ser();
        let n = seq_ser(v).len() as int;
        assert forall|m: int| 0 <= m < n implies s[i + m] == seq_ser(v)[m] by {
            assert(s.subrange(i, i + n)[m] == s[i + m]);
        }
        assert(seq_ser(v) == h + seq_ser(v.drop_first()));
        let hl = h.len() as int;
        lemma_sub_image(s, i, seq_ser(v), 0, hl);
        assert(seq_ser(v).subrange(0, hl) =~= h);
        lemma_string_from_image(v[0], s, i);
        assert(all_wf_strings(v.drop_first())) by {
            assert(forall|k: int|
                0 <= k < v.drop_first().len() ==> v.drop_first()[k] == v[k + 1]);
        }
        lemma_sub_image(s, i, seq_ser(v), hl, n);
        assert(seq_ser(v).subrange(hl, n) =~= seq_ser(v.drop_first()));
        lemma_strings_from_image(v.drop_first(), s, i + hl);
    }
}

/// A run of well-formed sorted-set entries parses out of its own image.
pub proof fn lemma_triples_from_image(v: Seq<(EncodedString, u8, Vec<u8>)>, s: Seq<u8>, i: int)
    requires
        all_wf_triples(v),
        0 <= i,
        i + seq_ser(v).len() <= s.len(),
        s.subrange(i, i + seq_ser(v).len() as int) == seq_ser(v),
    ensures
        triples_end(s, i, v.len()) == Some(i + seq_ser(v).len()),
    decreases v.len(),
{
    if v.len() > 0 {
        let h = v[0].spec_ser();
        let el = v[0].0.spec_ser().len() as int;
        let n = seq_ser(v).len() as int;
        assert forall|m: int| 0 <= m < n implies s[i + m] == seq_ser(v)[m] by {
            assert(s.subrange(i, i + n)[m] == s[i + m]);
        }
        assert(seq_ser(v) == h + seq_ser(v.drop_first()));
        let hl = h.len() as int;
        lemma_sub_image(s, i, seq_ser(v), 0, el);
        assert(seq_ser(v).subrange(0, el) =~= v[0].0.spec_ser());
        lemma_string_from_image(v[0].0, s, i);
        assert(seq_ser(v)[el] == v[0].1);
        assert(s[i + el] == v[0].1);
        assert(all_wf_triples(v.drop_first())) by {
            assert(forall|k: int|
                0 <= k < v.drop_first().len() ==> v.drop_first()[k] == v[k + 1]);
        }
        lemma_sub_image(s, i, seq_ser(v), hl, n);
        assert(seq_ser(v).subrange(hl, n) =~= seq_ser(v.drop_first()));
        lemma_triples_from_image(v.drop_first(), s, i + hl);
    }
}

/// A run of well-formed hashmap entries parses out of its own image.
pub proof fn lemma_pairs_from_image(v: Seq<(EncodedString, EncodedString)>, s: Seq<u8>, i: int)
    requires
        all_wf_pairs(v),
        0 <= i,
        i + seq_ser(v).len() <= s.len(),
        s.subrange(i, i + seq_ser(v).len() as int) == seq_ser(v),
    ensures
        pairs_end(s, i, v.len()) == Some(i + seq_ser(v).len()),
    decreases v.len(),
{
    if v.len() > 0 {
        let h = v[0].spec_ser();
        let kl = v[0].0.spec_ser().len() as int;
        let vl = v[0].1.spec_ser().len() as int;
        let n = seq_ser(v).len() as int;
        assert forall|m: int| 0 <= m < n implies s[i + m] == seq_ser(v)[m] by {
            assert(s.subrange(i, i + n)[m] == s[i + m]);
        }
        assert(seq_ser(v) == h + seq_ser(v.drop_first()));
        let hl = h.len() as int;
        lemma_sub_image(s, i, seq_ser(v), 0, kl);
        assert(seq_ser(v).subrange(0, kl) =~= v[0].0.spec_ser());
        lemma_string_from_image(v[0].0, s, i);
        lemma_sub_image(s, i, seq_ser(v), kl, kl + vl);
        assert(seq_ser(v).subrange(kl, kl + vl) =~= v[0].1.spec_ser());
        lemma_string_from_image(v[0].1, s, i + kl);
        assert(all_wf_pairs(v.drop_first())) by {
            assert(forall|k: int|
                0 <= k < v.drop_first().len() ==> v.drop_first()[k] == v[k + 1]);
        }
        lemma_sub_image(s, i, seq_ser(v), hl, n);
        assert(seq_ser(v).subrange(hl, n) =~= seq_ser(v.drop_first()));
        lemma_pairs_from_image(v.drop_first(), s, i + hl);
    }
}

/// A well-formed value body parses out of its own image, under its own
/// value-type byte.
pub proof fn lemma_value_from_image(val: EncodedValue, s: Seq<u8>, i: int)
    requires
        val.wf(),
        0 <= i,
        i + val.spec_ser().len() <= s.len(),
        s.subrange(i, i + val.spec_ser().len()) == val.spec_ser(),
    ensures
        value_end(s, i, vt_byte(val)) == Some(i + val.spec_ser().len()),
{
    match val {
        EncodedValue::V0(v) => {
            lemma_string_from_image(v, s, i);
        },
        EncodedValue::V1(v) => {
            let ll = v.0.src().len() as int;
            let sl = seq_ser(v.1@).len() as int;
            lemma_sub_image(s, i, val.spec_ser(), 0, ll);
            assert(val.spec_ser().subrange(0, ll) =~= v.0.src());
            lemma_length_from_image(v.0, s, i);
            lemma_sub_image(s, i, val.spec_ser(), ll, ll + sl);
            assert(val.spec_ser().subrange(ll, ll + sl) =~= seq_ser(v.1@));
            lemma_strings_from_image(v.1@, s, i + ll);
        },
        EncodedValue::V2(v) => {
            let ll = v.0.src().len() as int;
            let sl = seq_ser(v.1@).len() as int;
            lemma_sub_image(s, i, val.spec_ser(), 0, ll);
            assert(val.spec_ser().subrange(0, ll) =~= v.0.src());
            lemma_length_from_image(v.0, s, i);
            lemma_sub_image(s, i, val.spec_ser(), ll, ll + sl);
            assert(val.spec_ser().subrange(ll, ll + sl) =~= seq_ser(v.1@));
            lemma_strings_from_image(v.1@, s, i + ll);
        },
        EncodedValue::V3(v) => {
            let ll = v.0.src().len() as int;
            let sl = seq_ser(v.1@).len() as int;
            lemma_sub_image(s, i, val.spec_ser(), 0, ll);
            assert(val.spec_ser().subrange(0, ll) =~= v.0.src());
            lemma_length_from_image(v.0, s, i);
            lemma_sub_image(s, i, val.spec_ser(), ll, ll + sl);
            assert(val.spec_ser().subrange(ll, ll + sl) =~= seq_ser(v.1@));
            lemma_triples_from_image(v.1@, s, i + ll);
        },
        EncodedValue::V4(v) => {
            let ll = v.0.src().len() as int;
            let sl = seq_ser(v.1@).len() as int;
            lemma_sub_image(s, i, val.spec_ser(), 0, ll);
            assert(val.spec_ser().subrange(0, ll) =~= v.0.src());
            lemma_length_from_image(v.0, s, i);
            lemma_sub_image(s, i, val.spec_ser(), ll, ll + sl);
            assert(val.spec_ser().subrange(ll, ll + sl) =~= seq_ser(v.1@));
            lemma_pairs_from_image(v.1@, s, i + ll);
        },
        EncodedValue::VA(v) => {
            lemma_string_from_image(v.0, s, i);
        },
        EncodedValue::VB(v) => {
            lemma_string_from_image(v.0, s, i);
        },
        EncodedValue::VC(v) => {
            lemma_string_from_image(v.0, s, i);
        },
        EncodedValue::VD(v) => {
            lemma_string_from_image(v.0, s, i);
        },
    }
}

/// A well-formed record parses out of its own image.
#[verifier::rlimit(100)]
pub proof fn lemma_record_from_image(rec: Record, s: Seq<u8>, i: int)
    requires
        rec.wf(),
        0 <= i,
        i + rec.spec_ser().len() <= s.len(),
        s.subrange(i, i + rec.spec_ser().len()) == rec.spec_ser(),
    ensures
        record_end(s, i) == Some(i + rec.spec_ser().len()),
{
    let n = rec.spec_ser().len() as int;
    assert forall|m: int| 0 <= m < n implies s[i + m] == rec.spec_ser()[m] by {
        assert(s.subrange(i, i + n)[m] == s[i + m]);
    }
    let el = match rec.2 {
        Option::Some(e) => e.spec_ser().len() as int,
        Option::None => 0,
    };
    let t = vt_byte(rec.1);
    assert(rec.spec_ser()[el] == t);
    assert(s.subrange(i, i + n)[0] == rec.spec_ser()[0]);
    assert(s[i] == rec.spec_ser()[0]);
    match rec.2 {
        Option::Some(e) => {
            match e {
                ExpiryTime::MilliSec(b) => {
                    assert(rec.spec_ser()[0] == 0xfc);
                },
                ExpiryTime::Sec(b) => {
                    assert(rec.spec_ser()[0] == 0xfd);
                },
            }
        },
        Option::None => {
            assert(rec.spec_ser()[0] == t);
            assert(t != 0xfc && t != 0xfd);
        },
    }
    assert(expiry_end(s, i) == i + el);
    let ei = i + el;
    assert(s.subrange(i, i + n)[el] == rec.spec_ser()[el]);
    assert(s[ei] == t);
    assert(is_value_type(t));
    let kl = rec.0.spec_ser().len() as int;
    let vl = rec.1.spec_ser().len() as int;
    lemma_sub_image(s, i, rec.spec_ser(), el + 1, el + 1 + kl);
    assert(rec.spec_ser().subrange(el + 1, el + 1 + kl) =~= rec.0.spec_ser());
    lemma_string_from_image(rec.0, s, ei + 1);
    lemma_sub_image(s, i, rec.spec_ser(), el + 1 + kl, el + 1 + kl + vl);
    assert(rec.spec_ser().subrange(el + 1 + kl, el + 1 + kl + vl) =~= rec.1.spec_ser());
    lemma_value_from_image(rec.1, s, ei + 1 + kl);
}

/// No record starts at the end of the input, at a database marker, or at the
/// end-of-snapshot marker.
pub proof fn lemma_record_end_none_at_boundary(s: Seq<u8>, i: int)
    requires
        0 <= i,
        i == s.len() || s[i] == 0xfe || s[i] == 0xff,
    ensures
        record_end(s, i) is None,
{
}

/// A run of well-formed records parses out of its own image and stops at the
/// boundary that follows it.
pub proof fn lemma_records_from_image(recs: Seq<Record>, s: Seq<u8>, i: int)
    requires
        all_wf_records(recs),
        0 <= i,
        i + seq_ser(recs).len() <= s.len(),
        s.subrange(i, i + seq_ser(recs).len() as int) == seq_ser(recs),
        ({
            let e = i + seq_ser(recs).len();
            e == s.len() || s[e] == 0xfe || s[e] == 0xff
        }),
    ensures
        records_end(s, i) == i + seq_ser(recs).len(),
    decreases recs.len(),
{
    let n = seq_ser(recs).len() as int;
    if recs.len() == 0 {
        lemma_record_end_none_at_boundary(s, i);
    } else {
        let h = recs[0].spec_ser();
        let hl = h.len() as int;
        assert(seq_ser(recs) == h + seq_ser(recs.drop_first()));
        lemma_sub_image(s, i, seq_ser(recs), 0, hl);
        assert(seq_ser(recs).subrange(0, hl) =~= h);
        lemma_record_from_image(recs[0], s, i);
        assert(hl >= 1);
        assert(all_wf_records(recs.drop_first())) by {
            assert(forall|k: int|
                0 <= k < recs.drop_first().len() ==> recs.drop_first()[k] == recs[k + 1]);
        }
        lemma_sub_image(s, i, seq_ser(recs), hl, n);
        assert(seq_ser(recs).subrange(hl, n) =~= seq_ser(recs.drop_first()));
        lemma_records_from_image(recs.drop_first(), s, i + hl);
    }
}

/// A well-formed database image, its header then its records, parses as one
/// database that ends at the boundary that follows it.
pub proof fn lemma_database_from_image(dn: DatabaseNumber, recs: Seq<Record>, s: Seq<u8>, i: int)
    requires
        dn.wf(),
        all_wf_records(recs),
        0 <= i,
        i + dn.spec_ser().len() + seq_ser(recs).len() <= s.len(),
        s.subrange(i, i + dn.spec_ser().len() + seq_ser(recs).len() as int) == dn.spec_ser()
            + seq_ser(recs),
        ({
            let e = i + dn.spec_ser().len() + seq_ser(recs).len();
            e == s.len() || s[e] == 0xfe || s[e] == 0xff
        }),
    ensures
        database_end(s, i) == Some(i + dn.spec_ser().len() + seq_ser(recs).len()),
{
    let img = dn.spec_ser() + seq_ser(recs);
    let hl = dn.spec_ser().len() as int;
    let n = img.len() as int;
    assert(s.subrange(i, i + n)[0] == img[0]);
    assert(s[i] == 0xfe);
    let ll = dn.0.src().len() as int;
    lemma_sub_image(s, i, img, 1, hl);
    assert(img.subrange(1, hl) =~= dn.0.src());
    lemma_length_from_image(dn.0, s, i + 1);
    assert(database_number_end(s, i) == Some(i + hl));
    lemma_sub_image(s, i, img, hl, n);
    assert(img.subrange(hl, n) =~= seq_ser(recs));
    lemma_records_from_image(recs, s, i + hl);
}

/// The concatenation of the intermediate buffers, in order.
pub open spec fn concat_bufs(bs: Seq<Seq<u8>>) -> Seq<u8>
    decreases bs.len(),
{
    if bs.len() == 0 {
        Seq::empty()
    } else {
        bs[0] + concat_bufs(bs.drop_first())
    }
}

pub proof fn lemma_concat_bufs_push(bs: Seq<Seq<u8>>, x: Seq<u8>)
    ensures
        concat_bufs(bs.push(x)) == concat_bufs(bs) + x,
    decreases bs.len(),
{
    assert(concat_bufs(bs.push(x)) == bs.push(x)[0] + concat_bufs(bs.push(x).drop_first()));
    if bs.len() == 0 {
        assert(bs.push(x).drop_first() =~= Seq::<Seq<u8>>::empty());
        assert(bs.push(x)[0] == x);
        assert(concat_bufs(bs.push(x)) =~= concat_bufs(bs) + x);
    } else {
        assert(bs.push(x).drop_first() =~= bs.drop_first().push(x));
        assert(bs.push(x)[0] == bs[0]);
        lemma_concat_bufs_push(bs.drop_first(), x);
        assert(concat_bufs(bs.push(x)) =~= concat_bufs(bs) + x);
    }
}

/// The byte contents of one intermediate buffer: the database header, then
/// the records in written order.
pub open spec fn part_bytes(p: (DatabaseNumber, Seq<Record>)) -> Seq<u8> {
    p.0.spec_ser() + seq_ser(p.1)
}


/// The byte contents of a run of intermediate buffers, in order.
pub open spec fn parts_bytes(parts: Seq<(DatabaseNumber, Seq<Record>)>) -> Seq<u8>
    decreases parts.len(),
{
    if parts.len() == 0 {
        Seq::empty()
    } else {
        part_bytes(parts[0]) + parts_bytes(parts.drop_first())
    }
}

/// Each buffer's header and records are well formed.
pub open spec fn parts_wf(parts: Seq<(DatabaseNumber, Seq<Record>)>) -> bool {
    forall|k: int|
        0 <= k < parts.len() ==> (#[trigger] parts[k]).0.wf() && all_wf_records(parts[k].1)
}

pub proof fn lemma_concat_parts(bs: Seq<Seq<u8>>, parts: Seq<(DatabaseNumber, Seq<Record>)>)
    requires
        bs.len() == parts.len(),
        forall|k: int| 0 <= k < bs.len() ==> bs[k] == part_bytes(#[trigger] parts[k]),
    ensures
        concat_bufs(bs) == parts_bytes(parts),
    decreases bs.len(),
{
    if bs.len() > 0 {
        assert(forall|k: int|
            0 <= k < bs.drop_first().len() ==> bs.drop_first()[k] == bs[k + 1]
                && parts.drop_first()[k] == parts[k + 1]);
        lemma_concat_parts(bs.drop_first(), parts.drop_first());
        assert(bs[0] == part_bytes(parts[0]));
    }
}

/// A run of well-formed database buffers, followed by the end-of-snapshot
/// marker, parses as exactly that run of databases.
#[verifier::rlimit(100)]
pub proof fn lemma_databases_run(parts: Seq<(DatabaseNumber, Seq<Record>)>, s: Seq<u8>, i: int)
    requires
        parts_wf(parts),
        0 <= i,
        i + parts_bytes(parts).len() < s.len(),
        s.subrange(i, i + parts_bytes(parts).len() as int) == parts_bytes(parts),
        s[i + parts_bytes(parts).len()] == 0xff,
    ensures
        databases_end(s, i) == i + parts_bytes(parts).len(),
    decreases parts.len(),
{
    let n = parts_bytes(parts).len() as int;
    if parts.len() == 0 {
        assert(database_end(s, i) is None);
    } else {
        let h = part_bytes(parts[0]);
        let hl = h.len() as int;
        assert(parts_bytes(parts) == h + parts_bytes(parts.drop_first()));
        lemma_sub_image(s, i, parts_bytes(parts), 0, hl);
        assert(parts_bytes(parts).subrange(0, hl) =~= h);
        if parts.drop_first().len() == 0 {
            assert(parts_bytes(parts.drop_first()) == Seq::<u8>::empty());
            assert(hl == n);
        } else {
            let p1 = parts.drop_first()[0];
            assert(parts.drop_first()[0] == parts[1]);
            assert(parts_bytes(parts.drop_first()) == part_bytes(p1) + parts_bytes(
                parts.drop_first().drop_first(),
            ));
            assert(part_bytes(p1)[0] == 0xfe);
            assert(s.subrange(i, i + n)[hl] == parts_bytes(parts)[hl]);
            assert(parts_bytes(parts)[hl] == parts_bytes(parts.drop_first())[0]);
            assert(s[i + hl] == 0xfe);
        }
        lemma_database_from_image(parts[0].0, parts[0].1, s, i);
        lemma_sub_image(s, i, parts_bytes(parts), hl, n);
        assert(parts_bytes(parts).subrange(hl, n) =~= parts_bytes(parts.drop_first()));
        assert(parts_wf(parts.drop_first())) by {
            assert(forall|k: int|
                0 <= k < parts.drop_first().len() ==> parts.drop_first()[k] == parts[k + 1]);
        }
        lemma_databases_run(parts.drop_first(), s, i + hl);
    }
}

/// The database list of a snapshot tree, as header-and-records pairs.
pub open spec fn db_parts(dbs: Seq<Database>) -> Seq<(DatabaseNumber, Seq<Record>)> {
    dbs.map_values(|d: Database| (d.0, d.1@))
}

pub proof fn lemma_seq_ser_databases(dbs: Seq<Database>)
    ensures
        seq_ser(dbs) == parts_bytes(db_parts(dbs)),
    decreases dbs.len(),
{
    if dbs.len() > 0 {
        assert(db_parts(dbs)[0] == (dbs[0].0, dbs[0].1@));
        assert(dbs[0].spec_ser() == part_bytes(db_parts(dbs)[0]));
        lemma_seq_ser_databases(dbs.drop_first());
        assert(db_parts(dbs).drop_first() =~= db_parts(dbs.drop_first()));
        assert(parts_bytes(db_parts(dbs)) == part_bytes(db_parts(dbs)[0]) + parts_bytes(
            db_parts(dbs).drop_first(),
        ));
    } else {
        assert(db_parts(dbs) =~= Seq::<(DatabaseNumber, Seq<Record>)>::empty());
    }
}

/// The converse of the round-trip identity: the serialization of any
/// well-formed snapshot tree is accepted, in full, by the parser.
pub proof fn lemma_rdb_ser_valid(t: RDB)
    requires
        t.wf(),
    ensures
        rdb_valid(t.spec_ser()),
{
    let s = t.spec_ser();
    let n = seq_ser(t.1@).len() as int;
    lemma_seq_ser_databases(t.1@);
    assert(s.subrange(0, 5) =~= magic());
    assert(s.subrange(9, 9 + n) =~= parts_bytes(db_parts(t.1@)));
    assert(s[9 + n] == 0xff);
    assert(parts_wf(db_parts(t.1@))) by {
        assert(forall|k: int|
            0 <= k < t.1@.len() ==> (#[trigger] db_parts(t.1@)[k]) == (t.1@[k].0, t.1@[k].1@));
    }
    lemma_databases_run(db_parts(t.1@), s, 9);
    match t.2 {
        Option::Some(c) => {
            assert(s.len() == 9 + n + 1 + 8);
        },
        Option::None => {
            assert(s.len() == 9 + n + 1);
        },
    }
}

// ---------------------------------------------------------------------------
// Decoding a string node into its canonical text form.
// ---------------------------------------------------------------------------

/// The big-endian fold of an integer payload into a 32-bit accumulator:
/// `acc = acc * 256 + byte`, truncated to 32 bits at each step.
pub open spec fn fold_be_mod(p: Seq<u8>) -> int
    decreases p.len(),
{
    if p.len() == 0 {
        0
    } else {
        (fold_be_mod(p.drop_last()) * 256 + p.last()) % 0x100000000
    }
}

/// Fold an integer payload big-endian into a 32-bit accumulator.
fn fold_be_u32(p: &Vec<u8>) -> (r: u32)
    ensures
        r == fold_be_mod(p@),
{
    let mut acc: u32 = 0;
    let mut k: usize = 0;
    while k < p.len()
        invariant
            k <= p@.len(),
            acc == fold_be_mod(p@.take(k as int)),
        decreases p@.len() - k,
    {
        let b = p[k];
        let wide: u64 = acc as u64 * 256 + b as u64;
        proof {
            assert(p@.take(k + 1).drop_last() =~= p@.take(k as int));
            assert(p@.take(k + 1).last() == p@[k as int]);
        }
        acc = (wide % 0x100000000) as u32;
        k = k + 1;
    }
    assert(p@.take(p@.len() as int) =~= p@);
    acc
}

/// Reread a 32-bit value as a two's-complement signed integer.
fn u32_signed(u: u32) -> (r: i32)
    ensures
        r as int == crate::text::to_signed32(u),
{
    let r = #[verifier::truncate] (u as i32);
    proof {
        if u < 0x80000000 {
            assert((u as i32) as i64 == u as i64) by (bit_vector)
                requires
                    u < 0x80000000,
            ;
        } else {
            assert((u as i32) as i64 == u as i64 - 0x100000000) by (bit_vector)
                requires
                    u >= 0x80000000,
            ;
        }
    }
    r
}

/// The canonical text of a string node, used for duplicate-key detection:
/// a raw payload decodes lossily as UTF-8, an integer payload renders as
/// decimal, a compressed payload decompresses first. `None` when LZF
/// decompression fails.
pub open spec fn spec_key(e: EncodedString) -> Option<Seq<char>> {
    match e {
        EncodedString::Raw(_, p) => Some(crate::text::lossy_of(p@)),
        EncodedString::Int(_, p) => Some(
            crate::text::int_chars(crate::text::to_signed32(fold_be_mod(p@) as u32)),
        ),
        EncodedString::Lzf(_, _, _, p) => match crate::lzf::lzf(p@) {
            Option::Some(pt) => Some(crate::text::lossy_of(pt)),
            Option::None => None,
        },
    }
}

/// Decode a string node into its canonical text form; fails exactly when its
/// LZF payload does not decompress.
pub fn decode_key(dat: &EncodedString) -> (r: Result<String, RdbError>)
    ensures
        r is Ok <==> spec_key(*dat) is Some,
        r matches Ok(k) ==> Some(k@) == spec_key(*dat),
        r matches Err(e) ==> e == RdbError::DecodeError,
{
    match dat {
        EncodedString::Raw(_, p) => Ok(crate::text::utf8_lossy(p)),
        EncodedString::Int(_, p) => {
            let u = fold_be_u32(p);
            let v = u32_signed(u);
            Ok(crate::text::i32_decimal(v))
        },
        EncodedString::Lzf(_, _, _, p) => match crate::lzf::lzf_decode(p) {
            Ok(pt) => Ok(crate::text::utf8_lossy(&pt)),
            Err(e) => Err(e),
        },
    }
}

/// Decode a parsed node into a plain value.
pub trait RDBDec<E>: Sized {
    fn decode(dat: &E) -> Result<Self, RdbError>;
}

impl RDBDec<EncodedString> for String {
    /// The canonical text of a string node, as `decode_key` states it.
    fn decode(dat: &EncodedString) -> Result<String, RdbError> {
        decode_key(dat)
    }
}

} // verus!
