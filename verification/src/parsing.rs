use vstd::prelude::*;

verus! {

/// Where unwrapping an encoded blueprint string can fail.
#[derive(Clone, Copy, Debug, PartialEq, Eq, Structural)]
pub enum DecodeError {
    /// The payload after the version byte is not valid base64.
    InvalidBase64,
    /// The decoded bytes are not a zlib stream inflating to UTF-8 text.
    InvalidCompression,
}

/// ASCII whitespace, the characters stripped from either end of an encoded
/// blueprint string.
pub open spec fn is_space(b: u8) -> bool {
    b == 32 || b == 9 || b == 10 || b == 12 || b == 13
}

/// The bytes with their leading whitespace removed.
pub open spec fn trim_front(s: Seq<u8>) -> Seq<u8>
    decreases s.len(),
{
    if s.len() > 0 && is_space(s[0]) {
        trim_front(s.drop_first())
    } else {
        s
    }
}

/// The bytes with their trailing whitespace removed.
pub open spec fn trim_back(s: Seq<u8>) -> Seq<u8>
    decreases s.len(),
{
    if s.len() > 0 && is_space(s.last()) {
        trim_back(s.drop_last())
    } else {
        s
    }
}

/// The bytes with whitespace removed from both ends.
pub open spec fn trimmed(s: Seq<u8>) -> Seq<u8> {
    trim_back(trim_front(s))
}

/// The base64 payload of an encoded blueprint string: what remains after
/// trimming and stripping the single leading version byte.
pub open spec fn payload_of(s: Seq<u8>) -> Seq<u8> {
    let t = trimmed(s);
    if t.len() == 0 {
        t
    } else {
        t.drop_first()
    }
}

/// What the base64 standard alphabet decodes a byte string to, or `None`
/// where the string is not valid base64. A function of the input alone.
pub uninterp spec fn base64_decoding(s: Seq<u8>) -> Option<Seq<u8>>;

/// What a zlib stream inflates to, read as UTF-8 text, or `None` where the
/// bytes are not such a stream. A function of the input alone.
pub uninterp spec fn zlib_text(b: Seq<u8>) -> Option<Seq<char>>;

/// The text an encoded blueprint string carries: version byte stripped,
/// base64 undone, zlib inflated.
pub open spec fn decoded_text(s: Seq<u8>) -> Option<Seq<char>> {
    match base64_decoding(payload_of(s)) {
        None => None,
        Some(b) => zlib_text(b),
    }
}

/// Relies on base64's `STANDARD` engine `decode`: which byte vector a given
/// base64 text decodes to, or that it is rejected, depends on the input
/// bytes alone.
#[verifier::external_body]
fn base64_decode(input: &[u8]) -> (r: Option<Vec<u8>>)
    ensures
        match r {
            Some(v) => base64_decoding(input@) == Some(v@),
            None => base64_decoding(input@) is None,
        },
{
    base64::Engine::decode(&base64::engine::general_purpose::STANDARD, input).ok()
}

/// Relies on flate2's `ZlibDecoder` over an in-memory buffer, read out with
/// `std::io::Read::read_to_string`: whether the bytes inflate to UTF-8
/// text, and to which text, depends on the input bytes alone.
#[verifier::external_body]
fn zlib_inflate_to_string(input: &[u8]) -> (r: Option<String>)
    ensures
        match r {
            Some(s) => zlib_text(input@) == Some(s@),
            None => zlib_text(input@) is None,
        },
{
    let mut decoder = flate2::read::ZlibDecoder::new(input);
    let mut out = String::new();
    match std::io::Read::read_to_string(&mut decoder, &mut out) {
        Ok(_) => Some(out),
        Err(_) => None,
    }
}

fn is_space_byte(b: u8) -> (r: bool)
    ensures
        r == is_space(b),
{
    b == 32 || b == 9 || b == 10 || b == 12 || b == 13
}

/// Removing leading whitespace keeps exactly the bytes from the first
/// non-space index on.
proof fn lemma_trim_front_at(s: Seq<u8>, lo: int)
    requires
        0 <= lo <= s.len(),
        forall|k: int| 0 <= k < lo ==> is_space(#[trigger] s[k]),
        lo == s.len() || !is_space(s[lo]),
    ensures
        trim_front(s) == s.skip(lo),
    decreases lo,
{
    if lo == 0 {
        assert(s.skip(0) =~= s);
    } else {
        assert(is_space(s[0]));
        lemma_trim_front_at(s.drop_first(), lo - 1);
        assert(s.drop_first().skip(lo - 1) =~= s.skip(lo));
    }
}

/// Removing trailing whitespace keeps exactly the bytes before the last
/// non-space index.
proof fn lemma_trim_back_at(t: Seq<u8>, j: int)
    requires
        0 <= j <= t.len(),
        forall|k: int| j <= k < t.len() ==> is_space(#[trigger] t[k]),
        j == 0 || !is_space(t[j - 1]),
    ensures
        trim_back(t) == t.take(j),
    decreases t.len(),
{
    if j == t.len() {
        assert(t.take(j) =~= t);
    } else {
        assert(is_space(t.last()));
        lemma_trim_back_at(t.drop_last(), j);
        assert(t.drop_last().take(j) =~= t.take(j));
    }
}

/// Unwrap an encoded blueprint string into the JSON text it carries: trim
/// ASCII whitespace, strip the single leading version byte, undo the base64
/// encoding and inflate the zlib stream. The structured records inside the
/// text are the business of an outside reader.
pub fn decode_blueprint_payload(input: &[u8]) -> (r: Result<String, DecodeError>)
    ensures
        match r {
            Ok(s) => decoded_text(input@) == Some(s@),
            Err(DecodeError::InvalidBase64) => base64_decoding(payload_of(input@)) is None,
            Err(DecodeError::InvalidCompression) => match base64_decoding(payload_of(input@)) {
                Some(b) => zlib_text(b) is None,
                None => false,
            },
        },
        r is Ok <==> decoded_text(input@) is Some,
{
    let n = input.len();
    let mut lo: usize = 0;
    while lo < n && is_space_byte(input[lo])
        invariant
            0 <= lo <= n,
            n == input@.len(),
            forall|k: int| 0 <= k < lo ==> is_space(#[trigger] input@[k]),
        decreases n - lo,
    {
        lo += 1;
    }
    let mut hi: usize = n;
    while hi > lo && is_space_byte(input[hi - 1])
        invariant
            lo <= hi <= n,
            n == input@.len(),
            forall|k: int| hi <= k < n ==> is_space(#[trigger] input@[k]),
        decreases hi,
    {
        hi -= 1;
    }
    proof {
        lemma_trim_front_at(input@, lo as int);
        let t = input@.skip(lo as int);
        lemma_trim_back_at(t, hi - lo);
        assert(t.take(hi - lo) =~= input@.subrange(lo as int, hi as int));
        assert(trimmed(input@) == input@.subrange(lo as int, hi as int));
    }
    let mut payload: Vec<u8> = Vec::new();
    let start = if lo < hi {
        lo + 1
    } else {
        hi
    };
    let mut i = start;
    while i < hi
        invariant
            start <= i <= hi <= n,
            n == input@.len(),
            payload@ == input@.subrange(start as int, i as int),
        decreases hi - i,
    {
        let b = input[i];
        payload.push(b);
        proof {
            assert(payload@ =~= input@.subrange(start as int, i + 1));
        }
        i += 1;
    }
    proof {
        assert(payload@ == payload_of(input@)) by {
            let t = trimmed(input@);
            if t.len() == 0 {
                assert(payload@ =~= t);
            } else {
                assert(payload@ =~= t.drop_first());
            }
        }
    }
    match base64_decode(payload.as_slice()) {
        None => Err(DecodeError::InvalidBase64),
        Some(bytes) => match zlib_inflate_to_string(bytes.as_slice()) {
            None => Err(DecodeError::InvalidCompression),
            Some(text) => Ok(text),
        },
    }
}

} // verus!
