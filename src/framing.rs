//! The wire framing: a block of `Name: value` header lines ended by a blank
//! line, then exactly as many body bytes as the `Content-Length` header says.
use vstd::prelude::*;
use vstd::slice::{slice_subrange, slice_to_vec};
use vstd::utf8::{decode_utf8, valid_utf8};

verus! {

/// A header line that the framing understands.
#[derive(Debug, PartialEq, Eq, Structural)]
pub enum LspHeader {
    /// `Content-Type`; only UTF-8 bodies are supported, so its value is not read.
    ContentType,
    /// `Content-Length`, the number of body bytes.
    ContentLength(usize),
    /// Any other name; such a header is skipped.
    Other,
}

/// Why a frame could not be read.
#[derive(Debug, PartialEq, Eq, Structural)]
pub enum ParseError {
    /// The stream closed before a whole frame had arrived.
    Truncated,
    /// A header line holds no `": "` separator.
    MalformedHeader,
    /// The `Content-Length` value is not a decimal number that fits a `usize`.
    ParseInt,
    /// The header block ended without a `Content-Length` header.
    MissingLength,
    /// The body is not valid UTF-8.
    Utf8,
}

pub open spec fn is_ws(b: u8) -> bool {
    b == 9 || b == 10 || b == 11 || b == 12 || b == 13 || b == 32
}

pub open spec fn trim_start(s: Seq<u8>) -> Seq<u8>
    decreases s.len(),
{
    if s.len() > 0 && is_ws(s[0]) {
        trim_start(s.drop_first())
    } else {
        s
    }
}

pub open spec fn trim_end(s: Seq<u8>) -> Seq<u8>
    decreases s.len(),
{
    if s.len() > 0 && is_ws(s.last()) {
        trim_end(s.drop_last())
    } else {
        s
    }
}

/// `s` without its leading and trailing ASCII whitespace.
pub open spec fn trim(s: Seq<u8>) -> Seq<u8> {
    trim_end(trim_start(s))
}

pub open spec fn lower_byte(b: u8) -> u8 {
    if 65 <= b && b <= 90 {
        (b + 32) as u8
    } else {
        b
    }
}

/// `s` with each ASCII capital letter replaced by its small letter.
pub open spec fn lower(s: Seq<u8>) -> Seq<u8> {
    s.map_values(|b: u8| lower_byte(b))
}

pub open spec fn is_sep_at(s: Seq<u8>, i: int) -> bool {
    0 <= i && i + 1 < s.len() && s[i] == 58 && s[i + 1] == 32
}

/// The first index at or after `from` where `": "` starts, or -1.
pub open spec fn find_sep(s: Seq<u8>, from: int) -> int
    decreases s.len() - from,
{
    if from < 0 || from + 1 >= s.len() {
        -1
    } else if is_sep_at(s, from) {
        from
    } else {
        find_sep(s, from + 1)
    }
}

pub open spec fn is_digit(b: u8) -> bool {
    48 <= b && b <= 57
}

pub open spec fn digits_value(s: Seq<u8>) -> nat
    decreases s.len(),
{
    if s.len() == 0 {
        0
    } else {
        digits_value(s.drop_last()) * 10 + (s.last() - 48) as nat
    }
}

pub open spec fn all_digits(s: Seq<u8>) -> bool {
    forall|i: int| 0 <= i < s.len() ==> is_digit(#[trigger] s[i])
}

/// The digits of a decimal number, after an optional `+`.
pub open spec fn unsigned_digits(s: Seq<u8>) -> Seq<u8> {
    if s.len() > 0 && s[0] == 43 {
        s.drop_first()
    } else {
        s
    }
}

/// The number that `s` writes in decimal, if it writes one that fits a `usize`.
pub open spec fn decimal_value(s: Seq<u8>) -> Option<usize> {
    let d = unsigned_digits(s);
    if d.len() > 0 && all_digits(d) && digits_value(d) <= usize::MAX {
        Some(digits_value(d) as usize)
    } else {
        None
    }
}

pub open spec fn content_length_name() -> Seq<u8> {
    seq![99u8, 111, 110, 116, 101, 110, 116, 45, 108, 101, 110, 103, 116, 104]
}

pub open spec fn content_type_name() -> Seq<u8> {
    seq![99u8, 111, 110, 116, 101, 110, 116, 45, 116, 121, 112, 101]
}

/// What a header line means, read from its lowercased bytes: the line is
/// split at its first `": "` into a name and a value, each taken without
/// surrounding whitespace. Unknown names are skipped.
pub open spec fn header_of_lowered(s: Seq<u8>) -> Result<LspHeader, ParseError> {
    let i = find_sep(s, 0);
    if i < 0 {
        Err(ParseError::MalformedHeader)
    } else {
        let name = trim(s.subrange(0, i));
        let value = trim(s.subrange(i + 2, s.len() as int));
        if name == content_type_name() {
            Ok(LspHeader::ContentType)
        } else if name == content_length_name() {
            match decimal_value(value) {
                Some(n) => Ok(LspHeader::ContentLength(n)),
                None => Err(ParseError::ParseInt),
            }
        } else {
            Ok(LspHeader::Other)
        }
    }
}

/// What a header line means; names and values are read without regard to case.
pub open spec fn header_spec(line: Seq<u8>) -> Result<LspHeader, ParseError> {
    header_of_lowered(lower(line))
}

fn ascii_lower(b: u8) -> (r: u8)
    ensures
        r == lower_byte(b),
{
    if 65 <= b && b <= 90 {
        b + 32
    } else {
        b
    }
}

fn lower_bytes(s: &[u8]) -> (r: Vec<u8>)
    ensures
        r@ == lower(s@),
{
    let mut r: Vec<u8> = Vec::with_capacity(s.len());
    let mut i: usize = 0;
    while i < s.len()
        invariant
            i <= s@.len(),
            r@ == lower(s@.subrange(0, i as int)),
        decreases s@.len() - i,
    {
        let c = ascii_lower(s[i]);
        r.push(c);
        i = i + 1;
        assert(lower(s@.subrange(0, i as int)) =~= lower(s@.subrange(0, i - 1 as int)).push(c));
    }
    assert(s@.subrange(0, s@.len() as int) =~= s@);
    r
}

fn is_ws_byte(b: u8) -> (r: bool)
    ensures
        r == is_ws(b),
{
    b == 9 || b == 10 || b == 11 || b == 12 || b == 13 || b == 32
}

/// The bounds of `s[lo..hi]` without its surrounding whitespace.
fn trim_bounds(s: &[u8], lo: usize, hi: usize) -> (r: (usize, usize))
    requires
        lo <= hi <= s@.len(),
    ensures
        lo <= r.0 <= r.1 <= hi,
        s@.subrange(r.0 as int, r.1 as int) == trim(s@.subrange(lo as int, hi as int)),
{
    let mut start = lo;
    while start < hi && is_ws_byte(s[start])
        invariant
            lo <= start <= hi <= s@.len(),
            trim_start(s@.subrange(lo as int, hi as int)) == trim_start(
                s@.subrange(start as int, hi as int),
            ),
        decreases hi - start,
    {
        assert(s@.subrange(start as int, hi as int).drop_first() =~= s@.subrange(
            start + 1 as int,
            hi as int,
        ));
        start = start + 1;
    }
    let mut end = hi;
    while end > start && is_ws_byte(s[end - 1])
        invariant
            lo <= start <= end <= hi <= s@.len(),
            trim(s@.subrange(lo as int, hi as int)) == trim_end(
                s@.subrange(start as int, end as int),
            ),
        decreases end - start,
    {
        assert(s@.subrange(start as int, end as int).drop_last() =~= s@.subrange(
            start as int,
            end - 1 as int,
        ));
        end = end - 1;
    }
    (start, end)
}

/// The first `": "` at or after `from`.
fn find_sep_from(s: &[u8], from: usize) -> (r: Option<usize>)
    requires
        from <= s@.len(),
    ensures
        match r {
            Some(i) => find_sep(s@, from as int) == i && is_sep_at(s@, i as int),
            None => find_sep(s@, from as int) < 0,
        },
{
    let mut j = from;
    while s.len() - j > 1
        invariant
            from <= j <= s@.len(),
            find_sep(s@, from as int) == find_sep(s@, j as int),
        decreases s@.len() - j,
    {
        if s[j] == 58 && s[j + 1] == 32 {
            return Some(j);
        }
        j = j + 1;
    }
    None
}

proof fn lemma_digits_prefix(s: Seq<u8>, k: int)
    requires
        all_digits(s),
        0 <= k <= s.len(),
    ensures
        digits_value(s.subrange(0, k)) <= digits_value(s),
    decreases s.len(),
{
    if k < s.len() {
        let t = s.drop_last();
        assert(t.subrange(0, k) =~= s.subrange(0, k));
        assert(all_digits(t)) by {
            assert forall|i: int| 0 <= i < t.len() implies is_digit(#[trigger] t[i]) by {
                assert(t[i] == s[i]);
            }
        }
        lemma_digits_prefix(t, k);
    } else {
        assert(s.subrange(0, k) =~= s);
    }
}

/// The decimal number written in `s[lo..hi]`, as `usize::from_str_radix` reads it.
fn parse_decimal(s: &[u8], lo: usize, hi: usize) -> (r: Option<usize>)
    requires
        lo <= hi <= s@.len(),
    ensures
        r == decimal_value(s@.subrange(lo as int, hi as int)),
{
    let ghost whole = s@.subrange(lo as int, hi as int);
    let mut i = lo;
    if i < hi && s[i] == 43 {
        i = i + 1;
        assert(whole.drop_first() =~= s@.subrange(i as int, hi as int));
    }
    let ghost d = s@.subrange(i as int, hi as int);
    assert(unsigned_digits(whole) == d);
    if i == hi {
        return None;
    }
    let mut acc: usize = 0;
    let mut k = i;
    while k < hi
        invariant
            lo <= i <= k <= hi <= s@.len(),
            d == s@.subrange(i as int, hi as int),
            unsigned_digits(s@.subrange(lo as int, hi as int)) == d,
            d.len() > 0,
            all_digits(s@.subrange(i as int, k as int)),
            acc == digits_value(s@.subrange(i as int, k as int)),
        decreases hi - k,
    {
        let b = s[k];
        if !(48 <= b && b <= 57) {
            assert(d[k - i] == b);
            assert(!all_digits(d));
            return None;
        }
        let ghost next = s@.subrange(i as int, k + 1 as int);
        assert(next.drop_last() =~= s@.subrange(i as int, k as int));
        assert(all_digits(next)) by {
            assert forall|j: int| 0 <= j < next.len() implies is_digit(#[trigger] next[j]) by {
                if j < next.len() - 1 {
                    assert(next[j] == s@.subrange(i as int, k as int)[j]);
                }
            }
        }
        let grown = match acc.checked_mul(10) {
            Some(m) => m.checked_add((b - 48) as usize),
            None => None,
        };
        match grown {
            Some(v) => {
                acc = v;
                k = k + 1;
            },
            None => {
                proof {
                    assert(digits_value(next) == acc * 10 + (b - 48) as nat);
                    assert(digits_value(next) > usize::MAX);
                    if all_digits(d) {
                        assert(d.subrange(0, k + 1 - i) =~= next);
                        lemma_digits_prefix(d, k + 1 - i);
                    }
                }
                return None;
            },
        }
    }
    assert(s@.subrange(i as int, k as int) =~= d);
    Some(acc)
}

fn content_length_bytes() -> (r: Vec<u8>)
    ensures
        r@ == content_length_name(),
{
    vec![99u8, 111, 110, 116, 101, 110, 116, 45, 108, 101, 110, 103, 116, 104]
}

fn content_type_bytes() -> (r: Vec<u8>)
    ensures
        r@ == content_type_name(),
{
    vec![99u8, 111, 110, 116, 101, 110, 116, 45, 116, 121, 112, 101]
}

fn range_eq(s: &[u8], lo: usize, hi: usize, t: &Vec<u8>) -> (r: bool)
    requires
        lo <= hi <= s@.len(),
    ensures
        r == (s@.subrange(lo as int, hi as int) == t@),
{
    if hi - lo != t.len() {
        return false;
    }
    let mut k: usize = 0;
    while k < t.len()
        invariant
            hi - lo == t@.len(),
            lo <= hi <= s@.len(),
            k <= t@.len(),
            forall|j: int| 0 <= j < k ==> s@[lo + j] == t@[j],
        decreases t@.len() - k,
    {
        if s[lo + k] != t[k] {
            assert(s@.subrange(lo as int, hi as int)[k as int] != t@[k as int]);
            return false;
        }
        k = k + 1;
    }
    assert(s@.subrange(lo as int, hi as int) =~= t@);
    true
}

/// Reads one header line (its line ending included or not).
pub fn parse_header(s: &[u8]) -> (r: Result<LspHeader, ParseError>)
    ensures
        r == header_spec(s@),
{
    let l = lower_bytes(s);
    let ls = l.as_slice();
    let found = find_sep_from(ls, 0);
    if found.is_none() {
        return Err(ParseError::MalformedHeader);
    }
    let i = found.unwrap();
    assert(is_sep_at(ls@, i as int));
    let after = i + 2;
    let (ns, ne) = trim_bounds(ls, 0, i);
    if range_eq(ls, ns, ne, &content_type_bytes()) {
        return Ok(LspHeader::ContentType);
    }
    if range_eq(ls, ns, ne, &content_length_bytes()) {
        let (vs, ve) = trim_bounds(ls, after, ls.len());
        return match parse_decimal(ls, vs, ve) {
            Some(n) => Ok(LspHeader::ContentLength(n)),
            None => Err(ParseError::ParseInt),
        };
    }
    Ok(LspHeader::Other)
}

/// How far the header block at the front of a buffer goes.
#[derive(Debug, PartialEq, Eq, Structural)]
pub enum HeaderScan {
    /// No blank line has arrived yet, and no header line so far is wrong.
    NeedMore,
    /// A header line is wrong, or the block lacks a length; the frame ends
    /// at the given offset, just after the offending line.
    Failed(ParseError, usize),
    /// The block is complete: the body has the given length and starts at
    /// the given offset.
    Body(usize, usize),
}

/// Reads the header lines of `b` from `pos` on. The current line began at
/// `start`; `len` is the last `Content-Length` seen. A line ends with `\n`
/// (10); a line that is only whitespace ends the block.
pub open spec fn scan_headers(b: Seq<u8>, start: int, pos: int, len: Option<usize>) -> HeaderScan
    decreases b.len() - pos,
{
    if pos < 0 || pos >= b.len() {
        HeaderScan::NeedMore
    } else if b[pos] != 10 {
        scan_headers(b, start, pos + 1, len)
    } else {
        let line = b.subrange(start, pos + 1);
        let next = (pos + 1) as usize;
        if trim(line).len() == 0 {
            match len {
                Some(n) => HeaderScan::Body(n, next),
                None => HeaderScan::Failed(ParseError::MissingLength, next),
            }
        } else {
            match header_spec(line) {
                Err(e) => HeaderScan::Failed(e, next),
                Ok(LspHeader::ContentLength(n)) => scan_headers(b, pos + 1, pos + 1, Some(n)),
                Ok(_) => scan_headers(b, pos + 1, pos + 1, len),
            }
        }
    }
}

/// What the front of a buffer holds.
#[derive(Debug, PartialEq, Eq, Structural)]
pub enum FrameScan {
    /// More bytes are needed to finish the first frame.
    Incomplete,
    /// The first frame is bad; it ends at the given offset.
    Failed(ParseError, usize),
    /// The first frame's body spans the two offsets; the frame ends at the second.
    Complete(usize, usize),
}

/// The first frame of the byte stream `b`.
pub open spec fn frame_spec(b: Seq<u8>) -> FrameScan {
    match scan_headers(b, 0, 0, None) {
        HeaderScan::NeedMore => FrameScan::Incomplete,
        HeaderScan::Failed(e, n) => FrameScan::Failed(e, n),
        HeaderScan::Body(len, start) => if start + len <= b.len() {
            FrameScan::Complete(start, (start + len) as usize)
        } else {
            FrameScan::Incomplete
        },
    }
}

/// The result of reading one frame from the front of a buffer.
#[derive(Debug, PartialEq, Eq)]
pub enum Progress {
    /// The buffer does not yet hold a whole frame.
    Pending,
    /// A frame with this body; its bytes end at `consumed`.
    Frame { body: String, consumed: usize },
    /// A bad frame; the reader goes on after `consumed` bytes.
    Failed { error: ParseError, consumed: usize },
}

/// Relies on `String::from_utf8`: it accepts exactly the valid UTF-8 byte
/// strings and yields the text they encode.
#[verifier::external_body]
fn utf8_text(bytes: Vec<u8>) -> (r: Option<String>)
    ensures
        r is Some <==> valid_utf8(bytes@),
        r matches Some(s) ==> s@ == decode_utf8(bytes@),
{
    String::from_utf8(bytes).ok()
}

/// Reads the first frame from `buf`, the bytes received so far; `closed`
/// says that no more will come. A frame cut short by the end of the stream
/// is `Truncated`.
pub fn read_message(buf: &[u8], closed: bool) -> (r: Progress)
    ensures
        match frame_spec(buf@) {
            FrameScan::Incomplete => if closed {
                r == (Progress::Failed { error: ParseError::Truncated, consumed: buf@.len() as usize })
            } else {
                r == Progress::Pending
            },
            FrameScan::Failed(e, n) => r == (Progress::Failed { error: e, consumed: n }),
            FrameScan::Complete(start, end) => {
                let bytes = buf@.subrange(start as int, end as int);
                if valid_utf8(bytes) {
                    r matches Progress::Frame { body, consumed } && consumed == end && body@
                        == decode_utf8(bytes)
                } else {
                    r == (Progress::Failed { error: ParseError::Utf8, consumed: end })
                }
            },
        },
{
    let mut start: usize = 0;
    let mut pos: usize = 0;
    let mut len: Option<usize> = None;
    while pos < buf.len()
        invariant
            start <= pos <= buf@.len(),
            scan_headers(buf@, 0, 0, None) == scan_headers(buf@, start as int, pos as int, len),
        decreases buf@.len() - pos,
    {
        if buf[pos] != 10 {
            pos = pos + 1;
        } else {
            let next = pos + 1;
            let (ts, te) = trim_bounds(buf, start, next);
            if ts == te {
                return match len {
                    None => Progress::Failed { error: ParseError::MissingLength, consumed: next },
                    Some(n) => {
                        if n <= buf.len() - next {
                            let body = slice_to_vec(slice_subrange(buf, next, next + n));
                            match utf8_text(body) {
                                Some(text) => Progress::Frame { body: text, consumed: next + n },
                                None => Progress::Failed { error: ParseError::Utf8, consumed: next + n },
                            }
                        } else if closed {
                            Progress::Failed { error: ParseError::Truncated, consumed: buf.len() }
                        } else {
                            Progress::Pending
                        }
                    },
                };
            }
            match parse_header(slice_subrange(buf, start, next)) {
                Err(e) => {
                    return Progress::Failed { error: e, consumed: next };
                },
                Ok(LspHeader::ContentLength(n)) => {
                    len = Some(n);
                },
                Ok(_) => {},
            }
            start = next;
            pos = next;
        }
    }
    if closed {
        Progress::Failed { error: ParseError::Truncated, consumed: buf.len() }
    } else {
        Progress::Pending
    }
}

/// The decimal digits of `n`, most significant first.
pub open spec fn decimal_digits(n: nat) -> Seq<u8>
    decreases n,
{
    if n < 10 {
        seq![(n + 48) as u8]
    } else {
        decimal_digits(n / 10).push((n % 10 + 48) as u8)
    }
}

/// `Content-Length: ` as bytes.
pub open spec fn length_field() -> Seq<u8> {
    seq![67u8, 111, 110, 116, 101, 110, 116, 45, 76, 101, 110, 103, 116, 104, 58, 32]
}

/// The frame that carries `body`: its length header, a blank line, the body.
pub open spec fn frame_bytes(body: Seq<u8>) -> Seq<u8> {
    length_field() + decimal_digits(body.len()) + seq![13u8, 10, 13, 10] + body
}

fn push_decimal(out: &mut Vec<u8>, n: usize)
    ensures
        final(out)@ == old(out)@ + decimal_digits(n as nat),
    decreases n,
{
    if n >= 10 {
        push_decimal(out, n / 10);
    }
    out.push((n % 10 + 48) as u8);
    assert(final(out)@ =~= old(out)@ + decimal_digits(n as nat));
}

/// Frames `body` for the wire.
pub fn encode_frame(body: &[u8]) -> (r: Vec<u8>)
    ensures
        r@ == frame_bytes(body@),
{
    let mut out: Vec<u8> = vec![67u8, 111, 110, 116, 101, 110, 116, 45, 76, 101, 110, 103, 116, 104, 58, 32];
    push_decimal(&mut out, body.len());
    out.push(13);
    out.push(10);
    out.push(13);
    out.push(10);
    let mut i: usize = 0;
    let ghost head = out@;
    while i < body.len()
        invariant
            i <= body@.len(),
            out@ == head + body@.subrange(0, i as int),
        decreases body@.len() - i,
    {
        out.push(body[i]);
        i = i + 1;
        assert(out@ =~= head + body@.subrange(0, i as int));
    }
    assert(body@.subrange(0, body@.len() as int) =~= body@);
    assert(out@ =~= frame_bytes(body@));
    out
}

/// Header lines are read without regard to ASCII case: two lines that agree
/// once lowercased (`Content-Length: 5` and `content-length: 5`) mean the
/// same header.
pub proof fn lemma_header_case_insensitive(a: Seq<u8>, b: Seq<u8>)
    requires
        lower(a) == lower(b),
    ensures
        header_spec(a) == header_spec(b),
{
}

proof fn lemma_scan_extends(b: Seq<u8>, ext: Seq<u8>, start: int, pos: int, len: Option<usize>)
    requires
        0 <= start <= pos <= b.len(),
        !(scan_headers(b, start, pos, len) is NeedMore),
    ensures
        scan_headers(b + ext, start, pos, len) == scan_headers(b, start, pos, len),
    decreases b.len() - pos,
{
    let c = b + ext;
    assert(c[pos] == b[pos]);
    if b[pos] != 10 {
        lemma_scan_extends(b, ext, start, pos + 1, len);
    } else {
        assert(c.subrange(start, pos + 1) =~= b.subrange(start, pos + 1));
        let line = b.subrange(start, pos + 1);
        if trim(line).len() != 0 {
            match header_spec(line) {
                Ok(LspHeader::ContentType) | Ok(LspHeader::Other) => lemma_scan_extends(
                    b,
                    ext,
                    pos + 1,
                    pos + 1,
                    len,
                ),
                Ok(LspHeader::ContentLength(n)) => lemma_scan_extends(
                    b,
                    ext,
                    pos + 1,
                    pos + 1,
                    Some(n),
                ),
                Err(_) => {},
            }
        }
    }
}

/// How a stream is cut into reads does not change the frames read from it:
/// once the bytes received so far decide the first frame, further bytes
/// leave it as it is. A complete frame's body is exactly as long as its
/// `Content-Length` says.
pub proof fn lemma_frame_prefix_stable(b: Seq<u8>, ext: Seq<u8>)
    requires
        !(frame_spec(b) is Incomplete),
    ensures
        frame_spec(b + ext) == frame_spec(b),
        scan_headers(b, 0, 0, None) matches HeaderScan::Body(len, start) ==> {
            &&& start + len <= b.len()
            &&& frame_spec(b) == FrameScan::Complete(start, (start + len) as usize)
        },
{
    lemma_scan_extends(b, ext, 0, 0, None);
}

proof fn lemma_decimal_digits(n: nat)
    ensures
        decimal_digits(n).len() >= 1,
        all_digits(decimal_digits(n)),
        digits_value(decimal_digits(n)) == n,
    decreases n,
{
    let d = decimal_digits(n);
    if n >= 10 {
        lemma_decimal_digits(n / 10);
        assert(d.drop_last() =~= decimal_digits(n / 10));
        assert forall|i: int| 0 <= i < d.len() implies is_digit(#[trigger] d[i]) by {
            if i < d.len() - 1 {
                assert(d[i] == decimal_digits(n / 10)[i]);
            }
        }
        assert(d.last() == (n % 10 + 48) as u8);
        assert(n == (n / 10) * 10 + n % 10);
        assert(digits_value(d) == digits_value(decimal_digits(n / 10)) * 10 + n % 10);
    } else {
        assert(d.drop_last() =~= Seq::<u8>::empty());
        assert(digits_value(d.drop_last()) == 0);
    }
}

proof fn lemma_scan_skip(b: Seq<u8>, start: int, pos: int, q: int, len: Option<usize>)
    requires
        0 <= pos <= q <= b.len(),
        forall|j: int| pos <= j < q ==> b[j] != 10,
    ensures
        scan_headers(b, start, pos, len) == scan_headers(b, start, q, len),
    decreases q - pos,
{
    if pos < q {
        lemma_scan_skip(b, start, pos + 1, q, len);
    }
}

proof fn lemma_find_sep_first(s: Seq<u8>, from: int, i: int)
    requires
        0 <= from <= i,
        is_sep_at(s, i),
        forall|j: int| from <= j < i ==> s[j] != 58,
    ensures
        find_sep(s, from) == i,
    decreases i - from,
{
    if from < i {
        lemma_find_sep_first(s, from + 1, i);
    }
}

/// The header line of a frame reads back as the body's length.
proof fn lemma_length_line(n: nat)
    requires
        n <= usize::MAX,
    ensures
        header_spec(length_field() + decimal_digits(n) + seq![13u8, 10]) == Ok::<LspHeader, ParseError>(
            LspHeader::ContentLength(n as usize),
        ),
        trim(length_field() + decimal_digits(n) + seq![13u8, 10]).len() != 0,
{
    let d = decimal_digits(n);
    lemma_decimal_digits(n);
    let line = length_field() + d + seq![13u8, 10];
    let l = content_length_name() + seq![58u8, 32] + d + seq![13u8, 10];
    assert(forall|j: int| 0 <= j < 14 ==> content_length_name()[j] != 58);
    assert(lower(line) =~= l) by {
        assert forall|j: int| 0 <= j < line.len() implies lower(line)[j] == #[trigger] l[j] by {
            if 16 <= j < 16 + d.len() {
                assert(is_digit(d[j - 16]));
            }
        }
    }
    lemma_find_sep_first(l, 0, 14);
    assert(l.subrange(0, 14) =~= content_length_name());
    assert(trim_end(content_length_name()) == content_length_name());
    assert(trim_start(content_length_name()) == content_length_name());
    let v = l.subrange(16, l.len() as int);
    assert(v =~= d + seq![13u8, 10]);
    assert(is_digit(d[0]));
    assert(trim_start(v) == v);
    assert(v.drop_last() =~= d + seq![13u8]);
    assert(v.drop_last().drop_last() =~= d);
    assert(is_digit(d.last()));
    assert(trim_end(d) == d);
    assert(trim_end(v) == trim_end(v.drop_last()));
    assert(trim_end(v.drop_last()) == trim_end(v.drop_last().drop_last()));
    assert(trim(v) == d);
    assert(unsigned_digits(d) == d);
    assert(trim_start(line) == line) by {
        assert(line[0] == 67);
    }
    let head = length_field() + d;
    assert(line.drop_last() =~= head + seq![13u8]);
    assert(line.drop_last().drop_last() =~= head);
    assert(trim_end(line) == trim_end(line.drop_last()));
    assert(trim_end(line.drop_last()) == trim_end(head));
    assert(head.last() == d.last());
    assert(trim_end(head) == head);
}

/// Reading back a frame that `encode_frame` wrote yields its body, whatever
/// follows the frame in the stream.
#[verifier::rlimit(50)]
pub proof fn lemma_frame_round_trip(body: Seq<u8>, rest: Seq<u8>)
    requires
        frame_bytes(body).len() + rest.len() <= usize::MAX,
    ensures
        ({
            let b = frame_bytes(body) + rest;
            let start = frame_bytes(body).len() - body.len();
            &&& frame_spec(b) == FrameScan::Complete(start as usize, frame_bytes(body).len() as usize)
            &&& b.subrange(start, frame_bytes(body).len() as int) == body
        }),
{
    let n: nat = body.len();
    let d = decimal_digits(n);
    lemma_decimal_digits(n);
    lemma_length_line(n);
    let b = frame_bytes(body) + rest;
    let k: int = 16 + d.len() as int;
    assert(b =~= length_field() + d + seq![13u8, 10] + (seq![13u8, 10] + body + rest));
    assert forall|j: int| 0 <= j < k + 1 implies b[j] != 10 by {
        if 16 <= j < k {
            assert(is_digit(d[j - 16]));
        }
    }
    lemma_scan_skip(b, 0, 0, k + 1, None);
    assert(b.subrange(0, k + 2) =~= length_field() + d + seq![13u8, 10]);
    lemma_scan_skip(b, k + 2, k + 2, k + 3, Some(n as usize));
    let blank = b.subrange(k + 2, k + 4);
    assert(blank =~= seq![13u8, 10]);
    assert(blank.drop_last() =~= seq![13u8]);
    assert(blank.drop_last().drop_last() =~= Seq::<u8>::empty());
    assert(blank.drop_first() =~= seq![10u8]);
    assert(blank.drop_first().drop_first() =~= Seq::<u8>::empty());
    assert(trim_start(blank) == trim_start(blank.drop_first()));
    assert(trim_start(blank.drop_first()) == trim_start(blank.drop_first().drop_first()));
    assert(trim_start(blank).len() == 0);
    assert(trim(blank).len() == 0);
    assert(b.subrange(k + 4, k + 4 + n as int) =~= body);
}

proof fn lemma_scan_prefix(b: Seq<u8>, c: int, start: int, pos: int, len: Option<usize>)
    requires
        0 <= start <= pos,
        0 <= c <= b.len() <= usize::MAX,
        scan_headers(b, start, pos, len) is Body,
    ensures
        scan_headers(b, start, pos, len) matches HeaderScan::Body(l, s) ==> {
            &&& s > pos
            &&& if c < s {
                scan_headers(b.subrange(0, c), start, pos, len) is NeedMore
            } else {
                scan_headers(b.subrange(0, c), start, pos, len) == HeaderScan::Body(l, s)
            }
        },
    decreases b.len() - pos,
{
    let p = b.subrange(0, c);
    if pos < c {
        assert(p[pos] == b[pos]);
    }
    if b[pos] != 10 {
        lemma_scan_prefix(b, c, start, pos + 1, len);
    } else {
        let line = b.subrange(start, pos + 1);
        if pos < c {
            assert(p.subrange(start, pos + 1) =~= line);
        }
        if trim(line).len() != 0 {
            match header_spec(line) {
                Ok(LspHeader::ContentType) | Ok(LspHeader::Other) => lemma_scan_prefix(
                    b,
                    c,
                    pos + 1,
                    pos + 1,
                    len,
                ),
                Ok(LspHeader::ContentLength(n)) => lemma_scan_prefix(
                    b,
                    c,
                    pos + 1,
                    pos + 1,
                    Some(n),
                ),
                Err(_) => {},
            }
        }
    }
}

/// No frame is read before all of it has arrived: every proper prefix of
/// the bytes of a complete first frame is still `Incomplete`.
pub proof fn lemma_frame_needs_all_bytes(b: Seq<u8>, c: int)
    requires
        frame_spec(b) is Complete,
        0 <= c,
        b.len() <= usize::MAX,
        frame_spec(b) matches FrameScan::Complete(_, end) && c < end,
    ensures
        frame_spec(b.subrange(0, c)) is Incomplete,
{
    lemma_scan_prefix(b, c, 0, 0, None);
}

} // verus!
