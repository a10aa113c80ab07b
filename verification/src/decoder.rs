use vstd::prelude::*;

verus! {

// The line decoder. A raw chunk read from the device is split at newlines,
// each line is trimmed, and the lines that match the numeric-literal grammar
// are handed on, in order; everything else is silently discarded. A chunk
// that is not well-formed UTF-8 is discarded whole. The decoder never
// interprets the number itself: the shell around the core converts an
// accepted line into the double-precision reading it denotes.

/// An ASCII decimal digit.
pub open spec fn is_digit(c: u8) -> bool {
    48 <= c <= 57
}

/// A leading sign character.
pub open spec fn is_sign(c: u8) -> bool {
    c == 43 || c == 45
}

/// The whitespace bytes of ASCII: tab, line feed, vertical tab, form feed,
/// carriage return, space.
pub open spec fn is_ws(c: u8) -> bool {
    c == 32 || c == 9 || c == 10 || c == 11 || c == 12 || c == 13
}

/// Length of the whitespace character encoded at index `i`, or 0 when none
/// starts there: 1 for an ASCII whitespace byte, 2 or 3 for the UTF-8
/// encoding of one of the other characters with Unicode's White_Space
/// property (next line, no-break space, ogham space mark, the en-quad to
/// hair-space range, line and paragraph separators, narrow no-break space,
/// medium mathematical space, ideographic space) — the same set that
/// `str::trim` removes.
pub open spec fn ws_token_at(s: Seq<u8>, i: int) -> int {
    if 0 <= i < s.len() && is_ws(s[i]) {
        1
    } else if 0 <= i && i + 2 <= s.len() && s[i] == 0xC2 && (s[i + 1] == 0x85 || s[i + 1]
        == 0xA0) {
        2
    } else if 0 <= i && i + 3 <= s.len() && s[i] == 0xE1 && s[i + 1] == 0x9A && s[i + 2] == 0x80 {
        3
    } else if 0 <= i && i + 3 <= s.len() && s[i] == 0xE2 && s[i + 1] == 0x80 && (0x80 <= s[i + 2]
        <= 0x8A || s[i + 2] == 0xA8 || s[i + 2] == 0xA9 || s[i + 2] == 0xAF) {
        3
    } else if 0 <= i && i + 3 <= s.len() && s[i] == 0xE2 && s[i + 1] == 0x81 && s[i + 2] == 0x9F {
        3
    } else if 0 <= i && i + 3 <= s.len() && s[i] == 0xE3 && s[i + 1] == 0x80 && s[i + 2] == 0x80 {
        3
    } else {
        0
    }
}

/// Length of the whitespace character whose encoding ends the sequence, or
/// 0 when it ends in none. The patterns cannot overlap: an ASCII byte never
/// ends a longer encoding, and the lead bytes of the two- and three-byte
/// encodings differ.
pub open spec fn ws_token_end(s: Seq<u8>) -> int {
    let n = s.len();
    if n >= 1 && is_ws(s[n - 1]) {
        1
    } else if n >= 2 && ws_token_at(s, n - 2) == 2 {
        2
    } else if n >= 3 && ws_token_at(s, n - 3) == 3 {
        3
    } else {
        0
    }
}

/// An upper-case ASCII letter folded to lower case; other bytes unchanged.
pub open spec fn to_lower(c: u8) -> u8 {
    if 65 <= c <= 90 {
        (c + 32) as u8
    } else {
        c
    }
}

/// Length of the longest digit prefix.
pub open spec fn digits_prefix(s: Seq<u8>) -> int
    decreases s.len(),
{
    if s.len() > 0 && is_digit(s.first()) {
        1 + digits_prefix(s.drop_first())
    } else {
        0
    }
}

/// How many bytes of leading whitespace characters trimming removes.
pub open spec fn ws_prefix(s: Seq<u8>) -> int
    decreases s.len(),
{
    let t = ws_token_at(s, 0);
    if t == 0 {
        0
    } else {
        t + ws_prefix(s.skip(t))
    }
}

/// How many bytes of trailing whitespace characters trimming removes.
pub open spec fn ws_suffix(s: Seq<u8>) -> int
    decreases s.len(),
{
    let t = ws_token_end(s);
    if t == 0 {
        0
    } else {
        t + ws_suffix(s.take(s.len() - t))
    }
}

/// Index of the first line feed, or the length when there is none.
pub open spec fn line_split(s: Seq<u8>) -> int
    decreases s.len(),
{
    if s.len() == 0 {
        0
    } else if s.first() == 10 {
        0
    } else {
        1 + line_split(s.drop_first())
    }
}

/// Index of the first exponent marker (`e` or `E`), or the length.
pub open spec fn exp_split(s: Seq<u8>) -> int
    decreases s.len(),
{
    if s.len() == 0 {
        0
    } else if to_lower(s.first()) == 101 {
        0
    } else {
        1 + exp_split(s.drop_first())
    }
}

/// A line with the surrounding whitespace characters removed, the way
/// `str::trim` removes them.
pub open spec fn trim_spec(s: Seq<u8>) -> Seq<u8> {
    let u = s.skip(ws_prefix(s));
    u.take(u.len() - ws_suffix(u))
}

pub open spec fn all_digits(s: Seq<u8>) -> bool {
    forall|j: int| 0 <= j < s.len() ==> is_digit(s[j])
}

/// The sign dropped, if one leads.
pub open spec fn strip_sign(s: Seq<u8>) -> Seq<u8> {
    if s.len() > 0 && is_sign(s.first()) {
        s.drop_first()
    } else {
        s
    }
}

/// One of the keywords `inf`, `infinity`, `nan`, case-insensitive.
pub open spec fn is_keyword(s: Seq<u8>) -> bool {
    ||| (s.len() == 3 && to_lower(s[0]) == 105 && to_lower(s[1]) == 110 && to_lower(s[2])
        == 102)
    ||| (s.len() == 8 && to_lower(s[0]) == 105 && to_lower(s[1]) == 110 && to_lower(s[2]) == 102
        && to_lower(s[3]) == 105 && to_lower(s[4]) == 110 && to_lower(s[5]) == 105 && to_lower(
        s[6],
    ) == 116 && to_lower(s[7]) == 121)
    ||| (s.len() == 3 && to_lower(s[0]) == 110 && to_lower(s[1]) == 97 && to_lower(s[2])
        == 110)
}

/// The mantissa: `Count '.'?` or `'.' Count` or `Count '.' Count`,
/// with `Count` one or more digits.
pub open spec fn is_mantissa(s: Seq<u8>) -> bool {
    let d = digits_prefix(s);
    if d == s.len() {
        s.len() > 0
    } else {
        s[d] == 46 && all_digits(s.skip(d + 1)) && (d > 0 || s.len() > d + 1)
    }
}

/// The exponent part: `('e'|'E') Sign? Count`.
pub open spec fn is_exp_part(s: Seq<u8>) -> bool {
    s.len() >= 2 && to_lower(s.first()) == 101 && {
        let t = strip_sign(s.drop_first());
        t.len() > 0 && all_digits(t)
    }
}

/// A number: a mantissa, optionally followed by an exponent part. The
/// mantissa holds no exponent marker, so the first marker, if any, starts
/// the exponent.
pub open spec fn is_number(s: Seq<u8>) -> bool {
    let k = exp_split(s);
    if k == s.len() {
        is_mantissa(s)
    } else {
        is_mantissa(s.take(k)) && is_exp_part(s.skip(k))
    }
}

/// The numeric-literal grammar that std documents for parsing a
/// double-precision reading from text:
/// `Sign? ( 'inf' | 'infinity' | 'nan' | Number )`, with
/// `Number ::= Count '.'? Exp? | '.' Count Exp? | Count '.' Count Exp?`,
/// `Count ::= digit+`, `Exp ::= ('e'|'E') Sign? Count`, and the keywords
/// case-insensitive. Exactly these lines yield a reading.
pub open spec fn is_numeric_literal(s: Seq<u8>) -> bool {
    is_keyword(strip_sign(s)) || is_number(strip_sign(s))
}

/// Splitting at line feeds, the way `str::lines` does: the final piece is
/// kept only when it is not empty, so a trailing line feed adds no line.
pub open spec fn lines_spec(b: Seq<u8>) -> Seq<Seq<u8>>
    decreases b.len(),
{
    if b.len() == 0 {
        Seq::empty()
    } else {
        let k = line_split(b);
        if 0 <= k && k < b.len() {
            seq![b.take(k)] + lines_spec(b.skip(k + 1))
        } else {
            seq![b]
        }
    }
}

/// What one raw line contributes: its trimmed form if that matches the
/// grammar, nothing otherwise.
pub open spec fn decode_line_step(line: Seq<u8>) -> Seq<Seq<u8>> {
    if is_numeric_literal(trim_spec(line)) {
        seq![trim_spec(line)]
    } else {
        Seq::empty()
    }
}

pub open spec fn decode_lines(ls: Seq<Seq<u8>>) -> Seq<Seq<u8>>
    decreases ls.len(),
{
    if ls.len() == 0 {
        Seq::empty()
    } else {
        decode_line_step(ls.first()) + decode_lines(ls.drop_first())
    }
}

/// Whether a byte sequence is well-formed UTF-8.
pub uninterp spec fn is_utf8(b: Seq<u8>) -> bool;

/// What `decode` returns: nothing for a chunk that is not UTF-8, otherwise
/// the trimmed grammar-matching lines, in order.
pub open spec fn decode_spec(chunk: Seq<u8>) -> Seq<Seq<u8>> {
    if is_utf8(chunk) {
        decode_lines(lines_spec(chunk))
    } else {
        Seq::empty()
    }
}

/// The byte sequences a vector of byte vectors holds.
pub open spec fn byte_views(v: Seq<Vec<u8>>) -> Seq<Seq<u8>> {
    Seq::new(v.len(), |i: int| v[i]@)
}

/// Relies on std::str::from_utf8: whether the bytes are well-formed UTF-8
/// depends on the bytes alone.
#[verifier::external_body]
fn utf8_ok(chunk: &[u8]) -> (r: bool)
    ensures
        r == is_utf8(chunk@),
{
    std::str::from_utf8(chunk).is_ok()
}

proof fn lemma_digits_prefix_is(s: Seq<u8>, k: int)
    requires
        0 <= k <= s.len(),
        forall|j: int| 0 <= j < k ==> is_digit(s[j]),
        k < s.len() ==> !is_digit(s[k]),
    ensures
        digits_prefix(s) == k,
    decreases s.len(),
{
    if s.len() > 0 && is_digit(s.first()) {
        assert(k > 0);
        assert forall|j: int| 0 <= j < k - 1 implies is_digit(s.drop_first()[j]) by {
            assert(s.drop_first()[j] == s[j + 1]);
        }
        lemma_digits_prefix_is(s.drop_first(), k - 1);
    }
}

proof fn lemma_ws_token_head(s: Seq<u8>, k: int)
    requires
        0 <= k <= s.len(),
    ensures
        ws_token_at(s.skip(k), 0) == ws_token_at(s, k),
{
    let u = s.skip(k);
    if s.len() - k >= 1 {
        assert(u[0] == s[k]);
    }
    if s.len() - k >= 2 {
        assert(u[1] == s[k + 1]);
    }
    if s.len() - k >= 3 {
        assert(u[2] == s[k + 2]);
    }
}

proof fn lemma_line_split_is(s: Seq<u8>, k: int)
    requires
        0 <= k <= s.len(),
        forall|j: int| 0 <= j < k ==> s[j] != 10,
        k < s.len() ==> s[k] == 10,
    ensures
        line_split(s) == k,
    decreases s.len(),
{
    if s.len() > 0 && s.first() != 10 {
        assert(k > 0);
        assert forall|j: int| 0 <= j < k - 1 implies s.drop_first()[j] != 10 by {
            assert(s.drop_first()[j] == s[j + 1]);
        }
        lemma_line_split_is(s.drop_first(), k - 1);
    }
}

proof fn lemma_exp_split_is(s: Seq<u8>, k: int)
    requires
        0 <= k <= s.len(),
        forall|j: int| 0 <= j < k ==> to_lower(s[j]) != 101,
        k < s.len() ==> to_lower(s[k]) == 101,
    ensures
        exp_split(s) == k,
    decreases s.len(),
{
    if s.len() > 0 && to_lower(s.first()) != 101 {
        assert(k > 0);
        assert forall|j: int| 0 <= j < k - 1 implies to_lower(s.drop_first()[j]) != 101 by {
            assert(s.drop_first()[j] == s[j + 1]);
        }
        lemma_exp_split_is(s.drop_first(), k - 1);
    }
}

fn lower(c: u8) -> (r: u8)
    ensures
        r == to_lower(c),
{
    if c >= 65 && c <= 90 {
        c + 32
    } else {
        c
    }
}

/// Length of the whitespace character encoded at `i`, or 0: the executable
/// twin of `ws_token_at`.
fn ws_run_at(b: &[u8], i: usize) -> (r: usize)
    requires
        i <= b@.len(),
    ensures
        r as int == ws_token_at(b@, i as int),
        i + r <= b@.len(),
{
    if i < b.len() {
        let c = b[i];
        if c == 32 || (9 <= c && c <= 13) {
            return 1;
        }
        if b.len() - i >= 2 && c == 0xC2 && (b[i + 1] == 0x85 || b[i + 1] == 0xA0) {
            return 2;
        }
        if b.len() - i >= 3 {
            let c1 = b[i + 1];
            let c2 = b[i + 2];
            if c == 0xE1 && c1 == 0x9A && c2 == 0x80 {
                return 3;
            }
            if c == 0xE2 && c1 == 0x80 && ((0x80 <= c2 && c2 <= 0x8A) || c2 == 0xA8 || c2 == 0xA9
                || c2 == 0xAF) {
                return 3;
            }
            if c == 0xE2 && c1 == 0x81 && c2 == 0x9F {
                return 3;
            }
            if c == 0xE3 && c1 == 0x80 && c2 == 0x80 {
                return 3;
            }
        }
    }
    0
}

/// Length of the whitespace character ending `b[lo..hi]`, or 0: the
/// executable twin of `ws_token_end`.
fn ws_run_end(b: &[u8], lo: usize, hi: usize) -> (r: usize)
    requires
        lo <= hi <= b@.len(),
    ensures
        r as int == ws_token_end(b@.subrange(lo as int, hi as int)),
        r <= hi - lo,
{
    let ghost v = b@.subrange(lo as int, hi as int);
    let n = hi - lo;
    proof {
        if n >= 1 {
            assert(v[n - 1] == b@[hi - 1]);
        }
        if n >= 2 {
            assert(v[n - 2] == b@[hi - 2]);
        }
        if n >= 3 {
            assert(v[n - 3] == b@[hi - 3]);
        }
    }
    if n >= 1 {
        let c = b[hi - 1];
        if c == 32 || (9 <= c && c <= 13) {
            return 1;
        }
    }
    if n >= 2 && b[hi - 2] == 0xC2 && (b[hi - 1] == 0x85 || b[hi - 1] == 0xA0) {
        return 2;
    }
    if n >= 3 {
        let c0 = b[hi - 3];
        let c1 = b[hi - 2];
        let c2 = b[hi - 1];
        if c0 == 0xE1 && c1 == 0x9A && c2 == 0x80 {
            return 3;
        }
        if c0 == 0xE2 && c1 == 0x80 && ((0x80 <= c2 && c2 <= 0x8A) || c2 == 0xA8 || c2 == 0xA9
            || c2 == 0xAF) {
            return 3;
        }
        if c0 == 0xE2 && c1 == 0x81 && c2 == 0x9F {
            return 3;
        }
        if c0 == 0xE3 && c1 == 0x80 && c2 == 0x80 {
            return 3;
        }
    }
    0
}

/// Removes the leading and trailing whitespace characters of a line — the
/// characters with Unicode's White_Space property, as `str::trim` removes
/// them — working directly on their UTF-8 encodings.
pub fn trim_line(b: &[u8]) -> (r: Vec<u8>)
    ensures
        r@ == trim_spec(b@),
{
    let n = b.len();
    let mut lo: usize = 0;
    proof {
        assert(b@.skip(0) =~= b@);
    }
    loop
        invariant
            n == b@.len(),
            lo <= b@.len(),
            ws_prefix(b@) == lo + ws_prefix(b@.skip(lo as int)),
        ensures
            lo <= b@.len(),
            ws_prefix(b@) == lo as int,
        decreases b@.len() - lo,
    {
        let t = ws_run_at(b, lo);
        proof {
            lemma_ws_token_head(b@, lo as int);
        }
        if t == 0 {
            proof {
                assert(ws_prefix(b@.skip(lo as int)) == 0);
            }
            break;
        }
        proof {
            assert(b@.skip(lo as int).skip(t as int) =~= b@.skip(lo + t));
        }
        lo = lo + t;
    }
    let mut hi: usize = b.len();
    proof {
        assert(b@.subrange(lo as int, b@.len() as int) =~= b@.skip(lo as int));
    }
    loop
        invariant
            lo <= hi <= b@.len(),
            ws_suffix(b@.skip(lo as int)) == (b@.len() - hi) + ws_suffix(
                b@.subrange(lo as int, hi as int),
            ),
        ensures
            lo <= hi <= b@.len(),
            ws_suffix(b@.skip(lo as int)) == b@.len() - hi,
        decreases hi,
    {
        let t = ws_run_end(b, lo, hi);
        if t == 0 {
            proof {
                assert(ws_suffix(b@.subrange(lo as int, hi as int)) == 0);
            }
            break;
        }
        proof {
            let v = b@.subrange(lo as int, hi as int);
            assert(v.take(v.len() - t) =~= b@.subrange(lo as int, hi - t));
        }
        hi = hi - t;
    }
    let out = copy_range(b, lo, hi);
    proof {
        let u = b@.skip(lo as int);
        assert(u.take(u.len() - ws_suffix(u)) =~= b@.subrange(lo as int, hi as int));
    }
    out
}

fn matches_keyword(b: &[u8]) -> (r: bool)
    ensures
        r == is_keyword(b@),
{
    if b.len() == 3 {
        let c0 = lower(b[0]);
        let c1 = lower(b[1]);
        let c2 = lower(b[2]);
        (c0 == 105 && c1 == 110 && c2 == 102) || (c0 == 110 && c1 == 97 && c2 == 110)
    } else if b.len() == 8 {
        lower(b[0]) == 105 && lower(b[1]) == 110 && lower(b[2]) == 102 && lower(b[3]) == 105
            && lower(b[4]) == 110 && lower(b[5]) == 105 && lower(b[6]) == 116 && lower(b[7])
            == 121
    } else {
        false
    }
}

fn matches_mantissa(b: &[u8]) -> (r: bool)
    ensures
        r == is_mantissa(b@),
{
    let mut i: usize = 0;
    while i < b.len() && b[i] >= 48 && b[i] <= 57
        invariant
            0 <= i <= b@.len(),
            forall|j: int| 0 <= j < i ==> is_digit(b@[j]),
        decreases b@.len() - i,
    {
        i = i + 1;
    }
    proof {
        lemma_digits_prefix_is(b@, i as int);
    }
    if i == b.len() {
        return b.len() > 0;
    }
    if b[i] != 46 {
        return false;
    }
    let mut j: usize = i + 1;
    while j < b.len()
        invariant
            i + 1 <= j <= b@.len(),
            i < b@.len(),
            digits_prefix(b@) == i as int,
            b@[i as int] == 46,
            forall|m: int| i + 1 <= m < j ==> is_digit(b@[m]),
        decreases b@.len() - j,
    {
        if !(b[j] >= 48 && b[j] <= 57) {
            proof {
                assert(b@.skip(i + 1)[j - i - 1] == b@[j as int]);
                assert(!is_digit(b@.skip(i + 1)[j - i - 1]));
            }
            return false;
        }
        j = j + 1;
    }
    proof {
        assert forall|m: int| 0 <= m < b@.skip(i + 1).len() implies is_digit(
            #[trigger] b@.skip(i + 1)[m],
        ) by {
            assert(b@.skip(i + 1)[m] == b@[m + i + 1]);
        }
    }
    i > 0 || b.len() > i + 1
}

fn matches_exp(b: &[u8]) -> (r: bool)
    ensures
        r == is_exp_part(b@),
{
    if b.len() < 2 {
        return false;
    }
    if lower(b[0]) != 101 {
        return false;
    }
    let start: usize = if b[1] == 43 || b[1] == 45 {
        2
    } else {
        1
    };
    let ghost t = strip_sign(b@.drop_first());
    proof {
        assert(t =~= b@.skip(start as int));
    }
    if start >= b.len() {
        return false;
    }
    let mut j: usize = start;
    while j < b.len()
        invariant
            start <= j <= b@.len(),
            1 <= start <= 2,
            start <= b@.len(),
            b@.len() >= 2,
            to_lower(b@.first()) == 101,
            t == strip_sign(b@.drop_first()),
            t == b@.skip(start as int),
            forall|m: int| start <= m < j ==> is_digit(b@[m]),
        decreases b@.len() - j,
    {
        if !(b[j] >= 48 && b[j] <= 57) {
            proof {
                assert(t.len() == b@.len() - start);
                assert(t[j - start] == b@[j as int]);
                assert(!is_digit(t[j - start]));
            }
            return false;
        }
        j = j + 1;
    }
    proof {
        assert forall|m: int| 0 <= m < t.len() implies is_digit(t[m]) by {
            assert(t[m] == b@[m + start]);
        }
    }
    true
}

fn matches_number(b: &[u8]) -> (r: bool)
    ensures
        r == is_number(b@),
{
    let mut k: usize = 0;
    while k < b.len() && lower(b[k]) != 101
        invariant
            0 <= k <= b@.len(),
            forall|j: int| 0 <= j < k ==> to_lower(b@[j]) != 101,
        decreases b@.len() - k,
    {
        k = k + 1;
    }
    proof {
        lemma_exp_split_is(b@, k as int);
    }
    if k == b.len() {
        matches_mantissa(b)
    } else {
        let head = vstd::slice::slice_subrange(b, 0, k);
        let tail = vstd::slice::slice_subrange(b, k, b.len());
        proof {
            assert(head@ =~= b@.take(k as int));
            assert(tail@ =~= b@.skip(k as int));
        }
        let m = matches_mantissa(head);
        m && matches_exp(tail)
    }
}

/// Whether a trimmed line matches the numeric-literal grammar, so that the
/// shell's string-to-double conversion accepts it.
pub fn accepts_numeric_line(line: &[u8]) -> (r: bool)
    ensures
        r == is_numeric_literal(line@),
{
    let rest: &[u8] = if line.len() > 0 && (line[0] == 43 || line[0] == 45) {
        vstd::slice::slice_subrange(line, 1, line.len())
    } else {
        line
    };
    proof {
        assert(rest@ =~= strip_sign(line@));
    }
    let kw = matches_keyword(rest);
    kw || matches_number(rest)
}

fn copy_range(b: &[u8], lo: usize, hi: usize) -> (r: Vec<u8>)
    requires
        lo <= hi <= b@.len(),
    ensures
        r@ == b@.subrange(lo as int, hi as int),
{
    let mut out: Vec<u8> = Vec::new();
    let mut i: usize = lo;
    while i < hi
        invariant
            lo <= i <= hi <= b@.len(),
            out@ == b@.subrange(lo as int, i as int),
        decreases hi - i,
    {
        out.push(b[i]);
        proof {
            assert(out@ =~= b@.subrange(lo as int, i + 1));
        }
        i = i + 1;
    }
    out
}

fn split_newlines(b: &[u8]) -> (r: Vec<Vec<u8>>)
    ensures
        byte_views(r@) == lines_spec(b@),
{
    let mut out: Vec<Vec<u8>> = Vec::new();
    let mut start: usize = 0;
    proof {
        assert(b@.skip(0) =~= b@);
        assert(byte_views(out@) =~= Seq::<Seq<u8>>::empty());
        assert(byte_views(out@) + lines_spec(b@) =~= lines_spec(b@));
    }
    while start < b.len()
        invariant
            0 <= start <= b@.len(),
            lines_spec(b@) == byte_views(out@) + lines_spec(b@.skip(start as int)),
        decreases b@.len() - start,
    {
        let ghost rest = b@.skip(start as int);
        let mut j: usize = start;
        while j < b.len() && b[j] != 10
            invariant
                start <= j <= b@.len(),
                forall|m: int| start <= m < j ==> b@[m] != 10,
            decreases b@.len() - j,
        {
            j = j + 1;
        }
        proof {
            assert forall|m: int| 0 <= m < j - start implies rest[m] != 10 by {
                assert(rest[m] == b@[m + start]);
            }
            if j < b.len() {
                assert(rest[j - start] == 10);
            }
            lemma_line_split_is(rest, j - start as int);
        }
        let piece = copy_range(b, start, j);
        proof {
            assert(piece@ =~= rest.take(j - start as int));
        }
        if j < b.len() {
            out.push(piece);
            proof {
                assert(rest.skip(j - start as int + 1) =~= b@.skip(j + 1));
                assert(byte_views(out@) =~= byte_views(out@.drop_last()) + seq![
                    rest.take(j - start as int),
                ]);
                assert(lines_spec(rest) == seq![rest.take(j - start as int)] + lines_spec(
                    b@.skip(j + 1),
                ));
            }
            start = j + 1;
        } else {
            out.push(piece);
            proof {
                assert(rest.len() > 0);
                assert(piece@ =~= rest);
                assert(lines_spec(rest) == seq![rest]);
                assert(byte_views(out@) =~= byte_views(out@.drop_last()) + seq![rest]);
                assert(lines_spec(b@.skip(b@.len() as int)) =~= Seq::<Seq<u8>>::empty());
                assert(byte_views(out@) + lines_spec(b@.skip(b@.len() as int)) =~= byte_views(
                    out@,
                ));
            }
            start = b.len();
        }
    }
    proof {
        assert(lines_spec(b@.skip(start as int)) =~= Seq::<Seq<u8>>::empty());
        assert(byte_views(out@) + Seq::<Seq<u8>>::empty() =~= byte_views(out@));
    }
    out
}

proof fn lemma_decode_lines_snoc(ls: Seq<Seq<u8>>, x: Seq<u8>)
    ensures
        decode_lines(ls.push(x)) == decode_lines(ls) + decode_line_step(x),
    decreases ls.len(),
{
    if ls.len() == 0 {
        assert(ls.push(x).drop_first() =~= Seq::<Seq<u8>>::empty());
        assert(ls.push(x).first() == x);
        assert(decode_lines(ls.push(x)) == decode_line_step(x) + decode_lines(
            Seq::<Seq<u8>>::empty(),
        ));
        assert(decode_lines(ls.push(x)) =~= decode_line_step(x));
        assert(decode_lines(ls) + decode_line_step(x) =~= decode_line_step(x));
    } else {
        assert(ls.push(x).first() == ls.first());
        assert(ls.push(x).drop_first() =~= ls.drop_first().push(x));
        lemma_decode_lines_snoc(ls.drop_first(), x);
        assert(decode_lines(ls.push(x)) =~= decode_lines(ls) + decode_line_step(x));
    }
}

/// Decodes one raw chunk: nothing when the chunk is not well-formed UTF-8;
/// otherwise each newline-separated line is trimmed, and exactly the lines
/// matching the numeric-literal grammar come back, trimmed and in order.
pub fn decode(chunk: &[u8]) -> (r: Vec<Vec<u8>>)
    ensures
        byte_views(r@) == decode_spec(chunk@),
{
    if !utf8_ok(chunk) {
        let empty: Vec<Vec<u8>> = Vec::new();
        proof {
            assert(byte_views(empty@) =~= Seq::<Seq<u8>>::empty());
        }
        return empty;
    }
    let pieces = split_newlines(chunk);
    let ghost all = byte_views(pieces@);
    let mut out: Vec<Vec<u8>> = Vec::new();
    let mut i: usize = 0;
    while i < pieces.len()
        invariant
            0 <= i <= pieces@.len(),
            all == byte_views(pieces@),
            byte_views(out@) == decode_lines(all.take(i as int)),
        decreases pieces@.len() - i,
    {
        let t = trim_line(pieces[i].as_slice());
        proof {
            assert(all.take(i + 1) =~= all.take(i as int).push(all[i as int]));
            lemma_decode_lines_snoc(all.take(i as int), all[i as int]);
            assert(all[i as int] == pieces@[i as int]@);
        }
        if accepts_numeric_line(t.as_slice()) {
            out.push(t);
            proof {
                assert(byte_views(out@) =~= byte_views(out@.drop_last()) + decode_line_step(
                    all[i as int],
                ));
            }
        } else {
            proof {
                assert(byte_views(out@) + decode_line_step(all[i as int]) =~= byte_views(out@));
            }
        }
        i = i + 1;
    }
    proof {
        assert(all.take(all.len() as int) =~= all);
    }
    out
}

/// Every line the decoder emits is already trimmed and matches the
/// numeric-literal grammar: no other text ever yields a reading.
pub proof fn lemma_decode_emits_only_literals(ls: Seq<Seq<u8>>)
    ensures
        forall|i: int|
            0 <= i < decode_lines(ls).len() ==> is_numeric_literal(#[trigger] decode_lines(ls)[i]),
    decreases ls.len(),
{
    if ls.len() > 0 {
        lemma_decode_emits_only_literals(ls.drop_first());
        let head = decode_line_step(ls.first());
        assert forall|i: int| 0 <= i < decode_lines(ls).len() implies is_numeric_literal(
            #[trigger] decode_lines(ls)[i],
        ) by {
            if i < head.len() {
                assert(decode_lines(ls)[i] == head[i]);
            } else {
                assert(decode_lines(ls)[i] == decode_lines(ls.drop_first())[i - head.len()]);
            }
        }
    }
}

/// Nothing but grammar-matching lines ever comes out of decoding a chunk.
pub proof fn lemma_decode_spec_only_literals(chunk: Seq<u8>)
    ensures
        forall|i: int|
            0 <= i < decode_spec(chunk).len() ==> is_numeric_literal(
                #[trigger] decode_spec(chunk)[i],
            ),
{
    if is_utf8(chunk) {
        lemma_decode_emits_only_literals(lines_spec(chunk));
    }
}

/// A chunk in which no line matches the grammar after trimming decodes to
/// nothing at all.
pub proof fn lemma_decode_without_literals_is_empty(ls: Seq<Seq<u8>>)
    requires
        forall|i: int| 0 <= i < ls.len() ==> !is_numeric_literal(trim_spec(#[trigger] ls[i])),
    ensures
        decode_lines(ls) == Seq::<Seq<u8>>::empty(),
    decreases ls.len(),
{
    if ls.len() > 0 {
        assert(ls.first() == ls[0]);
        assert forall|i: int| 0 <= i < ls.drop_first().len() implies !is_numeric_literal(
            trim_spec(#[trigger] ls.drop_first()[i]),
        ) by {
            assert(ls.drop_first()[i] == ls[i + 1]);
        }
        lemma_decode_without_literals_is_empty(ls.drop_first());
        assert(decode_lines(ls) =~= Seq::<Seq<u8>>::empty());
    }
}

} // verus!
