use vstd::prelude::*;

verus! {

/// The ASCII characters that `char::is_whitespace` accepts.
pub open spec fn is_ascii_ws(b: u8) -> bool {
    b == 9 || b == 10 || b == 11 || b == 12 || b == 13 || b == 32
}

/// The byte length of the whitespace character (in the sense of
/// `char::is_whitespace`) whose UTF-8 encoding starts at `i`, or 0.
pub open spec fn ws_len(s: Seq<u8>, i: int) -> int {
    if i < 0 || i >= s.len() {
        0
    } else if is_ascii_ws(s[i]) {
        1
    } else if s[i] == 0xC2 && i + 1 < s.len() && (s[i + 1] == 0x85 || s[i + 1] == 0xA0) {
        2
    } else if i + 2 < s.len() && ((s[i] == 0xE1 && s[i + 1] == 0x9A && s[i + 2] == 0x80) || (s[i]
        == 0xE2 && s[i + 1] == 0x80 && ((0x80 <= s[i + 2] <= 0x8A) || s[i + 2] == 0xA8 || s[i + 2]
        == 0xA9 || s[i + 2] == 0xAF)) || (s[i] == 0xE2 && s[i + 1] == 0x81 && s[i + 2] == 0x9F) || (
    s[i] == 0xE3 && s[i + 1] == 0x80 && s[i + 2] == 0x80)) {
        3
    } else {
        0
    }
}

/// The first index at or after `i` that does not start a whitespace
/// character.
pub open spec fn skip_ws(s: Seq<u8>, i: int) -> int
    decreases s.len() - i,
{
    if 0 <= i < s.len() && ws_len(s, i) > 0 {
        skip_ws(s, i + ws_len(s, i))
    } else {
        i
    }
}

/// The first index at or after `i` that starts a whitespace character, or
/// the end.
pub open spec fn token_end(s: Seq<u8>, i: int) -> int
    decreases s.len() - i,
{
    if 0 <= i < s.len() && ws_len(s, i) == 0 {
        token_end(s, i + 1)
    } else {
        i
    }
}

/// The whitespace-separated tokens of `s` from index `i` on
/// (`str::split_whitespace`).
pub open spec fn tokens_from(s: Seq<u8>, i: int) -> Seq<Seq<u8>>
    decreases s.len() - i,
{
    let j = skip_ws(s, i);
    if j < i || j >= s.len() {
        seq![]
    } else {
        let e = token_end(s, j);
        if e <= j || e > s.len() {
            seq![]
        } else {
            seq![s.subrange(j, e)] + tokens_from(s, e)
        }
    }
}

pub open spec fn tokens(s: Seq<u8>) -> Seq<Seq<u8>> {
    tokens_from(s, 0)
}

/// The byte length of the whitespace character that ends `s`, or 0.
pub open spec fn ws_len_at_end(s: Seq<u8>) -> int {
    if s.len() >= 1 && is_ascii_ws(s[s.len() - 1]) {
        1
    } else if s.len() >= 2 && ws_len(s, s.len() - 2) == 2 {
        2
    } else if s.len() >= 3 && ws_len(s, s.len() - 3) == 3 {
        3
    } else {
        0
    }
}

/// `s` without its trailing whitespace (`str::trim_end`).
pub open spec fn trim_end(s: Seq<u8>) -> Seq<u8>
    decreases s.len(),
{
    if ws_len_at_end(s) > 0 {
        trim_end(s.subrange(0, s.len() - ws_len_at_end(s)))
    } else {
        s
    }
}

/// `s` without leading and trailing whitespace (`str::trim`).
pub open spec fn trim(s: Seq<u8>) -> Seq<u8> {
    trim_end(s.subrange(skip_ws(s, 0), s.len() as int))
}

pub open spec fn is_digit(b: u8) -> bool {
    48 <= b <= 57
}

pub open spec fn all_digits(s: Seq<u8>) -> bool {
    forall|i: int| 0 <= i < s.len() ==> is_digit(#[trigger] s[i])
}

/// The number that the decimal digits `s` spell.
pub open spec fn digits_value(s: Seq<u8>) -> nat
    decreases s.len(),
{
    if s.len() == 0 {
        0
    } else {
        digits_value(s.drop_last()) * 10 + (s.last() - 48) as nat
    }
}

/// The result of parsing `s` as a `usize` (`str::parse::<usize>`): an
/// optional `+` followed by at least one decimal digit, with a value that
/// fits.
pub open spec fn parse_usize(s: Seq<u8>) -> Option<usize> {
    let d = if s.len() > 0 && s[0] == 43 {
        s.subrange(1, s.len() as int)
    } else {
        s
    };
    if d.len() == 0 || !all_digits(d) || digits_value(d) > usize::MAX {
        None
    } else {
        Some(digits_value(d) as usize)
    }
}

pub(crate) fn ws_len_at(s: &[u8], i: usize) -> (n: usize)
    ensures
        n == ws_len(s@, i as int),
{
    let len = s.len();
    if i >= len {
        return 0;
    }
    let b = s[i];
    if b == 9 || b == 10 || b == 11 || b == 12 || b == 13 || b == 32 {
        return 1;
    }
    if b == 0xC2 && i + 1 < len && (s[i + 1] == 0x85 || s[i + 1] == 0xA0) {
        return 2;
    }
    if len - i > 2 {
        let b1 = s[i + 1];
        let b2 = s[i + 2];
        if (b == 0xE1 && b1 == 0x9A && b2 == 0x80) || (b == 0xE2 && b1 == 0x80 && ((0x80 <= b2
            && b2 <= 0x8A) || b2 == 0xA8 || b2 == 0xA9 || b2 == 0xAF)) || (b == 0xE2 && b1 == 0x81
            && b2 == 0x9F) || (b == 0xE3 && b1 == 0x80 && b2 == 0x80) {
            return 3;
        }
    }
    0
}

proof fn lemma_ws_len_bound(s: Seq<u8>, i: int)
    ensures
        0 <= ws_len(s, i),
        ws_len(s, i) > 0 ==> i + ws_len(s, i) <= s.len(),
{
}

/// The whitespace-separated tokens of `s` (`str::split_whitespace`).
pub(crate) fn split_whitespace(s: &[u8]) -> (r: Vec<Vec<u8>>)
    ensures
        r@.map_values(|t: Vec<u8>| t@) == tokens(s@),
{
    let len = s.len();
    let mut r: Vec<Vec<u8>> = Vec::new();
    let mut i: usize = 0;
    if len == 0 {
        assert(tokens(s@) =~= seq![]);
        assert(r@.map_values(|t: Vec<u8>| t@) =~= seq![]);
        return r;
    }
    loop
        invariant
            len == s@.len(),
            i <= len,
            r@.map_values(|t: Vec<u8>| t@) + tokens_from(s@, i as int) == tokens(s@),
        ensures
            r@.map_values(|t: Vec<u8>| t@) == tokens(s@),
        decreases len - i,
    {
        if i >= len {
            assert(tokens_from(s@, i as int) =~= seq![]);
            assert(r@.map_values(|t: Vec<u8>| t@) + seq![] =~= r@.map_values(|t: Vec<u8>| t@));
            break;
        }
        let ghost i0 = i;
        // skip whitespace
        while i < len && ws_len_at(s, i) > 0
            invariant
                len == s@.len(),
                i0 <= i <= len,
                skip_ws(s@, i as int) == skip_ws(s@, i0 as int),
            decreases len - i,
        {
            proof {
                lemma_ws_len_bound(s@, i as int);
            }
            i = i + ws_len_at(s, i);
        }
        assert(skip_ws(s@, i0 as int) == i);
        if i >= len {
            assert(tokens_from(s@, i0 as int) =~= seq![]);
            assert(r@.map_values(|t: Vec<u8>| t@) + seq![] =~= r@.map_values(|t: Vec<u8>| t@));
            break;
        }
        let start = i;
        while i < len && ws_len_at(s, i) == 0
            invariant
                len == s@.len(),
                start <= i <= len,
                token_end(s@, i as int) == token_end(s@, start as int),
            decreases len - i,
        {
            i = i + 1;
        }
        assert(token_end(s@, start as int) == i);
        let tok = vstd::slice::slice_to_vec(vstd::slice::slice_subrange(s, start, i));
        let ghost before = r@.map_values(|t: Vec<u8>| t@);
        r.push(tok);
        assert(r@.map_values(|t: Vec<u8>| t@) =~= before.push(tok@));
        assert(tokens_from(s@, i0 as int) =~= seq![s@.subrange(start as int, i as int)] + tokens_from(s@, i as int));
        assert(before + tokens_from(s@, i0 as int) =~= before.push(tok@) + tokens_from(s@, i as int));
    }
    r
}

} // verus!

verus! {

fn ws_len_at_end_exec(s: &[u8]) -> (n: usize)
    ensures
        n == ws_len_at_end(s@),
        n <= s@.len(),
{
    let len = s.len();
    if len >= 1 {
        let b = s[len - 1];
        if b == 9 || b == 10 || b == 11 || b == 12 || b == 13 || b == 32 {
            return 1;
        }
    }
    if len >= 2 && ws_len_at(s, len - 2) == 2 {
        return 2;
    }
    if len >= 3 && ws_len_at(s, len - 3) == 3 {
        return 3;
    }
    0
}

/// `s` without leading and trailing whitespace (`str::trim`).
pub(crate) fn trim_bytes(s: &[u8]) -> (r: Vec<u8>)
    ensures
        r@ == trim(s@),
{
    let len = s.len();
    let mut i: usize = 0;
    while i < len && ws_len_at(s, i) > 0
        invariant
            len == s@.len(),
            i <= len,
            skip_ws(s@, i as int) == skip_ws(s@, 0),
        decreases len - i,
    {
        proof {
            lemma_ws_len_bound(s@, i as int);
        }
        i = i + ws_len_at(s, i);
    }
    assert(skip_ws(s@, i as int) == i);
    let t = vstd::slice::slice_subrange(s, i, len);
    let mut end: usize = t.len();
    assert(t@.subrange(0, end as int) =~= t@);
    loop
        invariant
            end <= t@.len(),
            trim_end(t@.subrange(0, end as int)) == trim_end(t@),
            trim(s@) == trim_end(t@),
        decreases end,
    {
        let cur = vstd::slice::slice_subrange(t, 0, end);
        let k = ws_len_at_end_exec(cur);
        if k == 0 {
            return vstd::slice::slice_to_vec(cur);
        }
        assert(cur@.subrange(0, cur@.len() - k as int) =~= t@.subrange(0, end - k));
        end = end - k;
    }
}

/// The number that the decimal string `s` denotes, when `str::parse::<usize>`
/// accepts it.
pub(crate) fn parse_usize_bytes(s: &[u8]) -> (r: Option<usize>)
    ensures
        r == parse_usize(s@),
{
    let len = s.len();
    let start: usize = if len > 0 && s[0] == 43 {
        1
    } else {
        0
    };
    let d = vstd::slice::slice_subrange(s, start, len);
    assert(d@ == (if s@.len() > 0 && s@[0] == 43 {
        s@.subrange(1, s@.len() as int)
    } else {
        s@
    })) by {
        if start == 0 {
            assert(s@.subrange(0, len as int) =~= s@);
        }
    }
    if d.len() == 0 {
        return None;
    }
    let mut acc: usize = 0;
    let mut i: usize = 0;
    while i < d.len()
        invariant
            i <= d@.len(),
            all_digits(d@.subrange(0, i as int)),
            acc == digits_value(d@.subrange(0, i as int)),
            parse_usize(s@) == (if d@.len() == 0 || !all_digits(d@) || digits_value(d@) > usize::MAX {
                None
            } else {
                Some(digits_value(d@) as usize)
            }),
        decreases d@.len() - i,
    {
        let b = d[i];
        assert(d@.subrange(0, i + 1).drop_last() =~= d@.subrange(0, i as int));
        if b < 48 || b > 57 {
            assert(!is_digit(d@[i as int]));
            return None;
        }
        let digit = (b - 48) as usize;
        if acc > (usize::MAX - digit) / 10 {
            proof {
                lemma_digits_value_prefix(d@, i + 1);
                let m = usize::MAX - digit;
                assert(acc * 10 + digit > usize::MAX) by (nonlinear_arith)
                    requires
                        acc > m / 10,
                        m == usize::MAX - digit,
                        m >= 0,
                ;
                assert(digits_value(d@.subrange(0, i + 1)) == acc * 10 + digit);
            }
            return None;
        }
        acc = acc * 10 + digit;
        i = i + 1;
    }
    assert(d@.subrange(0, d@.len() as int) =~= d@);
    Some(acc)
}

/// A longer run of digits never spells a smaller number.
proof fn lemma_digits_value_prefix(s: Seq<u8>, n: int)
    requires
        0 <= n <= s.len(),
    ensures
        all_digits(s) ==> digits_value(s.subrange(0, n)) <= digits_value(s),
    decreases s.len(),
{
    if n < s.len() && all_digits(s) {
        assert(s.drop_last().subrange(0, n) =~= s.subrange(0, n));
        assert(all_digits(s.drop_last()));
        lemma_digits_value_prefix(s.drop_last(), n);
    } else if n == s.len() {
        assert(s.subrange(0, n) =~= s);
    }
}

/// `std::str::from_utf8`: returns `Ok` exactly when the bytes are valid
/// UTF-8, as its documentation says.
#[verifier::external_body]
pub(crate) fn is_valid_utf8(bytes: &[u8]) -> (b: bool)
    ensures
        b == vstd::utf8::valid_utf8(bytes@),
{
    std::str::from_utf8(bytes).is_ok()
}

/// The end of the line that starts at `pos`: just after its `\n`, or the
/// end of the data.
pub open spec fn line_end(data: Seq<u8>, pos: int) -> int
    decreases data.len() - pos,
{
    if pos < 0 || pos >= data.len() {
        pos
    } else if data[pos] == 10 {
        pos + 1
    } else {
        line_end(data, pos + 1)
    }
}

/// The line that `BufRead::read_line` reads at `pos` (with its `\n`), empty
/// at the end of the data.
pub open spec fn line_at(data: Seq<u8>, pos: int) -> Seq<u8> {
    if 0 <= pos < data.len() {
        data.subrange(pos, line_end(data, pos))
    } else {
        seq![]
    }
}

pub proof fn lemma_line_end_bounds(data: Seq<u8>, pos: int)
    requires
        0 <= pos,
    ensures
        pos <= line_end(data, pos),
        pos < data.len() ==> pos < line_end(data, pos) <= data.len(),
    decreases data.len() - pos,
{
    if 0 <= pos < data.len() && data[pos] != 10 {
        lemma_line_end_bounds(data, pos + 1);
    }
}

/// A position in a sequence of bytes, read line by line or byte by byte.
pub struct ByteReader {
    data: Vec<u8>,
    pos: usize,
}

pub struct ReaderView {
    pub data: Seq<u8>,
    pub pos: int,
}

impl View for ByteReader {
    type V = ReaderView;

    closed spec fn view(&self) -> ReaderView {
        ReaderView { data: self.data@, pos: self.pos as int }
    }
}

impl ByteReader {
    pub fn new(data: Vec<u8>) -> (r: ByteReader)
        ensures
            r@.data == data@,
            r@.pos == 0,
    {
        ByteReader { data, pos: 0 }
    }

    pub proof fn lemma_pos_nonneg(&self)
        ensures
            self@.pos >= 0,
    {
    }

    /// The number of bytes of data.
    pub fn len(&self) -> (n: usize)
        ensures
            n == self@.data.len(),
    {
        self.data.len()
    }

    /// A copy of the data.
    pub fn data_copy(&self) -> (d: Vec<u8>)
        ensures
            d@ == self@.data,
    {
        vstd::slice::slice_to_vec(self.data.as_slice())
    }

    /// Moves to position `pos`.
    pub fn seek(&mut self, pos: usize)
        ensures
            final(self)@ == (ReaderView { pos: pos as int, ..old(self)@ }),
    {
        self.pos = pos;
    }

    pub fn position(&self) -> (p: usize)
        ensures
            p == self@.pos,
    {
        self.pos
    }

    /// Reads the next line with its `\n` (`BufRead::read_line`); empty at
    /// the end of the data.
    pub fn read_line(&mut self) -> (line: Vec<u8>)
        ensures
            final(self)@.data == old(self)@.data,
            line@ == line_at(old(self)@.data, old(self)@.pos),
            final(self)@.pos == line_end(old(self)@.data, old(self)@.pos),
    {
        let len = self.data.len();
        let start = self.pos;
        if start >= len {
            return Vec::new();
        }
        let mut i = start;
        while i < len && self.data[i] != 10
            invariant
                start <= i <= len,
                len == self.data@.len(),
                line_end(self.data@, i as int) == line_end(self.data@, start as int),
            decreases len - i,
        {
            i = i + 1;
        }
        let end = if i < len {
            i + 1
        } else {
            i
        };
        let line = vstd::slice::slice_to_vec(vstd::slice::slice_subrange(self.data.as_slice(), start, end));
        self.pos = end;
        line
    }

    /// Reads one byte (`Read::read_exact` on a one-byte buffer); `None` at
    /// the end of the data.
    pub fn read_byte(&mut self) -> (r: Option<u8>)
        ensures
            final(self)@.data == old(self)@.data,
            0 <= old(self)@.pos < old(self)@.data.len() ==> r == Some(old(self)@.data[old(self)@.pos])
                && final(self)@.pos == old(self)@.pos + 1,
            !(0 <= old(self)@.pos < old(self)@.data.len()) ==> r is None && final(self)@.pos == old(self)@.pos,
    {
        if self.pos < self.data.len() {
            let b = self.data[self.pos];
            self.pos = self.pos + 1;
            Some(b)
        } else {
            None
        }
    }
}

} // verus!

verus! {

/// The decimal digit `d` as a one-character string.
pub open spec fn digit_str(d: nat) -> Seq<char> {
    "0123456789"@.subrange(d as int, d as int + 1)
}

/// The decimal representation of `n`.
pub open spec fn dec_str(n: nat) -> Seq<char>
    decreases n,
{
    if n < 10 {
        digit_str(n)
    } else {
        dec_str(n / 10) + digit_str(n % 10)
    }
}

/// Appends the decimal representation of `n`.
pub(crate) fn push_decimal(s: &mut String, n: usize)
    ensures
        final(s)@ == old(s)@ + dec_str(n as nat),
    decreases n,
{
    if n >= 10 {
        push_decimal(s, n / 10);
    }
    proof {
        reveal_strlit("0123456789");
    }
    let d = n % 10;
    s.append("0123456789".substring_char(d, d + 1));
    assert(s@ =~= old(s)@ + dec_str(n as nat));
}

/// The letter with position `i` in the alphabet, as a string.
pub open spec fn letter_str(i: nat) -> Seq<char> {
    "abcdefghijklmnopqrstuvwxyz"@.subrange(i as int, i as int + 1)
}

/// The label of the input with position `index`: a, b, ..., z, aa, ab, ...
pub open spec fn input_label_str(index: nat) -> Seq<char>
    decreases index,
{
    if index < 26 {
        letter_str(index)
    } else {
        input_label_str((index / 26 - 1) as nat) + letter_str(index % 26)
    }
}

} // verus!

verus! {

/// The label of the input with position `index`: a, b, ..., z, aa, ab, ...
pub(crate) fn input_label(index: usize) -> (r: String)
    ensures
        r@ == input_label_str(index as nat),
    decreases index,
{
    proof {
        reveal_strlit("abcdefghijklmnopqrstuvwxyz");
    }
    if index < 26 {
        let mut s = String::new();
        s.append("abcdefghijklmnopqrstuvwxyz".substring_char(index, index + 1));
        assert(s@ =~= input_label_str(index as nat));
        s
    } else {
        let mut prefix = input_label((index / 26) - 1);
        let suffix = index % 26;
        prefix.append("abcdefghijklmnopqrstuvwxyz".substring_char(suffix, suffix + 1));
        prefix
    }
}

} // verus!
