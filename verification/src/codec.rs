//! The Pixelflut command protocol: wire encoding of commands and decoding of
//! the server's `SIZE` response, stated over the line's bytes.
use vstd::prelude::*;
use vstd::string::StringSliceAdditionalSpecFns;

verus! {

/// A 2D vector: a canvas coordinate or a canvas size (width, height).
#[derive(Copy, Clone, Debug, PartialEq, Eq, Structural)]
pub struct Vec2(pub u32, pub u32);

/// A 24-bit RGB color.
#[derive(Copy, Clone, Debug, PartialEq, Eq, Structural)]
pub struct Rgb(pub u8, pub u8, pub u8);

/// A Pixelflut command.
#[derive(Copy, Clone, Debug, PartialEq, Eq, Structural)]
pub enum Cmd {
    Help,
    Size,
    SetPx(Vec2, Rgb),
    GetPx(Vec2),
}

/// How a run can fail.
#[derive(Copy, Clone, Debug, PartialEq, Eq, Structural)]
pub enum PaintError {
    /// DNS resolution or TCP handshake failure; fatal to startup.
    Connect,
    /// A malformed `SIZE` response; fatal to the size query.
    Protocol,
    /// A read or write failure on an established connection; non-fatal.
    Io,
}

impl PaintError {
    /// A short description, for log lines: one fixed text per variant.
    pub fn describe(&self) -> (s: &'static str)
        ensures
            s@.len() > 0,
            *self == PaintError::Connect ==> s@ == "connection failed"@,
            *self == PaintError::Protocol ==> s@ == "malformed SIZE response"@,
            *self == PaintError::Io ==> s@ == "send or receive failed"@,
    {
        proof {
            reveal_strlit("connection failed");
            reveal_strlit("malformed SIZE response");
            reveal_strlit("send or receive failed");
        }
        match self {
            PaintError::Connect => "connection failed",
            PaintError::Protocol => "malformed SIZE response",
            PaintError::Io => "send or receive failed",
        }
    }
}

/// The space character, as a byte.
pub const SP: u8 = 0x20;

/// The decimal digit `d` (for `d < 10`) as an ASCII byte.
pub open spec fn dec_digit(d: nat) -> u8 {
    (0x30 + d) as u8
}

/// The decimal rendering of `n`, most significant digit first, no sign and
/// no leading zero (except for `n == 0` itself).
pub open spec fn dec_rep(n: nat) -> Seq<u8>
    decreases n,
{
    if n < 10 {
        seq![dec_digit(n)]
    } else {
        dec_rep(n / 10).push(dec_digit(n % 10))
    }
}

/// The hex digit `d` (for `d < 16`), lowercase, as an ASCII byte.
pub open spec fn hex_digit(d: nat) -> u8 {
    if d < 10 {
        (0x30 + d) as u8
    } else {
        (0x61 + (d - 10)) as u8
    }
}

/// One byte as exactly two lowercase hex digits, zero-padded.
pub open spec fn hex_pair(b: u8) -> Seq<u8> {
    seq![hex_digit(b as nat / 16), hex_digit(b as nat % 16)]
}

impl Cmd {
    /// The bytes of this command's wire line, newline not included.
    pub open spec fn wire(self) -> Seq<u8> {
        match self {
            Cmd::Help => seq![0x48u8, 0x45u8, 0x4cu8, 0x50u8],  // "HELP"
            Cmd::Size => seq![0x53u8, 0x49u8, 0x5au8, 0x45u8],  // "SIZE"
            Cmd::SetPx(p, c) => seq![0x50u8, 0x58u8, SP] + dec_rep(p.0 as nat) + seq![SP]
                + dec_rep(p.1 as nat) + seq![SP] + hex_pair(c.0) + hex_pair(c.1) + hex_pair(c.2),
            Cmd::GetPx(p) => seq![0x50u8, 0x58u8, SP] + dec_rep(p.0 as nat) + seq![SP]
                + dec_rep(p.1 as nat),
        }
    }

    /// Encodes this command as the bytes of its wire line, without the
    /// terminating newline.
    pub fn encode(&self) -> (v: Vec<u8>)
        ensures
            v@ == self.wire(),
    {
        let mut v: Vec<u8> = Vec::new();
        match *self {
            Cmd::Help => {
                v.push(0x48);
                v.push(0x45);
                v.push(0x4c);
                v.push(0x50);
            },
            Cmd::Size => {
                v.push(0x53);
                v.push(0x49);
                v.push(0x5a);
                v.push(0x45);
            },
            Cmd::SetPx(p, c) => {
                v.push(0x50);
                v.push(0x58);
                v.push(SP);
                push_dec(&mut v, p.0);
                v.push(SP);
                push_dec(&mut v, p.1);
                v.push(SP);
                push_hex_pair(&mut v, c.0);
                push_hex_pair(&mut v, c.1);
                push_hex_pair(&mut v, c.2);
            },
            Cmd::GetPx(p) => {
                v.push(0x50);
                v.push(0x58);
                v.push(SP);
                push_dec(&mut v, p.0);
                v.push(SP);
                push_dec(&mut v, p.1);
            },
        }
        assert(v@ =~= self.wire());
        v
    }
}

/// Appends the decimal rendering of `n`.
fn push_dec(v: &mut Vec<u8>, n: u32)
    ensures
        final(v)@ == old(v)@ + dec_rep(n as nat),
    decreases n,
{
    if n < 10 {
        v.push(0x30 + n as u8);
    } else {
        push_dec(v, n / 10);
        v.push(0x30 + (n % 10) as u8);
    }
    assert(v@ =~= old(v)@ + dec_rep(n as nat));
}

/// Appends the two lowercase hex digits of `b`.
fn push_hex_pair(v: &mut Vec<u8>, b: u8)
    ensures
        final(v)@ == old(v)@ + hex_pair(b),
{
    let hi = b / 16;
    let lo = b % 16;
    v.push(if hi < 10 { 0x30 + hi } else { 0x61 + (hi - 10) });
    v.push(if lo < 10 { 0x30 + lo } else { 0x61 + (lo - 10) });
    assert(v@ =~= old(v)@ + hex_pair(b));
}

/// The plus sign, as a byte: `u32` parsing accepts one leading `+`.
pub const PLUS: u8 = 0x2b;

/// Whether `b` is an ASCII decimal digit.
pub open spec fn is_digit(b: u8) -> bool {
    0x30 <= b <= 0x39
}

/// The value of the digit `b`, 0 for a non-digit.
pub open spec fn digit_val(b: u8) -> nat {
    if is_digit(b) {
        (b - 0x30) as nat
    } else {
        0
    }
}

/// Whether every byte of `s` is a decimal digit.
pub open spec fn all_digits(s: Seq<u8>) -> bool {
    forall|i: int| 0 <= i < s.len() ==> is_digit(#[trigger] s[i])
}

/// The number that the digit string `s` denotes, most significant digit first.
pub open spec fn dec_val(s: Seq<u8>) -> nat
    decreases s.len(),
{
    if s.len() == 0 {
        0
    } else {
        dec_val(s.drop_last()) * 10 + digit_val(s.last())
    }
}

/// What `u32` parsing accepts: an optional leading `+`, then one or more
/// decimal digits and nothing else, denoting a value that fits in `u32`.
pub open spec fn parse_u32(s: Seq<u8>) -> Option<u32> {
    let body = if s.len() > 0 && s[0] == PLUS {
        s.drop_first()
    } else {
        s
    };
    if body.len() > 0 && all_digits(body) && dec_val(body) <= u32::MAX {
        Some(dec_val(body) as u32)
    } else {
        None
    }
}

/// Whether `b` is ASCII whitespace (space, tab, line feed, vertical tab,
/// form feed or carriage return).
pub open spec fn is_ws(b: u8) -> bool {
    b == SP || 0x09 <= b <= 0x0d
}

/// `s` with every trailing whitespace byte removed.
pub open spec fn trim_end_ws(s: Seq<u8>) -> Seq<u8>
    decreases s.len(),
{
    if s.len() > 0 && is_ws(s.last()) {
        trim_end_ws(s.drop_last())
    } else {
        s
    }
}

/// The index of the first space in `s`, if any.
pub open spec fn first_space(s: Seq<u8>) -> Option<int>
    decreases s.len(),
{
    if s.len() == 0 {
        None
    } else if s[0] == SP {
        Some(0)
    } else {
        match first_space(s.drop_first()) {
            Some(i) => Some(i + 1),
            None => None,
        }
    }
}

/// What a `SIZE` response line decodes to: after trailing whitespace is
/// trimmed, the leading token (up to the first space) is skipped, the next
/// space-separated field is the width and the whole remainder is the height;
/// both must parse as `u32`, else the line is rejected.
pub open spec fn spec_decode_size(s: Seq<u8>) -> Option<Vec2> {
    let t = trim_end_ws(s);
    match first_space(t) {
        None => None,
        Some(i) => {
            let rest = t.subrange(i + 1, t.len() as int);
            match first_space(rest) {
                None => None,
                Some(j) => match (parse_u32(rest.subrange(0, j)), parse_u32(
                    rest.subrange(j + 1, rest.len() as int),
                )) {
                    (Some(w), Some(h)) => Some(Vec2(w, h)),
                    _ => None,
                },
            }
        },
    }
}

/// If `s[i]` is the first space of `s`, `first_space` finds exactly it.
proof fn lemma_first_space_at(s: Seq<u8>, i: int)
    requires
        0 <= i < s.len(),
        s[i] == SP,
        forall|k: int| 0 <= k < i ==> s[k] != SP,
    ensures
        first_space(s) == Some(i),
    decreases i,
{
    if i > 0 {
        lemma_first_space_at(s.drop_first(), i - 1);
    }
}

/// If `s` holds no space, `first_space` finds none.
proof fn lemma_first_space_none(s: Seq<u8>)
    requires
        forall|k: int| 0 <= k < s.len() ==> s[k] != SP,
    ensures
        first_space(s) == None::<int>,
    decreases s.len(),
{
    if s.len() > 0 {
        lemma_first_space_none(s.drop_first());
    }
}

/// The value a digit string denotes never shrinks when digits are appended:
/// a prefix denotes at most the value of the whole string.
proof fn lemma_dec_val_prefix(s: Seq<u8>, m: int)
    requires
        0 <= m <= s.len(),
    ensures
        dec_val(s.subrange(0, m)) <= dec_val(s),
    decreases s.len(),
{
    if m == s.len() {
        assert(s.subrange(0, m) =~= s);
    } else {
        assert(s.drop_last().subrange(0, m) =~= s.subrange(0, m));
        lemma_dec_val_prefix(s.drop_last(), m);
    }
}

/// Whether `b` is ASCII whitespace.
fn ws(b: u8) -> (r: bool)
    ensures
        r == is_ws(b),
{
    b == SP || (0x09 <= b && b <= 0x0d)
}

/// The index of the first space in `bytes[from..end]`, if any.
fn find_space_in(bytes: &[u8], from: usize, end: usize) -> (r: Option<usize>)
    requires
        from <= end <= bytes@.len(),
    ensures
        match r {
            Some(i) => from <= i < end && bytes@[i as int] == SP && (forall|k: int|
                from <= k < i ==> bytes@[k] != SP),
            None => forall|k: int| from <= k < end ==> bytes@[k] != SP,
        },
{
    let mut j = from;
    while j < end
        invariant
            from <= j <= end <= bytes@.len(),
            forall|k: int| from <= k < j ==> bytes@[k] != SP,
        decreases end - j,
    {
        if bytes[j] == SP {
            return Some(j);
        }
        j = j + 1;
    }
    None
}

/// Parses `bytes[from..end]` as a `u32` field, per `parse_u32`.
#[verifier::loop_isolation(false)]
fn parse_field(bytes: &[u8], from: usize, end: usize) -> (r: Option<u32>)
    requires
        from <= end <= bytes@.len(),
    ensures
        r == parse_u32(bytes@.subrange(from as int, end as int)),
{
    let ghost s = bytes@.subrange(from as int, end as int);
    let mut i = from;
    if i < end && bytes[i] == PLUS {
        i = i + 1;
    }
    let ghost body = if s.len() > 0 && s[0] == PLUS {
        s.drop_first()
    } else {
        s
    };
    proof {
        assert(body =~= bytes@.subrange(i as int, end as int));
    }
    if i == end {
        return None;
    }
    let mut acc: u64 = 0;
    let mut j = i;
    while j < end
        invariant
            from <= i <= j <= end <= bytes@.len(),
            body =~= bytes@.subrange(i as int, end as int),
            all_digits(bytes@.subrange(i as int, j as int)),
            acc == dec_val(bytes@.subrange(i as int, j as int)),
            acc <= u32::MAX,
        decreases end - j,
    {
        let d = bytes[j];
        let ghost pre = bytes@.subrange(i as int, j as int);
        let ghost cur = bytes@.subrange(i as int, j + 1 as int);
        proof {
            assert(cur.drop_last() =~= pre);
            assert(cur.last() == bytes@[j as int]);
        }
        if !(0x30 <= d && d <= 0x39) {
            proof {
                assert(body[j - i] == bytes@[j as int]);
                assert(!all_digits(body));
            }
            return None;
        }
        acc = acc * 10 + (d - 0x30) as u64;
        if acc > u32::MAX as u64 {
            proof {
                assert(dec_val(cur) == acc);
                assert(cur =~= body.subrange(0, j + 1 - i));
                lemma_dec_val_prefix(body, j + 1 - i);
            }
            return None;
        }
        j = j + 1;
    }
    proof {
        assert(bytes@.subrange(i as int, end as int) =~= body);
    }
    Some(acc as u32)
}

/// Decodes the server's reply to `SIZE`: the canvas size, or `Protocol` when
/// the line does not carry two `u32` fields after the leading token.
pub fn decode_size(line: &str) -> (r: Result<Vec2, PaintError>)
    ensures
        match spec_decode_size(line.spec_bytes()) {
            Some(v) => r == Ok::<Vec2, PaintError>(v),
            None => r == Err::<Vec2, PaintError>(PaintError::Protocol),
        },
{
    let bytes: &[u8] = line.as_bytes();
    let n = bytes.len();
    let mut end = n;
    proof {
        assert(bytes@.subrange(0, n as int) =~= bytes@);
    }
    while end > 0 && ws(bytes[end - 1])
        invariant
            0 <= end <= n == bytes@.len(),
            trim_end_ws(bytes@) == trim_end_ws(bytes@.subrange(0, end as int)),
        decreases end,
    {
        proof {
            assert(bytes@.subrange(0, end as int).drop_last() =~= bytes@.subrange(
                0,
                end - 1 as int,
            ));
        }
        end = end - 1;
    }
    let ghost t = bytes@.subrange(0, end as int);
    proof {
        assert(trim_end_ws(bytes@) == t);
    }
    match find_space_in(bytes, 0, end) {
        None => {
            proof {
                lemma_first_space_none(t);
            }
            Err(PaintError::Protocol)
        },
        Some(i) => {
            let ghost rest = t.subrange(i + 1, t.len() as int);
            proof {
                lemma_first_space_at(t, i as int);
                assert(rest =~= bytes@.subrange(i + 1 as int, end as int));
            }
            match find_space_in(bytes, i + 1, end) {
                None => {
                    proof {
                        assert(forall|k: int|
                            0 <= k < rest.len() ==> rest[k] == bytes@[i + 1 + k]);
                        lemma_first_space_none(rest);
                    }
                    Err(PaintError::Protocol)
                },
                Some(j) => {
                    proof {
                        assert(rest[j - i - 1] == bytes@[j as int]);
                        assert(forall|k: int|
                            0 <= k < j - i - 1 ==> rest[k] == bytes@[i + 1 + k] && rest[k] != SP);
                        lemma_first_space_at(rest, j - i - 1);
                        assert(rest.subrange(0, j - i - 1) =~= bytes@.subrange(
                            i + 1 as int,
                            j as int,
                        ));
                        assert(rest.subrange(j - i, rest.len() as int) =~= bytes@.subrange(
                            j + 1 as int,
                            end as int,
                        ));
                    }
                    let w = parse_field(bytes, i + 1, j);
                    let h = parse_field(bytes, j + 1, end);
                    match (w, h) {
                        (Some(wv), Some(hv)) => Ok(Vec2(wv, hv)),
                        _ => Err(PaintError::Protocol),
                    }
                },
            }
        },
    }
}

/// Whether `b` is a lowercase hex digit.
pub open spec fn is_hex_lower(b: u8) -> bool {
    is_digit(b) || 0x61 <= b <= 0x66
}

/// The value of the lowercase hex digit `b`, 0 for any other byte.
pub open spec fn hex_val(b: u8) -> nat {
    if is_digit(b) {
        (b - 0x30) as nat
    } else if 0x61 <= b <= 0x66 {
        (b - 0x61 + 10) as nat
    } else {
        0
    }
}

/// What a color token decodes to: exactly six lowercase hex digits, two per
/// channel, zero-padded.
pub open spec fn parse_rgb(s: Seq<u8>) -> Option<Rgb> {
    if s.len() == 6 && (forall|i: int| 0 <= i < 6 ==> is_hex_lower(#[trigger] s[i])) {
        Some(
            Rgb(
                (hex_val(s[0]) * 16 + hex_val(s[1])) as u8,
                (hex_val(s[2]) * 16 + hex_val(s[3])) as u8,
                (hex_val(s[4]) * 16 + hex_val(s[5])) as u8,
            ),
        )
    } else {
        None
    }
}

/// A reference decoder for a `PX` set-pixel line: the literal token `PX`,
/// then two `u32` fields and a color token, single spaces between.
pub open spec fn parse_px_line(s: Seq<u8>) -> Option<(Vec2, Rgb)> {
    match first_space(s) {
        None => None,
        Some(i) => if s.subrange(0, i) != seq![0x50u8, 0x58u8] {
            None
        } else {
            let rest = s.subrange(i + 1, s.len() as int);
            match first_space(rest) {
                None => None,
                Some(j) => {
                    let rest2 = rest.subrange(j + 1, rest.len() as int);
                    match first_space(rest2) {
                        None => None,
                        Some(k) => match (
                            parse_u32(rest.subrange(0, j)),
                            parse_u32(rest2.subrange(0, k)),
                            parse_rgb(rest2.subrange(k + 1, rest2.len() as int)),
                        ) {
                            (Some(x), Some(y), Some(c)) => Some((Vec2(x, y), c)),
                            _ => None,
                        },
                    }
                },
            }
        },
    }
}

/// A decimal rendering is nonempty, all digits, and denotes its number.
pub proof fn lemma_dec_rep(n: nat)
    ensures
        dec_rep(n).len() >= 1,
        all_digits(dec_rep(n)),
        dec_val(dec_rep(n)) == n,
    decreases n,
{
    if n < 10 {
        assert(dec_rep(n) =~= seq![dec_digit(n)]);
        assert(dec_rep(n).drop_last() =~= Seq::<u8>::empty());
        assert(dec_val(Seq::<u8>::empty()) == 0);
        assert(dec_rep(n).last() == dec_digit(n));
        assert(is_digit(dec_digit(n)) && digit_val(dec_digit(n)) == n);
    } else {
        lemma_dec_rep(n / 10);
        assert(dec_rep(n).drop_last() =~= dec_rep(n / 10));
        assert(dec_rep(n).last() == dec_digit(n % 10));
        assert(is_digit(dec_digit(n % 10)) && digit_val(dec_digit(n % 10)) == n % 10);
        assert(dec_val(dec_rep(n)) == (n / 10) * 10 + n % 10);
        assert(forall|i: int|
            0 <= i < dec_rep(n).len() - 1 ==> #[trigger] dec_rep(n)[i] == dec_rep(n / 10)[i]);
    }
}

/// A hex pair holds two lowercase hex digits that denote the byte exactly.
pub proof fn lemma_hex_pair(b: u8)
    ensures
        hex_pair(b).len() == 2,
        is_hex_lower(hex_pair(b)[0]),
        is_hex_lower(hex_pair(b)[1]),
        hex_val(hex_pair(b)[0]) * 16 + hex_val(hex_pair(b)[1]) == b,
{
    assert(b as nat / 16 < 16);
    assert(b as nat % 16 < 16);
}

/// Law: encoding `SetPx` and parsing the line back with the reference
/// decoder recovers the coordinate and color exactly.
#[verifier::rlimit(60)]
pub proof fn lemma_set_px_round_trip(p: Vec2, c: Rgb)
    ensures
        parse_px_line(Cmd::SetPx(p, c).wire()) == Some((p, c)),
{
    let s = Cmd::SetPx(p, c).wire();
    let dx = dec_rep(p.0 as nat);
    let dy = dec_rep(p.1 as nat);
    let hex = hex_pair(c.0) + hex_pair(c.1) + hex_pair(c.2);
    lemma_dec_rep(p.0 as nat);
    lemma_dec_rep(p.1 as nat);
    lemma_hex_pair(c.0);
    lemma_hex_pair(c.1);
    lemma_hex_pair(c.2);
    assert(s =~= seq![0x50u8, 0x58u8, SP] + dx + seq![SP] + dy + seq![SP] + hex);
    assert(s[2] == SP);
    assert(forall|k: int| 0 <= k < 2 ==> s[k] != SP);
    lemma_first_space_at(s, 2);
    assert(s.subrange(0, 2) =~= seq![0x50u8, 0x58u8]);
    let rest = s.subrange(3, s.len() as int);
    assert(rest =~= dx + seq![SP] + dy + seq![SP] + hex);
    let lx = dx.len() as int;
    assert(forall|k: int| 0 <= k < lx ==> rest[k] == dx[k] && rest[k] != SP);
    assert(rest[lx] == SP);
    lemma_first_space_at(rest, lx);
    assert(rest.subrange(0, lx) =~= dx);
    assert(dx[0] != PLUS);
    assert(parse_u32(dx) == Some(p.0));
    let rest2 = rest.subrange(lx + 1, rest.len() as int);
    assert(rest2 =~= dy + seq![SP] + hex);
    let ly = dy.len() as int;
    assert(forall|k: int| 0 <= k < ly ==> rest2[k] == dy[k] && rest2[k] != SP);
    assert(rest2[ly] == SP);
    lemma_first_space_at(rest2, ly);
    assert(rest2.subrange(0, ly) =~= dy);
    assert(dy[0] != PLUS);
    assert(parse_u32(dy) == Some(p.1));
    let ctok = rest2.subrange(ly + 1, rest2.len() as int);
    assert(ctok =~= hex);
    assert(ctok[0] == hex_pair(c.0)[0]);
    assert(ctok[1] == hex_pair(c.0)[1]);
    assert(ctok[2] == hex_pair(c.1)[0]);
    assert(ctok[3] == hex_pair(c.1)[1]);
    assert(ctok[4] == hex_pair(c.2)[0]);
    assert(ctok[5] == hex_pair(c.2)[1]);
    assert(forall|i: int| 0 <= i < 6 ==> is_hex_lower(#[trigger] ctok[i]));
    assert(parse_rgb(ctok) == Some(c));
}

/// Whether every byte of `s` is ASCII.
pub open spec fn all_ascii(s: Seq<u8>) -> bool {
    forall|i: int| 0 <= i < s.len() ==> #[trigger] s[i] < 0x80
}

/// The characters that the ASCII bytes `s` spell.
pub open spec fn ascii_chars(s: Seq<u8>) -> Seq<char> {
    s.map_values(|b: u8| b as char)
}

/// Relies on String::from_utf8: ASCII bytes are valid UTF-8 and decode to
/// exactly those characters.
#[verifier::external_body]
fn ascii_to_string(v: Vec<u8>) -> (s: String)
    requires
        all_ascii(v@),
    ensures
        s@ == ascii_chars(v@),
{
    String::from_utf8(v).unwrap_or_default()
}

/// Every wire line is ASCII.
pub proof fn lemma_wire_ascii(c: Cmd)
    ensures
        all_ascii(c.wire()),
{
    match c {
        Cmd::Help => {},
        Cmd::Size => {},
        Cmd::SetPx(p, col) => {
            lemma_dec_rep(p.0 as nat);
            lemma_dec_rep(p.1 as nat);
            lemma_hex_pair(col.0);
            lemma_hex_pair(col.1);
            lemma_hex_pair(col.2);
            let s = c.wire();
            let dx = dec_rep(p.0 as nat);
            let dy = dec_rep(p.1 as nat);
            let hex = hex_pair(col.0) + hex_pair(col.1) + hex_pair(col.2);
            assert(s =~= seq![0x50u8, 0x58u8, SP] + dx + seq![SP] + dy + seq![SP] + hex);
            assert(forall|i: int| 0 <= i < hex.len() ==> is_hex_lower(#[trigger] hex[i]));
            assert forall|i: int| 0 <= i < s.len() implies #[trigger] s[i] < 0x80 by {
                if 3 <= i < 3 + dx.len() {
                    assert(s[i] == dx[i - 3]);
                    assert(is_digit(dx[i - 3]));
                }
            }
        },
        Cmd::GetPx(p) => {
            lemma_dec_rep(p.0 as nat);
            lemma_dec_rep(p.1 as nat);
            let s = c.wire();
            let dx = dec_rep(p.0 as nat);
            let dy = dec_rep(p.1 as nat);
            assert(s =~= seq![0x50u8, 0x58u8, SP] + dx + seq![SP] + dy);
            assert forall|i: int| 0 <= i < s.len() implies #[trigger] s[i] < 0x80 by {
                if 3 <= i < 3 + dx.len() {
                    assert(s[i] == dx[i - 3]);
                    assert(is_digit(dx[i - 3]));
                }
            }
        },
    }
}

impl Cmd {
    /// The wire line as text, newline not included.
    pub fn to_string(&self) -> (s: String)
        ensures
            s@ == ascii_chars(self.wire()),
    {
        let v = self.encode();
        proof {
            lemma_wire_ascii(*self);
        }
        ascii_to_string(v)
    }
}

} // verus!
