//! The replay-log and wire format for ticks: one self-describing record per
//! tick, newline-delimited, UTF-8. A record reads
//!
//! ```text
//! {"symbol":"BTC/USD","price_units":45000,"volume":100,"timestamp_nanos":17}
//! ```
//!
//! Symbol bytes outside printable ASCII, the quote and the backslash are
//! escaped the usual way (`\"`, `\\`, `\u00xx`), so every symbol round-trips.
//! The module defines the format twice: as an encoder and as a structural
//! parser, both at the specification level, and proves that parsing an
//! encoded record gives back exactly the tick that was written.

use vstd::prelude::*;

use crate::HftError;
use crate::MarketTick;
use crate::TickModel;

verus! {

pub const QUOTE: u8 = 0x22;

pub const BACKSLASH: u8 = 0x5c;

pub const NEWLINE: u8 = 0x0a;

// ---------------------------------------------------------------------------
// Decimal numbers
// ---------------------------------------------------------------------------
pub open spec fn is_digit(b: u8) -> bool {
    0x30 <= b <= 0x39
}

/// The canonical decimal digits of `n`, most significant first.
pub open spec fn dec_digits(n: nat) -> Seq<u8>
    decreases n,
{
    if n < 10 {
        seq![(0x30 + n) as u8]
    } else {
        dec_digits(n / 10).push((0x30 + n % 10) as u8)
    }
}

/// The value of a run of digit bytes.
pub open spec fn digits_val(s: Seq<u8>) -> nat
    decreases s.len(),
{
    if s.len() == 0 {
        0
    } else {
        digits_val(s.drop_last()) * 10 + ((s.last() - 0x30) as nat)
    }
}

/// First position at or after `pos` holding a non-digit (or the end).
pub open spec fn digit_run_end(data: Seq<u8>, pos: int) -> int
    decreases data.len() - pos when 0 <= pos <= data.len()
{
    if pos < data.len() && is_digit(data[pos]) {
        digit_run_end(data, pos + 1)
    } else {
        pos
    }
}

// ---------------------------------------------------------------------------
// String escaping
// ---------------------------------------------------------------------------
/// A byte that stands for itself inside a quoted string.
pub open spec fn is_plain(b: u8) -> bool {
    0x20 <= b <= 0x7e && b != QUOTE && b != BACKSLASH
}

pub open spec fn is_hex(b: u8) -> bool {
    is_digit(b) || 0x61 <= b <= 0x66
}

/// Lower-case hex digit for a value below 16.
pub open spec fn hex_digit(n: nat) -> u8 {
    if n < 10 {
        (0x30 + n) as u8
    } else {
        (0x61 + (n - 10)) as u8
    }
}

pub open spec fn hex_val(b: u8) -> nat {
    if is_digit(b) {
        (b - 0x30) as nat
    } else {
        (b - 0x61 + 10) as nat
    }
}

/// How one symbol byte appears inside the quoted string.
pub open spec fn esc_byte(b: u8) -> Seq<u8> {
    if b == QUOTE {
        seq![BACKSLASH, QUOTE]
    } else if b == BACKSLASH {
        seq![BACKSLASH, BACKSLASH]
    } else if is_plain(b) {
        seq![b]
    } else {
        seq![BACKSLASH, 0x75, 0x30, 0x30, hex_digit((b / 16) as nat), hex_digit((b % 16) as nat)]
    }
}

pub open spec fn esc_bytes(s: Seq<u8>) -> Seq<u8>
    decreases s.len(),
{
    if s.len() == 0 {
        Seq::<u8>::empty()
    } else {
        esc_byte(s[0]) + esc_bytes(s.drop_first())
    }
}

// ---------------------------------------------------------------------------
// Field-name literals
// ---------------------------------------------------------------------------
/// `{"symbol":"`
pub open spec fn lit_head() -> Seq<u8> {
    seq![0x7b, 0x22, 0x73, 0x79, 0x6d, 0x62, 0x6f, 0x6c, 0x22, 0x3a, 0x22]
}

/// `,"price_units":`
pub open spec fn lit_price() -> Seq<u8> {
    seq![0x2c, 0x22, 0x70, 0x72, 0x69, 0x63, 0x65, 0x5f, 0x75, 0x6e, 0x69, 0x74, 0x73, 0x22, 0x3a]
}

/// `,"volume":`
pub open spec fn lit_volume() -> Seq<u8> {
    seq![0x2c, 0x22, 0x76, 0x6f, 0x6c, 0x75, 0x6d, 0x65, 0x22, 0x3a]
}

/// `,"timestamp_nanos":`
pub open spec fn lit_timestamp() -> Seq<u8> {
    seq![
        0x2c,
        0x22,
        0x74,
        0x69,
        0x6d,
        0x65,
        0x73,
        0x74,
        0x61,
        0x6d,
        0x70,
        0x5f,
        0x6e,
        0x61,
        0x6e,
        0x6f,
        0x73,
        0x22,
        0x3a,
    ]
}

// ---------------------------------------------------------------------------
// Encoding
// ---------------------------------------------------------------------------
/// One record, without the trailing newline.
pub open spec fn encode_record(t: TickModel) -> Seq<u8> {
    lit_head() + esc_bytes(t.symbol) + seq![QUOTE] + lit_price() + dec_digits(
        t.price_units as nat,
    ) + lit_volume() + dec_digits(t.volume as nat) + lit_timestamp() + dec_digits(
        t.timestamp_nanos as nat,
    ) + seq![0x7d]
}

/// One line of the replay log: a record and a newline.
pub open spec fn encode_line(t: TickModel) -> Seq<u8> {
    encode_record(t) + seq![NEWLINE]
}

/// A whole replay log: the lines of the ticks, in order.
pub open spec fn log_of(ts: Seq<TickModel>) -> Seq<u8>
    decreases ts.len(),
{
    if ts.len() == 0 {
        Seq::<u8>::empty()
    } else {
        encode_line(ts[0]) + log_of(ts.drop_first())
    }
}

// ---------------------------------------------------------------------------
// Structural parser, specification level
// ---------------------------------------------------------------------------
/// Whether `lit` appears verbatim at `pos`.
pub open spec fn match_lit(data: Seq<u8>, pos: int, lit: Seq<u8>) -> bool {
    0 <= pos && pos + lit.len() <= data.len() && data.subrange(pos, pos + lit.len()) == lit
}

/// Parses a quoted-string body starting just after the opening quote,
/// through the closing quote; yields the unescaped bytes and the position
/// after the closing quote.
pub open spec fn sp_string(data: Seq<u8>, pos: int) -> Option<(Seq<u8>, int)>
    decreases data.len() - pos when 0 <= pos <= data.len()
{
    if pos >= data.len() {
        None
    } else {
        let b = data[pos];
        if b == QUOTE {
            Some((Seq::<u8>::empty(), pos + 1))
        } else if b == BACKSLASH {
            if pos + 1 < data.len() {
                let e = data[pos + 1];
                if e == QUOTE || e == BACKSLASH {
                    match sp_string(data, pos + 2) {
                        Some((s, end)) => Some((seq![e] + s, end)),
                        None => None,
                    }
                } else if e == 0x75 {
                    if pos + 6 <= data.len() && data[pos + 2] == 0x30 && data[pos + 3] == 0x30
                        && is_hex(data[pos + 4]) && is_hex(data[pos + 5]) {
                        let v = (hex_val(data[pos + 4]) * 16 + hex_val(data[pos + 5])) as u8;
                        match sp_string(data, pos + 6) {
                            Some((s, end)) => Some((seq![v] + s, end)),
                            None => None,
                        }
                    } else {
                        None
                    }
                } else {
                    None
                }
            } else {
                None
            }
        } else if is_plain(b) {
            match sp_string(data, pos + 1) {
                Some((s, end)) => Some((seq![b] + s, end)),
                None => None,
            }
        } else {
            None
        }
    }
}

/// Value of the digit run starting at `pos`.
pub open spec fn run_val(data: Seq<u8>, pos: int) -> nat {
    digits_val(data.subrange(pos, digit_run_end(data, pos)))
}

/// Parses one record. Yields the tick and the position just after the
/// closing brace.
pub open spec fn sp_record(data: Seq<u8>, pos: int) -> Option<(TickModel, int)> {
    if !match_lit(data, pos, lit_head()) {
        None
    } else {
        match sp_string(data, pos + lit_head().len()) {
            None => None,
            Some((sym, p1)) => if !match_lit(data, p1, lit_price()) {
                None
            } else {
                let p2 = p1 + lit_price().len();
                let e2 = digit_run_end(data, p2);
                if e2 == p2 || run_val(data, p2) > u64::MAX {
                    None
                } else if !match_lit(data, e2, lit_volume()) {
                    None
                } else {
                    let p3 = e2 + lit_volume().len();
                    let e3 = digit_run_end(data, p3);
                    if e3 == p3 || run_val(data, p3) > u64::MAX {
                        None
                    } else if !match_lit(data, e3, lit_timestamp()) {
                        None
                    } else {
                        let p4 = e3 + lit_timestamp().len();
                        let e4 = digit_run_end(data, p4);
                        if e4 == p4 || run_val(data, p4) > u128::MAX {
                            None
                        } else if e4 < data.len() && data[e4] == 0x7d {
                            Some(
                                (
                                    TickModel {
                                        symbol: sym,
                                        price_units: run_val(data, p2) as u64,
                                        volume: run_val(data, p3) as u64,
                                        timestamp_nanos: run_val(data, p4) as u128,
                                    },
                                    e4 + 1,
                                ),
                            )
                        } else {
                            None
                        }
                    }
                }
            },
        }
    }
}

/// Parses one log line: a record and its newline.
pub open spec fn sp_line(data: Seq<u8>, pos: int) -> Option<(TickModel, int)> {
    match sp_record(data, pos) {
        Some((t, end)) => if end < data.len() && data[end] == NEWLINE {
            Some((t, end + 1))
        } else {
            None
        },
        None => None,
    }
}

/// Parses a whole log from `pos` to the end of `data`.
pub open spec fn sp_log(data: Seq<u8>, pos: int) -> Option<Seq<TickModel>>
    decreases data.len() - pos when 0 <= pos <= data.len()
{
    if pos == data.len() {
        Some(Seq::<TickModel>::empty())
    } else {
        match sp_line(data, pos) {
            Some((t, end)) => if pos < end <= data.len() {
                match sp_log(data, end) {
                    Some(rest) => Some(seq![t] + rest),
                    None => None,
                }
            } else {
                None
            },
            None => None,
        }
    }
}

// ---------------------------------------------------------------------------
// Exec encoder
// ---------------------------------------------------------------------------
fn push_lit_head(out: &mut Vec<u8>)
    ensures
        final(out)@ == old(out)@ + lit_head(),
{
    out.push(0x7b);
    out.push(0x22);
    out.push(0x73);
    out.push(0x79);
    out.push(0x6d);
    out.push(0x62);
    out.push(0x6f);
    out.push(0x6c);
    out.push(0x22);
    out.push(0x3a);
    out.push(0x22);
    proof {
        assert(out@ =~= old(out)@ + lit_head());
    }
}

fn push_lit_price(out: &mut Vec<u8>)
    ensures
        final(out)@ == old(out)@ + lit_price(),
{
    out.push(0x2c);
    out.push(0x22);
    out.push(0x70);
    out.push(0x72);
    out.push(0x69);
    out.push(0x63);
    out.push(0x65);
    out.push(0x5f);
    out.push(0x75);
    out.push(0x6e);
    out.push(0x69);
    out.push(0x74);
    out.push(0x73);
    out.push(0x22);
    out.push(0x3a);
    proof {
        assert(out@ =~= old(out)@ + lit_price());
    }
}

fn push_lit_volume(out: &mut Vec<u8>)
    ensures
        final(out)@ == old(out)@ + lit_volume(),
{
    out.push(0x2c);
    out.push(0x22);
    out.push(0x76);
    out.push(0x6f);
    out.push(0x6c);
    out.push(0x75);
    out.push(0x6d);
    out.push(0x65);
    out.push(0x22);
    out.push(0x3a);
    proof {
        assert(out@ =~= old(out)@ + lit_volume());
    }
}

fn push_lit_timestamp(out: &mut Vec<u8>)
    ensures
        final(out)@ == old(out)@ + lit_timestamp(),
{
    out.push(0x2c);
    out.push(0x22);
    out.push(0x74);
    out.push(0x69);
    out.push(0x6d);
    out.push(0x65);
    out.push(0x73);
    out.push(0x74);
    out.push(0x61);
    out.push(0x6d);
    out.push(0x70);
    out.push(0x5f);
    out.push(0x6e);
    out.push(0x61);
    out.push(0x6e);
    out.push(0x6f);
    out.push(0x73);
    out.push(0x22);
    out.push(0x3a);
    proof {
        assert(out@ =~= old(out)@ + lit_timestamp());
    }
}

/// Appends the canonical decimal digits of `n`.
fn push_dec(out: &mut Vec<u8>, n: u128)
    ensures
        final(out)@ == old(out)@ + dec_digits(n as nat),
    decreases n,
{
    if n < 10 {
        out.push(0x30 + n as u8);
        proof {
            assert(out@ =~= old(out)@ + dec_digits(n as nat));
        }
    } else {
        push_dec(out, n / 10);
        out.push(0x30 + (n % 10) as u8);
        proof {
            assert(out@ =~= old(out)@ + dec_digits(n as nat));
        }
    }
}

/// Appends the escaped form of one symbol byte.
fn push_esc_byte(out: &mut Vec<u8>, b: u8)
    ensures
        final(out)@ == old(out)@ + esc_byte(b),
{
    if b == QUOTE {
        out.push(BACKSLASH);
        out.push(QUOTE);
    } else if b == BACKSLASH {
        out.push(BACKSLASH);
        out.push(BACKSLASH);
    } else if 0x20 <= b && b <= 0x7e {
        out.push(b);
    } else {
        out.push(BACKSLASH);
        out.push(0x75);
        out.push(0x30);
        out.push(0x30);
        let hi = b / 16;
        let lo = b % 16;
        out.push(if hi < 10 { 0x30 + hi } else { 0x61 + (hi - 10) });
        out.push(if lo < 10 { 0x30 + lo } else { 0x61 + (lo - 10) });
    }
    proof {
        assert(out@ =~= old(out)@ + esc_byte(b));
    }
}

proof fn lemma_esc_bytes_concat(a: Seq<u8>, b: Seq<u8>)
    ensures
        esc_bytes(a + b) == esc_bytes(a) + esc_bytes(b),
    decreases a.len(),
{
    if a.len() == 0 {
        assert(a + b =~= b);
        assert(esc_bytes(a) + esc_bytes(b) =~= esc_bytes(b));
    } else {
        assert((a + b).drop_first() =~= a.drop_first() + b);
        lemma_esc_bytes_concat(a.drop_first(), b);
        assert(esc_byte(a[0]) + (esc_bytes(a.drop_first()) + esc_bytes(b)) =~= (esc_byte(a[0])
            + esc_bytes(a.drop_first())) + esc_bytes(b));
    }
}

proof fn lemma_esc_bytes_take_snoc(s: Seq<u8>, i: int)
    requires
        0 <= i < s.len(),
    ensures
        esc_bytes(s.take(i + 1)) == esc_bytes(s.take(i)) + esc_byte(s[i]),
{
    assert(s.take(i + 1) =~= s.take(i) + seq![s[i]]);
    lemma_esc_bytes_concat(s.take(i), seq![s[i]]);
    assert(seq![s[i]].drop_first() =~= Seq::<u8>::empty());
    assert(esc_bytes(seq![s[i]]) =~= esc_byte(s[i]) + esc_bytes(Seq::<u8>::empty()));
    assert(esc_byte(s[i]) + esc_bytes(Seq::<u8>::empty()) =~= esc_byte(s[i]));
}

/// Appends the escaped form of a whole symbol.
fn push_esc_bytes(out: &mut Vec<u8>, s: &Vec<u8>)
    ensures
        final(out)@ == old(out)@ + esc_bytes(s@),
{
    let mut i: usize = 0;
    while i < s.len()
        invariant
            i <= s.len(),
            out@ == old(out)@ + esc_bytes(s@.take(i as int)),
        decreases s.len() - i,
    {
        push_esc_byte(out, s[i]);
        proof {
            lemma_esc_bytes_take_snoc(s@, i as int);
        }
        i += 1;
    }
    proof {
        assert(s@.take(s@.len() as int) =~= s@);
    }
}

/// Serializes one tick as a record, without a newline: the wire form.
pub fn encode_record_bytes(t: &MarketTick) -> (out: Vec<u8>)
    ensures
        out@ == encode_record(t@),
{
    let mut out: Vec<u8> = Vec::new();
    push_lit_head(&mut out);
    push_esc_bytes(&mut out, &t.symbol);
    out.push(QUOTE);
    push_lit_price(&mut out);
    push_dec(&mut out, t.price_units as u128);
    push_lit_volume(&mut out);
    push_dec(&mut out, t.volume as u128);
    push_lit_timestamp(&mut out);
    push_dec(&mut out, t.timestamp_nanos);
    out.push(0x7d);
    proof {
        assert(out@ =~= encode_record(t@));
    }
    out
}

/// Appends one log line for `t`: its record and a newline.
pub fn append_line_bytes(out: &mut Vec<u8>, t: &MarketTick)
    ensures
        final(out)@ == old(out)@ + encode_line(t@),
{
    let mut rec = encode_record_bytes(t);
    rec.push(NEWLINE);
    let mut i: usize = 0;
    while i < rec.len()
        invariant
            i <= rec.len(),
            rec@ == encode_record(t@) + seq![NEWLINE],
            out@ == old(out)@ + rec@.take(i as int),
        decreases rec.len() - i,
    {
        out.push(rec[i]);
        proof {
            assert(rec@.take(i + 1) =~= rec@.take(i as int) + seq![rec@[i as int]]);
        }
        i += 1;
    }
    proof {
        assert(rec@.take(rec@.len() as int) =~= rec@);
        assert(out@ =~= old(out)@ + encode_line(t@));
    }
}

// ---------------------------------------------------------------------------
// Exec parser
// ---------------------------------------------------------------------------
/// Exec copies of the field-name literals, for the parser to compare
/// against.
fn lit_head_vec() -> (v: Vec<u8>)
    ensures
        v@ == lit_head(),
{
    let mut v: Vec<u8> = Vec::new();
    push_lit_head(&mut v);
    v
}

fn lit_price_vec() -> (v: Vec<u8>)
    ensures
        v@ == lit_price(),
{
    let mut v: Vec<u8> = Vec::new();
    push_lit_price(&mut v);
    v
}

fn lit_volume_vec() -> (v: Vec<u8>)
    ensures
        v@ == lit_volume(),
{
    let mut v: Vec<u8> = Vec::new();
    push_lit_volume(&mut v);
    v
}

fn lit_timestamp_vec() -> (v: Vec<u8>)
    ensures
        v@ == lit_timestamp(),
{
    let mut v: Vec<u8> = Vec::new();
    push_lit_timestamp(&mut v);
    v
}

/// Whether `lit` appears verbatim in `data` at `pos`.
fn bytes_at(data: &Vec<u8>, pos: usize, lit: &Vec<u8>) -> (b: bool)
    requires
        pos <= data@.len(),
    ensures
        b == match_lit(data@, pos as int, lit@),
{
    if data.len() - pos < lit.len() {
        return false;
    }
    let ghost n = data@.len();
    let mut i: usize = 0;
    while i < lit.len()
        invariant
            pos + lit@.len() <= data@.len(),
            data@.len() <= usize::MAX,
            i <= lit@.len(),
            forall|k: int| 0 <= k < i ==> data@[pos + k] == lit@[k],
        decreases lit@.len() - i,
    {
        if data[pos + i] != lit[i] {
            proof {
                if match_lit(data@, pos as int, lit@) {
                    assert(data@.subrange(pos as int, pos + lit@.len())[i as int] == data@[pos
                        + i]);
                }
            }
            return false;
        }
        i += 1;
    }
    proof {
        assert(data@.subrange(pos as int, pos + lit@.len()) =~= lit@);
    }
    true
}

/// End of the digit run starting at `pos`.
fn scan_digit_end(data: &Vec<u8>, pos: usize) -> (end: usize)
    requires
        pos <= data@.len(),
    ensures
        end as int == digit_run_end(data@, pos as int),
        pos <= end <= data@.len(),
    decreases data@.len() - pos,
{
    if pos < data.len() {
        let b = data[pos];
        if 0x30 <= b && b <= 0x39 {
            return scan_digit_end(data, pos + 1);
        }
    }
    pos
}

/// Positions strictly inside a digit run hold digits.
proof fn lemma_run_digits(data: Seq<u8>, pos: int, k: int)
    requires
        0 <= pos <= data.len(),
        pos <= k < digit_run_end(data, pos),
    ensures
        is_digit(data[k]),
    decreases data.len() - pos,
{
    if pos < data.len() && is_digit(data[pos]) {
        if k > pos {
            lemma_run_digits(data, pos + 1, k);
        }
    }
}

/// Reads the digit run at `pos` as a number, detecting values too large
/// for `u128`.
fn parse_num(data: &Vec<u8>, pos: usize) -> (r: Option<(u128, usize)>)
    requires
        pos <= data@.len(),
    ensures
        match r {
            Some((n, end)) => end as int == digit_run_end(data@, pos as int) && pos < end
                && end <= data@.len() && n as nat == run_val(data@, pos as int),
            None => digit_run_end(data@, pos as int) == pos as int || run_val(
                data@,
                pos as int,
            ) > u128::MAX,
        },
{
    let end = scan_digit_end(data, pos);
    if end == pos {
        return None;
    }
    let max10: u128 = u128::MAX / 10;
    let maxr: u128 = u128::MAX % 10;
    proof {
        vstd::arithmetic::div_mod::lemma_fundamental_div_mod(u128::MAX as int, 10);
    }
    let mut acc: u128 = 0;
    let mut over = false;
    let mut i = pos;
    while i < end
        invariant
            pos <= i <= end,
            end as int == digit_run_end(data@, pos as int),
            end <= data@.len(),
            max10 == u128::MAX / 10,
            maxr == u128::MAX % 10,
            u128::MAX == max10 * 10 + maxr,
            !over ==> acc as nat == digits_val(data@.subrange(pos as int, i as int)),
            over ==> digits_val(data@.subrange(pos as int, i as int)) > u128::MAX,
        decreases end - i,
    {
        proof {
            lemma_run_digits(data@, pos as int, i as int);
        }
        let b = data[i];
        let d: u128 = (b - 0x30) as u128;
        let ghost prev = data@.subrange(pos as int, i as int);
        proof {
            assert(data@.subrange(pos as int, i + 1).drop_last() =~= prev);
            assert(data@.subrange(pos as int, i + 1).last() == data@[i as int]);
            assert(digits_val(data@.subrange(pos as int, i + 1)) == digits_val(prev) * 10 + (
            d as nat));
        }
        if !over {
            if acc > max10 || (acc == max10 && d > maxr) {
                over = true;
                proof {
                    if acc > max10 {
                        assert(acc * 10 + d > u128::MAX) by (nonlinear_arith)
                            requires
                                acc > max10,
                                u128::MAX == max10 * 10 + maxr,
                                maxr < 10,
                                d >= 0,
                        ;
                    }
                }
            } else {
                proof {
                    assert(acc * 10 + d <= u128::MAX) by (nonlinear_arith)
                        requires
                            acc <= max10,
                            acc == max10 ==> d <= maxr,
                            u128::MAX == max10 * 10 + maxr,
                            d <= 9,
                    ;
                }
                acc = acc * 10 + d;
            }
        } else {
            proof {
                assert(digits_val(prev) * 10 + d as nat > u128::MAX) by (nonlinear_arith)
                    requires
                        digits_val(prev) > u128::MAX,
                        d >= 0,
                ;
            }
        }
        i += 1;
    }
    proof {
        assert(data@.subrange(pos as int, end as int) =~= data@.subrange(
            pos as int,
            digit_run_end(data@, pos as int),
        ));
    }
    if over {
        None
    } else {
        Some((acc, end))
    }
}

/// Relates the parse of a string suffix to the parse of the whole string:
/// whatever remains to be read at `cur`, prefixed with what has already
/// been unescaped, gives the parse at `pos`.
pub open spec fn string_cont(data: Seq<u8>, pos: int, acc: Seq<u8>, cur: int) -> bool {
    match sp_string(data, cur) {
        Some((s, e)) => sp_string(data, pos) == Some::<(Seq<u8>, int)>((acc + s, e)),
        None => sp_string(data, pos) is None,
    }
}

fn hex_val_exec(b: u8) -> (v: u8)
    requires
        is_hex(b),
    ensures
        v as nat == hex_val(b),
        v < 16,
{
    if b <= 0x39 {
        b - 0x30
    } else {
        b - 0x61 + 10
    }
}

/// Reads a quoted-string body (the opening quote already consumed) through
/// its closing quote, unescaping as it goes.
fn parse_string(data: &Vec<u8>, pos: usize) -> (r: Option<(Vec<u8>, usize)>)
    requires
        pos <= data@.len(),
    ensures
        match r {
            Some((s, end)) => sp_string(data@, pos as int) == Some::<(Seq<u8>, int)>(
                (s@, end as int),
            ) && pos < end <= data@.len(),
            None => sp_string(data@, pos as int) is None,
        },
{
    let mut out: Vec<u8> = Vec::new();
    let mut cur = pos;
    loop
        invariant
            pos <= cur <= data@.len(),
            string_cont(data@, pos as int, out@, cur as int),
        decreases data@.len() - cur,
    {
        if cur >= data.len() {
            return None;
        }
        let b = data[cur];
        if b == QUOTE {
            proof {
                assert(out@ + Seq::<u8>::empty() =~= out@);
            }
            return Some((out, cur + 1));
        } else if b == BACKSLASH {
            if cur + 1 >= data.len() {
                return None;
            }
            let e = data[cur + 1];
            if e == QUOTE || e == BACKSLASH {
                let ghost prev_out = out@;
                let ghost prev_cur = cur as int;
                out.push(e);
                cur = cur + 2;
                proof {
                    assert(out@ =~= prev_out + seq![e]);
                    lemma_string_step(data@, pos as int, prev_out, prev_cur, seq![e], cur as int);
                }
            } else if e == 0x75 {
                if data.len() - cur < 6 {
                    return None;
                }
                if data[cur + 2] != 0x30 || data[cur + 3] != 0x30 {
                    return None;
                }
                let c4 = data[cur + 4];
                let c5 = data[cur + 5];
                let hex4 = (0x30 <= c4 && c4 <= 0x39) || (0x61 <= c4 && c4 <= 0x66);
                let hex5 = (0x30 <= c5 && c5 <= 0x39) || (0x61 <= c5 && c5 <= 0x66);
                if !hex4 || !hex5 {
                    return None;
                }
                let v = hex_val_exec(c4) * 16 + hex_val_exec(c5);
                let ghost prev_out = out@;
                let ghost prev_cur = cur as int;
                out.push(v);
                cur = cur + 6;
                proof {
                    assert(out@ =~= prev_out + seq![v]);
                    assert(v as nat == hex_val(data@[prev_cur + 4]) * 16 + hex_val(
                        data@[prev_cur + 5],
                    ));
                    lemma_string_step(data@, pos as int, prev_out, prev_cur, seq![v], cur as int);
                }
            } else {
                return None;
            }
        } else if 0x20 <= b && b <= 0x7e {
            let ghost prev_out = out@;
            let ghost prev_cur = cur as int;
            out.push(b);
            cur = cur + 1;
            proof {
                assert(out@ =~= prev_out + seq![b]);
                assert(is_plain(b));
                lemma_string_step(data@, pos as int, prev_out, prev_cur, seq![b], cur as int);
            }
        } else {
            return None;
        }
    }
}

/// One unescaping step keeps `string_cont`: if the parse at `prev_cur`
/// yields `unit` followed by the parse at `new_cur`, the accumulator grows
/// by `unit`.
proof fn lemma_string_step(
    data: Seq<u8>,
    pos: int,
    prev_out: Seq<u8>,
    prev_cur: int,
    unit: Seq<u8>,
    new_cur: int,
)
    requires
        string_cont(data, pos, prev_out, prev_cur),
        (match sp_string(data, new_cur) {
            Some((s, e)) => sp_string(data, prev_cur) == Some::<(Seq<u8>, int)>((unit + s, e)),
            None => sp_string(data, prev_cur) is None,
        }),
    ensures
        string_cont(data, pos, prev_out + unit, new_cur),
{
    match sp_string(data, new_cur) {
        Some((s, e)) => {
            assert(sp_string(data, prev_cur) == Some::<(Seq<u8>, int)>((unit + s, e)));
            assert(sp_string(data, pos) == Some::<(Seq<u8>, int)>((prev_out + (unit + s), e)));
            assert(prev_out + (unit + s) =~= (prev_out + unit) + s);
        },
        None => {
        },
    }
}

/// Parses one record at `pos`, yielding the tick and the position just
/// after the closing brace.
pub fn parse_record(data: &Vec<u8>, pos: usize) -> (r: Option<(MarketTick, usize)>)
    requires
        pos <= data@.len(),
    ensures
        (match r {
            Some((t, end)) => sp_record(data@, pos as int) == Some::<(TickModel, int)>(
                (t@, end as int),
            ) && pos + 2 < end <= data@.len(),
            None => sp_record(data@, pos as int) is None,
        }),
{
    // Reading the length once registers that every offset below fits a
    // usize.
    let _dlen = data.len();
    let lh = lit_head_vec();
    if !bytes_at(data, pos, &lh) {
        return None;
    }
    let (sym, p1) = match parse_string(data, pos + 11) {
        Some(x) => x,
        None => {
            return None;
        },
    };
    let lp = lit_price_vec();
    if !bytes_at(data, p1, &lp) {
        return None;
    }
    let p2 = p1 + 15;
    let (price, e2) = match parse_num(data, p2) {
        Some(x) => x,
        None => {
            return None;
        },
    };
    if price > u64::MAX as u128 {
        return None;
    }
    let lv = lit_volume_vec();
    if !bytes_at(data, e2, &lv) {
        return None;
    }
    let p3 = e2 + 10;
    let (volume, e3) = match parse_num(data, p3) {
        Some(x) => x,
        None => {
            return None;
        },
    };
    if volume > u64::MAX as u128 {
        return None;
    }
    let lt = lit_timestamp_vec();
    if !bytes_at(data, e3, &lt) {
        return None;
    }
    let p4 = e3 + 19;
    let (ts, e4) = match parse_num(data, p4) {
        Some(x) => x,
        None => {
            return None;
        },
    };
    if e4 < data.len() {
        let b = data[e4];
        if b == 0x7d {
            let t = MarketTick {
                symbol: sym,
                price_units: price as u64,
                volume: volume as u64,
                timestamp_nanos: ts,
            };
            return Some((t, e4 + 1));
        }
    }
    None
}

/// Parses one log line: a record and its newline.
pub fn parse_line(data: &Vec<u8>, pos: usize) -> (r: Option<(MarketTick, usize)>)
    requires
        pos <= data@.len(),
    ensures
        (match r {
            Some((t, end)) => sp_line(data@, pos as int) == Some::<(TickModel, int)>(
                (t@, end as int),
            ) && pos + 2 < end <= data@.len(),
            None => sp_line(data@, pos as int) is None,
        }),
{
    match parse_record(data, pos) {
        Some((t, end)) => {
            if end < data.len() {
                let b = data[end];
                if b == NEWLINE {
                    return Some((t, end + 1));
                }
            }
            None
        },
        None => None,
    }
}

/// Whether `data` is exactly one record, nothing before or after.
pub open spec fn wire_ok(data: Seq<u8>) -> bool {
    match sp_record(data, 0) {
        Some((t, end)) => end == data.len(),
        None => false,
    }
}

/// The tick a well-formed wire packet carries.
pub open spec fn wire_tick(data: Seq<u8>) -> TickModel {
    match sp_record(data, 0) {
        Some((t, end)) => t,
        None => arbitrary(),
    }
}

/// Decodes one wire packet holding exactly one tick record. A malformed
/// packet is an error for the caller to drop or report, never a panic.
pub fn decode_record_bytes(data: &Vec<u8>) -> (r: Result<MarketTick, HftError>)
    ensures
        r is Ok <==> wire_ok(data@),
        (match r {
            Ok(t) => t@ == wire_tick(data@),
            Err(e) => e == HftError::SerializationError,
        }),
{
    match parse_record(data, 0) {
        Some((t, end)) => if end == data.len() {
            Ok(t)
        } else {
            Err(HftError::SerializationError)
        },
        None => Err(HftError::SerializationError),
    }
}

// ---------------------------------------------------------------------------
// Round trip: parsing what the encoder wrote gives back the tick
// ---------------------------------------------------------------------------
proof fn lemma_dec_digits_digits(n: nat)
    ensures
        dec_digits(n).len() >= 1,
        forall|k: int| 0 <= k < dec_digits(n).len() ==> is_digit(#[trigger] dec_digits(n)[k]),
    decreases n,
{
    if n < 10 {
    } else {
        lemma_dec_digits_digits(n / 10);
    }
}

proof fn lemma_dec_digits_val(n: nat)
    ensures
        digits_val(dec_digits(n)) == n,
    decreases n,
{
    if n < 10 {
        assert(dec_digits(n).drop_last() =~= Seq::<u8>::empty());
        assert(dec_digits(n).last() == (0x30 + n) as u8);
        assert(digits_val(dec_digits(n)) == digits_val(Seq::<u8>::empty()) * 10 + n);
    } else {
        lemma_dec_digits_val(n / 10);
        assert(dec_digits(n).drop_last() =~= dec_digits(n / 10));
        assert(dec_digits(n).last() == (0x30 + n % 10) as u8);
        assert(digits_val(dec_digits(n)) == (n / 10) * 10 + n % 10);
        vstd::arithmetic::div_mod::lemma_fundamental_div_mod(n as int, 10);
    }
}

proof fn lemma_run_from(data: Seq<u8>, pos: int, j: int)
    requires
        0 <= pos <= j <= data.len(),
        forall|k: int| pos <= k < j ==> is_digit(data[k]),
        j == data.len() || !is_digit(data[j]),
    ensures
        digit_run_end(data, pos) == j,
    decreases j - pos,
{
    if pos < j {
        assert(is_digit(data[pos]));
        lemma_run_from(data, pos + 1, j);
    }
}

/// A number written at `pos`, followed by a non-digit, parses to itself.
proof fn lemma_num_at(data: Seq<u8>, pos: int, n: nat)
    requires
        0 <= pos,
        pos + dec_digits(n).len() <= data.len(),
        data.subrange(pos, pos + dec_digits(n).len()) == dec_digits(n),
        pos + dec_digits(n).len() == data.len() || !is_digit(data[pos + dec_digits(n).len()]),
    ensures
        digit_run_end(data, pos) == pos + dec_digits(n).len(),
        run_val(data, pos) == n,
{
    lemma_dec_digits_digits(n);
    let j = pos + dec_digits(n).len();
    assert forall|k: int| pos <= k < j implies is_digit(data[k]) by {
        assert(data.subrange(pos, j)[k - pos] == data[k]);
    };
    lemma_run_from(data, pos, j);
    lemma_dec_digits_val(n);
}

proof fn lemma_hex_digit_val(n: nat)
    requires
        n < 16,
    ensures
        is_hex(hex_digit(n)),
        hex_val(hex_digit(n)) == n,
{
}

/// An escaped string written at `pos`, followed by its closing quote,
/// parses back to the original bytes.
proof fn lemma_string_at(data: Seq<u8>, pos: int, s: Seq<u8>)
    requires
        0 <= pos,
        pos + esc_bytes(s).len() + 1 <= data.len(),
        data.subrange(pos, pos + esc_bytes(s).len()) == esc_bytes(s),
        data[pos + esc_bytes(s).len()] == QUOTE,
    ensures
        sp_string(data, pos) == Some::<(Seq<u8>, int)>((s, pos + esc_bytes(s).len() + 1)),
    decreases s.len(),
{
    if s.len() == 0 {
        assert(s =~= Seq::<u8>::empty());
    } else {
        let b = s[0];
        let u = esc_byte(b);
        let rest = s.drop_first();
        let ulen = u.len() as int;
        let elen = esc_bytes(s).len() as int;
        assert(esc_bytes(s) == u + esc_bytes(rest));
        assert forall|k: int| 0 <= k < elen implies data[pos + k] == esc_bytes(s)[k] by {
            assert(data.subrange(pos, pos + elen)[k] == data[pos + k]);
        };
        assert(data.subrange(pos + ulen, pos + ulen + esc_bytes(rest).len()) =~= esc_bytes(
            rest,
        )) by {
            assert forall|k: int|
                0 <= k < esc_bytes(rest).len() implies data.subrange(
                pos + ulen,
                pos + ulen + esc_bytes(rest).len(),
            )[k] == esc_bytes(rest)[k] by {
                assert(data[pos + ulen + k] == esc_bytes(s)[ulen + k]);
                assert(esc_bytes(s)[ulen + k] == esc_bytes(rest)[k]);
            };
        };
        lemma_string_at(data, pos + ulen, rest);
        assert(seq![b] + rest =~= s);
        if b == QUOTE {
            assert(data.subrange(pos, pos + elen)[0] == data[pos]);
            assert(data.subrange(pos, pos + elen)[1] == data[pos + 1]);
            assert(data[pos] == BACKSLASH);
            assert(data[pos + 1] == QUOTE);
        } else if b == BACKSLASH {
            assert(data.subrange(pos, pos + elen)[0] == data[pos]);
            assert(data.subrange(pos, pos + elen)[1] == data[pos + 1]);
            assert(data[pos] == BACKSLASH);
            assert(data[pos + 1] == BACKSLASH);
        } else if is_plain(b) {
            assert(data.subrange(pos, pos + elen)[0] == data[pos]);
            assert(data[pos] == b);
        } else {
            assert(data.subrange(pos, pos + elen)[0] == data[pos]);
            assert(data.subrange(pos, pos + elen)[1] == data[pos + 1]);
            assert(data.subrange(pos, pos + elen)[2] == data[pos + 2]);
            assert(data.subrange(pos, pos + elen)[3] == data[pos + 3]);
            assert(data.subrange(pos, pos + elen)[4] == data[pos + 4]);
            assert(data.subrange(pos, pos + elen)[5] == data[pos + 5]);
            assert(data[pos] == BACKSLASH);
            assert(data[pos + 1] == 0x75);
            assert(data[pos + 2] == 0x30);
            assert(data[pos + 3] == 0x30);
            assert(data[pos + 4] == hex_digit((b / 16) as nat));
            assert(data[pos + 5] == hex_digit((b % 16) as nat));
            lemma_hex_digit_val((b / 16) as nat);
            lemma_hex_digit_val((b % 16) as nat);
            vstd::arithmetic::div_mod::lemma_fundamental_div_mod(b as int, 16);
            assert(hex_val(data[pos + 4]) * 16 + hex_val(data[pos + 5]) == b as nat);
        }
    }
}

/// A record written at `pos` parses back to the tick it encodes.
#[verifier::rlimit(60)]
proof fn lemma_record_at(data: Seq<u8>, pos: int, t: TickModel)
    requires
        0 <= pos,
        pos + encode_record(t).len() <= data.len(),
        data.subrange(pos, pos + encode_record(t).len()) == encode_record(t),
    ensures
        sp_record(data, pos) == Some::<(TickModel, int)>((t, pos + encode_record(t).len())),
{
    let enc = encode_record(t);
    let esym = esc_bytes(t.symbol);
    let dp = dec_digits(t.price_units as nat);
    let dv = dec_digits(t.volume as nat);
    let dt = dec_digits(t.timestamp_nanos as nat);
    let elen = enc.len() as int;
    let o1 = pos + 11;
    let o2 = o1 + esym.len();
    let o3 = o2 + 1;
    let o4 = o3 + 15;
    let o5 = o4 + dp.len();
    let o6 = o5 + 10;
    let o7 = o6 + dv.len();
    let o8 = o7 + 19;
    let o9 = o8 + dt.len();
    assert(elen == 11 + esym.len() + 1 + 15 + dp.len() + 10 + dv.len() + 19 + dt.len() + 1);
    assert forall|k: int| 0 <= k < elen implies data[pos + k] == enc[k] by {
        assert(data.subrange(pos, pos + elen)[k] == data[pos + k]);
    };
    assert(data.subrange(pos, o1) =~= lit_head()) by {
        assert forall|k: int| 0 <= k < 11 implies data.subrange(pos, o1)[k] == lit_head()[k] by {
            assert(data[pos + k] == enc[k]);
        };
    };
    assert(data.subrange(o1, o2) =~= esym) by {
        assert forall|k: int| 0 <= k < esym.len() implies data.subrange(o1, o2)[k] == esym[k] by {
            assert(data[o1 + k] == enc[11 + k]);
        };
    };
    assert(data[o2] == QUOTE) by {
        assert(data[pos + (o2 - pos)] == enc[o2 - pos]);
    };
    lemma_string_at(data, o1, t.symbol);
    assert(data.subrange(o3, o4) =~= lit_price()) by {
        assert forall|k: int| 0 <= k < 15 implies data.subrange(o3, o4)[k] == lit_price()[k] by {
            assert(data[pos + (o3 - pos + k)] == enc[o3 - pos + k]);
        };
    };
    assert(data.subrange(o4, o5) =~= dp) by {
        assert forall|k: int| 0 <= k < dp.len() implies data.subrange(o4, o5)[k] == dp[k] by {
            assert(data[pos + (o4 - pos + k)] == enc[o4 - pos + k]);
        };
    };
    assert(data[o5] == 0x2c) by {
        assert(data[pos + (o5 - pos)] == enc[o5 - pos]);
    };
    lemma_num_at(data, o4, t.price_units as nat);
    assert(data.subrange(o5, o6) =~= lit_volume()) by {
        assert forall|k: int| 0 <= k < 10 implies data.subrange(o5, o6)[k] == lit_volume()[k] by {
            assert(data[pos + (o5 - pos + k)] == enc[o5 - pos + k]);
        };
    };
    assert(data.subrange(o6, o7) =~= dv) by {
        assert forall|k: int| 0 <= k < dv.len() implies data.subrange(o6, o7)[k] == dv[k] by {
            assert(data[pos + (o6 - pos + k)] == enc[o6 - pos + k]);
        };
    };
    assert(data[o7] == 0x2c) by {
        assert(data[pos + (o7 - pos)] == enc[o7 - pos]);
    };
    lemma_num_at(data, o6, t.volume as nat);
    assert(data.subrange(o7, o8) =~= lit_timestamp()) by {
        assert forall|k: int|
            0 <= k < 19 implies data.subrange(o7, o8)[k] == lit_timestamp()[k] by {
            assert(data[pos + (o7 - pos + k)] == enc[o7 - pos + k]);
        };
    };
    assert(data.subrange(o8, o9) =~= dt) by {
        assert forall|k: int| 0 <= k < dt.len() implies data.subrange(o8, o9)[k] == dt[k] by {
            assert(data[pos + (o8 - pos + k)] == enc[o8 - pos + k]);
        };
    };
    assert(data[o9] == 0x7d) by {
        assert(data[pos + (o9 - pos)] == enc[o9 - pos]);
    };
    lemma_num_at(data, o8, t.timestamp_nanos as nat);
}

/// A log line written at `pos` parses back to its tick.
proof fn lemma_line_at(data: Seq<u8>, pos: int, t: TickModel)
    requires
        0 <= pos,
        pos + encode_line(t).len() <= data.len(),
        data.subrange(pos, pos + encode_line(t).len()) == encode_line(t),
    ensures
        sp_line(data, pos) == Some::<(TickModel, int)>((t, pos + encode_line(t).len())),
{
    let rl = encode_record(t).len() as int;
    let ll = encode_line(t).len() as int;
    assert forall|k: int| 0 <= k < ll implies data[pos + k] == encode_line(t)[k] by {
        assert(data.subrange(pos, pos + ll)[k] == data[pos + k]);
    };
    assert(data.subrange(pos, pos + rl) =~= encode_record(t)) by {
        assert forall|k: int|
            0 <= k < rl implies data.subrange(pos, pos + rl)[k] == encode_record(t)[k] by {
            assert(data[pos + k] == encode_line(t)[k]);
        };
    };
    lemma_record_at(data, pos, t);
    assert(data.subrange(pos, pos + ll)[rl] == data[pos + rl]);
    assert(data[pos + rl] == NEWLINE);
}

/// The whole remainder of `data` from `pos` on is the log of `ts`: then it
/// parses back to exactly `ts`.
#[verifier::rlimit(60)]
proof fn lemma_log_at(data: Seq<u8>, pos: int, ts: Seq<TickModel>)
    requires
        0 <= pos <= data.len(),
        data.subrange(pos, data.len() as int) == log_of(ts),
    ensures
        sp_log(data, pos) == Some(ts),
    decreases ts.len(),
{
    if ts.len() == 0 {
        assert(data.len() - pos == log_of(ts).len());
    } else {
        let t0 = ts[0];
        let rest = ts.drop_first();
        let ll = encode_line(t0).len() as int;
        let tail = data.len() as int;
        assert(log_of(ts) == encode_line(t0) + log_of(rest));
        assert forall|k: int| 0 <= k < tail - pos implies data[pos + k] == log_of(ts)[k] by {
            assert(data.subrange(pos, tail)[k] == data[pos + k]);
        };
        assert(data.subrange(pos, pos + ll) =~= encode_line(t0)) by {
            assert forall|k: int|
                0 <= k < ll implies data.subrange(pos, pos + ll)[k] == encode_line(t0)[k] by {
                assert(data[pos + k] == log_of(ts)[k]);
            };
        };
        lemma_line_at(data, pos, t0);
        assert(data.subrange(pos + ll, tail) =~= log_of(rest)) by {
            assert forall|k: int|
                0 <= k < tail - pos - ll implies data.subrange(pos + ll, tail)[k] == log_of(
                rest,
            )[k] by {
                assert(data[pos + (ll + k)] == log_of(ts)[ll + k]);
            };
        };
        lemma_log_at(data, pos + ll, rest);
        assert(seq![t0] + rest =~= ts);
    }
}

/// Round trip: a log recorded from the ticks `ts` replays as exactly `ts` —
/// the same ticks in the same order, field for field — and a further read
/// finds the end of the stream.
pub proof fn lemma_replay_round_trip(ts: Seq<TickModel>)
    ensures
        sp_log(log_of(ts), 0) == Some(ts),
{
    let data = log_of(ts);
    assert(data.subrange(0, data.len() as int) =~= data);
    lemma_log_at(data, 0, ts);
}

/// Round trip for one wire packet: a tick encoded as a record decodes to
/// itself.
pub proof fn lemma_record_round_trip(t: TickModel)
    ensures
        wire_ok(encode_record(t)),
        wire_tick(encode_record(t)) == t,
{
    let data = encode_record(t);
    assert(data.subrange(0, data.len() as int) =~= data);
    lemma_record_at(data, 0, t);
}

} // verus!
