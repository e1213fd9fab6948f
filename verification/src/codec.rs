//! The record codec: a self-delimiting textual encoding of store commands.
//!
//! A record starts with a one-byte tag (`S` for a set, `R` for a removal),
//! followed by the lengths of the variable parts as fixed-width decimal
//! numbers of 20 digits each, followed by the raw bytes of the key (and,
//! for a set, the value). Records concatenated with no separator can
//! therefore be decoded deterministically, and the decoder reports the byte
//! offset at which each record ends.

use vstd::prelude::*;
use vstd::arithmetic::div_mod::lemma_mod_breakdown;

verus! {

/// Tag byte of a set record: `b'S'`.
pub const TAG_SET: u8 = 83;
/// Tag byte of a remove record: `b'R'`.
pub const TAG_REMOVE: u8 = 82;
/// Width, in digits, of every encoded length field.
pub const LEN_WIDTH: usize = 20;

/// One store command, as persisted in a log segment.
#[derive(Debug, Clone, PartialEq, Eq)]
pub enum Command {
    /// Bind `key` to `value`.
    Put { key: Vec<u8>, value: Vec<u8> },
    /// Delete the binding of `key`.
    Rm { key: Vec<u8> },
}

/// The mathematical form of a [`Command`].
pub ghost enum CommandV {
    Put { key: Seq<u8>, value: Seq<u8> },
    Rm { key: Seq<u8> },
}

impl View for Command {
    type V = CommandV;

    open spec fn view(&self) -> CommandV {
        match self {
            Command::Put { key, value } => CommandV::Put { key: key@, value: value@ },
            Command::Rm { key } => CommandV::Rm { key: key@ },
        }
    }
}

impl Command {
    /// Build a set command.
    pub fn set(key: Vec<u8>, value: Vec<u8>) -> (c: Command)
        ensures
            c@ == (CommandV::Put { key: key@, value: value@ }),
    {
        Command::Put { key, value }
    }

    /// Build a remove command.
    pub fn remove(key: Vec<u8>) -> (c: Command)
        ensures
            c@ == (CommandV::Rm { key: key@ }),
    {
        Command::Rm { key }
    }

    /// The key the command speaks about.
    pub open spec fn spec_key(self) -> Seq<u8> {
        match self@ {
            CommandV::Put { key, .. } => key,
            CommandV::Rm { key } => key,
        }
    }
}

impl CommandV {
    /// The key the command speaks about.
    pub open spec fn key(self) -> Seq<u8> {
        match self {
            CommandV::Put { key, .. } => key,
            CommandV::Rm { key } => key,
        }
    }

    /// Whether both variable parts are short enough for their lengths to fit
    /// in a 20-digit decimal field. Every command built from in-memory
    /// vectors satisfies this.
    pub open spec fn encodable(self) -> bool {
        match self {
            CommandV::Put { key, value } => key.len() < pow10(LEN_WIDTH as nat) && value.len()
                < pow10(LEN_WIDTH as nat),
            CommandV::Rm { key } => key.len() < pow10(LEN_WIDTH as nat),
        }
    }
}

/// `10^w`.
pub open spec fn pow10(w: nat) -> nat
    decreases w,
{
    if w == 0 {
        1
    } else {
        10 * pow10((w - 1) as nat)
    }
}

/// The `w` low-order decimal digits of `n`, most significant first, as ASCII.
pub open spec fn dec_digits(n: nat, w: nat) -> Seq<u8>
    decreases w,
{
    if w == 0 {
        Seq::empty()
    } else {
        dec_digits(n / 10, (w - 1) as nat).push((n % 10 + 48) as u8)
    }
}

/// The number denoted by a sequence of ASCII digits, most significant first.
pub open spec fn digits_val(s: Seq<u8>) -> nat
    decreases s.len(),
{
    if s.len() == 0 {
        0
    } else {
        digits_val(s.drop_last()) * 10 + ((s.last() - 48) as nat)
    }
}

/// Whether every byte of `s` is an ASCII digit.
pub open spec fn is_digits(s: Seq<u8>) -> bool {
    forall|i: int| 0 <= i < s.len() ==> 48 <= #[trigger] s[i] <= 57
}

/// The byte encoding of a command.
pub open spec fn enc(c: CommandV) -> Seq<u8> {
    match c {
        CommandV::Put { key, value } => seq![TAG_SET] + dec_digits(key.len(), LEN_WIDTH as nat)
            + dec_digits(value.len(), LEN_WIDTH as nat) + key + value,
        CommandV::Rm { key } => seq![TAG_REMOVE] + dec_digits(key.len(), LEN_WIDTH as nat)
            + key,
    }
}

/// `10^w` is positive.
pub proof fn lemma_pow10_pos(w: nat)
    ensures
        pow10(w) >= 1,
    decreases w,
{
    if w > 0 {
        lemma_pow10_pos((w - 1) as nat);
    }
}

/// `dec_digits` produces exactly `w` ASCII digits.
pub proof fn lemma_dec_digits_wf(n: nat, w: nat)
    ensures
        dec_digits(n, w).len() == w,
        is_digits(dec_digits(n, w)),
    decreases w,
{
    if w > 0 {
        lemma_dec_digits_wf(n / 10, (w - 1) as nat);
        let s = dec_digits(n, w);
        let s0 = dec_digits(n / 10, (w - 1) as nat);
        assert forall|i: int| 0 <= i < s.len() implies 48 <= #[trigger] s[i] <= 57 by {
            if i < s.len() - 1 {
                assert(s[i] == s0[i]);
            }
        }
    }
}

/// Reading back the digits of `n` yields `n` modulo `10^w`.
pub proof fn lemma_digits_val_dec(n: nat, w: nat)
    ensures
        digits_val(dec_digits(n, w)) == n % pow10(w),
    decreases w,
{
    if w == 0 {
        assert(n % 1 == 0) by (nonlinear_arith);
    } else {
        lemma_digits_val_dec(n / 10, (w - 1) as nat);
        let s = dec_digits(n, w);
        let s0 = dec_digits(n / 10, (w - 1) as nat);
        lemma_dec_digits_wf(n / 10, (w - 1) as nat);
        assert(s.drop_last() =~= s0);
        let p: int = pow10((w - 1) as nat) as int;
        let x: int = n as int;
        lemma_pow10_pos((w - 1) as nat);
        assert(digits_val(s) == ((x / 10) % p) * 10 + x % 10);
        lemma_mod_breakdown(x, 10, p);
        assert(x % (10 * p) == 10 * ((x / 10) % p) + x % 10);
        assert(pow10(w) == 10 * p);
    }
}

/// A value denoted by `w` digits is below `10^w`.
pub proof fn lemma_digits_val_bound(s: Seq<u8>)
    requires
        is_digits(s),
    ensures
        digits_val(s) < pow10(s.len()),
    decreases s.len(),
{
    if s.len() > 0 {
        lemma_digits_val_bound(s.drop_last());
        assert(digits_val(s.drop_last()) * 10 + 10 <= pow10((s.len() - 1) as nat) * 10)
            by (nonlinear_arith)
            requires
                digits_val(s.drop_last()) < pow10((s.len() - 1) as nat),
        ;
    }
}

/// Every `u64` has at most 20 decimal digits.
pub proof fn lemma_u64_fits_len_width()
    ensures
        u64::MAX < pow10(LEN_WIDTH as nat),
{
    assert(pow10(20) == 100000000000000000000) by {
        reveal_with_fuel(pow10, 21);
    }
}

/// Append the `w` low-order decimal digits of `n` to `out`, most
/// significant first.
pub fn push_dec(out: &mut Vec<u8>, n: u64, w: usize)
    ensures
        final(out)@ == old(out)@ + dec_digits(n as nat, w as nat),
    decreases w,
{
    if w == 0 {
        assert(old(out)@ + dec_digits(n as nat, 0) =~= old(out)@);
    } else {
        push_dec(out, n / 10, w - 1);
        out.push((n % 10) as u8 + 48);
        proof {
            lemma_div_is_div(n, 10);
            assert(final(out)@ =~= old(out)@ + dec_digits(n as nat, w as nat));
        }
    }
}

proof fn lemma_div_is_div(n: u64, d: u64)
    requires
        d > 0,
    ensures
        (n / d) as nat == (n as nat) / (d as nat),
        (n % d) as nat == (n as nat) % (d as nat),
{
}

/// One decoded record together with the byte range it occupies.
pub ghost struct RecAt {
    /// The decoded command.
    pub cmd: CommandV,
    /// Offset of the record's first byte.
    pub head: int,
    /// Offset one past the record's last byte.
    pub tail: int,
}

/// Decode one record of `data` starting at byte `pos`: the command and the
/// offset one past its last byte, or nothing if no well-formed record
/// starts there.
pub open spec fn parse_at(data: Seq<u8>, pos: int) -> Option<(CommandV, int)> {
    if pos < 0 || pos >= data.len() {
        None
    } else if data[pos] == TAG_SET {
        if pos + 41 <= data.len() {
            let kd = data.subrange(pos + 1, pos + 21);
            let vd = data.subrange(pos + 21, pos + 41);
            if is_digits(kd) && is_digits(vd) {
                let kl = digits_val(kd) as int;
                let vl = digits_val(vd) as int;
                if pos + 41 + kl + vl <= data.len() {
                    Some(
                        (
                            CommandV::Put {
                                key: data.subrange(pos + 41, pos + 41 + kl),
                                value: data.subrange(pos + 41 + kl, pos + 41 + kl + vl),
                            },
                            pos + 41 + kl + vl,
                        ),
                    )
                } else {
                    None
                }
            } else {
                None
            }
        } else {
            None
        }
    } else if data[pos] == TAG_REMOVE {
        if pos + 21 <= data.len() {
            let kd = data.subrange(pos + 1, pos + 21);
            if is_digits(kd) {
                let kl = digits_val(kd) as int;
                if pos + 21 + kl <= data.len() {
                    Some(
                        (
                            CommandV::Rm { key: data.subrange(pos + 21, pos + 21 + kl) },
                            pos + 21 + kl,
                        ),
                    )
                } else {
                    None
                }
            } else {
                None
            }
        } else {
            None
        }
    } else {
        None
    }
}

/// A decoded record covers at least its tag and one length field, ends
/// within the data, and its variable parts are encodable.
pub proof fn lemma_parse_at_bounds(data: Seq<u8>, pos: int)
    requires
        parse_at(data, pos) is Some,
    ensures
        pos + 21 <= parse_at(data, pos).unwrap().1 <= data.len(),
        parse_at(data, pos).unwrap().0.encodable(),
{
    let (c, e) = parse_at(data, pos).unwrap();
    if data[pos] == TAG_SET {
        lemma_digits_val_bound(data.subrange(pos + 1, pos + 21));
        lemma_digits_val_bound(data.subrange(pos + 21, pos + 41));
    } else {
        lemma_digits_val_bound(data.subrange(pos + 1, pos + 21));
    }
}

/// Decode every record of `data` from byte `pos` to the end, with its byte
/// range, or nothing if the stream is corrupt.
pub open spec fn records_from(data: Seq<u8>, pos: int) -> Option<Seq<RecAt>>
    decreases data.len() - pos,
{
    if pos == data.len() {
        Some(Seq::empty())
    } else if pos < 0 || pos > data.len() {
        None
    } else {
        match parse_at(data, pos) {
            None => None,
            Some((c, e)) => if pos < e <= data.len() {
                match records_from(data, e) {
                    None => None,
                    Some(rs) => Some(seq![RecAt { cmd: c, head: pos, tail: e }] + rs),
                }
            } else {
                None
            },
        }
    }
}

/// The records of a whole segment, from its first byte.
pub open spec fn seg_records(data: Seq<u8>) -> Option<Seq<RecAt>> {
    records_from(data, 0)
}

/// Encode a command into its byte record.
pub fn encode(c: &Command) -> (r: Vec<u8>)
    ensures
        r@ == enc(c@),
{
    proof {
        lemma_u64_fits_len_width();
    }
    let mut out: Vec<u8> = Vec::new();
    match c {
        Command::Put { key, value } => {
            out.push(TAG_SET);
            push_dec(&mut out, key.len() as u64, LEN_WIDTH);
            push_dec(&mut out, value.len() as u64, LEN_WIDTH);
            out.extend_from_slice(key.as_slice());
            out.extend_from_slice(value.as_slice());
            proof {
                assert(out@ =~= enc(c@));
            }
        },
        Command::Rm { key } => {
            out.push(TAG_REMOVE);
            push_dec(&mut out, key.len() as u64, LEN_WIDTH);
            out.extend_from_slice(key.as_slice());
            proof {
                assert(out@ =~= enc(c@));
            }
        },
    }
    out
}

/// `10^w` grows with `w`.
pub proof fn lemma_pow10_mono(v: nat, w: nat)
    requires
        v <= w,
    ensures
        pow10(v) <= pow10(w),
    decreases w,
{
    if v < w {
        lemma_pow10_mono(v, (w - 1) as nat);
        lemma_pow10_pos((w - 1) as nat);
    }
}

/// Read a fixed-width decimal length field.
#[verifier::rlimit(50)]
fn read_num(data: &Vec<u8>, pos: usize) -> (r: Option<u128>)
    requires
        pos + LEN_WIDTH <= data@.len(),
    ensures
        ({
            let field = data@.subrange(pos as int, pos + LEN_WIDTH);
            match r {
                Some(v) => is_digits(field) && v as nat == digits_val(field),
                None => !is_digits(field),
            }
        }),
{
    let ghost field = data@.subrange(pos as int, pos + LEN_WIDTH);
    let dlen = data.len();
    let mut acc: u128 = 0;
    let mut i: usize = 0;
    while i < LEN_WIDTH
        invariant
            0 <= i <= LEN_WIDTH,
            pos + LEN_WIDTH <= data@.len(),
            dlen == data@.len(),
            field == data@.subrange(pos as int, pos + LEN_WIDTH),
            is_digits(data@.subrange(pos as int, pos + i)),
            acc as nat == digits_val(data@.subrange(pos as int, pos + i)),
            (acc as nat) < pow10(i as nat),
        decreases LEN_WIDTH - i,
    {
        let b = data[pos + i];
        if b < 48 || b > 57 {
            assert(field[i as int] == b);
            return None;
        }
        proof {
            let prev = data@.subrange(pos as int, pos + i);
            let cur = data@.subrange(pos as int, pos + i + 1);
            assert(cur.drop_last() =~= prev);
            assert(cur.last() == b);
            lemma_pow10_mono(i as nat + 1, LEN_WIDTH as nat);
            assert(pow10(20) == 100000000000000000000) by {
                reveal_with_fuel(pow10, 21);
            }
            assert((acc as nat) * 10 + 10 <= pow10(i as nat) * 10) by (nonlinear_arith)
                requires
                    (acc as nat) < pow10(i as nat),
            ;
        }
        acc = acc * 10 + ((b - 48) as u128);
        i = i + 1;
    }
    proof {
        assert(data@.subrange(pos as int, pos + i) =~= field);
    }
    Some(acc)
}

/// Copy the bytes `[a, b)` of `data` into a fresh vector.
pub(crate) fn copy_range(data: &Vec<u8>, a: usize, b: usize) -> (r: Vec<u8>)
    requires
        a <= b <= data@.len(),
    ensures
        r@ == data@.subrange(a as int, b as int),
{
    let mut out: Vec<u8> = Vec::new();
    let mut i: usize = a;
    while i < b
        invariant
            a <= i <= b <= data@.len(),
            out@ == data@.subrange(a as int, i as int),
        decreases b - i,
    {
        out.push(data[i]);
        proof {
            assert(out@ =~= data@.subrange(a as int, i + 1));
        }
        i = i + 1;
    }
    out
}

/// Decode the record that starts at byte `pos` of `data`, if any, and
/// report the offset one past its end.
pub fn decode_at(data: &Vec<u8>, pos: usize) -> (r: Option<(Command, usize)>)
    ensures
        r is Some <==> parse_at(data@, pos as int) is Some,
        r matches Some((c, e)) ==> parse_at(data@, pos as int) == Some((c@, e as int)),
{
    if pos >= data.len() {
        return None;
    }
    let tag = data[pos];
    if tag == TAG_SET {
        if data.len() - pos < 41 {
            return None;
        }
        let kl = match read_num(data, pos + 1) {
            Some(v) => v,
            None => {
                return None;
            },
        };
        let vl = match read_num(data, pos + 21) {
            Some(v) => v,
            None => {
                return None;
            },
        };
        let rem = (data.len() - pos - 41) as u128;
        if kl > rem || vl > rem - kl {
            return None;
        }
        let klu = kl as usize;
        let vlu = vl as usize;
        let a = pos + 41;
        let key = copy_range(data, a, a + klu);
        let value = copy_range(data, a + klu, a + klu + vlu);
        Some((Command::Put { key, value }, a + klu + vlu))
    } else if tag == TAG_REMOVE {
        if data.len() - pos < 21 {
            return None;
        }
        let kl = match read_num(data, pos + 1) {
            Some(v) => v,
            None => {
                return None;
            },
        };
        let rem = (data.len() - pos - 21) as u128;
        if kl > rem {
            return None;
        }
        let klu = kl as usize;
        let a = pos + 21;
        let key = copy_range(data, a, a + klu);
        Some((Command::Rm { key }, a + klu))
    } else {
        None
    }
}

/// Parsing looks only at the bytes of the record itself: if another
/// position in another byte sequence holds the same bytes, it decodes to
/// the same command.
pub proof fn lemma_parse_agree(d1: Seq<u8>, p1: int, d2: Seq<u8>, p2: int)
    requires
        parse_at(d1, p1) is Some,
        0 <= p2,
        p2 + (parse_at(d1, p1).unwrap().1 - p1) <= d2.len(),
        d2.subrange(p2, p2 + (parse_at(d1, p1).unwrap().1 - p1)) == d1.subrange(
            p1,
            parse_at(d1, p1).unwrap().1,
        ),
    ensures
        parse_at(d2, p2) == Some(
            (parse_at(d1, p1).unwrap().0, p2 + (parse_at(d1, p1).unwrap().1 - p1)),
        ),
{
    let (c, e) = parse_at(d1, p1).unwrap();
    let l = e - p1;
    lemma_parse_at_bounds(d1, p1);
    assert(d2[p2] == d1[p1]) by {
        assert(d2.subrange(p2, p2 + l)[0] == d1.subrange(p1, p1 + l)[0]);
    }
    if d1[p1] == TAG_SET {
        let kd1 = d1.subrange(p1 + 1, p1 + 21);
        let vd1 = d1.subrange(p1 + 21, p1 + 41);
        let kl = digits_val(kd1) as int;
        let vl = digits_val(vd1) as int;
        assert(e == p1 + 41 + kl + vl);
        lemma_subrange_transfer(d1, p1, d2, p2, l, 1, 21);
        lemma_subrange_transfer(d1, p1, d2, p2, l, 21, 41);
        lemma_subrange_transfer(d1, p1, d2, p2, l, 41, 41 + kl);
        lemma_subrange_transfer(d1, p1, d2, p2, l, 41 + kl, 41 + kl + vl);
    } else {
        let kd1 = d1.subrange(p1 + 1, p1 + 21);
        let kl = digits_val(kd1) as int;
        assert(e == p1 + 21 + kl);
        lemma_subrange_transfer(d1, p1, d2, p2, l, 1, 21);
        lemma_subrange_transfer(d1, p1, d2, p2, l, 21, 21 + kl);
    }
}

/// Matching windows of two byte sequences match on every inner window.
proof fn lemma_subrange_transfer(d1: Seq<u8>, p1: int, d2: Seq<u8>, p2: int, l: int, a: int, b: int)
    requires
        0 <= p1,
        p1 + l <= d1.len(),
        0 <= p2,
        p2 + l <= d2.len(),
        d2.subrange(p2, p2 + l) == d1.subrange(p1, p1 + l),
        0 <= a <= b <= l,
    ensures
        d2.subrange(p2 + a, p2 + b) == d1.subrange(p1 + a, p1 + b),
{
    assert forall|j: int| 0 <= j < b - a implies #[trigger] d2.subrange(p2 + a, p2 + b)[j]
        == d1.subrange(p1 + a, p1 + b)[j] by {
        assert(d2.subrange(p2 + a, p2 + b)[j] == d2[p2 + a + j]);
        assert(d1.subrange(p1 + a, p1 + b)[j] == d1[p1 + a + j]);
        assert(d2.subrange(p2, p2 + l)[a + j] == d2[p2 + (a + j)]);
        assert(d1.subrange(p1, p1 + l)[a + j] == d1[p1 + (a + j)]);
        assert(d2.subrange(p2, p2 + l)[a + j] == d1.subrange(p1, p1 + l)[a + j]);
    }
    assert(d2.subrange(p2 + a, p2 + b) =~= d1.subrange(p1 + a, p1 + b));
}

/// The length of a command's encoding.
pub open spec fn enc_len(c: CommandV) -> int {
    match c {
        CommandV::Put { key, value } => 41 + key.len() as int + value.len() as int,
        CommandV::Rm { key } => 21 + key.len() as int,
    }
}

/// The encoding is as long as `enc_len` says.
pub proof fn lemma_enc_len(c: CommandV)
    ensures
        enc(c).len() == enc_len(c),
        enc_len(c) >= 21,
{
    match c {
        CommandV::Put { key, value } => {
            lemma_dec_digits_wf(key.len(), LEN_WIDTH as nat);
            lemma_dec_digits_wf(value.len(), LEN_WIDTH as nat);
        },
        CommandV::Rm { key } => {
            lemma_dec_digits_wf(key.len(), LEN_WIDTH as nat);
        },
    }
}

/// Wherever the bytes of `enc(c)` stand in a byte sequence, a record
/// decodes there, back to `c`, and ends right after those bytes.
pub proof fn lemma_parse_enc(data: Seq<u8>, pos: int, c: CommandV)
    requires
        c.encodable(),
        0 <= pos,
        pos + enc_len(c) <= data.len(),
        data.subrange(pos, pos + enc_len(c)) == enc(c),
    ensures
        parse_at(data, pos) == Some((c, pos + enc_len(c))),
{
    let ec = enc(c);
    lemma_enc_len(c);
    match c {
        CommandV::Put { key, value } => {
            let kd = dec_digits(key.len(), LEN_WIDTH as nat);
            let vd = dec_digits(value.len(), LEN_WIDTH as nat);
            lemma_dec_digits_wf(key.len(), LEN_WIDTH as nat);
            lemma_dec_digits_wf(value.len(), LEN_WIDTH as nat);
            lemma_digits_val_dec(key.len(), LEN_WIDTH as nat);
            lemma_digits_val_dec(value.len(), LEN_WIDTH as nat);
            vstd::arithmetic::div_mod::lemma_small_mod(key.len(), pow10(LEN_WIDTH as nat));
            vstd::arithmetic::div_mod::lemma_small_mod(value.len(), pow10(LEN_WIDTH as nat));
            let kl = key.len() as int;
            let vl = value.len() as int;
            assert(ec[0] == TAG_SET);
            assert(ec.subrange(1, 21) =~= kd);
            assert(ec.subrange(21, 41) =~= vd);
            assert(ec.subrange(41, 41 + kl) =~= key);
            assert(ec.subrange(41 + kl, 41 + kl + vl) =~= value);
            assert(parse_at(ec, 0) == Some((c, enc_len(c))));
            assert(data.subrange(pos, pos + enc_len(c)) == ec.subrange(0, enc_len(c))) by {
                assert(ec.subrange(0, enc_len(c)) =~= ec);
            }
            lemma_parse_agree(ec, 0, data, pos);
        },
        CommandV::Rm { key } => {
            let kd = dec_digits(key.len(), LEN_WIDTH as nat);
            lemma_dec_digits_wf(key.len(), LEN_WIDTH as nat);
            lemma_digits_val_dec(key.len(), LEN_WIDTH as nat);
            vstd::arithmetic::div_mod::lemma_small_mod(key.len(), pow10(LEN_WIDTH as nat));
            let kl = key.len() as int;
            assert(ec[0] == TAG_REMOVE);
            assert(ec.subrange(1, 21) =~= kd);
            assert(ec.subrange(21, 21 + kl) =~= key);
            assert(parse_at(ec, 0) == Some((c, enc_len(c))));
            assert(data.subrange(pos, pos + enc_len(c)) == ec.subrange(0, enc_len(c))) by {
                assert(ec.subrange(0, enc_len(c)) =~= ec);
            }
            lemma_parse_agree(ec, 0, data, pos);
        },
    }
}

/// The record a decoded byte range stands for can be decoded from a copy
/// of exactly those bytes.
pub proof fn lemma_parse_subrange(data: Seq<u8>, h: int, t: int)
    requires
        parse_at(data, h) matches Some((c, e)) && e == t,
    ensures
        parse_at(data.subrange(h, t), 0) == Some((parse_at(data, h).unwrap().0, t - h)),
{
    lemma_parse_at_bounds(data, h);
    let d2 = data.subrange(h, t);
    assert(d2.subrange(0, t - h) =~= d2);
    lemma_parse_agree(data, h, d2, 0);
}

/// Appending one encoded record to a cleanly decodable byte sequence
/// appends exactly that record to its decoded record list.
pub proof fn lemma_records_snoc(data: Seq<u8>, p: int, c: CommandV)
    requires
        c.encodable(),
        0 <= p <= data.len(),
        records_from(data, p) is Some,
    ensures
        records_from(data + enc(c), p) == Some(
            records_from(data, p).unwrap().push(
                RecAt { cmd: c, head: data.len() as int, tail: data.len() + enc_len(c) },
            ),
        ),
    decreases data.len() - p,
{
    let d2 = data + enc(c);
    let rs = records_from(data, p).unwrap();
    let newrec = RecAt { cmd: c, head: data.len() as int, tail: data.len() + enc_len(c) };
    lemma_enc_len(c);
    if p == data.len() {
        assert(rs =~= Seq::<RecAt>::empty());
        assert(d2.subrange(p, p + enc_len(c)) =~= enc(c));
        lemma_parse_enc(d2, p, c);
        assert(records_from(d2, p + enc_len(c)) == Some(Seq::<RecAt>::empty()));
        assert(records_from(d2, p) == Some(seq![newrec] + Seq::<RecAt>::empty()));
        assert(seq![newrec] + Seq::<RecAt>::empty() =~= rs.push(newrec));
    } else {
        let (c0, e0) = parse_at(data, p).unwrap();
        let rec0 = RecAt { cmd: c0, head: p, tail: e0 };
        let rs0 = records_from(data, e0).unwrap();
        assert(rs == seq![rec0] + rs0);
        lemma_parse_at_bounds(data, p);
        assert(d2.subrange(p, p + (e0 - p)) =~= data.subrange(p, e0));
        lemma_parse_agree(data, p, d2, p);
        assert(parse_at(d2, p) == Some((c0, e0)));
        lemma_records_snoc(data, e0, c);
        assert(records_from(d2, p) == Some(seq![rec0] + rs0.push(newrec)));
        assert(seq![rec0] + rs0.push(newrec) =~= rs.push(newrec));
    }
}


/// Structural facts of a cleanly decoded record stream: each record parses
/// at its own head, records tile the bytes from `pos` to the end, and
/// their offsets increase strictly.
pub proof fn lemma_records_facts(data: Seq<u8>, pos: int)
    requires
        0 <= pos <= data.len(),
        records_from(data, pos) is Some,
    ensures
        ({
            let rs = records_from(data, pos).unwrap();
            &&& forall|j: int|
                0 <= j < rs.len() ==> parse_at(data, (#[trigger] rs[j]).head) == Some(
                    (rs[j].cmd, rs[j].tail),
                )
            &&& forall|j: int| 0 <= j < rs.len() ==> pos <= (#[trigger] rs[j]).head < rs[j].tail
                <= data.len()
            &&& (rs.len() > 0 ==> rs[0].head == pos)
            &&& (rs.len() > 0 ==> rs[rs.len() - 1].tail == data.len())
            &&& (rs.len() == 0 ==> pos == data.len())
            &&& forall|j: int|
                0 <= j < rs.len() - 1 ==> (#[trigger] rs[j]).tail == rs[j + 1].head
            &&& forall|i: int, j: int|
                0 <= i < j < rs.len() ==> (#[trigger] rs[i]).tail <= (#[trigger] rs[j]).head
        }),
    decreases data.len() - pos,
{
    let rs = records_from(data, pos).unwrap();
    if pos == data.len() {
    } else {
        let (c, e) = parse_at(data, pos).unwrap();
        lemma_parse_at_bounds(data, pos);
        lemma_records_facts(data, e);
        let rest = records_from(data, e).unwrap();
        assert(rs == seq![RecAt { cmd: c, head: pos, tail: e }] + rest);
        assert forall|j: int| 0 <= j < rs.len() implies parse_at(data, (#[trigger] rs[j]).head)
            == Some((rs[j].cmd, rs[j].tail)) by {
            if j > 0 {
                assert(rs[j] == rest[j - 1]);
            }
        }
        assert forall|j: int| 0 <= j < rs.len() implies pos <= (#[trigger] rs[j]).head
            < rs[j].tail <= data.len() by {
            if j > 0 {
                assert(rs[j] == rest[j - 1]);
            }
        }
        assert forall|j: int| 0 <= j < rs.len() - 1 implies (#[trigger] rs[j]).tail == rs[j
            + 1].head by {
            if j > 0 {
                assert(rs[j] == rest[j - 1]);
                assert(rs[j + 1] == rest[j]);
            } else {
                assert(rs[1] == rest[0]);
                assert(rest.len() > 0 ==> rest[0].head == e);
            }
        }
        if rs.len() > 0 {
            assert(rs[rs.len() - 1].tail == data.len()) by {
                if rs.len() > 1 {
                    assert(rs[rs.len() - 1] == rest[rest.len() - 1]);
                } else {
                    assert(rest.len() == 0);
                }
            }
        }
        assert forall|i: int, j: int| 0 <= i < j < rs.len() implies (#[trigger] rs[i]).tail
            <= (#[trigger] rs[j]).head by {
            assert(rs[j] == rest[j - 1]);
            if i > 0 {
                assert(rs[i] == rest[i - 1]);
            } else {
                if rest.len() > 0 {
                    assert(rest[0].head == e);
                    assert(rest[j - 1].head >= e);
                }
            }
        }
    }
}

} // verus!
