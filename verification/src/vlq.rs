//! Base64 variable-length quantities: the alphabet, the streaming decoder
//! and the encoding it inverts.
//!
//! A quantity is written as one or more base64 digits, least significant
//! first. Bit 5 of a digit says that another digit follows; its low five
//! bits are payload. The lowest bit of the assembled payload is the sign.

use vstd::arithmetic::power2::{lemma2_to64, lemma_pow2_adds, lemma_pow2_pos, pow2};
use vstd::prelude::*;

verus! {

/// The size of the accumulator: payload bits beyond these are lost.
pub const ACCUMULATOR_RANGE: u64 = 0x1_0000_0000;

/// The six-bit value of a character of the base64 alphabet, `None` for any
/// other character.
pub open spec fn digit_value(c: char) -> Option<int> {
    if 'A' <= c <= 'Z' {
        Some(c as int - 'A' as int)
    } else if 'a' <= c <= 'z' {
        Some(c as int - 'a' as int + 26)
    } else if '0' <= c <= '9' {
        Some(c as int - '0' as int + 52)
    } else if c == '+' {
        Some(62)
    } else if c == '/' {
        Some(63)
    } else {
        None
    }
}

/// The character that stands for a six-bit value.
pub open spec fn digit_char(d: int) -> char
    recommends
        0 <= d < 64,
{
    if d < 26 {
        ('A' as int + d) as char
    } else if d < 52 {
        ('a' as int + d - 26) as char
    } else if d < 62 {
        ('0' as int + d - 52) as char
    } else if d == 62 {
        '+'
    } else {
        '/'
    }
}

/// What a decoder has seen of a run of characters: the quantities that are
/// complete, and the payload and shift distance of the one in progress.
pub struct VlqState {
    pub values: Seq<int>,
    pub acc: int,
    pub shift: int,
}

/// The state before any character.
pub open spec fn vlq_start() -> VlqState {
    VlqState { values: Seq::empty(), acc: 0, shift: 0 }
}

/// The quantity that a finished accumulator stands for. The accumulator is
/// read as a 32-bit two's complement number; its lowest bit is the sign and
/// the bits above it, shifted down by one, the magnitude.
pub open spec fn vlq_signed(acc: int) -> int {
    let word = if acc >= 0x8000_0000 {
        acc - 0x1_0000_0000
    } else {
        acc
    };
    if word % 2 == 1 {
        -(word / 2)
    } else {
        word / 2
    }
}

/// The state after one more digit. The payload enters the accumulator at
/// the current shift distance, and what leaves the accumulator's 32 bits is
/// dropped. A digit with the continuation bit moves the shift distance on
/// by five, modulo the accumulator's width; one without it completes the
/// quantity and clears accumulator and shift.
pub open spec fn vlq_push_digit(st: VlqState, d: int) -> VlqState {
    let acc = (st.acc + (d % 32) * pow2(st.shift as nat)) % 0x1_0000_0000;
    if d >= 32 {
        VlqState { values: st.values, acc, shift: (st.shift + 5) % 32 }
    } else {
        VlqState { values: st.values.push(vlq_signed(acc)), acc: 0, shift: 0 }
    }
}

/// The state after one more character. A character outside the alphabet
/// changes nothing.
pub open spec fn vlq_step(st: VlqState, c: char) -> VlqState {
    match digit_value(c) {
        Some(d) => vlq_push_digit(st, d),
        None => st,
    }
}

/// The state reached from `st` by the characters of `s`, in order.
pub open spec fn vlq_scan_from(st: VlqState, s: Seq<char>) -> VlqState
    decreases s.len(),
{
    if s.len() == 0 {
        st
    } else {
        vlq_step(vlq_scan_from(st, s.drop_last()), s.last())
    }
}

/// The quantities that a run of characters holds. A quantity whose last
/// digit is missing at the end of the run is not among them.
pub open spec fn vlq_decode_spec(s: Seq<char>) -> Seq<int> {
    vlq_scan_from(vlq_start(), s).values
}

/// A sequence of machine integers as mathematical ones.
pub open spec fn as_ints(v: Seq<i32>) -> Seq<int> {
    v.map_values(|x: i32| x as int)
}

/// Looks a character up in the base64 alphabet.
pub fn base64_digit(c: char) -> (d: Option<u8>)
    ensures
        match d {
            Some(v) => digit_value(c) == Some(v as int) && v < 64,
            None => digit_value(c).is_none(),
        },
{
    let code: u32 = c as u32;
    if 'A' <= c && c <= 'Z' {
        Some((code - 0x41) as u8)
    } else if 'a' <= c && c <= 'z' {
        Some((code - 0x61 + 26) as u8)
    } else if '0' <= c && c <= '9' {
        Some((code - 0x30 + 52) as u8)
    } else if c == '+' {
        Some(62)
    } else if c == '/' {
        Some(63)
    } else {
        None
    }
}

/// The quantity of a finished accumulator.
fn signed_of(acc: u32) -> (v: i32)
    ensures
        v == vlq_signed(acc as int),
        -0x4000_0000 <= v <= 0x4000_0000,
{
    let half: i64 = (acc / 2) as i64;
    let odd: bool = acc % 2 == 1;
    if acc < 0x8000_0000 {
        if odd {
            (-half) as i32
        } else {
            half as i32
        }
    } else if odd {
        (0x8000_0000 - half) as i32
    } else {
        (half - 0x8000_0000) as i32
    }
}

/// A streaming decoder: it is fed characters one by one and holds the
/// quantities completed so far.
pub struct VlqDecoder {
    values: Vec<i32>,
    acc: u32,
    shift: u32,
}

impl View for VlqDecoder {
    type V = VlqState;

    closed spec fn view(&self) -> VlqState {
        VlqState {
            values: as_ints(self.values@),
            acc: self.acc as int,
            shift: self.shift as int % 32,
        }
    }
}

impl VlqDecoder {
    /// A decoder that has seen nothing.
    pub fn new() -> (dec: VlqDecoder)
        ensures
            dec@ == vlq_start(),
    {
        let dec = VlqDecoder { values: Vec::new(), acc: 0, shift: 0 };
        assert(as_ints(dec.values@) =~= Seq::<int>::empty());
        dec
    }

    /// Takes in one character.
    pub fn feed(&mut self, c: char)
        ensures
            final(self)@ == vlq_step(old(self)@, c),
    {
        match base64_digit(c) {
            Some(d) => {
                let payload: u64 = (d % 32) as u64;
                let shift: u32 = self.shift % 32;
                let weight: u64 = 1u64 << (shift as u64);
                proof {
                    lemma2_to64();
                    lemma_pow2_bound(shift as nat);
                    vstd::bits::lemma_u64_shl_is_mul(1u64, shift as u64);
                    assert(payload * weight <= 31 * 0x8000_0000) by (nonlinear_arith)
                        requires
                            payload <= 31,
                            weight <= 0x8000_0000,
                    ;
                }
                let sum: u64 = self.acc as u64 + payload * weight;
                let acc: u32 = (sum % ACCUMULATOR_RANGE) as u32;
                if d >= 32 {
                    self.acc = acc;
                    self.shift = (shift + 5) % 32;
                } else {
                    let v = signed_of(acc);
                    self.values.push(v);
                    self.acc = 0;
                    self.shift = 0;
                    assert(as_ints(self.values@) =~= as_ints(old(self).values@).push(v as int));
                }
            },
            None => {},
        }
    }

    /// The quantities completed so far.
    pub fn values(&self) -> (v: &Vec<i32>)
        ensures
            as_ints(v@) == self@.values,
    {
        &self.values
    }

    /// Ends the run: hands out the completed quantities and drops the one
    /// in progress.
    pub fn finish(self) -> (v: Vec<i32>)
        ensures
            as_ints(v@) == self@.values,
    {
        self.values
    }

    /// Forgets everything seen, as a new decoder.
    pub fn reset(&mut self)
        ensures
            final(self)@ == vlq_start(),
    {
        self.values.clear();
        self.acc = 0;
        self.shift = 0;
        assert(as_ints(self.values@) =~= Seq::<int>::empty());
    }
}

/// Decodes the quantities of one segment.
pub fn vlq_decode(segment: &str) -> (fields: Vec<i32>)
    ensures
        as_ints(fields@) == vlq_decode_spec(segment@),
{
    let mut dec = VlqDecoder::new();
    for c in it: segment.chars()
        invariant
            it.seq() == segment@,
            dec@ == vlq_scan_from(vlq_start(), segment@.take(it.index() as int)),
    {
        assert(segment@.take(it.index() + 1).drop_last() == segment@.take(it.index() as int));
        dec.feed(c);
    }
    assert(segment@.take(segment@.len() as int) == segment@);
    dec.finish()
}

/// The number whose digits spell a quantity: twice the magnitude, and one
/// more for a negative quantity.
pub open spec fn vlq_code(v: int) -> nat {
    if v < 0 {
        (2 * (-v) + 1) as nat
    } else {
        (2 * v) as nat
    }
}

/// The digits of a number, five bits each and the lowest first, each but
/// the last with the continuation bit.
pub open spec fn vlq_digits(u: nat) -> Seq<int>
    decreases u,
{
    if u < 32 {
        seq![u as int]
    } else {
        seq![(u % 32 + 32) as int] + vlq_digits(u / 32)
    }
}

/// The characters that encode one quantity.
pub open spec fn vlq_encode(v: int) -> Seq<char> {
    vlq_digits(vlq_code(v)).map_values(|d: int| digit_char(d))
}

/// The characters that encode a sequence of quantities, one after another.
pub open spec fn vlq_encode_all(vs: Seq<int>) -> Seq<char>
    decreases vs.len(),
{
    if vs.len() == 0 {
        Seq::empty()
    } else {
        vlq_encode_all(vs.drop_last()) + vlq_encode(vs.last())
    }
}

/// The quantities that a decoder gives back unchanged: those whose code
/// fits below the accumulator's sign bit.
pub open spec fn vlq_representable(v: int) -> bool {
    -0x4000_0000 < v < 0x4000_0000
}

/// Each six-bit value is the value of its own character.
pub proof fn lemma_digit_char_value(d: int)
    requires
        0 <= d < 64,
    ensures
        digit_value(digit_char(d)) == Some(d),
{
}

/// Every digit of a number is a six-bit value.
pub proof fn lemma_vlq_digits_range(u: nat)
    ensures
        forall|i: int| 0 <= i < vlq_digits(u).len() ==> 0 <= #[trigger] vlq_digits(u)[i] < 64,
    decreases u,
{
    if u >= 32 {
        lemma_vlq_digits_range(u / 32);
        let rest = vlq_digits(u / 32);
        assert forall|i: int| 0 <= i < vlq_digits(u).len() implies 0 <= #[trigger] vlq_digits(
            u,
        )[i] < 64 by {
            if i > 0 {
                assert(vlq_digits(u)[i] == rest[i - 1]);
            }
        }
    }
}

/// An encoding consists of characters of the alphabet.
pub proof fn lemma_encoding_is_digits(vs: Seq<int>)
    ensures
        forall|i: int|
            0 <= i < vlq_encode_all(vs).len() ==> digit_value(
                #[trigger] vlq_encode_all(vs)[i],
            ).is_some(),
    decreases vs.len(),
{
    if vs.len() > 0 {
        let before = vlq_encode_all(vs.drop_last());
        let digits = vlq_digits(vlq_code(vs.last()));
        lemma_encoding_is_digits(vs.drop_last());
        lemma_vlq_digits_range(vlq_code(vs.last()));
        assert forall|i: int| 0 <= i < vlq_encode_all(vs).len() implies digit_value(
            #[trigger] vlq_encode_all(vs)[i],
        ).is_some() by {
            if i < before.len() {
                assert(vlq_encode_all(vs)[i] == before[i]);
            } else {
                let k = i - before.len();
                assert(vlq_encode_all(vs)[i] == digit_char(digits[k]));
                lemma_digit_char_value(digits[k]);
            }
        }
    }
}

/// Scanning a run in two parts gives the state that scanning it at once
/// gives.
pub proof fn lemma_scan_concat(st: VlqState, a: Seq<char>, b: Seq<char>)
    ensures
        vlq_scan_from(st, a + b) == vlq_scan_from(vlq_scan_from(st, a), b),
    decreases b.len(),
{
    if b.len() == 0 {
        assert(a + b =~= a);
    } else {
        assert((a + b).drop_last() =~= a + b.drop_last());
        lemma_scan_concat(st, a, b.drop_last());
    }
}

/// Scanning the digits of `u` from a quantity in progress completes it:
/// the payload already held gains `u` at the current shift distance.
proof fn lemma_scan_digits(st: VlqState, u: nat, k: nat)
    requires
        st.shift == 5 * k,
        0 <= st.acc,
        st.acc + u * pow2(5 * k) < 0x8000_0000,
        k == 0 || u > 0,
    ensures
        vlq_scan_from(st, vlq_digits(u).map_values(|d: int| digit_char(d))) == (VlqState {
            values: st.values.push(vlq_signed(st.acc + u * pow2(5 * k))),
            acc: 0,
            shift: 0,
        }),
    decreases u,
{
    let weight = pow2(5 * k);
    let chars = vlq_digits(u).map_values(|d: int| digit_char(d));
    lemma_pow2_pos(5 * k);
    lemma2_to64();
    if u < 32 {
        lemma_digit_char_value(u as int);
        assert(chars =~= seq![digit_char(u as int)]);
        assert(chars.drop_last() =~= Seq::<char>::empty());
        assert(u * weight >= 0) by (nonlinear_arith)
            requires
                u >= 0,
                weight > 0,
        ;
        assert(vlq_scan_from(st, chars.drop_last()) == st);
        assert(vlq_scan_from(st, chars) == vlq_push_digit(st, u as int));
    } else {
        let d = (u % 32 + 32) as int;
        let rest = vlq_digits(u / 32).map_values(|d: int| digit_char(d));
        let head = seq![digit_char(d)];
        lemma_digit_char_value(d);
        assert(chars =~= head + rest);
        assert(head.drop_last() =~= Seq::<char>::empty());
        lemma_scan_concat(st, head, rest);
        assert(pow2(5 * (k + 1)) == weight * 32) by {
            lemma_pow2_adds(5 * k, 5);
        }
        assert((u % 32) * weight + (u / 32) * (weight * 32) == u * weight) by (nonlinear_arith)
            requires
                u == 32 * (u / 32) + u % 32,
        ;
        assert(0 <= (u % 32) * weight && weight * 32 <= (u / 32) * (weight * 32))
            by (nonlinear_arith)
            requires
                0 <= u % 32,
                1 <= u / 32,
                weight > 0,
        ;
        assert(5 * k + 5 < 31) by {
            if 5 * k + 5 >= 31 {
                if 5 * k + 5 > 31 {
                    vstd::arithmetic::power2::lemma_pow2_strictly_increases(31, 5 * (k + 1));
                }
            }
        }
        let next = vlq_push_digit(st, d);
        assert(vlq_scan_from(st, head.drop_last()) == st);
        assert(vlq_scan_from(st, head) == next);
        assert(next.acc == st.acc + (u % 32) * weight);
        assert(next.shift == 5 * (k + 1));
        lemma_scan_digits(next, u / 32, k + 1);
    }
}

/// Decoding the encoding of a representable quantity gives the quantity
/// back, and nothing else.
pub proof fn lemma_vlq_round_trip(v: int)
    requires
        vlq_representable(v),
    ensures
        vlq_decode_spec(vlq_encode(v)) == seq![v],
{
    let one = seq![v];
    lemma_vlq_round_trip_all(one);
    assert(one.drop_last() =~= Seq::<int>::empty());
    assert(vlq_encode_all(one.drop_last()) =~= Seq::<char>::empty());
    assert(vlq_encode_all(one) =~= vlq_encode(v));
}

/// Decoding the encodings of representable quantities, written one after
/// another, gives the quantities back in order, with none in progress at
/// the end.
pub proof fn lemma_vlq_round_trip_all(vs: Seq<int>)
    requires
        forall|i: int| 0 <= i < vs.len() ==> vlq_representable(#[trigger] vs[i]),
    ensures
        vlq_scan_from(vlq_start(), vlq_encode_all(vs)) == (VlqState {
            values: vs,
            acc: 0,
            shift: 0,
        }),
        vlq_decode_spec(vlq_encode_all(vs)) == vs,
    decreases vs.len(),
{
    if vs.len() == 0 {
        assert(vs =~= Seq::<int>::empty());
    } else {
        let v = vs.last();
        let before = vs.drop_last();
        lemma_vlq_round_trip_all(before);
        lemma_scan_concat(vlq_start(), vlq_encode_all(before), vlq_encode(v));
        let st = VlqState { values: before, acc: 0, shift: 0 };
        lemma2_to64();
        assert(vlq_code(v) * pow2(0) == vlq_code(v));
        lemma_scan_digits(st, vlq_code(v), 0);
        assert(vlq_signed(vlq_code(v) as int) == v);
        assert(before.push(v) =~= vs);
    }
}

/// Powers of two below the accumulator's width stay below its sign bit.
proof fn lemma_pow2_bound(e: nat)
    requires
        e < 32,
    ensures
        0 < pow2(e) <= 0x8000_0000,
{
    lemma2_to64();
    lemma_pow2_pos(e);
    if e < 31 {
        vstd::arithmetic::power2::lemma_pow2_strictly_increases(e, 31);
    }
}

} // verus!
