//! The wire format: every packet is the compact binary serialization
//! of its record, little-endian, with explicit element counts. Both
//! the serializer and the parser are specified byte for byte, and
//! parsing what was serialized is proved to give the record back.

use vstd::bytes::{
    lemma_auto_spec_u32_to_from_le_bytes, spec_u32_from_le_bytes, spec_u32_to_le_bytes,
    u32_from_le_bytes, u32_to_le_bytes,
};
use vstd::prelude::*;
use vstd::slice::slice_subrange;

use crate::bitmask::{
    count_set, lemma_count_set_le, lemma_count_set_prefix, NetworkBitmask,
};
use crate::bits::{bits_of, bv_new, bv_push};
use crate::components::{Color, DeltaPosition, Position, Rectangle, Unchanged};

verus! {

/// A value with a wire form: `ser` is the bytes it serializes to,
/// `deser` what parsing at an offset yields — the value and the
/// offset just past it — or None when the bytes do not parse.
pub trait Wire: Sized + Copy {
    spec fn ser(self) -> Seq<u8>;

    spec fn deser(b: Seq<u8>, i: int) -> Option<(Self, int)>;

    /// Law: a successful parse starts in bounds and never moves
    /// backward nor past the end.
    proof fn lemma_deser_bounds(b: Seq<u8>, i: int)
        requires
            Self::deser(b, i) is Some,
        ensures
            0 <= i <= Self::deser(b, i).unwrap().1 <= b.len(),
    ;

    /// Law: parsing at the start of a value's own bytes yields the
    /// value back and stops just past it.
    proof fn lemma_wire_roundtrip(self, b: Seq<u8>, i: int)
        requires
            0 <= i,
            i + self.ser().len() <= b.len(),
            b.subrange(i, i + self.ser().len() as int) == self.ser(),
        ensures
            Self::deser(b, i) == Some((self, i + self.ser().len() as int)),
    ;

    fn write(&self, out: &mut Vec<u8>)
        ensures
            final(out)@ == old(out)@ + self.ser(),
    ;

    fn read(b: &Vec<u8>, i: usize) -> (r: Option<(Self, usize)>)
        ensures
            (match Self::deser(b@, i as int) {
                Some((v, j)) => r is Some && r.unwrap().0 == v && r.unwrap().1 as int == j,
                None => r is None,
            }),
    ;
}

impl Wire for u8 {
    open spec fn ser(self) -> Seq<u8> {
        seq![self]
    }

    open spec fn deser(b: Seq<u8>, i: int) -> Option<(u8, int)> {
        if 0 <= i && i + 1 <= b.len() {
            Some((b[i], i + 1))
        } else {
            None
        }
    }

    proof fn lemma_deser_bounds(b: Seq<u8>, i: int) {
    }

    proof fn lemma_wire_roundtrip(self, b: Seq<u8>, i: int) {
        assert(b.subrange(i, i + 1)[0] == b[i]);
    }

    fn write(&self, out: &mut Vec<u8>) {
        out.push(*self);
        proof {
            assert(final(out)@ =~= old(out)@ + self.ser());
        }
    }

    fn read(b: &Vec<u8>, i: usize) -> (r: Option<(u8, usize)>) {
        if i < b.len() {
            Some((b[i], i + 1))
        } else {
            None
        }
    }
}

impl Wire for bool {
    open spec fn ser(self) -> Seq<u8> {
        seq![
            if self {
                1u8
            } else {
                0u8
            },
        ]
    }

    open spec fn deser(b: Seq<u8>, i: int) -> Option<(bool, int)> {
        if 0 <= i && i + 1 <= b.len() {
            if b[i] == 0u8 {
                Some((false, i + 1))
            } else if b[i] == 1u8 {
                Some((true, i + 1))
            } else {
                None
            }
        } else {
            None
        }
    }

    proof fn lemma_deser_bounds(b: Seq<u8>, i: int) {
    }

    proof fn lemma_wire_roundtrip(self, b: Seq<u8>, i: int) {
        assert(b.subrange(i, i + 1)[0] == b[i]);
    }

    fn write(&self, out: &mut Vec<u8>) {
        out.push(
            if *self {
                1u8
            } else {
                0u8
            },
        );
        proof {
            assert(final(out)@ =~= old(out)@ + self.ser());
        }
    }

    fn read(b: &Vec<u8>, i: usize) -> (r: Option<(bool, usize)>) {
        if i < b.len() {
            let byte = b[i];
            if byte == 0u8 {
                Some((false, i + 1))
            } else if byte == 1u8 {
                Some((true, i + 1))
            } else {
                None
            }
        } else {
            None
        }
    }
}

impl Wire for u32 {
    open spec fn ser(self) -> Seq<u8> {
        spec_u32_to_le_bytes(self)
    }

    open spec fn deser(b: Seq<u8>, i: int) -> Option<(u32, int)> {
        if 0 <= i && i + 4 <= b.len() {
            Some((spec_u32_from_le_bytes(b.subrange(i, i + 4)), i + 4))
        } else {
            None
        }
    }

    proof fn lemma_deser_bounds(b: Seq<u8>, i: int) {
    }

    proof fn lemma_wire_roundtrip(self, b: Seq<u8>, i: int) {
        lemma_auto_spec_u32_to_from_le_bytes();
    }

    fn write(&self, out: &mut Vec<u8>) {
        let mut bytes = u32_to_le_bytes(*self);
        out.append(&mut bytes);
    }

    fn read(b: &Vec<u8>, i: usize) -> (r: Option<(u32, usize)>) {
        proof {
            lemma_auto_spec_u32_to_from_le_bytes();
        }
        if b.len() >= 4 && i <= b.len() - 4 {
            let bytes = slice_subrange(b.as_slice(), i, i + 4);
            Some((u32_from_le_bytes(bytes), i + 4))
        } else {
            None
        }
    }
}

/// Splitting a window of `b` known to hold `s1 + s2` gives a window
/// holding `s1` and a window holding `s2`.
pub proof fn lemma_subrange_split(b: Seq<u8>, i: int, s1: Seq<u8>, s2: Seq<u8>)
    requires
        0 <= i,
        i + s1.len() + s2.len() <= b.len(),
        b.subrange(i, i + s1.len() + s2.len()) == s1 + s2,
    ensures
        b.subrange(i, i + s1.len() as int) == s1,
        b.subrange(i + s1.len(), i + s1.len() + s2.len()) == s2,
{
    assert forall|k: int| 0 <= k < s1.len() implies b.subrange(i, i + s1.len() as int)[k]
        == s1[k] by {
        assert((s1 + s2)[k] == b.subrange(i, i + s1.len() + s2.len())[k]);
    }
    assert(b.subrange(i, i + s1.len() as int) =~= s1);
    assert forall|k: int| 0 <= k < s2.len() implies b.subrange(
        i + s1.len(),
        i + s1.len() + s2.len(),
    )[k] == s2[k] by {
        let t = s1.len() as int;
        assert(b.subrange(i, i + s1.len() + s2.len())[k + t] == b[i + t + k]);
        assert((s1 + s2)[k + t] == s2[k]);
        assert(b.subrange(i + s1.len(), i + s1.len() + s2.len())[k] == b[i + t + k]);
    }
    assert(b.subrange(i + s1.len(), i + s1.len() + s2.len()) =~= s2);
}

/// Casting a signed 32-bit value through its unsigned bit pattern
/// gives it back.
pub proof fn lemma_i32_cast_roundtrip(x: i32)
    ensures
        (x as u32) as i32 == x,
{
    assert((x as u32) as i32 == x) by (bit_vector);
}

/// Casting a signed byte through its unsigned bit pattern gives it back.
pub proof fn lemma_i8_cast_roundtrip(x: i8)
    ensures
        (x as u8) as i8 == x,
{
    assert((x as u8) as i8 == x) by (bit_vector);
}

impl Wire for Position {
    open spec fn ser(self) -> Seq<u8> {
        spec_u32_to_le_bytes(self.x as u32) + spec_u32_to_le_bytes(self.y as u32)
    }

    open spec fn deser(b: Seq<u8>, i: int) -> Option<(Position, int)> {
        match u32::deser(b, i) {
            None => None,
            Some((x, j)) => match u32::deser(b, j) {
                None => None,
                Some((y, k)) => Some((Position { x: x as i32, y: y as i32 }, k)),
            },
        }
    }

    proof fn lemma_deser_bounds(b: Seq<u8>, i: int) {
    }

    proof fn lemma_wire_roundtrip(self, b: Seq<u8>, i: int) {
        lemma_auto_spec_u32_to_from_le_bytes();
        let s1 = spec_u32_to_le_bytes(self.x as u32);
        let s2 = spec_u32_to_le_bytes(self.y as u32);
        lemma_subrange_split(b, i, s1, s2);
        lemma_i32_cast_roundtrip(self.x);
        lemma_i32_cast_roundtrip(self.y);
    }

    fn write(&self, out: &mut Vec<u8>) {
        let ghost prefix = out@;
        (self.x as u32).write(out);
        (self.y as u32).write(out);
        proof {
            assert(final(out)@ =~= prefix + self.ser());
        }
    }

    fn read(b: &Vec<u8>, i: usize) -> (r: Option<(Position, usize)>) {
        match u32::read(b, i) {
            None => None,
            Some((x, j)) => match u32::read(b, j) {
                None => None,
                Some((y, k)) => Some((Position { x: x as i32, y: y as i32 }, k)),
            },
        }
    }
}

impl Wire for DeltaPosition {
    open spec fn ser(self) -> Seq<u8> {
        seq![self.dx as u8, self.dy as u8]
    }

    open spec fn deser(b: Seq<u8>, i: int) -> Option<(DeltaPosition, int)> {
        if 0 <= i && i + 2 <= b.len() {
            Some((DeltaPosition { dx: b[i] as i8, dy: b[i + 1] as i8 }, i + 2))
        } else {
            None
        }
    }

    proof fn lemma_deser_bounds(b: Seq<u8>, i: int) {
    }

    proof fn lemma_wire_roundtrip(self, b: Seq<u8>, i: int) {
        assert(b.subrange(i, i + 2)[0] == b[i]);
        assert(b.subrange(i, i + 2)[1] == b[i + 1]);
        lemma_i8_cast_roundtrip(self.dx);
        lemma_i8_cast_roundtrip(self.dy);
    }

    fn write(&self, out: &mut Vec<u8>) {
        out.push(self.dx as u8);
        out.push(self.dy as u8);
        proof {
            assert(final(out)@ =~= old(out)@ + self.ser());
        }
    }

    fn read(b: &Vec<u8>, i: usize) -> (r: Option<(DeltaPosition, usize)>) {
        if b.len() >= 2 && i <= b.len() - 2 {
            Some((DeltaPosition { dx: b[i] as i8, dy: b[i + 1] as i8 }, i + 2))
        } else {
            None
        }
    }
}

impl Wire for Color {
    open spec fn ser(self) -> Seq<u8> {
        seq![self.r, self.g, self.b, self.a]
    }

    open spec fn deser(b: Seq<u8>, i: int) -> Option<(Color, int)> {
        if 0 <= i && i + 4 <= b.len() {
            Some((Color { r: b[i], g: b[i + 1], b: b[i + 2], a: b[i + 3] }, i + 4))
        } else {
            None
        }
    }

    proof fn lemma_deser_bounds(b: Seq<u8>, i: int) {
    }

    proof fn lemma_wire_roundtrip(self, b: Seq<u8>, i: int) {
        assert(b.subrange(i, i + 4)[0] == b[i]);
        assert(b.subrange(i, i + 4)[1] == b[i + 1]);
        assert(b.subrange(i, i + 4)[2] == b[i + 2]);
        assert(b.subrange(i, i + 4)[3] == b[i + 3]);
    }

    fn write(&self, out: &mut Vec<u8>) {
        out.push(self.r);
        out.push(self.g);
        out.push(self.b);
        out.push(self.a);
        proof {
            assert(final(out)@ =~= old(out)@ + self.ser());
        }
    }

    fn read(b: &Vec<u8>, i: usize) -> (r: Option<(Color, usize)>) {
        if b.len() >= 4 && i <= b.len() - 4 {
            Some((Color { r: b[i], g: b[i + 1], b: b[i + 2], a: b[i + 3] }, i + 4))
        } else {
            None
        }
    }
}

impl Wire for Rectangle {
    open spec fn ser(self) -> Seq<u8> {
        spec_u32_to_le_bytes(self.width) + spec_u32_to_le_bytes(self.height)
    }

    open spec fn deser(b: Seq<u8>, i: int) -> Option<(Rectangle, int)> {
        match u32::deser(b, i) {
            None => None,
            Some((width, j)) => match u32::deser(b, j) {
                None => None,
                Some((height, k)) => Some((Rectangle { width, height }, k)),
            },
        }
    }

    proof fn lemma_deser_bounds(b: Seq<u8>, i: int) {
    }

    proof fn lemma_wire_roundtrip(self, b: Seq<u8>, i: int) {
        lemma_auto_spec_u32_to_from_le_bytes();
        lemma_subrange_split(
            b,
            i,
            spec_u32_to_le_bytes(self.width),
            spec_u32_to_le_bytes(self.height),
        );
    }

    fn write(&self, out: &mut Vec<u8>) {
        let ghost prefix = out@;
        self.width.write(out);
        self.height.write(out);
        proof {
            assert(final(out)@ =~= prefix + self.ser());
        }
    }

    fn read(b: &Vec<u8>, i: usize) -> (r: Option<(Rectangle, usize)>) {
        match u32::read(b, i) {
            None => None,
            Some((width, j)) => match u32::read(b, j) {
                None => None,
                Some((height, k)) => Some((Rectangle { width, height }, k)),
            },
        }
    }
}

impl Wire for Unchanged {
    /// An `Unchanged` diff occupies no bytes: its presence bit alone
    /// carries the signal.
    open spec fn ser(self) -> Seq<u8> {
        Seq::<u8>::empty()
    }

    open spec fn deser(b: Seq<u8>, i: int) -> Option<(Unchanged, int)> {
        if 0 <= i <= b.len() {
            Some((Unchanged, i))
        } else {
            None
        }
    }

    proof fn lemma_deser_bounds(b: Seq<u8>, i: int) {
    }

    proof fn lemma_wire_roundtrip(self, b: Seq<u8>, i: int) {
    }

    fn write(&self, out: &mut Vec<u8>) {
        proof {
            assert(final(out)@ =~= old(out)@ + self.ser());
        }
    }

    fn read(b: &Vec<u8>, i: usize) -> (r: Option<(Unchanged, usize)>) {
        if i <= b.len() {
            Some((Unchanged, i))
        } else {
            None
        }
    }
}

/// The bytes of a run of values, first value first.
pub open spec fn ser_seq<T: Wire>(v: Seq<T>) -> Seq<u8>
    decreases v.len(),
{
    if v.len() == 0 {
        Seq::<u8>::empty()
    } else {
        v[0].ser() + ser_seq(v.skip(1))
    }
}

/// What parsing a run of exactly `n` values at offset `i` yields.
pub open spec fn de_seq<T: Wire>(b: Seq<u8>, i: int, n: nat) -> Option<(Seq<T>, int)>
    decreases n,
{
    if n == 0 {
        if 0 <= i <= b.len() {
            Some((Seq::<T>::empty(), i))
        } else {
            None
        }
    } else {
        match T::deser(b, i) {
            None => None,
            Some((v, j)) => match de_seq::<T>(b, j, (n - 1) as nat) {
                None => None,
                Some((rest, k)) => Some((seq![v] + rest, k)),
            },
        }
    }
}

/// Appending one value appends its bytes.
pub proof fn lemma_ser_seq_push<T: Wire>(v: Seq<T>, x: T)
    ensures
        ser_seq(v.push(x)) == ser_seq(v) + x.ser(),
    decreases v.len(),
{
    if v.len() == 0 {
        assert(v.push(x) =~= seq![x]);
        assert(ser_seq(seq![x].skip(1)) == ser_seq(Seq::<T>::empty())) by {
            assert(seq![x].skip(1) =~= Seq::<T>::empty());
        }
        assert(ser_seq(v.push(x)) =~= ser_seq(v) + x.ser());
    } else {
        assert(v.push(x).skip(1) =~= v.skip(1).push(x));
        lemma_ser_seq_push(v.skip(1), x);
        assert(v[0].ser() + (ser_seq(v.skip(1)) + x.ser()) =~= (v[0].ser() + ser_seq(v.skip(1)))
            + x.ser());
    }
}

/// A successful run parse starts in bounds and never moves backward
/// nor past the end.
pub proof fn lemma_de_seq_bounds<T: Wire>(b: Seq<u8>, i: int, n: nat)
    requires
        de_seq::<T>(b, i, n) is Some,
    ensures
        0 <= i <= de_seq::<T>(b, i, n).unwrap().1 <= b.len(),
        de_seq::<T>(b, i, n).unwrap().0.len() == n,
    decreases n,
{
    if n != 0 {
        T::lemma_deser_bounds(b, i);
        let (v, j) = T::deser(b, i).unwrap();
        lemma_de_seq_bounds::<T>(b, j, (n - 1) as nat);
    }
}

/// Parsing at the start of a run's own bytes yields the run back.
pub proof fn lemma_de_ser_seq<T: Wire>(v: Seq<T>, b: Seq<u8>, i: int)
    requires
        0 <= i,
        i + ser_seq(v).len() <= b.len(),
        b.subrange(i, i + ser_seq(v).len() as int) == ser_seq(v),
    ensures
        de_seq::<T>(b, i, v.len()) == Some((v, i + ser_seq(v).len() as int)),
    decreases v.len(),
{
    if v.len() != 0 {
        let s1 = v[0].ser();
        let s2 = ser_seq(v.skip(1));
        lemma_subrange_split(b, i, s1, s2);
        v[0].lemma_wire_roundtrip(b, i);
        lemma_de_ser_seq(v.skip(1), b, i + s1.len());
        assert(seq![v[0]] + v.skip(1) =~= v);
    }
}

/// Write a run of values.
pub fn write_seq<T: Wire>(vals: &Vec<T>, out: &mut Vec<u8>)
    ensures
        final(out)@ == old(out)@ + ser_seq(vals@),
{
    let n = vals.len();
    for k in 0..n
        invariant
            n == vals@.len(),
            out@ == old(out)@ + ser_seq(vals@.take(k as int)),
    {
        vals[k].write(out);
        proof {
            assert(vals@.take(k as int).push(vals@[k as int]) =~= vals@.take(k as int + 1));
            lemma_ser_seq_push(vals@.take(k as int), vals@[k as int]);
            assert(old(out)@ + ser_seq(vals@.take(k as int)) + vals@[k as int].ser() =~= old(
                out,
            )@ + ser_seq(vals@.take(k as int + 1)));
        }
    }
    proof {
        assert(vals@.take(n as int) =~= vals@);
    }
}

/// Prepending already-parsed values to the outcome of the rest of a
/// run parse.
pub open spec fn de_seq_prepend<T>(acc: Seq<T>, rest: Option<(Seq<T>, int)>) -> Option<
    (Seq<T>, int),
> {
    match rest {
        None => None,
        Some((v, j)) => Some((acc + v, j)),
    }
}

/// A run parse of `n` values splits into its first `k` values and the
/// run parse of the remaining `n - k` at the position they end.
pub proof fn lemma_de_seq_step<T: Wire>(b: Seq<u8>, i: int, n: nat)
    requires
        n > 0,
        T::deser(b, i) is Some,
    ensures
        de_seq::<T>(b, i, n) == de_seq_prepend(
            seq![T::deser(b, i).unwrap().0],
            de_seq::<T>(b, T::deser(b, i).unwrap().1, (n - 1) as nat),
        ),
{
}

/// Read a run of exactly `n` values.
pub fn read_seq<T: Wire>(b: &Vec<u8>, i: usize, n: usize) -> (r: Option<(Vec<T>, usize)>)
    requires
        i <= b@.len(),
    ensures
        (match de_seq::<T>(b@, i as int, n as nat) {
            Some((v, j)) => r is Some && r.unwrap().0@ == v && r.unwrap().1 as int == j,
            None => r is None,
        }),
{
    let mut acc: Vec<T> = Vec::new();
    let mut cur: usize = i;
    for k in 0..n
        invariant
            i <= b@.len(),
            cur <= b@.len(),
            acc@.len() == k,
            de_seq::<T>(b@, i as int, n as nat) == de_seq_prepend(
                acc@,
                de_seq::<T>(b@, cur as int, (n - k) as nat),
            ),
    {
        match T::read(b, cur) {
            None => {
                return None;
            },
            Some((v, j)) => {
                proof {
                    lemma_de_seq_step::<T>(b@, cur as int, (n - k) as nat);
                    T::lemma_deser_bounds(b@, cur as int);
                }
                let ghost prev = acc@;
                acc.push(v);
                cur = j;
                proof {
                    let rest = de_seq::<T>(b@, cur as int, (n - k - 1) as nat);
                    assert(de_seq_prepend(prev, de_seq_prepend(seq![v], rest))
                        == de_seq_prepend(acc@, rest)) by {
                        match rest {
                            None => {},
                            Some((w, j2)) => {
                                assert(prev + (seq![v] + w) =~= (prev + seq![v]) + w);
                                assert(prev + seq![v] =~= acc@);
                            },
                        }
                    }
                }
            },
        }
    }
    proof {
        if de_seq::<T>(b@, cur as int, 0) is Some {
            assert(acc@ + Seq::<T>::empty() =~= acc@);
        }
    }
    Some((acc, cur))
}

/// The presence bit of each slot.
pub open spec fn bits_of_slots<T>(slots: Seq<Option<T>>) -> Seq<bool> {
    Seq::new(slots.len(), |i: int| slots[i] is Some)
}

/// The values of the present slots, in slot order.
pub open spec fn vals_of_slots<T>(slots: Seq<Option<T>>) -> Seq<T>
    decreases slots.len(),
{
    if slots.len() == 0 {
        Seq::<T>::empty()
    } else {
        vals_of_slots(slots.drop_last()) + (match slots.last() {
            Some(v) => seq![v],
            None => Seq::<T>::empty(),
        })
    }
}

/// There are as many values as set presence bits.
pub proof fn lemma_vals_of_slots_len<T>(slots: Seq<Option<T>>)
    ensures
        vals_of_slots(slots).len() == count_set(bits_of_slots(slots), slots.len() as int),
    decreases slots.len(),
{
    if slots.len() > 0 {
        lemma_vals_of_slots_len(slots.drop_last());
        lemma_count_set_prefix(
            bits_of_slots(slots.drop_last()),
            bits_of_slots(slots),
            slots.len() - 1,
        );
    }
}

/// The value of a present slot stands in the dense value sequence at
/// the index given by the number of present slots before it.
pub proof fn lemma_vals_of_slots_index<T>(slots: Seq<Option<T>>, i: int)
    requires
        0 <= i < slots.len(),
        slots[i] is Some,
    ensures
        count_set(bits_of_slots(slots), i) < vals_of_slots(slots).len(),
        vals_of_slots(slots)[count_set(bits_of_slots(slots), i) as int] == slots[i].unwrap(),
    decreases slots.len(),
{
    let bits = bits_of_slots(slots);
    let dl = slots.drop_last();
    lemma_vals_of_slots_len(slots);
    if i == slots.len() - 1 {
        lemma_vals_of_slots_len(dl);
        lemma_count_set_prefix(bits_of_slots(dl), bits, i);
    } else {
        lemma_vals_of_slots_index(dl, i);
        lemma_count_set_prefix(bits_of_slots(dl), bits, i);
    }
}

/// Recombining presence bits with dense values into slots.
pub open spec fn slots_of<T>(bits: Seq<bool>, vals: Seq<T>) -> Seq<Option<T>> {
    Seq::new(
        bits.len(),
        |i: int|
            if bits[i] {
                Some(vals[count_set(bits, i) as int])
            } else {
                None::<T>
            },
    )
}

/// Decomposing slots into bits and values and recombining them is the
/// identity.
pub proof fn lemma_slots_of_inverse<T>(slots: Seq<Option<T>>)
    ensures
        slots_of(bits_of_slots(slots), vals_of_slots(slots)) == slots,
{
    let bits = bits_of_slots(slots);
    let vals = vals_of_slots(slots);
    assert forall|i: int| 0 <= i < slots.len() implies slots_of(bits, vals)[i] == slots[i] by {
        if slots[i] is Some {
            lemma_vals_of_slots_index(slots, i);
        }
    }
    assert(slots_of(bits, vals) =~= slots);
}

/// The bytes of one bitmask field: the slot count, the presence bits,
/// then the present values in slot order.
pub open spec fn ser_slots<T: Wire>(slots: Seq<Option<T>>) -> Seq<u8> {
    spec_u32_to_le_bytes(slots.len() as u32) + ser_seq::<bool>(bits_of_slots(slots))
        + ser_seq::<T>(vals_of_slots(slots))
}

/// What parsing one bitmask field at offset `i` yields.
pub open spec fn de_slots<T: Wire>(b: Seq<u8>, i: int) -> Option<(Seq<Option<T>>, int)> {
    match u32::deser(b, i) {
        None => None,
        Some((n, j)) => match de_seq::<bool>(b, j, n as nat) {
            None => None,
            Some((bits, k)) => match de_seq::<T>(b, k, count_set(bits, bits.len() as int)) {
                None => None,
                Some((vals, l)) => Some((slots_of(bits, vals), l)),
            },
        },
    }
}

/// A successful field parse starts in bounds and never moves backward
/// nor past the end.
pub proof fn lemma_de_slots_bounds<T: Wire>(b: Seq<u8>, i: int)
    requires
        de_slots::<T>(b, i) is Some,
    ensures
        0 <= i <= de_slots::<T>(b, i).unwrap().1 <= b.len(),
{
    u32::lemma_deser_bounds(b, i);
    let (n, j) = u32::deser(b, i).unwrap();
    lemma_de_seq_bounds::<bool>(b, j, n as nat);
    let (bits, k) = de_seq::<bool>(b, j, n as nat).unwrap();
    lemma_de_seq_bounds::<T>(b, k, count_set(bits, bits.len() as int));
}

/// Parsing at the start of a field's own bytes yields the field back.
pub proof fn lemma_de_ser_slots<T: Wire>(slots: Seq<Option<T>>, b: Seq<u8>, i: int)
    requires
        0 <= i,
        slots.len() <= u32::MAX,
        i + ser_slots::<T>(slots).len() <= b.len(),
        b.subrange(i, i + ser_slots::<T>(slots).len() as int) == ser_slots::<T>(slots),
    ensures
        de_slots::<T>(b, i) == Some((slots, i + ser_slots::<T>(slots).len() as int)),
{
    let s1 = spec_u32_to_le_bytes(slots.len() as u32);
    let s2 = ser_seq::<bool>(bits_of_slots(slots));
    let s3 = ser_seq::<T>(vals_of_slots(slots));
    lemma_auto_spec_u32_to_from_le_bytes();
    assert(ser_slots::<T>(slots) == (s1 + s2) + s3);
    lemma_subrange_split(b, i, s1 + s2, s3);
    lemma_subrange_split(b, i, s1, s2);
    (slots.len() as u32).lemma_wire_roundtrip(b, i);
    lemma_de_ser_seq::<bool>(bits_of_slots(slots), b, i + 4);
    lemma_vals_of_slots_len(slots);
    lemma_de_ser_seq::<T>(vals_of_slots(slots), b, i + 4 + s2.len());
    lemma_slots_of_inverse(slots);
}

impl<T: Wire> NetworkBitmask<T> {
    /// Write this field's wire form.
    pub fn write_bitmask(&self, out: &mut Vec<u8>)
        requires
            self.wf(),
            self.len() <= u32::MAX,
        ensures
            final(out)@ == old(out)@ + ser_slots::<T>(self.slots()),
    {
        let ghost slots = self.slots();
        let n = self.mask_len();
        let mut bitsv: Vec<bool> = Vec::new();
        let mut vals: Vec<T> = Vec::new();
        let mut vi: usize = 0;
        for k in 0..n
            invariant
                self.wf(),
                n == self.len(),
                slots == self.slots(),
                vi == count_set(self.bits(), k as int),
                bitsv@ =~= bits_of_slots(slots).take(k as int),
                vals@ == vals_of_slots(slots.take(k as int)),
        {
            proof {
                lemma_count_set_le(self.bits(), k as int);
            }
            match self.slot_at(k, vi) {
                Some(v) => {
                    bitsv.push(true);
                    vals.push(v);
                    vi = vi + 1;
                },
                None => {
                    bitsv.push(false);
                },
            }
            proof {
                assert(bitsv@ =~= bits_of_slots(slots).take(k as int + 1));
                assert(slots.take(k as int + 1).drop_last() =~= slots.take(k as int));
                assert(vals@ =~= vals_of_slots(slots.take(k as int + 1)));
            }
        }
        proof {
            assert(bitsv@ =~= bits_of_slots(slots));
            assert(slots.take(n as int) =~= slots);
        }
        let ghost prefix = out@;
        let len32: u32 = n as u32;
        len32.write(out);
        write_seq::<bool>(&bitsv, out);
        write_seq::<T>(&vals, out);
        proof {
            assert(final(out)@ =~= prefix + ser_slots::<T>(slots));
        }
    }

    /// Read one field's wire form.
    pub fn read_bitmask(b: &Vec<u8>, i: usize) -> (r: Option<(Self, usize)>)
        ensures
            (match de_slots::<T>(b@, i as int) {
                Some((slots, j)) => {
                    &&& r is Some
                    &&& r.unwrap().0.wf()
                    &&& r.unwrap().0.slots() == slots
                    &&& r.unwrap().1 as int == j
                },
                None => r is None,
            }),
    {
        let (n32, j) = match u32::read(b, i) {
            None => {
                return None;
            },
            Some(p) => p,
        };
        proof {
            u32::lemma_deser_bounds(b@, i as int);
        }
        let n: usize = n32 as usize;
        let (bitsv, k) = match read_seq::<bool>(b, j, n) {
            None => {
                return None;
            },
            Some(p) => p,
        };
        proof {
            lemma_de_seq_bounds::<bool>(b@, j as int, n as nat);
        }
        let mut mask = bv_new();
        let mut cnt: usize = 0;
        let m = bitsv.len();
        for t in 0..m
            invariant
                m == bitsv@.len(),
                m <= u32::MAX,
                bits_of(mask) =~= bitsv@.take(t as int),
                cnt == count_set(bitsv@, t as int),
        {
            proof {
                lemma_count_set_le(bitsv@, t as int);
            }
            let bit = bitsv[t];
            bv_push(&mut mask, bit);
            if bit {
                cnt = cnt + 1;
            }
            proof {
                assert(bits_of(mask) =~= bitsv@.take(t as int + 1));
                lemma_count_set_prefix(bitsv@.take(t as int + 1), bitsv@, t as int + 1);
            }
        }
        proof {
            assert(bits_of(mask) =~= bitsv@);
            lemma_count_set_prefix(bitsv@.take(m as int), bitsv@, m as int);
        }
        let (vals, l) = match read_seq::<T>(b, k, cnt) {
            None => {
                return None;
            },
            Some(p) => p,
        };
        proof {
            lemma_de_seq_bounds::<T>(b@, k as int, cnt as nat);
        }
        let r = NetworkBitmask { entities_mask: mask, values: vals };
        proof {
            let slots = de_slots::<T>(b@, i as int).unwrap().0;
            assert(r.slots() =~= slots_of(bitsv@, vals@));
        }
        Some((r, l))
    }
}

} // verus!

use crate::packet::{DeltaModel, NetworkDeltaPacket, NetworkPacket, SnapshotModel};
use crate::delta::slots_disjoint;

verus! {

/// The bytes of an entity-id list: the count, then the ids.
pub open spec fn ser_ids(ids: Seq<u32>) -> Seq<u8> {
    spec_u32_to_le_bytes(ids.len() as u32) + ser_seq::<u32>(ids)
}

/// What parsing an entity-id list at offset `i` yields.
pub open spec fn de_ids(b: Seq<u8>, i: int) -> Option<(Seq<u32>, int)> {
    match u32::deser(b, i) {
        None => None,
        Some((n, j)) => de_seq::<u32>(b, j, n as nat),
    }
}


/// Parsing at the start of an id list's own bytes yields the list back.
pub proof fn lemma_de_ser_ids(ids: Seq<u32>, b: Seq<u8>, i: int)
    requires
        0 <= i,
        ids.len() <= u32::MAX,
        i + ser_ids(ids).len() <= b.len(),
        b.subrange(i, i + ser_ids(ids).len() as int) == ser_ids(ids),
    ensures
        de_ids(b, i) == Some((ids, i + ser_ids(ids).len() as int)),
{
    lemma_auto_spec_u32_to_from_le_bytes();
    lemma_subrange_split(b, i, spec_u32_to_le_bytes(ids.len() as u32), ser_seq::<u32>(ids));
    (ids.len() as u32).lemma_wire_roundtrip(b, i);
    lemma_de_ser_seq::<u32>(ids, b, i + 4);
}

/// Write an entity-id list.
pub fn write_ids(ids: &Vec<u32>, out: &mut Vec<u8>)
    requires
        ids@.len() <= u32::MAX,
    ensures
        final(out)@ == old(out)@ + ser_ids(ids@),
{
    let ghost prefix = out@;
    let n32: u32 = ids.len() as u32;
    n32.write(out);
    write_seq::<u32>(ids, out);
    proof {
        assert(final(out)@ =~= prefix + ser_ids(ids@));
    }
}

/// Read an entity-id list.
pub fn read_ids(b: &Vec<u8>, i: usize) -> (r: Option<(Vec<u32>, usize)>)
    ensures
        (match de_ids(b@, i as int) {
            Some((ids, j)) => r is Some && r.unwrap().0@ == ids && r.unwrap().1 as int == j,
            None => r is None,
        }),
{
    match u32::read(b, i) {
        None => None,
        Some((n32, j)) => {
            proof {
                u32::lemma_deser_bounds(b@, i as int);
            }
            read_seq::<u32>(b, j, n32 as usize)
        },
    }
}

/// Lengths small enough that every count fits its wire field.
pub open spec fn snapshot_serializable(m: SnapshotModel) -> bool {
    &&& m.ids.len() <= u32::MAX
    &&& m.positions.len() <= u32::MAX
    &&& m.colors.len() <= u32::MAX
    &&& m.rectangles.len() <= u32::MAX
}

/// Every field mask covers exactly the entity-id list.
pub open spec fn snapshot_coherent(m: SnapshotModel) -> bool {
    &&& m.positions.len() == m.ids.len()
    &&& m.colors.len() == m.ids.len()
    &&& m.rectangles.len() == m.ids.len()
}

/// The bytes of a snapshot packet.
pub open spec fn ser_snapshot(m: SnapshotModel) -> Seq<u8> {
    spec_u32_to_le_bytes(m.frame) + ser_ids(m.ids) + ser_slots::<Position>(m.positions)
        + ser_slots::<Color>(m.colors) + ser_slots::<Rectangle>(m.rectangles)
}

/// What parsing a snapshot packet at offset `i` yields. A packet
/// whose field masks do not cover its entity-id list is rejected.
pub open spec fn de_snapshot(b: Seq<u8>, i: int) -> Option<(SnapshotModel, int)> {
    match u32::deser(b, i) {
        None => None,
        Some((frame, i1)) => match de_ids(b, i1) {
            None => None,
            Some((ids, i2)) => match de_slots::<Position>(b, i2) {
                None => None,
                Some((positions, i3)) => match de_slots::<Color>(b, i3) {
                    None => None,
                    Some((colors, i4)) => match de_slots::<Rectangle>(b, i4) {
                        None => None,
                        Some((rectangles, i5)) => {
                            let m = SnapshotModel { frame, ids, positions, colors, rectangles };
                            if snapshot_coherent(m) {
                                Some((m, i5))
                            } else {
                                None
                            }
                        },
                    },
                },
            },
        },
    }
}


/// Parsing at the start of a snapshot's own bytes yields it back.
pub proof fn lemma_de_ser_snapshot(m: SnapshotModel, b: Seq<u8>, i: int)
    requires
        0 <= i,
        snapshot_serializable(m),
        snapshot_coherent(m),
        i + ser_snapshot(m).len() <= b.len(),
        b.subrange(i, i + ser_snapshot(m).len() as int) == ser_snapshot(m),
    ensures
        de_snapshot(b, i) == Some((m, i + ser_snapshot(m).len() as int)),
{
    lemma_auto_spec_u32_to_from_le_bytes();
    let s1 = spec_u32_to_le_bytes(m.frame);
    let s2 = ser_ids(m.ids);
    let s3 = ser_slots::<Position>(m.positions);
    let s4 = ser_slots::<Color>(m.colors);
    let s5 = ser_slots::<Rectangle>(m.rectangles);
    lemma_subrange_split(b, i, s1 + s2 + s3 + s4, s5);
    lemma_subrange_split(b, i, s1 + s2 + s3, s4);
    lemma_subrange_split(b, i, s1 + s2, s3);
    lemma_subrange_split(b, i, s1, s2);
    m.frame.lemma_wire_roundtrip(b, i);
    lemma_de_ser_ids(m.ids, b, i + 4);
    lemma_de_ser_slots::<Position>(m.positions, b, i + s1.len() + s2.len());
    lemma_de_ser_slots::<Color>(m.colors, b, i + s1.len() + s2.len() + s3.len());
    lemma_de_ser_slots::<Rectangle>(
        m.rectangles,
        b,
        i + s1.len() + s2.len() + s3.len() + s4.len(),
    );
}

/// Snapshot wire round-trip: parsing a serialized snapshot gives the
/// snapshot back, whole.
pub proof fn lemma_snapshot_wire_roundtrip(m: SnapshotModel)
    requires
        snapshot_serializable(m),
        snapshot_coherent(m),
    ensures
        de_snapshot(ser_snapshot(m), 0) == Some((m, ser_snapshot(m).len() as int)),
{
    let b = ser_snapshot(m);
    assert(b.subrange(0, b.len() as int) =~= b);
    lemma_de_ser_snapshot(m, b, 0);
}

impl NetworkPacket {
    /// The compact binary serialization of this packet.
    pub fn serialize(&self) -> (out: Vec<u8>)
        requires
            self.wf(),
            self.entities_id@.len() <= u32::MAX,
        ensures
            out@ == ser_snapshot(self.model()),
    {
        let mut out: Vec<u8> = Vec::new();
        self.frame.write(&mut out);
        write_ids(&self.entities_id, &mut out);
        self.positions.write_bitmask(&mut out);
        self.colors.write_bitmask(&mut out);
        self.rectangles.write_bitmask(&mut out);
        proof {
            assert(out@ =~= ser_snapshot(self.model()));
        }
        out
    }

    /// Parse one snapshot packet at offset `i`.
    pub fn read_snapshot(b: &Vec<u8>, i: usize) -> (r: Option<(NetworkPacket, usize)>)
        ensures
            (match de_snapshot(b@, i as int) {
                Some((m, j)) => {
                    &&& r is Some
                    &&& r.unwrap().0.wf()
                    &&& r.unwrap().0.model() == m
                    &&& r.unwrap().1 as int == j
                },
                None => r is None,
            }),
    {
        let (frame, i1) = match u32::read(b, i) {
            None => {
                return None;
            },
            Some(p) => p,
        };
        let (entities_id, i2) = match read_ids(b, i1) {
            None => {
                return None;
            },
            Some(p) => p,
        };
        let (positions, i3) = match NetworkBitmask::<Position>::read_bitmask(b, i2) {
            None => {
                return None;
            },
            Some(p) => p,
        };
        let (colors, i4) = match NetworkBitmask::<Color>::read_bitmask(b, i3) {
            None => {
                return None;
            },
            Some(p) => p,
        };
        let (rectangles, i5) = match NetworkBitmask::<Rectangle>::read_bitmask(b, i4) {
            None => {
                return None;
            },
            Some(p) => p,
        };
        let n = entities_id.len();
        if positions.mask_len() != n || colors.mask_len() != n || rectangles.mask_len() != n {
            return None;
        }
        let r = NetworkPacket { frame, entities_id, positions, colors, rectangles };
        proof {
            assert(r.model() =~= de_snapshot(b@, i as int).unwrap().0);
        }
        Some((r, i5))
    }
}

} // verus!

verus! {

/// Whether two masks of equal length never hold a value at the same
/// slot, read off the presence bits alone.
pub fn masks_disjoint<A: Copy, B: Copy>(a: &NetworkBitmask<A>, b: &NetworkBitmask<B>) -> (r:
    bool)
    requires
        a.len() == b.len(),
    ensures
        r == slots_disjoint(a.slots(), b.slots()),
{
    let n = a.mask_len();
    for p in 0..n
        invariant
            n == a.len(),
            n == b.len(),
            forall|q: int|
                0 <= q < p ==> !(#[trigger] a.slots()[q] is Some && b.slots()[q] is Some),
    {
        let abit = crate::bits::bv_get(&a.entities_mask, p);
        let bbit = crate::bits::bv_get(&b.entities_mask, p);
        if abit == Some(true) && bbit == Some(true) {
            proof {
                assert(a.slots()[p as int] is Some);
                assert(b.slots()[p as int] is Some);
            }
            return false;
        }
    }
    true
}

/// Lengths small enough that every count fits its wire field.
pub open spec fn delta_serializable(m: DeltaModel) -> bool {
    &&& m.ids.len() <= u32::MAX
    &&& m.new_positions.len() <= u32::MAX
    &&& m.new_colors.len() <= u32::MAX
    &&& m.new_rectangles.len() <= u32::MAX
    &&& m.diff_positions.len() <= u32::MAX
    &&& m.diff_colors.len() <= u32::MAX
    &&& m.diff_rectangles.len() <= u32::MAX
}

/// Every mask covers exactly the entity-id list, and per field the
/// new-mask and the delta-mask are disjoint.
pub open spec fn delta_coherent(m: DeltaModel) -> bool {
    &&& m.new_positions.len() == m.ids.len()
    &&& m.new_colors.len() == m.ids.len()
    &&& m.new_rectangles.len() == m.ids.len()
    &&& m.diff_positions.len() == m.ids.len()
    &&& m.diff_colors.len() == m.ids.len()
    &&& m.diff_rectangles.len() == m.ids.len()
    &&& slots_disjoint(m.new_positions, m.diff_positions)
    &&& slots_disjoint(m.new_colors, m.diff_colors)
    &&& slots_disjoint(m.new_rectangles, m.diff_rectangles)
}

/// The bytes of a delta packet.
pub open spec fn ser_delta(m: DeltaModel) -> Seq<u8> {
    spec_u32_to_le_bytes(m.frame) + spec_u32_to_le_bytes(m.snapshot_frame) + ser_ids(m.ids)
        + ser_slots::<Position>(m.new_positions) + ser_slots::<Color>(m.new_colors)
        + ser_slots::<Rectangle>(m.new_rectangles) + ser_slots::<DeltaPosition>(m.diff_positions)
        + ser_slots::<Unchanged>(m.diff_colors) + ser_slots::<Unchanged>(m.diff_rectangles)
}

/// What parsing a delta packet at offset `i` yields. A packet whose
/// masks do not cover its entity-id list, or whose new-mask and
/// delta-mask overlap on some field, is rejected.
pub open spec fn de_delta(b: Seq<u8>, i: int) -> Option<(DeltaModel, int)> {
    match u32::deser(b, i) {
        None => None,
        Some((frame, i1)) => match u32::deser(b, i1) {
            None => None,
            Some((snapshot_frame, i2)) => match de_ids(b, i2) {
                None => None,
                Some((ids, i3)) => match de_slots::<Position>(b, i3) {
                    None => None,
                    Some((new_positions, i4)) => match de_slots::<Color>(b, i4) {
                        None => None,
                        Some((new_colors, i5)) => match de_slots::<Rectangle>(b, i5) {
                            None => None,
                            Some((new_rectangles, i6)) => match de_slots::<DeltaPosition>(b, i6) {
                                None => None,
                                Some((diff_positions, i7)) => match de_slots::<Unchanged>(b, i7) {
                                    None => None,
                                    Some((diff_colors, i8)) => match de_slots::<Unchanged>(
                                        b,
                                        i8,
                                    ) {
                                        None => None,
                                        Some((diff_rectangles, i9)) => {
                                            let m = DeltaModel {
                                                frame,
                                                snapshot_frame,
                                                ids,
                                                new_positions,
                                                new_colors,
                                                new_rectangles,
                                                diff_positions,
                                                diff_colors,
                                                diff_rectangles,
                                            };
                                            if delta_coherent(m) {
                                                Some((m, i9))
                                            } else {
                                                None
                                            }
                                        },
                                    },
                                },
                            },
                        },
                    },
                },
            },
        },
    }
}


/// Parsing at the start of a delta's own bytes yields it back.
pub proof fn lemma_de_ser_delta(m: DeltaModel, b: Seq<u8>, i: int)
    requires
        0 <= i,
        delta_serializable(m),
        delta_coherent(m),
        i + ser_delta(m).len() <= b.len(),
        b.subrange(i, i + ser_delta(m).len() as int) == ser_delta(m),
    ensures
        de_delta(b, i) == Some((m, i + ser_delta(m).len() as int)),
{
    lemma_auto_spec_u32_to_from_le_bytes();
    let s1 = spec_u32_to_le_bytes(m.frame);
    let s2 = spec_u32_to_le_bytes(m.snapshot_frame);
    let s3 = ser_ids(m.ids);
    let s4 = ser_slots::<Position>(m.new_positions);
    let s5 = ser_slots::<Color>(m.new_colors);
    let s6 = ser_slots::<Rectangle>(m.new_rectangles);
    let s7 = ser_slots::<DeltaPosition>(m.diff_positions);
    let s8 = ser_slots::<Unchanged>(m.diff_colors);
    let s9 = ser_slots::<Unchanged>(m.diff_rectangles);
    lemma_subrange_split(b, i, s1 + s2 + s3 + s4 + s5 + s6 + s7 + s8, s9);
    lemma_subrange_split(b, i, s1 + s2 + s3 + s4 + s5 + s6 + s7, s8);
    lemma_subrange_split(b, i, s1 + s2 + s3 + s4 + s5 + s6, s7);
    lemma_subrange_split(b, i, s1 + s2 + s3 + s4 + s5, s6);
    lemma_subrange_split(b, i, s1 + s2 + s3 + s4, s5);
    lemma_subrange_split(b, i, s1 + s2 + s3, s4);
    lemma_subrange_split(b, i, s1 + s2, s3);
    lemma_subrange_split(b, i, s1, s2);
    m.frame.lemma_wire_roundtrip(b, i);
    m.snapshot_frame.lemma_wire_roundtrip(b, i + 4);
    lemma_de_ser_ids(m.ids, b, i + 8);
    lemma_de_ser_slots::<Position>(m.new_positions, b, i + 8 + s3.len());
    lemma_de_ser_slots::<Color>(m.new_colors, b, i + 8 + s3.len() + s4.len());
    lemma_de_ser_slots::<Rectangle>(m.new_rectangles, b, i + 8 + s3.len() + s4.len() + s5.len());
    lemma_de_ser_slots::<DeltaPosition>(
        m.diff_positions,
        b,
        i + 8 + s3.len() + s4.len() + s5.len() + s6.len(),
    );
    lemma_de_ser_slots::<Unchanged>(
        m.diff_colors,
        b,
        i + 8 + s3.len() + s4.len() + s5.len() + s6.len() + s7.len(),
    );
    lemma_de_ser_slots::<Unchanged>(
        m.diff_rectangles,
        b,
        i + 8 + s3.len() + s4.len() + s5.len() + s6.len() + s7.len() + s8.len(),
    );
}

/// Delta wire round-trip: parsing a serialized delta gives the delta
/// back, whole.
pub proof fn lemma_delta_wire_roundtrip(m: DeltaModel)
    requires
        delta_serializable(m),
        delta_coherent(m),
    ensures
        de_delta(ser_delta(m), 0) == Some((m, ser_delta(m).len() as int)),
{
    let b = ser_delta(m);
    assert(b.subrange(0, b.len() as int) =~= b);
    lemma_de_ser_delta(m, b, 0);
}

impl NetworkDeltaPacket {
    /// The compact binary serialization of this delta packet.
    pub fn serialize(&self) -> (out: Vec<u8>)
        requires
            self.wf(),
            self.entities_id@.len() <= u32::MAX,
        ensures
            out@ == ser_delta(self.model()),
    {
        let mut out: Vec<u8> = Vec::new();
        self.frame.write(&mut out);
        self.snapshot_frame.write(&mut out);
        write_ids(&self.entities_id, &mut out);
        self.positions.write_bitmask(&mut out);
        self.colors.write_bitmask(&mut out);
        self.rectangles.write_bitmask(&mut out);
        self.delta_positions.write_bitmask(&mut out);
        self.delta_colors.write_bitmask(&mut out);
        self.delta_rectangles.write_bitmask(&mut out);
        proof {
            assert(out@ =~= ser_delta(self.model()));
        }
        out
    }

    /// Parse one delta packet at offset `i`.
    pub fn read_delta(b: &Vec<u8>, i: usize) -> (r: Option<(NetworkDeltaPacket, usize)>)
        ensures
            (match de_delta(b@, i as int) {
                Some((m, j)) => {
                    &&& r is Some
                    &&& r.unwrap().0.wf()
                    &&& r.unwrap().0.model() == m
                    &&& r.unwrap().1 as int == j
                },
                None => r is None,
            }),
    {
        let (frame, i1) = match u32::read(b, i) {
            None => {
                return None;
            },
            Some(p) => p,
        };
        let (snapshot_frame, i2) = match u32::read(b, i1) {
            None => {
                return None;
            },
            Some(p) => p,
        };
        let (entities_id, i3) = match read_ids(b, i2) {
            None => {
                return None;
            },
            Some(p) => p,
        };
        let (positions, i4) = match NetworkBitmask::<Position>::read_bitmask(b, i3) {
            None => {
                return None;
            },
            Some(p) => p,
        };
        let (colors, i5) = match NetworkBitmask::<Color>::read_bitmask(b, i4) {
            None => {
                return None;
            },
            Some(p) => p,
        };
        let (rectangles, i6) = match NetworkBitmask::<Rectangle>::read_bitmask(b, i5) {
            None => {
                return None;
            },
            Some(p) => p,
        };
        let (delta_positions, i7) = match NetworkBitmask::<DeltaPosition>::read_bitmask(b, i6) {
            None => {
                return None;
            },
            Some(p) => p,
        };
        let (delta_colors, i8) = match NetworkBitmask::<Unchanged>::read_bitmask(b, i7) {
            None => {
                return None;
            },
            Some(p) => p,
        };
        let (delta_rectangles, i9) = match NetworkBitmask::<Unchanged>::read_bitmask(b, i8) {
            None => {
                return None;
            },
            Some(p) => p,
        };
        let n = entities_id.len();
        if positions.mask_len() != n || colors.mask_len() != n || rectangles.mask_len() != n
            || delta_positions.mask_len() != n || delta_colors.mask_len() != n
            || delta_rectangles.mask_len() != n {
            return None;
        }
        if !masks_disjoint(&positions, &delta_positions) || !masks_disjoint(
            &colors,
            &delta_colors,
        ) || !masks_disjoint(&rectangles, &delta_rectangles) {
            return None;
        }
        let r = NetworkDeltaPacket {
            frame,
            snapshot_frame,
            entities_id,
            positions,
            colors,
            rectangles,
            delta_positions,
            delta_colors,
            delta_rectangles,
        };
        proof {
            assert(r.model() =~= de_delta(b@, i as int).unwrap().0);
        }
        Some((r, i9))
    }
}

} // verus!
