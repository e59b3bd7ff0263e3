//! The primitive readers: variable-length integers, fixed-width big-endian
//! integers and length-delimited runs, each read from the front of a
//! `ByteSource`.

use crate::source::{head, tail, ByteSource};
use vstd::arithmetic::div_mod::{lemma_add_mod_noop, lemma_mul_mod_noop_general};
use vstd::arithmetic::power2::{lemma2_to64, lemma2_to64_rest, lemma_pow2_adds, pow2};
use vstd::prelude::*;

verus! {

/// Two to the power 64: the number of values of the decoded integers.
pub open spec fn word() -> nat {
    0x1_0000_0000_0000_0000
}

/// The number of octets of the variable-length integer at the front of `s`:
/// it ends with the first octet whose high bit is clear. `None` where `s`
/// holds no such octet.
pub open spec fn varint_len(s: Seq<u8>) -> Option<nat>
    decreases s.len(),
{
    if s.len() == 0 {
        None
    } else if s[0] & 0x80 == 0 {
        Some(1)
    } else {
        match varint_len(s.skip(1)) {
            Some(n) => Some(n + 1),
            None => None,
        }
    }
}

/// The sum of the low seven bits of each octet of `s`, the octet at index
/// `i` weighted by two to the power `7 * i`.
pub open spec fn varint_sum(s: Seq<u8>) -> nat
    decreases s.len(),
{
    if s.len() == 0 {
        0
    } else {
        varint_sum(s.drop_last()) + (s.last() & 0x7f) as nat * pow2((7 * (s.len() - 1)) as nat)
    }
}

/// The value that the octets `s` encode: their weighted sum, reduced modulo
/// two to the power 64.
pub open spec fn varint_value(s: Seq<u8>) -> u64 {
    (varint_sum(s) % word()) as u64
}

/// The variable-length integer at the front of `s`, where one ends there.
pub open spec fn varint_at(s: Seq<u8>) -> Option<u64> {
    match varint_len(s) {
        Some(n) => Some(varint_value(s.take(n as int))),
        None => None,
    }
}

/// The number of octets that reading a variable-length integer from `s`
/// uses up: those of the integer, or all of `s` where none ends.
pub open spec fn varint_span(s: Seq<u8>) -> nat {
    match varint_len(s) {
        Some(n) => n,
        None => s.len(),
    }
}

/// The length-delimited run at the front of `s`: the length that it
/// declares and the octets behind the length, as many as declared or, where
/// `s` ends before that, those that are there. `None` where the length does
/// not end.
pub open spec fn run_at(s: Seq<u8>) -> Option<(u64, Seq<u8>)> {
    match varint_at(s) {
        Some(len) => Some((len, head(tail(s, varint_span(s)), len as nat))),
        None => None,
    }
}

/// What is left of `s` behind the length-delimited run at its front.
pub open spec fn run_rest(s: Seq<u8>) -> Seq<u8> {
    match varint_at(s) {
        Some(len) => tail(tail(s, varint_span(s)), len as nat),
        None => tail(s, varint_span(s)),
    }
}

/// The number that the octets `s` spell in base 256, first octet highest.
pub open spec fn big_endian(s: Seq<u8>) -> nat
    decreases s.len(),
{
    if s.len() == 0 {
        0
    } else {
        big_endian(s.drop_last()) * 256 + s.last() as nat
    }
}

/// Whether every octet of `s` lies in the range 0x20 to 0x7f, both included.
pub open spec fn printable(s: Seq<u8>) -> bool {
    forall|i: int| 0 <= i < s.len() ==> 0x20 <= #[trigger] s[i] <= 0x7f
}

/// The integer at the front of `s` never reaches beyond `s`.
pub proof fn lemma_varint_len_bound(s: Seq<u8>)
    ensures
        varint_len(s) matches Some(n) ==> 0 < n <= s.len(),
        varint_span(s) <= s.len(),
        s.len() > 0 ==> varint_span(s) > 0,
    decreases s.len(),
{
    if s.len() > 0 && s[0] & 0x80 != 0 {
        lemma_varint_len_bound(s.skip(1));
    }
}

/// Behind `i` octets that all have the high bit set, the integer at the
/// front of `s` ends where the one at the front of the rest ends.
proof fn lemma_varint_len_skip(s: Seq<u8>, i: nat)
    requires
        i <= s.len(),
        forall|j: int| 0 <= j < i ==> #[trigger] s[j] & 0x80 != 0,
    ensures
        varint_len(s) == match varint_len(s.skip(i as int)) {
            Some(n) => Some(n + i),
            None => None,
        },
    decreases i,
{
    if i == 0 {
        assert(s.skip(0) =~= s);
    } else {
        let t = s.skip(1);
        assert forall|j: int| 0 <= j < i - 1 implies #[trigger] t[j] & 0x80 != 0 by {
            assert(t[j] == s[j + 1]);
        }
        lemma_varint_len_skip(t, (i - 1) as nat);
        assert(t.skip(i - 1) =~= s.skip(i as int));
    }
}

/// An integer that ends within `front` is the integer at the front of
/// every input that begins with `front`.
pub proof fn lemma_varint_extend(front: Seq<u8>, back: Seq<u8>)
    requires
        varint_len(front) is Some,
    ensures
        varint_len(front + back) == varint_len(front),
        varint_at(front + back) == varint_at(front),
    decreases front.len(),
{
    lemma_varint_len_bound(front);
    let whole = front + back;
    let n = varint_len(front)->Some_0;
    assert(whole[0] == front[0]);
    if front[0] & 0x80 != 0 {
        assert(whole.skip(1) =~= front.skip(1) + back);
        lemma_varint_extend(front.skip(1), back);
    }
    assert(whole.take(n as int) =~= front.take(n as int));
}

/// A variable-length integer of which some octets have been read, none of
/// them the last. Its view is those octets.
pub struct Partial {
    acc: u64,
    weight: u64,
    seen: Ghost<Seq<u8>>,
}

/// What an octet makes of a `Partial`: the integer's value where the octet
/// ends it, else the `Partial` with one octet more.
pub enum Progress {
    More(Partial),
    Value(u64),
}

impl View for Partial {
    type V = Seq<u8>;

    closed spec fn view(&self) -> Seq<u8> {
        self.seen@
    }
}

impl Partial {
    #[verifier::type_invariant]
    spec fn sound(&self) -> bool {
        &&& forall|j: int| 0 <= j < self.seen@.len() ==> #[trigger] self.seen@[j] & 0x80 != 0
        &&& self.acc == varint_sum(self.seen@) % word()
        &&& self.weight == pow2(7 * self.seen@.len()) % word()
    }

    /// An integer of which nothing has been read yet.
    pub fn new() -> (fresh: Partial)
        ensures
            fresh@ == Seq::<u8>::empty(),
    {
        proof {
            lemma2_to64();
        }
        Partial { acc: 0, weight: 1, seen: Ghost(Seq::empty()) }
    }

    /// Takes the next octet `b` of the integer: its low seven bits are added
    /// at their weight, and its high bit tells whether the integer goes on.
    pub fn push(self, b: u8) -> (next: Progress)
        ensures
            match next {
                Progress::More(partial) => {
                    &&& b & 0x80 != 0
                    &&& partial@ == self@.push(b)
                    &&& varint_len(partial@) is None
                },
                Progress::Value(value) => {
                    &&& b & 0x80 == 0
                    &&& varint_len(self@.push(b)) == Some(self@.len() + 1)
                    &&& varint_at(self@.push(b)) == Some(value)
                },
            },
    {
        let ghost before = self.seen@;
        let ghost after = before.push(b);
        let low: u64 = (b & 0x7f) as u64;
        proof {
            use_type_invariant(&self);
            let sum = varint_sum(before);
            let place = pow2(7 * before.len());
            assert(after.drop_last() =~= before);
            assert(varint_sum(after) == sum + low * place);
            lemma_mul_mod_noop_general(low as int, place as int, word() as int);
            lemma_add_mod_noop(sum as int, low * place, word() as int);
            lemma_pow2_adds(7 * before.len(), 7);
            lemma2_to64();
            lemma_mul_mod_noop_general(place as int, 128, word() as int);
            assert(pow2(7 * after.len()) == place * 128);
            lemma_varint_len_skip(after, before.len());
            assert(after.skip(before.len() as int) =~= seq![b]);
            assert(varint_len(seq![b].skip(1)) is None);
            assert(after.take(after.len() as int) =~= after);
        }
        let acc = self.acc.wrapping_add(low.wrapping_mul(self.weight));
        if b & 0x80 == 0 {
            Progress::Value(acc)
        } else {
            Progress::More(Partial { acc, weight: self.weight.wrapping_mul(128), seen: Ghost(after) })
        }
    }
}

/// Reads a variable-length integer: octets up to the first one whose high
/// bit is clear, low-order group first. `None` where the source ends before
/// such an octet, which leaves the source exhausted.
pub fn read_leb128(bytes: &mut ByteSource) -> (value: Option<u64>)
    ensures
        value == varint_at(old(bytes)@),
        final(bytes)@ == tail(old(bytes)@, varint_span(old(bytes)@)),
{
    let ghost s = bytes@;
    let mut partial = Partial::new();
    proof {
        assert(s.skip(0) =~= s);
        assert(s.take(0) =~= Seq::<u8>::empty());
    }
    loop
        invariant
            s == old(bytes)@,
            partial@.len() <= s.len(),
            partial@ == s.take(partial@.len() as int),
            bytes@ == s.skip(partial@.len() as int),
            varint_len(partial@) is None,
        decreases s.len() - partial@.len(),
    {
        let ghost i = partial@.len() as int;
        let b = match bytes.next() {
            None => {
                proof {
                    assert(s.take(i) =~= s);
                    assert(bytes@ =~= tail(s, s.len()));
                }
                return None;
            },
            Some(b) => b,
        };
        proof {
            assert(b == s[i]);
            assert(s.take(i).push(b) =~= s.take(i + 1));
            assert(bytes@ =~= s.skip(i + 1));
        }
        match partial.push(b) {
            Progress::Value(value) => {
                proof {
                    lemma_varint_extend(s.take(i + 1), s.skip(i + 1));
                    assert(s.take(i + 1) + s.skip(i + 1) =~= s);
                    assert(bytes@ =~= tail(s, (i + 1) as nat));
                }
                return Some(value);
            },
            Progress::More(longer) => {
                partial = longer;
            },
        }
    }
}

/// Reads a length-delimited run: a variable-length integer, then as many
/// octets as it says, or those that are left where the source ends before
/// that. Returns the declared length with the octets; `None` where the
/// source ends inside the length.
pub fn read_run(bytes: &mut ByteSource) -> (run: Option<(u64, Vec<u8>)>)
    ensures
        match run_at(old(bytes)@) {
            Some((len, octets)) => run matches Some(found) && found.0 == len && found.1@
                == octets,
            None => run is None,
        },
        final(bytes)@ == run_rest(old(bytes)@),
{
    match read_leb128(bytes) {
        None => None,
        Some(len) => {
            let octets = bytes.take(len);
            Some((len, octets))
        },
    }
}

/// The number that up to eight octets spell, first octet highest.
fn fold_big_endian(run: &Vec<u8>) -> (value: u64)
    requires
        run.len() <= 8,
    ensures
        value == big_endian(run@),
        value < pow2(8 * run@.len()),
{
    let mut acc: u64 = 0;
    let mut i: usize = 0;
    proof {
        lemma2_to64();
        assert(run@.take(0) =~= Seq::<u8>::empty());
    }
    while i < run.len()
        invariant
            i <= run.len() <= 8,
            acc == big_endian(run@.take(i as int)),
            acc < pow2((8 * i) as nat),
        decreases run.len() - i,
    {
        let b = run[i];
        proof {
            lemma2_to64();
            lemma2_to64_rest();
            lemma_pow2_adds((8 * i) as nat, 8);
            assert(acc < 0x100_0000_0000_0000) by {
                if i == 0 {
                } else if i == 1 {
                } else if i == 2 {
                } else if i == 3 {
                } else if i == 4 {
                } else if i == 5 {
                } else if i == 6 {
                } else {
                }
            }
            assert((acc << 8) | (b as u64) == acc * 256 + b) by (bit_vector)
                requires
                    acc < 0x100_0000_0000_0000,
            ;
            assert(run@.take(i + 1).drop_last() =~= run@.take(i as int));
            assert(acc * 256 + b < pow2((8 * i) as nat) * 256) by (nonlinear_arith)
                requires
                    acc < pow2((8 * i) as nat),
                    b < 256,
            ;
        }
        acc = (acc << 8) | (b as u64);
        i = i + 1;
    }
    assert(run@.take(run@.len() as int) =~= run@);
    acc
}

/// Reads a 32-bit integer: up to four octets, first octet highest. Where
/// fewer than four are left, those spell the number.
pub fn read_fixed32(bytes: &mut ByteSource) -> (value: u32)
    ensures
        value == big_endian(head(old(bytes)@, 4)),
        final(bytes)@ == tail(old(bytes)@, 4),
{
    let run = bytes.take(4);
    let wide = fold_big_endian(&run);
    proof {
        lemma2_to64();
        if run@.len() < 4 {
            lemma_pow2_grows(8 * run@.len(), 32);
        }
    }
    wide as u32
}

/// Reads a 64-bit integer: up to eight octets, first octet highest. Where
/// fewer than eight are left, those spell the number.
pub fn read_fixed64(bytes: &mut ByteSource) -> (value: u64)
    ensures
        value == big_endian(head(old(bytes)@, 8)),
        final(bytes)@ == tail(old(bytes)@, 8),
{
    let run = bytes.take(8);
    fold_big_endian(&run)
}

proof fn lemma_pow2_grows(a: nat, b: nat)
    requires
        a <= b,
    ensures
        pow2(a) <= pow2(b),
{
    if a < b {
        vstd::arithmetic::power2::lemma_pow2_strictly_increases(a, b);
    }
}

/// Whether every octet of `s` lies in the range 0x20 to 0x7f.
pub fn all_printable(s: &Vec<u8>) -> (yes: bool)
    ensures
        yes == printable(s@),
{
    let mut i: usize = 0;
    while i < s.len()
        invariant
            i <= s.len(),
            forall|j: int| 0 <= j < i ==> 0x20 <= #[trigger] s@[j] <= 0x7f,
        decreases s.len() - i,
    {
        let b = s[i];
        if b < 0x20 || b > 0x7f {
            return false;
        }
        i = i + 1;
    }
    true
}

} // verus!
