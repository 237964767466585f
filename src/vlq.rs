//! Base64 variable-length quantities: the wire format of an encoded trace.
use vstd::prelude::*;

verus! {

/// Why a codeword could not be read.
#[derive(Debug, Clone, Copy, PartialEq, Eq, Structural)]
pub enum VlqError {
    /// The input ended before a symbol without the continuation flag.
    UnexpectedEof,
}

/// The most symbols one codeword may hold.
pub const VLQ_MAX_IN_BYTES: usize = 7;

/// The symbol that stands for the six-bit digit `d`: `A`-`Z`, `a`-`z`, `0`-`9`, `-`, `_`.
pub open spec fn symbol(d: nat) -> u8 {
    if d < 26 {
        (65 + d) as u8
    } else if d < 52 {
        (97 + (d - 26)) as u8
    } else if d < 62 {
        (48 + (d - 52)) as u8
    } else if d == 62 {
        45u8
    } else {
        95u8
    }
}

/// Whether `b` belongs to the 64-symbol alphabet.
pub open spec fn is_symbol(b: u8) -> bool {
    (65 <= b <= 90) || (97 <= b <= 122) || (48 <= b <= 57) || b == 45 || b == 95
}

/// The six-bit digit that the byte `b` stands for; a byte outside the alphabet reads as 0.
pub open spec fn digit_value(b: u8) -> nat {
    if 65 <= b <= 90 {
        (b - 65) as nat
    } else if 97 <= b <= 122 {
        (b - 97 + 26) as nat
    } else if 48 <= b <= 57 {
        (b - 48 + 52) as nat
    } else if b == 45 {
        62
    } else if b == 95 {
        63
    } else {
        0
    }
}

/// Zig-zag mapping into 32 bits: `v` to `2v`, negative `v` to `2|v| + 1`, modulo 2^32.
pub open spec fn zigzag(v: i32) -> nat {
    if v >= 0 {
        (2 * v) as nat
    } else {
        ((2 * (-v) + 1) % 0x1_0000_0000) as nat
    }
}

/// Inverse of the zig-zag mapping, on a 32-bit quantity.
pub open spec fn unzigzag(z: nat) -> i32 {
    if z % 2 == 0 {
        (z / 2) as i32
    } else {
        (-(z / 2)) as i32
    }
}

/// Base-32 digits of `z`, least significant first, each with the continuation flag but the last.
pub open spec fn encode_digits(z: nat) -> Seq<u8>
    decreases z,
{
    if z < 32 {
        seq![symbol(z)]
    } else {
        seq![symbol(z % 32 + 32)] + encode_digits(z / 32)
    }
}

/// The codeword of `v`.
pub open spec fn encoded(v: i32) -> Seq<u8> {
    encode_digits(zigzag(v))
}

/// The codewords of `vs`, one after the other.
pub open spec fn encode_all(vs: Seq<i32>) -> Seq<u8>
    decreases vs.len(),
{
    if vs.len() == 0 {
        Seq::empty()
    } else {
        encoded(vs[0]) + encode_all(vs.drop_first())
    }
}

/// Whether the symbol `b` carries the continuation flag.
pub open spec fn continues(b: u8) -> bool {
    digit_value(b) >= 32
}

/// Reads the rest of a codeword from `s`, `k` symbols of it being read already:
/// the accumulated value and the number of symbols taken, or `None` where `s` ends first.
/// The seventh symbol ends a codeword whatever its flag.
pub open spec fn read_groups(s: Seq<u8>, k: nat) -> Option<(nat, nat)>
    decreases s.len(),
{
    if s.len() == 0 {
        None
    } else if k >= 6 || !continues(s[0]) {
        Some((digit_value(s[0]) % 32, 1))
    } else {
        match read_groups(s.drop_first(), k + 1) {
            Some((a, n)) => Some((digit_value(s[0]) % 32 + 32 * a, n + 1)),
            None => None,
        }
    }
}

/// The value of the codeword that starts `s` and its length in symbols.
pub open spec fn decoded(s: Seq<u8>) -> Option<(i32, nat)> {
    match read_groups(s, 0) {
        Some((a, n)) => Some((unzigzag(a % 0x1_0000_0000), n)),
        None => None,
    }
}

/// All values read from `s`, codeword after codeword, until a read fails.
pub open spec fn decode_all(s: Seq<u8>) -> Seq<i32>
    decreases s.len(),
{
    match decoded(s) {
        Some((v, n)) => if 0 < n <= s.len() {
            seq![v] + decode_all(s.skip(n as int))
        } else {
            Seq::empty()
        },
        None => Seq::empty(),
    }
}

/// 32 to the power `k`.
pub open spec fn pow32(k: nat) -> nat
    decreases k,
{
    if k == 0 {
        1
    } else {
        32 * pow32((k - 1) as nat)
    }
}

/// The digit that a byte of the alphabet stands for; 0 for any other byte.
pub fn base64_lut(byte: u8) -> (r: u8)
    ensures
        r as nat == digit_value(byte),
        r < 64,
{
    if 65 <= byte && byte <= 90 {
        byte - 65
    } else if 97 <= byte && byte <= 122 {
        byte - 97 + 26
    } else if 48 <= byte && byte <= 57 {
        byte - 48 + 52
    } else if byte == 45 {
        62
    } else if byte == 95 {
        63
    } else {
        0
    }
}

/// The symbol of the six-bit digit `d`.
pub fn base64_symbol(d: u8) -> (r: u8)
    requires
        d < 64,
    ensures
        r == symbol(d as nat),
{
    if d < 26 {
        65 + d
    } else if d < 52 {
        97 + (d - 26)
    } else if d < 62 {
        48 + (d - 52)
    } else if d == 62 {
        45
    } else {
        95
    }
}


/// Writes the codeword of `value` at the end of `writer`: at most seven symbols.
pub fn vlq_encode(value: i32, writer: &mut Vec<u8>)
    ensures
        final(writer)@ == old(writer)@ + encoded(value),
{
    let mut vlq: u32 = zigzag_of(value);
    proof {
        lemma_pow32_facts();
    }
    let ghost z = vlq as nat;
    let mut i: usize = 0;
    while i < VLQ_MAX_IN_BYTES
        invariant
            i <= 7,
            z == zigzag(value),
            writer@ + encode_digits(vlq as nat) == old(writer)@ + encode_digits(z),
            i > 0 ==> vlq > 0,
            (vlq as nat) < pow32((7 - i) as nat),
            pow32(0) == 1,
            pow32(7) == 0x8_0000_0000,
        decreases 7 - i,
    {
        let ghost before = writer@;
        let ghost cur = vlq as nat;
        let mut digit: u32 = vlq % 32;
        vlq = vlq / 32;
        if vlq != 0 {
            digit = digit + 32;
        }
        writer.push(base64_symbol(digit as u8));
        proof {
            assert(cur == 32 * (cur / 32) + cur % 32);
            assert(pow32((7 - i) as nat) == 32 * pow32((7 - (i + 1)) as nat));
            if cur < 32 {
                assert(writer@ == before + encode_digits(cur));
            } else {
                assert(encode_digits(cur) == seq![symbol(cur % 32 + 32)] + encode_digits(cur / 32));
                assert(writer@ + encode_digits(vlq as nat) =~= before + encode_digits(cur));
            }
        }
        if vlq == 0 {
            proof {
                assert(cur < 32);
                assert(writer@ =~= before + encode_digits(cur));
            }
            return;
        }
        i = i + 1;
    }
}

/// The zig-zag mapping of `value`, as in `zigzag`.
fn zigzag_of(value: i32) -> (r: u32)
    ensures
        r as nat == zigzag(value),
{
    if value >= 0 {
        (value as u32) * 2
    } else if value == i32::MIN {
        1
    } else {
        ((-value) as u32) * 2 + 1
    }
}

/// Reads one codeword of `input` from `*pos` on, and moves `*pos` past it.
/// Where the input ends first, fails and leaves `*pos` at the end.
pub fn vlq_decode(input: &[u8], pos: &mut usize) -> (r: Result<i32, VlqError>)
    requires
        *old(pos) <= input@.len(),
    ensures
        match decoded(input@.skip(*old(pos) as int)) {
            Some((v, n)) => r == Ok::<i32, VlqError>(v) && *final(pos) == *old(pos) + n,
            None => r == Err::<i32, VlqError>(VlqError::UnexpectedEof) && *final(pos) == input@.len(),
        },
{
    let ghost rest = input@.skip(*pos as int);
    let ghost start = *pos as int;
    let mut acc: u64 = 0;
    let mut mult: u64 = 1;
    let mut k: usize = 0;
    proof {
        lemma_pow32_facts();
        assert(rest.skip(0) =~= rest);
    }
    loop
        invariant
            k <= 6,
            0 <= start == *old(pos),
            start + k == *pos,
            *pos <= input@.len(),
            rest == input@.skip(start),
            mult as nat == pow32(k as nat),
            pow32(6) == 0x4000_0000,
            acc < mult,
            match read_groups(rest.skip(k as int), k as nat) {
                Some((a, n)) => read_groups(rest, 0) == Some(((acc + mult * a) as nat, (k + n) as nat)),
                None => read_groups(rest, 0) is None,
            },
        decreases 6 - k,
    {
        let ghost tail = rest.skip(k as int);
        assert(tail.len() == input@.len() - *pos);
        if *pos >= input.len() {
            assert(tail.len() == 0);
            return Err(VlqError::UnexpectedEof);
        }
        let g = base64_lut(input[*pos]);
        assert(tail[0] == input@[*pos as int]);
        let ghost d = (g % 32) as nat;
        assert(acc + d * mult < 32 * mult) by (nonlinear_arith)
            requires
                acc < mult,
                d < 32,
        ;
        proof {
            lemma_pow_monotone(k as nat, 6);
        }
        acc = acc + ((g % 32) as u64) * mult;
        *pos = *pos + 1;
        if g < 32 || k == 6 {
            let z: u32 = (acc % 0x1_0000_0000) as u32;
            assert(read_groups(tail, k as nat) == Some((d, 1nat)));
            return Ok(unzigzag_of(z));
        }
        proof {
            assert(tail.drop_first() =~= rest.skip(k + 1));
            let a_next = read_groups(tail.drop_first(), (k + 1) as nat);
            match a_next {
                Some((a, n)) => {
                    assert(mult * (d + 32 * a) == mult * d + (mult * 32) * a) by (nonlinear_arith);
                },
                None => {},
            }
        }
        mult = mult * 32;
        k = k + 1;
    }
}

/// Inverse of the zig-zag mapping, as in `unzigzag`.
fn unzigzag_of(z: u32) -> (r: i32)
    ensures
        r == unzigzag(z as nat),
{
    if z % 2 == 0 {
        (z / 2) as i32
    } else {
        -((z / 2) as i32)
    }
}

/// Writes the codewords of `offsets`, in order.
pub fn encode_offsets(offsets: &[i32]) -> (r: Vec<u8>)
    ensures
        r@ == encode_all(offsets@),
{
    let mut out: Vec<u8> = Vec::new();
    let mut i: usize = 0;
    proof {
        assert(offsets@.skip(0) =~= offsets@);
        assert(out@ + encode_all(offsets@) =~= encode_all(offsets@));
    }
    while i < offsets.len()
        invariant
            i <= offsets@.len(),
            out@ + encode_all(offsets@.skip(i as int)) == encode_all(offsets@),
        decreases offsets@.len() - i,
    {
        let ghost before = out@;
        proof {
            assert(offsets@.skip(i as int).drop_first() =~= offsets@.skip(i + 1));
        }
        vlq_encode(offsets[i], &mut out);
        proof {
            assert(out@ + encode_all(offsets@.skip(i + 1)) =~= before + encode_all(offsets@.skip(i as int)));
        }
        i = i + 1;
    }
    proof {
        assert(offsets@.skip(i as int) =~= Seq::<i32>::empty());
        assert(out@ + Seq::<u8>::empty() =~= out@);
    }
    out
}

/// Reads codewords from the start of `input` until a read fails, and returns their values in order.
pub fn decode_offsets(input: &[u8]) -> (r: Vec<i32>)
    ensures
        r@ == decode_all(input@),
{
    let mut out: Vec<i32> = Vec::new();
    let mut pos: usize = 0;
    proof {
        assert(input@.skip(0) =~= input@);
    }
    loop
        invariant
            pos <= input@.len(),
            out@ + decode_all(input@.skip(pos as int)) == decode_all(input@),
        decreases input@.len() - pos,
    {
        let ghost tail = input@.skip(pos as int);
        let ghost before = pos;
        match vlq_decode(input, &mut pos) {
            Ok(v) => {
                proof {
                    lemma_read_len(tail, 0);
                    let n = (pos - before) as nat;
                    assert(tail.skip(n as int) =~= input@.skip(pos as int));
                    assert(decode_all(tail) == seq![v] + decode_all(tail.skip(n as int)));
                }
                let ghost prev = out@;
                out.push(v);
                proof {
                    assert(out@ + decode_all(input@.skip(pos as int)) =~= prev + decode_all(tail));
                }
            },
            Err(_) => {
                proof {
                    assert(out@ + Seq::<i32>::empty() =~= out@);
                }
                return out;
            },
        }
    }
}

/// A codeword that is read has at least one symbol and no more than the input holds.
proof fn lemma_read_len(s: Seq<u8>, k: nat)
    ensures
        match read_groups(s, k) {
            Some((a, n)) => 1 <= n <= s.len(),
            None => true,
        },
    decreases s.len(),
{
    if s.len() > 0 && !(k >= 6 || !continues(s[0])) {
        lemma_read_len(s.drop_first(), k + 1);
    }
}

proof fn lemma_symbol_digit(d: nat)
    requires
        d < 64,
    ensures
        digit_value(symbol(d)) == d,
        is_symbol(symbol(d)),
{
}

/// Reading the digits of `z` back, `k` symbols of the codeword being read already,
/// gives `z` and stops right after them, whatever follows.
proof fn lemma_read_encoded(z: nat, k: nat, t: Seq<u8>)
    requires
        k <= 6,
        z < pow32((7 - k) as nat),
    ensures
        read_groups(encode_digits(z) + t, k) == Some((z, encode_digits(z).len())),
    decreases z,
{
    let s = encode_digits(z) + t;
    if z < 32 {
        lemma_symbol_digit(z);
        assert(s[0] == symbol(z));
    } else {
        lemma_symbol_digit(z % 32 + 32);
        assert(s[0] == symbol(z % 32 + 32));
        if k >= 6 {
            assert(pow32(1) == 32) by {
                reveal_with_fuel(pow32, 2);
            }
            assert(false);
        }
        assert(pow32((7 - k) as nat) == 32 * pow32((7 - (k + 1)) as nat));
        assert(s.drop_first() =~= encode_digits(z / 32) + t);
        lemma_read_encoded(z / 32, k + 1, t);
    }
}

proof fn lemma_zigzag_inverse(v: i32)
    requires
        v != i32::MIN,
    ensures
        zigzag(v) < 0x1_0000_0000,
        unzigzag(zigzag(v)) == v,
{
}

/// Round trip: the codeword of any `v` but `i32::MIN` decodes to `v`, taking all of its symbols.
pub proof fn lemma_round_trip(v: i32)
    requires
        v != i32::MIN,
    ensures
        decoded(encoded(v)) == Some((v, encoded(v).len())),
{
    lemma_self_delimiting(v, Seq::empty());
    assert(encoded(v) + Seq::<u8>::empty() =~= encoded(v));
}

/// A codeword is read back whatever follows it in the input.
pub proof fn lemma_self_delimiting(v: i32, rest: Seq<u8>)
    requires
        v != i32::MIN,
    ensures
        decoded(encoded(v) + rest) == Some((v, encoded(v).len())),
{
    lemma_pow32_facts();
    lemma_zigzag_inverse(v);
    lemma_read_encoded(zigzag(v), 0, rest);
}

/// Every symbol of every codeword belongs to the 64-symbol alphabet.
pub proof fn lemma_encoded_in_alphabet(v: i32)
    ensures
        forall|i: int| 0 <= i < encoded(v).len() ==> is_symbol(#[trigger] encoded(v)[i]),
{
    lemma_digits_in_alphabet(zigzag(v));
}

proof fn lemma_digits_in_alphabet(z: nat)
    ensures
        forall|i: int| 0 <= i < encode_digits(z).len() ==> is_symbol(#[trigger] encode_digits(z)[i]),
    decreases z,
{
    if z < 32 {
        lemma_symbol_digit(z);
    } else {
        lemma_symbol_digit(z % 32 + 32);
        lemma_digits_in_alphabet(z / 32);
        let s = encode_digits(z);
        assert forall|i: int| 0 <= i < s.len() implies is_symbol(#[trigger] s[i]) by {
            if i > 0 {
                assert(s[i] == encode_digits(z / 32)[i - 1]);
            }
        }
    }
}

/// Writing the codewords of a sequence one after the other and reading until the input
/// ends gives the sequence back, in order, where no value is `i32::MIN`.
pub proof fn lemma_concatenation(vs: Seq<i32>)
    requires
        forall|i: int| 0 <= i < vs.len() ==> vs[i] != i32::MIN,
    ensures
        decode_all(encode_all(vs)) == vs,
    decreases vs.len(),
{
    if vs.len() == 0 {
        assert(decoded(Seq::<u8>::empty()) is None);
    } else {
        let rest = encode_all(vs.drop_first());
        let s = encode_all(vs);
        lemma_self_delimiting(vs[0], rest);
        lemma_read_len(s, 0);
        assert(s.skip(encoded(vs[0]).len() as int) =~= rest);
        lemma_concatenation(vs.drop_first());
        assert(seq![vs[0]] + vs.drop_first() =~= vs);
    }
}

/// An empty input holds no codeword.
pub proof fn lemma_empty_trace()
    ensures
        decode_all(Seq::<u8>::empty()) == Seq::<i32>::empty(),
{
}

/// Zero is the single symbol `A`; `v` and `-v` (for positive `v`) have codewords of one
/// length that differ only in the lowest bit of their first digit.
pub proof fn lemma_zigzag_parity(v: i32)
    requires
        v > 0,
    ensures
        encoded(0) == seq![65u8],
        encoded(v).len() == encoded((-v) as i32).len(),
        encoded(v).skip(1) == encoded((-v) as i32).skip(1),
        digit_value(encoded(v)[0]) % 2 == 0,
        digit_value(encoded((-v) as i32)[0]) == digit_value(encoded(v)[0]) + 1,
{
    let z = zigzag(v);
    let w = zigzag((-v) as i32);
    assert(w == z + 1);
    if z < 32 {
        lemma_symbol_digit(z);
        lemma_symbol_digit(w);
        assert(encoded(v).skip(1) =~= encoded((-v) as i32).skip(1));
    } else {
        assert(w / 32 == z / 32 && w % 32 == z % 32 + 1);
        lemma_symbol_digit(z % 32 + 32);
        lemma_symbol_digit(w % 32 + 32);
        assert(encoded(v).skip(1) =~= encode_digits(z / 32));
        assert(encoded((-v) as i32).skip(1) =~= encode_digits(w / 32));
    }
}

proof fn lemma_pow32_facts()
    ensures
        pow32(0) == 1,
        pow32(6) == 0x4000_0000,
        pow32(7) == 0x8_0000_0000,
{
    reveal_with_fuel(pow32, 8);
}

proof fn lemma_pow_monotone(i: nat, j: nat)
    requires
        i <= j,
    ensures
        pow32(i) <= pow32(j),
        pow32(j) >= 1,
    decreases j,
{
    if j > 0 {
        if i < j {
            lemma_pow_monotone(i, (j - 1) as nat);
        } else {
            lemma_pow_monotone((j - 1) as nat, (j - 1) as nat);
        }
    }
}

} // verus!
