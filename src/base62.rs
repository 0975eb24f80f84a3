use crate::magnitude::{
    be_bytes, be_value, big_add_assign, big_div_assign, big_from_bytes_be, big_from_u64, big_is_zero,
    big_mod_floor, big_mul, big_mul_assign, big_one, big_to_bytes_be, big_to_usize, big_value,
    big_zero, lemma_be_bytes_nonempty, lemma_be_bytes_of_value,
    lemma_be_value_positive,
};
use vstd::prelude::*;

verus! {

/// Number of symbols in the alphabet.
pub const BASE: u64 = 62;

/// The symbols, indexed by the digit value they stand for.
const ALPHABET: [char; 62] = [
    '0', '1', '2', '3', '4', '5', '6', '7', '8', '9',
    'A', 'B', 'C', 'D', 'E', 'F', 'G', 'H', 'I', 'J',
    'K', 'L', 'M', 'N', 'O', 'P', 'Q', 'R', 'S', 'T',
    'U', 'V', 'W', 'X', 'Y', 'Z', 'a', 'b', 'c', 'd',
    'e', 'f', 'g', 'h', 'i', 'j', 'k', 'l', 'm', 'n',
    'o', 'p', 'q', 'r', 's', 't', 'u', 'v', 'w', 'x',
    'y', 'z',
];

/// The symbol that stands for digit `d` (`d < 62`).
pub open spec fn symbol(d: nat) -> char {
    if d < 10 {
        ('0' as nat + d) as char
    } else if d < 36 {
        ('A' as nat + (d - 10)) as char
    } else {
        ('a' as nat + (d - 36)) as char
    }
}

/// The digit value of `c`, or `None` where `c` is not in the alphabet.
pub open spec fn digit_of(c: char) -> Option<nat> {
    if '0' <= c && c <= '9' {
        Some((c as nat - '0' as nat) as nat)
    } else if 'A' <= c && c <= 'Z' {
        Some((c as nat - 'A' as nat + 10) as nat)
    } else if 'a' <= c && c <= 'z' {
        Some((c as nat - 'a' as nat + 36) as nat)
    } else {
        None
    }
}

/// Failure of `decode`.
#[derive(Debug, Clone, Copy, PartialEq, Eq, Structural)]
pub enum Error {
    /// The input holds `character`, which is not one of the 62 symbols.
    BadCharacter { character: char },
}

/// Table lookup of the symbol for digit `d`.
fn symbol_at(d: usize) -> (c: char)
    requires
        d < 62,
    ensures
        c == symbol(d as nat),
{
    ALPHABET[d]
}

/// The digit value of `c`, or `BadCharacter` carrying `c`.
pub fn char_to_remainder(c: char) -> (r: Result<u64, Error>)
    ensures
        match digit_of(c) {
            Some(d) => r == Ok::<u64, Error>(d as u64),
            None => r == Err::<u64, Error>(Error::BadCharacter { character: c }),
        },
        r is Ok ==> r->Ok_0 < BASE,
{
    if '0' <= c && c <= '9' {
        Ok((c as u64) - ('0' as u64))
    } else if 'A' <= c && c <= 'Z' {
        Ok((c as u64) - ('A' as u64) + 10)
    } else if 'a' <= c && c <= 'z' {
        Ok((c as u64) - ('a' as u64) + 36)
    } else {
        Err(Error::BadCharacter { character: c })
    }
}

/// The base-62 digits of `n`, least significant first; none for zero.
pub open spec fn digits(n: nat) -> Seq<nat>
    decreases n,
{
    if n == 0 {
        seq![]
    } else {
        seq![n % 62].add(digits(n / 62))
    }
}

/// The symbols of the digits `ds`, in the same order.
pub open spec fn symbols_of(ds: Seq<nat>) -> Seq<char> {
    ds.map_values(|d: nat| symbol(d))
}

/// What `encode` returns for `bytes`: nothing for an empty buffer, otherwise
/// the symbols of the base-62 digits, least significant first, of the buffer
/// read big-endian behind the byte `0x01`.
pub open spec fn encoded(bytes: Seq<u8>) -> Seq<char> {
    if bytes.len() == 0 {
        seq![]
    } else {
        symbols_of(digits(be_value(seq![1u8].add(bytes))))
    }
}

/// The digit value of `c`, zero where `c` is not in the alphabet.
pub open spec fn digit(c: char) -> nat {
    match digit_of(c) {
        Some(d) => d,
        None => 0,
    }
}

/// `62` to the power `k`.
pub open spec fn place(k: nat) -> nat
    decreases k,
{
    if k == 0 {
        1
    } else {
        62 * place((k - 1) as nat)
    }
}

/// The number that the symbols `s` spell, least significant first.
pub open spec fn symbols_value(s: Seq<char>) -> nat
    decreases s.len(),
{
    if s.len() == 0 {
        0
    } else {
        digit(s[0]) + 62 * symbols_value(s.drop_first())
    }
}

/// The first character of `s` that is not in the alphabet, if any.
pub open spec fn first_bad(s: Seq<char>) -> Option<char>
    decreases s.len(),
{
    if s.len() == 0 {
        None
    } else if digit_of(s[0]) is None {
        Some(s[0])
    } else {
        first_bad(s.drop_first())
    }
}

/// What `decode` returns for `s`: `BadCharacter` with the first character
/// outside the alphabet; otherwise the shortest big-endian bytes of the number
/// that `s` spells, without their first byte.
pub open spec fn decoded(s: Seq<char>) -> Result<Seq<u8>, Error> {
    match first_bad(s) {
        Some(c) => Err(Error::BadCharacter { character: c }),
        None => Ok(be_bytes(symbols_value(s)).drop_first()),
    }
}

/// Whether `c` is one of the 62 symbols `0-9`, `A-Z`, `a-z`.
pub open spec fn is_symbol(c: char) -> bool {
    ('0' <= c && c <= '9') || ('A' <= c && c <= 'Z') || ('a' <= c && c <= 'z')
}

/// Each digit's symbol reads back as that digit.
pub proof fn lemma_symbol_digit(d: nat)
    requires
        d < 62,
    ensures
        digit_of(symbol(d)) == Some(d),
        is_symbol(symbol(d)),
{
}

/// The symbols of the digits of `n` hold no character outside the alphabet
/// and spell `n` again.
proof fn lemma_digits_symbols(n: nat)
    ensures
        first_bad(symbols_of(digits(n))) is None,
        symbols_value(symbols_of(digits(n))) == n,
        forall|i: int|
            0 <= i < digits(n).len() ==> #[trigger] is_symbol(symbols_of(digits(n))[i]),
    decreases n,
{
    let s = symbols_of(digits(n));
    if n == 0 {
        assert(s =~= seq![]);
    } else {
        lemma_digits_symbols(n / 62);
        lemma_symbol_digit(n % 62);
        let t = symbols_of(digits(n / 62));
        assert(s =~= seq![symbol(n % 62)].add(t));
        assert(s.drop_first() =~= t);
        assert forall|i: int| 0 <= i < digits(n).len() implies #[trigger] is_symbol(s[i]) by {
            if i > 0 {
                assert(s[i] == t[i - 1]);
            }
        }
    }
}

/// Decoding what `encode` gives for any buffer returns that buffer.
pub proof fn lemma_round_trip(bytes: Seq<u8>)
    ensures
        decoded(encoded(bytes)) == Ok::<Seq<u8>, Error>(bytes),
{
    if bytes.len() == 0 {
        assert(symbols_value(seq![]) == 0);
        assert(first_bad(seq![]) is None);
        assert(be_bytes(0) == seq![0u8]);
        assert(encoded(bytes) =~= seq![]);
        assert(be_bytes(0).drop_first() =~= bytes);
    } else {
        let ext = seq![1u8].add(bytes);
        lemma_digits_symbols(be_value(ext));
        lemma_be_bytes_of_value(ext);
        assert(ext.drop_first() =~= bytes);
    }
}

/// Every character that `encode` gives, for any buffer, is one of the 62
/// symbols.
pub proof fn lemma_encoded_in_alphabet(bytes: Seq<u8>)
    ensures
        forall|i: int| 0 <= i < encoded(bytes).len() ==> #[trigger] is_symbol(encoded(bytes)[i]),
{
    if bytes.len() > 0 {
        lemma_digits_symbols(be_value(seq![1u8].add(bytes)));
    }
}

/// `decode` fails exactly where its input holds a character outside the
/// alphabet, and names the first such character.
pub proof fn lemma_decode_rejects(s: Seq<char>, i: int)
    requires
        0 <= i < s.len(),
        !is_symbol(s[i]),
        forall|j: int| 0 <= j < i ==> #[trigger] is_symbol(s[j]),
    ensures
        decoded(s) == Err::<Seq<u8>, Error>(Error::BadCharacter { character: s[i] }),
    decreases i,
{
    if i > 0 {
        assert forall|j: int| 0 <= j < i - 1 implies #[trigger] is_symbol(s.drop_first()[j]) by {
            assert(is_symbol(s[j + 1]));
        }
        assert(is_symbol(s[0]));
        lemma_decode_rejects(s.drop_first(), i - 1);
    }
}

/// Encoding and decoding are functions of their input alone: equal inputs
/// give equal results.
pub proof fn lemma_deterministic(a: Seq<u8>, b: Seq<u8>, s: Seq<char>, t: Seq<char>)
    requires
        a == b,
        s == t,
    ensures
        encoded(a) == encoded(b),
        decoded(s) == decoded(t),
{
}

/// `encode` gives the empty string for the empty buffer, and only for it.
pub proof fn lemma_encoded_empty_iff(bytes: Seq<u8>)
    ensures
        encoded(bytes).len() == 0 <==> bytes.len() == 0,
{
    if bytes.len() > 0 {
        lemma_be_value_positive(seq![1u8].add(bytes));
    }
}

/// Relies on `String::push`: `c` is appended.
#[verifier::external_body]
fn push_char(s: &mut String, c: char)
    ensures
        final(s)@ == old(s)@.push(c),
{
    s.push(c);
}

/// Appending one symbol adds its digit at the next place.
proof fn lemma_symbols_value_push(s: Seq<char>, c: char)
    ensures
        symbols_value(s.push(c)) == symbols_value(s) + digit(c) * place(s.len()),
    decreases s.len(),
{
    if s.len() == 0 {
        assert(s.push(c).drop_first() =~= seq![]);
        assert(symbols_value(s.push(c)) == digit(c) + 62 * symbols_value(seq![]));
        assert(symbols_value(s) == 0);
        assert(place(0) == 1);
    } else {
        assert(s.push(c).drop_first() =~= s.drop_first().push(c));
        assert(s.push(c)[0] == s[0]);
        lemma_symbols_value_push(s.drop_first(), c);
        let a = symbols_value(s.drop_first());
        let p = place((s.len() - 1) as nat);
        assert(62 * (a + digit(c) * p) == 62 * a + digit(c) * (62 * p)) by (nonlinear_arith);
        assert(place(s.len()) == 62 * p);
        assert(symbols_value(s.push(c)) == digit(s[0]) + 62 * symbols_value(s.drop_first().push(c)));
        assert(symbols_value(s.drop_first().push(c)) == a + digit(c) * p);
        assert(symbols_value(s) == digit(s[0]) + 62 * a);
    }
}

/// Convert a byte buffer into a base-62 string.
pub fn encode(bytes: &[u8]) -> (r: String)
    ensures
        r@ == encoded(bytes@),
        r@.len() == 0 <==> bytes@.len() == 0,
{
    proof {
        lemma_encoded_empty_iff(bytes@);
    }
    if bytes.len() == 0 {
        return String::new();
    }
    let mut input: Vec<u8> = Vec::new();
    input.push(1u8);
    let mut i: usize = 0;
    while i < bytes.len()
        invariant
            0 <= i <= bytes@.len(),
            input@ == seq![1u8].add(bytes@.subrange(0, i as int)),
        decreases bytes@.len() - i,
    {
        input.push(bytes[i]);
        i = i + 1;
    }
    assert(bytes@.subrange(0, bytes@.len() as int) =~= bytes@);
    let ghost all = symbols_of(digits(be_value(input@)));
    let mut result = String::new();
    let mut val = big_from_bytes_be(&input);
    let base = big_from_u64(BASE);
    while !big_is_zero(&val)
        invariant
            big_value(base) == 62,
            result@.add(symbols_of(digits(big_value(val)))) == all,
        decreases big_value(val),
    {
        let ghost v = big_value(val);
        let rem = big_mod_floor(&val, &base);
        let d = match big_to_usize(&rem) {
            Some(d) => d,
            None => 0,
        };
        let ghost before = result@;
        push_char(&mut result, symbol_at(d));
        big_div_assign(&mut val, &base);
        assert(symbols_of(digits(v)) =~= seq![symbol(v % 62)].add(
            symbols_of(digits(v / 62)),
        ));
        assert(result@.add(symbols_of(digits(big_value(val)))) =~= before.add(
            symbols_of(digits(v)),
        ));
    }
    assert(result@ =~= all);
    result
}

/// Convert a base-62 string into a byte buffer.
pub fn decode(input: &str) -> (r: Result<Vec<u8>, Error>)
    ensures
        match r {
            Ok(v) => decoded(input@) == Ok::<Seq<u8>, Error>(v@),
            Err(e) => decoded(input@) == Err::<Seq<u8>, Error>(e),
        },
{
    let mut val = big_zero();
    let mut base_mul = big_one();
    let base = big_from_u64(BASE);
    let ghost n = input@.len();
    assert(input@.subrange(0, n as int) =~= input@);
    for c in it: input.chars()
        invariant
            n == input@.len(),
            it.seq() == input@,
            big_value(base) == 62,
            big_value(val) == symbols_value(input@.subrange(0, it.index() as int)),
            big_value(base_mul) == place(it.index() as nat),
            first_bad(input@) == first_bad(input@.subrange(it.index() as int, n as int)),
    {
        let ghost i = it.index() as int;
        assert(input@.subrange(i, n as int).drop_first() =~= input@.subrange(i + 1, n as int));
        let remainder = match char_to_remainder(c) {
            Ok(d) => d,
            Err(e) => {
                return Err(e);
            },
        };
        let ghost prefix = input@.subrange(0, i);
        proof {
            lemma_symbols_value_push(prefix, c);
            assert(prefix.push(c) =~= input@.subrange(0, i + 1));
        }
        big_add_assign(&mut val, big_mul(big_from_u64(remainder), &base_mul));
        big_mul_assign(&mut base_mul, &base);
    }
    assert(input@.subrange(0, n as int) =~= input@);
    assert(input@.subrange(n as int, n as int) =~= seq![]);
    let mut bytes = big_to_bytes_be(&val);
    proof {
        lemma_be_bytes_nonempty(big_value(val));
    }
    let rest = bytes.split_off(1);
    assert(rest@ =~= be_bytes(symbols_value(input@)).drop_first());
    Ok(rest)
}

} // verus!
