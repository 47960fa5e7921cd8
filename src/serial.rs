use vstd::prelude::*;

use bincode::Options;

verus! {

/// Why bytes could not be turned into a value, or a value into bytes.
#[derive(Debug, Clone, Copy, PartialEq, Eq, Structural)]
pub enum CodecError {
    /// The encoder refused the value.
    Unencodable,
    /// The bytes are not the encoding of a value of the expected type.
    Malformed,
}

/// Values that can be stored as bytes. The encodings come from bincode with
/// its default options set to big-endian byte order.
pub trait Serial: Sized {
    /// The bytes that encode this value.
    spec fn encoding(&self) -> Seq<u8>;

    /// Converts the value into bytes.
    fn serialize(&self) -> (r: Result<Vec<u8>, CodecError>)
        ensures
            r is Ok,
            r->Ok_0@ == self.encoding(),
    ;

    /// Recovers a value from bytes; the encoding of a value gives back that value.
    fn deserialize(bytes: Vec<u8>) -> (r: Result<Self, CodecError>)
        ensures
            forall|v: Self| #[trigger] v.encoding() == bytes@ ==> r == Ok::<Self, CodecError>(v),
            r is Err ==> r == Err::<Self, CodecError>(CodecError::Malformed),
    ;
}

/// The bytes that bincode's big-endian default options give for a string.
pub uninterp spec fn string_code(s: Seq<char>) -> Seq<u8>;

/// `n` in `width` bytes, most significant first.
pub open spec fn be_bytes(n: nat, width: nat) -> Seq<u8>
    decreases width,
{
    if width == 0 {
        Seq::empty()
    } else {
        be_bytes(n / 256, (width - 1) as nat).push((n % 256) as u8)
    }
}

/// bincode's variable-length integer under big-endian options: one byte up
/// to 250, else a tag byte (251, 252 or 253) and the number in 2, 4 or 8
/// bytes, most significant first.
pub open spec fn varint_code(n: nat) -> Seq<u8> {
    if n <= 250 {
        seq![n as u8]
    } else if n <= 0xffff {
        seq![251u8] + be_bytes(n, 2)
    } else if n <= 0xffff_ffff {
        seq![252u8] + be_bytes(n, 4)
    } else {
        seq![253u8] + be_bytes(n, 8)
    }
}

/// bincode's zigzag mapping of a signed number: `2n` for `n >= 0`, `-2n - 1` below.
pub open spec fn zigzag(n: int) -> nat {
    if n >= 0 {
        (2 * n) as nat
    } else {
        (-2 * n - 1) as nat
    }
}

/// The bytes that bincode's big-endian default options give for a `u32`.
pub open spec fn u32_code(x: u32) -> Seq<u8> {
    varint_code(x as nat)
}

/// The bytes that bincode's big-endian default options give for an `i32`.
pub open spec fn i32_code(x: i32) -> Seq<u8> {
    varint_code(zigzag(x as int))
}

/// The bytes that bincode's big-endian default options give for a `u64`.
pub open spec fn u64_code(x: u64) -> Seq<u8> {
    varint_code(x as nat)
}

/// `a` comes before `b` in byte-wise lexicographic order.
pub open spec fn lex_lt(a: Seq<u8>, b: Seq<u8>) -> bool
    decreases a.len(),
{
    if a.len() == 0 {
        b.len() > 0
    } else if b.len() == 0 {
        false
    } else if a[0] != b[0] {
        a[0] < b[0]
    } else {
        lex_lt(a.drop_first(), b.drop_first())
    }
}

/// `n` has no digits beyond `width` bytes.
pub open spec fn fits(n: nat, width: nat) -> bool
    decreases width,
{
    if width == 0 {
        n == 0
    } else {
        fits(n / 256, (width - 1) as nat)
    }
}

proof fn lemma_lex_push(a: Seq<u8>, b: Seq<u8>, x: u8, y: u8)
    requires
        a.len() == b.len(),
        lex_lt(a, b) || (a == b && x < y),
    ensures
        lex_lt(a.push(x), b.push(y)),
    decreases a.len(),
{
    if a.len() > 0 {
        assert(a.push(x).drop_first() =~= a.drop_first().push(x));
        assert(b.push(y).drop_first() =~= b.drop_first().push(y));
        if a[0] == b[0] {
            if a == b {
                assert(a.drop_first() == b.drop_first());
            }
            lemma_lex_push(a.drop_first(), b.drop_first(), x, y);
        }
    } else {
        assert(a.push(x)[0] == x);
        assert(b.push(y)[0] == y);
    }
}

proof fn lemma_be_bytes_order(a: nat, b: nat, width: nat)
    requires
        a < b,
        fits(b, width),
    ensures
        lex_lt(be_bytes(a, width), be_bytes(b, width)),
        be_bytes(a, width).len() == width,
        be_bytes(b, width).len() == width,
    decreases width,
{
    if width == 0 {
    } else {
        let w = (width - 1) as nat;
        lemma_be_bytes_len(a / 256, w);
        lemma_be_bytes_len(b / 256, w);
        if a / 256 < b / 256 {
            lemma_be_bytes_order(a / 256, b / 256, w);
        } else {
            assert(a / 256 == b / 256);
            assert(a % 256 < b % 256);
        }
        lemma_lex_push(be_bytes(a / 256, w), be_bytes(b / 256, w), (a % 256) as u8, (b % 256) as u8);
    }
}

proof fn lemma_be_bytes_len(n: nat, width: nat)
    ensures
        be_bytes(n, width).len() == width,
    decreases width,
{
    if width > 0 {
        lemma_be_bytes_len(n / 256, (width - 1) as nat);
    }
}

/// Unsigned numbers encode in numeric order: the lesser number's bytes come
/// first byte-wise, so ordered scans over encoded keys follow the numbers.
pub proof fn lemma_unsigned_order(a: u64, b: u64)
    requires
        a < b,
    ensures
        lex_lt(u64_code(a), u64_code(b)),
        (b as nat) <= 0xffff_ffff ==> lex_lt(u32_code(a as u32), u32_code(b as u32)),
{
    let x = a as nat;
    let y = b as nat;
    assert(fits(y, 8)) by {
        reveal_with_fuel(fits, 9);
        assert(y / 256 / 256 / 256 / 256 / 256 / 256 / 256 / 256 == 0);
    }
    if y <= 250 {
    } else if x <= 250 {
        assert(varint_code(x)[0] == x as u8);
        assert(varint_code(y)[0] >= 251);
    } else {
        let (tx, wx): (u8, nat) = if x <= 0xffff {
            (251u8, 2nat)
        } else if x <= 0xffff_ffff {
            (252u8, 4nat)
        } else {
            (253u8, 8nat)
        };
        let (ty, wy): (u8, nat) = if y <= 0xffff {
            (251u8, 2nat)
        } else if y <= 0xffff_ffff {
            (252u8, 4nat)
        } else {
            (253u8, 8nat)
        };
        assert(varint_code(x) == seq![tx] + be_bytes(x, wx));
        assert(varint_code(y) == seq![ty] + be_bytes(y, wy));
        assert(varint_code(x)[0] == tx);
        assert(varint_code(y)[0] == ty);
        if tx == ty {
            assert(wx == wy);
            if wy == 2 {
                assert(fits(y, 2)) by {
                    reveal_with_fuel(fits, 3);
                    assert(y / 256 / 256 == 0);
                }
            } else if wy == 4 {
                assert(fits(y, 4)) by {
                    reveal_with_fuel(fits, 5);
                    assert(y / 256 / 256 / 256 / 256 == 0);
                }
            }
            lemma_be_bytes_order(x, y, wy);
            assert(varint_code(x).drop_first() =~= be_bytes(x, wx));
            assert(varint_code(y).drop_first() =~= be_bytes(y, wy));
        }
    }
}

/// Relies on bincode's `Options::serialize` with big-endian default options:
/// it writes into a `Vec` with no size limit, so it succeeds, and the
/// bytes depend on the string alone.
#[verifier::external_body]
fn encode_string(s: &String) -> (r: Option<Vec<u8>>)
    ensures
        r is Some,
        r->Some_0@ == string_code(s@),
{
    bincode::DefaultOptions::new().with_big_endian().serialize(s).ok()
}

/// Relies on bincode's `Options::deserialize` with big-endian default options:
/// it gives back the string that `Options::serialize` encoded.
#[verifier::external_body]
fn decode_string(b: &Vec<u8>) -> (r: Option<String>)
    ensures
        forall|s: String| #[trigger] string_code(s@) == b@ ==> r == Some(s),
{
    bincode::DefaultOptions::new().with_big_endian().deserialize(b).ok()
}

/// Relies on bincode's `Options::serialize` with big-endian default options:
/// it writes into a `Vec` with no size limit, so it succeeds, and the
/// bytes depend on the number alone.
#[verifier::external_body]
fn encode_u32(x: u32) -> (r: Option<Vec<u8>>)
    ensures
        r is Some,
        r->Some_0@ == u32_code(x),
{
    bincode::DefaultOptions::new().with_big_endian().serialize(&x).ok()
}

/// Relies on bincode's `Options::deserialize` with big-endian default options:
/// it gives back the number that `Options::serialize` encoded.
#[verifier::external_body]
fn decode_u32(b: &Vec<u8>) -> (r: Option<u32>)
    ensures
        forall|x: u32| #[trigger] u32_code(x) == b@ ==> r == Some(x),
{
    bincode::DefaultOptions::new().with_big_endian().deserialize(b).ok()
}

/// Relies on bincode's `Options::serialize` with big-endian default options:
/// it writes into a `Vec` with no size limit, so it succeeds, and the
/// bytes depend on the number alone.
#[verifier::external_body]
fn encode_i32(x: i32) -> (r: Option<Vec<u8>>)
    ensures
        r is Some,
        r->Some_0@ == i32_code(x),
{
    bincode::DefaultOptions::new().with_big_endian().serialize(&x).ok()
}

/// Relies on bincode's `Options::deserialize` with big-endian default options:
/// it gives back the number that `Options::serialize` encoded.
#[verifier::external_body]
fn decode_i32(b: &Vec<u8>) -> (r: Option<i32>)
    ensures
        forall|x: i32| #[trigger] i32_code(x) == b@ ==> r == Some(x),
{
    bincode::DefaultOptions::new().with_big_endian().deserialize(b).ok()
}

/// Relies on bincode's `Options::serialize` with big-endian default options:
/// it writes into a `Vec` with no size limit, so it succeeds, and the
/// bytes depend on the number alone.
#[verifier::external_body]
fn encode_u64(x: u64) -> (r: Option<Vec<u8>>)
    ensures
        r is Some,
        r->Some_0@ == u64_code(x),
{
    bincode::DefaultOptions::new().with_big_endian().serialize(&x).ok()
}

/// Relies on bincode's `Options::deserialize` with big-endian default options:
/// it gives back the number that `Options::serialize` encoded.
#[verifier::external_body]
fn decode_u64(b: &Vec<u8>) -> (r: Option<u64>)
    ensures
        forall|x: u64| #[trigger] u64_code(x) == b@ ==> r == Some(x),
{
    bincode::DefaultOptions::new().with_big_endian().deserialize(b).ok()
}

impl Serial for String {
    open spec fn encoding(&self) -> Seq<u8> {
        string_code(self@)
    }

    fn serialize(&self) -> (r: Result<Vec<u8>, CodecError>) {
        match encode_string(self) {
            Some(b) => Ok(b),
            None => Err(CodecError::Unencodable),
        }
    }

    fn deserialize(bytes: Vec<u8>) -> (r: Result<Self, CodecError>) {
        match decode_string(&bytes) {
            Some(s) => Ok(s),
            None => Err(CodecError::Malformed),
        }
    }
}

impl Serial for u32 {
    open spec fn encoding(&self) -> Seq<u8> {
        u32_code(*self)
    }

    fn serialize(&self) -> (r: Result<Vec<u8>, CodecError>) {
        match encode_u32(*self) {
            Some(b) => Ok(b),
            None => Err(CodecError::Unencodable),
        }
    }

    fn deserialize(bytes: Vec<u8>) -> (r: Result<Self, CodecError>) {
        match decode_u32(&bytes) {
            Some(x) => Ok(x),
            None => Err(CodecError::Malformed),
        }
    }
}

impl Serial for i32 {
    open spec fn encoding(&self) -> Seq<u8> {
        i32_code(*self)
    }

    fn serialize(&self) -> (r: Result<Vec<u8>, CodecError>) {
        match encode_i32(*self) {
            Some(b) => Ok(b),
            None => Err(CodecError::Unencodable),
        }
    }

    fn deserialize(bytes: Vec<u8>) -> (r: Result<Self, CodecError>) {
        match decode_i32(&bytes) {
            Some(x) => Ok(x),
            None => Err(CodecError::Malformed),
        }
    }
}

impl Serial for u64 {
    open spec fn encoding(&self) -> Seq<u8> {
        u64_code(*self)
    }

    fn serialize(&self) -> (r: Result<Vec<u8>, CodecError>) {
        match encode_u64(*self) {
            Some(b) => Ok(b),
            None => Err(CodecError::Unencodable),
        }
    }

    fn deserialize(bytes: Vec<u8>) -> (r: Result<Self, CodecError>) {
        match decode_u64(&bytes) {
            Some(x) => Ok(x),
            None => Err(CodecError::Malformed),
        }
    }
}

/// Decodes a stored key and value, if there are any.
pub fn deserialize_tuple<K: Serial, V: Serial>(input: Option<(Vec<u8>, Vec<u8>)>) -> (r: Result<
    Option<(K, V)>,
    CodecError,
>)
    ensures
        input is None ==> r == Ok::<Option<(K, V)>, CodecError>(None),
        input is Some ==> r != Ok::<Option<(K, V)>, CodecError>(None),
        r is Err ==> r == Err::<Option<(K, V)>, CodecError>(CodecError::Malformed),
        forall|k: K, v: V|
            input matches Some((kb, vb)) && kb@ == #[trigger] k.encoding() && vb@
                == #[trigger] v.encoding() ==> r == Ok::<
                Option<(K, V)>,
                CodecError,
            >(Some((k, v))),
{
    match input {
        None => Ok(None),
        Some((kb, vb)) => {
            let k = match K::deserialize(kb) {
                Ok(k) => k,
                Err(e) => {
                    return Err(e);
                },
            };
            let v = match V::deserialize(vb) {
                Ok(v) => v,
                Err(e) => {
                    return Err(e);
                },
            };
            Ok(Some((k, v)))
        },
    }
}

/// Decodes a stored value, if there is one.
pub fn deserialize_option<V: Serial>(value: Option<Vec<u8>>) -> (r: Result<Option<V>, CodecError>)
    ensures
        value is None ==> r == Ok::<Option<V>, CodecError>(None),
        value is Some ==> r != Ok::<Option<V>, CodecError>(None),
        r is Err ==> r == Err::<Option<V>, CodecError>(CodecError::Malformed),
        forall|v: V|
            value matches Some(b) && b@ == #[trigger] v.encoding() ==> r == Ok::<
                Option<V>,
                CodecError,
            >(Some(v)),
{
    match value {
        None => Ok(None),
        Some(b) => match V::deserialize(b) {
            Ok(v) => Ok(Some(v)),
            Err(e) => Err(e),
        },
    }
}

/// Encodes a value to store, if there is one.
pub fn serialize_option<V: Serial>(value: Option<&V>) -> (r: Result<Option<Vec<u8>>, CodecError>)
    ensures
        value is None ==> r == Ok::<Option<Vec<u8>>, CodecError>(None),
        value is Some ==> r is Ok && r->Ok_0 is Some,
        value is Some ==> r->Ok_0->Some_0@ == value->Some_0.encoding(),
{
    match value {
        None => Ok(None),
        Some(v) => match v.serialize() {
            Ok(b) => Ok(Some(b)),
            Err(e) => Err(e),
        },
    }
}

} // verus!
