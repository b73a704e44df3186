//! Variable-length stream/topic identifiers: numeric or named, with a
//! self-describing byte layout (kind tag, payload length, payload) and a
//! textual form (a decimal number, or a name in double quotes).
use vstd::prelude::*;
use vstd::slice::slice_index_get;
use vstd::slice::slice_subrange;
use vstd::slice::slice_to_vec;
use vstd::string::StrSliceExecFns;
use vstd::string::StringExecFns;
use crate::error::Error;
use crate::text::all_digits;
use crate::text::char_is_digit;
use crate::text::find_pipe;
use crate::text::lemma_dec_digits_shape;
use crate::text::lemma_dec_round_trip;
use crate::text::parse_u32_str;
use crate::text::spec_dec_digits;
use crate::text::spec_parse_u32;
use crate::text::u32_to_dec_string;

verus! {

/// Kind tag of a named identifier in the byte layout.
pub const KIND_NAMED: u8 = 1;
/// Kind tag of a numeric identifier in the byte layout.
pub const KIND_NUMERIC: u8 = 2;

/// A stream, topic or partition identifier: a 32-bit number or a short name.
#[derive(Clone, Debug, PartialEq, Eq)]
pub enum Identifier {
    Numeric(u32),
    Named(Vec<u8>),
}

/// The mathematical model of an identifier.
pub enum IdView {
    Num(u32),
    Name(Seq<u8>),
}

impl View for Identifier {
    type V = IdView;

    open spec fn view(&self) -> IdView {
        match self {
            Identifier::Numeric(v) => IdView::Num(*v),
            Identifier::Named(s) => IdView::Name(s@),
        }
    }
}

impl IdView {
    /// A named identifier carries one to 255 payload bytes.
    pub open spec fn valid(self) -> bool {
        match self {
            IdView::Num(_) => true,
            IdView::Name(s) => 1 <= s.len() <= 255,
        }
    }

    /// A name has a textual form only when every byte is ASCII and none is
    /// the field separator; parsing strips exactly the outer quotes, so any
    /// other ASCII byte round-trips.
    pub open spec fn textual_defined(self) -> bool {
        match self {
            IdView::Num(_) => true,
            IdView::Name(s) => forall|i: int|
                0 <= i < s.len() ==> ascii_name_byte(#[trigger] s[i]),
        }
    }
}

/// A byte a name may carry in the textual form: ASCII and not the field
/// separator.
pub open spec fn ascii_name_byte(b: u8) -> bool {
    b < 128 && b != 124
}

/// How many bytes the minimal little-endian form of a number takes.
pub open spec fn spec_le_len(v: u32) -> int {
    if v < 0x100 { 1 }
    else if v < 0x10000 { 2 }
    else if v < 0x1000000 { 3 }
    else { 4 }
}

/// Minimal little-endian form of a number: no trailing zero byte.
pub open spec fn spec_le_min_bytes(v: u32) -> Seq<u8> {
    if v < 0x100 {
        seq![v as u8]
    } else if v < 0x10000 {
        seq![(v % 0x100) as u8, (v / 0x100) as u8]
    } else if v < 0x1000000 {
        seq![(v % 0x100) as u8, ((v / 0x100) % 0x100) as u8, (v / 0x10000) as u8]
    } else {
        seq![
            (v % 0x100) as u8,
            ((v / 0x100) % 0x100) as u8,
            ((v / 0x10000) % 0x100) as u8,
            (v / 0x1000000) as u8,
        ]
    }
}

/// The number a little-endian byte run denotes.
pub open spec fn spec_le_value(b: Seq<u8>) -> nat
    decreases b.len(),
{
    if b.len() == 0 {
        0
    } else {
        (b[0] + 256 * spec_le_value(b.drop_first())) as nat
    }
}

/// 256 to the n-th power.
pub open spec fn pow256(n: nat) -> nat
    decreases n,
{
    if n == 0 { 1 } else { 256 * pow256((n - 1) as nat) }
}

pub proof fn lemma_pow256_small()
    ensures
        pow256(0) == 1,
        pow256(1) == 256,
        pow256(2) == 65536,
        pow256(3) == 16777216,
        pow256(4) == 4294967296,
{
    assert(pow256(0) == 1);
    assert(pow256(1) == 256);
    assert(pow256(2) == 65536);
    assert(pow256(3) == 16777216);
    assert(pow256(4) == 4294967296);
}

pub proof fn lemma_le_value_bound(b: Seq<u8>)
    ensures
        spec_le_value(b) < pow256(b.len()),
    decreases b.len(),
{
    if b.len() == 0 {
    } else {
        lemma_le_value_bound(b.drop_first());
        let r = spec_le_value(b.drop_first());
        let p = pow256((b.len() - 1) as nat);
        assert(b[0] < 256 && r < p);
        assert(b[0] + 256 * r < 256 * p) by (nonlinear_arith)
            requires b[0] < 256 && r < p,
        ;
    }
}

/// Encoding a number in minimal little-endian form and evaluating the bytes
/// gives the number back.
pub proof fn lemma_le_min_round_trip(v: u32)
    ensures
        spec_le_value(spec_le_min_bytes(v)) == v,
        spec_le_min_bytes(v).len() == spec_le_len(v),
        spec_le_len(v) == 1 || spec_le_min_bytes(v).last() != 0,
{
    let b = spec_le_min_bytes(v);
    assert(spec_le_value(Seq::<u8>::empty()) == 0);
    if v < 0x100 {
        assert(b.drop_first() =~= Seq::<u8>::empty());
        assert(spec_le_value(b) == b[0] + 256 * spec_le_value(b.drop_first()));
    } else if v < 0x10000 {
        let t1 = b.drop_first();
        assert(t1.drop_first() =~= Seq::<u8>::empty());
        assert(spec_le_value(t1) == t1[0] + 256 * spec_le_value(t1.drop_first()));
        assert(t1[0] == (v / 0x100) as u8);
        assert(v % 0x100 + 0x100 * (v / 0x100) == v) by (bit_vector);
        assert(0x100 <= v < 0x10000 ==> v / 0x100 != 0 && v / 0x100 < 0x100) by (bit_vector)
            requires 0x100 <= v < 0x10000,
        ;
    } else if v < 0x1000000 {
        let t1 = b.drop_first();
        let t2 = t1.drop_first();
        assert(t2.drop_first() =~= Seq::<u8>::empty());
        assert(spec_le_value(t1) == t1[0] + 256 * spec_le_value(t2));
        assert(spec_le_value(t2) == t2[0] + 256 * spec_le_value(t2.drop_first()));
        assert(t1[0] == ((v / 0x100) % 0x100) as u8);
        assert(t2[0] == (v / 0x10000) as u8);
        assert(v % 0x100 + 0x100 * ((v / 0x100) % 0x100) + 0x10000 * (v / 0x10000) == v)
            by (bit_vector);
        assert(0x10000 <= v < 0x1000000 ==> v / 0x10000 != 0 && v / 0x10000 < 0x100)
            by (bit_vector)
            requires 0x10000 <= v < 0x1000000,
        ;
    } else {
        let t1 = b.drop_first();
        let t2 = t1.drop_first();
        let t3 = t2.drop_first();
        assert(t3.drop_first() =~= Seq::<u8>::empty());
        assert(spec_le_value(t1) == t1[0] + 256 * spec_le_value(t2));
        assert(spec_le_value(t2) == t2[0] + 256 * spec_le_value(t3));
        assert(spec_le_value(t3) == t3[0] + 256 * spec_le_value(t3.drop_first()));
        assert(t1[0] == ((v / 0x100) % 0x100) as u8);
        assert(t2[0] == ((v / 0x10000) % 0x100) as u8);
        assert(t3[0] == (v / 0x1000000) as u8);
        assert(v % 0x100 + 0x100 * ((v / 0x100) % 0x100) + 0x10000 * ((v / 0x10000) % 0x100)
            + 0x1000000 * (v / 0x1000000) == v) by (bit_vector);
        assert(v >= 0x1000000 ==> v / 0x1000000 != 0 && v / 0x1000000 < 0x100) by (bit_vector)
            requires v >= 0x1000000,
        ;
    }
}

/// Byte layout of an identifier: kind tag, payload length, payload.
pub open spec fn spec_id_bytes(v: IdView) -> Seq<u8> {
    match v {
        IdView::Num(n) => seq![KIND_NUMERIC, spec_le_len(n) as u8] + spec_le_min_bytes(n),
        IdView::Name(s) => seq![KIND_NAMED, s.len() as u8] + s,
    }
}

/// Parse the identifier at the head of a byte run; trailing bytes are left
/// alone. A numeric payload must be in minimal form, so every identifier has
/// exactly one encoding.
pub open spec fn spec_id_parse(b: Seq<u8>) -> Option<IdView> {
    if b.len() < 3 {
        None
    } else {
        let l = b[1] as int;
        if l < 1 || b.len() < 2 + l {
            None
        } else if b[0] == KIND_NUMERIC {
            if l <= 4 && (l == 1 || b[2 + l - 1] != 0) {
                Some(IdView::Num(spec_le_value(b.subrange(2, 2 + l)) as u32))
            } else {
                None
            }
        } else if b[0] == KIND_NAMED {
            Some(IdView::Name(b.subrange(2, 2 + l)))
        } else {
            None
        }
    }
}

/// How many bytes the identifier at the head of the run occupies, when one
/// parses there.
pub open spec fn spec_id_parse_len(b: Seq<u8>) -> int {
    2 + b[1]
}

/// Decoding an encoded identifier gives the identifier back, and consumes
/// exactly its encoding.
pub proof fn lemma_id_bytes_round_trip(v: IdView)
    requires
        v.valid(),
    ensures
        spec_id_parse(spec_id_bytes(v)) == Some(v),
        spec_id_parse_len(spec_id_bytes(v)) == spec_id_bytes(v).len(),
{
    let b = spec_id_bytes(v);
    match v {
        IdView::Num(n) => {
            lemma_le_min_round_trip(n);
            assert(b.subrange(2, 2 + spec_le_len(n)) =~= spec_le_min_bytes(n));
            if spec_le_len(n) > 1 {
                assert(b[2 + (b[1] as int) - 1] == spec_le_min_bytes(n).last());
            }
            lemma_le_value_bound(spec_le_min_bytes(n));
        },
        IdView::Name(s) => {
            assert(b.subrange(2, 2 + (b[1] as int)) =~= s);
        },
    }
}

/// Textual form: a decimal number, or the name between double quotes.
pub open spec fn spec_id_text(v: IdView) -> Seq<char> {
    match v {
        IdView::Num(n) => spec_dec_digits(n as nat),
        IdView::Name(s) => seq!['"'] + Seq::new(s.len(), |i: int| s[i] as char) + seq!['"'],
    }
}

/// Parse the textual form: a digit run is numeric; anything of length three
/// or more between double quotes whose inside is ASCII without the field
/// separator is a name.
pub open spec fn spec_id_from_text(s: Seq<char>) -> Option<IdView> {
    if spec_parse_u32(s) is Some {
        Some(IdView::Num(spec_parse_u32(s)->Some_0))
    } else if s.len() >= 3 && s[0] == '"' && s[s.len() - 1] == '"' && s.len() - 2 <= 255
        && (forall|i: int| 1 <= i < s.len() - 1 ==> (((#[trigger] s[i]) as u32) < 128 && s[i] != '|')) {
        Some(IdView::Name(Seq::new((s.len() - 2) as nat, |i: int| s[i + 1] as u8)))
    } else {
        None
    }
}

/// Printing an identifier and parsing the text gives the identifier back.
pub proof fn lemma_id_text_round_trip(v: IdView)
    requires
        v.valid(),
        v.textual_defined(),
    ensures
        spec_id_from_text(spec_id_text(v)) == Some(v),
{
    let t = spec_id_text(v);
    match v {
        IdView::Num(n) => {
            lemma_dec_digits_shape(n as nat);
            lemma_dec_round_trip(n as nat);
            assert(char_is_digit(spec_dec_digits(n as nat)[0]));
            assert(spec_dec_digits(n as nat)[0] != '+');
        },
        IdView::Name(s) => {
            let mid = Seq::new(s.len(), |i: int| s[i] as char);
            assert(t.len() == s.len() + 2);
            assert(t[0] == '"');
            assert(t[t.len() - 1] == '"');
            assert(!char_is_digit('"'));
            assert(!all_digits(t));
            assert(forall|i: int| 1 <= i < t.len() - 1 ==> t[i] == mid[i - 1]);
            assert(forall|i: int| 1 <= i < t.len() - 1 ==> (((#[trigger] t[i]) as u32) < 128
                && t[i] != '|')) by {
                assert(forall|j: int| 0 <= j < s.len() ==> ascii_name_byte(#[trigger] s[j]));
                assert forall|i: int| 1 <= i < t.len() - 1 implies (((#[trigger] t[i]) as u32)
                    < 128 && t[i] != '|') by {
                    assert(ascii_name_byte(s[i - 1]));
                    assert(t[i] == s[i - 1] as char);
                }
            }
            let back = Seq::new((t.len() - 2) as nat, |i: int| t[i + 1] as u8);
            assert(back =~= s);
        },
    }
}

impl Identifier {
    /// A numeric identifier.
    pub fn numeric(value: u32) -> (r: Result<Identifier, Error>)
        ensures
            r == Ok::<Identifier, Error>(Identifier::Numeric(value)),
    {
        Ok(Identifier::Numeric(value))
    }

    /// A named identifier; the name carries one to 255 bytes.
    pub fn named(name: Vec<u8>) -> (r: Result<Identifier, Error>)
        ensures
            1 <= name@.len() <= 255 ==> r == Ok::<Identifier, Error>(Identifier::Named(name)),
            !(1 <= name@.len() <= 255) ==> r == Err::<Identifier, Error>(Error::InvalidCommand),
    {
        if name.len() < 1 || name.len() > 255 {
            return Err(Error::InvalidCommand);
        }
        Ok(Identifier::Named(name))
    }

    pub open spec fn valid(&self) -> bool {
        self@.valid()
    }

    /// Size of the byte form: tag, length byte and payload.
    pub fn get_size_bytes(&self) -> (r: u32)
        requires
            self.valid(),
        ensures
            r == spec_id_bytes(self@).len(),
    {
        match self {
            Identifier::Numeric(v) => {
                let v = *v;
                if v < 0x100 { 3 }
                else if v < 0x10000 { 4 }
                else if v < 0x1000000 { 5 }
                else { 6 }
            },
            Identifier::Named(s) => 2 + (s.len() as u32),
        }
    }

    /// Encode as tag, payload length, payload.
    pub fn as_bytes(&self) -> (r: Vec<u8>)
        requires
            self.valid(),
        ensures
            r@ == spec_id_bytes(self@),
    {
        let mut out: Vec<u8> = Vec::new();
        match self {
            Identifier::Numeric(v) => {
                let v = *v;
                out.push(KIND_NUMERIC);
                if v < 0x100 {
                    out.push(1);
                    out.push(v as u8);
                } else if v < 0x10000 {
                    out.push(2);
                    out.push((v % 0x100) as u8);
                    out.push((v / 0x100) as u8);
                } else if v < 0x1000000 {
                    out.push(3);
                    out.push((v % 0x100) as u8);
                    out.push(((v / 0x100) % 0x100) as u8);
                    out.push((v / 0x10000) as u8);
                } else {
                    out.push(4);
                    out.push((v % 0x100) as u8);
                    out.push(((v / 0x100) % 0x100) as u8);
                    out.push(((v / 0x10000) % 0x100) as u8);
                    out.push((v / 0x1000000) as u8);
                }
                proof {
                    assert(out@ =~= spec_id_bytes(self@));
                }
            },
            Identifier::Named(s) => {
                out.push(KIND_NAMED);
                out.push(s.len() as u8);
                let mut i: usize = 0;
                while i < s.len()
                    invariant
                        i <= s@.len() <= 255,
                        out@ =~= seq![KIND_NAMED, s@.len() as u8] + s@.subrange(0, i as int),
                    decreases s@.len() - i,
                {
                    out.push(s[i]);
                    proof {
                        assert(out@ =~= seq![KIND_NAMED, s@.len() as u8]
                            + s@.subrange(0, i + 1 as int));
                    }
                    i = i + 1;
                }
                proof {
                    assert(s@.subrange(0, s@.len() as int) =~= s@);
                    assert(out@ =~= spec_id_bytes(self@));
                }
            },
        }
        out
    }

    /// Decode the identifier at the head of the byte run; whatever follows
    /// it is ignored.
    pub fn from_bytes(bytes: &[u8]) -> (r: Result<Identifier, Error>)
        ensures
            spec_id_parse(bytes@) is Some ==> r is Ok && r->Ok_0@ == spec_id_parse(bytes@)->Some_0,
            spec_id_parse(bytes@) is None ==> r == Err::<Identifier, Error>(Error::InvalidCommand),
            r is Ok ==> r->Ok_0.valid(),
    {
        if bytes.len() < 3 {
            return Err(Error::InvalidCommand);
        }
        let kind = *slice_index_get(bytes, 0);
        let l = *slice_index_get(bytes, 1) as usize;
        if l < 1 || bytes.len() < 2 + l {
            return Err(Error::InvalidCommand);
        }
        if kind == KIND_NUMERIC {
            if l > 4 {
                return Err(Error::InvalidCommand);
            }
            if l > 1 && *slice_index_get(bytes, 2 + l - 1) == 0 {
                return Err(Error::InvalidCommand);
            }
            let ghost payload = bytes@.subrange(2, 2 + l as int);
            let mut acc: u64 = 0;
            let mut i: usize = l;
            while i > 0
                invariant
                    0 <= i <= l <= 4,
                    bytes@.len() >= 2 + l,
                    payload == bytes@.subrange(2, 2 + l as int),
                    acc == spec_le_value(payload.subrange(i as int, l as int)),
                    acc < pow256((l - i) as nat),
                decreases i,
            {
                let b = *slice_index_get(bytes, 2 + i - 1);
                proof {
                    let suf = payload.subrange(i - 1, l as int);
                    assert(suf[0] == payload[i - 1] == bytes@[2 + i - 1]);
                    assert(suf.drop_first() =~= payload.subrange(i as int, l as int));
                    assert(pow256((l - i + 1) as nat) == 256 * pow256((l - i) as nat));
                    lemma_pow256_small();
                }
                acc = (b as u64) + 256 * acc;
                i = i - 1;
            }
            proof {
                assert(payload.subrange(0, l as int) =~= payload);
                lemma_pow256_small();
            }
            Ok(Identifier::Numeric(acc as u32))
        } else if kind == KIND_NAMED {
            let payload = slice_to_vec(slice_subrange(bytes, 2, 2 + l));
            Ok(Identifier::Named(payload))
        } else {
            Err(Error::InvalidCommand)
        }
    }

    /// Textual form: a decimal number, or the name between double quotes.
    /// A name with a byte outside ASCII or with the field separator in it
    /// has no textual form.
    pub fn to_text(&self) -> (r: Option<String>)
        requires
            self.valid(),
        ensures
            self@.textual_defined() ==> r is Some && r->0@ == spec_id_text(self@),
            !self@.textual_defined() ==> r is None,
    {
        match self {
            Identifier::Numeric(v) => Some(u32_to_dec_string(*v)),
            Identifier::Named(s) => {
                if !all_ascii_name_bytes(s) {
                    return None;
                }
                let inner = ascii_string_from_bytes(s);
                proof {
                    reveal_strlit("\"");
                }
                let mut out = String::from_str("\"");
                out.append(inner.as_str());
                out.append("\"");
                proof {
                    assert(out@ =~= spec_id_text(self@));
                }
                Some(out)
            },
        }
    }

    /// Parse the textual form.
    pub fn from_text(s: &str) -> (r: Result<Identifier, Error>)
        ensures
            spec_id_from_text(s@) is Some ==> r is Ok
                && r->Ok_0@ == spec_id_from_text(s@)->Some_0,
            spec_id_from_text(s@) is None ==> r == Err::<Identifier, Error>(Error::InvalidCommand),
            r is Ok ==> r->Ok_0.valid(),
    {
        if let Some(v) = parse_u32_str(s) {
            return Ok(Identifier::Numeric(v));
        }
        let n = s.unicode_len();
        if n < 3 || n - 2 > 255 {
            return Err(Error::InvalidCommand);
        }
        proof {
            reveal_strlit("\"");
        }
        let quote = "\"";
        let q = quote.get_char(0);
        if s.get_char(0) != q || s.get_char(n - 1) != q {
            return Err(Error::InvalidCommand);
        }
        let mut name: Vec<u8> = Vec::new();
        let mut i: usize = 1;
        while i < n - 1
            invariant
                1 <= i <= n - 1,
                n == s@.len(),
                3 <= n,
                name@.len() == i - 1,
                forall|k: int| 1 <= k < i ==> (((#[trigger] s@[k]) as u32) < 128 && s@[k] != '|'),
                forall|k: int| 0 <= k < i - 1 ==> name@[k] == (#[trigger] s@[k + 1]) as u8,
            decreases n - i,
        {
            let c = s.get_char(i);
            if !((c as u32) < 128) || c == '|' {
                proof {
                    assert(!crate::text::char_is_digit(s@[i as int]));
                    if s@[0] == '+' {
                        assert(s@.drop_first()[i - 1] == s@[i as int]);
                        assert(!crate::text::all_digits(s@.drop_first()));
                    } else {
                        assert(!crate::text::all_digits(s@));
                    }
                    assert(spec_parse_u32(s@) is None);
                }
                return Err(Error::InvalidCommand);
            }
            name.push(c as u8);
            i = i + 1;
        }
        proof {
            let v = spec_id_from_text(s@);
            assert(v is Some);
            assert(name@ =~= v->Some_0->Name_0);
        }
        Ok(Identifier::Named(name))
    }
}

/// Whether every byte of a name may stand in the textual form.
fn all_ascii_name_bytes(s: &Vec<u8>) -> (r: bool)
    ensures
        r == (forall|i: int| 0 <= i < s@.len() ==> ascii_name_byte(#[trigger] s@[i])),
{
    let mut i: usize = 0;
    while i < s.len()
        invariant
            i <= s@.len(),
            forall|k: int| 0 <= k < i ==> ascii_name_byte(#[trigger] s@[k]),
        decreases s@.len() - i,
    {
        let b = s[i];
        if b >= 128 || b == 124 {
            proof {
                assert(!ascii_name_byte(s@[i as int]));
            }
            return false;
        }
        i = i + 1;
    }
    true
}

/// Relies on `String::from_utf8`: ASCII bytes decode to the string of
/// exactly those characters.
#[verifier::external_body]
fn ascii_string_from_bytes(b: &Vec<u8>) -> (s: String)
    requires
        forall|i: int| 0 <= i < b@.len() ==> #[trigger] b@[i] < 128,
    ensures
        s@ == Seq::new(b@.len(), |i: int| b@[i] as char),
{
    String::from_utf8(b.clone()).unwrap_or_default()
}

} // verus!
