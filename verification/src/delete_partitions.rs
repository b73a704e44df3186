//! The delete-partitions control command: binary layout, textual form and
//! validation of the partition count.
use vstd::prelude::*;
use vstd::slice::slice_subrange;
use vstd::string::StrSliceExecFns;
use vstd::string::StringExecFns;
use crate::error::Error;
use crate::identifier::Identifier;
use crate::identifier::IdView;
use crate::identifier::lemma_id_bytes_round_trip;
use crate::identifier::lemma_id_text_round_trip;
use crate::identifier::lemma_le_value_bound;
use crate::identifier::lemma_pow256_small;
use crate::identifier::spec_id_bytes;
use crate::identifier::spec_id_parse;
use crate::identifier::spec_id_parse_len;
use crate::identifier::spec_id_from_text;
use crate::identifier::spec_id_text;
use crate::identifier::spec_le_len;
use crate::identifier::spec_le_value;
use crate::identifier::pow256;
use crate::text::char_is_digit;
use crate::text::lemma_dec_digits_shape;
use crate::text::find_pipe;
use crate::text::parse_u32_str;
use crate::text::spec_dec_digits;
use crate::text::spec_parse_u32;
use crate::text::u32_to_dec_string;

verus! {

/// Largest partition count a command may name.
pub const MAX_PARTITIONS_COUNT: u32 = 100000;

/// Ask the broker to drop the highest `partitions_count` partitions of a
/// topic.
#[derive(Clone, Debug, PartialEq, Eq)]
pub struct DeletePartitions {
    pub stream_id: Identifier,
    pub topic_id: Identifier,
    pub partitions_count: u32,
}

/// The mathematical model of the command.
pub struct DpView {
    pub stream_id: IdView,
    pub topic_id: IdView,
    pub partitions_count: u32,
}

impl View for DeletePartitions {
    type V = DpView;

    open spec fn view(&self) -> DpView {
        DpView {
            stream_id: self.stream_id@,
            topic_id: self.topic_id@,
            partitions_count: self.partitions_count,
        }
    }
}

impl DpView {
    pub open spec fn valid(self) -> bool {
        self.stream_id.valid() && self.topic_id.valid()
            && 1 <= self.partitions_count <= MAX_PARTITIONS_COUNT
    }

    pub open spec fn ids_valid(self) -> bool {
        self.stream_id.valid() && self.topic_id.valid()
    }

    pub open spec fn textual_defined(self) -> bool {
        self.stream_id.textual_defined() && self.topic_id.textual_defined()
    }
}

/// Four-byte little-endian form of a 32-bit number.
pub open spec fn spec_u32_le(v: u32) -> Seq<u8> {
    seq![
        (v % 0x100) as u8,
        ((v / 0x100) % 0x100) as u8,
        ((v / 0x10000) % 0x100) as u8,
        (v / 0x1000000) as u8,
    ]
}

pub proof fn lemma_u32_le_round_trip(v: u32)
    ensures
        spec_le_value(spec_u32_le(v)) == v,
{
    let b = spec_u32_le(v);
    let t1 = b.drop_first();
    let t2 = t1.drop_first();
    let t3 = t2.drop_first();
    assert(t3.drop_first() =~= Seq::<u8>::empty());
    assert(spec_le_value(Seq::<u8>::empty()) == 0);
    assert(spec_le_value(t3) == t3[0] + 256 * spec_le_value(t3.drop_first()));
    assert(spec_le_value(t2) == t2[0] + 256 * spec_le_value(t3));
    assert(spec_le_value(t1) == t1[0] + 256 * spec_le_value(t2));
    assert(t1[0] == ((v / 0x100) % 0x100) as u8);
    assert(t2[0] == ((v / 0x10000) % 0x100) as u8);
    assert(t3[0] == (v / 0x1000000) as u8);
    assert(v % 0x100 + 0x100 * ((v / 0x100) % 0x100) + 0x10000 * ((v / 0x10000) % 0x100)
        + 0x1000000 * (v / 0x1000000) == v) by (bit_vector);
}

/// What validation returns: the count must lie in the accepted range.
pub open spec fn spec_validate_count(count: u32) -> Result<(), Error> {
    if 1 <= count <= MAX_PARTITIONS_COUNT {
        Ok(())
    } else {
        Err(Error::TooManyPartitions)
    }
}

/// Byte layout: the two identifiers, then the count in four little-endian
/// bytes.
pub open spec fn spec_dp_bytes(v: DpView) -> Seq<u8> {
    spec_id_bytes(v.stream_id) + spec_id_bytes(v.topic_id) + spec_u32_le(v.partitions_count)
}

/// Parse and validate the byte form. Runs shorter than the minimal framing
/// (two three-byte identifiers and the four-byte count) are rejected
/// outright.
pub open spec fn spec_dp_from_bytes(b: Seq<u8>) -> Result<DpView, Error> {
    if b.len() < 10 {
        Err(Error::InvalidCommand)
    } else if spec_id_parse(b) is None {
        Err(Error::InvalidCommand)
    } else {
        let stream_id = spec_id_parse(b)->Some_0;
        let p1 = spec_id_parse_len(b);
        let rest = b.subrange(p1, b.len() as int);
        if spec_id_parse(rest) is None {
            Err(Error::InvalidCommand)
        } else {
            let topic_id = spec_id_parse(rest)->Some_0;
            let p2 = spec_id_parse_len(rest);
            if rest.len() < p2 + 4 {
                Err(Error::InvalidCommand)
            } else {
                let count = spec_le_value(rest.subrange(p2, p2 + 4)) as u32;
                let v = DpView { stream_id, topic_id, partitions_count: count };
                match spec_validate_count(count) {
                    Ok(_) => Ok(v),
                    Err(e) => Err(e),
                }
            }
        }
    }
}

/// A successful identifier parse consumes exactly the canonical encoding of
/// what it returns.
pub proof fn lemma_id_parse_exact(b: Seq<u8>)
    requires
        spec_id_parse(b) is Some,
    ensures
        3 <= spec_id_parse_len(b) <= b.len(),
        spec_id_parse(b)->Some_0.valid(),
        spec_id_bytes(spec_id_parse(b)->Some_0).len() == spec_id_parse_len(b),
{
    let l = b[1] as int;
    let v = spec_id_parse(b)->Some_0;
    match v {
        IdView::Num(n) => {
            let payload = b.subrange(2, 2 + l);
            lemma_le_value_bound(payload);
            lemma_pow256_small();
            assert(spec_le_value(payload) < pow256(payload.len() as nat));
            assert(n == spec_le_value(payload));
            if l > 1 {
                lemma_le_value_lower(payload);
                assert(payload.last() == b[2 + l - 1]);
                assert(spec_le_value(payload) >= payload.last() * pow256((l - 1) as nat));
                assert(payload.last() >= 1);
                assert(payload.last() * pow256((l - 1) as nat) >= pow256((l - 1) as nat))
                    by (nonlinear_arith)
                    requires payload.last() >= 1,
                ;
            }
            assert(spec_le_len(n) == l);
        },
        IdView::Name(_) => {},
    }
}

/// A little-endian run is worth at least its top byte times the place value
/// of the top position.
pub proof fn lemma_le_value_lower(b: Seq<u8>)
    requires
        b.len() >= 1,
    ensures
        spec_le_value(b) >= b.last() * pow256((b.len() - 1) as nat),
    decreases b.len(),
{
    if b.len() == 1 {
        assert(b.drop_first() =~= Seq::<u8>::empty());
        assert(spec_le_value(Seq::<u8>::empty()) == 0);
        assert(spec_le_value(b) == b[0] + 256 * spec_le_value(b.drop_first()));
        assert(pow256(0) == 1);
        assert(b.last() == b[0]);
    } else {
        let t = b.drop_first();
        lemma_le_value_lower(t);
        let p = pow256((t.len() - 1) as nat);
        assert(t.last() == b.last());
        assert(spec_le_value(t) >= t.last() * p);
        assert(pow256((b.len() - 1) as nat) == 256 * p);
        assert(spec_le_value(b) == b[0] + 256 * spec_le_value(t));
        assert(256 * spec_le_value(t) >= b.last() * (256 * p)) by (nonlinear_arith)
            requires
                spec_le_value(t) >= b.last() * p,
        ;
    }
}

/// Parsing an identifier looks only at the run it consumes: appending bytes
/// after a complete encoding changes nothing.
pub proof fn lemma_id_parse_prefix(a: Seq<u8>, ext: Seq<u8>)
    requires
        spec_id_parse(a) is Some,
        spec_id_parse_len(a) == a.len(),
    ensures
        spec_id_parse(a + ext) == spec_id_parse(a),
        spec_id_parse_len(a + ext) == spec_id_parse_len(a),
{
    let b = a + ext;
    assert(b[0] == a[0] && b[1] == a[1]);
    let l = a[1] as int;
    assert(b.subrange(2, 2 + l) =~= a.subrange(2, 2 + l));
}

impl DeletePartitions {
    /// The count must lie between one and the accepted maximum.
    pub fn validate(&self) -> (r: Result<(), Error>)
        ensures
            r == spec_validate_count(self.partitions_count),
    {
        if self.partitions_count < 1 || self.partitions_count > MAX_PARTITIONS_COUNT {
            return Err(Error::TooManyPartitions);
        }
        Ok(())
    }

    /// Encode as the two identifiers followed by the count.
    pub fn as_bytes(&self) -> (r: Vec<u8>)
        requires
            self@.ids_valid(),
        ensures
            r@ == spec_dp_bytes(self@),
    {
        let mut out = self.stream_id.as_bytes();
        let mut tb = self.topic_id.as_bytes();
        out.append(&mut tb);
        let v = self.partitions_count;
        out.push((v % 0x100) as u8);
        out.push(((v / 0x100) % 0x100) as u8);
        out.push(((v / 0x10000) % 0x100) as u8);
        out.push((v / 0x1000000) as u8);
        proof {
            assert(out@ =~= spec_dp_bytes(self@));
        }
        out
    }

    /// Decode and validate the byte form.
    pub fn from_bytes(bytes: &[u8]) -> (r: Result<DeletePartitions, Error>)
        ensures
            spec_dp_from_bytes(bytes@) is Ok ==> r is Ok
                && r->Ok_0@ == spec_dp_from_bytes(bytes@)->Ok_0,
            spec_dp_from_bytes(bytes@) is Err ==> r == Err::<DeletePartitions, Error>(
                spec_dp_from_bytes(bytes@)->Err_0),
            r is Ok ==> r->Ok_0@.valid(),
    {
        if bytes.len() < 10 {
            return Err(Error::InvalidCommand);
        }
        let stream_id = match Identifier::from_bytes(bytes) {
            Ok(id) => id,
            Err(e) => {
                return Err(e);
            },
        };
        proof {
            lemma_id_parse_exact(bytes@);
        }
        let position = stream_id.get_size_bytes() as usize;
        let rest = slice_subrange(bytes, position, bytes.len());
        let topic_id = match Identifier::from_bytes(rest) {
            Ok(id) => id,
            Err(e) => {
                return Err(e);
            },
        };
        proof {
            lemma_id_parse_exact(rest@);
        }
        let position2 = topic_id.get_size_bytes() as usize;
        if rest.len() - position2 < 4 {
            return Err(Error::InvalidCommand);
        }
        let partitions_count = read_u32_le(rest, position2);
        let command = DeletePartitions { stream_id, topic_id, partitions_count };
        match command.validate() {
            Ok(_) => {},
            Err(e) => {
                return Err(e);
            },
        }
        proof {
            lemma_le_value_bound(rest@.subrange(position2 as int, position2 + 4));
            lemma_pow256_small();
        }
        Ok(command)
    }
}

/// Read a 32-bit number from four little-endian bytes.
fn read_u32_le(b: &[u8], pos: usize) -> (r: u32)
    requires
        pos + 4 <= b@.len(),
    ensures
        r == spec_le_value(b@.subrange(pos as int, pos + 4)),
{
    let n = b.len();
    proof {
        assert(n == b@.len());
    }
    let b0 = *vstd::slice::slice_index_get(b, pos);
    let b1 = *vstd::slice::slice_index_get(b, pos + 1);
    let b2 = *vstd::slice::slice_index_get(b, pos + 2);
    let b3 = *vstd::slice::slice_index_get(b, pos + 3);
    let r = (b0 as u32) + 0x100 * (b1 as u32) + 0x10000 * (b2 as u32) + 0x1000000 * (b3 as u32);
    proof {
        let s = b@.subrange(pos as int, pos + 4);
        let t1 = s.drop_first();
        let t2 = t1.drop_first();
        let t3 = t2.drop_first();
        assert(t3.drop_first() =~= Seq::<u8>::empty());
        assert(spec_le_value(Seq::<u8>::empty()) == 0);
        assert(s[0] == b0 && t1[0] == b1 && t2[0] == b2 && t3[0] == b3);
        assert(spec_le_value(t3) == t3[0] + 256 * spec_le_value(t3.drop_first()));
        assert(spec_le_value(t2) == t2[0] + 256 * spec_le_value(t3));
        assert(spec_le_value(t1) == t1[0] + 256 * spec_le_value(t2));
        assert(spec_le_value(s) == s[0] + 256 * spec_le_value(t1));
    }
    r
}

/// Decoding an encoded command gives the command back.
pub proof fn lemma_dp_bytes_round_trip(v: DpView)
    requires
        v.valid(),
    ensures
        spec_dp_from_bytes(spec_dp_bytes(v)) == Ok::<DpView, Error>(v),
{
    let b = spec_dp_bytes(v);
    let b1 = spec_id_bytes(v.stream_id);
    let b2 = spec_id_bytes(v.topic_id);
    let b3 = spec_u32_le(v.partitions_count);
    lemma_id_bytes_round_trip(v.stream_id);
    lemma_id_bytes_round_trip(v.topic_id);
    assert(b1.len() >= 3 && b2.len() >= 3);
    assert(b.len() >= 10);
    assert(b =~= b1 + (b2 + b3));
    lemma_id_parse_prefix(b1, b2 + b3);
    assert(spec_id_parse(b) == Some(v.stream_id));
    let rest = b.subrange(spec_id_parse_len(b), b.len() as int);
    assert(rest =~= b2 + b3);
    lemma_id_parse_prefix(b2, b3);
    assert(spec_id_parse(rest) == Some(v.topic_id));
    let p2 = spec_id_parse_len(rest);
    assert(p2 == b2.len());
    assert(rest.len() == b2.len() + 4);
    assert(rest.subrange(p2, p2 + 4) =~= b3);
    lemma_u32_le_round_trip(v.partitions_count);
}

/// Textual form: the identifiers and the count, pipe-delimited.
pub open spec fn spec_dp_text(v: DpView) -> Seq<char> {
    spec_id_text(v.stream_id) + seq!['|'] + spec_id_text(v.topic_id) + seq!['|']
        + spec_dec_digits(v.partitions_count as nat)
}

/// Index of the first field separator, or the length when there is none.
pub open spec fn spec_first_pipe(s: Seq<char>) -> int
    decreases s.len(),
{
    if s.len() == 0 {
        0
    } else if s[0] == '|' {
        0
    } else {
        1 + spec_first_pipe(s.drop_first())
    }
}

pub proof fn lemma_first_pipe_char(s: Seq<char>)
    ensures
        0 <= spec_first_pipe(s) <= s.len(),
        forall|k: int| 0 <= k < spec_first_pipe(s) ==> s[k] != '|',
        spec_first_pipe(s) < s.len() ==> s[spec_first_pipe(s)] == '|',
    decreases s.len(),
{
    if s.len() == 0 {
    } else if s[0] == '|' {
    } else {
        let t = s.drop_first();
        lemma_first_pipe_char(t);
        assert(forall|k: int| 1 <= k < spec_first_pipe(s) ==> s[k] == t[k - 1]);
    }
}

/// Parse and validate the pipe-delimited textual form: exactly three
/// fields, two identifiers and a count.
pub open spec fn spec_dp_from_text(s: Seq<char>) -> Result<DpView, Error> {
    let i = spec_first_pipe(s);
    if i == s.len() {
        Err(Error::InvalidCommand)
    } else {
        let rest = s.subrange(i + 1, s.len() as int);
        let j = spec_first_pipe(rest);
        if j == rest.len() {
            Err(Error::InvalidCommand)
        } else {
            let part3 = rest.subrange(j + 1, rest.len() as int);
            if spec_first_pipe(part3) != part3.len() {
                Err(Error::InvalidCommand)
            } else if spec_id_from_text(s.subrange(0, i)) is None {
                Err(Error::InvalidCommand)
            } else if spec_id_from_text(rest.subrange(0, j)) is None {
                Err(Error::InvalidCommand)
            } else if spec_parse_u32(part3) is None {
                Err(Error::InvalidCommand)
            } else {
                let v = DpView {
                    stream_id: spec_id_from_text(s.subrange(0, i))->Some_0,
                    topic_id: spec_id_from_text(rest.subrange(0, j))->Some_0,
                    partitions_count: spec_parse_u32(part3)->Some_0,
                };
                match spec_validate_count(v.partitions_count) {
                    Ok(_) => Ok(v),
                    Err(e) => Err(e),
                }
            }
        }
    }
}

impl DeletePartitions {
    /// Parse the pipe-delimited textual form.
    pub fn from_str(input: &str) -> (r: Result<DeletePartitions, Error>)
        ensures
            spec_dp_from_text(input@) is Ok ==> r is Ok
                && r->Ok_0@ == spec_dp_from_text(input@)->Ok_0,
            spec_dp_from_text(input@) is Err ==> r == Err::<DeletePartitions, Error>(
                spec_dp_from_text(input@)->Err_0),
            r is Ok ==> r->Ok_0@.valid(),
    {
        let n = input.unicode_len();
        let i = find_pipe(input, 0);
        proof {
            lemma_first_pipe_char(input@);
            lemma_first_pipe_unique(input@, i as int);
        }
        if i == n {
            return Err(Error::InvalidCommand);
        }
        let ghost rest = input@.subrange(i + 1, n as int);
        let j = find_pipe(input, i + 1);
        proof {
            lemma_first_pipe_char(rest);
            assert(forall|k: int| 0 <= k < rest.len() ==> rest[k] == input@[k + i + 1]);
            lemma_first_pipe_unique(rest, j - i - 1);
        }
        if j == n {
            return Err(Error::InvalidCommand);
        }
        let ghost part3 = rest.subrange(j - i, rest.len() as int);
        let k = find_pipe(input, j + 1);
        proof {
            lemma_first_pipe_char(part3);
            assert(forall|m: int| 0 <= m < part3.len() ==> part3[m] == input@[m + j + 1]);
            lemma_first_pipe_unique(part3, k - j - 1);
        }
        if k != n {
            proof {
                assert(spec_first_pipe(part3) == k - j - 1 < part3.len());
            }
            return Err(Error::InvalidCommand);
        }
        let p1 = input.substring_char(0, i);
        let p2 = input.substring_char(i + 1, j);
        let p3 = input.substring_char(j + 1, n);
        proof {
            assert(p2@ =~= rest.subrange(0, j - i - 1));
            assert(p3@ =~= part3);
        }
        let stream_id = match Identifier::from_text(p1) {
            Ok(id) => id,
            Err(e) => {
                return Err(e);
            },
        };
        let topic_id = match Identifier::from_text(p2) {
            Ok(id) => id,
            Err(e) => {
                return Err(e);
            },
        };
        let partitions_count = match parse_u32_str(p3) {
            Some(c) => c,
            None => {
                return Err(Error::InvalidCommand);
            },
        };
        let command = DeletePartitions { stream_id, topic_id, partitions_count };
        match command.validate() {
            Ok(_) => {},
            Err(e) => {
                return Err(e);
            },
        }
        Ok(command)
    }

    /// The pipe-delimited textual form, when both identifiers have one.
    pub fn to_text(&self) -> (r: Option<String>)
        requires
            self@.ids_valid(),
        ensures
            self@.textual_defined() ==> r is Some && r->0@ == spec_dp_text(self@),
            !self@.textual_defined() ==> r is None,
    {
        let s1 = match self.stream_id.to_text() {
            Some(s) => s,
            None => {
                return None;
            },
        };
        let s2 = match self.topic_id.to_text() {
            Some(s) => s,
            None => {
                return None;
            },
        };
        let s3 = u32_to_dec_string(self.partitions_count);
        proof {
            reveal_strlit("|");
        }
        let mut out = s1;
        out.append("|");
        out.append(s2.as_str());
        out.append("|");
        out.append(s3.as_str());
        proof {
            assert(out@ =~= spec_dp_text(self@));
        }
        Some(out)
    }
}

/// Any index with the first-separator properties is the first separator.
pub proof fn lemma_first_pipe_unique(s: Seq<char>, i: int)
    requires
        0 <= i <= s.len(),
        forall|k: int| 0 <= k < i ==> s[k] != '|',
        i < s.len() ==> s[i] == '|',
    ensures
        spec_first_pipe(s) == i,
{
    lemma_first_pipe_char(s);
    let f = spec_first_pipe(s);
    if f < i {
        assert(s[f] == '|');
        assert(s[f] != '|');
    } else if i < f {
        assert(s[i] == '|');
        assert(s[i] != '|');
    }
}

/// The text of an identifier never holds the field separator.
pub proof fn lemma_id_text_no_pipe(v: IdView)
    requires
        v.valid(),
        v.textual_defined(),
    ensures
        forall|k: int| 0 <= k < spec_id_text(v).len() ==> #[trigger] spec_id_text(v)[k] != '|',
{
    let t = spec_id_text(v);
    match v {
        IdView::Num(n) => {
            lemma_dec_digits_shape(n as nat);
            assert forall|k: int| 0 <= k < t.len() implies #[trigger] t[k] != '|' by {
                assert(char_is_digit(t[k]));
            }
        },
        IdView::Name(s) => {
            assert forall|k: int| 0 <= k < t.len() implies #[trigger] t[k] != '|' by {
                if 1 <= k < t.len() - 1 {
                    assert(t[k] == s[k - 1] as char);
                    assert(s[k - 1] < 128 && s[k - 1] != 124);
                }
            }
        },
    }
}

/// Printing a command and parsing the text gives the command back.
pub proof fn lemma_dp_text_round_trip(v: DpView)
    requires
        v.valid(),
        v.textual_defined(),
    ensures
        spec_dp_from_text(spec_dp_text(v)) == Ok::<DpView, Error>(v),
{
    let t1 = spec_id_text(v.stream_id);
    let t2 = spec_id_text(v.topic_id);
    let t3 = spec_dec_digits(v.partitions_count as nat);
    let s = spec_dp_text(v);
    lemma_id_text_no_pipe(v.stream_id);
    lemma_id_text_no_pipe(v.topic_id);
    lemma_dec_digits_shape(v.partitions_count as nat);
    assert(forall|k: int| 0 <= k < t1.len() ==> s[k] == #[trigger] t1[k]);
    assert(s[t1.len() as int] == '|');
    lemma_first_pipe_unique(s, t1.len() as int);
    let i = spec_first_pipe(s);
    assert(i == t1.len() < s.len());
    let rest = s.subrange(i + 1, s.len() as int);
    assert(rest =~= t2 + seq!['|'] + t3);
    assert(forall|k: int| 0 <= k < t2.len() ==> rest[k] == #[trigger] t2[k]);
    assert(rest[t2.len() as int] == '|');
    lemma_first_pipe_unique(rest, t2.len() as int);
    let j = spec_first_pipe(rest);
    assert(j == t2.len() < rest.len());
    let part3 = rest.subrange(j + 1, rest.len() as int);
    assert(part3 =~= t3);
    assert forall|m: int| 0 <= m < part3.len() implies part3[m] != '|' by {
        assert(char_is_digit(t3[m]));
    }
    lemma_first_pipe_unique(part3, part3.len() as int);
    assert(s.subrange(0, i) =~= t1);
    assert(rest.subrange(0, j) =~= t2);
    lemma_id_text_round_trip(v.stream_id);
    lemma_id_text_round_trip(v.topic_id);
    crate::text::lemma_dec_round_trip(v.partitions_count as nat);
}

impl Default for Identifier {
    /// The default identifier is the numeric identifier one.
    fn default() -> (r: Identifier)
        ensures
            r == Identifier::Numeric(1u32),
    {
        Identifier::Numeric(1)
    }
}

impl Default for DeletePartitions {
    /// The default command names the default stream and topic and one
    /// partition.
    fn default() -> (r: DeletePartitions)
        ensures
            r == (DeletePartitions {
                stream_id: Identifier::Numeric(1u32),
                topic_id: Identifier::Numeric(1u32),
                partitions_count: 1u32,
            }),
    {
        DeletePartitions {
            stream_id: Identifier::Numeric(1),
            topic_id: Identifier::Numeric(1),
            partitions_count: 1,
        }
    }
}

} // verus!
