//! Binary codec for flat control messages.
//!
//! A wire frame is the null-terminated address, padded to a 4-byte
//! boundary, a `,`-prefixed null-terminated type-tag string, padded to a
//! 4-byte boundary, and the argument payloads in declaration order:
//! integers and float bit patterns as 4 big-endian bytes, strings
//! null-terminated and padded to 4 bytes, booleans contributing no bytes.

use vstd::prelude::*;

verus! {

/// The smallest multiple of 4 that is at least `n`.
pub open spec fn pad4(n: int) -> int {
    if n % 4 == 0 {
        n
    } else {
        n + (4 - n % 4)
    }
}

pub proof fn lemma_pad4(n: int)
    requires
        n >= 0,
    ensures
        n <= pad4(n) < n + 4,
        pad4(n) % 4 == 0,
        forall|m: int| m >= n && #[trigger] (m % 4) == 0 ==> m >= pad4(n),
{
    assert(0 <= n % 4 < 4);
    if n % 4 != 0 {
        assert((n + (4 - n % 4)) % 4 == 0) by (nonlinear_arith);
    }
    assert forall|m: int| m >= n && #[trigger] (m % 4) == 0 implies m >= pad4(n) by {
        if m < pad4(n) {
            assert(pad4(n) - m < 4);
            assert((pad4(n) - m) % 4 == 0) by (nonlinear_arith)
                requires
                    m % 4 == 0,
                    pad4(n) % 4 == 0,
            ;
            assert(pad4(n) - m > 0);
            assert(false);
        }
    }
}

/// A run of `n` zero bytes.
pub open spec fn zeros(n: int) -> Seq<u8> {
    Seq::new(n as nat, |i: int| 0u8)
}

/// A section body `s`, its terminating null, and the zero padding that
/// brings the section to a multiple of 4 bytes.
pub open spec fn padded(s: Seq<u8>) -> Seq<u8> {
    s + seq![0u8] + zeros(pad4(s.len() as int + 1) - (s.len() as int + 1))
}

pub proof fn lemma_padded_len(s: Seq<u8>)
    ensures
        padded(s).len() == pad4(s.len() as int + 1),
        padded(s).len() % 4 == 0,
        s.len() + 1 <= padded(s).len() < s.len() + 5,
        padded(s).len() >= 4,
{
    lemma_pad4(s.len() as int + 1);
    assert(pad4(s.len() as int + 1) >= 4) by {
        assert(4int % 4 == 0);
        if s.len() + 1 <= 4 {
            lemma_pad4(s.len() as int + 1);
        }
    }
}

/// The index of the first zero byte at or after `from`, or `data.len()`
/// when there is none.
pub open spec fn find_null(data: Seq<u8>, from: int) -> int
    recommends
        0 <= from <= data.len(),
    decreases data.len() - from when from <= data.len()
{
    if from >= data.len() {
        data.len() as int
    } else if data[from] == 0 {
        from
    } else {
        find_null(data, from + 1)
    }
}

pub proof fn lemma_find_null_bounds(data: Seq<u8>, from: int)
    requires
        0 <= from <= data.len(),
    ensures
        from <= find_null(data, from) <= data.len(),
        find_null(data, from) < data.len() ==> data[find_null(data, from)] == 0,
        forall|j: int| from <= j < find_null(data, from) ==> data[j] != 0,
    decreases data.len() - from,
{
    if from < data.len() && data[from] != 0 {
        lemma_find_null_bounds(data, from + 1);
    }
}

/// Where a zero byte stands at `e` and none before it, the search finds `e`.
pub proof fn lemma_find_null_at(data: Seq<u8>, from: int, e: int)
    requires
        0 <= from <= e < data.len(),
        data[e] == 0,
        forall|j: int| from <= j < e ==> data[j] != 0,
    ensures
        find_null(data, from) == e,
    decreases e - from,
{
    if from < e {
        lemma_find_null_at(data, from + 1, e);
    }
}

fn find_null_from(data: &[u8], start: usize) -> (r: usize)
    requires
        start <= data@.len(),
    ensures
        r == find_null(data@, start as int),
{
    let mut i: usize = start;
    while i < data.len()
        invariant
            start <= i <= data@.len(),
            find_null(data@, start as int) == find_null(data@, i as int),
        decreases data@.len() - i,
    {
        if data[i] == 0 {
            return i;
        }
        i = i + 1;
    }
    i
}

/// Appends zero bytes until the buffer length is a multiple of 4.
fn pad_to_4(buffer: &mut Vec<u8>)
    ensures
        final(buffer)@ == old(buffer)@ + zeros(pad4(old(buffer)@.len() as int) - old(buffer)@.len()),
        final(buffer)@.len() == pad4(old(buffer)@.len() as int),
{
    let ghost base = old(buffer)@;
    proof {
        lemma_pad4(base.len() as int);
    }
    while buffer.len() % 4 != 0
        invariant
            base.len() <= buffer@.len() <= pad4(base.len() as int),
            buffer@ == base + zeros(buffer@.len() - base.len()),
        decreases pad4(base.len() as int) - buffer@.len(),
    {
        proof {
            lemma_pad4(base.len() as int);
            assert(buffer@.len() < pad4(base.len() as int));
        }
        buffer.push(0);
        proof {
            assert(buffer@ =~= base + zeros(buffer@.len() - base.len()));
        }
    }
    proof {
        lemma_pad4(base.len() as int);
        assert(buffer@.len() == pad4(base.len() as int));
    }
}

/// The wire tag characters and the tag-string introducer, as bytes.
pub const TAG_INTRO: u8 = 44;

pub const TAG_INT: u8 = 105;

pub const TAG_FLOAT: u8 = 102;

pub const TAG_STRING: u8 = 115;

pub const TAG_TRUE: u8 = 84;

pub const TAG_FALSE: u8 = 70;

/// One typed argument of a message. A float argument is carried as the
/// 32-bit IEEE-754 bit pattern that stands on the wire, so that the codec
/// itself stays purely integral.
#[derive(Debug, Clone)]
pub enum OscArg {
    Int(i32),
    Float(u32),
    Str(Vec<u8>),
    Bool(bool),
}

/// The mathematical model of one argument.
#[verifier::ext_equal]
pub enum ArgModel {
    Int(i32),
    Float(u32),
    Str(Seq<u8>),
    Bool(bool),
}

/// A message: an address pattern (raw UTF-8 bytes, without interior null
/// bytes for a well-formed message) and its ordered arguments.
#[derive(Debug, Clone)]
pub struct OscMessage {
    pub address: Vec<u8>,
    pub args: Vec<OscArg>,
}

/// The mathematical model of a message.
#[verifier::ext_equal]
pub struct MsgModel {
    pub address: Seq<u8>,
    pub args: Seq<ArgModel>,
}

impl View for OscArg {
    type V = ArgModel;

    open spec fn view(&self) -> ArgModel {
        match self {
            OscArg::Int(v) => ArgModel::Int(*v),
            OscArg::Float(b) => ArgModel::Float(*b),
            OscArg::Str(s) => ArgModel::Str(s@),
            OscArg::Bool(b) => ArgModel::Bool(*b),
        }
    }
}

impl View for OscMessage {
    type V = MsgModel;

    open spec fn view(&self) -> MsgModel {
        MsgModel {
            address: self.address@,
            args: self.args@.map_values(|a: OscArg| a@),
        }
    }
}

/// The single-character wire tag of an argument.
pub open spec fn tag_byte(a: ArgModel) -> u8 {
    match a {
        ArgModel::Int(_) => TAG_INT,
        ArgModel::Float(_) => TAG_FLOAT,
        ArgModel::Str(_) => TAG_STRING,
        ArgModel::Bool(v) => if v {
            TAG_TRUE
        } else {
            TAG_FALSE
        },
    }
}

pub open spec fn tag_bytes(args: Seq<ArgModel>) -> Seq<u8> {
    args.map_values(|a: ArgModel| tag_byte(a))
}

/// The four big-endian bytes of a 32-bit value.
pub open spec fn u32_be(v: u32) -> Seq<u8> {
    seq![(v >> 24) as u8, ((v >> 16) & 0xff) as u8, ((v >> 8) & 0xff) as u8, (v & 0xff) as u8]
}

/// The bytes one argument contributes to the payload section.
pub open spec fn arg_payload(a: ArgModel) -> Seq<u8> {
    match a {
        ArgModel::Int(v) => u32_be(v as u32),
        ArgModel::Float(b) => u32_be(b),
        ArgModel::Str(s) => padded(s),
        ArgModel::Bool(_) => Seq::empty(),
    }
}

/// The payload section: every argument's bytes in declaration order.
pub open spec fn payload_bytes(args: Seq<ArgModel>) -> Seq<u8>
    decreases args.len(),
{
    if args.len() == 0 {
        Seq::empty()
    } else {
        arg_payload(args[0]) + payload_bytes(args.drop_first())
    }
}

/// The whole wire frame of a message.
pub open spec fn encode_spec(m: MsgModel) -> Seq<u8> {
    padded(m.address) + padded(seq![TAG_INTRO] + tag_bytes(m.args)) + payload_bytes(m.args)
}

pub proof fn lemma_payload_bytes_snoc(args: Seq<ArgModel>, a: ArgModel)
    ensures
        payload_bytes(args.push(a)) == payload_bytes(args) + arg_payload(a),
    decreases args.len(),
{
    if args.len() == 0 {
        assert(args.push(a).drop_first() =~= Seq::<ArgModel>::empty());
        assert(args =~= Seq::<ArgModel>::empty());
        assert(payload_bytes(Seq::<ArgModel>::empty()) == Seq::<u8>::empty());
        assert(args.push(a)[0] == a);
        assert(payload_bytes(args.push(a)) =~= payload_bytes(args) + arg_payload(a));
    } else {
        assert(args.push(a).drop_first() =~= args.drop_first().push(a));
        lemma_payload_bytes_snoc(args.drop_first(), a);
        assert(payload_bytes(args.push(a)) =~= payload_bytes(args) + arg_payload(a));
    }
}

pub proof fn lemma_mod4_add(a: int, b: int)
    requires
        a % 4 == 0,
        b % 4 == 0,
    ensures
        (a + b) % 4 == 0,
{
    assert((a + b) % 4 == 0) by (nonlinear_arith)
        requires
            a % 4 == 0,
            b % 4 == 0,
    ;
}

/// Every argument payload has a length that is a multiple of 4, so the
/// payload section keeps every argument start 4-byte aligned.
pub proof fn lemma_payload_aligned(args: Seq<ArgModel>)
    ensures
        payload_bytes(args).len() % 4 == 0,
    decreases args.len(),
{
    if args.len() > 0 {
        match args[0] {
            ArgModel::Str(s) => {
                lemma_padded_len(s);
            },
            _ => {},
        }
        lemma_payload_aligned(args.drop_first());
        lemma_mod4_add(arg_payload(args[0]).len() as int, payload_bytes(args.drop_first()).len() as int);
    }
}

pub proof fn lemma_pad4_add(a: int, b: int)
    requires
        a >= 0,
        b >= 0,
        a % 4 == 0,
    ensures
        pad4(a + b) == a + pad4(b),
{
    assert((a + b) % 4 == b % 4) by (nonlinear_arith)
        requires
            a >= 0,
            b >= 0,
            a % 4 == 0,
    ;
}

fn push_u32_be(buffer: &mut Vec<u8>, v: u32)
    ensures
        final(buffer)@ == old(buffer)@ + u32_be(v),
{
    proof {
        assert(v >> 24 < 256 && (v >> 16) & 0xff < 256 && (v >> 8) & 0xff < 256 && v & 0xff
            < 256) by (bit_vector);
    }
    buffer.push((v >> 24) as u8);
    buffer.push(((v >> 16) & 0xff) as u8);
    buffer.push(((v >> 8) & 0xff) as u8);
    buffer.push((v & 0xff) as u8);
    proof {
        assert(buffer@ =~= old(buffer)@ + u32_be(v));
    }
}

impl OscMessage {
    /// A message with the given address and no arguments yet.
    pub fn new(address: Vec<u8>) -> (r: Self)
        ensures
            r@.address == address@,
            r@.args =~= Seq::<ArgModel>::empty(),
    {
        let r = OscMessage { address, args: Vec::new() };
        proof {
            assert(r@.args =~= Seq::<ArgModel>::empty());
        }
        r
    }

    /// Appends a 32-bit integer argument.
    pub fn push_int(self, value: i32) -> (r: Self)
        ensures
            r@.address == self@.address,
            r@.args == self@.args.push(ArgModel::Int(value)),
    {
        let mut s = self;
        s.args.push(OscArg::Int(value));
        proof {
            assert(s@.args =~= self@.args.push(ArgModel::Int(value)));
        }
        s
    }

    /// Appends a float argument, given as its IEEE-754 bit pattern.
    pub fn push_float(self, bits: u32) -> (r: Self)
        ensures
            r@.address == self@.address,
            r@.args == self@.args.push(ArgModel::Float(bits)),
    {
        let mut s = self;
        s.args.push(OscArg::Float(bits));
        proof {
            assert(s@.args =~= self@.args.push(ArgModel::Float(bits)));
        }
        s
    }

    /// Appends a string argument, given as its raw UTF-8 bytes.
    pub fn push_string(self, value: Vec<u8>) -> (r: Self)
        ensures
            r@.address == self@.address,
            r@.args == self@.args.push(ArgModel::Str(value@)),
    {
        let ghost v = value@;
        let mut s = self;
        s.args.push(OscArg::Str(value));
        proof {
            assert(s@.args =~= self@.args.push(ArgModel::Str(v)));
        }
        s
    }

    /// Encodes the message as its wire frame. Encoding never fails.
    pub fn serialize(&self) -> (r: Vec<u8>)
        ensures
            r@ == encode_spec(self@),
    {
        let ghost argsm = self@.args;
        let mut buffer: Vec<u8> = Vec::new();

        // Address section.
        let mut k: usize = 0;
        while k < self.address.len()
            invariant
                k <= self.address@.len(),
                buffer@ == self.address@.subrange(0, k as int),
            decreases self.address@.len() - k,
        {
            buffer.push(self.address[k]);
            k = k + 1;
            proof {
                assert(buffer@ =~= self.address@.subrange(0, k as int));
            }
        }
        proof {
            assert(buffer@ =~= self.address@);
        }
        buffer.push(0);
        pad_to_4(&mut buffer);
        proof {
            assert(buffer@ =~= padded(self@.address));
            lemma_padded_len(self@.address);
        }
        let ghost header1 = padded(self@.address);

        // Type-tag section.
        buffer.push(TAG_INTRO);
        let mut t: usize = 0;
        while t < self.args.len()
            invariant
                t <= self.args@.len(),
                argsm == self@.args,
                argsm.len() == self.args@.len(),
                buffer@ == header1 + seq![TAG_INTRO] + tag_bytes(argsm.take(t as int)),
            decreases self.args@.len() - t,
        {
            match &self.args[t] {
                OscArg::Int(_) => buffer.push(TAG_INT),
                OscArg::Float(_) => buffer.push(TAG_FLOAT),
                OscArg::Str(_) => buffer.push(TAG_STRING),
                OscArg::Bool(v) => buffer.push(if *v { TAG_TRUE } else { TAG_FALSE }),
            }
            t = t + 1;
            proof {
                assert(argsm[t - 1] == self.args@[t - 1]@);
                assert(buffer@ =~= header1 + seq![TAG_INTRO] + tag_bytes(argsm.take(t as int)));
            }
        }
        proof {
            assert(argsm.take(argsm.len() as int) =~= argsm);
        }
        buffer.push(0);
        let ghost tagstr = seq![TAG_INTRO] + tag_bytes(argsm);
        proof {
            assert(buffer@ =~= header1 + tagstr + seq![0u8]);
            assert(buffer@.len() == header1.len() + tagstr.len() + 1);
        }
        pad_to_4(&mut buffer);
        proof {
            lemma_pad4_add(header1.len() as int, tagstr.len() as int + 1);
            assert(buffer@ =~= header1 + padded(tagstr));
            lemma_padded_len(tagstr);
            lemma_mod4_add(header1.len() as int, padded(tagstr).len() as int);
        }
        let ghost header = header1 + padded(tagstr);
        proof {
            assert(buffer@ =~= header);
            assert(header.len() % 4 == 0);
        }

        // Payload section.
        let mut p: usize = 0;
        while p < self.args.len()
            invariant
                p <= self.args@.len(),
                argsm == self@.args,
                argsm.len() == self.args@.len(),
                buffer@ == header + payload_bytes(argsm.take(p as int)),
                header.len() % 4 == 0,
                buffer@.len() % 4 == 0,
            decreases self.args@.len() - p,
        {
            let ghost pre = buffer@;
            match &self.args[p] {
                OscArg::Int(v) => {
                    push_u32_be(&mut buffer, *v as u32);
                },
                OscArg::Float(b) => {
                    push_u32_be(&mut buffer, *b);
                },
                OscArg::Str(s) => {
                    let mut j: usize = 0;
                    while j < s.len()
                        invariant
                            j <= s@.len(),
                            buffer@ == pre + s@.subrange(0, j as int),
                        decreases s@.len() - j,
                    {
                        buffer.push(s[j]);
                        j = j + 1;
                        proof {
                            assert(buffer@ =~= pre + s@.subrange(0, j as int));
                        }
                    }
                    proof {
                        assert(buffer@ =~= pre + s@);
                    }
                    buffer.push(0);
                    pad_to_4(&mut buffer);
                    proof {
                        lemma_pad4_add(pre.len() as int, s@.len() as int + 1);
                        assert(buffer@ =~= pre + padded(s@));
                    }
                },
                OscArg::Bool(_) => {},
            }
            p = p + 1;
            proof {
                assert(argsm[p - 1] == self.args@[p - 1]@);
                lemma_payload_bytes_snoc(argsm.take(p - 1), argsm[p - 1]);
                assert(argsm.take(p as int) =~= argsm.take(p - 1).push(argsm[p - 1]));
                assert(buffer@ =~= header + payload_bytes(argsm.take(p as int)));
                lemma_payload_aligned(argsm.take(p as int));
                lemma_mod4_add(header.len() as int, payload_bytes(argsm.take(p as int)).len() as int);
            }
        }
        proof {
            assert(argsm.take(argsm.len() as int) =~= argsm);
            assert(buffer@ =~= encode_spec(self@));
        }
        buffer
    }
}

/// Why a frame was rejected. Each variant names exactly one malformation,
/// checked in the order the decoder walks the frame.
#[derive(Debug, Clone, Copy, PartialEq, Eq, Structural)]
pub enum DecodeError {
    /// Fewer than 4 bytes of input.
    TooShort,
    /// No null terminator before the end of input, or an empty address.
    BadAddress,
    /// The byte at the type-tag offset is missing or is not the introducer.
    MissingTagIntro,
    /// The type-tag string has no null terminator before the end of input.
    UnterminatedTags,
    /// Fewer than 4 bytes left for a declared integer argument.
    TruncatedInt,
    /// Fewer than 4 bytes left for a declared float argument.
    TruncatedFloat,
    /// No byte left where a declared string argument should start.
    TruncatedString,
    /// A declared string argument has no null terminator.
    UnterminatedString,
    /// A tag character outside the supported set.
    UnknownTag(u8),
}

/// The 32-bit value whose big-endian bytes stand at `pos`.
pub open spec fn be_to_u32(data: Seq<u8>, pos: int) -> u32 {
    ((data[pos] as u32) << 24) | ((data[pos + 1] as u32) << 16) | ((data[pos + 2] as u32) << 8) | (
    data[pos + 3] as u32)
}

/// Parses the argument payloads declared by `tags`, the cursor starting at
/// `pos`; mirrors the checks the decoder makes, in their order.
pub open spec fn decode_args_spec(data: Seq<u8>, tags: Seq<u8>, pos: int) -> Result<
    Seq<ArgModel>,
    DecodeError,
>
    decreases tags.len(),
{
    if tags.len() == 0 {
        Ok(Seq::empty())
    } else {
        let t = tags[0];
        if t == TAG_INT {
            if pos + 4 > data.len() {
                Err(DecodeError::TruncatedInt)
            } else {
                match decode_args_spec(data, tags.drop_first(), pos + 4) {
                    Ok(rest) => Ok(seq![ArgModel::Int(be_to_u32(data, pos) as i32)] + rest),
                    Err(e) => Err(e),
                }
            }
        } else if t == TAG_FLOAT {
            if pos + 4 > data.len() {
                Err(DecodeError::TruncatedFloat)
            } else {
                match decode_args_spec(data, tags.drop_first(), pos + 4) {
                    Ok(rest) => Ok(seq![ArgModel::Float(be_to_u32(data, pos))] + rest),
                    Err(e) => Err(e),
                }
            }
        } else if t == TAG_STRING {
            if pos >= data.len() {
                Err(DecodeError::TruncatedString)
            } else {
                let e = find_null(data, pos);
                if e >= data.len() {
                    Err(DecodeError::UnterminatedString)
                } else {
                    match decode_args_spec(data, tags.drop_first(), pad4(e + 1)) {
                        Ok(rest) => Ok(seq![ArgModel::Str(data.subrange(pos, e))] + rest),
                        Err(err) => Err(err),
                    }
                }
            }
        } else if t == TAG_TRUE || t == TAG_FALSE {
            match decode_args_spec(data, tags.drop_first(), pos) {
                Ok(rest) => Ok(seq![ArgModel::Bool(t == TAG_TRUE)] + rest),
                Err(e) => Err(e),
            }
        } else {
            Err(DecodeError::UnknownTag(t))
        }
    }
}

/// What decoding a frame yields: the message, or the first malformation
/// found. The decoder ignores any bytes that follow the declared arguments.
pub open spec fn decode_spec(data: Seq<u8>) -> Result<MsgModel, DecodeError> {
    if data.len() < 4 {
        Err(DecodeError::TooShort)
    } else {
        let a = find_null(data, 0);
        if a >= data.len() || a == 0 {
            Err(DecodeError::BadAddress)
        } else {
            let tpos = pad4(a + 1);
            if tpos >= data.len() || data[tpos] != TAG_INTRO {
                Err(DecodeError::MissingTagIntro)
            } else {
                let te = find_null(data, tpos + 1);
                if te >= data.len() {
                    Err(DecodeError::UnterminatedTags)
                } else {
                    match decode_args_spec(data, data.subrange(tpos + 1, te), pad4(te + 1)) {
                        Ok(args) => Ok(MsgModel { address: data.subrange(0, a), args }),
                        Err(e) => Err(e),
                    }
                }
            }
        }
    }
}

/// The next 4-byte boundary at or after `start`, clamped to `len`; the
/// clamp never changes what the decoder accepts, since every use either
/// errors at or past the end of input or does not read the cursor.
fn align4(start: usize, len: usize) -> (r: usize)
    requires
        start <= len,
    ensures
        pad4(start as int) <= len ==> r == pad4(start as int),
        pad4(start as int) > len ==> r == len,
{
    let mut p: usize = start;
    while p % 4 != 0 && p < len
        invariant
            start <= p <= len,
            p <= pad4(start as int),
        decreases pad4(start as int) - p,
    {
        proof {
            lemma_pad4(start as int);
        }
        p = p + 1;
    }
    proof {
        lemma_pad4(start as int);
        if p % 4 == 0 {
            assert(p >= pad4(start as int));
        }
    }
    p
}

impl OscMessage {
    /// Decodes a wire frame, or reports the first malformation found.
    /// The result is exactly what `decode_spec` says of the input.
    #[verifier::loop_isolation(false)]
    #[verifier::rlimit(100)]
    pub fn deserialize(data: &[u8]) -> (r: Result<OscMessage, DecodeError>)
        ensures
            (match r {
                Ok(m) => decode_spec(data@) == Ok::<MsgModel, DecodeError>(m@),
                Err(e) => decode_spec(data@) == Err::<MsgModel, DecodeError>(e),
            }),
    {
        if data.len() < 4 {
            return Err(DecodeError::TooShort);
        }
        let addr_end = find_null_from(data, 0);
        if addr_end >= data.len() || addr_end == 0 {
            return Err(DecodeError::BadAddress);
        }

        let mut address: Vec<u8> = Vec::new();
        let mut j: usize = 0;
        while j < addr_end
            invariant
                j <= addr_end < data@.len(),
                address@ == data@.subrange(0, j as int),
            decreases addr_end - j,
        {
            address.push(data[j]);
            j = j + 1;
            proof {
                assert(address@ =~= data@.subrange(0, j as int));
            }
        }

        let ghost stpos = pad4(addr_end as int + 1);
        let pos = align4(addr_end + 1, data.len());
        if pos >= data.len() {
            proof {
                assert(stpos >= data@.len());
            }
            return Err(DecodeError::MissingTagIntro);
        }
        proof {
            assert(pos == stpos);
        }
        if data[pos] != TAG_INTRO {
            return Err(DecodeError::MissingTagIntro);
        }
        let type_end = find_null_from(data, pos + 1);
        if type_end >= data.len() {
            return Err(DecodeError::UnterminatedTags);
        }
        proof {
            lemma_find_null_bounds(data@, pos as int + 1);
        }
        let ghost tags = data@.subrange(pos as int + 1, type_end as int);
        let ghost astart = pad4(type_end as int + 1);
        let ntags: usize = type_end - (pos + 1);

        let mut apos = align4(type_end + 1, data.len());
        let ghost mut gpos: int = astart;
        let mut args: Vec<OscArg> = Vec::new();
        let mut ti: usize = 0;
        proof {
            lemma_pad4(type_end as int + 1);
            assert(tags.skip(0) =~= tags);
            assert(args@.map_values(|x: OscArg| x@) =~= Seq::<ArgModel>::empty());
            match decode_args_spec(data@, tags, astart) {
                Ok(rest) => {
                    assert(Seq::<ArgModel>::empty() + rest =~= rest);
                },
                Err(_) => {},
            }
        }
        while ti < ntags
            invariant
                ti <= ntags,
                ntags == type_end - pos - 1,
                pos + 1 + ntags == type_end < data@.len(),
                tags == data@.subrange(pos as int + 1, type_end as int),
                tags.len() == ntags,
                args@.len() == ti as int,
                0 <= gpos,
                apos <= data@.len(),
                gpos <= data@.len() ==> apos == gpos,
                gpos > data@.len() ==> apos == data@.len(),
                (match decode_args_spec(data@, tags.skip(ti as int), gpos) {
                    Ok(rest) => decode_args_spec(data@, tags, astart) == Ok::<
                        Seq<ArgModel>,
                        DecodeError,
                    >(args@.map_values(|x: OscArg| x@) + rest),
                    Err(e) => decode_args_spec(data@, tags, astart) == Err::<
                        Seq<ArgModel>,
                        DecodeError,
                    >(e),
                }),
            decreases ntags - ti,
        {
            let ghost prev_args = args@;
            let ghost prev_gpos = gpos;
            let ghost prev_ti = ti as int;
            let tag = data[pos + 1 + ti];
            proof {
                assert(tags[prev_ti] == tag);
                assert(tags.skip(prev_ti)[0] == tag);
                assert(tags.skip(prev_ti).drop_first() =~= tags.skip(prev_ti + 1));
            }
            if tag == TAG_INT || tag == TAG_FLOAT {
                if data.len() - apos < 4 {
                    proof {
                        assert(prev_gpos + 4 > data@.len());
                        if tag == TAG_INT {
                            assert(decode_args_spec(data@, tags.skip(prev_ti), prev_gpos) == Err::<
                                Seq<ArgModel>,
                                DecodeError,
                            >(DecodeError::TruncatedInt));
                        } else {
                            assert(decode_args_spec(data@, tags.skip(prev_ti), prev_gpos) == Err::<
                                Seq<ArgModel>,
                                DecodeError,
                            >(DecodeError::TruncatedFloat));
                        }
                    }
                    if tag == TAG_INT {
                        return Err(DecodeError::TruncatedInt);
                    } else {
                        return Err(DecodeError::TruncatedFloat);
                    }
                }
                proof {
                    assert(apos == prev_gpos);
                }
                let b0 = data[apos] as u32;
                let b1 = data[apos + 1] as u32;
                let b2 = data[apos + 2] as u32;
                let b3 = data[apos + 3] as u32;
                let v: u32 = (b0 << 24) | (b1 << 16) | (b2 << 8) | b3;
                proof {
                    assert(v == be_to_u32(data@, prev_gpos));
                }
                if tag == TAG_INT {
                    args.push(OscArg::Int(v as i32));
                } else {
                    args.push(OscArg::Float(v));
                }
                apos = apos + 4;
                proof {
                    gpos = gpos + 4;
                }
            } else if tag == TAG_STRING {
                if apos >= data.len() {
                    proof {
                        assert(prev_gpos >= data@.len());
                        assert(decode_args_spec(data@, tags.skip(prev_ti), prev_gpos) == Err::<
                            Seq<ArgModel>,
                            DecodeError,
                        >(DecodeError::TruncatedString));
                    }
                    return Err(DecodeError::TruncatedString);
                }
                proof {
                    assert(apos == prev_gpos);
                }
                let str_end = find_null_from(data, apos);
                proof {
                    lemma_find_null_bounds(data@, apos as int);
                }
                if str_end >= data.len() {
                    proof {
                        assert(decode_args_spec(data@, tags.skip(prev_ti), prev_gpos) == Err::<
                            Seq<ArgModel>,
                            DecodeError,
                        >(DecodeError::UnterminatedString));
                    }
                    return Err(DecodeError::UnterminatedString);
                }
                let mut sval: Vec<u8> = Vec::new();
                let mut sj: usize = apos;
                while sj < str_end
                    invariant
                        apos <= sj <= str_end < data@.len(),
                        sval@ == data@.subrange(apos as int, sj as int),
                    decreases str_end - sj,
                {
                    sval.push(data[sj]);
                    sj = sj + 1;
                    proof {
                        assert(sval@ =~= data@.subrange(apos as int, sj as int));
                    }
                }
                args.push(OscArg::Str(sval));
                apos = align4(str_end + 1, data.len());
                proof {
                    lemma_pad4(str_end as int + 1);
                    gpos = pad4(str_end as int + 1);
                }
            } else if tag == TAG_TRUE || tag == TAG_FALSE {
                args.push(OscArg::Bool(tag == TAG_TRUE));
            } else {
                proof {
                    assert(decode_args_spec(data@, tags.skip(prev_ti), prev_gpos) == Err::<
                        Seq<ArgModel>,
                        DecodeError,
                    >(DecodeError::UnknownTag(tag)));
                }
                return Err(DecodeError::UnknownTag(tag));
            }
            ti = ti + 1;
            proof {
                let vf = |x: OscArg| x@;
                assert(args@.map_values(vf) =~= prev_args.map_values(vf).push(args@[prev_ti]@));
                match decode_args_spec(data@, tags.skip(ti as int), gpos) {
                    Ok(rest) => {
                        assert(decode_args_spec(data@, tags.skip(prev_ti), prev_gpos) == Ok::<
                            Seq<ArgModel>,
                            DecodeError,
                        >(seq![args@[prev_ti]@] + rest));
                        assert(prev_args.map_values(vf) + (seq![args@[prev_ti]@] + rest) =~= args@.map_values(
                            vf,
                        ) + rest);
                    },
                    Err(_) => {},
                }
            }
        }
        proof {
            assert(tags.skip(ntags as int) =~= Seq::<u8>::empty());
            assert(decode_args_spec(data@, tags.skip(ntags as int), gpos) == Ok::<
                Seq<ArgModel>,
                DecodeError,
            >(Seq::empty()));
        }
        let m = OscMessage { address, args };
        proof {
            assert(args@.map_values(|x: OscArg| x@) + Seq::<ArgModel>::empty() =~= args@.map_values(
                |x: OscArg| x@,
            ));
            assert(m@ =~= MsgModel {
                address: data@.subrange(0, addr_end as int),
                args: args@.map_values(|x: OscArg| x@),
            });
        }
        Ok(m)
    }
}

/// A string argument round-trips only when it carries no interior null
/// byte: the null is the wire terminator.
pub open spec fn wf_arg(a: ArgModel) -> bool {
    match a {
        ArgModel::Str(s) => forall|i: int| 0 <= i < s.len() ==> s[i] != 0,
        _ => true,
    }
}

/// A message the wire format can carry losslessly: a non-empty address
/// without interior null bytes, and well-formed arguments.
pub open spec fn wf_msg(m: MsgModel) -> bool {
    &&& m.address.len() > 0
    &&& (forall|i: int| 0 <= i < m.address.len() ==> m.address[i] != 0)
    &&& (forall|k: int| 0 <= k < m.args.len() ==> wf_arg(#[trigger] m.args[k]))
}

pub proof fn lemma_tag_byte_nonzero(a: ArgModel)
    ensures
        tag_byte(a) != 0,
{
}

proof fn lemma_u32_be_recompose(u: u32)
    by (bit_vector)
    ensures
        ((((u >> 24) as u8) as u32) << 24) | (((((u >> 16) & 0xff) as u8) as u32) << 16) | (((((u
            >> 8) & 0xff) as u8) as u32) << 8) | (((u & 0xff) as u8) as u32) == u,
{
}

proof fn lemma_i32_u32_roundtrip(v: i32)
    by (bit_vector)
    ensures
        ((v as u32) as i32) == v,
{
}

/// Parsing the tag string of `args` against their own payload bytes gives
/// back exactly `args`.
proof fn lemma_decode_encoded_args(data: Seq<u8>, args: Seq<ArgModel>, pos: int)
    requires
        forall|k: int| 0 <= k < args.len() ==> wf_arg(#[trigger] args[k]),
        0 <= pos,
        pos % 4 == 0,
        data.len() == pos + payload_bytes(args).len(),
        data.subrange(pos, data.len() as int) == payload_bytes(args),
    ensures
        decode_args_spec(data, tag_bytes(args), pos) == Ok::<Seq<ArgModel>, DecodeError>(args),
    decreases args.len(),
{
    if args.len() == 0 {
        assert(tag_bytes(args).len() == 0);
        assert(args =~= Seq::<ArgModel>::empty());
    } else {
        let a0 = args[0];
        let rest = args.drop_first();
        let pl = arg_payload(a0);
        let newpos = pos + pl.len();
        assert(payload_bytes(args) == pl + payload_bytes(rest));
        assert(tag_bytes(args)[0] == tag_byte(a0));
        assert(tag_bytes(args).drop_first() =~= tag_bytes(rest));
        assert(data.len() == newpos + payload_bytes(rest).len());
        assert forall|i: int| 0 <= i < pl.len() implies data[pos + i] == pl[i] by {
            assert(data.subrange(pos, data.len() as int)[i] == data[pos + i]);
            assert((pl + payload_bytes(rest))[i] == pl[i]);
        }
        assert(data.subrange(newpos, data.len() as int) =~= payload_bytes(rest)) by {
            assert forall|i: int| 0 <= i < data.len() - newpos implies data.subrange(
                newpos,
                data.len() as int,
            )[i] == payload_bytes(rest)[i] by {
                assert(data.subrange(pos, data.len() as int)[pl.len() + i] == data[newpos + i]);
                assert((pl + payload_bytes(rest))[pl.len() + i] == payload_bytes(rest)[i]);
            }
        }
        match a0 {
            ArgModel::Int(v) => {
                let u = v as u32;
                assert(pl == u32_be(u));
                assert(pos + 4 <= data.len());
                assert(data[pos] == (u >> 24) as u8 && data[pos + 1] == ((u >> 16) & 0xff) as u8
                    && data[pos + 2] == ((u >> 8) & 0xff) as u8 && data[pos + 3] == (u
                    & 0xff) as u8);
                lemma_u32_be_recompose(u);
                assert(be_to_u32(data, pos) == u);
                lemma_i32_u32_roundtrip(v);
                lemma_decode_encoded_args(data, rest, newpos);
                assert(seq![a0] + rest =~= args);
            },
            ArgModel::Float(bits) => {
                assert(pl == u32_be(bits));
                assert(pos + 4 <= data.len());
                assert(data[pos] == (bits >> 24) as u8 && data[pos + 1] == ((bits >> 16)
                    & 0xff) as u8 && data[pos + 2] == ((bits >> 8) & 0xff) as u8 && data[pos + 3]
                    == (bits & 0xff) as u8);
                lemma_u32_be_recompose(bits);
                assert(be_to_u32(data, pos) == bits);
                lemma_decode_encoded_args(data, rest, newpos);
                assert(seq![a0] + rest =~= args);
            },
            ArgModel::Str(s) => {
                lemma_padded_len(s);
                assert(pl == padded(s));
                let e = pos + s.len();
                assert(data[e] == 0) by {
                    assert(pl[s.len() as int] == 0);
                }
                assert forall|j: int| pos <= j < e implies data[j] != 0 by {
                    assert(pl[j - pos] == s[j - pos]);
                    assert(s[j - pos] != 0);
                }
                assert(e < data.len());
                lemma_find_null_at(data, pos, e);
                assert(data.subrange(pos, e) =~= s);
                lemma_pad4_add(pos, s.len() as int + 1);
                assert(pad4(e + 1) == newpos);
                lemma_decode_encoded_args(data, rest, newpos);
                assert(ArgModel::Str(data.subrange(pos, e)) == a0);
                assert(seq![a0] + rest =~= args);
            },
            ArgModel::Bool(b) => {
                assert(pl =~= Seq::<u8>::empty());
                assert(newpos == pos);
                assert(data.subrange(pos, data.len() as int) =~= payload_bytes(rest));
                lemma_decode_encoded_args(data, rest, pos);
                assert(tag_byte(a0) == TAG_TRUE <==> b);
                assert(seq![a0] + rest =~= args);
            },
        }
    }
}

/// Decoding an encoded well-formed message gives the message back, address
/// and arguments alike, for every combination of argument types and values.
pub proof fn lemma_round_trip(m: MsgModel)
    requires
        wf_msg(m),
    ensures
        decode_spec(encode_spec(m)) == Ok::<MsgModel, DecodeError>(m),
{
    let enc = encode_spec(m);
    let h1 = padded(m.address);
    let tagstr = seq![TAG_INTRO] + tag_bytes(m.args);
    let h2 = padded(tagstr);
    let pl = payload_bytes(m.args);
    lemma_padded_len(m.address);
    lemma_padded_len(tagstr);
    lemma_payload_aligned(m.args);
    assert(enc == h1 + h2 + pl);
    assert(enc.len() == h1.len() + h2.len() + pl.len());
    let a = m.address.len() as int;
    let n = m.args.len() as int;
    assert(tagstr.len() == 1 + n);

    // The address section parses back to the address.
    assert(enc[a] == 0) by {
        assert(h1[a] == 0);
        assert(enc[a] == h1[a]);
    }
    assert forall|j: int| 0 <= j < a implies enc[j] != 0 by {
        assert(enc[j] == h1[j]);
        assert(h1[j] == m.address[j]);
    }
    lemma_find_null_at(enc, 0, a);

    // The tag section starts at the padded address length.
    let tpos = pad4(a + 1);
    assert(tpos == h1.len());
    assert(tpos < enc.len());
    assert(enc[tpos] == TAG_INTRO) by {
        assert(enc[tpos] == h2[0]);
        assert(h2[0] == tagstr[0]);
    }

    // The tag string terminates right after the `n` tag characters.
    let te = tpos + 1 + n;
    assert(te < enc.len()) by {
        assert(h2.len() >= n + 2);
    }
    assert(enc[te] == 0) by {
        assert(enc[te] == h2[1 + n]);
        assert(h2[1 + n] == 0);
    }
    assert forall|j: int| tpos + 1 <= j < te implies enc[j] != 0 by {
        assert(enc[j] == h2[j - tpos]);
        assert(h2[j - tpos] == tagstr[j - tpos]);
        assert(tagstr[j - tpos] == tag_bytes(m.args)[j - tpos - 1]);
        lemma_tag_byte_nonzero(m.args[j - tpos - 1]);
    }
    lemma_find_null_at(enc, tpos + 1, te);
    assert(enc.subrange(tpos + 1, te) =~= tag_bytes(m.args));

    // The payload section starts at the padded header length.
    lemma_pad4_add(tpos, n + 2);
    assert(h2.len() == pad4(n + 2));
    let astart = pad4(te + 1);
    assert(astart == h1.len() + h2.len());
    assert(enc.subrange(astart, enc.len() as int) =~= pl);
    lemma_mod4_add(h1.len() as int, h2.len() as int);
    lemma_decode_encoded_args(enc, m.args, astart);

    assert(enc.subrange(0, a) =~= m.address);
    assert(MsgModel { address: enc.subrange(0, a), args: m.args } =~= m);
}

/// The byte offset of the type-tag section of an encoded frame.
pub open spec fn tag_section_offset(m: MsgModel) -> int {
    padded(m.address).len() as int
}

/// The byte offset at which the `k`-th argument's payload starts.
pub open spec fn arg_offset(m: MsgModel, k: int) -> int {
    padded(m.address).len() + padded(seq![TAG_INTRO] + tag_bytes(m.args)).len() as int
        + payload_bytes(m.args.take(k)).len()
}

/// In every encoded frame, the type-tag section and each argument's start
/// stand at a multiple of 4 bytes from the frame start.
pub proof fn lemma_alignment(m: MsgModel, k: int)
    requires
        0 <= k <= m.args.len(),
    ensures
        tag_section_offset(m) % 4 == 0,
        arg_offset(m, k) % 4 == 0,
{
    lemma_padded_len(m.address);
    lemma_padded_len(seq![TAG_INTRO] + tag_bytes(m.args));
    lemma_payload_aligned(m.args.take(k));
    lemma_mod4_add(
        padded(m.address).len() as int,
        padded(seq![TAG_INTRO] + tag_bytes(m.args)).len() as int,
    );
    lemma_mod4_add(
        padded(m.address).len() + padded(seq![TAG_INTRO] + tag_bytes(m.args)).len() as int,
        payload_bytes(m.args.take(k)).len() as int,
    );
}

/// Encoding a message whose one argument is a boolean gives a frame whose
/// length does not depend on the boolean's value; the two frames agree at
/// every byte but the tag character.
pub proof fn lemma_bool_zero_payload(address: Seq<u8>, b: bool)
    ensures
        encode_spec(MsgModel { address, args: seq![ArgModel::Bool(b)] }).len() == encode_spec(
            MsgModel { address, args: seq![ArgModel::Bool(!b)] },
        ).len(),
        forall|i: int|
            0 <= i < encode_spec(MsgModel { address, args: seq![ArgModel::Bool(b)] }).len() && i
                != padded(address).len() + 1 ==> encode_spec(
                MsgModel { address, args: seq![ArgModel::Bool(b)] },
            )[i] == encode_spec(MsgModel { address, args: seq![ArgModel::Bool(!b)] })[i],
{
    let m1 = MsgModel { address, args: seq![ArgModel::Bool(b)] };
    let m2 = MsgModel { address, args: seq![ArgModel::Bool(!b)] };
    let h1 = padded(address);
    let t1 = seq![TAG_INTRO] + tag_bytes(m1.args);
    let t2 = seq![TAG_INTRO] + tag_bytes(m2.args);
    lemma_padded_len(address);
    assert(tag_bytes(m1.args) =~= seq![tag_byte(ArgModel::Bool(b))]);
    assert(tag_bytes(m2.args) =~= seq![tag_byte(ArgModel::Bool(!b))]);
    assert(payload_bytes(Seq::<ArgModel>::empty()) =~= Seq::<u8>::empty());
    assert(m1.args.drop_first() =~= Seq::<ArgModel>::empty());
    assert(m2.args.drop_first() =~= Seq::<ArgModel>::empty());
    assert(m1.args[0] == ArgModel::Bool(b));
    assert(m2.args[0] == ArgModel::Bool(!b));
    assert(payload_bytes(m1.args) =~= Seq::<u8>::empty());
    assert(payload_bytes(m2.args) =~= Seq::<u8>::empty());
    assert(padded(t1) =~= seq![TAG_INTRO, tag_byte(ArgModel::Bool(b)), 0u8, 0u8]);
    assert(padded(t2) =~= seq![TAG_INTRO, tag_byte(ArgModel::Bool(!b)), 0u8, 0u8]);
    assert(encode_spec(m1) =~= h1 + seq![TAG_INTRO, tag_byte(ArgModel::Bool(b)), 0u8, 0u8]);
    assert(encode_spec(m2) =~= h1 + seq![TAG_INTRO, tag_byte(ArgModel::Bool(!b)), 0u8, 0u8]);
    assert forall|i: int|
        0 <= i < encode_spec(m1).len() && i != padded(address).len() + 1 implies encode_spec(
        m1,
    )[i] == encode_spec(m2)[i] by {
        if i < h1.len() {
            assert(encode_spec(m1)[i] == h1[i]);
            assert(encode_spec(m2)[i] == h1[i]);
        }
    }
}

} // verus!
