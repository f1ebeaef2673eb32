//! The safetensors weight format: an 8-byte little-endian header length, a
//! JSON header describing each tensor (dtype, shape, byte offsets into the data
//! section), then the raw data.
//!
//! This module frames the file, decodes its header text, checks every tensor
//! description against the file, and indexes the tensors by name. Decoding the JSON text into
//! [`TensorMetadata`] values is left to the caller's JSON library.
use vstd::prelude::*;
use crate::error::{SileroError, make_error};
use crate::text::{decimal, push_decimal};

verus! {

/// Number of bytes of the header-length prefix.
pub const HEADER_LEN_BYTES: usize = 8;

/// Value of the little-endian unsigned integer with bytes `s`.
pub open spec fn le_value(s: Seq<u8>) -> nat
    decreases s.len(),
{
    if s.len() == 0 {
        0
    } else {
        s[0] as nat + 256 * le_value(s.drop_first())
    }
}

pub open spec fn pow256(k: nat) -> nat
    decreases k,
{
    if k == 0 {
        1
    } else {
        256 * pow256((k - 1) as nat)
    }
}

/// The header length stored in the first 8 bytes of `bytes`.
pub open spec fn header_size(bytes: Seq<u8>) -> nat {
    le_value(bytes.subrange(0, 8))
}

pub open spec fn msg_too_short(len: nat) -> Seq<char> {
    "File too short: length is "@ + decimal(len)
}

pub open spec fn msg_corrupted(header: nat, len: nat) -> Seq<char> {
    "File corrupted: header size "@ + decimal(header) + " exceeds file length "@ + decimal(len)
}

/// Where the data section starts, or the reason the file cannot hold a header.
pub open spec fn frame_spec(bytes: Seq<u8>) -> Result<int, Seq<char>> {
    if bytes.len() < 8 {
        Err(msg_too_short(bytes.len()))
    } else if bytes.len() < 8 + header_size(bytes) {
        Err(msg_corrupted(header_size(bytes), bytes.len()))
    } else {
        Ok(8 + header_size(bytes) as int)
    }
}

/// The header length can be added to the prefix length without overflow.
pub open spec fn frame_in_domain(bytes: Seq<u8>) -> bool {
    bytes.len() < 8 || 8 + header_size(bytes) <= usize::MAX
}

proof fn lemma_pow256_mono(a: nat, b: nat)
    requires
        a <= b,
    ensures
        pow256(a) <= pow256(b),
    decreases b,
{
    if a < b {
        lemma_pow256_mono(a, (b - 1) as nat);
    }
}

proof fn lemma_le_step(s: Seq<u8>, i: int)
    requires
        0 < i <= s.len(),
    ensures
        le_value(s.subrange(i - 1, s.len() as int)) == s[i - 1] as nat + 256 * le_value(
            s.subrange(i, s.len() as int),
        ),
{
    assert(s.subrange(i - 1, s.len() as int).drop_first() =~= s.subrange(i, s.len() as int));
}

/// The header length stored in the first 8 bytes.
fn read_header_size(bytes: &[u8]) -> (v: u64)
    requires
        bytes.len() >= 8,
    ensures
        v as nat == header_size(bytes@),
{
    let head = vstd::slice::slice_subrange(bytes, 0, 8);
    let mut v: u64 = 0;
    let mut i: usize = 8;
    proof {
        assert(head@.subrange(8, 8) =~= Seq::<u8>::empty());
        assert(pow256(0) == 1);
    }
    while i > 0
        invariant
            0 <= i <= 8,
            head@.len() == 8,
            v as nat == le_value(head@.subrange(i as int, 8)),
            v < pow256((8 - i) as nat),
        decreases i,
    {
        proof {
            lemma_pow256_mono((8 - i) as nat, 7);
            assert(pow256(7) == 72057594037927936) by {
                reveal_with_fuel(pow256, 8);
            }
            let p = pow256((8 - i) as nat);
            assert(v * 256 + 255 < 256 * p) by (nonlinear_arith)
                requires
                    v < p,
            ;
            lemma_le_step(head@, i as int);
        }
        v = v * 256 + (head[i - 1] as u64);
        i = i - 1;
    }
    assert(head@.subrange(0, 8) =~= head@);
    assert(bytes@.subrange(0, 8) =~= head@);
    v
}

/// Whether [`parse_frame`] can be called (see [`frame_in_domain`]).
pub fn frame_checkable(bytes: &[u8]) -> (b: bool)
    ensures
        b == frame_in_domain(bytes@),
{
    if bytes.len() < HEADER_LEN_BYTES {
        return true;
    }
    let header = read_header_size(bytes);
    header <= (usize::MAX - 8) as u64
}

/// Locates the data section of a safetensors file: returns the offset where it
/// starts (just after the JSON header), or why the file cannot hold a header.
pub fn parse_frame(bytes: &[u8]) -> (r: Result<usize, SileroError>)
    requires
        frame_in_domain(bytes@),
    ensures
        match frame_spec(bytes@) {
            Ok(start) => r matches Ok(s) && s == start,
            Err(m) => r matches Err(e) && e.text() == m,
        },
{
    if bytes.len() < HEADER_LEN_BYTES {
        let mut m = String::from_str("File too short: length is ");
        push_decimal(&mut m, bytes.len() as u64);
        return Err(make_error(m));
    }
    let header = read_header_size(bytes);
    if (bytes.len() as u64) < header || bytes.len() - 8 < header as usize {
        let mut m = String::from_str("File corrupted: header size ");
        push_decimal(&mut m, header);
        m.append(" exceeds file length ");
        push_decimal(&mut m, bytes.len() as u64);
        proof {
            assert(m@ =~= msg_corrupted(header_size(bytes@), bytes@.len()));
        }
        return Err(make_error(m));
    }
    Ok(8 + header as usize)
}

/// What `std::str::from_utf8` gives for `bytes`: the text they encode when
/// they are valid UTF-8, or else the message its error displays.
pub uninterp spec fn utf8_decode(bytes: Seq<u8>) -> Result<Seq<char>, Seq<char>>;

/// Calls `std::str::from_utf8` on `bytes`. Trusted: the result is the text
/// that `bytes` encode, or the error's displayed message, as named by
/// [`utf8_decode`]; which bytes are valid UTF-8 and the wording of the error
/// are left to std and not stated here.
#[verifier::external_body]
fn decode_utf8(bytes: &[u8]) -> (r: Result<String, String>)
    ensures
        match utf8_decode(bytes@) {
            Ok(t) => r matches Ok(s) && s@ == t,
            Err(m) => r matches Err(d) && d@ == m,
        },
{
    match std::str::from_utf8(bytes) {
        Ok(s) => Ok(s.to_string()),
        Err(e) => Err(e.to_string()),
    }
}

pub open spec fn msg_utf8(detail: Seq<char>) -> Seq<char> {
    "Failed to parse header as UTF-8: "@ + detail
}

/// The JSON header text of a framed file whose data section starts at
/// `data_start` (see [`parse_frame`]), or why it is not UTF-8.
pub fn header_text(bytes: &[u8], data_start: usize) -> (r: Result<String, SileroError>)
    requires
        HEADER_LEN_BYTES <= data_start <= bytes.len(),
    ensures
        match utf8_decode(bytes@.subrange(8, data_start as int)) {
            Ok(t) => r matches Ok(s) && s@ == t,
            Err(d) => r matches Err(e) && e.text() == msg_utf8(d),
        },
{
    let header = vstd::slice::slice_subrange(bytes, HEADER_LEN_BYTES, data_start);
    utf8_header(decode_utf8(header))
}

/// The header text from the outcome of UTF-8 decoding: the text itself, or
/// the decoder's message behind the parse-failure prefix.
pub fn utf8_header(decoded: Result<String, String>) -> (r: Result<String, SileroError>)
    ensures
        match decoded {
            Ok(t) => r matches Ok(s) && s@ == t@,
            Err(d) => r matches Err(e) && e.text() == msg_utf8(d@),
        },
{
    match decoded {
        Ok(s) => Ok(s),
        Err(d) => {
            let mut m = String::from_str("Failed to parse header as UTF-8: ");
            m.append(d.as_str());
            Err(make_error(m))
        },
    }
}

/// A tensor description as read from the JSON header.
#[derive(Debug)]
pub struct TensorMetadata {
    pub dtype: String,
    pub shape: Vec<usize>,
    pub data_offsets: [usize; 2],
}

/// A checked tensor: its dtype, its shape, and the byte range of its data in
/// the file.
#[derive(Debug)]
pub struct TensorView {
    pub dtype: String,
    pub shape: Vec<usize>,
    pub data_start: usize,
    pub data_end: usize,
}

/// The mathematical content of a [`TensorView`].
pub struct TensorInfo {
    pub dtype: Seq<char>,
    pub shape: Seq<usize>,
    pub data_start: int,
    pub data_end: int,
}

impl View for TensorView {
    type V = TensorInfo;

    open spec fn view(&self) -> TensorInfo {
        TensorInfo {
            dtype: self.dtype@,
            shape: self.shape@,
            data_start: self.data_start as int,
            data_end: self.data_end as int,
        }
    }
}

/// Product of the dimensions, multiplied in order starting from 1.
pub open spec fn shape_product(shape: Seq<usize>) -> int
    decreases shape.len(),
{
    if shape.len() == 0 {
        1
    } else {
        shape_product(shape.drop_last()) * shape.last()
    }
}

/// No partial product of the dimensions overflows.
pub open spec fn product_fits(shape: Seq<usize>) -> bool {
    forall|i: int| 0 <= i <= shape.len() ==> #[trigger] shape_product(shape.take(i)) <= usize::MAX
}

pub open spec fn msg_dtype(dtype: Seq<char>, name: Seq<char>) -> Seq<char> {
    "Unsupported datatype '"@ + dtype + "' for tensor '"@ + name + "'. Only F32 is supported."@
}

pub open spec fn msg_out_of_bounds(name: Seq<char>, end: nat, len: nat) -> Seq<char> {
    "Tensor '"@ + name + "' offset out of bounds: end is "@ + decimal(end) + " but file size is "@
        + decimal(len)
}

pub open spec fn msg_not_multiple(name: Seq<char>) -> Seq<char> {
    "Tensor '"@ + name + "' data size is not a multiple of 4 bytes"@
}

pub open spec fn msg_shape(name: Seq<char>, product: nat, elements: nat) -> Seq<char> {
    "Tensor '"@ + name + "' shape product is "@ + decimal(product) + " but data has "@ + decimal(
        elements,
    ) + " elements"@
}

/// The byte range of the tensor's data, or why the description is rejected.
pub open spec fn check_tensor_spec(
    file_len: int,
    data_start: int,
    name: Seq<char>,
    meta_dtype: Seq<char>,
    shape: Seq<usize>,
    offsets: (int, int),
) -> Result<(int, int), Seq<char>> {
    let start = data_start + offsets.0;
    let end = data_start + offsets.1;
    if meta_dtype != "F32"@ {
        Err(msg_dtype(meta_dtype, name))
    } else if end > file_len {
        Err(msg_out_of_bounds(name, end as nat, file_len as nat))
    } else if (end - start) % 4 != 0 {
        Err(msg_not_multiple(name))
    } else if (end - start) / 4 != shape_product(shape) {
        Err(msg_shape(name, shape_product(shape) as nat, ((end - start) / 4) as nat))
    } else {
        Ok((start, end))
    }
}

/// A description is accepted exactly when it is an `F32` tensor whose byte
/// range ends within the file (possibly at its very end) and holds as many
/// whole `f32` values as its shape has elements; the accepted range is the
/// data start plus the two offsets. An `F32` description whose range ends past
/// the file is refused as out of bounds.
pub proof fn lemma_check_tensor_accepts(
    file_len: int,
    data_start: int,
    name: Seq<char>,
    dtype: Seq<char>,
    shape: Seq<usize>,
    offsets: (int, int),
)
    ensures
        ({
            let r = check_tensor_spec(file_len, data_start, name, dtype, shape, offsets);
            let start = data_start + offsets.0;
            let end = data_start + offsets.1;
            &&& r is Ok <==> (dtype == "F32"@ && end <= file_len && (end - start) % 4 == 0 && (end
                - start) / 4 == shape_product(shape))
            &&& r matches Ok(range) ==> range == (start, end)
            &&& dtype == "F32"@ && end > file_len ==> r == Err::<(int, int), Seq<char>>(
                msg_out_of_bounds(name, end as nat, file_len as nat),
            )
        }),
{
}

/// Checking the description neither overflows an offset, nor reads an inverted
/// byte range, nor overflows the shape product.
pub open spec fn check_tensor_in_domain(
    file_len: int,
    data_start: int,
    meta_dtype: Seq<char>,
    shape: Seq<usize>,
    offsets: (int, int),
) -> bool {
    let start = data_start + offsets.0;
    let end = data_start + offsets.1;
    meta_dtype != "F32"@ || {
        &&& start <= usize::MAX
        &&& end <= usize::MAX
        &&& end <= file_len ==> start <= end
        &&& (end <= file_len && (end - start) % 4 == 0) ==> product_fits(shape)
    }
}

/// Whether [`check_tensor`] can be called on this description (see
/// [`check_tensor_in_domain`]).
pub fn tensor_checkable(file_len: usize, data_start: usize, meta: &TensorMetadata) -> (b: bool)
    ensures
        b == check_tensor_in_domain(
            file_len as int,
            data_start as int,
            meta.dtype@,
            meta.shape@,
            (meta.data_offsets[0] as int, meta.data_offsets[1] as int),
        ),
{
    let f32_name = String::from_str("F32");
    if !(meta.dtype == f32_name) {
        return true;
    }
    let o0 = meta.data_offsets[0];
    let o1 = meta.data_offsets[1];
    if o0 > usize::MAX - data_start || o1 > usize::MAX - data_start {
        return false;
    }
    let start = data_start + o0;
    let end = data_start + o1;
    if end > file_len {
        return true;
    }
    if start > end {
        return false;
    }
    if (end - start) % 4 != 0 {
        return true;
    }
    shape_product_fits(&meta.shape)
}

proof fn lemma_take_step(shape: Seq<usize>, i: int)
    requires
        0 <= i < shape.len(),
    ensures
        shape_product(shape.take(i + 1)) == shape_product(shape.take(i)) * shape[i],
{
    assert(shape.take(i + 1).drop_last() =~= shape.take(i));
}

/// Whether no partial product of `shape` overflows.
fn shape_product_fits(shape: &Vec<usize>) -> (b: bool)
    ensures
        b == product_fits(shape@),
{
    let mut p: usize = 1;
    let mut i: usize = 0;
    assert(shape_product(shape@.take(0)) == 1) by {
        assert(shape@.take(0).len() == 0);
    }
    while i < shape.len()
        invariant
            0 <= i <= shape.len(),
            p == shape_product(shape@.take(i as int)),
            forall|j: int| 0 <= j <= i ==> #[trigger] shape_product(shape@.take(j)) <= usize::MAX,
        decreases shape.len() - i,
    {
        proof {
            lemma_take_step(shape@, i as int);
        }
        let d = shape[i];
        if d != 0 && p > usize::MAX / d {
            proof {
                assert(p * d > usize::MAX) by (nonlinear_arith)
                    requires
                        d > 0,
                        p > usize::MAX / d,
                ;
            }
            return false;
        }
        proof {
            assert(p * d <= usize::MAX) by (nonlinear_arith)
                requires
                    d == 0 || p <= usize::MAX / d,
            ;
        }
        p = p * d;
        i = i + 1;
    }
    true
}

/// Product of the dimensions.
fn shape_product_exec(shape: &Vec<usize>) -> (p: usize)
    requires
        product_fits(shape@),
    ensures
        p == shape_product(shape@),
{
    let mut p: usize = 1;
    let mut i: usize = 0;
    assert(shape_product(shape@.take(0)) == 1) by {
        assert(shape@.take(0).len() == 0);
    }
    while i < shape.len()
        invariant
            0 <= i <= shape.len(),
            product_fits(shape@),
            p == shape_product(shape@.take(i as int)),
        decreases shape.len() - i,
    {
        proof {
            lemma_take_step(shape@, i as int);
            assert(shape_product(shape@.take(i + 1)) <= usize::MAX);
        }
        p = p * shape[i];
        i = i + 1;
    }
    assert(shape@.take(shape.len() as int) =~= shape@);
    p
}

/// Checks a tensor description against a file of `file_len` bytes whose data
/// section starts at `data_start`: only `F32` tensors are accepted, their byte
/// range must lie in the file, hold whole `f32` values, and as many of them as
/// the shape says.
pub fn check_tensor(file_len: usize, data_start: usize, name: &str, meta: TensorMetadata) -> (r:
    Result<TensorView, SileroError>)
    requires
        check_tensor_in_domain(
            file_len as int,
            data_start as int,
            meta.dtype@,
            meta.shape@,
            (meta.data_offsets[0] as int, meta.data_offsets[1] as int),
        ),
    ensures
        match check_tensor_spec(
            file_len as int,
            data_start as int,
            name@,
            meta.dtype@,
            meta.shape@,
            (meta.data_offsets[0] as int, meta.data_offsets[1] as int),
        ) {
            Ok(range) => r matches Ok(v) && v@ == (TensorInfo {
                dtype: meta.dtype@,
                shape: meta.shape@,
                data_start: range.0,
                data_end: range.1,
            }),
            Err(m) => r matches Err(e) && e.text() == m,
        },
{
    let f32_name = String::from_str("F32");
    if !(meta.dtype == f32_name) {
        let mut m = String::from_str("Unsupported datatype '");
        m.append(meta.dtype.as_str());
        m.append("' for tensor '");
        m.append(name);
        m.append("'. Only F32 is supported.");
        return Err(make_error(m));
    }
    let start = data_start + meta.data_offsets[0];
    let end = data_start + meta.data_offsets[1];
    if end > file_len {
        let mut m = String::from_str("Tensor '");
        m.append(name);
        m.append("' offset out of bounds: end is ");
        push_decimal(&mut m, end as u64);
        m.append(" but file size is ");
        push_decimal(&mut m, file_len as u64);
        return Err(make_error(m));
    }
    let byte_len = end - start;
    if byte_len % 4 != 0 {
        let mut m = String::from_str("Tensor '");
        m.append(name);
        m.append("' data size is not a multiple of 4 bytes");
        return Err(make_error(m));
    }
    let expected = shape_product_exec(&meta.shape);
    if byte_len / 4 != expected {
        let mut m = String::from_str("Tensor '");
        m.append(name);
        m.append("' shape product is ");
        push_decimal(&mut m, expected as u64);
        m.append(" but data has ");
        push_decimal(&mut m, (byte_len / 4) as u64);
        m.append(" elements");
        return Err(make_error(m));
    }
    Ok(TensorView { dtype: meta.dtype, shape: meta.shape, data_start: start, data_end: end })
}

/// Whether a header entry describes no tensor (the free-form metadata entry).
pub fn is_metadata_entry(name: &str) -> (b: bool)
    ensures
        b == (name@ == "__metadata__"@),
{
    let n = String::from_str(name);
    let m = String::from_str("__metadata__");
    n == m
}

/// The map from names to tensors of an entry list: a later entry for a name
/// replaces an earlier one.
pub open spec fn entries_map(keys: Seq<Seq<char>>, infos: Seq<TensorInfo>) -> Map<
    Seq<char>,
    TensorInfo,
>
    decreases keys.len(),
{
    if keys.len() == 0 || infos.len() != keys.len() {
        Map::empty()
    } else {
        entries_map(keys.drop_last(), infos.drop_last()).insert(keys.last(), infos.last())
    }
}

pub open spec fn msg_not_found(name: Seq<char>) -> Seq<char> {
    "Tensor '"@ + name + "' not found in weights"@
}

/// The checked tensors of a file, by name.
pub struct SafeTensors {
    entries: Vec<(String, TensorView)>,
}

impl View for SafeTensors {
    type V = Map<Seq<char>, TensorInfo>;

    closed spec fn view(&self) -> Map<Seq<char>, TensorInfo> {
        entries_map(self.keys(), self.infos())
    }
}

/// A copy of `v`.
fn copy_view(v: &TensorView) -> (r: TensorView)
    ensures
        r@ == v@,
{
    let shape = v.shape.clone();
    assert(shape@ =~= v.shape@);
    TensorView { dtype: v.dtype.clone(), shape, data_start: v.data_start, data_end: v.data_end }
}

impl SafeTensors {
    pub closed spec fn keys(&self) -> Seq<Seq<char>> {
        Seq::new(self.entries@.len(), |i: int| self.entries@[i].0@)
    }

    pub closed spec fn infos(&self) -> Seq<TensorInfo> {
        Seq::new(self.entries@.len(), |i: int| self.entries@[i].1@)
    }

    /// An empty index.
    pub fn new() -> (s: SafeTensors)
        ensures
            s@ == Map::<Seq<char>, TensorInfo>::empty(),
    {
        let s = SafeTensors { entries: Vec::new() };
        assert(s.keys().len() == 0);
        s
    }

    /// Records tensor `view` under `name`, replacing any tensor of that name.
    pub fn insert(&mut self, name: String, view: TensorView)
        ensures
            final(self)@ == old(self)@.insert(name@, view@),
    {
        let ghost k = name@;
        let ghost inf = view@;
        self.entries.push((name, view));
        proof {
            assert(self.keys().drop_last() =~= old(self).keys());
            assert(self.infos().drop_last() =~= old(self).infos());
            assert(self.keys().last() == k);
            assert(self.infos().last() == inf);
        }
    }

    /// Number of entries recorded (a name recorded twice counts twice).
    pub fn num_entries(&self) -> (n: usize)
        ensures
            n == self.keys().len(),
    {
        self.entries.len()
    }

    /// The tensor recorded under `name`.
    pub fn get(&self, name: &str) -> (r: Result<TensorView, SileroError>)
        ensures
            self@.contains_key(name@) <==> r is Ok,
            r matches Ok(v) ==> v@ == self@[name@],
            r matches Err(e) ==> e.text() == msg_not_found(name@),
    {
        let key = String::from_str(name);
        let mut i = self.entries.len();
        let ghost keys = self.keys();
        let ghost infos = self.infos();
        assert(keys.take(i as int) =~= keys);
        assert(infos.take(i as int) =~= infos);
        while i > 0
            invariant
                0 <= i <= self.entries.len(),
                keys == self.keys(),
                infos == self.infos(),
                key@ == name@,
                entries_map(keys, infos).contains_key(name@) == entries_map(
                    keys.take(i as int),
                    infos.take(i as int),
                ).contains_key(name@),
                entries_map(keys, infos).contains_key(name@) ==> entries_map(keys, infos)[name@]
                    == entries_map(keys.take(i as int), infos.take(i as int))[name@],
            decreases i,
        {
            proof {
                assert(keys.take(i as int).drop_last() =~= keys.take(i - 1));
                assert(infos.take(i as int).drop_last() =~= infos.take(i - 1));
                assert(keys.take(i as int).last() == self.entries@[i - 1].0@);
                assert(infos.take(i as int).last() == self.entries@[i - 1].1@);
            }
            if self.entries[i - 1].0 == key {
                return Ok(copy_view(&self.entries[i - 1].1));
            }
            i = i - 1;
        }
        assert(keys.take(0).len() == 0);
        let mut m = String::from_str("Tensor '");
        m.append(name);
        m.append("' not found in weights");
        Err(make_error(m))
    }
}

pub open spec fn msg_invalid(name: Seq<char>, detail: Seq<char>) -> Seq<char> {
    "Invalid tensor metadata for '"@ + name + "': "@ + detail
}

/// A header entry: the tensor's name, and its description as the JSON decoder
/// read it, or the decoder's error text.
pub type HeaderEntry = (String, Result<TensorMetadata, String>);

/// What a checked description records.
pub open spec fn entry_info(meta: TensorMetadata, range: (int, int)) -> TensorInfo {
    TensorInfo { dtype: meta.dtype@, shape: meta.shape@, data_start: range.0, data_end: range.1 }
}

pub open spec fn entry_offsets(meta: TensorMetadata) -> (int, int) {
    (meta.data_offsets[0] as int, meta.data_offsets[1] as int)
}

/// The index built from the entries `i..` on top of `m`: the metadata entry is
/// skipped, every other entry is checked and recorded in turn, and the first
/// entry that fails to decode or to check gives the error.
pub open spec fn index_from(
    file_len: int,
    data_start: int,
    entries: Seq<HeaderEntry>,
    i: int,
    m: Map<Seq<char>, TensorInfo>,
) -> Result<Map<Seq<char>, TensorInfo>, Seq<char>>
    decreases entries.len() - i,
{
    if i < 0 || i >= entries.len() {
        Ok(m)
    } else {
        let name = entries[i].0@;
        if name == "__metadata__"@ {
            index_from(file_len, data_start, entries, i + 1, m)
        } else {
            match entries[i].1 {
                Err(detail) => Err(msg_invalid(name, detail@)),
                Ok(meta) => match check_tensor_spec(
                    file_len,
                    data_start,
                    name,
                    meta.dtype@,
                    meta.shape@,
                    entry_offsets(meta),
                ) {
                    Err(msg) => Err(msg),
                    Ok(range) => index_from(
                        file_len,
                        data_start,
                        entries,
                        i + 1,
                        m.insert(name, entry_info(meta, range)),
                    ),
                },
            }
        }
    }
}

/// Every description that [`index_from`] checks is in the domain of
/// [`check_tensor`].
pub open spec fn index_in_domain(file_len: int, data_start: int, entries: Seq<HeaderEntry>, i: int) -> bool
    decreases entries.len() - i,
{
    if i < 0 || i >= entries.len() {
        true
    } else if entries[i].0@ == "__metadata__"@ {
        index_in_domain(file_len, data_start, entries, i + 1)
    } else {
        match entries[i].1 {
            Err(_) => true,
            Ok(meta) => {
                &&& check_tensor_in_domain(
                    file_len,
                    data_start,
                    meta.dtype@,
                    meta.shape@,
                    entry_offsets(meta),
                )
                &&& check_tensor_spec(
                    file_len,
                    data_start,
                    entries[i].0@,
                    meta.dtype@,
                    meta.shape@,
                    entry_offsets(meta),
                ) is Ok ==> index_in_domain(file_len, data_start, entries, i + 1)
            },
        }
    }
}

/// A copy of `meta`.
fn copy_metadata(meta: &TensorMetadata) -> (r: TensorMetadata)
    ensures
        r.dtype@ == meta.dtype@,
        r.shape@ == meta.shape@,
        r.data_offsets == meta.data_offsets,
{
    let shape = meta.shape.clone();
    assert(shape@ =~= meta.shape@);
    TensorMetadata { dtype: meta.dtype.clone(), shape, data_offsets: meta.data_offsets }
}

/// Whether [`build_index`] can be called on these entries (see [`index_in_domain`]).
pub fn index_checkable(file_len: usize, data_start: usize, entries: &Vec<HeaderEntry>) -> (b: bool)
    ensures
        b == index_in_domain(file_len as int, data_start as int, entries@, 0),
{
    let mut i: usize = 0;
    while i < entries.len()
        invariant
            0 <= i <= entries.len(),
            index_in_domain(file_len as int, data_start as int, entries@, 0) == index_in_domain(
                file_len as int,
                data_start as int,
                entries@,
                i as int,
            ),
        decreases entries.len() - i,
    {
        let name = &entries[i].0;
        if !is_metadata_entry(name.as_str()) {
            match &entries[i].1 {
                Err(_) => {
                    return true;
                },
                Ok(meta) => {
                    if !tensor_checkable(file_len, data_start, meta) {
                        return false;
                    }
                    if check_tensor(file_len, data_start, name.as_str(), copy_metadata(meta)).is_err() {
                        return true;
                    }
                },
            }
        }
        i = i + 1;
    }
    true
}

/// Indexes the checked tensors of a file of `file_len` bytes whose data section
/// starts at `data_start`, from its decoded header entries, in order: the
/// metadata entry is skipped, an entry that failed to decode or that
/// [`check_tensor`] rejects ends the parse with its error, and a name given
/// twice keeps its last tensor.
pub fn build_index(file_len: usize, data_start: usize, entries: &Vec<HeaderEntry>) -> (r: Result<
    SafeTensors,
    SileroError,
>)
    requires
        index_in_domain(file_len as int, data_start as int, entries@, 0),
    ensures
        match index_from(file_len as int, data_start as int, entries@, 0, Map::empty()) {
            Ok(m) => r matches Ok(st) && st@ == m,
            Err(msg) => r matches Err(e) && e.text() == msg,
        },
{
    let mut st = SafeTensors::new();
    let mut i: usize = 0;
    while i < entries.len()
        invariant
            0 <= i <= entries.len(),
            index_in_domain(file_len as int, data_start as int, entries@, i as int),
            index_from(file_len as int, data_start as int, entries@, 0, Map::empty()) == index_from(
                file_len as int,
                data_start as int,
                entries@,
                i as int,
                st@,
            ),
        decreases entries.len() - i,
    {
        let name = &entries[i].0;
        if !is_metadata_entry(name.as_str()) {
            match &entries[i].1 {
                Err(detail) => {
                    let mut m = String::from_str("Invalid tensor metadata for '");
                    m.append(name.as_str());
                    m.append("': ");
                    m.append(detail.as_str());
                    return Err(make_error(m));
                },
                Ok(meta) => {
                    match check_tensor(file_len, data_start, name.as_str(), copy_metadata(meta)) {
                        Err(e) => {
                            return Err(e);
                        },
                        Ok(view) => {
                            st.insert(name.clone(), view);
                        },
                    }
                },
            }
        }
        i = i + 1;
    }
    Ok(st)
}

/// The checked tensor of a header entry, if the entry decoded and its check
/// succeeded.
pub open spec fn entry_checked(file_len: int, data_start: int, e: HeaderEntry) -> Option<TensorInfo> {
    match e.1 {
        Ok(meta) => match check_tensor_spec(
            file_len,
            data_start,
            e.0@,
            meta.dtype@,
            meta.shape@,
            entry_offsets(meta),
        ) {
            Ok(range) => Some(entry_info(meta, range)),
            Err(_) => None,
        },
        Err(_) => None,
    }
}

proof fn lemma_index_from_reads_back(
    file_len: int,
    data_start: int,
    entries: Seq<HeaderEntry>,
    i: int,
    acc: Map<Seq<char>, TensorInfo>,
    m: Map<Seq<char>, TensorInfo>,
)
    requires
        0 <= i <= entries.len(),
        index_from(file_len, data_start, entries, i, acc) == Ok::<
            Map<Seq<char>, TensorInfo>,
            Seq<char>,
        >(m),
    ensures
        forall|j: int|
            i <= j < entries.len() && (#[trigger] entries[j]).0@ != "__metadata__"@ && (forall|l: int|
                j < l < entries.len() ==> (#[trigger] entries[l]).0@ != entries[j].0@) ==> {
                &&& entry_checked(file_len, data_start, entries[j]) is Some
                &&& m.contains_key(entries[j].0@)
                &&& m[entries[j].0@] == entry_checked(file_len, data_start, entries[j])->Some_0
            },
        forall|k: Seq<char>|
            #[trigger] acc.contains_key(k) && (forall|l: int|
                i <= l < entries.len() ==> (#[trigger] entries[l]).0@ != k) ==> m.contains_key(k)
                && m[k] == acc[k],
        forall|k: Seq<char>|
            #[trigger] m.contains_key(k) ==> acc.contains_key(k) || exists|l: int|
                i <= l < entries.len() && (#[trigger] entries[l]).0@ == k && k != "__metadata__"@,
    decreases entries.len() - i,
{
    if i < entries.len() {
        let name = entries[i].0@;
        if name == "__metadata__"@ {
            lemma_index_from_reads_back(file_len, data_start, entries, i + 1, acc, m);
        } else {
            let meta = entries[i].1->Ok_0;
            let range = check_tensor_spec(
                file_len,
                data_start,
                name,
                meta.dtype@,
                meta.shape@,
                entry_offsets(meta),
            )->Ok_0;
            let acc2 = acc.insert(name, entry_info(meta, range));
            lemma_index_from_reads_back(file_len, data_start, entries, i + 1, acc2, m);
            assert(acc2.contains_key(name));
            assert forall|k: Seq<char>|
                #[trigger] acc.contains_key(k) && (forall|l: int|
                    i <= l < entries.len() ==> (#[trigger] entries[l]).0@ != k) implies m.contains_key(k)
                && m[k] == acc[k] by {
                assert(entries[i].0@ != k);
                assert(acc2.contains_key(k));
            }
            assert forall|k: Seq<char>| #[trigger] m.contains_key(k) implies acc.contains_key(k)
                || exists|l: int|
                i <= l < entries.len() && (#[trigger] entries[l]).0@ == k && k != "__metadata__"@ by {
                if !acc.contains_key(k) && k == name {
                    assert(entries[i].0@ == k);
                }
            }
        }
    }
}

/// An index built from header entries reads back what was recorded: the
/// tensor entries are all checked, each name found in the index holds the
/// checked tensor of its last entry, and every name in the index comes from a
/// tensor entry.
pub proof fn lemma_build_index_reads_back(
    file_len: int,
    data_start: int,
    entries: Seq<HeaderEntry>,
    m: Map<Seq<char>, TensorInfo>,
)
    requires
        index_from(file_len, data_start, entries, 0, Map::empty()) == Ok::<
            Map<Seq<char>, TensorInfo>,
            Seq<char>,
        >(m),
    ensures
        forall|j: int|
            0 <= j < entries.len() && (#[trigger] entries[j]).0@ != "__metadata__"@ && (forall|l: int|
                j < l < entries.len() ==> (#[trigger] entries[l]).0@ != entries[j].0@) ==> {
                &&& entry_checked(file_len, data_start, entries[j]) is Some
                &&& m.contains_key(entries[j].0@)
                &&& m[entries[j].0@] == entry_checked(file_len, data_start, entries[j])->Some_0
            },
        forall|k: Seq<char>|
            #[trigger] m.contains_key(k) ==> exists|l: int|
                0 <= l < entries.len() && (#[trigger] entries[l]).0@ == k && k != "__metadata__"@,
{
    lemma_index_from_reads_back(file_len, data_start, entries, 0, Map::empty(), m);
}

} // verus!
