use vstd::prelude::*;

use crate::error::RteError;
use crate::template::TemplateFile;

verus! {

/// Whether a destination path names a gzip-compressed tar archive.
pub fn is_tar_gz(path: &str) -> (r: bool)
    ensures
        r == ".tar.gz"@.is_suffix_of(path@),
{
    crate::strutil::has_suffix(path, ".tar.gz")
}

/// What gzip compression (flate2, default level) produces for a byte
/// sequence: a pure function of the input — flate2 writes a fixed header
/// (zero mtime, fixed OS byte) and a deterministic DEFLATE stream.
pub uninterp spec fn gzip_of(data: Seq<u8>) -> Seq<u8>;

/// What gzip decompression yields for a byte sequence: the decoded stream,
/// or nothing when the input is not a well-formed gzip stream.
pub uninterp spec fn gunzip_of(data: Seq<u8>) -> Option<Seq<u8>>;

/// Relies on flate2's `write::GzEncoder` with the default compression level:
/// it compresses the written bytes into one gzip stream.
#[verifier::external_body]
fn gzip_compress(data: &Vec<u8>) -> (r: Vec<u8>)
    ensures
        r@ == gzip_of(data@),
{
    let mut encoder = flate2::write::GzEncoder::new(Vec::new(), flate2::Compression::default());
    let _ = std::io::Write::write_all(&mut encoder, data.as_slice());
    encoder.finish().unwrap_or_default()
}

/// Relies on flate2's `read::GzDecoder`: it decodes a well-formed gzip
/// stream to the bytes that were compressed, and fails on a corrupt one.
#[verifier::external_body]
fn gzip_decompress(data: &Vec<u8>) -> (r: Option<Vec<u8>>)
    ensures
        match r {
            Some(d) => gunzip_of(data@) == Some(d@),
            None => gunzip_of(data@) is None,
        },
{
    let mut decoder = flate2::read::GzDecoder::new(data.as_slice());
    let mut out = Vec::new();
    match std::io::Read::read_to_end(&mut decoder, &mut out) {
        Ok(_) => Some(out),
        Err(_) => None,
    }
}

/// Eight to the `k`th power: the weight of the `k`th octal digit.
pub open spec fn pow8(k: nat) -> nat
    decreases k,
{
    if k == 0 {
        1
    } else {
        8 * pow8((k - 1) as nat)
    }
}

/// An octal numeric field with trailing NUL and space bytes removed.
pub open spec fn oct_trim_end(s: Seq<u8>) -> Seq<u8>
    decreases s.len(),
{
    if s.len() > 0 && (s.last() == 0 || s.last() == 0x20) {
        oct_trim_end(s.drop_last())
    } else {
        s
    }
}

/// An octal numeric field with leading space bytes removed.
pub open spec fn oct_trim_start(s: Seq<u8>) -> Seq<u8>
    decreases s.len(),
{
    if s.len() > 0 && s[0] == 0x20 {
        oct_trim_start(s.drop_first())
    } else {
        s
    }
}

/// The value of a sequence of ASCII octal digits, or nothing if any byte is
/// not an octal digit. The empty sequence has value zero.
pub open spec fn oct_digits_val(s: Seq<u8>) -> Option<nat>
    decreases s.len(),
{
    if s.len() == 0 {
        Some(0nat)
    } else {
        match oct_digits_val(s.drop_last()) {
            None => None,
            Some(v) => if 0x30 <= s.last() <= 0x37 {
                Some(v * 8 + (s.last() - 0x30) as nat)
            } else {
                None
            },
        }
    }
}

/// The numeric value of a tar octal field: digits surrounded by optional
/// leading spaces and trailing NULs or spaces.
pub open spec fn octal_value(field: Seq<u8>) -> Option<nat> {
    oct_digits_val(oct_trim_start(oct_trim_end(field)))
}

proof fn lemma_oct_trim_end(s: Seq<u8>, k: int)
    requires
        0 <= k <= s.len(),
        forall|j: int| k <= j < s.len() ==> s[j] == 0 || s[j] == 0x20,
        k == 0 || !(s[k - 1] == 0 || s[k - 1] == 0x20),
    ensures
        oct_trim_end(s) == s.take(k),
    decreases s.len(),
{
    if s.len() == 0 {
        assert(s.take(0) =~= s);
    } else if k == s.len() {
        if s.last() == 0 || s.last() == 0x20 {
            assert(false);
        }
        assert(s.take(k) =~= s);
    } else {
        assert(s.last() == 0 || s.last() == 0x20);
        lemma_oct_trim_end(s.drop_last(), k);
        assert(s.drop_last().take(k) =~= s.take(k));
    }
}

proof fn lemma_oct_trim_start(s: Seq<u8>, k: int)
    requires
        0 <= k <= s.len(),
        forall|j: int| 0 <= j < k ==> s[j] == 0x20,
        k == s.len() || s[k] != 0x20,
    ensures
        oct_trim_start(s) == s.skip(k),
    decreases k,
{
    if k == 0 {
        assert(s.skip(0) =~= s);
    } else {
        lemma_oct_trim_start(s.drop_first(), k - 1);
        assert(s.drop_first().skip(k - 1) =~= s.skip(k));
    }
}

/// Parses the tar octal field held in `v[start..end]`.
fn parse_octal_range(v: &Vec<u8>, start: usize, end: usize) -> (r: Option<u64>)
    requires
        start <= end <= v@.len(),
        end - start <= 12,
    ensures
        match r {
            Some(x) => octal_value(v@.subrange(start as int, end as int)) == Some(x as nat),
            None => octal_value(v@.subrange(start as int, end as int)) is None,
        },
{
    let ghost field = v@.subrange(start as int, end as int);
    let mut e = end;
    while e > start && (v[e - 1] == 0 || v[e - 1] == 0x20)
        invariant
            start <= e <= end <= v@.len(),
            field == v@.subrange(start as int, end as int),
            forall|j: int| e - start <= j < field.len() ==> field[j] == 0 || field[j] == 0x20,
        decreases e,
    {
        e = e - 1;
    }
    proof {
        lemma_oct_trim_end(field, e - start);
    }
    let ghost trimmed = field.take(e - start);
    let mut st = start;
    while st < e && v[st] == 0x20
        invariant
            start <= st <= e <= end <= v@.len(),
            e - start <= field.len(),
            field == v@.subrange(start as int, end as int),
            trimmed == field.take(e - start),
            forall|j: int| 0 <= j < st - start ==> trimmed[j] == 0x20,
        decreases e - st,
    {
        proof {
            assert(trimmed[st - start] == field[st - start]);
            assert(field[st - start] == v@[st as int]);
        }
        st = st + 1;
    }
    proof {
        lemma_oct_trim_start(trimmed, st - start);
    }
    let ghost digits = trimmed.skip(st - start);
    let mut acc: u64 = 0;
    let mut i = st;
    proof {
        assert(digits.take(0) =~= Seq::<u8>::empty());
        assert(pow8(0) == 1);
    }
    while i < e
        invariant
            start <= st <= i <= e <= v@.len(),
            e - start <= 12,
            field == v@.subrange(start as int, end as int),
            trimmed == field.take(e - start),
            digits == trimmed.skip(st - start),
            oct_trim_start(oct_trim_end(field)) == digits,
            digits.len() == e - st,
            forall|j: int| 0 <= j < digits.len() ==> digits[j] == v@[st + j],
            oct_digits_val(digits.take(i - st)) == Some(acc as nat),
            acc < pow8((i - st) as nat),
        decreases e - i,
    {
        let b = v[i];
        proof {
            assert(digits[i - st] == b);
            assert(digits.take(i - st + 1).drop_last() =~= digits.take(i - st));
            assert(digits.take(i - st + 1).last() == b);
        }
        if b < 0x30 || b > 0x37 {
            proof {
                assert(oct_digits_val(digits.take(i - st + 1)) is None);
                lemma_oct_digits_none_extends(digits, i - st + 1);
            }
            return None;
        }
        proof {
            assert(pow8((i - st + 1) as nat) == 8 * pow8((i - st) as nat));
            lemma_pow8_12();
            lemma_pow8_mono((i - st) as nat, 11);
            assert(acc * 8 + 7 < 0x1000000000) by (nonlinear_arith)
                requires
                    acc < pow8((i - st) as nat),
                    pow8((i - st) as nat) <= pow8(11),
                    8 * pow8(11) == 0x1000000000,
            ;
        }
        acc = acc * 8 + (b - 0x30) as u64;
        i = i + 1;
    }
    proof {
        assert(digits.take(e - st) =~= digits);
    }
    Some(acc)
}

proof fn lemma_pow8_mono(a: nat, b: nat)
    requires
        a <= b,
    ensures
        pow8(a) <= pow8(b),
    decreases b,
{
    if a < b {
        lemma_pow8_mono(a, (b - 1) as nat);
    }
}

proof fn lemma_pow8_12()
    ensures
        pow8(12) == 0x1000000000,
        8 * pow8(11) == 0x1000000000,
        pow8(11) == 8589934592,
        pow8(6) == 262144,
{
    assert(pow8(0) == 1);
    assert(pow8(1) == 8);
    assert(pow8(2) == 64);
    assert(pow8(3) == 512);
    assert(pow8(4) == 4096);
    assert(pow8(5) == 32768);
    assert(pow8(6) == 262144);
    assert(pow8(7) == 2097152);
    assert(pow8(8) == 16777216);
    assert(pow8(9) == 134217728);
    assert(pow8(10) == 1073741824);
    assert(pow8(11) == 8589934592);
    assert(pow8(12) == 68719476736);
}

/// Once a prefix of the digit run fails to parse, the whole run fails.
proof fn lemma_oct_digits_none_extends(s: Seq<u8>, k: int)
    requires
        0 <= k <= s.len(),
        oct_digits_val(s.take(k)) is None,
    ensures
        oct_digits_val(s) is None,
    decreases s.len() - k,
{
    if k < s.len() {
        assert(s.take(k + 1).drop_last() =~= s.take(k));
        lemma_oct_digits_none_extends(s, k + 1);
    } else {
        assert(s.take(k) =~= s);
    }
}

/// The sum of a byte sequence.
pub open spec fn byte_sum(s: Seq<u8>) -> nat
    decreases s.len(),
{
    if s.len() == 0 {
        0
    } else {
        byte_sum(s.drop_last()) + s.last() as nat
    }
}

/// A sequence of `k` zero bytes.
pub open spec fn zeros(k: nat) -> Seq<u8> {
    Seq::new(k, |i: int| 0u8)
}

/// The bytes of a field up to its first NUL terminator.
pub open spec fn ztrim(s: Seq<u8>) -> Seq<u8>
    decreases s.len(),
{
    if s.len() == 0 {
        s
    } else if s[0] == 0 {
        Seq::<u8>::empty()
    } else {
        seq![s[0]] + ztrim(s.drop_first())
    }
}

proof fn lemma_ztrim(s: Seq<u8>, k: int)
    requires
        0 <= k <= s.len(),
        forall|j: int| 0 <= j < k ==> s[j] != 0,
        k == s.len() || s[k] == 0,
    ensures
        ztrim(s) == s.take(k),
    decreases k,
{
    if s.len() == 0 || k == 0 {
        assert(s.take(0) =~= Seq::<u8>::empty());
        if s.len() == 0 {
            assert(s.take(k) =~= s);
        }
    } else {
        lemma_ztrim(s.drop_first(), k - 1);
        assert(seq![s[0]] + s.drop_first().take(k - 1) =~= s.take(k));
    }
}

/// Copies `v[start..end]` into a fresh vector.
fn copy_range(v: &Vec<u8>, start: usize, end: usize) -> (r: Vec<u8>)
    requires
        start <= end <= v@.len(),
    ensures
        r@ == v@.subrange(start as int, end as int),
{
    let mut out: Vec<u8> = Vec::new();
    let mut i = start;
    while i < end
        invariant
            start <= i <= end <= v@.len(),
            out@ == v@.subrange(start as int, i as int),
        decreases end - i,
    {
        proof {
            assert(v@.subrange(start as int, i + 1) =~= v@.subrange(start as int, i as int).push(
                v@[i as int],
            ));
        }
        out.push(v[i]);
        i = i + 1;
    }
    out
}

/// Reads the NUL-terminated bytes of the field `v[start..end]`.
fn ztrim_range(v: &Vec<u8>, start: usize, end: usize) -> (r: Vec<u8>)
    requires
        start <= end <= v@.len(),
    ensures
        r@ == ztrim(v@.subrange(start as int, end as int)),
{
    let ghost field = v@.subrange(start as int, end as int);
    let mut k = start;
    while k < end && v[k] != 0
        invariant
            start <= k <= end <= v@.len(),
            field == v@.subrange(start as int, end as int),
            forall|j: int| 0 <= j < k - start ==> field[j] != 0,
        decreases end - k,
    {
        k = k + 1;
    }
    proof {
        lemma_ztrim(field, k - start);
        assert(field.take(k - start) =~= v@.subrange(start as int, k as int));
    }
    copy_range(v, start, k)
}

/// Appends all of `src` to `dst`.
fn append_bytes(dst: &mut Vec<u8>, src: &Vec<u8>)
    ensures
        final(dst)@ == old(dst)@ + src@,
{
    let mut j: usize = 0;
    proof {
        assert(dst@ =~= old(dst)@ + src@.take(0));
    }
    while j < src.len()
        invariant
            0 <= j <= src@.len(),
            dst@ == old(dst)@ + src@.take(j as int),
        decreases src@.len() - j,
    {
        proof {
            assert(src@.take(j + 1) =~= src@.take(j as int).push(src@[j as int]));
            assert(old(dst)@ + src@.take(j as int).push(src@[j as int]) =~= (old(dst)@ + src@.take(
                j as int,
            )).push(src@[j as int]));
        }
        dst.push(src[j]);
        j = j + 1;
    }
    proof {
        assert(src@.take(src@.len() as int) =~= src@);
    }
}

/// One decoding step of the tar stream at a block position.
pub enum TarStep {
    /// The stream ends here: no bytes left, or a zero block.
    End,
    /// The stream is corrupt or truncated here; no further decoding is
    /// possible.
    Bad,
    /// A file entry: its name bytes, content bytes, and the position of the
    /// following block.
    File { name: Seq<u8>, content: Seq<u8>, next: int },
    /// An entry that yields no record (a directory, or archive metadata);
    /// decoding continues at `next`.
    Skip { next: int },
}

/// The next file record found from a block position, once skipped entries
/// are passed over.
pub enum TarNext {
    End,
    Bad,
    File { name: Seq<u8>, content: Seq<u8>, next: int },
}

/// An all-zero terminator block.
pub open spec fn is_zero_block(b: Seq<u8>) -> bool {
    b.len() == 512 && forall|i: int| 0 <= i < 512 ==> b[i] == 0
}

/// The POSIX ustar magic, under which the prefix field is meaningful.
pub open spec fn posix_magic(h: Seq<u8>) -> bool {
    h[257] == 0x75 && h[258] == 0x73 && h[259] == 0x74 && h[260] == 0x61 && h[261] == 0x72 && h[262]
        == 0
}

/// The entry name encoded by a header block: the name field, preceded by the
/// prefix field and a slash when a POSIX prefix is present.
pub open spec fn name_bytes_of(h: Seq<u8>) -> Seq<u8> {
    let base = ztrim(h.subrange(0, 100));
    let prefix = ztrim(h.subrange(345, 500));
    if posix_magic(h) && prefix.len() > 0 {
        prefix + seq![0x2fu8] + base
    } else {
        base
    }
}

/// The header block with its checksum field read as spaces, the form over
/// which the header checksum is computed.
pub open spec fn cksum_input(h: Seq<u8>) -> Seq<u8> {
    Seq::new(512, |i: int| if 148 <= i < 156 { 0x20u8 } else { h[i] })
}

/// Whether the stored checksum matches the computed one.
pub open spec fn checksum_ok(h: Seq<u8>) -> bool {
    octal_value(h.subrange(148, 156)) == Some(byte_sum(cksum_input(h)))
}

/// The zero padding that follows `size` content bytes up to a block boundary.
pub open spec fn pad_of(size: nat) -> nat {
    ((512 - size % 512) % 512) as nat
}

/// Entry types that yield no file record: directories, pax extended-header
/// metadata entries, and any entry whose name ends in a slash.
pub open spec fn is_skip_type(t: u8, name: Seq<u8>) -> bool {
    t == 0x35 || t == 0x78 || t == 0x67 || (name.len() > 0 && name.last() == 0x2f)
}

/// Decodes the entry whose header stands at `pos`, under an optional GNU
/// long-name override pending from an earlier `L` entry. An `L` entry's
/// content is the full name of the entry that follows it (NUL-terminated); a
/// `K` entry (a long link target) is consumed without disturbing a pending
/// name; any other entry is classified under its effective name.
pub open spec fn tar_step_named(data: Seq<u8>, pos: int, ovr: Option<Seq<u8>>) -> TarStep
    decreases data.len() - pos,
        when 0 <= pos
        via tar_step_named_dec
{
    let len = data.len() as int;
    if pos >= len {
        TarStep::End
    } else if pos + 512 > len {
        TarStep::Bad
    } else {
        let h = data.subrange(pos, pos + 512);
        if is_zero_block(h) {
            TarStep::End
        } else if !checksum_ok(h) {
            TarStep::Bad
        } else {
            match octal_value(h.subrange(124, 136)) {
                None => TarStep::Bad,
                Some(size) => {
                    if pos + 512 + size > len {
                        TarStep::Bad
                    } else {
                        let next0 = pos + 512 + size + pad_of(size);
                        let next = if next0 > len {
                            len
                        } else {
                            next0
                        };
                        let content = data.subrange(pos + 512, pos + 512 + size);
                        if h[156] == 0x4c {
                            tar_step_named(data, next, Some(ztrim(content)))
                        } else if h[156] == 0x4b {
                            tar_step_named(data, next, ovr)
                        } else {
                            let name = match ovr {
                                Some(n) => n,
                                None => name_bytes_of(h),
                            };
                            if is_skip_type(h[156], name) {
                                TarStep::Skip { next }
                            } else {
                                TarStep::File { name, content, next }
                            }
                        }
                    }
                },
            }
        }
    }
}

#[via_fn]
proof fn tar_step_named_dec(data: Seq<u8>, pos: int, ovr: Option<Seq<u8>>) {
}

pub proof fn lemma_tar_step_named_bounds(data: Seq<u8>, pos: int, ovr: Option<Seq<u8>>)
    requires
        0 <= pos,
    ensures
        tar_step_named(data, pos, ovr) matches TarStep::Skip { next } ==> pos < next <= data.len(),
        tar_step_named(data, pos, ovr) matches TarStep::File { next, .. } ==> pos < next
            <= data.len(),
    decreases data.len() - pos,
{
    let len = data.len() as int;
    if pos < len && pos + 512 <= len {
        let h = data.subrange(pos, pos + 512);
        if !is_zero_block(h) && checksum_ok(h) {
            match octal_value(h.subrange(124, 136)) {
                Some(size) => {
                    if pos + 512 + size <= len {
                        let next0 = pos + 512 + size + pad_of(size);
                        let next = if next0 > len {
                            len
                        } else {
                            next0
                        };
                        let content = data.subrange(pos + 512, pos + 512 + size);
                        if h[156] == 0x4c {
                            lemma_tar_step_named_bounds(data, next, Some(ztrim(content)));
                        } else if h[156] == 0x4b {
                            lemma_tar_step_named_bounds(data, next, ovr);
                        }
                    }
                },
                None => {},
            }
        }
    }
}

/// The next file record from `pos` on under a pending long name, passing
/// over skipped entries (which clear any pending name).
pub open spec fn tar_next_file_from(data: Seq<u8>, pos: int, ovr: Option<Seq<u8>>) -> TarNext
    decreases data.len() - pos,
        when 0 <= pos
        via tar_next_file_from_dec
{
    match tar_step_named(data, pos, ovr) {
        TarStep::End => TarNext::End,
        TarStep::Bad => TarNext::Bad,
        TarStep::File { name, content, next } => TarNext::File { name, content, next },
        TarStep::Skip { next } => tar_next_file_from(data, next, None),
    }
}

#[via_fn]
proof fn tar_next_file_from_dec(data: Seq<u8>, pos: int, ovr: Option<Seq<u8>>) {
    lemma_tar_step_named_bounds(data, pos, ovr);
}

/// The next file record from `pos` on, passing over skipped entries.
pub open spec fn tar_next_file(data: Seq<u8>, pos: int) -> TarNext {
    tar_next_file_from(data, pos, None)
}

pub proof fn lemma_tar_next_file_from_bounds(data: Seq<u8>, pos: int, ovr: Option<Seq<u8>>)
    requires
        0 <= pos,
    ensures
        tar_next_file_from(data, pos, ovr) matches TarNext::File { next, .. } ==> pos < next
            <= data.len(),
    decreases data.len() - pos,
{
    lemma_tar_step_named_bounds(data, pos, ovr);
    match tar_step_named(data, pos, ovr) {
        TarStep::Skip { next } => {
            lemma_tar_next_file_from_bounds(data, next, None);
        },
        _ => {},
    }
}

pub proof fn lemma_tar_next_file_bounds(data: Seq<u8>, pos: int)
    requires
        0 <= pos,
    ensures
        tar_next_file(data, pos) matches TarNext::File { next, .. } ==> pos < next <= data.len(),
{
    lemma_tar_next_file_from_bounds(data, pos, None);
}

/// The (path, content) views of a record sequence.
pub open spec fn pairs_of(files: Seq<TemplateFile>) -> Seq<(Seq<char>, Seq<u8>)> {
    files.map_values(|f: TemplateFile| (f.path@, f.content@))
}

/// Every file record the tar stream holds from `pos` on, in physical order,
/// or nothing when the stream is corrupt or an entry name is not UTF-8.
pub open spec fn tar_all(data: Seq<u8>, pos: int) -> Option<Seq<(Seq<char>, Seq<u8>)>>
    decreases data.len() - pos,
        when 0 <= pos
        via tar_all_dec
{
    match tar_next_file(data, pos) {
        TarNext::End => Some(Seq::<(Seq<char>, Seq<u8>)>::empty()),
        TarNext::Bad => None,
        TarNext::File { name, content, next } => {
            if vstd::utf8::valid_utf8(name) {
                match tar_all(data, next) {
                    None => None,
                    Some(rest) => Some(
                        seq![(vstd::utf8::decode_utf8(name), content)] + rest,
                    ),
                }
            } else {
                None
            }
        },
    }
}

#[via_fn]
proof fn tar_all_dec(data: Seq<u8>, pos: int) {
    lemma_tar_next_file_bounds(data, pos);
}

/// The byte view of an optionally pending long name.
pub open spec fn pending_view(p: Option<Vec<u8>>) -> Option<Seq<u8>> {
    match p {
        Some(v) => Some(v@),
        None => None,
    }
}

/// The decoder that owns the whole decompressed stream and its cursor, and
/// exposes only a pull-next-record operation: the decompression state and the
/// entry cursor never part.
pub struct TarFileIter {
    data: Vec<u8>,
    pos: usize,
    failed: bool,
}

impl TarFileIter {
    /// The decompressed tar stream this decoder walks.
    pub closed spec fn spec_data(&self) -> Seq<u8> {
        self.data@
    }

    /// The current block position of the cursor.
    pub closed spec fn spec_pos(&self) -> int {
        self.pos as int
    }

    /// Whether a fatal decoding failure has been reported; after one, the
    /// sequence is over.
    pub closed spec fn has_failed(&self) -> bool {
        self.failed
    }

    /// The cursor always stands inside the stream. Established by `new` and
    /// preserved by `next`.
    pub closed spec fn wf(&self) -> bool {
        self.pos <= self.data@.len()
    }

    /// Decompresses a gzip-compressed tar stream and positions the cursor at
    /// its first entry. A corrupt gzip stream is fatal at once.
    pub fn new(gz: Vec<u8>) -> (r: Result<Self, RteError>)
        ensures
            match r {
                Ok(it) => gunzip_of(gz@) == Some(it.spec_data()) && it.spec_pos() == 0
                    && !it.has_failed() && it.wf(),
                Err(e) => gunzip_of(gz@) is None && e matches RteError::TarDecode { .. },
            },
    {
        match gzip_decompress(&gz) {
            Some(d) => Ok(TarFileIter { data: d, pos: 0, failed: false }),
            None => Err(RteError::TarDecode { detail: "corrupt gzip stream".to_owned() }),
        }
    }

    /// Pulls the next file record: reads the header at the cursor, applies
    /// GNU long-name entries to the entry that follows them, skips directory
    /// and metadata entries, and returns the entry's name and fully-buffered
    /// content. Corruption is fatal for the whole sequence.
    #[verifier::rlimit(60)]
    pub fn next(&mut self) -> (r: Option<Result<TemplateFile, RteError>>)
        requires
            old(self).wf(),
        ensures
            final(self).wf(),
            final(self).spec_data() == old(self).spec_data(),
            old(self).has_failed() ==> r is None && *final(self) == *old(self),
            !old(self).has_failed() ==> match tar_next_file(
                old(self).spec_data(),
                old(self).spec_pos(),
            ) {
                TarNext::End => r is None && !final(self).has_failed() && tar_next_file(
                    final(self).spec_data(),
                    final(self).spec_pos(),
                ) == TarNext::End,
                TarNext::Bad => (r matches Some(x) && x matches Err(e)
                    && e matches RteError::TarDecode { .. }) && final(self).has_failed(),
                TarNext::File { name, content, next } => {
                    if vstd::utf8::valid_utf8(name) {
                        &&& r matches Some(x) && x matches Ok(f) && f.path@
                            == vstd::utf8::decode_utf8(name) && f.content@ == content
                        &&& final(self).spec_pos() == next
                        &&& !final(self).has_failed()
                    } else {
                        (r matches Some(x) && x matches Err(e)
                            && e matches RteError::TarDecode { .. }) && final(self).has_failed()
                    }
                },
            },
    {
        if self.failed {
            return None;
        }
        let ghost data = self.data@;
        let ghost pos0 = self.pos as int;
        let total_len = self.data.len();
        let mut pending: Option<Vec<u8>> = None;
        proof {
            assert(data.len() == total_len as int);
        }
        while self.pos < self.data.len()
            invariant
                self.data@ == data,
                data == old(self).spec_data(),
                pos0 == old(self).spec_pos(),
                !old(self).has_failed(),
                !self.failed,
                0 <= pos0,
                data.len() <= usize::MAX,
                0 <= self.pos as int <= data.len(),
                tar_next_file(data, pos0) == tar_next_file_from(
                    data,
                    self.pos as int,
                    pending_view(pending),
                ),
            decreases data.len() - self.pos,
        {
            let pos = self.pos;
            let ghost posi = pos as int;
            let ghost ovr = pending_view(pending);
            let len = self.data.len();
            if len - pos < 512 {
                proof {
                    assert(tar_step_named(data, posi, ovr) == TarStep::Bad);
                }
                self.failed = true;
                return Some(
                    Err(RteError::TarDecode { detail: "truncated header block".to_owned() }),
                );
            }
            let ghost h = data.subrange(posi, posi + 512);
            let mut allzero = true;
            let mut i: usize = 0;
            while i < 512
                invariant
                    0 <= i <= 512,
                    self.data@.len() <= usize::MAX,
                    pos + 512 <= self.data@.len(),
                    h == self.data@.subrange(pos as int, pos as int + 512),
                    allzero == (forall|j: int| 0 <= j < i ==> h[j] == 0),
                decreases 512 - i,
            {
                proof {
                    assert(h[i as int] == self.data@[pos + i]);
                }
                if self.data[pos + i] != 0 {
                    allzero = false;
                }
                i = i + 1;
            }
            if allzero {
                proof {
                    assert(is_zero_block(h));
                    assert(tar_step_named(data, posi, ovr) == TarStep::End);
                    assert(tar_step_named(data, posi, None) == TarStep::End);
                }
                return None;
            }
            proof {
                assert(!is_zero_block(h)) by {
                    let j = choose|j: int| 0 <= j < 512 && h[j] != 0;
                    assert(h[j] != 0);
                }
            }
            // Header checksum: sum of the block with the checksum field as spaces.
            let mut sum: u64 = 0;
            let mut k: usize = 0;
            proof {
                assert(cksum_input(h).take(0) =~= Seq::<u8>::empty());
            }
            while k < 512
                invariant
                    0 <= k <= 512,
                    self.data@.len() <= usize::MAX,
                    pos + 512 <= self.data@.len(),
                    h == self.data@.subrange(pos as int, pos as int + 512),
                    sum == byte_sum(cksum_input(h).take(k as int)),
                    sum <= 255 * k,
                decreases 512 - k,
            {
                let b: u8 = if k >= 148 && k < 156 {
                    0x20
                } else {
                    self.data[pos + k]
                };
                proof {
                    assert(cksum_input(h)[k as int] == b);
                    assert(cksum_input(h).take(k + 1).drop_last() =~= cksum_input(h).take(k as int));
                }
                sum = sum + b as u64;
                k = k + 1;
            }
            proof {
                assert(cksum_input(h).take(512) =~= cksum_input(h));
            }
            let stored = parse_octal_range(&self.data, pos + 148, pos + 156);
            proof {
                assert(self.data@.subrange(pos as int + 148, pos as int + 156) =~= h.subrange(
                    148,
                    156,
                ));
            }
            let ck_ok = match stored {
                Some(ck) => ck == sum,
                None => false,
            };
            if !ck_ok {
                proof {
                    assert(!checksum_ok(h));
                    assert(tar_step_named(data, posi, ovr) == TarStep::Bad);
                }
                self.failed = true;
                return Some(
                    Err(RteError::TarDecode { detail: "header checksum mismatch".to_owned() }),
                );
            }
            proof {
                assert(checksum_ok(h));
            }
            let size = match parse_octal_range(&self.data, pos + 124, pos + 136) {
                Some(s) => s,
                None => {
                    proof {
                        assert(self.data@.subrange(pos as int + 124, pos as int + 136)
                            =~= h.subrange(124, 136));
                        assert(tar_step_named(data, posi, ovr) == TarStep::Bad);
                    }
                    self.failed = true;
                    return Some(
                        Err(RteError::TarDecode { detail: "invalid size field".to_owned() }),
                    );
                },
            };
            proof {
                assert(self.data@.subrange(pos as int + 124, pos as int + 136) =~= h.subrange(
                    124,
                    136,
                ));
            }
            if size > (len - pos - 512) as u64 {
                proof {
                    assert(tar_step_named(data, posi, ovr) == TarStep::Bad);
                }
                self.failed = true;
                return Some(
                    Err(RteError::TarDecode { detail: "truncated entry content".to_owned() }),
                );
            }
            let size_us = size as usize;
            let used = pos + 512 + size_us;
            let rem_pad = (512 - (size_us % 512)) % 512;
            let next = if rem_pad <= len - used {
                used + rem_pad
            } else {
                len
            };
            proof {
                assert(pad_of(size as nat) == rem_pad as nat);
            }
            let t = self.data[pos + 156];
            proof {
                assert(t == h[156]);
            }
            if t == 0x4c {
                // A GNU long-name entry: its content names the entry that
                // follows it.
                let lname = ztrim_range(&self.data, pos + 512, used);
                proof {
                    assert(self.data@.subrange(pos as int + 512, used as int) =~= data.subrange(
                        posi + 512,
                        posi + 512 + size as nat,
                    ));
                    assert(tar_step_named(data, posi, ovr) == tar_step_named(
                        data,
                        next as int,
                        Some(lname@),
                    ));
                    assert(tar_next_file_from(data, posi, ovr) == tar_next_file_from(
                        data,
                        next as int,
                        Some(lname@),
                    )) by {
                        match tar_step_named(data, next as int, Some(lname@)) {
                            TarStep::End => {},
                            TarStep::Bad => {},
                            TarStep::File { .. } => {},
                            TarStep::Skip { .. } => {},
                        }
                    }
                }
                pending = Some(lname);
                self.pos = next;
                continue ;
            }
            if t == 0x4b {
                // A GNU long-link entry: consumed, a pending name survives.
                proof {
                    assert(tar_step_named(data, posi, ovr) == tar_step_named(
                        data,
                        next as int,
                        ovr,
                    ));
                    assert(tar_next_file_from(data, posi, ovr) == tar_next_file_from(
                        data,
                        next as int,
                        ovr,
                    )) by {
                        match tar_step_named(data, next as int, ovr) {
                            TarStep::End => {},
                            TarStep::Bad => {},
                            TarStep::File { .. } => {},
                            TarStep::Skip { .. } => {},
                        }
                    }
                }
                self.pos = next;
                continue ;
            }
            // Effective entry name: a pending long name, else the header's
            // own name field, under a POSIX prefix when present.
            let name: Vec<u8> = match pending {
                Some(p) => p,
                None => {
                    let base = ztrim_range(&self.data, pos, pos + 100);
                    proof {
                        assert(self.data@.subrange(pos as int, pos as int + 100) =~= h.subrange(
                            0,
                            100,
                        ));
                    }
                    let is_posix = self.data[pos + 257] == 0x75 && self.data[pos + 258] == 0x73
                        && self.data[pos + 259] == 0x74 && self.data[pos + 260] == 0x61
                        && self.data[pos + 261] == 0x72 && self.data[pos + 262] == 0;
                    proof {
                        assert(h[257] == self.data@[pos + 257]);
                        assert(h[258] == self.data@[pos + 258]);
                        assert(h[259] == self.data@[pos + 259]);
                        assert(h[260] == self.data@[pos + 260]);
                        assert(h[261] == self.data@[pos + 261]);
                        assert(h[262] == self.data@[pos + 262]);
                        assert(is_posix == posix_magic(h));
                    }
                    let prefix = ztrim_range(&self.data, pos + 345, pos + 500);
                    proof {
                        assert(self.data@.subrange(pos as int + 345, pos as int + 500)
                            =~= h.subrange(345, 500));
                    }
                    if is_posix && prefix.len() > 0 {
                        let mut nb = prefix;
                        nb.push(0x2f);
                        append_bytes(&mut nb, &base);
                        proof {
                            assert(nb@ =~= name_bytes_of(h));
                        }
                        nb
                    } else {
                        base
                    }
                },
            };
            pending = None;
            proof {
                assert(name@ == (match ovr {
                    Some(n) => n,
                    None => name_bytes_of(h),
                }));
            }
            let is_skip = t == 0x35 || t == 0x78 || t == 0x67 || (name.len() > 0 && name[name.len()
                - 1] == 0x2f);
            proof {
                if name@.len() > 0 {
                    assert(name@[name@.len() - 1] == name@.last());
                }
                assert(is_skip == is_skip_type(h[156], name@));
            }
            if is_skip {
                proof {
                    assert(tar_step_named(data, posi, ovr) == (TarStep::Skip { next: next as int }));
                    assert(tar_next_file_from(data, posi, ovr) == tar_next_file_from(
                        data,
                        next as int,
                        None,
                    ));
                }
                self.pos = next;
                continue ;
            }
            let content = copy_range(&self.data, pos + 512, used);
            proof {
                assert(tar_step_named(data, posi, ovr) == (TarStep::File {
                    name: name@,
                    content: data.subrange(posi + 512, posi + 512 + size as nat),
                    next: next as int,
                }));
                assert(tar_next_file_from(data, posi, ovr) == (TarNext::File {
                    name: name@,
                    content: data.subrange(posi + 512, posi + 512 + size as nat),
                    next: next as int,
                }));
            }
            match crate::strutil::utf8_to_string(name.as_slice()) {
                Some(path) => {
                    self.pos = next;
                    return Some(Ok(TemplateFile { path, content }));
                },
                None => {
                    self.failed = true;
                    return Some(
                        Err(RteError::TarDecode { detail: "entry name is not UTF8".to_owned() }),
                    );
                },
            }
        }
        proof {
            assert(tar_step_named(data, self.pos as int, pending_view(pending)) == TarStep::End);
            assert(tar_step_named(data, self.pos as int, None) == TarStep::End);
        }
        None
    }
}

/// Drains a decoder into a vector of records: the whole stream in physical
/// order, or the first fatal error.
pub fn read_all(it: &mut TarFileIter) -> (r: Result<Vec<TemplateFile>, RteError>)
    requires
        !old(it).has_failed(),
        old(it).wf(),
    ensures
        match tar_all(old(it).spec_data(), old(it).spec_pos()) {
            Some(recs) => r matches Ok(v) && pairs_of(v@) == recs,
            None => r matches Err(e) && e matches RteError::TarDecode { .. },
        },
{
    let ghost data = it.spec_data();
    let ghost pos0 = it.spec_pos();
    let mut out: Vec<TemplateFile> = Vec::new();
    proof {
        assert(pairs_of(out@) =~= Seq::<(Seq<char>, Seq<u8>)>::empty());
    }
    loop
        invariant
            !it.has_failed(),
            it.wf(),
            it.spec_data() == data,
            data == old(it).spec_data(),
            pos0 == old(it).spec_pos(),
            0 <= pos0,
            0 <= it.spec_pos() <= data.len(),
            match tar_all(data, it.spec_pos()) {
                Some(rest) => tar_all(data, pos0) == Some(pairs_of(out@) + rest),
                None => tar_all(data, pos0) is None,
            },
        decreases data.len() - it.spec_pos(),
    {
        let ghost pos_before = it.spec_pos();
        match it.next() {
            None => {
                proof {
                    assert(tar_all(data, pos_before) == Some(Seq::<(Seq<char>, Seq<u8>)>::empty()));
                    assert(pairs_of(out@) + Seq::<(Seq<char>, Seq<u8>)>::empty() =~= pairs_of(
                        out@,
                    ));
                }
                return Ok(out);
            },
            Some(item) => match item {
                Ok(f) => {
                    proof {
                        lemma_tar_next_file_bounds(data, pos_before);
                        let rec = (f.path@, f.content@);
                        match tar_next_file(data, pos_before) {
                            TarNext::File { name, content, next } => {
                                assert(tar_all(data, pos_before) == (match tar_all(data, next) {
                                    None => None,
                                    Some(rest) => Some(seq![rec] + rest),
                                }));
                                assert(pairs_of(out@.push(f)) =~= pairs_of(out@).push(rec));
                                match tar_all(data, next) {
                                    Some(rest) => {
                                        assert(pairs_of(out@) + (seq![rec] + rest) =~= pairs_of(
                                            out@,
                                        ).push(rec) + rest);
                                    },
                                    None => {},
                                }
                            },
                            _ => {
                                assert(false);
                            },
                        }
                    }
                    out.push(f);
                },
                Err(e) => {
                    proof {
                        assert(tar_all(data, pos_before) is None);
                    }
                    return Err(e);
                },
            },
        }
    }
}

/// The path with its first `n` components removed, or nothing when the path
/// has `n` or fewer components.
pub open spec fn strip_path(s: Seq<char>, n: nat) -> Option<Seq<char>> {
    let segs = crate::sanitize::clean_segments(s);
    if segs.len() <= n {
        None
    } else {
        Some(crate::strutil::join_with(segs.skip(n as int), '/'))
    }
}

/// A record sequence with `n` leading path components stripped from every
/// record, records too short to survive silently dropped.
pub open spec fn stripped_pairs(recs: Seq<(Seq<char>, Seq<u8>)>, n: nat) -> Seq<
    (Seq<char>, Seq<u8>),
>
    decreases recs.len(),
{
    if recs.len() == 0 {
        Seq::<(Seq<char>, Seq<u8>)>::empty()
    } else {
        let rest = stripped_pairs(recs.drop_first(), n);
        match strip_path(recs[0].0, n) {
            Some(p) => seq![(p, recs[0].1)] + rest,
            None => rest,
        }
    }
}

/// Strip invariant: a path with `n` or fewer components is dropped, and one
/// with exactly `n + 1` components keeps exactly one.
pub proof fn lemma_strip_invariant(s: Seq<char>, n: nat)
    ensures
        crate::sanitize::clean_segments(s).len() <= n ==> strip_path(s, n) is None,
        crate::sanitize::clean_segments(s).len() == n + 1 ==> (strip_path(s, n) matches Some(p)
            && crate::sanitize::clean_segments(p).len() == 1),
{
    let segs = crate::sanitize::clean_segments(s);
    if segs.len() == n + 1 {
        let rem = segs.skip(n as int);
        assert(rem.len() == 1);
        let p = crate::strutil::join_with(rem, '/');
        assert(p == rem[0]);
        assert(rem[0] == segs[n as int]);
        crate::sanitize::lemma_keep_segments_elements(crate::sanitize::raw_segments(s));
        assert(crate::sanitize::raw_segments(s).contains(segs[n as int]));
        let j = choose|j: int|
            0 <= j < crate::sanitize::raw_segments(s).len() && crate::sanitize::raw_segments(s)[j]
                == segs[n as int];
        crate::strutil::lemma_split_on_no_sep(s, '/');
        assert(forall|t: int| 0 <= t < p.len() ==> p[t] != '/');
        crate::strutil::lemma_split_on_head(p, '/', p.len() as int);
        assert(crate::strutil::split_on(p, '/') == seq![p]);
        assert(!crate::sanitize::seg_is_marker(p));
        assert(crate::sanitize::clean_segments(p) =~= seq![p]) by {
            assert(crate::sanitize::keep_segments(seq![p].drop_last())
                =~= Seq::<Seq<char>>::empty());
            assert(seq![p].last() == p);
        }
    }
}

/// A stage that strips a fixed count of leading path components from every
/// record of its input, dropping records whose paths are too short: what
/// removes the synthetic root folder of a hosted archive download.
pub struct StripComponents {
    files: Vec<TemplateFile>,
    strip_count: usize,
    pos: usize,
}

impl StripComponents {
    /// The stripped records not yet pulled, in order.
    pub closed spec fn remaining(&self) -> Seq<(Seq<char>, Seq<u8>)> {
        if self.pos <= self.files@.len() {
            stripped_pairs(pairs_of(self.files@.skip(self.pos as int)), self.strip_count as nat)
        } else {
            Seq::<(Seq<char>, Seq<u8>)>::empty()
        }
    }

    /// Wraps a record sequence with a strip count.
    pub fn new(inner: Vec<TemplateFile>, strip_count: usize) -> (r: Self)
        ensures
            r.remaining() == stripped_pairs(pairs_of(inner@), strip_count as nat),
    {
        let r = StripComponents { files: inner, strip_count, pos: 0 };
        proof {
            assert(r.files@.skip(0) =~= r.files@);
        }
        r
    }

    /// Pulls the next surviving record, its path shortened by the strip
    /// count; records with too few components are passed over silently.
    pub fn next(&mut self) -> (r: Option<TemplateFile>)
        ensures
            old(self).remaining().len() == 0 ==> r is None && final(self).remaining().len() == 0,
            old(self).remaining().len() > 0 ==> (r matches Some(f) && (f.path@, f.content@)
                == old(self).remaining()[0] && final(self).remaining() == old(
                self,
            ).remaining().drop_first()),
    {
        let ghost rem0 = self.remaining();
        while self.pos < self.files.len()
            invariant
                self.files@ == old(self).files@,
                self.strip_count == old(self).strip_count,
                rem0 == old(self).remaining(),
                self.remaining() == rem0,
            decreases self.files@.len() - self.pos,
        {
            let idx = self.pos;
            let ghost n = self.strip_count as nat;
            let ghost tail = self.files@.skip(idx as int);
            proof {
                assert(pairs_of(tail).len() > 0);
                assert(pairs_of(tail)[0] == (self.files@[idx as int].path@, self.files@[idx as int].content@));
                assert(pairs_of(tail).drop_first() =~= pairs_of(self.files@.skip(idx + 1)));
            }
            let segs = crate::sanitize::path_components(self.files[idx].path.as_str());
            if segs.len() <= self.strip_count {
                proof {
                    assert(crate::sanitize::clean_segments(self.files@[idx as int].path@).len()
                        <= n);
                    assert(strip_path(pairs_of(tail)[0].0, n) is None);
                    assert(stripped_pairs(pairs_of(tail), n) == stripped_pairs(
                        pairs_of(self.files@.skip(idx + 1)),
                        n,
                    ));
                }
                self.pos = idx + 1;
            } else {
                proof {
                    reveal_strlit("/");
                    assert("/"@ =~= seq!['/']);
                }
                let new_path = crate::strutil::join_from(&segs, self.strip_count, '/', "/");
                let clen = self.files[idx].content.len();
                let content = copy_range(&self.files[idx].content, 0, clen);
                proof {
                    assert(content@ =~= self.files@[idx as int].content@);
                    assert(segs@.map_values(|t: String| t@).skip(self.strip_count as int)
                        == crate::sanitize::clean_segments(
                        self.files@[idx as int].path@,
                    ).skip(self.strip_count as int));
                    assert(strip_path(pairs_of(tail)[0].0, n) == Some(new_path@));
                    assert(stripped_pairs(pairs_of(tail), n) == seq![
                        (new_path@, content@),
                    ] + stripped_pairs(pairs_of(self.files@.skip(idx + 1)), n));
                    assert((seq![(new_path@, content@)] + stripped_pairs(
                        pairs_of(self.files@.skip(idx + 1)),
                        n,
                    ))[0] == (new_path@, content@));
                    assert((seq![(new_path@, content@)] + stripped_pairs(
                        pairs_of(self.files@.skip(idx + 1)),
                        n,
                    )).drop_first() =~= stripped_pairs(pairs_of(self.files@.skip(idx + 1)), n));
                }
                self.pos = idx + 1;
                return Some(TemplateFile { path: new_path, content });
            }
        }
        proof {
            assert(self.files@.skip(self.files@.len() as int) =~= Seq::<TemplateFile>::empty());
            assert(pairs_of(Seq::<TemplateFile>::empty()) =~= Seq::<(Seq<char>, Seq<u8>)>::empty());
        }
        None
    }
}

/// `width` octal digit characters encoding `v`, most significant first.
pub open spec fn octal_digits(v: nat, width: nat) -> Seq<u8>
    decreases width,
{
    if width == 0 {
        Seq::<u8>::empty()
    } else {
        octal_digits(v / 8, (width - 1) as nat) + seq![(0x30 + v % 8) as u8]
    }
}

/// Eight space bytes: the checksum field as it reads while the checksum is
/// computed.
pub open spec fn spaces8() -> Seq<u8> {
    Seq::new(8, |i: int| 0x20u8)
}

/// The written header up to the checksum field: name padded to 100 bytes,
/// then mode 644, uid 0, gid 0, the content size, and mtime 0, each as a
/// NUL-terminated octal field.
pub open spec fn header_first(name: Seq<u8>, size: nat) -> Seq<u8> {
    name + zeros((100 - name.len()) as nat) + octal_digits(0o644, 7) + seq![0u8] + octal_digits(
        0,
        7,
    ) + seq![0u8] + octal_digits(0, 7) + seq![0u8] + octal_digits(size, 11) + seq![0u8]
        + octal_digits(0, 11) + seq![0u8]
}

/// The written header after the checksum field: the entry type flag, an
/// empty link name, the GNU magic, and zeros to the end of the block.
pub open spec fn header_tail(t: u8) -> Seq<u8> {
    seq![t] + zeros(100) + seq![0x75u8, 0x73u8, 0x74u8, 0x61u8, 0x72u8, 0x20u8, 0x20u8, 0u8]
        + zeros(247)
}

/// The header block over which the checksum is summed: checksum field read
/// as spaces.
pub open spec fn header_pre(name: Seq<u8>, size: nat, t: u8) -> Seq<u8> {
    header_first(name, size) + spaces8() + header_tail(t)
}

/// The complete written header block: checksum as six octal digits, a NUL
/// and a space.
pub open spec fn header_block_of(name: Seq<u8>, size: nat, t: u8) -> Seq<u8> {
    header_first(name, size) + octal_digits(byte_sum(header_pre(name, size, t)), 6) + seq![
        0u8,
        0x20u8,
    ] + header_tail(t)
}

/// One written archive entry: header, content, and zero padding to a block
/// boundary.
pub open spec fn entry_bytes(name: Seq<u8>, content: Seq<u8>, t: u8) -> Seq<u8> {
    header_block_of(name, content.len(), t) + content + zeros(pad_of(content.len()))
}

/// The header-field name of a GNU long-name entry: `././@LongLink`.
pub open spec fn longlink_name() -> Seq<u8> {
    seq![0x2eu8, 0x2fu8, 0x2eu8, 0x2fu8, 0x40u8, 0x4cu8, 0x6fu8, 0x6eu8, 0x67u8, 0x4cu8, 0x69u8,
        0x6eu8, 0x6bu8]
}

/// The written bytes of one record: a plain regular-file entry, preceded,
/// when the name exceeds the 100-byte name field, by a GNU long-name entry
/// carrying the full NUL-terminated name; the following entry then holds the
/// name's first 100 bytes.
pub open spec fn record_bytes(f: TemplateFile) -> Seq<u8> {
    let nb = vstd::utf8::encode_utf8(f.path@);
    if nb.len() <= 100 {
        entry_bytes(nb, f.content@, 0x30)
    } else {
        entry_bytes(longlink_name(), nb + seq![0u8], 0x4c) + entry_bytes(
            nb.take(100),
            f.content@,
            0x30,
        )
    }
}

/// The written entries of a record sequence, in order.
pub open spec fn entries_bytes(files: Seq<TemplateFile>) -> Seq<u8>
    decreases files.len(),
{
    if files.len() == 0 {
        Seq::<u8>::empty()
    } else {
        record_bytes(files[0]) + entries_bytes(files.drop_first())
    }
}

/// A complete written tar stream: the entries followed by two zero blocks.
pub open spec fn tar_stream_of(files: Seq<TemplateFile>) -> Seq<u8> {
    entries_bytes(files) + zeros(1024)
}

proof fn lemma_byte_sum_concat(a: Seq<u8>, b: Seq<u8>)
    ensures
        byte_sum(a + b) == byte_sum(a) + byte_sum(b),
    decreases b.len(),
{
    if b.len() == 0 {
        assert(a + b =~= a);
    } else {
        lemma_byte_sum_concat(a, b.drop_last());
        assert((a + b).drop_last() =~= a + b.drop_last());
        assert((a + b).last() == b.last());
    }
}

proof fn lemma_spaces8_sum()
    ensures
        byte_sum(spaces8()) == 256,
{
    let s = spaces8();
    assert(s.take(0) =~= Seq::<u8>::empty());
    assert(s.take(1).drop_last() =~= s.take(0));
    assert(s.take(1).last() == 0x20);
    assert(byte_sum(s.take(1)) == byte_sum(s.take(0)) + 0x20);
    assert(s.take(2).drop_last() =~= s.take(1));
    assert(s.take(2).last() == 0x20);
    assert(byte_sum(s.take(2)) == byte_sum(s.take(1)) + 0x20);
    assert(s.take(3).drop_last() =~= s.take(2));
    assert(s.take(3).last() == 0x20);
    assert(byte_sum(s.take(3)) == byte_sum(s.take(2)) + 0x20);
    assert(s.take(4).drop_last() =~= s.take(3));
    assert(s.take(4).last() == 0x20);
    assert(byte_sum(s.take(4)) == byte_sum(s.take(3)) + 0x20);
    assert(s.take(5).drop_last() =~= s.take(4));
    assert(s.take(5).last() == 0x20);
    assert(byte_sum(s.take(5)) == byte_sum(s.take(4)) + 0x20);
    assert(s.take(6).drop_last() =~= s.take(5));
    assert(s.take(6).last() == 0x20);
    assert(byte_sum(s.take(6)) == byte_sum(s.take(5)) + 0x20);
    assert(s.take(7).drop_last() =~= s.take(6));
    assert(s.take(7).last() == 0x20);
    assert(byte_sum(s.take(7)) == byte_sum(s.take(6)) + 0x20);
    assert(s.take(8).drop_last() =~= s.take(7));
    assert(s.take(8).last() == 0x20);
    assert(byte_sum(s.take(8)) == byte_sum(s.take(7)) + 0x20);
    assert(s.take(8) =~= s);
}

proof fn lemma_octal_digits_len(v: nat, width: nat)
    ensures
        octal_digits(v, width).len() == width,
    decreases width,
{
    if width > 0 {
        lemma_octal_digits_len(v / 8, (width - 1) as nat);
    }
}

/// Appends `k` zero bytes.
fn push_zeros(out: &mut Vec<u8>, k: usize)
    ensures
        final(out)@ == old(out)@ + zeros(k as nat),
{
    let mut j: usize = 0;
    proof {
        assert(out@ =~= old(out)@ + zeros(0));
    }
    while j < k
        invariant
            0 <= j <= k,
            out@ == old(out)@ + zeros(j as nat),
        decreases k - j,
    {
        proof {
            assert((old(out)@ + zeros(j as nat)).push(0u8) =~= old(out)@ + zeros((j + 1) as nat));
        }
        out.push(0);
        j = j + 1;
    }
}

/// The octal digits of `v` in a fixed width, most significant first.
fn octal_vec(v: u64, width: usize) -> (r: Vec<u8>)
    ensures
        r@ == octal_digits(v as nat, width as nat),
    decreases width,
{
    if width == 0 {
        let r: Vec<u8> = Vec::new();
        proof {
            assert(r@ =~= octal_digits(v as nat, 0));
        }
        r
    } else {
        let mut r = octal_vec(v / 8, width - 1);
        let d: u8 = 0x30 + (v % 8) as u8;
        proof {
            assert(octal_digits(v as nat, width as nat) =~= octal_digits(
                (v / 8) as nat,
                (width - 1) as nat,
            ).push((0x30 + (v as nat) % 8) as u8));
        }
        r.push(d);
        r
    }
}

/// The sum of a byte vector's bytes.
fn sum_bytes(v: &Vec<u8>, limit: usize) -> (r: u64)
    requires
        v@.len() <= limit <= 0xffff,
    ensures
        r == byte_sum(v@),
        r <= 255 * v@.len(),
{
    let mut sum: u64 = 0;
    let mut i: usize = 0;
    proof {
        assert(v@.take(0) =~= Seq::<u8>::empty());
    }
    while i < v.len()
        invariant
            0 <= i <= v@.len() <= 0xffff,
            sum == byte_sum(v@.take(i as int)),
            sum <= 255 * i,
        decreases v@.len() - i,
    {
        proof {
            assert(v@.take(i + 1).drop_last() =~= v@.take(i as int));
            assert(v@.take(i + 1).last() == v@[i as int]);
        }
        sum = sum + v[i] as u64;
        i = i + 1;
    }
    proof {
        assert(v@.take(v@.len() as int) =~= v@);
    }
    sum
}

/// Builds the written header block for an entry name, content size and
/// entry type flag.
fn make_header(name: &Vec<u8>, size: u64, t: u8) -> (h: Vec<u8>)
    requires
        name@.len() <= 100,
    ensures
        h@ == header_block_of(name@, size as nat, t),
{
    let mut first: Vec<u8> = Vec::new();
    append_bytes(&mut first, name);
    push_zeros(&mut first, 100 - name.len());
    let mode = octal_vec(0o644, 7);
    append_bytes(&mut first, &mode);
    first.push(0);
    let z7 = octal_vec(0, 7);
    append_bytes(&mut first, &z7);
    first.push(0);
    append_bytes(&mut first, &z7);
    first.push(0);
    let sz = octal_vec(size, 11);
    append_bytes(&mut first, &sz);
    first.push(0);
    let z11 = octal_vec(0, 11);
    append_bytes(&mut first, &z11);
    first.push(0);
    proof {
        assert(first@ =~= header_first(name@, size as nat));
    }
    let mut tail: Vec<u8> = Vec::new();
    tail.push(t);
    proof {
        assert(tail@ =~= seq![t]);
    }
    push_zeros(&mut tail, 100);
    tail.push(0x75);
    tail.push(0x73);
    tail.push(0x74);
    tail.push(0x61);
    tail.push(0x72);
    tail.push(0x20);
    tail.push(0x20);
    tail.push(0);
    push_zeros(&mut tail, 247);
    proof {
        assert(tail@ =~= header_tail(t));
    }
    proof {
        lemma_octal_digits_len(0o644, 7);
        lemma_octal_digits_len(0, 7);
        lemma_octal_digits_len(size as nat, 11);
        lemma_octal_digits_len(0, 11);
        assert(first@.len() == 148);
        assert(tail@.len() == 356);
    }
    let s1 = sum_bytes(&first, 148);
    let s2 = sum_bytes(&tail, 356);
    let sum = s1 + 256 + s2;
    proof {
        lemma_byte_sum_concat(header_first(name@, size as nat), spaces8());
        lemma_byte_sum_concat(header_first(name@, size as nat) + spaces8(), header_tail(t));
        lemma_spaces8_sum();
        assert((header_first(name@, size as nat) + spaces8()) + header_tail(t) =~= header_pre(
            name@,
            size as nat,
            t,
        ));
        assert(byte_sum(header_pre(name@, size as nat, t)) == s1 + 256 + s2);
    }
    let ck = octal_vec(sum, 6);
    let mut h = first;
    append_bytes(&mut h, &ck);
    h.push(0);
    h.push(0x20);
    append_bytes(&mut h, &tail);
    proof {
        assert(h@ =~= header_block_of(name@, size as nat, t));
    }
    h
}

proof fn lemma_entries_push(files: Seq<TemplateFile>, x: TemplateFile)
    ensures
        entries_bytes(files.push(x)) == entries_bytes(files) + record_bytes(x),
    decreases files.len(),
{
    let p = files.push(x);
    if files.len() == 0 {
        assert(p[0] == x);
        assert(p.drop_first() =~= Seq::<TemplateFile>::empty());
        assert(entries_bytes(Seq::<TemplateFile>::empty()) =~= Seq::<u8>::empty());
        assert(entries_bytes(p) == record_bytes(p[0]) + entries_bytes(p.drop_first()));
        assert(entries_bytes(p) =~= record_bytes(x));
        assert(entries_bytes(files) + record_bytes(x) =~= record_bytes(x));
    } else {
        lemma_entries_push(files.drop_first(), x);
        assert(p.drop_first() =~= files.drop_first().push(x));
        assert(p[0] == files[0]);
        assert(record_bytes(files[0]) + (entries_bytes(files.drop_first()) + record_bytes(x))
            =~= (record_bytes(files[0]) + entries_bytes(files.drop_first())) + record_bytes(x));
    }
}

/// Whether a name can be carried by a tar entry and recovered: free of NUL
/// bytes, and not ending in a slash (which would read back as a directory).
fn name_archivable(name: &Vec<u8>) -> (r: bool)
    ensures
        r == ((forall|j: int| 0 <= j < name@.len() ==> name@[j] != 0) && (name@.len() == 0
            || name@.last() != 0x2f)),
{
    if name.len() > 0 && name[name.len() - 1] == 0x2f {
        return false;
    }
    let mut j: usize = 0;
    while j < name.len()
        invariant
            0 <= j <= name@.len(),
            forall|k: int| 0 <= k < j ==> name@[k] != 0,
        decreases name@.len() - j,
    {
        if name[j] == 0 {
            return false;
        }
        j = j + 1;
    }
    true
}

/// Serializes records into a gzip-compressed tar archive held in memory: one
/// regular-file entry per record with fixed permission bits, explicit size
/// and checksum, no directory entries, a GNU long-name entry before any
/// record whose name exceeds the name field, and a final pair of zero
/// blocks. A record whose name or content no tar entry can carry fails the
/// run.
#[verifier::rlimit(100)]
#[verifier::spinoff_prover]
pub fn tar_gz_bytes(files: &Vec<TemplateFile>) -> (r: Result<Vec<u8>, RteError>)
    ensures
        match r {
            Ok(b) => recoverable_records(files@) && b@ == gzip_of(tar_stream_of(files@)),
            Err(e) => !recoverable_records(files@) && e matches RteError::Unarchivable { .. },
        },
{
    let mut out: Vec<u8> = Vec::new();
    let mut i: usize = 0;
    proof {
        assert(files@.take(0) =~= Seq::<TemplateFile>::empty());
        assert(out@ =~= entries_bytes(files@.take(0)));
    }
    while i < files.len()
        invariant
            0 <= i <= files@.len(),
            out@ == entries_bytes(files@.take(i as int)),
            forall|j: int| 0 <= j < i ==> entry_recoverable(#[trigger] files@[j]),
        decreases files@.len() - i,
    {
        let name = files[i].path.as_str().as_bytes_vec();
        let clen = files[i].content.len();
        proof {
            lemma_pow8_12();
        }
        if !name_archivable(&name) || clen as u64 >= 8589934592 || name.len() as u64
            >= 8589934591 {
            proof {
                assert(!entry_recoverable(files@[i as int]));
            }
            return Err(RteError::Unarchivable { path: files[i].path.clone() });
        }
        let ghost pre = out@;
        if name.len() > 100 {
            // A GNU long-name entry carrying the full NUL-terminated name.
            let mut lname: Vec<u8> = Vec::new();
            lname.push(0x2e);
            lname.push(0x2f);
            lname.push(0x2e);
            lname.push(0x2f);
            lname.push(0x40);
            lname.push(0x4c);
            lname.push(0x6f);
            lname.push(0x6e);
            lname.push(0x67);
            lname.push(0x4c);
            lname.push(0x69);
            lname.push(0x6e);
            lname.push(0x6b);
            proof {
                assert(lname@ =~= longlink_name());
            }
            let mut lcontent = copy_range(&name, 0, name.len());
            lcontent.push(0);
            proof {
                assert(name@.subrange(0, name@.len() as int) =~= name@);
                assert(lcontent@ =~= name@ + seq![0u8]);
            }
            let lh = make_header(&lname, lcontent.len() as u64, 0x4c);
            append_bytes(&mut out, &lh);
            append_bytes(&mut out, &lcontent);
            let lpad = (512 - (lcontent.len() % 512)) % 512;
            push_zeros(&mut out, lpad);
            proof {
                assert(lpad as nat == pad_of(lcontent@.len() as nat));
                assert(((pre + lh@) + lcontent@) + zeros(lpad as nat) =~= pre + (lh@ + lcontent@
                    + zeros(lpad as nat)));
                assert(out@ =~= pre + entry_bytes(longlink_name(), name@ + seq![0u8], 0x4c));
            }
            let ghost mid = out@;
            // The record itself, under the name's first 100 bytes.
            let tname = copy_range(&name, 0, 100);
            let h = make_header(&tname, clen as u64, 0x30);
            append_bytes(&mut out, &h);
            append_bytes(&mut out, &files[i].content);
            let pad = (512 - (clen % 512)) % 512;
            push_zeros(&mut out, pad);
            proof {
                assert(tname@ =~= name@.take(100));
                assert(pad as nat == pad_of(files@[i as int].content@.len()));
                assert(((mid + h@) + files@[i as int].content@) + zeros(pad as nat) =~= mid + (h@
                    + files@[i as int].content@ + zeros(pad as nat)));
                assert(out@ =~= mid + entry_bytes(
                    name@.take(100),
                    files@[i as int].content@,
                    0x30,
                ));
                assert((pre + entry_bytes(longlink_name(), name@ + seq![0u8], 0x4c)) + entry_bytes(
                    name@.take(100),
                    files@[i as int].content@,
                    0x30,
                ) =~= pre + (entry_bytes(longlink_name(), name@ + seq![0u8], 0x4c) + entry_bytes(
                    name@.take(100),
                    files@[i as int].content@,
                    0x30,
                )));
                assert(out@ =~= pre + record_bytes(files@[i as int]));
            }
        } else {
            let h = make_header(&name, clen as u64, 0x30);
            append_bytes(&mut out, &h);
            append_bytes(&mut out, &files[i].content);
            let pad = (512 - (clen % 512)) % 512;
            push_zeros(&mut out, pad);
            proof {
                assert(pad as nat == pad_of(files@[i as int].content@.len()));
                assert(((pre + h@) + files@[i as int].content@) + zeros(pad as nat) =~= pre + (h@
                    + files@[i as int].content@ + zeros(pad as nat)));
                assert(out@ =~= pre + record_bytes(files@[i as int]));
            }
        }
        proof {
            lemma_entries_push(files@.take(i as int), files@[i as int]);
            assert(files@.take(i + 1) =~= files@.take(i as int).push(files@[i as int]));
            assert(out@ =~= entries_bytes(files@.take(i + 1)));
        }
        i = i + 1;
    }
    proof {
        assert(files@.take(files@.len() as int) =~= files@);
        assert(recoverable_records(files@));
    }
    push_zeros(&mut out, 1024);
    proof {
        assert(out@ =~= tar_stream_of(files@));
    }
    let gz = gzip_compress(&out);
    Ok(gz)
}

/// Turns a fetched archive body into its file records: decompresses the gzip
/// stream, decodes every tar entry, and strips the synthetic root folder
/// that hosted archive downloads carry.
pub fn archive_records(gz: Vec<u8>) -> (r: Result<Vec<TemplateFile>, RteError>)
    ensures
        match gunzip_of(gz@) {
            None => r matches Err(e) && e matches RteError::TarDecode { .. },
            Some(d) => match tar_all(d, 0) {
                None => r matches Err(e) && e matches RteError::TarDecode { .. },
                Some(recs) => r matches Ok(v) && pairs_of(v@) == stripped_pairs(recs, 1),
            },
        },
{
    let ghost gzv = gz@;
    let mut it = match TarFileIter::new(gz) {
        Ok(it) => it,
        Err(e) => {
            return Err(e);
        },
    };
    let ghost dd = it.spec_data();
    let recs = match read_all(&mut it) {
        Ok(v) => v,
        Err(e) => {
            return Err(e);
        },
    };
    let mut sc = StripComponents::new(recs, 1);
    let ghost total = sc.remaining();
    let mut out: Vec<TemplateFile> = Vec::new();
    proof {
        assert(pairs_of(out@) =~= Seq::<(Seq<char>, Seq<u8>)>::empty());
        assert(pairs_of(out@) + total =~= total);
    }
    let ghost rp = pairs_of(recs@);
    loop
        invariant
            gzv == gz@,
            gunzip_of(gzv) == Some(dd),
            tar_all(dd, 0) == Some(rp),
            total == stripped_pairs(rp, 1),
            pairs_of(out@) + sc.remaining() == total,
        decreases sc.remaining().len(),
    {
        match sc.next() {
            None => {
                proof {
                    assert(pairs_of(out@) + sc.remaining() =~= pairs_of(out@));
                }
                return Ok(out);
            },
            Some(f) => {
                proof {
                    let rem = sc.remaining();
                    assert(pairs_of(out@.push(f)) =~= pairs_of(out@).push((f.path@, f.content@)));
                }
                out.push(f);
            },
        }
    }
}

proof fn lemma_octal_digits_range(v: nat, width: nat)
    ensures
        forall|j: int|
            0 <= j < octal_digits(v, width).len() ==> 0x30 <= #[trigger] octal_digits(v, width)[j]
                <= 0x37,
    decreases width,
{
    if width > 0 {
        lemma_octal_digits_range(v / 8, (width - 1) as nat);
        lemma_octal_digits_len(v / 8, (width - 1) as nat);
        assert forall|j: int| 0 <= j < octal_digits(v, width).len() implies 0x30 <= #[trigger] octal_digits(
            v,
            width,
        )[j] <= 0x37 by {
            if j < octal_digits(v, width).len() - 1 {
                assert(octal_digits(v, width)[j] == octal_digits(v / 8, (width - 1) as nat)[j]);
            }
        }
    }
}

proof fn lemma_oct_digits_val_round(v: nat, width: nat)
    requires
        v < pow8(width),
    ensures
        oct_digits_val(octal_digits(v, width)) == Some(v),
    decreases width,
{
    if width == 0 {
        assert(octal_digits(v, 0) =~= Seq::<u8>::empty());
    } else {
        lemma_oct_digits_val_round(v / 8, (width - 1) as nat);
        let d = octal_digits(v, width);
        assert(d.drop_last() =~= octal_digits(v / 8, (width - 1) as nat));
        assert(d.last() == (0x30 + v % 8) as u8);
    }
}

/// The octal fields the writer emits read back to the written value.
proof fn lemma_octal_field_round(v: nat, width: nat, suffix: Seq<u8>)
    requires
        v < pow8(width),
        width > 0,
        forall|j: int| 0 <= j < suffix.len() ==> suffix[j] == 0 || suffix[j] == 0x20,
    ensures
        octal_value(octal_digits(v, width) + suffix) == Some(v),
{
    let d = octal_digits(v, width);
    let f = d + suffix;
    lemma_octal_digits_len(v, width);
    lemma_octal_digits_range(v, width);
    assert(forall|j: int| width <= j < f.len() ==> f[j] == 0 || f[j] == 0x20);
    assert(!(f[width - 1] == 0 || f[width - 1] == 0x20));
    lemma_oct_trim_end(f, width as int);
    assert(f.take(width as int) =~= d);
    assert(d[0] != 0x20);
    lemma_oct_trim_start(d, 0);
    assert(d.skip(0) =~= d);
    lemma_oct_digits_val_round(v, width);
}

/// A record that the written archive carries and recovers: a name free of
/// NUL bytes that does not name a directory, and name and content within the
/// size field (names over 100 bytes travel in a GNU long-name entry).
pub open spec fn entry_recoverable(f: TemplateFile) -> bool {
    let nb = vstd::utf8::encode_utf8(f.path@);
    &&& nb.len() + 1 < pow8(11)
    &&& f.content@.len() < pow8(11)
    &&& forall|j: int| 0 <= j < nb.len() ==> nb[j] != 0
    &&& (nb.len() == 0 || nb.last() != 0x2f)
}

/// Records that a written archive decodes back to itself.
pub open spec fn recoverable_records(files: Seq<TemplateFile>) -> bool {
    forall|i: int| 0 <= i < files.len() ==> entry_recoverable(#[trigger] files[i])
}

proof fn lemma_header_block_len(name: Seq<u8>, size: nat, t: u8)
    requires
        name.len() <= 100,
    ensures
        header_first(name, size).len() == 148,
        header_tail(t).len() == 356,
        header_block_of(name, size, t).len() == 512,
        header_pre(name, size, t).len() == 512,
{
    lemma_octal_digits_len(0o644, 7);
    lemma_octal_digits_len(0, 7);
    lemma_octal_digits_len(size, 11);
    lemma_octal_digits_len(0, 11);
    lemma_octal_digits_len(byte_sum(header_pre(name, size, t)), 6);
}

/// Decoding one header block the writer emitted yields the entry that was
/// written: a long-name entry passes its content on as the pending name, and
/// a regular entry yields a file record under its effective name.
proof fn lemma_tar_step_entry(
    data: Seq<u8>,
    pos: int,
    name: Seq<u8>,
    content: Seq<u8>,
    t: u8,
    ovr: Option<Seq<u8>>,
)
    requires
        0 <= pos <= data.len(),
        pos + entry_bytes(name, content, t).len() <= data.len(),
        data.skip(pos).take(entry_bytes(name, content, t).len() as int) == entry_bytes(
            name,
            content,
            t,
        ),
        name.len() <= 100,
        content.len() < pow8(11),
        t == 0x30 || t == 0x4c,
        t == 0x30 ==> (match ovr {
            None => (forall|j: int| 0 <= j < name.len() ==> name[j] != 0) && (name.len() == 0
                || name.last() != 0x2f),
            Some(n) => n.len() == 0 || n.last() != 0x2f,
        }),
    ensures
        t == 0x4c ==> tar_step_named(data, pos, ovr) == tar_step_named(
            data,
            pos + 512 + content.len() + pad_of(content.len()),
            Some(ztrim(content)),
        ),
        t == 0x30 ==> tar_step_named(data, pos, ovr) == (TarStep::File {
            name: (match ovr {
                Some(n) => n,
                None => name,
            }),
            content,
            next: pos + 512 + content.len() + pad_of(content.len()),
        }),
{
    let size = content.len() as nat;
    let hb = header_block_of(name, size, t);
    let eb = entry_bytes(name, content, t);
    lemma_header_block_len(name, size, t);
    assert(eb.len() == 512 + size + pad_of(size));
    assert(pos + 512 <= data.len());
    let h = data.subrange(pos, pos + 512);
    assert forall|j: int| 0 <= j < 512 implies h[j] == hb[j] by {
        assert(data.skip(pos).take(eb.len() as int)[j] == data.skip(pos)[j]);
        assert(data.skip(pos)[j] == data[pos + j]);
        assert(eb[j] == hb[j]);
    }
    assert(h =~= hb);
    let first = header_first(name, size);
    let tail = header_tail(t);
    // The mode field pins h[100] to an octal digit, so this is no zero block.
    lemma_octal_digits_range(0o644, 7);
    lemma_octal_digits_len(0o644, 7);
    assert(first[100] == octal_digits(0o644, 7)[0]);
    assert(h[100] == first[100]);
    assert(!is_zero_block(h));
    // The stored checksum reads back as the sum over the pre-checksum form.
    let pre = header_pre(name, size, t);
    let ckd = octal_digits(byte_sum(pre), 6);
    lemma_octal_digits_len(byte_sum(pre), 6);
    assert(h.subrange(148, 156) =~= ckd + seq![0u8, 0x20u8]);
    assert(byte_sum(pre) < pow8(6)) by {
        lemma_byte_sum_concat(first + spaces8(), tail);
        lemma_byte_sum_concat(first, spaces8());
        assert(pre =~= (first + spaces8()) + tail);
        lemma_byte_sum_bound(first);
        lemma_byte_sum_bound(tail);
        lemma_spaces8_sum();
        lemma_pow8_12();
    }
    lemma_octal_field_round(byte_sum(pre), 6, seq![0u8, 0x20u8]);
    assert(cksum_input(h) =~= pre);
    assert(checksum_ok(h));
    // The size field reads back as the content length.
    lemma_octal_digits_len(0, 7);
    lemma_octal_digits_len(size, 11);
    lemma_octal_digits_len(0, 11);
    assert(h.subrange(124, 136) =~= octal_digits(size, 11) + seq![0u8]);
    lemma_octal_field_round(size, 11, seq![0u8]);
    assert(octal_value(h.subrange(124, 136)) == Some(size));
    assert(pos + 512 + size <= data.len());
    assert(data.subrange(pos + 512, pos + 512 + size) =~= content) by {
        assert forall|j: int| 0 <= j < size implies data[pos + 512 + j] == content[j] by {
            assert(data.skip(pos).take(eb.len() as int)[512 + j] == data[pos + 512 + j]);
            assert(eb[512 + j] == content[j]);
        }
    }
    assert(pos + 512 + size + pad_of(size) <= data.len());
    // The entry type flag stands first in the tail.
    assert(h[156] == tail[0]);
    assert(tail[0] == t);
    if t == 0x30 {
        match ovr {
            None => {
                // The name field reads back as the written name: GNU magic,
                // no prefix.
                assert(h[262] == tail[106]);
                assert(tail[106] == 0x20);
                assert(!posix_magic(h));
                assert(h.subrange(0, 100) =~= name + zeros((100 - name.len()) as nat));
                lemma_ztrim(name + zeros((100 - name.len()) as nat), name.len() as int);
                assert((name + zeros((100 - name.len()) as nat)).take(name.len() as int) =~= name);
                assert(name_bytes_of(h) == name);
                assert(!is_skip_type(h[156], name));
            },
            Some(n) => {
                assert(!is_skip_type(h[156], n));
            },
        }
    }
}

proof fn lemma_byte_sum_bound(s: Seq<u8>)
    ensures
        byte_sum(s) <= 255 * s.len(),
    decreases s.len(),
{
    if s.len() > 0 {
        lemma_byte_sum_bound(s.drop_last());
    }
}

/// One written record decodes as one file entry: directly for a short name,
/// and through the long-name entry for a name over 100 bytes.
#[verifier::rlimit(100)]
#[verifier::spinoff_prover]
proof fn lemma_tar_record_step(data: Seq<u8>, pos: int, f: TemplateFile)
    requires
        0 <= pos <= data.len(),
        pos + record_bytes(f).len() <= data.len(),
        data.skip(pos).take(record_bytes(f).len() as int) == record_bytes(f),
        entry_recoverable(f),
    ensures
        tar_step_named(data, pos, None) == (TarStep::File {
            name: vstd::utf8::encode_utf8(f.path@),
            content: f.content@,
            next: pos + record_bytes(f).len(),
        }),
{
    let nb = vstd::utf8::encode_utf8(f.path@);
    let rb = record_bytes(f);
    let clen = f.content@.len() as nat;
    lemma_pow8_12();
    assert(forall|j: int|
        0 <= j < rb.len() ==> #[trigger] data.skip(pos)[j] == rb[j]) by {
        assert(forall|j: int|
            0 <= j < rb.len() ==> data.skip(pos).take(rb.len() as int)[j] == #[trigger] data.skip(
                pos,
            )[j]);
    }
    if nb.len() <= 100 {
        let eb = entry_bytes(nb, f.content@, 0x30);
        assert(rb == eb);
        lemma_header_block_len(nb, clen, 0x30);
        assert(eb.len() == 512 + clen + pad_of(clen));
        lemma_tar_step_entry(data, pos, nb, f.content@, 0x30, None);
    } else {
        // The record travels as a long-name entry and a truncated-name
        // entry; decoding threads the full name through.
        let lcontent = nb + seq![0u8];
        let lb = entry_bytes(longlink_name(), lcontent, 0x4c);
        let eb = entry_bytes(nb.take(100), f.content@, 0x30);
        assert(rb == lb + eb);
        lemma_header_block_len(longlink_name(), lcontent.len() as nat, 0x4c);
        assert(lb.len() == 512 + lcontent.len() + pad_of(lcontent.len() as nat));
        lemma_header_block_len(nb.take(100), clen, 0x30);
        assert(eb.len() == 512 + clen + pad_of(clen));
        assert(data.skip(pos).take(lb.len() as int) =~= lb) by {
            assert forall|j: int| 0 <= j < lb.len() implies data.skip(pos)[j] == lb[j] by {
                assert((lb + eb)[j] == lb[j]);
            }
        }
        lemma_tar_step_entry(data, pos, longlink_name(), lcontent, 0x4c, None);
        let pos2 = pos + 512 + lcontent.len() + pad_of(lcontent.len() as nat);
        assert(pos2 == pos + lb.len());
        assert(tar_step_named(data, pos, None) == tar_step_named(
            data,
            pos2,
            Some(ztrim(lcontent)),
        ));
        lemma_ztrim(lcontent, nb.len() as int);
        assert(lcontent.take(nb.len() as int) =~= nb);
        assert(ztrim(lcontent) == nb);
        assert(data.skip(pos2).take(eb.len() as int) =~= eb) by {
            assert forall|j: int| 0 <= j < eb.len() implies data.skip(pos2)[j] == eb[j] by {
                assert(data.skip(pos2)[j] == data[pos2 + j]);
                assert(data.skip(pos)[lb.len() + j] == data[pos + lb.len() + j]);
                assert((lb + eb)[lb.len() + j] == eb[j]);
            }
        }
        assert(pos2 + eb.len() <= data.len());
        lemma_tar_step_entry(data, pos2, nb.take(100), f.content@, 0x30, Some(nb));
        assert(tar_step_named(data, pos2, Some(nb)) == (TarStep::File {
            name: nb,
            content: f.content@,
            next: pos2 + 512 + clen + pad_of(clen),
        }));
        assert(pos + rb.len() == pos2 + 512 + clen + pad_of(clen));
    }
}

/// Decoding a written stream yields exactly the written records, from any
/// position where the remaining stream is the written tail.
#[verifier::rlimit(100)]
#[verifier::spinoff_prover]
proof fn lemma_tar_all_entries(data: Seq<u8>, pos: int, files: Seq<TemplateFile>)
    requires
        0 <= pos <= data.len(),
        data.skip(pos) == tar_stream_of(files),
        recoverable_records(files),
    ensures
        tar_all(data, pos) == Some(pairs_of(files)),
    decreases files.len(),
{
    if files.len() == 0 {
        assert(tar_stream_of(files) =~= zeros(1024));
        assert(pos + 512 <= data.len());
        let h = data.subrange(pos, pos + 512);
        assert forall|j: int| 0 <= j < 512 implies h[j] == 0 by {
            assert(data.skip(pos)[j] == data[pos + j]);
            assert(zeros(1024)[j] == 0);
        }
        assert(is_zero_block(h));
        assert(tar_step_named(data, pos, None) == TarStep::End);
        assert(tar_all(data, pos) == Some(Seq::<(Seq<char>, Seq<u8>)>::empty()));
        assert(pairs_of(files) =~= Seq::<(Seq<char>, Seq<u8>)>::empty());
    } else {
        let f = files[0];
        assert(entry_recoverable(f));
        let nb = vstd::utf8::encode_utf8(f.path@);
        let rb = record_bytes(f);
        let rest_stream = tar_stream_of(files.drop_first());
        assert(entries_bytes(files) == rb + entries_bytes(files.drop_first()));
        assert(data.skip(pos) =~= rb + rest_stream) by {
            assert(tar_stream_of(files) =~= rb + rest_stream);
        }
        assert(pos + rb.len() <= data.len()) by {
            assert(data.skip(pos).len() == rb.len() + rest_stream.len());
        }
        assert(data.skip(pos).take(rb.len() as int) =~= rb) by {
            assert forall|j: int| 0 <= j < rb.len() implies data.skip(pos)[j] == rb[j] by {
                assert((rb + rest_stream)[j] == rb[j]);
            }
        }
        lemma_tar_record_step(data, pos, f);
        let next = pos + rb.len();
        assert(tar_next_file(data, pos) == (TarNext::File {
            name: nb,
            content: f.content@,
            next: next,
        }));
        vstd::utf8::encode_utf8_valid_utf8(f.path@);
        vstd::utf8::encode_utf8_decode_utf8(f.path@);
        assert(data.skip(next) =~= rest_stream) by {
            assert(next - pos == rb.len());
            assert forall|j: int| 0 <= j < data.len() - next implies data.skip(next)[j]
                == rest_stream[j] by {
                assert(data.skip(pos)[rb.len() + j] == data[pos + rb.len() + j]);
                assert((rb + rest_stream)[rb.len() + j] == rest_stream[j]);
            }
        }
        assert(forall|i: int|
            0 <= i < files.drop_first().len() ==> files.drop_first()[i] == files[i + 1]);
        assert(recoverable_records(files.drop_first()));
        lemma_tar_all_entries(data, next, files.drop_first());
        assert(tar_all(data, pos) == Some(
            seq![(f.path@, f.content@)] + pairs_of(files.drop_first()),
        ));
        assert(seq![(f.path@, f.content@)] + pairs_of(files.drop_first()) =~= pairs_of(files));
    }
}

/// Round trip: an archive written from recoverable records decodes back to
/// exactly those records, in order.
pub proof fn lemma_tar_round_trip(files: Seq<TemplateFile>)
    requires
        recoverable_records(files),
    ensures
        tar_all(tar_stream_of(files), 0) == Some(pairs_of(files)),
{
    let data = tar_stream_of(files);
    assert(data.skip(0) =~= data);
    lemma_tar_all_entries(data, 0, files);
}

} // verus!
