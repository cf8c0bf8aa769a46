//! The boot-time ustar initramfs: a boot module named `initramfs`, parsed
//! once into a table of its regular files.
use vstd::prelude::*;
use vstd::utf8::valid_utf8;
use vstd::string::StringSliceAdditionalSpecFns;
use vstd::slice::{slice_subrange, slice_to_vec};

verus! {

/// ustar's block size: headers and padded file contents.
pub const BLOCK_SIZE: usize = 512;

/// Why an archive was rejected.
#[derive(Debug, Clone, Copy, PartialEq, Eq, Structural)]
pub enum UstarError {
    /// A header's checksum field is unreadable or doesn't match.
    BadChecksum,
    /// A size field is unreadable, or a file's content runs past the end.
    Truncated,
    /// A file path is absolute or has a `..` component.
    UnsafePath,
}

/// One regular file of the archive.
#[derive(Debug)]
pub struct Entry {
    pub path: String,
    pub data: Vec<u8>,
}

/// `core::str::from_utf8`: the bytes as a string slice exactly when they
/// are valid UTF-8 (as the standard library documents), with the same
/// bytes.
#[verifier::external_body]
pub(crate) fn str_from_utf8(bytes: &[u8]) -> (r: Option<&str>)
    ensures
        r.is_some() == valid_utf8(bytes@),
        r matches Some(s) ==> s.spec_bytes() == bytes@,
{
    core::str::from_utf8(bytes).ok()
}

/// Where a NUL-terminated field ends: its first NUL, else its length.
pub open spec fn nul_end(f: Seq<u8>) -> int
    decreases f.len(),
{
    if f.len() == 0 {
        0
    } else if f[0] == 0 {
        0
    } else {
        1 + nul_end(f.drop_first())
    }
}

/// A NUL-terminated field's bytes up to the NUL, or none if they aren't
/// valid UTF-8.
pub open spec fn cstr_bytes(f: Seq<u8>) -> Seq<u8> {
    let s = f.subrange(0, nul_end(f));
    if valid_utf8(s) { s } else { Seq::empty() }
}

/// A ustar numeric field read from index `i` on, with `value` so far and
/// `seen` whether a digit was read: octal digits, leading NUL/space
/// padding skipped, a NUL/space after a digit ends it, anything else (or
/// overflow) is `None`.
pub open spec fn octal_from(f: Seq<u8>, i: int, value: int, seen: bool) -> Option<u64>
    decreases f.len() - i,
{
    if i >= f.len() || i < 0 {
        Some(value as u64)
    } else if 0x30 <= f[i] <= 0x37 {
        let v = value * 8 + (f[i] - 0x30);
        if v > u64::MAX { None } else { octal_from(f, i + 1, v, true) }
    } else if f[i] == 0 || f[i] == 0x20 {
        if !seen { octal_from(f, i + 1, value, seen) } else { Some(value as u64) }
    } else {
        None
    }
}

/// A ustar numeric field's value.
pub open spec fn octal(f: Seq<u8>) -> Option<u64> {
    octal_from(f, 0, 0, false)
}

/// The sum of the header's first `n` bytes, the checksum field (bytes
/// 148..156) counted as ASCII spaces.
pub open spec fn checksum_prefix(h: Seq<u8>, n: int) -> int
    decreases n,
{
    if n <= 0 {
        0
    } else {
        checksum_prefix(h, n - 1) + if 148 <= n - 1 < 156 { 0x20 } else { h[n - 1] as int }
    }
}

/// Whether `p` has a `..` path component.
pub open spec fn has_dotdot(p: Seq<u8>) -> bool {
    exists|i: int| 0 <= i && i + 2 <= p.len() && #[trigger] p[i] == 0x2E && p[i + 1] == 0x2E
        && (i == 0 || p[i - 1] == 0x2F) && (i + 2 == p.len() || p[i + 2] == 0x2F)
}

/// A path is safe to store: not absolute, no `..` component.
pub open spec fn safe_path(p: Seq<u8>) -> bool {
    !(p.len() > 0 && p[0] == 0x2F) && !has_dotdot(p)
}

/// The path a header names: `prefix/name`, or just `name` without a
/// prefix (none if the joined bytes aren't valid UTF-8).
pub open spec fn joined_path(h: Seq<u8>) -> Seq<u8> {
    let name = cstr_bytes(h.subrange(0, 100));
    let prefix = cstr_bytes(h.subrange(345, 500));
    let j = if prefix.len() == 0 { name } else { prefix + seq![0x2Fu8] + name };
    if valid_utf8(j) { j } else { Seq::empty() }
}

/// One parsed file: its path bytes and where its content lies in the
/// archive.
pub type FileSpec = (Seq<u8>, int, int);

/// Parsing the archive `d` from `offset` on, given the files found so far.
pub open spec fn parse_from(d: Seq<u8>, offset: int, acc: Seq<FileSpec>) -> Result<Seq<FileSpec>, UstarError>
    decreases (if offset <= d.len() { d.len() - offset } else { 0 }),
{
    if offset < 0 || offset + 512 > d.len() {
        Ok(acc)
    } else {
        let h = d.subrange(offset, offset + 512);
        if forall|k: int| 0 <= k < 512 ==> #[trigger] h[k] == 0 {
            Ok(acc)
        } else {
            match octal(h.subrange(148, 156)) {
                None => Err(UstarError::BadChecksum),
                Some(stored) => if checksum_prefix(h, 512) != stored {
                    Err(UstarError::BadChecksum)
                } else {
                    match octal(h.subrange(124, 136)) {
                        None => Err(UstarError::Truncated),
                        Some(sz) => {
                            let size = sz as usize as int;
                            let start = offset + 512;
                            let end = start + size;
                            if end > usize::MAX || end > d.len() {
                                Err(UstarError::Truncated)
                            } else {
                                let tf = h[156];
                                let padded = (size + 511) / 512 * 512;
                                let next = start + padded;
                                proof {
                                    assert((size + 511) / 512 * 512 >= 0) by (nonlinear_arith) requires size >= 0;
                                }
                                if (tf == 0x30 || tf == 0) && !safe_path(joined_path(h)) {
                                    Err(UstarError::UnsafePath)
                                } else if next > usize::MAX {
                                    Err(UstarError::Truncated)
                                } else {
                                    let acc2 = if tf == 0x30 || tf == 0 { acc.push((joined_path(h), start, end)) } else { acc };
                                    parse_from(d, next, acc2)
                                }
                            }
                        }
                    }
                },
            }
        }
    }
}

/// File `e` of archive `d` was recorded from a regular-file header: the
/// 512-byte header just before its content has type flag `'0'` or NUL and
/// names its path.
pub open spec fn from_regular_header(d: Seq<u8>, e: FileSpec) -> bool {
    exists|off: int| #![trigger d.subrange(off, off + 512)]
        0 <= off && off + 512 <= d.len() && e.1 == off + 512
        && (d[off + 156] == 0x30 || d[off + 156] == 0)
        && e.0 == joined_path(d.subrange(off, off + 512))
}

/// Parsing on from `offset` only adds files of regular-file headers.
proof fn lemma_parse_from_regular(d: Seq<u8>, offset: int, acc: Seq<FileSpec>)
    requires
        forall|i: int| 0 <= i < acc.len() ==> from_regular_header(d, #[trigger] acc[i]),
    ensures
        parse_from(d, offset, acc) matches Ok(fs) ==> forall|i: int| 0 <= i < fs.len() ==> from_regular_header(d, #[trigger] fs[i]),
    decreases (if offset <= d.len() { d.len() - offset } else { 0 }),
{
    if offset < 0 || offset + 512 > d.len() {
    } else {
        let h = d.subrange(offset, offset + 512);
        if forall|k: int| 0 <= k < 512 ==> #[trigger] h[k] == 0 {
        } else {
            match octal(h.subrange(148, 156)) {
                None => {},
                Some(stored) => if checksum_prefix(h, 512) != stored {
                } else {
                    match octal(h.subrange(124, 136)) {
                        None => {},
                        Some(sz) => {
                            let size = sz as usize as int;
                            let start = offset + 512;
                            let end = start + size;
                            if end > usize::MAX || end > d.len() {
                            } else {
                                let tf = h[156];
                                let padded = (size + 511) / 512 * 512;
                                let next = start + padded;
                                assert((size + 511) / 512 * 512 >= 0) by (nonlinear_arith) requires size >= 0;
                                if (tf == 0x30 || tf == 0) && !safe_path(joined_path(h)) {
                                } else if next > usize::MAX {
                                } else {
                                    let acc2 = if tf == 0x30 || tf == 0 { acc.push((joined_path(h), start, end)) } else { acc };
                                    assert forall|i: int| 0 <= i < acc2.len() implies from_regular_header(d, #[trigger] acc2[i]) by {
                                        if i < acc.len() {
                                            assert(acc2[i] == acc[i]);
                                        } else {
                                            assert(d[offset + 156] == h[156]);
                                            assert(from_regular_header(d, acc2[i])) by {
                                                assert(d.subrange(offset, offset + 512) == h);
                                            }
                                        }
                                    }
                                    lemma_parse_from_regular(d, next, acc2);
                                }
                            }
                        },
                    }
                },
            }
        }
    }
}

/// Only regular files are recorded: every file `parse` finds comes from a
/// header whose type flag is `'0'` or NUL (directories, links and other
/// entries are skipped), and is named by that header.
pub proof fn law_parse_keeps_only_regular_files(d: Seq<u8>)
    ensures
        parse_spec(d) matches Ok(fs) ==> forall|i: int| 0 <= i < fs.len() ==> from_regular_header(d, #[trigger] fs[i]),
{
    lemma_parse_from_regular(d, 0, Seq::empty());
}

/// What `parse` makes of archive `d`.
pub open spec fn parse_spec(d: Seq<u8>) -> Result<Seq<FileSpec>, UstarError> {
    parse_from(d, 0, Seq::empty())
}

/// The files `v` hold exactly what the specs `s` describe in archive `d`.
pub open spec fn entries_match(v: Seq<Entry>, s: Seq<FileSpec>, d: Seq<u8>) -> bool {
    &&& v.len() == s.len()
    &&& forall|i: int| 0 <= i < v.len() ==> {
        &&& (#[trigger] v[i]).path@.len() >= 0
        &&& vstd::utf8::encode_utf8(v[i].path@) == s[i].0
        &&& v[i].data@ == d.subrange(s[i].1, s[i].2)
    }
}

/// The header checksum: the sum of all 512 bytes, with the checksum field
/// itself counted as ASCII spaces.
fn checksum(header: &[u8]) -> (r: u64)
    requires
        header@.len() == 512,
    ensures
        r == checksum_prefix(header@, 512),
{
    let mut sum: u64 = 0;
    let mut i: usize = 0;
    while i < 512
        invariant
            i <= 512,
            header@.len() == 512,
            sum == checksum_prefix(header@, i as int),
            sum <= i * 255,
        decreases 512 - i,
    {
        let b: u64 = if 148 <= i && i < 156 { 0x20 } else { header[i] as u64 };
        sum = sum + b;
        i = i + 1;
    }
    sum
}

/// Reads a ustar numeric field (see `octal`).
fn parse_octal(field: &[u8]) -> (r: Option<u64>)
    ensures
        r == octal(field@),
{
    let mut value: u64 = 0;
    let mut seen_digit = false;
    let mut i: usize = 0;
    while i < field.len()
        invariant
            i <= field@.len(),
            octal(field@) == octal_from(field@, i as int, value as int, seen_digit),
        decreases field.len() - i,
    {
        let b = field[i];
        if 0x30 <= b && b <= 0x37 {
            let m = match value.checked_mul(8) {
                Some(m) => m,
                None => return None,
            };
            value = match m.checked_add((b - 0x30) as u64) {
                Some(v) => v,
                None => return None,
            };
            seen_digit = true;
        } else if b == 0 || b == 0x20 {
            if seen_digit {
                return Some(value);
            }
        } else {
            return None;
        }
        i = i + 1;
    }
    Some(value)
}

/// Whether `path` is safe to store: not absolute and no `..` component.
fn is_safe_path(path: &[u8]) -> (r: bool)
    ensures
        r == safe_path(path@),
{
    let n = path.len();
    if n > 0 && path[0] == 0x2F {
        return false;
    }
    let mut i: usize = 0;
    while i < n && n - i >= 2
        invariant
            n == path@.len(),
            forall|j: int| 0 <= j < i && j + 2 <= n ==> !(#[trigger] path@[j] == 0x2E && path@[j + 1] == 0x2E
                && (j == 0 || path@[j - 1] == 0x2F) && (j + 2 == n || path@[j + 2] == 0x2F)),
        decreases n - i,
    {
        if path[i] == 0x2E && path[i + 1] == 0x2E && (i == 0 || path[i - 1] == 0x2F) && (i + 2 == n || path[i + 2] == 0x2F) {
            return false;
        }
        i = i + 1;
    }
    true
}

/// A NUL-terminated field's bytes up to the NUL (see `cstr_bytes`).
fn cstr(bytes: &[u8]) -> (r: &str)
    ensures
        r.spec_bytes() == cstr_bytes(bytes@),
{
    let mut end: usize = 0;
    proof {
        assert(bytes@.subrange(0, bytes@.len() as int) =~= bytes@);
    }
    while end < bytes.len() && bytes[end] != 0
        invariant
            end <= bytes@.len(),
            nul_end(bytes@) == end + nul_end(bytes@.subrange(end as int, bytes@.len() as int)),
        decreases bytes.len() - end,
    {
        proof {
            assert(bytes@.subrange(end as int, bytes@.len() as int).drop_first()
                =~= bytes@.subrange(end + 1, bytes@.len() as int));
        }
        end = end + 1;
    }
    proof {
        assert(nul_end(bytes@.subrange(end as int, bytes@.len() as int)) == 0);
    }
    let s = slice_subrange(bytes, 0, end);
    match str_from_utf8(s) {
        Some(t) => t,
        None => {
            proof {
                reveal_strlit("");
            }
            ""
        },
    }
}

/// The path bytes of `header` (see `joined_path`) as a `String`.
fn header_path(header: &[u8]) -> (r: String)
    requires
        header@.len() == 512,
    ensures
        vstd::utf8::encode_utf8(r@) == joined_path(header@),
{
    let name_field = slice_subrange(header, 0, 100);
    let prefix_field = slice_subrange(header, 345, 500);
    let name = cstr(name_field);
    let prefix = cstr(prefix_field);
    let mut joined: Vec<u8> = Vec::new();
    let pb = prefix.as_bytes();
    let nb = name.as_bytes();
    if pb.len() > 0 {
        let mut k: usize = 0;
        while k < pb.len()
            invariant
                k <= pb@.len(),
                joined@ == pb@.subrange(0, k as int),
            decreases pb.len() - k,
        {
            joined.push(pb[k]);
            k = k + 1;
        }
        joined.push(0x2F);
    }
    let ghost base = joined@;
    let mut k: usize = 0;
    while k < nb.len()
        invariant
            k <= nb@.len(),
            joined@ == base + nb@.subrange(0, k as int),
        decreases nb.len() - k,
    {
        joined.push(nb[k]);
        k = k + 1;
    }
    proof {
        assert(prefix_field@ =~= header@.subrange(345, 500));
        assert(name_field@ =~= header@.subrange(0, 100));
        assert(pb@ == cstr_bytes(header@.subrange(345, 500)));
        assert(nb@ == cstr_bytes(header@.subrange(0, 100)));
        assert(nb@.subrange(0, nb@.len() as int) =~= nb@);
        assert(pb@.subrange(0, pb@.len() as int) =~= pb@);
        if pb@.len() == 0 {
            assert(joined@ =~= nb@);
        } else {
            assert(joined@ =~= pb@ + seq![0x2Fu8] + nb@);
        }
    }
    match str_from_utf8(joined.as_slice()) {
        Some(t) => t.to_owned(),
        None => {
            let e = String::new();
            proof {
                assert(e@ == Seq::<char>::empty());
                assert(vstd::utf8::encode_utf8(Seq::<char>::empty()) =~= Seq::<u8>::empty());
            }
            e
        },
    }
}

/// Parses a ustar archive into its regular files (`'0'` or NUL type
/// flag), in archive order, stopping at the first all-zero header or when
/// no whole header is left. Directories and other entries are skipped.
pub fn parse(data: &[u8]) -> (r: Result<Vec<Entry>, UstarError>)
    ensures
        match parse_spec(data@) {
            Ok(files) => r matches Ok(v) && entries_match(v@, files, data@),
            Err(e) => r == Err::<Vec<Entry>, UstarError>(e),
        },
{
    let mut entries: Vec<Entry> = Vec::new();
    let mut offset: usize = 0;
    let ghost mut acc: Seq<FileSpec> = Seq::empty();
    while offset <= data.len() && BLOCK_SIZE <= data.len() - offset
        invariant
            parse_spec(data@) == parse_from(data@, offset as int, acc),
            entries_match(entries@, acc, data@),
        ensures
            parse_spec(data@) == Ok::<Seq<FileSpec>, UstarError>(acc),
            entries_match(entries@, acc, data@),
        decreases (if offset <= data.len() { data.len() - offset } else { 0 }),
    {
        let header = slice_subrange(data, offset, offset + BLOCK_SIZE);
        let ghost h = data@.subrange(offset as int, offset + 512);
        proof {
            assert(header@ =~= h);
        }
        let mut all_zero = true;
        let mut k: usize = 0;
        while k < BLOCK_SIZE
            invariant
                k <= 512,
                header@ == h,
                h.len() == 512,
                all_zero == forall|j: int| 0 <= j < k ==> #[trigger] h[j] == 0,
            decreases 512 - k,
        {
            if header[k] != 0 {
                all_zero = false;
            }
            k = k + 1;
        }
        if all_zero {
            proof {
                assert(forall|j: int| 0 <= j < 512 ==> #[trigger] h[j] == 0);
            }
            break;
        }
        let stored = match parse_octal(slice_subrange(header, 148, 156)) {
            Some(v) => v,
            None => return Err(UstarError::BadChecksum),
        };
        if checksum(header) != stored {
            return Err(UstarError::BadChecksum);
        }
        let typeflag = header[156];
        let size = match parse_octal(slice_subrange(header, 124, 136)) {
            Some(v) => v as usize,
            None => return Err(UstarError::Truncated),
        };
        let content_start = offset + BLOCK_SIZE;
        let content_end = match content_start.checked_add(size) {
            Some(e) => e,
            None => return Err(UstarError::Truncated),
        };
        if content_end > data.len() {
            return Err(UstarError::Truncated);
        }
        if typeflag == 0x30 || typeflag == 0 {
            let path = header_path(header);
            let ghost pb = joined_path(h);
            let pbytes = path.as_str().as_bytes();
            proof {
                assert(pbytes@ == pb);
            }
            if !is_safe_path(pbytes) {
                return Err(UstarError::UnsafePath);
            }
            let content = slice_to_vec(slice_subrange(data, content_start, content_end));
            entries.push(Entry { path, data: content });
            proof {
                acc = acc.push((pb, content_start as int, content_end as int));
            }
        }
        let padded = (size / BLOCK_SIZE + if size % BLOCK_SIZE != 0 { 1 } else { 0 }) * BLOCK_SIZE;
        proof {
            assert(padded == (size + 511) / 512 * 512);
        }
        offset = match content_start.checked_add(padded) {
            Some(o) => o,
            None => return Err(UstarError::Truncated),
        };
    }
    Ok(entries)
}

/// The initramfs as the kernel keeps it: every regular file, in archive
/// order, and whether a module was found and parsed.
pub struct Initramfs {
    files: Vec<Entry>,
    present: bool,
}

/// One boot module: its command line and its bytes.
pub struct BootModule {
    pub cmdline: String,
    pub data: Vec<u8>,
}

/// What `init` found.
#[derive(Debug, Clone, Copy, PartialEq, Eq, Structural)]
pub enum InitOutcome {
    /// The boot loader never answered the modules request.
    NoResponse,
    /// No module's command line is `initramfs`.
    NoModule,
    /// Parsed: this many files holding this many bytes.
    Parsed { files: usize, total_bytes: usize },
    /// The module failed to parse.
    Failed(UstarError),
}

impl Initramfs {
    /// No initramfs yet: nothing present, no files.
    pub fn new() -> (r: Self)
        ensures
            !r.present_spec(),
            r.files_spec().len() == 0,
    {
        Initramfs { files: Vec::new(), present: false }
    }

    pub closed spec fn present_spec(&self) -> bool {
        self.present
    }

    pub closed spec fn files_spec(&self) -> Seq<Entry> {
        self.files@
    }
}

/// Whether `init` found and parsed an `initramfs` module.
pub fn is_present(fs: &Initramfs) -> (r: bool)
    ensures
        r == fs.present_spec(),
{
    fs.present
}

/// A string's UTF-8 bytes.
pub open spec fn string_bytes(s: &String) -> Seq<u8> {
    vstd::utf8::encode_utf8(s@)
}

/// The bytes of the module name `init` looks for: `initramfs`.
pub open spec fn initramfs_name() -> Seq<u8> {
    seq![0x69u8, 0x6Eu8, 0x69u8, 0x74u8, 0x72u8, 0x61u8, 0x6Du8, 0x66u8, 0x73u8]
}

/// Whether `s` is exactly `initramfs`.
fn is_initramfs_name(s: &[u8]) -> (r: bool)
    ensures
        r == (s@ == initramfs_name()),
{
    let n: [u8; 9] = [0x69, 0x6E, 0x69, 0x74, 0x72, 0x61, 0x6D, 0x66, 0x73];
    if s.len() != 9 {
        return false;
    }
    let mut i: usize = 0;
    while i < 9
        invariant
            i <= 9,
            s@.len() == 9,
            n@ == initramfs_name(),
            forall|j: int| 0 <= j < i ==> s@[j] == initramfs_name()[j],
        decreases 9 - i,
    {
        if s[i] != n[i] {
            return false;
        }
        i = i + 1;
    }
    assert(s@ =~= initramfs_name());
    true
}

/// Finds the boot module whose command line is `initramfs` (the first
/// such) and parses it into `fs`; on success the initramfs is present.
/// Nothing changes if there is no modules answer, no such module, or the
/// archive fails to parse.
pub fn init(fs: &mut Initramfs, modules: Option<&[BootModule]>) -> (r: InitOutcome)
    ensures
        match r {
            InitOutcome::Parsed { files, .. } => final(fs).present_spec() && final(fs).files_spec().len() == files,
            _ => final(fs).present_spec() == old(fs).present_spec() && final(fs).files_spec() == old(fs).files_spec(),
        },
        modules.is_none() ==> r == InitOutcome::NoResponse,
        (modules matches Some(ms) && forall|i: int| 0 <= i < ms@.len() ==> #[trigger] string_bytes(&ms@[i].cmdline) != initramfs_name())
            ==> r == InitOutcome::NoModule,
        (modules matches Some(ms) && exists|i: int| 0 <= i < ms@.len() && #[trigger] string_bytes(&ms@[i].cmdline) == initramfs_name()) ==> {
            let ms = modules.unwrap();
            let i = choose|i: int| 0 <= i < ms@.len() && #[trigger] string_bytes(&ms@[i].cmdline) == initramfs_name()
                && forall|j: int| 0 <= j < i ==> string_bytes(&ms@[j].cmdline) != initramfs_name();
            match parse_spec(ms@[i].data@) {
                Ok(files) => r matches InitOutcome::Parsed { files: n, .. } && n == files.len()
                    && entries_match(final(fs).files_spec(), files, ms@[i].data@),
                Err(e) => r == InitOutcome::Failed(e),
            }
        },
{
    let ms = match modules {
        Some(ms) => ms,
        None => return InitOutcome::NoResponse,
    };
    let mut i: usize = 0;
    while i < ms.len() && !is_initramfs_name(ms[i].cmdline.as_str().as_bytes())
        invariant
            i <= ms@.len(),
            forall|j: int| 0 <= j < i ==> string_bytes(&ms@[j].cmdline) != initramfs_name(),
        decreases ms.len() - i,
    {
        i = i + 1;
    }
    if i == ms.len() {
        return InitOutcome::NoModule;
    }
    proof {
        let c = choose|c: int| 0 <= c < ms@.len() && #[trigger] string_bytes(&ms@[c].cmdline) == initramfs_name()
            && forall|j: int| 0 <= j < c ==> string_bytes(&ms@[j].cmdline) != initramfs_name();
        assert(0 <= i < ms@.len() && string_bytes(&ms@[i as int].cmdline) == initramfs_name()
            && forall|j: int| 0 <= j < i ==> string_bytes(&ms@[j].cmdline) != initramfs_name());
        assert(c == i) by {
            if c < i { assert(string_bytes(&ms@[c].cmdline) != initramfs_name()); }
            if c > i { assert(string_bytes(&ms@[i as int].cmdline) != initramfs_name()); }
        }
    }
    match parse(ms[i].data.as_slice()) {
        Ok(entries) => {
            let mut total_bytes: usize = 0;
            let mut k: usize = 0;
            while k < entries.len()
                invariant
                    k <= entries@.len(),
                decreases entries.len() - k,
            {
                total_bytes = total_bytes.saturating_add(entries[k].data.len());
                k = k + 1;
            }
            let n = entries.len();
            fs.files = entries;
            fs.present = true;
            InitOutcome::Parsed { files: n, total_bytes }
        },
        Err(e) => InitOutcome::Failed(e),
    }
}

/// `path` with every leading `/` removed.
pub open spec fn trim_slashes(p: Seq<u8>) -> Seq<u8>
    decreases p.len(),
{
    if p.len() > 0 && p[0] == 0x2F { trim_slashes(p.drop_first()) } else { p }
}

/// The index of the first file whose path is `p`, if any.
pub open spec fn first_match(files: Seq<Entry>, p: Seq<u8>, i: int) -> bool {
    &&& 0 <= i < files.len()
    &&& vstd::utf8::encode_utf8(files[i].path@) == p
    &&& forall|j: int| 0 <= j < i ==> vstd::utf8::encode_utf8(#[trigger] files[j].path@) != p
}

/// The contents of the file at `path` (leading `/`s ignored; archive paths
/// have none), or `None` if the initramfs has no such regular file.
pub fn open<'a>(fs: &'a Initramfs, path: &str) -> (r: Option<&'a [u8]>)
    ensures
        ({
            let p = trim_slashes(path.spec_bytes());
            if exists|i: int| first_match(fs.files_spec(), p, i) {
                let i = choose|i: int| first_match(fs.files_spec(), p, i);
                r matches Some(d) && d@ == fs.files_spec()[i].data@
            } else {
                r.is_none()
            }
        }),
{
    let bytes = path.as_bytes();
    let mut start: usize = 0;
    proof {
        assert(bytes@.subrange(0, bytes@.len() as int) =~= bytes@);
    }
    while start < bytes.len() && bytes[start] == 0x2F
        invariant
            start <= bytes@.len(),
            trim_slashes(bytes@) == trim_slashes(bytes@.subrange(start as int, bytes@.len() as int)),
        decreases bytes.len() - start,
    {
        proof {
            assert(bytes@.subrange(start as int, bytes@.len() as int).drop_first() =~= bytes@.subrange(start + 1, bytes@.len() as int));
        }
        start = start + 1;
    }
    let want = slice_subrange(bytes, start, bytes.len());
    proof {
        assert(trim_slashes(want@) == want@);
    }
    let mut i: usize = 0;
    while i < fs.files.len()
        invariant
            i <= fs.files@.len(),
            want@ == trim_slashes(path.spec_bytes()),
            forall|j: int| 0 <= j < i ==> vstd::utf8::encode_utf8(#[trigger] fs.files@[j].path@) != want@,
        decreases fs.files.len() - i,
    {
        let candidate = fs.files[i].path.as_str().as_bytes();
        if bytes_eq(candidate, want) {
            proof {
                let c = choose|c: int| first_match(fs.files_spec(), want@, c);
                assert(first_match(fs.files_spec(), want@, i as int));
                assert(c == i) by {
                    if c < i { assert(vstd::utf8::encode_utf8(fs.files@[c].path@) != want@); }
                    if c > i { assert(vstd::utf8::encode_utf8(fs.files@[i as int].path@) != want@); }
                }
            }
            return Some(fs.files[i].data.as_slice());
        }
        i = i + 1;
    }
    None
}

/// Byte-wise equality of two slices.
fn bytes_eq(a: &[u8], b: &[u8]) -> (r: bool)
    ensures
        r == (a@ == b@),
{
    if a.len() != b.len() {
        return false;
    }
    let mut i: usize = 0;
    while i < a.len()
        invariant
            i <= a@.len(),
            a@.len() == b@.len(),
            forall|j: int| 0 <= j < i ==> a@[j] == b@[j],
        decreases a.len() - i,
    {
        if a[i] != b[i] {
            return false;
        }
        i = i + 1;
    }
    assert(a@ =~= b@);
    true
}

/// Every regular file's path, in archive order.
pub fn list(fs: &Initramfs) -> (r: Vec<String>)
    ensures
        r@.len() == fs.files_spec().len(),
        forall|i: int| 0 <= i < r@.len() ==> (#[trigger] r@[i])@ == fs.files_spec()[i].path@,
{
    let mut out: Vec<String> = Vec::new();
    let mut i: usize = 0;
    while i < fs.files.len()
        invariant
            i <= fs.files@.len(),
            out@.len() == i,
            forall|j: int| 0 <= j < i ==> (#[trigger] out@[j])@ == fs.files@[j].path@,
        decreases fs.files.len() - i,
    {
        out.push(fs.files[i].path.clone());
        i = i + 1;
    }
    out
}

} // verus!
