//! Reading a file for display, under a size limit.

use vstd::prelude::*;
use vstd::string::*;
use vstd::utf8::*;

use crate::text::{
    ascii_of, chars_of, decimal, is_space, lemma_numbers_are_digits, lemma_numbers_read_back, lemma_the_end_comes_off,
    lemma_the_start_comes_off, lossy, text_of, lower_ascii, lowered, number_in, parse_uint, quoted,
    quoted_text, starts_with, string_of, strip_end, strip_start, stripped_end, stripped_start, utf8_text,
};

verus! {

/// How much of a file is worth sending to a viewer.
#[derive(Debug, Clone, Copy, PartialEq, Eq, Structural)]
pub struct PreviewOptions {
    pub max_bytes: u64,
}

pub const DEFAULT_MAX_BYTES: u64 = 1024 * 1024;

impl Default for PreviewOptions {
    fn default() -> (o: PreviewOptions)
        ensures
            o.max_bytes == DEFAULT_MAX_BYTES,
    {
        PreviewOptions { max_bytes: DEFAULT_MAX_BYTES }
    }
}

/// What a client already holds, so the server can skip resending it.
///
/// Size and mtime together: either changing means the bytes may have, and
/// neither is expensive to carry.
#[derive(Debug, Clone, Copy, PartialEq, Eq, Structural)]
pub struct Stamp {
    pub size: u64,
    /// Milliseconds since the epoch, or 0 where the platform has no mtime.
    pub mtime: i64,
}

impl Stamp {
    /// The stamp of a file this large, last changed this many milliseconds
    /// after the epoch.
    pub fn of(size: u64, modified: Option<u128>) -> (s: Stamp)
        ensures
            s.size == size,
            s.mtime == (match modified {
                Some(ms) => ms as i64,
                None => 0,
            }),
    {
        let mtime: i64 = match modified {
            Some(ms) => {
                #[verifier::truncate]
                let t: i64 = ms as i64;
                t
            }
            None => 0,
        };
        Stamp { size, mtime }
    }
}

#[derive(Debug)]
pub enum Preview {
    /// The caller's copy is still good.
    Unchanged,
    /// The contents, as text.
    Text {
        stamp: Stamp,
        content: String,
        /// True when the file was valid UTF-8 only after replacing bad bytes.
        lossy: bool,
    },
    TooLarge { size: u64, limit: u64 },
    Binary { size: u64 },
    Unreadable { reason: String },
}

/// What looking at a file gave.
pub enum Looked {
    /// It could not be looked at, for the reason given.
    Failed(String),
    Dir,
    File(Stamp),
}

/// How far in to look for a NUL before calling a file text.
pub const SNIFF: usize = 8192;

/// Whether bytes begin the way a format does that is unmistakably not text but
/// can be entirely printable for its first few kilobytes. A minimal PDF has no
/// NUL byte anywhere.
pub open spec fn has_binary_magic(b: Seq<u8>) -> bool {
    // %PDF-
    ||| seq![0x25u8, 0x50u8, 0x44u8, 0x46u8, 0x2du8].is_prefix_of(b)
    // A zip.
    ||| seq![0x50u8, 0x4bu8, 0x03u8, 0x04u8].is_prefix_of(b)
    // A png.
    ||| seq![0x89u8, 0x50u8, 0x4eu8, 0x47u8].is_prefix_of(b)
    // A jpeg.
    ||| seq![0xffu8, 0xd8u8, 0xffu8].is_prefix_of(b)
    // GIF8
    ||| seq![0x47u8, 0x49u8, 0x46u8, 0x38u8].is_prefix_of(b)
    // An ELF file.
    ||| seq![0x7fu8, 0x45u8, 0x4cu8, 0x46u8].is_prefix_of(b)
    // A gzip.
    ||| seq![0x1fu8, 0x8bu8].is_prefix_of(b)
    // OggS
    ||| seq![0x4fu8, 0x67u8, 0x67u8, 0x53u8].is_prefix_of(b)
    // RIFF
    ||| seq![0x52u8, 0x49u8, 0x46u8, 0x46u8].is_prefix_of(b)
    // A class file, or a fat Mach-O.
    ||| seq![0xcau8, 0xfeu8, 0xbau8, 0xbeu8].is_prefix_of(b)
    // BZh
    ||| seq![0x42u8, 0x5au8, 0x68u8].is_prefix_of(b)
    // An xz.
    ||| seq![0xfdu8, 0x37u8, 0x7au8, 0x58u8, 0x5au8].is_prefix_of(b)
    // MZ
    ||| seq![0x4du8, 0x5au8].is_prefix_of(b)
}

/// Whether there is a NUL early on.
pub open spec fn has_early_nul(b: Seq<u8>) -> bool {
    exists|k: int| 0 <= k < b.len() && k < SNIFF && #[trigger] b[k] == 0
}

/// Whether bytes are not text. A NUL byte early on is the cheap, conventional
/// test, and it misses formats that stay printable at the start.
pub open spec fn is_binary(b: Seq<u8>) -> bool {
    has_early_nul(b) || has_binary_magic(b)
}

fn magic(b: &[u8]) -> (r: bool)
    ensures
        r == has_binary_magic(b@),
{
    let pdf: [u8; 5] = [0x25, 0x50, 0x44, 0x46, 0x2d];
    let zip: [u8; 4] = [0x50, 0x4b, 0x03, 0x04];
    let png: [u8; 4] = [0x89, 0x50, 0x4e, 0x47];
    let jpeg: [u8; 3] = [0xff, 0xd8, 0xff];
    let gif: [u8; 4] = [0x47, 0x49, 0x46, 0x38];
    let elf: [u8; 4] = [0x7f, 0x45, 0x4c, 0x46];
    let gzip: [u8; 2] = [0x1f, 0x8b];
    let ogg: [u8; 4] = [0x4f, 0x67, 0x67, 0x53];
    let riff: [u8; 4] = [0x52, 0x49, 0x46, 0x46];
    let class: [u8; 4] = [0xca, 0xfe, 0xba, 0xbe];
    let bzip: [u8; 3] = [0x42, 0x5a, 0x68];
    let xz: [u8; 5] = [0xfd, 0x37, 0x7a, 0x58, 0x5a];
    let mz: [u8; 2] = [0x4d, 0x5a];
    proof {
        assert(pdf@ =~= seq![0x25u8, 0x50u8, 0x44u8, 0x46u8, 0x2du8]);
        assert(zip@ =~= seq![0x50u8, 0x4bu8, 0x03u8, 0x04u8]);
        assert(png@ =~= seq![0x89u8, 0x50u8, 0x4eu8, 0x47u8]);
        assert(jpeg@ =~= seq![0xffu8, 0xd8u8, 0xffu8]);
        assert(gif@ =~= seq![0x47u8, 0x49u8, 0x46u8, 0x38u8]);
        assert(elf@ =~= seq![0x7fu8, 0x45u8, 0x4cu8, 0x46u8]);
        assert(gzip@ =~= seq![0x1fu8, 0x8bu8]);
        assert(ogg@ =~= seq![0x4fu8, 0x67u8, 0x67u8, 0x53u8]);
        assert(riff@ =~= seq![0x52u8, 0x49u8, 0x46u8, 0x46u8]);
        assert(class@ =~= seq![0xcau8, 0xfeu8, 0xbau8, 0xbeu8]);
        assert(bzip@ =~= seq![0x42u8, 0x5au8, 0x68u8]);
        assert(xz@ =~= seq![0xfdu8, 0x37u8, 0x7au8, 0x58u8, 0x5au8]);
        assert(mz@ =~= seq![0x4du8, 0x5au8]);
    }
    starts_with(b, &pdf) || starts_with(b, &zip) || starts_with(b, &png) || starts_with(b, &jpeg) || starts_with(b, &gif)
        || starts_with(b, &elf) || starts_with(b, &gzip) || starts_with(b, &ogg) || starts_with(b, &riff) || starts_with(
        b,
        &class,
    ) || starts_with(b, &bzip) || starts_with(b, &xz) || starts_with(b, &mz)
}

fn early_nul(b: &[u8]) -> (r: bool)
    ensures
        r == has_early_nul(b@),
{
    let mut i: usize = 0;
    while i < b.len() && i < SNIFF
        invariant
            i <= b@.len(),
            forall|k: int| 0 <= k < i ==> #[trigger] b@[k] != 0,
        decreases b.len() - i,
    {
        if b[i] == 0 {
            assert(b@[i as int] == 0);
            return true;
        }
        i += 1;
    }
    false
}

/// What can be said of a file without reading it.
pub open spec fn answered_early(looked: Looked, opts: PreviewOptions, known: Option<Stamp>) -> bool {
    match looked {
        Looked::File(stamp) => known == Some(stamp) || stamp.size > opts.max_bytes,
        _ => true,
    }
}

/// What a preview says, of a file looked at and, where it came to that, read.
pub open spec fn is_preview(
    p: Preview,
    looked: Looked,
    opts: PreviewOptions,
    known: Option<Stamp>,
    contents: Result<Vec<u8>, String>,
) -> bool {
    match looked {
        Looked::Failed(why) => p matches Preview::Unreadable { reason } && reason@ == why@,
        Looked::Dir => p matches Preview::Unreadable { reason } && reason@ == "is a directory"@,
        Looked::File(stamp) => if known == Some(stamp) {
            p is Unchanged
        } else if stamp.size > opts.max_bytes {
            p matches Preview::TooLarge { size, limit } && size == stamp.size && limit == opts.max_bytes
        } else {
            match contents {
                Err(why) => p matches Preview::Unreadable { reason } && reason@ == why@,
                Ok(bytes) => if is_binary(bytes@) {
                    p matches Preview::Binary { size } && size == stamp.size
                } else {
                    p matches Preview::Text { stamp: s, content, lossy } && s == stamp && lossy == !valid_utf8(bytes@)
                        && content@ == text_of(bytes@)
                },
            }
        },
    }
}

/// Whether the file has to be read at all.
pub fn needs_reading(looked: &Looked, opts: &PreviewOptions, known: Option<Stamp>) -> (r: bool)
    ensures
        r == !answered_early(*looked, *opts, known),
{
    match looked {
        Looked::File(stamp) => {
            let same: bool = match known {
                Some(k) => k == *stamp,
                None => false,
            };
            !same && stamp.size <= opts.max_bytes
        }
        _ => false,
    }
}

/// Makes a preview of a file. `contents` is what reading it gave, and is looked
/// at only where [`needs_reading`] said so: a file over the limit is refused
/// without being read.
pub fn read(looked: Looked, opts: &PreviewOptions, known: Option<Stamp>, contents: Result<Vec<u8>, String>) -> (p: Preview)
    ensures
        is_preview(p, looked, *opts, known, contents),
{
    let stamp: Stamp = match looked {
        Looked::Failed(reason) => {
            return Preview::Unreadable { reason };
        }
        Looked::Dir => {
            return Preview::Unreadable { reason: "is a directory".to_owned() };
        }
        Looked::File(stamp) => stamp,
    };
    if let Some(k) = known {
        if k == stamp {
            return Preview::Unchanged;
        }
    }
    let size: u64 = stamp.size;
    if size > opts.max_bytes {
        return Preview::TooLarge { size, limit: opts.max_bytes };
    }
    let bytes: Vec<u8> = match contents {
        Ok(bytes) => bytes,
        Err(reason) => {
            return Preview::Unreadable { reason };
        }
    };
    if early_nul(bytes.as_slice()) || magic(bytes.as_slice()) {
        return Preview::Binary { size };
    }
    match utf8_text(bytes) {
        Ok(content) => Preview::Text { stamp, content, lossy: false },
        Err(bytes) => Preview::Text { stamp, content: lossy(bytes.as_slice()), lossy: true },
    }
}

/// What has been answered without reading does not depend on the contents.
pub proof fn lemma_refused_without_reading(
    p: Preview,
    looked: Looked,
    opts: PreviewOptions,
    known: Option<Stamp>,
    a: Result<Vec<u8>, String>,
    b: Result<Vec<u8>, String>,
)
    requires
        answered_early(looked, opts, known),
        is_preview(p, looked, opts, known, a),
    ensures
        is_preview(p, looked, opts, known, b),
{
}

// -- sizes ----------------------------------------------------------------

/// Whether a character is an ASCII letter.
pub open spec fn is_letter(c: char) -> bool {
    'a' <= c <= 'z' || 'A' <= c <= 'Z'
}

/// A text without the `ib`s it ends in.
pub open spec fn without_ib(s: Seq<char>) -> Seq<char>
    decreases s.len(),
{
    if s.len() >= 2 && s[s.len() - 1] == 'b' && s[s.len() - 2] == 'i' {
        without_ib(s.take(s.len() - 2))
    } else {
        s
    }
}

/// What a size suffix multiplies by. Suffixes are powers of 1024.
pub open spec fn scale_of(unit: Seq<char>) -> Option<nat> {
    if unit.len() == 0 {
        Some(1)
    } else if unit == seq!['k'] {
        Some(1024)
    } else if unit == seq!['m'] {
        Some(1024 * 1024)
    } else if unit == seq!['g'] {
        Some(1024 * 1024 * 1024)
    } else {
        None
    }
}

pub open spec fn space() -> spec_fn(char) -> bool {
    |c: char| is_space(c)
}

/// The number a size begins with.
pub open spec fn size_number(s: Seq<char>) -> Seq<char> {
    stripped_end(stripped_end(s, |c: char| is_letter(c)), space())
}

/// The unit a size ends in: what is left of the suffix, in lower case, without
/// `ib` and `b`.
pub open spec fn size_unit(s: Seq<char>) -> Seq<char> {
    let suffix = lowered(
        stripped_end(stripped_start(s.skip(size_number(s).len() as int), space()), space()),
    );
    stripped_end(without_ib(suffix), |c: char| c == 'b')
}

/// What a size comes to, or why it is not one.
pub open spec fn is_size(given: Seq<char>, r: Result<u64, String>) -> bool {
    let s = stripped_end(stripped_start(given, space()), space());
    match number_in(size_number(s), u64::MAX as nat) {
        None => r matches Err(e) && e@ == quoted_text(s) + " is not a size: expected something like 1m or 512k"@,
        Some(value) => match scale_of(size_unit(s)) {
            None => r matches Err(e) && e@ == "unknown size suffix "@ + quoted_text(size_unit(s)),
            Some(scale) => if value * scale > u64::MAX {
                r matches Err(e) && e@ == quoted_text(s) + " overflows"@
            } else if value * scale == 0 {
                r matches Err(e) && e@ == "a preview limit of zero refuses everything; use --no-preview"@
            } else {
                r matches Ok(n) && n == value * scale
            },
        },
    }
}

fn strip_ib(s: &mut Vec<char>)
    ensures
        final(s)@ == without_ib(old(s)@),
{
    let ghost all = s@;
    while s.len() >= 2 && s[s.len() - 1] == 'b' && s[s.len() - 2] == 'i'
        invariant
            without_ib(s@) == without_ib(all),
        decreases s.len(),
    {
        let ghost before = s@;
        let n: usize = s.len();
        s.truncate(n - 2);
        assert(s@ =~= before.take(before.len() - 2));
    }
}

/// Parses `1m`, `512k`, `2MiB`, `4096`. Suffixes are powers of 1024.
pub fn parse_size(s: &str) -> (r: Result<u64, String>)
    ensures
        is_size(s@, r),
{
    let mut text: Vec<char> = chars_of(s);
    strip_start(&mut text);
    strip_end(&mut text);
    let ghost t = text@;
    let mut digits: Vec<char> = Vec::new();
    digits.extend_from_slice(text.as_slice());
    assert(digits@ =~= t);
    strip_letters(&mut digits);
    strip_end(&mut digits);
    assert(digits@ == size_number(t));
    proof {
        crate::text::lemma_stripped_end_prefix(t, |c: char| is_letter(c));
        crate::text::lemma_stripped_end_prefix(stripped_end(t, |c: char| is_letter(c)), space());
    }
    let mut unit: Vec<char> = Vec::new();
    let mut i: usize = digits.len();
    while i < text.len()
        invariant
            digits@.len() <= i <= text@.len(),
            unit@ == text@.subrange(digits@.len() as int, i as int),
        decreases text.len() - i,
    {
        unit.push(text[i]);
        i += 1;
        assert(text@.subrange(digits@.len() as int, i as int) =~= text@.subrange(digits@.len() as int, i - 1).push(text@[i - 1]));
    }
    assert(unit@ =~= t.skip(digits@.len() as int));
    strip_start(&mut unit);
    strip_end(&mut unit);
    lower_ascii(&mut unit);
    strip_ib(&mut unit);
    strip_b(&mut unit);
    assert(unit@ == size_unit(t));
    let number: Option<u64> = match ascii_of(&digits) {
        Some(bytes) => parse_uint(bytes.as_slice(), u64::MAX),
        None => None,
    };
    let value: u64 = match number {
        Some(value) => value,
        None => {
            let whole: String = string_of(&text);
            let mut e: String = quoted(whole.as_str());
            e.append(" is not a size: expected something like 1m or 512k");
            return Err(e);
        }
    };
    let scale: u64 = if unit.len() == 0 {
        1
    } else if unit.len() == 1 && unit[0] == 'k' {
        assert(unit@ =~= seq!['k']);
        1024
    } else if unit.len() == 1 && unit[0] == 'm' {
        assert(unit@ =~= seq!['m']);
        1024 * 1024
    } else if unit.len() == 1 && unit[0] == 'g' {
        assert(unit@ =~= seq!['g']);
        1024 * 1024 * 1024
    } else {
        proof {
            if unit@ == seq!['k'] || unit@ == seq!['m'] || unit@ == seq!['g'] {
                assert(unit@.len() == 1);
            }
        }
        let mut e: String = "unknown size suffix ".to_owned();
        let other: String = string_of(&unit);
        let q: String = quoted(other.as_str());
        e.append(q.as_str());
        return Err(e);
    };
    let bytes: u64 = match value.checked_mul(scale) {
        Some(bytes) => bytes,
        None => {
            let whole: String = string_of(&text);
            let mut e: String = quoted(whole.as_str());
            e.append(" overflows");
            return Err(e);
        }
    };
    // A limit of zero would refuse every file, which is what --no-preview is
    // for and is never what someone typing a number meant.
    if bytes == 0 {
        return Err("a preview limit of zero refuses everything; use --no-preview".to_owned());
    }
    Ok(bytes)
}

fn strip_letters(s: &mut Vec<char>)
    ensures
        final(s)@ == stripped_end(old(s)@, |c: char| is_letter(c)),
{
    let ghost all = s@;
    let ghost p = |c: char| is_letter(c);
    while s.len() > 0 && letter(s[s.len() - 1])
        invariant
            p == (|c: char| is_letter(c)),
            stripped_end(s@, p) == stripped_end(all, p),
        decreases s.len(),
    {
        let ghost before = s@;
        s.pop();
        assert(s@ =~= before.drop_last());
    }
}

fn strip_b(s: &mut Vec<char>)
    ensures
        final(s)@ == stripped_end(old(s)@, |c: char| c == 'b'),
{
    let ghost all = s@;
    let ghost p = |c: char| c == 'b';
    while s.len() > 0 && s[s.len() - 1] == 'b'
        invariant
            p == (|c: char| c == 'b'),
            stripped_end(s@, p) == stripped_end(all, p),
        decreases s.len(),
    {
        let ghost before = s@;
        s.pop();
        assert(s@ =~= before.drop_last());
    }
}

fn letter(c: char) -> (r: bool)
    ensures
        r == is_letter(c),
{
    ('a' <= c && c <= 'z') || ('A' <= c && c <= 'Z')
}

// -- laws -----------------------------------------------------------------

/// How a unit may be written: the letter, small or capital, by itself or with
/// `b` or `ib` after it; bytes are no letter, or just the `b`.
pub open spec fn spells(unit: Seq<char>, scale: nat) -> bool {
    let rest = if scale == 1 {
        unit
    } else {
        unit.skip(1)
    };
    &&& scale == 1 || unit.len() > 0
    &&& scale == 1 || scale == 1024 && (unit[0] == 'k' || unit[0] == 'K') || scale == 1048576 && (unit[0] == 'm' || unit[0]
        == 'M') || scale == 1073741824 && (unit[0] == 'g' || unit[0] == 'G')
    &&& rest.len() == 0 || rest.len() == 1 && (rest[0] == 'b' || rest[0] == 'B') || scale != 1 && rest.len() == 2 && (rest[0]
        == 'i' || rest[0] == 'I') && (rest[1] == 'b' || rest[1] == 'B')
}

/// Nothing but white space.
pub open spec fn blank(s: Seq<char>) -> bool {
    forall|k: int| #![trigger s[k]] 0 <= k < s.len() ==> is_space(s[k])
}

proof fn lemma_unit_spelled(unit: Seq<char>, scale: nat)
    requires
        spells(unit, scale),
    ensures
        scale_of(stripped_end(without_ib(lowered(unit)), |c: char| c == 'b')) == Some(scale),
{
    let low = lowered(unit);
    let b = |c: char| c == 'b';
    assert(low.len() == unit.len());
    if scale == 1 {
        assert(without_ib(low) == low);
        assert(low =~= Seq::<char>::empty() + low);
        assert forall|k: int| #![trigger low[k]] 0 <= k < low.len() implies b(low[k]) by {
            assert(low[k] == crate::text::small(unit[k]));
        }
        lemma_the_end_comes_off(Seq::empty(), low, b);
    } else {
        assert(low[0] == crate::text::small(unit[0]));
        let letter = low.take(1);
        let rest = unit.skip(1);
        assert forall|k: int| 1 <= k < unit.len() implies low[k] == crate::text::small(rest[k - 1]) by {
            assert(rest[k - 1] == unit[k]);
        }
        if low.len() == 3 {
            assert(low[1] == 'i' && low[2] == 'b');
            assert(low.take(1).len() == 1);
            assert(without_ib(low.take(1)) == low.take(1));
            assert(without_ib(low) == letter);
            assert(letter =~= letter + Seq::<char>::empty());
            lemma_the_end_comes_off(letter, Seq::empty(), b);
        } else {
            assert(without_ib(low) == low) by {
                if low.len() == 2 {
                    assert(low[0] != 'i');
                }
            }
            let tail = low.skip(1);
            assert(low =~= letter + tail);
            assert forall|k: int| #![trigger tail[k]] 0 <= k < tail.len() implies b(tail[k]) by {
                assert(tail[k] == low[k + 1]);
            }
            lemma_the_end_comes_off(letter, tail, b);
        }
        assert(letter =~= seq![low[0]]);
    }
}

/// A size is its number times its unit, whatever white space stands around and
/// between them: a thousand and twenty-four for `k`, that squared for `m` and
/// cubed for `g`. What comes to nothing or to too much is refused.
pub proof fn lemma_a_size_is_a_number_of_units(
    lead: Seq<char>,
    n: nat,
    gap: Seq<char>,
    unit: Seq<char>,
    trail: Seq<char>,
    scale: nat,
    r: Result<u64, String>,
)
    requires
        blank(lead),
        blank(gap),
        blank(trail),
        spells(unit, scale),
        n <= u64::MAX,
        is_size(lead + decimal(n) + gap + unit + trail, r),
    ensures
        1 <= n * scale <= u64::MAX ==> (r matches Ok(bytes) && bytes == n * scale),
        n * scale > u64::MAX || n == 0 ==> r is Err,
{
    let d = decimal(n);
    let given = lead + d + gap + unit + trail;
    let sp = space();
    lemma_numbers_are_digits(n);
    assert('0' <= d[0] <= '9' && '0' <= d[d.len() - 1] <= '9');
    assert(d.last() == d[d.len() - 1]);
    let inner = d + gap + unit;
    let s = if unit.len() > 0 {
        inner
    } else {
        d
    };
    let after = if unit.len() > 0 {
        trail
    } else {
        gap + trail
    };
    assert(given =~= lead + (s + after));
    assert(s[0] == d[0]);
    assert((s + after)[0] == d[0]);
    lemma_the_start_comes_off(lead, s + after, sp);
    assert forall|k: int| #![trigger after[k]] 0 <= k < after.len() implies sp(after[k]) by {
        if unit.len() == 0 {
            if k < gap.len() {
                assert(after[k] == gap[k]);
            } else {
                assert(after[k] == trail[k - gap.len()]);
            }
        }
    }
    lemma_unit_letters(unit, scale);
    if unit.len() > 0 {
        assert(s.last() == unit[unit.len() - 1]);
    }
    assert(!sp(s.last()));
    lemma_the_end_comes_off(s, after, sp);
    assert(stripped_end(stripped_start(given, sp), sp) == s);
    let letters = |c: char| is_letter(c);
    if unit.len() > 0 {
        let front = d + gap;
        assert(s =~= front + unit);
        if gap.len() > 0 {
            assert(front.last() == gap[gap.len() - 1]);
        } else {
            assert(front.last() == d.last());
        }
        assert(!letters(front.last()));
        lemma_the_end_comes_off(front, unit, letters);
        lemma_the_end_comes_off(d, gap, sp);
        assert(size_number(s) == d);
        let behind = s.skip(d.len() as int);
        assert(behind =~= gap + unit);
        lemma_the_start_comes_off(gap, unit, sp);
        assert(unit =~= unit + Seq::<char>::empty());
        lemma_the_end_comes_off(unit, Seq::empty(), sp);
        assert(size_unit(s) == stripped_end(without_ib(lowered(unit)), |c: char| c == 'b'));
    } else {
        let none = Seq::<char>::empty();
        assert(d =~= d + none);
        lemma_the_end_comes_off(d, none, letters);
        lemma_the_end_comes_off(d, none, sp);
        assert(size_number(s) == d);
        assert(s.skip(d.len() as int) =~= none);
        assert(none =~= none + none);
        assert(unit =~= none);
        assert(size_unit(s) == stripped_end(without_ib(lowered(unit)), |c: char| c == 'b'));
    }
    lemma_unit_spelled(unit, scale);
    lemma_numbers_read_back(n, u64::MAX as nat);
    assert(n == 0 ==> n * scale == 0);
}

proof fn lemma_unit_letters(unit: Seq<char>, scale: nat)
    requires
        spells(unit, scale),
    ensures
        forall|k: int| #![trigger unit[k]] 0 <= k < unit.len() ==> is_letter(unit[k]) && !is_space(unit[k]),
{
    assert forall|k: int| #![trigger unit[k]] 0 <= k < unit.len() implies is_letter(unit[k]) && !is_space(unit[k]) by {
        if scale != 1 && k > 0 {
            assert(unit.skip(1)[k - 1] == unit[k]);
        }
    }
}

/// A letter that is no unit makes a size nothing: only `b`, `k`, `m` and `g`,
/// small or capital, stand for one.
pub proof fn lemma_other_letters_are_no_units(n: nat, c: char, r: Result<u64, String>)
    requires
        'a' <= c <= 'z' || 'A' <= c <= 'Z',
        c != 'b' && c != 'k' && c != 'm' && c != 'g',
        c != 'B' && c != 'K' && c != 'M' && c != 'G',
        n <= u64::MAX,
        is_size(decimal(n).push(c), r),
    ensures
        r is Err,
{
    let d = decimal(n);
    let s = d.push(c);
    let unit = seq![c];
    let none = Seq::<char>::empty();
    let sp = space();
    let letters = |x: char| is_letter(x);
    lemma_numbers_are_digits(n);
    assert('0' <= d[0] <= '9' && '0' <= d[d.len() - 1] <= '9');
    assert(d.last() == d[d.len() - 1]);
    assert(s =~= none + s && s =~= s + none && s =~= d + unit);
    assert(s[0] == d[0] && s.last() == c);
    lemma_the_start_comes_off(none, s, sp);
    lemma_the_end_comes_off(s, none, sp);
    lemma_the_end_comes_off(d, unit, letters);
    assert(d =~= d + none);
    lemma_the_end_comes_off(d, none, sp);
    assert(size_number(s) == d);
    assert(s.skip(d.len() as int) =~= unit);
    assert(unit =~= none + unit && unit =~= unit + none);
    lemma_the_start_comes_off(none, unit, sp);
    lemma_the_end_comes_off(unit, none, sp);
    let low = lowered(unit);
    assert(low.len() == 1 && low[0] == crate::text::small(c));
    assert(without_ib(low) == low);
    assert(low =~= low + none && low.last() == low[0]);
    lemma_the_end_comes_off(low, none, |x: char| x == 'b');
    assert(size_unit(s) == low);
    assert(scale_of(low) is None);
}

/// What starts like a document, an archive, a picture, a sound or a program is
/// not text, whatever follows.
pub proof fn lemma_known_formats_are_binary(rest: Seq<u8>)
    ensures
        // "%PDF-", "PK", PNG, JPEG and "GIF8".
        is_binary(seq![0x25u8, 0x50u8, 0x44u8, 0x46u8, 0x2du8] + rest),
        is_binary(seq![0x50u8, 0x4bu8, 0x03u8, 0x04u8] + rest),
        is_binary(seq![0x89u8, 0x50u8, 0x4eu8, 0x47u8] + rest),
        is_binary(seq![0xffu8, 0xd8u8, 0xffu8] + rest),
        is_binary(seq![0x47u8, 0x49u8, 0x46u8, 0x38u8] + rest),
        // ELF, gzip, "OggS", "RIFF", class files, "BZh", xz and "MZ".
        is_binary(seq![0x7fu8, 0x45u8, 0x4cu8, 0x46u8] + rest),
        is_binary(seq![0x1fu8, 0x8bu8] + rest),
        is_binary(seq![0x4fu8, 0x67u8, 0x67u8, 0x53u8] + rest),
        is_binary(seq![0x52u8, 0x49u8, 0x46u8, 0x46u8] + rest),
        is_binary(seq![0xcau8, 0xfeu8, 0xbau8, 0xbeu8] + rest),
        is_binary(seq![0x42u8, 0x5au8, 0x68u8] + rest),
        is_binary(seq![0xfdu8, 0x37u8, 0x7au8, 0x58u8, 0x5au8] + rest),
        is_binary(seq![0x4du8, 0x5au8] + rest),
{
    lemma_starts(seq![0x25u8, 0x50u8, 0x44u8, 0x46u8, 0x2du8], rest);
    lemma_starts(seq![0x50u8, 0x4bu8, 0x03u8, 0x04u8], rest);
    lemma_starts(seq![0x89u8, 0x50u8, 0x4eu8, 0x47u8], rest);
    lemma_starts(seq![0xffu8, 0xd8u8, 0xffu8], rest);
    lemma_starts(seq![0x47u8, 0x49u8, 0x46u8, 0x38u8], rest);
    lemma_starts(seq![0x7fu8, 0x45u8, 0x4cu8, 0x46u8], rest);
    lemma_starts(seq![0x1fu8, 0x8bu8], rest);
    lemma_starts(seq![0x4fu8, 0x67u8, 0x67u8, 0x53u8], rest);
    lemma_starts(seq![0x52u8, 0x49u8, 0x46u8, 0x46u8], rest);
    lemma_starts(seq![0xcau8, 0xfeu8, 0xbau8, 0xbeu8], rest);
    lemma_starts(seq![0x42u8, 0x5au8, 0x68u8], rest);
    lemma_starts(seq![0xfdu8, 0x37u8, 0x7au8, 0x58u8, 0x5au8], rest);
    lemma_starts(seq![0x4du8, 0x5au8], rest);
}

proof fn lemma_starts(magic: Seq<u8>, rest: Seq<u8>)
    ensures
        magic.is_prefix_of(magic + rest),
{
    assert(magic =~= (magic + rest).subrange(0, magic.len() as int));
}

/// A NUL near the start gives a binary away, and one further on does not: what
/// starts with an ordinary letter that no known format starts with and has none
/// among its first eight thousand and some bytes is text.
pub proof fn lemma_a_nul_gives_a_binary_away(b: Seq<u8>, k: int)
    ensures
        0 <= k < b.len() && k < 8192 && b[k] == 0 ==> is_binary(b),
        b.len() > 0 && (97 <= b[0] <= 122 || b[0] == 35 || b[0] == 47 || b[0] == 32 || b[0] == 10) && (forall|j: int|
            #![trigger b[j]]
            0 <= j < b.len() && j < 8192 ==> b[j] != 0) ==> !is_binary(b),
        b.len() == 0 ==> !is_binary(b),
{
    if has_binary_magic(b) {
        assert(b.len() >= 2);
        assert(b[0] == 0x25 || b[0] == 0x50 || b[0] == 0x89 || b[0] == 0xff || b[0] == 0x47 || b[0] == 0x7f || b[0] == 0x1f
            || b[0] == 0x4f || b[0] == 0x52 || b[0] == 0xca || b[0] == 0x42 || b[0] == 0xfd || b[0] == 0x4d);
    }
}

/// A letter that some format begins with gives nothing away by itself: without
/// a zero byte, a file that begins with one is text unless the rest of the
/// format's own beginning follows.
pub proof fn lemma_one_letter_is_no_format(b: Seq<u8>)
    requires
        b.len() > 0,
        forall|j: int| #![trigger b[j]] 0 <= j < b.len() && j < 8192 ==> b[j] != 0,
        is_binary(b),
    ensures
        // "%PDF-", "PK", "GIF8", "OggS", "RIFF", "BZh" and "MZ".
        b[0] == 0x25 ==> b.len() >= 5 && b[1] == 0x50 && b[2] == 0x44 && b[3] == 0x46 && b[4] == 0x2d,
        b[0] == 0x50 ==> b.len() >= 4 && b[1] == 0x4b && b[2] == 3 && b[3] == 4,
        b[0] == 0x47 ==> b.len() >= 4 && b[1] == 0x49 && b[2] == 0x46 && b[3] == 0x38,
        b[0] == 0x4f ==> b.len() >= 4 && b[1] == 0x67 && b[2] == 0x67 && b[3] == 0x53,
        b[0] == 0x52 ==> b.len() >= 4 && b[1] == 0x49 && b[2] == 0x46 && b[3] == 0x46,
        b[0] == 0x42 ==> b.len() >= 3 && b[1] == 0x5a && b[2] == 0x68,
        b[0] == 0x4d ==> b.len() >= 2 && b[1] == 0x5a,
        // PNG, JPEG, ELF, gzip, class files and xz.
        b[0] == 0x89 ==> b.len() >= 4 && b[1] == 0x50 && b[2] == 0x4e && b[3] == 0x47,
        b[0] == 0xff ==> b.len() >= 3 && b[1] == 0xd8 && b[2] == 0xff,
        b[0] == 0x7f ==> b.len() >= 4 && b[1] == 0x45 && b[2] == 0x4c && b[3] == 0x46,
        b[0] == 0x1f ==> b.len() >= 2 && b[1] == 0x8b,
        b[0] == 0xca ==> b.len() >= 4 && b[1] == 0xfe && b[2] == 0xba && b[3] == 0xbe,
        b[0] == 0xfd ==> b.len() >= 5 && b[1] == 0x37 && b[2] == 0x7a && b[3] == 0x58 && b[4] == 0x5a,
        // And nothing else begins a format.
        b[0] == 0x25 || b[0] == 0x50 || b[0] == 0x47 || b[0] == 0x4f || b[0] == 0x52 || b[0] == 0x42 || b[0] == 0x4d || b[0]
            == 0x89 || b[0] == 0xff || b[0] == 0x7f || b[0] == 0x1f || b[0] == 0xca || b[0] == 0xfd,
{
    assert(has_binary_magic(b));
}

/// What a file comes to, as text, as too much, as unchanged or as a binary: the
/// first of these that holds. The limit itself is not too much.
pub proof fn lemma_what_a_file_comes_to(
    p: Preview,
    stamp: Stamp,
    opts: PreviewOptions,
    known: Option<Stamp>,
    bytes: Vec<u8>,
)
    requires
        is_preview(p, Looked::File(stamp), opts, known, Ok(bytes)),
    ensures
        p is Unchanged <==> known == Some(stamp),
        p is TooLarge <==> known != Some(stamp) && stamp.size > opts.max_bytes,
        p is Binary <==> known != Some(stamp) && stamp.size <= opts.max_bytes && is_binary(bytes@),
        p is Text <==> known != Some(stamp) && stamp.size <= opts.max_bytes && !is_binary(bytes@),
        p matches Preview::Text { stamp: now, content, lossy } ==> now == stamp && (valid_utf8(bytes@) ==> !lossy && content@
            == decode_utf8(bytes@)) && (!valid_utf8(bytes@) ==> lossy),
        p matches Preview::TooLarge { size, limit } ==> size == stamp.size && limit == opts.max_bytes,
        p matches Preview::Binary { size } ==> size == stamp.size,
{
}

/// The limit is a megabyte unless something else is asked for.
pub proof fn lemma_the_usual_limit()
    ensures
        DEFAULT_MAX_BYTES == 1048576,
{
}

} // verus!
