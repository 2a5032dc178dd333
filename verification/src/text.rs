//! Text helpers shared by the rest of the library.

use vstd::prelude::*;
use vstd::string::*;
use vstd::utf8::*;

verus! {

/// `String::push`: the character is appended to the end.
pub assume_specification[ String::push ](s: &mut String, c: char)
    ensures
        final(s)@ == old(s)@.push(c),
;

/// What `String::from_utf8_lossy` makes of some bytes.
pub uninterp spec fn lossy_text(bytes: Seq<u8>) -> Seq<char>;

/// `String::from_utf8_lossy`, as an owned string. Bytes that are UTF-8 come
/// back as the text they encode. What stands in for bytes that are not UTF-8
/// is only named here.
#[verifier::external_body]
pub(crate) fn lossy(bytes: &[u8]) -> (s: String)
    ensures
        s@ == lossy_text(bytes@),
        valid_utf8(bytes@) ==> s@ == decode_utf8(bytes@),
{
    String::from_utf8_lossy(bytes).into_owned()
}

/// The text bytes stand for: what they encode where they are UTF-8.
pub open spec fn text_of(bytes: Seq<u8>) -> Seq<char> {
    if valid_utf8(bytes) {
        decode_utf8(bytes)
    } else {
        lossy_text(bytes)
    }
}

/// What `str::to_lowercase` makes of a text.
pub uninterp spec fn lower_text(s: Seq<char>) -> Seq<char>;

/// `str::to_lowercase`. Of ASCII text it makes the capitals small. Which other
/// characters have a lowercase form, and what it is, is Unicode's to say and
/// only named here.
#[verifier::external_body]
pub(crate) fn lower(s: &str) -> (l: String)
    ensures
        l@ == lower_text(s@),
        is_ascii_text(s@) ==> l@ == lowered(s@),
{
    s.to_lowercase()
}

/// A text in lower case.
pub open spec fn lower_of(s: Seq<char>) -> Seq<char> {
    if is_ascii_text(s) {
        lowered(s)
    } else {
        lower_text(s)
    }
}

/// The pieces of `s` between separators; one more than there are separators.
pub open spec fn split_on(s: Seq<u8>, sep: u8) -> Seq<Seq<u8>>
    decreases s.len(),
{
    if s.len() == 0 {
        seq![Seq::empty()]
    } else {
        let before = split_on(s.drop_last(), sep);
        if s.last() == sep {
            before.push(Seq::empty())
        } else {
            before.drop_last().push(before.last().push(s.last()))
        }
    }
}

pub proof fn lemma_split_nonempty(s: Seq<u8>, sep: u8)
    ensures
        split_on(s, sep).len() > 0,
    decreases s.len(),
{
    if s.len() > 0 {
        lemma_split_nonempty(s.drop_last(), sep);
    }
}

/// A last piece without separators comes off whole.
pub proof fn lemma_split_append(a: Seq<u8>, sep: u8, n: Seq<u8>)
    requires
        !n.contains(sep),
    ensures
        split_on(a.push(sep) + n, sep) == split_on(a, sep).push(n),
    decreases n.len(),
{
    let whole = a.push(sep) + n;
    if n.len() == 0 {
        assert(whole =~= a.push(sep));
        assert(whole.drop_last() =~= a);
        assert(n =~= Seq::<u8>::empty());
    } else {
        let m = n.drop_last();
        assert(n.last() == n[n.len() - 1]);
        assert(m.contains(sep) ==> n.contains(sep)) by {
            if m.contains(sep) {
                let i = choose|i: int| 0 <= i < m.len() && m[i] == sep;
                assert(n[i] == sep);
            }
        }
        lemma_split_append(a, sep, m);
        assert(whole.drop_last() =~= a.push(sep) + m);
        assert(whole.last() == n.last());
        let before = split_on(a, sep).push(m);
        assert(before.drop_last() =~= split_on(a, sep));
        assert(before.last() == m);
        assert(m.push(n.last()) =~= n);
    }
}

/// Joined by a separator, two texts have the pieces of the one and then those of
/// the other.
pub proof fn lemma_split_joined(a: Seq<u8>, sep: u8, b: Seq<u8>)
    ensures
        split_on(a.push(sep) + b, sep) == split_on(a, sep) + split_on(b, sep),
    decreases b.len(),
{
    let whole = a.push(sep) + b;
    let first = split_on(a, sep);
    if b.len() == 0 {
        assert(whole.drop_last() =~= a);
        assert(whole.last() == sep);
        assert(first.push(Seq::empty()) =~= first + split_on(b, sep));
    } else {
        let c = b.drop_last();
        lemma_split_joined(a, sep, c);
        lemma_split_nonempty(c, sep);
        assert(whole.drop_last() =~= a.push(sep) + c);
        assert(whole.last() == b.last());
        let more = split_on(c, sep);
        if b.last() == sep {
            assert((first + more).push(Seq::empty()) =~= first + more.push(Seq::empty()));
        } else {
            assert((first + more).last() == more.last());
            assert((first + more).drop_last().push(more.last().push(b.last())) =~= first + more.drop_last().push(
                more.last().push(b.last()),
            ));
        }
    }
}

/// Text without separators is one piece.
pub proof fn lemma_split_single(n: Seq<u8>, sep: u8)
    requires
        !n.contains(sep),
    ensures
        split_on(n, sep) == seq![n],
    decreases n.len(),
{
    if n.len() == 0 {
        assert(n =~= Seq::<u8>::empty());
    } else {
        let m = n.drop_last();
        assert(n.last() == n[n.len() - 1]);
        assert(m.contains(sep) ==> n.contains(sep)) by {
            if m.contains(sep) {
                let i = choose|i: int| 0 <= i < m.len() && m[i] == sep;
                assert(n[i] == sep);
            }
        }
        lemma_split_single(m, sep);
        assert(m.push(n.last()) =~= n);
        assert(seq![m].drop_last().push(n) =~= seq![n]);
    }
}

/// The pieces as they stand, for a sequence of byte vectors.
pub open spec fn views(parts: Seq<Vec<u8>>) -> Seq<Seq<u8>> {
    parts.map_values(|v: Vec<u8>| v@)
}

pub proof fn lemma_views_contains(parts: Seq<Vec<u8>>, name: Seq<u8>)
    ensures
        views(parts).contains(name) <==> exists|k: int| 0 <= k < parts.len() && #[trigger] parts[k]@ == name,
{
    if views(parts).contains(name) {
        let k = choose|k: int| 0 <= k < views(parts).len() && views(parts)[k] == name;
        assert(parts[k]@ == name);
    }
    if exists|k: int| 0 <= k < parts.len() && #[trigger] parts[k]@ == name {
        let k = choose|k: int| 0 <= k < parts.len() && #[trigger] parts[k]@ == name;
        assert(views(parts)[k] == name);
    }
}

/// Whether two byte strings are the same.
pub fn same_bytes(a: &[u8], b: &[u8]) -> (r: bool)
    ensures
        r == (a@ == b@),
{
    if a.len() != b.len() {
        return false;
    }
    let mut i: usize = 0;
    while i < a.len()
        invariant
            i <= a.len(),
            a.len() == b.len(),
            a@.take(i as int) == b@.take(i as int),
        decreases a.len() - i,
    {
        if a[i] != b[i] {
            assert(a@[i as int] != b@[i as int]);
            return false;
        }
        assert(a@.take(i + 1) =~= a@.take(i as int).push(a@[i as int]));
        assert(b@.take(i + 1) =~= b@.take(i as int).push(b@[i as int]));
        i += 1;
    }
    assert(a@.take(a@.len() as int) =~= a@);
    assert(b@.take(b@.len() as int) =~= b@);
    true
}

/// Whether bytes begin with other bytes.
pub fn starts_with(s: &[u8], prefix: &[u8]) -> (r: bool)
    ensures
        r == prefix@.is_prefix_of(s@),
{
    if s.len() < prefix.len() {
        return false;
    }
    let mut i: usize = 0;
    while i < prefix.len()
        invariant
            i <= prefix@.len() <= s@.len(),
            forall|k: int| #![trigger prefix@[k]] 0 <= k < i ==> prefix@[k] == s@[k],
        decreases prefix.len() - i,
    {
        if s[i] != prefix[i] {
            assert(s@.take(prefix@.len() as int)[i as int] == s@[i as int]);
            return false;
        }
        i += 1;
    }
    assert(prefix@ =~= s@.take(prefix@.len() as int));
    true
}

/// Where a byte string is in a list, looked for from position `from` round: two
/// lists in the same order are then matched in one pass.
pub fn find_bytes(list: &Vec<Vec<u8>>, name: &[u8], from: usize) -> (r: Option<usize>)
    requires
        from <= list@.len(),
    ensures
        r matches Some(k) ==> k < list@.len() && list@[k as int]@ == name@,
        r is None ==> forall|k: int| 0 <= k < list@.len() ==> #[trigger] list@[k]@ != name@,
{
    let mut i: usize = from;
    while i < list.len()
        invariant
            from <= i <= list@.len(),
            forall|k: int| from <= k < i ==> #[trigger] list@[k]@ != name@,
        decreases list.len() - i,
    {
        if same_bytes(list[i].as_slice(), name) {
            return Some(i);
        }
        i += 1;
    }
    i = 0;
    while i < from
        invariant
            i <= from <= list@.len(),
            forall|k: int| 0 <= k < i || from <= k < list@.len() ==> #[trigger] list@[k]@ != name@,
        decreases from - i,
    {
        if same_bytes(list[i].as_slice(), name) {
            return Some(i);
        }
        i += 1;
    }
    None
}

/// Splits bytes at every separator.
pub fn split_bytes(s: &[u8], sep: u8) -> (parts: Vec<Vec<u8>>)
    ensures
        views(parts@) == split_on(s@, sep),
{
    let mut parts: Vec<Vec<u8>> = Vec::new();
    let mut cur: Vec<u8> = Vec::new();
    let mut i: usize = 0;
    assert(s@.take(0) =~= Seq::<u8>::empty());
    assert(views(parts@).push(cur@) =~= seq![Seq::<u8>::empty()]);
    while i < s.len()
        invariant
            i <= s.len(),
            views(parts@).push(cur@) == split_on(s@.take(i as int), sep),
        decreases s.len() - i,
    {
        let ghost before = views(parts@).push(cur@);
        proof {
            let next = s@.take(i + 1);
            assert(next.drop_last() =~= s@.take(i as int));
            assert(before.drop_last() =~= views(parts@));
            assert(before.last() == cur@);
        }
        if s[i] == sep {
            let ghost old_parts = parts@;
            parts.push(cur);
            assert(views(parts@) =~= views(old_parts).push(parts@.last()@));
            cur = Vec::new();
        } else {
            cur.push(s[i]);
        }
        i += 1;
    }
    assert(s@.take(s@.len() as int) =~= s@);
    let ghost old_parts = parts@;
    parts.push(cur);
    assert(views(parts@) =~= views(old_parts).push(parts@.last()@));
    parts
}

/// The text of a string as its characters.
pub fn chars_of(s: &str) -> (v: Vec<char>)
    ensures
        v@ == s@,
{
    let mut v: Vec<char> = Vec::new();
    for c in it: s.chars()
        invariant
            v@ == s@.take(it.index() as int),
            it.seq() == s@,
    {
        v.push(c);
    }
    assert(s@.take(s@.len() as int) =~= s@);
    v
}

/// Characters joined back into a string.
pub fn string_of(v: &Vec<char>) -> (s: String)
    ensures
        s@ == v@,
{
    let mut s: String = String::new();
    let mut i: usize = 0;
    while i < v.len()
        invariant
            i <= v.len(),
            s@ == v@.take(i as int),
        decreases v.len() - i,
    {
        s.push(v[i]);
        i += 1;
        assert(v@.take(i as int) =~= v@.take(i - 1).push(v@[i - 1]));
    }
    assert(v@.take(v@.len() as int) =~= v@);
    s
}

/// The decimal digits of a number, most significant first.
pub open spec fn decimal(n: nat) -> Seq<char>
    decreases n,
{
    let digit = ((n % 10) + 48) as char;
    if n < 10 {
        seq![digit]
    } else {
        decimal(n / 10).push(digit)
    }
}

/// A digit as a character.
pub fn digit_char(d: u8) -> (c: char)
    requires
        d < 10,
    ensures
        c == (d + 48) as char,
{
    (d + 48) as char
}

/// Writes a number in decimal.
pub fn decimal_of(n: u64) -> (s: String)
    ensures
        s@ == decimal(n as nat),
    decreases n,
{
    let digit: char = digit_char((n % 10) as u8);
    let mut s: String = if n < 10 { String::new() } else { decimal_of(n / 10) };
    s.push(digit);
    assert(n < 10 ==> s@ =~= seq![digit]);
    s
}

/// Whether every byte is a decimal digit.
pub open spec fn all_digits(s: Seq<u8>) -> bool {
    forall|k: int| #![trigger s[k]] 0 <= k < s.len() ==> 48 <= s[k] <= 57
}

/// The number some decimal digits spell.
pub open spec fn digits_value(s: Seq<u8>) -> nat
    decreases s.len(),
{
    if s.len() == 0 {
        0
    } else {
        digits_value(s.drop_last()) * 10 + (s.last() - 48) as nat
    }
}

/// The number some text spells, up to `max`: digits, with a `+` in front or
/// not.
pub open spec fn uint_of(s: Seq<u8>, max: nat) -> Option<nat> {
    let digits = if s.len() > 0 && s[0] == 43 {
        s.skip(1)
    } else {
        s
    };
    if digits.len() > 0 && all_digits(digits) && digits_value(digits) <= max {
        Some(digits_value(digits))
    } else {
        None
    }
}

proof fn lemma_digits_grow(s: Seq<u8>, n: int)
    requires
        0 <= n <= s.len(),
        all_digits(s),
    ensures
        digits_value(s.take(n)) <= digits_value(s),
    decreases s.len(),
{
    if n == s.len() {
        assert(s.take(n) =~= s);
    } else {
        let t = s.drop_last();
        assert forall|k: int| #![trigger t[k]] 0 <= k < t.len() implies 48 <= t[k] <= 57 by {
            assert(t[k] == s[k]);
        }
        lemma_digits_grow(t, n);
        assert(t.take(n) =~= s.take(n));
        assert(s.last() == s[s.len() - 1]);
    }
}

/// Reads a number.
pub fn parse_uint(s: &[u8], max: u64) -> (r: Option<u64>)
    ensures
        match r {
            Some(n) => uint_of(s@, max as nat) == Some(n as nat),
            None => uint_of(s@, max as nat) is None,
        },
{
    let from: usize = if s.len() > 0 && s[0] == 43 {
        1
    } else {
        0
    };
    let ghost digits = if s@.len() > 0 && s@[0] == 43 {
        s@.skip(1)
    } else {
        s@
    };
    assert(digits =~= s@.skip(from as int));
    if s.len() == from {
        return None;
    }
    let mut n: u64 = 0;
    let mut i: usize = from;
    assert(digits.take(0) =~= Seq::<u8>::empty());
    while i < s.len()
        invariant
            from <= i <= s@.len(),
            digits == s@.skip(from as int),
            digits.len() > 0,
            forall|k: int| #![trigger digits[k]] 0 <= k < i - from ==> 48 <= digits[k] <= 57,
            n as nat == digits_value(digits.take(i - from)),
            n <= max,
            uint_of(s@, max as nat) == (if all_digits(digits) && digits_value(digits) <= max {
                Some(digits_value(digits))
            } else {
                None
            }),
        decreases s.len() - i,
    {
        let c: u8 = s[i];
        assert(digits[i - from] == c);
        if c < 48 || c > 57 {
            return None;
        }
        let next: u128 = n as u128 * 10 + (c - 48) as u128;
        proof {
            assert(digits.take(i + 1 - from).drop_last() =~= digits.take(i - from));
            assert(digits.take(i + 1 - from).last() == c);
            assert(next == digits_value(digits.take(i + 1 - from)));
            if all_digits(digits) {
                lemma_digits_grow(digits, i + 1 - from);
            }
        }
        if next > max as u128 {
            return None;
        }
        n = next as u64;
        i += 1;
    }
    assert(digits.take(digits.len() as int) =~= digits);
    Some(n)
}

/// `String::from_utf8`: the text that bytes encode where they are UTF-8, and
/// the bytes handed back where they are not.
#[verifier::external_body]
pub(crate) fn utf8_text(bytes: Vec<u8>) -> (r: Result<String, Vec<u8>>)
    ensures
        match r {
            Ok(s) => valid_utf8(bytes@) && s@ == decode_utf8(bytes@),
            Err(b) => !valid_utf8(bytes@) && b@ == bytes@,
        },
{
    String::from_utf8(bytes).map_err(|e| e.into_bytes())
}

/// A text as its `Debug` shows it: in double quotes, with escapes.
pub uninterp spec fn quoted_text(s: Seq<char>) -> Seq<char>;

/// `<str as Debug>::fmt`, through `format!`. Which characters are escaped, and
/// how, is only named here.
#[verifier::external_body]
pub(crate) fn quoted(s: &str) -> (q: String)
    ensures
        q@ == quoted_text(s@),
{
    format!("{s:?}")
}

/// Whether a character is white space.
pub open spec fn is_space(c: char) -> bool {
    let n = c as u32;
    ||| 0x09 <= n <= 0x0d
    ||| n == 0x20
    ||| n == 0x85
    ||| n == 0xa0
    ||| n == 0x1680
    ||| 0x2000 <= n <= 0x200a
    ||| n == 0x2028
    ||| n == 0x2029
    ||| n == 0x202f
    ||| n == 0x205f
    ||| n == 0x3000
}

/// Whether a character is white space.
pub fn space(c: char) -> (r: bool)
    ensures
        r == is_space(c),
{
    let n: u32 = c as u32;
    (0x09 <= n && n <= 0x0d) || n == 0x20 || n == 0x85 || n == 0xa0 || n == 0x1680 || (0x2000 <= n && n <= 0x200a) || n
        == 0x2028 || n == 0x2029 || n == 0x202f || n == 0x205f || n == 0x3000
}

/// A text without what it ends in of some characters.
pub open spec fn stripped_end(s: Seq<char>, p: spec_fn(char) -> bool) -> Seq<char>
    decreases s.len(),
{
    if s.len() > 0 && p(s.last()) {
        stripped_end(s.drop_last(), p)
    } else {
        s
    }
}

/// A text without what it begins with of some characters.
pub open spec fn stripped_start(s: Seq<char>, p: spec_fn(char) -> bool) -> Seq<char>
    decreases s.len(),
{
    if s.len() > 0 && p(s[0]) {
        stripped_start(s.drop_first(), p)
    } else {
        s
    }
}

pub proof fn lemma_stripped_end_prefix(s: Seq<char>, p: spec_fn(char) -> bool)
    ensures
        stripped_end(s, p).len() <= s.len(),
        stripped_end(s, p) == s.take(stripped_end(s, p).len() as int),
    decreases s.len(),
{
    if s.len() > 0 && p(s.last()) {
        lemma_stripped_end_prefix(s.drop_last(), p);
        let n = stripped_end(s, p).len() as int;
        assert(s.drop_last().take(n) =~= s.take(n));
    } else {
        assert(s.take(s.len() as int) =~= s);
    }
}

/// Takes off the white space a text ends in.
pub fn strip_end(s: &mut Vec<char>)
    ensures
        final(s)@ == stripped_end(old(s)@, |c: char| is_space(c)),
{
    let ghost all = s@;
    let ghost p = |c: char| is_space(c);
    while s.len() > 0 && space(s[s.len() - 1])
        invariant
            p == (|c: char| is_space(c)),
            stripped_end(s@, p) == stripped_end(all, p),
        decreases s.len(),
    {
        let ghost before = s@;
        s.pop();
        assert(s@ =~= before.drop_last());
    }
}

/// Takes off the white space a text begins with.
pub fn strip_start(s: &mut Vec<char>)
    ensures
        final(s)@ == stripped_start(old(s)@, |c: char| is_space(c)),
{
    let ghost all = s@;
    let ghost p = |c: char| is_space(c);
    while s.len() > 0 && space(s[0])
        invariant
            p == (|c: char| is_space(c)),
            stripped_start(s@, p) == stripped_start(all, p),
        decreases s.len(),
    {
        let ghost before = s@;
        s.remove(0);
        assert(s@ =~= before.drop_first());
    }
}

/// An ASCII capital as its small letter, and anything else as it is.
pub open spec fn small(c: char) -> char {
    if 'A' <= c <= 'Z' {
        (c as u8 + 32) as char
    } else {
        c
    }
}

/// A text with its ASCII capitals made small.
pub open spec fn lowered(s: Seq<char>) -> Seq<char> {
    s.map_values(|c: char| small(c))
}

/// Makes ASCII capitals small.
pub fn lower_ascii(s: &mut Vec<char>)
    ensures
        final(s)@ == lowered(old(s)@),
{
    let ghost all = s@;
    let mut i: usize = 0;
    while i < s.len()
        invariant
            i <= s@.len(),
            s@.len() == all.len(),
            forall|k: int|
                #![trigger s@[k]]
                0 <= k < all.len() ==> s@[k] == (if k < i {
                    small(all[k])
                } else {
                    all[k]
                }),
        decreases s.len() - i,
    {
        let c: char = s[i];
        if 'A' <= c && c <= 'Z' {
            let b: u8 = c as u8 + 32;
            s.set(i, b as char);
        }
        i += 1;
    }
    assert(s@ =~= lowered(all));
}

/// Whether a text is ASCII throughout.
pub open spec fn is_ascii_text(s: Seq<char>) -> bool {
    forall|k: int| #![trigger s[k]] 0 <= k < s.len() ==> (s[k] as u32) < 128
}

/// The number a text spells, up to `max`.
pub open spec fn number_in(s: Seq<char>, max: nat) -> Option<nat> {
    if is_ascii_text(s) {
        uint_of(s.map_values(|c: char| c as u8), max)
    } else {
        None
    }
}

/// The bytes of an ASCII text.
pub fn ascii_of(s: &Vec<char>) -> (r: Option<Vec<u8>>)
    ensures
        match r {
            Some(b) => is_ascii_text(s@) && b@ == s@.map_values(|c: char| c as u8),
            None => !is_ascii_text(s@),
        },
{
    let mut b: Vec<u8> = Vec::new();
    let mut i: usize = 0;
    while i < s.len()
        invariant
            i <= s@.len(),
            b@.len() == i,
            forall|k: int| #![trigger s@[k]] 0 <= k < i ==> (s@[k] as u32) < 128 && b@[k] == s@[k] as u8,
        decreases s.len() - i,
    {
        let c: char = s[i];
        if c as u32 >= 128 {
            assert(!((s@[i as int] as u32) < 128));
            return None;
        }
        b.push(c as u8);
        i += 1;
    }
    assert(b@ =~= s@.map_values(|c: char| c as u8));
    Some(b)
}

/// Whether two texts are the same.
pub fn same_str(a: &str, b: &str) -> (r: bool)
    ensures
        r == (a@ == b@),
{
    let x: Vec<char> = chars_of(a);
    let y: Vec<char> = chars_of(b);
    if x.len() != y.len() {
        return false;
    }
    let mut i: usize = 0;
    while i < x.len()
        invariant
            i <= x@.len(),
            x@ == a@,
            y@ == b@,
            x@.len() == y@.len(),
            forall|k: int| #![trigger x@[k]] 0 <= k < i ==> x@[k] == y@[k],
        decreases x.len() - i,
    {
        if x[i] != y[i] {
            assert(x@[i as int] != y@[i as int]);
            return false;
        }
        i += 1;
    }
    assert(x@ =~= y@);
    true
}

// -- laws -----------------------------------------------------------------

/// What a text ends in of some characters comes off, and nothing else.
pub proof fn lemma_the_end_comes_off(s: Seq<char>, tail: Seq<char>, p: spec_fn(char) -> bool)
    requires
        s.len() > 0 ==> !p(s.last()),
        forall|k: int| #![trigger tail[k]] 0 <= k < tail.len() ==> p(tail[k]),
    ensures
        stripped_end(s + tail, p) == s,
    decreases tail.len(),
{
    if tail.len() == 0 {
        assert(s + tail =~= s);
    } else {
        assert((s + tail).last() == tail[tail.len() - 1]);
        assert((s + tail).drop_last() =~= s + tail.drop_last());
        lemma_the_end_comes_off(s, tail.drop_last(), p);
    }
}

/// What a text begins with of some characters comes off, and nothing else.
pub proof fn lemma_the_start_comes_off(lead: Seq<char>, s: Seq<char>, p: spec_fn(char) -> bool)
    requires
        s.len() > 0 ==> !p(s[0]),
        forall|k: int| #![trigger lead[k]] 0 <= k < lead.len() ==> p(lead[k]),
    ensures
        stripped_start(lead + s, p) == s,
    decreases lead.len(),
{
    if lead.len() == 0 {
        assert(lead + s =~= s);
    } else {
        assert((lead + s)[0] == lead[0]);
        assert((lead + s).drop_first() =~= lead.drop_first() + s);
        lemma_the_start_comes_off(lead.drop_first(), s, p);
    }
}

/// A number as it is written: digits alone, and at least one of them.
pub proof fn lemma_numbers_are_digits(n: nat)
    ensures
        decimal(n).len() > 0,
        forall|k: int| #![trigger decimal(n)[k]] 0 <= k < decimal(n).len() ==> '0' <= decimal(n)[k] <= '9',
        n < 10 <==> decimal(n).len() == 1,
        n >= 10 ==> decimal(n)[0] != '0',
    decreases n,
{
    if n >= 10 {
        lemma_numbers_are_digits(n / 10);
        let d = decimal(n);
        let e = decimal(n / 10);
        assert forall|k: int| #![trigger d[k]] 0 <= k < d.len() implies '0' <= d[k] <= '9' by {
            if k < e.len() {
                assert(d[k] == e[k]);
            }
        }
        assert(d[0] == e[0]);
        if n < 100 {
            reveal_with_fuel(decimal, 2);
        }
    }
}

proof fn lemma_digits_spell(n: nat)
    ensures
        digits_value(decimal(n).map_values(|c: char| c as u8)) == n,
        all_digits(decimal(n).map_values(|c: char| c as u8)),
    decreases n,
{
    let d = decimal(n).map_values(|c: char| c as u8);
    lemma_numbers_are_digits(n);
    assert forall|k: int| #![trigger d[k]] 0 <= k < d.len() implies 48 <= d[k] <= 57 by {
        assert('0' <= decimal(n)[k] <= '9');
    }
    if n < 10 {
        reveal_with_fuel(digits_value, 2);
        assert(d.drop_last() =~= Seq::<u8>::empty());
    } else {
        lemma_digits_spell(n / 10);
        assert(d.drop_last() =~= decimal(n / 10).map_values(|c: char| c as u8));
        assert(d.last() == (n % 10) + 48);
    }
}

/// A number that was written out reads back as itself, wherever it is within the
/// bounds, and is refused where it is not.
pub proof fn lemma_numbers_read_back(n: nat, max: nat)
    ensures
        n <= max ==> number_in(decimal(n), max) == Some(n),
        n > max ==> number_in(decimal(n), max) is None,
{
    lemma_numbers_are_digits(n);
    lemma_digits_spell(n);
    let d = decimal(n).map_values(|c: char| c as u8);
    assert forall|k: int| #![trigger decimal(n)[k]] 0 <= k < decimal(n).len() implies (decimal(n)[k] as u32) < 128 by {
        assert('0' <= decimal(n)[k] <= '9');
    }
    assert(48 <= d[0] <= 57);
}

proof fn lemma_ascii_byte(c: char)
    requires
        (c as u32) < 128,
    ensures
        c as u8 as int == c as int,
{
}

/// Text with anything in it but digits, past a plus in front, is not a number.
pub proof fn lemma_only_digits_are_numbers(s: Seq<char>, max: nat, k: int)
    requires
        0 <= k < s.len(),
        !('0' <= s[k] <= '9'),
        k > 0 || s[0] != '+',
    ensures
        number_in(s, max) is None,
{
    if is_ascii_text(s) {
        let b = s.map_values(|c: char| c as u8);
        let digits = if b.len() > 0 && b[0] == 43 {
            b.skip(1)
        } else {
            b
        };
        lemma_ascii_byte(s[k]);
        lemma_ascii_byte(s[0]);
        assert(b[k] == s[k] as u8 && b[0] == s[0] as u8);
        assert(!(48 <= b[k] <= 57));
        if b[0] == 43 {
            assert(s[0] == '+');
            assert(digits[k - 1] == b[k]);
        }
    }
}

/// White space is what a text may be spread out with: the tab, the line breaks,
/// the space, and the blanks that Unicode has beside them.
pub proof fn lemma_what_white_space_is(c: char)
    ensures
        is_space(c) <==> {
            ||| c == '\t' || c == '\n' || c == '\u{b}' || c == '\u{c}' || c == '\r' || c == ' '
            ||| c == '\u{85}' || c == '\u{a0}' || c == '\u{1680}'
            ||| '\u{2000}' <= c <= '\u{200a}'
            ||| c == '\u{2028}' || c == '\u{2029}' || c == '\u{202f}' || c == '\u{205f}' || c == '\u{3000}'
        },
{
}

} // verus!
