//! Text as sequences of characters: searching, trimming, splitting, replacing,
//! joining and ordering.
//!
//! Strings are viewed as `Seq<char>`. The executable helpers work on slices of
//! characters, so that every position is a position in that view.

use vstd::prelude::*;

verus! {

broadcast use vstd::string::group_string_axioms;

/// `String::push`: appends the character at the end of the string.
pub assume_specification[ String::push ](s: &mut String, c: char)
    ensures
        final(s)@ == old(s)@.push(c),
;

/// The text in lower case by the rules of Unicode, as `str::to_lowercase` gives
/// it.
pub uninterp spec fn lowercase(s: Seq<char>) -> Seq<char>;

/// `str::to_lowercase`: what it returns depends on the text alone, and is given
/// the name `lowercase`. A text of ASCII characters gets its capitals turned into
/// the small letters.
pub assume_specification[ str::to_lowercase ](s: &str) -> (r: String)
    ensures
        r@ == lowercase(s@),
        all_ascii(s@) ==> r@ == ascii_lowered(s@),
;

// ---------------------------------------------------------------------------
// Views
// ---------------------------------------------------------------------------

/// The contents of a sequence of strings.
pub open spec fn strs(v: Seq<String>) -> Seq<Seq<char>> {
    Seq::new(v.len(), |i: int| v[i]@)
}

/// The contents of a sequence of character vectors.
pub open spec fn rows(v: Seq<Vec<char>>) -> Seq<Seq<char>> {
    Seq::new(v.len(), |i: int| v[i]@)
}

/// The contents of a sequence of slices.
pub open spec fn parts(v: Seq<&[char]>) -> Seq<Seq<char>> {
    Seq::new(v.len(), |i: int| v[i]@)
}

/// The contents of a sequence of literals.
pub open spec fn lits(v: Seq<&str>) -> Seq<Seq<char>> {
    Seq::new(v.len(), |i: int| v[i]@)
}

/// The contents of an optional string.
pub open spec fn opt_str(v: Option<String>) -> Option<Seq<char>> {
    match v {
        Some(s) => Some(s@),
        None => None,
    }
}

/// An optional machine index as a mathematical one.
pub open spec fn as_int(v: Option<usize>) -> Option<int> {
    match v {
        Some(i) => Some(i as int),
        None => None,
    }
}

/// The characters of a string.
pub fn chars_of(s: &str) -> (r: Vec<char>)
    ensures
        r@ == s@,
{
    let mut out: Vec<char> = Vec::new();
    for c in it: s.chars()
        invariant
            it.seq() == s@,
            out@ == s@.take(it.index()),
    {
        out.push(c);
        assert(s@.take(it.index() + 1) == s@.take(it.index()).push(c));
    }
    assert(s@.take(s@.len() as int) == s@);
    out
}

/// The string of a slice of characters.
pub fn string_of(s: &[char]) -> (r: String)
    ensures
        r@ == s@,
{
    let mut out = String::new();
    for i in 0..s.len()
        invariant
            out@ == s@.take(i as int),
    {
        out.push(s[i]);
        assert(s@.take(i + 1) == s@.take(i as int).push(s@[i as int]));
    }
    assert(s@.take(s@.len() as int) == s@);
    out
}

/// The strings of a list of character vectors.
pub fn strings_of(v: &Vec<Vec<char>>) -> (r: Vec<String>)
    ensures
        strs(r@) == rows(v@),
{
    let mut out: Vec<String> = Vec::new();
    for i in 0..v.len()
        invariant
            strs(out@) == rows(v@).take(i as int),
    {
        let ghost before = out@;
        let s = string_of(v[i].as_slice());
        out.push(s);
        assert(strs(out@) =~= strs(before).push(s@));
        assert(rows(v@).take(i + 1) =~= rows(v@).take(i as int).push(v@[i as int]@));
    }
    assert(rows(v@).take(v@.len() as int) =~= rows(v@));
    out
}

/// A copy of a list of strings.
pub fn clone_strings(v: &Vec<String>) -> (r: Vec<String>)
    ensures
        strs(r@) == strs(v@),
{
    let mut out: Vec<String> = Vec::new();
    for i in 0..v.len()
        invariant
            strs(out@) == strs(v@).take(i as int),
    {
        let ghost before = out@;
        let s = v[i].clone();
        out.push(s);
        assert(strs(out@) =~= strs(before).push(s@));
        assert(strs(v@).take(i + 1) =~= strs(v@).take(i as int).push(v@[i as int]@));
    }
    assert(strs(v@).take(v@.len() as int) =~= strs(v@));
    out
}

/// Whether two slices hold the same characters.
pub fn same(a: &[char], b: &[char]) -> (r: bool)
    ensures
        r == (a@ == b@),
{
    if a.len() != b.len() {
        return false;
    }
    for i in 0..a.len()
        invariant
            a@.len() == b@.len(),
            forall|k: int| 0 <= k < i ==> a@[k] == b@[k],
    {
        if a[i] != b[i] {
            return false;
        }
    }
    assert(a@ =~= b@);
    true
}

/// Whether two strings hold the same characters.
pub fn same_str(a: &str, b: &str) -> (r: bool)
    ensures
        r == (a@ == b@),
{
    same(chars_of(a).as_slice(), chars_of(b).as_slice())
}

/// Whether a slice holds the characters of a literal.
pub fn is_str(a: &[char], b: &str) -> (r: bool)
    ensures
        r == (a@ == b@),
{
    same(a, chars_of(b).as_slice())
}

/// Whether a list has a text.
pub fn has_text(v: &Vec<String>, s: &String) -> (r: bool)
    ensures
        r == strs(v@).contains(s@),
{
    for i in 0..v.len()
        invariant
            forall|k: int| 0 <= k < i ==> v@[k]@ != s@,
    {
        if v[i] == *s {
            assert(strs(v@)[i as int] == s@);
            return true;
        }
    }
    assert forall|k: int| 0 <= k < strs(v@).len() implies strs(v@)[k] != s@ by {}
    false
}

/// Appends the characters of a slice to a vector.
pub fn append(out: &mut Vec<char>, s: &[char])
    ensures
        final(out)@ == old(out)@ + s@,
{
    for i in 0..s.len()
        invariant
            out@ == old(out)@ + s@.take(i as int),
    {
        out.push(s[i]);
        assert(out@ =~= old(out)@ + s@.take(i + 1));
    }
    assert(s@.take(s@.len() as int) =~= s@);
}

/// Appends the characters of a string to a vector.
pub fn append_str(out: &mut Vec<char>, s: &str)
    ensures
        final(out)@ == old(out)@ + s@,
{
    append(out, chars_of(s).as_slice());
}

/// The vector of a slice.
pub fn to_vec(s: &[char]) -> (r: Vec<char>)
    ensures
        r@ == s@,
{
    let mut out: Vec<char> = Vec::new();
    append(&mut out, s);
    assert(out@ =~= s@);
    out
}

// ---------------------------------------------------------------------------
// Character classes
// ---------------------------------------------------------------------------

pub open spec fn is_digit(c: char) -> bool {
    '0' <= c <= '9'
}

pub open spec fn is_alnum(c: char) -> bool {
    is_digit(c) || 'A' <= c <= 'Z' || 'a' <= c <= 'z'
}

/// The Unicode `White_Space` property.
pub open spec fn is_space(c: char) -> bool {
    ||| '\u{9}' <= c <= '\u{d}'
    ||| c == ' '
    ||| c == '\u{85}'
    ||| c == '\u{a0}'
    ||| c == '\u{1680}'
    ||| '\u{2000}' <= c <= '\u{200a}'
    ||| c == '\u{2028}'
    ||| c == '\u{2029}'
    ||| c == '\u{202f}'
    ||| c == '\u{205f}'
    ||| c == '\u{3000}'
}

/// The character with an ASCII capital turned into the small letter.
pub open spec fn ascii_lower(c: char) -> char {
    if 'A' <= c <= 'Z' {
        ((c as u8) + 32) as char
    } else {
        c
    }
}

/// Every ASCII capital of the text turned into the small letter.
pub open spec fn ascii_lowered(s: Seq<char>) -> Seq<char> {
    Seq::new(s.len(), |i: int| ascii_lower(s[i]))
}

/// Whether the character is an ASCII digit.
pub fn digit(c: char) -> (r: bool)
    ensures
        r == is_digit(c),
{
    '0' <= c && c <= '9'
}

/// Whether the character is an ASCII letter or digit.
pub fn alnum(c: char) -> (r: bool)
    ensures
        r == is_alnum(c),
{
    digit(c) || ('A' <= c && c <= 'Z') || ('a' <= c && c <= 'z')
}

/// Whether the character is Unicode white space.
pub fn space(c: char) -> (r: bool)
    ensures
        r == is_space(c),
{
    ('\u{9}' <= c && c <= '\u{d}') || c == ' ' || c == '\u{85}' || c == '\u{a0}' || c == '\u{1680}'
        || ('\u{2000}' <= c && c <= '\u{200a}') || c == '\u{2028}' || c == '\u{2029}' || c
        == '\u{202f}' || c == '\u{205f}' || c == '\u{3000}'
}

/// Turns an ASCII capital into the small letter.
pub fn lower_char(c: char) -> (r: char)
    ensures
        r == ascii_lower(c),
{
    if 'A' <= c && c <= 'Z' {
        ((c as u8) + 32) as char
    } else {
        c
    }
}

/// Turns every ASCII capital into the small letter and keeps all else.
pub fn lower_ascii(s: &str) -> (r: String)
    ensures
        r@ == ascii_lowered(s@),
{
    let mut out = String::new();
    for c in it: s.chars()
        invariant
            it.seq() == s@,
            out@ == ascii_lowered(s@).take(it.index()),
    {
        out.push(lower_char(c));
        assert(ascii_lowered(s@).take(it.index() + 1) == ascii_lowered(s@).take(it.index()).push(
            ascii_lower(c),
        ));
    }
    assert(ascii_lowered(s@).take(s@.len() as int) == ascii_lowered(s@));
    out
}

/// The text has ASCII characters only.
pub open spec fn all_ascii(s: Seq<char>) -> bool {
    forall|i: int| 0 <= i < s.len() ==> #[trigger] s[i] <= '\u{7f}'
}

/// The text in lower case: that of its ASCII letters where it has no others, by
/// the rules of Unicode where it has.
pub open spec fn lowered(s: Seq<char>) -> Seq<char> {
    if all_ascii(s) {
        ascii_lowered(s)
    } else {
        lowercase(s)
    }
}

/// Turns a text into lower case.
pub fn lower(s: &str) -> (r: String)
    ensures
        r@ == lowered(s@),
{
    s.to_lowercase()
}

/// Lowering is idempotent: a lowered text has no ASCII capital left.
pub proof fn lemma_lowered_idempotent(s: Seq<char>)
    ensures
        ascii_lowered(ascii_lowered(s)) == ascii_lowered(s),
{
    assert forall|i: int| 0 <= i < s.len() implies ascii_lower(#[trigger] ascii_lower(s[i]))
        == ascii_lower(s[i]) by {}
    assert(ascii_lowered(ascii_lowered(s)) =~= ascii_lowered(s));
}

// ---------------------------------------------------------------------------
// Searching
// ---------------------------------------------------------------------------

/// `pat` stands in `s` at position `i`.
pub open spec fn occurs_at(s: Seq<char>, pat: Seq<char>, i: int) -> bool {
    0 <= i && i + pat.len() <= s.len() && s.subrange(i, i + pat.len()) == pat
}

/// The first position from `i` on at which `pat` stands in `s`.
pub open spec fn index_from(s: Seq<char>, pat: Seq<char>, i: int) -> Option<int>
    decreases s.len() - i + 1,
{
    if i < 0 || i + pat.len() > s.len() {
        None
    } else if occurs_at(s, pat, i) {
        Some(i)
    } else {
        index_from(s, pat, i + 1)
    }
}

/// The first position at which `pat` stands in `s`.
pub open spec fn index_of(s: Seq<char>, pat: Seq<char>) -> Option<int> {
    index_from(s, pat, 0)
}

/// `pat` stands somewhere in `s`.
pub open spec fn has(s: Seq<char>, pat: Seq<char>) -> bool {
    index_of(s, pat) is Some
}

/// `s` begins with `pat`.
pub open spec fn begins(s: Seq<char>, pat: Seq<char>) -> bool {
    occurs_at(s, pat, 0)
}

/// What `index_from` finds is an occurrence with none before it, and it finds
/// nothing only where there is none.
pub proof fn lemma_index_from(s: Seq<char>, pat: Seq<char>, i: int)
    requires
        0 <= i,
    ensures
        match index_from(s, pat, i) {
            Some(k) => i <= k && occurs_at(s, pat, k) && forall|j: int|
                i <= j < k ==> !occurs_at(s, pat, j),
            None => forall|j: int| i <= j ==> !occurs_at(s, pat, j),
        },
    decreases s.len() - i + 1,
{
    if i + pat.len() <= s.len() && !occurs_at(s, pat, i) {
        lemma_index_from(s, pat, i + 1);
    }
}

/// A text contains a pattern exactly where the pattern occurs at some position.
pub proof fn lemma_has(s: Seq<char>, pat: Seq<char>)
    ensures
        has(s, pat) <==> exists|i: int| occurs_at(s, pat, i),
{
    lemma_index_from(s, pat, 0);
    if exists|i: int| occurs_at(s, pat, i) {
        let i = choose|i: int| occurs_at(s, pat, i);
        assert(0 <= i);
    }
}

/// `s` ends with `pat`.
pub open spec fn ends(s: Seq<char>, pat: Seq<char>) -> bool {
    occurs_at(s, pat, s.len() - pat.len())
}

/// The first occurrence is the one with none before it.
pub proof fn lemma_index_is(s: Seq<char>, pat: Seq<char>, k: int)
    requires
        occurs_at(s, pat, k),
        forall|j: int| 0 <= j < k ==> !occurs_at(s, pat, j),
    ensures
        index_of(s, pat) == Some(k),
{
    lemma_index_from(s, pat, 0);
}

/// What stands in a text stands there in the text with more behind it, and in the
/// text with more in front of it further on.
proof fn lemma_occurs_concat(a: Seq<char>, b: Seq<char>, pat: Seq<char>, i: int)
    ensures
        0 <= i && i + pat.len() <= a.len() ==> (occurs_at(a + b, pat, i) <==> occurs_at(a, pat, i)),
        0 <= i ==> (occurs_at(a + b, pat, a.len() + i) <==> occurs_at(b, pat, i)),
{
    if 0 <= i && i + pat.len() <= a.len() {
        assert((a + b).subrange(i, i + pat.len()) =~= a.subrange(i, i + pat.len()));
    }
    if 0 <= i && i + pat.len() <= b.len() {
        assert((a + b).subrange(a.len() + i, a.len() + i + pat.len()) =~= b.subrange(
            i,
            i + pat.len(),
        ));
    }
}

/// Text behind does not move the first occurrence.
pub proof fn lemma_index_before(a: Seq<char>, b: Seq<char>, pat: Seq<char>)
    requires
        index_of(a, pat) is Some,
    ensures
        index_of(a + b, pat) == index_of(a, pat),
{
    lemma_index_from(a, pat, 0);
    let k = index_of(a, pat)->0;
    lemma_occurs_concat(a, b, pat, k);
    assert forall|j: int| 0 <= j < k implies !occurs_at(a + b, pat, j) by {
        lemma_occurs_concat(a, b, pat, j);
    }
    lemma_index_is(a + b, pat, k);
}

/// Where a pattern does not occur in a text, and has not the character with which
/// that ends, it occurs with more behind it where it occurs in that.
pub proof fn lemma_index_beyond(a: Seq<char>, b: Seq<char>, pat: Seq<char>)
    requires
        index_of(a, pat) is None,
        pat.len() > 0,
        a.len() > 0 ==> !pat.contains(a.last()),
    ensures
        index_of(a + b, pat) == match index_of(b, pat) {
            Some(i) => Some(a.len() + i),
            None => None,
        },
{
    lemma_index_from(a, pat, 0);
    lemma_index_from(b, pat, 0);
    lemma_index_from(a + b, pat, 0);
    let n = a.len() as int;
    assert forall|j: int| 0 <= j < n implies !occurs_at(a + b, pat, j) by {
        lemma_occurs_concat(a, b, pat, j);
        if j + pat.len() > n && occurs_at(a + b, pat, j) {
            assert((a + b).subrange(j, j + pat.len())[n - 1 - j] == a.last());
            assert(pat[n - 1 - j] == a.last());
        }
    }
    match index_of(b, pat) {
        Some(i) => {
            lemma_occurs_concat(a, b, pat, i);
            assert forall|j: int| 0 <= j < n + i implies !occurs_at(a + b, pat, j) by {
                if j >= n {
                    lemma_occurs_concat(a, b, pat, j - n);
                }
            }
            lemma_index_is(a + b, pat, n + i);
        },
        None => {
            match index_of(a + b, pat) {
                Some(k) => {
                    lemma_occurs_concat(a, b, pat, k - n);
                },
                None => {},
            }
        },
    }
}

/// Whether the pattern stands at the position.
pub fn occurs(s: &[char], pat: &[char], i: usize) -> (r: bool)
    ensures
        r == occurs_at(s@, pat@, i as int),
{
    if s.len() < pat.len() || i > s.len() - pat.len() {
        return false;
    }
    for j in 0..pat.len()
        invariant
            i + pat@.len() <= s.len(),
            forall|k: int| 0 <= k < j ==> s@[i + k] == pat@[k],
    {
        if s[i + j] != pat[j] {
            assert(s@.subrange(i as int, i + pat@.len())[j as int] != pat@[j as int]);
            return false;
        }
    }
    assert(s@.subrange(i as int, i + pat@.len()) =~= pat@);
    true
}

/// The first position of the pattern.
pub fn find(s: &[char], pat: &[char]) -> (r: Option<usize>)
    ensures
        as_int(r) == index_of(s@, pat@),
        r matches Some(i) ==> i + pat@.len() <= s@.len(),
{
    if s.len() < pat.len() {
        return None;
    }
    let last: usize = s.len() - pat.len();
    let mut i: usize = 0;
    loop
        invariant
            last == s@.len() - pat@.len(),
            i <= last,
            index_of(s@, pat@) == index_from(s@, pat@, i as int),
        decreases last - i,
    {
        if occurs(s, pat, i) {
            return Some(i);
        }
        if i == last {
            assert(index_from(s@, pat@, i + 1) is None);
            return None;
        }
        i = i + 1;
    }
}

/// The first position of a literal pattern.
pub fn find_str(s: &[char], pat: &str) -> (r: Option<usize>)
    ensures
        as_int(r) == index_of(s@, pat@),
        r matches Some(i) ==> i + pat@.len() <= s@.len(),
{
    find(s, chars_of(pat).as_slice())
}

/// Whether a literal pattern occurs.
pub fn contains_str(s: &[char], pat: &str) -> (r: bool)
    ensures
        r == has(s@, pat@),
{
    find_str(s, pat).is_some()
}

/// Whether the slice begins with a literal pattern.
pub fn starts_with_str(s: &[char], pat: &str) -> (r: bool)
    ensures
        r == begins(s@, pat@),
{
    occurs(s, chars_of(pat).as_slice(), 0)
}

// ---------------------------------------------------------------------------
// Trimming
// ---------------------------------------------------------------------------

/// `s` without its leading white space.
pub open spec fn trim_start(s: Seq<char>) -> Seq<char>
    decreases s.len(),
{
    if s.len() > 0 && is_space(s[0]) {
        trim_start(s.skip(1))
    } else {
        s
    }
}

/// `s` without its trailing white space.
pub open spec fn trim_end(s: Seq<char>) -> Seq<char>
    decreases s.len(),
{
    if s.len() > 0 && is_space(s.last()) {
        trim_end(s.drop_last())
    } else {
        s
    }
}

/// `s` without leading and trailing white space.
pub open spec fn trimmed(s: Seq<char>) -> Seq<char> {
    trim_end(trim_start(s))
}

/// The slice without leading and trailing white space.
pub fn trim(s: &[char]) -> (r: &[char])
    ensures
        r@ == trimmed(s@),
{
    let mut a: usize = 0;
    assert(s@.skip(0) =~= s@);
    while a < s.len() && space(s[a])
        invariant
            a <= s@.len(),
            trim_start(s@) == trim_start(s@.skip(a as int)),
        decreases s@.len() - a,
    {
        assert(s@.skip(a as int).skip(1) =~= s@.skip(a + 1));
        a = a + 1;
    }
    let ghost mid = s@.skip(a as int);
    assert(trim_start(s@) == mid);
    let mut b: usize = s.len();
    while a < b && space(s[b - 1])
        invariant
            a <= b <= s@.len(),
            mid == s@.skip(a as int),
            trim_end(mid) == trim_end(s@.subrange(a as int, b as int)),
        decreases b,
    {
        assert(s@.subrange(a as int, b as int).drop_last() =~= s@.subrange(a as int, b - 1));
        b = b - 1;
    }
    &s[a..b]
}

/// The string without leading and trailing white space.
pub fn trim_str(s: &str) -> (r: String)
    ensures
        r@ == trimmed(s@),
{
    let c = chars_of(s);
    string_of(trim(c.as_slice()))
}

/// A trimmed text neither begins nor ends with white space.
pub proof fn lemma_trimmed_ends(s: Seq<char>)
    ensures
        trimmed(s).len() > 0 ==> !is_space(trimmed(s)[0]) && !is_space(trimmed(s).last()),
{
    lemma_trim_start(s);
    lemma_trim_end(trim_start(s));
}

proof fn lemma_trim_start(s: Seq<char>)
    ensures
        trim_start(s).len() > 0 ==> !is_space(trim_start(s)[0]),
    decreases s.len(),
{
    if s.len() > 0 && is_space(s[0]) {
        lemma_trim_start(s.skip(1));
    }
}

proof fn lemma_trim_end(s: Seq<char>)
    ensures
        trim_end(s).len() <= s.len(),
        trim_end(s) == s.take(trim_end(s).len() as int),
        trim_end(s).len() > 0 ==> !is_space(trim_end(s).last()),
    decreases s.len(),
{
    if s.len() > 0 && is_space(s.last()) {
        lemma_trim_end(s.drop_last());
        assert(s.drop_last().take(trim_end(s).len() as int) =~= s.take(trim_end(s).len() as int));
    } else {
        assert(s.take(s.len() as int) =~= s);
    }
}

/// Trimming a trimmed text changes nothing.
pub proof fn lemma_trimmed_idempotent(s: Seq<char>)
    ensures
        trimmed(trimmed(s)) == trimmed(s),
{
    lemma_trimmed_ends(s);
}

// ---------------------------------------------------------------------------
// Splitting, replacing, joining
// ---------------------------------------------------------------------------

/// The parts of `s` between the occurrences of `sep`, found from the left.
pub open spec fn split(s: Seq<char>, sep: Seq<char>) -> Seq<Seq<char>>
    decreases s.len(),
{
    match index_of(s, sep) {
        Some(i) if sep.len() > 0 && 0 <= i && i + sep.len() <= s.len() => seq![s.take(i)] + split(
            s.skip(i + sep.len()),
            sep,
        ),
        _ => seq![s],
    }
}

/// `s` with the occurrences of `from`, found from the left, replaced by `to`.
pub open spec fn replaced(s: Seq<char>, from: Seq<char>, to: Seq<char>) -> Seq<char>
    decreases s.len(),
{
    match index_of(s, from) {
        Some(i) if from.len() > 0 && 0 <= i && i + from.len() <= s.len() => s.take(i) + to
            + replaced(s.skip(i + from.len()), from, to),
        _ => s,
    }
}

/// The runs of characters of `s` that lie between characters outside `keep`.
/// Two such characters in a row have an empty run between them.
pub open spec fn runs(s: Seq<char>, keep: spec_fn(char) -> bool) -> Seq<Seq<char>>
    decreases s.len(),
{
    if s.len() == 0 {
        seq![Seq::<char>::empty()]
    } else {
        let before = runs(s.drop_last(), keep);
        if keep(s.last()) {
            before.update(before.len() - 1, before.last().push(s.last()))
        } else {
            before.push(Seq::<char>::empty())
        }
    }
}

/// The parts one after the other, with `sep` between each two.
pub open spec fn joined(parts: Seq<Seq<char>>, sep: Seq<char>) -> Seq<char>
    decreases parts.len(),
{
    if parts.len() == 0 {
        Seq::empty()
    } else if parts.len() == 1 {
        parts[0]
    } else {
        joined(parts.drop_last(), sep) + sep + parts.last()
    }
}

/// Splitting gives at least one part.
pub proof fn lemma_split_nonempty(s: Seq<char>, sep: Seq<char>)
    ensures
        split(s, sep).len() >= 1,
{
}

/// Replaces a literal pattern throughout.
pub fn replace_str(s: &[char], from: &str, to: &str) -> (r: Vec<char>)
    requires
        from@.len() > 0,
    ensures
        r@ == replaced(s@, from@, to@),
{
    let pat = chars_of(from);
    let new = chars_of(to);
    let mut out: Vec<char> = Vec::new();
    let mut rest: &[char] = s;
    assert(out@ + replaced(rest@, from@, to@) =~= replaced(s@, from@, to@));
    loop
        invariant
            pat@ == from@,
            new@ == to@,
            from@.len() > 0,
            out@ + replaced(rest@, from@, to@) == replaced(s@, from@, to@),
        decreases rest@.len(),
    {
        match find(rest, pat.as_slice()) {
            Some(i) => {
                let ghost before = out@;
                let ghost old_rest = rest@;
                append(&mut out, &rest[0..i]);
                append(&mut out, new.as_slice());
                let end: usize = rest.len();
                rest = &rest[i + pat.len()..end];
                proof {
                    assert(old_rest.subrange(0, i as int) =~= old_rest.take(i as int));
                    assert(rest@ =~= old_rest.skip(i + from@.len()));
                    assert(out@ + replaced(rest@, from@, to@) =~= before + (old_rest.take(i as int)
                        + to@ + replaced(rest@, from@, to@)));
                }
            },
            None => {
                append(&mut out, rest);
                return out;
            },
        }
    }
}

/// The parts between the occurrences of a literal separator.
pub fn split_str<'a>(s: &'a [char], sep: &str) -> (r: Vec<&'a [char]>)
    requires
        sep@.len() > 0,
    ensures
        parts(r@) == split(s@, sep@),
{
    let pat = chars_of(sep);
    let mut out: Vec<&'a [char]> = Vec::new();
    let mut rest: &'a [char] = s;
    assert(parts(out@) + split(rest@, sep@) =~= split(s@, sep@));
    loop
        invariant
            pat@ == sep@,
            sep@.len() > 0,
            parts(out@) + split(rest@, sep@) == split(s@, sep@),
        decreases rest@.len(),
    {
        match find(rest, pat.as_slice()) {
            Some(i) => {
                let ghost before = out@;
                let ghost old_rest = rest@;
                let end: usize = rest.len();
                let piece: &'a [char] = &rest[0..i];
                out.push(piece);
                rest = &rest[i + pat.len()..end];
                proof {
                    assert(old_rest.subrange(0, i as int) =~= old_rest.take(i as int));
                    assert(rest@ =~= old_rest.skip(i + sep@.len()));
                    assert(parts(out@) =~= parts(before).push(piece@));
                    assert(parts(out@) + split(rest@, sep@) =~= parts(before) + (seq![piece@]
                        + split(rest@, sep@)));
                }
            },
            None => {
                let ghost before = out@;
                out.push(rest);
                assert(parts(out@) =~= parts(before) + seq![rest@]);
                return out;
            },
        }
    }
}

/// The elements that satisfy `p`, in order.
pub open spec fn select(v: Seq<Seq<char>>, p: spec_fn(Seq<char>) -> bool) -> Seq<Seq<char>>
    decreases v.len(),
{
    if v.len() == 0 {
        Seq::empty()
    } else if p(v.last()) {
        select(v.drop_last(), p).push(v.last())
    } else {
        select(v.drop_last(), p)
    }
}

/// What is selected are elements that satisfy the condition, and all of them.
pub proof fn lemma_select(v: Seq<Seq<char>>, p: spec_fn(Seq<char>) -> bool, x: Seq<char>)
    ensures
        select(v, p).contains(x) <==> v.contains(x) && p(x),
    decreases v.len(),
{
    if v.len() > 0 {
        lemma_select(v.drop_last(), p, x);
        let before = select(v.drop_last(), p);
        if v.drop_last().contains(x) {
            let i = choose|i: int| 0 <= i < v.drop_last().len() && v.drop_last()[i] == x;
            assert(v[i] == x);
        }
        if v.contains(x) && x != v.last() {
            let i = choose|i: int| 0 <= i < v.len() && v[i] == x;
            assert(v.drop_last()[i] == x);
        }
        assert(v[v.len() - 1] == v.last());
        if p(v.last()) {
            let now = select(v, p);
            assert(now[before.len() as int] == v.last());
            if before.contains(x) {
                let i = choose|i: int| 0 <= i < before.len() && before[i] == x;
                assert(now[i] == x);
            }
            if now.contains(x) && x != v.last() {
                let i = choose|i: int| 0 <= i < now.len() && now[i] == x;
                assert(before[i] == x);
            }
        }
    }
}

/// A character of an identifier: an ASCII letter or digit, a hyphen, and an
/// underscore where that is allowed.
pub open spec fn in_token(c: char, underscore: bool) -> bool {
    is_alnum(c) || c == '-' || (underscore && c == '_')
}

/// The runs of identifier characters.
pub open spec fn tokens(s: Seq<char>, underscore: bool) -> Seq<Seq<char>> {
    runs(s, |c: char| in_token(c, underscore))
}

/// There is always a last run.
pub proof fn lemma_runs_nonempty(s: Seq<char>, keep: spec_fn(char) -> bool)
    ensures
        runs(s, keep).len() >= 1,
    decreases s.len(),
{
    if s.len() > 0 {
        lemma_runs_nonempty(s.drop_last(), keep);
    }
}

/// Cuts a slice into runs of identifier characters.
pub fn tokenize(s: &[char], underscore: bool) -> (r: Vec<Vec<char>>)
    ensures
        rows(r@) == tokens(s@, underscore),
{
    let ghost keep = |c: char| in_token(c, underscore);
    let mut out: Vec<Vec<char>> = Vec::new();
    let mut tok: Vec<char> = Vec::new();
    proof {
        let r = runs(s@.take(0), keep);
        assert(rows(out@) =~= r.drop_last());
        assert(tok@ =~= r.last());
    }
    for i in 0..s.len()
        invariant
            keep == (|c: char| in_token(c, underscore)),
            runs(s@.take(i as int), keep).len() >= 1,
            tok@ == runs(s@.take(i as int), keep).last(),
            rows(out@) == runs(s@.take(i as int), keep).drop_last(),
    {
        let c = s[i];
        let ghost before = runs(s@.take(i as int), keep);
        let ghost after = runs(s@.take(i + 1), keep);
        assert(s@.take(i + 1).drop_last() =~= s@.take(i as int));
        assert(keep(c) == in_token(c, underscore));
        if alnum(c) || c == '-' || (underscore && c == '_') {
            tok.push(c);
            assert(after.drop_last() =~= before.drop_last());
        } else {
            let ghost done = out@;
            let ghost last = tok@;
            out.push(tok);
            assert(rows(out@) =~= rows(done).push(last));
            assert(after.drop_last() =~= before);
            assert(before.drop_last().push(before.last()) =~= before);
            tok = Vec::new();
            assert(tok@ =~= after.last());
        }
    }
    proof {
        assert(s@.take(s@.len() as int) =~= s@);
        let r = runs(s@, keep);
        assert(r.drop_last().push(r.last()) =~= r);
    }
    let ghost done = out@;
    let ghost last = tok@;
    out.push(tok);
    assert(rows(out@) =~= rows(done).push(last));
    out
}

/// Joins strings with a literal separator.
pub fn join(parts: &Vec<String>, sep: &str) -> (r: String)
    ensures
        r@ == joined(strs(parts@), sep@),
{
    let mut out: Vec<char> = Vec::new();
    let gap = chars_of(sep);
    for i in 0..parts.len()
        invariant
            gap@ == sep@,
            out@ == joined(strs(parts@).take(i as int), sep@),
    {
        proof {
            let done = strs(parts@).take(i + 1);
            assert(done.drop_last() =~= strs(parts@).take(i as int));
            assert(done.last() == parts@[i as int]@);
        }
        if i > 0 {
            append(&mut out, gap.as_slice());
        }
        append_str(&mut out, parts[i].as_str());
        proof {
            if i == 0 {
                assert(out@ =~= parts@[0]@);
            }
        }
    }
    assert(strs(parts@).take(parts@.len() as int) =~= strs(parts@));
    string_of(out.as_slice())
}

// ---------------------------------------------------------------------------
// Ordering
// ---------------------------------------------------------------------------

/// Lexicographic order by code point, which is the order of strings.
pub open spec fn less(a: Seq<char>, b: Seq<char>) -> bool
    decreases a.len(),
{
    if b.len() == 0 {
        false
    } else if a.len() == 0 {
        true
    } else if a[0] == b[0] {
        less(a.skip(1), b.skip(1))
    } else {
        a[0] < b[0]
    }
}

/// Each element is less than every later one.
pub open spec fn increasing(v: Seq<Seq<char>>) -> bool {
    forall|i: int, j: int| 0 <= i < j < v.len() ==> less(v[i], v[j])
}

/// The increasing sequence `v` with `x` added, unless it is there already.
pub open spec fn with_element(v: Seq<Seq<char>>, x: Seq<char>) -> Seq<Seq<char>>
    decreases v.len(),
{
    if v.len() == 0 {
        seq![x]
    } else if v.last() == x {
        v
    } else if less(v.last(), x) {
        v.push(x)
    } else {
        with_element(v.drop_last(), x).push(v.last())
    }
}

/// The elements of `v` in increasing order, each once.
pub open spec fn sorted_set(v: Seq<Seq<char>>) -> Seq<Seq<char>>
    decreases v.len(),
{
    if v.len() == 0 {
        Seq::empty()
    } else {
        with_element(sorted_set(v.drop_last()), v.last())
    }
}

/// No text is less than itself, and of two different texts one is less.
pub proof fn lemma_less_total(a: Seq<char>, b: Seq<char>)
    ensures
        a == b ==> !less(a, b),
        a != b ==> less(a, b) != less(b, a),
    decreases a.len(),
{
    if a.len() > 0 && b.len() > 0 && a[0] == b[0] {
        lemma_less_total(a.skip(1), b.skip(1));
        if a.skip(1) == b.skip(1) {
            assert forall|i: int| 0 <= i < a.len() implies a[i] == b[i] by {
                if i > 0 {
                    assert(a[i] == a.skip(1)[i - 1]);
                    assert(b[i] == b.skip(1)[i - 1]);
                }
            }
            assert(a =~= b);
        }
    } else if a.len() == 0 && b.len() == 0 {
        assert(a =~= b);
    }
}

/// The order of texts is transitive.
pub proof fn lemma_less_transitive(a: Seq<char>, b: Seq<char>, c: Seq<char>)
    requires
        less(a, b),
        less(b, c),
    ensures
        less(a, c),
    decreases a.len(),
{
    if a.len() > 0 && b.len() > 0 && c.len() > 0 && a[0] == b[0] && b[0] == c[0] {
        lemma_less_transitive(a.skip(1), b.skip(1), c.skip(1));
    }
}

/// `sorted_set` gives an increasing sequence with exactly the elements of its
/// argument.
pub proof fn lemma_sorted_set(v: Seq<Seq<char>>)
    ensures
        increasing(sorted_set(v)),
        forall|x: Seq<char>| #[trigger] sorted_set(v).contains(x) <==> v.contains(x),
    decreases v.len(),
{
    if v.len() > 0 {
        lemma_sorted_set(v.drop_last());
        let before = sorted_set(v.drop_last());
        lemma_with_element(before, v.last());
        assert forall|x: Seq<char>| #[trigger] sorted_set(v).contains(x) <==> v.contains(x) by {
            if v.contains(x) && x != v.last() {
                let i = choose|i: int| 0 <= i < v.len() && v[i] == x;
                assert(v.drop_last()[i] == x);
                assert(v.drop_last().contains(x));
            }
            if v.drop_last().contains(x) {
                let i = choose|i: int| 0 <= i < v.drop_last().len() && v.drop_last()[i] == x;
                assert(v[i] == x);
            }
            if x == v.last() {
                assert(v[v.len() - 1] == x);
            }
            assert(before.contains(x) <==> v.drop_last().contains(x));
        }
    }
}

proof fn lemma_with_element(v: Seq<Seq<char>>, x: Seq<char>)
    requires
        increasing(v),
    ensures
        increasing(with_element(v, x)),
        forall|y: Seq<char>|
            #[trigger] with_element(v, x).contains(y) <==> v.contains(y) || y == x,
    decreases v.len(),
{
    let r = with_element(v, x);
    if v.len() == 0 {
        assert(r[0] == x);
    } else if v.last() == x {
        assert(v[v.len() - 1] == x);
    } else if less(v.last(), x) {
        assert forall|i: int, j: int| 0 <= i < j < r.len() implies less(r[i], r[j]) by {
            if j == v.len() && i < v.len() - 1 {
                lemma_less_transitive(v[i], v.last(), x);
            }
        }
        assert forall|y: Seq<char>| #[trigger] r.contains(y) <==> v.contains(y) || y == x by {
            if v.contains(y) {
                let i = choose|i: int| 0 <= i < v.len() && v[i] == y;
                assert(r[i] == y);
            }
            assert(r[v.len() as int] == x);
        }
    } else {
        let init = v.drop_last();
        let q = with_element(init, x);
        lemma_with_element(init, x);
        lemma_less_total(v.last(), x);
        assert forall|i: int, j: int| 0 <= i < j < r.len() implies less(r[i], r[j]) by {
            if j == q.len() {
                assert(q.contains(q[i]));
                if q[i] != x {
                    assert(init.contains(q[i]));
                    let k = choose|k: int| 0 <= k < init.len() && init[k] == q[i];
                    assert(less(v[k], v[v.len() - 1]));
                }
            }
        }
        assert forall|y: Seq<char>| #[trigger] r.contains(y) <==> v.contains(y) || y == x by {
            if v.contains(y) {
                let i = choose|i: int| 0 <= i < v.len() && v[i] == y;
                if i < v.len() - 1 {
                    assert(init[i] == y);
                    assert(init.contains(y));
                }
            }
            if init.contains(y) {
                let i = choose|i: int| 0 <= i < init.len() && init[i] == y;
                assert(v[i] == y);
            }
            assert(r[q.len() as int] == v.last());
            if q.contains(y) {
                let i = choose|i: int| 0 <= i < q.len() && q[i] == y;
                assert(r[i] == y);
            }
            assert(q.contains(y) <==> init.contains(y) || y == x);
            assert(v[v.len() - 1] == v.last());
        }
    }
}

/// Whether the first text is less than the second.
pub fn is_less(a: &[char], b: &[char]) -> (r: bool)
    ensures
        r == less(a@, b@),
{
    let mut i: usize = 0;
    assert(a@.skip(0) =~= a@);
    assert(b@.skip(0) =~= b@);
    loop
        invariant
            i <= a@.len(),
            i <= b@.len(),
            less(a@, b@) == less(a@.skip(i as int), b@.skip(i as int)),
        decreases a@.len() - i,
    {
        if i == b.len() {
            return false;
        }
        if i == a.len() {
            return true;
        }
        if a[i] != b[i] {
            return a[i] < b[i];
        }
        assert(a@.skip(i as int).skip(1) =~= a@.skip(i + 1));
        assert(b@.skip(i as int).skip(1) =~= b@.skip(i + 1));
        i = i + 1;
    }
}

/// Whether the first string is less than the second.
pub fn is_less_str(a: &str, b: &str) -> (r: bool)
    ensures
        r == less(a@, b@),
{
    is_less(chars_of(a).as_slice(), chars_of(b).as_slice())
}

/// Adds an element to an increasing list, unless it is there already.
pub fn add_sorted(v: &mut Vec<Vec<char>>, x: Vec<char>)
    ensures
        rows(final(v)@) == with_element(rows(old(v)@), x@),
{
    let ghost all = rows(v@);
    let mut i: usize = v.len();
    assert(rows(v@).take(i as int) =~= all);
    assert(all.skip(i as int) =~= Seq::<Seq<char>>::empty());
    loop
        invariant
            v@ == old(v)@,
            all == rows(v@),
            i <= v@.len(),
            with_element(all, x@) == with_element(all.take(i as int), x@) + all.skip(i as int),
        ensures
            with_element(all.take(i as int), x@) == all.take(i as int).push(x@),
        decreases i,
    {
        if i == 0 {
            assert(all.take(0).push(x@) =~= seq![x@]);
            break;
        }
        proof {
            assert(all.take(i as int).last() == v@[i - 1]@);
            assert(all.take(i as int).drop_last() =~= all.take(i - 1));
        }
        if same(v[i - 1].as_slice(), x.as_slice()) {
            assert(all.take(i as int) + all.skip(i as int) =~= all);
            return;
        }
        if is_less(v[i - 1].as_slice(), x.as_slice()) {
            break;
        }
        proof {
            assert(with_element(all.take(i as int), x@) + all.skip(i as int) =~= with_element(
                all.take(i - 1),
                x@,
            ) + all.skip(i - 1));
        }
        i = i - 1;
    }
    v.insert(i, x);
    assert(rows(v@) =~= all.take(i as int).push(x@) + all.skip(i as int));
}

/// Sorts texts and drops repeated ones.
pub fn sort_unique(v: &Vec<String>) -> (r: Vec<String>)
    ensures
        strs(r@) == sorted_set(strs(v@)),
{
    let ghost all = strs(v@);
    let mut out: Vec<Vec<char>> = Vec::new();
    assert(rows(out@) =~= sorted_set(all.take(0)));
    for i in 0..v.len()
        invariant
            all == strs(v@),
            rows(out@) == sorted_set(all.take(i as int)),
    {
        assert(all.take(i + 1).drop_last() =~= all.take(i as int));
        add_sorted(&mut out, chars_of(v[i].as_str()));
    }
    assert(all.take(v@.len() as int) =~= all);
    strings_of(&out)
}

// ---------------------------------------------------------------------------
// What searching, cutting and joining amount to
// ---------------------------------------------------------------------------

/// A text that stands between two others is found there, and what is found stands
/// between two others.
pub proof fn lemma_has_between(a: Seq<char>, pat: Seq<char>, b: Seq<char>, s: Seq<char>)
    ensures
        has(a + pat + b, pat),
        has(s, pat) <==> exists|x: Seq<char>, y: Seq<char>| s == #[trigger] (x + pat + y),
{
    let t = a + pat + b;
    assert(t.subrange(a.len() as int, (a.len() + pat.len()) as int) =~= pat);
    assert(occurs_at(t, pat, a.len() as int));
    lemma_has(t, pat);
    lemma_has(s, pat);
    if has(s, pat) {
        let i = choose|i: int| occurs_at(s, pat, i);
        let x = s.take(i);
        let y = s.skip(i + pat.len());
        assert(s =~= x + pat + y) by {
            assert(s =~= x + s.subrange(i, i + pat.len()) + y);
        }
    }
    if exists|x: Seq<char>, y: Seq<char>| s == #[trigger] (x + pat + y) {
        let (x, y) = choose|x: Seq<char>, y: Seq<char>| s == #[trigger] (x + pat + y);
        assert(s.subrange(x.len() as int, (x.len() + pat.len()) as int) =~= pat);
        assert(occurs_at(s, pat, x.len() as int));
    }
}

/// What is found in a part of a text is found in the text.
pub proof fn lemma_has_within(a: Seq<char>, s: Seq<char>, b: Seq<char>, pat: Seq<char>)
    requires
        has(s, pat),
    ensures
        has(a + s + b, pat),
{
    lemma_has(s, pat);
    let i = choose|i: int| occurs_at(s, pat, i);
    let t = a + s + b;
    assert(t.subrange(a.len() + i, a.len() + i + pat.len()) =~= pat) by {
        assert(s.subrange(i, i + pat.len()) == pat);
        assert(t.subrange(a.len() + i, a.len() + i + pat.len()) =~= s.subrange(
            i,
            i + pat.len(),
        ));
    }
    assert(occurs_at(t, pat, a.len() + i));
    lemma_has(t, pat);
}

/// `at` lists, in ascending order, exactly the positions below `n` that have a
/// property.
pub open spec fn lists(at: Seq<int>, n: int, p: spec_fn(int) -> bool) -> bool {
    &&& forall|k: int| 0 <= k < at.len() ==> 0 <= #[trigger] at[k] < n && p(at[k])
    &&& forall|k: int, l: int| 0 <= k < l < at.len() ==> #[trigger] at[k] < #[trigger] at[l]
    &&& forall|i: int| 0 <= i < n && #[trigger] p(i) ==> at.contains(i)
}

/// The positions below one more.
pub proof fn lemma_lists_next(
    at: Seq<int>,
    n: int,
    p: spec_fn(int) -> bool,
    q: spec_fn(int) -> bool,
)
    requires
        0 <= n,
        lists(at, n, p),
        forall|i: int| 0 <= i < n ==> #[trigger] p(i) == q(i),
    ensures
        q(n) ==> lists(at.push(n), n + 1, q),
        !q(n) ==> lists(at, n + 1, q),
{
    assert forall|k: int| 0 <= k < at.len() implies 0 <= #[trigger] at[k] < n && q(at[k]) by {
        assert(p(at[k]));
    }
    assert forall|i: int| 0 <= i < n && #[trigger] q(i) implies at.contains(i) by {
        assert(p(i));
    }
    if q(n) {
        let all = at.push(n);
        assert forall|k: int| 0 <= k < all.len() implies 0 <= #[trigger] all[k] < n + 1 && q(
            all[k],
        ) by {
            if k < at.len() {
                assert(all[k] == at[k]);
            }
        }
        assert forall|k: int, l: int| 0 <= k < l < all.len() implies #[trigger] all[k]
            < #[trigger] all[l] by {
            assert(all[k] == at[k]);
            if l < at.len() {
                assert(all[l] == at[l]);
            }
        }
        assert forall|i: int| 0 <= i < n + 1 && #[trigger] q(i) implies all.contains(i) by {
            if i < n {
                let k = choose|k: int| 0 <= k < at.len() && at[k] == i;
                assert(all[k] == i);
            } else {
                assert(all[at.len() as int] == n);
            }
        }
    }
}

/// What is selected stands in the order in which it stood before, and nothing that
/// satisfies the condition is left out.
pub proof fn lemma_select_positions(v: Seq<Seq<char>>, p: spec_fn(Seq<char>) -> bool) -> (at: Seq<
    int,
>)
    ensures
        lists(at, v.len() as int, |i: int| p(v[i])),
        at.len() == select(v, p).len(),
        forall|k: int| 0 <= k < at.len() ==> select(v, p)[k] == v[#[trigger] at[k]],
    decreases v.len(),
{
    let q = |i: int| p(v[i]);
    if v.len() == 0 {
        let none = Seq::<int>::empty();
        assert(lists(none, 0, q));
        none
    } else {
        let init = v.drop_last();
        let before = lemma_select_positions(init, p);
        let n = init.len() as int;
        let before_q = |i: int| p(init[i]);
        assert forall|i: int| 0 <= i < n implies #[trigger] before_q(i) == q(i) by {}
        lemma_lists_next(before, n, before_q, q);
        assert(v[n] == v.last());
        if p(v.last()) {
            let at = before.push(n);
            assert forall|k: int| 0 <= k < at.len() implies select(v, p)[k] == v[#[trigger] at[k]] by {
                if k < before.len() {
                    assert(at[k] == before[k]);
                    assert(init[before[k]] == v[before[k]]);
                }
            }
            at
        } else {
            assert forall|k: int| 0 <= k < before.len() implies select(v, p)[k] == v[#[trigger] before[k]] by {
                assert(init[before[k]] == v[before[k]]);
            }
            before
        }
    }
}

/// The characters from `i` up to `j` all satisfy a condition, and neither neighbour
/// of them does.
pub open spec fn is_run(s: Seq<char>, i: int, j: int, keep: spec_fn(char) -> bool) -> bool {
    &&& 0 <= i < j <= s.len()
    &&& forall|k: int| i <= k < j ==> keep(#[trigger] s[k])
    &&& i == 0 || !keep(s[i - 1])
    &&& j == s.len() || !keep(s[j])
}

/// The texts are those of the longest possible runs of at least so many characters,
/// in the order in which the runs stand.
pub open spec fn in_runs(
    found: Seq<Seq<char>>,
    spans: Seq<(int, int)>,
    s: Seq<char>,
    keep: spec_fn(char) -> bool,
    min: int,
) -> bool {
    &&& spans.len() == found.len()
    &&& forall|k: int|
        0 <= k < spans.len() ==> {
            let span = #[trigger] spans[k];
            &&& is_run(s, span.0, span.1, keep)
            &&& span.1 - span.0 >= min
            &&& found[k] == s.subrange(span.0, span.1)
        }
    &&& forall|k: int, l: int|
        0 <= k < l < spans.len() ==> (#[trigger] spans[k]).1 < (#[trigger] spans[l]).0
    &&& forall|i: int, j: int|
        #[trigger] is_run(s, i, j, keep) && j - i >= min ==> spans.contains((i, j))
}

/// The spans cut a text at the characters that do not satisfy a condition.
spec fn cuts(spans: Seq<(int, int)>, s: Seq<char>, keep: spec_fn(char) -> bool) -> bool {
    &&& spans.len() > 0
    &&& spans[0].0 == 0
    &&& spans.last().1 == s.len()
    &&& forall|k: int|
        0 <= k < spans.len() ==> 0 <= (#[trigger] spans[k]).0 <= spans[k].1 <= s.len()
    &&& forall|k: int, i: int|
        0 <= k < spans.len() && (#[trigger] spans[k]).0 <= i < spans[k].1 ==> keep(#[trigger] s[i])
    &&& forall|k: int|
        0 <= k < spans.len() - 1 ==> (#[trigger] spans[k]).1 < s.len() && !keep(s[spans[k].1])
            && spans[k + 1].0 == spans[k].1 + 1
}

proof fn lemma_cuts(s: Seq<char>, keep: spec_fn(char) -> bool) -> (spans: Seq<(int, int)>)
    ensures
        cuts(spans, s, keep),
        spans.len() == runs(s, keep).len(),
        forall|k: int|
            0 <= k < spans.len() ==> runs(s, keep)[k] == s.subrange(
                (#[trigger] spans[k]).0,
                spans[k].1,
            ),
    decreases s.len(),
{
    if s.len() == 0 {
        let spans = seq![(0int, 0int)];
        assert(s.subrange(0, 0) =~= Seq::<char>::empty());
        spans
    } else {
        let t = s.drop_last();
        let n = t.len() as int;
        let before = lemma_cuts(t, keep);
        let m = before.len() - 1;
        assert(s[n] == s.last());
        let spans = if keep(s.last()) {
            before.update(m, (before[m].0, n + 1))
        } else {
            before.push((n + 1, n + 1))
        };
        assert forall|k: int| 0 <= k < spans.len() implies runs(s, keep)[k] == s.subrange(
            (#[trigger] spans[k]).0,
            spans[k].1,
        ) by {
            if k < before.len() {
                assert(runs(t, keep)[k] == t.subrange(before[k].0, before[k].1));
                assert(t.subrange(before[k].0, before[k].1) =~= s.subrange(
                    before[k].0,
                    before[k].1,
                ));
            }
            if keep(s.last()) && k == m {
                assert(s.subrange(before[m].0, n + 1) =~= s.subrange(before[m].0, n).push(
                    s.last(),
                ));
            }
            if !keep(s.last()) && k == before.len() {
                assert(s.subrange(n + 1, n + 1) =~= Seq::<char>::empty());
            }
        }
        assert forall|k: int, i: int|
            0 <= k < spans.len() && (#[trigger] spans[k]).0 <= i < spans[k].1 implies keep(
            #[trigger] s[i],
        ) by {
            if i < n {
                assert(before[k].0 <= i < before[k].1);
                assert(t[i] == s[i]);
            }
        }
        assert forall|k: int| 0 <= k < spans.len() - 1 implies (#[trigger] spans[k]).1 < s.len()
            && !keep(s[spans[k].1]) && spans[k + 1].0 == spans[k].1 + 1 by {
            if k < m {
                assert(before[k].1 < t.len() && !keep(t[before[k].1]));
                assert(before[k + 1].0 == before[k].1 + 1);
            }
        }
        spans
    }
}

proof fn lemma_span_at(spans: Seq<(int, int)>, s: Seq<char>, keep: spec_fn(char) -> bool, i: int) -> (
    k: int)
    requires
        cuts(spans, s, keep),
        0 <= i < s.len(),
    ensures
        0 <= k < spans.len(),
        spans[k].0 <= i <= spans[k].1,
{
    lemma_span_from(spans, s, keep, i, 0)
}

proof fn lemma_span_from(
    spans: Seq<(int, int)>,
    s: Seq<char>,
    keep: spec_fn(char) -> bool,
    i: int,
    from: int,
) -> (k: int)
    requires
        cuts(spans, s, keep),
        0 <= from < spans.len(),
        spans[from].0 <= i < s.len(),
    ensures
        0 <= k < spans.len(),
        spans[k].0 <= i <= spans[k].1,
    decreases spans.len() - from,
{
    if i <= spans[from].1 {
        from
    } else {
        assert(spans[from + 1].0 == spans[from].1 + 1);
        lemma_span_from(spans, s, keep, i, from + 1)
    }
}

proof fn lemma_run_is_a_span(
    spans: Seq<(int, int)>,
    s: Seq<char>,
    keep: spec_fn(char) -> bool,
    i: int,
    j: int,
) -> (k: int)
    requires
        cuts(spans, s, keep),
        is_run(s, i, j, keep),
    ensures
        0 <= k < spans.len(),
        spans[k] == (i, j),
{
    let k = lemma_span_at(spans, s, keep, i);
    assert(keep(s[i]));
    assert(i < spans[k].1) by {
        if k < spans.len() - 1 {
            assert(!keep(s[spans[k].1]));
        }
    }
    if spans[k].0 < i {
        assert(keep(s[i - 1]));
    }
    if j < spans[k].1 {
        assert(keep(s[j]));
    }
    if spans[k].1 < j {
        assert(!keep(s[spans[k].1]));
    }
    k
}

proof fn lemma_span_is_a_run(
    spans: Seq<(int, int)>,
    s: Seq<char>,
    keep: spec_fn(char) -> bool,
    k: int,
)
    requires
        cuts(spans, s, keep),
        0 <= k < spans.len(),
        spans[k].0 < spans[k].1,
    ensures
        is_run(s, spans[k].0, spans[k].1, keep),
{
    if k > 0 {
        assert(spans[k - 1 + 1].0 == spans[k - 1].1 + 1);
        assert(!keep(s[spans[k - 1].1]));
    }
    assert forall|i: int| spans[k].0 <= i < spans[k].1 implies keep(#[trigger] s[i]) by {}
    if spans[k].1 < s.len() {
        assert(k < spans.len() - 1);
    }
}

proof fn lemma_spans_apart(
    spans: Seq<(int, int)>,
    s: Seq<char>,
    keep: spec_fn(char) -> bool,
    k: int,
    l: int,
)
    requires
        cuts(spans, s, keep),
        0 <= k < l < spans.len(),
    ensures
        spans[k].1 < spans[l].0,
    decreases l - k,
{
    assert(spans[l - 1 + 1].0 == spans[l - 1].1 + 1);
    if k < l - 1 {
        lemma_spans_apart(spans, s, keep, k, l - 1);
    }
}

/// Cutting a text into runs and keeping those of some length gives the longest
/// possible runs of at least that length, all of them and in their order.
pub proof fn lemma_runs(s: Seq<char>, keep: spec_fn(char) -> bool, min: int) -> (spans: Seq<
    (int, int),
>)
    requires
        min >= 1,
    ensures
        in_runs(select(runs(s, keep), |t: Seq<char>| t.len() >= min), spans, s, keep, min),
{
    let p = |t: Seq<char>| t.len() >= min;
    let all = runs(s, keep);
    let found = select(all, p);
    let cut = lemma_cuts(s, keep);
    let at = lemma_select_positions(all, p);
    let q = |i: int| p(all[i]);
    let spans = Seq::new(at.len(), |k: int| cut[at[k]]);
    assert forall|k: int| 0 <= k < spans.len() implies {
        let span = #[trigger] spans[k];
        &&& is_run(s, span.0, span.1, keep)
        &&& span.1 - span.0 >= min
        &&& found[k] == s.subrange(span.0, span.1)
    } by {
        assert(found[k] == all[at[k]]);
        assert(q(at[k]));
        assert(p(all[at[k]]));
        assert(all[at[k]] == s.subrange(cut[at[k]].0, cut[at[k]].1));
        lemma_span_is_a_run(cut, s, keep, at[k]);
    }
    assert forall|k: int, l: int| 0 <= k < l < spans.len() implies (#[trigger] spans[k]).1 < (
    #[trigger] spans[l]).0 by {
        assert(at[k] < at[l]);
        lemma_spans_apart(cut, s, keep, at[k], at[l]);
    }
    assert forall|i: int, j: int| #[trigger]
        is_run(s, i, j, keep) && j - i >= min implies spans.contains((i, j)) by {
        let n = lemma_run_is_a_span(cut, s, keep, i, j);
        assert(all[n] == s.subrange(cut[n].0, cut[n].1));
        assert(p(all[n]));
        assert(q(n));
        let k = choose|k: int| 0 <= k < at.len() && at[k] == n;
        assert(spans[k] == (i, j));
    }
    spans
}

/// A text is among the runs exactly where it stands as a longest possible run, or
/// is empty.
pub proof fn lemma_run_texts(s: Seq<char>, keep: spec_fn(char) -> bool, t: Seq<char>)
    requires
        t.len() > 0,
    ensures
        runs(s, keep).contains(t) <==> exists|i: int, j: int| #[trigger]
            is_run(s, i, j, keep) && t == s.subrange(i, j),
{
    let all = runs(s, keep);
    let cut = lemma_cuts(s, keep);
    if all.contains(t) {
        let k = choose|k: int| 0 <= k < all.len() && all[k] == t;
        assert(all[k] == s.subrange(cut[k].0, cut[k].1));
        lemma_span_is_a_run(cut, s, keep, k);
        assert(is_run(s, cut[k].0, cut[k].1, keep) && t == s.subrange(cut[k].0, cut[k].1));
    }
    if exists|i: int, j: int| #[trigger] is_run(s, i, j, keep) && t == s.subrange(i, j) {
        let (i, j) = choose|i: int, j: int| #[trigger]
            is_run(s, i, j, keep) && t == s.subrange(i, j);
        let k = lemma_run_is_a_span(cut, s, keep, i, j);
        assert(all[k] == s.subrange(cut[k].0, cut[k].1));
    }
}

/// Trimming takes away white space at both ends and nothing else; nothing is left
/// exactly of a text that is all white space.
pub proof fn lemma_trimmed_is_the_middle(s: Seq<char>)
    ensures
        exists|i: int, j: int|
            0 <= i <= j <= s.len() && trimmed(s) == #[trigger] s.subrange(i, j) && (forall|k: int|
                0 <= k < i || j <= k < s.len() ==> is_space(#[trigger] s[k])),
        trimmed(s).len() > 0 ==> !is_space(trimmed(s)[0]) && !is_space(trimmed(s).last()),
        trimmed(s).len() == 0 <==> forall|k: int| 0 <= k < s.len() ==> is_space(#[trigger] s[k]),
{
    lemma_trimmed_ends(s);
    let mid = trim_start(s);
    let i = lemma_trim_start_skips(s);
    lemma_trim_end_takes(mid);
    let j = i + trim_end(mid).len();
    assert(trimmed(s) =~= s.subrange(i, j));
    assert forall|k: int| 0 <= k < i || j <= k < s.len() implies is_space(#[trigger] s[k]) by {
        if j <= k {
            assert(mid[k - i] == s[k]);
        }
    }
    if trimmed(s).len() > 0 {
        assert(s[i] == trimmed(s)[0]);
    }
}

proof fn lemma_trim_start_skips(s: Seq<char>) -> (i: int)
    ensures
        0 <= i <= s.len(),
        trim_start(s) == s.skip(i),
        forall|k: int| 0 <= k < i ==> is_space(#[trigger] s[k]),
    decreases s.len(),
{
    if s.len() > 0 && is_space(s[0]) {
        let i = lemma_trim_start_skips(s.skip(1));
        assert(s.skip(1).skip(i) =~= s.skip(i + 1));
        assert forall|k: int| 0 <= k < i + 1 implies is_space(#[trigger] s[k]) by {
            if k > 0 {
                assert(s.skip(1)[k - 1] == s[k]);
            }
        }
        i + 1
    } else {
        assert(s.skip(0) =~= s);
        0
    }
}

proof fn lemma_trim_end_takes(s: Seq<char>)
    ensures
        trim_end(s).len() <= s.len(),
        trim_end(s) == s.take(trim_end(s).len() as int),
        forall|k: int| trim_end(s).len() <= k < s.len() ==> is_space(#[trigger] s[k]),
    decreases s.len(),
{
    lemma_trim_end(s);
    if s.len() > 0 && is_space(s.last()) {
        lemma_trim_end_takes(s.drop_last());
        assert forall|k: int| trim_end(s).len() <= k < s.len() implies is_space(
            #[trigger] s[k],
        ) by {
            if k < s.len() - 1 {
                assert(s.drop_last()[k] == s[k]);
            }
        }
    }
}

/// A text without white space at its ends is not changed by trimming, and white
/// space around a text makes no difference.
pub proof fn lemma_trimmed_around(a: Seq<char>, s: Seq<char>, b: Seq<char>)
    requires
        forall|k: int| 0 <= k < a.len() ==> is_space(#[trigger] a[k]),
        forall|k: int| 0 <= k < b.len() ==> is_space(#[trigger] b[k]),
        s.len() > 0 ==> !is_space(s[0]) && !is_space(s.last()),
    ensures
        trimmed(a + s + b) == s,
{
    let t = a + s + b;
    lemma_trimmed_is_the_middle(t);
    let (i, j) = choose|i: int, j: int|
        0 <= i <= j <= t.len() && trimmed(t) == #[trigger] t.subrange(i, j) && (forall|k: int|
            0 <= k < i || j <= k < t.len() ==> is_space(#[trigger] t[k]));
    if s.len() > 0 {
        assert(t[a.len() as int] == s[0]);
        assert(t[a.len() + s.len() - 1] == s.last());
        assert(i <= a.len());
        assert(j >= a.len() + s.len());
        if i < a.len() {
            assert(trimmed(t)[0] == a[i]);
        }
        if j > a.len() + s.len() {
            assert(trimmed(t).last() == b[j - 1 - a.len() - s.len()]);
        }
        assert(trimmed(t) =~= s);
    } else {
        assert forall|k: int| 0 <= k < t.len() implies is_space(#[trigger] t[k]) by {
            if k < a.len() {
                assert(t[k] == a[k]);
            } else {
                assert(t[k] == b[k - a.len()]);
            }
        }
        assert(trimmed(t) =~= s);
    }
}

/// Each of the parts can be found in what they are joined to.
pub proof fn lemma_joined_has(parts: Seq<Seq<char>>, sep: Seq<char>, i: int)
    requires
        0 <= i < parts.len(),
    ensures
        has(joined(parts, sep), parts[i]),
    decreases parts.len(),
{
    let none = Seq::<char>::empty();
    if parts.len() == 1 {
        lemma_has_between(none, parts[0], none, none);
        assert(none + parts[0] + none =~= parts[0]);
    } else {
        let init = joined(parts.drop_last(), sep);
        if i == parts.len() - 1 {
            lemma_has_between(init + sep, parts[i], none, none);
            assert(init + sep + parts[i] + none =~= joined(parts, sep));
        } else {
            lemma_joined_has(parts.drop_last(), sep, i);
            lemma_has_within(none, init, sep + parts.last(), parts[i]);
            assert(none + init + (sep + parts.last()) =~= joined(parts, sep));
        }
    }
}

/// The character is in none of the parts.
pub open spec fn free_of(parts: Seq<Seq<char>>, c: char) -> bool {
    forall|i: int| 0 <= i < parts.len() ==> !(#[trigger] parts[i]).contains(c)
}

/// Where no part has the separator, the parts can be told from what they are
/// joined to.
pub proof fn lemma_joined_apart(a: Seq<Seq<char>>, b: Seq<Seq<char>>, c: char)
    requires
        a.len() > 0,
        b.len() > 0,
        free_of(a, c),
        free_of(b, c),
        joined(a, seq![c]) == joined(b, seq![c]),
    ensures
        a == b,
    decreases a.len(),
{
    let x = joined(a, seq![c]);
    if a.len() > 1 {
        lemma_last_part(a, c);
    }
    if b.len() > 1 {
        lemma_last_part(b, c);
    }
    if a.len() > 1 && b.len() > 1 {
        let i = x.len() - a.last().len() - 1;
        let j = x.len() - b.last().len() - 1;
        if i < j {
            assert(a.last()[j - i - 1] == x[j]);
            assert(a[a.len() - 1].contains(c));
        }
        if j < i {
            assert(b.last()[i - j - 1] == x[i]);
            assert(b[b.len() - 1].contains(c));
        }
        assert(a.last() =~= x.skip(i + 1));
        assert(b.last() =~= x.skip(j + 1));
        assert(joined(a.drop_last(), seq![c]) =~= x.take(i));
        assert(joined(b.drop_last(), seq![c]) =~= x.take(j));
        assert(free_of(a.drop_last(), c)) by {
            assert forall|k: int| 0 <= k < a.len() - 1 implies !(
            #[trigger] a.drop_last()[k]).contains(c) by {
                assert(a[k] == a.drop_last()[k]);
            }
        }
        assert(free_of(b.drop_last(), c)) by {
            assert forall|k: int| 0 <= k < b.len() - 1 implies !(
            #[trigger] b.drop_last()[k]).contains(c) by {
                assert(b[k] == b.drop_last()[k]);
            }
        }
        lemma_joined_apart(a.drop_last(), b.drop_last(), c);
        assert(a =~= a.drop_last().push(a.last()));
        assert(b =~= b.drop_last().push(b.last()));
    } else if a.len() == 1 && b.len() == 1 {
        assert(a =~= b);
    } else if a.len() == 1 {
        assert(a[0][x.len() - b.last().len() - 1] == c);
    } else {
        assert(b[0][x.len() - a.last().len() - 1] == c);
    }
}

proof fn lemma_last_part(a: Seq<Seq<char>>, c: char)
    requires
        a.len() > 1,
    ensures
        ({
            let x = joined(a, seq![c]);
            let i = x.len() - a.last().len() - 1;
            &&& 0 <= i < x.len()
            &&& x[i] == c
            &&& x.take(i) == joined(a.drop_last(), seq![c])
            &&& x.skip(i + 1) == a.last()
        }),
{
    let x = joined(a, seq![c]);
    let init = joined(a.drop_last(), seq![c]);
    let i = init.len() as int;
    assert(x =~= init + seq![c] + a.last());
    assert(x.take(i) =~= init);
    assert(x.skip(i + 1) =~= a.last());
}

/// Replacing goes on behind a beginning in which the pattern does not start.
pub proof fn lemma_replaced_behind(p: Seq<char>, x: Seq<char>, from: Seq<char>, to: Seq<char>)
    requires
        from.len() > 0,
        forall|i: int| 0 <= i < p.len() ==> !#[trigger] occurs_at(p + x, from, i),
    ensures
        replaced(p + x, from, to) == p + replaced(x, from, to),
{
    let s = p + x;
    let n = p.len() as int;
    lemma_index_from(s, from, 0);
    lemma_index_from(x, from, 0);
    assert forall|i: int| 0 <= i implies occurs_at(s, from, n + i) == #[trigger] occurs_at(
        x,
        from,
        i,
    ) by {
        if i + from.len() <= x.len() {
            assert(s.subrange(n + i, n + i + from.len()) =~= x.subrange(i, i + from.len()));
        }
    }
    match index_of(x, from) {
        Some(k) => {
            assert(occurs_at(x, from, k));
            assert(occurs_at(s, from, n + k));
            let f = index_of(s, from)->0;
            assert(index_of(s, from) is Some);
            assert(f >= n);
            if f < n + k {
                assert(occurs_at(x, from, f - n));
            }
            assert(f == n + k);
            assert(s.take(n + k) =~= p + x.take(k));
            assert(s.skip(n + k + from.len()) =~= x.skip(k + from.len()));
            assert(replaced(s, from, to) =~= p + replaced(x, from, to));
        },
        None => {
            if index_of(s, from) is Some {
                let f = index_of(s, from)->0;
                assert(occurs_at(x, from, f - n));
            }
        },
    }
}

/// A pattern in front is replaced.
pub proof fn lemma_replaced_front(x: Seq<char>, from: Seq<char>, to: Seq<char>)
    requires
        from.len() > 0,
    ensures
        replaced(from + x, from, to) == to + replaced(x, from, to),
{
    let s = from + x;
    assert(s.subrange(0, from.len() as int) =~= from);
    assert(occurs_at(s, from, 0));
    assert(s.take(0) =~= Seq::<char>::empty());
    assert(s.skip(from.len() as int) =~= x);
    assert(replaced(s, from, to) =~= to + replaced(x, from, to));
}

/// A pattern that has its first character only at its start begins nowhere in a text
/// without it, up to where that character stands behind the text.
pub proof fn lemma_none_before(a: Seq<char>, b: Seq<char>, q: Seq<char>)
    requires
        q.len() > 0,
        !self::has(a, q),
        b.len() == 0 || b[0] == q[0],
        forall|j: int| 1 <= j < q.len() ==> #[trigger] q[j] != q[0],
    ensures
        forall|i: int| 0 <= i < a.len() ==> !#[trigger] occurs_at(a + b, q, i),
        match index_of(a + b, q) {
            Some(k) => k >= a.len() && occurs_at(a + b, q, k),
            None => true,
        },
{
    let s = a + b;
    lemma_has(a, q);
    assert forall|i: int| 0 <= i < a.len() implies !#[trigger] occurs_at(s, q, i) by {
        if occurs_at(s, q, i) {
            let t = s.subrange(i, i + q.len());
            assert(t == q);
            if i + q.len() <= a.len() {
                assert(a.subrange(i, i + q.len()) =~= t);
                assert(occurs_at(a, q, i));
            } else {
                assert(t[a.len() - i] == b[0]);
            }
        }
    }
    lemma_index_from(s, q, 0);
}

/// Where a pattern follows such a text, that is where it is found.
pub proof fn lemma_found_behind(a: Seq<char>, q: Seq<char>, b: Seq<char>)
    requires
        q.len() > 0,
        !self::has(a, q),
        forall|j: int| 1 <= j < q.len() ==> #[trigger] q[j] != q[0],
    ensures
        index_of(a + q + b, q) == Some(a.len() as int),
{
    let s = a + q + b;
    assert(s =~= a + (q + b));
    lemma_none_before(a, q + b, q);
    assert(s.subrange(a.len() as int, (a.len() + q.len()) as int) =~= q);
    assert(occurs_at(s, q, a.len() as int));
    lemma_index_from(s, q, 0);
}

/// A pattern that needs a character is not in a text without it.
pub proof fn lemma_needs(s: Seq<char>, q: Seq<char>, c: char)
    requires
        q.contains(c),
        !s.contains(c),
    ensures
        !self::has(s, q),
{
    lemma_has(s, q);
    if has(s, q) {
        let i = choose|i: int| occurs_at(s, q, i);
        let j = choose|j: int| 0 <= j < q.len() && q[j] == c;
        assert(s.subrange(i, i + q.len())[j] == s[i + j]);
        assert(s[i + j] == c);
    }
}

/// Splitting cuts at a separator: what stands before the first one is a part, and
/// the rest is split likewise. A text without it is a part as a whole.
pub proof fn lemma_split_cuts(a: Seq<char>, sep: Seq<char>, b: Seq<char>)
    requires
        sep.len() > 0,
        !self::has(a, sep),
        forall|j: int| 1 <= j < sep.len() ==> #[trigger] sep[j] != sep[0],
    ensures
        split(a, sep) == seq![a],
        split(a + sep + b, sep) == seq![a] + split(b, sep),
{
    lemma_found_behind(a, sep, b);
    let s = a + sep + b;
    assert(s.take(a.len() as int) =~= a);
    assert(s.skip(a.len() as int + sep.len()) =~= b);
}

/// A text in which no separator begins is part of the first part.
pub proof fn lemma_split_front(a: Seq<char>, b: Seq<char>, sep: Seq<char>)
    requires
        sep.len() > 0,
        forall|i: int| 0 <= i < a.len() ==> !#[trigger] occurs_at(a + b, sep, i),
    ensures
        split(b, sep).len() >= 1,
        split(a + b, sep).len() == split(b, sep).len(),
        split(a + b, sep)[0] == a + split(b, sep)[0],
        split(a + b, sep).skip(1) == split(b, sep).skip(1),
{
    let s = a + b;
    let n = a.len() as int;
    lemma_index_from(s, sep, 0);
    lemma_index_from(b, sep, 0);
    assert forall|i: int| 0 <= i implies occurs_at(s, sep, n + i) == #[trigger] occurs_at(
        b,
        sep,
        i,
    ) by {
        if i + sep.len() <= b.len() {
            assert(s.subrange(n + i, n + i + sep.len()) =~= b.subrange(i, i + sep.len()));
        }
    }
    match index_of(b, sep) {
        Some(k) => {
            assert(occurs_at(b, sep, k));
            assert(occurs_at(s, sep, n + k));
            let f = index_of(s, sep)->0;
            if f < n + k {
                assert(occurs_at(b, sep, f - n));
            }
            assert(s.take(n + k) =~= a + b.take(k));
            assert(s.skip(n + k + sep.len()) =~= b.skip(k + sep.len()));
            assert(split(s, sep).skip(1) =~= split(b, sep).skip(1));
        },
        None => {
            if index_of(s, sep) is Some {
                let f = index_of(s, sep)->0;
                assert(occurs_at(b, sep, f - n));
            }
            assert(split(s, sep).skip(1) =~= split(b, sep).skip(1));
        },
    }
}

/// A pattern begins nowhere in a text without it, up to a character behind the text
/// that the pattern has at most at its start.
pub proof fn lemma_none_across(a: Seq<char>, b: Seq<char>, q: Seq<char>)
    requires
        q.len() > 0,
        !self::has(a, q),
        b.len() > 0 ==> forall|j: int| 1 <= j < q.len() ==> #[trigger] q[j] != b[0],
    ensures
        forall|i: int| 0 <= i < a.len() ==> !#[trigger] occurs_at(a + b, q, i),
{
    let s = a + b;
    lemma_has(a, q);
    assert forall|i: int| 0 <= i < a.len() implies !#[trigger] occurs_at(s, q, i) by {
        if occurs_at(s, q, i) {
            let t = s.subrange(i, i + q.len());
            assert(t == q);
            if i + q.len() <= a.len() {
                assert(a.subrange(i, i + q.len()) =~= t);
                assert(occurs_at(a, q, i));
            } else {
                assert(t[a.len() - i] == b[0]);
            }
        }
    }
}

/// What is found behind a text in which the pattern does not begin is found there as
/// if the text were not there.
pub proof fn lemma_index_behind(a: Seq<char>, b: Seq<char>, q: Seq<char>)
    requires
        forall|i: int| 0 <= i < a.len() ==> !#[trigger] occurs_at(a + b, q, i),
    ensures
        index_of(a + b, q) == (match index_of(b, q) {
            Some(k) => Some(k + a.len()),
            None => None,
        }),
{
    let s = a + b;
    let n = a.len() as int;
    lemma_index_from(s, q, 0);
    lemma_index_from(b, q, 0);
    assert forall|i: int| 0 <= i implies occurs_at(s, q, n + i) == #[trigger] occurs_at(b, q, i) by {
        if i + q.len() <= b.len() {
            assert(s.subrange(n + i, n + i + q.len()) =~= b.subrange(i, i + q.len()));
        }
    }
    match index_of(b, q) {
        Some(k) => {
            assert(occurs_at(b, q, k));
            assert(occurs_at(s, q, n + k));
            let f = index_of(s, q)->0;
            if f < n + k {
                assert(occurs_at(b, q, f - n));
            }
        },
        None => {
            if index_of(s, q) is Some {
                let f = index_of(s, q)->0;
                assert(occurs_at(b, q, f - n));
            }
        },
    }
}

// ---------------------------------------------------------------------------
// Characters and their order
// ---------------------------------------------------------------------------

/// White space are the 25 characters that Unicode lists with the property
/// `White_Space`.
pub proof fn lemma_white_space(c: char)
    ensures
        is_space(c) <==> {
            let n = c as u32;
            n == 0x9 || n == 0xa || n == 0xb || n == 0xc || n == 0xd || n == 0x20 || n == 0x85 || n
                == 0xa0 || n == 0x1680 || n == 0x2000 || n == 0x2001 || n == 0x2002 || n == 0x2003
                || n == 0x2004 || n == 0x2005 || n == 0x2006 || n == 0x2007 || n == 0x2008 || n
                == 0x2009 || n == 0x200a || n == 0x2028 || n == 0x2029 || n == 0x202f || n == 0x205f
                || n == 0x3000
        },
{
}

/// There are 10 digits and 26 letters of each case; a letter is lowered by 32 places,
/// and only a capital changes.
pub proof fn lemma_letters(c: char)
    ensures
        is_digit(c) <==> 0 <= c as int - 48 < 10,
        is_alnum(c) <==> is_digit(c) || 0 <= c as int - 65 < 26 || 0 <= c as int - 97 < 26,
        ascii_lower(c) != c <==> 0 <= c as int - 65 < 26,
        ascii_lower(c) != c ==> ascii_lower(c) as int == c as int + 32,
        is_alnum(ascii_lower(c)) == is_alnum(c),
        is_space(c) ==> !is_alnum(c),
{
}

/// The first difference decides which of two texts is less, and a text is less than
/// any that goes on behind it.
pub proof fn lemma_less_decided(common: Seq<char>, x: char, a: Seq<char>, y: char, b: Seq<char>)
    ensures
        x != y ==> (less(common.push(x) + a, common.push(y) + b) <==> (x as u32) < y as u32),
        less(common, common.push(x) + a),
        !less(common.push(x) + a, common),
    decreases common.len(),
{
    let s = common.push(x) + a;
    let t = common.push(y) + b;
    if common.len() > 0 {
        let rest = common.skip(1);
        lemma_less_decided(rest, x, a, y, b);
        assert(s.skip(1) =~= rest.push(x) + a);
        assert(t.skip(1) =~= rest.push(y) + b);
        assert(s[0] == common[0] && t[0] == common[0]);
    } else {
        assert(s[0] == x && t[0] == y);
    }
}

/// To begin with a text is to have it in front of something else, and to end with one
/// is to have it behind something else.
pub proof fn lemma_begins_and_ends(s: Seq<char>, p: Seq<char>, rest: Seq<char>)
    ensures
        begins(p + rest, p),
        ends(rest + p, p),
        begins(s, p) ==> s == p + s.skip(p.len() as int),
        ends(s, p) ==> s == s.take(s.len() - p.len()) + p,
{
    assert((p + rest).subrange(0, p.len() as int) =~= p);
    let n = rest.len() as int;
    assert((rest + p).subrange(n, n + p.len()) =~= p);
    if begins(s, p) {
        assert(s =~= s.subrange(0, p.len() as int) + s.skip(p.len() as int));
    }
    if ends(s, p) {
        let m = s.len() - p.len();
        assert(s =~= s.take(m) + s.subrange(m, m + p.len()));
    }
}

} // verus!
