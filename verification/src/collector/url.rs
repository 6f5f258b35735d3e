//! Addresses of the pages that are collected.

use crate::text;
use vstd::prelude::*;
use vstd::utf8::encode_utf8;

verus! {

broadcast use vstd::string::group_string_axioms;

/// The MediaWiki interface of the English Wikipedia.
pub const WIKI_API: &'static str = "https://en.wikipedia.org/w/api.php";

/// The upper case hexadecimal digit of a value below 16.
pub open spec fn hex_digit(n: int) -> char {
    if n < 10 {
        ('0' as int + n) as char
    } else {
        ('A' as int + (n - 10)) as char
    }
}

/// The bytes that stand for themselves in an address.
pub open spec fn unreserved(b: u8) -> bool {
    ||| 'A' as int <= b <= 'Z' as int
    ||| 'a' as int <= b <= 'z' as int
    ||| '0' as int <= b <= '9' as int
    ||| b == '-' as int
    ||| b == '_' as int
    ||| b == '.' as int
    ||| b == '~' as int
}

/// The text of one byte: itself, or `%` with two hexadecimal digits.
pub open spec fn escaped_byte(b: u8) -> Seq<char> {
    if unreserved(b) {
        seq![b as char]
    } else {
        seq!['%', hex_digit(b as int / 16), hex_digit(b as int % 16)]
    }
}

/// The text of a list of bytes.
pub open spec fn escaped(bytes: Seq<u8>) -> Seq<char>
    decreases bytes.len(),
{
    if bytes.len() == 0 {
        Seq::empty()
    } else {
        escaped(bytes.drop_last()) + escaped_byte(bytes.last())
    }
}

/// The value of an upper case hexadecimal digit.
pub open spec fn hex_value(c: char) -> int {
    if c <= '9' {
        c as int - '0' as int
    } else {
        c as int - 'A' as int + 10
    }
}

/// Reads back the bytes of an escaped text.
pub open spec fn unescaped_bytes(s: Seq<char>) -> Seq<u8>
    decreases s.len(),
{
    if s.len() == 0 {
        Seq::empty()
    } else if s[0] == '%' && s.len() >= 3 {
        seq![(hex_value(s[1]) * 16 + hex_value(s[2])) as u8] + unescaped_bytes(s.skip(3))
    } else {
        seq![s[0] as u8] + unescaped_bytes(s.skip(1))
    }
}

fn hex_char(n: u8) -> (c: char)
    requires
        n < 16,
    ensures
        c == hex_digit(n as int),
{
    if n < 10 {
        (48 + n) as char
    } else {
        (55 + n) as char
    }
}

/// Percent encoding for the query part of an address, over the UTF-8 bytes.
pub fn percent_encode(s: &str) -> (r: String)
    ensures
        r@ == escaped(encode_utf8(s@)),
{
    let bytes = s.as_bytes();
    let mut out: Vec<char> = Vec::new();
    for i in 0..bytes.len()
        invariant
            out@ == escaped(bytes@.take(i as int)),
    {
        let b: u8 = bytes[i];
        assert(bytes@.take(i + 1).drop_last() =~= bytes@.take(i as int));
        if (65 <= b && b <= 90) || (97 <= b && b <= 122) || (48 <= b && b <= 57) || b == 45 || b
            == 95 || b == 46 || b == 126 {
            out.push(b as char);
            assert(unreserved(b));
        } else {
            assert(!unreserved(b));
            out.push('%');
            out.push(hex_char(b / 16));
            out.push(hex_char(b % 16));
        }
        assert(out@ =~= escaped(bytes@.take(i as int)) + escaped_byte(b));
    }
    assert(bytes@.take(bytes@.len() as int) =~= bytes@);
    text::string_of(out.as_slice())
}

/// Escaping goes byte by byte.
proof fn lemma_escaped_front(bytes: Seq<u8>)
    requires
        bytes.len() > 0,
    ensures
        escaped(bytes) == escaped_byte(bytes[0]) + escaped(bytes.skip(1)),
    decreases bytes.len(),
{
    if bytes.len() == 1 {
        assert(bytes.drop_last() =~= Seq::<u8>::empty());
        assert(bytes.skip(1) =~= Seq::<u8>::empty());
        assert(escaped(bytes) =~= escaped_byte(bytes[0]) + escaped(bytes.skip(1)));
    } else {
        lemma_escaped_front(bytes.drop_last());
        assert(bytes.drop_last().skip(1) =~= bytes.skip(1).drop_last());
        assert(escaped(bytes) =~= escaped_byte(bytes[0]) + escaped(bytes.skip(1)));
    }
}

/// Percent encoding loses nothing: the bytes can be read back from the text.
pub proof fn lemma_escaped_reads_back(bytes: Seq<u8>)
    ensures
        unescaped_bytes(escaped(bytes)) == bytes,
    decreases bytes.len(),
{
    if bytes.len() > 0 {
        let b = bytes[0];
        let rest = bytes.skip(1);
        let all = escaped(bytes);
        lemma_escaped_front(bytes);
        lemma_escaped_reads_back(rest);
        if unreserved(b) {
            assert(all.skip(1) =~= escaped(rest));
        } else {
            assert(all.skip(3) =~= escaped(rest));
            assert(hex_value(all[1]) == b as int / 16);
            assert(hex_value(all[2]) == b as int % 16);
        }
        assert(seq![b] + rest =~= bytes);
    } else {
        assert(escaped(bytes) =~= Seq::<char>::empty());
        assert(bytes =~= Seq::<u8>::empty());
    }
}

/// A character that may stand in an escaped text.
pub open spec fn in_address(c: char) -> bool {
    c == '%' || (c as int <= 255 && unreserved(c as u8))
}

/// An encoded text has only unreserved characters and percent signs, so that it
/// adds no delimiter to an address.
pub proof fn lemma_escaped_is_plain(bytes: Seq<u8>)
    ensures
        forall|i: int| 0 <= i < escaped(bytes).len() ==> in_address(#[trigger] escaped(bytes)[i]),
    decreases bytes.len(),
{
    if bytes.len() > 0 {
        lemma_escaped_is_plain(bytes.drop_last());
        let b = bytes.last();
        assert forall|i: int| 0 <= i < escaped_byte(b).len() implies in_address(
            #[trigger] escaped_byte(b)[i],
        ) by {}
        assert forall|i: int| 0 <= i < escaped(bytes).len() implies in_address(
            #[trigger] escaped(bytes)[i],
        ) by {
            let n = escaped(bytes.drop_last()).len();
            if i < n {
                assert(escaped(bytes)[i] == escaped(bytes.drop_last())[i]);
            } else {
                assert(escaped(bytes)[i] == escaped_byte(b)[i - n]);
            }
        }
    }
}

/// The address of a page's contents, for a title that is ready for an address.
pub open spec fn page_address(api: Seq<char>, title: Seq<char>) -> Seq<char> {
    api + "?action=parse&page="@ + title + "&prop=text&format=json&formatversion=2"@
}

/// The address of the contents of a page.
pub fn page_url(api: &str, title: &str) -> (r: String)
    ensures
        r@ == page_address(api@, title@),
{
    let mut out: Vec<char> = text::chars_of(api);
    text::append_str(&mut out, "?action=parse&page=");
    text::append_str(&mut out, title);
    text::append_str(&mut out, "&prop=text&format=json&formatversion=2");
    text::string_of(out.as_slice())
}

/// The address of a part of a category's members; `more` is the mark with which
/// the part before ended, empty for the first part.
pub open spec fn category_address(category: Seq<char>, more: Seq<char>) -> Seq<char> {
    WIKI_API@ + "?action=query&list=categorymembers&cmtitle="@ + escaped(encode_utf8(category))
        + "&cmlimit=500&cmtype=page%7Csubcat&format=json&formatversion=2"@ + (if more.len() == 0 {
        Seq::empty()
    } else {
        "&cmcontinue="@ + escaped(encode_utf8(more))
    })
}

/// The address of a part of a category's members.
pub fn category_url(category: &str, more: &str) -> (r: String)
    ensures
        r@ == category_address(category@, more@),
{
    let mut out: Vec<char> = text::chars_of(WIKI_API);
    text::append_str(&mut out, "?action=query&list=categorymembers&cmtitle=");
    text::append_str(&mut out, percent_encode(category).as_str());
    text::append_str(&mut out, "&cmlimit=500&cmtype=page%7Csubcat&format=json&formatversion=2");
    if !more.is_empty() {
        text::append_str(&mut out, "&cmcontinue=");
        text::append_str(&mut out, percent_encode(more).as_str());
    }
    assert(out@ =~= category_address(category@, more@));
    text::string_of(out.as_slice())
}

/// What becomes of a byte: an ASCII letter, a digit, `-`, `_`, `.` and `~` stand for
/// themselves, any other byte is a percent sign and two digits, `0` to `9` and `A` to
/// `F`, that have its value.
pub proof fn lemma_escaped_byte(b: u8)
    ensures
        text::is_alnum(b as char) || b as char == '-' || b as char == '_' || b as char == '.'
            || b as char == '~' ==> escaped(seq![b]) == seq![b as char],
        !(text::is_alnum(b as char) || b as char == '-' || b as char == '_' || b as char == '.'
            || b as char == '~') ==> {
            let s = escaped(seq![b]);
            &&& s.len() == 3
            &&& s[0] == '%'
            &&& forall|k: int|
                1 <= k < 3 ==> '0' <= #[trigger] s[k] <= '9' || 'A' <= s[k] <= 'F'
            &&& b == 16 * hex_value(s[1]) + hex_value(s[2])
        },
{
    assert(seq![b].drop_last() =~= Seq::<u8>::empty());
    assert(escaped(seq![b].drop_last()) =~= Seq::<char>::empty());
    assert(escaped(seq![b]) =~= escaped_byte(b));
}

/// What is encoded one after the other stands one after the other.
pub proof fn lemma_escaped_adds_up(a: Seq<u8>, b: Seq<u8>)
    ensures
        escaped(a + b) == escaped(a) + escaped(b),
    decreases b.len(),
{
    if b.len() == 0 {
        assert(a + b =~= a);
        assert(escaped(a) + escaped(b) =~= escaped(a));
    } else {
        assert((a + b).drop_last() =~= a + b.drop_last());
        lemma_escaped_adds_up(a, b.drop_last());
        assert(escaped(a + b) =~= escaped(a) + escaped(b));
    }
}

/// The members of a category are asked for at the interface, and a mark to go on from
/// is added to the address of the first part.
pub proof fn lemma_category_address(category: Seq<char>, more: Seq<char>)
    requires
        more.len() > 0,
    ensures
        category_address(category, more) == category_address(category, Seq::empty())
            + "&cmcontinue="@ + escaped(encode_utf8(more)),
        text::begins(
            category_address(category, more),
            "https://en.wikipedia.org/w/api.php?action=query&list=categorymembers&cmtitle="@,
        ),
{
    reveal_strlit("https://en.wikipedia.org/w/api.php?action=query&list=categorymembers&cmtitle=");
    reveal_strlit("https://en.wikipedia.org/w/api.php");
    reveal_strlit("?action=query&list=categorymembers&cmtitle=");
    let head =
        "https://en.wikipedia.org/w/api.php?action=query&list=categorymembers&cmtitle="@;
    assert(WIKI_API@ + "?action=query&list=categorymembers&cmtitle="@ =~= head);
    let all = category_address(category, more);
    assert(all =~= category_address(category, Seq::empty()) + "&cmcontinue="@ + escaped(
        encode_utf8(more),
    ));
    assert(all.subrange(0, head.len() as int) =~= head);
}

/// The contents of a page are asked for by its title, as HTML in a JSON reply of the
/// second format.
pub proof fn lemma_page_address(title: Seq<char>)
    ensures
        page_address(WIKI_API@, title)
            == "https://en.wikipedia.org/w/api.php?action=parse&page="@ + title
            + "&prop=text&format=json&formatversion=2"@,
{
    reveal_strlit("https://en.wikipedia.org/w/api.php?action=parse&page=");
    reveal_strlit("https://en.wikipedia.org/w/api.php");
    reveal_strlit("?action=parse&page=");
    assert(WIKI_API@ + "?action=parse&page="@
        =~= "https://en.wikipedia.org/w/api.php?action=parse&page="@);
}

} // verus!
