//! Characters and strings: the facts about `std` that the text code rests on, and the
//! conversions between strings and character vectors.

use vstd::prelude::*;

verus! {

/// A character with the Unicode `White_Space` property.
pub open spec fn white_space(c: char) -> bool {
    let u = c as u32;
    ||| 0x09 <= u <= 0x0d
    ||| u == 0x20
    ||| u == 0x85
    ||| u == 0xa0
    ||| u == 0x1680
    ||| 0x2000 <= u <= 0x200a
    ||| u == 0x2028
    ||| u == 0x2029
    ||| u == 0x202f
    ||| u == 0x205f
    ||| u == 0x3000
}

/// `char::is_whitespace` answers whether the character has the Unicode `White_Space` property;
/// the code points that have it are those of [`white_space`].
pub assume_specification[ char::is_whitespace ](c: char) -> (r: bool)
    ensures
        r == white_space(c),
;

/// A character below U+0080.
pub open spec fn ascii(c: char) -> bool {
    (c as u32) < 0x80
}

/// A character with an upper-case ASCII letter turned into its lower-case one.
pub open spec fn ascii_lower(c: char) -> char {
    if 'A' <= c <= 'Z' {
        ((c as u32 + 32) as u32) as char
    } else {
        c
    }
}

/// A text in lower-case ASCII.
pub open spec fn ascii_lowered(s: Seq<char>) -> Seq<char> {
    Seq::new(s.len(), |i: int| ascii_lower(s[i]))
}

/// What `char::is_alphanumeric` answers of a character beyond ASCII: a function of the character
/// alone.
pub uninterp spec fn alphanumeric_beyond_ascii(c: char) -> bool;

/// A letter or a number. Of the ASCII characters these are the letters and the digits.
pub open spec fn alphanumeric(c: char) -> bool {
    if ascii(c) {
        'a' <= c <= 'z' || 'A' <= c <= 'Z' || '0' <= c <= '9'
    } else {
        alphanumeric_beyond_ascii(c)
    }
}

/// `char::is_alphanumeric` looks the character up in the Unicode tables of letters and numbers:
/// true of the ASCII letters and digits and of no other ASCII character.
pub assume_specification[ char::is_alphanumeric ](c: char) -> (r: bool)
    ensures
        ascii(c) ==> r == ('a' <= c <= 'z' || 'A' <= c <= 'Z' || '0' <= c <= '9'),
        !ascii(c) ==> r == alphanumeric_beyond_ascii(c),
;

/// What `char::is_lowercase` answers of a character beyond ASCII: a function of the character
/// alone.
pub uninterp spec fn lowercase_beyond_ascii(c: char) -> bool;

/// A lower-case letter. Of the ASCII characters these are `a` to `z`.
pub open spec fn lowercase(c: char) -> bool {
    if ascii(c) {
        'a' <= c <= 'z'
    } else {
        lowercase_beyond_ascii(c)
    }
}

/// `char::is_lowercase` looks the character up in the Unicode table of lower-case letters: true
/// of `a` to `z` and of no other ASCII character.
pub assume_specification[ char::is_lowercase ](c: char) -> (r: bool)
    ensures
        ascii(c) ==> r == ('a' <= c <= 'z'),
        !ascii(c) ==> r == lowercase_beyond_ascii(c),
;

/// No character of `s` is beyond ASCII.
pub open spec fn all_ascii(s: Seq<char>) -> bool {
    forall|i: int| 0 <= i < s.len() ==> ascii(#[trigger] s[i])
}

/// What `str::to_lowercase` returns for a text with characters beyond ASCII: a function of the
/// characters alone.
pub uninterp spec fn lowercased_beyond_ascii(s: Seq<char>) -> Seq<char>;

/// A text in lower case. An ASCII text keeps all but its letters `A` to `Z`.
pub open spec fn lowercased(s: Seq<char>) -> Seq<char> {
    if all_ascii(s) {
        ascii_lowered(s)
    } else {
        lowercased_beyond_ascii(s)
    }
}

/// `str::to_lowercase` maps a string through the Unicode lower-case tables, which for ASCII map
/// `A` to `Z` to `a` to `z` and everything else to itself.
pub assume_specification[ str::to_lowercase ](s: &str) -> (r: String)
    ensures
        all_ascii(s@) ==> r@ == ascii_lowered(s@),
        !all_ascii(s@) ==> r@ == lowercased_beyond_ascii(s@),
;

/// Printable ASCII without quotes and backslashes.
pub open spec fn plain(s: Seq<char>) -> bool {
    forall|i: int| 0 <= i < s.len() ==> ' ' <= #[trigger] s[i] <= '~' && s[i] != '"' && s[i] != '\''
        && s[i] != '\\'
}

/// What `{:?}` makes of a text with characters to escape: a function of the characters alone.
pub uninterp spec fn escaped(s: Seq<char>) -> Seq<char>;

/// A text between quotation marks, with what needs it escaped.
pub open spec fn quoted(s: Seq<char>) -> Seq<char> {
    if plain(s) {
        seq!['"'] + s + seq!['"']
    } else {
        escaped(s)
    }
}

/// `format!` with `{:?}` of a string: the text between quotation marks; characters that are not
/// printable, quotes and backslashes are escaped.
#[verifier::external_body]
pub(crate) fn quote(s: &str) -> (r: String)
    ensures
        plain(s@) ==> r@ == seq!['"'] + s@ + seq!['"'],
        !plain(s@) ==> r@ == escaped(s@),
{
    format!("{s:?}")
}

/// `String::push` appends one character.
pub assume_specification[ String::push ](s: &mut String, c: char)
    ensures
        final(s)@ == old(s)@.push(c),
;

/// The length of a text in bytes, as UTF-8 writes it.
pub open spec fn byte_len(s: Seq<char>) -> nat {
    vstd::utf8::encode_utf8(s).len()
}

/// The texts that a sequence of strings holds.
pub open spec fn texts(v: Seq<String>) -> Seq<Seq<char>> {
    Seq::new(v.len(), |i: int| v[i]@)
}

/// Byte lengths add up under concatenation.
pub proof fn lemma_byte_len_concat(a: Seq<char>, b: Seq<char>)
    ensures
        byte_len(a + b) == byte_len(a) + byte_len(b),
    decreases a.len(),
{
    if a.len() == 0 {
        assert(a + b =~= b);
    } else {
        assert((a + b).drop_first() =~= a.drop_first() + b);
        lemma_byte_len_concat(a.drop_first(), b);
    }
}

/// A single character takes between one and four bytes; a space takes one.
pub proof fn lemma_byte_len_one(c: char)
    ensures
        1 <= byte_len(seq![c]) <= 4,
        c == ' ' ==> byte_len(seq![c]) == 1,
{
    reveal_with_fuel(vstd::utf8::encode_utf8, 2);
    assert(seq![c].drop_first() =~= Seq::<char>::empty());
}

/// The number of bytes of `s`.
pub fn len_bytes(s: &str) -> (n: usize)
    ensures
        n == byte_len(s@),
{
    s.as_bytes().len()
}

/// The characters of `s`, in order.
pub fn to_chars(s: &str) -> (v: Vec<char>)
    ensures
        v@ == s@,
{
    let mut v: Vec<char> = Vec::new();
    for c in it: s.chars()
        invariant
            v@ =~= it.seq().take(it.index() as int),
            it.seq() == s@,
    {
        v.push(c);
    }
    v
}

/// The string whose characters are `v[from..to]`.
pub fn from_chars(v: &[char], from: usize, to: usize) -> (s: String)
    requires
        from <= to <= v@.len(),
    ensures
        s@ == v@.subrange(from as int, to as int),
{
    let mut s = String::new();
    let mut i: usize = from;
    while i < to
        invariant
            from <= i <= to <= v@.len(),
            s@ == v@.subrange(from as int, i as int),
        decreases to - i,
    {
        s.push(v[i]);
        i += 1;
        assert(v@.subrange(from as int, i as int) =~= v@.subrange(from as int, i - 1).push(v@[i - 1]));
    }
    s
}

/// Does `s` begin with `p`?
pub fn begins_with(s: &str, p: &str) -> (r: bool)
    ensures
        r == p@.is_prefix_of(s@),
{
    let v = to_chars(s);
    let q = to_chars(p);
    if q.len() > v.len() {
        return false;
    }
    let mut i: usize = 0;
    while i < q.len()
        invariant
            i <= q@.len() <= v@.len(),
            v@ == s@,
            q@ == p@,
            forall|j: int| 0 <= j < i ==> v@[j] == q@[j],
        decreases q@.len() - i,
    {
        if v[i] != q[i] {
            assert(s@.subrange(0, p@.len() as int)[i as int] != p@[i as int]);
            return false;
        }
        i += 1;
    }
    assert(s@.subrange(0, p@.len() as int) =~= p@);
    true
}

/// Does `s` end with `p`?
pub fn ends_with(s: &str, p: &str) -> (r: bool)
    ensures
        r == p@.is_suffix_of(s@),
{
    let v = to_chars(s);
    let q = to_chars(p);
    if q.len() > v.len() {
        return false;
    }
    let from: usize = v.len() - q.len();
    let ghost tail = s@.subrange(s@.len() - p@.len(), s@.len() as int);
    let mut i: usize = 0;
    while i < q.len()
        invariant
            i <= q@.len() <= v@.len(),
            from == v@.len() - q@.len(),
            v@ == s@,
            q@ == p@,
            tail == s@.subrange(s@.len() - p@.len(), s@.len() as int),
            forall|j: int| 0 <= j < i ==> tail[j] == q@[j],
        decreases q@.len() - i,
    {
        assert(from + i < v.len());
        assert(tail[i as int] == v@[from + i]);
        if v[from + i] != q[i] {
            assert(tail[i as int] != p@[i as int]);
            return false;
        }
        i += 1;
    }
    assert(tail =~= p@);
    true
}

/// Lower-casing ASCII turns `A` to `Z` into the letters 32 places on and keeps everything else.
pub proof fn lowering_keeps_all_but_capitals(s: Seq<char>, i: int)
    requires
        0 <= i < s.len(),
    ensures
        ascii_lowered(s).len() == s.len(),
        'A' <= s[i] <= 'Z' ==> ascii_lowered(s)[i] as u32 == s[i] as u32 + 32,
        !('A' <= s[i] <= 'Z') ==> ascii_lowered(s)[i] == s[i],
{
}

/// Letters, digits and lower case in ASCII.
pub proof fn ascii_letters_and_digits(c: char)
    requires
        (c as u32) < 0x80,
    ensures
        alphanumeric(c) <==> 0x30 <= c as u32 <= 0x39 || 0x41 <= c as u32 <= 0x5a || 0x61 <= c as u32
            <= 0x7a,
        lowercase(c) <==> 0x61 <= c as u32 <= 0x7a,
{
}

/// Strings show their characters, each in its place.
pub proof fn strings_show_their_characters(v: Seq<String>, i: int)
    requires
        0 <= i < v.len(),
    ensures
        texts(v).len() == v.len(),
        texts(v)[i] == v[i]@,
{
}

/// A plain text is quoted between quotation marks.
pub proof fn plain_texts_are_quoted_as_they_are(s: Seq<char>)
    requires
        forall|i: int|
            0 <= i < s.len() ==> ' ' <= #[trigger] s[i] <= '~' && s[i] != '"' && s[i] != '\''
                && s[i] != '\\',
    ensures
        quoted(s).len() == s.len() + 2,
        quoted(s)[0] == '"',
        quoted(s).last() == '"',
        quoted(s).subrange(1, s.len() as int + 1) == s,
{
    assert(plain(s));
    assert(quoted(s).subrange(1, s.len() as int + 1) =~= s);
}

} // verus!
