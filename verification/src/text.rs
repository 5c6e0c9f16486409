//! Character classes and zero-copy slicing of `&str`.
//!
//! The grammar is stated over the characters of the input (`Seq<char>`), while
//! the executable code walks over its UTF-8 bytes. This module holds the
//! slicing primitives that the parsers are built from, together with the
//! proofs that tie a position in the bytes to a position in the characters.
use vstd::prelude::*;
use vstd::string::*;
use vstd::utf8::*;

verus! {

/// An ASCII letter.
pub open spec fn is_letter(c: char) -> bool {
    ('a' <= c && c <= 'z') || ('A' <= c && c <= 'Z')
}

/// An ASCII decimal digit.
pub open spec fn is_digit(c: char) -> bool {
    '0' <= c && c <= '9'
}

/// A character that ends a value: one of `#`, space, `[`, `]`, `!`, `*`, tab,
/// line feed, carriage return, `"` and `'`.
pub open spec fn is_illegal(c: char) -> bool {
    c == '#' || c == ' ' || c == '[' || c == ']' || c == '!' || c == '*' || c == '\t' || c == '\n'
        || c == '\r' || c == '"' || c == '\''
}

/// Whether `s` starts with the character `c`.
pub open spec fn starts_with(s: Seq<char>, c: char) -> bool {
    s.len() > 0 && s[0] == c
}

/// Whether `rest` is what is left of `whole` after some prefix is taken off.
pub open spec fn is_suffix(rest: Seq<char>, whole: Seq<char>) -> bool {
    rest.len() <= whole.len() && whole.skip(whole.len() - rest.len()) == rest
}

/// The sets of characters that the grammar takes runs of.
#[derive(Clone, Copy, Debug, PartialEq, Eq)]
pub enum CharClass {
    /// ASCII letters.
    Alpha,
    /// ASCII letters and decimal digits.
    AlphaNumeric,
    /// Space and tab.
    Space,
    /// Space, tab, carriage return and line feed.
    MultiSpace,
    /// Every character that may stand in a value.
    Value,
    /// Every character but the line feed.
    NotNewline,
}

impl CharClass {
    /// Whether `c` belongs to the class.
    pub open spec fn contains(self, c: char) -> bool {
        match self {
            CharClass::Alpha => is_letter(c),
            CharClass::AlphaNumeric => is_letter(c) || is_digit(c),
            CharClass::Space => c == ' ' || c == '\t',
            CharClass::MultiSpace => c == ' ' || c == '\t' || c == '\r' || c == '\n',
            CharClass::Value => !is_illegal(c),
            CharClass::NotNewline => c != '\n',
        }
    }

    /// Whether the characters outside ASCII belong to the class. A class holds
    /// either all of them or none.
    pub open spec fn holds_non_ascii(self) -> bool {
        self == CharClass::Value || self == CharClass::NotNewline
    }

    /// Whether a byte of the UTF-8 encoding may stand inside a run of the class.
    pub open spec fn admits_byte(self, b: u8) -> bool {
        if b < 0x80 {
            self.contains(b as char)
        } else {
            self.holds_non_ascii()
        }
    }

    fn byte_admitted(self, b: u8) -> (r: bool)
        ensures
            r == self.admits_byte(b),
    {
        // The codes are those of ASCII: letters, digits, space (32), tab (9),
        // line feed (10), carriage return (13), and `#` (35), `[` (91),
        // `]` (93), `!` (33), `*` (42), `"` (34) and `'` (39).
        let letter = (97 <= b && b <= 122) || (65 <= b && b <= 90);
        let digit = 48 <= b && b <= 57;
        match self {
            CharClass::Alpha => letter,
            CharClass::AlphaNumeric => letter || digit,
            CharClass::Space => b == 32 || b == 9,
            CharClass::MultiSpace => b == 32 || b == 9 || b == 13 || b == 10,
            CharClass::Value => !(b == 35 || b == 32 || b == 91 || b == 93 || b == 33 || b == 42
                || b == 9 || b == 10 || b == 13 || b == 34 || b == 39),
            CharClass::NotNewline => b != 10,
        }
    }
}

/// The length of the longest prefix of `s` whose characters all belong to
/// `class`.
pub open spec fn run_len(s: Seq<char>, class: CharClass) -> nat
    decreases s.len(),
{
    if s.len() > 0 && class.contains(s[0]) {
        1 + run_len(s.skip(1), class)
    } else {
        0
    }
}

/// What `run_len` says of the run it measures.
pub proof fn lemma_run_len_bounds(s: Seq<char>, class: CharClass)
    ensures
        run_len(s, class) <= s.len(),
        forall|i: int| 0 <= i < run_len(s, class) ==> class.contains(#[trigger] s[i]),
        run_len(s, class) == s.len() || !class.contains(s[run_len(s, class) as int]),
    decreases s.len(),
{
    if s.len() > 0 && class.contains(s[0]) {
        let t = s.skip(1);
        lemma_run_len_bounds(t, class);
        assert forall|i: int| 0 <= i < run_len(s, class) implies class.contains(
            #[trigger] s[i],
        ) by {
            if i > 0 {
                assert(s[i] == t[i - 1]);
            }
        }
        if run_len(s, class) < s.len() {
            assert(s[run_len(s, class) as int] == t[run_len(t, class) as int]);
        }
    }
}

/// The length of the longest prefix of `bytes` that `class` admits.
spec fn admitted_len(bytes: Seq<u8>, class: CharClass) -> nat
    decreases bytes.len(),
{
    if bytes.len() > 0 && class.admits_byte(bytes[0]) {
        1 + admitted_len(bytes.skip(1), class)
    } else {
        0
    }
}

proof fn lemma_admitted_len_concat(a: Seq<u8>, b: Seq<u8>, class: CharClass)
    requires
        forall|i: int| 0 <= i < a.len() ==> class.admits_byte(#[trigger] a[i]),
    ensures
        admitted_len(a + b, class) == a.len() + admitted_len(b, class),
    decreases a.len(),
{
    if a.len() == 0 {
        assert(a + b =~= b);
    } else {
        assert((a + b)[0] == a[0]);
        assert((a + b).skip(1) =~= a.skip(1) + b);
        assert forall|i: int| 0 <= i < a.skip(1).len() implies class.admits_byte(
            #[trigger] a.skip(1)[i],
        ) by {
            assert(a.skip(1)[i] == a[i + 1]);
        }
        lemma_admitted_len_concat(a.skip(1), b, class);
    }
}

/// The encoding of one character: an ASCII character is its own single byte,
/// and every byte of any other character is `0x80` or above.
proof fn lemma_encode_scalar(c: char)
    ensures
        (c as u32) < 0x80 ==> encode_scalar(c as u32) == seq![c as u8],
        (c as u32) >= 0x80 ==> forall|i: int|
            0 <= i < encode_scalar(c as u32).len() ==> #[trigger] encode_scalar(c as u32)[i]
                >= 0x80,
        1 <= encode_scalar(c as u32).len() <= 4,
{
    let s = c as u32;
    if s < 0x80 {
        assert((s & 0x7F) as u8 == s as u8) by (bit_vector)
            requires
                s < 0x80,
        ;
        assert(encode_scalar(s) =~= seq![c as u8]);
    } else {
        let x = ((s >> 6) & 0x1F) as u8;
        assert(0xC0u8 | x >= 0x80) by (bit_vector);
        let x = ((s >> 12) & 0x0F) as u8;
        assert(0xE0u8 | x >= 0x80) by (bit_vector);
        let x = ((s >> 18) & 0x7) as u8;
        assert(0xF0u8 | x >= 0x80) by (bit_vector);
        let x = (s & 0x3F) as u8;
        assert(0x80u8 | x >= 0x80) by (bit_vector);
        let x = ((s >> 6) & 0x3F) as u8;
        assert(0x80u8 | x >= 0x80) by (bit_vector);
        let x = ((s >> 12) & 0x3F) as u8;
        assert(0x80u8 | x >= 0x80) by (bit_vector);
    }
}

/// An ASCII character is the character of its byte.
proof fn lemma_ascii_cast(c: char)
    requires
        (c as u32) < 0x80,
    ensures
        (c as u8) as char == c,
{
    let b = c as u8;
    assert((b as char) as u32 == b as u32);
    char_u32_cast(c, c as u32);
}

/// A class holds the characters outside ASCII all together or not at all.
proof fn lemma_non_ascii(class: CharClass, c: char)
    requires
        (c as u32) >= 0x80,
    ensures
        class.contains(c) == class.holds_non_ascii(),
{
}

/// Encoding distributes over concatenation.
proof fn lemma_encode_concat(a: Seq<char>, b: Seq<char>)
    ensures
        encode_utf8(a + b) == encode_utf8(a) + encode_utf8(b),
    decreases a.len(),
{
    if a.len() == 0 {
        assert(a + b =~= b);
        assert(encode_utf8(a) + encode_utf8(b) =~= encode_utf8(b));
    } else {
        assert((a + b)[0] == a[0]);
        assert((a + b).drop_first() =~= a.drop_first() + b);
        lemma_encode_concat(a.drop_first(), b);
        assert(encode_utf8(a + b) =~= encode_utf8(a) + encode_utf8(b));
    }
}

/// The end of the encoding of a prefix is a character boundary.
proof fn lemma_boundary_after_prefix(a: Seq<char>, b: Seq<char>)
    ensures
        is_char_boundary(encode_utf8(a + b), encode_utf8(a).len() as int),
    decreases a.len(),
{
    let bytes = encode_utf8(a + b);
    encode_utf8_valid_utf8(a + b);
    if a.len() > 0 {
        let whole = a + b;
        encode_utf8_first_scalar(whole);
        assert(whole[0] == a[0]);
        assert(whole.drop_first() =~= a.drop_first() + b);
        assert(pop_first_scalar(bytes) =~= encode_utf8(whole.drop_first()));
        lemma_boundary_after_prefix(a.drop_first(), b);
        lemma_encode_scalar(a[0]);
        assert(encode_utf8(a).len() == encode_scalar(a[0] as u32).len() + encode_utf8(
            a.drop_first(),
        ).len());
    }
}

/// Two strings with the same bytes hold the same characters.
proof fn lemma_same_bytes_same_chars(a: Seq<char>, b: Seq<char>)
    requires
        encode_utf8(a) == encode_utf8(b),
    ensures
        a == b,
{
    encode_utf8_decode_utf8(a);
    encode_utf8_decode_utf8(b);
}

/// Scanning the bytes for the first one that the class does not admit stops
/// exactly where the run of characters of the class ends.
proof fn lemma_scan(s: Seq<char>, class: CharClass)
    ensures
        admitted_len(encode_utf8(s), class) == encode_utf8(s.take(run_len(s, class) as int)).len(),
    decreases s.len(),
{
    if s.len() == 0 {
        assert(s.take(0) =~= s);
    } else {
        let c = s[0];
        let head = encode_scalar(c as u32);
        let tail = encode_utf8(s.drop_first());
        lemma_encode_scalar(c);
        assert(s.drop_first() =~= s.skip(1));
        if (c as u32) >= 0x80 {
            lemma_non_ascii(class, c);
        } else {
            lemma_ascii_cast(c);
        }
        assert(encode_utf8(s) =~= head + tail);
        if class.contains(c) {
            let n = run_len(s, class);
            lemma_run_len_bounds(s, class);
            lemma_scan(s.skip(1), class);
            lemma_admitted_len_concat(head, tail, class);
            assert(s.take(n as int) =~= seq![c] + s.skip(1).take(n - 1));
            lemma_encode_concat(seq![c], s.skip(1).take(n - 1));
            assert(seq![c].drop_first() =~= Seq::<char>::empty());
            assert(encode_utf8(seq![c]) =~= head) by {
                reveal_with_fuel(encode_utf8, 2);
            }
        } else {
            assert(s.take(0) =~= Seq::<char>::empty());
            assert(encode_utf8(s)[0] == head[0]);
            assert(!class.admits_byte(head[0]));
        }
    }
}

/// Splits `input` at the byte offset `mid`, which ends the encoding of the
/// first `n` characters.
fn split_chars<'a>(input: &'a str, mid: usize, Ghost(n): Ghost<int>) -> (r: (&'a str, &'a str))
    requires
        0 <= n <= input@.len(),
        mid == encode_utf8(input@.take(n)).len(),
    ensures
        r.0@ == input@.take(n),
        r.1@ == input@.skip(n),
{
    proof {
        let a = input@.take(n);
        let b = input@.skip(n);
        assert(a + b =~= input@);
        lemma_boundary_after_prefix(a, b);
        lemma_encode_concat(a, b);
    }
    let r = input.split_at(mid);
    proof {
        let a = input@.take(n);
        let b = input@.skip(n);
        assert(r.0.spec_bytes() =~= encode_utf8(a));
        assert(r.1.spec_bytes() =~= encode_utf8(b));
        lemma_same_bytes_same_chars(r.0@, a);
        lemma_same_bytes_same_chars(r.1@, b);
    }
    r
}

/// Splits off the longest prefix of `input` whose characters all belong to
/// `class`. Returns what follows the run, then the run.
pub fn take_while<'a>(input: &'a str, class: CharClass) -> (r: (&'a str, &'a str))
    ensures
        r.1@ == input@.take(run_len(input@, class) as int),
        r.0@ == input@.skip(run_len(input@, class) as int),
        r.1@ + r.0@ == input@,
        is_suffix(r.0@, input@),
{
    let bytes = input.as_bytes();
    let mut i: usize = 0;
    proof {
        assert(bytes@.skip(0) =~= bytes@);
    }
    while i < bytes.len() && class.byte_admitted(bytes[i])
        invariant
            i <= bytes@.len(),
            i + admitted_len(bytes@.skip(i as int), class) == admitted_len(bytes@, class),
        decreases bytes@.len() - i,
    {
        proof {
            assert(bytes@.skip(i as int).skip(1) =~= bytes@.skip(i + 1));
        }
        i = i + 1;
    }
    proof {
        lemma_scan(input@, class);
        lemma_run_len_bounds(input@, class);
    }
    let (run, rest) = split_chars(input, i, Ghost(run_len(input@, class) as int));
    proof {
        assert(run@ + rest@ =~= input@);
    }
    (rest, run)
}

/// The first byte of the encoding tells the first character: an ASCII byte is
/// that character, and any other byte starts a character outside ASCII.
proof fn lemma_first_byte(s: Seq<char>)
    requires
        s.len() > 0,
    ensures
        encode_utf8(s).len() > 0,
        encode_utf8(s.take(1)).len() == encode_scalar(s[0] as u32).len(),
        (s[0] as u32) < 0x80 ==> encode_utf8(s)[0] == s[0] as u8 && encode_utf8(s.take(1)).len()
            == 1 && (s[0] as u8) as char == s[0],
        (s[0] as u32) >= 0x80 ==> encode_utf8(s)[0] >= 0x80,
{
    let first = s[0];
    lemma_encode_scalar(first);
    assert(s.take(1) =~= seq![first]);
    assert(seq![first].drop_first() =~= Seq::<char>::empty());
    assert(encode_utf8(seq![first]) =~= encode_scalar(first as u32)) by {
        reveal_with_fuel(encode_utf8, 2);
    }
    assert(encode_utf8(s)[0] == encode_scalar(first as u32)[0]);
    if (first as u32) < 0x80 {
        lemma_ascii_cast(first);
    }
}

/// Whether `input` starts with a character of `class`.
pub fn first_in(input: &str, class: CharClass) -> (r: bool)
    ensures
        r == (input@.len() > 0 && class.contains(input@[0])),
{
    let bytes = input.as_bytes();
    proof {
        if input@.len() > 0 {
            lemma_first_byte(input@);
            if (input@[0] as u32) >= 0x80 {
                lemma_non_ascii(class, input@[0]);
            }
        }
    }
    bytes.len() > 0 && class.byte_admitted(bytes[0])
}

/// Takes the ASCII character with the code `c` off the front of `input`.
/// Returns what follows it, or `None` where `input` does not start with it.
pub(crate) fn strip_char<'a>(input: &'a str, c: u8) -> (r: Option<&'a str>)
    requires
        c < 0x80,
    ensures
        match r {
            Some(rest) => starts_with(input@, c as char) && rest@ == input@.skip(1) && is_suffix(
                rest@,
                input@,
            ),
            None => !starts_with(input@, c as char),
        },
{
    let bytes = input.as_bytes();
    proof {
        assert((c as char) as u32 == c as u32);
        if input@.len() > 0 {
            lemma_first_byte(input@);
        }
    }
    if bytes.len() > 0 && bytes[0] == c {
        let (_, rest) = split_chars(input, 1, Ghost(1));
        Some(rest)
    } else {
        None
    }
}

/// The part of `input` that stands before `rest`, where `rest` is the end of
/// `input`.
pub(crate) fn consumed<'a>(input: &'a str, rest: &str) -> (r: &'a str)
    requires
        is_suffix(rest@, input@),
    ensures
        r@ == input@.take(input@.len() - rest@.len()),
        r@ + rest@ == input@,
{
    let ghost n = input@.len() - rest@.len();
    proof {
        assert(input@.take(n) + rest@ =~= input@);
        lemma_encode_concat(input@.take(n), rest@);
        assert(input.spec_bytes().len() == encode_utf8(input@.take(n)).len()
            + rest.spec_bytes().len());
    }
    let mid = input.as_bytes().len() - rest.as_bytes().len();
    let (before, _) = split_chars(input, mid, Ghost(n));
    before
}

} // verus!
