use vstd::prelude::*;

verus! {

/// Appends one character to a `String` (`String::push`).
/// Trusted: `String::push` appends `c` at the end and leaves the rest unchanged.
#[verifier::external_body]
pub(crate) fn push_char(s: &mut String, c: char)
    ensures
        final(s)@ == old(s)@.push(c),
{
    s.push(c);
}

/// The upper-case hexadecimal digit of a value below 16.
pub open spec fn hex_digit_spec(d: int) -> char {
    if d < 10 {
        (48 + d) as char
    } else {
        (55 + d) as char
    }
}

/// The two upper-case hexadecimal digits of a byte, most significant first.
pub open spec fn hex_byte_spec(b: u8) -> Seq<char> {
    seq![hex_digit_spec(b as int / 16), hex_digit_spec(b as int % 16)]
}

pub(crate) fn hex_digit(d: u8) -> (c: char)
    requires
        d < 16,
    ensures
        c == hex_digit_spec(d as int),
{
    if d < 10 {
        (48u8 + d) as char
    } else {
        (55u8 + d) as char
    }
}

pub(crate) fn push_hex_byte(s: &mut String, b: u8)
    ensures
        final(s)@ == old(s)@ + hex_byte_spec(b),
{
    push_char(s, hex_digit(b / 16));
    push_char(s, hex_digit(b % 16));
}

} // verus!

verus! {

/// The decimal digit of a value below 10.
pub open spec fn digit_spec(d: int) -> char {
    (48 + d) as char
}

/// The decimal representation of `n`, without leading zeros.
pub open spec fn decimal_spec(n: nat) -> Seq<char>
    decreases n,
{
    if n < 10 {
        seq![digit_spec(n as int)]
    } else {
        decimal_spec(n / 10).push(digit_spec((n % 10) as int))
    }
}

/// The decimal representation of `v` with an explicit sign: `+` for zero and above.
pub open spec fn signed_decimal_spec(v: int) -> Seq<char> {
    if v >= 0 {
        seq!['+'] + decimal_spec(v as nat)
    } else {
        seq!['-'] + decimal_spec((-v) as nat)
    }
}

/// `n` spaces.
pub open spec fn spaces_spec(n: nat) -> Seq<char> {
    Seq::new(n, |i: int| ' ')
}

/// `s` padded on the left with spaces to at least `width` characters (right-aligned).
pub open spec fn pad_left_spec(s: Seq<char>, width: nat) -> Seq<char> {
    if s.len() < width {
        spaces_spec((width - s.len()) as nat) + s
    } else {
        s
    }
}

/// `s` padded on the right with spaces to at least `width` characters (left-aligned).
pub open spec fn pad_right_spec(s: Seq<char>, width: nat) -> Seq<char> {
    if s.len() < width {
        s + spaces_spec((width - s.len()) as nat)
    } else {
        s
    }
}

/// What one character becomes in XML text: the five markup characters as entities.
pub open spec fn escape_char_spec(c: char) -> Seq<char> {
    if c == '&' {
        seq!['&', 'a', 'm', 'p', ';']
    } else if c == '<' {
        seq!['&', 'l', 't', ';']
    } else if c == '>' {
        seq!['&', 'g', 't', ';']
    } else if c == '"' {
        seq!['&', 'q', 'u', 'o', 't', ';']
    } else if c == '\'' {
        seq!['&', 'a', 'p', 'o', 's', ';']
    } else {
        seq![c]
    }
}

/// `s` with each character escaped for XML text.
pub open spec fn escape_xml_spec(s: Seq<char>) -> Seq<char>
    decreases s.len(),
{
    if s.len() == 0 {
        Seq::empty()
    } else {
        escape_xml_spec(s.drop_last()) + escape_char_spec(s.last())
    }
}

pub(crate) fn push_str(s: &mut String, t: &str)
    ensures
        final(s)@ == old(s)@ + t@,
{
    s.append(t);
}

pub(crate) fn push_decimal(s: &mut String, n: u64)
    ensures
        final(s)@ == old(s)@ + decimal_spec(n as nat),
    decreases n,
{
    if n >= 10 {
        push_decimal(s, n / 10);
    }
    push_char(s, ((n % 10) as u8 + 48u8) as char);
}

pub(crate) fn push_signed(s: &mut String, v: i64)
    ensures
        final(s)@ == old(s)@ + signed_decimal_spec(v as int),
{
    if v >= 0 {
        push_char(s, '+');
        push_decimal(s, v as u64);
    } else {
        push_char(s, '-');
        let magnitude: u64 = if v == i64::MIN {
            9223372036854775808u64
        } else {
            (-v) as u64
        };
        push_decimal(s, magnitude);
    }
}

pub(crate) fn push_spaces(s: &mut String, n: usize)
    ensures
        final(s)@ == old(s)@ + spaces_spec(n as nat),
{
    let ghost start = s@;
    let mut i: usize = 0;
    while i < n
        invariant
            i <= n,
            s@ == start + spaces_spec(i as nat),
        decreases n - i,
    {
        push_char(s, ' ');
        i = i + 1;
        assert(s@ =~= start + spaces_spec(i as nat));
    }
}

/// Appends `t`, right-aligned in a field of `width` characters.
pub(crate) fn push_padded_left(s: &mut String, t: &str, width: usize)
    ensures
        final(s)@ == old(s)@ + pad_left_spec(t@, width as nat),
{
    let len = t.unicode_len();
    if len < width {
        push_spaces(s, width - len);
    }
    push_str(s, t);
}

/// Appends `t`, left-aligned in a field of `width` characters.
pub(crate) fn push_padded_right(s: &mut String, t: &str, width: usize)
    ensures
        final(s)@ == old(s)@ + pad_right_spec(t@, width as nat),
{
    let len = t.unicode_len();
    push_str(s, t);
    if len < width {
        push_spaces(s, width - len);
    }
}

/// The decimal text of `n`.
pub(crate) fn decimal_string(n: u64) -> (t: String)
    ensures
        t@ == decimal_spec(n as nat),
{
    let mut t = String::new();
    push_decimal(&mut t, n);
    t
}

pub(crate) fn push_escaped_char(s: &mut String, c: char)
    ensures
        final(s)@ == old(s)@ + escape_char_spec(c),
{
    let ghost start = s@;
    if c == '&' {
        push_char(s, '&');
        push_char(s, 'a');
        push_char(s, 'm');
        push_char(s, 'p');
        push_char(s, ';');
    } else if c == '<' {
        push_char(s, '&');
        push_char(s, 'l');
        push_char(s, 't');
        push_char(s, ';');
    } else if c == '>' {
        push_char(s, '&');
        push_char(s, 'g');
        push_char(s, 't');
        push_char(s, ';');
    } else if c == '"' {
        push_char(s, '&');
        push_char(s, 'q');
        push_char(s, 'u');
        push_char(s, 'o');
        push_char(s, 't');
        push_char(s, ';');
    } else if c == '\'' {
        push_char(s, '&');
        push_char(s, 'a');
        push_char(s, 'p');
        push_char(s, 'o');
        push_char(s, 's');
        push_char(s, ';');
    } else {
        push_char(s, c);
    }
    assert(s@ =~= start + escape_char_spec(c));
}

/// Appends `value` escaped for XML text.
pub(crate) fn push_escaped(s: &mut String, value: &str)
    ensures
        final(s)@ == old(s)@ + escape_xml_spec(value@),
{
    let ghost start = s@;
    let n = value.unicode_len();
    let mut i: usize = 0;
    assert(value@.take(0) =~= Seq::<char>::empty());
    while i < n
        invariant
            i <= n,
            n == value@.len(),
            s@ == start + escape_xml_spec(value@.take(i as int)),
        decreases n - i,
    {
        let c = value.get_char(i);
        push_escaped_char(s, c);
        assert(value@.take(i + 1).drop_last() =~= value@.take(i as int));
        i = i + 1;
    }
    assert(value@.take(n as int) =~= value@);
}

/// `value` with `&`, `<`, `>`, `"` and `'` replaced by their XML entities.
pub fn escape_xml(value: &str) -> (escaped: String)
    ensures
        escaped@ == escape_xml_spec(value@),
{
    let mut escaped = String::new();
    push_escaped(&mut escaped, value);
    escaped
}

/// The ANSI true-colour background swatch of two spaces for a colour.
pub open spec fn swatch_spec(r: u8, g: u8, b: u8) -> Seq<char> {
    seq!['\x1b', '[', '4', '8', ';', '2', ';'] + decimal_spec(r as nat) + seq![';']
        + decimal_spec(g as nat) + seq![';'] + decimal_spec(b as nat) + seq![
        'm',
        ' ',
        ' ',
        '\x1b',
        '[',
        '0',
        'm',
    ]
}

pub(crate) fn push_swatch(s: &mut String, r: u8, g: u8, b: u8)
    ensures
        final(s)@ == old(s)@ + swatch_spec(r, g, b),
{
    let ghost start = s@;
    push_char(s, '\x1b');
    push_char(s, '[');
    push_char(s, '4');
    push_char(s, '8');
    push_char(s, ';');
    push_char(s, '2');
    push_char(s, ';');
    push_decimal(s, r as u64);
    push_char(s, ';');
    push_decimal(s, g as u64);
    push_char(s, ';');
    push_decimal(s, b as u64);
    push_char(s, 'm');
    push_char(s, ' ');
    push_char(s, ' ');
    push_char(s, '\x1b');
    push_char(s, '[');
    push_char(s, '0');
    push_char(s, 'm');
    assert(s@ =~= start + swatch_spec(r, g, b));
}

/// The ANSI swatch for a colour: a two-space block with that background, then a reset.
pub fn swatch(r: u8, g: u8, b: u8) -> (s: String)
    ensures
        s@ == swatch_spec(r, g, b),
{
    let mut s = String::new();
    push_swatch(&mut s, r, g, b);
    s
}

/// XML text read back: each of the five entities that escaping writes becomes its character
/// again, and every other character stands for itself.
pub open spec fn unescape_xml_spec(t: Seq<char>) -> Seq<char>
    decreases t.len(),
{
    if t.len() == 0 {
        Seq::empty()
    } else if t.len() >= 5 && t.take(5) == escape_char_spec('&') {
        seq!['&'] + unescape_xml_spec(t.skip(5))
    } else if t.len() >= 4 && t.take(4) == escape_char_spec('<') {
        seq!['<'] + unescape_xml_spec(t.skip(4))
    } else if t.len() >= 4 && t.take(4) == escape_char_spec('>') {
        seq!['>'] + unescape_xml_spec(t.skip(4))
    } else if t.len() >= 6 && t.take(6) == escape_char_spec('"') {
        seq!['"'] + unescape_xml_spec(t.skip(6))
    } else if t.len() >= 6 && t.take(6) == escape_char_spec('\'') {
        seq!['\''] + unescape_xml_spec(t.skip(6))
    } else {
        seq![t[0]] + unescape_xml_spec(t.skip(1))
    }
}

proof fn lemma_escape_concat(a: Seq<char>, b: Seq<char>)
    ensures
        escape_xml_spec(a + b) == escape_xml_spec(a) + escape_xml_spec(b),
    decreases b.len(),
{
    if b.len() == 0 {
        assert(a + b =~= a);
        assert(escape_xml_spec(a) + escape_xml_spec(b) =~= escape_xml_spec(a));
    } else {
        lemma_escape_concat(a, b.drop_last());
        assert((a + b).drop_last() =~= a + b.drop_last());
        assert((a + b).last() == b.last());
        assert(escape_xml_spec(a + b) =~= escape_xml_spec(a) + escape_xml_spec(b));
    }
}

proof fn lemma_unescape_escaped_char(c: char, rest: Seq<char>)
    ensures
        unescape_xml_spec(escape_char_spec(c) + rest) == seq![c] + unescape_xml_spec(rest),
{
    let e = escape_char_spec(c);
    let t = e + rest;
    assert(t.skip(e.len() as int) =~= rest);
    assert(t.take(e.len() as int) =~= e);
    assert(t[0] == e[0]);
    if e.len() > 1 {
        assert(t[1] == e[1]);
        assert(t[2] == e[2]);
    }
    if t.len() >= 5 {
        assert(t.take(5)[1] == t[1] && t.take(5)[2] == t[2] && t.take(5)[0] == t[0]);
    }
    if t.len() >= 4 {
        assert(t.take(4)[1] == t[1] && t.take(4)[0] == t[0]);
    }
    if t.len() >= 6 {
        assert(t.take(6)[1] == t[1] && t.take(6)[2] == t[2] && t.take(6)[0] == t[0]);
    }
}

/// `t` begins with `e`.
pub open spec fn begins_with(t: Seq<char>, e: Seq<char>) -> bool {
    t.len() >= e.len() && t.take(e.len() as int) == e
}

/// `t` begins with one of the five entities that escaping writes.
pub open spec fn begins_with_entity(t: Seq<char>) -> bool {
    ||| begins_with(t, escape_char_spec('&'))
    ||| begins_with(t, escape_char_spec('<'))
    ||| begins_with(t, escape_char_spec('>'))
    ||| begins_with(t, escape_char_spec('"'))
    ||| begins_with(t, escape_char_spec('\''))
}

proof fn lemma_begins_with_extend(t: Seq<char>, e: Seq<char>, u: Seq<char>)
    requires
        begins_with(t, e),
    ensures
        begins_with(t + u, e),
{
    assert((t + u).take(e.len() as int) =~= t.take(e.len() as int));
}

/// In escaped text every `&` begins one of the five entities.
pub proof fn lemma_escaped_ampersands_begin_entities(s: Seq<char>)
    ensures
        forall|i: int|
            0 <= i < escape_xml_spec(s).len() && #[trigger] escape_xml_spec(s)[i] == '&'
                ==> begins_with_entity(escape_xml_spec(s).skip(i)),
    decreases s.len(),
{
    if s.len() > 0 {
        lemma_escaped_ampersands_begin_entities(s.drop_last());
        let a = escape_xml_spec(s.drop_last());
        let c = s.last();
        let b = escape_char_spec(c);
        let e = escape_xml_spec(s);
        assert(e == a + b);
        assert forall|i: int| 0 <= i < e.len() && #[trigger] e[i] == '&' implies begins_with_entity(
            e.skip(i),
        ) by {
            if i < a.len() {
                assert(e[i] == a[i]);
                assert(e.skip(i) =~= a.skip(i) + b);
                let t = a.skip(i);
                if begins_with(t, escape_char_spec('&')) {
                    lemma_begins_with_extend(t, escape_char_spec('&'), b);
                } else if begins_with(t, escape_char_spec('<')) {
                    lemma_begins_with_extend(t, escape_char_spec('<'), b);
                } else if begins_with(t, escape_char_spec('>')) {
                    lemma_begins_with_extend(t, escape_char_spec('>'), b);
                } else if begins_with(t, escape_char_spec('"')) {
                    lemma_begins_with_extend(t, escape_char_spec('"'), b);
                } else {
                    lemma_begins_with_extend(t, escape_char_spec('\''), b);
                }
            } else {
                assert(e[i] == b[i - a.len()]);
                assert(i == a.len());
                assert(e.skip(i) =~= b);
                assert(b.take(b.len() as int) =~= b);
            }
        }
    }
}

/// Reading escaped text back gives the text that was escaped.
pub proof fn lemma_unescape_escape_xml(s: Seq<char>)
    ensures
        unescape_xml_spec(escape_xml_spec(s)) == s,
    decreases s.len(),
{
    if s.len() > 0 {
        let rest = s.skip(1);
        assert(s =~= seq![s[0]] + rest);
        lemma_escape_concat(seq![s[0]], rest);
        let first = seq![s[0]];
        assert(first.drop_last() =~= Seq::<char>::empty());
        assert(first.last() == s[0]);
        assert(escape_xml_spec(first.drop_last()) =~= Seq::<char>::empty());
        assert(escape_xml_spec(first) =~= escape_char_spec(s[0]));
        lemma_unescape_escaped_char(s[0], escape_xml_spec(rest));
        lemma_unescape_escape_xml(rest);
    }
}

/// `part` occurs in `text` starting at position `p`.
pub open spec fn occurs_at(text: Seq<char>, part: Seq<char>, p: int) -> bool {
    0 <= p && p + part.len() <= text.len() && text.subrange(p, p + part.len()) == part
}

/// The characters that XML text escapes.
pub open spec fn is_markup_char(c: char) -> bool {
    c == '&' || c == '<' || c == '>' || c == '"' || c == '\''
}

/// Escaped text holds no `<`, `>`, `"` or `'`, and text without markup characters is
/// left as it is.
pub proof fn lemma_escape_xml_removes_markup(s: Seq<char>)
    ensures
        forall|i: int|
            0 <= i < escape_xml_spec(s).len() ==> {
                let c = #[trigger] escape_xml_spec(s)[i];
                c != '<' && c != '>' && c != '"' && c != '\''
            },
        (forall|i: int| 0 <= i < s.len() ==> !is_markup_char(#[trigger] s[i])) ==> escape_xml_spec(s)
            == s,
    decreases s.len(),
{
    if s.len() > 0 {
        lemma_escape_xml_removes_markup(s.drop_last());
        let a = escape_xml_spec(s.drop_last());
        let b = escape_char_spec(s.last());
        assert forall|i: int| 0 <= i < escape_xml_spec(s).len() implies {
            let c = #[trigger] escape_xml_spec(s)[i];
            c != '<' && c != '>' && c != '"' && c != '\''
        } by {
            if i >= a.len() {
                assert(escape_xml_spec(s)[i] == b[i - a.len()]);
            } else {
                assert(escape_xml_spec(s)[i] == a[i]);
            }
        }
        if forall|i: int| 0 <= i < s.len() ==> !is_markup_char(#[trigger] s[i]) {
            assert forall|i: int| 0 <= i < s.drop_last().len() implies !is_markup_char(
                #[trigger] s.drop_last()[i],
            ) by {
                assert(s.drop_last()[i] == s[i]);
            }
            assert(!is_markup_char(s[s.len() - 1]));
            assert(s.drop_last().push(s.last()) =~= s);
        }
    }
}

} // verus!
