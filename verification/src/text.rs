//! Character-level text helpers: comparison, prefixes, trimming and XML
//! attribute escaping.

use vstd::prelude::*;

verus! {

/// Appends one character to a string (`String::push`).
#[verifier::external_body]
pub(crate) fn push_char(s: &mut String, c: char)
    ensures
        final(s)@ == old(s)@.push(c),
{
    s.push(c);
}

/// The characters of `s`, in order.
pub fn chars_of(s: &str) -> (v: Vec<char>)
    ensures
        v@ == s@,
{
    let mut v: Vec<char> = Vec::new();
    for c in it: s.chars()
        invariant
            it.seq() == s@,
            v@ == it.seq().take(it.index() as int),
    {
        v.push(c);
    }
    v
}

/// A string holding exactly the characters `v[from..to]`.
pub fn string_from_chars(v: &Vec<char>, from: usize, to: usize) -> (s: String)
    requires
        from <= to <= v.len(),
    ensures
        s@ == v@.subrange(from as int, to as int),
{
    let mut s = String::new();
    let mut i = from;
    while i < to
        invariant
            from <= i <= to <= v.len(),
            s@ == v@.subrange(from as int, i as int),
        decreases to - i,
    {
        push_char(&mut s, v[i]);
        assert(v@.subrange(from as int, i + 1) =~= v@.subrange(from as int, i as int).push(v@[i as int]));
        i = i + 1;
    }
    s
}

/// Whether `a` and `b` hold the same characters.
pub fn same_text(a: &str, b: &str) -> (r: bool)
    ensures
        r == (a@ == b@),
{
    let x = chars_of(a);
    let y = chars_of(b);
    if x.len() != y.len() {
        return false;
    }
    let mut i: usize = 0;
    while i < x.len()
        invariant
            x.len() == y.len(),
            i <= x.len(),
            x@ == a@,
            y@ == b@,
            forall|j: int| 0 <= j < i ==> x@[j] == y@[j],
        decreases x.len() - i,
    {
        if x[i] != y[i] {
            return false;
        }
        i = i + 1;
    }
    assert(x@ =~= y@);
    true
}

/// Whether `s` begins with `prefix`.
pub open spec fn has_prefix(s: Seq<char>, prefix: Seq<char>) -> bool {
    prefix.len() <= s.len() && s.take(prefix.len() as int) == prefix
}

/// Whether `s` begins with `prefix` (`str::starts_with` on a string pattern).
pub fn starts_with_text(s: &str, prefix: &str) -> (r: bool)
    ensures
        r == has_prefix(s@, prefix@),
{
    let x = chars_of(s);
    let y = chars_of(prefix);
    if y.len() > x.len() {
        return false;
    }
    let mut i: usize = 0;
    while i < y.len()
        invariant
            y.len() <= x.len(),
            i <= y.len(),
            x@ == s@,
            y@ == prefix@,
            forall|j: int| 0 <= j < i ==> x@[j] == y@[j],
        decreases y.len() - i,
    {
        if x[i] != y[i] {
            assert(s@.take(prefix@.len() as int)[i as int] != prefix@[i as int]);
            return false;
        }
        i = i + 1;
    }
    assert(s@.take(prefix@.len() as int) =~= prefix@);
    true
}

/// Strict lexicographic order on character sequences, comparing characters
/// by their code points (the order that `Ord` gives `str`).
pub open spec fn text_less(a: Seq<char>, b: Seq<char>) -> bool
    decreases a.len(),
{
    if a.len() == 0 {
        b.len() > 0
    } else if b.len() == 0 {
        false
    } else if a[0] != b[0] {
        a[0] < b[0]
    } else {
        text_less(a.drop_first(), b.drop_first())
    }
}

/// No text is less than itself.
pub proof fn lemma_text_less_irreflexive(a: Seq<char>)
    ensures
        !text_less(a, a),
    decreases a.len(),
{
    if a.len() > 0 {
        lemma_text_less_irreflexive(a.drop_first());
    }
}

/// Any two different texts are ordered one way or the other, never both.
pub proof fn lemma_text_less_total(a: Seq<char>, b: Seq<char>)
    ensures
        a != b ==> (text_less(a, b) || text_less(b, a)),
        !(text_less(a, b) && text_less(b, a)),
    decreases a.len(),
{
    if a.len() > 0 && b.len() > 0 && a[0] == b[0] {
        lemma_text_less_total(a.drop_first(), b.drop_first());
        assert(a =~= seq![a[0]] + a.drop_first());
        assert(b =~= seq![b[0]] + b.drop_first());
    } else if a.len() == 0 && b.len() == 0 {
        assert(a =~= b);
    }
}

/// The text order is transitive.
pub proof fn lemma_text_less_transitive(a: Seq<char>, b: Seq<char>, c: Seq<char>)
    requires
        text_less(a, b),
        text_less(b, c),
    ensures
        text_less(a, c),
    decreases a.len(),
{
    if a.len() > 0 && b.len() > 0 && c.len() > 0 && a[0] == b[0] && b[0] == c[0] {
        lemma_text_less_transitive(a.drop_first(), b.drop_first(), c.drop_first());
    }
}

/// Whether `a` comes strictly before `b` in the order of `text_less`.
pub fn text_less_exec(a: &str, b: &str) -> (r: bool)
    ensures
        r == text_less(a@, b@),
{
    let x = chars_of(a);
    let y = chars_of(b);
    let mut i: usize = 0;
    assert(x@.skip(0) =~= x@);
    assert(y@.skip(0) =~= y@);
    while i < x.len() && i < y.len()
        invariant
            i <= x.len(),
            i <= y.len(),
            x@ == a@,
            y@ == b@,
            text_less(a@, b@) == text_less(x@.skip(i as int), y@.skip(i as int)),
        decreases x.len() - i,
    {
        if x[i] != y[i] {
            assert(x@.skip(i as int)[0] == x@[i as int]);
            assert(y@.skip(i as int)[0] == y@[i as int]);
            return x[i] < y[i];
        }
        assert(x@.skip(i as int).drop_first() =~= x@.skip(i + 1));
        assert(y@.skip(i as int).drop_first() =~= y@.skip(i + 1));
        i = i + 1;
    }
    x.len() < y.len()
}

/// The characters that Unicode gives the White_Space property
/// (those for which `char::is_whitespace` holds).
pub open spec fn is_white_space(c: char) -> bool {
    let n = c as int;
    ||| 0x9 <= n <= 0xd
    ||| n == 0x20
    ||| n == 0x85
    ||| n == 0xa0
    ||| n == 0x1680
    ||| 0x2000 <= n <= 0x200a
    ||| n == 0x2028
    ||| n == 0x2029
    ||| n == 0x202f
    ||| n == 0x205f
    ||| n == 0x3000
}

/// Whether `c` is white space in the sense of `is_white_space`.
pub fn is_white_space_exec(c: char) -> (r: bool)
    ensures
        r == is_white_space(c),
{
    let n = c as u32;
    assert(n as int == c as int);
    (0x9 <= n && n <= 0xd) || n == 0x20 || n == 0x85 || n == 0xa0 || n == 0x1680 || (0x2000
        <= n && n <= 0x200a) || n == 0x2028 || n == 0x2029 || n == 0x202f || n == 0x205f || n
        == 0x3000
}

/// `s` without its leading and trailing white space (`str::trim`).
pub open spec fn trimmed(s: Seq<char>) -> Seq<char>
    decreases s.len(),
{
    if s.len() > 0 && is_white_space(s[0]) {
        trimmed(s.drop_first())
    } else if s.len() > 0 && is_white_space(s.last()) {
        trimmed(s.drop_last())
    } else {
        s
    }
}

/// Trailing white space from `j` on is dropped by trimming.
proof fn lemma_trimmed_tail(s: Seq<char>, j: int)
    requires
        0 < j <= s.len(),
        !is_white_space(s[0]),
        forall|k: int| j <= k < s.len() ==> is_white_space(#[trigger] s[k]),
    ensures
        trimmed(s) == trimmed(s.take(j)),
    decreases s.len() - j,
{
    if j < s.len() {
        assert(s.drop_last().take(j) =~= s.take(j));
        lemma_trimmed_tail(s.drop_last(), j);
    } else {
        assert(s.take(j) =~= s);
    }
}

/// Leading white space before `i` is dropped by trimming.
proof fn lemma_trimmed_head(s: Seq<char>, i: int)
    requires
        0 <= i <= s.len(),
        forall|k: int| 0 <= k < i ==> is_white_space(#[trigger] s[k]),
    ensures
        trimmed(s) == trimmed(s.skip(i)),
    decreases i,
{
    if i > 0 {
        assert(s.drop_first().skip(i - 1) =~= s.skip(i));
        lemma_trimmed_head(s.drop_first(), i - 1);
    } else {
        assert(s.skip(0) =~= s);
    }
}

/// `s` without leading and trailing white space (`str::trim`).
pub fn trim_text(s: &str) -> (r: String)
    ensures
        r@ == trimmed(s@),
{
    let v = chars_of(s);
    let mut i: usize = 0;
    while i < v.len() && is_white_space_exec(v[i])
        invariant
            i <= v.len(),
            v@ == s@,
            forall|k: int| 0 <= k < i ==> is_white_space(#[trigger] v@[k]),
        decreases v.len() - i,
    {
        i = i + 1;
    }
    proof {
        lemma_trimmed_head(s@, i as int);
    }
    if i == v.len() {
        assert(s@.skip(i as int) =~= Seq::<char>::empty());
        let r = String::new();
        return r;
    }
    let mut j: usize = v.len();
    while j > i + 1 && is_white_space_exec(v[j - 1])
        invariant
            i < j <= v.len(),
            v@ == s@,
            forall|k: int| j <= k < v.len() ==> is_white_space(#[trigger] v@[k]),
        decreases j,
    {
        j = j - 1;
    }
    proof {
        let t = s@.skip(i as int);
        assert forall|k: int| (j - i) <= k < t.len() implies is_white_space(#[trigger] t[k]) by {
            assert(t[k] == v@[k + i]);
        }
        lemma_trimmed_tail(t, (j - i) as int);
        assert(t.take((j - i) as int) =~= v@.subrange(i as int, j as int));
        let u = v@.subrange(i as int, j as int);
        if is_white_space(u.last()) {
            assert(j == i + 1);
            assert(u[0] == u.last());
        }
        assert(trimmed(u) == u);
    }
    string_from_chars(&v, i, j)
}

/// What the XML writer puts in place of one character of an attribute value.
pub open spec fn escape_char(c: char) -> Seq<char> {
    if c == '&' {
        seq!['&', 'a', 'm', 'p', ';']
    } else if c == '\x22' {
        seq!['&', 'q', 'u', 'o', 't', ';']
    } else if c == '<' {
        seq!['&', 'l', 't', ';']
    } else if c == '>' {
        seq!['&', 'g', 't', ';']
    } else {
        seq![c]
    }
}

/// `s` with ampersands, double quotes, `<` and `>` replaced by entity references.
pub open spec fn escaped(s: Seq<char>) -> Seq<char>
    decreases s.len(),
{
    if s.len() == 0 {
        Seq::empty()
    } else {
        escaped(s.drop_last()) + escape_char(s.last())
    }
}

/// Replaces ampersands, double quotes, `<` and `>` in `value` by `&amp;`, `&quot;`, `&lt;` and
/// `&gt;`, in that order of replacement.
pub fn escape_xml(value: &str) -> (r: String)
    ensures
        r@ == escaped(value@),
{
    let mut out = String::new();
    for c in it: value.chars()
        invariant
            it.seq() == value@,
            out@ == escaped(it.seq().take(it.index() as int)),
    {
        let ghost before = it.seq().take(it.index() as int);
        proof {
            reveal_strlit("&amp;");
            reveal_strlit("&quot;");
            reveal_strlit("&lt;");
            reveal_strlit("&gt;");
        }
        assert(it.seq().take(it.index() + 1).drop_last() =~= before);
        if c == '&' {
            out.append("&amp;");
        } else if c == '\x22' {
            out.append("&quot;");
        } else if c == '<' {
            out.append("&lt;");
        } else if c == '>' {
            out.append("&gt;");
        } else {
            push_char(&mut out, c);
        }
        assert(out@ =~= escaped(before) + escape_char(c));
    }
    assert(value@.take(value@.len() as int) =~= value@);
    out
}

/// Reads back entity references: the inverse of `escaped`.
pub open spec fn unescaped(s: Seq<char>) -> Seq<char>
    decreases s.len(),
{
    if s.len() == 0 {
        Seq::empty()
    } else if has_prefix(s, escape_char('&')) {
        seq!['&'] + unescaped(s.skip(5))
    } else if has_prefix(s, escape_char('\x22')) {
        seq!['\x22'] + unescaped(s.skip(6))
    } else if has_prefix(s, escape_char('<')) {
        seq!['<'] + unescaped(s.skip(4))
    } else if has_prefix(s, escape_char('>')) {
        seq!['>'] + unescaped(s.skip(4))
    } else {
        seq![s[0]] + unescaped(s.skip(1))
    }
}

/// Escaping a concatenation escapes each part.
pub proof fn lemma_escaped_concat(a: Seq<char>, b: Seq<char>)
    ensures
        escaped(a + b) == escaped(a) + escaped(b),
    decreases b.len(),
{
    if b.len() == 0 {
        assert(a + b =~= a);
        assert(escaped(a) + escaped(b) =~= escaped(a));
    } else {
        assert((a + b).drop_last() =~= a + b.drop_last());
        lemma_escaped_concat(a, b.drop_last());
        assert(escaped(a + b) =~= escaped(a) + escaped(b));
    }
}

/// Escaping a non-empty text escapes its first character, then the rest.
pub proof fn lemma_escaped_first(s: Seq<char>)
    requires
        s.len() > 0,
    ensures
        escaped(s) == escape_char(s[0]) + escaped(s.drop_first()),
{
    assert(s =~= seq![s[0]] + s.drop_first());
    lemma_escaped_concat(seq![s[0]], s.drop_first());
    let one = seq![s[0]];
    assert(one.drop_last() =~= Seq::<char>::empty());
    assert(one.last() == s[0]);
    assert(escaped(Seq::<char>::empty()) =~= Seq::<char>::empty());
    assert(escaped(one) =~= escaped(one.drop_last()) + escape_char(one.last()));
    assert(escaped(one) =~= escape_char(s[0]));
}

/// Reading back the entity references of an escaped value gives the value:
/// what the XML writer puts in an attribute loses nothing.
pub proof fn lemma_unescape_escaped(s: Seq<char>)
    ensures
        unescaped(escaped(s)) == s,
    decreases s.len(),
{
    if s.len() == 0 {
        assert(escaped(s) =~= Seq::<char>::empty());
    } else {
        lemma_escaped_first(s);
        lemma_unescape_escaped(s.drop_first());
        let c = s[0];
        let t = escaped(s);
        let e = escape_char(c);
        assert(t.skip(e.len() as int) =~= escaped(s.drop_first()));
        assert(t.take(e.len() as int) =~= e);
        if c != '&' && c != '\x22' && c != '<' && c != '>' {
            assert(t[0] == c);
            assert(!has_prefix(t, escape_char('&')));
            assert(!has_prefix(t, escape_char('\x22')));
            assert(!has_prefix(t, escape_char('<')));
            assert(!has_prefix(t, escape_char('>')));
        } else if c == '\x22' {
            assert(!has_prefix(t, escape_char('&')));
        } else if c == '<' {
            assert(!has_prefix(t, escape_char('&')));
            assert(!has_prefix(t, escape_char('\x22')));
        } else if c == '>' {
            assert(!has_prefix(t, escape_char('&')));
            assert(!has_prefix(t, escape_char('\x22')));
            assert(!has_prefix(t, escape_char('<')));
        }
        assert(s =~= seq![c] + s.drop_first());
    }
}

/// An escaped value holds no double quote, `<` or `>`, so it cannot end the
/// attribute it stands in nor open markup.
pub proof fn lemma_escaped_has_no_markup(s: Seq<char>)
    ensures
        forall|i: int|
            0 <= i < escaped(s).len() ==> {
                let c = #[trigger] escaped(s)[i];
                c != '\x22' && c != '<' && c != '>'
            },
    decreases s.len(),
{
    if s.len() > 0 {
        lemma_escaped_has_no_markup(s.drop_last());
        let p = escaped(s.drop_last());
        let e = escape_char(s.last());
        assert forall|i: int| 0 <= i < escaped(s).len() implies {
            let c = #[trigger] escaped(s)[i];
            c != '\x22' && c != '<' && c != '>'
        } by {
            if i >= p.len() {
                assert(escaped(s)[i] == e[i - p.len()]);
            } else {
                assert(escaped(s)[i] == p[i]);
            }
        }
    }
}

} // verus!
