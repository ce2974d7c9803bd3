//! Blanking of comments and string/char literals in Java source.
//!
//! The scan marks every character that lies in a comment or a literal; a
//! marked character becomes spaces, as many as its UTF-8 encoding has bytes,
//! except a line break, which stays. So line breaks and the overall byte
//! length are kept, and brace-depth tracking and regex matching never see a
//! token that only exists inside a comment or a literal.

use vstd::prelude::*;

use crate::metadata::{lemma_encode_len, lemma_utf8_len_concat, utf8_len, utf8_width};
use crate::text::{chars_of, string_of};

verus! {

/// The first line break at or after `i`, or the end.
pub open spec fn line_end(s: Seq<char>, i: int) -> int
    decreases s.len() - i,
{
    if i < 0 || i >= s.len() {
        s.len() as int
    } else if s[i] == '\n' {
        i
    } else {
        line_end(s, i + 1)
    }
}

/// The first `*/` at or after `i`, or the end.
pub open spec fn block_end(s: Seq<char>, i: int) -> int
    decreases s.len() - i,
{
    if i < 0 || i >= s.len() {
        s.len() as int
    } else if s[i] == '*' && i + 1 < s.len() && s[i + 1] == '/' {
        i
    } else {
        block_end(s, i + 1)
    }
}

/// The first `"""` at or after `i`, or the end.
pub open spec fn triple_end(s: Seq<char>, i: int) -> int
    decreases s.len() - i,
{
    if i < 0 || i >= s.len() {
        s.len() as int
    } else if s[i] == '"' && i + 2 < s.len() && s[i + 1] == '"' && s[i + 2] == '"' {
        i
    } else {
        triple_end(s, i + 1)
    }
}

/// The closing quote `q` of a string or char literal whose body starts at
/// `i`, skipping escape pairs; the end if there is none.
pub open spec fn literal_end(s: Seq<char>, i: int, q: char) -> int
    decreases s.len() - i,
{
    if i < 0 || i >= s.len() {
        s.len() as int
    } else if s[i] == q {
        i
    } else if s[i] == '\\' && i + 1 < s.len() {
        literal_end(s, i + 2, q)
    } else {
        literal_end(s, i + 1, q)
    }
}

/// `n` marks.
pub open spec fn marked(n: int) -> Seq<bool> {
    Seq::new(n as nat, |k: int| true)
}

/// Which characters of `s[i..]` lie in a comment or a literal (delimiters
/// included).
pub open spec fn mask_from(s: Seq<char>, i: int) -> Seq<bool>
    decreases s.len() - i, 0int,
{
    if i < 0 || i >= s.len() {
        seq![]
    } else if s[i] == '/' && i + 1 < s.len() && s[i + 1] == '/' {
        let j = line_end(s, i);
        if j <= i || j > s.len() {
            seq![]
        } else {
            marked(j - i) + mask_from(s, j)
        }
    } else if s[i] == '/' && i + 1 < s.len() && s[i + 1] == '*' {
        let k = block_end(s, i + 2);
        if k < i + 2 || k > s.len() {
            seq![]
        } else if k + 2 <= s.len() {
            marked(k + 2 - i) + mask_from(s, k + 2)
        } else {
            marked(s.len() - i)
        }
    } else if s[i] == '"' && i + 2 < s.len() && s[i + 1] == '"' && s[i + 2] == '"' {
        let k = triple_end(s, i + 3);
        if k < i + 3 || k > s.len() {
            seq![]
        } else if k + 3 <= s.len() {
            marked(k + 3 - i) + mask_from(s, k + 3)
        } else {
            marked(s.len() - i)
        }
    } else if s[i] == '"' || s[i] == '\'' {
        let e = literal_end(s, i + 1, s[i]);
        if e <= i || e > s.len() {
            seq![]
        } else if e < s.len() {
            marked(e + 1 - i) + mask_from(s, e + 1)
        } else {
            marked(s.len() - i)
        }
    } else {
        seq![false] + mask_from(s, i + 1)
    }
}

/// Which characters of `s` lie in a comment or a literal.
pub open spec fn strip_mask(s: Seq<char>) -> Seq<bool> {
    mask_from(s, 0)
}

/// What a blanked character becomes: a line break stays, anything else turns
/// into one space per byte of its UTF-8 encoding.
pub open spec fn blank_char(c: char) -> Seq<char> {
    if c == '\n' {
        seq!['\n']
    } else {
        Seq::new(utf8_width(c), |k: int| ' ')
    }
}

/// A character as the result shows it.
pub open spec fn piece(c: char, blanked: bool) -> Seq<char> {
    if blanked {
        blank_char(c)
    } else {
        seq![c]
    }
}

/// `s` with the characters that `m` marks blanked.
pub open spec fn render(s: Seq<char>, m: Seq<bool>) -> Seq<char>
    decreases s.len(),
{
    if s.len() == 0 {
        seq![]
    } else {
        render(s.drop_last(), m.drop_last()) + piece(s.last(), m.last())
    }
}

/// `s` with its comments and literals blanked.
pub open spec fn strip_chars(s: Seq<char>) -> Seq<char> {
    render(s, strip_mask(s))
}

// ---------------------------------------------------------------------------
// Laws.

proof fn lemma_line_end(s: Seq<char>, i: int)
    requires
        0 <= i <= s.len(),
    ensures
        i <= line_end(s, i) <= s.len(),
    decreases s.len() - i,
{
    if i < s.len() && s[i] != '\n' {
        lemma_line_end(s, i + 1);
    }
}

proof fn lemma_block_end(s: Seq<char>, i: int)
    requires
        0 <= i <= s.len(),
    ensures
        i <= block_end(s, i) <= s.len(),
        block_end(s, i) < s.len() ==> block_end(s, i) + 2 <= s.len(),
    decreases s.len() - i,
{
    if i < s.len() && !(s[i] == '*' && i + 1 < s.len() && s[i + 1] == '/') {
        lemma_block_end(s, i + 1);
    }
}

proof fn lemma_triple_end(s: Seq<char>, i: int)
    requires
        0 <= i <= s.len(),
    ensures
        i <= triple_end(s, i) <= s.len(),
        triple_end(s, i) < s.len() ==> triple_end(s, i) + 3 <= s.len(),
    decreases s.len() - i,
{
    if i < s.len() && !(s[i] == '"' && i + 2 < s.len() && s[i + 1] == '"' && s[i + 2] == '"') {
        lemma_triple_end(s, i + 1);
    }
}

proof fn lemma_literal_end(s: Seq<char>, i: int, q: char)
    requires
        0 <= i <= s.len(),
    ensures
        i <= literal_end(s, i, q) <= s.len(),
    decreases s.len() - i,
{
    if i < s.len() && s[i] != q {
        if s[i] == '\\' && i + 1 < s.len() {
            lemma_literal_end(s, i + 2, q);
        } else {
            lemma_literal_end(s, i + 1, q);
        }
    }
}

proof fn lemma_mask_len(s: Seq<char>, i: int)
    requires
        0 <= i <= s.len(),
    ensures
        mask_from(s, i).len() == s.len() - i,
    decreases s.len() - i,
{
    if i < s.len() {
        if s[i] == '/' && i + 1 < s.len() && s[i + 1] == '/' {
            lemma_line_end(s, i + 1);
            lemma_mask_len(s, line_end(s, i));
        } else if s[i] == '/' && i + 1 < s.len() && s[i + 1] == '*' {
            lemma_block_end(s, i + 2);
            let k = block_end(s, i + 2);
            if k < s.len() {
                lemma_mask_len(s, k + 2);
            }
        } else if s[i] == '"' && i + 2 < s.len() && s[i + 1] == '"' && s[i + 2] == '"' {
            lemma_triple_end(s, i + 3);
            let k = triple_end(s, i + 3);
            if k < s.len() {
                lemma_mask_len(s, k + 3);
            }
        } else if s[i] == '"' || s[i] == '\'' {
            lemma_literal_end(s, i + 1, s[i]);
            let e = literal_end(s, i + 1, s[i]);
            if e < s.len() {
                lemma_mask_len(s, e + 1);
            }
        } else {
            lemma_mask_len(s, i + 1);
        }
    }
}

proof fn lemma_render_concat(a: Seq<char>, ma: Seq<bool>, b: Seq<char>, mb: Seq<bool>)
    requires
        a.len() == ma.len(),
        b.len() == mb.len(),
    ensures
        render(a + b, ma + mb) == render(a, ma) + render(b, mb),
    decreases b.len(),
{
    if b.len() == 0 {
        assert(a + b =~= a);
        assert(ma + mb =~= ma);
        assert(render(a, ma) + render(b, mb) =~= render(a, ma));
    } else {
        lemma_render_concat(a, ma, b.drop_last(), mb.drop_last());
        assert((a + b).drop_last() =~= a + b.drop_last());
        assert((ma + mb).drop_last() =~= ma + mb.drop_last());
        assert(render(a, ma) + render(b.drop_last(), mb.drop_last()) + piece(b.last(), mb.last())
            =~= render(a, ma) + (render(b.drop_last(), mb.drop_last()) + piece(
            b.last(),
            mb.last(),
        )));
    }
}

proof fn lemma_spaces_len(n: nat)
    ensures
        utf8_len(Seq::new(n, |k: int| ' ')) == n,
    decreases n,
{
    if n > 0 {
        lemma_spaces_len((n - 1) as nat);
        assert(Seq::new(n, |k: int| ' ').drop_last() =~= Seq::new((n - 1) as nat, |k: int| ' '));
    }
}

proof fn lemma_render_utf8_len(s: Seq<char>, m: Seq<bool>)
    requires
        s.len() == m.len(),
    ensures
        utf8_len(render(s, m)) == utf8_len(s),
    decreases s.len(),
{
    if s.len() > 0 {
        lemma_render_utf8_len(s.drop_last(), m.drop_last());
        let c = s.last();
        let p = piece(c, m.last());
        lemma_utf8_len_concat(render(s.drop_last(), m.drop_last()), p);
        lemma_utf8_len_concat(s.drop_last(), seq![c]);
        assert(s.drop_last() + seq![c] =~= s);
        assert(seq![c].drop_last() =~= Seq::<char>::empty());
        assert(utf8_len(seq![c]) == utf8_width(c));
        if m.last() && c != '\n' {
            lemma_spaces_len(utf8_width(c));
        } else if m.last() {
            assert(seq!['\n'].drop_last() =~= Seq::<char>::empty());
            assert(p =~= seq![c]);
        }
    }
}

/// Whether every character of `s` is ASCII.
pub open spec fn all_ascii(s: Seq<char>) -> bool {
    forall|k: int| 0 <= k < s.len() ==> (#[trigger] s[k] as u32) < 0x80
}

proof fn lemma_render_ascii(s: Seq<char>, m: Seq<bool>)
    requires
        s.len() == m.len(),
        all_ascii(s),
    ensures
        render(s, m).len() == s.len(),
        forall|k: int|
            0 <= k < s.len() ==> #[trigger] render(s, m)[k] == (if m[k] && s[k] != '\n' {
                ' '
            } else {
                s[k]
            }),
    decreases s.len(),
{
    if s.len() > 0 {
        let p = s.drop_last();
        let pm = m.drop_last();
        assert(all_ascii(p)) by {
            assert forall|k: int| 0 <= k < p.len() implies (#[trigger] p[k] as u32) < 0x80 by {
                assert(p[k] == s[k]);
            }
        }
        lemma_render_ascii(p, pm);
        let last = s.last();
        assert((s[s.len() - 1] as u32) < 0x80);
        assert(piece(last, m.last()).len() == 1);
        assert forall|k: int| 0 <= k < s.len() implies #[trigger] render(s, m)[k] == (if m[k]
            && s[k] != '\n' {
            ' '
        } else {
            s[k]
        }) by {
            if k < p.len() {
                assert(render(s, m)[k] == render(p, pm)[k]);
                assert(p[k] == s[k] && pm[k] == m[k]);
            } else {
                assert(render(s, m)[k] == piece(last, m.last())[0]);
            }
        }
    }
}

/// Blanking keeps the text's UTF-8 byte length: each character becomes
/// itself or, when it lies in a comment or a literal, a line break for a line
/// break and otherwise as many spaces as it has bytes. On ASCII text this
/// keeps every position: each character stays or becomes a space, and the
/// line breaks are exactly those of the source.
pub proof fn lemma_strip_keeps_layout(s: Seq<char>)
    ensures
        strip_mask(s).len() == s.len(),
        vstd::utf8::encode_utf8(strip_chars(s)).len() == vstd::utf8::encode_utf8(s).len(),
        all_ascii(s) ==> strip_chars(s).len() == s.len() && forall|k: int|
            0 <= k < s.len() ==> (#[trigger] strip_chars(s)[k] == ' ' || strip_chars(s)[k] == s[k])
                && (strip_chars(s)[k] == '\n' <==> s[k] == '\n'),
{
    lemma_mask_len(s, 0);
    lemma_render_utf8_len(s, strip_mask(s));
    lemma_encode_len(s);
    lemma_encode_len(strip_chars(s));
    if all_ascii(s) {
        lemma_render_ascii(s, strip_mask(s));
    }
}

// ---------------------------------------------------------------------------
// Executable code.

fn width(c: char) -> (r: usize)
    ensures
        r == utf8_width(c),
{
    let code = c as u32;
    if code < 0x80 {
        1
    } else if code < 0x800 {
        2
    } else if code < 0x10000 {
        3
    } else {
        4
    }
}

fn push_blank_char(out: &mut Vec<char>, c: char)
    ensures
        final(out)@ == old(out)@ + blank_char(c),
{
    let ghost start = out@;
    if c == '\n' {
        out.push('\n');
        assert(out@ =~= start + blank_char(c));
    } else {
        let w = width(c);
        let mut k: usize = 0;
        while k < w
            invariant
                k <= w,
                w == utf8_width(c),
                out@ == start + Seq::new(k as nat, |x: int| ' '),
            decreases w - k,
        {
            out.push(' ');
            k = k + 1;
            assert(out@ =~= start + Seq::new(k as nat, |x: int| ' '));
        }
    }
}

/// Appends `s[from..to]` blanked.
fn push_blank(out: &mut Vec<char>, s: &[char], from: usize, to: usize)
    requires
        from <= to <= s@.len(),
    ensures
        final(out)@ == old(out)@ + render(s@.subrange(from as int, to as int), marked(to - from)),
{
    let ghost start = out@;
    let mut k = from;
    assert(render(s@.subrange(from as int, from as int), marked(0)) =~= Seq::<char>::empty());
    while k < to
        invariant
            from <= k <= to <= s@.len(),
            out@ == start + render(s@.subrange(from as int, k as int), marked(k - from)),
        decreases to - k,
    {
        push_blank_char(out, s[k]);
        let ghost sub = s@.subrange(from as int, k + 1);
        assert(sub.drop_last() =~= s@.subrange(from as int, k as int));
        assert(marked(k + 1 - from).drop_last() =~= marked(k - from));
        assert(sub.last() == s@[k as int]);
        k = k + 1;
        assert(out@ =~= start + render(s@.subrange(from as int, k as int), marked(k - from)));
    }
}

fn find_line_end(s: &[char], i: usize) -> (r: usize)
    requires
        i <= s@.len(),
    ensures
        r == line_end(s@, i as int),
{
    let mut j = i;
    while j < s.len() && s[j] != '\n'
        invariant
            i <= j <= s@.len(),
            line_end(s@, i as int) == line_end(s@, j as int),
        decreases s@.len() - j,
    {
        j = j + 1;
    }
    j
}

fn find_block_end(s: &[char], i: usize) -> (r: usize)
    requires
        i <= s@.len(),
    ensures
        r == block_end(s@, i as int),
{
    let mut j = i;
    while j < s.len() && !(s[j] == '*' && j + 1 < s.len() && s[j + 1] == '/')
        invariant
            i <= j <= s@.len(),
            block_end(s@, i as int) == block_end(s@, j as int),
        decreases s@.len() - j,
    {
        j = j + 1;
    }
    j
}

fn find_triple_end(s: &[char], i: usize) -> (r: usize)
    requires
        i <= s@.len(),
    ensures
        r == triple_end(s@, i as int),
{
    let mut j = i;
    while j < s.len() && !(s[j] == '"' && s.len() - j > 2 && s[j + 1] == '"' && s[j + 2] == '"')
        invariant
            i <= j <= s@.len(),
            triple_end(s@, i as int) == triple_end(s@, j as int),
        decreases s@.len() - j,
    {
        j = j + 1;
    }
    j
}

fn find_literal_end(s: &[char], i: usize, q: char) -> (r: usize)
    requires
        i <= s@.len(),
    ensures
        r == literal_end(s@, i as int, q),
{
    let mut j = i;
    while j < s.len() && s[j] != q
        invariant
            i <= j <= s@.len(),
            literal_end(s@, i as int, q) == literal_end(s@, j as int, q),
        decreases s@.len() - j,
    {
        if s[j] == '\\' && j + 1 < s.len() {
            j = j + 2;
        } else {
            j = j + 1;
        }
    }
    j
}

/// Handles the character at `i`: blanks the comment or literal it opens, or
/// keeps it. Returns where the scan goes on.
fn strip_step(out: &mut Vec<char>, s: &[char], i: usize) -> (r: usize)
    requires
        i < s@.len(),
    ensures
        i < r <= s@.len(),
        mask_from(s@, i as int).len() >= r - i,
        mask_from(s@, i as int) == mask_from(s@, i as int).take(r - i) + mask_from(s@, r as int),
        final(out)@ == old(out)@ + render(
            s@.subrange(i as int, r as int),
            mask_from(s@, i as int).take(r - i),
        ),
{
    let n = s.len();
    let c = s[i];
    let ghost m = mask_from(s@, i as int);
    let r = if c == '/' && i + 1 < n && s[i + 1] == '/' {
        proof {
            lemma_line_end(s@, i + 1);
        }
        find_line_end(s, i)
    } else if c == '/' && i + 1 < n && s[i + 1] == '*' {
        proof {
            lemma_block_end(s@, i + 2);
        }
        let k = find_block_end(s, i + 2);
        if k < n {
            assert(k + 2 <= n);
            k + 2
        } else {
            n
        }
    } else if c == '"' && n - i > 2 && s[i + 1] == '"' && s[i + 2] == '"' {
        proof {
            lemma_triple_end(s@, i + 3);
        }
        let k = find_triple_end(s, i + 3);
        if k < n {
            assert(k + 3 <= n);
            k + 3
        } else {
            n
        }
    } else if c == '"' || c == '\'' {
        proof {
            lemma_literal_end(s@, i + 1, c);
        }
        let e = find_literal_end(s, i + 1, c);
        if e < n {
            e + 1
        } else {
            n
        }
    } else {
        out.push(c);
        proof {
            assert(m.take(1) =~= seq![false]);
            assert(m =~= m.take(1) + mask_from(s@, i + 1));
            let sub = s@.subrange(i as int, i + 1);
            assert(sub.drop_last() =~= Seq::<char>::empty());
            assert(sub.last() == c);
            assert(seq![false].drop_last() =~= Seq::<bool>::empty());
            assert(render(sub.drop_last(), Seq::<bool>::empty()) =~= Seq::<char>::empty());
            assert(render(sub, seq![false]) =~= seq![c]);
        }
        return i + 1;
    };
    proof {
        if r == n {
            assert(mask_from(s@, r as int) =~= Seq::<bool>::empty());
        }
        assert(m =~= marked(r - i) + mask_from(s@, r as int));
        assert(m.take(r - i) =~= marked(r - i));
    }
    push_blank(out, s, i, r);
    r
}

/// Replaces the contents of comments and string/char literals with spaces,
/// keeping line breaks and the UTF-8 byte length.
pub fn strip_comments_and_literals(src: &str) -> (r: String)
    ensures
        r@ == strip_chars(src@),
        bytes_blanked(vstd::utf8::encode_utf8(r@), vstd::utf8::encode_utf8(src@)),
{
    proof {
        lemma_strip_keeps_bytes(src@);
    }
    let s = chars_of(src);
    let n = s.len();
    let ghost m = strip_mask(s@);
    proof {
        lemma_mask_len(s@, 0);
        assert(m.skip(0) =~= m);
        assert(render(s@.take(0), m.take(0)) =~= Seq::<char>::empty());
    }
    let mut out: Vec<char> = Vec::new();
    let mut i: usize = 0;
    while i < n
        invariant
            i <= n,
            n == s@.len(),
            m == strip_mask(s@),
            m.len() == n,
            m.skip(i as int) == mask_from(s@, i as int),
            out@ == render(s@.take(i as int), m.take(i as int)),
        decreases n - i,
    {
        let r = strip_step(&mut out, s.as_slice(), i);
        proof {
            let seg = mask_from(s@, i as int).take(r - i);
            assert(s@.take(r as int) =~= s@.take(i as int) + s@.subrange(i as int, r as int));
            assert(m.take(r as int) =~= m.take(i as int) + seg);
            lemma_render_concat(
                s@.take(i as int),
                m.take(i as int),
                s@.subrange(i as int, r as int),
                seg,
            );
            assert(m.skip(r as int) =~= m.skip(i as int).skip(r - i));
            assert(mask_from(s@, i as int).skip(r - i) =~= mask_from(s@, r as int));
        }
        i = r;
    }
    assert(s@.take(n as int) =~= s@);
    assert(m.take(n as int) =~= m);
    string_of(out.as_slice())
}


proof fn lemma_encode_concat(a: Seq<char>, b: Seq<char>)
    ensures
        vstd::utf8::encode_utf8(a + b) == vstd::utf8::encode_utf8(a) + vstd::utf8::encode_utf8(b),
    decreases a.len(),
{
    if a.len() == 0 {
        assert(a + b =~= b);
        assert(vstd::utf8::encode_utf8(a) =~= Seq::<u8>::empty());
        assert(Seq::<u8>::empty() + vstd::utf8::encode_utf8(b) =~= vstd::utf8::encode_utf8(b));
    } else {
        lemma_encode_concat(a.drop_first(), b);
        assert((a + b).drop_first() =~= a.drop_first() + b);
        assert((a + b)[0] == a[0]);
        let h = vstd::utf8::encode_scalar(a[0] as u32);
        assert(h + (vstd::utf8::encode_utf8(a.drop_first()) + vstd::utf8::encode_utf8(b)) =~= (h
            + vstd::utf8::encode_utf8(a.drop_first())) + vstd::utf8::encode_utf8(b));
    }
}

/// `r` is `b` with some bytes turned into spaces, and a byte of `r` is a
/// line break exactly where `b` has one.
pub open spec fn bytes_blanked(r: Seq<u8>, b: Seq<u8>) -> bool {
    &&& r.len() == b.len()
    &&& forall|i: int| 0 <= i < r.len() ==> (#[trigger] r[i] == b[i] || r[i] == 0x20)
    &&& forall|i: int| 0 <= i < r.len() ==> (#[trigger] r[i] == 0x0a <==> b[i] == 0x0a)
}

proof fn lemma_bytes_blanked_concat(r1: Seq<u8>, b1: Seq<u8>, r2: Seq<u8>, b2: Seq<u8>)
    requires
        bytes_blanked(r1, b1),
        bytes_blanked(r2, b2),
    ensures
        bytes_blanked(r1 + r2, b1 + b2),
{
    let r = r1 + r2;
    let b = b1 + b2;
    assert forall|i: int| 0 <= i < r.len() implies (#[trigger] r[i] == b[i] || r[i] == 0x20) && (r[i]
        == 0x0a <==> b[i] == 0x0a) by {
        if i < r1.len() {
            assert(r[i] == r1[i] && b[i] == b1[i]);
        } else {
            assert(r[i] == r2[i - r1.len()] && b[i] == b2[i - r1.len()]);
        }
    }
}

proof fn lemma_encode_spaces(n: nat)
    ensures
        vstd::utf8::encode_utf8(Seq::new(n, |k: int| ' ')) =~= Seq::new(n, |k: int| 0x20u8),
    decreases n,
{
    if n > 0 {
        let s = Seq::new(n, |k: int| ' ');
        lemma_encode_spaces((n - 1) as nat);
        assert(s.drop_first() =~= Seq::new((n - 1) as nat, |k: int| ' '));
        let v = ' ' as u32;
        assert(v == 0x20);
        assert(vstd::utf8::leading_byte_width_1(0x20u32) == 0x20u8) by (bit_vector);
        assert(vstd::utf8::encode_scalar(v) =~= seq![0x20u8]);
    }
}

proof fn lemma_newline_code(c: char)
    requires
        (c as u32) == 0x0a,
    ensures
        c == '\n',
{
}

/// The bytes of a character other than a line break hold no line break.
proof fn lemma_no_newline_byte(c: char)
    requires
        c != '\n',
    ensures
        forall|i: int|
            0 <= i < vstd::utf8::encode_scalar(c as u32).len() ==> #[trigger] vstd::utf8::encode_scalar(
                c as u32,
            )[i] != 0x0a,
{
    let v = c as u32;
    vstd::utf8::char_is_scalar(c);
    if vstd::utf8::has_width_1_encoding(v) {
        if vstd::utf8::leading_byte_width_1(v) == 0x0a {
            assert(v <= 0x7f && vstd::utf8::leading_byte_width_1(v) == 0x0a ==> v == 0x0a)
                by (bit_vector);
            lemma_newline_code(c);
        }
    } else {
        assert(vstd::utf8::leading_byte_width_2(v) != 0x0a) by (bit_vector);
        assert(vstd::utf8::leading_byte_width_3(v) != 0x0a) by (bit_vector);
        assert(vstd::utf8::leading_byte_width_4(v) != 0x0a) by (bit_vector);
        assert(vstd::utf8::last_continuation_byte(v) != 0x0a) by (bit_vector);
        assert(vstd::utf8::second_last_continuation_byte(v) != 0x0a) by (bit_vector);
        assert(vstd::utf8::third_last_continuation_byte(v) != 0x0a) by (bit_vector);
    }
}

proof fn lemma_piece_blanked(c: char, blanked: bool)
    ensures
        bytes_blanked(vstd::utf8::encode_utf8(piece(c, blanked)), vstd::utf8::encode_utf8(seq![c])),
{
    let one = seq![c];
    let b = vstd::utf8::encode_utf8(one);
    assert(one.drop_first() =~= Seq::<char>::empty());
    assert(vstd::utf8::encode_utf8(one.drop_first()) =~= Seq::<u8>::empty());
    assert(one[0] == c);
    assert(b =~= vstd::utf8::encode_scalar(c as u32) + Seq::<u8>::empty());
    assert(b =~= vstd::utf8::encode_scalar(c as u32));
    if blanked && c != '\n' {
        let w = utf8_width(c);
        lemma_encode_spaces(w);
        lemma_encode_len(one);
        assert(one.drop_last() =~= Seq::<char>::empty());
        assert(utf8_len(one) == w);
        lemma_no_newline_byte(c);
        let r = vstd::utf8::encode_utf8(piece(c, blanked));
        assert(r =~= Seq::new(w, |k: int| 0x20u8));
        assert forall|i: int| 0 <= i < r.len() implies (#[trigger] r[i] == 0x0a <==> b[i] == 0x0a) by {
            assert(r[i] == 0x20u8);
        }
    } else {
        assert(piece(c, blanked) =~= one);
    }
}

proof fn lemma_render_bytes_blanked(s: Seq<char>, m: Seq<bool>)
    requires
        s.len() == m.len(),
    ensures
        bytes_blanked(vstd::utf8::encode_utf8(render(s, m)), vstd::utf8::encode_utf8(s)),
    decreases s.len(),
{
    if s.len() == 0 {
        assert(render(s, m) =~= Seq::<char>::empty());
        assert(s =~= Seq::<char>::empty());
    } else {
        let p = s.drop_last();
        lemma_render_bytes_blanked(p, m.drop_last());
        lemma_piece_blanked(s.last(), m.last());
        lemma_encode_concat(render(p, m.drop_last()), piece(s.last(), m.last()));
        lemma_encode_concat(p, seq![s.last()]);
        assert(p + seq![s.last()] =~= s);
        lemma_bytes_blanked_concat(
            vstd::utf8::encode_utf8(render(p, m.drop_last())),
            vstd::utf8::encode_utf8(p),
            vstd::utf8::encode_utf8(piece(s.last(), m.last())),
            vstd::utf8::encode_utf8(seq![s.last()]),
        );
    }
}

/// Blanking keeps the text byte for byte, up to spaces: the UTF-8 bytes of
/// the result have the length of the source's, each is the source byte or a
/// space, and a byte is a line break exactly where the source has one.
pub proof fn lemma_strip_keeps_bytes(s: Seq<char>)
    ensures
        bytes_blanked(vstd::utf8::encode_utf8(strip_chars(s)), vstd::utf8::encode_utf8(s)),
{
    lemma_mask_len(s, 0);
    lemma_render_bytes_blanked(s, strip_mask(s));
}

} // verus!
