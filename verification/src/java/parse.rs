//! Declarations: leading annotations and modifiers, comma lists, parameters,
//! multi-declarator fields, and the type, method, constructor and field
//! declarations that the `regex` crate recognises in a member chunk.

use vstd::prelude::*;

use crate::java::model::{
    field_views, opt_text, param_views, Field, FieldModel, Method, MethodModel, Param,
    ParamModel, TypeKind,
};
use crate::text::{texts, 
    chars_equal_str, chars_of, copy_range, find_char, find_char_from, first_white,
    first_white_from, is_alphabetic_char, is_alphanumeric_char, join, join_chars,
    lemma_find_char, lemma_first_white, lemma_trim_end, lemma_trim_start, push_chars,
    split_once, split_once_chars, string_of, trim, trim_chars, trim_end, trim_end_chars,
    trim_start, trim_start_from, trim_start_matches, trim_start_matches_chars, unicode_alphabetic,
    unicode_alphanumeric, views, words, words_chars,
};

verus! {

// ---------------------------------------------------------------------------
// The regex crate
// ---------------------------------------------------------------------------

/// What `regex::Regex::new(pattern)` followed by `Regex::captures(text)`
/// gives: `None` when the pattern does not compile or nothing matches, else
/// the text of every capture group, group 0 first, `None` for a group that
/// took no part in the match.
pub uninterp spec fn regex_captures(pattern: Seq<char>, text: Seq<char>) -> Option<
    Seq<Option<Seq<char>>>,
>;

/// The texts of capture groups.
pub open spec fn group_views(g: Seq<Option<String>>) -> Seq<Option<Seq<char>>> {
    g.map_values(|o: Option<String>| opt_text(o))
}

/// The texts of an optional list of capture groups.
pub open spec fn captures_view(c: Option<Vec<Option<String>>>) -> Option<Seq<Option<Seq<char>>>> {
    match c {
        Some(g) => Some(group_views(g@)),
        None => None,
    }
}

/// Compiles `pattern` with `regex::Regex::new` and runs `Regex::captures` on
/// `text`, handing back the text of each group. The contract only names the
/// outcome.
#[verifier::external_body]
fn regex_find(pattern: &str, text: &str) -> (r: Option<Vec<Option<String>>>)
    ensures
        captures_view(r) == regex_captures(pattern@, text@),
{
    let re = regex::Regex::new(pattern).ok()?;
    let caps = re.captures(text)?;
    Some(caps.iter().map(|m| m.map(|m| m.as_str().to_string())).collect())
}

/// Runs `pattern` on the characters of `text`.
fn find_in(pattern: &str, text: &[char]) -> (r: Option<Vec<Option<String>>>)
    ensures
        captures_view(r) == regex_captures(pattern@, text@),
{
    let s = string_of(text);
    regex_find(pattern, s.as_str())
}

/// The `package` declaration of a source file.
pub open spec fn package_pattern() -> Seq<char> {
    r"(?m)^\s*package\s+([\w.]+)\s*;"@
}

/// A type declaration, once annotations and modifiers are gone.
pub open spec fn type_decl_pattern() -> Seq<char> {
    r"(?s)^\b(class|interface|enum|record)\s+(\w+)(?:<.*?>)?(?:\s*\(([^)]*)\))?(?:\s+extends\s+(.+?))?(?:\s+implements\s+(.+?))?(?:\s+permits\s+.+?)?\s*$"@
}

/// A method declaration, once annotations and modifiers are gone.
pub open spec fn method_pattern() -> Seq<char> {
    r"(?s)^(?:<.*?>\s+)?([\w.\[\]?]+(?:<.*?>)?(?:\[\])*)\s+(\w+)\s*\(([^)]*)\)\s*(?:throws\s+[\w.,\s<>]+)?$"@
}

/// A constructor declaration, once annotations and modifiers are gone.
pub open spec fn constructor_pattern() -> Seq<char> {
    r"(?s)^(\w+)\s*\(([^)]*)\)\s*(?:throws\s+[\w.,\s<>]+)?$"@
}

/// A field declaration, once annotations and modifiers are gone.
pub open spec fn field_pattern() -> Seq<char> {
    r"(?s)^([\w.?]+(?:<.*?>)?(?:\[\])*)\s+(.+)$"@
}

fn package_pattern_str() -> (r: &'static str)
    ensures
        r@ == package_pattern(),
{
    r"(?m)^\s*package\s+([\w.]+)\s*;"
}

fn type_decl_pattern_str() -> (r: &'static str)
    ensures
        r@ == type_decl_pattern(),
{
    r"(?s)^\b(class|interface|enum|record)\s+(\w+)(?:<.*?>)?(?:\s*\(([^)]*)\))?(?:\s+extends\s+(.+?))?(?:\s+implements\s+(.+?))?(?:\s+permits\s+.+?)?\s*$"
}

fn method_pattern_str() -> (r: &'static str)
    ensures
        r@ == method_pattern(),
{
    r"(?s)^(?:<.*?>\s+)?([\w.\[\]?]+(?:<.*?>)?(?:\[\])*)\s+(\w+)\s*\(([^)]*)\)\s*(?:throws\s+[\w.,\s<>]+)?$"
}

fn constructor_pattern_str() -> (r: &'static str)
    ensures
        r@ == constructor_pattern(),
{
    r"(?s)^(\w+)\s*\(([^)]*)\)\s*(?:throws\s+[\w.,\s<>]+)?$"
}

fn field_pattern_str() -> (r: &'static str)
    ensures
        r@ == field_pattern(),
{
    r"(?s)^([\w.?]+(?:<.*?>)?(?:\[\])*)\s+(.+)$"
}

/// Capture group `i`, if it took part in the match.
pub open spec fn group(g: Seq<Option<Seq<char>>>, i: int) -> Option<Seq<char>> {
    if 0 <= i < g.len() {
        g[i]
    } else {
        None
    }
}

/// The text of capture group `i`; a group that took no part reads as empty.
pub open spec fn group_text(g: Seq<Option<Seq<char>>>, i: int) -> Seq<char> {
    match group(g, i) {
        Some(t) => t,
        None => seq![],
    }
}

/// Capture group `i` as characters.
fn group_chars(g: &Vec<Option<String>>, i: usize) -> (r: Option<Vec<char>>)
    ensures
        match r {
            Some(t) => group(group_views(g@), i as int) == Some(t@),
            None => group(group_views(g@), i as int) is None,
        },
{
    if i < g.len() {
        match &g[i] {
            Some(s) => Some(chars_of(s.as_str())),
            None => None,
        }
    } else {
        None
    }
}

/// The text of capture group `i` as characters, empty if it took no part.
fn group_text_chars(g: &Vec<Option<String>>, i: usize) -> (r: Vec<char>)
    ensures
        r@ == group_text(group_views(g@), i as int),
{
    match group_chars(g, i) {
        Some(t) => t,
        None => Vec::new(),
    }
}


// ---------------------------------------------------------------------------
// Leading annotations and modifiers
// ---------------------------------------------------------------------------

/// The modifier keywords.
pub open spec fn is_modifier(w: Seq<char>) -> bool {
    ||| w == "public"@
    ||| w == "private"@
    ||| w == "protected"@
    ||| w == "static"@
    ||| w == "final"@
    ||| w == "abstract"@
    ||| w == "sealed"@
    ||| w == "non-sealed"@
    ||| w == "strictfp"@
    ||| w == "synchronized"@
    ||| w == "native"@
    ||| w == "default"@
    ||| w == "transient"@
    ||| w == "volatile"@
}

fn is_modifier_chars(w: &[char]) -> (r: bool)
    ensures
        r == is_modifier(w@),
{
    chars_equal_str(w, "public") || chars_equal_str(w, "private") || chars_equal_str(
        w,
        "protected",
    ) || chars_equal_str(w, "static") || chars_equal_str(w, "final") || chars_equal_str(
        w,
        "abstract",
    ) || chars_equal_str(w, "sealed") || chars_equal_str(w, "non-sealed") || chars_equal_str(
        w,
        "strictfp",
    ) || chars_equal_str(w, "synchronized") || chars_equal_str(w, "native") || chars_equal_str(
        w,
        "default",
    ) || chars_equal_str(w, "transient") || chars_equal_str(w, "volatile")
}

/// The length of the identifier at the start of `s`: letters, digits and `_`.
pub open spec fn ident_end(s: Seq<char>) -> int
    decreases s.len(),
{
    if s.len() == 0 || !(unicode_alphanumeric(s[0]) || s[0] == '_') {
        0
    } else {
        1 + ident_end(s.drop_first())
    }
}

pub proof fn lemma_ident_end(s: Seq<char>)
    ensures
        0 <= ident_end(s) <= s.len(),
        forall|j: int|
            0 <= j < ident_end(s) ==> (unicode_alphanumeric(#[trigger] s[j]) || s[j] == '_'),
        ident_end(s) < s.len() ==> !(unicode_alphanumeric(s[ident_end(s)]) || s[ident_end(s)]
            == '_'),
    decreases s.len(),
{
    if s.len() > 0 && (unicode_alphanumeric(s[0]) || s[0] == '_') {
        lemma_ident_end(s.drop_first());
        assert forall|j: int| 1 <= j < ident_end(s) implies (unicode_alphanumeric(
            #[trigger] s[j],
        ) || s[j] == '_') by {
            assert(s[j] == s.drop_first()[j - 1]);
        }
    }
}

/// What follows an annotation's `@`: its name, then its parenthesised
/// arguments (up to the first `)`), are skipped.
pub open spec fn after_annotation(after_at: Seq<char>) -> Seq<char> {
    let after = trim_start(after_at.subrange(ident_end(after_at), after_at.len() as int));
    if after.len() > 0 && after[0] == '(' {
        let inner = after.drop_first();
        match find_char(inner, ')') {
            Some(i) => inner.subrange(i + 1, inner.len() as int),
            None => seq![],
        }
    } else {
        after
    }
}

pub proof fn lemma_after_annotation(s: Seq<char>)
    ensures
        after_annotation(s).len() <= s.len(),
{
    lemma_ident_end(s);
    let after = trim_start(s.subrange(ident_end(s), s.len() as int));
    lemma_trim_start(s.subrange(ident_end(s), s.len() as int));
    if after.len() > 0 && after[0] == '(' {
        lemma_find_char(after.drop_first(), ')');
    }
}

/// Strips leading annotations and modifier keywords from `rest`, collecting
/// the modifiers after `mods`.
pub open spec fn strip_mods_from(rest: Seq<char>, mods: Seq<Seq<char>>) -> (
    Seq<Seq<char>>,
    Seq<char>,
)
    decreases rest.len(),
{
    if rest.len() > 0 && rest[0] == '@' {
        proof {
            lemma_after_annotation(rest.drop_first());
            lemma_trim_start(after_annotation(rest.drop_first()));
        }
        strip_mods_from(trim_start(after_annotation(rest.drop_first())), mods)
    } else {
        proof {
            lemma_first_white(rest);
        }
        let w = first_white(rest);
        let word = rest.subrange(0, w);
        if w > 0 && is_modifier(word) {
            proof {
                lemma_trim_start(rest.subrange(w, rest.len() as int));
            }
            strip_mods_from(trim_start(rest.subrange(w, rest.len() as int)), mods.push(word))
        } else {
            (mods, rest)
        }
    }
}

/// The modifiers and the remainder of a member chunk: leading whitespace,
/// annotations (with their arguments) and modifier keywords are consumed.
pub open spec fn strip_mods(chunk: Seq<char>) -> (Seq<Seq<char>>, Seq<char>) {
    strip_mods_from(trim_start(chunk), seq![])
}

fn ident_end_from(s: &[char], from: usize) -> (r: usize)
    requires
        from <= s@.len(),
    ensures
        from <= r <= s@.len(),
        r - from == ident_end(s@.subrange(from as int, s@.len() as int)),
{
    let mut i = from;
    while i < s.len() && (is_alphanumeric_char(s[i]) || s[i] == '_')
        invariant
            from <= i <= s@.len(),
            forall|j: int|
                from <= j < i ==> (unicode_alphanumeric(#[trigger] s@[j]) || s@[j] == '_'),
        decreases s@.len() - i,
    {
        i = i + 1;
    }
    proof {
        let rest = s@.subrange(from as int, s@.len() as int);
        lemma_ident_end(rest);
        let f = ident_end(rest);
        if f < i - from {
            assert(rest[f] == s@[from + f]);
        } else if f > i - from {
            assert(rest[i - from] == s@[i as int]);
        }
    }
    i
}

fn after_annotation_chars(after_at: &[char]) -> (r: Vec<char>)
    ensures
        r@ == after_annotation(after_at@),
{
    let e = ident_end_from(after_at, 0);
    assert(after_at@.subrange(0, after_at@.len() as int) =~= after_at@);
    let t = trim_start_from(after_at, e);
    let ghost after = after_at@.subrange(t as int, after_at@.len() as int);
    assert(after == trim_start(after_at@.subrange(ident_end(after_at@), after_at@.len() as int)));
    if t < after_at.len() && after_at[t] == '(' {
        assert(after[0] == '(');
        let ghost inner = after.drop_first();
        assert(inner =~= after_at@.subrange(t + 1, after_at@.len() as int));
        match find_char_from(after_at, t + 1, ')') {
            Some(k) => {
                proof {
                    lemma_find_char(inner, ')');
                    match find_char(inner, ')') {
                        Some(x) => assert(k == t + 1 + x),
                        None => assert(false),
                    }
                }
                assert(inner.subrange(k - t, inner.len() as int) =~= after_at@.subrange(
                    k + 1,
                    after_at@.len() as int,
                ));
                copy_range(after_at, k + 1, after_at.len())
            },
            None => {
                assert(find_char(inner, ')') is None);
                Vec::new()
            },
        }
    } else {
        assert(!(after.len() > 0 && after[0] == '('));
        copy_range(after_at, t, after_at.len())
    }
}

/// Repeatedly strips leading `@Annotation`/`@Annotation(...)` markers and
/// modifier keywords from `chunk`, returning the modifiers and the remainder.
pub fn strip_leading_annotations_and_modifiers(chunk: &[char]) -> (r: (Vec<String>, Vec<char>))
    ensures
        texts(r.0@) == strip_mods(chunk@).0,
        r.1@ == strip_mods(chunk@).1,
{
    let mut rest = trim_chars_start(chunk);
    let mut mods: Vec<String> = Vec::new();
    assert(texts(mods@) =~= Seq::<Seq<char>>::empty());
    loop
        invariant
            strip_mods(chunk@) == strip_mods_from(rest@, texts(mods@)),
        decreases rest@.len(),
    {
        if rest.len() > 0 && rest[0] == '@' {
            let after_at = copy_range(rest.as_slice(), 1, rest.len());
            assert(after_at@ =~= rest@.drop_first());
            let after = after_annotation_chars(after_at.as_slice());
            proof {
                lemma_after_annotation(after_at@);
                lemma_trim_start(after@);
            }
            rest = trim_chars_start(after.as_slice());
        } else {
            let w = first_white_from(rest.as_slice(), 0);
            assert(rest@.subrange(0, rest@.len() as int) =~= rest@);
            let word = copy_range(rest.as_slice(), 0, w);
            if w > 0 && is_modifier_chars(word.as_slice()) {
                let t = trim_start_from(rest.as_slice(), w);
                let next = copy_range(rest.as_slice(), t, rest.len());
                let ghost old_mods = mods@;
                mods.push(string_of(word.as_slice()));
                assert(texts(mods@) =~= texts(old_mods).push(word@));
                rest = next;
            } else {
                return (mods, rest);
            }
        }
    }
}

fn trim_chars_start(s: &[char]) -> (r: Vec<char>)
    ensures
        r@ == trim_start(s@),
{
    assert(s@.subrange(0, s@.len() as int) =~= s@);
    let t = trim_start_from(s, 0);
    copy_range(s, t, s.len())
}

// ---------------------------------------------------------------------------
// Comma lists
// ---------------------------------------------------------------------------

/// Whether `c` opens a nesting level (`<`, `(`, `[`).
pub open spec fn opens(c: char) -> bool {
    c == '<' || c == '(' || c == '['
}

/// Whether `c` closes a nesting level (`>`, `)`, `]`).
pub open spec fn closes(c: char) -> bool {
    c == '>' || c == ')' || c == ']'
}

/// The scan behind `split_top_level_commas`: at `i`, at nesting `depth`, with
/// the current part starting at `start` and the finished parts `parts`.
pub open spec fn commas_from(
    s: Seq<char>,
    i: int,
    depth: int,
    start: int,
    parts: Seq<Seq<char>>,
) -> Seq<Seq<char>>
    decreases s.len() - i,
{
    if i < 0 || i >= s.len() {
        let tail = trim(s.subrange(start, s.len() as int));
        if tail.len() > 0 {
            parts.push(tail)
        } else {
            parts
        }
    } else if opens(s[i]) {
        commas_from(s, i + 1, depth + 1, start, parts)
    } else if closes(s[i]) {
        commas_from(s, i + 1, depth - 1, start, parts)
    } else if s[i] == ',' && depth == 0 {
        commas_from(s, i + 1, depth, i + 1, parts.push(trim(s.subrange(start, i))))
    } else {
        commas_from(s, i + 1, depth, start, parts)
    }
}

/// The trimmed parts of `s` between commas outside `<...>`, `(...)` and
/// `[...]`; an empty last part is dropped.
pub open spec fn top_level_commas(s: Seq<char>) -> Seq<Seq<char>> {
    commas_from(s, 0, 0, 0, seq![])
}

/// The parts of `s` between top-level commas, as characters.
pub fn top_level_commas_chars(s: &[char]) -> (parts: Vec<Vec<char>>)
    ensures
        views(parts@) == top_level_commas(s@),
{
    let mut parts: Vec<Vec<char>> = Vec::new();
    let mut depth: i128 = 0;
    let mut start: usize = 0;
    let mut i: usize = 0;
    assert(views(parts@) =~= Seq::<Seq<char>>::empty());
    while i < s.len()
        invariant
            start <= i <= s@.len(),
            -(i as int) <= depth <= i as int,
            top_level_commas(s@) == commas_from(s@, i as int, depth as int, start as int, views(parts@)),
        decreases s@.len() - i,
    {
        let c = s[i];
        if c == '<' || c == '(' || c == '[' {
            depth = depth + 1;
        } else if c == '>' || c == ')' || c == ']' {
            depth = depth - 1;
        } else if c == ',' && depth == 0 {
            let piece = copy_range(s, start, i);
            let part = trim_chars(piece.as_slice());
            let ghost old_parts_v = parts@;
            parts.push(part);
            assert(views(parts@) =~= views(old_parts_v).push(part@));
            start = i + 1;
        }
        i = i + 1;
    }
    let piece = copy_range(s, start, s.len());
    let tail = trim_chars(piece.as_slice());
    if tail.len() > 0 {
        let ghost old_parts_v = parts@;
        parts.push(tail);
        assert(views(parts@) =~= views(old_parts_v).push(tail@));
    }
    parts
}


/// Splits on commas that are not nested inside `<...>`, `(...)`, or `[...]`,
/// trimming each part and dropping an empty last part.
pub fn split_top_level_commas(s: &str) -> (parts: Vec<String>)
    ensures
        texts(parts@) == top_level_commas(s@),
{
    let cs = chars_of(s);
    let pieces = top_level_commas_chars(cs.as_slice());
    strings_of(&pieces)
}

/// The strings of character vectors.
fn strings_of(v: &Vec<Vec<char>>) -> (r: Vec<String>)
    ensures
        texts(r@) == views(v@),
{
    let mut r: Vec<String> = Vec::new();
    let mut i: usize = 0;
    while i < v.len()
        invariant
            i <= v@.len(),
            texts(r@) == views(v@).take(i as int),
        decreases v@.len() - i,
    {
        let ghost before = r@;
        r.push(string_of(v[i].as_slice()));
        assert(texts(r@) =~= texts(before).push(v@[i as int]@));
        assert(views(v@).take(i + 1) =~= views(v@).take(i as int).push(v@[i as int]@));
        i = i + 1;
    }
    assert(views(v@).take(v@.len() as int) =~= views(v@));
    r
}

// ---------------------------------------------------------------------------
// Parameters
// ---------------------------------------------------------------------------

/// A parameter from its declaration: a leading `final` is dropped, the last
/// word is the name (without a leading `...`) and the words before it, joined
/// by single spaces, the type. Without a type there is no parameter.
pub open spec fn param_of(p: Seq<char>) -> Option<ParamModel> {
    let ws = words(trim(trim_start_matches(trim(p), "final"@)));
    if ws.len() == 0 {
        None
    } else {
        let java_type = join(ws.drop_last(), " "@);
        if java_type.len() == 0 {
            None
        } else {
            Some(ParamModel { name: trim_start_matches(ws.last(), "..."@), java_type })
        }
    }
}

/// The parameters among `parts`, in order.
pub open spec fn params_of(parts: Seq<Seq<char>>) -> Seq<ParamModel>
    decreases parts.len(),
{
    if parts.len() == 0 {
        seq![]
    } else {
        let rest = params_of(parts.drop_last());
        match param_of(parts.last()) {
            Some(p) => rest.push(p),
            None => rest,
        }
    }
}

/// The parameters of a parameter list.
pub open spec fn params(raw: Seq<char>) -> Seq<ParamModel> {
    if trim(raw).len() == 0 {
        seq![]
    } else {
        params_of(top_level_commas(raw))
    }
}

fn param_of_chars(p: &[char]) -> (r: Option<Param>)
    ensures
        match r {
            Some(x) => param_of(p@) == Some(x@),
            None => param_of(p@) is None,
        },
{
    let t = trim_chars(p);
    let f = trim_start_matches_chars(t.as_slice(), "final");
    let q = trim_chars(f.as_slice());
    let mut ws = words_chars(q.as_slice());
    if ws.len() == 0 {
        return None;
    }
    let ghost all = views(ws@);
    let last = ws.pop().unwrap();
    assert(views(ws@) =~= all.drop_last());
    let space = chars_of(" ");
    let ty = join_chars(&ws, space.as_slice());
    if ty.len() == 0 {
        return None;
    }
    let name = trim_start_matches_chars(last.as_slice(), "...");
    Some(Param { name: string_of(name.as_slice()), java_type: string_of(ty.as_slice()) })
}

/// The parameters of a parameter list such as `int a, final String... rest`.
pub fn parse_params(raw: &[char]) -> (r: Vec<Param>)
    ensures
        param_views(r@) == params(raw@),
{
    let t = trim_chars(raw);
    let mut out: Vec<Param> = Vec::new();
    if t.len() == 0 {
        assert(param_views(out@) =~= Seq::<ParamModel>::empty());
        return out;
    }
    let parts = top_level_commas_chars(raw);
    let mut i: usize = 0;
    assert(param_views(out@) =~= Seq::<ParamModel>::empty());
    assert(views(parts@).take(0) =~= Seq::<Seq<char>>::empty());
    while i < parts.len()
        invariant
            i <= parts@.len(),
            param_views(out@) == params_of(views(parts@).take(i as int)),
        decreases parts@.len() - i,
    {
        let ghost before = out@;
        assert(views(parts@).take(i + 1).drop_last() =~= views(parts@).take(i as int));
        match param_of_chars(parts[i].as_slice()) {
            Some(p) => {
                out.push(p);
                assert(param_views(out@) =~= param_views(before).push(p@));
            },
            None => {},
        }
        i = i + 1;
    }
    assert(views(parts@).take(parts@.len() as int) =~= views(parts@));
    out
}

// ---------------------------------------------------------------------------
// Multi-declarator fields
// ---------------------------------------------------------------------------

/// Whether `s` ends with `[]`.
pub open spec fn ends_with_brackets(s: Seq<char>) -> bool {
    s.len() >= 2 && s[s.len() - 2] == '[' && s[s.len() - 1] == ']'
}

/// `name` with trailing `[]` pairs removed (trimming after each), and how
/// many there were, added to `n`.
pub open spec fn strip_brackets(name: Seq<char>, n: nat) -> (Seq<char>, nat)
    decreases name.len(),
{
    if ends_with_brackets(name) {
        proof {
            lemma_trim_end(name.subrange(0, name.len() - 2));
        }
        strip_brackets(trim_end(name.subrange(0, name.len() - 2)), n + 1)
    } else {
        (name, n)
    }
}

/// `[]`, `n` times.
pub open spec fn brackets(n: nat) -> Seq<char>
    decreases n,
{
    if n == 0 {
        seq![]
    } else {
        brackets((n - 1) as nat) + seq!['[', ']']
    }
}

/// One declarator of a field statement: the name (up to any `=`, trailing
/// `[]` pairs moved to the type) and its type. A name that does not start
/// with a letter is no declarator.
pub open spec fn declarator_of(base: Seq<char>, d: Seq<char>) -> Option<(Seq<char>, Seq<char>)> {
    let (name, extra) = strip_brackets(trim(split_once(d, '=').0), 0);
    if name.len() == 0 || !unicode_alphabetic(name[0]) {
        None
    } else {
        Some((name, base + brackets(extra)))
    }
}

/// The declarators among `parts`, in order.
pub open spec fn declarators_of(base: Seq<char>, parts: Seq<Seq<char>>) -> Seq<(Seq<char>, Seq<char>)>
    decreases parts.len(),
{
    if parts.len() == 0 {
        seq![]
    } else {
        let rest = declarators_of(base, parts.drop_last());
        match declarator_of(base, parts.last()) {
            Some(d) => rest.push(d),
            None => rest,
        }
    }
}

/// The (name, type) pairs of a declarator list sharing `base`.
pub open spec fn declarators(base: Seq<char>, list: Seq<char>) -> Seq<(Seq<char>, Seq<char>)> {
    declarators_of(base, top_level_commas(list))
}

/// The texts of (name, type) pairs.
pub open spec fn pair_texts(v: Seq<(String, String)>) -> Seq<(Seq<char>, Seq<char>)> {
    v.map_values(|p: (String, String)| (p.0@, p.1@))
}

fn declarator_chars(base: &[char], d: &[char]) -> (r: Option<(String, String)>)
    ensures
        match r {
            Some(x) => declarator_of(base@, d@) == Some((x.0@, x.1@)),
            None => declarator_of(base@, d@) is None,
        },
{
    let dn = d.len();
    let (before, _) = split_once_chars(d, '=');
    let mut name = trim_chars(before.as_slice());
    proof {
        lemma_find_char(d@, '=');
        lemma_trim_start(before@);
        lemma_trim_end(trim_start(before@));
    }
    let mut extra: usize = 0;
    let mut java_type: Vec<char> = Vec::new();
    push_chars(&mut java_type, base);
    assert(brackets(0) =~= Seq::<char>::empty());
    assert(java_type@ =~= base@ + brackets(0));
    while name.len() >= 2 && name[name.len() - 2] == '[' && name[name.len() - 1] == ']'
        invariant
            strip_brackets(trim(split_once(d@, '=').0), 0) == strip_brackets(name@, extra as nat),
            java_type@ == base@ + brackets(extra as nat),
            dn == d@.len(),
            name@.len() + 2 * extra <= d@.len(),
        decreases name@.len(),
    {
        let cut = copy_range(name.as_slice(), 0, name.len() - 2);
        name = trim_end_chars(cut.as_slice());
        proof {
            lemma_trim_end(cut@);
        }
        java_type.push('[');
        java_type.push(']');
        assert(brackets((extra + 1) as nat) =~= brackets(extra as nat) + seq!['[', ']']);
        assert(java_type@ =~= base@ + brackets((extra + 1) as nat));
        extra = extra + 1;
    }
    if name.len() == 0 || !is_alphabetic_char(name[0]) {
        return None;
    }
    Some((string_of(name.as_slice()), string_of(java_type.as_slice())))
}

/// Splits a multi-declarator field statement (`int a, b = 1, c[]`, without
/// the `;`) into (name, type) pairs sharing the base type.
pub fn split_declarators(base_type: &[char], decl_list: &[char]) -> (r: Vec<(String, String)>)
    ensures
        pair_texts(r@) == declarators(base_type@, decl_list@),
{
    let parts = top_level_commas_chars(decl_list);
    let mut out: Vec<(String, String)> = Vec::new();
    let mut i: usize = 0;
    assert(pair_texts(out@) =~= Seq::<(Seq<char>, Seq<char>)>::empty());
    assert(views(parts@).take(0) =~= Seq::<Seq<char>>::empty());
    while i < parts.len()
        invariant
            i <= parts@.len(),
            pair_texts(out@) == declarators_of(base_type@, views(parts@).take(i as int)),
        decreases parts@.len() - i,
    {
        let ghost before = out@;
        assert(views(parts@).take(i + 1).drop_last() =~= views(parts@).take(i as int));
        match declarator_chars(base_type, parts[i].as_slice()) {
            Some(p) => {
                let ghost pv = (p.0@, p.1@);
                out.push(p);
                assert(pair_texts(out@) =~= pair_texts(before).push(pv));
            },
            None => {},
        }
        i = i + 1;
    }
    assert(views(parts@).take(parts@.len() as int) =~= views(parts@));
    out
}


// ---------------------------------------------------------------------------
// Declarations
// ---------------------------------------------------------------------------

/// A type declaration's header.
#[derive(Debug)]
pub struct TypeDecl {
    pub kind: TypeKind,
    pub name: String,
    pub modifiers: Vec<String>,
    pub extends: Option<String>,
    pub implements: Vec<String>,
    pub record_fields: Vec<Field>,
}

pub struct TypeDeclModel {
    pub kind: TypeKind,
    pub name: Seq<char>,
    pub modifiers: Seq<Seq<char>>,
    pub extends: Option<Seq<char>>,
    pub implements: Seq<Seq<char>>,
    pub record_fields: Seq<FieldModel>,
}

impl View for TypeDecl {
    type V = TypeDeclModel;

    open spec fn view(&self) -> TypeDeclModel {
        TypeDeclModel {
            kind: self.kind,
            name: self.name@,
            modifiers: texts(self.modifiers@),
            extends: opt_text(self.extends),
            implements: texts(self.implements@),
            record_fields: field_views(self.record_fields@),
        }
    }
}

/// The view of an optional declaration header.
pub open spec fn opt_decl_view(d: Option<TypeDecl>) -> Option<TypeDeclModel> {
    match d {
        Some(x) => Some(x@),
        None => None,
    }
}

/// The view of an optional method.
pub open spec fn opt_method_view(m: Option<Method>) -> Option<MethodModel> {
    match m {
        Some(x) => Some(x@),
        None => None,
    }
}

/// The kind named by a declaration keyword.
pub open spec fn kind_of(t: Seq<char>) -> Option<TypeKind> {
    if t == "class"@ {
        Some(TypeKind::Class)
    } else if t == "interface"@ {
        Some(TypeKind::Interface)
    } else if t == "enum"@ {
        Some(TypeKind::Enum)
    } else if t == "record"@ {
        Some(TypeKind::Record)
    } else {
        None
    }
}

/// The modifiers a record component gets as a field.
pub open spec fn component_modifiers() -> Seq<Seq<char>> {
    seq!["private"@, "final"@]
}

/// A record component as a field.
pub open spec fn component_field(p: ParamModel) -> FieldModel {
    FieldModel { name: p.name, java_type: p.java_type, modifiers: component_modifiers() }
}

/// The header that the type-declaration captures `caps` describe.
pub open spec fn type_decl_from(
    mods: Seq<Seq<char>>,
    caps: Option<Seq<Option<Seq<char>>>>,
) -> Option<TypeDeclModel> {
    match caps {
        None => None,
        Some(g) => match kind_of(group_text(g, 1)) {
            None => None,
            Some(kind) => Some(
                TypeDeclModel {
                    kind,
                    name: group_text(g, 2),
                    modifiers: mods,
                    extends: match group(g, 4) {
                        Some(t) => Some(trim(t)),
                        None => None,
                    },
                    implements: match group(g, 5) {
                        Some(t) => top_level_commas(trim(t)),
                        None => seq![],
                    },
                    record_fields: match group(g, 3) {
                        Some(t) => params(t).map_values(|p: ParamModel| component_field(p)),
                        None => seq![],
                    },
                },
            ),
        },
    }
}

/// The type declaration a member chunk opens, if any.
pub open spec fn type_decl(chunk: Seq<char>) -> Option<TypeDeclModel> {
    let (mods, rest) = strip_mods(chunk);
    type_decl_from(mods, regex_captures(type_decl_pattern(), rest))
}

/// The method that the method-declaration captures `caps` describe.
pub open spec fn method_from(mods: Seq<Seq<char>>, caps: Option<Seq<Option<Seq<char>>>>) -> Option<
    MethodModel,
> {
    match caps {
        None => None,
        Some(g) => Some(
            MethodModel {
                name: group_text(g, 2),
                params: params(group_text(g, 3)),
                return_type: trim(group_text(g, 1)),
                modifiers: mods,
            },
        ),
    }
}

/// The constructor that the constructor captures `caps` describe, provided
/// its name is that of the enclosing type.
pub open spec fn constructor_from(
    mods: Seq<Seq<char>>,
    caps: Option<Seq<Option<Seq<char>>>>,
    enclosing: Option<Seq<char>>,
) -> Option<MethodModel> {
    match caps {
        None => None,
        Some(g) => if enclosing != Some(group_text(g, 1)) {
            None
        } else {
            Some(
                MethodModel {
                    name: "<init>"@,
                    params: params(group_text(g, 2)),
                    return_type: group_text(g, 1),
                    modifiers: mods,
                },
            )
        },
    }
}

/// The method or constructor a member chunk declares, if any.
pub open spec fn method_decl(chunk: Seq<char>, enclosing: Option<Seq<char>>) -> Option<MethodModel> {
    let (mods, rest) = strip_mods(chunk);
    match method_from(mods, regex_captures(method_pattern(), rest)) {
        Some(m) => Some(m),
        None => constructor_from(mods, regex_captures(constructor_pattern(), rest), enclosing),
    }
}

/// The fields that the field-declaration captures `caps` describe.
pub open spec fn fields_from(mods: Seq<Seq<char>>, caps: Option<Seq<Option<Seq<char>>>>) -> Seq<
    FieldModel,
> {
    match caps {
        None => seq![],
        Some(g) => declarators(trim(group_text(g, 1)), trim(group_text(g, 2))).map_values(
            |d: (Seq<char>, Seq<char>)| FieldModel { name: d.0, java_type: d.1, modifiers: mods },
        ),
    }
}

/// The fields a member chunk declares.
pub open spec fn field_decl(chunk: Seq<char>) -> Seq<FieldModel> {
    let (mods, rest) = strip_mods(chunk);
    fields_from(mods, regex_captures(field_pattern(), rest))
}

/// The package that the package-declaration captures `caps` name; none, the
/// empty package.
pub open spec fn package_from(caps: Option<Seq<Option<Seq<char>>>>) -> Seq<char> {
    match caps {
        Some(g) => group_text(g, 1),
        None => seq![],
    }
}

/// Copies a list of strings.
fn copy_strings(v: &Vec<String>) -> (r: Vec<String>)
    ensures
        texts(r@) == texts(v@),
{
    let mut r: Vec<String> = Vec::new();
    let mut i: usize = 0;
    while i < v.len()
        invariant
            i <= v@.len(),
            texts(r@) == texts(v@).take(i as int),
        decreases v@.len() - i,
    {
        let ghost before = r@;
        let c = chars_of(v[i].as_str());
        r.push(string_of(c.as_slice()));
        assert(texts(r@) =~= texts(before).push(v@[i as int]@));
        assert(texts(v@).take(i + 1) =~= texts(v@).take(i as int).push(v@[i as int]@));
        i = i + 1;
    }
    assert(texts(v@).take(v@.len() as int) =~= texts(v@));
    r
}

fn kind_chars(t: &[char]) -> (r: Option<TypeKind>)
    ensures
        r == kind_of(t@),
{
    if chars_equal_str(t, "class") {
        Some(TypeKind::Class)
    } else if chars_equal_str(t, "interface") {
        Some(TypeKind::Interface)
    } else if chars_equal_str(t, "enum") {
        Some(TypeKind::Enum)
    } else if chars_equal_str(t, "record") {
        Some(TypeKind::Record)
    } else {
        None
    }
}

/// Record components as fields.
fn component_fields(ps: Vec<Param>) -> (r: Vec<Field>)
    ensures
        field_views(r@) == param_views(ps@).map_values(|p: ParamModel| component_field(p)),
{
    let mut r: Vec<Field> = Vec::new();
    let mut i: usize = 0;
    while i < ps.len()
        invariant
            i <= ps@.len(),
            field_views(r@) == param_views(ps@).take(i as int).map_values(
                |p: ParamModel| component_field(p),
            ),
        decreases ps@.len() - i,
    {
        let ghost before = r@;
        let mut modifiers: Vec<String> = Vec::new();
        modifiers.push(string_of(chars_of("private").as_slice()));
        modifiers.push(string_of(chars_of("final").as_slice()));
        assert(texts(modifiers@) =~= component_modifiers());
        let name = string_of(chars_of(ps[i].name.as_str()).as_slice());
        let java_type = string_of(chars_of(ps[i].java_type.as_str()).as_slice());
        let f = Field { name, java_type, modifiers };
        r.push(f);
        assert(field_views(r@) =~= field_views(before).push(component_field(ps@[i as int]@)));
        assert(param_views(ps@).take(i + 1).map_values(|p: ParamModel| component_field(p))
            =~= param_views(ps@).take(i as int).map_values(|p: ParamModel| component_field(p)).push(
            component_field(ps@[i as int]@),
        ));
        i = i + 1;
    }
    assert(param_views(ps@).take(ps@.len() as int) =~= param_views(ps@));
    r
}

/// The header that type-declaration captures describe.
pub fn type_decl_from_captures(modifiers: Vec<String>, caps: Option<Vec<Option<String>>>) -> (r:
    Option<TypeDecl>)
    ensures
        opt_decl_view(r) == type_decl_from(texts(modifiers@), captures_view(caps)),
{
    let g = match caps {
        Some(g) => g,
        None => return None,
    };
    let k = group_text_chars(&g, 1);
    let kind = match kind_chars(k.as_slice()) {
        Some(kind) => kind,
        None => return None,
    };
    let name = group_text_chars(&g, 2);
    let extends = match group_chars(&g, 4) {
        Some(t) => Some(string_of(trim_chars(t.as_slice()).as_slice())),
        None => None,
    };
    let implements = match group_chars(&g, 5) {
        Some(t) => {
            let tt = trim_chars(t.as_slice());
            strings_of(&top_level_commas_chars(tt.as_slice()))
        },
        None => Vec::new(),
    };
    let record_fields = match group_chars(&g, 3) {
        Some(t) => component_fields(parse_params(t.as_slice())),
        None => Vec::new(),
    };
    let r = TypeDecl {
        kind,
        name: string_of(name.as_slice()),
        modifiers,
        extends,
        implements,
        record_fields,
    };
    proof {
        let gv = group_views(g@);
        assert(texts(r.implements@) =~= match group(gv, 5) {
            Some(t) => top_level_commas(trim(t)),
            None => seq![],
        });
        assert(field_views(r.record_fields@) =~= match group(gv, 3) {
            Some(t) => params(t).map_values(|p: ParamModel| component_field(p)),
            None => seq![],
        });
    }
    Some(r)
}

/// Parses the type declaration a member chunk opens, if any.
pub fn try_parse_type_decl(chunk: &[char]) -> (r: Option<TypeDecl>)
    ensures
        opt_decl_view(r) == type_decl(chunk@),
{
    let (modifiers, rest) = strip_leading_annotations_and_modifiers(chunk);
    let caps = find_in(type_decl_pattern_str(), rest.as_slice());
    type_decl_from_captures(modifiers, caps)
}

/// The method that method-declaration captures describe.
pub fn method_from_captures(modifiers: Vec<String>, caps: Option<Vec<Option<String>>>) -> (r:
    Option<Method>)
    ensures
        opt_method_view(r) == method_from(texts(modifiers@), captures_view(caps)),
{
    match caps {
        Some(g) => {
            let ret = group_text_chars(&g, 1);
            let name = group_text_chars(&g, 2);
            let raw = group_text_chars(&g, 3);
            let params = parse_params(raw.as_slice());
            let return_type = string_of(trim_chars(ret.as_slice()).as_slice());
            Some(Method { name: string_of(name.as_slice()), params, return_type, modifiers })
        },
        None => None,
    }
}

/// The constructor that constructor captures describe, provided it is named
/// after the enclosing type.
pub fn constructor_from_captures(
    modifiers: Vec<String>,
    caps: Option<Vec<Option<String>>>,
    enclosing: Option<&[char]>,
) -> (r: Option<Method>)
    ensures
        opt_method_view(r) == constructor_from(
            texts(modifiers@),
            captures_view(caps),
            match enclosing {
                Some(e) => Some(e@),
                None => None,
            },
        ),
{
    match caps {
        Some(g) => {
            let name = group_text_chars(&g, 1);
            let same = match enclosing {
                Some(e) => crate::text::chars_equal(name.as_slice(), e),
                None => false,
            };
            if !same {
                return None;
            }
            let raw = group_text_chars(&g, 2);
            let params = parse_params(raw.as_slice());
            Some(
                Method {
                    name: string_of(chars_of("<init>").as_slice()),
                    params,
                    return_type: string_of(name.as_slice()),
                    modifiers,
                },
            )
        },
        None => None,
    }
}

/// Parses the method or constructor a member chunk declares, if any.
pub fn try_parse_method_decl(chunk: &[char], enclosing_simple_name: Option<&[char]>) -> (r: Option<
    Method,
>)
    ensures
        opt_method_view(r) == method_decl(
            chunk@,
            match enclosing_simple_name {
                Some(e) => Some(e@),
                None => None,
            },
        ),
{
    let (modifiers, rest) = strip_leading_annotations_and_modifiers(chunk);
    let caps = find_in(method_pattern_str(), rest.as_slice());
    if caps.is_some() {
        return method_from_captures(modifiers, caps);
    }
    let caps = find_in(constructor_pattern_str(), rest.as_slice());
    constructor_from_captures(modifiers, caps, enclosing_simple_name)
}

/// The fields that field-declaration captures describe.
pub fn fields_from_captures(modifiers: Vec<String>, caps: Option<Vec<Option<String>>>) -> (r: Vec<
    Field,
>)
    ensures
        field_views(r@) == fields_from(texts(modifiers@), captures_view(caps)),
{
    let mut out: Vec<Field> = Vec::new();
    let g = match caps {
        Some(g) => g,
        None => {
            assert(field_views(out@) =~= Seq::<FieldModel>::empty());
            return out;
        },
    };
    let base = trim_chars(group_text_chars(&g, 1).as_slice());
    let list = trim_chars(group_text_chars(&g, 2).as_slice());
    let pairs = split_declarators(base.as_slice(), list.as_slice());
    let ghost mods = texts(modifiers@);
    let ghost ds = pair_texts(pairs@);
    let mut i: usize = 0;
    while i < pairs.len()
        invariant
            i <= pairs@.len(),
            ds == pair_texts(pairs@),
            mods == texts(modifiers@),
            field_views(out@) == ds.take(i as int).map_values(
                |d: (Seq<char>, Seq<char>)| FieldModel { name: d.0, java_type: d.1, modifiers: mods },
            ),
        decreases pairs@.len() - i,
    {
        let ghost before = out@;
        let name = string_of(chars_of(pairs[i].0.as_str()).as_slice());
        let java_type = string_of(chars_of(pairs[i].1.as_str()).as_slice());
        let f = Field { name, java_type, modifiers: copy_strings(&modifiers) };
        out.push(f);
        let ghost fv = FieldModel { name: ds[i as int].0, java_type: ds[i as int].1, modifiers: mods };
        assert(field_views(out@) =~= field_views(before).push(fv));
        assert(ds.take(i + 1).map_values(
            |d: (Seq<char>, Seq<char>)| FieldModel { name: d.0, java_type: d.1, modifiers: mods },
        ) =~= ds.take(i as int).map_values(
            |d: (Seq<char>, Seq<char>)| FieldModel { name: d.0, java_type: d.1, modifiers: mods },
        ).push(fv));
        i = i + 1;
    }
    assert(ds.take(pairs@.len() as int) =~= ds);
    out
}

/// Parses the fields a member chunk declares.
pub fn field_decl_chars(chunk: &[char]) -> (r: Vec<Field>)
    ensures
        field_views(r@) == field_decl(chunk@),
{
    let (modifiers, rest) = strip_leading_annotations_and_modifiers(chunk);
    let caps = find_in(field_pattern_str(), rest.as_slice());
    fields_from_captures(modifiers, caps)
}

/// Parses the fields a member chunk such as `private int a, b = 5, c`
/// declares: one field per declarator, all with the chunk's modifiers.
pub fn try_parse_field_decl(chunk: &str) -> (r: Vec<Field>)
    ensures
        field_views(r@) == field_decl(chunk@),
{
    let cs = chars_of(chunk);
    field_decl_chars(cs.as_slice())
}

/// The package that package-declaration captures name.
pub fn package_from_captures(caps: Option<Vec<Option<String>>>) -> (r: String)
    ensures
        r@ == package_from(captures_view(caps)),
{
    match caps {
        Some(g) => string_of(group_text_chars(&g, 1).as_slice()),
        None => string_of(Vec::<char>::new().as_slice()),
    }
}

/// The package a source file declares, or the empty package.
pub fn package_of(source: &str) -> (r: String)
    ensures
        r@ == package_from(regex_captures(package_pattern(), source@)),
{
    let caps = regex_find(package_pattern_str(), source);
    package_from_captures(caps)
}

} // verus!
