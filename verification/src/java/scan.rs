//! The brace-depth scan over a blanked source file: every `{`, `}` and `;`
//! at member level ends a chunk, which may open a type, declare a method or
//! declare fields of the innermost open type.

use vstd::prelude::*;

use crate::java::model::{
    field_views, method_views, opt_text, type_views, Field, FieldModel, JavaType,
    JavaTypeModel, Method, MethodModel, TypeKind,
};
use crate::java::parse::{
    field_decl, field_decl_chars, method_decl, package_from,
    package_of, package_pattern, regex_captures, try_parse_method_decl, try_parse_type_decl,
    type_decl, TypeDecl, TypeDeclModel,
};
use crate::java::strip::{strip_chars, strip_comments_and_literals};
use crate::text::{texts, chars_of, copy_range, push_str, string_of};

verus! {

/// A type whose body is still open.
pub struct OpenModel {
    pub qualified_name: Seq<char>,
    pub simple_name: Seq<char>,
    pub kind: TypeKind,
    pub modifiers: Seq<Seq<char>>,
    pub extends: Option<Seq<char>>,
    pub implements: Seq<Seq<char>>,
    pub fields: Seq<FieldModel>,
    pub methods: Seq<MethodModel>,
    pub open_depth: int,
}

/// The scanner's state: brace depth, where the current chunk starts, the
/// open types (innermost last) and the finished ones.
pub struct ScanModel {
    pub depth: int,
    pub chunk_start: int,
    pub stack: Seq<OpenModel>,
    pub output: Seq<JavaTypeModel>,
}

/// Whether a chunk ending now is a member of the innermost open type (or, with
/// none open, stands at the top level).
pub open spec fn at_member_level(st: ScanModel) -> bool {
    if st.stack.len() == 0 {
        st.depth == 0
    } else {
        st.depth == st.stack.last().open_depth + 1
    }
}

/// The simple name of the innermost open type.
pub open spec fn enclosing(st: ScanModel) -> Option<Seq<char>> {
    if st.stack.len() == 0 {
        None
    } else {
        Some(st.stack.last().simple_name)
    }
}

/// The open type that a declaration header starts at the current depth;
/// nested types are qualified by the enclosing type's name.
pub open spec fn opened(st: ScanModel, d: TypeDeclModel) -> OpenModel {
    OpenModel {
        qualified_name: if st.stack.len() == 0 {
            d.name
        } else {
            st.stack.last().qualified_name + seq!['.'] + d.name
        },
        simple_name: d.name,
        kind: d.kind,
        modifiers: d.modifiers,
        extends: d.extends,
        implements: d.implements,
        fields: d.record_fields,
        methods: seq![],
        open_depth: st.depth,
    }
}

/// `m` added to the innermost open type, if any.
pub open spec fn with_method(st: ScanModel, m: MethodModel) -> ScanModel {
    if st.stack.len() == 0 {
        st
    } else {
        let top = st.stack.last();
        ScanModel {
            stack: st.stack.drop_last().push(OpenModel { methods: top.methods.push(m), ..top }),
            ..st
        }
    }
}

/// `fs` added to the innermost open type, if any.
pub open spec fn with_fields(st: ScanModel, fs: Seq<FieldModel>) -> ScanModel {
    if st.stack.len() == 0 {
        st
    } else {
        let top = st.stack.last();
        ScanModel {
            stack: st.stack.drop_last().push(OpenModel { fields: top.fields + fs, ..top }),
            ..st
        }
    }
}

/// A closed type as the index records it.
pub open spec fn finished(t: OpenModel, package: Seq<char>, file: Seq<char>) -> JavaTypeModel {
    JavaTypeModel {
        package,
        qualified_name: t.qualified_name,
        kind: t.kind,
        modifiers: t.modifiers,
        extends: t.extends,
        implements: t.implements,
        fields: t.fields,
        methods: t.methods,
        file,
    }
}

/// A `{` ending `chunk`: at member level the chunk may open a type or start a
/// method body; the depth grows.
pub open spec fn on_open(st: ScanModel, chunk: Seq<char>) -> ScanModel {
    let st1 = if at_member_level(st) {
        match type_decl(chunk) {
            Some(d) => ScanModel { stack: st.stack.push(opened(st, d)), ..st },
            None => match method_decl(chunk, enclosing(st)) {
                Some(m) => with_method(st, m),
                None => st,
            },
        }
    } else {
        st
    };
    ScanModel { depth: st1.depth + 1, ..st1 }
}

/// A `}`: the depth shrinks, and the innermost open type closes when its
/// body ends here.
pub open spec fn on_close(st: ScanModel, package: Seq<char>, file: Seq<char>) -> ScanModel {
    let d = st.depth - 1;
    if st.stack.len() > 0 && d == st.stack.last().open_depth {
        ScanModel {
            depth: d,
            stack: st.stack.drop_last(),
            output: st.output.push(finished(st.stack.last(), package, file)),
            ..st
        }
    } else {
        ScanModel { depth: d, ..st }
    }
}

/// A `;` ending `chunk`: at member level the chunk declares an abstract
/// method or fields.
pub open spec fn on_semicolon(st: ScanModel, chunk: Seq<char>) -> ScanModel {
    if at_member_level(st) {
        match method_decl(chunk, enclosing(st)) {
            Some(m) => with_method(st, m),
            None => with_fields(st, field_decl(chunk)),
        }
    } else {
        st
    }
}

/// The state after the character at `i`.
pub open spec fn scan_step(
    s: Seq<char>,
    i: int,
    st: ScanModel,
    package: Seq<char>,
    file: Seq<char>,
) -> ScanModel {
    let chunk = s.subrange(st.chunk_start, i);
    if s[i] == '{' {
        ScanModel { chunk_start: i + 1, ..on_open(st, chunk) }
    } else if s[i] == '}' {
        ScanModel { chunk_start: i + 1, ..on_close(st, package, file) }
    } else if s[i] == ';' {
        ScanModel { chunk_start: i + 1, ..on_semicolon(st, chunk) }
    } else {
        st
    }
}

/// The state after the characters from `i` on.
pub open spec fn scan_from(
    s: Seq<char>,
    i: int,
    st: ScanModel,
    package: Seq<char>,
    file: Seq<char>,
) -> ScanModel
    decreases s.len() - i,
{
    if i < 0 || i >= s.len() {
        st
    } else {
        scan_from(s, i + 1, scan_step(s, i, st, package, file), package, file)
    }
}

/// The state before the first character.
pub open spec fn scan_start() -> ScanModel {
    ScanModel { depth: 0, chunk_start: 0, stack: seq![], output: seq![] }
}

/// The types of a blanked file, in the order their bodies close.
pub open spec fn scan_types(s: Seq<char>, package: Seq<char>, file: Seq<char>) -> Seq<
    JavaTypeModel,
> {
    scan_from(s, 0, scan_start(), package, file).output
}

/// The types that the index records for a source file: its comments and
/// literals are blanked, then the result is scanned.
pub open spec fn file_types(file: Seq<char>, source: Seq<char>) -> Seq<JavaTypeModel> {
    scan_types(
        strip_chars(source),
        package_from(regex_captures(package_pattern(), source)),
        file,
    )
}

struct OpenType {
    qualified_name: String,
    simple_name: Vec<char>,
    kind: TypeKind,
    modifiers: Vec<String>,
    extends: Option<String>,
    implements: Vec<String>,
    fields: Vec<Field>,
    methods: Vec<Method>,
    open_depth: i128,
}

impl View for OpenType {
    type V = OpenModel;

    closed spec fn view(&self) -> OpenModel {
        OpenModel {
            qualified_name: self.qualified_name@,
            simple_name: self.simple_name@,
            kind: self.kind,
            modifiers: texts(self.modifiers@),
            extends: opt_text(self.extends),
            implements: texts(self.implements@),
            fields: field_views(self.fields@),
            methods: method_views(self.methods@),
            open_depth: self.open_depth as int,
        }
    }
}

spec fn open_views(v: Seq<OpenType>) -> Seq<OpenModel> {
    v.map_values(|t: OpenType| t@)
}

struct Scanner {
    depth: i128,
    chunk_start: usize,
    stack: Vec<OpenType>,
    output: Vec<JavaType>,
}

impl View for Scanner {
    type V = ScanModel;

    closed spec fn view(&self) -> ScanModel {
        ScanModel {
            depth: self.depth as int,
            chunk_start: self.chunk_start as int,
            stack: open_views(self.stack@),
            output: type_views(self.output@),
        }
    }
}

impl Scanner {
    /// The depths are bounded by how far the scan has gone.
    spec fn bounded(&self, i: int) -> bool {
        &&& -i <= self.depth <= i
        &&& forall|k: int| 0 <= k < self.stack@.len() ==> -i <= #[trigger] self.stack@[k].open_depth <= i
    }

    fn at_member_level(&self) -> (r: bool)
        ensures
            r == at_member_level(self@),
    {
        if self.stack.len() == 0 {
            self.depth == 0
        } else {
            let top = self.stack.len() - 1;
            assert(self@.stack.last() == self.stack@[top as int]@);
            self.stack[top].open_depth <= i128::MAX - 1 && self.depth == self.stack[top].open_depth
                + 1
        }
    }

    fn add_method(&mut self, m: Method)
        ensures
            final(self)@ == with_method(old(self)@, m@),
            final(self).depth == old(self).depth,
            final(self).chunk_start == old(self).chunk_start,
            final(self).stack@.len() == old(self).stack@.len(),
            forall|k: int|
                0 <= k < old(self).stack@.len() ==> #[trigger] final(self).stack@[k].open_depth
                    == old(self).stack@[k].open_depth,
    {
        let ghost before = self@;
        match self.stack.pop() {
            Some(mut top) => {
                let ghost t = top@;
                let ghost rest = self.stack@;
                top.methods.push(m);
                self.stack.push(top);
                proof {
                    assert(method_views(top.methods@) =~= t.methods.push(m@));
                    assert(open_views(self.stack@) =~= before.stack.drop_last().push(
                        OpenModel { methods: t.methods.push(m@), ..t },
                    ));
                }
            },
            None => {
                assert(open_views(self.stack@) =~= before.stack);
            },
        }
    }

    fn add_fields(&mut self, fs: Vec<Field>)
        ensures
            final(self)@ == with_fields(old(self)@, field_views(fs@)),
            final(self).depth == old(self).depth,
            final(self).chunk_start == old(self).chunk_start,
            final(self).stack@.len() == old(self).stack@.len(),
            forall|k: int|
                0 <= k < old(self).stack@.len() ==> #[trigger] final(self).stack@[k].open_depth
                    == old(self).stack@[k].open_depth,
    {
        let ghost before = self@;
        let mut fs = fs;
        match self.stack.pop() {
            Some(mut top) => {
                let ghost t = top@;
                let ghost added = field_views(fs@);
                top.fields.append(&mut fs);
                self.stack.push(top);
                proof {
                    assert(field_views(top.fields@) =~= t.fields + added);
                    assert(open_views(self.stack@) =~= before.stack.drop_last().push(
                        OpenModel { fields: t.fields + added, ..t },
                    ));
                }
            },
            None => {
                assert(open_views(self.stack@) =~= before.stack);
            },
        }
    }
}


impl Scanner {
    /// The simple name of the innermost open type.
    fn enclosing_name(&self) -> (r: Option<Vec<char>>)
        ensures
            match r {
                Some(n) => enclosing(self@) == Some(n@),
                None => enclosing(self@) is None,
            },
    {
        if self.stack.len() == 0 {
            None
        } else {
            let top = self.stack.len() - 1;
            assert(self@.stack.last() == self.stack@[top as int]@);
            Some(copy_range(self.stack[top].simple_name.as_slice(), 0, self.stack[top].simple_name.len()))
        }
    }

    fn open_type(&mut self, d: TypeDecl)
        ensures
            final(self)@ == (ScanModel {
                stack: old(self)@.stack.push(opened(old(self)@, d@)),
                ..old(self)@
            }),
            final(self).depth == old(self).depth,
            final(self).chunk_start == old(self).chunk_start,
            final(self).stack@.len() == old(self).stack@.len() + 1,
            forall|k: int|
                0 <= k < old(self).stack@.len() ==> #[trigger] final(self).stack@[k].open_depth
                    == old(self).stack@[k].open_depth,
            final(self).stack@[old(self).stack@.len() as int].open_depth == old(self).depth,
    {
        let ghost before = self@;
        let qualified_name = if self.stack.len() == 0 {
            d.name.clone()
        } else {
            let top = self.stack.len() - 1;
            assert(self@.stack.last() == self.stack@[top as int]@);
            let mut q: Vec<char> = Vec::new();
            push_str(&mut q, self.stack[top].qualified_name.as_str());
            q.push('.');
            push_str(&mut q, d.name.as_str());
            assert(q@ =~= self.stack@[top as int]@.qualified_name + seq!['.'] + d.name@);
            string_of(q.as_slice())
        };
        let simple_name = chars_of(d.name.as_str());
        let t = OpenType {
            qualified_name,
            simple_name,
            kind: d.kind,
            modifiers: d.modifiers,
            extends: d.extends,
            implements: d.implements,
            fields: d.record_fields,
            methods: Vec::new(),
            open_depth: self.depth,
        };
        proof {
            assert(method_views(t.methods@) =~= Seq::<MethodModel>::empty());
            assert(t@ == opened(before, d@));
        }
        self.stack.push(t);
        assert(open_views(self.stack@) =~= before.stack.push(opened(before, d@)));
    }

    fn on_open_brace(&mut self, chunk: &[char])
        requires
            -(i128::MAX as int) < old(self).depth < i128::MAX,
        ensures
            final(self)@ == on_open(old(self)@, chunk@),
            final(self).depth == old(self).depth + 1,
            final(self).chunk_start == old(self).chunk_start,
            final(self).stack@.len() >= old(self).stack@.len(),
            final(self).stack@.len() <= old(self).stack@.len() + 1,
            forall|k: int|
                0 <= k < old(self).stack@.len() ==> #[trigger] final(self).stack@[k].open_depth
                    == old(self).stack@[k].open_depth,
            final(self).stack@.len() > old(self).stack@.len() ==> final(self).stack@[old(
                self,
            ).stack@.len() as int].open_depth == old(self).depth,
    {
        if self.at_member_level() {
            match try_parse_type_decl(chunk) {
                Some(d) => {
                    self.open_type(d);
                },
                None => {
                    let enc = self.enclosing_name();
                    let m = match &enc {
                        Some(n) => try_parse_method_decl(chunk, Some(n.as_slice())),
                        None => try_parse_method_decl(chunk, None),
                    };
                    match m {
                        Some(m) => self.add_method(m),
                        None => {},
                    }
                },
            }
        }
        self.depth = self.depth + 1;
    }

    fn on_close_brace(&mut self, package: &String, file: &str)
        requires
            -(i128::MAX as int) < old(self).depth,
        ensures
            final(self)@ == on_close(old(self)@, package@, file@),
            final(self).depth == old(self).depth - 1,
            final(self).chunk_start == old(self).chunk_start,
            final(self).stack@.len() <= old(self).stack@.len(),
            forall|k: int|
                0 <= k < final(self).stack@.len() ==> #[trigger] final(self).stack@[k].open_depth
                    == old(self).stack@[k].open_depth,
    {
        let ghost before = self@;
        self.depth = self.depth - 1;
        let n = self.stack.len();
        if n > 0 && self.depth == self.stack[n - 1].open_depth {
            assert(before.stack.last() == self.stack@[n - 1]@);
            let top = self.stack.pop().unwrap();
            assert(open_views(self.stack@) =~= before.stack.drop_last());
            let t = JavaType {
                package: package.clone(),
                qualified_name: top.qualified_name,
                kind: top.kind,
                modifiers: top.modifiers,
                extends: top.extends,
                implements: top.implements,
                fields: top.fields,
                methods: top.methods,
                file: string_of(chars_of(file).as_slice()),
            };
            let ghost old_out = self.output@;
            self.output.push(t);
            assert(type_views(self.output@) =~= type_views(old_out).push(
                finished(before.stack.last(), package@, file@),
            ));
        } else {
            assert(n > 0 ==> before.stack.last() == self.stack@[n - 1]@);
        }
    }

    fn on_semicolon(&mut self, chunk: &[char])
        ensures
            final(self)@ == on_semicolon(old(self)@, chunk@),
            final(self).depth == old(self).depth,
            final(self).chunk_start == old(self).chunk_start,
            final(self).stack@.len() == old(self).stack@.len(),
            forall|k: int|
                0 <= k < old(self).stack@.len() ==> #[trigger] final(self).stack@[k].open_depth
                    == old(self).stack@[k].open_depth,
    {
        if self.at_member_level() {
            let enc = self.enclosing_name();
            let m = match &enc {
                Some(n) => try_parse_method_decl(chunk, Some(n.as_slice())),
                None => try_parse_method_decl(chunk, None),
            };
            match m {
                Some(m) => self.add_method(m),
                None => {
                    let fs = field_decl_chars(chunk);
                    self.add_fields(fs);
                },
            }
        }
    }

    fn step(&mut self, s: &[char], i: usize, package: &String, file: &str)
        requires
            i < s@.len(),
            old(self).chunk_start <= i,
            old(self).bounded(i as int),
        ensures
            final(self)@ == scan_step(s@, i as int, old(self)@, package@, file@),
            final(self).chunk_start <= i + 1,
            final(self).bounded(i + 1),
    {
        let c = s[i];
        if c == '{' {
            let chunk = copy_range(s, self.chunk_start, i);
            self.on_open_brace(chunk.as_slice());
            self.chunk_start = i + 1;
        } else if c == '}' {
            self.on_close_brace(package, file);
            self.chunk_start = i + 1;
        } else if c == ';' {
            let chunk = copy_range(s, self.chunk_start, i);
            self.on_semicolon(chunk.as_slice());
            self.chunk_start = i + 1;
        }
    }
}

/// Parses one Java source file into its top-level and nested type
/// declarations, in the order their bodies close.
///
/// This is a best-effort brace-depth scanner, not a full Java parser:
/// array-initializer braces, anonymous-class field initializers and enum
/// constant lists are not captured as fields or methods.
pub fn parse_file(relative_path: &str, source: &str) -> (r: Vec<JavaType>)
    ensures
        type_views(r@) == file_types(relative_path@, source@),
{
    let package = package_of(source);
    let stripped = strip_comments_and_literals(source);
    let s = chars_of(stripped.as_str());
    let mut sc = Scanner { depth: 0, chunk_start: 0, stack: Vec::new(), output: Vec::new() };
    assert(open_views(sc.stack@) =~= Seq::<OpenModel>::empty());
    assert(type_views(sc.output@) =~= Seq::<JavaTypeModel>::empty());
    assert(sc@ == scan_start());
    let mut i: usize = 0;
    while i < s.len()
        invariant
            i <= s@.len(),
            sc.chunk_start <= i,
            sc.bounded(i as int),
            scan_from(s@, 0, scan_start(), package@, relative_path@) == scan_from(
                s@,
                i as int,
                sc@,
                package@,
                relative_path@,
            ),
        decreases s@.len() - i,
    {
        sc.step(s.as_slice(), i, &package, relative_path);
        i = i + 1;
    }
    sc.output
}


/// Whether every type of `ts` records `package` and `file`.
pub open spec fn all_from(ts: Seq<JavaTypeModel>, package: Seq<char>, file: Seq<char>) -> bool {
    forall|k: int| 0 <= k < ts.len() ==> (#[trigger] ts[k]).package == package && ts[k].file == file
}

proof fn lemma_scan_from_keeps_origin(
    s: Seq<char>,
    i: int,
    st: ScanModel,
    package: Seq<char>,
    file: Seq<char>,
)
    requires
        all_from(st.output, package, file),
    ensures
        all_from(scan_from(s, i, st, package, file).output, package, file),
    decreases s.len() - i,
{
    if 0 <= i < s.len() {
        let next = scan_step(s, i, st, package, file);
        let chunk = s.subrange(st.chunk_start, i);
        assert(on_open(st, chunk).output == st.output);
        assert(on_semicolon(st, chunk).output == st.output);
        assert(all_from(next.output, package, file)) by {
            if s[i] == '}' && st.stack.len() > 0 && st.depth - 1 == st.stack.last().open_depth {
                let o = st.output.push(finished(st.stack.last(), package, file));
                assert(next.output == o);
                assert forall|k: int| 0 <= k < o.len() implies (#[trigger] o[k]).package
                    == package && o[k].file == file by {
                    if k < st.output.len() {
                        assert(o[k] == st.output[k]);
                    }
                }
            }
        }
        lemma_scan_from_keeps_origin(s, i + 1, next, package, file);
    }
}

/// Every type indexed for a file records that file's path and the package
/// its `package` declaration names (the empty package when it has none).
pub proof fn lemma_types_record_their_origin(file: Seq<char>, source: Seq<char>)
    ensures
        all_from(
            file_types(file, source),
            package_from(regex_captures(package_pattern(), source)),
            file,
        ),
{
    lemma_scan_from_keeps_origin(
        strip_chars(source),
        0,
        scan_start(),
        package_from(regex_captures(package_pattern(), source)),
        file,
    );
}


/// The brace depth after `s[i..k]`, starting from depth `d`.
pub open spec fn depth_after(s: Seq<char>, i: int, k: int, d: int) -> int
    decreases k - i,
{
    if i >= k || i < 0 || i >= s.len() {
        d
    } else if s[i] == '{' {
        depth_after(s, i + 1, k, d + 1)
    } else if s[i] == '}' {
        depth_after(s, i + 1, k, d - 1)
    } else {
        depth_after(s, i + 1, k, d)
    }
}

/// `st` with only its depth and chunk start replaced.
pub open spec fn resumed(st: ScanModel, depth: int, chunk_start: int) -> ScanModel {
    ScanModel { depth, chunk_start, ..st }
}

/// The scan does not read inside bodies: while the depth stays above the
/// member level of the innermost open type (inside a method body or an
/// initializer), no type opens or closes and no method or field is recorded,
/// so only the depth and the start of the current chunk change. This is how
/// local variables stay out of the index.
pub proof fn lemma_bodies_are_not_read(
    s: Seq<char>,
    i: int,
    j: int,
    st: ScanModel,
    package: Seq<char>,
    file: Seq<char>,
)
    requires
        0 <= i <= j <= s.len(),
        st.stack.len() > 0,
        forall|k: int|
            i <= k < j ==> #[trigger] depth_after(s, i, k, st.depth) >= st.stack.last().open_depth
                + 2,
    ensures
        exists|c: int|
            scan_from(s, i, st, package, file) == scan_from(
                s,
                j,
                #[trigger] resumed(st, depth_after(s, i, j, st.depth), c),
                package,
                file,
            ),
    decreases j - i,
{
    if i == j {
        assert(resumed(st, depth_after(s, i, j, st.depth), st.chunk_start) == st);
    } else {
        assert(depth_after(s, i, i, st.depth) == st.depth);
        let chunk = s.subrange(st.chunk_start, i);
        let next = scan_step(s, i, st, package, file);
        assert(!at_member_level(st));
        assert(next.stack == st.stack && next.output == st.output);
        assert(depth_after(s, i + 1, i + 1, st.depth + 1) == st.depth + 1);
        assert(depth_after(s, i + 1, i + 1, st.depth - 1) == st.depth - 1);
        assert(depth_after(s, i + 1, i + 1, st.depth) == st.depth);
        assert(next.depth == depth_after(s, i, i + 1, st.depth));
        assert forall|k: int| i + 1 <= k < j implies #[trigger] depth_after(
            s,
            i + 1,
            k,
            next.depth,
        ) >= next.stack.last().open_depth + 2 by {
            assert(depth_after(s, i, k, st.depth) >= st.stack.last().open_depth + 2);
        }
        lemma_bodies_are_not_read(s, i + 1, j, next, package, file);
        let c = choose|c: int|
            scan_from(s, i + 1, next, package, file) == scan_from(
                s,
                j,
                #[trigger] resumed(next, depth_after(s, i + 1, j, next.depth), c),
                package,
                file,
            );
        assert(depth_after(s, i + 1, j, next.depth) == depth_after(s, i, j, st.depth));
        assert(resumed(next, depth_after(s, i + 1, j, next.depth), c) == resumed(
            st,
            depth_after(s, i, j, st.depth),
            c,
        ));
    }
}


// ---------------------------------------------------------------------------
// Where each type's body opens and closes.

/// Alongside the scan from `i`: `opens` holds where the body of each open
/// type began (innermost last), `spans` the `{` and `}` positions of each
/// finished type, in output order. Returns the final spans.
pub open spec fn scan_spans(
    s: Seq<char>,
    i: int,
    st: ScanModel,
    opens: Seq<int>,
    spans: Seq<(int, int)>,
    package: Seq<char>,
    file: Seq<char>,
) -> Seq<(int, int)>
    decreases s.len() - i,
{
    if i < 0 || i >= s.len() {
        spans
    } else {
        let next = scan_step(s, i, st, package, file);
        if next.stack.len() > st.stack.len() {
            scan_spans(s, i + 1, next, opens.push(i), spans, package, file)
        } else if next.output.len() > st.output.len() {
            scan_spans(
                s,
                i + 1,
                next,
                opens.drop_last(),
                spans.push((opens.last(), i)),
                package,
                file,
            )
        } else {
            scan_spans(s, i + 1, next, opens, spans, package, file)
        }
    }
}

/// For the types that the index records for a file, in the same order: the
/// positions, in the blanked text, of the `{` that opens each type's body
/// and of the `}` that closes it.
pub open spec fn file_spans(file: Seq<char>, source: Seq<char>) -> Seq<(int, int)> {
    scan_spans(
        strip_chars(source),
        0,
        scan_start(),
        seq![],
        seq![],
        package_from(regex_captures(package_pattern(), source)),
        file,
    )
}

/// What holds of the spans at every step of the scan, before position `i`.
spec fn spans_ok(s: Seq<char>, i: int, st: ScanModel, opens: Seq<int>, spans: Seq<(int, int)>) -> bool {
    &&& opens.len() == st.stack.len()
    &&& spans.len() == st.output.len()
    &&& forall|a: int| 0 <= a < opens.len() ==> 0 <= #[trigger] opens[a] < i && s[opens[a]] == '{'
    &&& forall|a: int, b: int| 0 <= a < b < opens.len() ==> #[trigger] opens[a] < #[trigger] opens[b]
    &&& forall|k: int|
        0 <= k < spans.len() ==> 0 <= (#[trigger] spans[k]).0 < spans[k].1 < i && s[spans[k].0]
            == '{' && s[spans[k].1] == '}'
    &&& forall|k: int, l: int|
        0 <= k < l < spans.len() ==> (#[trigger] spans[k]).1 < (#[trigger] spans[l]).1
    &&& forall|k: int, l: int|
        0 <= k < spans.len() && 0 <= l < spans.len() && (#[trigger] spans[l]).0 < (
        #[trigger] spans[k]).0 < spans[l].1 ==> k < l
    &&& forall|l: int, a: int|
        0 <= l < spans.len() && 0 <= a < opens.len() ==> !((#[trigger] spans[l]).0 < #[trigger] opens[a]
            < spans[l].1)
}

/// Each step grows the stack by one at a `{`, or moves its innermost type
/// to the output at a `}`, or leaves both sizes alone.
proof fn lemma_step_shape(s: Seq<char>, i: int, st: ScanModel, package: Seq<char>, file: Seq<char>)
    requires
        0 <= i < s.len(),
    ensures
        ({
            let next = scan_step(s, i, st, package, file);
            ||| next.stack.len() == st.stack.len() + 1 && next.output == st.output && s[i] == '{'
                && next.stack.take(st.stack.len() as int) == st.stack
            ||| next.stack.len() + 1 == st.stack.len() && next.output == st.output.push(
                finished(st.stack.last(), package, file),
            ) && s[i] == '}'
            ||| next.stack.len() == st.stack.len() && next.output == st.output
        }),
{
    let chunk = s.subrange(st.chunk_start, i);
    if s[i] == '{' && at_member_level(st) && type_decl(chunk) is Some {
        let pushed = st.stack.push(opened(st, type_decl(chunk)->Some_0));
        assert(pushed.take(st.stack.len() as int) =~= st.stack);
    }
}

proof fn lemma_scan_spans(
    s: Seq<char>,
    i: int,
    st: ScanModel,
    opens: Seq<int>,
    spans: Seq<(int, int)>,
    package: Seq<char>,
    file: Seq<char>,
)
    requires
        0 <= i <= s.len(),
        spans_ok(s, i, st, opens, spans),
    ensures
        spans_ok(
            s,
            s.len() as int,
            scan_from(s, i, st, package, file),
            scan_stack_opens(s, i, st, opens, package, file),
            scan_spans(s, i, st, opens, spans, package, file),
        ),
    decreases s.len() - i,
{
    if i < s.len() {
        let next = scan_step(s, i, st, package, file);
        lemma_step_shape(s, i, st, package, file);
        if next.stack.len() > st.stack.len() {
            let o2 = opens.push(i);
            assert forall|a: int, b: int| 0 <= a < b < o2.len() implies #[trigger] o2[a]
                < #[trigger] o2[b] by {
                if b < opens.len() {
                    assert(o2[a] == opens[a] && o2[b] == opens[b]);
                } else {
                    assert(o2[a] == opens[a]);
                }
            }
            assert forall|l: int, a: int|
                0 <= l < spans.len() && 0 <= a < o2.len() implies !((#[trigger] spans[l]).0
                < #[trigger] o2[a] < spans[l].1) by {
                if a < opens.len() {
                    assert(o2[a] == opens[a]);
                }
            }
            assert(spans_ok(s, i + 1, next, o2, spans));
            lemma_scan_spans(s, i + 1, next, o2, spans, package, file);
        } else if next.output.len() > st.output.len() {
            let o2 = opens.drop_last();
            let x = opens.last();
            let sp2 = spans.push((x, i));
            assert(opens[opens.len() - 1] == x);
            assert forall|k: int, l: int| 0 <= k < l < sp2.len() implies (#[trigger] sp2[k]).1
                < (#[trigger] sp2[l]).1 by {
                assert(sp2[k] == spans[k]);
                if l < spans.len() {
                    assert(sp2[l] == spans[l]);
                }
            }
            assert forall|k: int, l: int|
                0 <= k < sp2.len() && 0 <= l < sp2.len() && (#[trigger] sp2[l]).0 < (
                #[trigger] sp2[k]).0 < sp2[l].1 implies k < l by {
                if k == spans.len() && l < spans.len() {
                    assert(sp2[l] == spans[l]);
                    assert(!(spans[l].0 < opens[opens.len() - 1] < spans[l].1));
                } else if k < spans.len() && l < spans.len() {
                    assert(sp2[l] == spans[l] && sp2[k] == spans[k]);
                }
            }
            assert forall|l: int, a: int|
                0 <= l < sp2.len() && 0 <= a < o2.len() implies !((#[trigger] sp2[l]).0
                < #[trigger] o2[a] < sp2[l].1) by {
                assert(o2[a] == opens[a]);
                if l < spans.len() {
                    assert(sp2[l] == spans[l]);
                } else {
                    assert(opens[a] < opens[opens.len() - 1]);
                }
            }
            assert forall|k: int| 0 <= k < sp2.len() implies 0 <= (#[trigger] sp2[k]).0 < sp2[k].1
                < i + 1 && s[sp2[k].0] == '{' && s[sp2[k].1] == '}' by {
                if k < spans.len() {
                    assert(sp2[k] == spans[k]);
                }
            }
            assert forall|a: int| 0 <= a < o2.len() implies 0 <= #[trigger] o2[a] < i + 1 && s[o2[a]]
                == '{' by {
                assert(o2[a] == opens[a]);
            }
            assert forall|a: int, b: int| 0 <= a < b < o2.len() implies #[trigger] o2[a]
                < #[trigger] o2[b] by {
                assert(o2[a] == opens[a] && o2[b] == opens[b]);
            }
            assert(spans_ok(s, i + 1, next, o2, sp2));
            lemma_scan_spans(s, i + 1, next, o2, sp2, package, file);
        } else {
            assert(spans_ok(s, i + 1, next, opens, spans));
            lemma_scan_spans(s, i + 1, next, opens, spans, package, file);
        }
    }
}

/// The open-body positions left at the end of the scan from `i`.
spec fn scan_stack_opens(
    s: Seq<char>,
    i: int,
    st: ScanModel,
    opens: Seq<int>,
    package: Seq<char>,
    file: Seq<char>,
) -> Seq<int>
    decreases s.len() - i,
{
    if i < 0 || i >= s.len() {
        opens
    } else {
        let next = scan_step(s, i, st, package, file);
        if next.stack.len() > st.stack.len() {
            scan_stack_opens(s, i + 1, next, opens.push(i), package, file)
        } else if next.output.len() > st.output.len() {
            scan_stack_opens(s, i + 1, next, opens.drop_last(), package, file)
        } else {
            scan_stack_opens(s, i + 1, next, opens, package, file)
        }
    }
}

/// The index lists the types of a file innermost first: each type comes
/// with the `{` and `}` of its body, the types are listed in the order
/// their bodies close, and a type whose body opens inside another type's
/// body is listed before that type.
pub proof fn lemma_nested_types_come_first(file: Seq<char>, source: Seq<char>)
    ensures
        file_spans(file, source).len() == file_types(file, source).len(),
        forall|k: int|
            0 <= k < file_spans(file, source).len() ==> {
                let sp = #[trigger] file_spans(file, source)[k];
                &&& 0 <= sp.0 < sp.1 < strip_chars(source).len()
                &&& strip_chars(source)[sp.0] == '{'
                &&& strip_chars(source)[sp.1] == '}'
            },
        forall|k: int, l: int|
            0 <= k < l < file_spans(file, source).len() ==> (#[trigger] file_spans(file, source)[k]).1
                < (#[trigger] file_spans(file, source)[l]).1,
        forall|k: int, l: int|
            0 <= k < file_spans(file, source).len() && 0 <= l < file_spans(file, source).len() && (
            #[trigger] file_spans(file, source)[l]).0 < (#[trigger] file_spans(file, source)[k]).0
                < file_spans(file, source)[l].1 ==> k < l,
{
    let s = strip_chars(source);
    let package = package_from(regex_captures(package_pattern(), source));
    assert(spans_ok(s, 0, scan_start(), seq![], seq![]));
    lemma_scan_spans(s, 0, scan_start(), seq![], seq![], package, file);
}

} // verus!
