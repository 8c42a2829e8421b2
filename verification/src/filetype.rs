use vstd::prelude::*;
use vstd::string::StrSliceExecFns;
use vstd::string::StringExecFns;

verus! {

/// The mathematical content of a `HighlightingOptions` table.
pub struct OptsV {
    pub numbers: bool,
    pub characters: bool,
    pub strings: Option<Seq<char>>,
    pub comments: Option<Seq<char>>,
    pub multiline: Option<Seq<(Seq<char>, Seq<char>)>>,
    pub primary: Seq<Seq<char>>,
    pub secondary: Seq<Seq<char>>,
}

/// The per-language highlighting options: which token classes are
/// highlighted, the string-quote characters, the single-line comment
/// prefix, the multi-line comment delimiter pairs, and the keyword lists.
pub struct HighlightingOptions {
    numbers: bool,
    characters: bool,
    strings: Option<Vec<char>>,
    comments: Option<String>,
    multiline_comments: Option<Vec<(String, String)>>,
    primary_keywords: Vec<String>,
    secondary_keywords: Vec<String>,
}

impl View for HighlightingOptions {
    type V = OptsV;

    closed spec fn view(&self) -> OptsV {
        OptsV {
            numbers: self.numbers,
            characters: self.characters,
            strings: match self.strings {
                Some(v) => Some(v@),
                None => None,
            },
            comments: match self.comments {
                Some(s) => Some(s@),
                None => None,
            },
            multiline: match self.multiline_comments {
                Some(v) => Some(v.deep_view()),
                None => None,
            },
            primary: self.primary_keywords.deep_view(),
            secondary: self.secondary_keywords.deep_view(),
        }
    }
}

/// The view of optional quote characters.
pub open spec fn opt_chars_view(o: &Option<Vec<char>>) -> Option<Seq<char>> {
    match o {
        Some(v) => Some(v@),
        None => None,
    }
}

/// The view of an optional comment prefix.
pub open spec fn opt_string_view(o: &Option<String>) -> Option<Seq<char>> {
    match o {
        Some(s) => Some(s@),
        None => None,
    }
}

/// The view of optional delimiter pairs.
pub open spec fn opt_pairs_view(o: &Option<Vec<(String, String)>>) -> Option<
    Seq<(Seq<char>, Seq<char>)>,
> {
    match o {
        Some(v) => Some(v.deep_view()),
        None => None,
    }
}

impl HighlightingOptions {
    /// Builds an options table from its parts.
    pub fn new(
        numbers: bool,
        characters: bool,
        strings: Option<Vec<char>>,
        comments: Option<String>,
        multiline_comments: Option<Vec<(String, String)>>,
        primary_keywords: Vec<String>,
        secondary_keywords: Vec<String>,
    ) -> (r: HighlightingOptions)
        ensures
            r@.numbers == numbers,
            r@.characters == characters,
            r@.strings == opt_chars_view(&strings),
            r@.comments == opt_string_view(&comments),
            r@.multiline == opt_pairs_view(&multiline_comments),
            r@.primary == primary_keywords.deep_view(),
            r@.secondary == secondary_keywords.deep_view(),
    {
        HighlightingOptions {
            numbers,
            characters,
            strings,
            comments,
            multiline_comments,
            primary_keywords,
            secondary_keywords,
        }
    }

    /// Whether numeric literals are highlighted.
    pub fn numbers(&self) -> (r: bool)
        ensures
            r == self@.numbers,
    {
        self.numbers
    }

    /// Whether character literals are highlighted.
    pub fn characters(&self) -> (r: bool)
        ensures
            r == self@.characters,
    {
        self.characters
    }

    /// The string-quote characters, if strings are highlighted.
    pub fn strings(&self) -> (r: &Option<Vec<char>>)
        ensures
            opt_chars_view(r) == self@.strings,
    {
        &self.strings
    }

    /// The single-line comment prefix, if comments are highlighted.
    pub fn comments(&self) -> (r: &Option<String>)
        ensures
            opt_string_view(r) == self@.comments,
    {
        &self.comments
    }

    /// The multi-line comment delimiter pairs, if any.
    pub fn multiline_comments(&self) -> (r: &Option<Vec<(String, String)>>)
        ensures
            opt_pairs_view(r) == self@.multiline,
    {
        &self.multiline_comments
    }

    /// The primary keyword list.
    pub fn primary_keywords(&self) -> (r: &Vec<String>)
        ensures
            r.deep_view() == self@.primary,
    {
        &self.primary_keywords
    }

    /// The secondary keyword list.
    pub fn secondary_keywords(&self) -> (r: &Vec<String>)
        ensures
            r.deep_view() == self@.secondary,
    {
        &self.secondary_keywords
    }
}

/// The options table with everything switched off; used for files of no
/// known type.
pub open spec fn plain_opts() -> OptsV {
    OptsV {
        numbers: false,
        characters: false,
        strings: None,
        comments: None,
        multiline: None,
        primary: Seq::empty(),
        secondary: Seq::empty(),
    }
}

impl Default for HighlightingOptions {
    /// The empty table: nothing is highlighted.
    fn default() -> (r: HighlightingOptions)
        ensures
            r@ == plain_opts(),
    {
        let r = HighlightingOptions {
            numbers: false,
            characters: false,
            strings: None,
            comments: None,
            multiline_comments: None,
            primary_keywords: Vec::new(),
            secondary_keywords: Vec::new(),
        };
        proof {
            assert(r@.primary =~= Seq::<Seq<char>>::empty());
            assert(r@.secondary =~= Seq::<Seq<char>>::empty());
        }
        r
    }
}

/// The file type of a document: a display name, its filename extensions,
/// and the highlighting options that apply to it.
pub struct FileType {
    name: String,
    extension: Vec<String>,
    highlighting_options: HighlightingOptions,
}

impl FileType {
    /// The display name of this file type.
    pub closed spec fn spec_name(&self) -> Seq<char> {
        self.name@
    }

    /// The extensions this file type claims.
    pub closed spec fn spec_extensions(&self) -> Seq<Seq<char>> {
        self.extension.deep_view()
    }

    /// The options of this file type.
    pub closed spec fn spec_options(&self) -> OptsV {
        self.highlighting_options@
    }

    /// Builds a file type from its parts.
    pub fn new(name: String, extension: Vec<String>, highlighting_options: HighlightingOptions) -> (r:
        FileType)
        ensures
            r.spec_name() == name@,
            r.spec_extensions() == extension.deep_view(),
            r.spec_options() == highlighting_options@,
    {
        FileType { name, extension, highlighting_options }
    }

    /// The name of the file type.
    pub fn name(&self) -> (r: String)
        ensures
            r@ == self.spec_name(),
    {
        self.name.clone()
    }

    /// The highlighting options of the file type.
    pub fn highlighting_options(&self) -> (r: &HighlightingOptions)
        ensures
            r@ == self.spec_options(),
    {
        &self.highlighting_options
    }
}

impl Default for FileType {
    /// The file type of files with no recognized extension.
    fn default() -> (r: FileType)
        ensures
            r.spec_name() == "No filetype"@,
            r.spec_options() == plain_opts(),
    {
        FileType {
            name: String::from_str("No filetype"),
            extension: Vec::new(),
            highlighting_options: HighlightingOptions::default(),
        }
    }
}

/// The primary (flow and item) keywords of Rust sources.
pub open spec fn rust_primary() -> Seq<Seq<char>> {
    seq![
        "as"@,
        "break"@,
        "const"@,
        "continue"@,
        "crate"@,
        "dyn"@,
        "else"@,
        "enum"@,
        "false"@,
        "fn"@,
        "for"@,
        "if"@,
        "impl"@,
        "in"@,
        "let"@,
        "loop"@,
        "match"@,
        "mod"@,
        "move"@,
        "mut"@,
        "pub"@,
        "ref"@,
        "return"@,
        "self"@,
        "static"@,
        "struct"@,
        "super"@,
        "trait"@,
        "true"@,
        "type"@,
        "use"@,
        "where"@,
        "while"@,
    ]
}

/// The secondary (primitive type) keywords of Rust sources.
pub open spec fn rust_secondary() -> Seq<Seq<char>> {
    seq![
        "bool"@,
        "char"@,
        "i8"@,
        "i16"@,
        "i32"@,
        "i64"@,
        "isize"@,
        "u8"@,
        "u16"@,
        "u32"@,
        "u64"@,
        "usize"@,
        "str"@,
    ]
}

/// The options table for Rust sources.
pub open spec fn rust_opts() -> OptsV {
    OptsV {
        numbers: true,
        characters: true,
        strings: Some(seq!['"']),
        comments: Some("//"@),
        multiline: Some(seq![("/*"@, "*/"@)]),
        primary: rust_primary(),
        secondary: rust_secondary(),
    }
}

/// The primary keywords of Java sources.
pub open spec fn java_primary() -> Seq<Seq<char>> {
    seq![
        "abstract"@,
        "break"@,
        "case"@,
        "catch"@,
        "class"@,
        "continue"@,
        "do"@,
        "else"@,
        "enum"@,
        "finally"@,
        "for"@,
        "if"@,
        "implements"@,
        "import"@,
        "instanceof"@,
        "interface"@,
        "new"@,
        "package"@,
        "private"@,
        "protected"@,
        "public"@,
        "return"@,
        "static"@,
        "switch"@,
        "this"@,
        "throw"@,
        "throws"@,
        "try"@,
        "void"@,
        "while"@,
    ]
}

/// The secondary (primitive type) keywords of Java sources.
pub open spec fn java_secondary() -> Seq<Seq<char>> {
    seq!["boolean"@, "byte"@, "char"@, "int"@, "long"@, "short"@]
}

/// The options table for Java sources.
pub open spec fn java_opts() -> OptsV {
    OptsV {
        numbers: true,
        characters: true,
        strings: Some(seq!['"']),
        comments: Some("//"@),
        multiline: Some(seq![("/*"@, "*/"@)]),
        primary: java_primary(),
        secondary: java_secondary(),
    }
}

/// Pushes one keyword onto a keyword vector, at the level of deep views.
fn push_kw(v: &mut Vec<String>, w: &str)
    ensures
        final(v).deep_view() == old(v).deep_view().push(w@),
{
    let ghost pre = v.deep_view();
    v.push(String::from_str(w));
    proof {
        assert forall|j: int| 0 <= j < v.deep_view().len() implies v.deep_view()[j] == pre.push(
            w@,
        )[j] by {
            if j < pre.len() {
                assert(v.deep_view()[j] == v@[j]@);
                assert(pre[j] == old(v)@[j]@);
            } else {
                assert(v.deep_view()[j] == v@[j]@);
            }
        }
        assert(v.deep_view() =~= pre.push(w@));
    }
}

/// An empty keyword vector.
fn empty_kws() -> (r: Vec<String>)
    ensures
        r.deep_view() == Seq::<Seq<char>>::empty(),
{
    let r: Vec<String> = Vec::new();
    proof {
        assert(r.deep_view() =~= Seq::<Seq<char>>::empty());
    }
    r
}

impl FileType {
    /// The file type of Rust sources.
    fn rust() -> (r: FileType)
        ensures
            r.spec_name() == "Rust"@,
            r.spec_options() == rust_opts(),
    {
        let mut primary = empty_kws();
        push_kw(&mut primary, "as");
        push_kw(&mut primary, "break");
        push_kw(&mut primary, "const");
        push_kw(&mut primary, "continue");
        push_kw(&mut primary, "crate");
        push_kw(&mut primary, "dyn");
        push_kw(&mut primary, "else");
        push_kw(&mut primary, "enum");
        push_kw(&mut primary, "false");
        push_kw(&mut primary, "fn");
        push_kw(&mut primary, "for");
        push_kw(&mut primary, "if");
        push_kw(&mut primary, "impl");
        push_kw(&mut primary, "in");
        push_kw(&mut primary, "let");
        push_kw(&mut primary, "loop");
        push_kw(&mut primary, "match");
        push_kw(&mut primary, "mod");
        push_kw(&mut primary, "move");
        push_kw(&mut primary, "mut");
        push_kw(&mut primary, "pub");
        push_kw(&mut primary, "ref");
        push_kw(&mut primary, "return");
        push_kw(&mut primary, "self");
        push_kw(&mut primary, "static");
        push_kw(&mut primary, "struct");
        push_kw(&mut primary, "super");
        push_kw(&mut primary, "trait");
        push_kw(&mut primary, "true");
        push_kw(&mut primary, "type");
        push_kw(&mut primary, "use");
        push_kw(&mut primary, "where");
        push_kw(&mut primary, "while");
        let mut secondary = empty_kws();
        push_kw(&mut secondary, "bool");
        push_kw(&mut secondary, "char");
        push_kw(&mut secondary, "i8");
        push_kw(&mut secondary, "i16");
        push_kw(&mut secondary, "i32");
        push_kw(&mut secondary, "i64");
        push_kw(&mut secondary, "isize");
        push_kw(&mut secondary, "u8");
        push_kw(&mut secondary, "u16");
        push_kw(&mut secondary, "u32");
        push_kw(&mut secondary, "u64");
        push_kw(&mut secondary, "usize");
        push_kw(&mut secondary, "str");
        proof {
            assert(primary.deep_view() =~= rust_primary());
            assert(secondary.deep_view() =~= rust_secondary());
        }
        let opts = HighlightingOptions::new(
            true,
            true,
            Some(vec!['"']),
            Some(String::from_str("//")),
            Some(vec![(String::from_str("/*"), String::from_str("*/"))]),
            primary,
            secondary,
        );
        proof {
            assert(opts@.strings == Some(seq!['"']));
            assert(opts@.multiline->0 =~= seq![("/*"@, "*/"@)]);
        }
        let mut exts = empty_kws();
        push_kw(&mut exts, "rs");
        FileType::new(String::from_str("Rust"), exts, opts)
    }

    /// The file type of Java sources.
    fn java() -> (r: FileType)
        ensures
            r.spec_name() == "Java"@,
            r.spec_options() == java_opts(),
    {
        let mut primary = empty_kws();
        push_kw(&mut primary, "abstract");
        push_kw(&mut primary, "break");
        push_kw(&mut primary, "case");
        push_kw(&mut primary, "catch");
        push_kw(&mut primary, "class");
        push_kw(&mut primary, "continue");
        push_kw(&mut primary, "do");
        push_kw(&mut primary, "else");
        push_kw(&mut primary, "enum");
        push_kw(&mut primary, "finally");
        push_kw(&mut primary, "for");
        push_kw(&mut primary, "if");
        push_kw(&mut primary, "implements");
        push_kw(&mut primary, "import");
        push_kw(&mut primary, "instanceof");
        push_kw(&mut primary, "interface");
        push_kw(&mut primary, "new");
        push_kw(&mut primary, "package");
        push_kw(&mut primary, "private");
        push_kw(&mut primary, "protected");
        push_kw(&mut primary, "public");
        push_kw(&mut primary, "return");
        push_kw(&mut primary, "static");
        push_kw(&mut primary, "switch");
        push_kw(&mut primary, "this");
        push_kw(&mut primary, "throw");
        push_kw(&mut primary, "throws");
        push_kw(&mut primary, "try");
        push_kw(&mut primary, "void");
        push_kw(&mut primary, "while");
        let mut secondary = empty_kws();
        push_kw(&mut secondary, "boolean");
        push_kw(&mut secondary, "byte");
        push_kw(&mut secondary, "char");
        push_kw(&mut secondary, "int");
        push_kw(&mut secondary, "long");
        push_kw(&mut secondary, "short");
        proof {
            assert(primary.deep_view() =~= java_primary());
            assert(secondary.deep_view() =~= java_secondary());
        }
        let opts = HighlightingOptions::new(
            true,
            true,
            Some(vec!['"']),
            Some(String::from_str("//")),
            Some(vec![(String::from_str("/*"), String::from_str("*/"))]),
            primary,
            secondary,
        );
        proof {
            assert(opts@.strings == Some(seq!['"']));
            assert(opts@.multiline->0 =~= seq![("/*"@, "*/"@)]);
        }
        let mut exts = empty_kws();
        push_kw(&mut exts, "java");
        FileType::new(String::from_str("Java"), exts, opts)
    }

    /// The file type a filename selects, by its extension: Rust for `rs`,
    /// Java for `java`, and the plain default otherwise.
    pub fn from(filename: &str) -> (r: FileType)
        ensures
            r.spec_name() == spec_filetype_name(filename@),
            r.spec_options() == spec_filetype_opts(filename@),
    {
        let ext = extension_of(filename);
        proof {
            broadcast use vstd::string::group_string_axioms;

            reveal_strlit("rs");
            reveal_strlit("java");
            assert("rs"@.len() == 2);
            assert("java"@.len() == 4);
        }
        if ext == String::from_str("rs") {
            Self::rust()
        } else if ext == String::from_str("java") {
            Self::java()
        } else {
            Self::default()
        }
    }
}

/// The display name a filename's extension selects.
pub open spec fn spec_filetype_name(f: Seq<char>) -> Seq<char> {
    if spec_extension_of(f) == "rs"@ {
        "Rust"@
    } else if spec_extension_of(f) == "java"@ {
        "Java"@
    } else {
        "No filetype"@
    }
}

/// The options table a filename's extension selects.
pub open spec fn spec_filetype_opts(f: Seq<char>) -> OptsV {
    if spec_extension_of(f) == "rs"@ {
        rust_opts()
    } else if spec_extension_of(f) == "java"@ {
        java_opts()
    } else {
        plain_opts()
    }
}

/// The start of the final path component of `f`: the index just after the
/// last `/` before `k`.
pub open spec fn comp_start(f: Seq<char>, k: int) -> int
    decreases k,
{
    if k <= 0 {
        0
    } else if f[k - 1] == '/' {
        k
    } else {
        comp_start(f, k - 1)
    }
}

/// The last `.` strictly before `k` and strictly after the component
/// start `cs`, if any.
pub open spec fn last_dot_from(f: Seq<char>, k: int, cs: int) -> Option<int>
    decreases k,
{
    if k <= 0 || k <= cs + 1 {
        None
    } else if f[k - 1] == '.' {
        Some(k - 1)
    } else {
        last_dot_from(f, k - 1, cs)
    }
}

/// The extension of a filename: what follows the last `.` of the final
/// path component, provided that dot is not the component's first
/// character; empty when there is none.
pub open spec fn spec_extension_of(f: Seq<char>) -> Seq<char> {
    let cs = comp_start(f, f.len() as int);
    match last_dot_from(f, f.len() as int, cs) {
        Some(d) => f.skip(d + 1),
        None => Seq::empty(),
    }
}

/// Computes the filename extension executably.
fn extension_of(filename: &str) -> (r: String)
    ensures
        r@ == spec_extension_of(filename@),
{
    let n = filename.unicode_len();
    let mut cs = n;
    while cs > 0 && filename.get_char(cs - 1) != '/'
        invariant
            cs <= n,
            n == filename@.len(),
            comp_start(filename@, n as int) == comp_start(filename@, cs as int),
        decreases cs,
    {
        cs -= 1;
    }
    proof {
        assert(comp_start(filename@, n as int) == cs as int);
    }
    let mut k = n;
    while k > 0 && k - 1 > cs && filename.get_char(k - 1) != '.'
        invariant
            cs <= n,
            k <= n,
            k >= cs,
            n == filename@.len(),
            comp_start(filename@, n as int) == cs as int,
            last_dot_from(filename@, n as int, cs as int) == last_dot_from(
                filename@,
                k as int,
                cs as int,
            ),
        decreases k,
    {
        k -= 1;
    }
    if k > 0 && k - 1 > cs {
        let sub = filename.substring_char(k, n);
        String::from_str(sub)
    } else {
        String::new()
    }
}

} // verus!
