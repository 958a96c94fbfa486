//! Per-language declaration patterns, suppression lists, file kinds.
use vstd::prelude::*;
use vstd::string::{StringSliceAdditionalSpecFns, StringExecFns};
use vstd::utf8::is_char_boundary;
use crate::types::Language;
use crate::text::str_eq;

verus! {

pub const CODE_EXTS: [&'static str; 3] = ["swift", "kt", "kts"];

pub const RESOURCE_EXTS: [&'static str; 9] = [
    "xib",
    "storyboard",
    "plist",
    "strings",
    "stringsdict",
    "entitlements",
    "xml",
    "json",
    "xcstrings",
];

pub const SKIP_DIRS: [&'static str; 12] = [
    ".git",
    "build",
    ".build",
    "DerivedData",
    "Pods",
    "Carthage",
    "node_modules",
    ".gradle",
    ".idea",
    ".swiftpm",
    "out",
    "generated",
];

/// Reachable implicitly in Swift/SwiftUI/UIKit or Kotlin/Compose/Android.
pub const NOISE: [&'static str; 59] = [
    "body",
    "init",
    "deinit",
    "main",
    "description",
    "debugDescription",
    "hash",
    "hashValue",
    "encode",
    "decode",
    "CodingKeys",
    "makeUIView",
    "updateUIView",
    "makeUIViewController",
    "updateUIViewController",
    "makeCoordinator",
    "makeNSView",
    "updateNSView",
    "viewDidLoad",
    "viewWillAppear",
    "viewDidAppear",
    "viewWillDisappear",
    "viewDidDisappear",
    "viewDidLayoutSubviews",
    "layoutSubviews",
    "prepareForReuse",
    "awakeFromNib",
    "didMoveToSuperview",
    "application",
    "scene",
    "sceneDidBecomeActive",
    "sceneWillEnterForeground",
    "previews",
    "Preview",
    "PreviewProvider",
    "onCreate",
    "onStart",
    "onResume",
    "onPause",
    "onStop",
    "onDestroy",
    "onCreateView",
    "onViewCreated",
    "onDestroyView",
    "onSaveInstanceState",
    "onBindViewHolder",
    "onCreateViewHolder",
    "getItemCount",
    "onCleared",
    "onBackPressed",
    "onActivityResult",
    "onRequestPermissionsResult",
    "toString",
    "equals",
    "hashCode",
    "compareTo",
    "invoke",
    "areItemsTheSame",
    "areContentsTheSame",
];

/// Attributes that mean "reachable outside the ordinary call graph".
pub const DYNAMIC_ATTRS: [&'static str; 33] = [
    "@objc",
    "@objcMembers",
    "@IBAction",
    "@IBOutlet",
    "@IBInspectable",
    "@IBDesignable",
    "@NSManaged",
    "@main",
    "@UIApplicationMain",
    "@NSApplicationMain",
    "@_cdecl",
    "@_dynamicReplacement",
    "@Preview",
    "@Composable",
    "@Test",
    "@Before",
    "@After",
    "@BeforeEach",
    "@AfterEach",
    "@JvmStatic",
    "@Keep",
    "@Serializable",
    "@Inject",
    "@Provides",
    "@Binds",
    "@HiltViewModel",
    "@AndroidEntryPoint",
    "@JsonClass",
    "@Parcelize",
    "@Entity",
    "@Dao",
    "@Query",
    "@Insert",
];

pub open spec fn language_of_ext(ext: Seq<char>) -> Option<Language> {
    if ext == "swift"@ {
        Some(Language::Swift)
    } else if ext == "kt"@ || ext == "kts"@ {
        Some(Language::Kotlin)
    } else {
        None
    }
}

pub fn language_for_ext(ext: &str) -> (res: Option<Language>)
    ensures
        res == language_of_ext(ext@),
{
    if str_eq(ext, "swift") {
        Some(Language::Swift)
    } else if str_eq(ext, "kt") || str_eq(ext, "kts") {
        Some(Language::Kotlin)
    } else {
        None
    }
}

/// `regex::Regex`, carried through verified code without looking inside.
#[verifier::external_type_specification]
#[verifier::external_body]
pub struct ExRegex(regex::Regex);

/// `regex::Error`, what `regex::Regex::new` gives for a pattern it refuses.
#[verifier::external_type_specification]
#[verifier::external_body]
pub struct ExRegexError(regex::Error);

/// Whether `regex::Regex::new` accepts `pattern`.
pub uninterp spec fn regex_compiles(pattern: Seq<char>) -> bool;

/// What `regex::Regex::captures_iter` yields for `pattern` on `haystack`:
/// for each successive match, the byte range of the whole match and that of
/// capture group 1 when it took part.
pub uninterp spec fn regex_captures(pattern: Seq<char>, haystack: Seq<char>) -> Seq<
    (usize, usize, Option<(usize, usize)>),
>;

/// What `regex::Regex::find_iter` yields for `pattern` on `haystack`: the
/// byte range of each successive match.
pub uninterp spec fn regex_matches(pattern: Seq<char>, haystack: Seq<char>) -> Seq<
    (usize, usize),
>;

/// A byte range of `hay` that can slice it: ordered, within bounds, on
/// character boundaries.
pub open spec fn valid_range(hay: Seq<u8>, start: usize, end: usize) -> bool {
    &&& start <= end <= hay.len()
    &&& is_char_boundary(hay, start as int)
    &&& is_char_boundary(hay, end as int)
}

/// What the regex crate documents of every match it reports on `hay`:
/// each range slices the haystack, and there are at most two matches per
/// starting position (successive matches never go backwards, and an empty
/// match is never reported where the previous one ended).
pub open spec fn well_formed_captures(
    caps: Seq<(usize, usize, Option<(usize, usize)>)>,
    hay: Seq<u8>,
) -> bool {
    &&& caps.len() <= 2 * (hay.len() + 1)
    &&& forall|i: int|
        0 <= i < caps.len() ==> {
            &&& valid_range(hay, #[trigger] caps[i].0, caps[i].1)
            &&& (caps[i].2 matches Some(g) ==> valid_range(hay, g.0, g.1))
        }
}

pub open spec fn well_formed_matches(ms: Seq<(usize, usize)>, hay: Seq<u8>) -> bool {
    &&& ms.len() <= 2 * (hay.len() + 1)
    &&& forall|i: int| 0 <= i < ms.len() ==> valid_range(hay, #[trigger] ms[i].0, ms[i].1)
}

/// A compiled regular expression together with its source text.
pub struct Pattern {
    source: String,
    regex: regex::Regex,
}

impl View for Pattern {
    type V = Seq<char>;

    closed spec fn view(&self) -> Seq<char> {
        self.source@
    }
}

impl Pattern {
    /// Compiles `source` with `regex::Regex::new`. Claims: the result is
    /// `Ok` exactly when the crate accepts the pattern, and the pattern kept
    /// is `source`.
    #[verifier::external_body]
    pub(crate) fn compile(source: &str) -> (res: Result<Pattern, regex::Error>)
        ensures
            res is Ok <==> regex_compiles(source@),
            res matches Ok(p) ==> p@ == source@,
    {
        match regex::Regex::new(source) {
            Ok(regex) => Ok(Pattern { source: source.to_string(), regex }),
            Err(e) => Err(e),
        }
    }

    /// The matches of `regex::Regex::captures_iter` on `haystack`, as byte
    /// ranges. Claims: they are the named result for this pattern and
    /// haystack, and they satisfy what the crate documents of a `Match`
    /// (ordered offsets on UTF-8 boundaries within the haystack) and of the
    /// iterator (successive non-overlapping matches, an empty one never
    /// reported at the end of the previous one).
    #[verifier::external_body]
    pub(crate) fn captures(&self, haystack: &str) -> (res: Vec<
        (usize, usize, Option<(usize, usize)>),
    >)
        ensures
            res@ == regex_captures(self@, haystack@),
            well_formed_captures(res@, haystack.spec_bytes()),
    {
        self.regex.captures_iter(haystack).map(
            |c| {
                let m = c.get_match();
                (m.start(), m.end(), c.get(1).map(|g| (g.start(), g.end())))
            },
        ).collect()
    }

    /// The matches of `regex::Regex::find_iter` on `haystack`, as byte
    /// ranges. Claims the same of them as `captures` does.
    #[verifier::external_body]
    pub(crate) fn matches(&self, haystack: &str) -> (res: Vec<(usize, usize)>)
        ensures
            res@ == regex_matches(self@, haystack@),
            well_formed_matches(res@, haystack.spec_bytes()),
    {
        self.regex.find_iter(haystack).map(|m| (m.start(), m.end())).collect()
    }
}

/// Modifiers and attributes that may precede a Swift declaration keyword.
pub const SWIFT_MODIFIERS: &'static str = r"(?:public|private|internal|fileprivate|open|static|final|class|mutating|nonmutating|lazy|weak|unowned|convenience|required|indirect|dynamic|async|override|@\w+(?:\([^)]*\))?)";

/// Modifiers and annotations that may precede a Kotlin declaration keyword.
pub const KOTLIN_MODIFIERS: &'static str = r"(?:public|private|internal|protected|open|abstract|sealed|data|inline|suspend|external|expect|actual|value|inner|companion|const|lateinit|operator|infix|tailrec|override|@\w+(?:\([^)]*\))?)";

/// Start of a declaration line: any indentation, then modifiers.
pub const DECL_LEAD: &'static str = r"(?m)^[ \t]*(?:";

/// Start of a property line: at most four columns of indentation (so that
/// locals inside function bodies are skipped), then modifiers.
pub const PROPERTY_LEAD: &'static str = r"(?m)^[ \t]{0,4}(?:";

/// Closes the repeated modifier group.
pub const MODIFIERS_END: &'static str = r"[ \t]+)*";

/// A declaration pattern: `lead`, any number of `modifiers`, then `rest`.
pub open spec fn decl_pattern(lead: Seq<char>, modifiers: Seq<char>, rest: Seq<char>) -> Seq<
    char,
> {
    lead + modifiers + MODIFIERS_END@ + rest
}

pub open spec fn swift_pattern_sources() -> Seq<(Seq<char>, Seq<char>)> {
    let m = SWIFT_MODIFIERS@;
    seq![
        ("func"@, decl_pattern(DECL_LEAD@, m, r"func[ \t]+([A-Za-z_][A-Za-z0-9_]*)"@)),
        ("class"@, decl_pattern(DECL_LEAD@, m, r"class[ \t]+([A-Za-z_][A-Za-z0-9_]*)[ \t]*[:{<]"@)),
        ("struct"@, decl_pattern(DECL_LEAD@, m, r"struct[ \t]+([A-Za-z_][A-Za-z0-9_]*)"@)),
        ("enum"@, decl_pattern(DECL_LEAD@, m, r"enum[ \t]+([A-Za-z_][A-Za-z0-9_]*)"@)),
        ("protocol"@, decl_pattern(DECL_LEAD@, m, r"protocol[ \t]+([A-Za-z_][A-Za-z0-9_]*)"@)),
        ("typealias"@, decl_pattern(DECL_LEAD@, m, r"typealias[ \t]+([A-Za-z_][A-Za-z0-9_]*)"@)),
        ("actor"@, decl_pattern(DECL_LEAD@, m, r"actor[ \t]+([A-Za-z_][A-Za-z0-9_]*)"@)),
        ("property"@, decl_pattern(PROPERTY_LEAD@, m, r"(?:let|var)[ \t]+([A-Za-z_][A-Za-z0-9_]*)"@)),
        ("case"@, r"(?m)^[ \t]*case[ \t]+([A-Za-z_][A-Za-z0-9_]*)[ \t]*(?:[,(=]|$)"@),
    ]
}

pub open spec fn kotlin_pattern_sources() -> Seq<(Seq<char>, Seq<char>)> {
    let m = KOTLIN_MODIFIERS@;
    seq![
        ("fun"@, decl_pattern(DECL_LEAD@, m, r"fun[ \t]+(?:<[^>]*>[ \t]*)?([A-Za-z_][A-Za-z0-9_]*)"@)),
        ("class"@, decl_pattern(DECL_LEAD@, m, r"class[ \t]+([A-Za-z_][A-Za-z0-9_]*)"@)),
        ("interface"@, decl_pattern(DECL_LEAD@, m, r"interface[ \t]+([A-Za-z_][A-Za-z0-9_]*)"@)),
        ("object"@, decl_pattern(DECL_LEAD@, m, r"object[ \t]+([A-Za-z_][A-Za-z0-9_]*)"@)),
        ("typealias"@, r"(?m)^[ \t]*typealias[ \t]+([A-Za-z_][A-Za-z0-9_]*)"@),
        ("property"@, decl_pattern(PROPERTY_LEAD@, m, r"(?:val|var)[ \t]+([A-Za-z_][A-Za-z0-9_]*)"@)),
        ("enum entry"@, r"(?m)^[ \t]{4,}([A-Z][A-Z0-9_]{2,})[ \t]*(?:[,;(]|$)"@),
    ]
}

/// Matches a `protocol` / `interface` header line.
pub const CONFORMANCE_HEAD: &'static str = r"(?m)^[ \t]*(?:[\w@()]+[ \t]+)*(?:protocol|interface)[ \t]+[A-Za-z_][A-Za-z0-9_]*";

/// Matches a member declaration inside a `protocol` / `interface` body.
pub const CONFORMANCE_MEMBER: &'static str = r"(?m)^[ \t]*(?:[\w@()]+[ \t]+)*(?:func|fun|var|val)[ \t]+([A-Za-z_][A-Za-z0-9_]*)";

/// Every built-in pattern is accepted by the regex crate.
pub open spec fn builtin_patterns_compile() -> bool {
    &&& forall|i: int|
        0 <= i < swift_pattern_sources().len() ==> regex_compiles(
            #[trigger] swift_pattern_sources()[i].1,
        )
    &&& forall|i: int|
        0 <= i < kotlin_pattern_sources().len() ==> regex_compiles(
            #[trigger] kotlin_pattern_sources()[i].1,
        )
    &&& regex_compiles(CONFORMANCE_HEAD@)
    &&& regex_compiles(CONFORMANCE_MEMBER@)
}

/// The patterns of a `Patterns`, as (kind, source) pairs and sources.
pub struct PatternsView {
    pub swift: Seq<(Seq<char>, Seq<char>)>,
    pub kotlin: Seq<(Seq<char>, Seq<char>)>,
    pub conformance_head: Seq<char>,
    pub conformance_member: Seq<char>,
}

pub open spec fn kinds_view(v: Seq<(&'static str, Pattern)>) -> Seq<(Seq<char>, Seq<char>)> {
    v.map_values(|e: (&'static str, Pattern)| (e.0@, e.1@))
}

/// Compiled declaration patterns. Built once per scan, not per file.
pub struct Patterns {
    pub swift: Vec<(&'static str, Pattern)>,
    pub kotlin: Vec<(&'static str, Pattern)>,
    /// Matches a `protocol` / `interface` header line.
    pub conformance_head: Pattern,
    /// Matches a member declaration inside such a body.
    pub conformance_member: Pattern,
}

impl View for Patterns {
    type V = PatternsView;

    open spec fn view(&self) -> PatternsView {
        PatternsView {
            swift: kinds_view(self.swift@),
            kotlin: kinds_view(self.kotlin@),
            conformance_head: self.conformance_head@,
            conformance_member: self.conformance_member@,
        }
    }
}

pub open spec fn builtin_patterns() -> PatternsView {
    PatternsView {
        swift: swift_pattern_sources(),
        kotlin: kotlin_pattern_sources(),
        conformance_head: CONFORMANCE_HEAD@,
        conformance_member: CONFORMANCE_MEMBER@,
    }
}

pub open spec fn patterns_for(p: PatternsView, lang: Language) -> Seq<(Seq<char>, Seq<char>)> {
    match lang {
        Language::Swift => p.swift,
        Language::Kotlin => p.kotlin,
    }
}

/// `lead`, then `modifiers`, then the end of the modifier group, then `rest`.
fn compose(lead: &str, modifiers: &str, rest: &str) -> (res: String)
    ensures
        res@ == decl_pattern(lead@, modifiers@, rest@),
{
    String::from_str(lead).concat(modifiers).concat(MODIFIERS_END).concat(rest)
}

/// Compiles each (kind, source) pair in turn; `None` as soon as one fails.
fn compile_all(kinds: &Vec<(&'static str, String)>) -> (res: Option<Vec<(&'static str, Pattern)>>)
    ensures
        res is Some <==> forall|i: int|
            0 <= i < kinds@.len() ==> regex_compiles(#[trigger] kinds@[i].1@),
        res matches Some(v) ==> kinds_view(v@) == kinds@.map_values(
            |e: (&'static str, String)| (e.0@, e.1@),
        ),
{
    let mut out: Vec<(&'static str, Pattern)> = Vec::new();
    let mut i: usize = 0;
    while i < kinds.len()
        invariant
            i <= kinds@.len(),
            out@.len() == i,
            forall|t: int| 0 <= t < i ==> regex_compiles(#[trigger] kinds@[t].1@),
            forall|t: int|
                0 <= t < i ==> (#[trigger] out@[t]).0@ == kinds@[t].0@ && out@[t].1@ == kinds@[
                    t
                ].1@,
        decreases kinds@.len() - i,
    {
        let (kind, source) = &kinds[i];
        match Pattern::compile(source.as_str()) {
            Ok(p) => {
                out.push((*kind, p));
            },
            Err(_) => {
                return None;
            },
        }
        i += 1;
    }
    assert(kinds_view(out@) =~= kinds@.map_values(|e: (&'static str, String)| (e.0@, e.1@)));
    Some(out)
}

fn swift_patterns() -> (res: Vec<(&'static str, String)>)
    ensures
        res@.map_values(|e: (&'static str, String)| (e.0@, e.1@)) == swift_pattern_sources(),
{
    let m = SWIFT_MODIFIERS;
    let res = vec![
        ("func", compose(DECL_LEAD, m, r"func[ \t]+([A-Za-z_][A-Za-z0-9_]*)")),
        ("class", compose(DECL_LEAD, m, r"class[ \t]+([A-Za-z_][A-Za-z0-9_]*)[ \t]*[:{<]")),
        ("struct", compose(DECL_LEAD, m, r"struct[ \t]+([A-Za-z_][A-Za-z0-9_]*)")),
        ("enum", compose(DECL_LEAD, m, r"enum[ \t]+([A-Za-z_][A-Za-z0-9_]*)")),
        ("protocol", compose(DECL_LEAD, m, r"protocol[ \t]+([A-Za-z_][A-Za-z0-9_]*)")),
        ("typealias", compose(DECL_LEAD, m, r"typealias[ \t]+([A-Za-z_][A-Za-z0-9_]*)")),
        ("actor", compose(DECL_LEAD, m, r"actor[ \t]+([A-Za-z_][A-Za-z0-9_]*)")),
        ("property", compose(PROPERTY_LEAD, m, r"(?:let|var)[ \t]+([A-Za-z_][A-Za-z0-9_]*)")),
        ("case", String::from_str(r"(?m)^[ \t]*case[ \t]+([A-Za-z_][A-Za-z0-9_]*)[ \t]*(?:[,(=]|$)")),
    ];
    assert(res@.map_values(|e: (&'static str, String)| (e.0@, e.1@)) =~= swift_pattern_sources());
    res
}

fn kotlin_patterns() -> (res: Vec<(&'static str, String)>)
    ensures
        res@.map_values(|e: (&'static str, String)| (e.0@, e.1@)) == kotlin_pattern_sources(),
{
    let m = KOTLIN_MODIFIERS;
    let res = vec![
        ("fun", compose(DECL_LEAD, m, r"fun[ \t]+(?:<[^>]*>[ \t]*)?([A-Za-z_][A-Za-z0-9_]*)")),
        ("class", compose(DECL_LEAD, m, r"class[ \t]+([A-Za-z_][A-Za-z0-9_]*)")),
        ("interface", compose(DECL_LEAD, m, r"interface[ \t]+([A-Za-z_][A-Za-z0-9_]*)")),
        ("object", compose(DECL_LEAD, m, r"object[ \t]+([A-Za-z_][A-Za-z0-9_]*)")),
        ("typealias", String::from_str(r"(?m)^[ \t]*typealias[ \t]+([A-Za-z_][A-Za-z0-9_]*)")),
        ("property", compose(PROPERTY_LEAD, m, r"(?:val|var)[ \t]+([A-Za-z_][A-Za-z0-9_]*)")),
        ("enum entry", String::from_str(r"(?m)^[ \t]{4,}([A-Z][A-Z0-9_]{2,})[ \t]*(?:[,;(]|$)")),
    ];
    assert(res@.map_values(|e: (&'static str, String)| (e.0@, e.1@)) =~= kotlin_pattern_sources());
    res
}

impl Patterns {
    /// Compiles the built-in patterns; `None` when the regex crate refuses
    /// one of them.
    fn build() -> (res: Option<Self>)
        ensures
            res is Some <==> builtin_patterns_compile(),
            res matches Some(p) ==> p@ == builtin_patterns(),
    {
        let swift_src = swift_patterns();
        let kotlin_src = kotlin_patterns();
        proof {
            assert forall|i: int| 0 <= i < swift_src@.len() implies swift_src@[i].1@ == swift_pattern_sources()[i].1 by {
                assert(swift_src@.map_values(|e: (&'static str, String)| (e.0@, e.1@))[i] == (swift_src@[i].0@, swift_src@[i].1@));
            }
            assert forall|i: int| 0 <= i < kotlin_src@.len() implies kotlin_src@[i].1@ == kotlin_pattern_sources()[i].1 by {
                assert(kotlin_src@.map_values(|e: (&'static str, String)| (e.0@, e.1@))[i] == (kotlin_src@[i].0@, kotlin_src@[i].1@));
            }
        }
        let swift = match compile_all(&swift_src) {
            Some(v) => v,
            None => {
                proof {
                    if builtin_patterns_compile() {
                        assert forall|i: int| 0 <= i < swift_src@.len() implies regex_compiles(#[trigger] swift_src@[i].1@) by {
                            assert(regex_compiles(swift_pattern_sources()[i].1));
                        }
                    }
                }
                return None;
            },
        };
        let kotlin = match compile_all(&kotlin_src) {
            Some(v) => v,
            None => {
                proof {
                    if builtin_patterns_compile() {
                        assert forall|i: int| 0 <= i < kotlin_src@.len() implies regex_compiles(#[trigger] kotlin_src@[i].1@) by {
                            assert(regex_compiles(kotlin_pattern_sources()[i].1));
                        }
                    }
                }
                return None;
            },
        };
        let conformance_head = match Pattern::compile(CONFORMANCE_HEAD) {
            Ok(p) => p,
            Err(_) => {
                return None;
            },
        };
        let conformance_member = match Pattern::compile(CONFORMANCE_MEMBER) {
            Ok(p) => p,
            Err(_) => {
                return None;
            },
        };
        proof {
            assert forall|i: int| 0 <= i < swift_pattern_sources().len() implies regex_compiles(#[trigger] swift_pattern_sources()[i].1) by {
                assert(regex_compiles(swift_src@[i].1@));
            }
            assert forall|i: int| 0 <= i < kotlin_pattern_sources().len() implies regex_compiles(#[trigger] kotlin_pattern_sources()[i].1) by {
                assert(regex_compiles(kotlin_src@[i].1@));
            }
        }
        Some(Patterns { swift, kotlin, conformance_head, conformance_member })
    }

    /// Compiles the built-in patterns.
    pub fn new() -> (res: Self)
        requires
            builtin_patterns_compile(),
        ensures
            res@ == builtin_patterns(),
    {
        Self::build().unwrap()
    }

    /// The built-in patterns, or `None` when the regex crate refuses one of
    /// them.
    pub fn try_new() -> (res: Option<Self>)
        ensures
            res is Some <==> builtin_patterns_compile(),
            res matches Some(p) ==> p@ == builtin_patterns(),
    {
        Self::build()
    }

    pub fn for_language(&self, lang: Language) -> (res: &[(&'static str, Pattern)])
        ensures
            kinds_view(res@) == patterns_for(self@, lang),
    {
        match lang {
            Language::Swift => self.swift.as_slice(),
            Language::Kotlin => self.kotlin.as_slice(),
        }
    }
}

} // verus!
