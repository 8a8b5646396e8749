use vstd::prelude::*;
use vstd::string::StrSliceExecFns;

use crate::graph::{Commands, Graph, GraphError};
use crate::text::push_char;

verus! {

// ---------------------------------------------------------------------------
// Cleaning names that become file names
// ---------------------------------------------------------------------------

/// The position of the last `.` in `s`, or -1 when there is none.
pub open spec fn last_period(s: Seq<char>) -> int
    decreases s.len(),
{
    if s.len() == 0 {
        -1
    } else if s.last() == '.' {
        s.len() - 1
    } else {
        last_period(s.drop_last())
    }
}

/// Whether `sanitize` keeps the character at position `i` of `s`: back slashes and
/// slashes go, and every period but the last one (all of them for a directory).
pub open spec fn keeps(s: Seq<char>, i: int, isDir: bool) -> bool {
    &&& s[i] != '\\'
    &&& s[i] != '/'
    &&& (s[i] != '.' || (!isDir && i == last_period(s)))
}

/// The characters among the first `n` of `s` that `sanitize` keeps.
pub open spec fn kept_prefix(s: Seq<char>, n: nat, isDir: bool) -> Seq<char>
    decreases n,
{
    if n == 0 {
        Seq::empty()
    } else {
        let p = kept_prefix(s, (n - 1) as nat, isDir);
        if keeps(s, n - 1, isDir) {
            p.push(s[n - 1])
        } else {
            p
        }
    }
}

/// `s` with back slashes, slashes, and every period but the last one (all of them
/// when `isDir`) removed.
pub open spec fn spec_sanitize(s: Seq<char>, isDir: bool) -> Seq<char> {
    kept_prefix(s, s.len(), isDir)
}

proof fn lemma_last_period_step(s: Seq<char>, i: int)
    requires
        0 <= i < s.len(),
    ensures
        last_period(s.take(i + 1)) == if s[i] == '.' { i } else { last_period(s.take(i)) },
{
    assert(s.take(i + 1).drop_last() =~= s.take(i));
}

proof fn lemma_kept_prefix_len(s: Seq<char>, n: nat, isDir: bool)
    requires
        n <= s.len(),
    ensures
        kept_prefix(s, n, isDir).len() <= n,
        kept_prefix(s, n, isDir).len() == n <==> forall|j: int| 0 <= j < n ==> #[trigger] keeps(s, j, isDir),
        kept_prefix(s, n, isDir).len() == n ==> kept_prefix(s, n, isDir) == s.take(n as int),
    decreases n,
{
    if n > 0 {
        lemma_kept_prefix_len(s, (n - 1) as nat, isDir);
        if kept_prefix(s, n, isDir).len() == n {
            assert(s.take(n as int) =~= s.take(n - 1).push(s[n - 1]));
        }
        if !keeps(s, n - 1, isDir) {
            assert(!(forall|j: int| 0 <= j < n ==> #[trigger] keeps(s, j, isDir)));
        }
    }
}

/// What the first `n` kept characters look like: no back slash or slash, at most
/// one period, none for a directory, and none before the last period of `s`.
proof fn lemma_kept_prefix_clean(s: Seq<char>, n: nat, isDir: bool)
    requires
        n <= s.len(),
    ensures
        forall|i: int| 0 <= i < kept_prefix(s, n, isDir).len() ==> #[trigger] kept_prefix(s, n, isDir)[i] != '\\' && kept_prefix(s, n, isDir)[i] != '/',
        isDir ==> forall|i: int| 0 <= i < kept_prefix(s, n, isDir).len() ==> #[trigger] kept_prefix(s, n, isDir)[i] != '.',
        n <= last_period(s) ==> forall|i: int| 0 <= i < kept_prefix(s, n, isDir).len() ==> #[trigger] kept_prefix(s, n, isDir)[i] != '.',
        forall|a: int, b: int|
            0 <= a < b < kept_prefix(s, n, isDir).len() ==> !(#[trigger] kept_prefix(s, n, isDir)[a] == '.' && #[trigger] kept_prefix(s, n, isDir)[b] == '.'),
    decreases n,
{
    if n > 0 {
        lemma_kept_prefix_clean(s, (n - 1) as nat, isDir);
        let p = kept_prefix(s, (n - 1) as nat, isDir);
        let cur = kept_prefix(s, n, isDir);
        assert forall|i: int| 0 <= i < cur.len() implies (i < p.len() && #[trigger] cur[i] == p[i]) || (i == p.len()
            && cur[i] == s[n - 1] && keeps(s, n - 1, isDir)) by {
            if keeps(s, n - 1, isDir) {
                assert(cur == p.push(s[n - 1]));
            }
        }
        assert forall|i: int| 0 <= i < cur.len() implies #[trigger] cur[i] != '\\' && cur[i] != '/' by {
            if i < p.len() {
                assert(cur[i] == p[i]);
            }
        }
        if isDir {
            assert forall|i: int| 0 <= i < cur.len() implies #[trigger] cur[i] != '.' by {
                if i < p.len() {
                    assert(cur[i] == p[i]);
                }
            }
        }
        if n <= last_period(s) {
            assert forall|i: int| 0 <= i < cur.len() implies #[trigger] cur[i] != '.' by {
                if i < p.len() {
                    assert(cur[i] == p[i]);
                }
            }
        }
        assert forall|a: int, b: int| 0 <= a < b < cur.len() implies !(#[trigger] cur[a] == '.' && #[trigger] cur[b] == '.') by {
            assert(cur[a] == p[a]);
            if b < p.len() {
                assert(cur[b] == p[b]);
            } else if cur[b] == '.' {
                assert(n - 1 == last_period(s));
                assert(p[a] != '.');
            }
        }
    }
}

/// The only period of a sequence is its last one.
proof fn lemma_last_period_unique(r: Seq<char>, j: int)
    requires
        0 <= j < r.len(),
        r[j] == '.',
        forall|k: int| 0 <= k < r.len() && k != j ==> r[k] != '.',
    ensures
        last_period(r) == j,
    decreases r.len(),
{
    if r.last() != '.' {
        assert(j < r.len() - 1);
        lemma_last_period_unique(r.drop_last(), j);
    }
}

/// A sanitized name holds no back slash or slash, at most one period, and no
/// period at all when it names a directory; sanitizing it again changes nothing.
pub proof fn law_sanitize_clean(s: Seq<char>, isDir: bool)
    ensures
        forall|i: int| 0 <= i < spec_sanitize(s, isDir).len() ==> #[trigger] spec_sanitize(s, isDir)[i] != '\\' && spec_sanitize(s, isDir)[i] != '/',
        isDir ==> forall|i: int| 0 <= i < spec_sanitize(s, isDir).len() ==> #[trigger] spec_sanitize(s, isDir)[i] != '.',
        forall|a: int, b: int|
            0 <= a < b < spec_sanitize(s, isDir).len() ==> !(#[trigger] spec_sanitize(s, isDir)[a] == '.' && #[trigger] spec_sanitize(s, isDir)[b] == '.'),
        spec_sanitize(spec_sanitize(s, isDir), isDir) == spec_sanitize(s, isDir),
{
    let r = spec_sanitize(s, isDir);
    lemma_kept_prefix_clean(s, s.len(), isDir);
    assert forall|j: int| 0 <= j < r.len() implies #[trigger] keeps(r, j, isDir) by {
        if r[j] == '.' {
            assert forall|k: int| 0 <= k < r.len() && k != j implies r[k] != '.' by {
                if k < j {
                    assert(!(r[k] == '.' && r[j] == '.'));
                } else {
                    assert(!(r[j] == '.' && r[k] == '.'));
                }
            }
            lemma_last_period_unique(r, j);
        }
    }
    lemma_kept_prefix_len(r, r.len(), isDir);
    assert(r.take(r.len() as int) =~= r);
}

/// Removes back slashes, slashes and every period but the last one (all of them
/// when `isDir`) from a name, so that it can serve as a file or directory name.
pub fn sanitize(dirty: &str, isDir: bool) -> (r: String)
    ensures
        r@ == spec_sanitize(dirty@, isDir),
{
    let n = dirty.unicode_len();
    let mut last: usize = n;
    let mut i: usize = 0;
    proof {
        assert(dirty@.take(0) =~= Seq::<char>::empty());
    }
    while i < n
        invariant
            i <= n,
            n == dirty@.len(),
            last_period(dirty@.take(i as int)) == -1 ==> last == n,
            last_period(dirty@.take(i as int)) != -1 ==> last as int == last_period(dirty@.take(i as int)),
            -1 <= last_period(dirty@.take(i as int)) < i,
        decreases n - i,
    {
        proof {
            lemma_last_period_step(dirty@, i as int);
        }
        if dirty.get_char(i) == '.' {
            last = i;
        }
        i += 1;
    }
    proof {
        assert(dirty@.take(n as int) =~= dirty@);
    }
    let mut clean = String::new();
    let mut i: usize = 0;
    while i < n
        invariant
            i <= n,
            n == dirty@.len(),
            last_period(dirty@) == -1 ==> last == n,
            last_period(dirty@) != -1 ==> last as int == last_period(dirty@),
            -1 <= last_period(dirty@) < n,
            clean@ == kept_prefix(dirty@, i as nat, isDir),
        decreases n - i,
    {
        let c = dirty.get_char(i);
        if c != '\\' && c != '/' && (c != '.' || (!isDir && i == last)) {
            push_char(&mut clean, c);
        }
        i += 1;
    }
    clean
}

/// Whether `sanitize` leaves `name` as it is.
pub fn is_clean(name: &str, isDir: bool) -> (r: bool)
    ensures
        r == (spec_sanitize(name@, isDir) == name@),
{
    let clean = sanitize(name, isDir);
    proof {
        lemma_kept_prefix_len(name@, name@.len(), isDir);
        assert(name@.take(name@.len() as int) =~= name@);
    }
    clean.as_str().unicode_len() == name.unicode_len()
}

/// Where an image input node reads its image from.
#[derive(Debug)]
pub enum ImageSource {
    /// A file of the web resources.
    Web(String),
    /// A file among the user's uploaded images.
    User(String),
}

/// The name of the image that is read when no other is named.
pub open spec fn default_image() -> Seq<char> {
    "dummy.png"@
}

/// The file an image input node reads for the file name it was given, as the user
/// `username`: the cleaned name, or the default image when nothing is left of it;
/// a name other than the default one is looked up among the user's images, under a
/// name prefixed with the cleaned user name.
pub open spec fn spec_image_source(filename: Seq<char>, username: Seq<char>) -> (bool, Seq<char>) {
    let f = spec_sanitize(filename, false);
    let name = if f.len() == 0 { default_image() } else { f };
    if name == default_image() {
        (false, name)
    } else {
        (true, spec_sanitize(username, true) + name)
    }
}

/// The file an image input node reads (see `spec_image_source`).
pub fn image_source(filename: &str, username: &str) -> (r: ImageSource)
    ensures
        match r {
            ImageSource::Web(f) => spec_image_source(filename@, username@) == (false, f@),
            ImageSource::User(f) => spec_image_source(filename@, username@) == (true, f@),
        },
{
    let cleaned = sanitize(filename, false);
    let default = "dummy.png";
    proof {
        reveal_strlit("dummy.png");
    }
    let name = if cleaned.as_str().unicode_len() == 0 {
        default.to_string()
    } else {
        cleaned
    };
    if crate::text::str_eq(name.as_str(), default) {
        ImageSource::Web(name)
    } else {
        let mut path = sanitize(username, true);
        path.append(name.as_str());
        ImageSource::User(path)
    }
}

/// How a web resource is sent, by the text after the last period of its name (the
/// whole name when it has none).
#[derive(Clone, Copy, PartialEq, Eq, Debug, Structural)]
pub enum WebFile {
    Png,
    Css,
    Html,
}

/// The text after the last period of `name`, or all of it when it has none.
pub open spec fn extension(name: Seq<char>) -> Seq<char> {
    name.subrange(last_period(name) + 1, name.len() as int)
}

/// How the web resource `name` is sent.
pub open spec fn spec_web_file(name: Seq<char>) -> WebFile {
    if extension(name) == "png"@ {
        WebFile::Png
    } else if extension(name) == "css"@ {
        WebFile::Css
    } else {
        WebFile::Html
    }
}

/// How the web resource `name` is sent: as a PNG image, a style sheet, or a page.
pub fn web_file(name: &str) -> (r: WebFile)
    ensures
        r == spec_web_file(name@),
{
    let n = name.unicode_len();
    let mut start: usize = 0;
    let mut i: usize = 0;
    proof {
        assert(name@.take(0) =~= Seq::<char>::empty());
    }
    while i < n
        invariant
            i <= n,
            n == name@.len(),
            start as int == last_period(name@.take(i as int)) + 1,
            -1 <= last_period(name@.take(i as int)) < i,
        decreases n - i,
    {
        proof {
            lemma_last_period_step(name@, i as int);
        }
        if name.get_char(i) == '.' {
            start = i + 1;
        }
        i += 1;
    }
    proof {
        assert(name@.take(n as int) =~= name@);
    }
    let ext = name.substring_char(start, n);
    if crate::text::str_eq(ext, "png") {
        WebFile::Png
    } else if crate::text::str_eq(ext, "css") {
        WebFile::Css
    } else {
        WebFile::Html
    }
}

// ---------------------------------------------------------------------------
// Graphs kept as command histories
// ---------------------------------------------------------------------------

/// Why a stored graph could not be loaded.
#[derive(Clone, Copy, PartialEq, Eq, Debug, Structural)]
pub enum LoadError {
    graphNotFound,
    graphNotValid,
}

/// Rebuilds a graph by executing its stored command history on a new graph.
/// `graphNotValid` when a command fails; `None` when a command cannot be carried
/// out (see `Graph::try_execute_commands`).
pub fn graph_from_history(history: Commands) -> (r: Option<Result<Graph, LoadError>>)
    ensures
        ({
            let (g, outcome) = crate::commands::spec_execute_commands(
                Graph::spec_new(),
                crate::graph::commands_view(history.commands@),
            );
            match outcome {
                None => r is None,
                Some(Ok(_)) => r matches Some(Ok(graph)) && graph@ == g && graph@.wf(),
                Some(Err(_)) => r == Some(Err::<Graph, LoadError>(LoadError::graphNotValid)),
            }
        }),
{
    let mut graph = Graph::new();
    match graph.try_execute_commands(history) {
        None => None,
        Some(Ok(())) => Some(Ok(graph)),
        Some(Err(_)) => Some(Err(LoadError::graphNotValid)),
    }
}

/// The text of each error, as the editor receives it.
pub open spec fn spec_error_text(e: GraphError) -> Seq<char> {
    match e {
        GraphError::Cycle => "cycle"@,
        GraphError::EdgeNotFound => "edge not found"@,
        GraphError::NodeNotFound => "node not found"@,
        GraphError::MismatchedNodes => "mismatched sockets"@,
        GraphError::UnknownCommand => "unknown command"@,
        GraphError::IllFormedCommand => "ill-formed command"@,
    }
}

/// The text the editor is sent for a refused command.
pub fn error_text(e: GraphError) -> (r: &'static str)
    ensures
        r@ == spec_error_text(e),
{
    match e {
        GraphError::Cycle => "cycle",
        GraphError::EdgeNotFound => "edge not found",
        GraphError::NodeNotFound => "node not found",
        GraphError::MismatchedNodes => "mismatched sockets",
        GraphError::UnknownCommand => "unknown command",
        GraphError::IllFormedCommand => "ill-formed command",
    }
}

} // verus!
